use crate::primitives::{is_sep, range_in, ComponentType, Elements, KeyVal, PrePrimitive, Primitive, Span};
use vstd::prelude::*;

verus! {

/// No separator among `t[a..b]`.
pub open spec fn no_sep(t: Seq<u8>, a: int, b: int) -> bool {
    forall|j: int| a <= j < b ==> !is_sep(#[trigger] t[j])
}

/// The token that a `_`-bounded slice `start..end` becomes, given the token to its right.
pub open spec fn keylike(start: int, end: int, prev: Option<Primitive>) -> Primitive {
    match prev {
        None => Primitive::Suffix(start as usize, end as usize),
        Some(Primitive::Suffix(_, _)) => Primitive::Suffix(start as usize, end as usize),
        Some(Primitive::Value(_, _)) => Primitive::Key(start as usize, end as usize),
        Some(_) => Primitive::Part(start as usize, end as usize),
    }
}

/// The tokens of `t[s..p]`, right to left, where the rightmost pending token ends at `end`
/// and `prev` is the token already emitted to its right.
pub open spec fn tokens(t: Seq<u8>, s: int, p: int, end: int, prev: Option<Primitive>) -> Seq<
    Primitive,
>
    decreases p - s,
{
    if p <= s {
        seq![keylike(s, end, prev)]
    } else if t[p - 1] == 95u8 {
        let k = keylike(p, end, prev);
        seq![k] + tokens(t, s, p - 1, p - 1, Some(k))
    } else if t[p - 1] == 45u8 {
        let v = Primitive::Value(p as usize, end as usize);
        seq![v] + tokens(t, s, p - 1, p - 1, Some(v))
    } else {
        tokens(t, s, p - 1, end, prev)
    }
}

/// The tokens of the component `c` of `t`, in the order they are found (rightmost first).
pub open spec fn segment_tokens(t: Seq<u8>, c: Span) -> Seq<Primitive> {
    tokens(t, c.start as int, c.end as int, c.end as int, None)
}

pub open spec fn is_value(p: Primitive) -> bool {
    p is Value
}

pub open spec fn prim_end(p: Primitive) -> usize {
    match p {
        Primitive::Value(_, e) => e,
        Primitive::Key(_, e) => e,
        Primitive::Suffix(_, e) => e,
        Primitive::Part(_, e) => e,
    }
}

/// Grouping of tokens into elements, taking them from the end of `d` (leftmost token first).
pub open spec fn group(d: Seq<Primitive>) -> Seq<Elements>
    decreases d.len(), 0int,
{
    if d.len() == 0 {
        seq![]
    } else {
        let rest = d.drop_last();
        match d.last() {
            Primitive::Key(s, e) => kv_group(rest, s, e, e),
            Primitive::Suffix(s, e) => {
                let end = match d[0] {
                    Primitive::Suffix(_, e0) => e0,
                    _ => e,
                };
                seq![Elements::Suffix(Span { start: s, end })]
            },
            Primitive::Part(s, e) => seq![Elements::Part(Span { start: s, end: e })] + group(rest),
            Primitive::Value(_, _) => seq![],
        }
    }
}

/// The values that follow a key (at the end of `rest`) are folded into one `key-value`.
pub open spec fn kv_group(rest: Seq<Primitive>, ks: usize, kd: usize, end: usize) -> Seq<Elements>
    decreases rest.len(), 1int,
{
    if rest.len() > 0 && is_value(rest.last()) {
        kv_group(rest.drop_last(), ks, kd, prim_end(rest.last()))
    } else {
        seq![Elements::KeyVal(KeyVal { slice: Span { start: ks, end }, delimiter: kd })] + group(
            rest,
        )
    }
}

/// Token sequences that grouping takes apart without meeting a stray value.
pub open spec fn group_ok(d: Seq<Primitive>) -> bool
    decreases d.len(), 0int,
{
    if d.len() == 0 {
        true
    } else {
        let rest = d.drop_last();
        match d.last() {
            Primitive::Key(_, _) => rest.len() > 0 && is_value(rest.last()) && kv_ok(rest),
            Primitive::Suffix(_, _) => true,
            Primitive::Part(_, _) => group_ok(rest),
            Primitive::Value(_, _) => false,
        }
    }
}

pub open spec fn kv_ok(rest: Seq<Primitive>) -> bool
    decreases rest.len(), 1int,
{
    if rest.len() > 0 && is_value(rest.last()) {
        kv_ok(rest.drop_last())
    } else {
        group_ok(rest)
    }
}

/// Local shape of a token sequence: each key has a value to its right (the token before it
/// in the sequence, or `prev`), and each value has a key or a value to its left.
pub open spec fn tokens_wf(d: Seq<Primitive>, prev: Option<Primitive>) -> bool {
    &&& forall|k: int|
        0 <= k < d.len() && #[trigger] d[k] is Key ==> (if k == 0 {
            prev is Some && prev->0 is Value
        } else {
            d[k - 1] is Value
        })
    &&& forall|k: int|
        0 <= k < d.len() && #[trigger] d[k] is Value ==> k + 1 < d.len() && (d[k + 1] is Value
            || d[k + 1] is Key)
}

/// Elements of a component, classified.
pub open spec fn classify(e: Seq<Elements>) -> ComponentType
    recommends
        e.len() > 0,
{
    if e.len() > 1 {
        ComponentType::TwoType(arbitrary())
    } else {
        match e[0] {
            Elements::Suffix(s) => ComponentType::ZeroType(s),
            Elements::KeyVal(kv) => ComponentType::OneType(kv),
            Elements::Part(s) => arbitrary(),
        }
    }
}

/// Whether a component's bytes are `.` or `..`.
pub open spec fn is_dots(t: Seq<u8>, a: int, b: int) -> bool {
    (b == a + 1 && t[a] == 46u8) || (b == a + 2 && t[a] == 46u8 && t[a + 1] == 46u8)
}

pub open spec fn emit(t: Seq<u8>, a: int, b: int) -> Seq<Span> {
    if is_dots(t, a, b) {
        seq![]
    } else {
        seq![Span { start: a as usize, end: b as usize }]
    }
}

/// The named components of `t` from byte `i` on: maximal runs of bytes other than `/`,
/// leaving out `.` and `..`; `start` is where the current run began, if one is open.
pub open spec fn comps(t: Seq<u8>, i: int, start: Option<int>) -> Seq<Span>
    decreases t.len() - i,
{
    if i >= t.len() {
        match start {
            Some(a) => emit(t, a, t.len() as int),
            None => seq![],
        }
    } else if t[i] == 47u8 {
        (match start {
            Some(a) => emit(t, a, i),
            None => seq![],
        }) + comps(t, i + 1, None)
    } else {
        comps(
            t,
            i + 1,
            match start {
                Some(a) => Some(a),
                None => Some(i),
            },
        )
    }
}

/// The components of a path.
pub open spec fn path_components(t: Seq<u8>) -> Seq<Span> {
    comps(t, 0, None)
}

proof fn lemma_tokens_skip(t: Seq<u8>, s: int, q: int, p: int, end: int, prev: Option<Primitive>)
    requires
        s <= q <= p <= t.len(),
        no_sep(t, q, p),
    ensures
        tokens(t, s, p, end, prev) == tokens(t, s, q, end, prev),
    decreases p - q,
{
    if q < p {
        assert(!is_sep(t[p - 1]));
        lemma_tokens_skip(t, s, q, p - 1, end, prev);
    }
}

/// The tokens from one step on keep the local shape, and the first of them follows `prev`.
proof fn lemma_tokens_wf(t: Seq<u8>, s: int, p: int, end: int, prev: Option<Primitive>)
    requires
        s <= p <= t.len(),
    ensures
        tokens(t, s, p, end, prev).len() > 0,
        tokens_wf(tokens(t, s, p, end, prev), prev),
        prev is Some && prev->0 is Value ==> (tokens(t, s, p, end, prev)[0] is Value
            || tokens(t, s, p, end, prev)[0] is Key),
    decreases p - s,
{
    let r = tokens(t, s, p, end, prev);
    if p <= s {
    } else if t[p - 1] == 95u8 {
        let k = keylike(p, end, prev);
        lemma_tokens_wf(t, s, p - 1, p - 1, Some(k));
        let rest = tokens(t, s, p - 1, p - 1, Some(k));
        assert(r == seq![k] + rest);
        assert forall|j: int| 0 <= j < r.len() && #[trigger] r[j] is Key implies (if j == 0 {
            prev is Some && prev->0 is Value
        } else {
            r[j - 1] is Value
        }) by {
            if j > 0 {
                assert(r[j] == rest[j - 1]);
            }
        }
        assert forall|j: int| 0 <= j < r.len() && #[trigger] r[j] is Value implies j + 1 < r.len()
            && (r[j + 1] is Value || r[j + 1] is Key) by {
            if j > 0 {
                assert(r[j] == rest[j - 1]);
            }
        }
    } else if t[p - 1] == 45u8 {
        let v = Primitive::Value(p as usize, end as usize);
        lemma_tokens_wf(t, s, p - 1, p - 1, Some(v));
        let rest = tokens(t, s, p - 1, p - 1, Some(v));
        assert(r == seq![v] + rest);
        assert forall|j: int| 0 <= j < r.len() && #[trigger] r[j] is Key implies (if j == 0 {
            prev is Some && prev->0 is Value
        } else {
            r[j - 1] is Value
        }) by {
            if j > 0 {
                assert(r[j] == rest[j - 1]);
            }
        }
        assert forall|j: int| 0 <= j < r.len() && #[trigger] r[j] is Value implies j + 1 < r.len()
            && (r[j + 1] is Value || r[j + 1] is Key) by {
            if j > 0 {
                assert(r[j] == rest[j - 1]);
            } else {
                assert(r[1] == rest[0]);
            }
        }
    } else {
        lemma_tokens_wf(t, s, p - 1, end, prev);
    }
}

proof fn lemma_wf_prefix(d: Seq<Primitive>, n: int)
    requires
        tokens_wf(d, None),
        0 <= n <= d.len(),
        n > 0 ==> !(d[n - 1] is Value),
    ensures
        tokens_wf(d.subrange(0, n), None),
{
    let e = d.subrange(0, n);
    assert forall|k: int| 0 <= k < e.len() && #[trigger] e[k] is Key implies (if k == 0 {
        false
    } else {
        e[k - 1] is Value
    }) by {
        assert(e[k] == d[k]);
    }
    assert forall|k: int| 0 <= k < e.len() && #[trigger] e[k] is Value implies k + 1 < e.len() && (
    e[k + 1] is Value || e[k + 1] is Key) by {
        assert(e[k] == d[k]);
    }
}

proof fn lemma_wf_group_ok(d: Seq<Primitive>)
    requires
        tokens_wf(d, None),
    ensures
        group_ok(d),
    decreases d.len(), 0int,
{
    if d.len() > 0 {
        let n = d.len() - 1;
        let rest = d.drop_last();
        assert(d[n] == d.last());
        match d.last() {
            Primitive::Key(_, _) => {
                assert(d[n] is Key);
                assert(rest.last() == d[n - 1]);
                lemma_wf_kv_ok(d, n);
            },
            Primitive::Part(_, _) => {
                lemma_wf_prefix(d, n);
                assert(rest == d.subrange(0, n));
                lemma_wf_group_ok(rest);
            },
            Primitive::Suffix(_, _) => {},
            Primitive::Value(_, _) => {
                assert(d[n] is Value);
            },
        }
    }
}

proof fn lemma_wf_kv_ok(d: Seq<Primitive>, n: int)
    requires
        tokens_wf(d, None),
        0 <= n < d.len(),
        d[n] is Value || d[n] is Key,
    ensures
        kv_ok(d.subrange(0, n)),
    decreases n, 1int,
{
    let rest = d.subrange(0, n);
    if n > 0 && is_value(rest.last()) {
        assert(rest.last() == d[n - 1]);
        assert(rest.drop_last() == d.subrange(0, n - 1));
        lemma_wf_kv_ok(d, n - 1);
    } else {
        if n > 0 {
            assert(rest.last() == d[n - 1]);
        }
        lemma_wf_prefix(d, n);
        lemma_wf_group_ok(rest);
    }
}

/// The tokens of a component can be grouped without meeting a stray value.
pub proof fn lemma_segment_tokens_group_ok(t: Seq<u8>, c: Span)
    requires
        range_in(c, t.len() as int),
    ensures
        group_ok(segment_tokens(t, c)),
{
    lemma_tokens_wf(t, c.start as int, c.end as int, c.end as int, None);
    lemma_wf_group_ok(segment_tokens(t, c));
}

/// The last separator in `t[s..e]`, as an absolute position.
pub fn get_next_elem(t: &[u8], s: usize, e: usize) -> (r: PrePrimitive)
    requires
        s <= e <= t@.len(),
    ensures
        r == PrePrimitive::Prefix ==> no_sep(t@, s as int, e as int),
        r matches PrePrimitive::KeyLike(i) ==> s <= i < e && t@[i as int] == 95u8 && no_sep(
            t@,
            i + 1,
            e as int,
        ),
        r matches PrePrimitive::ValueLike(i) ==> s <= i < e && t@[i as int] == 45u8 && no_sep(
            t@,
            i + 1,
            e as int,
        ),
{
    let mut p: usize = e;
    while p > s
        invariant
            s <= p <= e <= t@.len(),
            no_sep(t@, p as int, e as int),
        decreases p - s,
    {
        let b = t[p - 1];
        if b == 95u8 {
            return PrePrimitive::KeyLike(p - 1);
        } else if b == 45u8 {
            return PrePrimitive::ValueLike(p - 1);
        }
        p = p - 1;
    }
    PrePrimitive::Prefix
}

/// The token for a `_`-bounded slice, given the token last emitted (to its right).
pub fn process_keylike(start: usize, end: usize, last_elem: Option<Primitive>) -> (r: Primitive)
    ensures
        r == keylike(start as int, end as int, last_elem),
{
    match last_elem {
        Some(last) => match last {
            Primitive::Suffix(..) => Primitive::Suffix(start, end),
            Primitive::Value(..) => Primitive::Key(start, end),
            Primitive::Key(..) | Primitive::Part(..) => Primitive::Part(start, end),
        },
        None => Primitive::Suffix(start, end),
    }
}

/// Splits one component of `template` into tokens, scanning right to left.
pub fn parse_path_segment(component: Span, template: &[u8]) -> (r: Vec<Primitive>)
    requires
        range_in(component, template@.len() as int),
    ensures
        r@ == segment_tokens(template@, component),
        group_ok(r@),
{
    let ghost t = template@;
    let s = component.start;
    let mut p: usize = component.end;
    let mut elems: Vec<Primitive> = Vec::new();
    let mut last: Option<Primitive> = None;
    proof {
        lemma_segment_tokens_group_ok(t, component);
    }
    loop
        invariant
            s <= p <= component.end <= t.len(),
            t == template@,
            elems@ + tokens(t, s as int, p as int, p as int, last) == segment_tokens(t, component),
            group_ok(segment_tokens(t, component)),
        decreases p - s,
    {
        let next = get_next_elem(template, s, p);
        match next {
            PrePrimitive::KeyLike(i) => {
                proof {
                    lemma_tokens_skip(t, s as int, i + 1, p as int, p as int, last);
                }
                let k = process_keylike(i + 1, p, last);
                elems.push(k);
                last = Some(k);
                p = i;
                assert(elems@ + tokens(t, s as int, p as int, p as int, last) == segment_tokens(
                    t,
                    component,
                ));
            },
            PrePrimitive::ValueLike(i) => {
                proof {
                    lemma_tokens_skip(t, s as int, i + 1, p as int, p as int, last);
                }
                let v = Primitive::Value(i + 1, p);
                elems.push(v);
                last = Some(v);
                p = i;
                assert(elems@ + tokens(t, s as int, p as int, p as int, last) == segment_tokens(
                    t,
                    component,
                ));
            },
            PrePrimitive::Prefix => {
                proof {
                    lemma_tokens_skip(t, s as int, s as int, p as int, p as int, last);
                }
                let k = process_keylike(s, p, last);
                elems.push(k);
                assert(elems@ == segment_tokens(t, component));
                return elems;
            },
        }
    }
}

/// Pops the run of values that follows a key and folds it into one `key-value`.
fn consume_values(data: &mut Vec<Primitive>, keystart: usize, keyend: usize) -> (r: Elements)
    requires
        old(data)@.len() > 0,
        is_value(old(data)@.last()),
        kv_ok(old(data)@),
    ensures
        seq![r] + group(final(data)@) == kv_group(old(data)@, keystart, keyend, keyend),
        group_ok(final(data)@),
        final(data)@.len() < old(data)@.len(),
{
    let ghost d0 = data@;
    let mut end: usize = keyend;
    loop
        invariant
            data@.len() > 0,
            is_value(data@.last()),
            kv_ok(data@),
            data@.len() <= d0.len(),
            d0 == old(data)@,
            kv_group(data@, keystart, keyend, end) == kv_group(d0, keystart, keyend, keyend),
        decreases data@.len(),
    {
        let ghost before = data@;
        let last = data.pop();
        match last {
            Some(Primitive::Value(_s, e)) => {
                assert(before.drop_last() == data@);
                assert(kv_ok(data@));
                end = e;
            },
            _ => {
                proof {
                    assert(false);
                }
            },
        }
        let more = match data.last() {
            Some(Primitive::Value(..)) => true,
            _ => false,
        };
        if !more {
            proof {
                if data@.len() > 0 {
                    assert(!is_value(data@.last()));
                }
                assert(kv_group(data@, keystart, keyend, end) == seq![Elements::KeyVal(KeyVal { slice: Span { start: keystart, end }, delimiter: keyend })] + group(data@));
            }
            let r = Elements::KeyVal(KeyVal::new(Span { start: keystart, end }, keyend));
            assert(seq![r] + group(data@) == kv_group(d0, keystart, keyend, keyend));
            assert(data@.len() < d0.len());
            return r;
        }
    }
}

/// Folds tokens into elements: values onto their key, the trailing tokens into one suffix.
pub fn group_primitives(data: Vec<Primitive>) -> (r: Vec<Elements>)
    requires
        group_ok(data@),
    ensures
        r@ == group(data@),
{
    let ghost d0 = data@;
    let mut rest = data;
    let mut elems: Vec<Elements> = Vec::new();
    loop
        invariant
            group_ok(rest@),
            d0 == data@,
            elems@ + group(rest@) == group(d0),
        decreases rest@.len(),
    {
        let ghost before = rest@;
        match rest.pop() {
            None => {
                assert(group(before) =~= seq![]);
                assert(elems@ =~= elems@ + group(before));
                assert(elems@ == group(d0));
                return elems;
            },
            Some(Primitive::Key(start, end)) => {
                let kv = consume_values(&mut rest, start, end);
                elems.push(kv);
                assert(elems@ + group(rest@) == group(d0));
            },
            Some(Primitive::Suffix(start, end)) => {
                let end = match rest.first() {
                    Some(Primitive::Suffix(_, e)) => *e,
                    _ => end,
                };
                proof {
                    if before.len() > 1 {
                        assert(before[0] == rest@[0]);
                    }
                }
                elems.push(Elements::Suffix(Span { start, end }));
                assert(elems@ == group(d0));
                return elems;
            },
            Some(Primitive::Part(start, end)) => {
                elems.push(Elements::Part(Span { start, end }));
                assert(elems@ + group(rest@) == group(d0));
            },
            Some(Primitive::Value(..)) => {
                proof {
                    assert(before.last() is Value);
                    assert(!group_ok(before));
                }
                return elems;
            },
        }
    }
}

/// Classifies a component by its elements; a lone part cannot come out of grouping.
pub fn classify_component(elements: Vec<Elements>) -> (r: ComponentType)
    requires
        elements@.len() > 0,
        elements@.len() == 1 ==> !(elements@[0] is Part),
    ensures
        elements@.len() > 1 ==> r == ComponentType::TwoType(elements),
        elements@.len() == 1 ==> r == classify(elements@),
{
    let mut elements = elements;
    if elements.len() > 1 {
        return ComponentType::TwoType(elements);
    }
    match elements.pop() {
        Some(Elements::Suffix(suffix)) => ComponentType::ZeroType(suffix),
        Some(Elements::KeyVal(keyval)) => ComponentType::OneType(keyval),
        _ => {
            proof {
                assert(false);
            }
            ComponentType::TwoType(elements)
        },
    }
}

/// The byte ranges of the named components of a path.
pub fn get_components(path: &[u8]) -> (r: Vec<Span>)
    ensures
        r@ == path_components(path@),
{
    let ghost t = path@;
    let mut components: Vec<Span> = Vec::new();
    let mut i: usize = 0;
    let mut start: Option<usize> = None;
    while i < path.len()
        invariant
            i <= t.len(),
            t == path@,
            start matches Some(a) ==> a < i,
            components@ + comps(
                t,
                i as int,
                match start {
                    Some(a) => Some(a as int),
                    None => None,
                },
            ) == path_components(t),
        decreases t.len() - i,
    {
        if path[i] == 47u8 {
            if let Some(a) = start {
                if !is_dot_run(path, a, i) {
                    components.push(Span { start: a, end: i });
                }
            }
            start = None;
        } else if start.is_none() {
            start = Some(i);
        }
        i = i + 1;
    }
    if let Some(a) = start {
        if !is_dot_run(path, a, i) {
            components.push(Span { start: a, end: i });
        }
    }
    components
}

fn is_dot_run(t: &[u8], a: usize, b: usize) -> (r: bool)
    requires
        a < b <= t@.len(),
    ensures
        r == is_dots(t@, a as int, b as int),
{
    (b - a == 1 && t[a] == 46u8) || (b - a == 2 && t[a] == 46u8 && t[a + 1] == 46u8)
}

} // verus!
