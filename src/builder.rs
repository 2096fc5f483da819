use crate::bidspath::{clamp_end, first_dot, known_key, BidsPath, UnknownDatatypeTypes};
use crate::primitives::{slice_of, ComponentType, Elements, KeyVal, Span};
use crate::segments::{
    classify, classify_component, get_components, group, group_ok, group_primitives,
    lemma_segment_tokens_group_ok, parse_path_segment, path_components, segment_tokens, tokens,
};
use crate::standards::{check_datatype, check_entity, is_datatype, is_entity};
use vstd::prelude::*;
use vstd::utf8::encode_utf8;

verus! {

/// Whether the elements `e` are what the component `c` holds.
pub open spec fn comp_matches(c: ComponentType, e: Seq<Elements>) -> bool {
    match c {
        ComponentType::TwoType(v) => e.len() > 1 && v@ == e,
        ComponentType::ZeroType(s) => e == seq![Elements::Suffix(s)],
        ComponentType::OneType(kv) => e == seq![Elements::KeyVal(kv)],
    }
}

/// The elements of one component of `t`.
pub open spec fn component_elements(t: Seq<u8>, c: Span) -> Seq<Elements> {
    group(segment_tokens(t, c))
}

proof fn lemma_kv_group_nonempty(rest: Seq<crate::primitives::Primitive>, ks: usize, kd: usize, end: usize)
    ensures
        crate::segments::kv_group(rest, ks, kd, end).len() > 0,
        crate::segments::kv_group(rest, ks, kd, end)[0] is KeyVal,
    decreases rest.len(),
{
    if rest.len() > 0 && crate::segments::is_value(rest.last()) {
        lemma_kv_group_nonempty(rest.drop_last(), ks, kd, crate::segments::prim_end(rest.last()));
    }
}

proof fn lemma_group_nonempty(d: Seq<crate::primitives::Primitive>)
    requires
        group_ok(d),
        d.len() > 0,
    ensures
        group(d).len() > 0,
        group(d)[0] is Part ==> d.last() is Part,
{
    match d.last() {
        crate::primitives::Primitive::Key(s, e) => lemma_kv_group_nonempty(d.drop_last(), s, e, e),
        _ => {},
    }
}

proof fn lemma_tokens_first(t: Seq<u8>, s: int, p: int, end: int)
    requires
        s <= p,
    ensures
        tokens(t, s, p, end, None).len() > 0,
        tokens(t, s, p, end, None)[0] is Suffix || tokens(t, s, p, end, None)[0] is Value,
    decreases p - s,
{
    if p > s && t[p - 1] != 95u8 && t[p - 1] != 45u8 {
        lemma_tokens_first(t, s, p - 1, end);
    }
}

/// The elements of a component can be classified: there is one at least, and a lone one is
/// no part.
proof fn lemma_component_classifiable(t: Seq<u8>, c: Span)
    requires
        c.start <= c.end <= t.len(),
    ensures
        component_elements(t, c).len() > 0,
        component_elements(t, c).len() == 1 ==> !(component_elements(t, c)[0] is Part),
{
    let d = segment_tokens(t, c);
    lemma_segment_tokens_group_ok(t, c);
    lemma_tokens_first(t, c.start as int, c.end as int, c.end as int);
    lemma_group_nonempty(d);
    let e = group(d);
    if e.len() == 1 && e[0] is Part {
        if d.len() > 1 {
            lemma_group_nonempty(d.drop_last());
        }
        assert(d.len() == 1);
        assert(d[0] == d.last());
    }
}

pub open spec fn spans_ok(s: Seq<Span>, n: int) -> bool {
    forall|k: int| 0 <= k < s.len() ==> #[trigger] s[k].start <= s[k].end <= n
}

proof fn lemma_comps_in_bounds(t: Seq<u8>, i: int, start: Option<int>)
    requires
        0 <= i <= t.len(),
        t.len() <= usize::MAX,
        start matches Some(a) ==> 0 <= a < i,
    ensures
        spans_ok(crate::segments::comps(t, i, start), t.len() as int),
    decreases t.len() - i,
{
    if i < t.len() {
        if t[i] == 47u8 {
            lemma_comps_in_bounds(t, i + 1, None);
            let head = match start {
                Some(a) => crate::segments::emit(t, a, i),
                None => seq![],
            };
            let tail = crate::segments::comps(t, i + 1, None);
            assert(spans_ok(head, t.len() as int));
            assert forall|k: int| 0 <= k < (head + tail).len() implies #[trigger] (head + tail)[k].start <= (head + tail)[k].end <= t.len() by {
                if k >= head.len() {
                    assert((head + tail)[k] == tail[k - head.len()]);
                }
            }
        } else {
            lemma_comps_in_bounds(t, i + 1, match start { Some(a) => Some(a), None => Some(i) });
        }
    }
}

/// The components of a path, classified, ready for one of the parsers.
pub struct BidsPathComponents {
    pub components: Vec<ComponentType>,
}

/// What a component of a path was recognised as.
#[derive(Debug)]
pub enum BidsPathPart {
    Head(usize),
    Parent(KeyVal),
    Datatype(Span),
    Name(Name),
    UncertainParent(KeyVal),
    UncertainDatatype(UnknownDatatypeTypes),
}

/// The elements of a filename-like component, sorted by kind.
#[derive(Debug)]
pub struct Name {
    pub entities: Option<Vec<KeyVal>>,
    pub parts: Option<Vec<Span>>,
    pub suffix: Option<Span>,
}

/// Entities, parts and the last suffix of a sequence of elements.
pub open spec fn name_entities(e: Seq<Elements>) -> Seq<KeyVal>
    decreases e.len(),
{
    if e.len() == 0 {
        seq![]
    } else {
        let r = name_entities(e.drop_last());
        match e.last() {
            Elements::KeyVal(kv) => r.push(kv),
            _ => r,
        }
    }
}

pub open spec fn name_parts(e: Seq<Elements>) -> Seq<Span>
    decreases e.len(),
{
    if e.len() == 0 {
        seq![]
    } else {
        let r = name_parts(e.drop_last());
        match e.last() {
            Elements::Part(p) => r.push(p),
            _ => r,
        }
    }
}

pub open spec fn name_suffix(e: Seq<Elements>) -> Option<Span>
    decreases e.len(),
{
    if e.len() == 0 {
        None
    } else {
        match e.last() {
            Elements::Suffix(s) => Some(s),
            _ => name_suffix(e.drop_last()),
        }
    }
}

impl Name {
    /// Sorts the elements of a filename: `key-value`s and parts in order, the last suffix.
    pub fn from_twotype(elems: &Vec<Elements>) -> (r: Name)
        ensures
            r.entities is None <==> name_entities(elems@).len() == 0,
            r.entities matches Some(v) ==> v@ == name_entities(elems@),
            r.parts is None <==> name_parts(elems@).len() == 0,
            r.parts matches Some(v) ==> v@ == name_parts(elems@),
            r.suffix == name_suffix(elems@),
    {
        let mut entities: Vec<KeyVal> = Vec::new();
        let mut parts: Vec<Span> = Vec::new();
        let mut suffix: Option<Span> = None;
        let mut i: usize = 0;
        while i < elems.len()
            invariant
                i <= elems@.len(),
                entities@ == name_entities(elems@.take(i as int)),
                parts@ == name_parts(elems@.take(i as int)),
                suffix == name_suffix(elems@.take(i as int)),
            decreases elems@.len() - i,
        {
            assert(elems@.take(i + 1).drop_last() == elems@.take(i as int));
            match elems[i] {
                Elements::KeyVal(keyval) => entities.push(keyval),
                Elements::Part(part) => parts.push(part),
                Elements::Suffix(s) => suffix = Some(s),
            }
            i = i + 1;
        }
        assert(elems@.take(i as int) == elems@);
        Name {
            entities: if entities.len() > 0 { Some(entities) } else { None },
            parts: if parts.len() > 0 { Some(parts) } else { None },
            suffix,
        }
    }

    pub fn from_onetype(keyval: KeyVal) -> (r: Name)
        ensures
            r.entities matches Some(v) && v@ == seq![keyval],
            r.parts is None,
            r.suffix is None,
    {
        let v = vec![keyval];
        Name { entities: Some(v), parts: None, suffix: None }
    }

    pub fn from_zerotype(comp: Span) -> (r: Name)
        ensures
            r.entities is None,
            r.parts is None,
            r.suffix == Some(comp),
    {
        Name { entities: None, parts: None, suffix: Some(comp) }
    }
}

/// A path split into classified components, before either parser runs.
#[derive(Debug)]
pub struct BidsPathBuilder {
    pub path: String,
    pub components: Vec<ComponentType>,
    pub depth: usize,
    pub root: usize,
}

impl BidsPathBuilder {
    /// The path's UTF-8 bytes.
    pub open spec fn bytes(&self) -> Seq<u8> {
        encode_utf8(self.path@)
    }

    /// Every component of the path, in order, holds the elements the grammar gives it.
    pub open spec fn wf(&self) -> bool {
        let t = encode_utf8(self.path@);
        let cs = path_components(t);
        &&& self.components@.len() == cs.len()
        &&& forall|i: int|
            0 <= i < cs.len() ==> comp_matches(
                #[trigger] self.components@[i],
                component_elements(t, cs[i]),
            )
    }

    /// Splits `path` into components and classifies each.
    pub fn new(path: String, root: usize) -> (r: BidsPathBuilder)
        ensures
            r.path@ == path@,
            r.root == root,
            r.depth == r.components@.len(),
            r.wf(),
    {
        let bytes = path.as_str().as_bytes();
        let ghost t = bytes@;
        let components = get_components(bytes);
        proof {
            assert(t.len() == bytes.len());
            lemma_comps_in_bounds(t, 0, None);
        }
        let mut comps: Vec<ComponentType> = Vec::new();
        let mut i: usize = 0;
        while i < components.len()
            invariant
                i <= components@.len(),
                t == bytes@,
                t == encode_utf8(path@),
                components@ == path_components(t),
                spans_ok(components@, t.len() as int),
                comps@.len() == i,
                forall|k: int|
                    0 <= k < i ==> comp_matches(
                        #[trigger] comps@[k],
                        component_elements(t, components@[k]),
                    ),
            decreases components@.len() - i,
        {
            let c = components[i];
            assert(components@[i as int].start <= components@[i as int].end <= t.len());
            let prims = parse_path_segment(c, bytes);
            let elements = group_primitives(prims);
            proof {
                lemma_component_classifiable(t, c);
            }
            let ghost e = elements@;
            let ct = classify_component(elements);
            assert(e.len() == 1 ==> e =~= seq![e[0]]);
            assert(comp_matches(ct, component_elements(t, components@[i as int])));
            let ghost before = comps@;
            comps.push(ct);
            assert forall|k: int| 0 <= k < i + 1 implies comp_matches(
                #[trigger] comps@[k],
                component_elements(t, components@[k]),
            ) by {
                if k < i {
                    assert(comps@[k] == before[k]);
                }
            }
            i = i + 1;
        }
        let depth = comps.len();
        BidsPathBuilder { path, components: comps, depth, root }
    }

    /// The path with no annotation at all.
    pub fn no_parse(self) -> (r: BidsPath)
        ensures
            r.path@ == self.path@,
            r.root == self.root,
            r.depth == self.depth,
            r.is_bare(),
    {
        BidsPath::new(self.path, self.root, self.depth)
    }
}

} // verus!
