use crate::bidspath::{clamp_end, contains_bytes, first_dot, known_key, BidsPath};
use crate::builder::BidsPathBuilder;
use crate::primitives::{slice_of, ComponentType, Elements, KeyVal, Span};
use crate::standards::{check_datatype, check_entity, is_datatype, is_entity};
use vstd::prelude::*;

verus! {

/// Why a path could not be taken.
#[derive(Debug)]
pub enum BidsPathErr {
    /// The path is not valid unicode; holds the path as far as it could be read.
    Encoding(String),
    /// The path breaks the strict grammar; holds the bare path.
    Validation(BidsPath),
}

impl BidsPathErr {
    /// The bare path of a validation failure; an encoding failure is handed back.
    pub fn get_bidspath(self) -> (r: Result<BidsPath, BidsPathErr>)
        ensures
            self matches BidsPathErr::Validation(p) ==> (r matches Ok(q) && q == p),
            self is Encoding ==> r == Err::<BidsPath, BidsPathErr>(self),
    {
        match self {
            BidsPathErr::Encoding(..) => Err(self),
            BidsPathErr::Validation(p) => Ok(p),
        }
    }
}

/// What the last component of a path was recognised as, in the strict grammar.
#[derive(Debug, Clone, Copy, PartialEq, Eq, Structural)]
pub enum LastMatch {
    Head,
    Parent,
    Datatype,
    Name,
}

/// The annotations gathered so far by the strict parser.
pub struct StrictState {
    pub parents: Seq<KeyVal>,
    pub entities: Seq<KeyVal>,
    pub parts: Option<Seq<Span>>,
    pub suffix: Option<Span>,
    pub extension: Option<Span>,
    pub datatype: Option<Span>,
    pub head: usize,
    pub last: LastMatch,
    pub failed: bool,
}

/// Whether `k` is an entity key: one seen in the corpus, or a recognised one.
pub open spec fn entity_known(known: Seq<Vec<u8>>, k: Seq<u8>) -> bool {
    known_key(known, k) || is_entity(k)
}

pub open spec fn add_part(parts: Option<Seq<Span>>, p: Span) -> Option<Seq<Span>> {
    match parts {
        Some(v) => Some(v.push(p)),
        None => Some(seq![p]),
    }
}

/// A suffix range split at its first `.` into suffix and extension.
pub open spec fn split_ext(t: Seq<u8>, r: Span) -> (Span, Option<Span>) {
    match first_dot(t, r.start as int, clamp_end(r, t.len() as int)) {
        Some(p) => (Span { start: r.start, end: p as usize }, Some(Span { start: p as usize, end: r.end })),
        None => (r, None),
    }
}

pub open spec fn initial_state() -> StrictState {
    StrictState {
        parents: seq![],
        entities: seq![],
        parts: None,
        suffix: None,
        extension: None,
        datatype: None,
        head: 0,
        last: LastMatch::Head,
        failed: false,
    }
}

/// One element of a filename, `name_end` for the very last one of the path.
pub open spec fn tw_elem(
    t: Seq<u8>,
    known: Seq<Vec<u8>>,
    st: StrictState,
    e: Elements,
    name_end: bool,
    in_name: bool,
) -> StrictState {
    if st.failed {
        st
    } else if name_end {
        match e {
            Elements::Suffix(r) => {
                let (sfx, ext) = split_ext(t, r);
                StrictState {
                    suffix: Some(sfx),
                    extension: match ext {
                        Some(x) => Some(x),
                        None => st.extension,
                    },
                    ..st
                }
            },
            _ => StrictState { failed: true, ..st },
        }
    } else {
        match e {
            Elements::KeyVal(kv) => if entity_known(known, slice_of(t, kv.key_spec())) {
                if in_name {
                    StrictState { entities: st.entities.push(kv), ..st }
                } else {
                    StrictState { parents: st.parents.push(kv), ..st }
                }
            } else {
                StrictState { parts: add_part(st.parts, kv.slice), ..st }
            },
            Elements::Part(r) => StrictState { parts: add_part(st.parts, r), ..st },
            Elements::Suffix(r) => StrictState { parts: add_part(st.parts, r), ..st },
        }
    }
}

/// The elements of a filename, last first.
pub open spec fn tw(
    t: Seq<u8>,
    known: Seq<Vec<u8>>,
    st: StrictState,
    es: Seq<Elements>,
    name_end: bool,
    in_name: bool,
) -> StrictState
    decreases es.len(),
{
    if es.len() == 0 {
        st
    } else {
        tw(t, known, tw_elem(t, known, st, es.last(), name_end, in_name), es.drop_last(), false, in_name)
    }
}

/// One component of the path, `is_last` for the filename.
pub open spec fn strict_step(
    t: Seq<u8>,
    known: Seq<Vec<u8>>,
    st: StrictState,
    c: ComponentType,
    is_last: bool,
) -> StrictState {
    if st.failed {
        st
    } else if is_last {
        match c {
            ComponentType::TwoType(es) => tw(t, known, st, es@, true, true),
            _ => StrictState { failed: true, ..st },
        }
    } else {
        match c {
            ComponentType::ZeroType(r) => match st.last {
                LastMatch::Head => if is_datatype(slice_of(t, r)) {
                    StrictState { datatype: Some(r), last: LastMatch::Datatype, ..st }
                } else {
                    StrictState { head: r.end, last: LastMatch::Head, ..st }
                },
                LastMatch::Parent => if is_datatype(slice_of(t, r)) {
                    StrictState { datatype: Some(r), last: LastMatch::Datatype, ..st }
                } else {
                    StrictState { parts: add_part(st.parts, r), last: LastMatch::Name, ..st }
                },
                _ => StrictState { parts: add_part(st.parts, r), last: LastMatch::Name, ..st },
            },
            ComponentType::OneType(kv) => if entity_known(known, slice_of(t, kv.key_spec())) {
                StrictState { parents: st.parents.push(kv), last: LastMatch::Parent, ..st }
            } else if st.last == LastMatch::Head {
                StrictState { head: kv.slice.end, last: LastMatch::Head, ..st }
            } else {
                StrictState { parts: add_part(st.parts, kv.slice), last: LastMatch::Name, ..st }
            },
            ComponentType::TwoType(es) => tw(t, known, st, es@, false, false),
        }
    }
}

/// The components of a path, first to last.
pub open spec fn strict_run(
    t: Seq<u8>,
    known: Seq<Vec<u8>>,
    st: StrictState,
    cs: Seq<ComponentType>,
) -> StrictState
    decreases cs.len(),
{
    if cs.len() == 0 {
        st
    } else {
        strict_run(t, known, strict_step(t, known, st, cs[0], cs.len() == 1), cs.drop_first())
    }
}

/// The annotations of a path record, as the strict parser sees them.
pub open spec fn model(bp: BidsPath, last: LastMatch) -> StrictState {
    StrictState {
        parents: bp.parents@,
        entities: bp.entities@,
        parts: match bp.parts {
            Some(v) => Some(v@),
            None => None,
        },
        suffix: bp.suffix,
        extension: bp.extension,
        datatype: bp.datatype,
        head: bp.head,
        last,
        failed: false,
    }
}

/// The fields the strict parser leaves alone.
pub open spec fn same_rest(a: BidsPath, b: BidsPath) -> bool {
    &&& a.path == b.path
    &&& a.root == b.root
    &&& a.depth == b.depth
    &&& a.uncertain_parents == b.uncertain_parents
    &&& a.uncertain_datatypes == b.uncertain_datatypes
}

fn push_part_of(bp: &mut BidsPath, part: Span, Ghost(lm): Ghost<LastMatch>)
    ensures
        same_rest(*final(bp), *old(bp)),
        model(*final(bp), lm) == (StrictState { parts: add_part(model(*old(bp), lm).parts, part), ..model(*old(bp), lm) }),
{
    bp.push_part(part);
}

fn key_is_known(bp: &BidsPath, known: &Vec<Vec<u8>>, kv: &KeyVal) -> (r: bool)
    ensures
        r == entity_known(known@, slice_of(bp.bytes(), kv.key_spec())),
{
    let key = kv.get_key(bp.as_bytes());
    contains_bytes(known, &key) || check_entity(key.as_slice())
}

/// The elements of a filename, last first; fails where the very last is no suffix.
fn handle_twotype(
    bp: &mut BidsPath,
    known: &Vec<Vec<u8>>,
    elems: &Vec<Elements>,
    last_component: bool,
    Ghost(lm): Ghost<LastMatch>,
) -> (r: Result<(), ()>)
    ensures
        same_rest(*final(bp), *old(bp)),
        r is Err <==> tw(old(bp).bytes(), known@, model(*old(bp), lm), elems@, last_component, last_component).failed,
        r is Ok ==> model(*final(bp), lm) == tw(old(bp).bytes(), known@, model(*old(bp), lm), elems@, last_component, last_component),
{
    let ghost t = bp.bytes();
    let ghost target = tw(t, known@, model(*bp, lm), elems@, last_component, last_component);
    let ghost b0 = *bp;
    let n = elems.len();
    assert(elems@.take(n as int) == elems@);
    let mut j: usize = 0;
    while j < n
        invariant
            j <= n == elems@.len(),
            t == bp.bytes(),
            same_rest(*bp, b0),
            b0 == *old(bp),
            target == tw(t, known@, model(*old(bp), lm), elems@, last_component, last_component),
            tw(t, known@, model(*bp, lm), elems@.take(n - j), j == 0 && last_component, last_component) == target,
        decreases n - j,
    {
        let idx = n - 1 - j;
        let elem = elems[idx];
        let ghost st = model(*bp, lm);
        assert(elems@.take(n - j).last() == elem);
        assert(elems@.take(n - j).drop_last() == elems@.take(n - j - 1));
        if j == 0 && last_component {
            match elem {
                Elements::Suffix(range) => {
                    let mut range = range;
                    let ext = bp.extract_extension(&mut range);
                    if let Some(extension) = ext {
                        bp.extension = Some(extension);
                    }
                    bp.suffix = Some(range);
                },
                _ => {
                    assert(tw_elem(t, known@, st, elem, true, last_component).failed);
                    proof {
                        lemma_tw_failed(t, known@, tw_elem(t, known@, st, elem, true, last_component), elems@.take(n - j - 1), last_component);
                    }
                    return Err(());
                },
            }
        } else {
            match elem {
                Elements::KeyVal(keyval) => {
                    if key_is_known(bp, known, &keyval) {
                        if last_component {
                            bp.entities.push(keyval);
                        } else {
                            bp.parents.push(keyval);
                        }
                    } else {
                        push_part_of(bp, keyval.slice, Ghost(lm));
                    }
                },
                Elements::Part(range) => push_part_of(bp, range, Ghost(lm)),
                Elements::Suffix(range) => push_part_of(bp, range, Ghost(lm)),
            }
        }
        j = j + 1;
    }
    assert(elems@.take(0) =~= seq![]);
    Ok(())
}

proof fn lemma_tw_failed(t: Seq<u8>, known: Seq<Vec<u8>>, st: StrictState, es: Seq<Elements>, in_name: bool)
    requires
        st.failed,
    ensures
        tw(t, known, st, es, false, in_name) == st,
    decreases es.len(),
{
    if es.len() > 0 {
        lemma_tw_failed(t, known, tw_elem(t, known, st, es.last(), false, in_name), es.drop_last(), in_name);
    }
}

proof fn lemma_tw_ok(t: Seq<u8>, known: Seq<Vec<u8>>, st: StrictState, es: Seq<Elements>)
    requires
        !st.failed,
    ensures
        !tw(t, known, st, es, false, false).failed,
        tw(t, known, st, es, false, false).last == st.last,
    decreases es.len(),
{
    if es.len() > 0 {
        lemma_tw_ok(t, known, tw_elem(t, known, st, es.last(), false, false), es.drop_last());
    }
}

proof fn lemma_run_failed(t: Seq<u8>, known: Seq<Vec<u8>>, st: StrictState, cs: Seq<ComponentType>)
    requires
        st.failed,
    ensures
        strict_run(t, known, st, cs) == st,
    decreases cs.len(),
{
    if cs.len() > 0 {
        lemma_run_failed(t, known, strict_step(t, known, st, cs[0], cs.len() == 1), cs.drop_first());
    }
}

/// What the strict parse of `b` gives, with entity keys `known`.
pub open spec fn strict_outcome(b: BidsPathBuilder, known: Seq<Vec<u8>>, r: Result<BidsPath, BidsPathErr>) -> bool {
    let fin = strict_run(b.bytes(), known, initial_state(), b.components@);
    &&& (r is Ok <==> !fin.failed)
    &&& (r matches Ok(bp) ==> {
        &&& bp.path@ == b.path@
        &&& model(bp, fin.last) == fin
        &&& bp.root == if b.root > fin.head { fin.head } else { b.root }
        &&& bp.depth == b.depth
        &&& bp.uncertain_parents is None
        &&& bp.uncertain_datatypes is None
    })
    &&& (r matches Err(e) ==> e matches BidsPathErr::Validation(bp) && bp.path@ == b.path@
        && bp.root == b.root && bp.depth == b.depth && bp.is_bare())
}

impl BidsPathBuilder {
    /// The strict parse, against the recognised entities only.
    pub fn spec_parse(self) -> (r: Result<BidsPath, BidsPathErr>)
        ensures
            strict_outcome(self, seq![], r),
    {
        let known: Vec<Vec<u8>> = Vec::new();
        assert(known@ =~= seq![]);
        self.template_parse(&known)
    }

    /// The strict parse: entity keys are those in `known` and the recognised ones. Fails
    /// where the last component is not a filename or does not end in a suffix.
    pub fn template_parse(self, known: &Vec<Vec<u8>>) -> (r: Result<BidsPath, BidsPathErr>)
        ensures
            strict_outcome(self, known@, r),
    {
        let ghost t = self.bytes();
        let mut bp = BidsPath::new(self.path, self.root, self.depth);
        let mut lastmatch = LastMatch::Head;
        let comps = self.components;
        let len = comps.len();
        let ghost b0 = bp;
        let ghost fin = strict_run(t, known@, initial_state(), comps@);
        assert(bp.parents@ =~= seq![]);
        assert(bp.entities@ =~= seq![]);
        assert(model(bp, LastMatch::Head) == initial_state());
        assert(comps@.skip(0) == comps@);
        let mut i: usize = 0;
        while i < len
            invariant
                i <= len == comps@.len(),
                t == bp.bytes(),
                same_rest(bp, b0),
                b0.is_bare(),
                comps@ == self.components@,
                t == self.bytes(),
                b0.path@ == self.path@,
                b0.root == self.root,
                b0.depth == self.depth,
                fin == strict_run(t, known@, initial_state(), comps@),
                strict_run(t, known@, model(bp, lastmatch), comps@.skip(i as int)) == fin,
            decreases len - i,
        {
            let ghost st = model(bp, lastmatch);
            assert(comps@.skip(i as int)[0] == comps@[i as int]);
            assert(comps@.skip(i as int).drop_first() == comps@.skip(i + 1));
            let comp = &comps[i];
            assert(strict_run(t, known@, st, comps@.skip(i as int)) == strict_run(t, known@, strict_step(t, known@, st, comps@[i as int], i + 1 == len), comps@.skip(i + 1)));
            if i + 1 == len {
                match comp {
                    ComponentType::TwoType(elems) => {
                        let res = handle_twotype(&mut bp, known, elems, true, Ghost(lastmatch));
                        if res.is_err() {
                            proof {
                                lemma_run_failed(t, known@, strict_step(t, known@, st, *comp, true), comps@.skip(i + 1));
                            }
                            return Err(BidsPathErr::Validation(bp.clear()));
                        }
                    },
                    _ => {
                        proof {
                            lemma_run_failed(t, known@, strict_step(t, known@, st, *comp, true), comps@.skip(i + 1));
                        }
                        return Err(BidsPathErr::Validation(bp.clear()));
                    },
                }
            } else {
                match comp {
                    ComponentType::ZeroType(range) => {
                        let range = *range;
                        let name = crate::primitives::copy_range(bp.as_bytes(), &range);
                        let is_dt = check_datatype(name.as_slice());
                        if is_dt && (lastmatch == LastMatch::Head || lastmatch == LastMatch::Parent) {
                            bp.datatype = Some(range);
                            lastmatch = LastMatch::Datatype;
                        } else if lastmatch == LastMatch::Head {
                            bp.head = range.end;
                            lastmatch = LastMatch::Head;
                        } else {
                            push_part_of(&mut bp, range, Ghost(lastmatch));
                            lastmatch = LastMatch::Name;
                        }
                    },
                    ComponentType::OneType(keyval) => {
                        let keyval = *keyval;
                        if key_is_known(&bp, known, &keyval) {
                            bp.parents.push(keyval);
                            lastmatch = LastMatch::Parent;
                        } else if lastmatch == LastMatch::Head {
                            bp.head = keyval.slice.end;
                            lastmatch = LastMatch::Head;
                        } else {
                            push_part_of(&mut bp, keyval.slice, Ghost(lastmatch));
                            lastmatch = LastMatch::Name;
                        }
                    },
                    ComponentType::TwoType(elems) => {
                        proof {
                            lemma_tw_ok(t, known@, st, elems@);
                        }
                        let res = handle_twotype(&mut bp, known, elems, false, Ghost(lastmatch));
                    },
                }
            }
            i = i + 1;
        }
        assert(comps@.skip(len as int) =~= seq![]);
        if bp.root > bp.head {
            bp.root = bp.head;
        }
        Ok(bp)
    }
}

} // verus!
