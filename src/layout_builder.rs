use crate::bidspath::{BidsPath, UnknownDatatype, UnknownDatatypeTypes};
use crate::builder::{BidsPathBuilder, BidsPathPart, Name};
use crate::entity_table::EntityTable;
use crate::primitives::{copy_range, slice_of, ComponentType, Elements, KeyVal, Span};
use crate::standards::{check_datatype, check_entity, is_datatype, is_entity};
use vstd::prelude::*;

verus! {

/// Whether `k` is an entity key for the generic parser: confirmed in `known`, or recognised.
pub open spec fn confirmed(known: EntityTable, k: Seq<u8>) -> bool {
    known.has_entity(k) || is_entity(k)
}

/// Whether `n` sorts the elements of component `comp` as a name does.
pub open spec fn name_of_comp(n: Name, comp: ComponentType) -> bool {
    match comp {
        ComponentType::TwoType(es) => {
            &&& (n.entities is None <==> crate::builder::name_entities(es@).len() == 0)
            &&& (n.entities matches Some(v) ==> v@ == crate::builder::name_entities(es@))
            &&& (n.parts is None <==> crate::builder::name_parts(es@).len() == 0)
            &&& (n.parts matches Some(v) ==> v@ == crate::builder::name_parts(es@))
            &&& n.suffix == crate::builder::name_suffix(es@)
        },
        ComponentType::OneType(kv) => n.entities matches Some(v) && v@ == seq![kv] && n.parts is None && n.suffix is None,
        ComponentType::ZeroType(c) => n.entities is None && n.parts is None && n.suffix == Some(c),
    }
}

/// Whether `r` is what a component `comp` is labelled as, after `prev`.
pub open spec fn labelled(
    prev: BidsPathPart,
    comp: ComponentType,
    t: Seq<u8>,
    next_is_twotype: bool,
    known: EntityTable,
    r: BidsPathPart,
) -> bool {
    match comp {
        ComponentType::TwoType(elems) => match r {
            BidsPathPart::Name(n) => name_of_comp(n, comp),
            _ => false,
        },
        ComponentType::OneType(kv) => match prev {
            BidsPathPart::Head(_) => if confirmed(known, slice_of(t, kv.key_spec())) {
                r == BidsPathPart::Parent(kv)
            } else {
                r == BidsPathPart::UncertainParent(kv)
            },
            BidsPathPart::Datatype(_) | BidsPathPart::Name(_) => match r {
                BidsPathPart::Name(n) => name_of_comp(n, comp),
                _ => false,
            },
            BidsPathPart::Parent(_) => r == BidsPathPart::Parent(kv),
            _ => r == BidsPathPart::UncertainParent(kv),
        },
        ComponentType::ZeroType(c) => {
            let valid = next_is_twotype || is_datatype(slice_of(t, c));
            match prev {
                BidsPathPart::Head(_) => if valid {
                    r == BidsPathPart::Datatype(c)
                } else {
                    r == BidsPathPart::Head(c.end)
                },
                BidsPathPart::Datatype(_) | BidsPathPart::Name(_) => match r {
                    BidsPathPart::Name(n) => name_of_comp(n, comp),
                    _ => false,
                },
                BidsPathPart::Parent(_) => r == BidsPathPart::Datatype(c),
                BidsPathPart::UncertainDatatype(_) => match r {
                    BidsPathPart::UncertainDatatype(UnknownDatatypeTypes::Unlinked(d)) => d == UnknownDatatype { value: c, is_valid: valid },
                    _ => false,
                },
                BidsPathPart::UncertainParent(pkv) => match r {
                    BidsPathPart::UncertainDatatype(UnknownDatatypeTypes::Linked(k, d)) => k@ == slice_of(t, pkv.key_spec()) && d == UnknownDatatype { value: c, is_valid: valid },
                    _ => false,
                },
            }
        },
    }
}

/// Labels one component of a path by the label of the one before it.
pub fn label_component_type(
    previous: &BidsPathPart,
    comp: ComponentType,
    template: &[u8],
    next_is_twotype: bool,
    known: &EntityTable,
) -> (r: BidsPathPart)
    requires
        known.wf(),
    ensures
        labelled(*previous, comp, template@, next_is_twotype, *known, r),
{
    match comp {
        ComponentType::TwoType(elems) => BidsPathPart::Name(Name::from_twotype(&elems)),
        ComponentType::OneType(keyval) => match previous {
            BidsPathPart::Head(..) => {
                let key = keyval.get_key(template);
                if known.contains_key(key.as_slice()) || check_entity(key.as_slice()) {
                    BidsPathPart::Parent(keyval)
                } else {
                    BidsPathPart::UncertainParent(keyval)
                }
            },
            BidsPathPart::Datatype(..) | BidsPathPart::Name(..) => BidsPathPart::Name(Name::from_onetype(keyval)),
            BidsPathPart::Parent(..) => BidsPathPart::Parent(keyval),
            BidsPathPart::UncertainParent(..) | BidsPathPart::UncertainDatatype(..) => BidsPathPart::UncertainParent(keyval),
        },
        ComponentType::ZeroType(comp) => {
            let name = copy_range(template, &comp);
            let is_valid = next_is_twotype || check_datatype(name.as_slice());
            match previous {
                BidsPathPart::Head(..) => {
                    if is_valid {
                        BidsPathPart::Datatype(comp)
                    } else {
                        BidsPathPart::Head(comp.end)
                    }
                },
                BidsPathPart::Datatype(..) | BidsPathPart::Name(..) => BidsPathPart::Name(Name::from_zerotype(comp)),
                BidsPathPart::Parent(..) => BidsPathPart::Datatype(comp),
                BidsPathPart::UncertainDatatype(..) => BidsPathPart::UncertainDatatype(
                    UnknownDatatypeTypes::Unlinked(UnknownDatatype::new(comp, is_valid)),
                ),
                BidsPathPart::UncertainParent(keyval) => BidsPathPart::UncertainDatatype(
                    UnknownDatatypeTypes::Linked(keyval.get_key(template), UnknownDatatype::new(comp, is_valid)),
                ),
            }
        },
    }
}

} // verus!

verus! {

use crate::description::DatasetDescription;
use crate::filetree::{FileTree, within, is_within};
use crate::layout::{share, text_of, Layout};
use crate::roots::{cat_root, DatasetRoot, DatasetRoots, RootCategory, RootLabel};
use crate::template::BidsPathErr;
use crate::multirange::{span_set, MultiRange};
use crate::entity_table::lemma_push_contains;
use std::sync::Arc;
use vstd::utf8::encode_utf8;

/// Whether `cleaned(a)` is what path_clean makes of path `a`.
pub uninterp spec fn cleaned(a: Seq<char>) -> Seq<char>;

/// Relies on `path_clean::clean`: the lexical normal form of a path, a function of the
/// path alone; a path made of UTF-8 stays UTF-8.
#[verifier::external_body]
fn clean_path(p: &str) -> (r: String)
    ensures
        r@ == cleaned(p@),
{
    path_clean::clean(p).to_string_lossy().into_owned()
}

/// Whether `sub` is `parent` or an ancestor of it, once both are cleaned.
pub open spec fn is_subpath(sub: Seq<char>, parent: Seq<char>) -> bool {
    within(encode_utf8(cleaned(sub)), encode_utf8(cleaned(parent)))
}

/// Whether `sub` is `parent` or an ancestor of it, once both are cleaned.
pub fn is_subpath_of(subpath: &str, parent: &str) -> (r: bool)
    ensures
        r == is_subpath(subpath@, parent@),
{
    let a = clean_path(subpath);
    let b = clean_path(parent);
    is_within(a.as_str().as_bytes(), b.as_str().as_bytes())
}

/// The directory part of a path: what comes before its last `/`.
pub open spec fn parent_dir(t: Seq<u8>) -> Seq<u8>
    decreases t.len(),
{
    if t.len() == 0 {
        seq![]
    } else if t.last() == 47u8 {
        t.drop_last()
    } else {
        parent_dir(t.drop_last())
    }
}

/// The bytes of the directory part of a path.
pub fn get_parent_dir(t: &[u8]) -> (r: Vec<u8>)
    ensures
        r@ == parent_dir(t@),
{
    let mut k: usize = t.len();
    assert(t@.subrange(0, k as int) == t@);
    while k > 0
        invariant
            k <= t@.len(),
            parent_dir(t@) == parent_dir(t@.subrange(0, k as int)),
        decreases k,
    {
        assert(t@.subrange(0, k as int).drop_last() == t@.subrange(0, k - 1));
        if t[k - 1] == 47u8 {
            return copy_range(t, &Span { start: 0, end: k - 1 });
        }
        k = k - 1;
    }
    Vec::new()
}

/// A root whose range is still open: it runs from `start` to the current path.
#[derive(Debug, Clone)]
pub enum PartialRoot {
    Raw(String, usize, Option<DatasetDescription>),
    Derivative(String, Option<String>, usize, Option<DatasetDescription>),
}

/// A root as located on disk: the length of its path, the path, and its description.
#[derive(Debug, Clone)]
pub struct LocatedRoot {
    pub len: usize,
    pub path: String,
    pub description: Option<DatasetDescription>,
}

/// Gathers paths one by one, then makes a layout.
#[derive(Debug)]
pub struct LayoutBuilder {
    pub paths: Vec<BidsPath>,
    pub entities: EntityTable,
    pub roots: Vec<(String, DatasetRoot)>,
    pub derivative_roots: Vec<(String, DatasetRoot)>,
    pub labelled_roots: Vec<(String, Vec<(String, DatasetRoot)>)>,
    pub heads: Vec<(Vec<u8>, Vec<usize>)>,
    pub depths: Vec<(usize, Vec<usize>)>,
    pub filetree: FileTree,
    pub current_root: Option<PartialRoot>,
    pub unknown_entities: EntityTable,
    pub unknown_datatypes: Vec<usize>,
}

pub open spec fn roots_wf(s: Seq<(String, DatasetRoot)>) -> bool {
    forall|i: int| 0 <= i < s.len() ==> (#[trigger] s[i]).1.wf()
}

impl LayoutBuilder {
    pub open spec fn wf(&self) -> bool {
        &&& self.entities.wf()
        &&& self.unknown_entities.wf()
        &&& roots_wf(self.roots@)
        &&& roots_wf(self.derivative_roots@)
        &&& forall|i: int| 0 <= i < self.labelled_roots@.len() ==> roots_wf((#[trigger] self.labelled_roots@[i]).1@)
    }

    pub fn new() -> (r: LayoutBuilder)
        ensures
            r.wf(),
            r.maps_ok(),
            r.paths@.len() == 0,
            r.entities@ == Set::<(Seq<u8>, Seq<u8>, usize)>::empty(),
    {
        LayoutBuilder {
            paths: Vec::new(),
            entities: EntityTable::new(),
            roots: Vec::new(),
            derivative_roots: Vec::new(),
            labelled_roots: Vec::new(),
            heads: Vec::new(),
            depths: Vec::new(),
            filetree: FileTree::new(),
            current_root: None,
            unknown_entities: EntityTable::new(),
            unknown_datatypes: Vec::new(),
        }
    }

    /// The id the next path gets.
    pub fn current_path(&self) -> (r: usize)
        ensures
            r == self.paths@.len(),
    {
        self.paths.len()
    }

    /// Whether `entity` is known: confirmed in the corpus, or recognised.
    pub fn check_entity(&self, entity: &[u8]) -> (r: bool)
        requires
            self.wf(),
        ensures
            r == confirmed(self.entities, entity@),
    {
        self.entities.contains_key(entity) || check_entity(entity)
    }

    /// Records entity `entity` with `value` for the current path: among the confirmed
    /// entities where it is known, else among the pending ones.
    pub fn add_entity(&mut self, entity: &[u8], value: &[u8])
        requires
            old(self).wf(),
        ensures
            final(self).wf(),
            final(self).roots == old(self).roots,
            final(self).derivative_roots == old(self).derivative_roots,
            final(self).labelled_roots == old(self).labelled_roots,
            final(self).filetree == old(self).filetree,
            final(self).current_root == old(self).current_root,
            final(self).heads == old(self).heads,
            final(self).depths == old(self).depths,
            final(self).paths == old(self).paths,
            confirmed(old(self).entities, entity@) ==> final(self).entities@ == old(self).entities@.insert((entity@, value@, old(self).paths@.len() as usize))
                && final(self).unknown_entities == old(self).unknown_entities,
            !confirmed(old(self).entities, entity@) ==> final(self).unknown_entities@ == old(self).unknown_entities@.insert((entity@, value@, old(self).paths@.len() as usize))
                && final(self).entities == old(self).entities,
    {
        let i = self.current_path();
        if self.check_entity(entity) {
            self.entities.insert_entity(i, entity, value);
        } else {
            self.unknown_entities.insert_entity(i, entity, value);
        }
    }

    /// Moves what is pending for `entity` to the confirmed entities.
    pub fn confirm_entity(&mut self, entity: &[u8])
        requires
            old(self).wf(),
        ensures
            final(self).wf(),
            final(self).roots == old(self).roots,
            final(self).derivative_roots == old(self).derivative_roots,
            final(self).labelled_roots == old(self).labelled_roots,
            final(self).filetree == old(self).filetree,
            final(self).current_root == old(self).current_root,
            final(self).heads == old(self).heads,
            final(self).depths == old(self).depths,
            final(self).paths == old(self).paths,
            forall|e: Seq<u8>, v: Seq<u8>, i: usize| #[trigger] final(self).entities.has(e, v, i) <==> old(self).entities.has(e, v, i)
                || (e == entity@ && old(self).unknown_entities.has(e, v, i)),
    {
        let k = match self.unknown_entities.find(entity) {
            Some(k) => k,
            None => {
                assert forall|e: Seq<u8>, v: Seq<u8>, i: usize| #[trigger] self.entities.has(e, v, i) <==> old(self).entities.has(e, v, i)
                    || (e == entity@ && old(self).unknown_entities.has(e, v, i)) by {
                    if e == entity@ && old(self).unknown_entities.has(e, v, i) {
                        let r = choose|r: int| 0 <= r < self.unknown_entities.rows@.len() && (#[trigger] self.unknown_entities.rows@[r]).entity@ == e && crate::entity_table::row_has(self.unknown_entities.rows@[r], v, i);
                    }
                }
                return;
            },
        };
        let ghost u0 = self.unknown_entities;
        let row = self.unknown_entities.rows.remove(k);
        proof {
            assert forall|a: int, b: int| 0 <= a < b < self.unknown_entities.rows@.len() implies (#[trigger] self.unknown_entities.rows@[a]).entity@ != (#[trigger] self.unknown_entities.rows@[b]).entity@ by {
                let a0 = if a < k { a } else { a + 1 };
                let b0 = if b < k { b } else { b + 1 };
                assert(self.unknown_entities.rows@[a] == u0.rows@[a0]);
                assert(self.unknown_entities.rows@[b] == u0.rows@[b0]);
            }
            assert forall|r: int| 0 <= r < self.unknown_entities.rows@.len() implies crate::entity_table::row_wf(#[trigger] self.unknown_entities.rows@[r]) by {
                let r0 = if r < k { r } else { r + 1 };
                assert(self.unknown_entities.rows@[r] == u0.rows@[r0]);
            }
        }
        let ghost e0 = self.entities;
        let mut w: usize = 0;
        while w < row.values.len()
            invariant
                w <= row.values@.len(),
                self.wf(),
                self.paths == old(self).paths,
                self.roots == old(self).roots,
                self.derivative_roots == old(self).derivative_roots,
                self.labelled_roots == old(self).labelled_roots,
                self.filetree == old(self).filetree,
                self.current_root == old(self).current_root,
                self.heads == old(self).heads,
                self.depths == old(self).depths,
                row == u0.rows@[k as int],
                u0 == old(self).unknown_entities,
                e0 == old(self).entities,
                row.entity@ == entity@,
                forall|e: Seq<u8>, v: Seq<u8>, i: usize| #[trigger] self.entities.has(e, v, i) <==> e0.has(e, v, i)
                    || (e == entity@ && exists|q: int| 0 <= q < w && (#[trigger] row.values@[q]).value@ == v && row.values@[q].ids@.contains(i)),
            decreases row.values@.len() - w,
        {
            let ghost before = self.entities;
            self.entities.extend_entities(row.entity.as_slice(), row.values[w].value.as_slice(), &row.values[w].ids);
            proof {
                assert forall|e: Seq<u8>, v: Seq<u8>, i: usize| #[trigger] self.entities.has(e, v, i) <==> e0.has(e, v, i)
                    || (e == entity@ && exists|q: int| 0 <= q < w + 1 && (#[trigger] row.values@[q]).value@ == v && row.values@[q].ids@.contains(i)) by {
                    assert(before.has(e, v, i) <==> e0.has(e, v, i)
                        || (e == entity@ && exists|q: int| 0 <= q < w && (#[trigger] row.values@[q]).value@ == v && row.values@[q].ids@.contains(i)));
                }
            }
            w = w + 1;
        }
        proof {
            assert forall|e: Seq<u8>, v: Seq<u8>, i: usize| #[trigger] self.entities.has(e, v, i) <==> old(self).entities.has(e, v, i)
                || (e == entity@ && old(self).unknown_entities.has(e, v, i)) by {
                if e == entity@ && old(self).unknown_entities.has(e, v, i) {
                    let r = choose|r: int| 0 <= r < u0.rows@.len() && (#[trigger] u0.rows@[r]).entity@ == e && crate::entity_table::row_has(u0.rows@[r], v, i);
                    if r != k {
                        assert(u0.rows@[r].entity@ != u0.rows@[k as int].entity@);
                    }
                }
                if e == entity@ && exists|q: int| 0 <= q < row.values@.len() && (#[trigger] row.values@[q]).value@ == v && row.values@[q].ids@.contains(i) {
                    assert(crate::entity_table::row_has(row, v, i));
                    assert(u0.has(e, v, i));
                }
            }
        }
    }

    /// Confirms `entity`, then records it with `value` for the current path.
    pub fn add_and_confirm_entity(&mut self, entity: &[u8], value: &[u8])
        requires
            old(self).wf(),
        ensures
            final(self).wf(),
            final(self).roots == old(self).roots,
            final(self).derivative_roots == old(self).derivative_roots,
            final(self).labelled_roots == old(self).labelled_roots,
            final(self).filetree == old(self).filetree,
            final(self).current_root == old(self).current_root,
            final(self).heads == old(self).heads,
            final(self).depths == old(self).depths,
            final(self).paths == old(self).paths,
            forall|e: Seq<u8>, v: Seq<u8>, i: usize| #[trigger] final(self).entities.has(e, v, i) <==> old(self).entities.has(e, v, i)
                || (e == entity@ && old(self).unknown_entities.has(e, v, i))
                || (e == entity@ && v == value@ && i == old(self).paths@.len()),
    {
        self.confirm_entity(entity);
        let i = self.current_path();
        let ghost mid = self.entities;
        self.entities.insert_entity(i, entity, value);
        assert forall|e: Seq<u8>, v: Seq<u8>, x: usize| #[trigger] self.entities.has(e, v, x) <==> mid.has(e, v, x) || (e == entity@ && v == value@ && x == i) by {
            assert(self.entities@.contains((e, v, x)) == self.entities.has(e, v, x));
            assert(mid@.contains((e, v, x)) == mid.has(e, v, x));
        }
    }

    /// Marks the current path as holding an uncertain datatype.
    pub fn add_uncertain_datatype(&mut self)
        ensures
            final(self).unknown_datatypes@ == old(self).unknown_datatypes@.push(old(self).paths@.len() as usize),
            final(self).paths == old(self).paths,
            final(self).entities == old(self).entities,
            final(self).unknown_entities == old(self).unknown_entities,
            final(self).roots == old(self).roots,
            final(self).derivative_roots == old(self).derivative_roots,
            final(self).labelled_roots == old(self).labelled_roots,
            final(self).filetree == old(self).filetree,
            final(self).current_root == old(self).current_root,
            final(self).heads == old(self).heads,
            final(self).depths == old(self).depths,
    {
        let i = self.current_path();
        self.unknown_datatypes.push(i);
    }

    /// Records the current path under its head.
    pub fn add_head(&mut self, head: &[u8])
        ensures
            final(self).paths == old(self).paths,
            final(self).entities == old(self).entities,
            final(self).unknown_entities == old(self).unknown_entities,
            final(self).roots == old(self).roots,
            final(self).derivative_roots == old(self).derivative_roots,
            final(self).labelled_roots == old(self).labelled_roots,
            final(self).filetree == old(self).filetree,
            final(self).current_root == old(self).current_root,
            final(self).depths == old(self).depths,
            exists|k: int| 0 <= k < final(self).heads@.len() && (#[trigger] final(self).heads@[k]).0@ == head@ && final(self).heads@[k].1@.contains(old(self).paths@.len() as usize),
    {
        let i = self.current_path();
        let mut k: usize = 0;
        while k < self.heads.len()
            invariant
                k <= self.heads@.len(),
                *self == *old(self),
                i == self.paths@.len(),
            decreases self.heads@.len() - k,
        {
            if crate::primitives::same_bytes(self.heads[k].0.as_slice(), head) {
                let (key, mut ids) = self.heads.remove(k);
                ids.push(i);
                assert(ids@[ids@.len() - 1] == i);
                self.heads.insert(k, (key, ids));
                assert(self.heads@[k as int].1@.contains(i));
                return;
            }
            k = k + 1;
        }
        let v = vec![i];
        assert(v@[0] == i);
        self.heads.push((vstd::slice::slice_to_vec(head), v));
        assert(self.heads@[self.heads@.len() - 1].1@.contains(i));
    }

    /// Records the current path at its depth.
    pub fn add_depth(&mut self, depth: usize)
        ensures
            final(self).paths == old(self).paths,
            final(self).entities == old(self).entities,
            final(self).unknown_entities == old(self).unknown_entities,
            final(self).roots == old(self).roots,
            final(self).derivative_roots == old(self).derivative_roots,
            final(self).labelled_roots == old(self).labelled_roots,
            final(self).filetree == old(self).filetree,
            final(self).current_root == old(self).current_root,
            final(self).heads == old(self).heads,
            exists|k: int| 0 <= k < final(self).depths@.len() && (#[trigger] final(self).depths@[k]).0 == depth && final(self).depths@[k].1@.contains(old(self).paths@.len() as usize),
    {
        let i = self.current_path();
        let mut k: usize = 0;
        while k < self.depths.len()
            invariant
                k <= self.depths@.len(),
                *self == *old(self),
                i == self.paths@.len(),
            decreases self.depths@.len() - k,
        {
            if self.depths[k].0 == depth {
                let (key, mut ids) = self.depths.remove(k);
                ids.push(i);
                assert(ids@[ids@.len() - 1] == i);
                self.depths.insert(k, (key, ids));
                assert(self.depths@[k as int].1@.contains(i));
                return;
            }
            k = k + 1;
        }
        let v = vec![i];
        assert(v@[0] == i);
        self.depths.push((depth, v));
        assert(self.depths@[self.depths@.len() - 1].1@.contains(i));
    }
}

} // verus!

verus! {

/// The ids under the roots of `s`.
pub open spec fn map_ids(s: Seq<(String, DatasetRoot)>) -> Set<int>
    decreases s.len(),
{
    if s.len() == 0 {
        Set::empty()
    } else {
        map_ids(s.drop_last()).union(s.last().1.range_spec()@)
    }
}

pub open spec fn keys_distinct(s: Seq<(String, DatasetRoot)>) -> bool {
    forall|a: int, b: int| 0 <= a < b < s.len() ==> (#[trigger] s[a]).0@ != (#[trigger] s[b]).0@
}

proof fn lemma_map_ids_update(s: Seq<(String, DatasetRoot)>, k: int, e: (String, DatasetRoot))
    requires
        0 <= k < s.len(),
    ensures
        map_ids(s.update(k, e)) == map_ids(s.remove(k)).union(e.1.range_spec()@),
        map_ids(s) == map_ids(s.remove(k)).union(s[k].1.range_spec()@),
    decreases s.len(),
{
    let n = s.len();
    if k == n - 1 {
        assert(s.update(k, e).drop_last() == s.drop_last());
        assert(s.remove(k) == s.drop_last());
    } else {
        lemma_map_ids_update(s.drop_last(), k, e);
        assert(s.update(k, e).drop_last() == s.drop_last().update(k, e));
        assert(s.remove(k).drop_last() == s.drop_last().remove(k));
        assert(s.remove(k).last() == s.last());
        assert(s.update(k, e).last() == s.last());
        assert(map_ids(s.update(k, e)) =~= map_ids(s.remove(k)).union(e.1.range_spec()@));
        assert(map_ids(s) =~= map_ids(s.remove(k)).union(s[k].1.range_spec()@));
    }
}

/// Adds ids `range` to root `key` of `map`, making the root where it is new.
pub fn insert_to_root_map(map: &mut Vec<(String, DatasetRoot)>, key: String, range: Span, description: Option<DatasetDescription>)
    requires
        roots_wf(old(map)@),
        keys_distinct(old(map)@),
    ensures
        roots_wf(final(map)@),
        keys_distinct(final(map)@),
        map_ids(final(map)@) == map_ids(old(map)@).union(span_set(range)),
        exists|k: int| 0 <= k < final(map)@.len() && (#[trigger] final(map)@[k]).0@ == key@,
{
    let mut k: usize = 0;
    while k < map.len()
        invariant
            k <= map@.len(),
            *map == *old(map),
            roots_wf(old(map)@),
            keys_distinct(old(map)@),
            forall|j: int| 0 <= j < k ==> (#[trigger] map@[j]).0@ != key@,
        decreases map@.len() - k,
    {
        if map[k].0.eq(&key) {
            let ghost m0 = map@;
            let (name, mut root) = map.remove(k);
            assert(m0[k as int].1.wf());
            root.insert(range);
            let ghost e = (name, root);
            map.insert(k, (name, root));
            proof {
                assert(map@ =~= m0.update(k as int, e));
                lemma_map_ids_update(m0, k as int, e);
                assert(map_ids(map@) =~= map_ids(m0).union(span_set(range)));
                assert forall|a: int, b: int| 0 <= a < b < map@.len() implies (#[trigger] map@[a]).0@ != (#[trigger] map@[b]).0@ by {
                    assert(map@[a].0 == m0[a].0 && map@[b].0 == m0[b].0);
                }
                assert(map@[k as int].0@ == key@);
            }
            return;
        }
        k = k + 1;
    }
    let root = DatasetRoot::new_range(range, description);
    let ghost m0 = map@;
    let ghost kv = key@;
    map.push((key, root));
    proof {
        assert(map@.drop_last() == m0);
        assert(map@[map@.len() - 1].0@ == kv);
    }
}

/// The ids under the roots of labelled derivative maps.
pub open spec fn labelled_ids(s: Seq<(String, Vec<(String, DatasetRoot)>)>) -> Set<int>
    decreases s.len(),
{
    if s.len() == 0 {
        Set::empty()
    } else {
        labelled_ids(s.drop_last()).union(map_ids(s.last().1@))
    }
}

/// The ids of the open root: from where it starts to the current path.
pub open spec fn open_ids(c: Option<PartialRoot>, n: int) -> Set<int> {
    match c {
        Some(PartialRoot::Raw(_, start, _)) => span_set(Span { start, end: n as usize }),
        Some(PartialRoot::Derivative(_, _, start, _)) => span_set(Span { start, end: n as usize }),
        None => Set::empty(),
    }
}

proof fn lemma_labelled_ids_update(s: Seq<(String, Vec<(String, DatasetRoot)>)>, k: int, e: (String, Vec<(String, DatasetRoot)>))
    requires
        0 <= k < s.len(),
    ensures
        labelled_ids(s.update(k, e)) == labelled_ids(s.remove(k)).union(map_ids(e.1@)),
        labelled_ids(s) == labelled_ids(s.remove(k)).union(map_ids(s[k].1@)),
    decreases s.len(),
{
    let n = s.len();
    if k == n - 1 {
        assert(s.update(k, e).drop_last() == s.drop_last());
        assert(s.remove(k) == s.drop_last());
    } else {
        lemma_labelled_ids_update(s.drop_last(), k, e);
        assert(s.update(k, e).drop_last() == s.drop_last().update(k, e));
        assert(s.remove(k).drop_last() == s.drop_last().remove(k));
        assert(s.remove(k).last() == s.last());
        assert(s.update(k, e).last() == s.last());
        assert(labelled_ids(s.update(k, e)) =~= labelled_ids(s.remove(k)).union(map_ids(e.1@)));
        assert(labelled_ids(s) =~= labelled_ids(s.remove(k)).union(map_ids(s[k].1@)));
    }
}

impl LayoutBuilder {
    /// The ids under the closed roots.
    pub open spec fn closed_ids(&self) -> Set<int> {
        map_ids(self.roots@).union(map_ids(self.derivative_roots@)).union(labelled_ids(self.labelled_roots@))
    }

    /// The ids under every root, the open one included.
    pub open spec fn root_ids(&self) -> Set<int> {
        self.closed_ids().union(open_ids(self.current_root, self.paths@.len() as int))
    }

    pub open spec fn maps_ok(&self) -> bool {
        &&& keys_distinct(self.roots@)
        &&& keys_distinct(self.derivative_roots@)
        &&& forall|i: int| 0 <= i < self.labelled_roots@.len() ==> keys_distinct((#[trigger] self.labelled_roots@[i]).1@)
    }

    /// Closes the open root, if any, at the current path.
    fn close_root(&mut self, prev: Option<PartialRoot>)
        requires
            old(self).wf(),
            old(self).maps_ok(),
        ensures
            final(self).wf(),
            final(self).maps_ok(),
            final(self).paths == old(self).paths,
            final(self).entities == old(self).entities,
            final(self).unknown_entities == old(self).unknown_entities,
            prev matches Some(PartialRoot::Raw(path, start, _)) ==> map_ids(final(self).roots@) == map_ids(old(self).roots@).union(span_set(Span { start, end: old(self).paths@.len() as usize })),
            prev matches Some(PartialRoot::Derivative(path, None, start, _)) ==> map_ids(final(self).derivative_roots@) == map_ids(old(self).derivative_roots@).union(span_set(Span { start, end: old(self).paths@.len() as usize })),
            final(self).closed_ids() == old(self).closed_ids().union(open_ids(prev, old(self).paths@.len() as int)),
            final(self).current_root == old(self).current_root,
    {
        let end = self.paths.len();
        let ghost prev0 = prev;
        match prev {
            Some(PartialRoot::Raw(root, start, desc)) => {
                insert_to_root_map(&mut self.roots, root, Span { start, end }, desc);
                assert(self.closed_ids() =~= old(self).closed_ids().union(open_ids(prev0, old(self).paths@.len() as int)));
            },
            Some(PartialRoot::Derivative(root, None, start, desc)) => {
                insert_to_root_map(&mut self.derivative_roots, root, Span { start, end }, desc);
                assert(self.closed_ids() =~= old(self).closed_ids().union(open_ids(prev0, old(self).paths@.len() as int)));
            },
            Some(PartialRoot::Derivative(root, Some(label), start, desc)) => {
                let mut k: usize = 0;
                while k < self.labelled_roots.len()
                    invariant
                        k <= self.labelled_roots@.len(),
                        *self == *old(self),
                        old(self).wf(),
                        old(self).maps_ok(),
                        prev == prev0,
                        prev0 matches Some(PartialRoot::Derivative(_, Some(_), st, _)) && st == start,
                        end == old(self).paths@.len(),
                    decreases self.labelled_roots@.len() - k,
                {
                    if self.labelled_roots[k].0.eq(&label) {
                        let ghost l0 = self.labelled_roots@;
                        let (name, mut map) = self.labelled_roots.remove(k);
                        assert(roots_wf(l0[k as int].1@) && keys_distinct(l0[k as int].1@));
                        let ghost m0 = map@;
                        assert(m0 == l0[k as int].1@);
                        insert_to_root_map(&mut map, root, Span { start, end }, desc);
                        let ghost e = (name, map);
                        self.labelled_roots.insert(k, (name, map));
                        proof {
                            assert(self.labelled_roots@ =~= l0.update(k as int, e));
                            lemma_labelled_ids_update(l0, k as int, e);
                            assert(map_ids(e.1@) == map_ids(m0).union(span_set(Span { start, end })));
                            assert(labelled_ids(self.labelled_roots@) =~= labelled_ids(l0).union(span_set(Span { start, end })));
                            assert(open_ids(prev0, old(self).paths@.len() as int) == span_set(Span { start, end }));
                            assert(l0 == old(self).labelled_roots@);
                            assert(self.closed_ids() =~= old(self).closed_ids().union(open_ids(prev0, old(self).paths@.len() as int)));
                            assert forall|i: int| 0 <= i < self.labelled_roots@.len() implies roots_wf((#[trigger] self.labelled_roots@[i]).1@) && keys_distinct(self.labelled_roots@[i].1@) by {
                                if i != k {
                                    let i0 = if i < k { i } else { i };
                                    assert(self.labelled_roots@[i] == l0[i]);
                                }
                            }
                        }
                        return;
                    }
                    k = k + 1;
                }
                let mut map: Vec<(String, DatasetRoot)> = Vec::new();
                insert_to_root_map(&mut map, root, Span { start, end }, desc);
                let ghost l0 = self.labelled_roots@;
                let ghost e = (label, map);
                self.labelled_roots.push((label, map));
                proof {
                    assert(self.labelled_roots@.drop_last() == l0);
                    assert(self.closed_ids() =~= old(self).closed_ids().union(open_ids(prev0, old(self).paths@.len() as int)));
                    assert forall|i: int| 0 <= i < self.labelled_roots@.len() implies roots_wf((#[trigger] self.labelled_roots@[i]).1@) && keys_distinct(self.labelled_roots@[i].1@) by {
                        if i < l0.len() {
                            assert(self.labelled_roots@[i] == l0[i]);
                        }
                    }
                }
            },
            None => {
                assert(self.closed_ids() =~= old(self).closed_ids().union(open_ids(prev0, old(self).paths@.len() as int)));
            },
        }
    }

    /// Opens root `root` (closing the one before) with category `label`; returns the
    /// length of the root's path, where there is a root.
    pub fn register_root(&mut self, root: Option<LocatedRoot>, label: RootLabel) -> (r: Option<usize>)
        requires
            old(self).wf(),
            old(self).maps_ok(),
        ensures
            final(self).wf(),
            final(self).maps_ok(),
            final(self).paths == old(self).paths,
            final(self).entities == old(self).entities,
            r == match root {
                Some(l) => Some(l.len),
                None => None,
            },
            match root {
                Some(l) => final(self).current_root matches Some(p) && match p {
                    PartialRoot::Raw(path, start, _) => label is Raw && path == l.path && start == old(self).paths@.len(),
                    PartialRoot::Derivative(path, _, start, _) => !(label is Raw) && path == l.path && start == old(self).paths@.len(),
                },
                None => final(self).current_root is None,
            },
            final(self).closed_ids() == old(self).root_ids(),
            final(self).root_ids() == old(self).root_ids(),
    {
        let start = self.paths.len();
        let (len, new_root) = match root {
            Some(l) => {
                let partial = match label {
                    RootLabel::DerivativeLabelled(name) => PartialRoot::Derivative(l.path, Some(name), start, l.description),
                    RootLabel::DerivativeUnlabelled => PartialRoot::Derivative(l.path, None, start, l.description),
                    RootLabel::Raw => PartialRoot::Raw(l.path, start, l.description),
                };
                (Some(l.len), Some(partial))
            },
            None => (None, None),
        };
        let prev = self.current_root.take();
        self.close_root(prev);
        self.current_root = new_root;
        assert(open_ids(new_root, start as int) =~= Set::empty());
        assert(self.root_ids() =~= self.closed_ids());
        len
    }
}

} // verus!

verus! {

/// The annotations of a path that the generic parser fills in.
pub struct PathModel {
    pub parents: Seq<KeyVal>,
    pub entities: Seq<KeyVal>,
    pub parts: Option<Seq<Span>>,
    pub suffix: Option<Span>,
    pub extension: Option<Span>,
    pub datatype: Option<Span>,
    pub head: usize,
    pub root: usize,
    pub uparents: Option<Seq<KeyVal>>,
    pub udts: Option<Seq<UnknownDatatypeTypes>>,
}

pub open spec fn opt_view<T>(o: Option<Vec<T>>) -> Option<Seq<T>> {
    match o {
        Some(v) => Some(v@),
        None => None,
    }
}

pub open spec fn path_model(p: BidsPath) -> PathModel {
    PathModel {
        parents: p.parents@,
        entities: p.entities@,
        parts: opt_view(p.parts),
        suffix: p.suffix,
        extension: p.extension,
        datatype: p.datatype,
        head: p.head,
        root: p.root,
        uparents: opt_view(p.uncertain_parents),
        udts: opt_view(p.uncertain_datatypes),
    }
}

pub open spec fn push_opt<T>(o: Option<Seq<T>>, x: T) -> Option<Seq<T>> {
    match o {
        Some(v) => Some(v.push(x)),
        None => Some(seq![x]),
    }
}

/// The parts of a name joined to those already there.
pub open spec fn name_parts_step(st: PathModel, name: Name) -> PathModel {
    match name.parts {
        Some(ps) => PathModel {
            parts: match st.parts {
                Some(o) => Some(o + ps@),
                None => Some(ps@),
            },
            ..st
        },
        None => st,
    }
}

/// A new extension where one was split off.
pub open spec fn with_ext(st: PathModel, ext: Option<Span>) -> PathModel {
    match ext {
        Some(e) => PathModel { extension: Some(e), ..st },
        None => st,
    }
}

/// For the filename, its suffix and extension, or the extension of its last value; for
/// any other name, its suffix as a part.
pub open spec fn name_head_step(t: Seq<u8>, st: PathModel, name: Name, first: bool) -> PathModel {
    if first {
        match name.suffix {
            Some(s) => {
                let (sfx, ext) = crate::template::split_ext(t, s);
                PathModel { suffix: Some(sfx), ..with_ext(st, ext) }
            },
            None => match name.entities {
                Some(es) => if es@.len() > 0 {
                    let kv = es@.last();
                    let (_, ext) = crate::template::split_ext(t, kv.val_spec());
                    PathModel { entities: st.entities.push(kv), ..with_ext(st, ext) }
                } else {
                    st
                },
                None => st,
            },
        }
    } else {
        match name.suffix {
            Some(s) => PathModel { parts: push_opt(st.parts, s), ..st },
            None => st,
        }
    }
}

/// The entities of a name still to add after `name_head_step`.
pub open spec fn rest_seq(name: Name, first: bool) -> Seq<KeyVal> {
    match name.entities {
        Some(es) => if first && name.suffix is None && es@.len() > 0 {
            es@.drop_last()
        } else {
            es@
        },
        None => seq![],
    }
}

/// One labelled part, `first` for the last component of the path.
pub open spec fn collect_step(t: Seq<u8>, st: PathModel, part: BidsPathPart, first: bool) -> PathModel {
    match part {
        BidsPathPart::Head(h) => if st.head == 0 {
            PathModel { head: h, root: if st.root > h { h } else { st.root }, ..st }
        } else {
            st
        },
        BidsPathPart::Parent(kv) => PathModel { parents: seq![kv] + st.parents, ..st },
        BidsPathPart::UncertainParent(kv) => PathModel { uparents: push_opt(st.uparents, kv), ..st },
        BidsPathPart::Datatype(c) => PathModel { datatype: Some(c), ..st },
        BidsPathPart::Name(name) => {
            let st2 = name_head_step(t, name_parts_step(st, name), name, first);
            PathModel { entities: st2.entities + rest_seq(name, first), ..st2 }
        },
        BidsPathPart::UncertainDatatype(d) => PathModel { udts: push_opt(st.udts, d), ..st },
    }
}

/// The labelled parts of a path, last first.
pub open spec fn collect_fold(t: Seq<u8>, st: PathModel, parts: Seq<BidsPathPart>, first: bool) -> PathModel
    decreases parts.len(),
{
    if parts.len() == 0 {
        st
    } else {
        collect_fold(t, collect_step(t, st, parts.last(), first), parts.drop_last(), false)
    }
}

impl LayoutBuilder {
    /// Records the labelled parts of a path, last first, on `path` and in the tables.
    pub fn collect_elements(&mut self, path: BidsPath, parts: Vec<BidsPathPart>) -> (r: BidsPath)
        requires
            old(self).wf(),
        ensures
            final(self).wf(),
            final(self).paths == old(self).paths,
            final(self).roots == old(self).roots,
            final(self).derivative_roots == old(self).derivative_roots,
            final(self).labelled_roots == old(self).labelled_roots,
            final(self).filetree == old(self).filetree,
            final(self).current_root == old(self).current_root,
            final(self).heads == old(self).heads,
            final(self).depths == old(self).depths,
            r.path == path.path,
            r.depth == path.depth,
            r.root <= path.root,
            path_model(r) == collect_fold(path.bytes(), path_model(path), parts@, true),
    {
        let mut path = path;
        let mut parts = parts;
        let ghost start = path;
        let ghost t = path.bytes();
        let ghost target = collect_fold(t, path_model(path), parts@, true);
        let n0 = parts.len();
        let mut i: usize = 0;
        while parts.len() > 0
            invariant
                i + parts@.len() == n0,
                self.wf(),
                self.paths == old(self).paths,
                self.roots == old(self).roots,
                self.derivative_roots == old(self).derivative_roots,
                self.labelled_roots == old(self).labelled_roots,
                self.filetree == old(self).filetree,
                self.current_root == old(self).current_root,
                self.heads == old(self).heads,
                self.depths == old(self).depths,
                path.path == start.path,
                path.depth == start.depth,
                path.root <= start.root,
                t == path.bytes(),
                collect_fold(t, path_model(path), parts@, i == 0) == target,
            decreases parts@.len(),
        {
            let ghost before = parts@;
            let ghost st = path_model(path);
            let part = parts.pop().unwrap();
            proof {
                assert(before.drop_last() == parts@);
                assert(before.last() == part);
            }
            match part {
                BidsPathPart::Head(h) => {
                    if path.head == 0 {
                        path.head = h;
                        if path.root > h {
                            path.root = h;
                        }
                    }
                },
                BidsPathPart::Parent(keyval) => {
                    let (key, value) = keyval.get(path.as_bytes());
                    self.add_and_confirm_entity(key.as_slice(), value.as_slice());
                    let ghost ps = path.parents@;
                    path.parents.insert(0, keyval);
                    assert(path.parents@ =~= seq![keyval] + ps);
                },
                BidsPathPart::UncertainParent(keyval) => {
                    let (key, value) = keyval.get(path.as_bytes());
                    self.add_entity(key.as_slice(), value.as_slice());
                    path.add_uncertain_parent(keyval);
                },
                BidsPathPart::Datatype(comp) => {
                    let value = copy_range(path.as_bytes(), &comp);
                    self.add_entity(crate::bidspath::datatype_name().as_slice(), value.as_slice());
                    path.datatype = Some(comp);
                },
                BidsPathPart::Name(name) => {
                    let ghost nm = name;
                    let mut name = name;
                    if let Some(ps) = name.parts.take() {
                        path.extend_parts(ps);
                    }
                    let ghost st1 = path_model(path);
                    assert(st1 == name_parts_step(st, nm));
                    if i == 0 {
                        if let Some(suffix) = name.suffix {
                            let mut suffix = suffix;
                            if let Some(extension) = path.extract_extension(&mut suffix) {
                                let ext = copy_range(path.as_bytes(), &extension);
                                self.add_entity(crate::bidspath::extension_name().as_slice(), ext.as_slice());
                                path.extension = Some(extension);
                            }
                            let sfx = copy_range(path.as_bytes(), &suffix);
                            self.add_entity(crate::bidspath::suffix_name().as_slice(), sfx.as_slice());
                            path.suffix = Some(suffix);
                        } else if let Some(mut kvs) = name.entities.take() {
                            if let Some(keyval) = kvs.pop() {
                                let mut vr = keyval.val_range();
                                if let Some(extension) = path.extract_extension(&mut vr) {
                                    let ext = copy_range(path.as_bytes(), &extension);
                                    self.add_entity(crate::bidspath::extension_name().as_slice(), ext.as_slice());
                                    path.extension = Some(extension);
                                }
                                let (key, value) = keyval.get(path.as_bytes());
                                self.add_and_confirm_entity(key.as_slice(), value.as_slice());
                                path.entities.push(keyval);
                            }
                            name.entities = Some(kvs);
                        }
                    } else if let Some(suffix) = name.suffix {
                        path.push_part(suffix);
                    }
                    let ghost st2 = path_model(path);
                    assert(st2 == name_head_step(t, st1, nm, i == 0));
                    assert(match name.entities {
                        Some(es) => es@ == rest_seq(nm, i == 0),
                        None => rest_seq(nm, i == 0) == Seq::<KeyVal>::empty(),
                    });
                    if let Some(entities) = name.entities {
                        let ghost e0 = path.entities@;
                        let mut q: usize = 0;
                        while q < entities.len()
                            invariant
                                q <= entities@.len(),
                                self.wf(),
                                self.paths == old(self).paths,
                                self.roots == old(self).roots,
                                self.derivative_roots == old(self).derivative_roots,
                                self.labelled_roots == old(self).labelled_roots,
                                self.filetree == old(self).filetree,
                                self.current_root == old(self).current_root,
                                self.heads == old(self).heads,
                                self.depths == old(self).depths,
                                path.path == start.path,
                                path.depth == start.depth,
                                path.root <= start.root,
                                path.entities@ == e0 + entities@.take(q as int),
                                path_model(path) == (PathModel { entities: e0 + entities@.take(q as int), ..st2 }),
                            decreases entities@.len() - q,
                        {
                            let entity = entities[q];
                            let (key, value) = entity.get(path.as_bytes());
                            self.add_and_confirm_entity(key.as_slice(), value.as_slice());
                            path.entities.push(entity);
                            q = q + 1;
                            assert(path.entities@ =~= e0 + entities@.take(q as int));
                        }
                        assert(entities@.take(q as int) == entities@);
                    } else {
                        assert(st2.entities + seq![] =~= st2.entities);
                    }
                },
                BidsPathPart::UncertainDatatype(datatype) => {
                    self.add_uncertain_datatype();
                    path.push_uncertain_datatype(datatype);
                },
            }
            assert(path_model(path) == collect_step(t, st, part, i == 0));
            i = i + 1;
        }
        path
    }
}

/// A path with no annotation yet.
pub open spec fn bare_model(root: usize) -> PathModel {
    PathModel {
        parents: seq![],
        entities: seq![],
        parts: None,
        suffix: None,
        extension: None,
        datatype: None,
        head: 0,
        root,
        uparents: None,
        udts: None,
    }
}

/// The label each component gets: after the one before it (a head before the first), and
/// a name for the last.
pub open spec fn labels_ok(t: Seq<u8>, comps: Seq<ComponentType>, known: EntityTable, labels: Seq<BidsPathPart>) -> bool {
    &&& labels.len() == comps.len()
    &&& forall|k: int| 0 <= k < comps.len() - 1 ==> labelled(
        if k == 0 { BidsPathPart::Head(0) } else { labels[k - 1] },
        #[trigger] comps[k],
        t,
        comps[k + 1] is TwoType,
        known,
        labels[k],
    )
    &&& comps.len() > 0 ==> match labels.last() {
        BidsPathPart::Name(n) => name_of_comp(n, comps.last()),
        _ => false,
    }
}

impl BidsPathBuilder {
    /// The generic parse: labels each component after the one before it, then records the
    /// labels on the path and in the builder's tables.
    pub fn generic_build_parse(self, ds_builder: &mut LayoutBuilder) -> (r: BidsPath)
        requires
            old(ds_builder).wf(),
        ensures
            final(ds_builder).wf(),
            final(ds_builder).paths == old(ds_builder).paths,
            final(ds_builder).roots == old(ds_builder).roots,
            final(ds_builder).derivative_roots == old(ds_builder).derivative_roots,
            final(ds_builder).labelled_roots == old(ds_builder).labelled_roots,
            final(ds_builder).filetree == old(ds_builder).filetree,
            final(ds_builder).current_root == old(ds_builder).current_root,
            final(ds_builder).heads == old(ds_builder).heads,
            final(ds_builder).depths == old(ds_builder).depths,
            r.path@ == self.path@,
            r.depth == self.depth,
            r.root <= self.root,
            exists|labels: Seq<BidsPathPart>| labels_ok(self.bytes(), self.components@, old(ds_builder).entities, labels)
                && #[trigger] collect_fold(self.bytes(), bare_model(self.root), labels, true) == path_model(r),
    {
        let n = self.components.len();
        let ghost c0 = self.components@;
        let ghost t = self.bytes();
        let ghost known0 = ds_builder.entities;
        let mut is_twotype: Vec<bool> = Vec::new();
        let mut k: usize = 0;
        while k < n
            invariant
                k <= n == self.components@.len(),
                c0 == self.components@,
                is_twotype@.len() == k,
                forall|j: int| 0 <= j < k ==> #[trigger] is_twotype@[j] == (c0[j] is TwoType),
            decreases n - k,
        {
            is_twotype.push(matches!(self.components[k], ComponentType::TwoType(..)));
            k = k + 1;
        }
        let ghost s0 = self;
        let root = self.root;
        let depth = self.depth;
        let path_text = self.path;
        let mut comps = self.components;
        let mut rev: Vec<ComponentType> = Vec::new();
        while comps.len() > 0
            invariant
                comps@.len() + rev@.len() == n,
                comps@.len() <= c0.len() == n,
                comps@ == c0.take(comps@.len() as int),
                forall|j: int| 0 <= j < rev@.len() ==> #[trigger] rev@[j] == c0[n - 1 - j],
                self.path == s0.path,
                self.root == s0.root,
                self.depth == s0.depth,
                self.components@ == c0,
                root == s0.root,
                depth == s0.depth,
            decreases comps@.len(),
        {
            let ghost before = comps@;
            let c = comps.pop().unwrap();
            proof {
                assert(before.last() == c0[before.len() - 1]);
                assert(comps@ =~= c0.take(comps@.len() as int));
            }
            rev.push(c);
        }
        let bp = BidsPath::new(path_text, root, depth);
        let mut labels: Vec<BidsPathPart> = Vec::new();
        let mut i: usize = 0;
        while rev.len() > 0
            invariant
                i + rev@.len() == n,
                c0.len() == n,
                forall|j: int| 0 <= j < rev@.len() ==> #[trigger] rev@[j] == c0[n - 1 - j],
                is_twotype@.len() == n,
                forall|j: int| 0 <= j < n ==> #[trigger] is_twotype@[j] == (c0[j] is TwoType),
                self.path == s0.path,
                self.root == s0.root,
                self.depth == s0.depth,
                self.components@ == c0,
                bp.path@ == s0.path@,
                bp.root == s0.root,
                bp.depth == s0.depth,
                bp.is_bare(),
                t == bp.bytes(),
                *ds_builder == *old(ds_builder),
                known0 == ds_builder.entities,
                ds_builder.wf(),
                labels@.len() == i,
                forall|q: int| 0 <= q < i && q < n - 1 ==> labelled(
                    if q == 0 { BidsPathPart::Head(0) } else { labels@[q - 1] },
                    #[trigger] c0[q],
                    t,
                    c0[q + 1] is TwoType,
                    known0,
                    labels@[q],
                ),
                i == n && n > 0 ==> match labels@.last() {
                    BidsPathPart::Name(nm) => name_of_comp(nm, c0.last()),
                    _ => false,
                },
            decreases rev@.len(),
        {
            let ghost rb = rev@;
            let comp = rev.pop().unwrap();
            proof {
                assert(comp == rb[rb.len() - 1]);
                assert(comp == c0[i as int]);
                assert forall|j: int| 0 <= j < rev@.len() implies #[trigger] rev@[j] == c0[n - 1 - j] by {
                    assert(rev@[j] == rb[j]);
                }
            }
            let ghost lb = labels@;
            if i + 1 == n {
                let ghost cc = comp;
                let name = match comp {
                    ComponentType::OneType(keyval) => Name::from_onetype(keyval),
                    ComponentType::TwoType(elems) => Name::from_twotype(&elems),
                    ComponentType::ZeroType(c) => Name::from_zerotype(c),
                };
                assert(name_of_comp(name, cc));
                labels.push(BidsPathPart::Name(name));
                i = i + 1;
                proof {
                    assert forall|q: int| 0 <= q < i && q < n - 1 implies labelled(
                        if q == 0 { BidsPathPart::Head(0) } else { labels@[q - 1] },
                        #[trigger] c0[q],
                        t,
                        c0[q + 1] is TwoType,
                        known0,
                        labels@[q],
                    ) by {
                        assert(labels@[q] == lb[q]);
                        if q > 0 {
                            assert(labels@[q - 1] == lb[q - 1]);
                        }
                    }
                }
            } else {
                let next_is_twotype = is_twotype[i + 1];
                let head = BidsPathPart::Head(0);
                let label = {
                    let prev = if labels.len() > 0 { &labels[labels.len() - 1] } else { &head };
                    label_component_type(prev, comp, bp.as_bytes(), next_is_twotype, &ds_builder.entities)
                };
                labels.push(label);
                i = i + 1;
                proof {
                    assert forall|q: int| 0 <= q < i && q < n - 1 implies labelled(
                        if q == 0 { BidsPathPart::Head(0) } else { labels@[q - 1] },
                        #[trigger] c0[q],
                        t,
                        c0[q + 1] is TwoType,
                        known0,
                        labels@[q],
                    ) by {
                        if q < i - 1 {
                            assert(labels@[q] == lb[q]);
                            if q > 0 {
                                assert(labels@[q - 1] == lb[q - 1]);
                            }
                        } else if q > 0 {
                            assert(labels@[q - 1] == lb[q - 1]);
                        }
                    }
                }
            }
        }
        proof {
            assert(bp.parents@ =~= seq![]);
            assert(bp.entities@ =~= seq![]);
            assert(path_model(bp) == bare_model(s0.root));
            assert(labels_ok(t, c0, known0, labels@));
        }
        let r = ds_builder.collect_elements(bp, labels);
        proof {
            assert(labels_ok(s0.bytes(), s0.components@, old(ds_builder).entities, labels@));
        }
        r
    }
}

} // verus!

verus! {

impl LayoutBuilder {
    /// Records the entities of a strictly parsed path for the current path.
    fn merge_path(&mut self, path: &BidsPath)
        requires
            old(self).wf(),
        ensures
            final(self).wf(),
            final(self).paths == old(self).paths,
            final(self).roots == old(self).roots,
            final(self).derivative_roots == old(self).derivative_roots,
            final(self).labelled_roots == old(self).labelled_roots,
            final(self).filetree == old(self).filetree,
            final(self).current_root == old(self).current_root,
            final(self).heads == old(self).heads,
            final(self).depths == old(self).depths,
    {
        let i = self.current_path();
        let pairs = path.get_entities();
        let mut k: usize = 0;
        while k < pairs.len()
            invariant
                k <= pairs@.len(),
                i == self.paths@.len(),
                self.wf(),
                self.paths == old(self).paths,
                self.roots == old(self).roots,
                self.derivative_roots == old(self).derivative_roots,
                self.labelled_roots == old(self).labelled_roots,
                self.filetree == old(self).filetree,
                self.current_root == old(self).current_root,
                self.heads == old(self).heads,
                self.depths == old(self).depths,
            decreases pairs@.len() - k,
        {
            self.entities.insert_entity(i, pairs[k].0.as_slice(), pairs[k].1.as_slice());
            k = k + 1;
        }
        if let Some(uncertain) = path.get_uncertain_entities() {
            let mut k: usize = 0;
            while k < uncertain.len()
                invariant
                    k <= uncertain@.len(),
                    self.wf(),
                    self.paths == old(self).paths,
                    self.roots == old(self).roots,
                    self.derivative_roots == old(self).derivative_roots,
                    self.labelled_roots == old(self).labelled_roots,
                    self.filetree == old(self).filetree,
                    self.current_root == old(self).current_root,
                    self.heads == old(self).heads,
                    self.depths == old(self).depths,
                decreases uncertain@.len() - k,
            {
                self.add_entity(uncertain[k].0.as_slice(), uncertain[k].1.as_slice());
                k = k + 1;
            }
        }
        if path.uncertain_datatypes.is_some() {
            self.add_uncertain_datatype();
        }
    }

    /// Parses `path` (strictly where `with_spec`, generically else) and adds it, with the
    /// root length `root`. A strict parse that fails leaves the builder as it was.
    pub fn add_path(&mut self, path: String, root: usize, with_spec: bool) -> (r: Result<(), BidsPathErr>)
        requires
            old(self).wf(),
            old(self).maps_ok(),
            old(self).paths@.len() < usize::MAX,
        ensures
            final(self).wf(),
            final(self).maps_ok(),
            r is Ok ==> final(self).paths@.len() == old(self).paths@.len() + 1 && final(self).paths@.last().path@ == path@,
            r is Err ==> *final(self) == *old(self),
            r is Err ==> with_spec,
            r is Ok ==> final(self).closed_ids() == old(self).closed_ids() && final(self).current_root == old(self).current_root,
            !with_spec ==> r is Ok,
            r is Ok ==> forall|d: Seq<u8>, id: usize| #[trigger] final(self).filetree.has(d, id) <==> old(self).filetree.has(d, id)
                || (d == parent_dir(encode_utf8(path@)) && id == old(self).paths@.len()),
            r is Ok ==> exists|k: int| 0 <= k < final(self).depths@.len() && (#[trigger] final(self).depths@[k]).0 == final(self).paths@.last().depth
                && final(self).depths@[k].1@.contains(old(self).paths@.len() as usize),
            r is Ok ==> exists|k: int| 0 <= k < final(self).heads@.len() && (#[trigger] final(self).heads@[k]).0@
                == slice_of(final(self).paths@.last().bytes(), Span { start: 0, end: final(self).paths@.last().head })
                && final(self).heads@[k].1@.contains(old(self).paths@.len() as usize),
    {
        let dir = get_parent_dir(path.as_str().as_bytes());
        let builder = BidsPathBuilder::new(path, root);
        let ghost bpath = builder.path;
        let parsed = if with_spec {
            match builder.spec_parse() {
                Ok(p) => {
                    self.merge_path(&p);
                    p
                },
                Err(e) => {
                    return Err(e);
                },
            }
        } else {
            builder.generic_build_parse(self)
        };
        let i = self.current_path();
        self.filetree.insert(dir.as_slice(), i);
        let head = parsed.get_head();
        self.add_head(head.as_slice());
        self.add_depth(parsed.depth);
        let ghost pg = parsed;
        let ghost hs = self.heads@;
        let ghost ds = self.depths@;
        self.paths.push(parsed);
        proof {
            assert(self.paths@.last() == pg);
            let kh = choose|k: int| 0 <= k < hs.len() && (#[trigger] hs[k]).0@ == head@ && hs[k].1@.contains(i);
            assert(self.heads@[kh].0@ == slice_of(self.paths@.last().bytes(), Span { start: 0, end: self.paths@.last().head }));
            let kd = choose|k: int| 0 <= k < ds.len() && (#[trigger] ds[k]).0 == pg.depth && ds[k].1@.contains(i);
            assert(self.depths@[kd].0 == self.paths@.last().depth);
        }
        Ok(())
    }

    /// Settles the uncertain datatypes of path `i`: the last that can be taken becomes its
    /// datatype, and every other one a part. The root is cut to the head.
    fn resolve_datatypes(&mut self, i: usize)
        requires
            old(self).wf(),
            i < old(self).paths@.len(),
        ensures
            final(self).wf(),
            final(self).paths@.len() == old(self).paths@.len(),
            final(self).entities == old(self).entities,
            final(self).roots == old(self).roots,
            final(self).derivative_roots == old(self).derivative_roots,
            final(self).labelled_roots == old(self).labelled_roots,
            final(self).filetree == old(self).filetree,
            final(self).current_root == old(self).current_root,
            final(self).heads == old(self).heads,
            final(self).depths == old(self).depths,
            final(self).maps_ok() == old(self).maps_ok(),
            settles(old(self).entities, old(self).paths@[i as int], final(self).paths@[i as int]),
            forall|j: int| 0 <= j < old(self).paths@.len() && j != i ==> #[trigger] final(self).paths@[j] == old(self).paths@[j],
    {
        let ghost p0 = self.paths@;
        let mut p = self.paths.remove(i);
        let ghost o = p;
        match p.uncertain_datatypes.take() {
            None => {},
            Some(datatypes) => {
                let mut datatypes = datatypes;
                let ghost init = DtState { datatype: o.datatype, parts: opt_view(o.parts), found: false };
                let ghost target = resolve_fold(self.entities, init, datatypes@);
                let mut found = false;
                while datatypes.len() > 0
                    invariant
                        self.wf(),
                        self.paths@ == p0.remove(i as int),
                        self.entities == old(self).entities,
                        self.roots == old(self).roots,
                        self.derivative_roots == old(self).derivative_roots,
                        self.labelled_roots == old(self).labelled_roots,
                        self.filetree == old(self).filetree,
                        self.current_root == old(self).current_root,
                        self.heads == old(self).heads,
                        self.depths == old(self).depths,
                        self.maps_ok() == old(self).maps_ok(),
                        p.uncertain_datatypes is None,
                        p.path == o.path,
                        p.parents == o.parents,
                        p.entities == o.entities,
                        p.suffix == o.suffix,
                        p.extension == o.extension,
                        p.head == o.head,
                        p.root == o.root,
                        p.depth == o.depth,
                        p.uncertain_parents == o.uncertain_parents,
                        target == resolve_fold(self.entities, DtState { datatype: p.datatype, parts: opt_view(p.parts), found }, datatypes@),
                    decreases datatypes@.len(),
                {
                    let ghost before = datatypes@;
                    let dt = datatypes.pop().unwrap();
                    assert(before.drop_last() == datatypes@);
                    let (ok, value) = match &dt {
                        UnknownDatatypeTypes::Linked(entity, d) => (self.check_entity(entity.as_slice()) || d.is_valid, d.value),
                        UnknownDatatypeTypes::Unlinked(d) => (d.is_valid, d.value),
                    };
                    if ok && !found {
                        p.datatype = Some(value);
                        found = true;
                    } else {
                        p.push_part(value);
                    }
                }
            },
        }
        if p.root > p.head {
            p.root = p.head;
        }
        self.paths.insert(i, p);
        proof {
            assert(self.paths@ =~= p0.update(i as int, p));
        }
    }
}

/// The datatype and parts of a path while its uncertain datatypes are settled.
pub struct DtState {
    pub datatype: Option<Span>,
    pub parts: Option<Seq<Span>>,
    pub found: bool,
}

/// Whether an uncertain datatype can be taken: valid, or below a confirmed entity.
pub open spec fn resolvable(known: EntityTable, d: UnknownDatatypeTypes) -> bool {
    match d {
        UnknownDatatypeTypes::Linked(k, dt) => confirmed(known, k@) || dt.is_valid,
        UnknownDatatypeTypes::Unlinked(dt) => dt.is_valid,
    }
}

/// The uncertain datatypes, last first: the first that can be taken is the datatype, every
/// other one becomes a part.
pub open spec fn resolve_fold(known: EntityTable, st: DtState, s: Seq<UnknownDatatypeTypes>) -> DtState
    decreases s.len(),
{
    if s.len() == 0 {
        st
    } else {
        let d = s.last();
        let v = d.datatype().value;
        let next = if resolvable(known, d) && !st.found {
            DtState { datatype: Some(v), found: true, ..st }
        } else {
            DtState { parts: push_opt(st.parts, v), ..st }
        };
        resolve_fold(known, next, s.drop_last())
    }
}

/// Whether `p` is `o` with its uncertain datatypes settled against `known`, and its root cut
/// to its head.
pub open spec fn settles(known: EntityTable, o: BidsPath, p: BidsPath) -> bool {
    &&& p.uncertain_datatypes is None
    &&& p.path == o.path
    &&& p.parents == o.parents
    &&& p.entities == o.entities
    &&& p.suffix == o.suffix
    &&& p.extension == o.extension
    &&& p.head == o.head
    &&& p.root == if o.root > o.head { o.head } else { o.root }
    &&& p.depth == o.depth
    &&& p.uncertain_parents == o.uncertain_parents
    &&& match o.uncertain_datatypes {
        None => p.datatype == o.datatype && opt_view(p.parts) == opt_view(o.parts),
        Some(u) => {
            let f = resolve_fold(known, DtState { datatype: o.datatype, parts: opt_view(o.parts), found: false }, u@);
            p.datatype == f.datatype && opt_view(p.parts) == f.parts
        },
    }
}

} // verus!

verus! {

impl LayoutBuilder {
    /// Moves each root down to the longest head inside it, merging the roots that meet there;
    /// a root inside some head stays as it is.
    pub fn normalize_roots(heads: &Vec<String>, roots: Vec<(String, DatasetRoot)>) -> (r: Vec<(String, DatasetRoot)>)
        requires
            roots_wf(roots@),
        ensures
            roots_wf(r@),
            keys_distinct(r@),
            map_ids(r@) == map_ids(roots@),
    {
        let mut result: Vec<(String, DatasetRoot)> = Vec::new();
        let mut roots = roots;
        let ghost r0 = roots@;
        assert(r0.take(0) =~= seq![]);
        let mut k: usize = roots.len();
        // consume from the back
        while roots.len() > 0
            invariant
                roots@.len() <= r0.len(),
                roots@ == r0.take(roots@.len() as int),
                roots_wf(r0),
                roots_wf(result@),
                keys_distinct(result@),
                map_ids(result@).union(map_ids(roots@)) == map_ids(r0),
            decreases roots@.len(),
        {
            let ghost before = roots@;
            let (root, data) = roots.pop().unwrap();
            proof {
                assert(before.drop_last() == roots@);
                assert(r0.take(before.len() as int).drop_last() =~= r0.take(roots@.len() as int));
                assert(before.last() == r0[roots@.len() as int]);
                assert(data.wf());
            }
            let mut longest: Option<usize> = None;
            let mut inside = false;
            let mut h: usize = 0;
            while h < heads.len()
                invariant
                    h <= heads@.len(),
                    longest matches Some(x) ==> x < heads@.len(),
                decreases heads@.len() - h,
            {
                if is_subpath_of(heads[h].as_str(), root.as_str()) {
                    inside = true;
                    break;
                } else if is_subpath_of(root.as_str(), heads[h].as_str()) {
                    let better = match longest {
                        Some(x) => heads[h].as_str().len() > heads[x].as_str().len(),
                        None => true,
                    };
                    if better {
                        longest = Some(h);
                    }
                }
                h = h + 1;
            }
            let key = if inside {
                root
            } else {
                match longest {
                    Some(x) => clean_path(heads[x].as_str()),
                    None => root,
                }
            };
            let range = data.move_range();
            let ghost res0 = result@;
            merge_into(&mut result, key, range);
            proof {
                assert(map_ids(before) == map_ids(roots@).union(data.range_spec()@));
                assert(map_ids(result@).union(map_ids(roots@)) =~= map_ids(r0));
            }
        }
        result
    }
}

/// Adds the ids of `range` to entry `key` of `map`, making it where it is new.
fn merge_into(map: &mut Vec<(String, DatasetRoot)>, key: String, range: MultiRange)
    requires
        roots_wf(old(map)@),
        keys_distinct(old(map)@),
        range.wf(),
    ensures
        roots_wf(final(map)@),
        keys_distinct(final(map)@),
        map_ids(final(map)@) == map_ids(old(map)@).union(range@),
{
    let mut k: usize = 0;
    while k < map.len()
        invariant
            k <= map@.len(),
            *map == *old(map),
            roots_wf(old(map)@),
            keys_distinct(old(map)@),
            range.wf(),
            forall|j: int| 0 <= j < k ==> (#[trigger] map@[j]).0@ != key@,
        decreases map@.len() - k,
    {
        if map[k].0.eq(&key) {
            let ghost m0 = map@;
            let (name, mut root) = map.remove(k);
            assert(m0[k as int].1.wf());
            root.extend(&range);
            let ghost e = (name, root);
            map.insert(k, (name, root));
            proof {
                assert(map@ =~= m0.update(k as int, e));
                lemma_map_ids_update(m0, k as int, e);
                assert(map_ids(map@) =~= map_ids(m0).union(range@));
                assert forall|a: int, b: int| 0 <= a < b < map@.len() implies (#[trigger] map@[a]).0@ != (#[trigger] map@[b]).0@ by {
                    assert(map@[a].0 == m0[a].0 && map@[b].0 == m0[b].0);
                }
            }
            return;
        }
        k = k + 1;
    }
    let root = DatasetRoot { roottype: crate::roots::RootType::SeedRoot(range) };
    let ghost m0 = map@;
    map.push((key, root));
    proof {
        assert(map@.drop_last() == m0);
    }
}

} // verus!

verus! {

proof fn lemma_roots_set_update(s: Seq<(String, RootCategory)>, k: int, e: (String, RootCategory))
    requires
        0 <= k < s.len(),
    ensures
        crate::roots::roots_set(s.update(k, e)) == crate::roots::roots_set(s.remove(k)).union(cat_root(e.1).range_spec()@),
        crate::roots::roots_set(s) == crate::roots::roots_set(s.remove(k)).union(cat_root(s[k].1).range_spec()@),
    decreases s.len(),
{
    let n = s.len();
    if k == n - 1 {
        assert(s.update(k, e).drop_last() == s.drop_last());
        assert(s.remove(k) == s.drop_last());
    } else {
        lemma_roots_set_update(s.drop_last(), k, e);
        assert(s.update(k, e).drop_last() == s.drop_last().update(k, e));
        assert(s.remove(k).drop_last() == s.drop_last().remove(k));
        assert(s.remove(k).last() == s.last());
        assert(s.update(k, e).last() == s.last());
        assert(crate::roots::roots_set(s.update(k, e)) =~= crate::roots::roots_set(s.remove(k)).union(cat_root(e.1).range_spec()@));
        assert(crate::roots::roots_set(s) =~= crate::roots::roots_set(s.remove(k)).union(cat_root(s[k].1).range_spec()@));
    }
}

/// Puts `cat` under `key`; where `key` is there already, its ids join those of the root
/// already there, which keeps its category.
fn put_root(roots: &mut Vec<(String, RootCategory)>, key: String, cat: RootCategory)
    requires
        forall|i: int| 0 <= i < old(roots)@.len() ==> cat_root((#[trigger] old(roots)@[i]).1).wf(),
        forall|a: int, b: int| 0 <= a < b < old(roots)@.len() ==> (#[trigger] old(roots)@[a]).0@ != (#[trigger] old(roots)@[b]).0@,
        cat_root(cat).wf(),
    ensures
        forall|i: int| 0 <= i < final(roots)@.len() ==> cat_root((#[trigger] final(roots)@[i]).1).wf(),
        forall|a: int, b: int| 0 <= a < b < final(roots)@.len() ==> (#[trigger] final(roots)@[a]).0@ != (#[trigger] final(roots)@[b]).0@,
        crate::roots::roots_set(final(roots)@) == crate::roots::roots_set(old(roots)@).union(cat_root(cat).range_spec()@),
{
    let mut k: usize = 0;
    while k < roots.len()
        invariant
            k <= roots@.len(),
            *roots == *old(roots),
            forall|i: int| 0 <= i < old(roots)@.len() ==> cat_root((#[trigger] old(roots)@[i]).1).wf(),
            forall|a: int, b: int| 0 <= a < b < old(roots)@.len() ==> (#[trigger] old(roots)@[a]).0@ != (#[trigger] old(roots)@[b]).0@,
            forall|j: int| 0 <= j < k ==> (#[trigger] roots@[j]).0@ != key@,
            cat_root(cat).wf(),
        decreases roots@.len() - k,
    {
        if roots[k].0.eq(&key) {
            let ghost r0 = roots@;
            let (name, existing) = roots.remove(k);
            assert(cat_root(r0[k as int].1).wf());
            let added = match cat {
                RootCategory::Raw(r) => r.move_range(),
                RootCategory::Derivative(r) => r.move_range(),
                RootCategory::Labelled(_, r) => r.move_range(),
            };
            let merged = match existing {
                RootCategory::Raw(mut r) => {
                    r.extend(&added);
                    RootCategory::Raw(r)
                },
                RootCategory::Derivative(mut r) => {
                    r.extend(&added);
                    RootCategory::Derivative(r)
                },
                RootCategory::Labelled(l, mut r) => {
                    r.extend(&added);
                    RootCategory::Labelled(l, r)
                },
            };
            let ghost e = (name, merged);
            roots.insert(k, (name, merged));
            proof {
                assert(roots@ =~= r0.update(k as int, e));
                lemma_roots_set_update(r0, k as int, e);
                assert(crate::roots::roots_set(roots@) =~= crate::roots::roots_set(r0).union(cat_root(cat).range_spec()@));
                assert forall|a: int, b: int| 0 <= a < b < roots@.len() implies (#[trigger] roots@[a]).0@ != (#[trigger] roots@[b]).0@ by {
                    assert(roots@[a].0 == r0[a].0 && roots@[b].0 == r0[b].0);
                }
                assert forall|i: int| 0 <= i < roots@.len() implies cat_root((#[trigger] roots@[i]).1).wf() by {
                    assert(i == k || roots@[i] == r0[i]);
                }
            }
            return;
        }
        k = k + 1;
    }
    let ghost r0 = roots@;
    roots.push((key, cat));
    proof {
        assert(roots@.drop_last() == r0);
        assert forall|a: int, b: int| 0 <= a < b < roots@.len() implies (#[trigger] roots@[a]).0@ != (#[trigger] roots@[b]).0@ by {
            assert(roots@[a] == r0[a]);
        }
        assert forall|i: int| 0 <= i < roots@.len() implies cat_root((#[trigger] roots@[i]).1).wf() by {
            if i < r0.len() {
                assert(roots@[i] == r0[i]);
            }
        }
    }
}

impl LayoutBuilder {
    /// Closes the last root, settles the uncertain datatypes, normalises the roots against
    /// the heads, and freezes everything into a layout with no view.
    pub fn finalize(self) -> (r: Layout)
        requires
            self.wf(),
            self.maps_ok(),
        ensures
            r.wf(),
            r.view is None,
            r.metadata is None,
            r.paths@.len() == self.paths@.len(),
            *r.entities == self.entities,
            crate::roots::roots_set(r.roots.roots@) == self.root_ids(),
            forall|i: int| 0 <= i < self.paths@.len() ==> settles(self.entities, self.paths@[i], #[trigger] r.paths@[i]),
    {
        let mut b = self;
        b.register_root(None, RootLabel::Raw);
        let n = b.paths.len();
        let ghost p0 = b.paths@;
        let mut k: usize = 0;
        while k < n
            invariant
                b.wf(),
                b.maps_ok(),
                b.paths@.len() == n == p0.len(),
                b.entities == self.entities,
                b.closed_ids() == self.root_ids(),
                p0 == self.paths@,
                forall|j: int| 0 <= j < k ==> settles(self.entities, p0[j], #[trigger] b.paths@[j]),
                forall|j: int| k <= j < n ==> #[trigger] b.paths@[j] == p0[j],
            decreases n - k,
        {
            let ghost before = b.paths@;
            b.resolve_datatypes(k);
            proof {
                assert forall|j: int| 0 <= j < k + 1 implies settles(self.entities, p0[j], #[trigger] b.paths@[j]) by {
                    if j < k {
                        assert(b.paths@[j] == before[j]);
                    }
                }
                assert forall|j: int| k + 1 <= j < n implies #[trigger] b.paths@[j] == p0[j] by {
                    assert(b.paths@[j] == before[j]);
                }
            }
            k = k + 1;
        }
        let mut heads: Vec<String> = Vec::new();
        let mut h: usize = 0;
        while h < b.heads.len()
            invariant
                b.closed_ids() == self.root_ids(),
            decreases b.heads@.len() - h,
        {
            heads.push(text_of(b.heads[h].0.as_slice()));
            h = h + 1;
        }
        let mut roots: Vec<(String, RootCategory)> = Vec::new();
        let ghost target = b.closed_ids();
        let ghost dset = map_ids(b.derivative_roots@);
        let ghost lset = labelled_ids(b.labelled_roots@);
        assert(crate::roots::roots_set(roots@) =~= Set::empty());
        let raw = LayoutBuilder::normalize_roots(&heads, b.roots);
        let mut raw = raw;
        while raw.len() > 0
            invariant
                roots_wf(raw@),
                forall|i: int| 0 <= i < roots@.len() ==> cat_root((#[trigger] roots@[i]).1).wf(),
                forall|a: int, c: int| 0 <= a < c < roots@.len() ==> (#[trigger] roots@[a]).0@ != (#[trigger] roots@[c]).0@,
                crate::roots::roots_set(roots@).union(map_ids(raw@)).union(dset).union(lset) == target,
            decreases raw@.len(),
        {
            let ghost before = raw@;
            let ghost rs = crate::roots::roots_set(roots@);
            let (key, val) = raw.pop().unwrap();
            assert(before.last().1.wf());
            assert(before.drop_last() == raw@);
            let ghost vr = val.range_spec()@;
            put_root(&mut roots, key, RootCategory::Raw(val));
            assert(crate::roots::roots_set(roots@).union(map_ids(raw@)).union(dset).union(lset) =~= rs.union(map_ids(before)).union(dset).union(lset));
        }
        let mut der = LayoutBuilder::normalize_roots(&heads, b.derivative_roots);
        while der.len() > 0
            invariant
                roots_wf(der@),
                forall|i: int| 0 <= i < roots@.len() ==> cat_root((#[trigger] roots@[i]).1).wf(),
                forall|a: int, c: int| 0 <= a < c < roots@.len() ==> (#[trigger] roots@[a]).0@ != (#[trigger] roots@[c]).0@,
                crate::roots::roots_set(roots@).union(map_ids(der@)).union(lset) == target,
            decreases der@.len(),
        {
            let ghost before = der@;
            let ghost rs = crate::roots::roots_set(roots@);
            let (key, val) = der.pop().unwrap();
            assert(before.last().1.wf());
            assert(before.drop_last() == der@);
            put_root(&mut roots, key, RootCategory::Derivative(val));
            assert(crate::roots::roots_set(roots@).union(map_ids(der@)).union(lset) =~= rs.union(map_ids(before)).union(lset));
        }
        let mut labelled = b.labelled_roots;
        while labelled.len() > 0
            invariant
                forall|i: int| 0 <= i < labelled@.len() ==> roots_wf((#[trigger] labelled@[i]).1@),
                forall|i: int| 0 <= i < roots@.len() ==> cat_root((#[trigger] roots@[i]).1).wf(),
                forall|a: int, c: int| 0 <= a < c < roots@.len() ==> (#[trigger] roots@[a]).0@ != (#[trigger] roots@[c]).0@,
                crate::roots::roots_set(roots@).union(labelled_ids(labelled@)) == target,
            decreases labelled@.len(),
        {
            let ghost before = labelled@;
            let (label, map) = labelled.pop().unwrap();
            assert(roots_wf(before.last().1@));
            assert(before.drop_last() == labelled@);
            assert forall|i: int| 0 <= i < labelled@.len() implies roots_wf((#[trigger] labelled@[i]).1@) by {
                assert(labelled@[i] == before[i]);
            }
            let ghost mset = map_ids(map@);
            let mut norm = LayoutBuilder::normalize_roots(&heads, map);
            while norm.len() > 0
                invariant
                    roots_wf(norm@),
                    forall|i: int| 0 <= i < roots@.len() ==> cat_root((#[trigger] roots@[i]).1).wf(),
                    forall|a: int, c: int| 0 <= a < c < roots@.len() ==> (#[trigger] roots@[a]).0@ != (#[trigger] roots@[c]).0@,
                    crate::roots::roots_set(roots@).union(map_ids(norm@)).union(labelled_ids(labelled@)) == target,
                decreases norm@.len(),
            {
                let ghost nb = norm@;
                let ghost rs = crate::roots::roots_set(roots@);
                let (key, val) = norm.pop().unwrap();
                assert(nb.last().1.wf());
                assert(nb.drop_last() == norm@);
                put_root(&mut roots, key, RootCategory::Labelled(label.clone(), val));
                assert(crate::roots::roots_set(roots@).union(map_ids(norm@)).union(labelled_ids(labelled@)) =~= rs.union(map_ids(nb)).union(labelled_ids(labelled@)));
            }
            assert(crate::roots::roots_set(roots@).union(labelled_ids(labelled@)) =~= crate::roots::roots_set(roots@).union(map_ids(norm@)).union(labelled_ids(labelled@)));
        }
        assert(crate::roots::roots_set(roots@) =~= target);
        let dataset_roots = DatasetRoots { roots };
        Layout {
            paths: Arc::new(b.paths),
            entities: Arc::new(b.entities),
            roots: Arc::new(dataset_roots),
            heads: Arc::new(heads),
            filetree: Arc::new(b.filetree),
            depths: Arc::new(b.depths),
            metadata: None,
            view: None,
        }
    }
}

} // verus!

verus! {

/// The paths found under one root, as listed by a walk of the file system.
#[derive(Debug, Clone)]
pub struct RootListing {
    pub root: LocatedRoot,
    pub label: RootLabel,
    pub paths: Vec<String>,
}

/// Derivative roots to index, with an optional label.
#[derive(Debug, Clone)]
pub struct DerivativeSpec {
    pub paths: Vec<String>,
    pub label: Option<String>,
}

impl Layout {
    /// Indexes the listed roots, in order. Paths the strict grammar rejects, where `validate`
    /// asks for it, are left out; without it every listed path is indexed.
    pub fn create(listings: Vec<RootListing>, validate: bool) -> (r: Layout)
        ensures
            r.wf(),
            r.view is None,
            r.metadata is None,
            !validate && total_paths(listings@) < usize::MAX - 1 ==> r.paths@.len() == total_paths(listings@),
            forall|i: int| 0 <= i < r.paths@.len() ==> #[trigger] crate::roots::roots_set(r.roots.roots@).contains(i),
    {
        let ghost l0 = listings@;
        let mut b = LayoutBuilder::new();
        let mut listings = listings;
        let mut rev: Vec<RootListing> = Vec::new();
        while listings.len() > 0
            invariant
                total_paths(listings@) + total_paths(rev@) == total_paths(l0),
            decreases listings@.len(),
        {
            let ghost before = listings@;
            let x = listings.pop().unwrap();
            proof {
                assert(before.drop_last() == listings@);
                assert(rev@.push(x).drop_last() == rev@);
            }
            rev.push(x);
        }
        assert forall|i: int| 0 <= i < b.paths@.len() implies #[trigger] b.root_ids().contains(i) by {}
        while rev.len() > 0
            invariant
                b.wf(),
                b.maps_ok(),
                !validate && total_paths(l0) < usize::MAX - 1 ==> b.paths@.len() + total_paths(rev@) == total_paths(l0),
                forall|i: int| 0 <= i < b.paths@.len() ==> #[trigger] b.root_ids().contains(i),
            decreases rev@.len(),
        {
            let ghost rb = rev@;
            let listing = rev.pop().unwrap();
            assert(rb.drop_last() == rev@);
            let rootlen = listing.root.len;
            b.register_root(Some(listing.root), listing.label);
            let mut paths = listing.paths;
            let mut order: Vec<String> = Vec::new();
            let ghost m = paths@.len();
            while paths.len() > 0
                invariant
                    paths@.len() + order@.len() == m,
                decreases paths@.len(),
            {
                order.push(paths.pop().unwrap());
            }
            while order.len() > 0
                invariant
                    b.wf(),
                    b.maps_ok(),
                    !validate && total_paths(l0) < usize::MAX - 1 ==> b.paths@.len() + order@.len() + total_paths(rev@) == total_paths(l0),
                    forall|i: int| 0 <= i < b.paths@.len() ==> #[trigger] b.root_ids().contains(i),
                    b.current_root matches Some(c) && match c {
                        PartialRoot::Raw(_, st, _) => st <= b.paths@.len(),
                        PartialRoot::Derivative(_, _, st, _) => st <= b.paths@.len(),
                    },
                decreases order@.len(),
            {
                let p = order.pop().unwrap();
                proof {
                    lemma_total_nonneg(rev@);
                }
                if b.paths.len() < usize::MAX - 1 {
                    let ghost b0 = b;
                    let res = b.add_path(p, rootlen, validate);
                    proof {
                        if res is Ok {
                            assert forall|i: int| 0 <= i < b.paths@.len() implies #[trigger] b.root_ids().contains(i) by {
                                if i < b0.paths@.len() {
                                    assert(b0.root_ids().contains(i));
                                    assert(open_ids(b0.current_root, b0.paths@.len() as int).subset_of(open_ids(b.current_root, b.paths@.len() as int)));
                                }
                            }
                        }
                    }
                } else {
                    proof {
                        if !validate && total_paths(l0) < usize::MAX - 1 {
                            assert(false);
                        }
                    }
                }
            }
        }
        b.finalize()
    }
}

proof fn lemma_total_nonneg(s: Seq<RootListing>)
    ensures
        total_paths(s) >= 0,
    decreases s.len(),
{
    if s.len() > 0 {
        lemma_total_nonneg(s.drop_last());
    }
}

/// The number of paths listed.
pub open spec fn total_paths(s: Seq<RootListing>) -> int
    decreases s.len(),
{
    if s.len() == 0 {
        0
    } else {
        total_paths(s.drop_last()) + s.last().paths@.len()
    }
}

} // verus!
