use crate::bidspath::{pairs_view, extension_key, extension_name};
use crate::entity_table::{vec_of, EntityTable, masked};
use crate::layout::{share, Layout, QueryTerms};
use crate::layout_builder::get_parent_dir;
use crate::primitives::same_bytes;
use std::sync::Arc;
use vstd::prelude::*;
use vstd::utf8::encode_utf8;

verus! {

/// A value of a sidecar's top-level object, as the index sees it.
#[derive(Debug, Clone, PartialEq, Eq)]
pub enum MetaValue {
    String(String),
    Null,
    Bool(bool),
    /// A number, in the text it is written as.
    Number(String),
    /// An array or an object: not indexed.
    Other,
}

/// The text a value is indexed under, where it is indexed.
pub open spec fn meta_text(v: MetaValue) -> Option<Seq<u8>> {
    match v {
        MetaValue::String(s) => Some(encode_utf8(s@)),
        MetaValue::Null => Some(seq![110u8, 117u8, 108u8, 108u8]),
        MetaValue::Bool(b) => if b { Some(seq![116u8, 114u8, 117u8, 101u8]) } else { Some(seq![102u8, 97u8, 108u8, 115u8, 101u8]) },
        MetaValue::Number(s) => Some(encode_utf8(s@)),
        MetaValue::Other => None,
    }
}

/// The text a value is indexed under, where it is indexed.
pub fn meta_value_text(v: &MetaValue) -> (r: Option<Vec<u8>>)
    ensures
        r is None <==> meta_text(*v) is None,
        r matches Some(t) ==> meta_text(*v) == Some(t@),
{
    match v {
        MetaValue::String(s) => Some(vstd::slice::slice_to_vec(s.as_str().as_bytes())),
        MetaValue::Null => {
            let r = vec![110u8, 117u8, 108u8, 108u8];
            assert(r@ =~= seq![110u8, 117u8, 108u8, 108u8]);
            Some(r)
        },
        MetaValue::Bool(b) => if *b {
            let r = vec![116u8, 114u8, 117u8, 101u8];
            assert(r@ =~= seq![116u8, 114u8, 117u8, 101u8]);
            Some(r)
        } else {
            let r = vec![102u8, 97u8, 108u8, 115u8, 101u8];
            assert(r@ =~= seq![102u8, 97u8, 108u8, 115u8, 101u8]);
            Some(r)
        },
        MetaValue::Number(s) => Some(vstd::slice::slice_to_vec(s.as_str().as_bytes())),
        MetaValue::Other => None,
    }
}

/// Builds the metadata table, sidecar by sidecar, deepest first.
#[derive(Debug)]
pub struct MetadataIndexBuilder {
    pub metadata: EntityTable,
    /// The ids that already hold a value, per key.
    pub was_assigned: EntityTable,
}

/// The bytes of a key.
pub open spec fn key_bytes(k: String) -> Seq<u8> {
    encode_utf8(k@)
}

/// The assigned-ids table keeps every id under the key with an empty value.
pub open spec fn assigned(b: MetadataIndexBuilder, k: Seq<u8>, i: usize) -> bool {
    b.was_assigned.has(k, seq![], i)
}

/// The metadata gathered so far: the (key, value, id) triples, and the (key, id) pairs
/// already given a value.
pub struct MetaState {
    pub table: Set<(Seq<u8>, Seq<u8>, usize)>,
    pub assigned: Set<(Seq<u8>, usize)>,
}

pub open spec fn empty_meta() -> MetaState {
    MetaState { table: Set::empty(), assigned: Set::empty() }
}

/// One entry of a sidecar, for the ids of `targets`: each target without a value for the key
/// yet gets this one.
pub open spec fn entry_step(st: MetaState, key: Seq<u8>, val: MetaValue, targets: Set<usize>) -> MetaState {
    match meta_text(val) {
        Some(t) => MetaState {
            table: st.table.union(Set::new(|x: (Seq<u8>, Seq<u8>, usize)| x.0 == key && x.1 == t && targets.contains(x.2) && !st.assigned.contains((key, x.2)))),
            assigned: st.assigned.union(Set::new(|x: (Seq<u8>, usize)| x.0 == key && targets.contains(x.1))),
        },
        None => st,
    }
}

/// The entries of a sidecar, in order.
pub open spec fn entries_fold(st: MetaState, es: Seq<(String, MetaValue)>, targets: Set<usize>) -> MetaState
    decreases es.len(),
{
    if es.len() == 0 {
        st
    } else {
        entry_step(entries_fold(st, es.drop_last(), targets), key_bytes(es.last().0), es.last().1, targets)
    }
}

/// The paths sidecar `sc` applies to.
pub open spec fn targets_of(layout: Layout, sc: int) -> Set<usize> {
    Set::new(|i: usize| i < layout.paths@.len()
        && (exists|d: Seq<u8>| crate::filetree::within(crate::layout_builder::parent_dir(layout.paths@[sc].bytes()), d) && #[trigger] layout.filetree.has(d, i))
        && compatible(layout.paths@[sc].entity_pairs(), layout.paths@[i as int].entity_pairs()))
}

/// The sidecars, in the order given; one whose id is out of range is passed over.
pub open spec fn sidecars_fold(layout: Layout, st: MetaState, sc: Seq<(usize, Vec<(String, MetaValue)>)>) -> MetaState
    decreases sc.len(),
{
    if sc.len() == 0 {
        st
    } else {
        let prev = sidecars_fold(layout, st, sc.drop_last());
        if sc.last().0 < layout.paths@.len() {
            entries_fold(prev, sc.last().1@, targets_of(layout, sc.last().0 as int))
        } else {
            prev
        }
    }
}

impl MetadataIndexBuilder {
    /// The builder's tables as sets.
    pub open spec fn state(&self) -> MetaState {
        MetaState { table: self.metadata@, assigned: Set::new(|x: (Seq<u8>, usize)| assigned(*self, x.0, x.1)) }
    }

    pub open spec fn wf(&self) -> bool {
        self.metadata.wf() && self.was_assigned.wf()
    }

    pub fn new() -> (r: MetadataIndexBuilder)
        ensures
            r.wf(),
            r.metadata@ == Set::<(Seq<u8>, Seq<u8>, usize)>::empty(),
            r.was_assigned@ == Set::<(Seq<u8>, Seq<u8>, usize)>::empty(),
    {
        MetadataIndexBuilder { metadata: EntityTable::new(), was_assigned: EntityTable::new() }
    }

    /// Gives `key` the value `val` for each id of `ix` that has none for it yet.
    pub fn add_entry(&mut self, key: &String, val: &MetaValue, ix: &Vec<usize>)
        requires
            old(self).wf(),
        ensures
            final(self).wf(),
            meta_text(*val) is None ==> *final(self) == *old(self),
            meta_text(*val) matches Some(t) ==> forall|e: Seq<u8>, v: Seq<u8>, i: usize| #[trigger] final(self).metadata.has(e, v, i) <==>
                old(self).metadata.has(e, v, i) || (e == key_bytes(*key) && v == t && ix@.contains(i) && !assigned(*old(self), e, i)),
            meta_text(*val) is Some ==> forall|e: Seq<u8>, i: usize| #[trigger] assigned(*final(self), e, i) <==>
                assigned(*old(self), e, i) || (e == key_bytes(*key) && ix@.contains(i)),
    {
        let text = match meta_value_text(val) {
            Some(t) => t,
            None => {
                return;
            },
        };
        let kb = key.as_str().as_bytes();
        let empty: Vec<u8> = Vec::new();
        let mut tbd: Vec<usize> = Vec::new();
        let mut k: usize = 0;
        let assigned_mask_src = &self.was_assigned;
        while k < ix.len()
            invariant
                k <= ix@.len(),
                self.wf(),
                *self == *old(self),
                empty@ == Seq::<u8>::empty(),
                forall|x: usize| #[trigger] tbd@.contains(x) <==> ix@.take(k as int).contains(x) && !assigned(*old(self), kb@, x),
            decreases ix@.len() - k,
        {
            let x = ix[k];
            let ghost before = tbd@;
            let already = self.was_assigned.has_exact(kb, empty.as_slice(), x);
            if !already {
                tbd.push(x);
            }
            proof {
                assert(ix@.take(k + 1) == ix@.take(k as int).push(x));
                assert forall|y: usize| #[trigger] tbd@.contains(y) <==> ix@.take(k + 1).contains(y) && !assigned(*old(self), kb@, y) by {
                    crate::entity_table::lemma_push_contains(ix@.take(k as int), x, y);
                    crate::entity_table::lemma_push_contains(before, x, y);
                }
            }
            k = k + 1;
        }
        assert(ix@.take(k as int) == ix@);
        self.metadata.extend_entities(kb, text.as_slice(), &tbd);
        self.was_assigned.extend_entities(kb, empty.as_slice(), ix);
    }
}

impl EntityTable {
    /// Whether path `i` carries value `v` of entity `e`.
    pub fn has_exact(&self, e: &[u8], v: &[u8], i: usize) -> (r: bool)
        requires
            self.wf(),
        ensures
            r == self.has(e@, v@, i),
    {
        match self.find(e) {
            None => false,
            Some(k) => {
                let row = &self.rows[k];
                let mut w: usize = 0;
                while w < row.values.len()
                    invariant
                        w <= row.values@.len(),
                        self.wf(),
                        k < self.rows@.len(),
                        *row == self.rows@[k as int],
                        self.rows@[k as int].entity@ == e@,
                        forall|q: int| 0 <= q < w ==> !((#[trigger] row.values@[q]).value@ == v@ && row.values@[q].ids@.contains(i)),
                    decreases row.values@.len() - w,
                {
                    if same_bytes(row.values[w].value.as_slice(), v) && crate::entity_table::contains_id(&row.values[w].ids, i) {
                        assert(crate::entity_table::row_has(*row, v@, i));
                        assert(self.has(e@, v@, i));
                        return true;
                    }
                    w = w + 1;
                }
                proof {
                    if self.has(e@, v@, i) {
                        let r = choose|r: int| 0 <= r < self.rows@.len() && (#[trigger] self.rows@[r]).entity@ == e@ && crate::entity_table::row_has(self.rows@[r], v@, i);
                        if r != k {
                            assert(self.rows@[r].entity@ != self.rows@[k as int].entity@);
                        }
                    }
                }
                false
            },
        }
    }
}

} // verus!

verus! {

/// Whether every pair of `s` but the extension is also a pair of `c`.
pub open spec fn compatible(s: Seq<(Seq<u8>, Seq<u8>)>, c: Seq<(Seq<u8>, Seq<u8>)>) -> bool {
    forall|j: int| 0 <= j < s.len() && (#[trigger] s[j]).0 != extension_key() ==> c.contains(s[j])
}

/// Whether the pairs `s` and `c` match as `compatible` says.
pub fn entities_compatible(s: &Vec<(Vec<u8>, Vec<u8>)>, c: &Vec<(Vec<u8>, Vec<u8>)>) -> (r: bool)
    ensures
        r == compatible(pairs_view(s@), pairs_view(c@)),
{
    let ext = extension_name();
    let ghost sv = pairs_view(s@);
    let ghost cv = pairs_view(c@);
    let mut j: usize = 0;
    while j < s.len()
        invariant
            j <= s@.len(),
            ext@ == extension_key(),
            sv == pairs_view(s@),
            cv == pairs_view(c@),
            forall|q: int| 0 <= q < j && (#[trigger] sv[q]).0 != extension_key() ==> cv.contains(sv[q]),
        decreases s@.len() - j,
    {
        if !same_bytes(s[j].0.as_slice(), ext.as_slice()) {
            let mut found = false;
            let mut q: usize = 0;
            while q < c.len()
                invariant
                    q <= c@.len(),
                    cv == pairs_view(c@),
                    sv == pairs_view(s@),
                    j < s@.len(),
                    found ==> cv.contains(sv[j as int]),
                    !found ==> forall|x: int| 0 <= x < q ==> (#[trigger] cv[x]) != sv[j as int],
                decreases c@.len() - q,
            {
                if !found && same_bytes(s[j].0.as_slice(), c[q].0.as_slice()) && same_bytes(s[j].1.as_slice(), c[q].1.as_slice()) {
                    assert(cv[q as int] == sv[j as int]);
                    found = true;
                }
                q = q + 1;
            }
            if !found {
                assert(!cv.contains(sv[j as int]));
                return false;
            }
        }
        j = j + 1;
    }
    true
}

impl MetadataIndexBuilder {
    /// The paths a sidecar applies to: those in its directory or below that carry each of its
    /// entities but the extension.
    pub fn sidecar_targets(layout: &Layout, sidecar: usize) -> (r: Vec<usize>)
        requires
            sidecar < layout.paths@.len(),
        ensures
            forall|i: usize| #[trigger] r@.contains(i) <==> i < layout.paths@.len()
                && (exists|d: Seq<u8>| crate::filetree::within(crate::layout_builder::parent_dir(layout.paths@[sidecar as int].bytes()), d) && #[trigger] layout.filetree.has(d, i))
                && compatible(layout.paths@[sidecar as int].entity_pairs(), layout.paths@[i as int].entity_pairs()),
    {
        let n = layout.paths.len();
        let sp = &layout.paths[sidecar];
        let dir = get_parent_dir(sp.as_bytes());
        let sent = sp.get_entities();
        let under = layout.filetree.get_subfiles(dir.as_slice(), n);
        assert(sp.bytes() == layout.paths@[sidecar as int].bytes());
        let mut out: Vec<usize> = Vec::new();
        let mut i: usize = 0;
        while i < n
            invariant
                i <= n == layout.paths@.len(),
                under@.len() == n,
                sidecar < n,
                *sp == layout.paths@[sidecar as int],
                pairs_view(sent@) == sp.entity_pairs(),
                dir@ == crate::layout_builder::parent_dir(layout.paths@[sidecar as int].bytes()),
                forall|x: int| 0 <= x < n ==> (#[trigger] under@[x] <==> exists|d: Seq<u8>| crate::filetree::within(dir@, d) && #[trigger] layout.filetree.has(d, x as usize)),
                forall|x: usize| #[trigger] out@.contains(x) <==> x < i && under@[x as int] && compatible(layout.paths@[sidecar as int].entity_pairs(), layout.paths@[x as int].entity_pairs()),
            decreases n - i,
        {
            if under[i] {
                let cent = layout.paths[i].get_entities();
                if entities_compatible(&sent, &cent) {
                    let ghost before = out@;
                    out.push(i);
                    proof {
                        assert forall|x: usize| #[trigger] out@.contains(x) <==> x < i + 1 && under@[x as int] && compatible(layout.paths@[sidecar as int].entity_pairs(), layout.paths@[x as int].entity_pairs()) by {
                            crate::entity_table::lemma_push_contains(before, i, x);
                        }
                    }
                }
            }
            i = i + 1;
        }
        proof {
            assert forall|x: usize| #[trigger] out@.contains(x) <==> x < layout.paths@.len()
                && (exists|d: Seq<u8>| crate::filetree::within(crate::layout_builder::parent_dir(layout.paths@[sidecar as int].bytes()), d) && #[trigger] layout.filetree.has(d, x))
                && compatible(layout.paths@[sidecar as int].entity_pairs(), layout.paths@[x as int].entity_pairs()) by {
                if x < n {
                    let xi = x as int;
                    assert(under@[xi] <==> exists|d: Seq<u8>| crate::filetree::within(dir@, d) && #[trigger] layout.filetree.has(d, xi as usize));
                    assert(xi as usize == x);
                }
            }
        }
        out
    }

    /// Indexes the top-level entries of one sidecar for the paths it applies to.
    pub fn index_sidecar(&mut self, layout: &Layout, sidecar: usize, entries: &Vec<(String, MetaValue)>)
        requires
            old(self).wf(),
            sidecar < layout.paths@.len(),
        ensures
            final(self).wf(),
            final(self).state() == entries_fold(old(self).state(), entries@, targets_of(*layout, sidecar as int)),
    {
        let targets = MetadataIndexBuilder::sidecar_targets(layout, sidecar);
        let ghost tset = targets_of(*layout, sidecar as int);
        assert forall|i: usize| #[trigger] targets@.contains(i) <==> tset.contains(i) by {}
        let mut k: usize = 0;
        assert(entries@.take(0) =~= seq![]);
        while k < entries.len()
            invariant
                k <= entries@.len(),
                self.wf(),
                forall|i: usize| #[trigger] targets@.contains(i) <==> tset.contains(i),
                self.state() == entries_fold(old(self).state(), entries@.take(k as int), tset),
            decreases entries@.len() - k,
        {
            let ghost before = self.state();
            self.add_entry(&entries[k].0, &entries[k].1, &targets);
            proof {
                assert(entries@.take(k + 1).drop_last() == entries@.take(k as int));
                let step = entry_step(before, key_bytes(entries@[k as int].0), entries@[k as int].1, tset);
                assert(self.state().table =~= step.table);
                assert(self.state().assigned =~= step.assigned);
            }
            k = k + 1;
        }
        assert(entries@.take(k as int) == entries@);
    }

    /// The sidecars of a layout's view, deepest first: each visible path with extension
    /// `.json`, once.
    pub fn sidecar_order(layout: &Layout) -> (r: Vec<usize>)
        requires
            layout.wf(),
        ensures
            forall|x: usize| #[trigger] r@.contains(x) <==> is_sidecar(*layout, x),
            forall|a: int, b: int| 0 <= a < b < r@.len() ==> r@[a] != r@[b],
            forall|a: int, b: int| 0 <= a < b < r@.len() ==> layout.paths@[(#[trigger] r@[a]) as int].depth >= layout.paths@[(#[trigger] r@[b]) as int].depth,
    {
        let n = layout.paths.len();
        let visible = layout.view_mask();
        let ext = extension_name();
        let json: Vec<u8> = vec![46u8, 106u8, 115u8, 111u8, 110u8];
        assert(json@ =~= json_key());
        let mut maxd: usize = 0;
        let mut i: usize = 0;
        while i < n
            invariant
                i <= n == layout.paths@.len(),
                forall|x: int| 0 <= x < i ==> layout.paths@[x].depth <= maxd,
            decreases n - i,
        {
            if layout.paths[i].depth > maxd {
                maxd = layout.paths[i].depth;
            }
            i = i + 1;
        }
        let mut out: Vec<usize> = Vec::new();
        let mut d: usize = maxd;
        loop
            invariant_except_break
                forall|x: usize| #[trigger] out@.contains(x) <==> is_sidecar(*layout, x) && layout.paths@[x as int].depth > d,
            invariant
                n == layout.paths@.len(),
                visible@ == layout.visible_seq(),
                layout.wf(),
                ext@ == extension_key(),
                json@ == json_key(),
                forall|x: int| 0 <= x < n ==> layout.paths@[x].depth <= maxd,
                d <= maxd,
                forall|k: int| 0 <= k < out@.len() ==> is_sidecar(*layout, #[trigger] out@[k]) && layout.paths@[out@[k] as int].depth >= d,
                forall|a: int, b: int| 0 <= a < b < out@.len() ==> out@[a] != out@[b],
                forall|a: int, b: int| 0 <= a < b < out@.len() ==> layout.paths@[(#[trigger] out@[a]) as int].depth >= layout.paths@[(#[trigger] out@[b]) as int].depth,
            ensures
                forall|x: usize| #[trigger] out@.contains(x) <==> is_sidecar(*layout, x),
                forall|a: int, b: int| 0 <= a < b < out@.len() ==> out@[a] != out@[b],
                forall|a: int, b: int| 0 <= a < b < out@.len() ==> layout.paths@[(#[trigger] out@[a]) as int].depth >= layout.paths@[(#[trigger] out@[b]) as int].depth,
            decreases d,
        {
            let mut i: usize = 0;
            let ghost o0 = out@;
            assert forall|k: int| 0 <= k < o0.len() implies is_sidecar(*layout, #[trigger] o0[k]) && layout.paths@[o0[k] as int].depth > d by {
                assert(out@.contains(o0[k]));
            }
            while i < n
                invariant
                    i <= n == layout.paths@.len(),
                    visible@ == layout.visible_seq(),
                    layout.wf(),
                    ext@ == extension_key(),
                    json@ == json_key(),
                    o0.len() <= out@.len(),
                    forall|k: int| 0 <= k < o0.len() ==> out@[k] == o0[k],
                    forall|k: int| 0 <= k < o0.len() ==> is_sidecar(*layout, #[trigger] o0[k]) && layout.paths@[o0[k] as int].depth > d,
                    forall|k: int| o0.len() <= k < out@.len() ==> is_sidecar(*layout, #[trigger] out@[k]) && layout.paths@[out@[k] as int].depth == d && out@[k] < i,
                    forall|a: int, b: int| o0.len() <= a < b < out@.len() ==> out@[a] < out@[b],
                    forall|a: int, b: int| 0 <= a < b < o0.len() ==> o0[a] != o0[b],
                    forall|a: int, b: int| 0 <= a < b < o0.len() ==> layout.paths@[(#[trigger] o0[a]) as int].depth >= layout.paths@[(#[trigger] o0[b]) as int].depth,
                    forall|x: usize| #[trigger] out@.contains(x) <==> o0.contains(x) || (x < i && is_sidecar(*layout, x) && layout.paths@[x as int].depth == d),
                decreases n - i,
            {
                let ghost before = out@;
                assert(visible@[i as int] == layout.visible(i as int));
                let take = visible[i] && layout.paths[i].depth == d && layout.entities.has_exact(ext.as_slice(), json.as_slice(), i);
                if take {
                    out.push(i);
                }
                proof {
                    assert forall|x: usize| #[trigger] out@.contains(x) <==> o0.contains(x) || (x < i + 1 && is_sidecar(*layout, x) && layout.paths@[x as int].depth == d) by {
                        if take {
                            crate::entity_table::lemma_push_contains(before, i, x);
                        }
                    }
                }
                i = i + 1;
            }
            proof {
                assert forall|a: int, b: int| 0 <= a < b < out@.len() implies out@[a] != out@[b] by {
                    if b >= o0.len() && a < o0.len() {
                        assert(out@[a] == o0[a]);
                        assert(layout.paths@[o0[a] as int].depth > d);
                    } else if b < o0.len() {
                        assert(out@[a] == o0[a] && out@[b] == o0[b]);
                    }
                }
                assert forall|a: int, b: int| 0 <= a < b < out@.len() implies layout.paths@[(#[trigger] out@[a]) as int].depth >= layout.paths@[(#[trigger] out@[b]) as int].depth by {
                    if b < o0.len() {
                        assert(out@[a] == o0[a] && out@[b] == o0[b]);
                    } else if a < o0.len() {
                        assert(out@[a] == o0[a]);
                    }
                }
                assert forall|k: int| 0 <= k < out@.len() implies is_sidecar(*layout, #[trigger] out@[k]) && layout.paths@[out@[k] as int].depth >= d by {
                    if k < o0.len() {
                        assert(out@[k] == o0[k]);
                    }
                }
                assert forall|x: usize| #[trigger] out@.contains(x) <==> is_sidecar(*layout, x) && layout.paths@[x as int].depth >= d by {
                    if o0.contains(x) {
                        let k = choose|k: int| 0 <= k < o0.len() && o0[k] == x;
                    }
                }
            }
            if d == 0 {
                break;
            }
            d = d - 1;
        }
        out
    }
}

/// The bytes `.json`.
pub open spec fn json_key() -> Seq<u8> {
    seq![46u8, 106u8, 115u8, 111u8, 110u8]
}

/// Whether path `x` is a sidecar of the layout's view.
pub open spec fn is_sidecar(layout: Layout, x: usize) -> bool {
    x < layout.paths@.len() && layout.visible(x as int) && layout.entities.has(extension_key(), json_key(), x)
}

impl Layout {
    /// Sets the metadata table from the sidecars' contents, given deepest first, unless it is
    /// set already.
    pub fn index_metadata_with(&mut self, sidecars: &Vec<(usize, Vec<(String, MetaValue)>)>)
        requires
            old(self).wf(),
        ensures
            final(self).wf(),
            old(self).metadata is Some ==> *final(self) == *old(self),
            final(self).metadata is Some,
            old(self).metadata is None ==> final(self).metadata.unwrap()@ == sidecars_fold(*old(self), empty_meta(), sidecars@).table,
            final(self).paths == old(self).paths,
            final(self).entities == old(self).entities,
            final(self).view == old(self).view,
    {
        if self.metadata.is_some() {
            return;
        }
        let mut builder = MetadataIndexBuilder::new();
        let ghost l0 = *self;
        assert forall|x: (Seq<u8>, usize)| !builder.state().assigned.contains(x) by {
            assert(!builder.was_assigned@.contains((x.0, seq![], x.1)));
        }
        assert(builder.state().assigned =~= Set::empty());
        assert(builder.state().table =~= Set::empty());
        assert(sidecars@.take(0) =~= seq![]);
        let mut k: usize = 0;
        while k < sidecars.len()
            invariant
                k <= sidecars@.len(),
                builder.wf(),
                *self == l0,
                l0 == *old(self),
                builder.state() == sidecars_fold(l0, empty_meta(), sidecars@.take(k as int)),
            decreases sidecars@.len() - k,
        {
            assert(sidecars@.take(k + 1).drop_last() == sidecars@.take(k as int));
            let id = sidecars[k].0;
            if id < self.paths.len() {
                builder.index_sidecar(self, id, &sidecars[k].1);
            }
            k = k + 1;
        }
        assert(sidecars@.take(k as int) == sidecars@);
        self.metadata = Some(Arc::new(builder.metadata));
    }
}

} // verus!
