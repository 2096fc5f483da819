use crate::primitives::same_bytes;
use vstd::prelude::*;

verus! {

/// The paths that carry one value of an entity.
#[derive(Debug, Clone)]
pub struct ValueRow {
    pub value: Vec<u8>,
    pub ids: Vec<usize>,
}

/// The values of one entity.
#[derive(Debug, Clone)]
pub struct EntityRow {
    pub entity: Vec<u8>,
    pub values: Vec<ValueRow>,
}

/// Whether `row` holds path `i` under value `v`.
pub open spec fn row_has(row: EntityRow, v: Seq<u8>, i: usize) -> bool {
    exists|w: int|
        0 <= w < row.values@.len() && (#[trigger] row.values@[w]).value@ == v
            && row.values@[w].ids@.contains(i)
}

/// Values are distinct, and each has a path at least.
pub open spec fn row_wf(row: EntityRow) -> bool {
    &&& row.values@.len() > 0
    &&& forall|w: int| 0 <= w < row.values@.len() ==> (#[trigger] row.values@[w]).ids@.len() > 0
    &&& forall|a: int, b: int|
        0 <= a < b < row.values@.len() ==> (#[trigger] row.values@[a]).value@ != (
        #[trigger] row.values@[b]).value@
}

/// A two-level inverted index: entity, then value, then the ids of the paths carrying it.
#[derive(Debug, Clone)]
pub struct EntityTable {
    pub rows: Vec<EntityRow>,
}

impl View for EntityTable {
    type V = Set<(Seq<u8>, Seq<u8>, usize)>;

    /// The table as a set of (entity, value, path id) triples.
    open spec fn view(&self) -> Set<(Seq<u8>, Seq<u8>, usize)> {
        Set::new(|t: (Seq<u8>, Seq<u8>, usize)| self.has(t.0, t.1, t.2))
    }
}

impl EntityTable {
    pub open spec fn has(&self, e: Seq<u8>, v: Seq<u8>, i: usize) -> bool {
        exists|r: int|
            0 <= r < self.rows@.len() && (#[trigger] self.rows@[r]).entity@ == e && row_has(
                self.rows@[r],
                v,
                i,
            )
    }

    /// Entities are distinct; no row of either level is empty.
    pub open spec fn wf(&self) -> bool {
        &&& forall|r: int| 0 <= r < self.rows@.len() ==> row_wf(#[trigger] self.rows@[r])
        &&& forall|a: int, b: int|
            0 <= a < b < self.rows@.len() ==> (#[trigger] self.rows@[a]).entity@ != (
            #[trigger] self.rows@[b]).entity@
    }

    /// Whether some path carries value `v` of entity `e`.
    pub open spec fn has_value(&self, e: Seq<u8>, v: Seq<u8>) -> bool {
        exists|i: usize| #[trigger] self.has(e, v, i)
    }

    /// Whether path `i` carries entity `e`.
    pub open spec fn carries(&self, e: Seq<u8>, i: usize) -> bool {
        exists|v: Seq<u8>| #[trigger] self.has(e, v, i)
    }

    /// Whether some path carries entity `e`.
    pub open spec fn has_entity(&self, e: Seq<u8>) -> bool {
        exists|v: Seq<u8>, i: usize| #[trigger] self.has(e, v, i)
    }

    pub fn new() -> (r: EntityTable)
        ensures
            r.wf(),
            r@ == Set::<(Seq<u8>, Seq<u8>, usize)>::empty(),
    {
        let r = EntityTable { rows: Vec::new() };
        assert(r@ =~= Set::empty());
        r
    }

    /// Position of the row of `entity`.
    pub fn find(&self, entity: &[u8]) -> (r: Option<usize>)
        requires
            self.wf(),
        ensures
            r matches Some(k) ==> k < self.rows@.len() && self.rows@[k as int].entity@ == entity@,
            r is None ==> forall|k: int| 0 <= k < self.rows@.len() ==> (#[trigger] self.rows@[k]).entity@ != entity@,
    {
        let mut k: usize = 0;
        while k < self.rows.len()
            invariant
                k <= self.rows@.len(),
                forall|j: int| 0 <= j < k ==> (#[trigger] self.rows@[j]).entity@ != entity@,
            decreases self.rows@.len() - k,
        {
            if same_bytes(self.rows[k].entity.as_slice(), entity) {
                return Some(k);
            }
            k = k + 1;
        }
        None
    }

    /// Whether some path carries `entity`.
    pub fn contains_key(&self, entity: &[u8]) -> (r: bool)
        requires
            self.wf(),
        ensures
            r == self.has_entity(entity@),
    {
        match self.find(entity) {
            Some(k) => {
                let ghost row = self.rows@[k as int];
                assert(row_wf(row));
                assert(row.values@[0].ids@.len() > 0);
                let ghost v = row.values@[0].value@;
                let ghost i = row.values@[0].ids@[0];
                assert(row.values@[0].ids@.contains(i));
                assert(row_has(row, v, i));
                assert(self.has(entity@, v, i));
                true
            },
            None => {
                assert forall|v: Seq<u8>, i: usize| !self.has(entity@, v, i) by {}
                false
            },
        }
    }

    /// Records that path `i` carries `value` for `entity`.
    pub fn insert_entity(&mut self, i: usize, entity: &[u8], value: &[u8])
        requires
            old(self).wf(),
        ensures
            final(self).wf(),
            final(self)@ == old(self)@.insert((entity@, value@, i)),
    {
        let ids = vec![i];
        assert(ids@.contains(i));
        self.extend_entities(entity, value, &ids);
        assert forall|x: usize| ids@.contains(x) <==> x == i by {
            if ids@.contains(x) {
                let k = choose|k: int| 0 <= k < ids@.len() && ids@[k] == x;
                assert(k == 0);
            }
        }
        assert(final(self)@ =~= old(self)@.insert((entity@, value@, i)));
    }

    /// Records that each path of `ids` carries `value` for `entity`; an empty `ids` changes
    /// nothing.
    pub fn extend_entities(&mut self, entity: &[u8], value: &[u8], ids: &Vec<usize>)
        requires
            old(self).wf(),
        ensures
            final(self).wf(),
            forall|e: Seq<u8>, v: Seq<u8>, x: usize|
                #[trigger] final(self).has(e, v, x) <==> old(self).has(e, v, x) || (e == entity@ && v
                    == value@ && ids@.contains(x)),
            final(self)@ == old(self)@.union(
                Set::new(|t: (Seq<u8>, Seq<u8>, usize)| t.0 == entity@ && t.1 == value@ && ids@.contains(t.2)),
            ),
    {
        let ghost old_self = *self;
        if ids.len() == 0 {
            assert forall|e: Seq<u8>, v: Seq<u8>, x: usize|
                #[trigger] self.has(e, v, x) <==> old_self.has(e, v, x) || (e == entity@ && v == value@
                    && ids@.contains(x)) by {
                assert(!ids@.contains(x));
            }
            assert(self@ =~= old_self@.union(
                Set::new(|t: (Seq<u8>, Seq<u8>, usize)| t.0 == entity@ && t.1 == value@ && ids@.contains(t.2)),
            ));
            return;
        }
        match self.find(entity) {
            Some(k) => {
                assert(old_self.rows@[k as int].entity@ == entity@);
                let mut row = self.rows.remove(k);
                let ghost row0 = row;
                row_extend(&mut row, value, ids);
                self.rows.insert(k, row);
                assert(self.rows@ =~= old_self.rows@.update(k as int, row));
                proof {
                    lemma_table_update(old_self, *self, k as int, row, entity@, value@, ids@);
                }
                assert forall|a: int, b: int|
                    0 <= a < b < self.rows@.len() implies (#[trigger] self.rows@[a]).entity@ != (
                    #[trigger] self.rows@[b]).entity@ by {
                    assert(old_self.rows@[a].entity@ == self.rows@[a].entity@);
                    assert(old_self.rows@[b].entity@ == self.rows@[b].entity@);
                }
            },
            None => {
                let mut values: Vec<ValueRow> = Vec::new();
                values.push(ValueRow { value: vstd::slice::slice_to_vec(value), ids: ids.clone() });
                let row = EntityRow { entity: vstd::slice::slice_to_vec(entity), values };
                let ghost vr = row.values@[0];
                assert(vr.ids@ == ids@);
                self.rows.push(row);
                let n = self.rows.len();
                assert forall|e: Seq<u8>, v: Seq<u8>, x: usize|
                    #[trigger] self.has(e, v, x) <==> old_self.has(e, v, x) || (e == entity@ && v
                        == value@ && ids@.contains(x)) by {
                    if self.has(e, v, x) {
                        let r = choose|r: int|
                            0 <= r < self.rows@.len() && (#[trigger] self.rows@[r]).entity@ == e
                                && row_has(self.rows@[r], v, x);
                        if r < n - 1 {
                            assert(old_self.rows@[r] == self.rows@[r]);
                        } else {
                            let w = choose|w: int|
                                0 <= w < self.rows@[r].values@.len() && (#[trigger] self.rows@[r].values@[w]).value@ == v
                                    && self.rows@[r].values@[w].ids@.contains(x);
                            assert(w == 0);
                        }
                    }
                    if old_self.has(e, v, x) {
                        let r = choose|r: int|
                            0 <= r < old_self.rows@.len() && (#[trigger] old_self.rows@[r]).entity@ == e
                                && row_has(old_self.rows@[r], v, x);
                        assert(old_self.rows@[r] == self.rows@[r]);
                    }
                    if e == entity@ && v == value@ && ids@.contains(x) {
                        assert(self.rows@[n - 1].values@[0] == vr);
                        assert(row_has(self.rows@[n - 1], v, x));
                    }
                }
                assert(row_wf(self.rows@[n - 1]));
            },
        }
        assert(self@ =~= old_self@.union(
            Set::new(|t: (Seq<u8>, Seq<u8>, usize)| t.0 == entity@ && t.1 == value@ && ids@.contains(t.2)),
        ));
    }
}


impl EntityTable {
    /// The entities that some path carries, each once.
    pub fn entity_keys(&self) -> (r: Vec<Vec<u8>>)
        requires
            self.wf(),
        ensures
            r@.len() == self.rows@.len(),
            forall|k: int| 0 <= k < r@.len() ==> (#[trigger] r@[k])@ == self.rows@[k].entity@,
            forall|e: Seq<u8>| self.has_entity(e) <==> exists|k: int| 0 <= k < r@.len() && (#[trigger] r@[k])@ == e,
    {
        let mut out: Vec<Vec<u8>> = Vec::new();
        let mut k: usize = 0;
        while k < self.rows.len()
            invariant
                k <= self.rows@.len(),
                out@.len() == k,
                forall|j: int| 0 <= j < k ==> (#[trigger] out@[j])@ == self.rows@[j].entity@,
            decreases self.rows@.len() - k,
        {
            out.push(self.rows[k].entity.clone());
            k = k + 1;
        }
        proof {
            assert forall|e: Seq<u8>| self.has_entity(e) <==> exists|k: int| 0 <= k < out@.len() && (#[trigger] out@[k])@ == e by {
                if self.has_entity(e) {
                    let (v, i) = choose|v: Seq<u8>, i: usize| #[trigger] self.has(e, v, i);
                    let r = choose|r: int| 0 <= r < self.rows@.len() && (#[trigger] self.rows@[r]).entity@ == e && row_has(self.rows@[r], v, i);
                    assert(out@[r]@ == e);
                }
                if exists|k: int| 0 <= k < out@.len() && (#[trigger] out@[k])@ == e {
                    let k = choose|k: int| 0 <= k < out@.len() && (#[trigger] out@[k])@ == e;
                    let row = self.rows@[k];
                    assert(row_wf(row));
                    assert(row.values@[0].ids@.len() > 0);
                    let i = row.values@[0].ids@[0];
                    assert(row.values@[0].ids@.contains(i));
                    assert(row_has(row, row.values@[0].value@, i));
                    assert(self.has(e, row.values@[0].value@, i));
                }
            }
        }
        out
    }

    /// The values of `key`, each once, where some path carries it.
    #[verifier::rlimit(40)]
    pub fn entity_vals(&self, key: &[u8]) -> (r: Option<Vec<Vec<u8>>>)
        requires
            self.wf(),
        ensures
            r is Some <==> self.has_entity(key@),
            r is Some ==> lists_values(*self, key@, r.unwrap()@),
    {
        match self.find(key) {
            None => {
                assert forall|v: Seq<u8>, i: usize| !self.has(key@, v, i) by {}
                None
            },
            Some(k) => {
                let row = &self.rows[k];
                let mut out: Vec<Vec<u8>> = Vec::new();
                let mut w: usize = 0;
                while w < row.values.len()
                    invariant
                        w <= row.values@.len(),
                        *row == self.rows@[k as int],
                        out@.len() == w,
                        forall|j: int| 0 <= j < w ==> (#[trigger] out@[j])@ == row.values@[j].value@,
                    decreases row.values@.len() - w,
                {
                    out.push(row.values[w].value.clone());
                    w = w + 1;
                }
                proof {
                    lemma_row_values(*self, key@, k as int, out@);
                }
                Some(out)
            },
        }
    }

    /// Marks, among the ids below `n`, those of paths that carry `entity`.
    pub fn entity_mask(&self, entity: &[u8], n: usize) -> (r: Vec<bool>)
        requires
            self.wf(),
        ensures
            r@.len() == n,
            forall|i: int| 0 <= i < n ==> (#[trigger] r@[i] <==> self.carries(entity@, i as usize)),
    {
        let mut m: Vec<bool> = vec_of(n, false);
        match self.find(entity) {
            None => {
                assert forall|i: int| 0 <= i < n implies (#[trigger] m@[i] <==> self.carries(entity@, i as usize)) by {
                    assert forall|v: Seq<u8>| !#[trigger] self.has(entity@, v, i as usize) by {}
                }
                m
            },
            Some(k) => {
                let row = &self.rows[k];
                let mut w: usize = 0;
                while w < row.values.len()
                    invariant
                        w <= row.values@.len(),
                        m@.len() == n,
                        forall|i: int| 0 <= i < n ==> (#[trigger] m@[i] <==> exists|j: int| 0 <= j < w && (#[trigger] row.values@[j]).ids@.contains(i as usize)),
                    decreases row.values@.len() - w,
                {
                    let ids = &row.values[w].ids;
                    let mut q: usize = 0;
                    let ghost m0 = m@;
                    while q < ids.len()
                        invariant
                            q <= ids@.len(),
                            m@.len() == n,
                            *ids == row.values@[w as int].ids,
                            forall|i: int| 0 <= i < n ==> (#[trigger] m@[i] <==> (m0[i] || ids@.take(q as int).contains(i as usize))),
                        decreases ids@.len() - q,
                    {
                        let x = ids[q];
                        if x < n {
                            m.set(x, true);
                        }
                        proof {
                            assert(ids@.take(q + 1) == ids@.take(q as int).push(x));
                            assert forall|y: usize| #[trigger] ids@.take(q + 1).contains(y) <==> ids@.take(q as int).contains(y) || y == x by {
                                lemma_push_contains(ids@.take(q as int), x, y);
                            }
                        }
                        q = q + 1;
                    }
                    assert(ids@.take(ids@.len() as int) == ids@);
                    proof {
                        assert forall|i: int| 0 <= i < n implies (#[trigger] m@[i] <==> exists|j: int| 0 <= j < w + 1 && (#[trigger] row.values@[j]).ids@.contains(i as usize)) by {
                            if m@[i] && !m0[i] {
                                assert(row.values@[w as int].ids@.contains(i as usize));
                            }
                        }
                    }
                    w = w + 1;
                }
                proof {
                    assert forall|i: int| 0 <= i < n implies (#[trigger] m@[i] <==> self.carries(entity@, i as usize)) by {
                        if m@[i] {
                            let j = choose|j: int| 0 <= j < row.values@.len() && (#[trigger] row.values@[j]).ids@.contains(i as usize);
                            assert(row_has(*row, row.values@[j].value@, i as usize));
                            assert(self.has(entity@, row.values@[j].value@, i as usize));
                        }
                        if self.carries(entity@, i as usize) {
                            let v = choose|v: Seq<u8>| #[trigger] self.has(entity@, v, i as usize);
                            let r = choose|r: int| 0 <= r < self.rows@.len() && (#[trigger] self.rows@[r]).entity@ == entity@ && row_has(self.rows@[r], v, i as usize);
                            assert(r == k as int);
                            let j = choose|j: int| 0 <= j < row.values@.len() && (#[trigger] row.values@[j]).value@ == v && row.values@[j].ids@.contains(i as usize);
                        }
                    }
                }
                m
            },
        }
    }
}

/// Whether `i` is marked in `mask`.
pub open spec fn masked(mask: Seq<bool>, i: usize) -> bool {
    i < mask.len() && mask[i as int]
}

/// The ids of `ids` marked in `mask`, in order.
pub fn filter_ids(ids: &Vec<usize>, mask: &Vec<bool>) -> (r: Vec<usize>)
    ensures
        forall|x: usize| #[trigger] r@.contains(x) <==> ids@.contains(x) && masked(mask@, x),
{
    let mut out: Vec<usize> = Vec::new();
    let mut k: usize = 0;
    while k < ids.len()
        invariant
            k <= ids@.len(),
            forall|x: usize| #[trigger] out@.contains(x) <==> ids@.take(k as int).contains(x) && masked(mask@, x),
        decreases ids@.len() - k,
    {
        let x = ids[k];
        let ghost before = out@;
        if x < mask.len() && mask[x] {
            out.push(x);
        }
        proof {
            assert(ids@.take(k + 1) == ids@.take(k as int).push(x));
            assert forall|y: usize| #[trigger] out@.contains(y) <==> ids@.take(k + 1).contains(y) && masked(mask@, y) by {
                lemma_push_contains(ids@.take(k as int), x, y);
                lemma_push_contains(before, x, y);
            }
        }
        k = k + 1;
    }
    assert(ids@.take(ids@.len() as int) == ids@);
    out
}

/// One entity row kept to the ids of `mask`; `None` where nothing is left.
fn filter_row(row: &EntityRow, mask: &Vec<bool>) -> (r: Option<EntityRow>)
    requires
        row_wf(*row),
    ensures
        r is None <==> forall|v: Seq<u8>, x: usize| !(#[trigger] row_has(*row, v, x) && masked(mask@, x)),
        r matches Some(nr) ==> nr.entity@ == row.entity@ && row_wf(nr) && forall|v: Seq<u8>, x: usize|
            #[trigger] row_has(nr, v, x) <==> row_has(*row, v, x) && masked(mask@, x),
{
    let mut values: Vec<ValueRow> = Vec::new();
    let ghost mut idx: Seq<int> = seq![];
    let mut w: usize = 0;
    while w < row.values.len()
        invariant
            w <= row.values@.len(),
            row_wf(*row),
            idx.len() == values@.len(),
            forall|j: int| 0 <= j < idx.len() ==> 0 <= #[trigger] idx[j] < w,
            forall|a: int, b: int| 0 <= a < b < idx.len() ==> #[trigger] idx[a] < #[trigger] idx[b],
            forall|j: int| 0 <= j < idx.len() ==> (#[trigger] values@[j]).value@ == row.values@[idx[j]].value@
                && values@[j].ids@.len() > 0
                && forall|x: usize| #[trigger] values@[j].ids@.contains(x) <==> row.values@[idx[j]].ids@.contains(x) && masked(mask@, x),
            forall|j: int, x: usize| 0 <= j < w && #[trigger] row.values@[j].ids@.contains(x) && masked(mask@, x) ==> exists|q: int| 0 <= q < idx.len() && #[trigger] idx[q] == j,
        decreases row.values@.len() - w,
    {
        let kept = filter_ids(&row.values[w].ids, mask);
        if kept.len() > 0 {
            let ghost before = values@;
            values.push(ValueRow { value: row.values[w].value.clone(), ids: kept });
            let ghost idx0 = idx;
            proof {
                idx = idx.push(w as int);
                assert forall|j: int| 0 <= j < idx.len() implies (#[trigger] values@[j]).value@ == row.values@[idx[j]].value@
                    && values@[j].ids@.len() > 0
                    && forall|x: usize| #[trigger] values@[j].ids@.contains(x) <==> row.values@[idx[j]].ids@.contains(x) && masked(mask@, x) by {
                    if j < before.len() {
                        assert(values@[j] == before[j]);
                    }
                }
                assert forall|j: int, x: usize| 0 <= j < w + 1 && #[trigger] row.values@[j].ids@.contains(x) && masked(mask@, x) implies exists|q: int| 0 <= q < idx.len() && #[trigger] idx[q] == j by {
                    if j == w {
                        assert(idx[idx.len() - 1] == j);
                    } else {
                        let q = choose|q: int| 0 <= q < idx0.len() && #[trigger] idx0[q] == j;
                        assert(idx[q] == j);
                    }
                }
            }
        } else {
            proof {
                assert forall|j: int, x: usize| 0 <= j < w + 1 && #[trigger] row.values@[j].ids@.contains(x) && masked(mask@, x) implies exists|q: int| 0 <= q < idx.len() && #[trigger] idx[q] == j by {
                    if j == w {
                        assert(kept@.contains(x));
                        assert(false);
                    }
                }
            }
        }
        w = w + 1;
    }
    proof {
        assert forall|v: Seq<u8>, x: usize| #[trigger] row_has(*row, v, x) && masked(mask@, x) ==> exists|j: int| 0 <= j < values@.len() && (#[trigger] values@[j]).value@ == v && values@[j].ids@.contains(x) by {
            if row_has(*row, v, x) && masked(mask@, x) {
                let j = choose|j: int| 0 <= j < row.values@.len() && (#[trigger] row.values@[j]).value@ == v && row.values@[j].ids@.contains(x);
                let q = choose|q: int| 0 <= q < idx.len() && #[trigger] idx[q] == j;
                assert(values@[q].ids@.contains(x));
            }
        }
    }
    if values.len() == 0 {
        return None;
    }
    let nr = EntityRow { entity: row.entity.clone(), values };
    proof {
        let x0 = values@[0].ids@[0];
        assert(values@[0].ids@.contains(x0));
        assert(row.values@[idx[0]].ids@.contains(x0) && masked(mask@, x0));
        assert(row_has(*row, values@[0].value@, x0));
        assert forall|a: int, b: int| 0 <= a < b < nr.values@.len() implies (#[trigger] nr.values@[a]).value@ != (#[trigger] nr.values@[b]).value@ by {
            assert(idx[a] < idx[b]);
        }
        assert forall|v: Seq<u8>, x: usize| #[trigger] row_has(nr, v, x) <==> row_has(*row, v, x) && masked(mask@, x) by {
            if row_has(nr, v, x) {
                let j = choose|j: int| 0 <= j < nr.values@.len() && (#[trigger] nr.values@[j]).value@ == v && nr.values@[j].ids@.contains(x);
                assert(row.values@[idx[j]].ids@.contains(x));
                assert(row_has(*row, v, x));
            }
            if row_has(*row, v, x) && masked(mask@, x) {
                let j = choose|j: int| 0 <= j < values@.len() && (#[trigger] values@[j]).value@ == v && values@[j].ids@.contains(x);
                assert(nr.values@[j] == values@[j]);
            }
        }
    }
    Some(nr)
}

impl EntityTable {
    /// The table kept to the ids of `mask`; values and entities left without ids drop out.
    pub fn filter(&self, mask: &Vec<bool>) -> (r: EntityTable)
        requires
            self.wf(),
        ensures
            r.wf(),
            forall|e: Seq<u8>, v: Seq<u8>, x: usize| #[trigger] r.has(e, v, x) <==> self.has(e, v, x) && masked(mask@, x),
    {
        let mut rows: Vec<EntityRow> = Vec::new();
        let ghost mut idx: Seq<int> = seq![];
        let mut k: usize = 0;
        while k < self.rows.len()
            invariant
                k <= self.rows@.len(),
                self.wf(),
                idx.len() == rows@.len(),
                forall|j: int| 0 <= j < idx.len() ==> 0 <= #[trigger] idx[j] < k,
                forall|a: int, b: int| 0 <= a < b < idx.len() ==> #[trigger] idx[a] < #[trigger] idx[b],
                forall|j: int| 0 <= j < idx.len() ==> (#[trigger] rows@[j]).entity@ == self.rows@[idx[j]].entity@
                    && row_wf(rows@[j])
                    && forall|v: Seq<u8>, x: usize| #[trigger] row_has(rows@[j], v, x) <==> row_has(self.rows@[idx[j]], v, x) && masked(mask@, x),
                forall|j: int, v: Seq<u8>, x: usize| 0 <= j < k && #[trigger] row_has(self.rows@[j], v, x) && masked(mask@, x) ==> exists|q: int| 0 <= q < idx.len() && #[trigger] idx[q] == j,
            decreases self.rows@.len() - k,
        {
            let kept = filter_row(&self.rows[k], mask);
            assert(row_wf(self.rows@[k as int]));
            match kept {
                Some(nr) => {
                    let ghost before = rows@;
                    rows.push(nr);
                    let ghost idx0 = idx;
                    proof {
                        idx = idx.push(k as int);
                        assert forall|j: int| 0 <= j < idx.len() implies (#[trigger] rows@[j]).entity@ == self.rows@[idx[j]].entity@
                            && row_wf(rows@[j])
                            && forall|v: Seq<u8>, x: usize| #[trigger] row_has(rows@[j], v, x) <==> row_has(self.rows@[idx[j]], v, x) && masked(mask@, x) by {
                            if j < before.len() {
                                assert(rows@[j] == before[j]);
                            }
                        }
                        assert forall|j: int, v: Seq<u8>, x: usize| 0 <= j < k + 1 && #[trigger] row_has(self.rows@[j], v, x) && masked(mask@, x) implies exists|q: int| 0 <= q < idx.len() && #[trigger] idx[q] == j by {
                            if j == k {
                                assert(idx[idx.len() - 1] == j);
                            } else {
                                let q = choose|q: int| 0 <= q < idx0.len() && #[trigger] idx0[q] == j;
                                assert(idx[q] == j);
                            }
                        }
                    }
                },
                None => {
                    proof {
                        assert forall|j: int, v: Seq<u8>, x: usize| 0 <= j < k + 1 && #[trigger] row_has(self.rows@[j], v, x) && masked(mask@, x) implies exists|q: int| 0 <= q < idx.len() && #[trigger] idx[q] == j by {
                            if j == k {
                                assert(false);
                            }
                        }
                    }
                },
            }
            k = k + 1;
        }
        let r = EntityTable { rows };
        proof {
            assert forall|a: int, b: int| 0 <= a < b < r.rows@.len() implies (#[trigger] r.rows@[a]).entity@ != (#[trigger] r.rows@[b]).entity@ by {
                assert(idx[a] < idx[b]);
            }
            assert forall|e: Seq<u8>, v: Seq<u8>, x: usize| #[trigger] r.has(e, v, x) <==> self.has(e, v, x) && masked(mask@, x) by {
                if r.has(e, v, x) {
                    let j = choose|j: int| 0 <= j < r.rows@.len() && (#[trigger] r.rows@[j]).entity@ == e && row_has(r.rows@[j], v, x);
                    assert(row_has(self.rows@[idx[j]], v, x));
                }
                if self.has(e, v, x) && masked(mask@, x) {
                    let j = choose|j: int| 0 <= j < self.rows@.len() && (#[trigger] self.rows@[j]).entity@ == e && row_has(self.rows@[j], v, x);
                    let q = choose|q: int| 0 <= q < idx.len() && #[trigger] idx[q] == j;
                    assert(row_has(r.rows@[q], v, x));
                }
            }
        }
        r
    }
}

/// `out` lists exactly the values of `key` in `t`.
pub open spec fn lists_values(t: EntityTable, key: Seq<u8>, out: Seq<Vec<u8>>) -> bool {
    forall|v: Seq<u8>| #[trigger] t.has_value(key, v) <==> exists|j: int| 0 <= j < out.len() && (#[trigger] out[j])@ == v
}

proof fn lemma_row_values(t: EntityTable, key: Seq<u8>, k: int, out: Seq<Vec<u8>>)
    requires
        t.wf(),
        0 <= k < t.rows@.len(),
        t.rows@[k].entity@ == key,
        out.len() == t.rows@[k].values@.len(),
        forall|j: int| 0 <= j < out.len() ==> (#[trigger] out[j])@ == t.rows@[k].values@[j].value@,
    ensures
        t.has_entity(key),
        lists_values(t, key, out),
{
    let row = t.rows@[k];
    assert(row_wf(row));
    let i0 = row.values@[0].ids@[0];
    assert(row.values@[0].ids@.contains(i0));
    assert(row_has(row, row.values@[0].value@, i0));
    assert(t.has(key, row.values@[0].value@, i0));
    assert forall|v: Seq<u8>| #[trigger] t.has_value(key, v) <==> exists|j: int| 0 <= j < out.len() && (#[trigger] out[j])@ == v by {
        if t.has_value(key, v) {
            let i = choose|i: usize| #[trigger] t.has(key, v, i);
            let r = choose|r: int| 0 <= r < t.rows@.len() && (#[trigger] t.rows@[r]).entity@ == key && row_has(t.rows@[r], v, i);
            assert(r == k);
            let j = choose|j: int| 0 <= j < row.values@.len() && (#[trigger] row.values@[j]).value@ == v && row.values@[j].ids@.contains(i);
            assert(out[j]@ == v);
        }
        if exists|j: int| 0 <= j < out.len() && (#[trigger] out[j])@ == v {
            let j = choose|j: int| 0 <= j < out.len() && (#[trigger] out[j])@ == v;
            let vr = row.values@[j];
            assert(vr.ids@.len() > 0);
            let i = vr.ids@[0];
            assert(vr.ids@.contains(i));
            assert(row_has(row, v, i));
            assert(t.has(key, v, i));
        }
    }
}

/// `n` copies of `b`.
pub fn vec_of(n: usize, b: bool) -> (r: Vec<bool>)
    ensures
        r@.len() == n,
        forall|i: int| 0 <= i < n ==> #[trigger] r@[i] == b,
{
    let mut r: Vec<bool> = Vec::new();
    let mut k: usize = 0;
    while k < n
        invariant
            k <= n,
            r@.len() == k,
            forall|i: int| 0 <= i < k ==> #[trigger] r@[i] == b,
        decreases n - k,
    {
        r.push(b);
        k = k + 1;
    }
    r
}

proof fn lemma_table_update(t0: EntityTable, t1: EntityTable, k: int, row: EntityRow, entity: Seq<u8>, value: Seq<u8>, ids: Seq<usize>)
    requires
        0 <= k < t0.rows@.len(),
        t1.rows@ == t0.rows@.update(k, row),
        t0.rows@[k].entity@ == entity,
        row.entity == t0.rows@[k].entity,
        forall|v: Seq<u8>, x: usize| #[trigger] row_has(row, v, x) <==> row_has(t0.rows@[k], v, x) || (v == value && ids.contains(x)),
    ensures
        forall|e: Seq<u8>, v: Seq<u8>, x: usize| #[trigger] t1.has(e, v, x) <==> t0.has(e, v, x) || (e == entity && v == value && ids.contains(x)),
{
    assert forall|e: Seq<u8>, v: Seq<u8>, x: usize| #[trigger] t1.has(e, v, x) <==> t0.has(e, v, x) || (e == entity && v == value && ids.contains(x)) by {
        if t1.has(e, v, x) {
            let r = choose|r: int| 0 <= r < t1.rows@.len() && (#[trigger] t1.rows@[r]).entity@ == e && row_has(t1.rows@[r], v, x);
            if r != k {
                assert(t0.rows@[r] == t1.rows@[r]);
            } else {
                assert(t1.rows@[r] == row);
                assert(row_has(row, v, x));
            }
        }
        if t0.has(e, v, x) {
            let r = choose|r: int| 0 <= r < t0.rows@.len() && (#[trigger] t0.rows@[r]).entity@ == e && row_has(t0.rows@[r], v, x);
            if r != k {
                assert(t0.rows@[r] == t1.rows@[r]);
            } else {
                assert(row_has(row, v, x));
                assert(t1.rows@[k] == row);
            }
        }
        if e == entity && v == value && ids.contains(x) {
            assert(row_has(row, v, x));
            assert(t1.rows@[k] == row);
        }
    }
}

/// Adds `ids` under `value` to one entity row.
fn row_extend(row: &mut EntityRow, value: &[u8], ids: &Vec<usize>)
    requires
        row_wf(*old(row)),
        ids@.len() > 0,
    ensures
        row_wf(*final(row)),
        final(row).entity == old(row).entity,
        forall|v: Seq<u8>, x: usize|
            #[trigger] row_has(*final(row), v, x) <==> row_has(*old(row), v, x) || (v == value@
                && ids@.contains(x)),
{
    let ghost r0 = *row;
    let mut w: usize = 0;
    while w < row.values.len()
        invariant
            *row == r0,
            r0 == *old(row),
            row_wf(r0),
            ids@.len() > 0,
            w <= row.values@.len(),
            forall|j: int| 0 <= j < w ==> (#[trigger] row.values@[j]).value@ != value@,
        decreases row.values@.len() - w,
    {
        if same_bytes(row.values[w].value.as_slice(), value) {
            assert(r0.values@[w as int].ids@.len() > 0);
            let mut vr = row.values.remove(w);
            let ghost vr0 = vr;
            assert(vr0 == r0.values@[w as int]);
            let mut k: usize = 0;
            while k < ids.len()
                invariant
                    k <= ids@.len(),
                    vr.value == vr0.value,
                    vr.ids@.len() > 0,
                    forall|x: usize| #[trigger] vr.ids@.contains(x) <==> vr0.ids@.contains(x) || ids@.take(k as int).contains(x),
                decreases ids@.len() - k,
            {
                let x = ids[k];
                let ghost before = vr.ids@;
                if !contains_id(&vr.ids, x) {
                    vr.ids.push(x);
                }
                proof {
                    assert(ids@.take(k + 1) == ids@.take(k as int).push(x));
                    assert forall|y: usize| #[trigger] ids@.take(k + 1).contains(y) <==> ids@.take(k as int).contains(y) || y == x by {
                        lemma_push_contains(ids@.take(k as int), x, y);
                    }
                    assert forall|y: usize| #[trigger] vr.ids@.contains(y) <==> before.contains(y) || y == x by {
                        if vr.ids@ != before {
                            lemma_push_contains(before, x, y);
                        }
                    }
                }
                k = k + 1;
            }
            assert(ids@.take(ids@.len() as int) == ids@);
            row.values.insert(w, vr);
            assert(row.values@ =~= r0.values@.update(w as int, vr));
            assert forall|v: Seq<u8>, x: usize|
                #[trigger] row_has(*row, v, x) <==> row_has(r0, v, x) || (v == value@ && ids@.contains(x)) by {
                if row_has(*row, v, x) {
                    let j = choose|j: int|
                        0 <= j < row.values@.len() && (#[trigger] row.values@[j]).value@ == v
                            && row.values@[j].ids@.contains(x);
                    if j != w {
                        assert(r0.values@[j] == row.values@[j]);
                    }
                }
                if row_has(r0, v, x) {
                    let j = choose|j: int|
                        0 <= j < r0.values@.len() && (#[trigger] r0.values@[j]).value@ == v
                            && r0.values@[j].ids@.contains(x);
                    assert(r0.values@[j] == row.values@[j] || j == w);
                    if j == w {
                        assert(row.values@[j] == vr);
                    }
                }
                if v == value@ && ids@.contains(x) {
                    assert(row.values@[w as int] == vr);
                }
            }
            assert(row.values@[w as int].value == r0.values@[w as int].value);
            assert forall|a: int, b: int|
                0 <= a < b < row.values@.len() implies (#[trigger] row.values@[a]).value@ != (
                #[trigger] row.values@[b]).value@ by {
                assert(r0.values@[a].value@ == row.values@[a].value@);
                assert(r0.values@[b].value@ == row.values@[b].value@);
            }
            return;
        }
        w = w + 1;
    }
    let nv = ValueRow { value: vstd::slice::slice_to_vec(value), ids: ids.clone() };
    let ghost nvv = nv;
    assert(nv.ids@ == ids@);
    row.values.push(nv);
    let n = row.values.len();
    assert forall|v: Seq<u8>, x: usize|
        #[trigger] row_has(*row, v, x) <==> row_has(r0, v, x) || (v == value@ && ids@.contains(x)) by {
        if row_has(*row, v, x) {
            let j = choose|j: int|
                0 <= j < row.values@.len() && (#[trigger] row.values@[j]).value@ == v
                    && row.values@[j].ids@.contains(x);
            if j < n - 1 {
                assert(r0.values@[j] == row.values@[j]);
            }
        }
        if row_has(r0, v, x) {
            let j = choose|j: int|
                0 <= j < r0.values@.len() && (#[trigger] r0.values@[j]).value@ == v
                    && r0.values@[j].ids@.contains(x);
            assert(r0.values@[j] == row.values@[j]);
        }
        if v == value@ && ids@.contains(x) {
            assert(row.values@[n - 1] == nvv);
        }
    }
    assert forall|a: int, b: int|
        0 <= a < b < row.values@.len() implies (#[trigger] row.values@[a]).value@ != (
        #[trigger] row.values@[b]).value@ by {
        if b == n - 1 {
            assert(row.values@[a] == r0.values@[a]);
        } else {
            assert(row.values@[a] == r0.values@[a]);
            assert(row.values@[b] == r0.values@[b]);
        }
    }
}

pub proof fn lemma_push_contains<T>(s: Seq<T>, x: T, y: T)
    ensures
        s.push(x).contains(y) <==> s.contains(y) || y == x,
{
    if s.push(x).contains(y) {
        let q = choose|q: int| 0 <= q < s.push(x).len() && s.push(x)[q] == y;
        if q < s.len() {
            assert(s[q] == y);
        }
    }
    if s.contains(y) {
        let q = choose|q: int| 0 <= q < s.len() && s[q] == y;
        assert(s.push(x)[q] == y);
    }
    if y == x {
        assert(s.push(x)[s.len() as int] == y);
    }
}

/// Whether `x` is among `ids`.
pub fn contains_id(ids: &Vec<usize>, x: usize) -> (r: bool)
    ensures
        r == ids@.contains(x),
{
    let mut k: usize = 0;
    while k < ids.len()
        invariant
            k <= ids@.len(),
            forall|j: int| 0 <= j < k ==> ids@[j] != x,
        decreases ids@.len() - k,
    {
        if ids[k] == x {
            assert(ids@[k as int] == x);
            return true;
        }
        k = k + 1;
    }
    false
}

} // verus!
