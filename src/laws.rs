use crate::bidspath::{first_dot, kv_pair, kv_pairs, BidsPath};
use crate::builder::BidsPathBuilder;
use crate::entity_table::{masked, row_wf, EntityTable};
use crate::layout::{selects, wants, has_bool, Layout, QueryTerms};
use crate::multirange::{span_set, MultiRange};
use crate::primitives::{slice_of, Span};
use crate::template::{split_ext, strict_outcome, BidsPathErr};
use vstd::prelude::*;

verus! {

/// Each key and value a path exposes through its parents and filename entities is the slice
/// of the path that its stored range covers.
pub proof fn law_entities_are_slices(p: BidsPath, j: int)
    requires
        0 <= j < p.parents@.len() + p.entities@.len(),
    ensures
        j < p.parents@.len() ==> p.entity_pairs()[j] == kv_pair(p.bytes(), p.parents@[j]),
        j >= p.parents@.len() ==> p.entity_pairs()[j] == kv_pair(p.bytes(), p.entities@[j - p.parents@.len()]),
{
    let t = p.bytes();
    let a = kv_pairs(t, p.parents@);
    let b = kv_pairs(t, p.entities@);
    assert((a + b)[j] == if j < a.len() { a[j] } else { b[j - a.len()] });
}

proof fn lemma_first_dot(t: Seq<u8>, a: int, b: int)
    ensures
        first_dot(t, a, b) matches Some(p) ==> a <= p < b && t[p] == 46u8,
    decreases b - a,
{
    if a < b && t[a] != 46u8 {
        lemma_first_dot(t, a + 1, b);
    }
}

/// A split extension starts with `.` and runs to the end of the name; the suffix stops where
/// it starts.
pub proof fn law_extension_shape(t: Seq<u8>, r: Span)
    ensures
        split_ext(t, r).1 matches Some(e) ==> t[e.start as int] == 46u8 && e.end == r.end
            && split_ext(t, r).0.end == e.start && split_ext(t, r).0.start == r.start && r.start <= e.start,
{
    let hi = if r.end <= t.len() { r.end as int } else { t.len() as int };
    lemma_first_dot(t, r.start as int, hi);
}

/// Parsing the same path twice gives the same entities.
pub proof fn law_parse_deterministic(
    b: BidsPathBuilder,
    known: Seq<Vec<u8>>,
    r1: Result<BidsPath, BidsPathErr>,
    r2: Result<BidsPath, BidsPathErr>,
)
    requires
        strict_outcome(b, known, r1),
        strict_outcome(b, known, r2),
    ensures
        r1 is Ok <==> r2 is Ok,
        r1 matches Ok(first) ==> r2 matches Ok(second) && first.entity_pairs() == second.entity_pairs(),
{
    if r1 is Ok {
        let first = r1->Ok_0;
        let second = r2->Ok_0;
        assert(first.bytes() == second.bytes());
        assert(first.parents@ == second.parents@);
        assert(first.entities@ =~= second.entities@);
    }
}

/// No value of an entity is left without a path.
pub proof fn law_values_nonempty(t: EntityTable, r: int, w: int)
    requires
        t.wf(),
        0 <= r < t.rows@.len(),
        0 <= w < t.rows@[r].values@.len(),
    ensures
        t.rows@[r].values@[w].ids@.len() > 0,
{
    assert(row_wf(t.rows@[r]));
}

/// After a filter, the ids the table holds are those it held that the mask marks.
pub proof fn law_filter_universe(t: EntityTable, f: EntityTable, mask: Seq<bool>, i: usize)
    requires
        forall|e: Seq<u8>, v: Seq<u8>, x: usize| #[trigger] f.has(e, v, x) <==> t.has(e, v, x) && masked(mask, x),
    ensures
        (exists|e: Seq<u8>, v: Seq<u8>| #[trigger] f.has(e, v, i)) <==> (exists|e: Seq<u8>, v: Seq<u8>| #[trigger] t.has(e, v, i)) && masked(mask, i),
{
    if exists|e: Seq<u8>, v: Seq<u8>| #[trigger] f.has(e, v, i) {
        let (e, v) = choose|e: Seq<u8>, v: Seq<u8>| #[trigger] f.has(e, v, i);
        assert(t.has(e, v, i));
    }
    if (exists|e: Seq<u8>, v: Seq<u8>| #[trigger] t.has(e, v, i)) && masked(mask, i) {
        let (e, v) = choose|e: Seq<u8>, v: Seq<u8>| #[trigger] t.has(e, v, i);
        assert(f.has(e, v, i));
    }
}

/// Every id of an inserted range is then contained.
pub proof fn law_insert_contains(before: MultiRange, after: MultiRange, value: Span, id: int)
    requires
        after@ == before@.union(span_set(value)),
        value.start <= id < value.end,
    ensures
        after@.contains(id),
{
}

/// Merging is commutative and idempotent, and its result is coalesced.
pub proof fn law_merge(a: MultiRange, b: MultiRange, ab: MultiRange, ba: MultiRange, aa: MultiRange)
    requires
        ab.wf() && ab@ == a@.union(b@),
        ba.wf() && ba@ == b@.union(a@),
        aa@ == a@.union(a@),
    ensures
        ab@ == ba@,
        aa@ == a@,
        ab.wf(),
{
    assert(ab@ =~= ba@);
    assert(aa@ =~= a@);
}

/// A query with no filter keeps the view: on a layout with no view, every path.
pub proof fn law_empty_query_keeps_view(l: Layout, r: Layout, i: int)
    requires
        l.query_result(seq![], None, None, false, r),
    ensures
        r.visible(i) <==> l.visible(i),
        l.view is None ==> (r.visible(i) <==> 0 <= i < l.paths@.len()),
{
}

/// Asking for two values of an entity selects the paths that either one selects.
pub proof fn law_values_union(t: EntityTable, e: Seq<u8>, a: String, b: String, visible: Seq<bool>, i: usize)
    ensures
        selects(t, e, seq![QueryTerms::String(a), QueryTerms::String(b)], visible, i) <==> selects(
            t,
            e,
            seq![QueryTerms::String(a)],
            visible,
            i,
        ) || selects(t, e, seq![QueryTerms::String(b)], visible, i),
{
    let ab = seq![QueryTerms::String(a), QueryTerms::String(b)];
    let sa = seq![QueryTerms::String(a)];
    let sb = seq![QueryTerms::String(b)];
    assert(!has_bool(ab, true) && !has_bool(ab, false));
    assert(!has_bool(sa, true) && !has_bool(sa, false));
    assert(!has_bool(sb, true) && !has_bool(sb, false));
    assert forall|v: Seq<u8>| #[trigger] wants(ab, v) <==> wants(sa, v) || wants(sb, v) by {
        if wants(ab, v) {
            let j = choose|j: int| 0 <= j < ab.len() && match #[trigger] ab[j] {
                QueryTerms::String(s) => crate::layout::term_bytes(s) == v,
                QueryTerms::Number(n) => crate::layout::dec_parse(v) == Some(n),
                _ => false,
            };
            if j == 0 {
                assert(sa[0] == ab[0]);
            } else {
                assert(sb[0] == ab[1]);
            }
        }
        if wants(sa, v) {
            assert(ab[0] == sa[0]);
        }
        if wants(sb, v) {
            assert(ab[1] == sb[0]);
        }
    }
}

} // verus!

verus! {

proof fn lemma_key_selects_again(l: Layout, l1: Layout, nq: Seq<(Seq<u8>, Seq<QueryTerms>)>, q: int, k: Seq<u8>, ts: Seq<QueryTerms>, i: usize)
    requires
        0 <= q < nq.len(),
        nq[q] == (k, ts),
        l.metadata is None,
        l1.metadata is None,
        l1.paths == l.paths,
        l1.entities.has_entity(k),
        forall|e: Seq<u8>, x: Seq<u8>, j: usize| #[trigger] l1.entities.has(e, x, j) <==> l.entities.has(e, x, j) && l.selected(nq, None, None, j),
        forall|j: int| 0 <= j < l.paths@.len() ==> (#[trigger] l1.visible(j) <==> l.selected(nq, None, None, j as usize)),
        i < l.paths@.len(),
    ensures
        l1.key_selects(k, ts, l1.visible_seq(), i) <==> l.selected(nq, None, None, i) && l.key_selects(k, ts, l.visible_seq(), i),
{
    let t = *l.entities;
    let t1 = *l1.entities;
    let vs = l.visible_seq();
    let vs1 = l1.visible_seq();
    if selects(t1, k, ts, vs1, i) {
        if exists|v: Seq<u8>| #[trigger] t1.has(k, v, i) && (has_bool(ts, true) || wants(ts, v)) {
            let v = choose|v: Seq<u8>| #[trigger] t1.has(k, v, i) && (has_bool(ts, true) || wants(ts, v));
            assert(t.has(k, v, i));
            assert(t.has_entity(k));
            assert(l.selected(nq, None, None, i));
            assert(selects(t, k, ts, vs, i));
        } else {
            assert(vs1[i as int]);
            assert(l1.visible(i as int));
            assert(l.selected(nq, None, None, i));
            assert(l.query_selects(nq, i));
            assert(l.key_selects(nq[q].0, nq[q].1, vs, i));
        }
    }
    if l.selected(nq, None, None, i) && l.key_selects(k, ts, vs, i) {
        assert(selects(t, k, ts, vs, i));
        if exists|v: Seq<u8>| #[trigger] t.has(k, v, i) && (has_bool(ts, true) || wants(ts, v)) {
            let v = choose|v: Seq<u8>| #[trigger] t.has(k, v, i) && (has_bool(ts, true) || wants(ts, v));
            assert(t1.has(k, v, i));
        } else {
            assert(has_bool(ts, false) && !t.carries(k, i));
            assert(l1.visible(i as int));
            assert(vs1[i as int]);
            if t1.carries(k, i) {
                let v = choose|v: Seq<u8>| #[trigger] t1.has(k, v, i);
                assert(t.has(k, v, i));
            }
            assert(selects(t1, k, ts, vs1, i));
        }
    }
}

/// Querying the result of a query again with the same entity query selects the same paths,
/// where the layout has no metadata and the second query knows every key.
pub proof fn law_query_idempotent(l: Layout, l1: Layout, l2: Layout, nq: Seq<(Seq<u8>, Seq<QueryTerms>)>)
    requires
        l.metadata is None,
        nq.len() > 0,
        l.query_result(nq, None, None, true, l1),
        l1.query_result(nq, None, None, true, l2),
        forall|q: int| 0 <= q < nq.len() ==> #[trigger] l1.key_known(nq[q].0),
    ensures
        forall|i: int| #[trigger] l2.visible(i) <==> l1.visible(i),
{
    assert forall|j: int| 0 <= j < l.paths@.len() implies (#[trigger] l1.visible(j) <==> l.selected(nq, None, None, j as usize)) by {
        let v = l1.view.unwrap();
        assert(v@.contains(j as usize) <==> l.selected(nq, None, None, j as usize));
    }
    assert forall|i: int| #[trigger] l2.visible(i) <==> l1.visible(i) by {
        if 0 <= i < l.paths@.len() {
            let u = i as usize;
            assert(l2.view.unwrap()@.contains(u) <==> l1.selected(nq, None, None, u));
            assert forall|q: int| 0 <= q < nq.len() implies (#[trigger] l1.key_selects(nq[q].0, nq[q].1, l1.visible_seq(), u)
                <==> l.selected(nq, None, None, u) && l.key_selects(nq[q].0, nq[q].1, l.visible_seq(), u)) by {
                assert(l1.key_known(nq[q].0));
                lemma_key_selects_again(l, l1, nq, q, nq[q].0, nq[q].1, u);
            }
            if l.selected(nq, None, None, u) {
                assert(l.query_selects(nq, u));
                assert forall|q: int| 0 <= q < nq.len() implies #[trigger] l1.key_selects(nq[q].0, nq[q].1, l1.visible_seq(), u) by {
                    assert(l.key_selects(nq[q].0, nq[q].1, l.visible_seq(), u));
                }
            }
            if l1.selected(nq, None, None, u) {
                assert(l1.key_selects(nq[0].0, nq[0].1, l1.visible_seq(), u));
            }
        }
    }
}

} // verus!

verus! {

use crate::segments::{tokens, segment_tokens, no_sep, prim_end};
use crate::primitives::{is_sep, Primitive};

pub open spec fn prim_start(p: Primitive) -> usize {
    match p {
        Primitive::Value(s, _) => s,
        Primitive::Key(s, _) => s,
        Primitive::Suffix(s, _) => s,
        Primitive::Part(s, _) => s,
    }
}

/// Whether `d` tiles `s..end` of `t` as the tokens of a component do.
pub open spec fn tiles(t: Seq<u8>, d: Seq<Primitive>, s: int, end: int) -> bool {
    &&& d.len() > 0
    &&& prim_end(d[0]) == end
    &&& prim_start(d.last()) == s
    &&& forall|k: int| 0 <= k < d.len() ==> s <= prim_start(#[trigger] d[k]) <= prim_end(d[k]) <= end
        && no_sep(t, prim_start(d[k]) as int, prim_end(d[k]) as int)
    &&& forall|k: int| 0 <= k < d.len() - 1 ==> prim_start(#[trigger] d[k]) == prim_end(d[k + 1]) + 1
        && is_sep(t[prim_end(d[k + 1]) as int])
}

proof fn lemma_tile_cons(t: Seq<u8>, s: int, p: int, end: int, x: Primitive, rest: Seq<Primitive>)
    requires
        s < p <= end,
        tiles(t, rest, s, p - 1),
        prim_start(x) == p,
        prim_end(x) == end,
        no_sep(t, p, end),
        is_sep(t[p - 1]),
    ensures
        tiles(t, seq![x] + rest, s, end),
{
    let d = seq![x] + rest;
    assert forall|k: int| 0 <= k < d.len() implies s <= prim_start(#[trigger] d[k]) <= prim_end(d[k]) <= end
        && no_sep(t, prim_start(d[k]) as int, prim_end(d[k]) as int) by {
        if k > 0 {
            assert(d[k] == rest[k - 1]);
        }
    }
    assert forall|k: int| 0 <= k < d.len() - 1 implies prim_start(#[trigger] d[k]) == prim_end(d[k + 1]) + 1
        && is_sep(t[prim_end(d[k + 1]) as int]) by {
        assert(d[k + 1] == rest[k]);
        if k > 0 {
            assert(d[k] == rest[k - 1]);
        }
    }
    assert(d.last() == rest.last());
}

/// The tokens of `t[s..p]`, with a pending token ending at `end`, tile `s..end`.
proof fn lemma_tokens_tile(t: Seq<u8>, s: int, p: int, end: int, prev: Option<Primitive>)
    requires
        0 <= s <= p <= end <= t.len(),
        end <= usize::MAX,
        no_sep(t, p, end),
    ensures
        tiles(t, tokens(t, s, p, end, prev), s, end),
    decreases p - s,
{
    if p <= s {
        let d = tokens(t, s, p, end, prev);
        assert(d.len() == 1);
    } else if t[p - 1] == 95u8 {
        let nxt = crate::segments::keylike(p, end, prev);
        lemma_tokens_tile(t, s, p - 1, p - 1, Some(nxt));
        lemma_tile_cons(t, s, p, end, nxt, tokens(t, s, p - 1, p - 1, Some(nxt)));
    } else if t[p - 1] == 45u8 {
        let nxt = Primitive::Value(p as usize, end as usize);
        lemma_tokens_tile(t, s, p - 1, p - 1, Some(nxt));
        lemma_tile_cons(t, s, p, end, nxt, tokens(t, s, p - 1, p - 1, Some(nxt)));
    } else {
        assert(!is_sep(t[p - 1]));
        lemma_tokens_tile(t, s, p - 1, end, prev);
    }
}

/// The tokens of a component tile it: the first ends where the component ends, the last
/// starts where it starts, each lies inside it and holds no separator, and two neighbours
/// are parted by exactly one separator.
pub proof fn law_component_tiled(t: Seq<u8>, c: crate::primitives::Span)
    requires
        c.start <= c.end <= t.len(),
    ensures
        tiles(t, segment_tokens(t, c), c.start as int, c.end as int),
{
    lemma_tokens_tile(t, c.start as int, c.end as int, c.end as int, None);
}

} // verus!
