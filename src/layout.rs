use crate::bidspath::BidsPath;
use crate::entity_table::{lemma_push_contains, masked, row_has, row_wf, vec_of, EntityTable};
use crate::filetree::FileTree;
use crate::roots::{selected_set, strings_view, DatasetRoots, GlobErr};
use crate::standards::{deref_key_alias, short_key};
use std::sync::Arc;
use vstd::prelude::*;
use vstd::utf8::encode_utf8;

verus! {

/// Why a query failed.
#[derive(Debug)]
pub enum QueryErr {
    MissingEntity(Vec<String>),
    MissingVal(String, Vec<String>),
    AmbiguousQuery(String, u64, Vec<String>),
    MutliErr(Vec<QueryErr>),
    GlobErr(GlobErr),
}

/// One accepted term of a query on an entity.
#[derive(Debug, Clone, PartialEq, Eq)]
pub enum QueryTerms {
    /// `true`: any value; `false`: no value at all.
    Bool(bool),
    /// This exact value.
    String(String),
    /// The value that reads as this number.
    Number(u64),
    /// No restriction.
    Any,
}

/// Relies on `Arc::clone`: the clone is a handle to the same value.
#[verifier::external_body]
pub(crate) fn share<T>(a: &Arc<T>) -> (r: Arc<T>)
    ensures
        r == *a,
{
    Arc::clone(a)
}

// ---------------------------------------------------------------- numbers

pub open spec fn is_digit(b: u8) -> bool {
    48u8 <= b <= 57u8
}

pub open spec fn digits_value(s: Seq<u8>) -> int
    decreases s.len(),
{
    if s.len() == 0 {
        0
    } else {
        digits_value(s.drop_last()) * 10 + (s.last() - 48u8)
    }
}

/// The unsigned number `s` spells, as `u64::from_str` reads it: an optional `+`, then one
/// decimal digit at least, within range.
pub open spec fn dec_parse(s: Seq<u8>) -> Option<u64> {
    let d = unsigned_digits(s);
    if d.len() > 0 && all_digits(d) && digits_value(d) <= u64::MAX {
        Some(digits_value(d) as u64)
    } else {
        None
    }
}

/// `s` without its leading `+`, if any.
pub open spec fn unsigned_digits(s: Seq<u8>) -> Seq<u8> {
    if s.len() > 0 && s[0] == 43u8 { s.drop_first() } else { s }
}

pub open spec fn all_digits(d: Seq<u8>) -> bool {
    forall|i: int| 0 <= i < d.len() ==> is_digit(#[trigger] d[i])
}

proof fn lemma_digits_value_nonneg(s: Seq<u8>)
    requires
        forall|i: int| 0 <= i < s.len() ==> is_digit(#[trigger] s[i]),
    ensures
        digits_value(s) >= 0,
    decreases s.len(),
{
    if s.len() > 0 {
        lemma_digits_value_nonneg(s.drop_last());
    }
}

/// Reads a byte string as an unsigned number.
pub fn parse_u64(s: &[u8]) -> (r: Option<u64>)
    ensures
        r == dec_parse(s@),
{
    let start: usize = if s.len() > 0 && s[0] == 43u8 { 1 } else { 0 };
    let ghost d = unsigned_digits(s@);
    assert(d =~= s@.subrange(start as int, s@.len() as int));
    if start >= s.len() {
        return None;
    }
    let mut acc: u64 = 0;
    let mut i: usize = start;
    while i < s.len()
        invariant
            start <= i <= s@.len(),
            d == unsigned_digits(s@),
            d == s@.subrange(start as int, s@.len() as int),
            forall|j: int| start <= j < i ==> is_digit(#[trigger] s@[j]),
            acc == digits_value(s@.subrange(start as int, i as int)),
        decreases s@.len() - i,
    {
        let b = s[i];
        let ghost pre = s@.subrange(start as int, i as int);
        let ghost next = s@.subrange(start as int, i + 1);
        assert(next.drop_last() == pre);
        if b < 48u8 || b > 57u8 {
            assert(!is_digit(d[i - start]));
            assert(!all_digits(d));
            return None;
        }
        let digit = (b - 48u8) as u64;
        if acc > (u64::MAX - digit) / 10 {
            proof {
                assert forall|j: int| 0 <= j < next.len() implies is_digit(#[trigger] next[j]) by {
                    assert(next[j] == s@[start + j]);
                }
                assert(digits_value(next) == acc * 10 + digit);
                assert(acc * 10 + digit > u64::MAX) by (nonlinear_arith)
                    requires acc > (u64::MAX - digit) / 10, digit <= 9;
                assert(d.subrange(0, next.len() as int) == next);
                lemma_prefix_grows(d, next.len() as int);
                if all_digits(d) {
                    assert(digits_value(d) > u64::MAX);
                }
                assert(dec_parse(s@) is None);
            }
            return None;
        }
        proof {
            assert((u64::MAX - digit) / 10 * 10 + digit <= u64::MAX) by (nonlinear_arith)
                requires digit <= 9;
            assert(acc * 10 + digit <= u64::MAX) by (nonlinear_arith)
                requires acc <= (u64::MAX - digit) / 10, (u64::MAX - digit) / 10 * 10 + digit <= u64::MAX;
        }
        acc = acc * 10 + digit;
        i = i + 1;
    }
    proof {
        assert(s@.subrange(start as int, i as int) == d);
        assert forall|j: int| 0 <= j < d.len() implies is_digit(#[trigger] d[j]) by {
            assert(d[j] == s@[start + j]);
        }
    }
    Some(acc)
}

/// The value of a run of digits only grows as digits are added.
proof fn lemma_prefix_grows(d: Seq<u8>, k: int)
    requires
        0 < k <= d.len(),
    ensures
        (forall|i: int| 0 <= i < d.len() ==> is_digit(#[trigger] d[i])) ==> digits_value(d) >= digits_value(d.subrange(0, k)),
    decreases d.len() - k,
{
    if k < d.len() && all_digits(d) {
        lemma_prefix_grows(d, k + 1);
        assert(d.subrange(0, k + 1).drop_last() == d.subrange(0, k));
        let p = d.subrange(0, k);
        assert forall|i: int| 0 <= i < p.len() implies is_digit(#[trigger] p[i]) by {
            assert(p[i] == d[i]);
        }
        lemma_digits_value_nonneg(p);
        assert(d.subrange(0, k + 1).last() == d[k]);
    } else if k == d.len() {
        assert(d.subrange(0, k) == d);
    }
}

// ---------------------------------------------------------------- query semantics

/// The bytes a string term asks for.
pub open spec fn term_bytes(s: String) -> Seq<u8> {
    encode_utf8(s@)
}

pub open spec fn has_bool(ts: Seq<QueryTerms>, b: bool) -> bool {
    exists|j: int| 0 <= j < ts.len() && #[trigger] ts[j] == QueryTerms::Bool(b)
}

/// Whether a term of `ts` asks for value `v` by name or by number.
pub open spec fn wants(ts: Seq<QueryTerms>, v: Seq<u8>) -> bool {
    exists|j: int|
        0 <= j < ts.len() && match #[trigger] ts[j] {
            QueryTerms::String(s) => term_bytes(s) == v,
            QueryTerms::Number(n) => dec_parse(v) == Some(n),
            _ => false,
        }
}

/// Whether some term of `ts` numbers two values of `e` at once.
pub open spec fn ambiguous(t: EntityTable, e: Seq<u8>, ts: Seq<QueryTerms>) -> bool {
    exists|j: int, v1: Seq<u8>, v2: Seq<u8>|
        0 <= j < ts.len() && #[trigger] ts[j] is Number && v1 != v2 && #[trigger] t.has_value(e, v1) && #[trigger] t.has_value(e, v2)
            && dec_parse(v1) == Some(ts[j]->Number_0) && dec_parse(v2) == Some(ts[j]->Number_0)
}

/// Whether two values of `e` read as number `n`.
pub open spec fn ambiguous_at(t: EntityTable, e: Seq<u8>, n: u64) -> bool {
    exists|v1: Seq<u8>, v2: Seq<u8>| v1 != v2 && #[trigger] t.has_value(e, v1) && #[trigger] t.has_value(e, v2)
        && dec_parse(v1) == Some(n) && dec_parse(v2) == Some(n)
}

/// Whether some term of `ts` asks for a value `e` does not have.
pub open spec fn missing(t: EntityTable, e: Seq<u8>, ts: Seq<QueryTerms>) -> bool {
    exists|j: int|
        0 <= j < ts.len() && match #[trigger] ts[j] {
            QueryTerms::String(s) => !t.has_value(e, term_bytes(s)),
            QueryTerms::Number(n) => !exists|v: Seq<u8>| #[trigger] t.has_value(e, v) && dec_parse(v) == Some(n),
            _ => false,
        }
}

/// Whether path `i` is selected by terms `ts` on entity `e` of table `t`, where `visible`
/// tells the paths of the current view.
pub open spec fn selects(t: EntityTable, e: Seq<u8>, ts: Seq<QueryTerms>, visible: Seq<bool>, i: usize) -> bool {
    (exists|v: Seq<u8>| #[trigger] t.has(e, v, i) && (has_bool(ts, true) || wants(ts, v)))
        || (has_bool(ts, false) && i < visible.len() && visible[i as int] && !t.carries(e, i))
}

// ---------------------------------------------------------------- selection on one entity

/// The paths below `n` that terms `ts` select on entity `entity` of `table`. Fails where a
/// number term names two values, or a term names a value the entity does not have.
pub fn query_entity(
    table: &EntityTable,
    entity: &[u8],
    key: &String,
    ts: &Vec<QueryTerms>,
    visible: &Vec<bool>,
) -> (r: Result<Vec<bool>, QueryErr>)
    requires
        table.wf(),
        table.has_entity(entity@),
    ensures
        r is Ok <==> !ambiguous(*table, entity@, ts@) && !missing(*table, entity@, ts@),
        ambiguous(*table, entity@, ts@) ==> (r matches Err(QueryErr::AmbiguousQuery(k, _, _)) && k@ == key@),
        r matches Err(QueryErr::AmbiguousQuery(_, n, vals)) ==> vals@.len() >= 2 && ambiguous_at(*table, entity@, n)
            && exists|j: int| 0 <= j < ts@.len() && ts@[j] == QueryTerms::Number(n),
        r matches Err(QueryErr::MissingVal(_, missed)) ==> missed@.len() > 0,
        !ambiguous(*table, entity@, ts@) && missing(*table, entity@, ts@) ==> (r matches Err(QueryErr::MissingVal(k, _)) && k@ == key@),
        r matches Ok(m) ==> m@.len() == visible@.len() && forall|i: int| 0 <= i < m@.len() ==> (#[trigger] m@[i] <==> selects(*table, entity@, ts@, visible@, i as usize)),
{
    let n = visible.len();
    let k = match table.find(entity) {
        Some(k) => k,
        None => {
            proof {
                let (v, i) = choose|v: Seq<u8>, i: usize| #[trigger] table.has(entity@, v, i);
            }
            return Err(QueryErr::MissingEntity(Vec::new()));
        },
    };
    let row = &table.rows[k];
    let nv = row.values.len();
    // which values the terms ask for
    let mut wanted: Vec<bool> = vec_of(nv, false);
    let mut has_true = false;
    let mut has_false = false;
    let mut missed: Vec<String> = Vec::new();
    let mut j: usize = 0;
    while j < ts.len()
        invariant
            j <= ts@.len(),
            table.wf(),
            k < table.rows@.len(),
            *row == table.rows@[k as int],
            row.entity@ == entity@,
            nv == row.values@.len(),
            wanted@.len() == nv,
            forall|w: int| 0 <= w < nv ==> (#[trigger] wanted@[w] <==> wants(ts@.take(j as int), row.values@[w].value@)),
            has_true == has_bool(ts@.take(j as int), true),
            has_false == has_bool(ts@.take(j as int), false),
            !ambiguous(*table, entity@, ts@.take(j as int)),
            (missed@.len() > 0) == missing(*table, entity@, ts@.take(j as int)),
        decreases ts@.len() - j,
    {
        let ghost tj = ts@.take(j as int);
        let ghost tj1 = ts@.take(j + 1);
        assert(tj1 == tj.push(ts@[j as int]));
        proof {
            lemma_take_push_terms(ts@, j as int);
        }
        match &ts[j] {
            QueryTerms::Bool(b) => {
                if *b {
                    has_true = true;
                } else {
                    has_false = true;
                }
                proof {
                    lemma_take_push_errors(*table, entity@, ts@, j as int);
                }
            },
            QueryTerms::String(s) => {
                let want = s.as_str().as_bytes();
                let mut found = false;
                let mut w: usize = 0;
                while w < nv
                    invariant
                        w <= nv == row.values@.len(),
                        wanted@.len() == nv,
                        want@ == term_bytes(*s),
                        found == exists|q: int| 0 <= q < w && (#[trigger] row.values@[q]).value@ == want@,
                        forall|q: int| 0 <= q < nv ==> (#[trigger] wanted@[q] <==> (wants(tj, row.values@[q].value@) || (q < w && row.values@[q].value@ == want@))),
                    decreases nv - w,
                {
                    if crate::primitives::same_bytes(row.values[w].value.as_slice(), want) {
                        wanted.set(w, true);
                        found = true;
                    }
                    w = w + 1;
                }
                if !found {
                    missed.push(s.clone());
                }
                proof {
                    lemma_has_value_row(*table, k as int, entity@);
                    assert(found <==> table.has_value(entity@, term_bytes(*s)));
                    lemma_take_push_errors(*table, entity@, ts@, j as int);
                }
            },
            QueryTerms::Number(num) => {
                let mut count: usize = 0;
                let mut matched: Vec<String> = Vec::new();
                let mut w: usize = 0;
                let ghost mut first: int = -1;
                while w < nv
                    invariant
                        w <= nv == row.values@.len(),
                        wanted@.len() == nv,
                        count <= w,
                        matched@.len() == count,
                        count == 0 ==> forall|q: int| 0 <= q < w ==> dec_parse(#[trigger] row.values@[q].value@) != Some(*num),
                        count >= 1 ==> 0 <= first < w && dec_parse(row.values@[first].value@) == Some(*num),
                        count == 1 ==> forall|q: int| 0 <= q < w && q != first ==> dec_parse(#[trigger] row.values@[q].value@) != Some(*num),
                        count >= 2 ==> exists|q: int| 0 <= q < w && q != first && dec_parse(#[trigger] row.values@[q].value@) == Some(*num),
                        forall|q: int| 0 <= q < nv ==> (#[trigger] wanted@[q] <==> (wants(tj, row.values@[q].value@) || (q < w && dec_parse(row.values@[q].value@) == Some(*num)))),
                    decreases nv - w,
                {
                    let parsed = parse_u64(row.values[w].value.as_slice());
                    if parsed == Some(*num) {
                        matched.push(text_of(row.values[w].value.as_slice()));
                        wanted.set(w, true);
                        proof {
                            if count == 0 {
                                first = w as int;
                            }
                        }
                        count = count + 1;
                    }
                    w = w + 1;
                }
                proof {
                    lemma_has_value_row(*table, k as int, entity@);
                    row_values_distinct(*table, k as int);
                }
                if count > 1 {
                    proof {
                        let q = choose|q: int| 0 <= q < nv && q != first && dec_parse(#[trigger] row.values@[q].value@) == Some(*num);
                        assert(ambiguous(*table, entity@, ts@)) by {
                            assert(ts@[j as int] is Number);
                            assert(table.has_value(entity@, row.values@[first].value@));
                            assert(table.has_value(entity@, row.values@[q].value@));
                        }
                        assert(ambiguous_at(*table, entity@, *num)) by {
                            assert(table.has_value(entity@, row.values@[first].value@));
                            assert(table.has_value(entity@, row.values@[q].value@));
                        }
                        assert(ts@[j as int] == QueryTerms::Number(*num));
                    }
                    return Err(QueryErr::AmbiguousQuery(key.clone(), *num, matched));
                }
                if count == 0 {
                    missed.push(num.to_string());
                }
                proof {
                    assert(count == 0 <==> !exists|v: Seq<u8>| #[trigger] table.has_value(entity@, v) && dec_parse(v) == Some(*num)) by {
                        if count > 0 {
                            assert(table.has_value(entity@, row.values@[first].value@));
                        }
                        if exists|v: Seq<u8>| #[trigger] table.has_value(entity@, v) && dec_parse(v) == Some(*num) {
                            let v = choose|v: Seq<u8>| #[trigger] table.has_value(entity@, v) && dec_parse(v) == Some(*num);
                            let q = choose|q: int| 0 <= q < nv && (#[trigger] row.values@[q]).value@ == v;
                        }
                    }
                    assert(!exists|v1: Seq<u8>, v2: Seq<u8>| v1 != v2 && #[trigger] table.has_value(entity@, v1) && #[trigger] table.has_value(entity@, v2)
                        && dec_parse(v1) == Some(*num) && dec_parse(v2) == Some(*num)) by {
                        if exists|v1: Seq<u8>, v2: Seq<u8>| v1 != v2 && #[trigger] table.has_value(entity@, v1) && #[trigger] table.has_value(entity@, v2)
                            && dec_parse(v1) == Some(*num) && dec_parse(v2) == Some(*num) {
                            let (v1, v2) = choose|v1: Seq<u8>, v2: Seq<u8>| v1 != v2 && #[trigger] table.has_value(entity@, v1) && #[trigger] table.has_value(entity@, v2)
                                && dec_parse(v1) == Some(*num) && dec_parse(v2) == Some(*num);
                            let q1 = choose|q: int| 0 <= q < nv && (#[trigger] row.values@[q]).value@ == v1;
                            let q2 = choose|q: int| 0 <= q < nv && (#[trigger] row.values@[q]).value@ == v2;
                        }
                    }
                    lemma_take_push_errors(*table, entity@, ts@, j as int);
                }
            },
            QueryTerms::Any => {
                proof {
                    lemma_take_push_errors(*table, entity@, ts@, j as int);
                }
            },
        }
        j = j + 1;
    }
    assert(ts@.take(j as int) == ts@);
    if missed.len() > 0 {
        return Err(QueryErr::MissingVal(key.clone(), missed));
    }
    // the paths of the wanted values, and those without a value where asked
    let mut m: Vec<bool> = vec_of(n, false);
    let mut w: usize = 0;
    while w < nv
        invariant
            w <= nv == row.values@.len(),
            wanted@.len() == nv,
            m@.len() == n,
            forall|i: int| 0 <= i < n ==> (#[trigger] m@[i] <==> exists|q: int| 0 <= q < w && (has_true || wanted@[q]) && (#[trigger] row.values@[q]).ids@.contains(i as usize)),
        decreases nv - w,
    {
        if has_true || wanted[w] {
            let ids = &row.values[w].ids;
            let ghost m0 = m@;
            let mut q: usize = 0;
            while q < ids.len()
                invariant
                    q <= ids@.len(),
                    m@.len() == n,
                    *ids == row.values@[w as int].ids,
                    forall|i: int| 0 <= i < n ==> (#[trigger] m@[i] <==> (m0[i] || ids@.take(q as int).contains(i as usize))),
                decreases ids@.len() - q,
            {
                let x = ids[q];
                if x < n {
                    m.set(x, true);
                }
                proof {
                    assert(ids@.take(q + 1) == ids@.take(q as int).push(x));
                    assert forall|y: usize| #[trigger] ids@.take(q + 1).contains(y) <==> ids@.take(q as int).contains(y) || y == x by {
                        lemma_push_contains(ids@.take(q as int), x, y);
                    }
                }
                q = q + 1;
            }
            assert(ids@.take(ids@.len() as int) == ids@);
            proof {
                assert forall|i: int| 0 <= i < n implies (#[trigger] m@[i] <==> exists|q: int| 0 <= q < w + 1 && (has_true || wanted@[q]) && (#[trigger] row.values@[q]).ids@.contains(i as usize)) by {
                    if m@[i] && !m0[i] {
                        assert(row.values@[w as int].ids@.contains(i as usize));
                    }
                }
            }
        }
        w = w + 1;
    }
    if has_false {
        let carried = table.entity_mask(entity, n);
        let mut i: usize = 0;
        while i < n
            invariant
                i <= n == visible@.len() == m@.len() == carried@.len(),
                forall|x: int| 0 <= x < n ==> (#[trigger] carried@[x] <==> table.carries(entity@, x as usize)),
                forall|x: int| 0 <= x < n ==> (#[trigger] m@[x] <==> ((exists|q: int| 0 <= q < nv && (has_true || wanted@[q]) && (#[trigger] row.values@[q]).ids@.contains(x as usize))
                    || (x < i && visible@[x] && !carried@[x]))),
            decreases n - i,
        {
            if visible[i] && !carried[i] {
                m.set(i, true);
            }
            i = i + 1;
        }
    }
    proof {
        assert forall|i: int| 0 <= i < n implies (#[trigger] m@[i] <==> selects(*table, entity@, ts@, visible@, i as usize)) by {
            lemma_row_selection(*table, k as int, entity@, ts@, wanted@, has_true, i as usize);
        }
    }
    Ok(m)
}

proof fn lemma_take_push_errors(t: EntityTable, e: Seq<u8>, ts: Seq<QueryTerms>, j: int)
    requires
        0 <= j < ts.len(),
    ensures
        ambiguous(t, e, ts.take(j + 1)) <==> ambiguous(t, e, ts.take(j)) || (ts[j] is Number && exists|v1: Seq<u8>, v2: Seq<u8>| v1 != v2 && #[trigger] t.has_value(e, v1) && #[trigger] t.has_value(e, v2)
            && dec_parse(v1) == Some(ts[j]->Number_0) && dec_parse(v2) == Some(ts[j]->Number_0)),
        missing(t, e, ts.take(j + 1)) <==> missing(t, e, ts.take(j)) || match ts[j] {
            QueryTerms::String(s) => !t.has_value(e, term_bytes(s)),
            QueryTerms::Number(n) => !exists|v: Seq<u8>| #[trigger] t.has_value(e, v) && dec_parse(v) == Some(n),
            _ => false,
        },
{
    let a = ts.take(j);
    let c = ts.take(j + 1);
    assert(c[j] == ts[j]);
    assert forall|q: int| 0 <= q < j implies #[trigger] c[q] == a[q] by {}
    if ambiguous(t, e, c) {
        let (q, v1, v2) = choose|q: int, v1: Seq<u8>, v2: Seq<u8>|
            0 <= q < c.len() && #[trigger] c[q] is Number && v1 != v2 && #[trigger] t.has_value(e, v1) && #[trigger] t.has_value(e, v2)
                && dec_parse(v1) == Some(c[q]->Number_0) && dec_parse(v2) == Some(c[q]->Number_0);
        if q < j {
            assert(a[q] == c[q]);
        }
    }
    if ambiguous(t, e, a) {
        let (q, v1, v2) = choose|q: int, v1: Seq<u8>, v2: Seq<u8>|
            0 <= q < a.len() && #[trigger] a[q] is Number && v1 != v2 && #[trigger] t.has_value(e, v1) && #[trigger] t.has_value(e, v2)
                && dec_parse(v1) == Some(a[q]->Number_0) && dec_parse(v2) == Some(a[q]->Number_0);
        assert(c[q] == a[q]);
    }
    if missing(t, e, c) {
        let q = choose|q: int| 0 <= q < c.len() && match #[trigger] c[q] {
            QueryTerms::String(s) => !t.has_value(e, term_bytes(s)),
            QueryTerms::Number(n) => !exists|v: Seq<u8>| #[trigger] t.has_value(e, v) && dec_parse(v) == Some(n),
            _ => false,
        };
        if q < j {
            assert(a[q] == c[q]);
        }
    }
    if missing(t, e, a) {
        let q = choose|q: int| 0 <= q < a.len() && match #[trigger] a[q] {
            QueryTerms::String(s) => !t.has_value(e, term_bytes(s)),
            QueryTerms::Number(n) => !exists|v: Seq<u8>| #[trigger] t.has_value(e, v) && dec_parse(v) == Some(n),
            _ => false,
        };
        assert(c[q] == a[q]);
    }
}

proof fn lemma_take_push_terms(ts: Seq<QueryTerms>, j: int)
    requires
        0 <= j < ts.len(),
    ensures
        forall|v: Seq<u8>| #[trigger] wants(ts.take(j + 1), v) <==> wants(ts.take(j), v) || match ts[j] {
            QueryTerms::String(s) => term_bytes(s) == v,
            QueryTerms::Number(n) => dec_parse(v) == Some(n),
            _ => false,
        },
        forall|b: bool| #[trigger] has_bool(ts.take(j + 1), b) <==> has_bool(ts.take(j), b) || ts[j] == QueryTerms::Bool(b),
{
    let a = ts.take(j);
    let c = ts.take(j + 1);
    assert forall|v: Seq<u8>| #[trigger] wants(c, v) <==> wants(a, v) || match ts[j] {
        QueryTerms::String(s) => term_bytes(s) == v,
        QueryTerms::Number(n) => dec_parse(v) == Some(n),
        _ => false,
    } by {
        if wants(c, v) {
            let q = choose|q: int| 0 <= q < c.len() && match #[trigger] c[q] {
                QueryTerms::String(s) => term_bytes(s) == v,
                QueryTerms::Number(n) => dec_parse(v) == Some(n),
                _ => false,
            };
            if q < j {
                assert(a[q] == c[q]);
            }
        }
        if wants(a, v) {
            let q = choose|q: int| 0 <= q < a.len() && match #[trigger] a[q] {
                QueryTerms::String(s) => term_bytes(s) == v,
                QueryTerms::Number(n) => dec_parse(v) == Some(n),
                _ => false,
            };
            assert(a[q] == c[q]);
        }
        assert(c[j] == ts[j]);
    }
    assert forall|b: bool| #[trigger] has_bool(c, b) <==> has_bool(a, b) || ts[j] == QueryTerms::Bool(b) by {
        if has_bool(c, b) {
            let q = choose|q: int| 0 <= q < c.len() && #[trigger] c[q] == QueryTerms::Bool(b);
            if q < j {
                assert(a[q] == c[q]);
            }
        }
        if has_bool(a, b) {
            let q = choose|q: int| 0 <= q < a.len() && #[trigger] a[q] == QueryTerms::Bool(b);
            assert(a[q] == c[q]);
        }
        assert(c[j] == ts[j]);
    }
}

/// The values of the row of `e` are those `e` has.
proof fn lemma_has_value_row(t: EntityTable, k: int, e: Seq<u8>)
    requires
        t.wf(),
        0 <= k < t.rows@.len(),
        t.rows@[k].entity@ == e,
    ensures
        forall|v: Seq<u8>| #[trigger] t.has_value(e, v) <==> exists|q: int| 0 <= q < t.rows@[k].values@.len() && (#[trigger] t.rows@[k].values@[q]).value@ == v,
{
    let row = t.rows@[k];
    assert forall|v: Seq<u8>| #[trigger] t.has_value(e, v) <==> exists|q: int| 0 <= q < row.values@.len() && (#[trigger] row.values@[q]).value@ == v by {
        if t.has_value(e, v) {
            let i = choose|i: usize| #[trigger] t.has(e, v, i);
            let r = choose|r: int| 0 <= r < t.rows@.len() && (#[trigger] t.rows@[r]).entity@ == e && row_has(t.rows@[r], v, i);
            if r != k {
                assert(t.rows@[r].entity@ != t.rows@[k].entity@);
            }
            let q = choose|q: int| 0 <= q < row.values@.len() && (#[trigger] row.values@[q]).value@ == v && row.values@[q].ids@.contains(i);
        }
        if exists|q: int| 0 <= q < row.values@.len() && (#[trigger] row.values@[q]).value@ == v {
            let q = choose|q: int| 0 <= q < row.values@.len() && (#[trigger] row.values@[q]).value@ == v;
            assert(row_wf(row));
            let i = row.values@[q].ids@[0];
            assert(row.values@[q].ids@.contains(i));
            assert(row_has(row, v, i));
            assert(t.has(e, v, i));
        }
    }
}

proof fn row_values_distinct(t: EntityTable, k: int)
    requires
        t.wf(),
        0 <= k < t.rows@.len(),
    ensures
        forall|a: int, b: int| 0 <= a < t.rows@[k].values@.len() && 0 <= b < t.rows@[k].values@.len() && a != b ==> (#[trigger] t.rows@[k].values@[a]).value@ != (#[trigger] t.rows@[k].values@[b]).value@,
{
    assert(row_wf(t.rows@[k]));
}

proof fn lemma_row_selection(t: EntityTable, k: int, e: Seq<u8>, ts: Seq<QueryTerms>, wanted: Seq<bool>, has_true: bool, i: usize)
    requires
        t.wf(),
        0 <= k < t.rows@.len(),
        t.rows@[k].entity@ == e,
        wanted.len() == t.rows@[k].values@.len(),
        forall|w: int| 0 <= w < wanted.len() ==> (#[trigger] wanted[w] <==> wants(ts, t.rows@[k].values@[w].value@)),
        has_true == has_bool(ts, true),
    ensures
        (exists|q: int| 0 <= q < wanted.len() && (has_true || wanted[q]) && (#[trigger] t.rows@[k].values@[q]).ids@.contains(i))
            <==> (exists|v: Seq<u8>| #[trigger] t.has(e, v, i) && (has_bool(ts, true) || wants(ts, v))),
        t.carries(e, i) <==> exists|q: int| 0 <= q < wanted.len() && (#[trigger] t.rows@[k].values@[q]).ids@.contains(i),
{
    let row = t.rows@[k];
    if exists|q: int| 0 <= q < wanted.len() && (has_true || wanted[q]) && (#[trigger] row.values@[q]).ids@.contains(i) {
        let q = choose|q: int| 0 <= q < wanted.len() && (has_true || wanted[q]) && (#[trigger] row.values@[q]).ids@.contains(i);
        assert(row_has(row, row.values@[q].value@, i));
        assert(t.has(e, row.values@[q].value@, i));
    }
    if exists|v: Seq<u8>| #[trigger] t.has(e, v, i) && (has_bool(ts, true) || wants(ts, v)) {
        let v = choose|v: Seq<u8>| #[trigger] t.has(e, v, i) && (has_bool(ts, true) || wants(ts, v));
        let r = choose|r: int| 0 <= r < t.rows@.len() && (#[trigger] t.rows@[r]).entity@ == e && row_has(t.rows@[r], v, i);
        if r != k {
            assert(t.rows@[r].entity@ != t.rows@[k].entity@);
        }
        let q = choose|q: int| 0 <= q < row.values@.len() && (#[trigger] row.values@[q]).value@ == v && row.values@[q].ids@.contains(i);
        assert(has_true || wanted[q]);
    }
    if t.carries(e, i) {
        let v = choose|v: Seq<u8>| #[trigger] t.has(e, v, i);
        let r = choose|r: int| 0 <= r < t.rows@.len() && (#[trigger] t.rows@[r]).entity@ == e && row_has(t.rows@[r], v, i);
        if r != k {
            assert(t.rows@[r].entity@ != t.rows@[k].entity@);
        }
        let q = choose|q: int| 0 <= q < row.values@.len() && (#[trigger] row.values@[q]).value@ == v && row.values@[q].ids@.contains(i);
    }
    if exists|q: int| 0 <= q < wanted.len() && (#[trigger] row.values@[q]).ids@.contains(i) {
        let q = choose|q: int| 0 <= q < wanted.len() && (#[trigger] row.values@[q]).ids@.contains(i);
        assert(row_has(row, row.values@[q].value@, i));
        assert(t.has(e, row.values@[q].value@, i));
    }
}

} // verus!

verus! {

/// Relies on `String::from_utf8_lossy`: valid UTF-8 is kept as it is.
#[verifier::external_body]
pub(crate) fn text_of(b: &[u8]) -> (r: String)
    ensures
        vstd::utf8::valid_utf8(b@) ==> encode_utf8(r@) == b@,
{
    String::from_utf8_lossy(b).into_owned()
}

/// A query key in canonical form: a long entity key becomes its short form, and one
/// trailing underscore is dropped.
pub open spec fn norm_key(k: Seq<u8>) -> Seq<u8> {
    let d = match short_key(k) {
        Some(s) => s,
        None => k,
    };
    if d.len() > 0 && d.last() == 95u8 {
        d.drop_last()
    } else {
        d
    }
}

/// A query in canonical form: keys normalised, keys with no terms left out.
pub open spec fn norm_query(q: Seq<(String, Vec<QueryTerms>)>) -> Seq<(Seq<u8>, Seq<QueryTerms>)>
    decreases q.len(),
{
    if q.len() == 0 {
        seq![]
    } else {
        let rest = norm_query(q.drop_last());
        if q.last().1@.len() > 0 {
            rest.push((norm_key(encode_utf8(q.last().0@)), q.last().1@))
        } else {
            rest
        }
    }
}

pub open spec fn nq_view(v: Seq<(Vec<u8>, Vec<QueryTerms>)>) -> Seq<(Seq<u8>, Seq<QueryTerms>)> {
    Seq::new(v.len(), |i: int| (v[i].0@, v[i].1@))
}

/// The canonical form of an optional query.
pub open spec fn normalized(query: Option<Vec<(String, Vec<QueryTerms>)>>) -> Seq<(Seq<u8>, Seq<QueryTerms>)> {
    match query {
        Some(q) => norm_query(q@),
        None => seq![],
    }
}

/// A copy of a list of terms.
pub fn copy_terms(ts: &Vec<QueryTerms>) -> (r: Vec<QueryTerms>)
    ensures
        r@ == ts@,
{
    let mut out: Vec<QueryTerms> = Vec::new();
    let mut k: usize = 0;
    while k < ts.len()
        invariant
            k <= ts@.len(),
            out@ == ts@.take(k as int),
        decreases ts@.len() - k,
    {
        let t = match &ts[k] {
            QueryTerms::Bool(b) => QueryTerms::Bool(*b),
            QueryTerms::String(s) => QueryTerms::String(s.clone()),
            QueryTerms::Number(n) => QueryTerms::Number(*n),
            QueryTerms::Any => QueryTerms::Any,
        };
        out.push(t);
        k = k + 1;
        assert(out@ =~= ts@.take(k as int));
    }
    assert(ts@.take(k as int) == ts@);
    out
}

/// Puts the keys of a query in canonical form and leaves out keys without terms.
pub fn normalize_query(query: &Vec<(String, Vec<QueryTerms>)>) -> (r: Vec<(Vec<u8>, Vec<QueryTerms>)>)
    ensures
        nq_view(r@) == norm_query(query@),
{
    let mut out: Vec<(Vec<u8>, Vec<QueryTerms>)> = Vec::new();
    let mut j: usize = 0;
    while j < query.len()
        invariant
            j <= query@.len(),
            nq_view(out@) == norm_query(query@.take(j as int)),
        decreases query@.len() - j,
    {
        assert(query@.take(j + 1).drop_last() == query@.take(j as int));
        let key = &query[j].0;
        let terms = &query[j].1;
        if terms.len() > 0 {
            let bytes = key.as_str().as_bytes();
            let derefed: Vec<u8> = match deref_key_alias(bytes) {
                Some(s) => s,
                None => vstd::slice::slice_to_vec(bytes),
            };
            let mut d = derefed;
            let ghost d0 = d@;
            if d.len() > 0 && d[d.len() - 1] == 95u8 {
                d.pop();
                assert(d@ == d0.drop_last());
            }
            let ghost before = out@;
            out.push((d, copy_terms(terms)));
            assert(nq_view(out@) =~= nq_view(before).push((norm_key(encode_utf8(key@)), terms@)));
        }
        j = j + 1;
    }
    assert(query@.take(j as int) == query@);
    out
}

/// An index of a corpus of dataset paths, or a view on one.
#[derive(Debug, Clone)]
pub struct Layout {
    pub paths: Arc<Vec<BidsPath>>,
    pub entities: Arc<EntityTable>,
    pub roots: Arc<DatasetRoots>,
    pub heads: Arc<Vec<String>>,
    pub filetree: Arc<FileTree>,
    pub depths: Arc<Vec<(usize, Vec<usize>)>>,
    pub metadata: Option<Arc<EntityTable>>,
    pub view: Option<Arc<Vec<usize>>>,
}

impl Layout {
    pub open spec fn wf(&self) -> bool {
        &&& self.entities.wf()
        &&& self.roots.wf()
        &&& (self.metadata matches Some(m) ==> m.wf())
    }

    /// Whether path `i` is in the current view.
    pub open spec fn visible(&self, i: int) -> bool {
        match self.view {
            None => 0 <= i < self.paths@.len(),
            Some(v) => 0 <= i < self.paths@.len() && v@.contains(i as usize),
        }
    }

    /// Whether `k` is a key some path carries, as an entity or in its metadata.
    pub open spec fn key_known(&self, k: Seq<u8>) -> bool {
        self.entities.has_entity(k) || (self.metadata matches Some(m) && m.has_entity(k))
    }

    /// Whether the regular entities answer `ts` on `k` without error.
    pub open spec fn key_fails(&self, k: Seq<u8>, ts: Seq<QueryTerms>) -> bool {
        self.entities.has_entity(k) && (ambiguous(*self.entities, k, ts) || missing(*self.entities, k, ts))
    }

    /// Whether key `q` of `nq` is the first whose entity terms fail.
    pub open spec fn first_fail(&self, nq: Seq<(Seq<u8>, Seq<QueryTerms>)>, q: int) -> bool {
        0 <= q < nq.len() && self.key_fails(nq[q].0, nq[q].1) && forall|j: int| 0 <= j < q ==> !#[trigger] self.key_fails(nq[j].0, nq[j].1)
    }

    /// Whether path `i` is selected by terms `ts` on key `k`, by its entities or its metadata.
    pub open spec fn key_selects(&self, k: Seq<u8>, ts: Seq<QueryTerms>, visible: Seq<bool>, i: usize) -> bool {
        (self.entities.has_entity(k) && selects(*self.entities, k, ts, visible, i)) || (self.metadata matches Some(m)
            && m.has_entity(k) && !ambiguous(*m, k, ts) && !missing(*m, k, ts) && selects(*m, k, ts, visible, i))
    }

    pub open spec fn visible_seq(&self) -> Seq<bool> {
        Seq::new(self.paths@.len(), |i: int| self.visible(i))
    }

    /// Whether path `i` passes every key of `nq`.
    pub open spec fn query_selects(&self, nq: Seq<(Seq<u8>, Seq<QueryTerms>)>, i: usize) -> bool {
        forall|q: int| 0 <= q < nq.len() ==> #[trigger] self.key_selects(nq[q].0, nq[q].1, self.visible_seq(), i)
    }

    /// Whether path `i` passes the three filters of a query.
    pub open spec fn selected(
        &self,
        nq: Seq<(Seq<u8>, Seq<QueryTerms>)>,
        roots: Option<Seq<Seq<char>>>,
        mask: Option<Seq<usize>>,
        i: usize,
    ) -> bool {
        &&& i < self.paths@.len()
        &&& self.visible(i as int)
        &&& self.query_selects(nq, i)
        &&& (roots matches Some(p) ==> selected_set(self.roots.roots@, self.roots.roots@, p).contains(i as int))
        &&& (mask matches Some(m) ==> m.contains(i))
    }

    /// What a successful query returns: the same paths; with no filter, the same view and
    /// tables; else the selected paths, in order, and the tables kept to them.
    pub open spec fn query_result(
        &self,
        nq: Seq<(Seq<u8>, Seq<QueryTerms>)>,
        pats: Option<Seq<Seq<char>>>,
        m: Option<Seq<usize>>,
        restricted: bool,
        l: Layout,
    ) -> bool {
        &&& l.wf()
        &&& l.paths == self.paths
        &&& (!restricted ==> l.view == self.view && l.entities == self.entities && l.metadata == self.metadata)
        &&& (restricted ==> match l.view {
            Some(v) => (forall|i: usize| #[trigger] v@.contains(i) <==> self.selected(nq, pats, m, i))
                && (forall|a: int, b: int| 0 <= a < b < v@.len() ==> #[trigger] v@[a] < #[trigger] v@[b]),
            None => false,
        })
        &&& (restricted ==> forall|e: Seq<u8>, x: Seq<u8>, i: usize| #[trigger] l.entities.has(e, x, i) <==> self.entities.has(e, x, i) && self.selected(nq, pats, m, i))
        &&& (l.metadata is Some <==> self.metadata is Some)
        &&& (restricted ==> match (l.metadata, self.metadata) {
            (Some(lm), Some(sm)) => forall|e: Seq<u8>, x: Seq<u8>, i: usize| #[trigger] lm.has(e, x, i) <==> sm.has(e, x, i) && self.selected(nq, pats, m, i),
            _ => true,
        })
    }

    /// The total number of paths, whatever the view.
    pub fn num_paths(&self) -> (r: usize)
        ensures
            r == self.paths@.len(),
    {
        self.paths.len()
    }

    /// The number of paths in the current view.
    pub fn len(&self) -> (r: usize)
        ensures
            self.view is None ==> r == self.paths@.len(),
            self.view matches Some(v) ==> r == v@.len(),
    {
        match &self.view {
            Some(v) => v.len(),
            None => self.paths.len(),
        }
    }

    /// Marks the paths of the current view.
    pub fn view_mask(&self) -> (r: Vec<bool>)
        ensures
            r@ == self.visible_seq(),
    {
        let n = self.paths.len();
        match &self.view {
            None => {
                let r = vec_of(n, true);
                assert(r@ =~= self.visible_seq());
                r
            },
            Some(v) => {
                let mut m = vec_of(n, false);
                let mut k: usize = 0;
                while k < v.len()
                    invariant
                        k <= v@.len(),
                        m@.len() == n == self.paths@.len(),
                        self.view == Some(*v),
                        forall|i: int| 0 <= i < n ==> (#[trigger] m@[i] <==> v@.take(k as int).contains(i as usize)),
                    decreases v@.len() - k,
                {
                    let x = v[k];
                    if x < n {
                        m.set(x, true);
                    }
                    proof {
                        assert(v@.take(k + 1) == v@.take(k as int).push(x));
                        assert forall|y: usize| #[trigger] v@.take(k + 1).contains(y) <==> v@.take(k as int).contains(y) || y == x by {
                            lemma_push_contains(v@.take(k as int), x, y);
                        }
                    }
                    k = k + 1;
                }
                assert(v@.take(k as int) == v@);
                assert(m@ =~= self.visible_seq());
                m
            },
        }
    }

    /// The ids of the current view, in order.
    pub fn get_view(&self) -> (r: Vec<usize>)
        ensures
            forall|i: usize| #[trigger] r@.contains(i) <==> self.visible(i as int),
            forall|a: int, b: int| 0 <= a < b < r@.len() ==> #[trigger] r@[a] < #[trigger] r@[b],
    {
        let m = self.view_mask();
        ids_of_mask(&m)
    }

    /// A new layout: the paths of this one that pass the entity query, the root patterns
    /// and the mask, each where given. Fails on a key no path carries, on a value the
    /// entities do not have, on a number that names two values, and on a root pattern that
    /// does not compile.
    pub fn query(
        &self,
        query: Option<Vec<(String, Vec<QueryTerms>)>>,
        roots: Option<Vec<String>>,
        mask: Option<&Vec<usize>>,
    ) -> (r: Result<Layout, QueryErr>)
        requires
            self.wf(),
        ensures
            ({
                let nq = normalized(query);
                let pats = match roots {
                    Some(p) => Some(strings_view(p@)),
                    None => None,
                };
                let m = match mask {
                    Some(m) => Some(m@),
                    None => None,
                };
                let restricted = nq.len() > 0 || roots is Some || mask is Some;
                &&& ((exists|q: int| 0 <= q < nq.len() && !#[trigger] self.key_known(nq[q].0)) ==> r matches Err(QueryErr::MissingEntity(_)))
                &&& (r is Ok ==> forall|q: int| 0 <= q < nq.len() ==> #[trigger] self.key_known(nq[q].0) && !self.key_fails(nq[q].0, nq[q].1))
                &&& ((forall|q: int| 0 <= q < nq.len() ==> #[trigger] self.key_known(nq[q].0)) && (exists|q: int| 0 <= q < nq.len() && #[trigger] self.key_fails(nq[q].0, nq[q].1))
                    ==> (r matches Err(e) && (e is AmbiguousQuery || e is MissingVal)))
                &&& (r is Err ==> (match roots {
                    Some(p) => !crate::roots::globs_compile(self.roots.roots@, strings_view(p@)),
                    None => false,
                }) || exists|q: int| 0 <= q < nq.len() && (!#[trigger] self.key_known(nq[q].0) || self.key_fails(nq[q].0, nq[q].1)))
                &&& ((forall|q: int| 0 <= q < nq.len() ==> #[trigger] self.key_known(nq[q].0)) ==> !(r matches Err(QueryErr::MissingEntity(_))))
                &&& (forall|q: int| #[trigger] self.first_fail(nq, q) && (forall|j: int| 0 <= j < nq.len() ==> #[trigger] self.key_known(nq[j].0)) ==> {
                    &&& (ambiguous(*self.entities, nq[q].0, nq[q].1) ==> match r {
                        Err(QueryErr::AmbiguousQuery(_, n, vals)) => vals@.len() >= 2 && ambiguous_at(*self.entities, nq[q].0, n),
                        _ => false,
                    })
                    &&& (!ambiguous(*self.entities, nq[q].0, nq[q].1) ==> match r {
                        Err(QueryErr::MissingVal(_, missed)) => missed@.len() > 0,
                        _ => false,
                    })
                })
                &&& (r matches Ok(l) ==> self.query_result(nq, pats, m, restricted, l))
            }),
    {
        let n = self.paths.len();
        let visible = self.view_mask();
        let ghost q_in = query;
        let ghost r_in = roots;
        let nq: Vec<(Vec<u8>, Vec<QueryTerms>)> = match &query {
            Some(q) => normalize_query(q),
            None => Vec::new(),
        };
        let ghost nqv = nq_view(nq@);
        assert(nqv == normalized(query));
        // keys no path carries
        let mut unknown: Vec<String> = Vec::new();
        let mut q: usize = 0;
        while q < nq.len()
            invariant
                q <= nq@.len(),
                self.wf(),
                query == q_in,
                roots == r_in,
                nqv == match q_in { Some(q) => norm_query(q@), None => seq![] },
                nqv == nq_view(nq@),
                (unknown@.len() > 0) == exists|j: int| 0 <= j < q && !#[trigger] self.key_known(nqv[j].0),
            decreases nq@.len() - q,
        {
            let key = nq[q].0.as_slice();
            let known = self.entities.contains_key(key) || match &self.metadata {
                Some(md) => md.contains_key(key),
                None => false,
            };
            assert(nqv[q as int].0 == key@);
            assert(known == self.key_known(nqv[q as int].0));
            if !known {
                unknown.push(text_of(key));
            }
            q = q + 1;
        }
        if unknown.len() > 0 {
            proof {
                let j = choose|j: int| 0 <= j < nqv.len() && !#[trigger] self.key_known(nqv[j].0);
                assert(!(self.key_known(nqv[j].0) && !self.key_fails(nqv[j].0, nqv[j].1)));
                assert(!(forall|q: int| 0 <= q < nqv.len() ==> #[trigger] self.key_known(nqv[q].0) && !self.key_fails(nqv[q].0, nqv[q].1)));
                assert(nqv == normalized(query));
                assert(!self.key_known(normalized(query)[j].0));
            }
            return Err(QueryErr::MissingEntity(unknown));
        }
        // the selection, key by key
        let mut sel: Vec<bool> = vec_of(n, true);
        let mut q: usize = 0;
        while q < nq.len()
            invariant
                q <= nq@.len(),
                self.wf(),
                query == q_in,
                roots == r_in,
                nqv == match q_in { Some(q) => norm_query(q@), None => seq![] },
                n == self.paths@.len(),
                visible@ == self.visible_seq(),
                nqv == nq_view(nq@),
                forall|j: int| 0 <= j < nqv.len() ==> #[trigger] self.key_known(nqv[j].0),
                forall|j: int| 0 <= j < q ==> !#[trigger] self.key_fails(nqv[j].0, nqv[j].1),
                sel@.len() == n,
                forall|i: int| 0 <= i < n ==> (#[trigger] sel@[i] <==> forall|j: int| 0 <= j < q ==> #[trigger] self.key_selects(nqv[j].0, nqv[j].1, visible@, i as usize)),
            decreases nq@.len() - q,
        {
            let key = nq[q].0.as_slice();
            let terms = &nq[q].1;
            let keytext = text_of(key);
            assert(nqv[q as int].0 == key@ && nqv[q as int].1 == terms@);
            let regular: Option<Vec<bool>> = if self.entities.contains_key(key) {
                match query_entity(&self.entities, key, &keytext, terms, &visible) {
                    Ok(m) => Some(m),
                    Err(e) => {
                        assert(self.key_fails(nqv[q as int].0, nqv[q as int].1));
                        assert(!(self.key_known(nqv[q as int].0) && !self.key_fails(nqv[q as int].0, nqv[q as int].1)));
                        assert(self.key_fails(normalized(query)[q as int].0, normalized(query)[q as int].1));
                        assert(self.key_known(normalized(query)[q as int].0));
                        proof {
                            assert forall|q2: int| #[trigger] self.first_fail(nqv, q2) implies q2 == q by {
                                if q2 < q {
                                    assert(!self.key_fails(nqv[q2].0, nqv[q2].1));
                                }
                                if q2 > q {
                                    assert(!self.key_fails(nqv[q as int].0, nqv[q as int].1));
                                }
                            }
                        }
                        return Err(e);
                    },
                }
            } else {
                None
            };
            let meta: Option<Vec<bool>> = match &self.metadata {
                Some(md) => if md.contains_key(key) {
                    match query_entity(md, key, &keytext, terms, &visible) {
                        Ok(m) => Some(m),
                        Err(_) => None,
                    }
                } else {
                    None
                },
                None => None,
            };
            let ghost sel0 = sel@;
            let mut i: usize = 0;
            while i < n
                invariant
                    i <= n == sel@.len() == sel0.len() == visible@.len(),
                    query == q_in,
                    roots == r_in,
                    regular matches Some(rm) ==> rm@.len() == n,
                    meta matches Some(mm) ==> mm@.len() == n,
                    forall|x: int| 0 <= x < n ==> (#[trigger] sel@[x] <==> if x < i {
                        sel0[x] && ((regular matches Some(rm) && rm@[x]) || (meta matches Some(mm) && mm@[x]))
                    } else {
                        sel0[x]
                    }),
                decreases n - i,
            {
                let pass = (match &regular {
                    Some(rm) => rm[i],
                    None => false,
                }) || (match &meta {
                    Some(mm) => mm[i],
                    None => false,
                });
                if !pass {
                    sel.set(i, false);
                }
                i = i + 1;
            }
            proof {
                assert forall|x: int| 0 <= x < n implies (#[trigger] sel@[x] <==> forall|j: int| 0 <= j < q + 1 ==> #[trigger] self.key_selects(nqv[j].0, nqv[j].1, visible@, x as usize)) by {
                    if sel@[x] {
                        assert forall|j: int| 0 <= j < q + 1 implies #[trigger] self.key_selects(nqv[j].0, nqv[j].1, visible@, x as usize) by {
                            if j < q {
                            }
                        }
                    }
                    if forall|j: int| 0 <= j < q + 1 ==> #[trigger] self.key_selects(nqv[j].0, nqv[j].1, visible@, x as usize) {
                        assert(self.key_selects(nqv[q as int].0, nqv[q as int].1, visible@, x as usize));
                        assert forall|j: int| 0 <= j < q implies #[trigger] self.key_selects(nqv[j].0, nqv[j].1, visible@, x as usize) by {
                            assert(0 <= j < q + 1);
                        }
                    }
                }
            }
            q = q + 1;
        }
        let ghost pats = match &roots {
            Some(p) => Some(strings_view(p@)),
            None => None,
        };
        let ghost mk = match mask {
            Some(m) => Some(m@),
            None => None,
        };
        proof {
            assert forall|i: int| 0 <= i < n implies (#[trigger] sel@[i] <==> self.query_selects(normalized(query), i as usize)) by {
                if sel@[i] {
                    assert forall|j: int| 0 <= j < nqv.len() implies #[trigger] self.key_selects(nqv[j].0, nqv[j].1, self.visible_seq(), i as usize) by {
                    }
                }
            }
        }
        let restricted = nq.len() > 0 || roots.is_some() || mask.is_some();
        let new_roots: Arc<DatasetRoots> = match &roots {
            Some(pats) => {
                match self.roots.glob_roots(pats) {
                    Ok(sel_roots) => {
                        let set = self.roots.glob_set(pats, &sel_roots);
                        let mut i: usize = 0;
                        let ghost sel0 = sel@;
                        while i < n
                            invariant
                                i <= n == sel@.len() == sel0.len(),
                                query == q_in,
                                roots == r_in,
                                set.wf(),
                                forall|x: int| 0 <= x < n ==> (#[trigger] sel@[x] <==> if x < i {
                                    sel0[x] && set@.contains(x)
                                } else {
                                    sel0[x]
                                }),
                            decreases n - i,
                        {
                            if !set.contains(i) {
                                sel.set(i, false);
                            }
                            i = i + 1;
                        }
                        proof {
                            assert forall|x: int| 0 <= x < n implies (#[trigger] sel@[x] <==> self.query_selects(normalized(query), x as usize)
                                && selected_set(self.roots.roots@, self.roots.roots@, strings_view(pats@)).contains(x)) by {}
                        }
                        Arc::new(sel_roots)
                    },
                    Err(e) => {
                        return Err(QueryErr::GlobErr(e));
                    },
                }
            },
            None => share(&self.roots),
        };
        proof {
            assert forall|x: int| 0 <= x < n implies (#[trigger] sel@[x] <==> self.query_selects(normalized(query), x as usize)
                && (pats matches Some(p) ==> selected_set(self.roots.roots@, self.roots.roots@, p).contains(x))) by {}
        }
        if let Some(ids) = mask {
            let ghost sel0 = sel@;
            let given = mask_of_ids(ids, n);
            let mut i: usize = 0;
            while i < n
                invariant
                    i <= n == sel@.len() == sel0.len() == given@.len(),
                    query == q_in,
                    roots == r_in,
                    forall|x: int| 0 <= x < n ==> (#[trigger] given@[x] <==> ids@.contains(x as usize)),
                    forall|x: int| 0 <= x < n ==> (#[trigger] sel@[x] <==> if x < i {
                        sel0[x] && given@[x]
                    } else {
                        sel0[x]
                    }),
                decreases n - i,
            {
                if !given[i] {
                    sel.set(i, false);
                }
                i = i + 1;
            }
        }
        {
            let ghost sel0 = sel@;
            let mut i: usize = 0;
            while i < n
                invariant
                    i <= n == sel@.len() == sel0.len() == visible@.len(),
                    visible@ == self.visible_seq(),
                    query == q_in,
                    roots == r_in,
                    forall|x: int| 0 <= x < n ==> (#[trigger] sel@[x] <==> if x < i {
                        sel0[x] && visible@[x]
                    } else {
                        sel0[x]
                    }),
                decreases n - i,
            {
                if !visible[i] {
                    sel.set(i, false);
                }
                i = i + 1;
            }
        }
        proof {
            assert forall|x: int| 0 <= x < n implies (#[trigger] sel@[x] <==> self.selected(normalized(query), pats, mk, x as usize)) by {
                assert(self.visible_seq()[x] == self.visible(x));
            }
        }
        if !restricted {
            return Ok(Layout {
                paths: share(&self.paths),
                entities: share(&self.entities),
                roots: new_roots,
                heads: share(&self.heads),
                filetree: share(&self.filetree),
                depths: share(&self.depths),
                metadata: match &self.metadata {
                    Some(m) => Some(share(m)),
                    None => None,
                },
                view: match &self.view {
                    Some(v) => Some(share(v)),
                    None => None,
                },
            });
        }
        let entities = self.entities.filter(&sel);
        let metadata = match &self.metadata {
            Some(m) => Some(Arc::new(m.filter(&sel))),
            None => None,
        };
        let view = ids_of_mask(&sel);
        Ok(Layout {
            paths: share(&self.paths),
            entities: Arc::new(entities),
            roots: new_roots,
            heads: share(&self.heads),
            filetree: share(&self.filetree),
            depths: share(&self.depths),
            metadata,
            view: Some(Arc::new(view)),
        })
    }
}

/// The elements of `s` whose key is an entity of `t`, in order.
pub open spec fn keep_confirmed(t: Seq<u8>, s: Seq<crate::primitives::KeyVal>, table: EntityTable) -> Seq<crate::primitives::KeyVal>
    decreases s.len(),
{
    if s.len() == 0 {
        seq![]
    } else {
        let rest = keep_confirmed(t, s.drop_last(), table);
        if table.has_entity(crate::primitives::slice_of(t, s.last().key_spec())) {
            rest.push(s.last())
        } else {
            rest
        }
    }
}

proof fn lemma_keep_known_layout(l: Layout, t: Seq<u8>, s: Seq<crate::primitives::KeyVal>, known: Seq<Vec<u8>>)
    requires
        forall|e: Seq<u8>| l.entities.has_entity(e) <==> exists|k: int| 0 <= k < known.len() && (#[trigger] known[k])@ == e,
    ensures
        keep_known(t, s, known) == keep_confirmed(t, s, *l.entities),
    decreases s.len(),
{
    if s.len() > 0 {
        lemma_keep_known_layout(l, t, s.drop_last(), known);
    }
}

/// The marked ids, in increasing order.
pub fn ids_of_mask(m: &Vec<bool>) -> (r: Vec<usize>)
    ensures
        forall|i: usize| #[trigger] r@.contains(i) <==> (i < m@.len() && m@[i as int]),
        forall|a: int, b: int| 0 <= a < b < r@.len() ==> #[trigger] r@[a] < #[trigger] r@[b],
{
    let mut out: Vec<usize> = Vec::new();
    let mut i: usize = 0;
    while i < m.len()
        invariant
            i <= m@.len(),
            forall|x: usize| #[trigger] out@.contains(x) <==> (x < i && m@[x as int]),
            forall|a: int, b: int| 0 <= a < b < out@.len() ==> #[trigger] out@[a] < #[trigger] out@[b],
            forall|a: int| 0 <= a < out@.len() ==> #[trigger] out@[a] < i,
        decreases m@.len() - i,
    {
        if m[i] {
            let ghost before = out@;
            out.push(i);
            proof {
                assert forall|x: usize| #[trigger] out@.contains(x) <==> (x < i + 1 && m@[x as int]) by {
                    lemma_push_contains(before, i, x);
                }
                assert forall|a: int, b: int| 0 <= a < b < out@.len() implies #[trigger] out@[a] < #[trigger] out@[b] by {
                    if b == before.len() {
                        assert(out@[a] == before[a]);
                    } else {
                        assert(out@[a] == before[a] && out@[b] == before[b]);
                    }
                }
                assert forall|a: int| 0 <= a < out@.len() implies #[trigger] out@[a] < i + 1 by {
                    if a < before.len() {
                        assert(out@[a] == before[a]);
                    }
                }
            }
        }
        i = i + 1;
    }
    out
}

/// Marks, among ids below `n`, those of `ids`.
pub fn mask_of_ids(ids: &Vec<usize>, n: usize) -> (r: Vec<bool>)
    ensures
        r@.len() == n,
        forall|x: int| 0 <= x < n ==> (#[trigger] r@[x] <==> ids@.contains(x as usize)),
{
    let mut m = vec_of(n, false);
    let mut k: usize = 0;
    while k < ids.len()
        invariant
            k <= ids@.len(),
            m@.len() == n,
            forall|x: int| 0 <= x < n ==> (#[trigger] m@[x] <==> ids@.take(k as int).contains(x as usize)),
        decreases ids@.len() - k,
    {
        let x = ids[k];
        if x < n {
            m.set(x, true);
        }
        proof {
            assert(ids@.take(k + 1) == ids@.take(k as int).push(x));
            assert forall|y: usize| #[trigger] ids@.take(k + 1).contains(y) <==> ids@.take(k as int).contains(y) || y == x by {
                lemma_push_contains(ids@.take(k as int), x, y);
            }
        }
        k = k + 1;
    }
    assert(ids@.take(k as int) == ids@);
    m
}

} // verus!

verus! {

use crate::bidspath::keep_known;
use crate::builder::BidsPathBuilder;
use crate::template::{BidsPathErr, strict_outcome};
use crate::roots::{keys_where, RootKind, RootCategory, cat_root};

/// Every key of a table with its values.
pub fn table_key_vals(t: &EntityTable) -> (r: Vec<(Vec<u8>, Vec<Vec<u8>>)>)
    requires
        t.wf(),
    ensures
        r@.len() == t.rows@.len(),
        forall|k: int| 0 <= k < r@.len() ==> (#[trigger] r@[k]).0@ == t.rows@[k].entity@
            && crate::entity_table::lists_values(*t, r@[k].0@, r@[k].1@),
{
    let keys = t.entity_keys();
    let mut out: Vec<(Vec<u8>, Vec<Vec<u8>>)> = Vec::new();
    let mut k: usize = 0;
    while k < keys.len()
        invariant
            k <= keys@.len() == t.rows@.len(),
            t.wf(),
            forall|j: int| 0 <= j < keys@.len() ==> (#[trigger] keys@[j])@ == t.rows@[j].entity@,
            out@.len() == k,
            forall|j: int| 0 <= j < k ==> (#[trigger] out@[j]).0@ == t.rows@[j].entity@
                && crate::entity_table::lists_values(*t, out@[j].0@, out@[j].1@),
        decreases keys@.len() - k,
    {
        let vals = match t.entity_vals(keys[k].as_slice()) {
            Some(v) => v,
            None => Vec::new(),
        };
        proof {
            let row = t.rows@[k as int];
            assert(crate::entity_table::row_wf(row));
            let i0 = row.values@[0].ids@[0];
            assert(row.values@[0].ids@.contains(i0));
            assert(crate::entity_table::row_has(row, row.values@[0].value@, i0));
            assert(t.has(keys@[k as int]@, row.values@[0].value@, i0));
        }
        out.push((keys[k].clone(), vals));
        k = k + 1;
    }
    out
}


impl Layout {
    /// The entities some path of the view carries.
    pub fn entity_keys(&self) -> (r: Vec<Vec<u8>>)
        requires
            self.wf(),
        ensures
            forall|e: Seq<u8>| self.entities.has_entity(e) <==> exists|k: int| 0 <= k < r@.len() && (#[trigger] r@[k])@ == e,
    {
        self.entities.entity_keys()
    }

    /// The values of entity `key`, where some path carries it.
    pub fn entity_vals(&self, key: &[u8]) -> (r: Option<Vec<Vec<u8>>>)
        requires
            self.wf(),
        ensures
            r is Some <==> self.entities.has_entity(key@),
            r is Some ==> crate::entity_table::lists_values(*self.entities, key@, r.unwrap()@),
    {
        self.entities.entity_vals(key)
    }

    /// Every entity with its values.
    pub fn entity_key_vals(&self) -> (r: Vec<(Vec<u8>, Vec<Vec<u8>>)>)
        requires
            self.wf(),
        ensures
            r@.len() == self.entities.rows@.len(),
            forall|k: int| 0 <= k < r@.len() ==> (#[trigger] r@[k]).0@ == self.entities.rows@[k].entity@
                && crate::entity_table::lists_values(*self.entities, r@[k].0@, r@[k].1@),
    {
        table_key_vals(&self.entities)
    }

    /// Whether `p` is path `id` with its uncertain parents settled: those whose key is an
    /// entity of the view become parents, the others go.
    pub open spec fn settled(&self, id: int, p: BidsPath) -> bool {
        let o = self.paths@[id];
        &&& p.path == o.path
        &&& p.entities@ == o.entities@
        &&& p.suffix == o.suffix
        &&& p.extension == o.extension
        &&& p.datatype == o.datatype
        &&& p.head == o.head
        &&& p.root == o.root
        &&& p.depth == o.depth
        &&& (p.parts is Some <==> o.parts is Some)
        &&& (o.parts matches Some(q) ==> p.parts.unwrap()@ == q@)
        &&& p.uncertain_parents is None
        &&& p.parents@ == o.parents@ + match o.uncertain_parents {
            Some(u) => keep_confirmed(o.bytes(), u@, *self.entities),
            None => seq![],
        }
    }

    /// The id of the path at position `index` of the view.
    pub open spec fn id_at(&self, index: int) -> int {
        match self.view {
            Some(v) => v@[index] as int,
            None => index,
        }
    }

    /// Path `id`, its uncertain parents settled against the entities.
    fn path_at(&self, id: usize) -> (r: BidsPath)
        requires
            self.wf(),
            id < self.paths@.len(),
        ensures
            self.settled(id as int, r),
    {
        let mut p = self.paths[id].duplicate();
        let keys = self.entities.entity_keys();
        proof {
            lemma_keep_known_layout(*self, self.paths@[id as int].bytes(), match self.paths@[id as int].uncertain_parents { Some(u) => u@, None => seq![] }, keys@);
        }
        let ghost before = p;
        p.update_parents(&keys);
        proof {
            if before.uncertain_parents is None {
                assert(p.parents@ =~= self.paths@[id as int].parents@ + seq![]);
            }
        }
        p
    }

    /// Path `index` of the view, its uncertain parents settled against the entities.
    pub fn get_path(&self, index: usize) -> (r: Option<BidsPath>)
        requires
            self.wf(),
        ensures
            self.view is None ==> (r is Some <==> index < self.paths@.len()),
            self.view matches Some(v) ==> (r is Some <==> index < v@.len() && v@[index as int] < self.paths@.len()),
            r matches Some(p) ==> self.settled(self.id_at(index as int), p),
    {
        let ix = match &self.view {
            Some(v) => {
                if index >= v.len() {
                    return None;
                }
                v[index]
            },
            None => index,
        };
        if ix >= self.paths.len() {
            return None;
        }
        Some(self.path_at(ix))
    }

    /// The paths of the view, in the order of their ids, their uncertain parents settled.
    pub fn get_paths(&self) -> (r: Vec<BidsPath>)
        requires
            self.wf(),
        ensures
            exists|v: Seq<usize>| #![trigger v.len()]
                (forall|i: usize| #[trigger] v.contains(i) <==> self.visible(i as int))
                && (forall|a: int, b: int| 0 <= a < b < v.len() ==> #[trigger] v[a] < #[trigger] v[b])
                && r@.len() == v.len()
                && forall|k: int| 0 <= k < r@.len() ==> self.settled(v[k] as int, #[trigger] r@[k]),
    {
        let v = self.get_view();
        let mut out: Vec<BidsPath> = Vec::new();
        let mut k: usize = 0;
        while k < v.len()
            invariant
                k <= v@.len(),
                self.wf(),
                forall|i: usize| #[trigger] v@.contains(i) <==> self.visible(i as int),
                out@.len() == k,
                forall|j: int| 0 <= j < k ==> self.settled(v@[j] as int, #[trigger] out@[j]),
            decreases v@.len() - k,
        {
            let id = v[k];
            assert(v@.contains(id));
            let ghost before = out@;
            out.push(self.path_at(id));
            proof {
                assert forall|j: int| 0 <= j < k + 1 implies self.settled(v@[j] as int, #[trigger] out@[j]) by {
                    if j < k {
                        assert(out@[j] == before[j]);
                    }
                }
            }
            k = k + 1;
        }
        assert(v@.len() == out@.len());
        out
    }

    /// Marks the paths below `n` that carry `entity`.
    pub fn all_entity_indices(&self, entity: &[u8]) -> (r: Option<Vec<bool>>)
        requires
            self.wf(),
        ensures
            r is Some <==> self.entities.has_entity(entity@),
            r matches Some(m) ==> m@.len() == self.paths@.len() && forall|i: int| 0 <= i < m@.len() ==> (#[trigger] m@[i] <==> self.entities.carries(entity@, i as usize)),
    {
        if !self.entities.contains_key(entity) {
            return None;
        }
        Some(self.entities.entity_mask(entity, self.paths.len()))
    }

    /// Strictly parses `path` with root length `root`, against the entities of the layout
    /// and the recognised ones.
    pub fn parse(&self, path: String, root: usize) -> (r: Result<BidsPath, BidsPathErr>)
        requires
            self.wf(),
        ensures
            exists|b: BidsPathBuilder, known: Seq<Vec<u8>>|
                b.wf() && b.path@ == path@ && b.root == root && (forall|e: Seq<u8>| self.entities.has_entity(e) <==> exists|k: int| 0 <= k < known.len() && (#[trigger] known[k])@ == e)
                    && #[trigger] strict_outcome(b, known, r),
    {
        let builder = BidsPathBuilder::new(path, root);
        let known = self.entities.entity_keys();
        builder.template_parse(&known)
    }

    /// The keys, in order, of the roots of `s` of kind `kind` whose range holds a path of the view.
    pub open spec fn visible_keys(&self, s: Seq<(String, RootCategory)>, kind: RootKind) -> Seq<Seq<char>>
        decreases s.len(),
    {
        if s.len() == 0 {
            seq![]
        } else {
            let rest = self.visible_keys(s.drop_last(), kind);
            if crate::roots::kind_takes(kind, s.last().1) && exists|i: int| 0 <= i < self.paths@.len() && #[trigger] self.visible(i)
                && cat_root(s.last().1).range_spec()@.contains(i) {
                rest.push(s.last().0@)
            } else {
                rest
            }
        }
    }

    /// Keys of the roots that hold a path of the view, of kind `kind`.
    fn roots_in_view(&self, kind: RootKind) -> (r: Vec<String>)
        requires
            self.wf(),
        ensures
            strings_view(r@) == self.visible_keys(self.roots.roots@, kind),
    {
        let mut out: Vec<String> = Vec::new();
        let n = self.paths.len();
        let visible = self.view_mask();
        let mut k: usize = 0;
        while k < self.roots.roots.len()
            invariant
                self.wf(),
                k <= self.roots.roots@.len(),
                visible@ == self.visible_seq(),
                n == self.paths@.len(),
                strings_view(out@) == self.visible_keys(self.roots.roots@.take(k as int), kind),
            decreases self.roots.roots@.len() - k,
        {
            assert(self.roots.roots@.take(k + 1).drop_last() == self.roots.roots@.take(k as int));
            let (key, cat) = (&self.roots.roots[k].0, &self.roots.roots[k].1);
            let take = match kind {
                RootKind::All => true,
                RootKind::Raw => matches!(cat, RootCategory::Raw(..)),
                RootKind::Derivative => !matches!(cat, RootCategory::Raw(..)),
            };
            let root = match cat {
                RootCategory::Raw(r) => r,
                RootCategory::Derivative(r) => r,
                RootCategory::Labelled(_, r) => r,
            };
            let mut any = false;
            let mut i: usize = 0;
            while i < n && !any
                invariant
                    visible@ == self.visible_seq(),
                    n == self.paths@.len(),
                    i <= n,
                    *root == cat_root(*cat),
                    !any ==> forall|x: int| 0 <= x < i ==> !(#[trigger] self.visible(x) && cat_root(*cat).range_spec()@.contains(x)),
                    any ==> exists|x: int| 0 <= x < n && #[trigger] self.visible(x) && cat_root(*cat).range_spec()@.contains(x),
                decreases n - i,
            {
                assert(visible@[i as int] == self.visible(i as int));
                if visible[i] && root.contains(i) {
                    any = true;
                }
                i = i + 1;
            }
            let ghost before = out@;
            if take && any {
                out.push(key.clone());
                assert(strings_view(out@) =~= strings_view(before).push(self.roots.roots@[k as int].0@));
            }
            k = k + 1;
        }
        assert(self.roots.roots@.take(k as int) == self.roots.roots@);
        out
    }

    /// The roots holding a path of the view.
    pub fn get_roots(&self) -> (r: Vec<String>)
        requires
            self.wf(),
        ensures
            strings_view(r@) == self.visible_keys(self.roots.roots@, RootKind::All),
    {
        self.roots_in_view(RootKind::All)
    }

    /// The raw roots holding a path of the view.
    pub fn get_raw_roots(&self) -> (r: Vec<String>)
        requires
            self.wf(),
        ensures
            strings_view(r@) == self.visible_keys(self.roots.roots@, RootKind::Raw),
    {
        self.roots_in_view(RootKind::Raw)
    }

    /// The derivative roots holding a path of the view.
    pub fn get_derivative_roots(&self) -> (r: Vec<String>)
        requires
            self.wf(),
        ensures
            strings_view(r@) == self.visible_keys(self.roots.roots@, RootKind::Derivative),
    {
        self.roots_in_view(RootKind::Derivative)
    }

    /// The root keys that `scopes` selects; `None` where one of them is `all`.
    pub fn get_scopes(&self, scopes: Vec<String>) -> (r: Result<Option<Vec<String>>, QueryErr>)
        ensures
            r matches Ok(o) && (o is None <==> crate::roots::scope_keys(self.roots.roots@, strings_view(scopes@), seq![]) is None)
                && (o matches Some(v) ==> crate::roots::scope_keys(self.roots.roots@, strings_view(scopes@), seq![]) == Some(strings_view(v@))),
    {
        self.roots.get_scopes(scopes)
    }
}

} // verus!

verus! {

/// Walks the paths of a view in order, settling each path's uncertain parents against the
/// given entity keys.
pub struct BidsPathViewIterator {
    pub paths: Arc<Vec<BidsPath>>,
    pub valid_entities: Vec<Vec<u8>>,
    pub indices: Vec<usize>,
    pub pos: usize,
}

impl BidsPathViewIterator {
    /// An iterator over `indices`, or over every path where there are none.
    pub fn new(paths: Arc<Vec<BidsPath>>, entities: Vec<Vec<u8>>, indices: Option<Vec<usize>>) -> (r: BidsPathViewIterator)
        ensures
            r.pos == 0,
            r.paths == paths,
            r.valid_entities@ == entities@,
            indices matches Some(ix) ==> r.indices@ == ix@,
            indices is None ==> r.indices@.len() == paths@.len() && forall|k: int| 0 <= k < paths@.len() ==> #[trigger] r.indices@[k] == k,
    {
        let ix = match indices {
            Some(ix) => ix,
            None => {
                let n = paths.len();
                let mut v: Vec<usize> = Vec::new();
                let mut k: usize = 0;
                while k < n
                    invariant
                        k <= n,
                        v@.len() == k,
                        forall|j: int| 0 <= j < k ==> #[trigger] v@[j] == j,
                    decreases n - k,
                {
                    v.push(k);
                    k = k + 1;
                }
                v
            },
        };
        BidsPathViewIterator { paths, valid_entities: entities, indices: ix, pos: 0 }
    }

    /// The next path of the view, if any.
    pub fn next(&mut self) -> (r: Option<BidsPath>)
        ensures
            final(self).paths == old(self).paths,
            final(self).indices == old(self).indices,
            final(self).pos >= old(self).pos,
            old(self).pos >= old(self).indices@.len() ==> r is None && final(self).pos == old(self).pos,
            old(self).pos < old(self).indices@.len() ==> final(self).pos == old(self).pos + 1,
            old(self).pos < old(self).indices@.len() && old(self).indices@[old(self).pos as int] < old(self).paths@.len() ==> r is Some,
            r matches Some(p) ==> p.uncertain_parents is None && old(self).pos < old(self).indices@.len()
                && p.path == old(self).paths@[old(self).indices@[old(self).pos as int] as int].path,
    {
        while self.pos < self.indices.len()
            invariant
                self.paths == old(self).paths,
                self.indices == old(self).indices,
                self.valid_entities == old(self).valid_entities,
                self.pos >= old(self).pos,
                self.pos == old(self).pos,
            decreases self.indices@.len() - self.pos,
        {
            let i = self.indices[self.pos];
            self.pos = self.pos + 1;
            if i < self.paths.len() {
                let mut p = self.paths[i].duplicate();
                p.update_parents(&self.valid_entities);
                return Some(p);
            }
            return None;
        }
        None
    }
}

impl Layout {
    /// An iterator over the paths of the view.
    pub fn iter_paths(&self) -> (r: BidsPathViewIterator)
        requires
            self.wf(),
        ensures
            r.paths == self.paths,
            r.pos == 0,
    {
        let keys = self.entities.entity_keys();
        let indices = match &self.view {
            Some(v) => Some(ids_of_mask(&self.view_mask())),
            None => None,
        };
        BidsPathViewIterator::new(share(&self.paths), keys, indices)
    }
}

} // verus!

verus! {

use crate::standards::{get_key_alias, long_key};

/// Pairs with their keys in long form.
pub open spec fn long_pairs(p: Seq<(Seq<u8>, Seq<u8>)>) -> Seq<(Seq<u8>, Seq<u8>)> {
    Seq::new(p.len(), |i: int| (long_key(p[i].0), p[i].1))
}

/// `pairs` with each key in its long form.
pub fn with_long_keys(pairs: Vec<(Vec<u8>, Vec<u8>)>) -> (r: Vec<(Vec<u8>, Vec<u8>)>)
    ensures
        crate::bidspath::pairs_view(r@) == long_pairs(crate::bidspath::pairs_view(pairs@)),
{
    let ghost pv = crate::bidspath::pairs_view(pairs@);
    let mut out: Vec<(Vec<u8>, Vec<u8>)> = Vec::new();
    let mut rest = pairs;
    let mut rev: Vec<(Vec<u8>, Vec<u8>)> = Vec::new();
    let n = rest.len();
    while rest.len() > 0
        invariant
            rest@.len() + rev@.len() == n,
            rest@.len() <= n,
            n == pv.len(),
            crate::bidspath::pairs_view(rest@) == pv.take(rest@.len() as int),
            forall|j: int| 0 <= j < rev@.len() ==> (#[trigger] rev@[j]).0@ == pv[n - 1 - j].0 && rev@[j].1@ == pv[n - 1 - j].1,
        decreases rest@.len(),
    {
        let ghost before = rest@;
        let e = rest.pop().unwrap();
        proof {
            assert(crate::bidspath::pairs_view(before)[before.len() - 1] == pv[before.len() - 1]);
            assert(crate::bidspath::pairs_view(rest@) =~= pv.take(rest@.len() as int));
        }
        rev.push(e);
    }
    while rev.len() > 0
        invariant
            rev@.len() + out@.len() == n,
            n == pv.len(),
            forall|j: int| 0 <= j < rev@.len() ==> (#[trigger] rev@[j]).0@ == pv[n - 1 - j].0 && rev@[j].1@ == pv[n - 1 - j].1,
            crate::bidspath::pairs_view(out@) == long_pairs(pv.take(out@.len() as int)),
        decreases rev@.len(),
    {
        let ghost before = out@;
        let ghost rb = rev@;
        let (k, v) = rev.pop().unwrap();
        let lk = get_key_alias(k.as_slice());
        out.push((lk, v));
        proof {
            assert(rb[rb.len() - 1].0@ == pv[out@.len() - 1].0);
            assert(rb[rb.len() - 1].1@ == pv[out@.len() - 1].1);
            assert(crate::bidspath::pairs_view(out@)[out@.len() - 1] == (long_key(pv[out@.len() - 1].0), pv[out@.len() - 1].1));
            assert forall|j: int| 0 <= j < before.len() implies crate::bidspath::pairs_view(out@)[j] == long_pairs(pv.take(out@.len() as int))[j] by {
                assert(out@[j] == before[j]);
                assert(crate::bidspath::pairs_view(before)[j] == long_pairs(pv.take(before.len() as int))[j]);
            }
            assert(crate::bidspath::pairs_view(out@) =~= long_pairs(pv.take(out@.len() as int)));
            assert forall|j: int| 0 <= j < rev@.len() implies (#[trigger] rev@[j]).0@ == pv[n - 1 - j].0 && rev@[j].1@ == pv[n - 1 - j].1 by {
                assert(rev@[j] == rb[j]);
            }
        }
    }
    assert(pv.take(n as int) == pv);
    out
}

impl BidsPath {
    /// The entities the path exposes, with long keys.
    pub fn get_full_entities(&self) -> (r: Vec<(Vec<u8>, Vec<u8>)>)
        ensures
            crate::bidspath::pairs_view(r@) == long_pairs(self.entity_pairs()),
    {
        with_long_keys(self.get_entities())
    }
}

impl Layout {
    /// Every entity with its values, keys in long form.
    pub fn entity_fullkey_vals(&self) -> (r: Vec<(Vec<u8>, Vec<Vec<u8>>)>)
        requires
            self.wf(),
        ensures
            r@.len() == self.entities.rows@.len(),
            forall|k: int| 0 <= k < r@.len() ==> (#[trigger] r@[k]).0@ == long_key(self.entities.rows@[k].entity@)
                && crate::entity_table::lists_values(*self.entities, self.entities.rows@[k].entity@, r@[k].1@),
    {
        let kv = self.entity_key_vals();
        let mut out: Vec<(Vec<u8>, Vec<Vec<u8>>)> = Vec::new();
        let mut kv = kv;
        let ghost k0 = kv@;
        let n = kv.len();
        let mut rev: Vec<(Vec<u8>, Vec<Vec<u8>>)> = Vec::new();
        while kv.len() > 0
            invariant
                kv@.len() + rev@.len() == n,
                kv@.len() <= n == k0.len(),
                kv@ == k0.take(kv@.len() as int),
                forall|j: int| 0 <= j < rev@.len() ==> #[trigger] rev@[j] == k0[n - 1 - j],
            decreases kv@.len(),
        {
            let ghost before = kv@;
            let e = kv.pop().unwrap();
            proof {
                assert(kv@ =~= k0.take(kv@.len() as int));
            }
            rev.push(e);
        }
        while rev.len() > 0
            invariant
                rev@.len() + out@.len() == n,
                n == k0.len() == self.entities.rows@.len(),
                forall|j: int| 0 <= j < rev@.len() ==> #[trigger] rev@[j] == k0[n - 1 - j],
                forall|j: int| 0 <= j < n ==> (#[trigger] k0[j]).0@ == self.entities.rows@[j].entity@
                    && crate::entity_table::lists_values(*self.entities, k0[j].0@, k0[j].1@),
                forall|j: int| 0 <= j < out@.len() ==> (#[trigger] out@[j]).0@ == long_key(self.entities.rows@[j].entity@)
                    && crate::entity_table::lists_values(*self.entities, self.entities.rows@[j].entity@, out@[j].1@),
            decreases rev@.len(),
        {
            let ghost rb = rev@;
            let ghost before = out@;
            let (k, v) = rev.pop().unwrap();
            let lk = get_key_alias(k.as_slice());
            out.push((lk, v));
            proof {
                assert(rb[rb.len() - 1] == k0[before.len() as int]);
                assert forall|j: int| 0 <= j < rev@.len() implies #[trigger] rev@[j] == k0[n - 1 - j] by {
                    assert(rev@[j] == rb[j]);
                }
                assert forall|j: int| 0 <= j < out@.len() implies (#[trigger] out@[j]).0@ == long_key(self.entities.rows@[j].entity@)
                    && crate::entity_table::lists_values(*self.entities, self.entities.rows@[j].entity@, out@[j].1@) by {
                    if j < before.len() {
                        assert(out@[j] == before[j]);
                    }
                }
            }
        }
        out
    }

    /// The metadata keys with their values, once the metadata is indexed.
    pub fn metadata_key_vals(&self) -> (r: Option<Vec<(Vec<u8>, Vec<Vec<u8>>)>>)
        requires
            self.wf(),
        ensures
            r is Some <==> self.metadata is Some,
            r matches Some(v) ==> v@.len() == self.metadata.unwrap().rows@.len() && forall|k: int| 0 <= k < v@.len() ==> (#[trigger] v@[k]).0@
                == self.metadata.unwrap().rows@[k].entity@ && crate::entity_table::lists_values(*self.metadata.unwrap(), v@[k].0@, v@[k].1@),
    {
        match &self.metadata {
            None => None,
            Some(m) => Some(table_key_vals(m)),
        }
    }
}

} // verus!
