use crate::primitives::Span;
use vstd::prelude::*;

verus! {

/// The ids in `s.start..s.end`.
pub open spec fn span_set(s: Span) -> Set<int> {
    Set::new(|x: int| s.start <= x < s.end)
}

/// The ids covered by a sequence of ranges.
pub open spec fn spans_set(s: Seq<Span>) -> Set<int>
    decreases s.len(),
{
    if s.len() == 0 {
        Set::empty()
    } else {
        spans_set(s.drop_last()).union(span_set(s.last()))
    }
}

/// Sorted, non-empty ranges, no two of which touch or overlap.
pub open spec fn coalesced(s: Seq<Span>) -> bool {
    &&& forall|i: int| 0 <= i < s.len() ==> (#[trigger] s[i]).start < s[i].end
    &&& forall|i: int, j: int| 0 <= i < j < s.len() ==> (#[trigger] s[i]).end < (#[trigger] s[j]).start
}

/// The number of ids covered by a sequence of ranges, counted range by range.
pub open spec fn spans_len(s: Seq<Span>) -> int
    decreases s.len(),
{
    if s.len() == 0 {
        0
    } else {
        spans_len(s.drop_last()) + (s.last().end - s.last().start)
    }
}

proof fn lemma_spans_set_push(s: Seq<Span>, x: Span)
    ensures
        spans_set(s.push(x)) == spans_set(s).union(span_set(x)),
{
    assert(s.push(x).drop_last() == s);
}

proof fn lemma_spans_set_take(s: Seq<Span>, i: int)
    requires
        0 <= i < s.len(),
    ensures
        spans_set(s.take(i + 1)) == spans_set(s.take(i)).union(span_set(s[i])),
{
    assert(s.take(i + 1).drop_last() == s.take(i));
}

proof fn lemma_spans_set_member(s: Seq<Span>, x: int)
    ensures
        spans_set(s).contains(x) <==> exists|i: int| #![trigger s[i]] 0 <= i < s.len() && s[i].start <= x < s[i].end,
    decreases s.len(),
{
    if s.len() > 0 {
        let d = s.drop_last();
        lemma_spans_set_member(d, x);
        if spans_set(s).contains(x) {
            if spans_set(d).contains(x) {
                let i = choose|i: int| #![trigger d[i]] 0 <= i < d.len() && d[i].start <= x < d[i].end;
                assert(s[i] == d[i]);
            } else {
                assert(s[s.len() - 1].start <= x < s[s.len() - 1].end);
            }
        }
        if exists|i: int| #![trigger s[i]] 0 <= i < s.len() && s[i].start <= x < s[i].end {
            let i = choose|i: int| #![trigger s[i]] 0 <= i < s.len() && s[i].start <= x < s[i].end;
            if i < s.len() - 1 {
                assert(d[i] == s[i]);
            }
        }
    }
}

proof fn lemma_coalesced_push(s: Seq<Span>, x: Span)
    requires
        coalesced(s),
        x.start < x.end,
        s.len() > 0 ==> s.last().end < x.start,
    ensures
        coalesced(s.push(x)),
{
    let t = s.push(x);
    assert forall|i: int, j: int| 0 <= i < j < t.len() implies (#[trigger] t[i]).end < (
    #[trigger] t[j]).start by {
        if j == s.len() {
            if i < s.len() - 1 {
                assert(s[i].end < s[s.len() - 1].start);
            }
        }
    }
}

/// The ranges of `r` with `value` added, coalesced again.
fn add_span(r: &Vec<Span>, value: Span) -> (out: Vec<Span>)
    requires
        coalesced(r@),
        value.start < value.end,
    ensures
        coalesced(out@),
        spans_set(out@) == spans_set(r@).union(span_set(value)),
{
    let mut out: Vec<Span> = Vec::new();
    let mut lo = value.start;
    let mut hi = value.end;
    let mut placed = false;
    let mut i: usize = 0;
    while i < r.len()
        invariant
            i <= r@.len(),
            coalesced(r@),
            coalesced(out@),
            lo < hi,
            spans_set(out@).union(if placed { Set::empty() } else { span_set(Span { start: lo, end: hi }) })
                == spans_set(r@.take(i as int)).union(span_set(value)),
            out@.len() > 0 && i < r@.len() ==> out@.last().end < r@[i as int].start,
            !placed && out@.len() > 0 ==> out@.last().end < lo,
            placed && i < r@.len() ==> hi < r@[i as int].start,
        decreases r@.len() - i,
    {
        let cur = r[i];
        let ghost pend0 = if placed { Set::<int>::empty() } else { span_set(Span { start: lo, end: hi }) };
        let ghost out0 = spans_set(out@);
        proof {
            lemma_spans_set_take(r@, i as int);
        }
        if !placed && cur.end < lo {
            proof {
                lemma_coalesced_push(out@, cur);
                lemma_spans_set_push(out@, cur);
            }
            out.push(cur);
        } else if cur.start > hi {
            if !placed {
                let pending = Span { start: lo, end: hi };
                proof {
                    lemma_coalesced_push(out@, pending);
                    lemma_spans_set_push(out@, pending);
                }
                out.push(pending);
                placed = true;
            }
            proof {
                lemma_coalesced_push(out@, cur);
                lemma_spans_set_push(out@, cur);
            }
            out.push(cur);
        } else {
            let nlo = if cur.start < lo { cur.start } else { lo };
            let nhi = if cur.end > hi { cur.end } else { hi };
            assert(span_set(Span { start: nlo, end: nhi }) =~= span_set(Span { start: lo, end: hi }).union(span_set(cur)));
            lo = nlo;
            hi = nhi;
        }
        assert(spans_set(out@).union(if placed { Set::empty() } else { span_set(Span { start: lo, end: hi }) })
            =~= out0.union(pend0).union(span_set(cur)));
        proof {
            if i + 1 < r@.len() {
                assert(r@[i as int].end < r@[i + 1].start);
            }
        }
        i = i + 1;
        assert(spans_set(out@).union(if placed { Set::empty() } else { span_set(Span { start: lo, end: hi }) })
            =~= spans_set(r@.take(i as int)).union(span_set(value)));
    }
    if !placed {
        let pending = Span { start: lo, end: hi };
        proof {
            lemma_coalesced_push(out@, pending);
            lemma_spans_set_push(out@, pending);
        }
        out.push(pending);
    }
    assert(r@.take(r@.len() as int) == r@);
    assert(spans_set(out@) =~= spans_set(r@).union(span_set(value)));
    out
}

/// A sorted, coalesced set of half-open ranges of path ids.
#[derive(Debug, Clone)]
pub struct MultiRange {
    pub ranges: Vec<Span>,
}

impl View for MultiRange {
    type V = Set<int>;

    open spec fn view(&self) -> Set<int> {
        spans_set(self.ranges@)
    }
}

impl MultiRange {
    pub open spec fn wf(&self) -> bool {
        coalesced(self.ranges@)
    }

    pub fn new() -> (r: MultiRange)
        ensures
            r.wf(),
            r@ == Set::<int>::empty(),
    {
        MultiRange { ranges: Vec::new() }
    }

    /// The set holding the ids of one range.
    pub fn from_span(item: Span) -> (r: MultiRange)
        ensures
            r.wf(),
            r@ == span_set(item),
    {
        let mut r = MultiRange::new();
        r.insert(item);
        r
    }

    /// Adds the ids of `value`; a range that starts where the last one ends extends it.
    pub fn insert(&mut self, value: Span) -> (r: bool)
        requires
            old(self).wf(),
        ensures
            r,
            final(self).wf(),
            final(self)@ == old(self)@.union(span_set(value)),
    {
        if value.start >= value.end {
            assert(span_set(value) =~= Set::empty());
            assert(self@.union(span_set(value)) =~= self@);
            return true;
        }
        let n = self.ranges.len();
        if n == 0 {
            proof {
                lemma_coalesced_push(self.ranges@, value);
                lemma_spans_set_push(self.ranges@, value);
            }
            self.ranges.push(value);
            return true;
        }
        let prev = self.ranges[n - 1];
        if prev.end == value.start {
            let joined = Span { start: prev.start, end: value.end };
            let ghost before = self.ranges@;
            proof {
                let d = before.drop_last();
                assert(coalesced(d));
                if d.len() > 0 {
                    assert(d.last().end < prev.start);
                }
                lemma_coalesced_push(d, joined);
                lemma_spans_set_push(d, joined);
                assert(before.update(n - 1, joined) == d.push(joined));
                assert(span_set(joined) =~= span_set(prev).union(span_set(value)));
                assert(spans_set(before) == spans_set(d).union(span_set(prev)));
            }
            self.ranges.set(n - 1, joined);
            assert(self@ =~= spans_set(before).union(span_set(value)));
        } else if prev.end < value.start {
            proof {
                lemma_coalesced_push(self.ranges@, value);
                lemma_spans_set_push(self.ranges@, value);
            }
            self.ranges.push(value);
        } else {
            self.ranges = add_span(&self.ranges, value);
        }
        true
    }

    /// Adds every id of `values`.
    pub fn extend(&mut self, values: &MultiRange)
        requires
            old(self).wf(),
            values.wf(),
        ensures
            final(self).wf(),
            final(self)@ == old(self)@.union(values@),
    {
        let merged = self.merge(values);
        *self = merged;
    }

    /// Whether `value` is covered.
    pub fn contains(&self, value: usize) -> (r: bool)
        ensures
            r == self@.contains(value as int),
    {
        proof {
            lemma_spans_set_member(self.ranges@, value as int);
        }
        let mut i: usize = 0;
        while i < self.ranges.len()
            invariant
                i <= self.ranges@.len(),
                forall|j: int| #![trigger self.ranges@[j]] 0 <= j < i ==> !(self.ranges@[j].start <= value < self.ranges@[j].end),
            decreases self.ranges@.len() - i,
        {
            let range = self.ranges[i];
            if value >= range.start && value < range.end {
                proof {
                    lemma_spans_set_member(self.ranges@, value as int);
                }
                assert(self.ranges@[i as int].start <= value < self.ranges@[i as int].end);
                return true;
            }
            i = i + 1;
        }
        false
    }

    /// The union of two sets, as a new coalesced set.
    pub fn merge(&self, other: &MultiRange) -> (r: MultiRange)
        requires
            self.wf(),
            other.wf(),
        ensures
            r.wf(),
            r@ == self@.union(other@),
    {
        let mut ranges = self.ranges.clone();
        assert(ranges@ == self.ranges@);
        let mut i: usize = 0;
        while i < other.ranges.len()
            invariant
                i <= other.ranges@.len(),
                coalesced(other.ranges@),
                coalesced(ranges@),
                spans_set(ranges@) == self@.union(spans_set(other.ranges@.take(i as int))),
            decreases other.ranges@.len() - i,
        {
            let cur = other.ranges[i];
            proof {
                lemma_spans_set_take(other.ranges@, i as int);
            }
            ranges = add_span(&ranges, cur);
            i = i + 1;
            assert(spans_set(ranges@) =~= self@.union(spans_set(other.ranges@.take(i as int))));
        }
        assert(other.ranges@.take(other.ranges@.len() as int) == other.ranges@);
        MultiRange { ranges }
    }

    /// The number of ids covered.
    pub fn len(&self) -> (r: usize)
        requires
            self.wf(),
            spans_len(self.ranges@) <= usize::MAX,
        ensures
            r == spans_len(self.ranges@),
    {
        let mut total: usize = 0;
        let mut i: usize = 0;
        while i < self.ranges.len()
            invariant
                i <= self.ranges@.len(),
                coalesced(self.ranges@),
                spans_len(self.ranges@) <= usize::MAX,
                total == spans_len(self.ranges@.take(i as int)),
            decreases self.ranges@.len() - i,
        {
            let range = self.ranges[i];
            proof {
                assert(self.ranges@.take(i + 1).drop_last() == self.ranges@.take(i as int));
                lemma_spans_len_prefix(self.ranges@, i + 1);
            }
            total = total + (range.end - range.start);
            i = i + 1;
        }
        assert(self.ranges@.take(i as int) == self.ranges@);
        total
    }

    /// Every covered id, in increasing order.
    pub fn ids(&self) -> (r: Vec<usize>)
        requires
            self.wf(),
        ensures
            forall|x: usize| self@.contains(x as int) <==> r@.contains(x),
    {
        let mut out: Vec<usize> = Vec::new();
        let mut i: usize = 0;
        while i < self.ranges.len()
            invariant
                i <= self.ranges@.len(),
                forall|x: usize| spans_set(self.ranges@.take(i as int)).contains(x as int) <==> out@.contains(x),
            decreases self.ranges@.len() - i,
        {
            let range = self.ranges[i];
            proof {
                lemma_spans_set_take(self.ranges@, i as int);
            }
            let mut v: usize = range.start;
            while v < range.end
                invariant
                    range.start <= v,
                    forall|x: usize|
                        (spans_set(self.ranges@.take(i as int)).contains(x as int) || (range.start <= x < v && x < range.end))
                            <==> out@.contains(x),
                decreases range.end - v,
            {
                let ghost before = out@;
                let ghost vv = v;
                out.push(v);
                proof {
                    assert forall|x: usize| #[trigger] out@.contains(x) <==> (before.contains(x) || x == vv) by {
                        if out@.contains(x) {
                            let k = choose|k: int| 0 <= k < out@.len() && out@[k] == x;
                            if k < before.len() {
                                assert(before[k] == x);
                            }
                        }
                        if before.contains(x) {
                            let k = choose|k: int| 0 <= k < before.len() && before[k] == x;
                            assert(out@[k] == x);
                        }
                        if x == v {
                            assert(out@[before.len() as int] == v);
                        }
                    }
                }
                v = v + 1;
                assert forall|x: usize|
                    (spans_set(self.ranges@.take(i as int)).contains(x as int) || (range.start <= x < v && x < range.end))
                        <==> out@.contains(x) by {
                    assert(out@.contains(x) <==> (before.contains(x) || x == vv));
                }
            }
            i = i + 1;
        }
        assert(self.ranges@.take(i as int) == self.ranges@);
        out
    }
}

proof fn lemma_spans_len_prefix(s: Seq<Span>, i: int)
    requires
        coalesced(s),
        0 <= i <= s.len(),
    ensures
        0 <= spans_len(s.take(i)) <= spans_len(s),
    decreases s.len() - i,
{
    if i < s.len() {
        lemma_spans_len_prefix(s, i + 1);
        assert(s.take(i + 1).drop_last() == s.take(i));
        assert(s[i].start < s[i].end);
        assert(coalesced(s.take(i)));
        lemma_spans_len_nonneg(s.take(i));
    } else {
        assert(s.take(i) == s);
        lemma_spans_len_nonneg(s);
    }
}

proof fn lemma_spans_len_nonneg(s: Seq<Span>)
    requires
        coalesced(s),
    ensures
        spans_len(s) >= 0,
    decreases s.len(),
{
    if s.len() > 0 {
        let d = s.drop_last();
        assert(coalesced(d));
        lemma_spans_len_nonneg(d);
        assert(s[s.len() - 1].start < s[s.len() - 1].end);
    }
}

} // verus!
