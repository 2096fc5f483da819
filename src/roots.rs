use crate::description::{pipeline_seq, DatasetDescription};
use crate::multirange::{span_set, MultiRange};
use crate::primitives::Span;
use vstd::prelude::*;

verus! {

#[verifier::external_type_specification]
#[verifier::external_body]
pub struct ExGlobError(globset::Error);

/// Whether glob `pattern` matches `path`, as globset decides it.
pub uninterp spec fn glob_matches(pattern: Seq<char>, path: Seq<char>) -> bool;

/// Whether glob `pattern` parses and compiles, as globset decides it.
pub uninterp spec fn glob_compiles(pattern: Seq<char>) -> bool;

/// All non-key patterns of `pats` compile.
pub open spec fn globs_compile(all: Seq<(String, RootCategory)>, pats: Seq<Seq<char>>) -> bool {
    forall|j: int| 0 <= j < pats.len() && !is_key(all, pats[j]) ==> glob_compiles(#[trigger] pats[j])
}

/// Relies on globset's `Glob::new`, `GlobSetBuilder::build` and `GlobSet::is_match`: a
/// pattern parses and compiles or fails by the pattern alone (both failures come back as
/// errors), and one that compiles matches a path or not by the two strings alone.
#[verifier::external_body]
fn glob_match(pattern: &str, path: &str) -> (r: Result<bool, globset::Error>)
    ensures
        r is Ok <==> glob_compiles(pattern@),
        r matches Ok(b) ==> b == glob_matches(pattern@, path@),
{
    let mut builder = globset::GlobSetBuilder::new();
    builder.add(globset::Glob::new(pattern)?);
    let set = builder.build()?;
    Ok(set.is_match(path))
}

/// Why a root pattern could not be used.
#[derive(Debug)]
pub enum GlobErr {
    Glob(globset::Error),
    Encoding(String),
}

/// What the ids of a root come with.
#[derive(Debug, Clone)]
pub enum RootType {
    /// A root with a dataset description.
    DatasetRoot(DatasetDescription, MultiRange),
    /// A root without one.
    SeedRoot(MultiRange),
}

/// The ids of the paths found under one root.
#[derive(Debug, Clone)]
pub struct DatasetRoot {
    pub roottype: RootType,
}

/// How a root is used.
#[derive(Debug, Clone)]
pub enum RootCategory {
    Raw(DatasetRoot),
    Derivative(DatasetRoot),
    Labelled(String, DatasetRoot),
}

/// How a root is registered.
#[derive(Debug, Clone)]
pub enum RootLabel {
    Raw,
    DerivativeUnlabelled,
    DerivativeLabelled(String),
}

impl DatasetRoot {
    pub open spec fn range_spec(&self) -> MultiRange {
        match self.roottype {
            RootType::DatasetRoot(_, r) => r,
            RootType::SeedRoot(r) => r,
        }
    }

    pub open spec fn wf(&self) -> bool {
        self.range_spec().wf()
    }

    /// A root holding the ids of `range`, with its description where there is one.
    pub fn new_range(range: Span, description: Option<DatasetDescription>) -> (r: DatasetRoot)
        ensures
            r.wf(),
            r.range_spec()@ == span_set(range),
            r.roottype is DatasetRoot <==> description is Some,
    {
        let ranges = MultiRange::from_span(range);
        match description {
            Some(desc) => DatasetRoot { roottype: RootType::DatasetRoot(desc, ranges) },
            None => DatasetRoot { roottype: RootType::SeedRoot(ranges) },
        }
    }

    pub fn get_range(&self) -> (r: &MultiRange)
        ensures
            *r == self.range_spec(),
    {
        match &self.roottype {
            RootType::DatasetRoot(_, ranges) => ranges,
            RootType::SeedRoot(ranges) => ranges,
        }
    }

    pub fn move_range(self) -> (r: MultiRange)
        ensures
            r == self.range_spec(),
    {
        match self.roottype {
            RootType::DatasetRoot(_, ranges) => ranges,
            RootType::SeedRoot(ranges) => ranges,
        }
    }

    pub fn contains(&self, i: usize) -> (r: bool)
        ensures
            r == self.range_spec()@.contains(i as int),
    {
        self.get_range().contains(i)
    }

    pub fn insert(&mut self, i: Span) -> (r: bool)
        requires
            old(self).wf(),
        ensures
            r,
            final(self).wf(),
            final(self).range_spec()@ == old(self).range_spec()@.union(span_set(i)),
            final(self).roottype is DatasetRoot <==> old(self).roottype is DatasetRoot,
    {
        match &mut self.roottype {
            RootType::DatasetRoot(_, ranges) => ranges.insert(i),
            RootType::SeedRoot(ranges) => ranges.insert(i),
        }
    }

    pub fn extend(&mut self, i: &MultiRange)
        requires
            old(self).wf(),
            i.wf(),
        ensures
            final(self).wf(),
            final(self).range_spec()@ == old(self).range_spec()@.union(i@),
            final(self).roottype is DatasetRoot <==> old(self).roottype is DatasetRoot,
    {
        match &mut self.roottype {
            RootType::DatasetRoot(_, ranges) => ranges.extend(i),
            RootType::SeedRoot(ranges) => ranges.extend(i),
        }
    }

    pub fn get_description(&self) -> (r: Option<&DatasetDescription>)
        ensures
            r is Some <==> self.roottype is DatasetRoot,
            self.roottype matches RootType::DatasetRoot(d, _) ==> r == Some(&d),
    {
        match &self.roottype {
            RootType::DatasetRoot(dd, _) => Some(dd),
            _ => None,
        }
    }
}

pub open spec fn cat_root(c: RootCategory) -> DatasetRoot {
    match c {
        RootCategory::Raw(r) => r,
        RootCategory::Derivative(r) => r,
        RootCategory::Labelled(_, r) => r,
    }
}

/// Which roots a listing takes: all, the raw ones, or the derivative ones.
#[derive(Debug, Clone, Copy, PartialEq, Eq, Structural)]
pub enum RootKind {
    All,
    Raw,
    Derivative,
}

pub open spec fn kind_takes(k: RootKind, c: RootCategory) -> bool {
    match k {
        RootKind::All => true,
        RootKind::Raw => c is Raw,
        RootKind::Derivative => !(c is Raw),
    }
}

/// The keys of the entries of `s` of kind `k`, in order.
pub open spec fn keys_where(s: Seq<(String, RootCategory)>, k: RootKind) -> Seq<Seq<char>>
    decreases s.len(),
{
    if s.len() == 0 {
        seq![]
    } else {
        let rest = keys_where(s.drop_last(), k);
        if kind_takes(k, s.last().1) {
            rest.push(s.last().0@)
        } else {
            rest
        }
    }
}

/// The keys of the entries of `s` labelled `label`, in order.
pub open spec fn keys_labelled(s: Seq<(String, RootCategory)>, label: Seq<char>) -> Seq<Seq<char>>
    decreases s.len(),
{
    if s.len() == 0 {
        seq![]
    } else {
        let rest = keys_labelled(s.drop_last(), label);
        match s.last().1 {
            RootCategory::Labelled(l, _) => if l@ == label {
                rest.push(s.last().0@)
            } else {
                rest
            },
            _ => rest,
        }
    }
}

/// Whether a root's description names pipeline `name`.
pub open spec fn names_pipeline(c: RootCategory, name: Seq<char>) -> bool {
    match cat_root(c).roottype {
        RootType::DatasetRoot(d, _) => pipeline_seq(d).contains(name),
        RootType::SeedRoot(_) => false,
    }
}

/// The keys of the entries of `s` whose description names pipeline `name`, in order.
pub open spec fn keys_by_pipeline(s: Seq<(String, RootCategory)>, name: Seq<char>) -> Seq<Seq<char>>
    decreases s.len(),
{
    if s.len() == 0 {
        seq![]
    } else {
        let rest = keys_by_pipeline(s.drop_last(), name);
        if names_pipeline(s.last().1, name) {
            rest.push(s.last().0@)
        } else {
            rest
        }
    }
}

/// The ids under any of the roots of `s`.
pub open spec fn roots_set(s: Seq<(String, RootCategory)>) -> Set<int>
    decreases s.len(),
{
    if s.len() == 0 {
        Set::empty()
    } else {
        roots_set(s.drop_last()).union(cat_root(s.last().1).range_spec()@)
    }
}

pub open spec fn strings_view(v: Seq<String>) -> Seq<Seq<char>> {
    Seq::new(v.len(), |i: int| v[i]@)
}

/// The roots of a layout, by path.
#[derive(Debug, Clone)]
pub struct DatasetRoots {
    pub roots: Vec<(String, RootCategory)>,
}

impl DatasetRoots {
    /// Keys are distinct, and each range is coalesced.
    pub open spec fn wf(&self) -> bool {
        &&& forall|i: int| 0 <= i < self.roots@.len() ==> cat_root((#[trigger] self.roots@[i]).1).wf()
        &&& forall|a: int, b: int| 0 <= a < b < self.roots@.len() ==> (#[trigger] self.roots@[a]).0@ != (#[trigger] self.roots@[b]).0@
    }

    pub fn new() -> (r: DatasetRoots)
        ensures
            r.wf(),
            r.roots@.len() == 0,
    {
        DatasetRoots { roots: Vec::new() }
    }

    /// The keys of the roots of kind `kind`, in order.
    pub fn keys_of(&self, kind: RootKind) -> (r: Vec<String>)
        ensures
            strings_view(r@) == keys_where(self.roots@, kind),
    {
        let mut out: Vec<String> = Vec::new();
        let mut k: usize = 0;
        while k < self.roots.len()
            invariant
                k <= self.roots@.len(),
                strings_view(out@) == keys_where(self.roots@.take(k as int), kind),
            decreases self.roots@.len() - k,
        {
            assert(self.roots@.take(k + 1).drop_last() == self.roots@.take(k as int));
            let ghost before = out@;
            let take = match kind {
                RootKind::All => true,
                RootKind::Raw => matches!(self.roots[k].1, RootCategory::Raw(..)),
                RootKind::Derivative => !matches!(self.roots[k].1, RootCategory::Raw(..)),
            };
            if take {
                out.push(self.roots[k].0.clone());
                assert(strings_view(out@) =~= strings_view(before).push(self.roots@[k as int].0@));
            }
            k = k + 1;
        }
        assert(self.roots@.take(k as int) == self.roots@);
        out
    }

    /// The keys of all roots.
    pub fn keys(&self) -> (r: Vec<String>)
        ensures
            strings_view(r@) == keys_where(self.roots@, RootKind::All),
    {
        self.keys_of(RootKind::All)
    }

    /// The keys of the raw roots.
    pub fn raw_keys(&self) -> (r: Vec<String>)
        ensures
            strings_view(r@) == keys_where(self.roots@, RootKind::Raw),
    {
        self.keys_of(RootKind::Raw)
    }

    /// The keys of the derivative roots, labelled or not.
    pub fn derivative_keys(&self) -> (r: Vec<String>)
        ensures
            strings_view(r@) == keys_where(self.roots@, RootKind::Derivative),
    {
        self.keys_of(RootKind::Derivative)
    }

    /// The keys of the roots labelled `query`, where there is one.
    pub fn find_by_label(&self, query: &String) -> (r: Option<Vec<String>>)
        ensures
            r is None <==> keys_labelled(self.roots@, query@).len() == 0,
            r matches Some(v) ==> strings_view(v@) == keys_labelled(self.roots@, query@),
    {
        let mut out: Vec<String> = Vec::new();
        let mut k: usize = 0;
        while k < self.roots.len()
            invariant
                k <= self.roots@.len(),
                strings_view(out@) == keys_labelled(self.roots@.take(k as int), query@),
            decreases self.roots@.len() - k,
        {
            assert(self.roots@.take(k + 1).drop_last() == self.roots@.take(k as int));
            let ghost before = out@;
            if let RootCategory::Labelled(label, _) = &self.roots[k].1 {
                if label.eq(query) {
                    out.push(self.roots[k].0.clone());
                    assert(strings_view(out@) =~= strings_view(before).push(self.roots@[k as int].0@));
                }
            }
            k = k + 1;
        }
        assert(self.roots@.take(k as int) == self.roots@);
        if out.len() > 0 {
            Some(out)
        } else {
            None
        }
    }

    /// The keys of the roots whose description names pipeline `query`, where there is one.
    pub fn find_by_pipeline(&self, query: &String) -> (r: Option<Vec<String>>)
        ensures
            r is None <==> keys_by_pipeline(self.roots@, query@).len() == 0,
            r matches Some(v) ==> strings_view(v@) == keys_by_pipeline(self.roots@, query@),
    {
        let mut out: Vec<String> = Vec::new();
        let mut k: usize = 0;
        while k < self.roots.len()
            invariant
                k <= self.roots@.len(),
                strings_view(out@) == keys_by_pipeline(self.roots@.take(k as int), query@),
            decreases self.roots@.len() - k,
        {
            assert(self.roots@.take(k + 1).drop_last() == self.roots@.take(k as int));
            let ghost before = out@;
            let root = match &self.roots[k].1 {
                RootCategory::Raw(r) => r,
                RootCategory::Derivative(r) => r,
                RootCategory::Labelled(_, r) => r,
            };
            if let Some(desc) = root.get_description() {
                let names = desc.pipeline_names();
                assert(strings_view(names@) =~= pipeline_seq(*desc));
                if contains_string(&names, query) {
                    out.push(self.roots[k].0.clone());
                    assert(strings_view(out@) =~= strings_view(before).push(self.roots@[k as int].0@));
                }
            }
            k = k + 1;
        }
        assert(self.roots@.take(k as int) == self.roots@);
        if out.len() > 0 {
            Some(out)
        } else {
            None
        }
    }

    /// The keys and ranges of the roots of kind `kind`, in order.
    pub fn items_of(&self, kind: RootKind) -> (r: Vec<(String, MultiRange)>)
        ensures
            r@.len() == keys_where(self.roots@, kind).len(),
            forall|k: int| 0 <= k < r@.len() ==> (#[trigger] r@[k]).0@ == keys_where(self.roots@, kind)[k],
    {
        let mut out: Vec<(String, MultiRange)> = Vec::new();
        let mut k: usize = 0;
        while k < self.roots.len()
            invariant
                k <= self.roots@.len(),
                out@.len() == keys_where(self.roots@.take(k as int), kind).len(),
                forall|j: int| 0 <= j < out@.len() ==> (#[trigger] out@[j]).0@ == keys_where(self.roots@.take(k as int), kind)[j],
            decreases self.roots@.len() - k,
        {
            assert(self.roots@.take(k + 1).drop_last() == self.roots@.take(k as int));
            let take = match kind {
                RootKind::All => true,
                RootKind::Raw => matches!(self.roots[k].1, RootCategory::Raw(..)),
                RootKind::Derivative => !matches!(self.roots[k].1, RootCategory::Raw(..)),
            };
            if take {
                let root = match &self.roots[k].1 {
                    RootCategory::Raw(r) => r,
                    RootCategory::Derivative(r) => r,
                    RootCategory::Labelled(_, r) => r,
                };
                out.push((self.roots[k].0.clone(), root.get_range().copy()));
            }
            k = k + 1;
        }
        assert(self.roots@.take(k as int) == self.roots@);
        out
    }

    /// The keys and ranges of all roots.
    pub fn items(&self) -> (r: Vec<(String, MultiRange)>)
        ensures
            r@.len() == keys_where(self.roots@, RootKind::All).len(),
            forall|k: int| 0 <= k < r@.len() ==> (#[trigger] r@[k]).0@ == keys_where(self.roots@, RootKind::All)[k],
    {
        self.items_of(RootKind::All)
    }

    /// The keys and ranges of the raw roots.
    pub fn raw_items(&self) -> (r: Vec<(String, MultiRange)>)
        ensures
            r@.len() == keys_where(self.roots@, RootKind::Raw).len(),
            forall|k: int| 0 <= k < r@.len() ==> (#[trigger] r@[k]).0@ == keys_where(self.roots@, RootKind::Raw)[k],
    {
        self.items_of(RootKind::Raw)
    }

    /// The keys and ranges of the derivative roots.
    pub fn derivative_items(&self) -> (r: Vec<(String, MultiRange)>)
        ensures
            r@.len() == keys_where(self.roots@, RootKind::Derivative).len(),
            forall|k: int| 0 <= k < r@.len() ==> (#[trigger] r@[k]).0@ == keys_where(self.roots@, RootKind::Derivative)[k],
    {
        self.items_of(RootKind::Derivative)
    }

    /// The ids under any root.
    pub fn into_set(&self) -> (r: MultiRange)
        requires
            self.wf(),
        ensures
            r.wf(),
            r@ == roots_set(self.roots@),
    {
        let mut acc = MultiRange::new();
        let mut k: usize = 0;
        while k < self.roots.len()
            invariant
                k <= self.roots@.len(),
                self.wf(),
                acc.wf(),
                acc@ == roots_set(self.roots@.take(k as int)),
            decreases self.roots@.len() - k,
        {
            assert(self.roots@.take(k + 1).drop_last() == self.roots@.take(k as int));
            let root = match &self.roots[k].1 {
                RootCategory::Raw(r) => r,
                RootCategory::Derivative(r) => r,
                RootCategory::Labelled(_, r) => r,
            };
            assert(cat_root(self.roots@[k as int].1).wf());
            acc.extend(root.get_range());
            k = k + 1;
        }
        assert(self.roots@.take(k as int) == self.roots@);
        acc
    }
}

/// Whether `p` is the key of a root of `s`.
pub open spec fn is_key(s: Seq<(String, RootCategory)>, p: Seq<char>) -> bool {
    exists|i: int| 0 <= i < s.len() && (#[trigger] s[i]).0@ == p
}

/// Whether the root `key` is selected by `pats`: named exactly, or matched by a pattern
/// that names no root.
pub open spec fn root_selected(all: Seq<(String, RootCategory)>, pats: Seq<Seq<char>>, key: Seq<char>) -> bool {
    pats.contains(key) || exists|j: int|
        0 <= j < pats.len() && !is_key(all, pats[j]) && #[trigger] glob_matches(pats[j], key)
}

/// The entries of `s` that `pats` selects, in order.
pub open spec fn selected_entries(
    s: Seq<(String, RootCategory)>,
    all: Seq<(String, RootCategory)>,
    pats: Seq<Seq<char>>,
) -> Seq<Seq<char>>
    decreases s.len(),
{
    if s.len() == 0 {
        seq![]
    } else {
        let rest = selected_entries(s.drop_last(), all, pats);
        if root_selected(all, pats, s.last().0@) {
            rest.push(s.last().0@)
        } else {
            rest
        }
    }
}

/// The ids under the entries of `s` that `pats` selects.
pub open spec fn selected_set(
    s: Seq<(String, RootCategory)>,
    all: Seq<(String, RootCategory)>,
    pats: Seq<Seq<char>>,
) -> Set<int>
    decreases s.len(),
{
    if s.len() == 0 {
        Set::empty()
    } else {
        let rest = selected_set(s.drop_last(), all, pats);
        if root_selected(all, pats, s.last().0@) {
            rest.union(cat_root(s.last().1).range_spec()@)
        } else {
            rest
        }
    }
}

/// The same category with a new root inside.
pub open spec fn recategorized(label: RootLabel, r: DatasetRoot) -> RootCategory {
    match label {
        RootLabel::Raw => RootCategory::Raw(r),
        RootLabel::DerivativeUnlabelled => RootCategory::Derivative(r),
        RootLabel::DerivativeLabelled(l) => RootCategory::Labelled(l, r),
    }
}

impl MultiRange {
    /// A copy with the same ranges.
    pub fn copy(&self) -> (r: MultiRange)
        ensures
            r.ranges@ == self.ranges@,
    {
        let mut ranges: Vec<Span> = Vec::new();
        let mut k: usize = 0;
        while k < self.ranges.len()
            invariant
                k <= self.ranges@.len(),
                ranges@ == self.ranges@.take(k as int),
            decreases self.ranges@.len() - k,
        {
            ranges.push(self.ranges[k]);
            k = k + 1;
            assert(ranges@ =~= self.ranges@.take(k as int));
        }
        assert(self.ranges@.take(k as int) == self.ranges@);
        MultiRange { ranges }
    }
}

impl DatasetRoot {
    /// A copy with the same ranges; the description is cloned.
    pub fn copy(&self) -> (r: DatasetRoot)
        ensures
            r.range_spec().ranges@ == self.range_spec().ranges@,
            r.roottype is DatasetRoot <==> self.roottype is DatasetRoot,
    {
        match &self.roottype {
            RootType::DatasetRoot(d, ranges) => DatasetRoot { roottype: RootType::DatasetRoot(d.clone(), ranges.copy()) },
            RootType::SeedRoot(ranges) => DatasetRoot { roottype: RootType::SeedRoot(ranges.copy()) },
        }
    }
}

/// A copy of a category with the same kind, label and ranges.
pub fn copy_category(c: &RootCategory) -> (r: RootCategory)
    ensures
        cat_root(r).range_spec().ranges@ == cat_root(*c).range_spec().ranges@,
        cat_root(r).roottype is DatasetRoot <==> cat_root(*c).roottype is DatasetRoot,
        r is Raw <==> c is Raw,
        r is Derivative <==> c is Derivative,
        c matches RootCategory::Labelled(l, _) ==> r matches RootCategory::Labelled(m, _) && m@ == l@,
{
    match c {
        RootCategory::Raw(r) => RootCategory::Raw(r.copy()),
        RootCategory::Derivative(r) => RootCategory::Derivative(r.copy()),
        RootCategory::Labelled(l, r) => RootCategory::Labelled(l.clone(), r.copy()),
    }
}

/// What `scopes` selects, taken in order: `raw` or `self` the raw roots, `derivatives` the
/// derivative ones, a label or a pipeline name the roots it names; `all` stops with no
/// restriction. A scope that names nothing adds nothing.
pub open spec fn scope_keys(s: Seq<(String, RootCategory)>, scopes: Seq<Seq<char>>, acc: Seq<Seq<char>>) -> Option<Seq<Seq<char>>>
    decreases scopes.len(),
{
    if scopes.len() == 0 {
        Some(acc)
    } else {
        let sc = scopes[0];
        let rest = scopes.drop_first();
        if sc == "raw"@ || sc == "self"@ {
            scope_keys(s, rest, acc + keys_where(s, RootKind::Raw))
        } else if sc == "derivatives"@ {
            scope_keys(s, rest, acc + keys_where(s, RootKind::Derivative))
        } else if sc == "all"@ {
            None
        } else if keys_labelled(s, sc).len() > 0 {
            scope_keys(s, rest, acc + keys_labelled(s, sc))
        } else {
            scope_keys(s, rest, acc + keys_by_pipeline(s, sc))
        }
    }
}

fn append_strings(out: &mut Vec<String>, more: Vec<String>)
    ensures
        strings_view(final(out)@) == strings_view(old(out)@) + strings_view(more@),
{
    let ghost o = strings_view(out@);
    let mut k: usize = 0;
    while k < more.len()
        invariant
            k <= more@.len(),
            strings_view(out@) == o + strings_view(more@).take(k as int),
        decreases more@.len() - k,
    {
        let ghost before = out@;
        out.push(more[k].clone());
        assert(strings_view(more@).take(k + 1) =~= strings_view(more@).take(k as int).push(more@[k as int]@));
        assert(strings_view(out@) =~= strings_view(before).push(more@[k as int]@));
        k = k + 1;
        assert(strings_view(out@) =~= o + strings_view(more@).take(k as int));
    }
    assert(strings_view(more@).take(k as int) =~= strings_view(more@));
}

impl DatasetRoots {
    /// The root keys that `scopes` selects; `None` where one of them is `all`.
    pub fn get_scopes(&self, scopes: Vec<String>) -> (r: Result<Option<Vec<String>>, crate::layout::QueryErr>)
        ensures
            r matches Ok(o) && (o is None <==> scope_keys(self.roots@, strings_view(scopes@), seq![]) is None)
                && (o matches Some(v) ==> scope_keys(self.roots@, strings_view(scopes@), seq![]) == Some(strings_view(v@))),
    {
        let raw_s = "raw".to_owned();
        let self_s = "self".to_owned();
        let deriv_s = "derivatives".to_owned();
        let all_s = "all".to_owned();
        let mut result: Vec<String> = Vec::new();
        let ghost sv = strings_view(scopes@);
        let mut k: usize = 0;
        assert(sv.skip(0) == sv);
        assert(strings_view(result@) =~= seq![]);
        while k < scopes.len()
            invariant
                k <= scopes@.len(),
                sv == strings_view(scopes@),
                raw_s@ == "raw"@,
                self_s@ == "self"@,
                deriv_s@ == "derivatives"@,
                all_s@ == "all"@,
                scope_keys(self.roots@, sv, seq![]) == scope_keys(self.roots@, sv.skip(k as int), strings_view(result@)),
            decreases scopes@.len() - k,
        {
            let scope = &scopes[k];
            assert(sv.skip(k as int)[0] == scope@);
            assert(sv.skip(k as int).drop_first() == sv.skip(k + 1));
            if scope.eq(&raw_s) || scope.eq(&self_s) {
                append_strings(&mut result, self.raw_keys());
            } else if scope.eq(&deriv_s) {
                append_strings(&mut result, self.derivative_keys());
            } else if scope.eq(&all_s) {
                return Ok(None);
            } else {
                match self.find_by_label(scope) {
                    Some(labelled) => append_strings(&mut result, labelled),
                    None => match self.find_by_pipeline(scope) {
                        Some(pipelines) => append_strings(&mut result, pipelines),
                        None => {
                            assert(strings_view(result@) + keys_by_pipeline(self.roots@, scope@) =~= strings_view(result@));
                        },
                    },
                }
            }
            k = k + 1;
        }
        Ok(Some(result))
    }

    /// Changes the category of root `root`; `None` where there is no such root.
    pub fn set_category(&mut self, root: &String, category: RootLabel) -> (r: Option<()>)
        requires
            old(self).wf(),
        ensures
            final(self).wf(),
            r is None <==> !is_key(old(self).roots@, root@),
            final(self).roots@.len() == old(self).roots@.len(),
            forall|i: int| 0 <= i < old(self).roots@.len() ==> (#[trigger] final(self).roots@[i]).0 == old(self).roots@[i].0,
            forall|i: int| 0 <= i < old(self).roots@.len() && old(self).roots@[i].0@ != root@ ==> #[trigger] final(self).roots@[i] == old(self).roots@[i],
            forall|i: int| 0 <= i < old(self).roots@.len() && old(self).roots@[i].0@ == root@ ==> #[trigger] final(self).roots@[i].1 == recategorized(category, cat_root(old(self).roots@[i].1)),
    {
        let mut k: usize = 0;
        while k < self.roots.len()
            invariant
                k <= self.roots@.len(),
                *self == *old(self),
                old(self).wf(),
                forall|j: int| 0 <= j < k ==> (#[trigger] self.roots@[j]).0@ != root@,
            decreases self.roots@.len() - k,
        {
            if self.roots[k].0.eq(root) {
                let (key, cat) = self.roots.remove(k);
                assert(key == old(self).roots@[k as int].0);
                let inner = match cat {
                    RootCategory::Raw(r) => r,
                    RootCategory::Derivative(r) => r,
                    RootCategory::Labelled(_, r) => r,
                };
                let newcat = match category {
                    RootLabel::Raw => RootCategory::Raw(inner),
                    RootLabel::DerivativeUnlabelled => RootCategory::Derivative(inner),
                    RootLabel::DerivativeLabelled(l) => RootCategory::Labelled(l, inner),
                };
                self.roots.insert(k, (key, newcat));
                assert(self.roots@ =~= old(self).roots@.update(k as int, (key, newcat)));
                proof {
                    assert forall|a: int, b: int| 0 <= a < b < self.roots@.len() implies (#[trigger] self.roots@[a]).0@ != (#[trigger] self.roots@[b]).0@ by {
                        assert(self.roots@[a].0 == old(self).roots@[a].0);
                        assert(self.roots@[b].0 == old(self).roots@[b].0);
                    }
                    assert forall|i: int| 0 <= i < old(self).roots@.len() && old(self).roots@[i].0@ == root@ implies #[trigger] self.roots@[i].1 == recategorized(category, cat_root(old(self).roots@[i].1)) by {
                        if i != k {
                            assert(old(self).roots@[i].0@ != old(self).roots@[k as int].0@);
                        }
                    }
                }
                return Some(());
            }
            k = k + 1;
        }
        None
    }

    /// The roots that `patterns` selects: a pattern that is the key of a root selects it,
    /// any other is a glob. Fails where such a glob does not compile.
    pub fn glob_roots(&self, patterns: &Vec<String>) -> (r: Result<DatasetRoots, GlobErr>)
        requires
            self.wf(),
        ensures
            r is Ok <==> globs_compile(self.roots@, strings_view(patterns@)),
            r matches Ok(sel) ==> sel.wf() && keys_where(sel.roots@, RootKind::All) == selected_entries(self.roots@, self.roots@, strings_view(patterns@))
                && roots_set(sel.roots@) == selected_set(self.roots@, self.roots@, strings_view(patterns@)),
    {
        let ghost pats = strings_view(patterns@);
        let mut is_exact: Vec<bool> = Vec::new();
        let mut j: usize = 0;
        while j < patterns.len()
            invariant
                j <= patterns@.len(),
                pats == strings_view(patterns@),
                is_exact@.len() == j,
                forall|q: int| 0 <= q < j ==> (#[trigger] is_exact@[q] <==> is_key(self.roots@, pats[q])),
                forall|q: int| 0 <= q < j && !is_key(self.roots@, pats[q]) ==> glob_compiles(#[trigger] pats[q]),
            decreases patterns@.len() - j,
        {
            let exact = self.has_key(&patterns[j]);
            if !exact {
                match glob_match(patterns[j].as_str(), patterns[j].as_str()) {
                    Ok(_) => {},
                    Err(e) => {
                        assert(!glob_compiles(pats[j as int]));
                        return Err(GlobErr::Glob(e));
                    },
                }
            }
            is_exact.push(exact);
            j = j + 1;
        }
        let mut out: Vec<(String, RootCategory)> = Vec::new();
        let ghost mut idx: Seq<int> = seq![];
        let mut k: usize = 0;
        while k < self.roots.len()
            invariant
                k <= self.roots@.len(),
                self.wf(),
                pats == strings_view(patterns@),
                globs_compile(self.roots@, pats),
                is_exact@.len() == patterns@.len(),
                forall|q: int| 0 <= q < patterns@.len() ==> (#[trigger] is_exact@[q] <==> is_key(self.roots@, pats[q])),
                keys_where(out@, RootKind::All) == selected_entries(self.roots@.take(k as int), self.roots@, pats),
                roots_set(out@) == selected_set(self.roots@.take(k as int), self.roots@, pats),
                forall|i: int| 0 <= i < out@.len() ==> cat_root((#[trigger] out@[i]).1).wf(),
                idx.len() == out@.len(),
                forall|i: int| 0 <= i < idx.len() ==> 0 <= #[trigger] idx[i] < k,
                forall|i: int| 0 <= i < idx.len() ==> (#[trigger] out@[i]).0@ == self.roots@[idx[i]].0@,
                forall|a: int, b: int| 0 <= a < b < idx.len() ==> #[trigger] idx[a] < #[trigger] idx[b],
            decreases self.roots@.len() - k,
        {
            assert(self.roots@.take(k + 1).drop_last() == self.roots@.take(k as int));
            let key = &self.roots[k].0;
            let keep = match self.pattern_selects(patterns, &is_exact, key) {
                Ok(b) => b,
                Err(e) => {
                    return Err(GlobErr::Glob(e));
                },
            };
            if keep {
                let ghost before = out@;
                let cat = copy_category(&self.roots[k].1);
                assert(cat_root(self.roots@[k as int].1).wf());
                out.push((key.clone(), cat));
                proof {
                    assert(keys_where(out@, RootKind::All) =~= keys_where(before, RootKind::All).push(key@)) by {
                        assert(out@.drop_last() == before);
                    }
                    assert(out@.drop_last() == before);
                    let idx0 = idx;
                    idx = idx.push(k as int);
                    assert forall|a: int, b: int| 0 <= a < b < idx.len() implies #[trigger] idx[a] < #[trigger] idx[b] by {
                        if b < idx0.len() {
                            assert(idx[a] == idx0[a] && idx[b] == idx0[b]);
                        } else {
                            assert(idx[a] == idx0[a]);
                            assert(idx0[a] < k);
                        }
                    }
                    assert forall|i: int| 0 <= i < idx.len() implies 0 <= #[trigger] idx[i] < k + 1 by {
                        if i < idx0.len() {
                            assert(idx[i] == idx0[i]);
                        }
                    }
                    assert forall|i: int| 0 <= i < idx.len() implies (#[trigger] out@[i]).0@ == self.roots@[idx[i]].0@ by {
                        if i < before.len() {
                            assert(out@[i] == before[i]);
                            assert(idx[i] == idx0[i]);
                        }
                    }
                }
            }
            k = k + 1;
        }
        assert(self.roots@.take(k as int) == self.roots@);
        let sel = DatasetRoots { roots: out };
        proof {
            assert forall|a: int, b: int| 0 <= a < b < sel.roots@.len() implies (#[trigger] sel.roots@[a]).0@ != (#[trigger] sel.roots@[b]).0@ by {
                assert(idx[a] < idx[b]);
                assert(0 <= idx[a] < k && 0 <= idx[b] < k);
                assert(self.roots@[idx[a]].0@ != self.roots@[idx[b]].0@);
            }
        }
        Ok(sel)
    }

    /// The ids under the roots that `patterns` selects, given those roots.
    pub fn glob_set(&self, patterns: &Vec<String>, sel: &DatasetRoots) -> (r: MultiRange)
        requires
            sel.wf(),
            roots_set(sel.roots@) == selected_set(self.roots@, self.roots@, strings_view(patterns@)),
        ensures
            r.wf(),
            r@ == selected_set(self.roots@, self.roots@, strings_view(patterns@)),
    {
        sel.into_set()
    }

    /// Whether some root has key `p`.
    pub fn has_key(&self, p: &String) -> (r: bool)
        ensures
            r == is_key(self.roots@, p@),
    {
        let mut k: usize = 0;
        while k < self.roots.len()
            invariant
                k <= self.roots@.len(),
                forall|j: int| 0 <= j < k ==> (#[trigger] self.roots@[j]).0@ != p@,
            decreases self.roots@.len() - k,
        {
            if self.roots[k].0.eq(p) {
                return true;
            }
            k = k + 1;
        }
        false
    }

    fn pattern_selects(&self, patterns: &Vec<String>, is_exact: &Vec<bool>, key: &String) -> (r: Result<bool, globset::Error>)
        requires
            is_exact@.len() == patterns@.len(),
            forall|q: int| 0 <= q < patterns@.len() ==> (#[trigger] is_exact@[q] <==> is_key(self.roots@, strings_view(patterns@)[q])),
        ensures
            r matches Ok(b) ==> b == root_selected(self.roots@, strings_view(patterns@), key@),
            globs_compile(self.roots@, strings_view(patterns@)) ==> r is Ok,
    {
        let ghost pats = strings_view(patterns@);
        if contains_string(patterns, key) {
            return Ok(true);
        }
        let mut j: usize = 0;
        while j < patterns.len()
            invariant
                j <= patterns@.len(),
                pats == strings_view(patterns@),
                !pats.contains(key@),
                is_exact@.len() == patterns@.len(),
                forall|q: int| 0 <= q < patterns@.len() ==> (#[trigger] is_exact@[q] <==> is_key(self.roots@, pats[q])),
                forall|q: int| 0 <= q < j ==> !(!is_key(self.roots@, pats[q]) && #[trigger] glob_matches(pats[q], key@)),
            decreases patterns@.len() - j,
        {
            if !is_exact[j] {
                match glob_match(patterns[j].as_str(), key.as_str()) {
                    Ok(true) => {
                        assert(!is_key(self.roots@, pats[j as int]) && glob_matches(pats[j as int], key@));
                        return Ok(true);
                    },
                    Ok(false) => {},
                    Err(e) => {
                        assert(!glob_compiles(pats[j as int]));
                        return Err(e);
                    },
                }
            }
            j = j + 1;
        }
        Ok(false)
    }
}

/// Whether `s` is among `list`.
pub fn contains_string(list: &Vec<String>, s: &String) -> (r: bool)
    ensures
        r == strings_view(list@).contains(s@),
{
    let mut k: usize = 0;
    while k < list.len()
        invariant
            k <= list@.len(),
            forall|j: int| 0 <= j < k ==> (#[trigger] list@[j])@ != s@,
        decreases list@.len() - k,
    {
        if list[k].eq(s) {
            assert(strings_view(list@)[k as int] == s@);
            return true;
        }
        k = k + 1;
    }
    assert forall|j: int| 0 <= j < strings_view(list@).len() implies strings_view(list@)[j] != s@ by {
        assert(list@[j]@ != s@);
    }
    false
}

} // verus!
