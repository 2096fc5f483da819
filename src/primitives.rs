use vstd::prelude::*;

verus! {

/// A half-open byte range `start..end` into a path.
#[derive(Debug, Clone, Copy, PartialEq, Eq, Structural)]
pub struct Span {
    pub start: usize,
    pub end: usize,
}

/// Separators of the filename grammar: `_` between elements, `-` between a key and its value.
pub open spec fn is_sep(b: u8) -> bool {
    b == 95u8 || b == 45u8
}

/// A byte range `start..end` into a path, with the bounds it must respect.
pub open spec fn range_in(r: Span, len: int) -> bool {
    r.start <= r.end && r.end <= len
}

/// The bytes of `t` covered by `r`, cut at the end of `t`; empty where `r` is.
pub open spec fn slice_of(t: Seq<u8>, r: Span) -> Seq<u8> {
    let hi = if r.end <= t.len() { r.end as int } else { t.len() as int };
    if r.start < hi {
        t.subrange(r.start as int, hi)
    } else {
        seq![]
    }
}

/// Whether two byte strings hold the same bytes.
pub fn same_bytes(a: &[u8], b: &[u8]) -> (r: bool)
    ensures
        r == (a@ == b@),
{
    if a.len() != b.len() {
        return false;
    }
    let mut i: usize = 0;
    while i < a.len()
        invariant
            a@.len() == b@.len(),
            i <= a@.len(),
            forall|j: int| 0 <= j < i ==> a@[j] == b@[j],
        decreases a@.len() - i,
    {
        if a[i] != b[i] {
            return false;
        }
        i = i + 1;
    }
    assert(a@ =~= b@);
    true
}

/// Copy of the bytes of `t` within `r`.
pub fn copy_range(t: &[u8], r: &Span) -> (out: Vec<u8>)
    ensures
        out@ == slice_of(t@, *r),
{
    let mut out: Vec<u8> = Vec::new();
    let hi = if r.end <= t.len() { r.end } else { t.len() };
    if r.start >= hi {
        return out;
    }
    let mut i: usize = r.start;
    while i < hi
        invariant
            r.start <= i <= hi,
            hi <= t@.len(),
            out@ == t@.subrange(r.start as int, i as int),
        decreases hi - i,
    {
        out.push(t[i]);
        i = i + 1;
        assert(out@ =~= t@.subrange(r.start as int, i as int));
    }
    out
}

/// A `key-value` element: `slice` covers both, `delimiter` is the position of the `-`.
#[derive(Debug, Clone, Copy, PartialEq, Eq, Structural)]
pub struct KeyVal {
    pub slice: Span,
    pub delimiter: usize,
}

impl KeyVal {
    /// Well-formed within a path of `len` bytes: the delimiter lies inside the slice.
    pub open spec fn wf(&self, len: int) -> bool {
        self.slice.start <= self.delimiter < self.slice.end <= len
    }

    pub open spec fn key_spec(&self) -> Span {
        Span { start: self.slice.start, end: self.delimiter }
    }

    pub open spec fn val_spec(&self) -> Span {
        Span { start: if self.delimiter < usize::MAX { (self.delimiter + 1) as usize } else { self.delimiter }, end: self.slice.end }
    }

    pub fn new(slice: Span, delim: usize) -> (r: KeyVal)
        ensures
            r.slice == slice,
            r.delimiter == delim,
    {
        KeyVal { slice, delimiter: delim }
    }

    pub fn key_range(&self) -> (r: Span)
        ensures
            r == self.key_spec(),
    {
        Span { start: self.slice.start, end: self.delimiter }
    }

    pub fn val_range(&self) -> (r: Span)
        ensures
            r == self.val_spec(),
    {
        let start = if self.delimiter < usize::MAX { self.delimiter + 1 } else { self.delimiter };
        Span { start, end: self.slice.end }
    }

    /// The key's bytes in `template`.
    pub fn get_key(&self, template: &[u8]) -> (r: Vec<u8>)
        ensures
            r@ == slice_of(template@, self.key_spec()),
    {
        copy_range(template, &self.key_range())
    }

    /// The value's bytes in `template`.
    pub fn value(&self, template: &[u8]) -> (r: Vec<u8>)
        ensures
            r@ == slice_of(template@, self.val_spec()),
    {
        copy_range(template, &self.val_range())
    }

    /// Key and value bytes in `template`.
    pub fn get(&self, template: &[u8]) -> (r: (Vec<u8>, Vec<u8>))
        ensures
            r.0@ == slice_of(template@, self.key_spec()),
            r.1@ == slice_of(template@, self.val_spec()),
    {
        (self.get_key(template), self.value(template))
    }
}

/// What one path component is, by the elements it holds.
#[derive(Debug, Clone)]
pub enum ComponentType {
    /// A single suffix-like token (`anat`).
    ZeroType(Span),
    /// A single `key-value` (`sub-01`).
    OneType(KeyVal),
    /// Two or more elements: a filename.
    TwoType(Vec<Elements>),
}

/// An element of a component.
#[derive(Debug, Clone, Copy, PartialEq, Eq, Structural)]
pub enum Elements {
    KeyVal(KeyVal),
    Suffix(Span),
    Part(Span),
}

/// A raw token of a component, `(start, end)` in the path.
#[derive(Debug, Clone, Copy, PartialEq, Eq, Structural)]
pub enum Primitive {
    Value(usize, usize),
    Key(usize, usize),
    Suffix(usize, usize),
    Part(usize, usize),
}

/// What the last separator of a slice says of the token to its right.
#[derive(Debug, Clone, Copy, PartialEq, Eq, Structural)]
pub enum PrePrimitive {
    /// No separator: the whole slice is one token.
    Prefix,
    /// A `_` at the given offset.
    KeyLike(usize),
    /// A `-` at the given offset.
    ValueLike(usize),
}

} // verus!
