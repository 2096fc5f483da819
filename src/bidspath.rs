use crate::primitives::{copy_range, same_bytes, slice_of, KeyVal, Span};
use vstd::prelude::*;
use vstd::utf8::encode_utf8;

verus! {

/// A directory that may turn out to be a datatype, once the corpus is known.
#[derive(Debug, Clone, Copy, PartialEq, Eq, Structural)]
pub struct UnknownDatatype {
    pub value: Span,
    /// Whether the name is a known datatype or stands right above a filename.
    pub is_valid: bool,
}

impl UnknownDatatype {
    pub fn new(comp: Span, is_valid: bool) -> (r: UnknownDatatype)
        ensures
            r.value == comp,
            r.is_valid == is_valid,
    {
        UnknownDatatype { value: comp, is_valid }
    }
}

/// An uncertain datatype, linked to the key of the uncertain parent above it or not.
#[derive(Debug, Clone)]
pub enum UnknownDatatypeTypes {
    Linked(Vec<u8>, UnknownDatatype),
    Unlinked(UnknownDatatype),
}

impl UnknownDatatypeTypes {
    pub open spec fn datatype(&self) -> UnknownDatatype {
        match self {
            UnknownDatatypeTypes::Linked(_, d) => *d,
            UnknownDatatypeTypes::Unlinked(d) => *d,
        }
    }
}

/// The key and value bytes of `kv` in `t`.
pub open spec fn kv_pair(t: Seq<u8>, kv: KeyVal) -> (Seq<u8>, Seq<u8>) {
    (slice_of(t, kv.key_spec()), slice_of(t, kv.val_spec()))
}

/// Key/value pairs of a sequence of `key-value` elements.
pub open spec fn kv_pairs(t: Seq<u8>, s: Seq<KeyVal>) -> Seq<(Seq<u8>, Seq<u8>)> {
    Seq::new(s.len(), |i: int| kv_pair(t, s[i]))
}

/// Byte-string pairs, as sequences.
pub open spec fn pairs_view(v: Seq<(Vec<u8>, Vec<u8>)>) -> Seq<(Seq<u8>, Seq<u8>)> {
    Seq::new(v.len(), |i: int| (v[i].0@, v[i].1@))
}

/// The pair for an optional range, under a fixed key.
pub open spec fn opt_pair(t: Seq<u8>, key: Seq<u8>, r: Option<Span>) -> Seq<(Seq<u8>, Seq<u8>)> {
    match r {
        Some(s) => seq![(key, slice_of(t, s))],
        None => seq![],
    }
}

pub open spec fn datatype_key() -> Seq<u8> {
    seq![100u8, 97u8, 116u8, 97u8, 116u8, 121u8, 112u8, 101u8]
}

pub open spec fn suffix_key() -> Seq<u8> {
    seq![115u8, 117u8, 102u8, 102u8, 105u8, 120u8]
}

pub open spec fn extension_key() -> Seq<u8> {
    seq![101u8, 120u8, 116u8, 101u8, 110u8, 115u8, 105u8, 111u8, 110u8]
}

/// Whether `k` is among `known`.
pub open spec fn known_key(known: Seq<Vec<u8>>, k: Seq<u8>) -> bool {
    exists|i: int| 0 <= i < known.len() && (#[trigger] known[i])@ == k
}

/// The elements of `s` whose key is among `known`, in order.
pub open spec fn keep_known(t: Seq<u8>, s: Seq<KeyVal>, known: Seq<Vec<u8>>) -> Seq<KeyVal>
    decreases s.len(),
{
    if s.len() == 0 {
        seq![]
    } else {
        let rest = keep_known(t, s.drop_last(), known);
        if known_key(known, slice_of(t, s.last().key_spec())) {
            rest.push(s.last())
        } else {
            rest
        }
    }
}

/// The end of `r`, cut at `n`.
pub open spec fn clamp_end(r: Span, n: int) -> int {
    if r.end <= n { r.end as int } else { n }
}

/// Position of the first `.` in `t[a..b]`.
pub open spec fn first_dot(t: Seq<u8>, a: int, b: int) -> Option<int>
    decreases b - a,
{
    if a >= b {
        None
    } else if t[a] == 46u8 {
        Some(a)
    } else {
        first_dot(t, a + 1, b)
    }
}

/// A path with its annotations, each a byte range into the path.
#[derive(Debug, Clone)]
pub struct BidsPath {
    pub path: String,
    pub entities: Vec<KeyVal>,
    pub parts: Option<Vec<Span>>,
    pub suffix: Option<Span>,
    pub extension: Option<Span>,
    pub datatype: Option<Span>,
    pub parents: Vec<KeyVal>,
    pub head: usize,
    pub root: usize,
    pub depth: usize,
    pub uncertain_parents: Option<Vec<KeyVal>>,
    pub uncertain_datatypes: Option<Vec<UnknownDatatypeTypes>>,
}

impl BidsPath {
    /// The path's UTF-8 bytes, which every range refers to.
    pub open spec fn bytes(&self) -> Seq<u8> {
        encode_utf8(self.path@)
    }

    /// The entities a path exposes, in the order they are listed: parents, filename
    /// entities, then datatype, suffix and extension.
    pub open spec fn entity_pairs(&self) -> Seq<(Seq<u8>, Seq<u8>)> {
        let t = self.bytes();
        kv_pairs(t, self.parents@) + kv_pairs(t, self.entities@) + opt_pair(
            t,
            datatype_key(),
            self.datatype,
        ) + opt_pair(t, suffix_key(), self.suffix) + opt_pair(t, extension_key(), self.extension)
    }

    /// A fresh record: no annotation yet.
    pub open spec fn is_bare(&self) -> bool {
        &&& self.entities@.len() == 0
        &&& self.parts is None
        &&& self.suffix is None
        &&& self.extension is None
        &&& self.datatype is None
        &&& self.parents@.len() == 0
        &&& self.head == 0
        &&& self.uncertain_parents is None
        &&& self.uncertain_datatypes is None
    }

    pub fn new(path: String, root: usize, depth: usize) -> (r: BidsPath)
        ensures
            r.path@ == path@,
            r.root == root,
            r.depth == depth,
            r.is_bare(),
    {
        BidsPath {
            path,
            depth,
            head: 0,
            entities: Vec::new(),
            parts: None,
            suffix: None,
            extension: None,
            datatype: None,
            parents: Vec::new(),
            root,
            uncertain_parents: None,
            uncertain_datatypes: None,
        }
    }

    /// The path as a string.
    pub fn as_str(&self) -> (r: &str)
        ensures
            r@ == self.path@,
    {
        self.path.as_str()
    }

    /// The path's bytes.
    pub fn as_bytes(&self) -> (r: &[u8])
        ensures
            r@ == self.bytes(),
    {
        self.path.as_str().as_bytes()
    }

    pub fn add_uncertain_parent(&mut self, keyval: KeyVal)
        ensures
            final(self).uncertain_parents matches Some(u) && u@ == match old(self).uncertain_parents {
                Some(o) => o@.push(keyval),
                None => seq![keyval],
            },
            final(self).path == old(self).path,
            final(self).entity_pairs() == old(self).entity_pairs(),
            final(self).uncertain_datatypes == old(self).uncertain_datatypes,
            final(self).parts == old(self).parts,
            final(self).head == old(self).head,
            final(self).root == old(self).root,
            final(self).depth == old(self).depth,
            final(self).entities == old(self).entities,
            final(self).parents == old(self).parents,
            final(self).suffix == old(self).suffix,
            final(self).extension == old(self).extension,
            final(self).datatype == old(self).datatype,
    {
        match self.uncertain_parents.take() {
            Some(mut up) => {
                up.push(keyval);
                self.uncertain_parents = Some(up);
            },
            None => {
                self.uncertain_parents = Some(vec![keyval]);
            },
        }
    }

    /// Moves each uncertain parent whose key is among `parents` to the parents, and drops
    /// the others. Returns `None`, changing nothing, where there were none.
    pub fn update_parents(&mut self, parents: &Vec<Vec<u8>>) -> (r: Option<()>)
        ensures
            r is None <==> old(self).uncertain_parents is None,
            r is None ==> *final(self) == *old(self),
            old(self).uncertain_parents matches Some(u) ==> final(self).parents@ == old(self).parents@
                + keep_known(old(self).bytes(), u@, parents@),
            final(self).uncertain_parents is None,
            final(self).path == old(self).path,
            final(self).entities == old(self).entities,
            final(self).datatype == old(self).datatype,
            final(self).suffix == old(self).suffix,
            final(self).extension == old(self).extension,
            final(self).parts == old(self).parts,
            final(self).uncertain_datatypes == old(self).uncertain_datatypes,
            final(self).head == old(self).head,
            final(self).root == old(self).root,
            final(self).depth == old(self).depth,
    {
        let up = match self.uncertain_parents.take() {
            Some(up) => up,
            None => {
                return None;
            },
        };
        let bytes = self.path.as_str().as_bytes();
        let ghost t = self.bytes();
        let ghost kept0 = self.parents@;
        let n = bytes.len();
        let mut kept = self.parents.clone();
        assert(kept@ =~= kept0 + keep_known(t, up@.take(0), parents@));
        let mut i: usize = 0;
        while i < up.len()
            invariant
                i <= up@.len(),
                bytes@ == t,
                n == t.len(),
                kept@ == kept0 + keep_known(t, up@.take(i as int), parents@),
            decreases up@.len() - i,
        {
            let kv = up[i];
            let key = kv.get_key(bytes);
            let found = contains_bytes(parents, &key);
            proof {
                assert(up@.take(i + 1).drop_last() == up@.take(i as int));
                assert(up@.take(i + 1).last() == kv);
            }
            if found {
                kept.push(kv);
            }
            i = i + 1;
        }
        assert(up@.take(up@.len() as int) == up@);
        self.parents = kept;
        Some(())
    }

    /// The entities the path exposes, as key/value byte strings.
    pub fn get_entities(&self) -> (r: Vec<(Vec<u8>, Vec<u8>)>)
        ensures
            pairs_view(r@) == self.entity_pairs(),
    {
        let bytes = self.as_bytes();
        let ghost t = self.bytes();
        let mut out: Vec<(Vec<u8>, Vec<u8>)> = Vec::new();
        assert(pairs_view(out@) =~= seq![]);
        push_kv_pairs(&mut out, bytes, &self.parents);
        push_kv_pairs(&mut out, bytes, &self.entities);
        push_opt_pair(&mut out, bytes, datatype_name(), self.datatype);
        push_opt_pair(&mut out, bytes, suffix_name(), self.suffix);
        push_opt_pair(&mut out, bytes, extension_name(), self.extension);
        assert(pairs_view(out@) =~= self.entity_pairs());
        out
    }

    /// The uncertain parents as key/value byte strings, where there are any.
    pub fn get_uncertain_entities(&self) -> (r: Option<Vec<(Vec<u8>, Vec<u8>)>>)
        ensures
            r is None <==> self.uncertain_parents is None,
            self.uncertain_parents matches Some(u) ==> r matches Some(v) && pairs_view(v@)
                == kv_pairs(self.bytes(), u@),
    {
        match &self.uncertain_parents {
            Some(up) => {
                let mut out: Vec<(Vec<u8>, Vec<u8>)> = Vec::new();
                assert(pairs_view(out@) =~= seq![]);
                push_kv_pairs(&mut out, self.as_bytes(), up);
                assert(pairs_view(out@) =~= kv_pairs(self.bytes(), up@));
                Some(out)
            },
            None => None,
        }
    }

    /// The bytes of the root prefix.
    pub fn get_root(&self) -> (r: Vec<u8>)
        ensures
            r@ == slice_of(self.bytes(), Span { start: 0, end: self.root }),
    {
        copy_range(self.as_bytes(), &Span { start: 0, end: self.root })
    }

    /// The bytes of the head prefix.
    pub fn get_head(&self) -> (r: Vec<u8>)
        ensures
            r@ == slice_of(self.bytes(), Span { start: 0, end: self.head }),
    {
        copy_range(self.as_bytes(), &Span { start: 0, end: self.head })
    }

    pub fn push_uncertain_datatype(&mut self, datatype: UnknownDatatypeTypes)
        ensures
            final(self).uncertain_datatypes matches Some(u) && u@ == match old(
                self,
            ).uncertain_datatypes {
                Some(o) => o@.push(datatype),
                None => seq![datatype],
            },
            final(self).path == old(self).path,
            final(self).entity_pairs() == old(self).entity_pairs(),
            final(self).uncertain_parents == old(self).uncertain_parents,
            final(self).parts == old(self).parts,
            final(self).head == old(self).head,
            final(self).root == old(self).root,
            final(self).depth == old(self).depth,
            final(self).entities == old(self).entities,
            final(self).parents == old(self).parents,
            final(self).suffix == old(self).suffix,
            final(self).extension == old(self).extension,
            final(self).datatype == old(self).datatype,
    {
        match self.uncertain_datatypes.take() {
            Some(mut dt) => {
                dt.push(datatype);
                self.uncertain_datatypes = Some(dt);
            },
            None => {
                self.uncertain_datatypes = Some(vec![datatype]);
            },
        }
    }

    pub fn extend_parts(&mut self, part: Vec<Span>)
        ensures
            final(self).parts matches Some(p) && p@ == match old(self).parts {
                Some(o) => o@ + part@,
                None => part@,
            },
            final(self).path == old(self).path,
            final(self).entity_pairs() == old(self).entity_pairs(),
            final(self).uncertain_parents == old(self).uncertain_parents,
            final(self).uncertain_datatypes == old(self).uncertain_datatypes,
            final(self).head == old(self).head,
            final(self).root == old(self).root,
            final(self).depth == old(self).depth,
            final(self).entities == old(self).entities,
            final(self).parents == old(self).parents,
            final(self).suffix == old(self).suffix,
            final(self).extension == old(self).extension,
            final(self).datatype == old(self).datatype,
    {
        match self.parts.take() {
            Some(mut parts) => {
                let ghost o = parts@;
                let mut i: usize = 0;
                while i < part.len()
                    invariant
                        i <= part@.len(),
                        parts@ == o + part@.take(i as int),
                    decreases part@.len() - i,
                {
                    parts.push(part[i]);
                    i = i + 1;
                    assert(parts@ =~= o + part@.take(i as int));
                }
                assert(part@.take(part@.len() as int) == part@);
                self.parts = Some(parts);
            },
            None => {
                self.parts = Some(part);
            },
        }
    }

    pub fn push_part(&mut self, part: Span)
        ensures
            final(self).parts matches Some(p) && p@ == match old(self).parts {
                Some(o) => o@.push(part),
                None => seq![part],
            },
            final(self).path == old(self).path,
            final(self).entity_pairs() == old(self).entity_pairs(),
            final(self).uncertain_parents == old(self).uncertain_parents,
            final(self).uncertain_datatypes == old(self).uncertain_datatypes,
            final(self).head == old(self).head,
            final(self).root == old(self).root,
            final(self).depth == old(self).depth,
            final(self).entities == old(self).entities,
            final(self).parents == old(self).parents,
            final(self).suffix == old(self).suffix,
            final(self).extension == old(self).extension,
            final(self).datatype == old(self).datatype,
    {
        match self.parts.take() {
            Some(mut parts) => {
                parts.push(part);
                self.parts = Some(parts);
            },
            None => {
                self.parts = Some(vec![part]);
            },
        }
    }

    /// Splits `range` at its first `.` (within the path): `range` keeps what comes before,
    /// and the extension, from the `.` to the old end, is returned. Without a `.` nothing
    /// changes.
    pub fn extract_extension(&self, range: &mut Span) -> (r: Option<Span>)
        ensures
            r is None <==> first_dot(self.bytes(), old(range).start as int, clamp_end(*old(range), self.bytes().len() as int)) is None,
            r is None ==> *final(range) == *old(range),
            r matches Some(e) ==> first_dot(self.bytes(), old(range).start as int, clamp_end(*old(range), self.bytes().len() as int))
                == Some(e.start as int) && e.end == old(range).end && final(range).start == old(range).start
                && final(range).end == e.start && self.bytes()[e.start as int] == 46u8,
    {
        let bytes = self.as_bytes();
        let hi = if range.end <= bytes.len() { range.end } else { bytes.len() };
        let mut i: usize = range.start;
        while i < hi
            invariant
                range.start <= i,
                i < hi ==> i <= hi,
                hi <= bytes@.len(),
                hi == clamp_end(*old(range), bytes@.len() as int),
                *range == *old(range),
                bytes@ == self.bytes(),
                first_dot(bytes@, range.start as int, hi as int) == first_dot(bytes@, i as int, hi as int),
            decreases hi - i,
        {
            if bytes[i] == 46u8 {
                let end = range.end;
                range.end = i;
                return Some(Span { start: i, end });
            }
            i = i + 1;
        }
        None
    }

    /// The same path and root, with every annotation removed.
    pub fn clear(self) -> (r: BidsPath)
        ensures
            r.path@ == self.path@,
            r.root == self.root,
            r.depth == self.depth,
            r.is_bare(),
    {
        BidsPath::new(self.path, self.root, self.depth)
    }
}

/// Whether `key` is among `list`.
pub fn contains_bytes(list: &Vec<Vec<u8>>, key: &Vec<u8>) -> (r: bool)
    ensures
        r == known_key(list@, key@),
{
    let mut i: usize = 0;
    while i < list.len()
        invariant
            i <= list@.len(),
            forall|j: int| 0 <= j < i ==> (#[trigger] list@[j])@ != key@,
        decreases list@.len() - i,
    {
        if same_bytes(list[i].as_slice(), key.as_slice()) {
            return true;
        }
        i = i + 1;
    }
    false
}

fn push_kv_pairs(out: &mut Vec<(Vec<u8>, Vec<u8>)>, t: &[u8], kvs: &Vec<KeyVal>)
    ensures
        pairs_view(final(out)@) == pairs_view(old(out)@) + kv_pairs(t@, kvs@),
{
    let ghost o = pairs_view(out@);
    let mut i: usize = 0;
    while i < kvs.len()
        invariant
            i <= kvs@.len(),
            pairs_view(out@) == o + kv_pairs(t@, kvs@.take(i as int)),
        decreases kvs@.len() - i,
    {
        let kv = kvs[i];
        let pair = kv.get(t);
        let ghost before = out@;
        out.push(pair);
        i = i + 1;
        assert(pairs_view(out@) =~= pairs_view(before).push(kv_pair(t@, kv)));
        assert(kv_pairs(t@, kvs@.take(i as int)) =~= kv_pairs(t@, kvs@.take(i - 1)).push(kv_pair(t@, kv)));
        assert(pairs_view(out@) =~= o + kv_pairs(t@, kvs@.take(i as int)));
    }
    assert(kvs@.take(kvs@.len() as int) == kvs@);
}

fn push_opt_pair(out: &mut Vec<(Vec<u8>, Vec<u8>)>, t: &[u8], key: Vec<u8>, r: Option<Span>)
    ensures
        pairs_view(final(out)@) == pairs_view(old(out)@) + opt_pair(t@, key@, r),
{
    let ghost before = out@;
    if let Some(s) = r {
        let v = copy_range(t, &s);
        let ghost kv = key@;
        out.push((key, v));
        assert(pairs_view(out@) =~= pairs_view(before) + opt_pair(t@, kv, r));
    } else {
        assert(pairs_view(out@) =~= pairs_view(before) + opt_pair(t@, key@, r));
    }
}

pub fn datatype_name() -> (r: Vec<u8>)
    ensures
        r@ == datatype_key(),
{
    let r = vec![100u8, 97u8, 116u8, 97u8, 116u8, 121u8, 112u8, 101u8];
    assert(r@ =~= datatype_key());
    r
}

pub fn suffix_name() -> (r: Vec<u8>)
    ensures
        r@ == suffix_key(),
{
    let r = vec![115u8, 117u8, 102u8, 102u8, 105u8, 120u8];
    assert(r@ =~= suffix_key());
    r
}

pub fn extension_name() -> (r: Vec<u8>)
    ensures
        r@ == extension_key(),
{
    let r = vec![101u8, 120u8, 116u8, 101u8, 110u8, 115u8, 105u8, 111u8, 110u8];
    assert(r@ =~= extension_key());
    r
}

} // verus!

verus! {

/// A copy of a list of uncertain datatypes.
pub fn copy_udts(v: &Vec<UnknownDatatypeTypes>) -> (r: Vec<UnknownDatatypeTypes>)
    ensures
        r@.len() == v@.len(),
        forall|i: int| 0 <= i < v@.len() ==> (#[trigger] r@[i]).datatype() == v@[i].datatype(),
{
    let mut out: Vec<UnknownDatatypeTypes> = Vec::new();
    let mut k: usize = 0;
    while k < v.len()
        invariant
            k <= v@.len(),
            out@.len() == k,
            forall|i: int| 0 <= i < k ==> (#[trigger] out@[i]).datatype() == v@[i].datatype(),
        decreases v@.len() - k,
    {
        let d = match &v[k] {
            UnknownDatatypeTypes::Linked(key, d) => UnknownDatatypeTypes::Linked(key.clone(), *d),
            UnknownDatatypeTypes::Unlinked(d) => UnknownDatatypeTypes::Unlinked(*d),
        };
        out.push(d);
        k = k + 1;
    }
    out
}

fn copy_kvs(v: &Vec<KeyVal>) -> (r: Vec<KeyVal>)
    ensures
        r@ == v@,
{
    let mut out: Vec<KeyVal> = Vec::new();
    let mut k: usize = 0;
    while k < v.len()
        invariant
            k <= v@.len(),
            out@ == v@.take(k as int),
        decreases v@.len() - k,
    {
        out.push(v[k]);
        k = k + 1;
        assert(out@ =~= v@.take(k as int));
    }
    assert(v@.take(k as int) == v@);
    out
}

fn copy_spans(v: &Vec<Span>) -> (r: Vec<Span>)
    ensures
        r@ == v@,
{
    let mut out: Vec<Span> = Vec::new();
    let mut k: usize = 0;
    while k < v.len()
        invariant
            k <= v@.len(),
            out@ == v@.take(k as int),
        decreases v@.len() - k,
    {
        out.push(v[k]);
        k = k + 1;
        assert(out@ =~= v@.take(k as int));
    }
    assert(v@.take(k as int) == v@);
    out
}

impl BidsPath {
    /// A copy of the record.
    pub fn duplicate(&self) -> (r: BidsPath)
        ensures
            r.path == self.path,
            r.entities@ == self.entities@,
            r.parents@ == self.parents@,
            r.parts is Some <==> self.parts is Some,
            self.parts matches Some(p) ==> r.parts.unwrap()@ == p@,
            r.suffix == self.suffix,
            r.extension == self.extension,
            r.datatype == self.datatype,
            r.head == self.head,
            r.root == self.root,
            r.depth == self.depth,
            r.uncertain_parents is Some <==> self.uncertain_parents is Some,
            self.uncertain_parents matches Some(u) ==> r.uncertain_parents.unwrap()@ == u@,
            r.uncertain_datatypes is Some <==> self.uncertain_datatypes is Some,
    {
        BidsPath {
            path: self.path.clone(),
            entities: copy_kvs(&self.entities),
            parts: match &self.parts {
                Some(p) => Some(copy_spans(p)),
                None => None,
            },
            suffix: self.suffix,
            extension: self.extension,
            datatype: self.datatype,
            parents: copy_kvs(&self.parents),
            head: self.head,
            root: self.root,
            depth: self.depth,
            uncertain_parents: match &self.uncertain_parents {
                Some(u) => Some(copy_kvs(u)),
                None => None,
            },
            uncertain_datatypes: match &self.uncertain_datatypes {
                Some(u) => Some(copy_udts(u)),
                None => None,
            },
        }
    }
}

} // verus!
