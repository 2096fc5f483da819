use vstd::prelude::*;

verus! {

/// The declaration a cache file begins with: `<?rsbids version="1.0">` and a newline.
pub open spec fn declaration() -> Seq<u8> {
    seq![60u8, 63u8, 114u8, 115u8, 98u8, 105u8, 100u8, 115u8, 32u8, 118u8, 101u8, 114u8, 115u8, 105u8, 111u8, 110u8, 61u8, 34u8, 49u8, 46u8, 48u8, 34u8, 62u8, 10u8]
}

/// The declaration a cache file begins with.
pub fn declaration_bytes() -> (r: Vec<u8>)
    ensures
        r@ == declaration(),
{
    let r = vec![60u8, 63u8, 114u8, 115u8, 98u8, 105u8, 100u8, 115u8, 32u8, 118u8, 101u8, 114u8, 115u8, 105u8, 111u8, 110u8, 61u8, 34u8, 49u8, 46u8, 48u8, 34u8, 62u8, 10u8];
    assert(r@ =~= declaration());
    r
}

/// Why a cache could not be used.
#[derive(Debug)]
pub enum CacheErr {
    /// The file does not begin with the declaration.
    NotACache,
    /// Reading, writing or decoding failed; holds the message.
    Io(String),
}

/// A cache file: the declaration, then the encoded layout.
pub fn frame_cache(encoded: &Vec<u8>) -> (r: Vec<u8>)
    ensures
        r@ == declaration() + encoded@,
{
    let mut out = declaration_bytes();
    let mut k: usize = 0;
    while k < encoded.len()
        invariant
            k <= encoded@.len(),
            out@ == declaration() + encoded@.take(k as int),
        decreases encoded@.len() - k,
    {
        out.push(encoded[k]);
        k = k + 1;
        assert(out@ =~= declaration() + encoded@.take(k as int));
    }
    assert(encoded@.take(k as int) == encoded@);
    out
}

/// The encoded layout of a cache file; fails where the file does not begin with the
/// declaration.
pub fn unframe_cache(data: &[u8]) -> (r: Result<Vec<u8>, CacheErr>)
    ensures
        r is Ok <==> data@.len() >= declaration().len() && data@.subrange(0, declaration().len() as int) == declaration(),
        r matches Ok(body) ==> body@ == data@.subrange(declaration().len() as int, data@.len() as int),
        r matches Err(e) ==> e is NotACache,
{
    let decl = declaration_bytes();
    let n = decl.len();
    if data.len() < n {
        return Err(CacheErr::NotACache);
    }
    let mut i: usize = 0;
    while i < n
        invariant
            i <= n == decl@.len() <= data@.len(),
            decl@ == declaration(),
            forall|j: int| 0 <= j < i ==> data@[j] == decl@[j],
        decreases n - i,
    {
        if data[i] != decl[i] {
            assert(data@.subrange(0, n as int)[i as int] != declaration()[i as int]);
            return Err(CacheErr::NotACache);
        }
        i = i + 1;
    }
    assert(data@.subrange(0, n as int) =~= declaration());
    let body = crate::primitives::copy_range(data, &crate::primitives::Span { start: n, end: data.len() });
    Ok(body)
}

/// A framed cache reads back as what was framed.
pub proof fn law_cache_round_trip(encoded: Seq<u8>)
    ensures
        (declaration() + encoded).subrange(0, declaration().len() as int) == declaration(),
        (declaration() + encoded).subrange(declaration().len() as int, (declaration() + encoded).len() as int) == encoded,
{
    assert((declaration() + encoded).subrange(0, declaration().len() as int) =~= declaration());
    assert((declaration() + encoded).subrange(declaration().len() as int, (declaration() + encoded).len() as int) =~= encoded);
}

} // verus!
