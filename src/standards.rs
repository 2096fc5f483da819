use crate::bidspath::pairs_view;
use crate::primitives::same_bytes;
use vstd::prelude::*;

verus! {

/// The recognised entities, short key first and long key second.
pub open spec fn alias_pairs() -> Seq<(Seq<u8>, Seq<u8>)> {
    seq![
        (seq![115u8, 117u8, 98u8], seq![115u8, 117u8, 98u8, 106u8, 101u8, 99u8, 116u8]),
        (seq![115u8, 101u8, 115u8], seq![115u8, 101u8, 115u8, 115u8, 105u8, 111u8, 110u8]),
        (seq![100u8, 97u8, 116u8, 97u8, 116u8, 121u8, 112u8, 101u8], seq![100u8, 97u8, 116u8, 97u8, 116u8, 121u8, 112u8, 101u8]),
        (seq![101u8, 120u8, 116u8, 101u8, 110u8, 115u8, 105u8, 111u8, 110u8], seq![101u8, 120u8, 116u8, 101u8, 110u8, 115u8, 105u8, 111u8, 110u8]),
        (seq![115u8, 117u8, 102u8, 102u8, 105u8, 120u8], seq![115u8, 117u8, 102u8, 102u8, 105u8, 120u8]),
        (seq![115u8, 97u8, 109u8, 112u8, 108u8, 101u8], seq![115u8, 97u8, 109u8, 112u8, 108u8, 101u8]),
        (seq![116u8, 97u8, 115u8, 107u8], seq![116u8, 97u8, 115u8, 107u8]),
        (seq![116u8, 114u8, 97u8, 99u8, 107u8, 115u8, 121u8, 115u8], seq![116u8, 114u8, 97u8, 99u8, 107u8, 115u8, 121u8, 115u8]),
        (seq![97u8, 99u8, 113u8], seq![97u8, 99u8, 113u8, 117u8, 105u8, 115u8, 105u8, 116u8, 105u8, 111u8, 110u8]),
        (seq![99u8, 101u8], seq![99u8, 101u8, 97u8, 103u8, 101u8, 110u8, 116u8]),
        (seq![115u8, 116u8, 97u8, 105u8, 110u8], seq![115u8, 116u8, 97u8, 105u8, 110u8, 105u8, 110u8, 103u8]),
        (seq![116u8, 114u8, 99u8], seq![116u8, 114u8, 97u8, 99u8, 101u8, 114u8]),
        (seq![114u8, 101u8, 99u8], seq![114u8, 101u8, 99u8, 111u8, 110u8, 115u8, 116u8, 114u8, 117u8, 99u8, 116u8, 105u8, 111u8, 110u8]),
        (seq![100u8, 105u8, 114u8], seq![100u8, 105u8, 114u8, 101u8, 99u8, 116u8, 105u8, 111u8, 110u8]),
        (seq![114u8, 117u8, 110u8], seq![114u8, 117u8, 110u8]),
        (seq![112u8, 114u8, 111u8, 99u8], seq![112u8, 114u8, 111u8, 99u8]),
        (seq![109u8, 111u8, 100u8], seq![109u8, 111u8, 100u8, 97u8, 108u8, 105u8, 116u8, 121u8]),
        (seq![101u8, 99u8, 104u8, 111u8], seq![101u8, 99u8, 104u8, 111u8]),
        (seq![102u8, 108u8, 105u8, 112u8], seq![102u8, 108u8, 105u8, 112u8]),
        (seq![105u8, 110u8, 118u8], seq![105u8, 110u8, 118u8]),
        (seq![109u8, 116u8], seq![109u8, 116u8]),
        (seq![112u8, 97u8, 114u8, 116u8], seq![112u8, 97u8, 114u8, 116u8]),
        (seq![114u8, 101u8, 99u8, 111u8, 114u8, 100u8, 105u8, 110u8, 103u8], seq![114u8, 101u8, 99u8, 111u8, 114u8, 100u8, 105u8, 110u8, 103u8]),
        (seq![115u8, 112u8, 97u8, 99u8, 101u8], seq![115u8, 112u8, 97u8, 99u8, 101u8]),
        (seq![99u8, 104u8, 117u8, 110u8, 107u8], seq![99u8, 104u8, 117u8, 110u8, 107u8]),
        (seq![115u8, 112u8, 108u8, 105u8, 116u8], seq![115u8, 112u8, 108u8, 105u8, 116u8]),
        (seq![97u8, 116u8, 108u8, 97u8, 115u8], seq![97u8, 116u8, 108u8, 97u8, 115u8]),
        (seq![114u8, 111u8, 105u8], seq![114u8, 111u8, 105u8]),
        (seq![108u8, 97u8, 98u8, 101u8, 108u8], seq![108u8, 97u8, 98u8, 101u8, 108u8]),
        (seq![102u8, 114u8, 111u8, 109u8], seq![102u8, 114u8, 111u8, 109u8]),
        (seq![116u8, 111u8], seq![116u8, 111u8]),
        (seq![109u8, 111u8, 100u8, 101u8], seq![109u8, 111u8, 100u8, 101u8]),
        (seq![104u8, 101u8, 109u8, 105u8], seq![104u8, 101u8, 109u8, 105u8, 115u8, 112u8, 104u8, 101u8, 114u8, 101u8]),
        (seq![114u8, 101u8, 115u8], seq![114u8, 101u8, 115u8]),
        (seq![100u8, 101u8, 110u8], seq![100u8, 101u8, 110u8, 115u8, 105u8, 116u8, 121u8]),
        (seq![109u8, 111u8, 100u8, 101u8, 108u8], seq![109u8, 111u8, 100u8, 101u8, 108u8]),
        (seq![115u8, 117u8, 98u8, 115u8, 101u8, 116u8], seq![115u8, 117u8, 98u8, 115u8, 101u8, 116u8]),
        (seq![100u8, 101u8, 115u8, 99u8], seq![100u8, 101u8, 115u8, 99u8, 114u8, 105u8, 112u8, 116u8, 105u8, 111u8, 110u8])
    ]
}

/// The recognised datatype directory names.
pub open spec fn datatype_names() -> Seq<Seq<u8>> {
    seq![
        seq![97u8, 110u8, 97u8, 116u8],
        seq![98u8, 101u8, 104u8],
        seq![100u8, 119u8, 105u8],
        seq![101u8, 101u8, 103u8],
        seq![102u8, 109u8, 97u8, 112u8],
        seq![102u8, 117u8, 110u8, 99u8],
        seq![105u8, 101u8, 101u8, 103u8],
        seq![109u8, 101u8, 103u8],
        seq![109u8, 111u8, 116u8, 105u8, 111u8, 110u8],
        seq![109u8, 105u8, 99u8, 114u8],
        seq![110u8, 105u8, 114u8, 115u8],
        seq![112u8, 101u8, 114u8, 102u8],
        seq![112u8, 101u8, 116u8]
    ]
}

/// The long key paired with short key `k`, by the first row that has it.
pub open spec fn find_left(tab: Seq<(Seq<u8>, Seq<u8>)>, k: Seq<u8>) -> Option<Seq<u8>>
    decreases tab.len(),
{
    if tab.len() == 0 {
        None
    } else if tab[0].0 == k {
        Some(tab[0].1)
    } else {
        find_left(tab.drop_first(), k)
    }
}

/// The short key paired with long key `k`, by the first row that has it.
pub open spec fn find_right(tab: Seq<(Seq<u8>, Seq<u8>)>, k: Seq<u8>) -> Option<Seq<u8>>
    decreases tab.len(),
{
    if tab.len() == 0 {
        None
    } else if tab[0].1 == k {
        Some(tab[0].0)
    } else {
        find_right(tab.drop_first(), k)
    }
}

/// The long form of an entity key; a key without one stands for itself.
pub open spec fn long_key(k: Seq<u8>) -> Seq<u8> {
    match find_left(alias_pairs(), k) {
        Some(l) => l,
        None => k,
    }
}

/// The short form of a long entity key, where it is one.
pub open spec fn short_key(k: Seq<u8>) -> Option<Seq<u8>> {
    find_right(alias_pairs(), k)
}

/// Whether `k` is a recognised short entity key.
pub open spec fn is_entity(k: Seq<u8>) -> bool {
    find_left(alias_pairs(), k) is Some
}

/// Whether `d` is a recognised datatype.
pub open spec fn is_datatype(d: Seq<u8>) -> bool {
    datatype_names().contains(d)
}

/// The table of recognised entities.
pub fn entity_aliases() -> (r: Vec<(Vec<u8>, Vec<u8>)>)
    ensures
        pairs_view(r@) == alias_pairs(),
{
    let mut out: Vec<(Vec<u8>, Vec<u8>)> = Vec::new();
    // sub / subject
    out.push((vec![115u8, 117u8, 98u8], vec![115u8, 117u8, 98u8, 106u8, 101u8, 99u8, 116u8]));
    // ses / session
    out.push((vec![115u8, 101u8, 115u8], vec![115u8, 101u8, 115u8, 115u8, 105u8, 111u8, 110u8]));
    // datatype / datatype
    out.push((vec![100u8, 97u8, 116u8, 97u8, 116u8, 121u8, 112u8, 101u8], vec![100u8, 97u8, 116u8, 97u8, 116u8, 121u8, 112u8, 101u8]));
    // extension / extension
    out.push((vec![101u8, 120u8, 116u8, 101u8, 110u8, 115u8, 105u8, 111u8, 110u8], vec![101u8, 120u8, 116u8, 101u8, 110u8, 115u8, 105u8, 111u8, 110u8]));
    // suffix / suffix
    out.push((vec![115u8, 117u8, 102u8, 102u8, 105u8, 120u8], vec![115u8, 117u8, 102u8, 102u8, 105u8, 120u8]));
    // sample / sample
    out.push((vec![115u8, 97u8, 109u8, 112u8, 108u8, 101u8], vec![115u8, 97u8, 109u8, 112u8, 108u8, 101u8]));
    // task / task
    out.push((vec![116u8, 97u8, 115u8, 107u8], vec![116u8, 97u8, 115u8, 107u8]));
    // tracksys / tracksys
    out.push((vec![116u8, 114u8, 97u8, 99u8, 107u8, 115u8, 121u8, 115u8], vec![116u8, 114u8, 97u8, 99u8, 107u8, 115u8, 121u8, 115u8]));
    // acq / acquisition
    out.push((vec![97u8, 99u8, 113u8], vec![97u8, 99u8, 113u8, 117u8, 105u8, 115u8, 105u8, 116u8, 105u8, 111u8, 110u8]));
    // ce / ceagent
    out.push((vec![99u8, 101u8], vec![99u8, 101u8, 97u8, 103u8, 101u8, 110u8, 116u8]));
    // stain / staining
    out.push((vec![115u8, 116u8, 97u8, 105u8, 110u8], vec![115u8, 116u8, 97u8, 105u8, 110u8, 105u8, 110u8, 103u8]));
    // trc / tracer
    out.push((vec![116u8, 114u8, 99u8], vec![116u8, 114u8, 97u8, 99u8, 101u8, 114u8]));
    // rec / reconstruction
    out.push((vec![114u8, 101u8, 99u8], vec![114u8, 101u8, 99u8, 111u8, 110u8, 115u8, 116u8, 114u8, 117u8, 99u8, 116u8, 105u8, 111u8, 110u8]));
    // dir / direction
    out.push((vec![100u8, 105u8, 114u8], vec![100u8, 105u8, 114u8, 101u8, 99u8, 116u8, 105u8, 111u8, 110u8]));
    // run / run
    out.push((vec![114u8, 117u8, 110u8], vec![114u8, 117u8, 110u8]));
    // proc / proc
    out.push((vec![112u8, 114u8, 111u8, 99u8], vec![112u8, 114u8, 111u8, 99u8]));
    // mod / modality
    out.push((vec![109u8, 111u8, 100u8], vec![109u8, 111u8, 100u8, 97u8, 108u8, 105u8, 116u8, 121u8]));
    // echo / echo
    out.push((vec![101u8, 99u8, 104u8, 111u8], vec![101u8, 99u8, 104u8, 111u8]));
    // flip / flip
    out.push((vec![102u8, 108u8, 105u8, 112u8], vec![102u8, 108u8, 105u8, 112u8]));
    // inv / inv
    out.push((vec![105u8, 110u8, 118u8], vec![105u8, 110u8, 118u8]));
    // mt / mt
    out.push((vec![109u8, 116u8], vec![109u8, 116u8]));
    // part / part
    out.push((vec![112u8, 97u8, 114u8, 116u8], vec![112u8, 97u8, 114u8, 116u8]));
    // recording / recording
    out.push((vec![114u8, 101u8, 99u8, 111u8, 114u8, 100u8, 105u8, 110u8, 103u8], vec![114u8, 101u8, 99u8, 111u8, 114u8, 100u8, 105u8, 110u8, 103u8]));
    // space / space
    out.push((vec![115u8, 112u8, 97u8, 99u8, 101u8], vec![115u8, 112u8, 97u8, 99u8, 101u8]));
    // chunk / chunk
    out.push((vec![99u8, 104u8, 117u8, 110u8, 107u8], vec![99u8, 104u8, 117u8, 110u8, 107u8]));
    // split / split
    out.push((vec![115u8, 112u8, 108u8, 105u8, 116u8], vec![115u8, 112u8, 108u8, 105u8, 116u8]));
    // atlas / atlas
    out.push((vec![97u8, 116u8, 108u8, 97u8, 115u8], vec![97u8, 116u8, 108u8, 97u8, 115u8]));
    // roi / roi
    out.push((vec![114u8, 111u8, 105u8], vec![114u8, 111u8, 105u8]));
    // label / label
    out.push((vec![108u8, 97u8, 98u8, 101u8, 108u8], vec![108u8, 97u8, 98u8, 101u8, 108u8]));
    // from / from
    out.push((vec![102u8, 114u8, 111u8, 109u8], vec![102u8, 114u8, 111u8, 109u8]));
    // to / to
    out.push((vec![116u8, 111u8], vec![116u8, 111u8]));
    // mode / mode
    out.push((vec![109u8, 111u8, 100u8, 101u8], vec![109u8, 111u8, 100u8, 101u8]));
    // hemi / hemisphere
    out.push((vec![104u8, 101u8, 109u8, 105u8], vec![104u8, 101u8, 109u8, 105u8, 115u8, 112u8, 104u8, 101u8, 114u8, 101u8]));
    // res / res
    out.push((vec![114u8, 101u8, 115u8], vec![114u8, 101u8, 115u8]));
    // den / density
    out.push((vec![100u8, 101u8, 110u8], vec![100u8, 101u8, 110u8, 115u8, 105u8, 116u8, 121u8]));
    // model / model
    out.push((vec![109u8, 111u8, 100u8, 101u8, 108u8], vec![109u8, 111u8, 100u8, 101u8, 108u8]));
    // subset / subset
    out.push((vec![115u8, 117u8, 98u8, 115u8, 101u8, 116u8], vec![115u8, 117u8, 98u8, 115u8, 101u8, 116u8]));
    // desc / description
    out.push((vec![100u8, 101u8, 115u8, 99u8], vec![100u8, 101u8, 115u8, 99u8, 114u8, 105u8, 112u8, 116u8, 105u8, 111u8, 110u8]));
    assert(pairs_view(out@) =~= alias_pairs());
    out
}

/// The table of recognised datatypes.
pub fn datatypes() -> (r: Vec<Vec<u8>>)
    ensures
        r@.len() == datatype_names().len(),
        forall|i: int| 0 <= i < r@.len() ==> (#[trigger] r@[i])@ == datatype_names()[i],
{
    let mut out: Vec<Vec<u8>> = Vec::new();
    // anat
    out.push(vec![97u8, 110u8, 97u8, 116u8]);
    // beh
    out.push(vec![98u8, 101u8, 104u8]);
    // dwi
    out.push(vec![100u8, 119u8, 105u8]);
    // eeg
    out.push(vec![101u8, 101u8, 103u8]);
    // fmap
    out.push(vec![102u8, 109u8, 97u8, 112u8]);
    // func
    out.push(vec![102u8, 117u8, 110u8, 99u8]);
    // ieeg
    out.push(vec![105u8, 101u8, 101u8, 103u8]);
    // meg
    out.push(vec![109u8, 101u8, 103u8]);
    // motion
    out.push(vec![109u8, 111u8, 116u8, 105u8, 111u8, 110u8]);
    // micr
    out.push(vec![109u8, 105u8, 99u8, 114u8]);
    // nirs
    out.push(vec![110u8, 105u8, 114u8, 115u8]);
    // perf
    out.push(vec![112u8, 101u8, 114u8, 102u8]);
    // pet
    out.push(vec![112u8, 101u8, 116u8]);
    out
}

fn lookup_left(tab: &Vec<(Vec<u8>, Vec<u8>)>, key: &[u8]) -> (r: Option<Vec<u8>>)
    ensures
        r matches Some(v) ==> find_left(pairs_view(tab@), key@) == Some(v@),
        r is None <==> find_left(pairs_view(tab@), key@) is None,
{
    let ghost full = pairs_view(tab@);
    assert(full.skip(0) == full);
    let mut i: usize = 0;
    while i < tab.len()
        invariant
            i <= tab@.len(),
            full == pairs_view(tab@),
            find_left(full, key@) == find_left(full.skip(i as int), key@),
        decreases tab@.len() - i,
    {
        let row = &tab[i];
        assert(full.skip(i as int)[0] == full[i as int]);
        assert(full.skip(i as int).drop_first() == full.skip(i + 1));
        if same_bytes(row.0.as_slice(), key) {
            return Some(row.1.clone());
        }
        i = i + 1;
    }
    None
}

fn lookup_right(tab: &Vec<(Vec<u8>, Vec<u8>)>, key: &[u8]) -> (r: Option<Vec<u8>>)
    ensures
        r matches Some(v) ==> find_right(pairs_view(tab@), key@) == Some(v@),
        r is None <==> find_right(pairs_view(tab@), key@) is None,
{
    let ghost full = pairs_view(tab@);
    assert(full.skip(0) == full);
    let mut i: usize = 0;
    while i < tab.len()
        invariant
            i <= tab@.len(),
            full == pairs_view(tab@),
            find_right(full, key@) == find_right(full.skip(i as int), key@),
        decreases tab@.len() - i,
    {
        let row = &tab[i];
        assert(full.skip(i as int)[0] == full[i as int]);
        assert(full.skip(i as int).drop_first() == full.skip(i + 1));
        if same_bytes(row.1.as_slice(), key) {
            return Some(row.0.clone());
        }
        i = i + 1;
    }
    None
}

/// The long form of an entity key, or the key itself where it has none.
pub fn get_key_alias(key: &[u8]) -> (r: Vec<u8>)
    ensures
        r@ == long_key(key@),
{
    match lookup_left(&entity_aliases(), key) {
        Some(v) => v,
        None => vstd::slice::slice_to_vec(key),
    }
}

/// The short form of a long entity key, where it is one.
pub fn deref_key_alias(key: &[u8]) -> (r: Option<Vec<u8>>)
    ensures
        r is None <==> short_key(key@) is None,
        r matches Some(v) ==> short_key(key@) == Some(v@),
{
    lookup_right(&entity_aliases(), key)
}

/// Whether `entity` is a recognised short entity key.
pub fn check_entity(entity: &[u8]) -> (r: bool)
    ensures
        r == is_entity(entity@),
{
    lookup_left(&entity_aliases(), entity).is_some()
}

/// Whether `datatype` is a recognised datatype name.
pub fn check_datatype(datatype: &[u8]) -> (r: bool)
    ensures
        r == is_datatype(datatype@),
{
    let names = datatypes();
    let mut i: usize = 0;
    while i < names.len()
        invariant
            i <= names@.len(),
            names@.len() == datatype_names().len(),
            forall|j: int| 0 <= j < names@.len() ==> (#[trigger] names@[j])@ == datatype_names()[j],
            forall|j: int| 0 <= j < i ==> datatype_names()[j] != datatype@,
        decreases names@.len() - i,
    {
        if same_bytes(names[i].as_slice(), datatype) {
            assert(datatype_names()[i as int] == datatype@);
            return true;
        }
        i = i + 1;
    }
    false
}

} // verus!
