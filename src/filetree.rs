use crate::entity_table::lemma_push_contains;
use crate::primitives::same_bytes;
use vstd::prelude::*;

verus! {

/// Whether directory `key` lies in directory `dir` (or is it): `dir` is `key`, or a prefix of
/// it that ends at a separator.
pub open spec fn within(dir: Seq<u8>, key: Seq<u8>) -> bool {
    key == dir || (dir.len() < key.len() && key.subrange(0, dir.len() as int) == dir && (
    (dir.len() > 0 && dir.last() == 47u8) || key[dir.len() as int] == 47u8))
}

/// The files of a corpus by the directory that holds them.
#[derive(Debug, Clone)]
pub struct FileTree {
    pub dirs: Vec<(Vec<u8>, Vec<usize>)>,
}

impl FileTree {
    /// Whether file `id` was inserted under directory `dir`.
    pub open spec fn has(&self, dir: Seq<u8>, id: usize) -> bool {
        exists|k: int| 0 <= k < self.dirs@.len() && (#[trigger] self.dirs@[k]).0@ == dir && self.dirs@[k].1@.contains(id)
    }

    pub fn new() -> (r: FileTree)
        ensures
            forall|d: Seq<u8>, id: usize| !#[trigger] r.has(d, id),
    {
        FileTree { dirs: Vec::new() }
    }

    /// Records file `file` in directory `dir`.
    pub fn insert(&mut self, dir: &[u8], file: usize)
        ensures
            forall|d: Seq<u8>, id: usize| #[trigger] final(self).has(d, id) <==> old(self).has(d, id) || (d == dir@ && id == file),
    {
        let n = self.dirs.len();
        let mut k: usize = n;
        while k > 0
            invariant
                k <= n == self.dirs@.len(),
                *self == *old(self),
                forall|j: int| k <= j < n ==> (#[trigger] self.dirs@[j]).0@ != dir@,
            decreases k,
        {
            if same_bytes(self.dirs[k - 1].0.as_slice(), dir) {
                let (key, mut ids) = self.dirs.remove(k - 1);
                let ghost ids0 = ids@;
                ids.push(file);
                self.dirs.insert(k - 1, (key, ids));
                proof {
                    assert(self.dirs@ =~= old(self).dirs@.update(k - 1, (key, ids)));
                    assert forall|d: Seq<u8>, id: usize| #[trigger] self.has(d, id) <==> old(self).has(d, id) || (d == dir@ && id == file) by {
                        lemma_push_contains(ids0, file, id);
                        if self.has(d, id) {
                            let j = choose|j: int| 0 <= j < self.dirs@.len() && (#[trigger] self.dirs@[j]).0@ == d && self.dirs@[j].1@.contains(id);
                            if j != k - 1 {
                                assert(old(self).dirs@[j] == self.dirs@[j]);
                            }
                        }
                        if old(self).has(d, id) {
                            let j = choose|j: int| 0 <= j < old(self).dirs@.len() && (#[trigger] old(self).dirs@[j]).0@ == d && old(self).dirs@[j].1@.contains(id);
                            if j != k - 1 {
                                assert(old(self).dirs@[j] == self.dirs@[j]);
                            }
                        }
                        if d == dir@ && id == file {
                            assert(self.dirs@[k - 1].1@.contains(id));
                        }
                    }
                }
                return;
            }
            k = k - 1;
        }
        let v = vec![file];
        let key = vstd::slice::slice_to_vec(dir);
        self.dirs.push((key, v));
        proof {
            assert forall|d: Seq<u8>, id: usize| #[trigger] self.has(d, id) <==> old(self).has(d, id) || (d == dir@ && id == file) by {
                if self.has(d, id) {
                    let j = choose|j: int| 0 <= j < self.dirs@.len() && (#[trigger] self.dirs@[j]).0@ == d && self.dirs@[j].1@.contains(id);
                    if j < n {
                        assert(old(self).dirs@[j] == self.dirs@[j]);
                    } else {
                        lemma_push_contains(seq![], file, id);
                        assert(seq![file] == Seq::<usize>::empty().push(file));
                    }
                }
                if old(self).has(d, id) {
                    let j = choose|j: int| 0 <= j < old(self).dirs@.len() && (#[trigger] old(self).dirs@[j]).0@ == d && old(self).dirs@[j].1@.contains(id);
                    assert(old(self).dirs@[j] == self.dirs@[j]);
                }
                if d == dir@ && id == file {
                    assert(self.dirs@[n as int].1@[0] == file);
                    assert(self.dirs@[n as int].1@.contains(id));
                }
            }
        }
    }

    /// Marks, among ids below `n`, the files in `dir` or below it.
    pub fn get_subfiles(&self, dir: &[u8], n: usize) -> (r: Vec<bool>)
        ensures
            r@.len() == n,
            forall|i: int| 0 <= i < n ==> (#[trigger] r@[i] <==> exists|d: Seq<u8>| within(dir@, d) && #[trigger] self.has(d, i as usize)),
    {
        let mut m = crate::entity_table::vec_of(n, false);
        let mut k: usize = 0;
        while k < self.dirs.len()
            invariant
                k <= self.dirs@.len(),
                m@.len() == n,
                forall|i: int| 0 <= i < n ==> (#[trigger] m@[i] <==> exists|j: int| 0 <= j < k && within(dir@, (#[trigger] self.dirs@[j]).0@) && self.dirs@[j].1@.contains(i as usize)),
            decreases self.dirs@.len() - k,
        {
            if is_within(dir, self.dirs[k].0.as_slice()) {
                let ids = &self.dirs[k].1;
                let ghost m0 = m@;
                let mut q: usize = 0;
                while q < ids.len()
                    invariant
                        q <= ids@.len(),
                        m@.len() == n,
                        *ids == self.dirs@[k as int].1,
                        forall|i: int| 0 <= i < n ==> (#[trigger] m@[i] <==> (m0[i] || ids@.take(q as int).contains(i as usize))),
                    decreases ids@.len() - q,
                {
                    let x = ids[q];
                    if x < n {
                        m.set(x, true);
                    }
                    proof {
                        assert(ids@.take(q + 1) == ids@.take(q as int).push(x));
                        assert forall|y: usize| #[trigger] ids@.take(q + 1).contains(y) <==> ids@.take(q as int).contains(y) || y == x by {
                            lemma_push_contains(ids@.take(q as int), x, y);
                        }
                    }
                    q = q + 1;
                }
                assert(ids@.take(ids@.len() as int) == ids@);
                proof {
                    assert forall|i: int| 0 <= i < n implies (#[trigger] m@[i] <==> exists|j: int| 0 <= j < k + 1 && within(dir@, (#[trigger] self.dirs@[j]).0@) && self.dirs@[j].1@.contains(i as usize)) by {
                        if m@[i] && !m0[i] {
                            assert(self.dirs@[k as int].1@.contains(i as usize));
                        }
                    }
                }
            }
            k = k + 1;
        }
        proof {
            assert forall|i: int| 0 <= i < n implies (#[trigger] m@[i] <==> exists|d: Seq<u8>| within(dir@, d) && #[trigger] self.has(d, i as usize)) by {
                if m@[i] {
                    let j = choose|j: int| 0 <= j < self.dirs@.len() && within(dir@, (#[trigger] self.dirs@[j]).0@) && self.dirs@[j].1@.contains(i as usize);
                    assert(self.has(self.dirs@[j].0@, i as usize));
                }
                if exists|d: Seq<u8>| within(dir@, d) && #[trigger] self.has(d, i as usize) {
                    let d = choose|d: Seq<u8>| within(dir@, d) && #[trigger] self.has(d, i as usize);
                    let j = choose|j: int| 0 <= j < self.dirs@.len() && (#[trigger] self.dirs@[j]).0@ == d && self.dirs@[j].1@.contains(i as usize);
                }
            }
        }
        m
    }
}

/// Whether directory `key` lies in `dir`.
pub fn is_within(dir: &[u8], key: &[u8]) -> (r: bool)
    ensures
        r == within(dir@, key@),
{
    if same_bytes(dir, key) {
        return true;
    }
    if dir.len() >= key.len() {
        return false;
    }
    let mut i: usize = 0;
    while i < dir.len()
        invariant
            i <= dir@.len() < key@.len(),
            forall|j: int| 0 <= j < i ==> dir@[j] == key@[j],
        decreases dir@.len() - i,
    {
        if dir[i] != key[i] {
            assert(key@.subrange(0, dir@.len() as int)[i as int] != dir@[i as int]);
            return false;
        }
        i = i + 1;
    }
    assert(key@.subrange(0, dir@.len() as int) =~= dir@);
    (dir.len() > 0 && dir[dir.len() - 1] == 47u8) || key[dir.len()] == 47u8
}

} // verus!
