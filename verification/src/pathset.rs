//! Sets of paths.
use crate::path::{components, FilePath};
use vstd::prelude::*;

verus! {

/// The components of each of the paths.
pub open spec fn path_keys(paths: Seq<FilePath>) -> Seq<Seq<Seq<u8>>> {
    Seq::new(paths.len(), |i: int| components(paths[i]@))
}

/// A set of paths, told apart by their components.
#[derive(Debug)]
pub struct PathSet {
    paths: Vec<FilePath>,
}

impl View for PathSet {
    type V = Set<Seq<Seq<u8>>>;

    closed spec fn view(&self) -> Set<Seq<Seq<u8>>> {
        path_keys(self.paths@).to_set()
    }
}

impl PathSet {
    /// Whether no path is held twice.
    pub closed spec fn wf(&self) -> bool {
        path_keys(self.paths@).no_duplicates()
    }

    /// The empty set.
    pub fn new() -> (out: PathSet)
        ensures
            out.wf(),
            out@ == Set::<Seq<Seq<u8>>>::empty(),
    {
        let out = PathSet { paths: Vec::new() };
        assert(path_keys(out.paths@) =~= Seq::empty());
        assert(out@ =~= Set::empty());
        out
    }

    /// The number of paths in the set.
    pub fn len(&self) -> (n: usize)
        requires
            self.wf(),
        ensures
            n == self@.len(),
    {
        proof {
            path_keys(self.paths@).unique_seq_to_set();
        }
        self.paths.len()
    }

    /// Whether the set is empty.
    pub fn is_empty(&self) -> (empty: bool)
        requires
            self.wf(),
        ensures
            empty == (self@ == Set::<Seq<Seq<u8>>>::empty()),
    {
        proof {
            let keys = path_keys(self.paths@);
            if keys.len() > 0 {
                assert(keys.contains(keys[0]));
                assert(self@.contains(keys[0]));
            } else {
                assert(self@ =~= Set::empty());
            }
        }
        self.paths.len() == 0
    }

    /// Where a path stands, if it is in the set.
    fn position(&self, path: &FilePath) -> (out: Option<usize>)
        ensures
            out is Some <==> self@.contains(components(path@)),
            out is Some ==> out->0 < self.paths@.len() && components(self.paths@[out->0 as int]@)
                == components(path@),
    {
        let ghost keys = path_keys(self.paths@);
        let ghost key = components(path@);
        let mut i: usize = 0;
        while i < self.paths.len()
            invariant
                i <= self.paths.len(),
                keys == path_keys(self.paths@),
                key == components(path@),
                forall|j: int| 0 <= j < i ==> keys[j] != key,
            decreases self.paths.len() - i,
        {
            if self.paths[i].same(path) {
                assert(keys[i as int] == key);
                assert(keys.contains(key));
                return Some(i);
            }
            assert(keys[i as int] != key);
            i += 1;
        }
        assert(!keys.contains(key));
        None
    }

    /// Whether a path is in the set.
    pub fn contains(&self, path: &FilePath) -> (found: bool)
        ensures
            found == self@.contains(components(path@)),
    {
        match self.position(path) {
            Some(_) => true,
            None => false,
        }
    }

    /// Puts a path into the set.
    pub fn insert(&mut self, path: FilePath)
        requires
            old(self).wf(),
        ensures
            final(self).wf(),
            final(self)@ == old(self)@.insert(components(path@)),
    {
        let ghost keys = path_keys(self.paths@);
        let ghost key = components(path@);
        if self.contains(&path) {
            assert(self@ =~= self@.insert(key));
        } else {
            self.paths.push(path);
            proof {
                let after = path_keys(self.paths@);
                assert(after =~= keys.push(key));
                assert(!keys.contains(key));
                assert forall|i: int, j: int|
                    0 <= i < after.len() && 0 <= j < after.len() && i != j implies after[i]
                    != after[j] by {
                    if i < keys.len() {
                        assert(keys.contains(keys[i]));
                    }
                    if j < keys.len() {
                        assert(keys.contains(keys[j]));
                    }
                }
                assert forall|k: Seq<Seq<u8>>| after.to_set().contains(k)
                    == keys.to_set().insert(key).contains(k) by {
                    if keys.contains(k) {
                        let i = choose|i: int| 0 <= i < keys.len() && keys[i] == k;
                        assert(after[i] == k);
                    }
                    if k == key {
                        assert(after[keys.len() as int] == k);
                    }
                }
                assert(self@ =~= old(self)@.insert(key));
            }
        }
    }

    /// Takes a path out of the set.
    pub fn remove(&mut self, path: &FilePath)
        requires
            old(self).wf(),
        ensures
            final(self).wf(),
            final(self)@ == old(self)@.remove(components(path@)),
    {
        let ghost keys = path_keys(self.paths@);
        let ghost key = components(path@);
        match self.position(path) {
            None => {
                assert(self@ =~= self@.remove(key));
            },
            Some(at) => {
                let _ = self.paths.remove(at);
                proof {
                    let after = path_keys(self.paths@);
                    assert(after =~= keys.remove(at as int));
                    assert forall|i: int, j: int|
                        0 <= i < after.len() && 0 <= j < after.len() && i != j implies after[i]
                        != after[j] by {
                        let from_i = if i < at { i } else { i + 1 };
                        let from_j = if j < at { j } else { j + 1 };
                        assert(keys[from_i] == after[i] && keys[from_j] == after[j]);
                    }
                    assert forall|k: Seq<Seq<u8>>| after.to_set().contains(k)
                        == keys.to_set().remove(key).contains(k) by {
                        if after.contains(k) {
                            let i = choose|i: int| 0 <= i < after.len() && after[i] == k;
                            let from = if i < at { i } else { i + 1 };
                            assert(keys[from] == k);
                            assert(keys[at as int] == key);
                        }
                        if keys.contains(k) && k != key {
                            let i = choose|i: int| 0 <= i < keys.len() && keys[i] == k;
                            let to = if i < at { i } else { i - 1 };
                            assert(after[to] == k);
                        }
                    }
                    assert(self@ =~= old(self)@.remove(key));
                }
            },
        }
    }

    /// Takes all paths out of the set.
    pub fn clear(&mut self)
        ensures
            final(self).wf(),
            final(self)@ == Set::<Seq<Seq<u8>>>::empty(),
    {
        self.paths.clear();
        assert(path_keys(self.paths@) =~= Seq::empty());
        assert(self@ =~= Set::empty());
    }
}

} // verus!
