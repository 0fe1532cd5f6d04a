use vstd::prelude::*;
use crate::text::str_equals;

verus! {

/// A file possibly nested inside several archives: the content hash of a
/// downloaded archive, then one path inside each archive extracted so far.
/// An empty `path` names the downloaded archive itself.
pub struct ArchiveHashPath {
    pub source_hash: u64,
    pub path: Vec<String>,
}

/// The value an `ArchiveHashPath` stands for.
pub struct HashPathView {
    pub source_hash: u64,
    pub path: Seq<Seq<char>>,
}

impl View for ArchiveHashPath {
    type V = HashPathView;

    open spec fn view(&self) -> HashPathView {
        HashPathView { source_hash: self.source_hash, path: self.path@.map_values(|s: String| s@) }
    }
}

/// `a` is `b` or one of the archives that `b` is extracted from.
pub open spec fn is_prefix(a: HashPathView, b: HashPathView) -> bool {
    &&& a.source_hash == b.source_hash
    &&& a.path.len() <= b.path.len()
    &&& b.path.subrange(0, a.path.len() as int) == a.path
}

/// The archive that `p` is extracted from, and the path inside it.
pub open spec fn parent_of(p: HashPathView) -> Option<(HashPathView, Seq<char>)> {
    if p.path.len() == 0 {
        None
    } else {
        Some((HashPathView { source_hash: p.source_hash, path: p.path.drop_last() }, p.path.last()))
    }
}

impl ArchiveHashPath {
    /// A copy with the same hash and path.
    pub fn duplicate(&self) -> (r: ArchiveHashPath)
        ensures
            r@ == self@,
    {
        let mut path: Vec<String> = Vec::new();
        let mut i: usize = 0;
        while i < self.path.len()
            invariant
                i <= self.path@.len(),
                path@.len() == i,
                forall|k: int| 0 <= k < i ==> path@[k]@ == self.path@[k]@,
            decreases self.path.len() - i,
        {
            path.push(self.path[i].clone());
            i = i + 1;
        }
        proof {
            assert(path@.map_values(|s: String| s@) =~= self.path@.map_values(|s: String| s@));
        }
        ArchiveHashPath { source_hash: self.source_hash, path }
    }

    /// Splits off the last inner path: the archive this one is extracted
    /// from, and the path inside it. `None` for a downloaded archive.
    pub fn parent(self) -> (r: Option<(ArchiveHashPath, String)>)
        ensures
            match r {
                Some((p, last)) => parent_of(self@) == Some((p@, last@)),
                None => parent_of(self@) is None,
            },
    {
        let ArchiveHashPath { source_hash, mut path } = self;
        match path.pop() {
            Some(last) => {
                proof {
                    assert(path@.map_values(|s: String| s@) =~= self@.path.drop_last());
                }
                Some((ArchiveHashPath { source_hash, path }, last))
            },
            None => None,
        }
    }

    /// Whether both name the same file.
    pub fn same_as(&self, other: &ArchiveHashPath) -> (r: bool)
        ensures
            r == (self@ == other@),
    {
        if self.source_hash != other.source_hash || self.path.len() != other.path.len() {
            proof {
                if self@ == other@ {
                    assert(self@.path.len() == other@.path.len());
                }
            }
            return false;
        }
        proof {
            if self@ == other@ {
                assert(other@.path.subrange(0, other@.path.len() as int) =~= other@.path);
            }
        }
        self.is_prefix_of(other)
    }

    /// Whether `self` is `other` or one of the archives it is extracted from.
    pub fn is_prefix_of(&self, other: &ArchiveHashPath) -> (r: bool)
        ensures
            r == is_prefix(self@, other@),
            r && self@.path.len() == other@.path.len() ==> self@ == other@,
    {
        if self.source_hash != other.source_hash || self.path.len() > other.path.len() {
            return false;
        }
        let n = self.path.len();
        let mut i: usize = 0;
        while i < n
            invariant
                n == self.path@.len(),
                n <= other.path@.len(),
                i <= n,
                forall|k: int| 0 <= k < i ==> self@.path[k] == other@.path[k],
            decreases n - i,
        {
            if !str_equals(self.path[i].as_str(), other.path[i].as_str()) {
                proof {
                    assert(other@.path.subrange(0, n as int)[i as int] == other@.path[i as int]);
                }
                return false;
            }
            i = i + 1;
        }
        proof {
            assert(other@.path.subrange(0, n as int) =~= self@.path);
            if n == other.path@.len() {
                assert(other@.path =~= other@.path.subrange(0, n as int));
            }
        }
        true
    }
}

} // verus!
