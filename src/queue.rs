use vstd::prelude::*;
use crate::order::{lemma_text_less_transitive, lemma_text_less_trichotomy, text_before, text_less};
use crate::text::str_equals;

verus! {

/// A second file for an entry that an output archive already holds.
pub struct DuplicateOutputEntry {
    pub archive_path: String,
    pub inner_path: String,
}

/// The files waiting to go into one output archive, each under its path
/// inside the archive, and what the archive was declared with.
pub struct LazyArchive<M, F> {
    pub files: Vec<(String, F)>,
    pub archive_metadata: M,
}

/// No path occurs twice in `s`.
pub open spec fn distinct(s: Seq<Seq<char>>) -> bool {
    forall|i: int, j: int| 0 <= i < j < s.len() ==> s[i] != s[j]
}

impl<M, F> LazyArchive<M, F> {
    /// The paths inside the archive, in the order they were queued.
    pub open spec fn paths(&self) -> Seq<Seq<char>> {
        self.files@.map_values(|f: (String, F)| f.0@)
    }

    /// An archive with no file queued yet.
    pub fn new(metadata: M) -> (r: Self)
        ensures
            r.paths().len() == 0,
            r.archive_metadata == metadata,
    {
        LazyArchive { files: Vec::new(), archive_metadata: metadata }
    }

    /// Whether a file is queued under `path`.
    pub fn contains(&self, path: &str) -> (r: bool)
        ensures
            r == self.paths().contains(path@),
    {
        let mut i: usize = 0;
        while i < self.files.len()
            invariant
                i <= self.files@.len(),
                forall|k: int| 0 <= k < i ==> self.paths()[k] != path@,
            decreases self.files.len() - i,
        {
            if str_equals(self.files[i].0.as_str(), path) {
                proof {
                    assert(self.paths()[i as int] == path@);
                }
                return true;
            }
            i = i + 1;
        }
        false
    }

    /// Queues `file` under `archive_path`, unless a file is queued there
    /// already.
    pub fn insert(&mut self, archive_path: String, file: F) -> (r: Result<(), String>)
        ensures
            final(self).archive_metadata == old(self).archive_metadata,
            r is Err <==> old(self).paths().contains(archive_path@),
            match r {
                Ok(()) => final(self).paths() == old(self).paths().push(archive_path@) && final(self).files@
                    == old(self).files@.push((archive_path, file)),
                Err(p) => p@ == archive_path@ && final(self).files@ == old(self).files@ && final(self).paths()
                    == old(self).paths(),
            },
            distinct(old(self).paths()) ==> distinct(final(self).paths()),
    {
        if self.contains(archive_path.as_str()) {
            return Err(archive_path);
        }
        let ghost before = self.paths();
        self.files.push((archive_path, file));
        proof {
            assert(self.paths() =~= before.push(archive_path@));
        }
        Ok(())
    }
}

/// The output archives to build, each under its path on disk, in ascending
/// order of that path.
pub struct QueuedArchives<M, F> {
    pub archives: Vec<(String, LazyArchive<M, F>)>,
}

/// The queue as plain values: each output path with the paths queued in it.
pub type QueueView = Seq<(Seq<char>, Seq<Seq<char>>)>;

/// Where an archive at `out` goes among the sorted archives of `q`.
pub open spec fn sorted_slot(q: QueueView, out: Seq<char>, p: int) -> bool {
    &&& 0 <= p <= q.len()
    &&& forall|k: int| 0 <= k < p ==> text_less(#[trigger] q[k].0, out)
    &&& forall|k: int| p <= k < q.len() ==> text_less(out, #[trigger] q[k].0)
}

/// The queue once `inner` is queued into the archive at `out`: appended to
/// that archive's paths, or in a new archive at its sorted place.
pub open spec fn queued(q: QueueView, out: Seq<char>, inner: Seq<char>) -> QueueView {
    if exists|i: int| 0 <= i < q.len() && q[i].0 == out {
        let i = choose|i: int| 0 <= i < q.len() && q[i].0 == out;
        q.update(i, (out, q[i].1.push(inner)))
    } else {
        q.insert(choose|p: int| sorted_slot(q, out, p), (out, seq![inner]))
    }
}

/// Whether the archive at `out` already holds `inner`.
pub open spec fn already_queued(q: QueueView, out: Seq<char>, inner: Seq<char>) -> bool {
    exists|i: int| 0 <= i < q.len() && q[i].0 == out && q[i].1.contains(inner)
}

/// The output paths of `a` ascend strictly.
pub open spec fn ascending<M, F>(a: Seq<(String, LazyArchive<M, F>)>) -> bool {
    forall|i: int, j: int| 0 <= i < j < a.len() ==> text_less(a[i].0@, a[j].0@)
}

impl<M, F> QueuedArchives<M, F> {
    pub open spec fn view_of(&self) -> QueueView {
        self.archives@.map_values(|a: (String, LazyArchive<M, F>)| (a.0@, a.1.paths()))
    }

    /// Archives in ascending order of output path, hence one per path, and
    /// in each archive one file per path.
    pub open spec fn wf(&self) -> bool {
        &&& ascending(self.archives@)
        &&& forall|i: int| 0 <= i < self.archives@.len() ==> distinct(#[trigger] self.archives@[i].1.paths())
    }

    pub fn new() -> (r: Self)
        ensures
            r.wf(),
            r.view_of().len() == 0,
    {
        QueuedArchives { archives: Vec::new() }
    }

    /// Position of the first archive whose output path does not come before
    /// `output_path`.
    fn position(&self, output_path: &str) -> (r: usize)
        ensures
            r <= self.archives@.len(),
            forall|k: int| 0 <= k < r ==> text_less(#[trigger] self.archives@[k].0@, output_path@),
            r < self.archives@.len() ==> !text_less(self.archives@[r as int].0@, output_path@),
    {
        let mut i: usize = 0;
        while i < self.archives.len()
            invariant
                i <= self.archives@.len(),
                forall|k: int| 0 <= k < i ==> text_less(#[trigger] self.archives@[k].0@, output_path@),
            decreases self.archives.len() - i,
        {
            if !text_before(self.archives[i].0.as_str(), output_path) {
                return i;
            }
            i = i + 1;
        }
        i
    }

    /// Queues `file` under `inner` for the archive built at `output_path`;
    /// `metadata` describes that archive when it is the first file for it.
    /// A path queued twice into one archive is refused.
    pub fn insert(&mut self, output_path: String, metadata: M, inner: String, file: F) -> (r: Result<
        (),
        DuplicateOutputEntry,
    >)
        requires
            old(self).wf(),
        ensures
            final(self).wf(),
            r is Err <==> already_queued(old(self).view_of(), output_path@, inner@),
            match r {
                Ok(()) => {
                    &&& final(self).view_of() == queued(old(self).view_of(), output_path@, inner@)
                    &&& (exists|i: int| 0 <= i < old(self).archives@.len() && old(self).archives@[i].0@ == output_path@)
                        ==> exists|i: int|
                        0 <= i < old(self).archives@.len() && old(self).archives@[i].0@ == output_path@
                            && final(self).archives@ == old(self).archives@.update(i, final(self).archives@[i])
                            && final(self).archives@[i].0 == old(self).archives@[i].0
                            && final(self).archives@[i].1.files@ == old(self).archives@[i].1.files@.push((inner, file))
                            && final(self).archives@[i].1.archive_metadata == old(self).archives@[i].1.archive_metadata
                    &&& !(exists|i: int| 0 <= i < old(self).archives@.len() && old(self).archives@[i].0@ == output_path@)
                        ==> exists|p: int|
                        0 <= p <= old(self).archives@.len() && final(self).archives@ == old(self).archives@.insert(
                            p,
                            final(self).archives@[p],
                        ) && final(self).archives@[p].0@ == output_path@ && final(self).archives@[p].1.files@ == seq![
                            (inner, file),
                        ] && final(self).archives@[p].1.archive_metadata == metadata
                },
                Err(e) => {
                    &&& e.archive_path@ == output_path@ && e.inner_path@ == inner@
                    &&& final(self).archives@.len() == old(self).archives@.len()
                    &&& forall|k: int|
                        0 <= k < old(self).archives@.len() ==> #[trigger] final(self).archives@[k].0 == old(
                            self,
                        ).archives@[k].0 && final(self).archives@[k].1.files@ == old(self).archives@[k].1.files@
                            && final(self).archives@[k].1.archive_metadata == old(self).archives@[k].1.archive_metadata
                },
            },
    {
        let ghost q = self.view_of();
        let ghost before = self.archives@;
        let i = self.position(output_path.as_str());
        let found = i < self.archives.len() && str_equals(self.archives[i].0.as_str(), output_path.as_str());
        if found {
            proof {
                assert(q[i as int].0 == output_path@);
                assert forall|k: int| 0 <= k < q.len() && q[k].0 == output_path@ implies k == i by {
                    if k < i {
                        lemma_text_less_trichotomy(before[k].0@, output_path@);
                    } else if k > i {
                        assert(text_less(before[i as int].0@, before[k].0@));
                        lemma_text_less_trichotomy(before[i as int].0@, before[k].0@);
                    }
                }
            }
            let ghost old_paths = self.archives@[i as int].1.paths();
            let result = self.archives[i].1.insert(inner, file);
            match result {
                Ok(()) => {
                    proof {
                        assert(!old_paths.contains(inner@));
                        assert(self.view_of() =~= q.update(i as int, (output_path@, old_paths.push(inner@))));
                        assert(self.archives@ =~= before.update(i as int, self.archives@[i as int]));
                        assert(before[i as int].0@ == output_path@);
                        assert(self.archives@[i as int].0 == before[i as int].0);
                        assert forall|a: int, b: int| 0 <= a < b < self.archives@.len() implies text_less(
                            self.archives@[a].0@,
                            self.archives@[b].0@,
                        ) by {
                            assert(self.archives@[a].0 == before[a].0);
                            assert(self.archives@[b].0 == before[b].0);
                        }
                        assert forall|k: int| 0 <= k < self.archives@.len() implies distinct(
                            #[trigger] self.archives@[k].1.paths(),
                        ) by {
                            if k != i {
                                assert(self.archives@[k] == before[k]);
                            }
                        }
                    }
                    Ok(())
                },
                Err(inner) => {
                    proof {
                        assert(q[i as int].1.contains(inner@));
                        assert(self.archives@ =~= before.update(i as int, self.archives@[i as int]));
                    }
                    proof {
                        assert forall|k: int| 0 <= k < before.len() implies #[trigger] self.archives@[k].0
                            == before[k].0 && self.archives@[k].1.files@ == before[k].1.files@
                            && self.archives@[k].1.archive_metadata == before[k].1.archive_metadata by {
                            if k != i {
                                assert(self.archives@[k] == before[k]);
                            }
                        }
                        assert forall|a: int, b: int| 0 <= a < b < self.archives@.len() implies text_less(
                            self.archives@[a].0@,
                            self.archives@[b].0@,
                        ) by {
                            assert(self.archives@[a].0 == before[a].0);
                            assert(self.archives@[b].0 == before[b].0);
                        }
                        assert forall|k: int| 0 <= k < self.archives@.len() implies distinct(
                            #[trigger] self.archives@[k].1.paths(),
                        ) by {
                            if k != i {
                                assert(self.archives@[k] == before[k]);
                            } else {
                                assert(self.archives@[k].1.paths() =~= before[k].1.paths());
                            }
                        }
                    }
                    Err(DuplicateOutputEntry { archive_path: output_path, inner_path: inner })
                },
            }
        } else {
            proof {
                if i < before.len() {
                    lemma_text_less_trichotomy(before[i as int].0@, output_path@);
                    assert(text_less(output_path@, before[i as int].0@));
                }
                assert forall|k: int| i <= k < q.len() implies text_less(output_path@, #[trigger] q[k].0) by {
                    assert(q[k].0 == before[k].0@);
                    if k > i {
                        lemma_text_less_transitive(output_path@, before[i as int].0@, before[k].0@);
                    }
                }
                assert forall|k: int| 0 <= k < i implies text_less(#[trigger] q[k].0, output_path@) by {
                    assert(q[k].0 == before[k].0@);
                }
                assert(sorted_slot(q, output_path@, i as int));
                let c = choose|p: int| sorted_slot(q, output_path@, p);
                if c < i {
                    lemma_text_less_trichotomy(q[c].0, output_path@);
                } else if c > i {
                    lemma_text_less_trichotomy(q[i as int].0, output_path@);
                }
                assert(c == i);
                assert forall|k: int| 0 <= k < q.len() implies q[k].0 != output_path@ by {
                    lemma_text_less_trichotomy(q[k].0, output_path@);
                }
                assert(!(exists|k: int| 0 <= k < before.len() && before[k].0@ == output_path@)) by {
                    assert forall|k: int| 0 <= k < before.len() implies before[k].0@ != output_path@ by {
                        assert(q[k].0 == before[k].0@);
                    }
                }
                assert(!(exists|k: int| 0 <= k < q.len() && q[k].0 == output_path@));
                assert(!already_queued(q, output_path@, inner@));
            }
            let mut archive = LazyArchive::new(metadata);
            let ghost path_view = output_path@;
            let ghost inner_value = inner;
            let ghost file_value = file;
            proof {
                assert(archive.files@.len() == archive.paths().len());
            }
            let res = archive.insert(inner, file);
            proof {
                assert(res is Ok);
                assert(archive.files@ == Seq::<(String, F)>::empty().push((inner_value, file_value)));
                assert(archive.paths() =~= seq![inner@]);
            }
            self.archives.insert(i, (output_path, archive));
            proof {
                assert(self.archives@[i as int].1.files@ =~= seq![(inner_value, file_value)]);
                assert(self.archives@ =~= before.insert(i as int, self.archives@[i as int]));
                assert(self.view_of() =~= q.insert(i as int, (path_view, seq![inner@])));
                assert forall|k: int| 0 <= k < self.archives@.len() implies distinct(
                    #[trigger] self.archives@[k].1.paths(),
                ) by {
                    if k < i {
                        assert(self.archives@[k] == before[k]);
                    } else if k > i {
                        assert(self.archives@[k] == before[k - 1]);
                    }
                }
                assert forall|a: int, b: int| 0 <= a < b < self.archives@.len() implies text_less(
                    self.archives@[a].0@,
                    self.archives@[b].0@,
                ) by {
                    if b < i {
                        assert(self.archives@[a] == before[a]);
                        assert(self.archives@[b] == before[b]);
                    } else if b == i {
                        assert(self.archives@[a] == before[a]);
                        assert(q[a].0 == before[a].0@);
                    } else if a < i {
                        assert(self.archives@[a] == before[a]);
                        assert(self.archives@[b] == before[b - 1]);
                        assert(q[b - 1].0 == before[b - 1].0@);
                        assert(q[a].0 == before[a].0@);
                        lemma_text_less_transitive(before[a].0@, path_view, before[b - 1].0@);
                    } else if a == i {
                        assert(self.archives@[b] == before[b - 1]);
                        assert(q[b - 1].0 == before[b - 1].0@);
                    } else {
                        assert(self.archives@[a] == before[a - 1]);
                        assert(self.archives@[b] == before[b - 1]);
                    }
                }
                assert(self.archives@[i as int].0@ == path_view);
                assert(self.view_of() == queued(q, path_view, inner@));
            }
            Ok(())
        }
    }

    /// Hands over every queued archive in ascending order of output path,
    /// leaving the queue empty.
    pub fn take(&mut self) -> (r: Vec<(String, LazyArchive<M, F>)>)
        requires
            old(self).wf(),
        ensures
            r@ == old(self).archives@,
            ascending(r@),
            final(self).view_of().len() == 0,
            final(self).wf(),
    {
        let mut taken: Vec<(String, LazyArchive<M, F>)> = Vec::new();
        std::mem::swap(&mut taken, &mut self.archives);
        taken
    }
}

} // verus!
