use vstd::prelude::*;
use crate::text::str_equals;

verus! {

pub open spec fn views(s: Seq<String>) -> Seq<Seq<char>> {
    s.map_values(|p: String| p@)
}

/// The requested path at `i` is listed and not requested earlier.
pub open spec fn valid_at(listed: Seq<Seq<char>>, requested: Seq<Seq<char>>, i: int) -> bool {
    &&& listed.contains(requested[i])
    &&& forall|j: int| 0 <= j < i ==> requested[j] != requested[i]
}

/// Whether `needle` is among `hay`.
fn contains_path(hay: &Vec<String>, needle: &String, upto: usize) -> (r: bool)
    requires
        upto <= hay@.len(),
    ensures
        r == exists|j: int| 0 <= j < upto && views(hay@)[j] == needle@,
{
    let mut j: usize = 0;
    while j < upto
        invariant
            j <= upto <= hay@.len(),
            forall|k: int| 0 <= k < j ==> views(hay@)[k] != needle@,
        decreases upto - j,
    {
        if str_equals(hay[j].as_str(), needle.as_str()) {
            proof {
                assert(views(hay@)[j as int] == needle@);
            }
            return true;
        }
        j = j + 1;
    }
    false
}

/// Checks the paths of a bulk request against the archive's listing: each
/// must be listed and requested once. The first path that is not is the
/// error.
pub fn validate_request(listed: &Vec<String>, requested: &Vec<String>) -> (r: Result<(), String>)
    ensures
        match r {
            Ok(()) => forall|i: int| 0 <= i < requested@.len() ==> valid_at(views(listed@), views(requested@), i),
            Err(p) => exists|i: int|
                0 <= i < requested@.len() && p@ == views(requested@)[i] && !valid_at(
                    views(listed@),
                    views(requested@),
                    i,
                ) && forall|k: int| 0 <= k < i ==> valid_at(views(listed@), views(requested@), k),
        },
{
    let ghost l = views(listed@);
    let ghost q = views(requested@);
    let mut i: usize = 0;
    while i < requested.len()
        invariant
            i <= requested@.len(),
            l == views(listed@),
            q == views(requested@),
            forall|k: int| 0 <= k < i ==> valid_at(l, q, k),
        decreases requested.len() - i,
    {
        let listed_here = contains_path(listed, &requested[i], listed.len());
        let seen = contains_path(requested, &requested[i], i);
        proof {
            if listed_here {
                let j = choose|j: int| 0 <= j < listed@.len() && l[j] == q[i as int];
                assert(l.contains(q[i as int]));
            } else {
                assert(!l.contains(q[i as int]));
            }
        }
        if !listed_here || seen {
            proof {
                assert(!valid_at(l, q, i as int));
            }
            return Err(requested[i].clone());
        }
        i = i + 1;
    }
    Ok(())
}

/// A single pass over an archive that extracts the requested entries as
/// they come: each must be requested, and comes once.
pub struct BulkExtraction<F> {
    pub remaining: Vec<String>,
    pub extracted: Vec<(String, F)>,
    /// The paths of the request.
    pub requested: Ghost<Seq<Seq<char>>>,
}

pub open spec fn extracted_paths<F>(e: Seq<(String, F)>) -> Seq<Seq<char>> {
    e.map_values(|x: (String, F)| x.0@)
}

impl<F> BulkExtraction<F> {
    /// Every requested path is either still expected or extracted, as often
    /// as it was requested.
    pub open spec fn wf(&self) -> bool {
        views(self.remaining@).to_multiset().add(extracted_paths(self.extracted@).to_multiset())
            == self.requested@.to_multiset()
    }

    /// A pass that expects the entries of a validated request.
    pub fn new(requested: Vec<String>) -> (r: Self)
        ensures
            r.wf(),
            views(r.remaining@) == views(requested@),
            r.requested@ == views(requested@),
            r.extracted@.len() == 0,
    {
        let ghost req = views(requested@);
        let r = BulkExtraction { remaining: requested, extracted: Vec::new(), requested: Ghost(req) };
        proof {
            broadcast use vstd::multiset::group_multiset_axioms;
            let e = extracted_paths(r.extracted@);
            assert(e =~= Seq::<Seq<char>>::empty());
            e.to_multiset_ensures();
            vstd::multiset::lemma_multiset_empty_len(e.to_multiset());
            assert(views(r.remaining@) == req);
            assert(views(r.remaining@).to_multiset().add(e.to_multiset()) =~= req.to_multiset());
        }
        r
    }

    /// Ends the pass: the extracted entries when every requested path came,
    /// otherwise the paths that did not.
    pub fn finish(self) -> (r: Result<Vec<(String, F)>, Vec<String>>)
        requires
            self.wf(),
        ensures
            match r {
                Ok(v) => v@ == self.extracted@ && self.remaining@.len() == 0 && extracted_paths(v@).to_multiset()
                    == self.requested@.to_multiset(),
                Err(rest) => rest@ == self.remaining@ && rest@.len() > 0,
            },
    {
        if self.remaining.len() == 0 {
            proof {
                broadcast use vstd::multiset::group_multiset_axioms;
                let rest = views(self.remaining@);
                assert(rest =~= Seq::<Seq<char>>::empty());
                rest.to_multiset_ensures();
                vstd::multiset::lemma_multiset_empty_len(rest.to_multiset());
                assert(extracted_paths(self.extracted@).to_multiset() =~= self.requested@.to_multiset());
            }
            Ok(self.extracted)
        } else {
            Err(self.remaining)
        }
    }

    /// An entry starts: it is extracted into `sink` if it was requested and
    /// has not come yet; otherwise its path is the error.
    pub fn start_entry(&mut self, path: String, sink: F) -> (r: Result<(), String>)
        requires
            old(self).wf(),
        ensures
            final(self).wf(),
            final(self).requested == old(self).requested,
            match r {
                Ok(()) => exists|i: int|
                    0 <= i < views(old(self).remaining@).len() && views(old(self).remaining@)[i] == path@
                        && views(final(self).remaining@) == views(old(self).remaining@).remove(i)
                        && final(self).extracted@ == old(self).extracted@.push((path, sink)),
                Err(p) => p@ == path@ && !views(old(self).remaining@).contains(path@) && final(self).remaining@
                    == old(self).remaining@ && final(self).extracted@ == old(self).extracted@,
            },
    {
        let ghost before = views(self.remaining@);
        let mut i: usize = 0;
        while i < self.remaining.len()
            invariant
                i <= self.remaining@.len(),
                before == views(self.remaining@),
                before == views(old(self).remaining@),
                self.remaining@ == old(self).remaining@,
                self.extracted@ == old(self).extracted@,
                self.requested == old(self).requested,
                old(self).wf(),
                forall|k: int| 0 <= k < i ==> before[k] != path@,
            decreases self.remaining.len() - i,
        {
            if str_equals(self.remaining[i].as_str(), path.as_str()) {
                self.remaining.remove(i);
                proof {
                    assert(views(self.remaining@) =~= before.remove(i as int));
                    assert(before[i as int] == path@);
                }
                let ghost path_view = path@;
                let ghost ex_before = extracted_paths(self.extracted@);
                self.extracted.push((path, sink));
                proof {
                    broadcast use vstd::multiset::group_multiset_axioms;
                    broadcast use vstd::seq_lib::group_to_multiset_ensures;
                    assert(extracted_paths(self.extracted@) =~= ex_before.push(path_view));
                    vstd::seq_lib::to_multiset_remove(before, i as int);
                    vstd::seq_lib::to_multiset_build(ex_before, path_view);
                    assert(views(self.remaining@).to_multiset() == before.to_multiset().remove(path_view));
                    assert(extracted_paths(self.extracted@).to_multiset() == ex_before.to_multiset().insert(
                        path_view,
                    ));
                    assert(before.to_multiset().count(path_view) > 0) by {
                        assert(before.contains(path_view));
                    }
                    assert(views(self.remaining@).to_multiset().add(extracted_paths(self.extracted@).to_multiset())
                        =~= before.to_multiset().add(ex_before.to_multiset()));
                }
                return Ok(());
            }
            i = i + 1;
        }
        proof {
            assert(!before.contains(path@));
        }
        Err(path)
    }

    /// Position of the entry being written, which data chunks go to.
    pub fn current_index(&self) -> (r: Option<usize>)
        ensures
            self.extracted@.len() == 0 ==> r is None,
            self.extracted@.len() > 0 ==> r == Some((self.extracted@.len() - 1) as usize),
    {
        if self.extracted.len() == 0 {
            None
        } else {
            Some(self.extracted.len() - 1)
        }
    }
}

} // verus!
