use vstd::prelude::*;
use crate::hash_path::{ArchiveHashPath, HashPathView, is_prefix, parent_of};

verus! {

/// One extracted archive kept in the cache, with the tick of its last use.
pub struct CacheEntry<H> {
    pub path: ArchiveHashPath,
    pub handle: H,
    pub last_accessed: u64,
}

/// Which cache entries a removal takes out.
pub enum Removal {
    /// Those last used at this tick.
    AccessedAt(u64),
    /// This path and every archive it is extracted from.
    AncestorsOf(ArchiveHashPath),
}

pub open spec fn removed_by<H>(rule: Removal, e: CacheEntry<H>) -> bool {
    match rule {
        Removal::AccessedAt(t) => e.last_accessed == t,
        Removal::AncestorsOf(p) => is_prefix(e.path@, p@),
    }
}

pub open spec fn kept_by<H>(rule: Removal) -> spec_fn(CacheEntry<H>) -> bool {
    |e: CacheEntry<H>| !removed_by(rule, e)
}

/// The smallest tick among `s`; 0 for an empty sequence.
pub open spec fn min_access<H>(s: Seq<CacheEntry<H>>) -> u64
    decreases s.len(),
{
    if s.len() == 0 {
        0
    } else if s.len() == 1 {
        s[0].last_accessed
    } else {
        let m = min_access(s.drop_last());
        if s.last().last_accessed < m {
            s.last().last_accessed
        } else {
            m
        }
    }
}

/// No two entries of `s` hold the same path.
pub open spec fn unique_paths<H>(s: Seq<CacheEntry<H>>) -> bool {
    forall|i: int, j: int| 0 <= i < j < s.len() ==> s[i].path@ != s[j].path@
}

/// Every entry of `s` lies inside an archive: downloaded archives are read
/// in place and never cached.
pub open spec fn nested_only<H>(s: Seq<CacheEntry<H>>) -> bool {
    forall|i: int| 0 <= i < s.len() ==> (#[trigger] s[i].path@).path.len() > 0
}

/// Whether some entry of `s` holds `p`.
pub open spec fn holds_path<H>(s: Seq<CacheEntry<H>>, p: HashPathView) -> bool {
    exists|i: int| 0 <= i < s.len() && s[i].path@ == p
}

/// Every cached archive that `p` is extracted from was used no earlier than
/// `p` itself.
pub open spec fn ancestors_fresh<H>(s: Seq<CacheEntry<H>>, p: HashPathView) -> bool {
    forall|i: int, j: int|
        0 <= i < s.len() && 0 <= j < s.len() && s[j].path@ == p && is_prefix(s[i].path@, p)
            ==> s[i].last_accessed >= s[j].last_accessed
}

/// The first step of fetching a nested archive.
pub enum Lookup {
    /// It is cached at this position.
    Cached(usize),
    /// It is a downloaded archive, at this path on disk.
    OnDisk(String),
    /// It is a downloaded archive that the download index does not know.
    Missing,
    /// It must be extracted as `segment` from the archive `parent`.
    Extract { parent: ArchiveHashPath, segment: String },
}

/// The downloaded archives by content hash, and a bounded cache of the
/// archives extracted from them, evicted by least recent use.
pub struct NestedArchivesService<H> {
    pub download_summary: Vec<(u64, String)>,
    pub max_size: usize,
    pub cache: Vec<CacheEntry<H>>,
    pub clock: u64,
}

/// The on-disk path that the first entry for `hash` gives.
pub open spec fn download_lookup(t: Seq<(u64, String)>, hash: u64) -> Option<Seq<char>>
    decreases t.len(),
{
    if t.len() == 0 {
        None
    } else if t[0].0 == hash {
        Some(t[0].1@)
    } else {
        download_lookup(t.drop_first(), hash)
    }
}

/// `s` with every entry for `p` or for an archive it is extracted from
/// stamped with tick `t`.
pub open spec fn refreshed<H>(s: Seq<CacheEntry<H>>, p: HashPathView, t: u64) -> Seq<CacheEntry<H>> {
    Seq::new(
        s.len(),
        |i: int|
            if is_prefix(s[i].path@, p) {
                CacheEntry { path: s[i].path, handle: s[i].handle, last_accessed: t }
            } else {
                s[i]
            },
    )
}

/// The cache `s`, bounded by `max`, once `e` is stored in it: an entry for
/// the same path is replaced; otherwise, when the cache is full, the oldest
/// entries are evicted first, and `e` comes last.
pub open spec fn with_entry<H>(s: Seq<CacheEntry<H>>, max: nat, e: CacheEntry<H>) -> Seq<CacheEntry<H>> {
    if holds_path(s, e.path@) {
        s.update(choose|i: int| 0 <= i < s.len() && s[i].path@ == e.path@, e)
    } else if s.len() >= max {
        s.filter(kept_by(Removal::AccessedAt(min_access(s)))).push(e)
    } else {
        s.push(e)
    }
}

/// After a refresh for `p`, `p` and its cached ancestors share the newest
/// tick.
pub proof fn lemma_refreshed_fresh<H>(s: Seq<CacheEntry<H>>, p: HashPathView, t: u64)
    ensures
        ancestors_fresh(refreshed(s, p, t), p),
{
    let r = refreshed(s, p, t);
    assert forall|i: int, j: int|
        0 <= i < r.len() && 0 <= j < r.len() && r[j].path@ == p && is_prefix(r[i].path@, p) implies r[i].last_accessed
        >= r[j].last_accessed by {
        assert(p.path.subrange(0, p.path.len() as int) =~= p.path);
        assert(is_prefix(s[j].path@, p));
    }
}

pub proof fn lemma_min_access<H>(s: Seq<CacheEntry<H>>)
    requires
        s.len() > 0,
    ensures
        forall|i: int| 0 <= i < s.len() ==> min_access(s) <= #[trigger] s[i].last_accessed,
        exists|i: int| 0 <= i < s.len() && s[i].last_accessed == min_access(s),
    decreases s.len(),
{
    if s.len() > 1 {
        lemma_min_access(s.drop_last());
        assert forall|i: int| 0 <= i < s.len() implies min_access(s) <= #[trigger] s[i].last_accessed by {
            if i < s.len() - 1 {
                assert(s[i] == s.drop_last()[i]);
            }
        }
        let k = choose|k: int| 0 <= k < s.drop_last().len() && s.drop_last()[k].last_accessed == min_access(s.drop_last());
        assert(s[k] == s.drop_last()[k]);
        assert(s[s.len() - 1] == s.last());
    } else {
        assert(s[0].last_accessed == min_access(s));
    }
}

/// Removing entries keeps the others, and keeps their paths unique.
pub proof fn lemma_filter_unique<H>(s: Seq<CacheEntry<H>>, pred: spec_fn(CacheEntry<H>) -> bool)
    requires
        unique_paths(s),
    ensures
        unique_paths(s.filter(pred)),
        forall|e: CacheEntry<H>| s.filter(pred).contains(e) ==> s.contains(e),
    decreases s.len(),
{
    broadcast use Seq::lemma_filter_contains_rev;
    reveal(Seq::filter);
    if s.len() > 0 {
        let rest = s.drop_last();
        assert(unique_paths(rest));
        lemma_filter_unique(rest, pred);
        let fr = rest.filter(pred);
        if pred(s.last()) {
            assert forall|i: int, j: int| 0 <= i < j < fr.push(s.last()).len() implies fr.push(
                s.last(),
            )[i].path@ != fr.push(s.last())[j].path@ by {
                if j == fr.len() {
                    assert(fr.contains(fr[i]));
                    assert(rest.contains(fr[i]));
                    let k = choose|k: int| 0 <= k < rest.len() && rest[k] == fr[i];
                    assert(s[k] == rest[k]);
                    assert(s[s.len() - 1] == s.last());
                } else {
                    assert(fr.push(s.last())[i] == fr[i]);
                    assert(fr.push(s.last())[j] == fr[j]);
                }
            }
            assert forall|e: CacheEntry<H>| fr.push(s.last()).contains(e) implies s.contains(e) by {
                let k = choose|k: int| 0 <= k < fr.push(s.last()).len() && fr.push(s.last())[k] == e;
                if k == fr.len() {
                    assert(s[s.len() - 1] == e);
                } else {
                    assert(fr[k] == e);
                    assert(fr.contains(e));
                    let m = choose|m: int| 0 <= m < rest.len() && rest[m] == e;
                    assert(s[m] == e);
                }
            }
        } else {
            assert forall|e: CacheEntry<H>| fr.contains(e) implies s.contains(e) by {
                let m = choose|m: int| 0 <= m < rest.len() && rest[m] == e;
                assert(s[m] == e);
            }
        }
    }
}

/// Evicting the oldest entries of a non-empty cache takes out at least one.
pub proof fn lemma_evict_shrinks<H>(s: Seq<CacheEntry<H>>)
    requires
        s.len() > 0,
    ensures
        s.filter(kept_by(Removal::AccessedAt(min_access(s)))).len() < s.len(),
{
    lemma_min_access(s);
    let j = choose|j: int| 0 <= j < s.len() && s[j].last_accessed == min_access(s);
    lemma_filter_shrinks(s, kept_by::<H>(Removal::AccessedAt(min_access(s))), j);
}

/// Two sequences whose tails agree from `i` and `k` agree from `i + 1` and
/// `k + 1`, and at `i` and `k`.
pub proof fn lemma_subrange_step<A>(a: Seq<A>, b: Seq<A>, i: int, k: int)
    requires
        0 <= i < a.len(),
        0 <= k <= b.len(),
        a.subrange(i, a.len() as int) == b.subrange(k, b.len() as int),
    ensures
        k < b.len(),
        a[i] == b[k],
        a.subrange(i + 1, a.len() as int) == b.subrange(k + 1, b.len() as int),
{
    assert(a.subrange(i, a.len() as int)[0] == a[i]);
    assert(b.subrange(k, b.len() as int).len() == a.len() - i);
    assert(b.subrange(k, b.len() as int)[0] == b[k]);
    assert forall|m: int| 0 <= m < a.len() - i - 1 implies #[trigger] a.subrange(i + 1, a.len() as int)[m]
        == b.subrange(k + 1, b.len() as int)[m] by {
        assert(a.subrange(i, a.len() as int)[m + 1] == a[i + 1 + m]);
        assert(b.subrange(k, b.len() as int)[m + 1] == b[k + 1 + m]);
    }
    assert(a.subrange(i + 1, a.len() as int) =~= b.subrange(k + 1, b.len() as int));
}

/// Removing entries keeps paths unique and ticks within `clock`.
pub proof fn lemma_filter_wf<H>(s: Seq<CacheEntry<H>>, pred: spec_fn(CacheEntry<H>) -> bool, clock: u64)
    requires
        unique_paths(s),
        forall|i: int| 0 <= i < s.len() ==> #[trigger] s[i].last_accessed <= clock,
        nested_only(s),
    ensures
        unique_paths(s.filter(pred)),
        forall|i: int| 0 <= i < s.filter(pred).len() ==> #[trigger] s.filter(pred)[i].last_accessed <= clock,
        nested_only(s.filter(pred)),
{
    lemma_filter_unique(s, pred);
    assert forall|i: int| 0 <= i < s.filter(pred).len() implies #[trigger] s.filter(pred)[i].last_accessed
        <= clock && (s.filter(pred)[i].path@).path.len() > 0 by {
        let e = s.filter(pred)[i];
        assert(s.filter(pred).contains(e));
        assert(s.contains(e));
        let m = choose|m: int| 0 <= m < s.len() && s[m] == e;
        assert(s[m].last_accessed <= clock);
        assert((s[m].path@).path.len() > 0);
    }
    assert forall|i: int| 0 <= i < s.filter(pred).len() implies (#[trigger] s.filter(pred)[i].path@).path.len()
        > 0 by {
        assert(s.filter(pred)[i].last_accessed <= clock);
    }
}

/// Removing an entry that a predicate rejects shortens the sequence.
pub proof fn lemma_filter_shrinks<H>(s: Seq<CacheEntry<H>>, pred: spec_fn(CacheEntry<H>) -> bool, i: int)
    requires
        0 <= i < s.len(),
        !pred(s[i]),
    ensures
        s.filter(pred).len() < s.len(),
    decreases s.len(),
{
    reveal(Seq::filter);
    s.drop_last().lemma_filter_len(pred);
    if i < s.len() - 1 {
        assert(s.drop_last()[i] == s[i]);
        lemma_filter_shrinks(s.drop_last(), pred, i);
    } else {
        assert(s.last() == s[i]);
    }
}

impl<H> NestedArchivesService<H> {
    /// The cache's invariant: within its bound, one entry per path, and no
    /// tick beyond the clock.
    pub open spec fn wf(&self) -> bool {
        &&& self.cache@.len() <= self.max_size
        &&& unique_paths(self.cache@)
        &&& forall|i: int| 0 <= i < self.cache@.len() ==> #[trigger] self.cache@[i].last_accessed <= self.clock
        &&& nested_only(self.cache@)
    }

    /// An empty cache of at most `max_size` entries over the given index of
    /// downloaded archives.
    pub fn new(download_summary: Vec<(u64, String)>, max_size: usize) -> (r: Self)
        ensures
            r.wf(),
            r.cache@.len() == 0,
            r.max_size == max_size,
            r.download_summary@ == download_summary@,
    {
        NestedArchivesService { download_summary, max_size, cache: Vec::new(), clock: 0 }
    }

    /// Advances the clock, unless it is at its largest value.
    fn tick(&mut self)
        ensures
            final(self).clock >= old(self).clock,
            final(self).cache == old(self).cache,
            final(self).max_size == old(self).max_size,
            final(self).download_summary == old(self).download_summary,
    {
        if self.clock < u64::MAX {
            self.clock = self.clock + 1;
        }
    }

    /// Stamps `p` and every cached archive it is extracted from with a new
    /// tick.
    fn touch_ancestors(&mut self, p: &ArchiveHashPath)
        requires
            old(self).wf(),
        ensures
            final(self).wf(),
            final(self).clock >= old(self).clock,
            final(self).cache@ == refreshed(old(self).cache@, p@, final(self).clock),
            final(self).max_size == old(self).max_size,
            final(self).download_summary == old(self).download_summary,
    {
        self.tick();
        let now = self.clock;
        let ghost start = self.cache@;
        let mut i: usize = 0;
        while i < self.cache.len()
            invariant
                i <= self.cache@.len(),
                self.cache@.len() == start.len(),
                self.clock == now,
                forall|k: int| 0 <= k < i ==> #[trigger] self.cache@[k] == refreshed(start, p@, now)[k],
                forall|k: int| i <= k < self.cache@.len() ==> #[trigger] self.cache@[k] == start[k],
                self.max_size == old(self).max_size,
                self.download_summary == old(self).download_summary,
            decreases self.cache.len() - i,
        {
            if self.cache[i].path.is_prefix_of(p) {
                self.cache[i].last_accessed = now;
            }
            i = i + 1;
        }
        proof {
            assert(self.cache@ =~= refreshed(start, p@, now));
            assert forall|a: int, b: int| 0 <= a < b < self.cache@.len() implies self.cache@[a].path@
                != self.cache@[b].path@ by {
                assert(self.cache@[a].path == start[a].path);
                assert(self.cache@[b].path == start[b].path);
            }
            assert forall|j: int| 0 <= j < self.cache@.len() implies #[trigger] self.cache@[j].last_accessed
                <= self.clock by {
                assert(self.cache@[j] == refreshed(start, p@, now)[j]);
            }
        }
    }

    /// Takes out the entries that `rule` names, keeping the others in order.
    fn remove_matching(&mut self, rule: &Removal)
        requires
            old(self).wf(),
        ensures
            final(self).wf(),
            final(self).cache@ == old(self).cache@.filter(kept_by(*rule)),
            final(self).clock == old(self).clock,
            final(self).max_size == old(self).max_size,
            final(self).download_summary == old(self).download_summary,
    {
        let ghost orig = self.cache@;
        let ghost pred = kept_by::<H>(*rule);
        let len0 = self.cache.len();
        let ghost n = orig.len();
        let mut i: usize = 0;
        let mut k: usize = 0;
        proof {
            reveal(Seq::filter);
            assert(orig.subrange(0, 0) =~= Seq::<CacheEntry<H>>::empty());
            assert(self.cache@.subrange(0, 0) =~= orig.subrange(0, 0).filter(pred));
            assert(self.cache@.subrange(0, n as int) =~= orig.subrange(0, n as int));
        }
        while i < self.cache.len()
            invariant
                n == orig.len(),
                n == len0,
                i <= k <= n,
                self.cache@.len() == i + (n - k),
                self.cache@.subrange(0, i as int) == orig.subrange(0, k as int).filter(pred),
                self.cache@.subrange(i as int, self.cache@.len() as int) == orig.subrange(k as int, n as int),
                pred == kept_by::<H>(*rule),
                self.clock == old(self).clock,
                self.max_size == old(self).max_size,
                self.download_summary == old(self).download_summary,
                orig == old(self).cache@,
            decreases self.cache.len() - i,
        {
            let removed = match rule {
                Removal::AccessedAt(t) => self.cache[i].last_accessed == *t,
                Removal::AncestorsOf(p) => self.cache[i].path.is_prefix_of(p),
            };
            let ghost before = self.cache@;
            proof {
                lemma_subrange_step(before, orig, i as int, k as int);
                assert(removed == !pred(orig[k as int]));
                reveal(Seq::filter);
                assert(orig.subrange(0, k + 1).drop_last() =~= orig.subrange(0, k as int));
                assert(orig.subrange(0, k + 1).last() == orig[k as int]);
            }
            if removed {
                self.cache.remove(i);
                proof {
                    assert(self.cache@.subrange(0, i as int) =~= before.subrange(0, i as int));
                    assert(self.cache@.subrange(i as int, self.cache@.len() as int) =~= before.subrange(
                        i + 1,
                        before.len() as int,
                    ));
                }
            } else {
                proof {
                    assert(before.subrange(0, i + 1) =~= before.subrange(0, i as int).push(orig[k as int]));
                }
                i = i + 1;
            }
            k = k + 1;
        }
        proof {
            assert(self.cache@ =~= self.cache@.subrange(0, i as int));
            assert(orig.subrange(0, n as int) =~= orig);
            lemma_filter_wf(orig, pred, self.clock);
            orig.lemma_filter_len(pred);
        }
    }

    /// Takes out the entries last used at the oldest tick, all of them.
    #[verifier::rlimit(40)]
    fn evict_oldest_chunk(&mut self)
        requires
            old(self).wf(),
            old(self).cache@.len() > 0,
        ensures
            final(self).wf(),
            final(self).cache@ == old(self).cache@.filter(
                kept_by(Removal::AccessedAt(min_access(old(self).cache@))),
            ),
            final(self).cache@.len() < old(self).cache@.len(),
            final(self).clock == old(self).clock,
            final(self).max_size == old(self).max_size,
            final(self).download_summary == old(self).download_summary,
    {
        let ghost s = self.cache@;
        let mut oldest = self.cache[0].last_accessed;
        let mut i: usize = 1;
        proof {
            assert(s.subrange(0, 1).len() == 1);
        }
        while i < self.cache.len()
            invariant
                1 <= i <= s.len(),
                s == self.cache@,
                oldest == min_access(s.subrange(0, i as int)),
            decreases self.cache.len() - i,
        {
            proof {
                assert(s.subrange(0, i + 1).drop_last() =~= s.subrange(0, i as int));
            }
            if self.cache[i].last_accessed < oldest {
                oldest = self.cache[i].last_accessed;
            }
            i = i + 1;
        }
        proof {
            assert(s.subrange(0, s.len() as int) =~= s);
            lemma_evict_shrinks(s);
        }
        self.remove_matching(&Removal::AccessedAt(oldest));
    }

    /// Removes `p` and every archive it is extracted from, once the work
    /// that needed them is done.
    pub fn cleanup(&mut self, p: ArchiveHashPath)
        requires
            old(self).wf(),
        ensures
            final(self).wf(),
            final(self).cache@ == old(self).cache@.filter(kept_by(Removal::AncestorsOf(p))),
            final(self).clock == old(self).clock,
            final(self).max_size == old(self).max_size,
            final(self).download_summary == old(self).download_summary,
    {
        self.remove_matching(&Removal::AncestorsOf(p));
    }

    /// Decides the first step of fetching `p`: a cached archive is returned
    /// with its ancestors marked as used; a downloaded one is looked up in the
    /// download index; any other must be extracted from its parent.
    pub fn get(&mut self, p: &ArchiveHashPath) -> (r: Lookup)
        requires
            old(self).wf(),
        ensures
            final(self).wf(),
            final(self).max_size == old(self).max_size,
            final(self).download_summary == old(self).download_summary,
            p@.path.len() == 0 ==> (r is OnDisk || r is Missing),
            match r {
                Lookup::Cached(i) => {
                    &&& holds_path(old(self).cache@, p@)
                    &&& i < final(self).cache@.len()
                    &&& final(self).cache@[i as int].path@ == p@
                    &&& final(self).clock >= old(self).clock
                    &&& final(self).cache@ == refreshed(old(self).cache@, p@, final(self).clock)
                    &&& ancestors_fresh(final(self).cache@, p@)
                },
                Lookup::OnDisk(path) => {
                    &&& !holds_path(old(self).cache@, p@)
                    &&& p@.path.len() == 0
                    &&& download_lookup(old(self).download_summary@, p@.source_hash) == Some(path@)
                    &&& *final(self) == *old(self)
                },
                Lookup::Missing => {
                    &&& !holds_path(old(self).cache@, p@)
                    &&& p@.path.len() == 0
                    &&& download_lookup(old(self).download_summary@, p@.source_hash) is None
                    &&& *final(self) == *old(self)
                },
                Lookup::Extract { parent, segment } => {
                    &&& !holds_path(old(self).cache@, p@)
                    &&& parent_of(p@) == Some((parent@, segment@))
                    &&& *final(self) == *old(self)
                },
            },
    {
        match self.position(p) {
            Some(i) => {
                self.touch_ancestors(p);
                proof {
                    lemma_refreshed_fresh(old(self).cache@, p@, self.clock);
                }
                Lookup::Cached(i)
            },
            None => {
                if p.path.len() == 0 {
                    match self.source_path(p.source_hash) {
                        Some(path) => Lookup::OnDisk(path),
                        None => Lookup::Missing,
                    }
                } else {
                    match p.duplicate().parent() {
                        Some((parent, segment)) => Lookup::Extract { parent, segment },
                        None => Lookup::Missing,
                    }
                }
            },
        }
    }

    /// Stores the archive extracted for `p` and marks its ancestors as used.
    /// A full cache first evicts its oldest entries; a cache bounded by zero
    /// keeps nothing.
    pub fn store(&mut self, p: ArchiveHashPath, handle: H)
        requires
            old(self).wf(),
            p@.path.len() > 0,
        ensures
            final(self).wf(),
            final(self).max_size == old(self).max_size,
            final(self).download_summary == old(self).download_summary,
            final(self).clock >= old(self).clock,
            old(self).max_size == 0 ==> final(self).cache@ == old(self).cache@,
            old(self).max_size > 0 ==> {
                &&& final(self).cache@ == refreshed(
                    with_entry(
                        old(self).cache@,
                        old(self).max_size as nat,
                        CacheEntry { path: p, handle, last_accessed: 0 },
                    ),
                    p@,
                    final(self).clock,
                )
                &&& exists|j: int|
                    0 <= j < final(self).cache@.len() && final(self).cache@[j].path@ == p@
                        && final(self).cache@[j].handle == handle
                &&& ancestors_fresh(final(self).cache@, p@)
            },
    {
        if self.max_size == 0 {
            return;
        }
        let ghost e = CacheEntry { path: p, handle, last_accessed: 0 };
        let ghost pv = p@;
        let ghost s = self.cache@;
        let touched = p.duplicate();
        match self.position(&p) {
            Some(i) => {
                self.cache.set(i, CacheEntry { path: p, handle, last_accessed: 0 });
                proof {
                    assert(holds_path(s, pv));
                    let c = choose|c: int| 0 <= c < s.len() && s[c].path@ == pv;
                    assert(c == i);
                    assert(self.cache@ == s.update(i as int, e));
                    assert(self.cache@[i as int].path@ == pv);
                    assert(holds_path(self.cache@, pv));
                    assert forall|a: int, b: int| 0 <= a < b < self.cache@.len() implies self.cache@[a].path@
                        != self.cache@[b].path@ by {
                        if a != i && b != i {
                            assert(self.cache@[a] == s[a]);
                            assert(self.cache@[b] == s[b]);
                        } else if a == i {
                            assert(self.cache@[b] == s[b]);
                        } else {
                            assert(self.cache@[a] == s[a]);
                        }
                    }
                    assert forall|j: int| 0 <= j < self.cache@.len() implies #[trigger] self.cache@[j].last_accessed
                        <= self.clock by {
                        if j != i {
                            assert(self.cache@[j] == s[j]);
                        }
                    }
                }
            },
            None => {
                if self.cache.len() >= self.max_size {
                    self.evict_oldest_chunk();
                }
                let ghost kept = self.cache@;
                proof {
                    lemma_filter_unique(s, kept_by::<H>(Removal::AccessedAt(min_access(s))));
                    assert forall|j: int| 0 <= j < kept.len() implies kept[j].path@ != pv by {
                        assert(kept.contains(kept[j]));
                        assert(s.contains(kept[j]));
                    }
                }
                self.cache.push(CacheEntry { path: p, handle, last_accessed: 0 });
                proof {
                    assert(self.cache@ == kept.push(e));
                    assert(self.cache@[kept.len() as int].path@ == pv);
                    assert(holds_path(self.cache@, pv));
                    assert forall|a: int, b: int| 0 <= a < b < self.cache@.len() implies self.cache@[a].path@
                        != self.cache@[b].path@ by {
                        assert(self.cache@[a] == kept[a]);
                        if b < kept.len() {
                            assert(self.cache@[b] == kept[b]);
                        }
                    }
                    assert forall|j: int| 0 <= j < self.cache@.len() implies #[trigger] self.cache@[j].last_accessed
                        <= self.clock by {
                        if j < kept.len() {
                            assert(self.cache@[j] == kept[j]);
                        }
                    }
                }
            },
        }
        let ghost stored = self.cache@;
        proof {
            assert(stored == with_entry(s, self.max_size as nat, e));
            assert(holds_path(stored, pv));
        }
        self.touch_ancestors(&touched);
        proof {
            lemma_refreshed_fresh(stored, pv, self.clock);
            let j = choose|j: int| 0 <= j < stored.len() && stored[j].path@ == pv;
            assert(self.cache@[j] == refreshed(stored, pv, self.clock)[j]);
            assert(stored[j].handle == handle) by {
                if exists|c: int| 0 <= c < s.len() && s[c].path@ == pv {
                } else {
                    assert(unique_paths(stored));
                    assert(stored[stored.len() - 1].path@ == pv);
                }
            }
        }
    }

    /// Position of the entry for `p`.
    pub fn position(&self, p: &ArchiveHashPath) -> (r: Option<usize>)
        ensures
            match r {
                Some(i) => i < self.cache@.len() && self.cache@[i as int].path@ == p@,
                None => !holds_path(self.cache@, p@),
            },
    {
        let mut i: usize = 0;
        while i < self.cache.len()
            invariant
                i <= self.cache@.len(),
                forall|k: int| 0 <= k < i ==> self.cache@[k].path@ != p@,
            decreases self.cache.len() - i,
        {
            if self.cache[i].path.same_as(p) {
                return Some(i);
            }
            i = i + 1;
        }
        None
    }

    /// The handle cached at position `i`.
    pub fn handle(&self, i: usize) -> (r: &H)
        requires
            i < self.cache@.len(),
        ensures
            *r == self.cache@[i as int].handle,
    {
        &self.cache[i].handle
    }

    /// Where the download index puts the archive with content hash `hash`.
    pub fn source_path(&self, hash: u64) -> (r: Option<String>)
        ensures
            match r {
                Some(p) => download_lookup(self.download_summary@, hash) == Some(p@),
                None => download_lookup(self.download_summary@, hash) is None,
            },
    {
        let ghost whole = self.download_summary@;
        assert(whole.subrange(0, whole.len() as int) =~= whole);
        let mut i: usize = 0;
        while i < self.download_summary.len()
            invariant
                i <= whole.len(),
                whole == self.download_summary@,
                download_lookup(whole, hash) == download_lookup(whole.subrange(i as int, whole.len() as int), hash),
            decreases self.download_summary.len() - i,
        {
            assert(whole.subrange(i as int, whole.len() as int).drop_first() =~= whole.subrange(
                i + 1,
                whole.len() as int,
            ));
            if self.download_summary[i].0 == hash {
                return Some(self.download_summary[i].1.clone());
            }
            i = i + 1;
        }
        None
    }
}

} // verus!
