use vstd::prelude::*;
use crate::hash_path::{ArchiveHashPath, HashPathView};

verus! {

/// The registry's entries as plain values: a path, and its published result
/// or `None` while it is being produced.
pub type Slots<V> = Seq<(HashPathView, Option<V>)>;

/// The slot of the first entry for `k`.
pub open spec fn slot_of<V>(s: Slots<V>, k: HashPathView) -> Option<Option<V>>
    decreases s.len(),
{
    if s.len() == 0 {
        None
    } else if s[0].0 == k {
        Some(s[0].1)
    } else {
        slot_of(s.drop_first(), k)
    }
}

/// The slots after a request for `k`: a pending entry is added when `k` has
/// none.
pub open spec fn claimed<V>(s: Slots<V>, k: HashPathView) -> Slots<V> {
    if slot_of(s, k) is Some {
        s
    } else {
        s.push((k, None))
    }
}

/// The slots after `v` is published for `k`: only a pending entry takes it.
pub open spec fn published<V>(s: Slots<V>, k: HashPathView, v: V) -> Slots<V>
    decreases s.len(),
{
    if s.len() == 0 {
        s
    } else if s[0].0 == k {
        if s[0].1 is None {
            seq![(k, Some(v))] + s.drop_first()
        } else {
            s
        }
    } else {
        seq![s[0]] + published(s.drop_first(), k, v)
    }
}

/// A request for a path, or the publication of its result.
pub enum RegistryOp<V> {
    Claim(HashPathView),
    Publish(HashPathView, V),
}

pub open spec fn apply<V>(s: Slots<V>, op: RegistryOp<V>) -> Slots<V> {
    match op {
        RegistryOp::Claim(k) => claimed(s, k),
        RegistryOp::Publish(k, v) => published(s, k, v),
    }
}

/// The slots after running `ops` in order.
pub open spec fn run<V>(s: Slots<V>, ops: Seq<RegistryOp<V>>) -> Slots<V>
    decreases ops.len(),
{
    if ops.len() == 0 {
        s
    } else {
        run(apply(s, ops[0]), ops.drop_first())
    }
}

/// How many requests for `k` among `ops` are told to produce its result.
pub open spec fn productions<V>(s: Slots<V>, ops: Seq<RegistryOp<V>>, k: HashPathView) -> nat
    decreases ops.len(),
{
    if ops.len() == 0 {
        0
    } else {
        (if ops[0] == RegistryOp::<V>::Claim(k) && slot_of(s, k) is None {
            1nat
        } else {
            0nat
        }) + productions(apply(s, ops[0]), ops.drop_first(), k)
    }
}

pub proof fn lemma_slot_of_push<V>(s: Slots<V>, x: (HashPathView, Option<V>), k: HashPathView)
    ensures
        slot_of(s.push(x), k) == if slot_of(s, k) is Some {
            slot_of(s, k)
        } else if x.0 == k {
            Some(x.1)
        } else {
            None
        },
    decreases s.len(),
{
    if s.len() > 0 {
        assert(s.push(x)[0] == s[0]);
        assert(s.push(x).drop_first() =~= s.drop_first().push(x));
        lemma_slot_of_push(s.drop_first(), x, k);
        assert(slot_of(s.push(x), k) == if s[0].0 == k {
            Some(s[0].1)
        } else {
            slot_of(s.push(x).drop_first(), k)
        });
    } else {
        assert(s.push(x)[0] == x);
        assert(s.push(x).drop_first() =~= Seq::<(HashPathView, Option<V>)>::empty());
        assert(slot_of(s.push(x).drop_first(), k) is None);
        assert(slot_of(s.push(x), k) == if x.0 == k {
            Some(x.1)
        } else {
            slot_of(s.push(x).drop_first(), k)
        });
    }
}

pub proof fn lemma_slot_of_published<V>(s: Slots<V>, k: HashPathView, v: V, q: HashPathView)
    ensures
        slot_of(published(s, k, v), q) == if q == k && slot_of(s, q) == Some(None::<V>) {
            Some(Some(v))
        } else {
            slot_of(s, q)
        },
    decreases s.len(),
{
    if s.len() > 0 {
        if s[0].0 == k {
            if s[0].1 is None {
                assert((seq![(k, Some(v))] + s.drop_first()).drop_first() =~= s.drop_first());
            }
        } else {
            assert((seq![s[0]] + published(s.drop_first(), k, v)).drop_first() =~= published(
                s.drop_first(),
                k,
                v,
            ));
            lemma_slot_of_published(s.drop_first(), k, v, q);
        }
    }
}

/// A path that has a slot keeps it, and a published result never changes.
pub proof fn lemma_slot_kept<V>(s: Slots<V>, op: RegistryOp<V>, k: HashPathView)
    requires
        slot_of(s, k) is Some,
    ensures
        slot_of(apply(s, op), k) is Some,
        slot_of(s, k) is Some && slot_of(s, k)->Some_0 is Some ==> slot_of(apply(s, op), k) == slot_of(s, k),
{
    match op {
        RegistryOp::Claim(c) => {
            if slot_of(s, c) is None {
                lemma_slot_of_push(s, (c, None), k);
            }
        },
        RegistryOp::Publish(c, v) => {
            lemma_slot_of_published(s, c, v, k);
        },
    }
}

/// However many requests for one path arrive, and in whatever order with
/// other requests and publications, at most one of them is told to produce
/// its result, and none once the path has a slot.
pub proof fn lemma_at_most_one_production<V>(s: Slots<V>, ops: Seq<RegistryOp<V>>, k: HashPathView)
    ensures
        productions(s, ops, k) <= 1,
        slot_of(s, k) is Some ==> productions(s, ops, k) == 0,
    decreases ops.len(),
{
    if ops.len() > 0 {
        let next = apply(s, ops[0]);
        lemma_at_most_one_production(next, ops.drop_first(), k);
        if slot_of(s, k) is Some {
            lemma_slot_kept(s, ops[0], k);
        } else if ops[0] == RegistryOp::<V>::Claim(k) {
            lemma_slot_of_push(s, (k, None), k);
        }
    }
}

/// Once a result is published for a path, every later observer sees that
/// same result.
pub proof fn lemma_published_result_stable<V>(s: Slots<V>, ops: Seq<RegistryOp<V>>, k: HashPathView, v: V)
    requires
        slot_of(s, k) == Some(Some(v)),
    ensures
        slot_of(run(s, ops), k) == Some(Some(v)),
    decreases ops.len(),
{
    if ops.len() > 0 {
        lemma_slot_kept(s, ops[0], k);
        lemma_published_result_stable(apply(s, ops[0]), ops.drop_first(), k, v);
    }
}

/// What a request is told to do.
pub enum Claim {
    /// Nobody produces this result yet: the caller produces it and
    /// publishes it.
    Produce,
    /// Another caller is producing it: wait for its publication.
    Wait,
    /// It is published, at this position.
    Ready(usize),
}

/// One shared result per path: the first request produces it, later ones
/// share it, failures included.
pub struct Registry<V> {
    pub entries: Vec<(ArchiveHashPath, Option<V>)>,
}

pub open spec fn slot_view<V>(e: (ArchiveHashPath, Option<V>)) -> (HashPathView, Option<V>) {
    (e.0@, e.1)
}

impl<V> Registry<V> {
    pub open spec fn slots(&self) -> Slots<V> {
        self.entries@.map_values(|e: (ArchiveHashPath, Option<V>)| slot_view(e))
    }

    pub fn new() -> (r: Self)
        ensures
            r.slots().len() == 0,
    {
        Registry { entries: Vec::new() }
    }

    /// Position of the first entry for `k`, or the number of entries.
    fn first_position(&self, k: &ArchiveHashPath) -> (r: usize)
        ensures
            r <= self.slots().len(),
            forall|j: int| 0 <= j < r ==> self.slots()[j].0 != k@,
            r < self.slots().len() ==> self.slots()[r as int].0 == k@,
    {
        let mut i: usize = 0;
        while i < self.entries.len()
            invariant
                i <= self.entries@.len(),
                forall|j: int| 0 <= j < i ==> self.slots()[j].0 != k@,
            decreases self.entries.len() - i,
        {
            if self.entries[i].0.same_as(k) {
                return i;
            }
            i = i + 1;
        }
        i
    }

    /// Registers a request for `k`.
    pub fn claim(&mut self, k: ArchiveHashPath) -> (r: Claim)
        ensures
            final(self).slots() == claimed(old(self).slots(), k@),
            match r {
                Claim::Produce => slot_of(old(self).slots(), k@) is None,
                Claim::Wait => slot_of(old(self).slots(), k@) == Some(None::<V>),
                Claim::Ready(i) => {
                    &&& slot_of(old(self).slots(), k@) is Some
                    &&& slot_of(old(self).slots(), k@)->Some_0 is Some
                    &&& i < final(self).slots().len()
                    &&& final(self).slots()[i as int] == (k@, slot_of(old(self).slots(), k@)->Some_0)
                },
            },
    {
        let i = self.first_position(&k);
        proof {
            lemma_slot_at(self.slots(), k@, i as int);
        }
        if i < self.entries.len() {
            if self.entries[i].1.is_some() {
                Claim::Ready(i)
            } else {
                Claim::Wait
            }
        } else {
            let ghost before = self.slots();
            self.entries.push((k, None));
            proof {
                assert(self.slots() =~= before.push((k@, None)));
            }
            Claim::Produce
        }
    }

    /// Publishes `v` for `k`; only the first publication for a pending
    /// request is kept.
    pub fn publish(&mut self, k: &ArchiveHashPath, v: V) -> (r: bool)
        ensures
            final(self).slots() == published(old(self).slots(), k@, v),
            r == (slot_of(old(self).slots(), k@) == Some(None::<V>)),
    {
        let i = self.first_position(k);
        proof {
            lemma_slot_at(self.slots(), k@, i as int);
            lemma_published_at(self.slots(), k@, v, i as int);
        }
        if i < self.entries.len() && self.entries[i].1.is_none() {
            let key = self.entries[i].0.duplicate();
            let ghost before = self.slots();
            self.entries.set(i, (key, Some(v)));
            proof {
                assert(self.slots() =~= before.update(i as int, (k@, Some(v))));
            }
            true
        } else {
            false
        }
    }

    /// The result published at position `i`.
    pub fn result(&self, i: usize) -> (r: &Option<V>)
        requires
            i < self.slots().len(),
        ensures
            *r == self.slots()[i as int].1,
    {
        &self.entries[i].1
    }
}

pub proof fn lemma_slot_at<V>(s: Slots<V>, k: HashPathView, i: int)
    requires
        0 <= i <= s.len(),
        forall|j: int| 0 <= j < i ==> s[j].0 != k,
        i < s.len() ==> s[i].0 == k,
    ensures
        i < s.len() ==> slot_of(s, k) == Some(s[i].1),
        i == s.len() ==> slot_of(s, k) is None,
    decreases i,
{
    if i > 0 {
        assert forall|j: int| 0 <= j < i - 1 implies s.drop_first()[j].0 != k by {
            assert(s.drop_first()[j] == s[j + 1]);
        }
        lemma_slot_at(s.drop_first(), k, i - 1);
    }
}

pub proof fn lemma_published_at<V>(s: Slots<V>, k: HashPathView, v: V, i: int)
    requires
        0 <= i <= s.len(),
        forall|j: int| 0 <= j < i ==> s[j].0 != k,
        i < s.len() ==> s[i].0 == k,
    ensures
        i < s.len() && s[i].1 is None ==> published(s, k, v) == s.update(i, (k, Some(v))),
        !(i < s.len() && s[i].1 is None) ==> published(s, k, v) == s,
    decreases i,
{
    if i > 0 {
        assert forall|j: int| 0 <= j < i - 1 implies s.drop_first()[j].0 != k by {
            assert(s.drop_first()[j] == s[j + 1]);
        }
        lemma_published_at(s.drop_first(), k, v, i - 1);
        if i < s.len() && s[i].1 is None {
            assert(seq![s[0]] + s.drop_first().update(i - 1, (k, Some(v))) =~= s.update(i, (k, Some(v))));
        } else {
            assert(seq![s[0]] + s.drop_first() =~= s);
        }
    } else if s.len() > 0 {
        if s[0].1 is None {
            assert(seq![(k, Some(v))] + s.drop_first() =~= s.update(0, (k, Some(v))));
        }
    }
}

} // verus!
