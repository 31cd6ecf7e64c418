use vstd::prelude::*;
use crate::memory::{Memory, is_locked, version_of, LOCK_BIT, MAX_VERSION};

verus! {

/// What a post-validated read of stripe `i` gives at read-version `rv`: the
/// stripe's bytes when it is unlocked and no later than `rv`, else nothing.
pub open spec fn load_outcome(mem: &Memory, rv: u64, i: int) -> Option<Seq<u8>> {
    if mem.locks_view()[i] <= rv {
        Some(mem.stripes_view()[i])
    } else {
        None
    }
}

/// The bytes of a loaded stripe, if any.
pub open spec fn stripe_opt(r: Option<Vec<u8>>) -> Option<Seq<u8>> {
    match r {
        Some(v) => Some(v@),
        None => None,
    }
}

/// What a write transaction with pending writes `w` reads of stripe `i`:
/// its own pending value, else a post-validated read of the memory.
pub open spec fn pending_read(w: Map<int, Seq<u8>>, mem: &Memory, rv: u64, i: int) -> Option<Seq<u8>> {
    if w.contains_key(i) {
        Some(w[i])
    } else {
        load_outcome(mem, rv, i)
    }
}

/// The stripes after the pending writes `w` have been laid over `s`.
pub open spec fn apply_writes(s: Seq<Seq<u8>>, w: Map<int, Seq<u8>>) -> Seq<Seq<u8>> {
    Seq::new(s.len(), |i: int| if w.contains_key(i) { w[i] } else { s[i] })
}

/// The lock words after a commit at version `wv` of a write set `w`.
pub open spec fn stamp_versions(l: Seq<u64>, w: Map<int, Seq<u8>>, wv: u64) -> Seq<u64> {
    Seq::new(l.len(), |i: int| if w.contains_key(i) { wv } else { l[i] })
}

/// A speculative write transaction: the read-version sampled at its start,
/// the stripes it has read, the stripe values it intends to commit, and the
/// stripes whose locks it holds while committing.
pub struct WriteTrans {
    read_ver: u64,
    read_set: Vec<bool>,
    write_set: Vec<Option<Vec<u8>>>,
    locked: Vec<usize>,
    is_abort: bool,
    width: usize,
}

impl WriteTrans {
    /// The read-version.
    pub closed spec fn rv(&self) -> u64 {
        self.read_ver
    }

    /// Whether a load has failed validation.
    pub closed spec fn aborted(&self) -> bool {
        self.is_abort
    }

    /// The number of stripes of the memory this transaction runs on.
    pub closed spec fn n_stripes(&self) -> nat {
        self.read_set@.len()
    }

    /// The stripe width of the memory this transaction runs on.
    pub closed spec fn stripe_width(&self) -> nat {
        self.width as nat
    }

    /// The indices of the stripes read.
    pub closed spec fn reads(&self) -> Set<int> {
        Set::new(|i: int| 0 <= i < self.read_set@.len() && self.read_set@[i])
    }

    /// The pending writes, by stripe index.
    pub closed spec fn writes(&self) -> Map<int, Seq<u8>> {
        Map::new(
            |i: int| 0 <= i < self.write_set@.len() && self.write_set@[i] is Some,
            |i: int| self.write_set@[i]->0@,
        )
    }

    /// The stripes whose locks are held.
    pub closed spec fn held(&self) -> Seq<usize> {
        self.locked@
    }

    /// Well-formedness: one read flag and one write slot per stripe, each
    /// pending value one stripe wide, and no lock held between operations.
    pub closed spec fn wf(&self) -> bool {
        &&& self.wf_shape()
        &&& self.locked@.len() == 0
    }

    /// The shape part of well-formedness, which also holds mid-commit.
    closed spec fn wf_shape(&self) -> bool {
        &&& self.write_set@.len() == self.read_set@.len()
        &&& self.width > 0
        &&& self.width * self.read_set@.len() <= usize::MAX
        &&& forall|i: int| 0 <= i < self.write_set@.len() && (#[trigger] self.write_set@[i]) is Some
            ==> self.write_set@[i]->0@.len() == self.width
    }

    /// Whether this transaction runs on a memory of `mem`'s shape.
    pub open spec fn fits(&self, mem: &Memory) -> bool {
        &&& self.n_stripes() == mem.stripes_view().len()
        &&& self.stripe_width() == mem.stripe_width()
    }

    /// Whether `addr` names a stripe of this transaction's memory.
    pub open spec fn valid_addr(&self, addr: usize) -> bool {
        addr as nat % self.stripe_width() == 0 && (addr as nat) < self.stripe_width() * self.n_stripes()
    }

    /// Starts a write transaction on `mem`, sampling the global clock.
    pub fn new(mem: &Memory) -> (r: WriteTrans)
        requires
            mem.wf(),
        ensures
            r.wf(),
            r.fits(mem),
            r.rv() == mem.clock(),
            !r.aborted(),
            r.reads() == Set::<int>::empty(),
            r.writes() == Map::<int, Seq<u8>>::empty(),
    {
        let n = mem.num_stripes();
        let mut read_set: Vec<bool> = Vec::new();
        let mut write_set: Vec<Option<Vec<u8>>> = Vec::new();
        let mut i: usize = 0;
        while i < n
            invariant
                i <= n,
                read_set@.len() == i,
                write_set@.len() == i,
                forall|j: int| 0 <= j < i ==> !(#[trigger] read_set@[j]),
                forall|j: int| 0 <= j < i ==> (#[trigger] write_set@[j]) is None,
            decreases n - i,
        {
            read_set.push(false);
            write_set.push(None);
            i = i + 1;
        }
        let r = WriteTrans {
            read_ver: mem.global_clock(),
            read_set,
            write_set,
            locked: Vec::new(),
            is_abort: false,
            width: mem.width(),
        };
        assert(r.reads() =~= Set::<int>::empty());
        assert(r.writes() =~= Map::<int, Seq<u8>>::empty());
        r
    }
}

impl WriteTrans {
    /// The stripe `addr` names: reads the pending value when there is one,
    /// else a post-validated read of the memory; a failed validation aborts
    /// the transaction, and an aborted transaction reads nothing.
    pub fn load(&mut self, mem: &Memory, addr: usize) -> (r: Option<Vec<u8>>)
        requires
            old(self).wf(),
            mem.wf(),
            old(self).fits(mem),
            mem.valid_addr(addr),
        ensures
            final(self).wf(),
            final(self).fits(mem),
            final(self).rv() == old(self).rv(),
            final(self).writes() == old(self).writes(),
            old(self).aborted() ==> r is None && final(self).aborted()
                && final(self).reads() == old(self).reads(),
            !old(self).aborted() ==> {
                let i = mem.index_of(addr);
                &&& final(self).reads() == old(self).reads().insert(i)
                &&& stripe_opt(r) == pending_read(old(self).writes(), mem, old(self).rv(), i)
                &&& final(self).aborted() == r is None
            },
    {
        if self.is_abort {
            return None;
        }
        let i = mem.stripe_index(addr);
        self.read_set.set(i, true);
        proof {
            assert(self.reads() =~= old(self).reads().insert(i as int));
            assert(self.writes() =~= old(self).writes());
        }
        match &self.write_set[i] {
            Some(v) => {
                let r = v.clone();
                assert(r@ =~= v@);
                return Some(r);
            },
            None => {},
        }
        // pre-validation
        if !mem.test_not_modify(i, self.read_ver) {
            self.is_abort = true;
            return None;
        }
        let v = mem.read_stripe(i);
        // post-validation
        if !mem.test_not_modify(i, self.read_ver) {
            self.is_abort = true;
            return None;
        }
        Some(v)
    }

    /// Records `val` as the pending value of the stripe `addr` names,
    /// replacing any earlier one; memory is not touched.
    pub fn store(&mut self, addr: usize, val: Vec<u8>)
        requires
            old(self).wf(),
            old(self).valid_addr(addr),
            val@.len() == old(self).stripe_width(),
        ensures
            final(self).wf(),
            final(self).rv() == old(self).rv(),
            final(self).aborted() == old(self).aborted(),
            final(self).reads() == old(self).reads(),
            final(self).n_stripes() == old(self).n_stripes(),
            final(self).stripe_width() == old(self).stripe_width(),
            final(self).writes() == old(self).writes().insert(
                (addr as nat / old(self).stripe_width()) as int,
                val@,
            ),
    {
        let n = self.read_set.len();
        assert(addr as nat / self.stripe_width() < n) by (nonlinear_arith)
            requires
                (addr as nat) < self.stripe_width() * n,
                self.stripe_width() > 0,
        ;
        let i = addr / self.width;
        let ghost vv = val@;
        self.write_set.set(i, Some(val));
        proof {
            assert(self.reads() =~= old(self).reads());
            assert(self.writes() =~= old(self).writes().insert(i as int, vv));
        }
    }
}

/// Whether `j` occurs among the first `k` entries of `s`.
pub open spec fn occurs_before(s: Seq<usize>, k: int, j: int) -> bool {
    exists|q: int| 0 <= q < k && s[q] == j
}

/// Whether the commit of `t` on `mem` goes through: the transaction has not
/// aborted and either writes nothing, or finds every stripe it writes
/// unlocked and every stripe it read unchanged since its read-version (which
/// holds when no other commit advanced the clock).
pub open spec fn commit_succeeds(t: &WriteTrans, mem: &Memory) -> bool {
    &&& !t.aborted()
    &&& (t.writes().dom() =~= Set::<int>::empty() || {
        &&& forall|j: int| #[trigger] t.writes().contains_key(j) ==> !is_locked(mem.locks_view()[j])
        &&& (mem.clock() == t.rv() || forall|j: int| #[trigger] t.reads().contains(j)
            ==> mem.locks_view()[j] <= t.rv())
    })
}

/// What a commit attempt of `t` on `before` leaves in `after`, by its
/// outcome `r`: success exactly when `commit_succeeds`; an empty write set
/// changes nothing; a non-empty one advances the clock by one, lays its
/// values over the stripes and stamps them with the new clock; a failure
/// keeps contents and lock words (the clock may have advanced by one). In
/// every case no lock bit changes, no version goes back, and the clock does
/// not go back.
pub open spec fn commit_effect(t: &WriteTrans, before: &Memory, after: &Memory, r: bool) -> bool {
    &&& after.wf()
    &&& after.stripe_width() == before.stripe_width()
    &&& after.stripes_view().len() == before.stripes_view().len()
    &&& r == commit_succeeds(t, before)
    &&& r && t.writes().dom() =~= Set::<int>::empty() ==> {
        &&& after.stripes_view() == before.stripes_view()
        &&& after.locks_view() == before.locks_view()
        &&& after.clock() == before.clock()
    }
    &&& r && !(t.writes().dom() =~= Set::<int>::empty()) ==> {
        &&& after.clock() == before.clock() + 1
        &&& after.stripes_view() == apply_writes(before.stripes_view(), t.writes())
        &&& after.locks_view() == stamp_versions(before.locks_view(), t.writes(), after.clock())
    }
    &&& !r ==> {
        &&& after.stripes_view() == before.stripes_view()
        &&& after.locks_view() == before.locks_view()
        &&& before.clock() <= after.clock() <= before.clock() + 1
    }
    &&& after.clock() >= before.clock()
    &&& forall|j: int| 0 <= j < before.locks_view().len() ==> {
        &&& is_locked(#[trigger] after.locks_view()[j]) == is_locked(before.locks_view()[j])
        &&& version_of(after.locks_view()[j]) >= version_of(before.locks_view()[j])
    }
}

proof fn lemma_lock_bit_round_trip(w: u64)
    requires
        w < LOCK_BIT,
    ensures
        version_of((w + LOCK_BIT) as u64) == w,
        version_of(w) == w,
        is_locked((w + LOCK_BIT) as u64),
{
}

impl WriteTrans {
    /// Tries to lock every stripe of the write set, in index order, and
    /// stops at the first that is already locked; the locks taken are held.
    fn lock_write_set(&mut self, mem: &mut Memory) -> (r: bool)
        requires
            old(self).wf(),
            old(mem).wf(),
            old(self).fits(old(mem)),
        ensures
            final(self).wf_shape(),
            final(self).rv() == old(self).rv(),
            final(self).aborted() == old(self).aborted(),
            final(self).reads() == old(self).reads(),
            final(self).writes() == old(self).writes(),
            final(self).fits(final(mem)),
            final(mem).wf(),
            final(mem).stripes_view() == old(mem).stripes_view(),
            final(mem).clock() == old(mem).clock(),
            final(mem).stripe_width() == old(mem).stripe_width(),
            forall|k: int| 0 <= k < final(self).held().len() ==> {
                let j = #[trigger] final(self).held()[k] as int;
                &&& old(self).writes().contains_key(j)
                &&& !is_locked(old(mem).locks_view()[j])
            },
            final(mem).locks_view() == Seq::new(old(mem).locks_view().len(), |j: int|
                if occurs_before(final(self).held(), final(self).held().len() as int, j) {
                    (old(mem).locks_view()[j] + LOCK_BIT) as u64
                } else {
                    old(mem).locks_view()[j]
                }),
            r == forall|j: int| #[trigger] old(self).writes().contains_key(j)
                ==> !is_locked(old(mem).locks_view()[j]),
            r ==> forall|j: int| #[trigger] old(self).writes().contains_key(j)
                ==> occurs_before(final(self).held(), final(self).held().len() as int, j),
    {
        let n = self.write_set.len();
        let mut i: usize = 0;
        while i < n
            invariant
                i <= n,
                n == self.write_set@.len(),
                self.wf_shape(),
                self.rv() == old(self).rv(),
                self.aborted() == old(self).aborted(),
                self.read_set == old(self).read_set,
                self.write_set == old(self).write_set,
                self.width == old(self).width,
                self.fits(mem),
                mem.wf(),
                mem.stripes_view() == old(mem).stripes_view(),
                mem.clock() == old(mem).clock(),
                mem.stripe_width() == old(mem).stripe_width(),
                forall|k: int| 0 <= k < self.held().len() ==> {
                    let j = #[trigger] self.held()[k] as int;
                    &&& j < i
                    &&& old(self).writes().contains_key(j)
                    &&& !is_locked(old(mem).locks_view()[j])
                },
                forall|j: int| 0 <= j < i && #[trigger] old(self).writes().contains_key(j)
                    ==> occurs_before(self.held(), self.held().len() as int, j),
                mem.locks_view() == Seq::new(old(mem).locks_view().len(), |j: int|
                    if occurs_before(self.held(), self.held().len() as int, j) {
                        (old(mem).locks_view()[j] + LOCK_BIT) as u64
                    } else {
                        old(mem).locks_view()[j]
                    }),
            decreases n - i,
        {
            if self.write_set[i].is_some() {
                let ghost pre = mem.locks_view();
                let ghost held0 = self.held();
                assert(!occurs_before(held0, held0.len() as int, i as int));
                assert(pre[i as int] == old(mem).locks_view()[i as int]);
                if mem.lock_addr(i) {
                    self.locked.push(i);
                    assert forall|j: int| occurs_before(self.held(), self.held().len() as int, j)
                        == (occurs_before(held0, held0.len() as int, j) || j == i) by {
                        if occurs_before(held0, held0.len() as int, j) {
                            let q = choose|q: int| 0 <= q < held0.len() && held0[q] == j;
                            assert(self.held()[q] == j);
                        }
                        if j == i {
                            assert(self.held()[held0.len() as int] == j);
                        }
                    }
                    assert(mem.locks_view() =~= Seq::new(old(mem).locks_view().len(), |j: int|
                        if occurs_before(self.held(), self.held().len() as int, j) {
                            (old(mem).locks_view()[j] + LOCK_BIT) as u64
                        } else {
                            old(mem).locks_view()[j]
                        }));
                } else {
                    assert(old(self).writes().contains_key(i as int));
                    return false;
                }
            }
            i = i + 1;
        }
        proof {
            assert(self.reads() =~= old(self).reads());
            assert(self.writes() =~= old(self).writes());
        }
        true
    }

    /// Releases every lock held, keeping each stripe's version.
    fn release(&mut self, mem: &mut Memory)
        requires
            old(self).wf_shape(),
            old(mem).wf(),
            old(self).fits(old(mem)),
            forall|k: int| 0 <= k < old(self).held().len() ==> #[trigger] old(self).held()[k] < old(self).n_stripes(),
        ensures
            final(self).wf(),
            final(self).rv() == old(self).rv(),
            final(self).aborted() == old(self).aborted(),
            final(self).reads() == old(self).reads(),
            final(self).writes() == old(self).writes(),
            final(self).fits(final(mem)),
            final(mem).wf(),
            final(mem).stripes_view() == old(mem).stripes_view(),
            final(mem).clock() == old(mem).clock(),
            final(mem).stripe_width() == old(mem).stripe_width(),
            final(mem).locks_view() == Seq::new(old(mem).locks_view().len(), |j: int|
                if occurs_before(old(self).held(), old(self).held().len() as int, j) {
                    version_of(old(mem).locks_view()[j])
                } else {
                    old(mem).locks_view()[j]
                }),
    {
        let h = self.locked.len();
        let mut k: usize = 0;
        while k < h
            invariant
                k <= h,
                h == self.locked@.len(),
                self.locked == old(self).locked,
                self.wf_shape(),
                self.fits(mem),
                old(self).fits(old(mem)),
                forall|q: int| 0 <= q < old(self).held().len() ==> #[trigger] old(self).held()[q] < old(self).n_stripes(),
                mem.wf(),
                mem.stripes_view() == old(mem).stripes_view(),
                mem.clock() == old(mem).clock(),
                mem.stripe_width() == old(mem).stripe_width(),
                mem.locks_view() == Seq::new(old(mem).locks_view().len(), |j: int|
                    if occurs_before(old(self).held(), k as int, j) {
                        version_of(old(mem).locks_view()[j])
                    } else {
                        old(mem).locks_view()[j]
                    }),
            decreases h - k,
        {
            let a = self.locked[k];
            let ghost pre = mem.locks_view();
            mem.unlock_addr(a);
            proof {
                let s = old(self).held();
                assert forall|j: int| occurs_before(s, k + 1, j) == (occurs_before(s, k as int, j) || j == a) by {
                    if occurs_before(s, k + 1, j) {
                        let q = choose|q: int| 0 <= q < k + 1 && s[q] == j;
                        if q < k {
                            assert(occurs_before(s, k as int, j));
                        }
                    }
                    if j == a {
                        assert(s[k as int] == j);
                    }
                    if occurs_before(s, k as int, j) {
                        let q = choose|q: int| 0 <= q < k && s[q] == j;
                        assert(s[q] == j);
                    }
                }
                let w = old(mem).locks_view()[a as int];
                assert(version_of(version_of(w)) == version_of(w));
                assert(mem.locks_view() =~= Seq::new(old(mem).locks_view().len(), |j: int|
                    if occurs_before(s, k + 1, j) {
                        version_of(old(mem).locks_view()[j])
                    } else {
                        old(mem).locks_view()[j]
                    }));
            }
            k = k + 1;
        }
        self.locked.clear();
    }
}

impl WriteTrans {
    /// Whether every stripe read is still at a version no later than the
    /// read-version: for a stripe this transaction writes, and so has locked,
    /// the version bits alone are compared.
    fn validate_read_set(&self, mem: &Memory) -> (r: bool)
        requires
            self.wf_shape(),
            mem.wf(),
            self.fits(mem),
        ensures
            r == forall|j: int| #[trigger] self.reads().contains(j) ==> if self.writes().contains_key(j) {
                version_of(mem.locks_view()[j]) <= self.rv()
            } else {
                mem.locks_view()[j] <= self.rv()
            },
    {
        let n = self.read_set.len();
        let mut i: usize = 0;
        while i < n
            invariant
                i <= n,
                n == self.read_set@.len(),
                self.wf_shape(),
                mem.wf(),
                self.fits(mem),
                forall|j: int| 0 <= j < i && #[trigger] self.reads().contains(j) ==> if self.writes().contains_key(j) {
                    version_of(mem.locks_view()[j]) <= self.rv()
                } else {
                    mem.locks_view()[j] <= self.rv()
                },
            decreases n - i,
        {
            if self.read_set[i] {
                assert(self.reads().contains(i as int));
                if self.write_set[i].is_some() {
                    assert(self.writes().contains_key(i as int));
                    if mem.get_addr_ver(i) > self.read_ver {
                        return false;
                    }
                } else {
                    if !mem.test_not_modify(i, self.read_ver) {
                        return false;
                    }
                }
            }
            i = i + 1;
        }
        true
    }

    /// Copies every pending value into memory, then stamps each held stripe
    /// with version `ver`, which also releases its lock.
    fn commit(&mut self, mem: &mut Memory, ver: u64)
        requires
            old(self).wf_shape(),
            old(mem).wf(),
            old(self).fits(old(mem)),
            ver <= old(mem).clock(),
            forall|k: int| 0 <= k < old(self).held().len()
                ==> old(self).writes().contains_key(#[trigger] old(self).held()[k] as int),
            forall|j: int| #[trigger] old(self).writes().contains_key(j)
                ==> occurs_before(old(self).held(), old(self).held().len() as int, j),
        ensures
            final(self).wf(),
            final(self).rv() == old(self).rv(),
            final(self).aborted() == old(self).aborted(),
            final(self).reads() == old(self).reads(),
            final(self).writes() == old(self).writes(),
            final(self).fits(final(mem)),
            final(mem).wf(),
            final(mem).stripes_view() == apply_writes(old(mem).stripes_view(), old(self).writes()),
            final(mem).locks_view() == stamp_versions(old(mem).locks_view(), old(self).writes(), ver),
            final(mem).clock() == old(mem).clock(),
            final(mem).stripe_width() == old(mem).stripe_width(),
    {
        let n = self.write_set.len();
        let mut i: usize = 0;
        while i < n
            invariant
                i <= n,
                n == self.write_set@.len(),
                self.wf_shape(),
                self.read_set == old(self).read_set,
                self.write_set == old(self).write_set,
                self.locked == old(self).locked,
                self.width == old(self).width,
                self.read_ver == old(self).read_ver,
                self.is_abort == old(self).is_abort,
                self.fits(mem),
                mem.wf(),
                mem.locks_view() == old(mem).locks_view(),
                mem.clock() == old(mem).clock(),
                mem.stripe_width() == old(mem).stripe_width(),
                mem.stripes_view() == Seq::new(old(mem).stripes_view().len(), |j: int|
                    if j < i && old(self).writes().contains_key(j) {
                        old(self).writes()[j]
                    } else {
                        old(mem).stripes_view()[j]
                    }),
            decreases n - i,
        {
            match &self.write_set[i] {
                Some(v) => {
                    let c = v.clone();
                    assert(c@ =~= v@);
                    mem.write_stripe(i, c);
                },
                None => {},
            }
            assert(mem.stripes_view() =~= Seq::new(old(mem).stripes_view().len(), |j: int|
                if j < i + 1 && old(self).writes().contains_key(j) {
                    old(self).writes()[j]
                } else {
                    old(mem).stripes_view()[j]
                }));
            i = i + 1;
        }
        assert(mem.stripes_view() =~= apply_writes(old(mem).stripes_view(), old(self).writes()));
        let h = self.locked.len();
        let mut k: usize = 0;
        while k < h
            invariant
                k <= h,
                h == self.locked@.len(),
                self.locked == old(self).locked,
                self.wf_shape(),
                self.read_set == old(self).read_set,
                self.write_set == old(self).write_set,
                self.width == old(self).width,
                self.read_ver == old(self).read_ver,
                self.is_abort == old(self).is_abort,
                self.fits(mem),
                old(self).fits(old(mem)),
                forall|q: int| 0 <= q < old(self).held().len()
                    ==> old(self).writes().contains_key(#[trigger] old(self).held()[q] as int),
                mem.wf(),
                ver <= mem.clock(),
                mem.stripes_view() == apply_writes(old(mem).stripes_view(), old(self).writes()),
                mem.clock() == old(mem).clock(),
                mem.stripe_width() == old(mem).stripe_width(),
                mem.locks_view() == Seq::new(old(mem).locks_view().len(), |j: int|
                    if occurs_before(old(self).held(), k as int, j) {
                        ver
                    } else {
                        old(mem).locks_view()[j]
                    }),
            decreases h - k,
        {
            let a = self.locked[k];
            assert(old(self).writes().contains_key(a as int));
            mem.publish(a, ver);
            proof {
                let s = old(self).held();
                assert forall|j: int| occurs_before(s, k + 1, j) == (occurs_before(s, k as int, j) || j == a) by {
                    if occurs_before(s, k + 1, j) {
                        let q = choose|q: int| 0 <= q < k + 1 && s[q] == j;
                        if q < k {
                            assert(occurs_before(s, k as int, j));
                        }
                    }
                    if j == a {
                        assert(s[k as int] == j);
                    }
                    if occurs_before(s, k as int, j) {
                        let q = choose|q: int| 0 <= q < k && s[q] == j;
                        assert(s[q] == j);
                    }
                }
                assert(mem.locks_view() =~= Seq::new(old(mem).locks_view().len(), |j: int|
                    if occurs_before(s, k + 1, j) {
                        ver
                    } else {
                        old(mem).locks_view()[j]
                    }));
            }
            k = k + 1;
        }
        proof {
            let s = old(self).held();
            assert forall|j: int| 0 <= j < old(mem).locks_view().len() implies
                occurs_before(s, h as int, j) == old(self).writes().contains_key(j) by {
                if occurs_before(s, h as int, j) {
                    let q = choose|q: int| 0 <= q < h && s[q] == j;
                    assert(old(self).writes().contains_key(s[q] as int));
                }
            }
            assert(mem.locks_view() =~= stamp_versions(old(mem).locks_view(), old(self).writes(), ver));
        }
        self.locked.clear();
        proof {
            assert(self.reads() =~= old(self).reads());
            assert(self.writes() =~= old(self).writes());
        }
    }
}

impl WriteTrans {
    /// Runs the commit protocol: lock the write set, advance the clock to the
    /// write-version, validate the read set unless no other commit came in
    /// between, write back and publish the write-version. A transaction with
    /// an empty write set commits without touching memory or the clock. On
    /// failure every lock taken is released and memory keeps its contents and
    /// lock words. Either way, no lock bit is left changed, no version goes
    /// back and the clock does not go back.
    pub fn try_commit(&mut self, mem: &mut Memory) -> (r: bool)
        requires
            old(self).wf(),
            old(mem).wf(),
            old(self).fits(old(mem)),
            old(mem).clock() < MAX_VERSION,
        ensures
            final(self).wf(),
            final(self).fits(final(mem)),
            final(self).rv() == old(self).rv(),
            final(self).aborted() == old(self).aborted(),
            final(self).reads() == old(self).reads(),
            final(self).writes() == old(self).writes(),
            final(mem).wf(),
            final(mem).stripe_width() == old(mem).stripe_width(),
            commit_effect(old(self), old(mem), final(mem), r),
    {
        if self.is_abort {
            return false;
        }
        let ghost m0 = *mem;
        let ghost t0 = *self;
        let all_locked = self.lock_write_set(mem);
        let ghost m1 = *mem;
        let ghost h1 = self.held();
        proof {
            assert forall|j: int| occurs_before(h1, h1.len() as int, j) implies
                !is_locked(m0.locks_view()[j]) && t0.writes().contains_key(j) by {
                let q = choose|q: int| 0 <= q < h1.len() && h1[q] == j;
                assert(h1[q] as int == j);
            }
            assert forall|j: int| 0 <= j < m0.locks_view().len() && occurs_before(h1, h1.len() as int, j) implies
                version_of(#[trigger] m1.locks_view()[j]) == m0.locks_view()[j] by {
                lemma_lock_bit_round_trip(m0.locks_view()[j]);
            }
        }
        if !all_locked {
            self.release(mem);
            proof {
                assert(mem.locks_view() =~= m0.locks_view());
            }
            return false;
        }
        if self.locked.len() == 0 {
            proof {
                assert forall|j: int| !t0.writes().dom().contains(j) by {
                    if t0.writes().contains_key(j) {
                        assert(occurs_before(h1, 0, j));
                    }
                }
                assert(t0.writes().dom() =~= Set::<int>::empty());
                assert(mem.locks_view() =~= m0.locks_view());
                assert(self.reads() =~= t0.reads());
            }
            return true;
        }
        proof {
            assert(t0.writes().contains_key(h1[0] as int));
            assert(t0.writes().dom().contains(h1[0] as int));
            assert(!(t0.writes().dom() =~= Set::<int>::empty()));
        }
        let prev = mem.inc_global_clock();
        let ver = prev + 1;
        if prev != self.read_ver && !self.validate_read_set(mem) {
            self.release(mem);
            proof {
                assert(mem.locks_view() =~= m0.locks_view());
                let j = choose|j: int| #[trigger] t0.reads().contains(j) && !(if t0.writes().contains_key(j) {
                    version_of(m1.locks_view()[j]) <= t0.rv()
                } else {
                    m1.locks_view()[j] <= t0.rv()
                });
                if !t0.writes().contains_key(j) {
                    if occurs_before(h1, h1.len() as int, j) {
                    }
                }
                assert(!(m0.locks_view()[j] <= t0.rv()));
            }
            return false;
        }
        proof {
            if prev != t0.rv() {
                assert forall|j: int| #[trigger] t0.reads().contains(j) implies m0.locks_view()[j] <= t0.rv() by {
                    if !t0.writes().contains_key(j) {
                        if occurs_before(h1, h1.len() as int, j) {
                        }
                    }
                }
            }
        }
        self.commit(mem, ver);
        proof {
            assert(stamp_versions(m1.locks_view(), t0.writes(), ver) =~= stamp_versions(
                m0.locks_view(),
                t0.writes(),
                ver,
            ));
        }
        true
    }
}

/// A read-only transaction: the read-version sampled at its start and
/// whether a load has failed validation. It never takes a lock.
pub struct ReadTrans {
    read_ver: u64,
    is_abort: bool,
}

impl ReadTrans {
    /// The read-version.
    pub closed spec fn rv(&self) -> u64 {
        self.read_ver
    }

    /// Whether a load has failed validation.
    pub closed spec fn aborted(&self) -> bool {
        self.is_abort
    }

    /// Starts a read transaction on `mem`, sampling the global clock.
    pub fn new(mem: &Memory) -> (r: ReadTrans)
        ensures
            r.rv() == mem.clock(),
            !r.aborted(),
    {
        ReadTrans { read_ver: mem.global_clock(), is_abort: false }
    }

    /// The stripe `addr` names, by a post-validated read; a failed validation
    /// aborts the transaction, and an aborted transaction reads nothing.
    pub fn load(&mut self, mem: &Memory, addr: usize) -> (r: Option<Vec<u8>>)
        requires
            mem.wf(),
            mem.valid_addr(addr),
        ensures
            final(self).rv() == old(self).rv(),
            old(self).aborted() ==> r is None && final(self).aborted(),
            !old(self).aborted() ==> {
                &&& stripe_opt(r) == load_outcome(mem, old(self).rv(), mem.index_of(addr))
                &&& final(self).aborted() == r is None
            },
    {
        if self.is_abort {
            return None;
        }
        let i = mem.stripe_index(addr);
        // pre-validation
        if !mem.test_not_modify(i, self.read_ver) {
            self.is_abort = true;
            return None;
        }
        let v = mem.read_stripe(i);
        // post-validation
        if !mem.test_not_modify(i, self.read_ver) {
            self.is_abort = true;
            return None;
        }
        Some(v)
    }

    /// Whether a load has failed validation.
    pub fn is_aborted(&self) -> (r: bool)
        ensures
            r == self.aborted(),
    {
        self.is_abort
    }
}

impl WriteTrans {
    /// Whether a load has failed validation.
    pub fn is_aborted(&self) -> (r: bool)
        ensures
            r == self.aborted(),
    {
        self.is_abort
    }
}

/// Within one write transaction, a load after a store to the same stripe
/// reads the stored value, whatever the memory holds.
pub proof fn lemma_read_your_writes(w: Map<int, Seq<u8>>, mem: &Memory, rv: u64, i: int, v: Seq<u8>)
    ensures
        pending_read(w.insert(i, v), mem, rv, i) == Some(v),
{
}

/// After a write transaction that stores `w[i]` at stripe `i` commits on
/// `before`, giving `after`, a fresh transaction on `after` reads exactly
/// `w[i]` there.
pub proof fn lemma_round_trip(before: &Memory, after: &Memory, w: Map<int, Seq<u8>>, i: int)
    requires
        before.wf(),
        0 <= i < before.stripes_view().len(),
        w.contains_key(i),
        after.clock() == before.clock() + 1,
        after.stripes_view() == apply_writes(before.stripes_view(), w),
        after.locks_view() == stamp_versions(before.locks_view(), w, after.clock()),
    ensures
        load_outcome(after, after.clock(), i) == Some(w[i]),
{
}

/// A commit attempt that starts with the clock at or past `rv` cannot hand
/// a reader at read-version `rv` new bytes: a stripe whose lock word is at
/// most `rv` afterwards had that same word and the same bytes before. Step
/// by step, every load validated against `rv` therefore returns what the
/// stripe held when the clock read `rv`, so a read transaction's loads form
/// one snapshot.
pub proof fn lemma_snapshot_survives_commit(t: &WriteTrans, before: &Memory, after: &Memory, r: bool, rv: u64, i: int)
    requires
        before.wf(),
        commit_effect(t, before, after, r),
        rv <= before.clock(),
        0 <= i < before.stripes_view().len(),
        after.locks_view()[i] <= rv,
    ensures
        before.locks_view()[i] == after.locks_view()[i],
        before.stripes_view()[i] == after.stripes_view()[i],
{
    if r && !(t.writes().dom() =~= Set::<int>::empty()) {
        if t.writes().contains_key(i) {
            assert(after.locks_view()[i] == after.clock());
        }
    }
}

/// A commit attempt, whatever its outcome, leaves no lock behind: on a
/// memory where no stripe is locked, none is locked afterwards.
pub proof fn lemma_commit_releases_locks(t: &WriteTrans, before: &Memory, after: &Memory, r: bool)
    requires
        commit_effect(t, before, after, r),
        before.quiescent(),
    ensures
        after.quiescent(),
{
    assert forall|j: int| 0 <= j < after.locks_view().len() implies !is_locked(#[trigger] after.locks_view()[j]) by {
        if r && !(t.writes().dom() =~= Set::<int>::empty()) {
            assert(after.locks_view().len() == before.locks_view().len());
        }
    }
}

/// A write transaction that commits a non-empty write set on a memory where
/// no stripe is locked finds every stripe it read still at a version no
/// later than its read-version, so (by `lemma_snapshot_survives_commit`)
/// still holding the bytes it read; and its whole write set lands in one
/// step. It thus acts as if it ran alone at its commit.
pub proof fn lemma_commit_is_atomic(t: &WriteTrans, before: &Memory, after: &Memory)
    requires
        before.wf(),
        before.quiescent(),
        t.fits(before),
        t.rv() <= before.clock(),
        !(t.writes().dom() =~= Set::<int>::empty()),
        commit_effect(t, before, after, true),
    ensures
        forall|j: int| #[trigger] t.reads().contains(j) ==> before.locks_view()[j] <= t.rv(),
        after.stripes_view() == apply_writes(before.stripes_view(), t.writes()),
        after.clock() == before.clock() + 1,
{
    assert forall|j: int| #[trigger] t.reads().contains(j) implies before.locks_view()[j] <= t.rv() by {
        if before.clock() == t.rv() {
            assert(t.reads().contains(j));
            assert(0 <= j < t.n_stripes());
            assert(version_of(before.locks_view()[j]) <= before.clock());
            assert(!is_locked(before.locks_view()[j]));
        }
    }
}

} // verus!
