use vstd::prelude::*;

verus! {

/// Bit 63 of a lock word: set while a committing transaction holds the stripe.
pub const LOCK_BIT: u64 = 0x8000_0000_0000_0000;

/// The low 63 bits of a lock word: the version of the last commit.
pub const VERSION_MASK: u64 = 0x7fff_ffff_ffff_ffff;

/// The largest version a lock word can carry; the clock never passes it.
pub const MAX_VERSION: u64 = 0x7fff_ffff_ffff_ffff;

/// Whether `n` is a power of two.
pub open spec fn is_power_of_two(n: nat) -> bool
    decreases n,
{
    if n == 1 {
        true
    } else if n < 2 || n % 2 == 1 {
        false
    } else {
        is_power_of_two(n / 2)
    }
}

/// Whether the write-lock bit of a lock word is set.
pub open spec fn is_locked(w: u64) -> bool {
    w >= LOCK_BIT
}

/// The version carried by a lock word.
pub open spec fn version_of(w: u64) -> u64 {
    (w % LOCK_BIT) as u64
}

/// The memory: stripes of equal width, one lock word per stripe, and the
/// global version clock.
pub struct Memory {
    stripes: Vec<Vec<u8>>,
    lock_ver: Vec<u64>,
    global_clock: u64,
    width: usize,
}

impl Memory {
    /// The stripes' contents.
    pub closed spec fn stripes_view(&self) -> Seq<Seq<u8>> {
        Seq::new(self.stripes@.len(), |i: int| self.stripes@[i]@)
    }

    /// The lock words, one per stripe.
    pub closed spec fn locks_view(&self) -> Seq<u64> {
        self.lock_ver@
    }

    /// The global version clock.
    pub closed spec fn clock(&self) -> u64 {
        self.global_clock
    }

    /// The stripe width in bytes.
    pub closed spec fn stripe_width(&self) -> nat {
        self.width as nat
    }

    /// The memory size in bytes.
    pub open spec fn size(&self) -> nat {
        self.stripe_width() * self.stripes_view().len()
    }

    /// Whether `addr` names a stripe: aligned and in range.
    pub open spec fn valid_addr(&self, addr: usize) -> bool {
        addr as nat % self.stripe_width() == 0 && (addr as nat) < self.size()
    }

    /// The stripe index of an address.
    pub open spec fn index_of(&self, addr: usize) -> int {
        (addr as nat / self.stripe_width()) as int
    }

    /// Well-formedness: a power-of-two width, at least one stripe, every
    /// stripe of that width, one lock word per stripe, no version above the
    /// clock, and a clock within 63 bits.
    pub open spec fn wf(&self) -> bool {
        &&& is_power_of_two(self.stripe_width())
        &&& self.stripes_view().len() > 0
        &&& self.size() <= usize::MAX
        &&& self.locks_view().len() == self.stripes_view().len()
        &&& forall|i: int| 0 <= i < self.stripes_view().len()
            ==> (#[trigger] self.stripes_view()[i]).len() == self.stripe_width()
        &&& self.clock() <= MAX_VERSION
        &&& forall|i: int| 0 <= i < self.locks_view().len()
            ==> version_of(#[trigger] self.locks_view()[i]) <= self.clock()
    }

    /// Whether no stripe is locked.
    pub open spec fn quiescent(&self) -> bool {
        forall|i: int| 0 <= i < self.locks_view().len() ==> !is_locked(#[trigger] self.locks_view()[i])
    }
}


/// Whether `n` is a power of two, computed by halving.
fn check_power_of_two(n: usize) -> (r: bool)
    ensures
        r == is_power_of_two(n as nat),
{
    let mut m: usize = n;
    while m >= 2 && m % 2 == 0
        invariant
            is_power_of_two(m as nat) == is_power_of_two(n as nat),
        decreases m,
    {
        m = m / 2;
    }
    m == 1
}

impl Memory {
    /// A zeroed memory of `size_bytes` bytes in stripes of `stripe_width`
    /// bytes, or `None` unless the width is a power of two and the size a
    /// positive multiple of it.
    pub fn new(size_bytes: usize, stripe_width: usize) -> (r: Option<Memory>)
        ensures
            r is Some <==> (is_power_of_two(stripe_width as nat) && size_bytes > 0
                && size_bytes % stripe_width == 0),
            r matches Some(m) ==> {
                &&& m.wf()
                &&& m.quiescent()
                &&& m.stripe_width() == stripe_width
                &&& m.size() == size_bytes
                &&& m.clock() == 0
                &&& forall|i: int| 0 <= i < m.locks_view().len() ==> #[trigger] m.locks_view()[i] == 0
                &&& forall|i: int| 0 <= i < m.stripes_view().len()
                    ==> #[trigger] m.stripes_view()[i] == Seq::new(stripe_width as nat, |k: int| 0u8)
            },
    {
        if !check_power_of_two(stripe_width) || size_bytes == 0 || size_bytes % stripe_width != 0 {
            return None;
        }
        let n: usize = size_bytes / stripe_width;
        let mut stripes: Vec<Vec<u8>> = Vec::new();
        let mut lock_ver: Vec<u64> = Vec::new();
        let mut i: usize = 0;
        while i < n
            invariant
                i <= n,
                stripes@.len() == i,
                lock_ver@.len() == i,
                forall|j: int| 0 <= j < i ==> #[trigger] stripes@[j]@ == Seq::new(stripe_width as nat, |k: int| 0u8),
                forall|j: int| 0 <= j < i ==> #[trigger] lock_ver@[j] == 0,
            decreases n - i,
        {
            let mut s: Vec<u8> = Vec::new();
            let mut k: usize = 0;
            while k < stripe_width
                invariant
                    k <= stripe_width,
                    s@ == Seq::new(k as nat, |q: int| 0u8),
                decreases stripe_width - k,
            {
                s.push(0u8);
                k = k + 1;
                assert(s@ =~= Seq::new(k as nat, |q: int| 0u8));
            }
            stripes.push(s);
            lock_ver.push(0u64);
            i = i + 1;
        }
        let m = Memory { stripes, lock_ver, global_clock: 0, width: stripe_width };
        assert(m.size() == size_bytes && n > 0) by (nonlinear_arith)
            requires
                m.size() == stripe_width * n,
                n == size_bytes / stripe_width,
                size_bytes % stripe_width == 0,
                size_bytes > 0,
                stripe_width > 0,
        ;
        assert(forall|i: int| 0 <= i < m.locks_view().len() ==> version_of(#[trigger] m.locks_view()[i]) <= m.clock()) by {
            assert forall|i: int| 0 <= i < m.locks_view().len() implies version_of(#[trigger] m.locks_view()[i]) <= m.clock() by {
                assert(m.locks_view()[i] == 0);
            }
        }
        assert(m.wf());
        assert(m.quiescent());
        assert(forall|i: int| 0 <= i < m.stripes_view().len()
                    ==> #[trigger] m.stripes_view()[i] == Seq::new(stripe_width as nat, |k: int| 0u8));
        Some(m)
    }
}


/// Setting the lock bit of an unlocked word adds it; clearing it leaves the
/// version.
proof fn lemma_lock_word_bits(w: u64)
    ensures
        (w & LOCK_BIT == 0) == (w < LOCK_BIT),
        w < LOCK_BIT ==> (w | LOCK_BIT) == w + LOCK_BIT,
        (w & VERSION_MASK) == w % LOCK_BIT,
{
    assert((w & 0x8000_0000_0000_0000u64 == 0) == (w < 0x8000_0000_0000_0000u64)) by (bit_vector);
    assert(w < 0x8000_0000_0000_0000u64 ==> (w | 0x8000_0000_0000_0000u64) == w + 0x8000_0000_0000_0000u64)
        by (bit_vector);
    assert((w & 0x7fff_ffff_ffff_ffffu64) == w % 0x8000_0000_0000_0000u64) by (bit_vector);
}

impl Memory {
    /// The number of stripes.
    pub fn num_stripes(&self) -> (r: usize)
        ensures
            r == self.stripes_view().len(),
    {
        self.stripes.len()
    }

    /// The stripe width in bytes.
    pub fn width(&self) -> (r: usize)
        ensures
            r == self.stripe_width(),
    {
        self.width
    }

    /// The current value of the global version clock.
    pub fn global_clock(&self) -> (r: u64)
        ensures
            r == self.clock(),
    {
        self.global_clock
    }

    /// The stripe index of an aligned, in-range address.
    pub fn stripe_index(&self, addr: usize) -> (r: usize)
        requires
            self.wf(),
            self.valid_addr(addr),
        ensures
            r == self.index_of(addr),
            r < self.stripes_view().len(),
    {
        let n = self.stripes.len();
        assert(addr as nat / self.stripe_width() < n) by (nonlinear_arith)
            requires
                (addr as nat) < self.stripe_width() * n,
                self.stripe_width() > 0,
        ;
        addr / self.width
    }

    /// Whether stripe `i` is unlocked with a version no later than `rv`: the
    /// lock bit set puts the word above any version.
    pub fn test_not_modify(&self, i: usize, rv: u64) -> (r: bool)
        requires
            i < self.locks_view().len(),
        ensures
            r == (self.locks_view()[i as int] <= rv),
    {
        self.lock_ver[i] <= rv
    }

    /// The version of stripe `i`, whether or not it is locked.
    pub fn get_addr_ver(&self, i: usize) -> (r: u64)
        requires
            i < self.locks_view().len(),
        ensures
            r == version_of(self.locks_view()[i as int]),
    {
        let w = self.lock_ver[i];
        proof {
            lemma_lock_word_bits(w);
        }
        w & VERSION_MASK
    }

    /// Tries to set the lock bit of stripe `i`; fails when it is already set.
    pub(crate) fn lock_addr(&mut self, i: usize) -> (r: bool)
        requires
            old(self).wf(),
            i < old(self).locks_view().len(),
        ensures
            final(self).wf(),
            r == !is_locked(old(self).locks_view()[i as int]),
            final(self).locks_view() == (if r {
                old(self).locks_view().update(i as int, (old(self).locks_view()[i as int] + LOCK_BIT) as u64)
            } else {
                old(self).locks_view()
            }),
            final(self).stripes_view() == old(self).stripes_view(),
            final(self).clock() == old(self).clock(),
            final(self).stripe_width() == old(self).stripe_width(),
    {
        let w = self.lock_ver[i];
        proof {
            lemma_lock_word_bits(w);
        }
        if w & LOCK_BIT == 0 {
            self.lock_ver.set(i, w | LOCK_BIT);
            assert(version_of((w + LOCK_BIT) as u64) == version_of(w));
            true
        } else {
            false
        }
    }

    /// Advances the global clock by one and returns its previous value.
    pub(crate) fn inc_global_clock(&mut self) -> (r: u64)
        requires
            old(self).wf(),
            old(self).clock() < MAX_VERSION,
        ensures
            final(self).wf(),
            r == old(self).clock(),
            final(self).clock() == old(self).clock() + 1,
            final(self).locks_view() == old(self).locks_view(),
            final(self).stripes_view() == old(self).stripes_view(),
            final(self).stripe_width() == old(self).stripe_width(),
    {
        let r = self.global_clock;
        self.global_clock = r + 1;
        r
    }

    /// Clears the lock bit of stripe `i`, keeping its version.
    pub(crate) fn unlock_addr(&mut self, i: usize)
        requires
            old(self).wf(),
            i < old(self).locks_view().len(),
        ensures
            final(self).wf(),
            final(self).locks_view() == old(self).locks_view().update(
                i as int,
                version_of(old(self).locks_view()[i as int]),
            ),
            final(self).stripes_view() == old(self).stripes_view(),
            final(self).clock() == old(self).clock(),
            final(self).stripe_width() == old(self).stripe_width(),
    {
        let w = self.lock_ver[i];
        proof {
            lemma_lock_word_bits(w);
        }
        self.lock_ver.set(i, w & VERSION_MASK);
    }

    /// Stamps stripe `i` with version `v`, clearing its lock bit.
    pub(crate) fn publish(&mut self, i: usize, v: u64)
        requires
            old(self).wf(),
            i < old(self).locks_view().len(),
            v <= old(self).clock(),
        ensures
            final(self).wf(),
            final(self).locks_view() == old(self).locks_view().update(i as int, v),
            final(self).stripes_view() == old(self).stripes_view(),
            final(self).clock() == old(self).clock(),
            final(self).stripe_width() == old(self).stripe_width(),
    {
        self.lock_ver.set(i, v);
    }

    /// A copy of stripe `i`.
    pub(crate) fn read_stripe(&self, i: usize) -> (r: Vec<u8>)
        requires
            i < self.stripes_view().len(),
        ensures
            r@ == self.stripes_view()[i as int],
    {
        let r = self.stripes[i].clone();
        assert(r@ =~= self.stripes@[i as int]@);
        r
    }

    /// Overwrites stripe `i` with `val`.
    pub(crate) fn write_stripe(&mut self, i: usize, val: Vec<u8>)
        requires
            old(self).wf(),
            i < old(self).stripes_view().len(),
            val@.len() == old(self).stripe_width(),
        ensures
            final(self).wf(),
            final(self).stripes_view() == old(self).stripes_view().update(i as int, val@),
            final(self).locks_view() == old(self).locks_view(),
            final(self).clock() == old(self).clock(),
            final(self).stripe_width() == old(self).stripe_width(),
    {
        self.stripes.set(i, val);
        assert(self.stripes_view() =~= old(self).stripes_view().update(i as int, val@));
    }
}

} // verus!
