use vstd::prelude::*;
use crate::memory::{Memory, is_power_of_two, MAX_VERSION};
use crate::transaction::{WriteTrans, ReadTrans, commit_effect};

verus! {

/// What a transaction body signals: a value to commit, a request to run
/// again on a fresh snapshot, or giving up without a commit.
pub enum STMResult<T> {
    Done(T),
    Retry,
    Abort,
}

/// What the retry loop does once a transaction body has run.
#[derive(Debug, Clone, Copy, PartialEq, Eq, Structural)]
pub enum Next {
    /// Attempt the commit (a read transaction has nothing to publish and is
    /// done).
    Commit,
    /// Drop this attempt and run the body again on a fresh transaction.
    Rerun,
    /// Stop without committing; the loop yields no result.
    GiveUp,
}

/// The retry loop's decision for a body's result and whether the attempt
/// aborted.
pub open spec fn next_of<T>(result: STMResult<T>, aborted: bool) -> Next {
    match result {
        STMResult::Done(_) => if aborted {
            Next::Rerun
        } else {
            Next::Commit
        },
        STMResult::Retry => Next::Rerun,
        STMResult::Abort => Next::GiveUp,
    }
}

/// Decides what follows a body that signalled `result` on an attempt that
/// has or has not `aborted`: a value from a sound attempt is committed, a
/// value from an aborted attempt and a retry request run the body again, and
/// giving up ends the loop.
pub fn after_body<T>(result: &STMResult<T>, aborted: bool) -> (r: Next)
    ensures
        r == next_of(*result, aborted),
{
    match result {
        STMResult::Done(_) => if aborted {
            Next::Rerun
        } else {
            Next::Commit
        },
        STMResult::Retry => Next::Rerun,
        STMResult::Abort => Next::GiveUp,
    }
}

/// The transactional memory: owns the memory and hands out transactions on
/// it.
pub struct STM {
    mem: Memory,
}

impl STM {
    /// The memory.
    pub closed spec fn memory(&self) -> Memory {
        self.mem
    }

    /// Well-formedness: the memory is.
    pub open spec fn wf(&self) -> bool {
        self.memory().wf()
    }

    /// A zeroed transactional memory of `size_bytes` bytes in stripes of
    /// `stripe_width` bytes, or `None` unless the width is a power of two and
    /// the size a positive multiple of it.
    pub fn new(size_bytes: usize, stripe_width: usize) -> (r: Option<STM>)
        ensures
            r is Some <==> (is_power_of_two(stripe_width as nat) && size_bytes > 0
                && size_bytes % stripe_width == 0),
            r matches Some(s) ==> {
                &&& s.wf()
                &&& s.memory().quiescent()
                &&& s.memory().stripe_width() == stripe_width
                &&& s.memory().size() == size_bytes
                &&& s.memory().clock() == 0
                &&& forall|i: int| 0 <= i < s.memory().stripes_view().len()
                    ==> #[trigger] s.memory().stripes_view()[i] == Seq::new(stripe_width as nat, |k: int| 0u8)
            },
    {
        match Memory::new(size_bytes, stripe_width) {
            Some(mem) => Some(STM { mem }),
            None => None,
        }
    }

    /// The memory, for the loads of the transactions running on it.
    pub fn mem(&self) -> (r: &Memory)
        ensures
            *r == self.memory(),
    {
        &self.mem
    }

    /// Starts a write transaction.
    pub fn begin_write(&self) -> (r: WriteTrans)
        requires
            self.wf(),
        ensures
            r.wf(),
            r.fits(&self.memory()),
            r.rv() == self.memory().clock(),
            !r.aborted(),
            r.reads() == Set::<int>::empty(),
            r.writes() == Map::<int, Seq<u8>>::empty(),
    {
        WriteTrans::new(&self.mem)
    }

    /// Starts a read transaction.
    pub fn begin_read(&self) -> (r: ReadTrans)
        ensures
            r.rv() == self.memory().clock(),
            !r.aborted(),
    {
        ReadTrans::new(&self.mem)
    }

    /// Whether the clock can advance once more.
    pub fn can_commit(&self) -> (r: bool)
        ensures
            r == (self.memory().clock() < MAX_VERSION),
    {
        self.mem.global_clock() < MAX_VERSION
    }

    /// Runs the commit protocol of `t` on this memory.
    pub fn commit(&mut self, t: &mut WriteTrans) -> (r: bool)
        requires
            old(self).wf(),
            old(t).wf(),
            old(t).fits(&old(self).memory()),
            old(self).memory().clock() < MAX_VERSION,
        ensures
            final(self).wf(),
            final(t).wf(),
            final(t).fits(&final(self).memory()),
            final(t).rv() == old(t).rv(),
            final(t).aborted() == old(t).aborted(),
            final(t).reads() == old(t).reads(),
            final(t).writes() == old(t).writes(),
            commit_effect(old(t), &old(self).memory(), &final(self).memory(), r),
    {
        t.try_commit(&mut self.mem)
    }
}

} // verus!
