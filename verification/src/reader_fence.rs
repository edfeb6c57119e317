//! The reader fence of a hot file.
//!
//! Readers of a hot file and the writer that rewrites already written bytes share one fence. A
//! reader that finds the writer pending backs off. Otherwise it announces itself and looks
//! again: the writer may have come in between, and then the reader takes its announcement back.
//! The writer raises the pending flag, waits until no reader is announced, rewrites, and clears
//! the flag.

use vstd::prelude::*;

verus! {

/// First nap of a reader that backs off, in microseconds.
pub const READER_FIRST_NAP_US: u64 = 100;

/// Longest nap of a reader that backs off, in microseconds.
pub const READER_LONGEST_NAP_US: u64 = 10_000;

/// First nap of a writer that waits for readers, in microseconds.
pub const WRITER_FIRST_NAP_US: u64 = 50;

/// Longest nap of a writer that waits for readers, in microseconds.
pub const WRITER_LONGEST_NAP_US: u64 = 5_000;

/// After this many microseconds a reader that is still waiting says so in the log.
pub const READER_WARN_AFTER_US: u64 = 2_000_000;

/// Count of the readers of one hot file, and the writer's flag.
#[derive(Debug, Clone, Copy, PartialEq, Eq, Structural)]
pub struct ReaderFence {
    /// Number of readers that are announced.
    pub active_reads: u64,
    /// Set by the writer before it rewrites bytes. New readers back off until it clears.
    pub mutate_pending: bool,
}

impl ReaderFence {
    pub fn new() -> (r: ReaderFence)
        ensures
            r.active_reads == 0,
            !r.mutate_pending,
    {
        ReaderFence { active_reads: 0, mutate_pending: false }
    }

    /// A reader announces itself.
    pub fn announce(&mut self)
        requires
            old(self).active_reads < u64::MAX,
        ensures
            final(self).active_reads == old(self).active_reads + 1,
            final(self).mutate_pending == old(self).mutate_pending,
    {
        self.active_reads = self.active_reads + 1;
    }

    /// A reader that is announced looks again. It keeps its place unless the writer is pending.
    pub fn settle(&mut self) -> (kept: bool)
        requires
            old(self).active_reads > 0,
        ensures
            kept == !old(self).mutate_pending,
            final(self).active_reads == old(self).active_reads - if kept {
                0int
            } else {
                1
            },
            final(self).mutate_pending == old(self).mutate_pending,
    {
        if self.mutate_pending {
            self.active_reads = self.active_reads - 1;
            false
        } else {
            true
        }
    }

    /// A reader leaves.
    pub fn release(&mut self)
        requires
            old(self).active_reads > 0,
        ensures
            final(self).active_reads == old(self).active_reads - 1,
            final(self).mutate_pending == old(self).mutate_pending,
    {
        self.active_reads = self.active_reads - 1;
    }

    /// The writer raises or clears its flag.
    pub fn set_mutate_pending(&mut self, pending: bool)
        ensures
            final(self).mutate_pending == pending,
            final(self).active_reads == old(self).active_reads,
    {
        self.mutate_pending = pending;
    }

    /// Is no reader announced?
    pub fn is_quiet(&self) -> (r: bool)
        ensures
            r == (self.active_reads == 0),
    {
        self.active_reads == 0
    }
}

/// A reader's place at the fence of one hot file.
#[derive(Debug, PartialEq, Eq, Structural)]
pub struct HotFileReadGuard {
    /// The hot file this guard pins.
    pub seq: u32,
}

impl HotFileReadGuard {
    /// Try to get a place at the fence, or `None` if the writer is pending.
    pub fn try_from_fence(fence: &mut ReaderFence, seq: u32) -> (r: Option<HotFileReadGuard>)
        requires
            old(fence).active_reads < u64::MAX,
        ensures
            old(fence).mutate_pending ==> r is None && *final(fence) == *old(fence),
            !old(fence).mutate_pending ==> r == Some(HotFileReadGuard { seq }) && *final(fence) == (
            ReaderFence {
                active_reads: (old(fence).active_reads + 1) as u64,
                mutate_pending: false,
            }),
    {
        if fence.mutate_pending {
            return None;
        }
        fence.announce();
        if fence.settle() {
            Some(HotFileReadGuard { seq })
        } else {
            None
        }
    }

    /// The hot file this guard pins.
    pub fn seq(&self) -> (r: u32)
        ensures
            r == self.seq,
    {
        self.seq
    }

    /// A second guard for the same file. Whoever holds a guard may take another at any time,
    /// also while the writer is pending: it still waits for the first.
    pub fn clone_guard(&self, fence: &mut ReaderFence) -> (r: HotFileReadGuard)
        requires
            0 < old(fence).active_reads < u64::MAX,
        ensures
            r == *self,
            final(fence).active_reads == old(fence).active_reads + 1,
            final(fence).mutate_pending == old(fence).mutate_pending,
    {
        fence.announce();
        HotFileReadGuard { seq: self.seq }
    }

    /// Give the place up.
    pub fn release(self, fence: &mut ReaderFence)
        requires
            old(fence).active_reads > 0,
        ensures
            final(fence).active_reads == old(fence).active_reads - 1,
            final(fence).mutate_pending == old(fence).mutate_pending,
    {
        fence.release();
    }
}

/// Twice `nap`, but at most `longest`.
pub open spec fn longer_nap(nap: u64, longest: u64) -> u64 {
    if 2 * nap > longest {
        longest
    } else {
        (2 * nap) as u64
    }
}

fn lengthen(nap: u64, longest: u64) -> (r: u64)
    ensures
        r == longer_nap(nap, longest),
{
    if nap > longest / 2 {
        longest
    } else {
        2 * nap
    }
}

/// The nap after one of `nap` microseconds, for a reader that backs off.
pub fn next_reader_nap(nap: u64) -> (r: u64)
    ensures
        r == longer_nap(nap, READER_LONGEST_NAP_US),
{
    lengthen(nap, READER_LONGEST_NAP_US)
}

/// Is it time for the one warning that a reader has been waiting for long?
pub fn reader_should_warn(warned: bool, waited_us: u64) -> (r: bool)
    ensures
        r == (!warned && waited_us >= READER_WARN_AFTER_US),
{
    !warned && waited_us >= READER_WARN_AFTER_US
}

/// What a writer does next that waits for the readers to leave.
#[derive(Debug, Clone, Copy, PartialEq, Eq, Structural)]
pub enum QuiesceStep {
    /// No reader is left.
    Quiet,
    /// Readers are left and the time is up.
    TimedOut,
    /// Sleep, look again, and sleep this long the next time.
    Nap(u64),
}

/// One look of a writer at the fence. Readers that left just in time count, though the time is
/// up.
pub fn quiesce_step(fence: &ReaderFence, time_is_up: bool, nap: u64) -> (r: QuiesceStep)
    ensures
        r == (if fence.active_reads == 0 {
            QuiesceStep::Quiet
        } else if time_is_up {
            QuiesceStep::TimedOut
        } else {
            QuiesceStep::Nap(longer_nap(nap, WRITER_LONGEST_NAP_US))
        }),
{
    if fence.is_quiet() {
        QuiesceStep::Quiet
    } else if time_is_up {
        QuiesceStep::TimedOut
    } else {
        QuiesceStep::Nap(lengthen(nap, WRITER_LONGEST_NAP_US))
    }
}

// ---------------------------------------------------------------------------------------
// The protocol, with readers and a writer that act in any order
// ---------------------------------------------------------------------------------------
/// The fence, and what everybody at it is up to.
#[verifier::ext_equal]
pub struct FenceModel {
    /// The fence itself.
    pub pending: bool,
    pub active: nat,
    /// Readers that are announced and have not looked again yet.
    pub announced: nat,
    /// Readers that hold a guard.
    pub holding: nat,
    /// Has the writer seen a fence without readers since it raised its flag?
    pub quiet: bool,
}

/// What can happen at a fence, one thing at a time.
pub enum FenceEvent {
    Announce,
    Keep,
    BackOff,
    CloneGuard,
    Release,
    Raise,
    SeeQuiet,
    Clear,
}

/// Can this happen now? A reader announces itself at any time: its first look may be old.
pub open spec fn can_happen(m: FenceModel, e: FenceEvent) -> bool {
    match e {
        FenceEvent::Announce => true,
        FenceEvent::Keep => m.announced > 0 && !m.pending,
        FenceEvent::BackOff => m.announced > 0 && m.pending,
        FenceEvent::CloneGuard => m.holding > 0,
        FenceEvent::Release => m.holding > 0,
        FenceEvent::Raise => true,
        FenceEvent::SeeQuiet => m.pending && m.active == 0,
        FenceEvent::Clear => true,
    }
}

/// The fence afterwards.
pub open spec fn happened(m: FenceModel, e: FenceEvent) -> FenceModel {
    match e {
        FenceEvent::Announce => FenceModel {
            active: m.active + 1,
            announced: m.announced + 1,
            ..m
        },
        FenceEvent::Keep => FenceModel {
            announced: (m.announced - 1) as nat,
            holding: m.holding + 1,
            ..m
        },
        FenceEvent::BackOff => FenceModel {
            active: (m.active - 1) as nat,
            announced: (m.announced - 1) as nat,
            ..m
        },
        FenceEvent::CloneGuard => FenceModel { active: m.active + 1, holding: m.holding + 1, ..m },
        FenceEvent::Release => FenceModel {
            active: (m.active - 1) as nat,
            holding: (m.holding - 1) as nat,
            ..m
        },
        FenceEvent::Raise => FenceModel { pending: true, ..m },
        FenceEvent::SeeQuiet => FenceModel { quiet: true, ..m },
        FenceEvent::Clear => FenceModel { pending: false, quiet: false, ..m },
    }
}

/// Can these things happen, one after the other?
pub open spec fn can_all_happen(m: FenceModel, events: Seq<FenceEvent>) -> bool
    decreases events.len(),
{
    events.len() == 0 || (can_happen(m, events[0]) && can_all_happen(
        happened(m, events[0]),
        events.skip(1),
    ))
}

/// The fence after all of them.
pub open spec fn all_happened(m: FenceModel, events: Seq<FenceEvent>) -> FenceModel
    decreases events.len(),
{
    if events.len() == 0 {
        m
    } else {
        all_happened(happened(m, events[0]), events.skip(1))
    }
}

/// The count is that of the readers, and none holds a guard once the writer has the file to
/// itself.
pub open spec fn fence_sound(m: FenceModel) -> bool {
    &&& m.active == m.announced + m.holding
    &&& m.quiet ==> m.pending && m.holding == 0
}

/// Whatever readers and writer do, in any order: from the moment the writer has seen the fence
/// without readers until it clears its flag, nobody holds a guard.
pub proof fn law_writer_is_alone(m: FenceModel, events: Seq<FenceEvent>)
    requires
        fence_sound(m),
        can_all_happen(m, events),
    ensures
        fence_sound(all_happened(m, events)),
        all_happened(m, events).quiet ==> all_happened(m, events).holding == 0,
    decreases events.len(),
{
    if events.len() > 0 {
        law_writer_is_alone(happened(m, events[0]), events.skip(1));
    }
}

} // verus!
