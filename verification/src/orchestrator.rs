//! The ingestion/query orchestrator's decisions: the busy flag, the search
//! debouncer, tail-mode growth detection, and progress arithmetic. The
//! threads, timers and notifications that carry these decisions out are the
//! caller's concern.

use vstd::prelude::*;

verus! {

/// Whether an observed source size triggers a re-ingestion.
pub open spec fn growth_triggers(last: u64, size: u64) -> bool {
    size > last
}

/// The stored size after one check.
pub open spec fn size_after_check(last: u64, size: u64) -> u64 {
    if size > last {
        size
    } else {
        last
    }
}

/// Tail-mode state: the last observed size of the watched source.
pub struct TailMonitor {
    pub last_size: u64,
}

impl TailMonitor {
    /// Start watching a source of the given initial size.
    pub fn new(initial: u64) -> (r: Self)
        ensures
            r.last_size == initial,
    {
        TailMonitor { last_size: initial }
    }

    /// One growth check: a strictly larger size triggers a full
    /// re-ingestion and is remembered; an unchanged or smaller size changes
    /// nothing.
    pub fn observe(&mut self, size: u64) -> (reload: bool)
        ensures
            reload == growth_triggers(old(self).last_size, size),
            final (self).last_size == size_after_check(old(self).last_size, size),
    {
        if size > self.last_size {
            self.last_size = size;
            true
        } else {
            false
        }
    }

    /// One growth check under the busy flag: strict growth with no
    /// ingestion in flight triggers a full re-ingestion and is remembered.
    /// Growth seen while an ingestion is in flight is deferred: the stored
    /// size is left alone, so the next idle check still triggers it.
    pub fn observe_busy(&mut self, size: u64, busy: bool) -> (reload: bool)
        ensures
            reload == (growth_triggers(old(self).last_size, size) && !busy),
            final (self).last_size == size_after_busy_check(old(self).last_size, size, busy),
    {
        if size > self.last_size && !busy {
            self.last_size = size;
            true
        } else {
            false
        }
    }

    /// Forget the stored size, so that the next check re-ingests.
    pub fn reset(&mut self)
        ensures
            final (self).last_size == 0,
    {
        self.last_size = 0;
    }
}

/// An unchanged size never triggers; a grown size triggers exactly once:
/// the triggering check raises the stored size, so repeating the check with
/// the same size does not trigger again.
pub proof fn lemma_growth_triggers_once(last: u64, size: u64)
    ensures
        !growth_triggers(last, last),
        size <= last ==> !growth_triggers(last, size),
        size > last ==> growth_triggers(last, size) && !growth_triggers(
            size_after_check(last, size),
            size,
        ),
{
}

/// The stored size after a growth check that respects the busy flag.
pub open spec fn size_after_busy_check(last: u64, size: u64, busy: bool) -> u64 {
    if growth_triggers(last, size) && !busy {
        size
    } else {
        last
    }
}

/// Growth detected while an ingestion is in flight is not lost: the busy
/// check leaves the stored size alone, so the same grown size still
/// triggers once the flag clears.
pub proof fn lemma_busy_defers_growth(last: u64, size: u64)
    requires
        growth_triggers(last, size),
    ensures
        size_after_busy_check(last, size, true) == last,
        growth_triggers(size_after_busy_check(last, size, true), size),
{
}

/// The busy flag: set for the duration of one ingestion, cleared on every
/// exit path.
pub struct BusyFlag {
    pub busy: bool,
}

impl BusyFlag {
    /// Initially idle.
    pub fn new() -> (r: Self)
        ensures
            !r.busy,
    {
        BusyFlag { busy: false }
    }

    /// Enter the busy section: succeeds exactly when no ingestion is in
    /// flight, and then marks one.
    pub fn try_acquire(&mut self) -> (ok: bool)
        ensures
            ok == !old(self).busy,
            final (self).busy == (old(self).busy || ok),
    {
        if self.busy {
            false
        } else {
            self.busy = true;
            true
        }
    }

    /// Leave the busy section.
    pub fn release(&mut self)
        ensures
            !final (self).busy,
    {
        self.busy = false;
    }
}

/// What the owner of the search debouncer must do next.
#[derive(Clone, Copy, PartialEq, Eq, Structural, Debug)]
pub enum DebounceAction {
    RestartTimer,
    RunQuery,
    Idle,
}

/// Coalesces rapid predicate changes: every keystroke restarts the quiet
/// window, and only the window's expiry launches a query pass, so a burst
/// of changes yields one pass.
pub struct SearchDebouncer {
    pub pending: bool,
}

impl SearchDebouncer {
    /// Initially quiet.
    pub fn new() -> (r: Self)
        ensures
            !r.pending,
    {
        SearchDebouncer { pending: false }
    }

    /// The predicate changed: restart the quiet window.
    pub fn input_changed(&mut self) -> (a: DebounceAction)
        ensures
            final (self).pending,
            a == DebounceAction::RestartTimer,
    {
        self.pending = true;
        DebounceAction::RestartTimer
    }

    /// The quiet window elapsed: run one query pass for the last request,
    /// if any change is pending.
    pub fn timer_elapsed(&mut self) -> (a: DebounceAction)
        ensures
            !final (self).pending,
            a == if old(self).pending {
                DebounceAction::RunQuery
            } else {
                DebounceAction::Idle
            },
    {
        let was = self.pending;
        self.pending = false;
        if was {
            DebounceAction::RunQuery
        } else {
            DebounceAction::Idle
        }
    }
}

/// Extraction progress: bytes consumed, mapped to the first half of the
/// 0 to 100 range.
pub fn extract_progress(consumed: u64, total: u64) -> (p: u8)
    requires
        total > 0,
        consumed <= total,
    ensures
        p == consumed as int * 50 / (total as int),
        p <= 50,
{
    let v = (consumed as u128) * 50 / (total as u128);
    proof {
        assert(consumed as int * 50 / (total as int) <= 50) by (nonlinear_arith)
            requires
                total > 0,
                consumed <= total,
        ;
    }
    v as u8
}

/// Decoding progress: records decoded, mapped to the second half of the
/// 0 to 100 range.
pub fn decode_progress(done: usize, total: usize) -> (p: u8)
    requires
        total > 0,
        done <= total,
    ensures
        p == 50 + done as int * 50 / (total as int),
        50 <= p <= 100,
{
    let v = (done as u128) * 50 / (total as u128);
    proof {
        assert(done as int * 50 / (total as int) <= 50) by (nonlinear_arith)
            requires
                total > 0,
                done <= total,
        ;
    }
    50 + v as u8
}

/// The sampling step for decode progress: one update per percent of the
/// batch, and at least every record for tiny batches.
pub fn progress_step(total: usize) -> (s: usize)
    ensures
        s == if total as int / 100 > 0 {
            total as int / 100
        } else {
            1int
        },
        s > 0,
{
    let step = total / 100;
    if step > 0 {
        step
    } else {
        1
    }
}

} // verus!
