//! The snapshot store and the refresh coordinator.
//!
//! The store owns the current dataset behind a reader-writer lock: readers
//! share one fully-formed, well-formed snapshot for as long as they hold a
//! read handle, and a refresh replaces the snapshot wholly — never field by
//! field — in one exclusive step.
//!
//! The coordinator is the refresh state machine: at most one refresh runs at
//! a time, a trigger that arrives while one runs is acknowledged without
//! starting another, and every exit path — success or failure — restores the
//! idle state.

use vstd::prelude::*;

verus! {

use vstd::rwlock::{RwLock, RwLockPredicate, ReadHandle};
use crate::model::{Snapshot, snapshot_wf};

/// The lock invariant: whatever snapshot is stored is well-formed.
pub struct SnapshotInv {}

impl RwLockPredicate<Snapshot> for SnapshotInv {
    open spec fn inv(self, v: Snapshot) -> bool {
        snapshot_wf(v)
    }
}

/// The concurrent snapshot store.
pub struct Store {
    lock: RwLock<Snapshot, SnapshotInv>,
}

impl Store {
    /// The store's lock carries the well-formedness invariant.
    pub closed spec fn wf(&self) -> bool {
        self.lock.pred() == (SnapshotInv {  })
    }

    pub fn new(snap: Snapshot) -> (s: Store)
        requires
            snapshot_wf(snap),
        ensures
            s.wf(),
    {
        Store { lock: RwLock::new(snap, Ghost(SnapshotInv {  })) }
    }

    /// Takes a shared read handle; the snapshot it exposes is one complete,
    /// well-formed value, and `ReadHandle::borrow` hands out exactly that
    /// value for the handle's whole lifetime.  Concurrent readers proceed
    /// together; none can observe a mix of two snapshots.
    pub fn read(&self) -> (h: ReadHandle<'_, Snapshot, SnapshotInv>)
        requires
            self.wf(),
        ensures
            snapshot_wf(h.view()),
    {
        self.lock.acquire_read()
    }

    /// Replaces the stored snapshot wholly with `snap`: a reader admitted
    /// after the swap sees `snap` in full, one admitted before saw the old
    /// snapshot in full.
    pub fn replace(&self, snap: Snapshot)
        requires
            self.wf(),
            snapshot_wf(snap),
    {
        let (old_snap, handle) = self.lock.acquire_write();
        handle.release_write(snap);
    }
}

/// The refresh coordinator's two states.
#[derive(Clone, Copy, PartialEq, Eq, Structural, Debug)]
pub enum RefreshState {
    Idle,
    Refreshing,
}

/// What one refresh trigger does to the state: an idle coordinator starts
/// refreshing and accepts the trigger; a busy one stays busy and rejects it.
pub open spec fn trigger_step(s: RefreshState) -> (RefreshState, bool) {
    if s is Idle {
        (RefreshState::Refreshing, true)
    } else {
        (s, false)
    }
}

/// What finishing a refresh does, whether it succeeded or failed: the
/// coordinator is idle again.
pub open spec fn finish_step(s: RefreshState) -> RefreshState {
    RefreshState::Idle
}

/// The refresh coordinator.  One running process drives it; the transitions
/// below are what its atomic test-and-set flag implements.
pub struct RefreshCoordinator {
    pub state: RefreshState,
}

impl RefreshCoordinator {
    pub fn new() -> (c: RefreshCoordinator)
        ensures
            c.state is Idle,
    {
        RefreshCoordinator { state: RefreshState::Idle }
    }

    /// A refresh trigger: accepted exactly when the coordinator was idle.
    pub fn try_begin(&mut self) -> (accepted: bool)
        ensures
            (final(self).state, accepted) == trigger_step(old(self).state),
            accepted <==> old(self).state is Idle,
            final(self).state is Refreshing <==> (old(self).state is Refreshing || accepted),
    {
        match self.state {
            RefreshState::Idle => {
                self.state = RefreshState::Refreshing;
                true
            },
            RefreshState::Refreshing => false,
        }
    }

    /// Every refresh exit path — success or failure — ends here: the
    /// coordinator is unconditionally idle again.
    pub fn finish(&mut self)
        ensures
            final(self).state == finish_step(old(self).state),
            final(self).state is Idle,
    {
        self.state = RefreshState::Idle;
    }
}

/// How many of `n` triggers in a row are accepted from the given state.
pub open spec fn accepted_triggers(s: RefreshState, n: nat) -> nat
    decreases n,
{
    if n == 0 {
        0
    } else {
        let (s2, acc) = trigger_step(s);
        (if acc {
            1nat
        } else {
            0nat
        }) + accepted_triggers(s2, (n - 1) as nat)
    }
}

/// Single-flight: of any number of refresh triggers arriving in a row at an
/// idle coordinator, exactly one starts a refresh; the rest are rejected.
/// And once the running refresh finishes — successfully or not — the
/// coordinator is idle, so the next trigger starts a new refresh.
pub proof fn lemma_single_flight(n: nat)
    requires
        n >= 1,
    ensures
        accepted_triggers(RefreshState::Idle, n) == 1,
        accepted_triggers(RefreshState::Refreshing, n) == 0,
        trigger_step(finish_step(RefreshState::Refreshing)).1,
{
    lemma_busy_rejects((n - 1) as nat);
    lemma_busy_rejects(n);
}

proof fn lemma_busy_rejects(n: nat)
    ensures
        accepted_triggers(RefreshState::Refreshing, n) == 0,
    decreases n,
{
    if n > 0 {
        lemma_busy_rejects((n - 1) as nat);
    }
}

} // verus!
