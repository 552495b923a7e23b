//! The tick loop's bookkeeping: the deterministic tick count, the snapshot
//! cadence, and the saves still waiting for their acknowledgement. The loop
//! itself (sleeping, channels, the world) belongs to the host; these are the
//! decisions it takes each tick.

use vstd::prelude::*;

verus! {

/// Base tick period in milliseconds: 100 ms is 10 Hz.
pub const TICK_INTERVAL_MS: u64 = 100;

/// Periodic snapshot cadence, in ticks.
pub const SAVE_EVERY: u32 = 50;

/// What a finished run reports: how many ticks ran and how many snapshots were
/// handed to persistence.
#[derive(Clone, Copy, Debug, PartialEq, Eq, Structural)]
pub struct RunReport {
    pub ticks: u64,
    pub saves: u64,
}

#[verifier::external_type_specification]
#[verifier::external_body]
pub struct ExSystemTime(std::time::SystemTime);

/// Per-tick context handed to systems: the deterministic tick number and the
/// wall-clock instant, captured once so every system sees the same one.
pub struct TickCtx {
    pub tick: u64,
    pub now: std::time::SystemTime,
}

/// Model of the loop's counters.
pub struct ClockV {
    pub tick: nat,
    pub since_save: nat,
    pub pending: nat,
    pub saves: nat,
    pub save_every: nat,
}

/// The tick loop's counters.
pub struct TickClock {
    tick: u64,
    since_save: u32,
    pending: u32,
    saves: u64,
    save_every: u32,
}

impl View for TickClock {
    type V = ClockV;

    closed spec fn view(&self) -> ClockV {
        ClockV {
            tick: self.tick as nat,
            since_save: self.since_save as nat,
            pending: self.pending as nat,
            saves: self.saves as nat,
            save_every: self.save_every as nat,
        }
    }
}

/// Whether the tick that brings the count since the last snapshot to
/// `since + 1` is due a snapshot.
pub open spec fn snapshot_due(since: nat, every: nat) -> bool {
    since + 1 >= every
}

impl TickClock {
    #[verifier::type_invariant]
    spec fn inv(self) -> bool {
        self.since_save < self.save_every || self.since_save == 0
    }

    /// A clock before its first tick, snapshotting every `save_every` ticks.
    pub fn new(save_every: u32) -> (r: Self)
        ensures
            r@ == (ClockV { tick: 0, since_save: 0, pending: 0, saves: 0, save_every: save_every as nat }),
    {
        TickClock { tick: 0, since_save: 0, pending: 0, saves: 0, save_every }
    }

    /// The current tick number.
    pub fn tick(&self) -> (r: u64)
        ensures
            r == self@.tick,
    {
        self.tick
    }

    /// The context systems see this tick.
    pub fn context(&self, now: std::time::SystemTime) -> (r: TickCtx)
        ensures
            r.tick == self@.tick,
            r.now == now,
    {
        TickCtx { tick: self.tick, now }
    }

    /// Close the current tick: count it, and say whether a snapshot is due now.
    /// The count since the last snapshot restarts whenever one is due, sent or
    /// not.
    pub fn end_tick(&mut self) -> (due: bool)
        requires
            old(self)@.tick < u64::MAX,
        ensures
            due == snapshot_due(old(self)@.since_save, old(self)@.save_every),
            final(self)@.since_save == if due { 0 } else { old(self)@.since_save + 1 },
            final(self)@.tick == old(self)@.tick + 1,
            final(self)@.pending == old(self)@.pending,
            final(self)@.saves == old(self)@.saves,
            final(self)@.save_every == old(self)@.save_every,
    {
        proof {
            use_type_invariant(&*self);
        }
        let due = self.since_save as u64 + 1 >= self.save_every as u64;
        if due {
            self.since_save = 0;
        } else {
            self.since_save = self.since_save + 1;
        }
        self.tick = self.tick + 1;
        due
    }

    /// A snapshot was handed to persistence: one more save, awaiting its ack.
    pub fn snapshot_sent(&mut self)
        requires
            old(self)@.pending < u32::MAX,
            old(self)@.saves < u64::MAX,
        ensures
            final(self)@ == (ClockV { pending: old(self)@.pending + 1, saves: old(self)@.saves + 1, ..old(self)@ }),
    {
        proof {
            use_type_invariant(&*self);
        }
        self.pending = self.pending + 1;
        self.saves = self.saves + 1;
    }

    /// A save was acknowledged, durable or failed: one fewer outstanding.
    pub fn acknowledged(&mut self)
        ensures
            final(self)@ == (ClockV {
                pending: if old(self)@.pending == 0 { 0 } else { (old(self)@.pending - 1) as nat },
                ..old(self)@
            }),
    {
        proof {
            use_type_invariant(&*self);
        }
        self.pending = self.pending.saturating_sub(1);
    }

    /// Whether a save is still awaiting its acknowledgement.
    pub fn awaiting_saves(&self) -> (r: bool)
        ensures
            r == (self@.pending > 0),
    {
        self.pending > 0
    }

    /// What the run reports when it stops.
    pub fn report(&self) -> (r: RunReport)
        ensures
            r.ticks == self@.tick,
            r.saves == self@.saves,
    {
        RunReport { ticks: self.tick, saves: self.saves }
    }
}

/// With a cadence of `every` ticks, a clock that started at zero is due a
/// snapshot exactly on every `every`-th tick: the count since the last
/// snapshot is always the tick number modulo the cadence.
pub proof fn lemma_snapshot_cadence(tick: nat, since: nat, every: nat)
    requires
        every >= 1,
        since == tick % every,
    ensures
        snapshot_due(since, every) <==> (tick + 1) % every == 0,
        (if snapshot_due(since, every) { 0 } else { since + 1 }) == (tick + 1) % every,
{
    assert(tick % every < every) by (nonlinear_arith)
        requires
            every >= 1,
    ;
    assert((tick + 1) % every == if tick % every + 1 == every { 0 } else { tick % every + 1 }) by (nonlinear_arith)
        requires
            every >= 1,
    ;
}

} // verus!
