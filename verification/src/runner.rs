//! The decisions of the background sync runner. The runner syncs on a fixed
//! interval (a background loop) or on demand, and tracks the network status:
//! while offline, ticks are skipped and a manual sync fails at once; the moment
//! the device comes back online, a round fires immediately. The caller owns the
//! loop, the timer and the transport: it hands each event to `step` and
//! performs the action it gets back.

use vstd::prelude::*;
use crate::sync::SyncError;
use vstd::arithmetic::div_mod::{lemma_add_mod_noop, lemma_mod_add_multiples_vanish, lemma_small_mod};

verus! {

/// The message of the error a manual sync gives while offline.
pub open spec fn offline_message() -> Seq<char> {
    "offline (simulated)"@
}

/// The number of the loop spawned after the one numbered `g`.
pub open spec fn next_loop_number(g: u64) -> u64 {
    if g == u64::MAX {
        0
    } else {
        (g + 1) as u64
    }
}

/// Whether an event, met while the job is `running` or not, spawns a loop.
pub open spec fn spawns_loop(running: bool, ev: RunnerEvent) -> bool {
    ev is Start && !running
}

/// The runner's flags (running, online) and loop number after one event.
pub open spec fn after_event(running: bool, online: bool, g: u64, ev: RunnerEvent) -> (bool, bool, u64) {
    match ev {
        RunnerEvent::Start => if running {
            (running, online, g)
        } else {
            (true, online, next_loop_number(g))
        },
        RunnerEvent::Stop => (false, online, g),
        RunnerEvent::Tick { .. } => (running, online, g),
        RunnerEvent::SetOnline(b) => (running, b, g),
        RunnerEvent::SyncNow => (running, online, g),
    }
}

/// The runner's flags and loop number after a run of events, with the number
/// of loops the run spawned.
pub open spec fn after_events(running: bool, online: bool, g: u64, evs: Seq<RunnerEvent>) -> (bool, bool, u64, nat)
    decreases evs.len(),
{
    if evs.len() == 0 {
        (running, online, g, 0)
    } else {
        let p = after_events(running, online, g, evs.drop_last());
        let q = after_event(p.0, p.1, p.2, evs.last());
        (q.0, q.1, q.2, p.3 + if spawns_loop(p.0, evs.last()) {
            1nat
        } else {
            0nat
        })
    }
}

/// What happens to the runner.
#[derive(Debug, Clone, Copy)]
pub enum RunnerEvent {
    /// The app starts the background job.
    Start,
    /// The app stops the background job.
    Stop,
    /// The background loop with this number wakes up for its next tick.
    Tick { generation: u64 },
    /// The network status changes (online or not).
    SetOnline(bool),
    /// The app asks for one sync round now.
    SyncNow,
}

/// What the caller does next.
#[derive(Debug)]
pub enum RunnerAction {
    /// Nothing (for a tick: sleep until the next one).
    Nothing,
    /// Spawn the background loop under this number; it ticks with it.
    SpawnLoop { generation: u64 },
    /// Run one sync round (for a tick: then sleep until the next one).
    RunRound,
    /// The loop that ticked is not the running one: it ends.
    ExitLoop,
    /// Fail the manual sync with this error.
    Fail(SyncError),
}

/// The runner's state: whether the background job runs, whether the device is
/// online, and the number of the current background loop.
#[derive(Debug)]
pub struct RunnerState {
    running: bool,
    online: bool,
    generation: u64,
}

impl RunnerState {
    pub closed spec fn is_running(&self) -> bool {
        self.running
    }

    pub closed spec fn online_now(&self) -> bool {
        self.online
    }

    /// The number of the latest background loop spawned.
    pub closed spec fn loop_number(&self) -> u64 {
        self.generation
    }

    /// Not running, online, no loop spawned yet.
    pub fn new() -> (r: Self)
        ensures
            !r.is_running(),
            r.online_now(),
            r.loop_number() == 0,
    {
        RunnerState { running: false, online: true, generation: 0 }
    }

    pub fn is_online(&self) -> (r: bool)
        ensures
            r == self.online_now(),
    {
        self.online
    }

    pub fn running(&self) -> (r: bool)
        ensures
            r == self.is_running(),
    {
        self.running
    }

    /// Decide what an event means.
    ///
    /// - `Start`: the job runs; a new loop (with a new number) is spawned unless
    ///   the job was running already.
    /// - `Stop`: the job stops; the loop ends at its next tick.
    /// - `Tick`: the loop with the current number runs a round when online and
    ///   skips the tick when offline; any other loop, or any loop once the job is
    ///   stopped, ends. So at most one loop ever keeps ticking.
    /// - `SetOnline(b)`: the status becomes `b`; coming back online runs a round
    ///   at once.
    /// - `SyncNow`: a round when online, else the offline error.
    pub fn step(&mut self, ev: RunnerEvent) -> (act: RunnerAction)
        ensures
            (final(self).is_running(), final(self).online_now(), final(self).loop_number()) == after_event(
                old(self).is_running(),
                old(self).online_now(),
                old(self).loop_number(),
                ev,
            ),
            match ev {
                RunnerEvent::Start => {
                    &&& final(self).is_running()
                    &&& final(self).online_now() == old(self).online_now()
                    &&& if old(self).is_running() {
                        &&& final(self).loop_number() == old(self).loop_number()
                        &&& act is Nothing
                    } else {
                        &&& final(self).loop_number() == next_loop_number(old(self).loop_number())
                        &&& act matches RunnerAction::SpawnLoop { generation } && generation == final(self).loop_number()
                    }
                },
                RunnerEvent::Stop => {
                    &&& !final(self).is_running()
                    &&& final(self).online_now() == old(self).online_now()
                    &&& final(self).loop_number() == old(self).loop_number()
                    &&& act is Nothing
                },
                RunnerEvent::Tick { generation } => {
                    &&& *final(self) == *old(self)
                    &&& if !old(self).is_running() || generation != old(self).loop_number() {
                        act is ExitLoop
                    } else if old(self).online_now() {
                        act is RunRound
                    } else {
                        act is Nothing
                    }
                },
                RunnerEvent::SetOnline(b) => {
                    &&& final(self).online_now() == b
                    &&& final(self).is_running() == old(self).is_running()
                    &&& final(self).loop_number() == old(self).loop_number()
                    &&& if b && !old(self).online_now() {
                        act is RunRound
                    } else {
                        act is Nothing
                    }
                },
                RunnerEvent::SyncNow => {
                    &&& *final(self) == *old(self)
                    &&& if old(self).online_now() {
                        act is RunRound
                    } else {
                        act matches RunnerAction::Fail(SyncError::Transport { message }) && message@ == offline_message()
                    }
                },
            },
    {
        match ev {
            RunnerEvent::Start => {
                if self.running {
                    RunnerAction::Nothing
                } else {
                    self.running = true;
                    self.generation = if self.generation == u64::MAX {
                        0
                    } else {
                        self.generation + 1
                    };
                    RunnerAction::SpawnLoop { generation: self.generation }
                }
            },
            RunnerEvent::Stop => {
                self.running = false;
                RunnerAction::Nothing
            },
            RunnerEvent::Tick { generation } => {
                if !self.running || generation != self.generation {
                    RunnerAction::ExitLoop
                } else if self.online {
                    RunnerAction::RunRound
                } else {
                    RunnerAction::Nothing
                }
            },
            RunnerEvent::SetOnline(b) => {
                let was_online = self.online;
                self.online = b;
                if b && !was_online {
                    RunnerAction::RunRound
                } else {
                    RunnerAction::Nothing
                }
            },
            RunnerEvent::SyncNow => {
                if self.online {
                    RunnerAction::RunRound
                } else {
                    proof {
                        reveal_strlit("offline (simulated)");
                    }
                    RunnerAction::Fail(SyncError::Transport { message: "offline (simulated)".to_owned() })
                }
            },
        }
    }
}

/// The loop number counts the loops spawned, modulo 2^64.
pub proof fn lemma_loop_number_counts_spawns(running: bool, online: bool, g: u64, evs: Seq<RunnerEvent>)
    ensures
        after_events(running, online, g, evs).2 == (g + after_events(running, online, g, evs).3) % 0x1_0000_0000_0000_0000,
    decreases evs.len(),
{
    let m: int = 0x1_0000_0000_0000_0000;
    if evs.len() == 0 {
        lemma_small_mod(g as nat, m as nat);
    } else {
        lemma_loop_number_counts_spawns(running, online, g, evs.drop_last());
        let p = after_events(running, online, g, evs.drop_last());
        if spawns_loop(p.0, evs.last()) {
            let x = g + p.3;
            lemma_add_mod_noop(x, 1, m);
            lemma_small_mod(1, m as nat);
            if p.2 + 1 < m {
                lemma_small_mod((p.2 + 1) as nat, m as nat);
            } else {
                lemma_mod_add_multiples_vanish(0, m);
                lemma_small_mod(0, m as nat);
            }
        }
    }
}

/// At most one loop keeps ticking: once a later loop was spawned (and fewer
/// than 2^64 loops since), a loop holds a number that is no longer the
/// current one, so its next tick ends it, whatever the run of starts, stops
/// and status changes in between.
pub proof fn lemma_stale_loop_ends(running: bool, online: bool, g: u64, evs: Seq<RunnerEvent>)
    requires
        0 < after_events(running, online, g, evs).3 < 0x1_0000_0000_0000_0000,
    ensures
        after_events(running, online, g, evs).2 != g,
{
    let m: int = 0x1_0000_0000_0000_0000;
    let k = after_events(running, online, g, evs).3;
    lemma_loop_number_counts_spawns(running, online, g, evs);
    if g + k < m {
        lemma_small_mod((g + k) as nat, m as nat);
    } else {
        lemma_mod_add_multiples_vanish(g + k - m, m);
        lemma_small_mod((g + k - m) as nat, m as nat);
    }
}

} // verus!
