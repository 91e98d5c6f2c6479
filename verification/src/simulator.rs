//! The tick scheduler: drives simulated time forward in fixed steps, decides
//! per tick whether the one module's front event is due, runs it, tracks
//! global idleness, and commits staged register writes at each tick's end.
use crate::driver::driver_staged_write;
use crate::driver::Driver;
use crate::laws::canonical_events;
use crate::laws::driver_state;
use crate::laws::lemma_counter_after_mod;
use crate::laws::lemma_driver_run;
use crate::register::apply_writes;
use crate::register::keep_pending;
use crate::register::Array;
use crate::register::ArrayWrite;
use std::collections::HashMap;
use std::collections::VecDeque;
use vstd::arithmetic::mul::lemma_mul_inequality;
use vstd::prelude::*;

verus! {

/// The mathematical state of a [`Simulator`]: current simulated time, the
/// reserved request-to-timestamp table, the committed register values, the
/// staged register writes in staging order, the module's triggered flag, and
/// its queue of pending trigger timestamps.
#[verifier::ext_equal]
pub ghost struct State {
    pub stamp: nat,
    pub table: Map<i64, usize>,
    pub reg: Seq<u32>,
    pub pending: Seq<ArrayWrite>,
    pub triggered: bool,
    pub events: Seq<usize>,
}

impl State {
    /// The register file has exactly one cell and every staged write targets
    /// it.
    pub open spec fn wf(self) -> bool {
        &&& self.reg.len() == 1
        &&& forall|j: int| 0 <= j < self.pending.len() ==> (#[trigger] self.pending[j]).idx < 1
    }

    /// The front event of the module's queue is due at the current simulated
    /// time.
    pub open spec fn event_due(self) -> bool {
        self.events.len() > 0 && self.events[0] <= self.stamp
    }
}

/// The registered modules, as tagged variants; this instance has exactly one
/// real module.
#[derive(Clone, Copy)]
pub enum Module {
    /// The one hardware module: reads the register, stages an increment, and
    /// always succeeds.
    Driver,
    /// A module whose logic function always reports failure: its event stays
    /// queued and it retries at the next due tick. It exercises the
    /// scheduler's retry and idle handling.
    Stuck,
}

/// One module scheduling step. When the front event is due the module runs
/// exactly once: on success the event is popped and the module is marked
/// triggered; on failure the event stays queued for a later tick and the flag
/// stays false. When no event is due, nothing happens.
pub open spec fn module_step(s: State, m: Module) -> State {
    if s.event_due() {
        match m {
            Module::Driver => State {
                pending: s.pending.push(driver_staged_write(s)),
                events: s.events.drop_first(),
                triggered: true,
                ..s
            },
            Module::Stuck => State { triggered: false, ..s },
        }
    } else {
        s
    }
}

/// One line of the simulation's diagnostic trace: the simulated time of a
/// triggered execution and the register value committed at that moment (the
/// staged increment is not yet visible).
#[derive(Clone, Copy, PartialEq, Eq, Structural, Debug)]
pub struct TraceEntry {
    pub stamp: usize,
    pub value: u32,
}

/// What one whole run of the tick loop produces: the final simulator state,
/// how many ticks ran, whether the idle threshold stopped the run early, and
/// the diagnostic trace of the triggered executions.
#[verifier::ext_equal]
pub ghost struct RunResult {
    pub state: State,
    pub ticks: nat,
    pub stopped: bool,
    pub trace: Seq<TraceEntry>,
}

/// The tick loop from iteration `i` of `1..=iters`, starting in state `s`
/// with `idle` consecutive idle ticks already seen. Each tick advances the
/// stamp to the iteration's nominal slot (100 units per iteration), clears
/// the triggered flag, runs the module's scheduling step, and then either
/// halts because `thr` consecutive idle ticks have accumulated, or advances
/// time by the 50-unit half-step and commits the due register writes.
pub open spec fn run_from(s: State, m: Module, i: nat, iters: nat, idle: nat, thr: nat) -> RunResult
    decreases iters + 1 - i,
{
    if i > iters {
        RunResult { state: s, ticks: 0, stopped: false, trace: Seq::empty() }
    } else {
        let s1 = State { stamp: i * 100, triggered: false, ..s };
        let s2 = module_step(s1, m);
        let tr: Seq<TraceEntry> = if s2.triggered {
            seq![TraceEntry { stamp: s2.stamp as usize, value: s2.reg[0] }]
        } else {
            Seq::empty()
        };
        let idle2: nat = if s2.triggered {
            0
        } else {
            idle + 1
        };
        if !s2.triggered && idle2 >= thr {
            RunResult { state: s2, ticks: 1, stopped: true, trace: tr }
        } else {
            let s3 = State { stamp: s2.stamp + 50, ..s2 };
            let s4 = State {
                reg: apply_writes(s3.reg, s3.pending, s3.stamp),
                pending: keep_pending(s3.pending, s3.stamp),
                ..s3
            };
            let rest = run_from(s4, m, i + 1, iters, idle2, thr);
            RunResult {
                state: rest.state,
                ticks: 1 + rest.ticks,
                stopped: rest.stopped,
                trace: tr + rest.trace,
            }
        }
    }
}

/// What the executable tick loop reports back beside the mutated simulator.
pub struct RunReport {
    /// How many ticks ran, the stopping tick included.
    pub ticks_run: usize,
    /// Whether the idle threshold ended the run.
    pub idle_stopped: bool,
    /// One entry per triggered execution, in tick order.
    pub trace: Vec<TraceEntry>,
}

/// The simulation context: constructed once, mutated every tick, discarded at
/// loop exit.
pub struct Simulator {
    /// Current simulated time.
    pub stamp: usize,
    /// Reserved for request/response correlation in multi-module designs;
    /// never populated or read in this instance.
    pub request_stamp_map_table: HashMap<i64, usize>,
    /// The one register array, holding the single counter cell.
    pub cnt: Array,
    /// Whether the module executed successfully during the current tick.
    pub Driver_triggered: bool,
    /// The module's pending trigger timestamps, consumed from the front.
    pub Driver_event: VecDeque<usize>,
}

impl View for Simulator {
    type V = State;

    open spec fn view(&self) -> State {
        State {
            stamp: self.stamp as nat,
            table: self.request_stamp_map_table@,
            reg: self.cnt.payload@,
            pending: self.cnt.writes@,
            triggered: self.Driver_triggered,
            events: self.Driver_event@,
        }
    }
}

impl Simulator {
    /// A fresh simulator: time zero, an empty lookup table, one zeroed
    /// register cell with nothing staged, the module untriggered, and an
    /// empty event queue.
    pub fn new() -> (s: Self)
        ensures
            s@ == (State {
                stamp: 0,
                table: Map::<i64, usize>::empty(),
                reg: seq![0u32],
                pending: Seq::<ArrayWrite>::empty(),
                triggered: false,
                events: Seq::<usize>::empty(),
            }),
            s@.wf(),
    {
        let cnt = Array::new_with_ports(1, 1);
        proof {
            assert(cnt.payload@ =~= seq![0u32]);
        }
        let s = Simulator {
            stamp: 0,
            request_stamp_map_table: HashMap::new(),
            cnt,
            Driver_triggered: false,
            Driver_event: VecDeque::new(),
        };
        s
    }

    /// Whether the front timestamp of `event` has arrived: the queue is
    /// non-empty and its front is at or before the current simulated time.
    pub fn event_valid(&self, event: &VecDeque<usize>) -> (r: bool)
        ensures
            r == (event@.len() > 0 && event@[0] <= self@.stamp),
    {
        if event.len() > 0 {
            let front = event[0];
            front <= self.stamp
        } else {
            false
        }
    }

    /// Clear the module's triggered flag at the start of a tick.
    pub fn reset_downstream(&mut self)
        ensures
            final(self)@ == (State { triggered: false, ..old(self)@ }),
    {
        self.Driver_triggered = false;
    }

    /// Commit every staged register write whose time has arrived at the
    /// current stamp, keeping the rest staged.
    pub fn tick_registers(&mut self)
        requires
            old(self)@.wf(),
        ensures
            final(self)@ == (State {
                reg: apply_writes(old(self)@.reg, old(self)@.pending, old(self)@.stamp),
                pending: keep_pending(old(self)@.pending, old(self)@.stamp),
                ..old(self)@
            }),
            final(self)@.wf(),
    {
        let now = self.stamp;
        proof {
            assert forall|j: int| 0 <= j < self.cnt.writes@.len() implies (#[trigger] self.cnt.writes@[j]).idx < self.cnt.payload@.len() by {
                assert(self@.pending[j].idx < 1);
            }
        }
        self.cnt.tick(now);
    }

    /// Reset external resettable resources for the next cycle. No DRAM model
    /// is present in this instance, so this is a no-op hook.
    pub fn reset_dram(&mut self)
        ensures
            *final(self) == *old(self),
    {
    }

    /// The Driver's scheduling step: when its front event is due, run its
    /// logic function exactly once; it always succeeds, so the event is
    /// popped and the module is marked triggered.
    pub fn simulate_Driver(&mut self)
        requires
            old(self)@.wf(),
            old(self).stamp + 50 <= usize::MAX,
        ensures
            final(self)@ == module_step(old(self)@, Module::Driver),
            final(self)@.wf(),
    {
        if self.event_valid(&self.Driver_event) {
            let succ = Driver(self);
            if succ {
                self.Driver_event.pop_front();
            }
            self.Driver_triggered = succ;
            proof {
                assert(self@.events =~= old(self)@.events.drop_first());
                assert(self@ =~= module_step(old(self)@, Module::Driver));
            }
        }
    }

    /// Run one module's scheduling step, chosen by its tag.
    pub fn run_module(&mut self, m: Module)
        requires
            old(self)@.wf(),
            old(self).stamp + 50 <= usize::MAX,
        ensures
            final(self)@ == module_step(old(self)@, m),
            final(self)@.wf(),
    {
        match m {
            Module::Driver => self.simulate_Driver(),
            Module::Stuck => self.simulate_stuck(),
        }
    }

    /// The scheduling step for a module that always fails: when its event is
    /// due it runs, reports failure, the event stays queued, and the module
    /// is not marked triggered.
    pub fn simulate_stuck(&mut self)
        ensures
            final(self)@ == module_step(old(self)@, Module::Stuck),
    {
        if self.event_valid(&self.Driver_event) {
            self.Driver_triggered = false;
        }
    }
}

/// Drive up to `iters` scheduler ticks over `sim`, running module `m`'s
/// scheduling step each tick, counting consecutive ticks in which no module
/// triggered, and halting early once `idle_threshold` of them accumulate.
/// The whole run follows the [`run_from`] model exactly.
pub fn run_loop(sim: &mut Simulator, m: Module, iters: usize, idle_threshold: usize) -> (r:
    RunReport)
    requires
        old(sim)@.wf(),
        100 * iters + 50 <= usize::MAX,
    ensures
        ({
            let res = run_from(old(sim)@, m, 1, iters as nat, 0, idle_threshold as nat);
            &&& final(sim)@ == res.state
            &&& r.ticks_run == res.ticks
            &&& r.idle_stopped == res.stopped
            &&& r.trace@ == res.trace
        }),
        final(sim)@.wf(),
{
    let ghost s0 = sim@;
    let mut trace: Vec<TraceEntry> = Vec::new();
    let mut idle_count: usize = 0;
    let mut ticks_done: usize = 0;
    let mut stopped: bool = false;
    let mut i: usize = 1;
    proof {
        let res = run_from(s0, m, 1, iters as nat, 0, idle_threshold as nat);
        assert(Seq::<TraceEntry>::empty() + res.trace =~= res.trace);
    }
    while i <= iters
        invariant_except_break
            1 <= i <= iters + 1,
            ticks_done == i - 1,
            idle_count < i,
            stopped == false,
            sim@.wf(),
            100 * iters + 50 <= usize::MAX,
            ({
                let res = run_from(s0, m, 1, iters as nat, 0, idle_threshold as nat);
                let rc = run_from(
                    sim@,
                    m,
                    i as nat,
                    iters as nat,
                    idle_count as nat,
                    idle_threshold as nat,
                );
                &&& res.state == rc.state
                &&& res.ticks == ticks_done + rc.ticks
                &&& res.stopped == rc.stopped
                &&& res.trace == trace@ + rc.trace
            }),
        ensures
            sim@.wf(),
            ({
                let res = run_from(s0, m, 1, iters as nat, 0, idle_threshold as nat);
                &&& res.state == sim@
                &&& res.ticks == ticks_done
                &&& res.stopped == stopped
                &&& res.trace =~= trace@
            }),
        decreases iters + 1 - i,
    {
        ticks_done = i;
        let ghost s_top = sim@;
        let ghost idle_top = idle_count as nat;
        let ghost trace_top = trace@;
        proof {
            lemma_mul_inequality(i as int, iters as int, 100);
        }
        sim.stamp = i * 100;
        sim.reset_downstream();
        let ghost s1 = State { stamp: (i * 100) as nat, triggered: false, ..s_top };
        proof {
            assert(sim@ =~= s1);
        }
        sim.run_module(m);
        let ghost s2 = module_step(s1, m);
        let any_module_triggered = sim.Driver_triggered;
        if any_module_triggered {
            let v = sim.cnt.read(0);
            trace.push(TraceEntry { stamp: sim.stamp, value: v });
        }
        let ghost tr: Seq<TraceEntry> = if s2.triggered {
            seq![TraceEntry { stamp: s2.stamp as usize, value: s2.reg[0] }]
        } else {
            Seq::empty()
        };
        proof {
            assert(trace@ =~= trace_top + tr);
        }
        if !any_module_triggered {
            idle_count = idle_count + 1;
            if idle_count >= idle_threshold {
                stopped = true;
                proof {
                    let res = run_from(s0, m, 1, iters as nat, 0, idle_threshold as nat);
                    let rc = run_from(
                        s_top,
                        m,
                        i as nat,
                        iters as nat,
                        idle_top,
                        idle_threshold as nat,
                    );
                    assert(rc == RunResult {
                        state: s2,
                        ticks: 1,
                        stopped: true,
                        trace: Seq::<TraceEntry>::empty(),
                    });
                    assert(res.trace =~= trace@);
                }
                break;
            }
        } else {
            idle_count = 0;
        }
        let ghost idle2: nat = if s2.triggered {
            0
        } else {
            idle_top + 1
        };
        sim.stamp = sim.stamp + 50;
        sim.tick_registers();
        sim.reset_dram();
        proof {
            let res = run_from(s0, m, 1, iters as nat, 0, idle_threshold as nat);
            let rc = run_from(s_top, m, i as nat, iters as nat, idle_top, idle_threshold as nat);
            let s3 = State { stamp: s2.stamp + 50, ..s2 };
            let s4 = State {
                reg: apply_writes(s3.reg, s3.pending, s3.stamp),
                pending: keep_pending(s3.pending, s3.stamp),
                ..s3
            };
            let rc_next = run_from(
                s4,
                m,
                i as nat + 1,
                iters as nat,
                idle2,
                idle_threshold as nat,
            );
            assert(rc == RunResult {
                state: rc_next.state,
                ticks: 1 + rc_next.ticks,
                stopped: rc_next.stopped,
                trace: tr + rc_next.trace,
            });
            assert(sim@ =~= s4);
            assert(idle_count as nat == idle2);
            assert(res.trace =~= trace@ + rc_next.trace);
        }
        i = i + 1;
    }
    RunReport { ticks_run: ticks_done, idle_stopped: stopped, trace }
}

/// Build a fresh simulator, pre-populate the Driver's event queue with one
/// hundred trigger timestamps 100 units apart, and run the tick loop to its
/// bound of one hundred iterations with an idle threshold of one hundred.
/// Every tick finds its event due and the Driver always succeeds, so the run
/// never idles: it consumes all one hundred events, leaves the register at
/// one hundred, and traces each execution's time and pre-increment value.
pub fn simulate() -> (r: (Simulator, RunReport))
    ensures
        r.0@ == driver_state(100),
        r.0@.wf(),
        r.0@.reg == seq![100u32],
        r.0@.pending == Seq::<ArrayWrite>::empty(),
        r.0@.events == Seq::<usize>::empty(),
        r.0@.stamp == 10050,
        r.1.idle_stopped == false,
        r.1.ticks_run == 100,
        r.1.trace@.len() == 100,
        forall|j: int|
            0 <= j < 100 ==> r.1.trace@[j] == (TraceEntry {
                stamp: (100 * (j + 1)) as usize,
                value: j as u32,
            }),
{
    let mut sim = Simulator::new();
    proof {
        assert(sim@ =~= (State {
            events: Seq::new(0, |k: int| (100 * (k + 1)) as usize),
            ..driver_state(0)
        }));
    }
    let mut i: usize = 1;
    while i <= 100
        invariant
            1 <= i <= 101,
            sim@ == (State {
                events: Seq::new((i - 1) as nat, |k: int| (100 * (k + 1)) as usize),
                ..driver_state(0)
            }),
        decreases 101 - i,
    {
        sim.Driver_event.push_back(i * 100);
        proof {
            assert(sim@.events =~= Seq::new(i as nat, |k: int| (100 * (k + 1)) as usize));
            assert(sim@ =~= (State {
                events: Seq::new(i as nat, |k: int| (100 * (k + 1)) as usize),
                ..driver_state(0)
            }));
        }
        i = i + 1;
    }
    proof {
        assert(sim@.events =~= canonical_events());
        assert(sim@ =~= driver_state(0));
    }
    let report = run_loop(&mut sim, Module::Driver, 100, 100);
    proof {
        lemma_driver_run(0);
        lemma_counter_after_mod(100);
        assert(driver_state(100).events =~= Seq::<usize>::empty());
        assert(driver_state(100).reg =~= seq![100u32]);
        assert forall|j: int|
            0 <= j < 100 implies report.trace@[j] == (TraceEntry {
            stamp: (100 * (j + 1)) as usize,
            value: j as u32,
        }) by {
            lemma_counter_after_mod(j as nat);
        }
    }
    (sim, report)
}

} // verus!
