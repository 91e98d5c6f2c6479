//! The laws the scheduler and the register store obey, proved once and for
//! all over the [`run_from`](crate::simulator::run_from) model that the
//! executable tick loop is verified to follow.
use crate::driver::driver_staged_write;
use crate::driver::wrap_inc;
use crate::register::apply_writes;
use crate::register::keep_pending;
use crate::register::lemma_greatest_stamp_wins;
use crate::register::write_wins;
use crate::register::ArrayWrite;
use crate::simulator::module_step;
use crate::simulator::run_from;
use crate::simulator::Module;
use crate::simulator::RunResult;
use crate::simulator::State;
use crate::simulator::TraceEntry;
use vstd::arithmetic::div_mod::lemma_add_mod_noop;
use vstd::arithmetic::div_mod::lemma_mod_self_0;
use vstd::arithmetic::div_mod::lemma_small_mod;
use vstd::prelude::*;

verus! {

/// The register value after `n` successful module executions starting from
/// zero: each execution replaces the value `v` by `wrap_inc(v)`.
pub open spec fn counter_after(n: nat) -> u32
    decreases n,
{
    if n == 0 {
        0u32
    } else {
        wrap_inc(counter_after((n - 1) as nat))
    }
}

/// Law: the register value strictly increases by one modulo 2^32 on every
/// successful execution, so after `n` successful executions starting from
/// zero the committed value equals `n` modulo 2^32.
pub proof fn lemma_counter_after_mod(n: nat)
    ensures
        counter_after(n) == n % 0x1_0000_0000,
    decreases n,
{
    let m: int = 0x1_0000_0000;
    if n == 0 {
        lemma_small_mod(0, 0x1_0000_0000nat);
    } else {
        lemma_counter_after_mod((n - 1) as nat);
        lemma_add_mod_noop(n - 1, 1, m);
        lemma_small_mod(1, 0x1_0000_0000nat);
        if (n - 1) % m == m - 1 {
            lemma_mod_self_0(m);
        } else {
            lemma_small_mod(((n - 1) % m + 1) as nat, 0x1_0000_0000nat);
        }
    }
}

/// Law: on a tick where the module's front event is due, its scheduling step
/// runs the module exactly once — exactly one write is staged and exactly the
/// front event is popped on success, and the event stays queued on failure —
/// and on a tick where no event is due, nothing runs at all.
pub proof fn lemma_module_runs_exactly_when_due(s: State)
    ensures
        s.event_due() ==> module_step(s, Module::Driver) == (State {
            pending: s.pending.push(driver_staged_write(s)),
            events: s.events.drop_first(),
            triggered: true,
            ..s
        }),
        s.event_due() ==> module_step(s, Module::Stuck) == (State { triggered: false, ..s }),
        !s.event_due() ==> module_step(s, Module::Driver) == s,
        !s.event_due() ==> module_step(s, Module::Stuck) == s,
{
}

/// Law: with a module that always fails and nothing staged, every tick is
/// idle, so the idle counter increments every tick, the loop halts after
/// exactly `thr - idle` more ticks (or at the iteration bound, whichever
/// comes first), and the register values, the staged writes, the event queue
/// and the lookup table are all left unchanged with nothing traced.
pub proof fn lemma_stuck_run(s: State, i: nat, iters: nat, idle: nat, thr: nat)
    requires
        s.pending == Seq::<ArrayWrite>::empty(),
        idle < thr,
    ensures
        ({
            let r = run_from(s, Module::Stuck, i, iters, idle, thr);
            let remaining: nat = if i <= iters {
                (iters + 1 - i) as nat
            } else {
                0
            };
            let n: nat = (thr - idle) as nat;
            &&& r.state.reg == s.reg
            &&& r.state.pending == s.pending
            &&& r.state.events == s.events
            &&& r.state.table == s.table
            &&& r.state.triggered == false || r.state == s
            &&& r.trace == Seq::<TraceEntry>::empty()
            &&& r.stopped == (n <= remaining)
            &&& r.ticks == if n <= remaining {
                n
            } else {
                remaining
            }
        }),
    decreases iters + 1 - i,
{
    let r = run_from(s, Module::Stuck, i, iters, idle, thr);
    if i > iters {
    } else {
        let s1 = State { stamp: i * 100, triggered: false, ..s };
        let s2 = module_step(s1, Module::Stuck);
        assert(s2.reg == s.reg && s2.pending == s.pending && s2.events == s.events && s2.table
            == s.table && !s2.triggered);
        if idle + 1 >= thr {
            assert(r == RunResult {
                state: s2,
                ticks: 1,
                stopped: true,
                trace: Seq::<TraceEntry>::empty(),
            });
        } else {
            let s3 = State { stamp: s2.stamp + 50, ..s2 };
            let s4 = State {
                reg: apply_writes(s3.reg, s3.pending, s3.stamp),
                pending: keep_pending(s3.pending, s3.stamp),
                ..s3
            };
            assert(apply_writes(s3.reg, s3.pending, s3.stamp) == s3.reg);
            assert(keep_pending(s3.pending, s3.stamp) == Seq::<ArrayWrite>::empty());
            lemma_stuck_run(s4, i + 1, iters, (idle + 1) as nat, thr);
            let rest = run_from(s4, Module::Stuck, i + 1, iters, (idle + 1) as nat, thr);
            assert(r == RunResult {
                state: rest.state,
                ticks: 1 + rest.ticks,
                stopped: rest.stopped,
                trace: Seq::<TraceEntry>::empty() + rest.trace,
            });
            assert(Seq::<TraceEntry>::empty() + rest.trace =~= rest.trace);
        }
    }
}

/// The pre-populated event queue of the canonical run: one hundred trigger
/// timestamps, 100 units apart, starting at 100.
pub open spec fn canonical_events() -> Seq<usize> {
    Seq::new(100, |k: int| (100 * (k + 1)) as usize)
}

/// The simulator state after `k` full ticks of the canonical run that
/// `simulate` starts: time stands at the committed half-step, the register
/// holds the count of executions so far, nothing is staged, and the first `k`
/// events have been consumed.
pub open spec fn driver_state(k: nat) -> State {
    State {
        stamp: if k == 0 {
            0nat
        } else {
            (100 * k + 50) as nat
        },
        table: Map::<i64, usize>::empty(),
        reg: seq![counter_after(k)],
        pending: Seq::<ArrayWrite>::empty(),
        triggered: k >= 1,
        events: canonical_events().skip(k as int),
    }
}

/// Law: in the canonical run the Driver executes on every one of the
/// remaining ticks — its front event is always due — so the run goes to the
/// iteration bound, never idles, consumes every event, and traces each tick's
/// time together with the register value counted so far.
pub proof fn lemma_driver_run(k: nat)
    requires
        k <= 100,
    ensures
        ({
            let r = run_from(driver_state(k), Module::Driver, k + 1, 100, 0, 100);
            &&& r.state == driver_state(100)
            &&& r.ticks == 100 - k
            &&& r.stopped == false
            &&& r.trace == Seq::new(
                (100 - k) as nat,
                |j: int|
                    TraceEntry {
                        stamp: (100 * (k + 1 + j)) as usize,
                        value: counter_after((k + j) as nat),
                    },
            )
        }),
    decreases 100 - k,
{
    let s = driver_state(k);
    let r = run_from(s, Module::Driver, k + 1, 100, 0, 100);
    if k == 100 {
        assert(r.trace =~= Seq::new(
            0,
            |j: int|
                TraceEntry {
                    stamp: (100 * (k + 1 + j)) as usize,
                    value: counter_after((k + j) as nat),
                },
        ));
    } else {
        let s1 = State { stamp: (k + 1) * 100, triggered: false, ..s };
        assert(s1.events[0] == canonical_events()[k as int]);
        assert(canonical_events()[k as int] == (100 * (k + 1)) as usize);
        assert(s1.event_due());
        let w = driver_staged_write(s1);
        assert((100 * (k + 1)) % 100 == 0) by {
            vstd::arithmetic::div_mod::lemma_mod_multiples_basic(k as int + 1, 100);
        }
        assert(w == (ArrayWrite {
            stamp: (100 * (k + 1) + 50) as usize,
            idx: 0,
            value: counter_after(k + 1),
        }));
        let s2 = module_step(s1, Module::Driver);
        assert(s2.events =~= canonical_events().skip(k as int + 1));
        let s3 = State { stamp: s2.stamp + 50, ..s2 };
        let pending1 = s.pending.push(w);
        assert(pending1[0] == w);
        assert(pending1.drop_first() =~= Seq::<ArrayWrite>::empty());
        assert(write_wins(pending1, s3.stamp, 0));
        lemma_greatest_stamp_wins(s3.reg, pending1, s3.stamp, 0);
        assert(apply_writes(s3.reg, pending1, s3.stamp) =~= seq![counter_after(k + 1)]);
        assert(keep_pending(pending1, s3.stamp) == keep_pending(
            Seq::<ArrayWrite>::empty(),
            s3.stamp,
        ));
        let s4 = State {
            reg: apply_writes(s3.reg, s3.pending, s3.stamp),
            pending: keep_pending(s3.pending, s3.stamp),
            ..s3
        };
        assert(s4 =~= driver_state(k + 1));
        lemma_driver_run(k + 1);
        let rest = run_from(driver_state(k + 1), Module::Driver, k + 2, 100, 0, 100);
        let tr: Seq<TraceEntry> = seq![
            TraceEntry { stamp: s2.stamp as usize, value: s2.reg[0] },
        ];
        assert(r == RunResult {
            state: rest.state,
            ticks: 1 + rest.ticks,
            stopped: rest.stopped,
            trace: tr + rest.trace,
        });
        let target = Seq::new(
            (100 - k) as nat,
            |j: int|
                TraceEntry {
                    stamp: (100 * (k + 1 + j)) as usize,
                    value: counter_after((k + j) as nat),
                },
        );
        assert forall|j: int| 0 <= j < target.len() implies (tr + rest.trace)[j] == target[j] by {
            if j == 0 {
                assert((tr + rest.trace)[0] == tr[0]);
            } else {
                assert((tr + rest.trace)[j] == rest.trace[j - 1]);
                assert(rest.trace[j - 1] == (TraceEntry {
                    stamp: (100 * (k + 1 + 1 + (j - 1))) as usize,
                    value: counter_after((k + 1 + (j - 1)) as nat),
                }));
            }
        }
        assert(r.trace =~= target);
    }
}

/// Law: the tick loop never runs past its iteration bound; it runs exactly to
/// the bound unless the idle threshold stops it; when it stops early the idle
/// counter has reached the threshold on a tick that triggered nothing; and at
/// most one event is consumed per tick that ran, so no event is processed
/// after the stopping tick.
pub proof fn lemma_idle_halt(s: State, m: Module, i: nat, iters: nat, idle: nat, thr: nat)
    ensures
        ({
            let r = run_from(s, m, i, iters, idle, thr);
            let remaining: nat = if i <= iters {
                (iters + 1 - i) as nat
            } else {
                0
            };
            &&& r.ticks <= remaining
            &&& (!r.stopped ==> r.ticks == remaining)
            &&& (r.stopped ==> idle + r.ticks >= thr)
            &&& (r.stopped ==> !r.state.triggered)
            &&& r.state.events.len() <= s.events.len()
            &&& s.events.len() - r.state.events.len() <= r.ticks
        }),
    decreases iters + 1 - i,
{
    let r = run_from(s, m, i, iters, idle, thr);
    if i > iters {
    } else {
        let s1 = State { stamp: i * 100, triggered: false, ..s };
        let s2 = module_step(s1, m);
        assert(s2.events.len() <= s.events.len() && s.events.len() - s2.events.len() <= 1);
        let idle2: nat = if s2.triggered {
            0
        } else {
            (idle + 1) as nat
        };
        if !s2.triggered && idle2 >= thr {
        } else {
            let s3 = State { stamp: s2.stamp + 50, ..s2 };
            let s4 = State {
                reg: apply_writes(s3.reg, s3.pending, s3.stamp),
                pending: keep_pending(s3.pending, s3.stamp),
                ..s3
            };
            lemma_idle_halt(s4, m, i + 1, iters, idle2, thr);
        }
    }
}

} // verus!
