//! The one hardware module of the simulation: each time it runs it reads the
//! committed register value, stages a wraparound increment to commit at the
//! current tick's half-step, and always reports success.
use crate::register::ArrayWrite;
use crate::simulator::Simulator;
use crate::simulator::State;
use vstd::arithmetic::div_mod::lemma_mod_decreases;
use vstd::prelude::*;

verus! {

/// The value the module stages: the current committed value plus one, with
/// 32-bit unsigned wraparound.
pub open spec fn wrap_inc(v: u32) -> u32 {
    if v == 0xffff_ffffu32 {
        0u32
    } else {
        (v + 1) as u32
    }
}

/// The commit time the module picks: the nearest prior multiple-of-100
/// simulated-time boundary, plus 50 — the half-step of the tick in which it
/// ran.
pub open spec fn commit_stamp(stamp: nat) -> nat {
    (stamp - stamp % 100 + 50) as nat
}

/// The write the module stages when it runs in state `s`.
pub open spec fn driver_staged_write(s: State) -> ArrayWrite {
    ArrayWrite {
        stamp: commit_stamp(s.stamp) as usize,
        idx: 0,
        value: wrap_inc(s.reg[0]),
    }
}

/// The module's logic function: a pure read-increment-write cycle on the one
/// register cell. It has no failure path and always reports success; the
/// scheduler reacts to the returned flag.
pub fn Driver(sim: &mut Simulator) -> (succ: bool)
    requires
        old(sim)@.wf(),
        old(sim).stamp + 50 <= usize::MAX,
    ensures
        succ,
        final(sim)@ == (State {
            pending: old(sim)@.pending.push(driver_staged_write(old(sim)@)),
            ..old(sim)@
        }),
        final(sim)@.wf(),
{
    let cnt_rd = sim.cnt.read(0);
    let v: u32 = if cnt_rd == 0xffff_ffffu32 {
        0
    } else {
        cnt_rd + 1
    };
    proof {
        lemma_mod_decreases(sim.stamp as nat, 100);
    }
    let stamp = sim.stamp - sim.stamp % 100 + 50;
    let write = ArrayWrite::new(stamp, 0, v);
    sim.cnt.write(0, write);
    proof {
        assert(sim@ =~= (State {
            pending: old(sim)@.pending.push(driver_staged_write(old(sim)@)),
            ..old(sim)@
        }));
    }
    true
}

} // verus!
