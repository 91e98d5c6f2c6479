//! The register store: a fixed-size array of 32-bit register cells with
//! tick-based commit. A write is staged together with the simulated time at
//! which it may commit; `tick` commits the staged writes whose time has
//! arrived — among due writes to the same cell the one with the greatest
//! stamp wins, ties broken by staging order — and keeps the rest staged.
use vstd::prelude::*;

verus! {

/// A staged register write: `value` is to be committed to cell `idx` once
/// simulated time reaches `stamp`.
#[derive(Clone, Copy)]
pub struct ArrayWrite {
    pub stamp: usize,
    pub idx: usize,
    pub value: u32,
}

impl ArrayWrite {
    pub fn new(stamp: usize, idx: usize, value: u32) -> (w: ArrayWrite)
        ensures
            w == (ArrayWrite { stamp, idx, value }),
    {
        ArrayWrite { stamp, idx, value }
    }
}

/// Write `j` of `ws` is due at time `now` and wins its cell: every other due
/// write to the same cell has either a smaller stamp, or the same stamp and
/// an earlier staging position. This is last-write-wins ordering by stamp,
/// with ties broken by call order.
pub open spec fn write_wins(ws: Seq<ArrayWrite>, now: nat, j: int) -> bool {
    &&& 0 <= j < ws.len()
    &&& ws[j].stamp <= now
    &&& forall|k: int|
        0 <= k < ws.len() && k != j && (#[trigger] ws[k]).idx == ws[j].idx && ws[k].stamp
            <= now ==> ws[k].stamp < ws[j].stamp || (ws[k].stamp == ws[j].stamp && k < j)
}

/// Some due write of `ws` wins cell `c` at time `now`.
pub open spec fn some_write_wins(ws: Seq<ArrayWrite>, now: nat, c: int) -> bool {
    exists|j: int| write_wins(ws, now, j) && ws[j].idx == c
}

/// The value cell `c` holds after a tick at time `now`: the winning due
/// write's value, or the previously committed value when no write to `c` is
/// due.
pub open spec fn committed_cell(p: Seq<u32>, ws: Seq<ArrayWrite>, now: nat, c: int) -> u32 {
    if some_write_wins(ws, now, c) {
        ws[choose|j: int| write_wins(ws, now, j) && ws[j].idx == c].value
    } else {
        p[c]
    }
}

/// The committed cell values after a tick at time `now` runs the staged
/// writes of `ws` whose stamp has arrived: due writes commit in ascending
/// stamp order, stable on ties, so each cell ends at its winning due write.
pub open spec fn apply_writes(p: Seq<u32>, ws: Seq<ArrayWrite>, now: nat) -> Seq<u32> {
    Seq::new(p.len(), |c: int| committed_cell(p, ws, now, c))
}

/// The staged writes of `ws` that have not yet arrived at time `now`, in
/// staging order.
pub open spec fn keep_pending(ws: Seq<ArrayWrite>, now: nat) -> Seq<ArrayWrite>
    decreases ws.len(),
{
    if ws.len() == 0 {
        Seq::empty()
    } else if ws[0].stamp > now {
        seq![ws[0]] + keep_pending(ws.drop_first(), now)
    } else {
        keep_pending(ws.drop_first(), now)
    }
}

/// The value cell `c` holds after only the first `bound` staged writes have
/// been examined, each committing exactly when it wins the whole buffer.
/// Scaffolding for `Array::tick`'s loop; at `bound == ws.len()` it equals
/// `committed_cell`.
pub open spec fn partial_commit(p: Seq<u32>, ws: Seq<ArrayWrite>, now: nat, bound: int, c: int) -> u32
    decreases bound,
{
    if bound <= 0 {
        p[c]
    } else if write_wins(ws, now, bound - 1) && ws[bound - 1].idx == c {
        ws[bound - 1].value
    } else {
        partial_commit(p, ws, now, bound - 1, c)
    }
}

/// A single-write-port array of 32-bit register cells. Reads return the last
/// committed value; writes are staged and become visible only once `tick`
/// runs at or after their stamp.
pub struct Array {
    /// The committed value of each cell.
    pub payload: Vec<u32>,
    /// The staging buffer, in write order.
    pub writes: Vec<ArrayWrite>,
}

impl Array {
    /// Every staged write targets an existing cell.
    pub open spec fn wf(self) -> bool {
        forall|j: int|
            0 <= j < self.writes@.len() ==> (#[trigger] self.writes@[j]).idx
                < self.payload@.len()
    }

    /// A fresh array of `size` cells, all zero, with an empty staging buffer.
    /// The write-port count is fixed at construction and does not affect the
    /// single-port behaviour modelled here.
    pub fn new_with_ports(size: usize, _ports: usize) -> (a: Array)
        ensures
            a.payload@ == Seq::new(size as nat, |k: int| 0u32),
            a.writes@ == Seq::<ArrayWrite>::empty(),
            a.wf(),
    {
        let mut payload: Vec<u32> = Vec::new();
        let mut k: usize = 0;
        while k < size
            invariant
                k <= size,
                payload@ == Seq::new(k as nat, |j: int| 0u32),
            decreases size - k,
        {
            payload.push(0);
            proof {
                assert(payload@ =~= Seq::new((k + 1) as nat, |j: int| 0u32));
            }
            k = k + 1;
        }
        Array { payload, writes: Vec::new() }
    }

    /// The last committed value of cell `idx`. Out-of-range access is a
    /// programming error, ruled out by the precondition.
    pub fn read(&self, idx: usize) -> (v: u32)
        requires
            idx < self.payload@.len(),
        ensures
            v == self.payload@[idx as int],
    {
        self.payload[idx]
    }

    /// Stage `w` on the given write port; it commits at the first `tick`
    /// whose time has reached `w.stamp`, unless a better-stamped due write to
    /// the same cell overrides it there.
    pub fn write(&mut self, _port: usize, w: ArrayWrite)
        requires
            old(self).wf(),
            w.idx < old(self).payload@.len(),
        ensures
            final(self).payload@ == old(self).payload@,
            final(self).writes@ == old(self).writes@.push(w),
            final(self).wf(),
    {
        self.writes.push(w);
    }

    /// Commit every staged write whose stamp has arrived at time `now` — each
    /// cell ends at its due write of greatest stamp, ties broken in favour of
    /// the write staged last — and clear all due entries, keeping the rest
    /// staged.
    pub fn tick(&mut self, now: usize)
        requires
            old(self).wf(),
        ensures
            final(self).payload@ == apply_writes(
                old(self).payload@,
                old(self).writes@,
                now as nat,
            ),
            final(self).writes@ == keep_pending(old(self).writes@, now as nat),
            final(self).payload@.len() == old(self).payload@.len(),
            final(self).wf(),
    {
        let ghost p0 = self.payload@;
        let ghost ws0 = self.writes@;
        let mut remaining: Vec<ArrayWrite> = Vec::new();
        let n = self.writes.len();
        let mut j: usize = 0;
        proof {
            assert(ws0.skip(0) =~= ws0);
        }
        while j < n
            invariant
                j <= n,
                n == ws0.len(),
                self.writes@ == ws0,
                self.payload@.len() == p0.len(),
                forall|k: int| 0 <= k < ws0.len() ==> (#[trigger] ws0[k]).idx < p0.len(),
                forall|k: int|
                    0 <= k < remaining@.len() ==> (#[trigger] remaining@[k]).idx < p0.len(),
                forall|c: int|
                    0 <= c < p0.len() ==> #[trigger] self.payload@[c] == partial_commit(
                        p0,
                        ws0,
                        now as nat,
                        j as int,
                        c,
                    ),
                keep_pending(ws0, now as nat) == remaining@ + keep_pending(
                    ws0.skip(j as int),
                    now as nat,
                ),
            decreases n - j,
        {
            let w = self.writes[j];
            proof {
                assert(ws0.skip(j as int)[0] == ws0[j as int]);
                assert(ws0.skip(j as int).drop_first() =~= ws0.skip(j as int + 1));
            }
            if w.stamp <= now {
                if is_winning_write(&self.writes, now, j) {
                    self.payload[w.idx] = w.value;
                }
            } else {
                let ghost rem_before = remaining@;
                remaining.push(w);
                proof {
                    assert(rem_before + (seq![w] + keep_pending(
                        ws0.skip(j as int + 1),
                        now as nat,
                    )) =~= remaining@ + keep_pending(ws0.skip(j as int + 1), now as nat));
                }
            }
            j = j + 1;
        }
        proof {
            assert(ws0.skip(n as int) =~= Seq::<ArrayWrite>::empty());
            assert(remaining@ + keep_pending(ws0.skip(n as int), now as nat) =~= remaining@);
            assert forall|c: int|
                0 <= c < p0.len() implies #[trigger] self.payload@[c] == committed_cell(
                p0,
                ws0,
                now as nat,
                c,
            ) by {
                lemma_partial_commit_upto(p0, ws0, now as nat, ws0.len() as int, c);
            }
            assert(self.payload@ =~= apply_writes(p0, ws0, now as nat));
            lemma_keep_pending_targets(ws0, now as nat, p0.len() as int);
        }
        self.writes = remaining;
    }
}

/// Whether the `j`-th staged write of `writes` is due at `now` and wins its
/// cell against every other due write to the same cell.
fn is_winning_write(writes: &Vec<ArrayWrite>, now: usize, j: usize) -> (r: bool)
    requires
        j < writes@.len(),
    ensures
        r == write_wins(writes@, now as nat, j as int),
{
    let wj = writes[j];
    if wj.stamp > now {
        return false;
    }
    let n = writes.len();
    let mut k: usize = 0;
    while k < n
        invariant
            k <= n,
            n == writes@.len(),
            j < n,
            wj == writes@[j as int],
            wj.stamp <= now,
            forall|t: int|
                0 <= t < k && t != j && (#[trigger] writes@[t]).idx == wj.idx && writes@[t].stamp
                    <= now ==> writes@[t].stamp < wj.stamp || (writes@[t].stamp == wj.stamp && t
                    < j),
        decreases n - k,
    {
        if k != j {
            let wk = writes[k];
            if wk.idx == wj.idx && wk.stamp <= now {
                if wk.stamp > wj.stamp || (wk.stamp == wj.stamp && k > j) {
                    return false;
                }
            }
        }
        k = k + 1;
    }
    true
}

/// At most one due write wins a given cell.
pub proof fn lemma_winner_unique(ws: Seq<ArrayWrite>, now: nat, j1: int, j2: int)
    requires
        write_wins(ws, now, j1),
        write_wins(ws, now, j2),
        ws[j1].idx == ws[j2].idx,
    ensures
        j1 == j2,
{
    if j1 != j2 {
        assert(ws[j2].stamp < ws[j1].stamp || (ws[j2].stamp == ws[j1].stamp && j2 < j1));
        assert(ws[j1].stamp < ws[j2].stamp || (ws[j1].stamp == ws[j2].stamp && j1 < j2));
    }
}

/// Law: when several staged writes to the same cell are due at the same tick,
/// the committed value is that of the write with the greatest stamp; among
/// equal stamps the write staged last wins.
pub proof fn lemma_greatest_stamp_wins(p: Seq<u32>, ws: Seq<ArrayWrite>, now: nat, j: int)
    requires
        write_wins(ws, now, j),
        0 <= ws[j].idx < p.len(),
    ensures
        apply_writes(p, ws, now)[ws[j].idx as int] == ws[j].value,
{
    let c = ws[j].idx as int;
    assert(some_write_wins(ws, now, c));
    let jc = choose|t: int| write_wins(ws, now, t) && ws[t].idx == c;
    lemma_winner_unique(ws, now, j, jc);
}

/// A tick does not change a cell that no due write targets.
pub proof fn lemma_untouched_cell(p: Seq<u32>, ws: Seq<ArrayWrite>, now: nat, c: int)
    requires
        0 <= c < p.len(),
        forall|k: int|
            0 <= k < ws.len() ==> !((#[trigger] ws[k]).idx == c && ws[k].stamp <= now),
    ensures
        apply_writes(p, ws, now)[c] == p[c],
{
    if some_write_wins(ws, now, c) {
        let jc = choose|t: int| write_wins(ws, now, t) && ws[t].idx == c;
        assert(ws[jc].idx == c && ws[jc].stamp <= now);
    }
}

/// Appending one more staged write keeps it staged exactly when its stamp has
/// not arrived.
pub proof fn lemma_keep_pending_push(ws: Seq<ArrayWrite>, w: ArrayWrite, now: nat)
    ensures
        w.stamp > now ==> keep_pending(ws.push(w), now) == keep_pending(ws, now).push(w),
        w.stamp <= now ==> keep_pending(ws.push(w), now) == keep_pending(ws, now),
    decreases ws.len(),
{
    if ws.len() == 0 {
        assert(ws.push(w)[0] == w);
        assert(ws.push(w).drop_first() =~= Seq::<ArrayWrite>::empty());
        if w.stamp > now {
            assert(seq![w] + keep_pending(Seq::<ArrayWrite>::empty(), now) =~= keep_pending(
                ws,
                now,
            ).push(w));
        }
    } else {
        assert(ws.push(w)[0] == ws[0]);
        assert(ws.push(w).drop_first() =~= ws.drop_first().push(w));
        lemma_keep_pending_push(ws.drop_first(), w, now);
        if ws[0].stamp > now {
            if w.stamp > now {
                assert(seq![ws[0]] + keep_pending(ws.drop_first(), now).push(w) =~= (seq![ws[0]]
                    + keep_pending(ws.drop_first(), now)).push(w));
            }
        }
    }
}

/// The writes kept staged are among the original ones, so they target the
/// same cells.
pub proof fn lemma_keep_pending_targets(ws: Seq<ArrayWrite>, now: nat, len: int)
    requires
        forall|j: int| 0 <= j < ws.len() ==> (#[trigger] ws[j]).idx < len,
    ensures
        forall|j: int|
            0 <= j < keep_pending(ws, now).len() ==> (#[trigger] keep_pending(ws, now)[j]).idx
                < len,
    decreases ws.len(),
{
    if ws.len() == 0 {
    } else {
        assert(forall|j: int|
            0 <= j < ws.drop_first().len() ==> #[trigger] ws.drop_first()[j] == ws[j + 1]);
        lemma_keep_pending_targets(ws.drop_first(), now, len);
        let kp = keep_pending(ws, now);
        let kpd = keep_pending(ws.drop_first(), now);
        if ws[0].stamp > now {
            assert(kp == seq![ws[0]] + kpd);
            assert forall|j: int| 0 <= j < kp.len() implies (#[trigger] kp[j]).idx < len by {
                if j == 0 {
                    assert(kp[0] == ws[0]);
                } else {
                    assert(kp[j] == kpd[j - 1]);
                }
            }
        } else {
            assert(kp == kpd);
        }
    }
}

/// Once every staged write has been examined, the per-write commit scan
/// agrees with the winning-write characterisation of a cell's value.
proof fn lemma_partial_commit_upto(p: Seq<u32>, ws: Seq<ArrayWrite>, now: nat, bound: int, c: int)
    requires
        0 <= bound <= ws.len(),
        forall|j: int| bound <= j < ws.len() ==> !(write_wins(ws, now, j) && ws[j].idx == c),
    ensures
        partial_commit(p, ws, now, bound, c) == committed_cell(p, ws, now, c),
    decreases bound,
{
    if bound == 0 {
        if some_write_wins(ws, now, c) {
            let jc = choose|t: int| write_wins(ws, now, t) && ws[t].idx == c;
            assert(!(write_wins(ws, now, jc) && ws[jc].idx == c));
        }
    } else {
        if write_wins(ws, now, bound - 1) && ws[bound - 1].idx == c {
            assert(some_write_wins(ws, now, c));
            let jc = choose|t: int| write_wins(ws, now, t) && ws[t].idx == c;
            lemma_winner_unique(ws, now, jc, bound - 1);
        } else {
            lemma_partial_commit_upto(p, ws, now, bound - 1, c);
        }
    }
}

/// Law: a write staged for time `w.stamp` is invisible to reads of its cell
/// before simulated time reaches `w.stamp` (and it stays staged), and visible
/// at or after it, provided no other staged write targets the same cell.
pub proof fn lemma_staged_write_visibility(
    p: Seq<u32>,
    ws: Seq<ArrayWrite>,
    w: ArrayWrite,
    now: nat,
)
    requires
        w.idx < p.len(),
        forall|j: int|
            0 <= j < ws.len() ==> (#[trigger] ws[j]).idx < p.len() && ws[j].idx != w.idx,
    ensures
        now < w.stamp ==> apply_writes(p, ws.push(w), now)[w.idx as int] == p[w.idx as int],
        now < w.stamp ==> keep_pending(ws.push(w), now) == keep_pending(ws, now).push(w),
        w.stamp <= now ==> apply_writes(p, ws.push(w), now)[w.idx as int] == w.value,
{
    lemma_keep_pending_push(ws, w, now);
    let wsp = ws.push(w);
    assert(forall|k: int| 0 <= k < ws.len() ==> wsp[k] == ws[k]);
    assert(wsp[ws.len() as int] == w);
    if now < w.stamp {
        assert forall|k: int|
            0 <= k < wsp.len() implies !((#[trigger] wsp[k]).idx == w.idx as int && wsp[k].stamp
            <= now) by {
            if k < ws.len() {
                assert(wsp[k].idx != w.idx);
            }
        }
        lemma_untouched_cell(p, wsp, now, w.idx as int);
    } else {
        assert(write_wins(wsp, now, ws.len() as int));
        lemma_greatest_stamp_wins(p, wsp, now, ws.len() as int);
    }
}

} // verus!
