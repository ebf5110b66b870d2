use vstd::prelude::*;

use crate::edit_log::{CellWrite, EditLog, EditMap};

verus! {

/// The simulated program's step function: from the memory of one frame it
/// computes the memory of the next, and gives equal results on equal inputs.
pub trait StepFunction {
    /// What one step makes of a memory block. The contract of `step`, and
    /// every proof about frames, holds of an implementation only when `next`
    /// is that implementation's real step. An implementation checked by
    /// Verus overrides `next` and proves `step` against it. The default body
    /// is a placeholder that verified code never relies on (for a generic
    /// implementation Verus treats `next` as unknown); it lets an
    /// implementation written outside Verus, which cannot name the type of
    /// `next`, supply `step` alone, and for such an implementation the
    /// contract is an assumption that nothing checks.
    closed spec fn next(&self, mem: Seq<i64>) -> Seq<i64> {
        arbitrary()
    }

    /// Advances `mem` by exactly one frame.
    fn step(&self, mem: &mut Vec<i64>)
        ensures
            final(mem)@ == self.next(old(mem)@),
    ;
}

/// A memory block after the stores of `ws`, made in order; a store to a cell
/// past the end of the block changes nothing.
pub open spec fn apply_writes(m: Seq<i64>, ws: Seq<CellWrite>) -> Seq<i64>
    decreases ws.len(),
{
    if ws.len() == 0 {
        m
    } else {
        let w = ws.last();
        let before = apply_writes(m, ws.drop_last());
        if w.cell < before.len() {
            before.update(w.cell as int, w.value)
        } else {
            before
        }
    }
}

/// A memory block after the edit that `log` holds at frame `f`, if any.
pub open spec fn apply_edit(m: Seq<i64>, log: EditMap, f: int) -> Seq<i64> {
    if log.contains_key(f) {
        apply_writes(m, log[f])
    } else {
        m
    }
}

/// The memory at frame `f`: the power-on memory `base` with the edit of frame
/// 0 applied, then for each later frame one step followed by that frame's edit.
pub open spec fn state_at<S: StepFunction>(sim: &S, base: Seq<i64>, log: EditMap, f: nat) -> Seq<
    i64,
>
    decreases f,
{
    if f == 0 {
        apply_edit(base, log, 0)
    } else {
        apply_edit(sim.next(state_at(sim, base, log, (f - 1) as nat)), log, f as int)
    }
}

/// Two logs that agree on every frame up to `f` give the same memory at `f`.
pub proof fn lemma_state_depends_on_prefix<S: StepFunction>(
    sim: &S,
    base: Seq<i64>,
    a: EditMap,
    b: EditMap,
    f: nat,
)
    requires
        forall|k: int|
            #![trigger a.contains_key(k)]
            #![trigger b.contains_key(k)]
            0 <= k <= f ==> (a.contains_key(k) == b.contains_key(k) && (a.contains_key(k) ==> a[k]
                == b[k])),
    ensures
        state_at(sim, base, a, f) == state_at(sim, base, b, f),
    decreases f,
{
    assert(a.contains_key(f as int) == b.contains_key(f as int));
    if f > 0 {
        lemma_state_depends_on_prefix(sim, base, a, b, (f - 1) as nat);
    }
}

/// Applies the stores of `ws` to `mem`, in order.
pub fn apply_cell_writes(mem: &mut Vec<i64>, ws: &Vec<CellWrite>)
    ensures
        final(mem)@ == apply_writes(old(mem)@, ws@),
{
    let mut i: usize = 0;
    while i < ws.len()
        invariant
            i <= ws@.len(),
            mem@ == apply_writes(old(mem)@, ws@.subrange(0, i as int)),
        decreases ws@.len() - i,
    {
        let w = ws[i];
        assert(ws@.subrange(0, i + 1).drop_last() =~= ws@.subrange(0, i as int));
        if w.cell < mem.len() {
            mem.set(w.cell, w.value);
        }
        i = i + 1;
    }
    assert(ws@.subrange(0, ws@.len() as int) =~= ws@);
}

/// Applies the edit that `log` holds at `frame`, if any.
pub fn apply_frame_edit(mem: &mut Vec<i64>, log: &EditLog, frame: u32)
    requires
        log.wf(),
    ensures
        final(mem)@ == apply_edit(old(mem)@, log@, frame as int),
{
    match log.get(frame) {
        Some(ws) => apply_cell_writes(mem, ws),
        None => {},
    }
}

/// Carries `mem` from frame `from` to frame `to`: for each frame in between,
/// after `from` and up to `to`, one step and then that frame's edit.
pub fn advance<S: StepFunction>(
    sim: &S,
    mem: &mut Vec<i64>,
    from: u32,
    to: u32,
    log: &EditLog,
    Ghost(base): Ghost<Seq<i64>>,
)
    requires
        log.wf(),
        from <= to,
        old(mem)@ == state_at(sim, base, log@, from as nat),
    ensures
        final(mem)@ == state_at(sim, base, log@, to as nat),
{
    let mut f: u32 = from;
    while f < to
        invariant
            log.wf(),
            from <= f <= to,
            mem@ == state_at(sim, base, log@, f as nat),
        decreases to - f,
    {
        sim.step(mem);
        f = f + 1;
        apply_frame_edit(mem, log, f);
    }
}

/// A copy of a memory block.
pub fn copy_memory(mem: &Vec<i64>) -> (r: Vec<i64>)
    ensures
        r@ == mem@,
{
    let mut r: Vec<i64> = Vec::with_capacity(mem.len());
    let mut i: usize = 0;
    while i < mem.len()
        invariant
            i <= mem@.len(),
            r@ == mem@.subrange(0, i as int),
        decreases mem@.len() - i,
    {
        r.push(mem[i]);
        i = i + 1;
    }
    assert(mem@.subrange(0, mem@.len() as int) =~= mem@);
    r
}

} // verus!
