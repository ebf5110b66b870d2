use vstd::prelude::*;

use crate::edit_log::{shifted_down, shifted_up, CellWrite, EditLog, EditMap, MAX_FRAME};
use crate::simulation::{
    advance, apply_frame_edit, copy_memory, lemma_state_depends_on_prefix, state_at, StepFunction,
};
use std::time::{Duration, Instant};

verus! {

#[verifier::external_type_specification]
#[verifier::external_body]
pub struct ExInstant(std::time::Instant);

/// Relies on std::time::Instant::now: a reading of the monotonic clock.
#[verifier::external_body]
fn clock_start() -> (r: Instant) {
    Instant::now()
}

/// Relies on std::time::Instant::elapsed: the time since `start` was read.
#[verifier::external_body]
fn clock_elapsed(start: &Instant) -> (r: Duration) {
    start.elapsed()
}

/// Relies on std::time::Duration::as_nanos: a duration in whole nanoseconds.
#[verifier::external_body]
fn duration_nanos(d: &Duration) -> (r: u128) {
    d.as_nanos()
}

/// The spacing unit of the slots that the balancer places behind a hotspot.
pub const SLOT_SPACING: u32 = 16;

/// The distance behind its hotspot of the slot at `level`: it grows with the
/// level, so slots lie close together near a hotspot and sparser away from it.
pub open spec fn level_distance(level: int) -> int {
    level * level * SLOT_SPACING as int
}

/// The frame that the balancer wants a slot at: `level` steps of spacing
/// behind `hotspot`, but not before frame 0.
pub open spec fn target_frame(hotspot: int, level: int) -> int {
    if level_distance(level) <= hotspot {
        hotspot - level_distance(level)
    } else {
        0
    }
}

/// A cached memory block and the frame it holds, if it holds one.
pub struct Slot {
    frame: Option<u32>,
    mem: Vec<i64>,
}

/// A random-access view of a step-by-step simulation: a power-on memory
/// block (the base slot), an edit log, and a pool of cached frames.
pub struct Timeline<S: StepFunction> {
    sim: S,
    base: Vec<i64>,
    slots: Vec<Slot>,
    log: EditLog,
    hotspots: Vec<(String, u32)>,
}

/// The position of the first hotspot called `name`, if any.
pub open spec fn hotspot_index(hs: Seq<(String, u32)>, name: Seq<char>) -> Option<int> {
    if exists|i: int| 0 <= i < hs.len() && (#[trigger] hs[i]).0@ == name {
        Some(choose|i: int| 0 <= i < hs.len() && (#[trigger] hs[i]).0@ == name && forall|k: int|
            0 <= k < i ==> (#[trigger] hs[k]).0@ != name)
    } else {
        None
    }
}

proof fn lemma_hotspot_index_first(hs: Seq<(String, u32)>, name: Seq<char>, i: int)
    requires
        0 <= i < hs.len(),
        hs[i].0@ == name,
        forall|k: int| 0 <= k < i ==> (#[trigger] hs[k]).0@ != name,
    ensures
        hotspot_index(hs, name) == Some(i),
{
    let c = choose|c: int| 0 <= c < hs.len() && (#[trigger] hs[c]).0@ == name && forall|k: int|
        0 <= k < c ==> (#[trigger] hs[k]).0@ != name;
    if c < i {
        assert(hs[c].0@ != name);
    }
    if c > i {
        assert(hs[i].0@ != name);
    }
}

proof fn lemma_hotspot_index_none(hs: Seq<(String, u32)>, name: Seq<char>)
    requires
        forall|k: int| 0 <= k < hs.len() ==> (#[trigger] hs[k]).0@ != name,
    ensures
        hotspot_index(hs, name) is None,
{
}

impl<S: StepFunction> Timeline<S> {
    pub closed spec fn step_function(&self) -> S {
        self.sim
    }

    pub closed spec fn power_on(&self) -> Seq<i64> {
        self.base@
    }

    pub closed spec fn edits(&self) -> EditMap {
        self.log@
    }

    /// The hotspots by name, in the order they were first set.
    pub closed spec fn hotspot_list(&self) -> Seq<(String, u32)> {
        self.hotspots@
    }

    /// The number of slots besides the base slot.
    pub closed spec fn slot_count(&self) -> nat {
        self.slots@.len()
    }

    /// What frame `f` holds, whatever the slots hold.
    pub open spec fn frame_state(&self, f: nat) -> Seq<i64> {
        state_at(&self.step_function(), self.power_on(), self.edits(), f)
    }

    pub closed spec fn wf(&self) -> bool {
        &&& self.log.wf()
        &&& forall|k: int| #[trigger] self.log@.contains_key(k) ==> self.log@[k].len() > 0
        &&& forall|i: int, j: int|
            0 <= i < j < self.hotspots@.len() ==> (#[trigger] self.hotspots@[i]).0@ != (
            #[trigger] self.hotspots@[j]).0@
        &&& forall|i: int|
            0 <= i < self.slots@.len() && (#[trigger] self.slots@[i]).frame is Some
                ==> self.slots@[i].mem@ == state_at(
                &self.sim,
                self.base@,
                self.log@,
                self.slots@[i].frame->0 as nat,
            )
    }

    /// A timeline whose frame 0 starts from `power_on`, with `backup_slots`
    /// empty slots besides the base slot and no edits.
    pub fn new(sim: S, power_on: Vec<i64>, backup_slots: usize) -> (r: Self)
        ensures
            r.wf(),
            r.step_function() == sim,
            r.power_on() == power_on@,
            r.edits() == Map::<int, Seq<CellWrite>>::empty(),
            r.slot_count() == backup_slots,
            r.hotspot_list().len() == 0,
    {
        let mut slots: Vec<Slot> = Vec::new();
        let mut i: usize = 0;
        while i < backup_slots
            invariant
                i <= backup_slots,
                slots@.len() == i,
                forall|j: int| 0 <= j < i ==> (#[trigger] slots@[j]).frame is None,
            decreases backup_slots - i,
        {
            slots.push(Slot { frame: None, mem: Vec::new() });
            i = i + 1;
        }
        Timeline { sim, base: power_on, slots, log: EditLog::new(), hotspots: Vec::new() }
    }

    /// The base slot: the power-on memory, read without copying.
    pub fn base_slot(&self) -> (r: &Vec<i64>)
        ensures
            r@ == self.power_on(),
    {
        &self.base
    }

    /// The slot holding the latest frame not after `frame`, if any.
    fn nearest_slot(&self, frame: u32) -> (r: Option<usize>)
        requires
            self.wf(),
        ensures
            match r {
                Some(i) => i < self.slots@.len() && self.slots@[i as int].frame is Some
                    && self.slots@[i as int].frame->0 <= frame && forall|j: int|
                    0 <= j < self.slots@.len() && (#[trigger] self.slots@[j]).frame is Some
                        && self.slots@[j].frame->0 <= frame ==> self.slots@[j].frame->0
                        <= self.slots@[i as int].frame->0,
                None => forall|j: int|
                    0 <= j < self.slots@.len() && (#[trigger] self.slots@[j]).frame is Some
                        ==> self.slots@[j].frame->0 > frame,
            },
    {
        let mut best: Option<usize> = None;
        let mut i: usize = 0;
        while i < self.slots.len()
            invariant
                i <= self.slots@.len(),
                match best {
                    Some(b) => b < i && self.slots@[b as int].frame is Some
                        && self.slots@[b as int].frame->0 <= frame && forall|j: int|
                        0 <= j < i && (#[trigger] self.slots@[j]).frame is Some
                            && self.slots@[j].frame->0 <= frame ==> self.slots@[j].frame->0
                            <= self.slots@[b as int].frame->0,
                    None => forall|j: int|
                        0 <= j < i && (#[trigger] self.slots@[j]).frame is Some
                            ==> self.slots@[j].frame->0 > frame,
                },
            decreases self.slots@.len() - i,
        {
            match self.slots[i].frame {
                Some(f) => {
                    if f <= frame {
                        match best {
                            Some(b) => {
                                let bf = self.slots[b].frame.unwrap();
                                if f > bf {
                                    best = Some(i);
                                }
                            },
                            None => {
                                best = Some(i);
                            },
                        }
                    }
                },
                None => {},
            }
            i = i + 1;
        }
        best
    }

    /// The memory of `frame`, computed from the nearest cached frame before it.
    pub fn frame(&self, frame: u32) -> (r: Vec<i64>)
        requires
            self.wf(),
        ensures
            r@ == self.frame_state(frame as nat),
    {
        match self.nearest_slot(frame) {
            Some(i) => {
                let from = self.slots[i].frame.unwrap();
                let mut mem = copy_memory(&self.slots[i].mem);
                advance(&self.sim, &mut mem, from, frame, &self.log, Ghost(self.base@));
                mem
            },
            None => {
                let mut mem = copy_memory(&self.base);
                apply_frame_edit(&mut mem, &self.log, 0);
                advance(&self.sim, &mut mem, 0, frame, &self.log, Ghost(self.base@));
                mem
            },
        }
    }

    /// The number of steps that `frame` takes to compute from the nearest
    /// cached frame before it.
    pub fn resimulation_cost(&self, frame: u32) -> (r: u32)
        requires
            self.wf(),
        ensures
            r <= frame,
            forall|j: int|
                0 <= j < self.slot_count() && #[trigger] self.cached_frame(j) is Some
                    && self.cached_frame(j)->0 <= frame ==> r <= frame - self.cached_frame(j)->0,
            r < frame ==> exists|j: int|
                0 <= j < self.slot_count() && #[trigger] self.cached_frame(j) == Some(
                    (frame - r) as u32,
                ),
    {
        match self.nearest_slot(frame) {
            Some(i) => {
                let from = self.slots[i].frame.unwrap();
                assert(self.cached_frame(i as int) == Some((frame - (frame - from)) as u32));
                frame - from
            },
            None => frame,
        }
    }

    /// The frame that slot `j` holds, if any.
    pub closed spec fn cached_frame(&self, j: int) -> Option<u32> {
        self.slots@[j].frame
    }

    /// Empties every slot that holds frame `frame` or a later one.
    fn invalidate_from(&mut self, frame: u32)
        requires
            old(self).log.wf(),
            forall|k: int| #[trigger] old(self).log@.contains_key(k) ==> old(self).log@[k].len() > 0,
            forall|i: int, j: int|
                0 <= i < j < old(self).hotspots@.len() ==> (#[trigger] old(self).hotspots@[i]).0@
                    != (#[trigger] old(self).hotspots@[j]).0@,
            forall|i: int|
                0 <= i < old(self).slots@.len() && (#[trigger] old(self).slots@[i]).frame is Some
                    && old(self).slots@[i].frame->0 < frame ==> old(self).slots@[i].mem@
                    == state_at(
                    &old(self).sim,
                    old(self).base@,
                    old(self).log@,
                    old(self).slots@[i].frame->0 as nat,
                ),
        ensures
            final(self).wf(),
            final(self).sim == old(self).sim,
            final(self).base == old(self).base,
            final(self).log == old(self).log,
            final(self).hotspots == old(self).hotspots,
            final(self).slots@.len() == old(self).slots@.len(),
    {
        let mut i: usize = 0;
        while i < self.slots.len()
            invariant
                i <= self.slots@.len(),
                self.slots@.len() == old(self).slots@.len(),
                self.sim == old(self).sim,
                self.base == old(self).base,
                self.log == old(self).log,
                self.hotspots == old(self).hotspots,
                self.log.wf(),
                forall|j: int|
                    0 <= j < i && (#[trigger] self.slots@[j]).frame is Some ==> self.slots@[j].mem@
                        == state_at(&self.sim, self.base@, self.log@, self.slots@[j].frame->0 as nat),
                forall|j: int| i <= j < self.slots@.len() ==> self.slots@[j] == old(self).slots@[j],
                forall|j: int|
                    0 <= j < old(self).slots@.len() && (#[trigger] old(self).slots@[j]).frame is Some
                        && old(self).slots@[j].frame->0 < frame ==> old(self).slots@[j].mem@
                        == state_at(
                        &old(self).sim,
                        old(self).base@,
                        old(self).log@,
                        old(self).slots@[j].frame->0 as nat,
                    ),
            decreases self.slots@.len() - i,
        {
            let stale = match self.slots[i].frame {
                Some(f) => f >= frame,
                None => false,
            };
            let ghost s = old(self).slots@[i as int];
            assert(self.slots@[i as int] == s);
            if stale {
                self.slots.set(i, Slot { frame: None, mem: Vec::new() });
            } else {
                proof {
                    if s.frame is Some {
                        assert(s.frame->0 < frame);
                        assert(s.mem@ == state_at(&self.sim, self.base@, self.log@, s.frame->0 as nat));
                    }
                }
            }
            i = i + 1;
        }
    }

    /// The edit at `frame`, if any.
    pub fn edit(&self, frame: u32) -> (r: Option<&Vec<CellWrite>>)
        requires
            self.wf(),
        ensures
            match r {
                Some(e) => self.edits().contains_key(frame as int) && self.edits()[frame as int]
                    == e@,
                None => !self.edits().contains_key(frame as int),
            },
    {
        self.log.get(frame)
    }

    /// Stores `edit` as the edit of `frame`, replacing any edit there; an
    /// empty edit removes the frame's edit, so the log holds no empty edits.
    pub fn set_edit(&mut self, frame: u32, edit: Vec<CellWrite>)
        requires
            old(self).wf(),
        ensures
            final(self).wf(),
            final(self).edits() == if edit@.len() == 0 {
                old(self).edits().remove(frame as int)
            } else {
                old(self).edits().insert(frame as int, edit@)
            },
            final(self).step_function() == old(self).step_function(),
            final(self).power_on() == old(self).power_on(),
            final(self).hotspot_list() == old(self).hotspot_list(),
            final(self).slot_count() == old(self).slot_count(),
    {
        if edit.len() == 0 {
            self.remove_edit(frame);
            return;
        }
        let ghost before = self.log@;
        self.log.set(frame, edit);
        proof { self.lemma_prefix_slots_kept(before, frame as int) }
        self.invalidate_from(frame);
    }

    /// Removes the edit of `frame`, if any.
    pub fn remove_edit(&mut self, frame: u32)
        requires
            old(self).wf(),
        ensures
            final(self).wf(),
            final(self).edits() == old(self).edits().remove(frame as int),
            final(self).step_function() == old(self).step_function(),
            final(self).power_on() == old(self).power_on(),
            final(self).hotspot_list() == old(self).hotspot_list(),
            final(self).slot_count() == old(self).slot_count(),
    {
        let ghost before = self.log@;
        self.log.remove(frame);
        proof { self.lemma_prefix_slots_kept(before, frame as int) }
        self.invalidate_from(frame);
    }

    /// Opens an empty frame at `frame`, moving every later edit one frame on.
    pub fn insert_frame(&mut self, frame: u32)
        requires
            old(self).wf(),
        ensures
            final(self).wf(),
            final(self).edits() == shifted_up(old(self).edits(), frame as int),
            final(self).step_function() == old(self).step_function(),
            final(self).power_on() == old(self).power_on(),
            final(self).hotspot_list() == old(self).hotspot_list(),
            final(self).slot_count() == old(self).slot_count(),
    {
        let ghost before = self.log@;
        let lowest = self.log.insert_frame(frame);
        proof { self.lemma_prefix_slots_kept(before, lowest as int) }
        self.invalidate_from(lowest);
    }

    /// Removes frame `frame` and its edit, moving every later edit one frame back.
    pub fn delete_frame(&mut self, frame: u32)
        requires
            old(self).wf(),
        ensures
            final(self).wf(),
            final(self).edits() == shifted_down(old(self).edits(), frame as int),
            final(self).step_function() == old(self).step_function(),
            final(self).power_on() == old(self).power_on(),
            final(self).hotspot_list() == old(self).hotspot_list(),
            final(self).slot_count() == old(self).slot_count(),
    {
        let ghost before = self.log@;
        let lowest = self.log.delete_frame(frame);
        proof { self.lemma_prefix_slots_kept(before, lowest as int) }
        self.invalidate_from(lowest);
    }

    /// The frame that the balancer wants slot `j` to hold: none without
    /// hotspots; else the hotspots take the slots in turn, each slot one
    /// level further behind its hotspot than the previous slot of that hotspot.
    pub closed spec fn wanted_frame(&self, j: int) -> Option<u32> {
        let n = self.hotspots@.len();
        if n == 0 {
            None
        } else {
            Some(target_frame(self.hotspots@[j % n as int].1 as int, j / n as int) as u32)
        }
    }

    /// Sets the hotspot called `name` to `frame`, replacing its earlier frame.
    pub fn set_hotspot(&mut self, name: &str, frame: u32)
        requires
            old(self).wf(),
        ensures
            final(self).wf(),
            final(self).edits() == old(self).edits(),
            final(self).step_function() == old(self).step_function(),
            final(self).power_on() == old(self).power_on(),
            final(self).slot_count() == old(self).slot_count(),
            forall|j: int| 0 <= j < final(self).slot_count() ==> #[trigger] final(self).cached_frame(j)
                == old(self).cached_frame(j),
            match hotspot_index(old(self).hotspot_list(), name@) {
                Some(i) => final(self).hotspot_list() == old(self).hotspot_list().update(
                    i,
                    (old(self).hotspot_list()[i].0, frame),
                ),
                None => final(self).hotspot_list().len() == old(self).hotspot_list().len() + 1
                    && final(self).hotspot_list().drop_last() == old(self).hotspot_list()
                    && final(self).hotspot_list().last().0@ == name@
                    && final(self).hotspot_list().last().1 == frame,
            },
    {
        let key = name.to_owned();
        let mut i: usize = 0;
        while i < self.hotspots.len()
            invariant
                *self == *old(self),
                self.wf(),
                key@ == name@,
                i <= self.hotspots@.len(),
                forall|k: int| 0 <= k < i ==> (#[trigger] self.hotspots@[k]).0@ != name@,
            decreases self.hotspots@.len() - i,
        {
            if self.hotspots[i].0 == key {
                let kept = self.hotspots[i].0.clone();
                self.hotspots.set(i, (kept, frame));
                proof {
                    lemma_hotspot_index_first(old(self).hotspots@, name@, i as int);
                }
                return;
            }
            i = i + 1;
        }
        self.hotspots.push((key, frame));
        proof {
            lemma_hotspot_index_none(old(self).hotspots@, name@);
            assert(self.hotspots@.drop_last() =~= old(self).hotspots@);
        }
    }

    /// Computes `wanted_frame(j)`.
    fn slot_target(&self, j: usize) -> (r: Option<u32>)
        ensures
            r == self.wanted_frame(j as int),
    {
        let n = self.hotspots.len();
        if n == 0 {
            return None;
        }
        let h = self.hotspots[j % n].1;
        let level = j / n;
        if level >= 65536 {
            proof {
                let l = level as int;
                assert(l * l >= 65536 * 65536) by (nonlinear_arith)
                    requires
                        l >= 65536,
                ;
            }
            return Some(0);
        }
        let l = level as u64;
        assert(l * l <= 65535 * 65535) by (nonlinear_arith)
            requires
                l <= 65535,
        ;
        let d: u64 = l * l * (SLOT_SPACING as u64);
        if d <= h as u64 {
            Some(h - d as u32)
        } else {
            Some(0)
        }
    }

    /// Moves the first slot that does not hold its wanted frame there.
    /// Returns false, changing nothing, when every slot holds it already.
    fn fill_next_gap(&mut self) -> (moved: bool)
        requires
            old(self).wf(),
        ensures
            final(self).wf(),
            final(self).edits() == old(self).edits(),
            final(self).step_function() == old(self).step_function(),
            final(self).power_on() == old(self).power_on(),
            final(self).hotspot_list() == old(self).hotspot_list(),
            final(self).slot_count() == old(self).slot_count(),
            !moved ==> forall|j: int|
                0 <= j < old(self).slot_count() ==> #[trigger] old(self).wanted_frame(j) is None
                    || old(self).cached_frame(j) == old(self).wanted_frame(j),
            !moved ==> forall|j: int|
                0 <= j < final(self).slot_count() ==> #[trigger] final(self).cached_frame(j)
                    == old(self).cached_frame(j),
            moved ==> exists|j: int|
                0 <= j < old(self).slot_count() && old(self).wanted_frame(j) is Some
                    && #[trigger] old(self).cached_frame(j) != old(self).wanted_frame(j)
                    && final(self).cached_frame(j) == old(self).wanted_frame(j) && (forall|k: int|
                    0 <= k < j ==> #[trigger] old(self).wanted_frame(k) is None
                        || old(self).cached_frame(k) == old(self).wanted_frame(k)) && (forall|k: int|
                    0 <= k < old(self).slot_count() && k != j ==> #[trigger] final(self).cached_frame(k)
                        == old(self).cached_frame(k)),
    {
        let mut j: usize = 0;
        while j < self.slots.len()
            invariant
                self.wf(),
                *self == *old(self),
                j <= self.slots@.len(),
                forall|k: int|
                    0 <= k < j ==> #[trigger] self.wanted_frame(k) is None || self.cached_frame(k)
                        == self.wanted_frame(k),
            decreases self.slots@.len() - j,
        {
            match self.slot_target(j) {
                Some(target) => {
                    let holds = match self.slots[j].frame {
                        Some(f) => f == target,
                        None => false,
                    };
                    if !holds {
                        let mem = self.frame(target);
                        self.slots.set(j, Slot { frame: Some(target), mem });
                        assert(final(self).cached_frame(j as int) == Some(target));
                        return true;
                    }
                },
                None => {},
            }
            j = j + 1;
        }
        false
    }

    /// One balancing step, given the time `spent` so far and the `budget`
    /// (both in nanoseconds). Once the budget is spent it changes nothing;
    /// before that it moves the first slot that does not hold its wanted
    /// frame there, and returns false, changing nothing, when there is none.
    pub fn balance_step(&mut self, spent: u128, budget: u128) -> (moved: bool)
        requires
            old(self).wf(),
        ensures
            final(self).wf(),
            final(self).edits() == old(self).edits(),
            final(self).step_function() == old(self).step_function(),
            final(self).power_on() == old(self).power_on(),
            final(self).hotspot_list() == old(self).hotspot_list(),
            final(self).slot_count() == old(self).slot_count(),
            spent >= budget ==> !moved,
            !moved ==> forall|j: int|
                0 <= j < final(self).slot_count() ==> #[trigger] final(self).cached_frame(j)
                    == old(self).cached_frame(j),
            spent < budget && !moved ==> forall|j: int|
                0 <= j < old(self).slot_count() ==> #[trigger] old(self).wanted_frame(j) is None
                    || old(self).cached_frame(j) == old(self).wanted_frame(j),
            moved ==> exists|j: int|
                0 <= j < old(self).slot_count() && old(self).wanted_frame(j) is Some
                    && #[trigger] old(self).cached_frame(j) != old(self).wanted_frame(j)
                    && final(self).cached_frame(j) == old(self).wanted_frame(j) && (forall|k: int|
                    0 <= k < j ==> #[trigger] old(self).wanted_frame(k) is None
                        || old(self).cached_frame(k) == old(self).wanted_frame(k)) && (forall|k: int|
                    0 <= k < old(self).slot_count() && k != j ==> #[trigger] final(self).cached_frame(k)
                        == old(self).cached_frame(k)),
            moved ==> forall|k: int|
                0 <= k < old(self).slot_count() ==> #[trigger] final(self).cached_frame(k)
                    == old(self).cached_frame(k) || final(self).cached_frame(k)
                    == old(self).wanted_frame(k),
    {
        if spent >= budget {
            return false;
        }
        self.fill_next_gap()
    }

    /// Housekeeping: moves slots towards the frames the hotspots want, one
    /// slot at a time, until every slot is in place or `max_run_time_nanos`
    /// nanoseconds have passed; no slot is moved once they have, so a zero
    /// budget moves none. Each slot ends where it was or at its wanted
    /// frame, and what any frame holds is the same afterwards.
    pub fn balance_distribution(&mut self, max_run_time_nanos: u128)
        requires
            old(self).wf(),
        ensures
            final(self).wf(),
            final(self).edits() == old(self).edits(),
            final(self).step_function() == old(self).step_function(),
            final(self).power_on() == old(self).power_on(),
            final(self).hotspot_list() == old(self).hotspot_list(),
            final(self).slot_count() == old(self).slot_count(),
            forall|f: nat| #[trigger] final(self).frame_state(f) == old(self).frame_state(f),
            forall|j: int|
                0 <= j < old(self).slot_count() ==> #[trigger] final(self).cached_frame(j)
                    == old(self).cached_frame(j) || final(self).cached_frame(j)
                    == old(self).wanted_frame(j),
            max_run_time_nanos == 0 ==> forall|j: int|
                0 <= j < old(self).slot_count() ==> #[trigger] final(self).cached_frame(j)
                    == old(self).cached_frame(j),
            forall|j: int, k: int|
                0 <= k < j < old(self).slot_count() && #[trigger] final(self).cached_frame(j)
                    != old(self).cached_frame(j) ==> #[trigger] old(self).wanted_frame(k) is None
                    || final(self).cached_frame(k) == old(self).wanted_frame(k),
    {
        let start = clock_start();
        let mut n: usize = 0;
        while n < self.slots.len()
            invariant
                self.wf(),
                self.edits() == old(self).edits(),
                self.step_function() == old(self).step_function(),
                self.power_on() == old(self).power_on(),
                self.hotspot_list() == old(self).hotspot_list(),
                self.slot_count() == old(self).slot_count(),
                forall|j: int|
                    0 <= j < old(self).slot_count() ==> #[trigger] self.cached_frame(j)
                        == old(self).cached_frame(j) || self.cached_frame(j) == old(self).wanted_frame(j),
                max_run_time_nanos == 0 ==> forall|j: int|
                    0 <= j < old(self).slot_count() ==> #[trigger] self.cached_frame(j)
                        == old(self).cached_frame(j),
                forall|j: int, k: int|
                    0 <= k < j < old(self).slot_count() && #[trigger] self.cached_frame(j)
                        != old(self).cached_frame(j) ==> #[trigger] old(self).wanted_frame(k) is None
                        || self.cached_frame(k) == old(self).wanted_frame(k),
            decreases self.slots@.len() - n,
        {
            let spent = duration_nanos(&clock_elapsed(&start));
            let ghost before = *self;
            proof {
                assert forall|j: int| 0 <= j < before.slot_count() implies #[trigger] before.wanted_frame(j)
                    == old(self).wanted_frame(j) by {}
            }
            if !self.balance_step(spent, max_run_time_nanos) {
                break;
            }
            proof {
                assert forall|j: int| 0 <= j < old(self).slot_count() implies #[trigger] self.cached_frame(j)
                    == old(self).cached_frame(j) || self.cached_frame(j) == old(self).wanted_frame(j) by {
                    assert(self.cached_frame(j) == before.cached_frame(j) || self.cached_frame(j)
                        == before.wanted_frame(j));
                }
                let j0 = choose|j: int|
                    0 <= j < before.slot_count() && before.wanted_frame(j) is Some
                        && #[trigger] before.cached_frame(j) != before.wanted_frame(j)
                        && self.cached_frame(j) == before.wanted_frame(j) && (forall|k: int|
                        0 <= k < j ==> #[trigger] before.wanted_frame(k) is None
                            || before.cached_frame(k) == before.wanted_frame(k)) && (forall|k: int|
                        0 <= k < before.slot_count() && k != j ==> #[trigger] self.cached_frame(k)
                            == before.cached_frame(k));
                assert forall|j: int, k: int|
                    0 <= k < j < old(self).slot_count() && #[trigger] self.cached_frame(j)
                        != old(self).cached_frame(j) implies #[trigger] old(self).wanted_frame(k) is None
                        || self.cached_frame(k) == old(self).wanted_frame(k) by {
                    assert(before.wanted_frame(k) == old(self).wanted_frame(k));
                    assert(before.wanted_frame(j0) == old(self).wanted_frame(j0));
                    if j == j0 {
                        assert(self.cached_frame(k) == before.cached_frame(k));
                    } else {
                        assert(before.cached_frame(j) != old(self).cached_frame(j));
                        if j > j0 {
                            assert(old(self).wanted_frame(j0) is None || before.cached_frame(j0)
                                == old(self).wanted_frame(j0));
                        }
                        if k != j0 {
                            assert(self.cached_frame(k) == before.cached_frame(k));
                        }
                    }
                }
            }
            n = n + 1;
        }
    }

    /// After the log changed only at frames from `lowest` on, every slot
    /// before `lowest` still holds its frame's memory.
    proof fn lemma_prefix_slots_kept(&self, before: EditMap, lowest: int)
        requires
            forall|i: int|
                0 <= i < self.slots@.len() && (#[trigger] self.slots@[i]).frame is Some
                    ==> self.slots@[i].mem@ == state_at(
                    &self.sim,
                    self.base@,
                    before,
                    self.slots@[i].frame->0 as nat,
                ),
            forall|k: int|
                #![trigger self.log@.contains_key(k)]
                #![trigger before.contains_key(k)]
                0 <= k < lowest ==> (self.log@.contains_key(k) == before.contains_key(k) && (
                self.log@.contains_key(k) ==> self.log@[k] == before[k])),
        ensures
            forall|i: int|
                0 <= i < self.slots@.len() && (#[trigger] self.slots@[i]).frame is Some
                    && self.slots@[i].frame->0 < lowest ==> self.slots@[i].mem@ == state_at(
                    &self.sim,
                    self.base@,
                    self.log@,
                    self.slots@[i].frame->0 as nat,
                ),
    {
        assert forall|i: int|
            0 <= i < self.slots@.len() && (#[trigger] self.slots@[i]).frame is Some
                && self.slots@[i].frame->0 < lowest implies self.slots@[i].mem@ == state_at(
            &self.sim,
            self.base@,
            self.log@,
            self.slots@[i].frame->0 as nat,
        ) by {
            lemma_state_depends_on_prefix(
                &self.sim,
                self.base@,
                before,
                self.log@,
                self.slots@[i].frame->0 as nat,
            );
        }
    }
}

/// Inserting a frame and then deleting the same frame gives back the log,
/// unless the log had an edit at `MAX_FRAME`, which the insertion drops.
pub proof fn lemma_insert_delete_inverse(m: EditMap, f: int)
    requires
        0 <= f,
        forall|k: int| #[trigger] m.contains_key(k) ==> 0 <= k < MAX_FRAME as int,
    ensures
        shifted_down(shifted_up(m, f), f) == m,
{
    assert(shifted_down(shifted_up(m, f), f) =~= m);
}

/// `insert_frame(f)` followed by `delete_frame(f)` restores the edit log and
/// what every frame holds, when no edit sat at `MAX_FRAME`.
pub proof fn law_insert_delete_restores<S: StepFunction>(
    before: &Timeline<S>,
    after: &Timeline<S>,
    f: u32,
)
    requires
        before.wf(),
        !before.edits().contains_key(MAX_FRAME as int),
        after.edits() == shifted_down(shifted_up(before.edits(), f as int), f as int),
        after.step_function() == before.step_function(),
        after.power_on() == before.power_on(),
    ensures
        after.edits() == before.edits(),
        forall|x: nat| #[trigger] after.frame_state(x) == before.frame_state(x),
{
    before.lemma_edit_frames_in_range();
    lemma_insert_delete_inverse(before.edits(), f as int);
}

/// After `insert_frame(big_f)`, every frame before `big_f` holds what it held,
/// frame `big_f` has no edit, and the edit that was at a frame `k >= big_f`
/// is at `k + 1` (an edit at `MAX_FRAME` has no later frame and is dropped).
pub proof fn law_insert_shifts_edits<S: StepFunction>(
    before: &Timeline<S>,
    after: &Timeline<S>,
    big_f: u32,
)
    requires
        before.wf(),
        after.edits() == shifted_up(before.edits(), big_f as int),
        after.step_function() == before.step_function(),
        after.power_on() == before.power_on(),
    ensures
        forall|x: nat| x < big_f ==> #[trigger] after.frame_state(x) == before.frame_state(x),
        !after.edits().contains_key(big_f as int),
        forall|k: int|
            big_f <= k < MAX_FRAME && #[trigger] before.edits().contains_key(k) ==> after.edits().contains_key(
                k + 1,
            ) && after.edits()[k + 1] == before.edits()[k],
{
    assert forall|x: nat| x < big_f implies #[trigger] after.frame_state(x) == before.frame_state(
        x,
    ) by {
        let a = after.edits();
        let b = before.edits();
        assert forall|k: int| 0 <= k <= x implies (a.contains_key(k) == b.contains_key(k) && (
        a.contains_key(k) ==> a[k] == b[k])) by {}
        lemma_state_depends_on_prefix(&before.step_function(), before.power_on(), a, b, x);
    }
}

impl<S: StepFunction> Timeline<S> {
    /// The frames of a timeline's edits lie between 0 and `MAX_FRAME`.
    pub proof fn lemma_edit_frames_in_range(&self)
        requires
            self.wf(),
        ensures
            forall|k: int| #[trigger] self.edits().contains_key(k) ==> 0 <= k <= MAX_FRAME as int,
    {
        self.log.lemma_keys_in_range();
    }

    /// A timeline's log holds no empty edit, and its hotspot names differ.
    pub proof fn lemma_edits_nonempty(&self)
        requires
            self.wf(),
        ensures
            forall|k: int| #[trigger] self.edits().contains_key(k) ==> self.edits()[k].len() > 0,
            forall|i: int, j: int|
                0 <= i < j < self.hotspot_list().len() ==> (#[trigger] self.hotspot_list()[i]).0@
                    != (#[trigger] self.hotspot_list()[j]).0@,
    {
    }
}

} // verus!
