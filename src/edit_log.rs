use vstd::prelude::*;

verus! {

/// One store into a memory cell, made when a frame's edit is applied.
#[derive(Clone, Copy, Debug, PartialEq, Eq, Structural)]
pub struct CellWrite {
    pub cell: usize,
    pub value: i64,
}

/// The log as a map: its keys are frames, at most one edit each.
pub type EditMap = Map<int, Seq<CellWrite>>;

/// The largest frame that a log or a timeline can speak of.
pub const MAX_FRAME: u32 = 0xffff_ffff;

/// The log after `insert_frame(f)`: keys below `f` stay, keys at or after `f`
/// move up by one, and `f` itself is vacated. A key that would move past
/// `MAX_FRAME` leaves the log.
pub open spec fn shifted_up(m: EditMap, f: int) -> EditMap {
    Map::new(
        |k: int|
            (k < f && m.contains_key(k)) || (f < k && k <= MAX_FRAME as int && m.contains_key(k - 1)),
        |k: int|
            if k < f {
                m[k]
            } else {
                m[k - 1]
            },
    )
}

/// The log after `delete_frame(f)`: the entry at `f` is gone, keys below `f`
/// stay and keys after `f` move down by one.
pub open spec fn shifted_down(m: EditMap, f: int) -> EditMap {
    Map::new(
        |k: int| (k < f && m.contains_key(k)) || (f <= k && m.contains_key(k + 1)),
        |k: int|
            if k < f {
                m[k]
            } else {
                m[k + 1]
            },
    )
}

/// Edits keyed by frame, kept in increasing frame order.
pub struct EditLog {
    frames: Vec<u32>,
    edits: Vec<Vec<CellWrite>>,
    map: Ghost<EditMap>,
}

impl EditLog {
    pub closed spec fn view(&self) -> EditMap {
        self.map@
    }

    pub closed spec fn wf(&self) -> bool {
        &&& self.frames@.len() == self.edits@.len()
        &&& forall|i: int, j: int|
            0 <= i < j < self.frames@.len() ==> self.frames@[i] < self.frames@[j]
        &&& forall|i: int|
            0 <= i < self.frames@.len() ==> self.map@.contains_key(#[trigger] self.frames@[i] as int)
                && self.map@[self.frames@[i] as int] == self.edits@[i]@
        &&& forall|k: int|
            #[trigger] self.map@.contains_key(k) ==> exists|i: int|
                0 <= i < self.frames@.len() && self.frames@[i] == k
    }

    pub proof fn lemma_keys_in_range(&self)
        requires
            self.wf(),
        ensures
            forall|k: int| #[trigger] self@.contains_key(k) ==> 0 <= k <= MAX_FRAME as int,
    {
        assert forall|k: int| #[trigger] self@.contains_key(k) implies 0 <= k <= MAX_FRAME as int by {
            let i = choose|i: int| 0 <= i < self.frames@.len() && self.frames@[i] == k;
        }
    }

    pub fn new() -> (r: Self)
        ensures
            r.wf(),
            r@ == Map::<int, Seq<CellWrite>>::empty(),
    {
        EditLog { frames: Vec::new(), edits: Vec::new(), map: Ghost(Map::empty()) }
    }

    /// The first position whose frame is at least `frame`.
    fn position(&self, frame: u32) -> (p: usize)
        requires
            forall|i: int, j: int|
                0 <= i < j < self.frames@.len() ==> self.frames@[i] < self.frames@[j],
        ensures
            p <= self.frames@.len(),
            forall|i: int| 0 <= i < p ==> self.frames@[i] < frame,
            forall|i: int| p <= i < self.frames@.len() ==> self.frames@[i] >= frame,
    {
        let mut p: usize = 0;
        while p < self.frames.len() && self.frames[p] < frame
            invariant
                p <= self.frames@.len(),
                forall|i: int| 0 <= i < p ==> self.frames@[i] < frame,
            decreases self.frames@.len() - p,
        {
            p = p + 1;
        }
        p
    }

    /// The edit stored at `frame`, if any.
    pub fn get(&self, frame: u32) -> (r: Option<&Vec<CellWrite>>)
        requires
            self.wf(),
        ensures
            match r {
                Some(e) => self@.contains_key(frame as int) && self@[frame as int] == e@,
                None => !self@.contains_key(frame as int),
            },
    {
        let p = self.position(frame);
        if p < self.frames.len() && self.frames[p] == frame {
            Some(&self.edits[p])
        } else {
            proof {
                if self@.contains_key(frame as int) {
                    let i = choose|i: int| 0 <= i < self.frames@.len() && self.frames@[i] == frame;
                    if i > p {
                        assert(self.frames@[p as int] < self.frames@[i]);
                    }
                }
            }
            None
        }
    }

    /// Stores `edit` at `frame`, replacing any edit there.
    pub fn set(&mut self, frame: u32, edit: Vec<CellWrite>)
        requires
            old(self).wf(),
        ensures
            final(self).wf(),
            final(self)@ == old(self)@.insert(frame as int, edit@),
    {
        let p = self.position(frame);
        let ghost m = self.map@.insert(frame as int, edit@);
        let ghost old_frames = self.frames@;
        if p < self.frames.len() && self.frames[p] == frame {
            self.edits.set(p, edit);
            self.map = Ghost(m);
            assert forall|k: int| #[trigger] m.contains_key(k) implies exists|i: int|
                0 <= i < self.frames@.len() && self.frames@[i] == k by {
                if k == frame {
                    assert(self.frames@[p as int] == k);
                }
            }
        } else {
            self.frames.insert(p, frame);
            self.edits.insert(p, edit);
            self.map = Ghost(m);
            assert forall|i: int|
                0 <= i < self.frames@.len() implies m.contains_key(#[trigger] self.frames@[i] as int)
                && m[self.frames@[i] as int] == self.edits@[i]@ by {
                if i > p {
                    assert(self.frames@[i] == old_frames[i - 1]);
                }
            }
            assert forall|k: int| #[trigger] m.contains_key(k) implies exists|i: int|
                0 <= i < self.frames@.len() && self.frames@[i] == k by {
                if k == frame {
                    assert(self.frames@[p as int] == k);
                } else {
                    let i = choose|i: int| 0 <= i < old_frames.len() && old_frames[i] == k;
                    if i < p {
                        assert(self.frames@[i] == k);
                    } else {
                        assert(self.frames@[i + 1] == k);
                    }
                }
            }
        }
    }

    /// Removes the edit at `frame`, if any, without shifting other frames.
    pub fn remove(&mut self, frame: u32)
        requires
            old(self).wf(),
        ensures
            final(self).wf(),
            final(self)@ == old(self)@.remove(frame as int),
    {
        let p = self.position(frame);
        let ghost m = self.map@.remove(frame as int);
        let ghost old_frames = self.frames@;
        if p < self.frames.len() && self.frames[p] == frame {
            self.frames.remove(p);
            self.edits.remove(p);
            self.map = Ghost(m);
            assert forall|i: int|
                0 <= i < self.frames@.len() implies m.contains_key(#[trigger] self.frames@[i] as int)
                && m[self.frames@[i] as int] == self.edits@[i]@ by {
                if i >= p {
                    assert(self.frames@[i] == old_frames[i + 1]);
                    assert(old_frames[p as int] < old_frames[i + 1]);
                }
            }
            assert forall|k: int| #[trigger] m.contains_key(k) implies exists|i: int|
                0 <= i < self.frames@.len() && self.frames@[i] == k by {
                let i = choose|i: int| 0 <= i < old_frames.len() && old_frames[i] == k;
                if i < p {
                    assert(self.frames@[i] == k);
                } else {
                    assert(self.frames@[i - 1] == k);
                }
            }
        } else {
            proof {
                if self.map@.contains_key(frame as int) {
                    let i = choose|i: int| 0 <= i < self.frames@.len() && self.frames@[i] == frame;
                    if i > p {
                        assert(self.frames@[p as int] < self.frames@[i]);
                    }
                }
                assert(m =~= self.map@);
            }
        }
    }
    /// Opens an empty frame at `frame`: every edit at or after it moves one
    /// frame later. Returns the lowest frame whose edit may have changed.
    pub fn insert_frame(&mut self, frame: u32) -> (lowest: u32)
        requires
            old(self).wf(),
        ensures
            final(self).wf(),
            final(self)@ == shifted_up(old(self)@, frame as int),
            lowest == frame,
    {
        let ghost m = shifted_up(self.map@, frame as int);
        let n = self.frames.len();
        if n > 0 && self.frames[n - 1] == MAX_FRAME && frame <= MAX_FRAME {
            self.frames.pop();
            self.edits.pop();
        }
        let ghost kept = self.frames@;
        let ghost old_frames = old(self).frames@;
        assert(kept.len() == old_frames.len() || (kept.len() + 1 == old_frames.len()
            && old_frames[kept.len() as int] == MAX_FRAME));
        let p = self.position(frame);
        let mut i: usize = p;
        proof {
            assert forall|j: int| 0 <= j < kept.len() implies kept[j] < MAX_FRAME by {
                if j < kept.len() - 1 {
                    assert(kept[j] < kept[kept.len() - 1]);
                }
            }
        }
        while i < self.frames.len()
            invariant
                p <= i <= self.frames@.len(),
                self.frames@.len() == kept.len(),
                self.edits@.len() == kept.len(),
                kept.len() <= old_frames.len(),
                old_frames.len() == old(self).edits@.len(),
                self.edits@ == old(self).edits@.subrange(0, kept.len() as int),
                kept == old_frames.subrange(0, kept.len() as int),
                forall|j: int| 0 <= j < kept.len() ==> kept[j] < MAX_FRAME,
                forall|j: int| 0 <= j < p ==> kept[j] < frame,
                forall|j: int| p <= j < kept.len() ==> kept[j] >= frame,
                forall|j: int| 0 <= j < p ==> self.frames@[j] == kept[j],
                forall|j: int| p <= j < i ==> self.frames@[j] == kept[j] + 1,
                forall|j: int| i <= j < kept.len() ==> self.frames@[j] == kept[j],
            decreases kept.len() - i,
        {
            let f = self.frames[i];
            assert(f == kept[i as int]);
            self.frames.set(i, f + 1);
            i = i + 1;
        }
        self.map = Ghost(m);
        proof {
            let om = old(self).map@;
            assert forall|j: int, l: int| 0 <= j < l < self.frames@.len() implies self.frames@[j]
                < self.frames@[l] by {
                assert(old_frames[j] < old_frames[l]);
                assert(kept[j] == old_frames[j] && kept[l] == old_frames[l]);
            }
            assert forall|j: int|
                0 <= j < self.frames@.len() implies m.contains_key(#[trigger] self.frames@[j] as int)
                && m[self.frames@[j] as int] == self.edits@[j]@ by {
                assert(om.contains_key(old_frames[j] as int));
                assert(old_frames[j] == kept[j]);
                assert(om[old_frames[j] as int] == old(self).edits@[j]@);
                assert(self.edits@[j] == old(self).edits@[j]);
            }
            assert forall|k: int| #[trigger] m.contains_key(k) implies exists|j: int|
                0 <= j < self.frames@.len() && self.frames@[j] == k by {
                if k < frame {
                    let j = choose|j: int| 0 <= j < old_frames.len() && old_frames[j] == k;
                    assert(j < kept.len());
                    assert(kept[j] == k);
                    assert(self.frames@[j] == k);
                } else {
                    let j = choose|j: int| 0 <= j < old_frames.len() && old_frames[j] == k - 1;
                    assert(j < kept.len());
                    assert(kept[j] == k - 1);
                    assert(j >= p);
                    assert(self.frames@[j] == k);
                }
            }
        }
        frame
    }

    /// Removes the edit at `frame`, if any, and moves every later edit one
    /// frame earlier. Returns the lowest frame whose edit may have changed.
    pub fn delete_frame(&mut self, frame: u32) -> (lowest: u32)
        requires
            old(self).wf(),
        ensures
            final(self).wf(),
            final(self)@ == shifted_down(old(self)@, frame as int),
            lowest == frame,
    {
        let ghost m = shifted_down(self.map@, frame as int);
        self.remove(frame);
        let ghost kept = self.frames@;
        let ghost km = self.map@;
        let ghost kept_edits = self.edits@;
        let p = self.position(frame);
        let mut i: usize = p;
        proof {
            assert forall|j: int| p <= j < kept.len() implies kept[j] > frame by {
                assert(kept[p as int] != frame);
                if j > p {
                    assert(kept[p as int] < kept[j]);
                }
            }
        }
        while i < self.frames.len()
            invariant
                p <= i <= self.frames@.len(),
                self.frames@.len() == kept.len(),
                self.edits@ == kept_edits,
                kept_edits.len() == kept.len(),
                forall|j: int| 0 <= j < p ==> kept[j] < frame,
                forall|j: int| p <= j < kept.len() ==> kept[j] > frame,
                forall|j: int| 0 <= j < p ==> self.frames@[j] == kept[j],
                forall|j: int| p <= j < i ==> self.frames@[j] == kept[j] - 1,
                forall|j: int| i <= j < kept.len() ==> self.frames@[j] == kept[j],
            decreases kept.len() - i,
        {
            let f = self.frames[i];
            assert(f == kept[i as int]);
            self.frames.set(i, f - 1);
            i = i + 1;
        }
        self.map = Ghost(m);
        proof {
            let om = old(self).map@;
            assert forall|j: int, l: int| 0 <= j < l < self.frames@.len() implies self.frames@[j]
                < self.frames@[l] by {
                assert(kept[j] < kept[l]);
            }
            assert forall|j: int|
                0 <= j < self.frames@.len() implies m.contains_key(#[trigger] self.frames@[j] as int)
                && m[self.frames@[j] as int] == self.edits@[j]@ by {
                assert(km.contains_key(kept[j] as int));
                assert(om.contains_key(kept[j] as int));
                assert(km[kept[j] as int] == om[kept[j] as int]);
                assert(km[kept[j] as int] == kept_edits[j]@);
                if j < p {
                    assert(self.frames@[j] == kept[j]);
                } else {
                    assert(self.frames@[j] + 1 == kept[j]);
                }
            }
            assert forall|k: int| #[trigger] m.contains_key(k) implies exists|j: int|
                0 <= j < self.frames@.len() && self.frames@[j] == k by {
                if k < frame {
                    assert(km.contains_key(k));
                    let j = choose|j: int| 0 <= j < kept.len() && kept[j] == k;
                    assert(self.frames@[j] == k);
                } else {
                    assert(km.contains_key(k + 1));
                    let j = choose|j: int| 0 <= j < kept.len() && kept[j] == k + 1;
                    assert(self.frames@[j] == k);
                }
            }
        }
        frame
    }
}

} // verus!
