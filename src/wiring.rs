//! Auto-wiring: connecting the matching attachment slots of two adjacent
//! structures.

use vstd::prelude::*;

use crate::network::{increasing, lemma_push_increasing, Network, DEFAULT_SEGMENT_COUNT};

verus! {

impl<P, H> Network<P, H> {
    /// The point that stands for `slot` among `pts`: the last of them that
    /// has that slot.
    pub open(crate) spec fn last_with_slot(self, pts: Seq<u64>, slot: u32) -> Option<u64>
        decreases pts.len(),
    {
        if pts.len() == 0 {
            None
        } else if self.slot_of(pts.last()) == Some(slot) {
            Some(pts.last())
        } else {
            self.last_with_slot(pts.drop_last(), slot)
        }
    }

    /// The (start, end) pairs that auto-wiring structure `a` to structure
    /// `b` connects, for the first `n` points of `b`: each point of `b` with
    /// a slot that no later point of `b` has, and for which some point of `a`
    /// stands, gets a cable from that point of `a`.
    pub open(crate) spec fn wire_pairs(self, a: Seq<u64>, b: Seq<u64>, n: int) -> Seq<(u64, u64)>
        decreases n,
    {
        if n <= 0 {
            Seq::empty()
        } else {
            let prev = self.wire_pairs(a, b, n - 1);
            let q = b[n - 1];
            match self.slot_of(q) {
                None => prev,
                Some(s) => if self.last_with_slot(b.skip(n), s) is None {
                    match self.last_with_slot(a, s) {
                        Some(pa) => prev.push((pa, q)),
                        None => prev,
                    }
                } else {
                    prev
                },
            }
        }
    }

    pub(crate) proof fn lemma_last_with_slot_agree(self, other: Self, pts: Seq<u64>, slot: u32)
        requires
            forall|q: u64| self.slot_of(q) == other.slot_of(q),
        ensures
            self.last_with_slot(pts, slot) == other.last_with_slot(pts, slot),
        decreases pts.len(),
    {
        if pts.len() > 0 {
            self.lemma_last_with_slot_agree(other, pts.drop_last(), slot);
        }
    }

    pub(crate) proof fn lemma_slots_agree(self, other: Self)
        requires
            self.points_agree(other),
        ensures
            forall|q: u64| self.slot_of(q) == other.slot_of(q),
    {
        assert forall|q: u64| self.slot_of(q) == other.slot_of(q) by {
            assert(self.point_ids().contains(q) == other.point_ids().contains(q));
        }
    }

    /// Slot of the point `q`.
    fn slot_of_point(&self, q: u64) -> (r: Option<u32>)
        requires
            self.wf(),
        ensures
            r == self.slot_of(q),
    {
        match self.find_point(q) {
            Some(i) => self.points[i].index,
            None => None,
        }
    }

    /// The last point of `pts[from..]` that has `slot`.
    fn last_with_slot_from(&self, pts: &Vec<u64>, from: usize, slot: u32) -> (r: Option<u64>)
        requires
            self.wf(),
            from <= pts.len(),
        ensures
            r == self.last_with_slot(pts@.skip(from as int), slot),
    {
        let mut i: usize = pts.len();
        while i > from
            invariant
                self.wf(),
                from <= i <= pts.len(),
                self.last_with_slot(pts@.skip(from as int), slot) == self.last_with_slot(
                    pts@.subrange(from as int, i as int),
                    slot,
                ),
            decreases i,
        {
            let q = pts[i - 1];
            let ghost sub = pts@.subrange(from as int, i as int);
            assert(sub.last() == q);
            assert(sub.drop_last() =~= pts@.subrange(from as int, i - 1));
            if self.slot_of_point(q) == Some(slot) {
                return Some(q);
            }
            i -= 1;
        }
        assert(pts@.subrange(from as int, i as int).len() == 0);
        None
    }

    /// Connects two adjacent structures: for each slot, the last point of
    /// `b` that has it gets a cable from the last point of `a` that has it,
    /// in the order of `b`; slots without a partner are skipped. Returns the
    /// new cables' ids.
    pub fn auto_wire(&mut self, a: &Vec<u64>, b: &Vec<u64>, hang: H) -> (r: Vec<u64>) where
        H: Copy,

        requires
            old(self).wf(),
            old(self).has_room_for_cables(b.len() as nat),
        ensures
            final(self).wf(),
            r@.len() == old(self).wire_pairs(a@, b@, b.len() as int).len(),
            forall|k: int|
                0 <= k < r@.len() ==> {
                    let pair = old(self).wire_pairs(a@, b@, b.len() as int)[k];
                    &&& !old(self).has_cable(#[trigger] r@[k])
                    &&& final(self).cable_spec(r@[k]).id == r@[k]
                    &&& final(self).cable_spec(r@[k]).start == pair.0
                    &&& final(self).cable_spec(r@[k]).end == pair.1
                    &&& final(self).cable_spec(r@[k]).hang == hang
                    &&& final(self).cable_spec(r@[k]).segment_count == DEFAULT_SEGMENT_COUNT
                    &&& !final(self).cable_spec(r@[k]).generated
                },
            increasing(r@),
            final(self).cable_ids() == old(self).cable_ids().union(r@.to_set()),
            forall|c: u64|
                old(self).has_cable(c) ==> final(self).cable_spec(c) == old(self).cable_spec(c),
            final(self).points_agree(*old(self)),
            final(self).next_point_id() == old(self).next_point_id(),
            final(self).next_cable_id() == old(self).next_cable_id() + r@.len(),
    {
        let ghost pre = *self;
        let mut out: Vec<u64> = Vec::new();
        let mut k: usize = 0;
        proof {
            assert(self.cable_ids() =~= pre.cable_ids().union(out@.to_set()));
        }
        while k < b.len()
            invariant
                self.wf(),
                k <= b.len(),
                self.points_agree(pre),
                self.next_cable_id() + (b.len() - k) <= u64::MAX,
                self.next_point_id() == pre.next_point_id(),
                self.next_cable_id() == pre.next_cable_id() + out@.len(),
                out@.len() == pre.wire_pairs(a@, b@, k as int).len(),
                forall|m: int|
                    0 <= m < out@.len() ==> {
                        let pair = pre.wire_pairs(a@, b@, k as int)[m];
                        &&& !pre.has_cable(#[trigger] out@[m])
                        &&& self.cable_spec(out@[m]).id == out@[m]
                        &&& self.cable_spec(out@[m]).start == pair.0
                        &&& self.cable_spec(out@[m]).end == pair.1
                        &&& self.cable_spec(out@[m]).hang == hang
                        &&& self.cable_spec(out@[m]).segment_count == DEFAULT_SEGMENT_COUNT
                        &&& !self.cable_spec(out@[m]).generated
                    },
                increasing(out@),
                forall|c: u64| out@.contains(c) ==> c < self.next_cable_id(),
                forall|c: u64| #[trigger] self.has_cable(c) ==> c < self.next_cable_id(),
                self.cable_ids() == pre.cable_ids().union(out@.to_set()),
                forall|c: u64|
                    pre.has_cable(c) ==> self.cable_spec(c) == pre.cable_spec(c),
            decreases b.len() - k,
        {
            proof {
                self.lemma_slots_agree(pre);
            }
            let ghost before = *self;
            let q = b[k];
            let ghost prev_pairs = pre.wire_pairs(a@, b@, k as int);
            let ghost next_pairs = pre.wire_pairs(a@, b@, k + 1);
            if let Some(s) = self.slot_of_point(q) {
                let later = self.last_with_slot_from(b, k + 1, s);
                proof {
                    self.lemma_last_with_slot_agree(pre, b@.skip(k + 1), s);
                    self.lemma_last_with_slot_agree(pre, a@, s);
                    assert(a@.skip(0) =~= a@);
                }
                if later.is_none() {
                    let partner = self.last_with_slot_from(a, 0, s);
                    if let Some(pa) = partner {
                        proof {
                            assert(next_pairs == prev_pairs.push((pa, q)));
                            // a point with a slot exists
                            assert(self.has_point(q));
                            self.lemma_last_with_slot_point(a@, s);
                        }
                        let res = self.create_cable(pa, q, hang, DEFAULT_SEGMENT_COUNT);
                        if let Ok(id) = res {
                            proof {
                                assert forall|c: u64| out@.contains(c) implies c < id by {}
                                assert(!pre.has_cable(id)) by {
                                    if pre.has_cable(id) {
                                        assert(before.cable_ids().contains(id));
                                    }
                                }
                                lemma_push_increasing(out@, id);
                            }
                            let ghost o0 = out@;
                            out.push(id);
                            proof {
                                assert forall|m: int| 0 <= m < out@.len() implies {
                                    let pair = next_pairs[m];
                                    &&& !pre.has_cable(#[trigger] out@[m])
                                    &&& self.cable_spec(out@[m]).id == out@[m]
                                    &&& self.cable_spec(out@[m]).start == pair.0
                                    &&& self.cable_spec(out@[m]).end == pair.1
                                    &&& self.cable_spec(out@[m]).hang == hang
                                    &&& self.cable_spec(out@[m]).segment_count
                                        == DEFAULT_SEGMENT_COUNT
                                    &&& !self.cable_spec(out@[m]).generated
                                } by {
                                    if m < o0.len() {
                                        assert(out@[m] == o0[m]);
                                        assert(o0.contains(o0[m]));
                                        assert(before.cable_ids().contains(o0[m]));
                                        assert(before.has_cable(o0[m]));
                                    }
                                }
                                assert(self.cable_ids() =~= pre.cable_ids().union(out@.to_set()));
                                assert forall|c: u64| #[trigger] self.has_cable(c) implies c
                                    < self.next_cable_id() by {
                                    assert(self.cable_ids().contains(c));
                                    assert(before.cable_ids().insert(id).contains(c));
                                    if c != id {
                                        assert(before.has_cable(c));
                                    }
                                }
                                assert forall|c: u64| pre.has_cable(c) implies self.cable_spec(c)
                                    == pre.cable_spec(c) by {
                                    assert(before.cable_ids().contains(c));
                                }
                                assert forall|c: u64| out@.contains(c) implies c
                                    < self.next_cable_id() by {
                                    if c != id {
                                        assert(o0.contains(c));
                                    }
                                }
                                self.lemma_points_agree_trans(before, pre);
                            }
                        }
                    } else {
                        proof {
                            assert(next_pairs == prev_pairs);
                        }
                    }
                } else {
                    proof {
                        assert(next_pairs == prev_pairs);
                    }
                }
            } else {
                proof {
                    assert(next_pairs == prev_pairs);
                }
            }
            k += 1;
        }
        out
    }

    /// The point that stands for a slot exists.
    pub(crate) proof fn lemma_last_with_slot_point(self, pts: Seq<u64>, slot: u32)
        ensures
            self.last_with_slot(pts, slot) matches Some(q) ==> self.has_point(q),
        decreases pts.len(),
    {
        if pts.len() > 0 {
            self.lemma_last_with_slot_point(pts.drop_last(), slot);
        }
    }
}

} // verus!
