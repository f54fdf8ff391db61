//! The connection graph: connection points, the directed cables between
//! them, and the two adjacency indexes that each point keeps.

use vstd::prelude::*;

verus! {

/// Why an operation on the network could not be carried out.
#[derive(Clone, Copy, Debug, PartialEq, Eq, Structural)]
pub enum CableError {
    /// A connection point that the operation refers to does not exist
    /// (for a cable: it was removed together with one of its endpoints).
    UnresolvedEndpoint,
    /// The curve solver gave no position for some sample of the cable.
    DegenerateCurve,
    /// A single traversal step crossed more junctions than there are cables.
    TraversalCycle,
}

/// A fixed anchor in space where cables attach.
///
/// Besides its position it keeps the two adjacency indexes of the network:
/// the ids of the cables that start here and of those that end here, each in
/// creation order.
pub struct CableConnection<P> {
    pub id: u64,
    /// Position of the structure that carries the point.
    pub origin: P,
    /// Offset of the point from `origin`.
    pub connection_point_offset: P,
    /// Attachment slot, matched across structures by `auto_wire`.
    pub index: Option<u32>,
    /// Ids of the cables that start here, in increasing order.
    pub starting: Vec<u64>,
    /// Ids of the cables that end here, in increasing order.
    pub ending: Vec<u64>,
}

/// A directed edge between two connection points, with its sampled curve.
pub struct Cable<P, H> {
    pub id: u64,
    /// Id of the start point.
    pub start: u64,
    /// Id of the end point.
    pub end: u64,
    /// How far the cable sags; handed to the curve solver.
    pub hang: H,
    /// Number of segments; the cache holds one sample more.
    pub segment_count: usize,
    /// Whether the cached samples have been filled.
    pub generated: bool,
    /// The cached samples: empty until the cable is generated.
    pub segments: Vec<P>,
}

/// The connection graph: connection points, the cables between them, and the
/// per-point indexes of cables starting and ending there.
///
/// `P` is the position type of the host and `H` its sag parameter; the
/// network stores and hands them back but never computes with them.
pub struct Network<P, H> {
    pub(crate) points: Vec<CableConnection<P>>,
    pub(crate) cables: Vec<Cable<P, H>>,
    pub(crate) next_point: u64,
    pub(crate) next_cable: u64,
}

/// Number of segments a cable gets when none is asked for.
pub const DEFAULT_SEGMENT_COUNT: usize = 10;

/// The elements of `s` are strictly increasing.
pub open spec fn increasing(s: Seq<u64>) -> bool {
    forall|a: int, b: int| 0 <= a < b < s.len() ==> s[a] < s[b]
}

/// Appending a value greater than every element keeps a sequence increasing,
/// and adds exactly that value to its elements.
pub proof fn lemma_push_increasing(s: Seq<u64>, x: u64)
    requires
        increasing(s),
        forall|c: u64| s.contains(c) ==> c < x,
    ensures
        increasing(s.push(x)),
        forall|c: u64| #[trigger] s.push(x).contains(c) <==> (s.contains(c) || c == x),
{
    let t = s.push(x);
    assert forall|a: int, b: int| 0 <= a < b < t.len() implies t[a] < t[b] by {
        if b == s.len() {
            assert(s.contains(s[a]));
        }
    }
    assert forall|c: u64| t.contains(c) implies (s.contains(c) || c == x) by {
        let k = choose|k: int| 0 <= k < t.len() && t[k] == c;
        if k < s.len() {
            assert(s[k] == c);
        }
    }
    assert forall|c: u64| s.contains(c) implies t.contains(c) by {
        let k = choose|k: int| 0 <= k < s.len() && s[k] == c;
        assert(t[k] == c);
    }
    assert(t[s.len() as int] == x);
}

/// The cable does not touch point `p`.
pub open spec fn detached<P, H>(c: Cable<P, H>, p: u64) -> bool {
    c.start != p && c.end != p
}

/// Ids of the cables of `cables` that start (`at_start`) or end at `pid`, in
/// the order of `cables`.
fn ids_at<P, H>(cables: &Vec<Cable<P, H>>, pid: u64, at_start: bool) -> (r: Vec<u64>)
    requires
        forall|a: int, b: int| 0 <= a < b < cables.len() ==> cables@[a].id < cables@[b].id,
    ensures
        increasing(r@),
        forall|x: u64|
            r@.contains(x) <==> exists|m: int|
                0 <= m < cables.len() && cables@[m].id == x && (if at_start {
                    cables@[m].start
                } else {
                    cables@[m].end
                }) == pid,
{
    let mut r: Vec<u64> = Vec::new();
    let mut k: usize = 0;
    while k < cables.len()
        invariant
            k <= cables.len(),
            forall|a: int, b: int| 0 <= a < b < cables.len() ==> cables@[a].id < cables@[b].id,
            increasing(r@),
            forall|x: u64|
                r@.contains(x) <==> exists|m: int|
                    0 <= m < k && cables@[m].id == x && (if at_start {
                        cables@[m].start
                    } else {
                        cables@[m].end
                    }) == pid,
        decreases cables.len() - k,
    {
        let c = &cables[k];
        let end = if at_start {
            c.start
        } else {
            c.end
        };
        if end == pid {
            proof {
                assert forall|x: u64| r@.contains(x) implies x < c.id by {
                    let m = choose|m: int|
                        0 <= m < k && cables@[m].id == x && (if at_start {
                            cables@[m].start
                        } else {
                            cables@[m].end
                        }) == pid;
                }
                lemma_push_increasing(r@, c.id);
            }
            let ghost r0 = r@;
            r.push(c.id);
            proof {
                assert forall|x: u64| r@.contains(x) <==> exists|m: int|
                    0 <= m < k + 1 && cables@[m].id == x && (if at_start {
                        cables@[m].start
                    } else {
                        cables@[m].end
                    }) == pid by {
                    if x == c.id {
                        assert(cables@[k as int].id == x);
                    }
                    if exists|m: int|
                        0 <= m < k + 1 && cables@[m].id == x && (if at_start {
                            cables@[m].start
                        } else {
                            cables@[m].end
                        }) == pid {
                        let m = choose|m: int|
                            0 <= m < k + 1 && cables@[m].id == x && (if at_start {
                                cables@[m].start
                            } else {
                                cables@[m].end
                            }) == pid;
                        if m < k {
                            assert(r0.contains(x));
                            assert(r@ == r0.push(c.id));
                        }
                    }
                }
            }
        } else {
            proof {
                assert forall|x: u64| r@.contains(x) <==> exists|m: int|
                    0 <= m < k + 1 && cables@[m].id == x && (if at_start {
                        cables@[m].start
                    } else {
                        cables@[m].end
                    }) == pid by {
                    if exists|m: int|
                        0 <= m < k + 1 && cables@[m].id == x && (if at_start {
                            cables@[m].start
                        } else {
                            cables@[m].end
                        }) == pid {
                        let m = choose|m: int|
                            0 <= m < k + 1 && cables@[m].id == x && (if at_start {
                                cables@[m].start
                            } else {
                                cables@[m].end
                            }) == pid;
                        assert(m < k);
                    }
                }
            }
        }
        k += 1;
    }
    r
}

impl<P, H> Network<P, H> {
    pub open(crate) spec fn has_point(self, id: u64) -> bool {
        exists|i: int| 0 <= i < self.points.len() && self.points@[i].id == id
    }

    pub open(crate) spec fn point_index(self, id: u64) -> int {
        choose|i: int| 0 <= i < self.points.len() && self.points@[i].id == id
    }

    /// The connection point with this id (meaningful where `has_point(id)`).
    pub open(crate) spec fn point_spec(self, id: u64) -> CableConnection<P> {
        self.points@[self.point_index(id)]
    }

    pub open(crate) spec fn has_cable(self, id: u64) -> bool {
        exists|j: int| 0 <= j < self.cables.len() && self.cables@[j].id == id
    }

    pub open(crate) spec fn cable_index(self, id: u64) -> int {
        choose|j: int| 0 <= j < self.cables.len() && self.cables@[j].id == id
    }

    /// The cable with this id (meaningful where `has_cable(id)`).
    pub open(crate) spec fn cable_spec(self, id: u64) -> Cable<P, H> {
        self.cables@[self.cable_index(id)]
    }

    pub open(crate) spec fn point_ids(self) -> Set<u64> {
        Set::new(|id: u64| self.has_point(id))
    }

    pub open(crate) spec fn cable_ids(self) -> Set<u64> {
        Set::new(|id: u64| self.has_cable(id))
    }

    /// The cables whose start point is `p`.
    pub open(crate) spec fn starting_at(self, p: u64) -> Set<u64> {
        Set::new(|c: u64| self.has_cable(c) && self.cable_spec(c).start == p)
    }

    /// The cables whose end point is `p`.
    pub open(crate) spec fn ending_at(self, p: u64) -> Set<u64> {
        Set::new(|c: u64| self.has_cable(c) && self.cable_spec(c).end == p)
    }

    /// The index of cables starting at `p`, as stored.
    pub open(crate) spec fn starting_index(self, p: u64) -> Seq<u64> {
        if self.has_point(p) {
            self.point_spec(p).starting@
        } else {
            Seq::empty()
        }
    }

    /// The index of cables ending at `p`, as stored.
    pub open(crate) spec fn ending_index(self, p: u64) -> Seq<u64> {
        if self.has_point(p) {
            self.point_spec(p).ending@
        } else {
            Seq::empty()
        }
    }

    /// Slot of the point `q`, if `q` exists and has one.
    pub open(crate) spec fn slot_of(self, q: u64) -> Option<u32> {
        if self.has_point(q) {
            self.point_spec(q).index
        } else {
            None
        }
    }

    pub open(crate) spec fn ids_wf(self) -> bool {
        &&& forall|i: int, j: int|
            0 <= i < j < self.points.len() ==> self.points@[i].id < self.points@[j].id
        &&& forall|i: int| 0 <= i < self.points.len() ==> self.points@[i].id < self.next_point
        &&& forall|i: int, j: int|
            0 <= i < j < self.cables.len() ==> self.cables@[i].id < self.cables@[j].id
        &&& forall|j: int| 0 <= j < self.cables.len() ==> self.cables@[j].id < self.next_cable
    }

    pub open(crate) spec fn cable_wf(c: Cable<P, H>) -> bool {
        &&& 0 < c.segment_count < usize::MAX
        &&& c.generated ==> c.segments@.len() == c.segment_count + 1
        &&& !c.generated ==> c.segments@.len() == 0
    }

    /// The cable runs between existing points and its samples match its flag.
    pub open(crate) spec fn cable_ok(self, c: Cable<P, H>) -> bool {
        &&& self.has_point(c.start)
        &&& self.has_point(c.end)
        &&& Self::cable_wf(c)
    }

    /// Point `i`'s two indexes list exactly the cables that start (end) there,
    /// in increasing id order.
    pub open(crate) spec fn index_wf(self, i: int) -> bool {
        let p = self.points@[i];
        &&& increasing(p.starting@)
        &&& increasing(p.ending@)
        &&& forall|c: u64|
            p.starting@.contains(c) <==> exists|j: int|
                0 <= j < self.cables.len() && self.cables@[j].id == c && self.cables@[j].start
                    == p.id
        &&& forall|c: u64|
            p.ending@.contains(c) <==> exists|j: int|
                0 <= j < self.cables.len() && self.cables@[j].id == c && self.cables@[j].end
                    == p.id
    }

    /// Well-formedness: unique ids below the counters, every cable between
    /// existing points, cached samples matching the generated flag, and both
    /// adjacency indexes consistent with the cables.
    pub open(crate) spec fn wf(self) -> bool {
        &&& self.ids_wf()
        &&& forall|j: int| 0 <= j < self.cables.len() ==> self.cable_ok(#[trigger] self.cables@[j])
        &&& forall|i: int| 0 <= i < self.points.len() ==> #[trigger] self.index_wf(i)
    }

    pub(crate) proof fn lemma_point_lookup(self, i: int)
        requires
            self.ids_wf(),
            0 <= i < self.points.len(),
        ensures
            self.has_point(self.points@[i].id),
            self.point_index(self.points@[i].id) == i,
            self.point_spec(self.points@[i].id) == self.points@[i],
    {
        let id = self.points@[i].id;
        assert(self.has_point(id));
        let k = self.point_index(id);
        if k < i {
            assert(self.points@[k].id < self.points@[i].id);
        } else if k > i {
            assert(self.points@[i].id < self.points@[k].id);
        }
    }

    pub(crate) proof fn lemma_cable_lookup(self, j: int)
        requires
            self.ids_wf(),
            0 <= j < self.cables.len(),
        ensures
            self.has_cable(self.cables@[j].id),
            self.cable_index(self.cables@[j].id) == j,
            self.cable_spec(self.cables@[j].id) == self.cables@[j],
    {
        let id = self.cables@[j].id;
        assert(self.has_cable(id));
        let k = self.cable_index(id);
        if k < j {
            assert(self.cables@[k].id < self.cables@[j].id);
        } else if k > j {
            assert(self.cables@[j].id < self.cables@[k].id);
        }
    }

    /// An empty network.
    pub fn new() -> (r: Self)
        ensures
            r.wf(),
            r.next_point_id() == 0,
            r.next_cable_id() == 0,
            r.point_ids() == Set::<u64>::empty(),
            r.cable_ids() == Set::<u64>::empty(),
    {
        let r = Network { points: Vec::new(), cables: Vec::new(), next_point: 0, next_cable: 0 };
        assert(r.point_ids() =~= Set::<u64>::empty());
        assert(r.cable_ids() =~= Set::<u64>::empty());
        r
    }

    /// Position in `points` of the point with this id.
    pub(crate) fn find_point(&self, id: u64) -> (r: Option<usize>)
        requires
            self.ids_wf(),
        ensures
            r.is_none() <==> !self.has_point(id),
            r matches Some(i) ==> i == self.point_index(id) && i < self.points.len(),
    {
        let mut i: usize = 0;
        while i < self.points.len()
            invariant
                self.ids_wf(),
                i <= self.points.len(),
                forall|k: int| 0 <= k < i ==> self.points@[k].id != id,
            decreases self.points.len() - i,
        {
            if self.points[i].id == id {
                proof {
                    self.lemma_point_lookup(i as int);
                }
                return Some(i);
            }
            i += 1;
        }
        None
    }

    /// Position in `cables` of the cable with this id.
    pub(crate) fn find_cable(&self, id: u64) -> (r: Option<usize>)
        requires
            self.ids_wf(),
        ensures
            r.is_none() <==> !self.has_cable(id),
            r matches Some(j) ==> j == self.cable_index(id) && j < self.cables.len(),
    {
        let mut j: usize = 0;
        while j < self.cables.len()
            invariant
                self.ids_wf(),
                j <= self.cables.len(),
                forall|k: int| 0 <= k < j ==> self.cables@[k].id != id,
            decreases self.cables.len() - j,
        {
            if self.cables[j].id == id {
                proof {
                    self.lemma_cable_lookup(j as int);
                }
                return Some(j);
            }
            j += 1;
        }
        None
    }

    /// The cable sets of the two networks, and each cable in them, agree.
    pub open(crate) spec fn cables_agree(self, other: Self) -> bool {
        &&& self.cable_ids() == other.cable_ids()
        &&& forall|c: u64| self.has_cable(c) ==> self.cable_spec(c) == other.cable_spec(c)
    }

    /// The point sets agree, and so do each point's position and slot.
    pub open(crate) spec fn points_agree(self, other: Self) -> bool {
        &&& self.point_ids() == other.point_ids()
        &&& forall|q: u64|
            self.has_point(q) ==> {
                &&& self.point_spec(q).origin == other.point_spec(q).origin
                &&& self.point_spec(q).connection_point_offset == other.point_spec(q).connection_point_offset
                &&& self.point_spec(q).index == other.point_spec(q).index
            }
    }

    /// The id the next connection point will get.
    pub open(crate) spec fn next_point_id(self) -> u64 {
        self.next_point
    }

    /// The id the next cable will get.
    pub open(crate) spec fn next_cable_id(self) -> u64 {
        self.next_cable
    }

    pub(crate) proof fn lemma_points_agree_trans(self, mid: Self, other: Self)
        requires
            self.points_agree(mid),
            mid.points_agree(other),
        ensures
            self.points_agree(other),
    {
        assert forall|q: u64| self.has_point(q) implies {
            &&& self.point_spec(q).origin == other.point_spec(q).origin
            &&& self.point_spec(q).connection_point_offset == other.point_spec(q).connection_point_offset
            &&& self.point_spec(q).index == other.point_spec(q).index
        } by {
            assert(self.point_ids().contains(q));
            assert(mid.point_ids().contains(q));
        }
    }

    /// Whether another connection point can still be given a fresh id.
    pub open(crate) spec fn has_room_for_point(self) -> bool {
        self.next_point_id() < u64::MAX
    }

    /// Whether another cable can still be given a fresh id.
    pub open(crate) spec fn has_room_for_cable(self) -> bool {
        self.next_cable_id() < u64::MAX
    }

    /// Whether another connection point can still be created.
    pub fn room_for_point(&self) -> (r: bool)
        ensures
            r == self.has_room_for_point(),
    {
        self.next_point < u64::MAX
    }

    /// Whether another cable can still be created.
    pub fn room_for_cable(&self) -> (r: bool)
        ensures
            r == self.has_room_for_cable(),
    {
        self.next_cable < u64::MAX
    }

    /// Registers a connection point and returns its fresh id.
    pub fn create_connection_point(&mut self, origin: P, offset: P, slot: Option<u32>) -> (r: u64)
        requires
            old(self).wf(),
            old(self).has_room_for_point(),
        ensures
            final(self).wf(),
            r == old(self).next_point_id(),
            final(self).next_point_id() == r + 1,
            final(self).next_cable_id() == old(self).next_cable_id(),
            !old(self).has_point(r),
            final(self).point_ids() == old(self).point_ids().insert(r),
            forall|q: u64| final(self).has_point(q) <==> old(self).has_point(q) || q == r,
            final(self).point_spec(r).origin == origin,
            final(self).point_spec(r).connection_point_offset == offset,
            final(self).point_spec(r).index == slot,
            forall|q: u64|
                old(self).has_point(q) ==> final(self).point_spec(q) == old(self).point_spec(q),
            final(self).cables_agree(*old(self)),
    {
        let ghost pre = *self;
        let id = self.next_point;
        self.points.push(
            CableConnection {
                id,
                origin,
                connection_point_offset: offset,
                index: slot,
                starting: Vec::new(),
                ending: Vec::new(),
            },
        );
        self.next_point = id + 1;
        proof {
            let n = pre.points.len() as int;
            assert forall|i: int| 0 <= i < self.points.len() implies self.points@[i].id
                < self.next_point by {}
            assert(self.ids_wf());
            assert forall|q: u64| pre.has_point(q) implies self.has_point(q)
                && self.point_spec(q) == pre.point_spec(q) by {
                let i = pre.point_index(q);
                pre.lemma_point_lookup(i);
                assert(self.points@[i] == pre.points@[i]);
                self.lemma_point_lookup(i);
            }
            assert(!pre.has_point(id)) by {
                if pre.has_point(id) {
                    let i = pre.point_index(id);
                }
            }
            self.lemma_point_lookup(n);
            assert forall|q: u64| self.has_point(q) implies pre.has_point(q) || q == id by {
                let i = self.point_index(q);
                if i < n {
                    assert(pre.points@[i] == self.points@[i]);
                }
            }
            assert(self.point_ids() =~= pre.point_ids().insert(id));
            assert(self.cable_ids() =~= pre.cable_ids());
            assert forall|j: int| 0 <= j < self.cables.len() implies self.cable_ok(
                #[trigger] self.cables@[j],
            ) by {
                assert(pre.cable_ok(pre.cables@[j]));
            }
            assert forall|i: int| 0 <= i < self.points.len() implies #[trigger] self.index_wf(i) by {
                if i < n {
                    assert(pre.index_wf(i));
                    assert(self.points@[i] == pre.points@[i]);
                } else {
                    assert forall|j: int| 0 <= j < self.cables.len() implies self.cables@[j].start
                        != id && self.cables@[j].end != id by {
                        assert(pre.cable_ok(pre.cables@[j]));
                    }
                    assert(self.points@[i].starting@ =~= Seq::<u64>::empty());
                    assert(self.points@[i].ending@ =~= Seq::<u64>::empty());
                }
            }
        }
        id
    }

    /// Registers an ungenerated cable from `start` to `end` and returns its
    /// fresh id; both points must exist.
    pub fn create_cable(&mut self, start: u64, end: u64, hang: H, segment_count: usize) -> (r:
        Result<u64, CableError>)
        requires
            old(self).wf(),
            old(self).has_room_for_cable(),
            0 < segment_count < usize::MAX,
        ensures
            final(self).wf(),
            r is Err <==> !(old(self).has_point(start) && old(self).has_point(end)),
            r is Err ==> r == Err::<u64, CableError>(CableError::UnresolvedEndpoint),
            r is Err ==> *final(self) == *old(self),
            r matches Ok(id) ==> {
                &&& !old(self).has_cable(id)
                &&& id == old(self).next_cable_id()
                &&& final(self).next_cable_id() == id + 1
                &&& final(self).cable_ids() == old(self).cable_ids().insert(id)
                &&& final(self).cable_spec(id).id == id
                &&& final(self).cable_spec(id).start == start
                &&& final(self).cable_spec(id).end == end
                &&& final(self).cable_spec(id).hang == hang
                &&& final(self).cable_spec(id).segment_count == segment_count
                &&& !final(self).cable_spec(id).generated
                &&& final(self).cable_spec(id).segments@.len() == 0
            },
            forall|c: u64|
                final(self).has_cable(c) <==> old(self).has_cable(c) || r == Ok::<u64, CableError>(
                    c,
                ),
            forall|c: u64|
                old(self).has_cable(c) ==> final(self).cable_spec(c) == old(self).cable_spec(c),
            forall|q: u64| final(self).has_point(q) == old(self).has_point(q),
            final(self).next_point_id() == old(self).next_point_id(),
            final(self).points_agree(*old(self)),
    {
        let si = match self.find_point(start) {
            Some(i) => i,
            None => return Err(CableError::UnresolvedEndpoint),
        };
        let ei = match self.find_point(end) {
            Some(i) => i,
            None => return Err(CableError::UnresolvedEndpoint),
        };
        let ghost pre = *self;
        let id = self.next_cable;
        self.cables.push(
            Cable {
                id,
                start,
                end,
                hang,
                segment_count,
                generated: false,
                segments: Vec::new(),
            },
        );
        self.points[si].starting.push(id);
        self.points[ei].ending.push(id);
        self.next_cable = id + 1;
        proof {
            let n = pre.cables.len() as int;
            pre.lemma_point_lookup(si as int);
            pre.lemma_point_lookup(ei as int);
            assert(self.points.len() == pre.points.len());
            assert forall|i: int| 0 <= i < self.points.len() implies self.points@[i].id
                == pre.points@[i].id && self.points@[i].origin == pre.points@[i].origin
                && self.points@[i].connection_point_offset == pre.points@[i].connection_point_offset && self.points@[i].index
                == pre.points@[i].index by {}
            assert(self.ids_wf());
            assert forall|q: u64| #[trigger] pre.has_point(q) implies self.has_point(q) && self.point_index(q) == pre.point_index(q) by {
                let i = pre.point_index(q);
                pre.lemma_point_lookup(i);
                self.lemma_point_lookup(i);
            }
            assert forall|q: u64| #[trigger] self.has_point(q) implies pre.has_point(q) by {
                let i = self.point_index(q);
                assert(pre.points@[i].id == q);
            }
            assert(self.point_ids() =~= pre.point_ids());
            assert forall|c: u64| #[trigger] pre.has_cable(c) implies self.has_cable(c)
                && self.cable_spec(c) == pre.cable_spec(c) && c < id by {
                let j = pre.cable_index(c);
                pre.lemma_cable_lookup(j);
                assert(self.cables@[j] == pre.cables@[j]);
                self.lemma_cable_lookup(j);
            }
            assert(!pre.has_cable(id));
            self.lemma_cable_lookup(n);
            assert forall|c: u64| self.has_cable(c) implies pre.has_cable(c) || c == id by {
                let j = self.cable_index(c);
                if j < n {
                    assert(pre.cables@[j] == self.cables@[j]);
                }
            }
            assert(self.cable_ids() =~= pre.cable_ids().insert(id));
            assert forall|j: int| 0 <= j < self.cables.len() implies self.cable_ok(
                #[trigger] self.cables@[j],
            ) by {
                if j < n {
                    assert(self.cables@[j] == pre.cables@[j]);
                    assert(pre.cable_ok(pre.cables@[j]));
                } else {
                    assert(pre.has_point(start));
                    assert(pre.has_point(end));
                }
            }
            assert forall|i: int| 0 <= i < self.points.len() implies #[trigger] self.index_wf(i) by {
                assert(pre.index_wf(i));
                let p = self.points@[i];
                let op = pre.points@[i];
                assert forall|c: u64| #[trigger] op.starting@.contains(c) implies c < id by {
                    let j = choose|j: int|
                        0 <= j < pre.cables.len() && pre.cables@[j].id == c && pre.cables@[j].start
                            == op.id;
                }
                assert forall|c: u64| #[trigger] op.ending@.contains(c) implies c < id by {
                    let j = choose|j: int|
                        0 <= j < pre.cables.len() && pre.cables@[j].id == c && pre.cables@[j].end
                            == op.id;
                }
                lemma_push_increasing(op.starting@, id);
                if i == si as int {
                    assert(p.starting@ == op.starting@.push(id));
                } else {
                    assert(p.starting@ == op.starting@);
                }
                lemma_push_increasing(op.ending@, id);
                if i == ei as int {
                    assert(p.ending@ == op.ending@.push(id));
                } else {
                    assert(p.ending@ == op.ending@);
                }
                assert forall|c: u64| p.starting@.contains(c) <==> exists|j: int|
                    0 <= j < self.cables.len() && self.cables@[j].id == c && self.cables@[j].start
                        == p.id by {
                    assert(p.id == op.id);
                    assert(pre.points@[si as int].id == start);
                    if p.starting@.contains(c) {
                        if c == id && i == si as int {
                            assert(self.cables@[n].id == c);
                            assert(self.cables@[n].start == p.id);
                        } else {
                            assert(op.starting@.contains(c));
                            let j = choose|j: int|
                                0 <= j < pre.cables.len() && pre.cables@[j].id == c
                                    && pre.cables@[j].start == op.id;
                            assert(self.cables@[j] == pre.cables@[j]);
                        }
                    }
                    if exists|j: int|
                        0 <= j < self.cables.len() && self.cables@[j].id == c
                            && self.cables@[j].start == p.id {
                        let j = choose|j: int|
                            0 <= j < self.cables.len() && self.cables@[j].id == c
                                && self.cables@[j].start == p.id;
                        if j < n {
                            assert(self.cables@[j] == pre.cables@[j]);
                            assert(op.starting@.contains(c));
                            assert(c < id);
                            assert(p.starting@.contains(c));
                        } else {
                            assert(p.id == start);
                            if i != si as int {
                                if i < si as int {
                                    assert(pre.points@[i].id < pre.points@[si as int].id);
                                } else {
                                    assert(pre.points@[si as int].id < pre.points@[i].id);
                                }
                            }
                            assert(i == si as int);
                            assert(c == id);
                            assert(p.starting@ == op.starting@.push(id));
                            assert(p.starting@.contains(c));
                        }
                    }
                }
                assert forall|c: u64| p.ending@.contains(c) <==> exists|j: int|
                    0 <= j < self.cables.len() && self.cables@[j].id == c && self.cables@[j].end
                        == p.id by {
                    assert(p.id == op.id);
                    assert(pre.points@[ei as int].id == end);
                    if p.ending@.contains(c) {
                        if c == id && i == ei as int {
                            assert(self.cables@[n].id == c);
                            assert(self.cables@[n].end == p.id);
                        } else {
                            assert(op.ending@.contains(c));
                            let j = choose|j: int|
                                0 <= j < pre.cables.len() && pre.cables@[j].id == c
                                    && pre.cables@[j].end == op.id;
                            assert(self.cables@[j] == pre.cables@[j]);
                        }
                    }
                    if exists|j: int|
                        0 <= j < self.cables.len() && self.cables@[j].id == c
                            && self.cables@[j].end == p.id {
                        let j = choose|j: int|
                            0 <= j < self.cables.len() && self.cables@[j].id == c
                                && self.cables@[j].end == p.id;
                        if j < n {
                            assert(self.cables@[j] == pre.cables@[j]);
                            assert(op.ending@.contains(c));
                            assert(c < id);
                            assert(p.ending@.contains(c));
                        } else {
                            assert(p.id == end);
                            if i != ei as int {
                                if i < ei as int {
                                    assert(pre.points@[i].id < pre.points@[ei as int].id);
                                } else {
                                    assert(pre.points@[ei as int].id < pre.points@[i].id);
                                }
                            }
                            assert(i == ei as int);
                            assert(c == id);
                            assert(p.ending@ == op.ending@.push(id));
                            assert(p.ending@.contains(c));
                        }
                    }
                }
            }
            assert forall|q: u64| self.has_point(q) implies self.point_spec(q).origin
                == pre.point_spec(q).origin && self.point_spec(q).connection_point_offset == pre.point_spec(q).connection_point_offset
                && self.point_spec(q).index == pre.point_spec(q).index by {
                assert(pre.has_point(q));
            }
        }
        Ok(id)
    }

    pub open(crate) spec fn cable_count(self) -> nat {
        self.cables@.len()
    }

    /// The canonical cable leaving the end point of cable `c`: the first one
    /// in that point's index of starting cables.
    pub open(crate) spec fn next_cable(self, c: u64) -> Option<u64> {
        let s = self.starting_index(self.cable_spec(c).end);
        if s.len() == 0 {
            None
        } else {
            Some(s[0])
        }
    }

    /// The canonical cable arriving at the start point of cable `c`: the first
    /// one in that point's index of ending cables.
    pub open(crate) spec fn prev_cable(self, c: u64) -> Option<u64> {
        let s = self.ending_index(self.cable_spec(c).start);
        if s.len() == 0 {
            None
        } else {
            Some(s[0])
        }
    }

    /// The stored indexes hold exactly the cables that start (end) at `p`.
    pub(crate) proof fn lemma_index_matches(self, p: u64)
        requires
            self.wf(),
        ensures
            increasing(self.starting_index(p)),
            increasing(self.ending_index(p)),
            forall|c: u64| #[trigger]
                self.starting_index(p).contains(c) <==> self.starting_at(p).contains(c),
            forall|c: u64| #[trigger]
                self.ending_index(p).contains(c) <==> self.ending_at(p).contains(c),
    {
        if self.has_point(p) {
            let i = self.point_index(p);
            self.lemma_point_lookup(i);
            assert(self.index_wf(i));
            assert forall|c: u64| #[trigger]
                self.starting_index(p).contains(c) <==> self.starting_at(p).contains(c) by {
                if self.starting_index(p).contains(c) {
                    let j = choose|j: int|
                        0 <= j < self.cables.len() && self.cables@[j].id == c
                            && self.cables@[j].start == p;
                    self.lemma_cable_lookup(j);
                }
                if self.starting_at(p).contains(c) {
                    let j = self.cable_index(c);
                    self.lemma_cable_lookup(j);
                }
            }
            assert forall|c: u64| #[trigger]
                self.ending_index(p).contains(c) <==> self.ending_at(p).contains(c) by {
                if self.ending_index(p).contains(c) {
                    let j = choose|j: int|
                        0 <= j < self.cables.len() && self.cables@[j].id == c
                            && self.cables@[j].end == p;
                    self.lemma_cable_lookup(j);
                }
                if self.ending_at(p).contains(c) {
                    let j = self.cable_index(c);
                    self.lemma_cable_lookup(j);
                }
            }
        } else {
            assert forall|c: u64| !#[trigger] self.starting_at(p).contains(c) by {
                if self.starting_at(p).contains(c) {
                    let j = self.cable_index(c);
                    self.lemma_cable_lookup(j);
                    assert(self.cable_ok(self.cables@[j]));
                }
            }
            assert forall|c: u64| !#[trigger] self.ending_at(p).contains(c) by {
                if self.ending_at(p).contains(c) {
                    let j = self.cable_index(c);
                    self.lemma_cable_lookup(j);
                    assert(self.cable_ok(self.cables@[j]));
                }
            }
        }
    }

    /// The canonical next cable is the lowest id among the cables starting
    /// at the end point, and there is one exactly when that set is not empty;
    /// likewise the previous cable among those ending at the start point.
    pub proof fn lemma_canonical_is_lowest(self, c: u64)
        requires
            self.wf(),
        ensures
            self.next_cable(c) is None <==> self.starting_at(self.cable_spec(c).end).is_empty(),
            self.next_cable(c) matches Some(n) ==> {
                &&& self.starting_at(self.cable_spec(c).end).contains(n)
                &&& forall|d: u64|
                    self.starting_at(self.cable_spec(c).end).contains(d) ==> n <= d
            },
            self.prev_cable(c) is None <==> self.ending_at(self.cable_spec(c).start).is_empty(),
            self.prev_cable(c) matches Some(n) ==> {
                &&& self.ending_at(self.cable_spec(c).start).contains(n)
                &&& forall|d: u64| self.ending_at(self.cable_spec(c).start).contains(d) ==> n <= d
            },
    {
        let e = self.cable_spec(c).end;
        let b = self.cable_spec(c).start;
        self.lemma_index_matches(e);
        self.lemma_index_matches(b);
        let s = self.starting_index(e);
        let t = self.ending_index(b);
        if s.len() > 0 {
            assert(s.contains(s[0]));
            assert forall|d: u64| self.starting_at(e).contains(d) implies s[0] <= d by {
                assert(s.contains(d));
                let k = choose|k: int| 0 <= k < s.len() && s[k] == d;
                if k > 0 {
                    assert(s[0] < s[k]);
                }
            }
        } else {
            assert forall|d: u64| !self.starting_at(e).contains(d) by {
                if self.starting_at(e).contains(d) {
                    assert(s.contains(d));
                }
            }
            assert(self.starting_at(e) =~= Set::<u64>::empty());
        }
        if t.len() > 0 {
            assert(t.contains(t[0]));
            assert forall|d: u64| self.ending_at(b).contains(d) implies t[0] <= d by {
                assert(t.contains(d));
                let k = choose|k: int| 0 <= k < t.len() && t[k] == d;
                if k > 0 {
                    assert(t[0] < t[k]);
                }
            }
        } else {
            assert forall|d: u64| !self.ending_at(b).contains(d) by {
                if self.ending_at(b).contains(d) {
                    assert(t.contains(d));
                }
            }
            assert(self.ending_at(b) =~= Set::<u64>::empty());
        }
    }

    /// Number of cables in the network.
    pub fn num_cables(&self) -> (r: usize)
        ensures
            r == self.cable_count(),
    {
        self.cables.len()
    }

    /// Whether a cable with this id exists.
    pub fn contains_cable(&self, id: u64) -> (r: bool)
        requires
            self.wf(),
        ensures
            r == self.has_cable(id),
    {
        self.find_cable(id).is_some()
    }

    /// Whether a connection point with this id exists.
    pub fn contains_point(&self, id: u64) -> (r: bool)
        requires
            self.wf(),
        ensures
            r == self.has_point(id),
    {
        self.find_point(id).is_some()
    }

    /// The canonical cable leaving the end point of cable `c`.
    pub fn next_cable_of(&self, c: u64) -> (r: Option<u64>)
        requires
            self.wf(),
            self.has_cable(c),
        ensures
            r == self.next_cable(c),
            r matches Some(n) ==> self.has_cable(n),
    {
        let j = self.find_cable(c).unwrap();
        proof {
            self.lemma_cable_lookup(j as int);
        }
        let e = self.cables[j].end;
        proof {
            assert(self.cable_ok(self.cables@[j as int]));
        }
        let i = self.find_point(e).unwrap();
        proof {
            self.lemma_point_lookup(i as int);
            self.lemma_index_matches(e);
        }
        if self.points[i].starting.len() == 0 {
            None
        } else {
            proof {
                assert(self.starting_index(e).contains(self.starting_index(e)[0]));
            }
            Some(self.points[i].starting[0])
        }
    }

    /// The canonical cable arriving at the start point of cable `c`.
    pub fn prev_cable_of(&self, c: u64) -> (r: Option<u64>)
        requires
            self.wf(),
            self.has_cable(c),
        ensures
            r == self.prev_cable(c),
            r matches Some(n) ==> self.has_cable(n),
    {
        let j = self.find_cable(c).unwrap();
        proof {
            self.lemma_cable_lookup(j as int);
        }
        let b = self.cables[j].start;
        proof {
            assert(self.cable_ok(self.cables@[j as int]));
        }
        let i = self.find_point(b).unwrap();
        proof {
            self.lemma_point_lookup(i as int);
            self.lemma_index_matches(b);
        }
        if self.points[i].ending.len() == 0 {
            None
        } else {
            proof {
                assert(self.ending_index(b).contains(self.ending_index(b)[0]));
            }
            Some(self.points[i].ending[0])
        }
    }

    /// Removes connection point `p` and, with it, every cable that starts or
    /// ends there; returns the ids of those cables in increasing order.
    /// Nothing changes where there is no such point.
    #[verifier::rlimit(60)]
    pub fn remove_point(&mut self, p: u64) -> (removed: Vec<u64>)
        requires
            old(self).wf(),
        ensures
            final(self).wf(),
            final(self).next_point_id() == old(self).next_point_id(),
            final(self).next_cable_id() == old(self).next_cable_id(),
            final(self).point_ids() == old(self).point_ids().remove(p),
            forall|q: u64|
                final(self).has_point(q) ==> {
                    &&& final(self).point_spec(q).origin == old(self).point_spec(q).origin
                    &&& final(self).point_spec(q).connection_point_offset == old(self).point_spec(q).connection_point_offset
                    &&& final(self).point_spec(q).index == old(self).point_spec(q).index
                },
            forall|c: u64|
                final(self).has_cable(c) <==> old(self).has_cable(c) && detached(
                    old(self).cable_spec(c),
                    p,
                ),
            forall|c: u64|
                final(self).has_cable(c) ==> final(self).cable_spec(c) == old(self).cable_spec(c),
            increasing(removed@),
            forall|c: u64|
                removed@.contains(c) <==> old(self).has_cable(c) && !detached(
                    old(self).cable_spec(c),
                    p,
                ),
            forall|c: u64, q: u64|
                removed@.contains(c) ==> !final(self).starting_index(q).contains(c)
                    && !final(self).ending_index(q).contains(c),
    {
        let ghost pre = *self;
        // keep the cables that do not touch `p`
        let mut rest: Vec<Cable<P, H>> = Vec::new();
        core::mem::swap(&mut self.cables, &mut rest);
        let mut removed: Vec<u64> = Vec::new();
        let ghost mut src: Seq<int> = Seq::empty();
        let ghost mut k: int = 0;
        while rest.len() > 0
            invariant
                pre.wf(),
                0 <= k <= pre.cables.len(),
                rest@ == pre.cables@.skip(k),
                self.points == pre.points,
                self.next_point == pre.next_point,
                self.next_cable == pre.next_cable,
                self.cables.len() == src.len(),
                forall|a: int|
                    0 <= a < src.len() ==> 0 <= #[trigger] src[a] < k && self.cables@[a]
                        == pre.cables@[src[a]] && detached(pre.cables@[src[a]], p),
                forall|a: int, b: int| 0 <= a < b < src.len() ==> src[a] < src[b],
                forall|m: int|
                    0 <= m < k && detached(#[trigger] pre.cables@[m], p) ==> exists|a: int|
                        0 <= a < src.len() && src[a] == m,
                increasing(removed@),
                forall|x: u64|
                    removed@.contains(x) <==> exists|m: int|
                        0 <= m < k && pre.cables@[m].id == x && !detached(pre.cables@[m], p),
            decreases rest.len(),
        {
            let c = rest.remove(0);
            assert(c == pre.cables@[k]);
            if c.start != p && c.end != p {
                let ghost src0 = src;
                proof {
                    src = src.push(k);
                }
                self.cables.push(c);
                proof {
                    assert forall|m: int|
                        0 <= m < k + 1 && detached(#[trigger] pre.cables@[m], p) implies exists|a: int|
                        0 <= a < src.len() && src[a] == m by {
                        if m == k {
                            assert(src[src.len() - 1] == m);
                        } else {
                            let a = choose|a: int| 0 <= a < src0.len() && src0[a] == m;
                            assert(src[a] == m);
                        }
                    }
                    assert forall|x: u64| removed@.contains(x) <==> exists|m: int|
                        0 <= m < k + 1 && pre.cables@[m].id == x && !detached(pre.cables@[m], p) by {
                        if exists|m: int|
                            0 <= m < k + 1 && pre.cables@[m].id == x && !detached(
                                pre.cables@[m],
                                p,
                            ) {
                            let m = choose|m: int|
                                0 <= m < k + 1 && pre.cables@[m].id == x && !detached(
                                    pre.cables@[m],
                                    p,
                                );
                            assert(m < k);
                        }
                    }
                }
            } else {
                proof {
                    assert forall|x: u64| removed@.contains(x) implies x < c.id by {
                        let m = choose|m: int|
                            0 <= m < k && pre.cables@[m].id == x && !detached(pre.cables@[m], p);
                    }
                    lemma_push_increasing(removed@, c.id);
                }
                let ghost r0 = removed@;
                removed.push(c.id);
                proof {
                    assert forall|x: u64| removed@.contains(x) <==> exists|m: int|
                        0 <= m < k + 1 && pre.cables@[m].id == x && !detached(pre.cables@[m], p) by {
                        if x == c.id {
                            assert(pre.cables@[k].id == x);
                        }
                        if exists|m: int|
                            0 <= m < k + 1 && pre.cables@[m].id == x && !detached(
                                pre.cables@[m],
                                p,
                            ) {
                            let m = choose|m: int|
                                0 <= m < k + 1 && pre.cables@[m].id == x && !detached(
                                    pre.cables@[m],
                                    p,
                                );
                            if m < k {
                                assert(r0.contains(x));
                            }
                        }
                    }
                }
            }
            proof {
                k = k + 1;
                assert(rest@ =~= pre.cables@.skip(k));
            }
        }
        let ghost mid = *self;
        // drop the point itself
        let mut rest_points: Vec<CableConnection<P>> = Vec::new();
        core::mem::swap(&mut self.points, &mut rest_points);
        let ghost mut psrc: Seq<int> = Seq::empty();
        let ghost mut kp: int = 0;
        while rest_points.len() > 0
            invariant
                0 <= kp <= pre.points.len(),
                rest_points@ == pre.points@.skip(kp),
                self.cables == mid.cables,
                self.next_point == pre.next_point,
                self.next_cable == pre.next_cable,
                self.points.len() == psrc.len(),
                forall|a: int|
                    0 <= a < psrc.len() ==> 0 <= #[trigger] psrc[a] < kp && self.points@[a]
                        == pre.points@[psrc[a]] && pre.points@[psrc[a]].id != p,
                forall|a: int, b: int| 0 <= a < b < psrc.len() ==> psrc[a] < psrc[b],
                forall|m: int|
                    0 <= m < kp && (#[trigger] pre.points@[m]).id != p ==> exists|a: int|
                        0 <= a < psrc.len() && psrc[a] == m,
            decreases rest_points.len(),
        {
            let q = rest_points.remove(0);
            assert(q == pre.points@[kp]);
            if q.id != p {
                let ghost psrc0 = psrc;
                proof {
                    psrc = psrc.push(kp);
                }
                self.points.push(q);
                proof {
                    assert forall|m: int|
                        0 <= m < kp + 1 && (#[trigger] pre.points@[m]).id != p implies exists|a: int|
                        0 <= a < psrc.len() && psrc[a] == m by {
                        if m == kp {
                            assert(psrc[psrc.len() - 1] == m);
                        } else {
                            let a = choose|a: int| 0 <= a < psrc0.len() && psrc0[a] == m;
                            assert(psrc[a] == m);
                        }
                    }
                }
            }
            proof {
                kp = kp + 1;
                assert(rest_points@ =~= pre.points@.skip(kp));
            }
        }
        let ghost mid2 = *self;
        proof {
            assert forall|a: int, b: int|
                0 <= a < b < self.cables.len() implies self.cables@[a].id < self.cables@[b].id by {
                assert(src[a] < src[b]);
            }
        }
        // rebuild both indexes of every remaining point
        let mut i: usize = 0;
        while i < self.points.len()
            invariant
                self.cables == mid2.cables,
                self.points.len() == mid2.points.len(),
                self.next_point == pre.next_point,
                self.next_cable == pre.next_cable,
                forall|a: int, b: int|
                    0 <= a < b < self.cables.len() ==> self.cables@[a].id < self.cables@[b].id,
                forall|j: int|
                    0 <= j < self.points.len() ==> {
                        &&& (#[trigger] self.points@[j]).id == mid2.points@[j].id
                        &&& self.points@[j].origin == mid2.points@[j].origin
                        &&& self.points@[j].connection_point_offset == mid2.points@[j].connection_point_offset
                        &&& self.points@[j].index == mid2.points@[j].index
                    },
                forall|j: int| 0 <= j < i ==> #[trigger] self.index_wf(j),
            decreases self.points.len() - i,
        {
            let pid = self.points[i].id;
            let s = ids_at(&self.cables, pid, true);
            let e = ids_at(&self.cables, pid, false);
            let ghost before = *self;
            self.points[i].starting = s;
            self.points[i].ending = e;
            proof {
                assert forall|j: int| 0 <= j < i + 1 implies #[trigger] self.index_wf(j) by {
                    if j < i {
                        assert(before.index_wf(j));
                        assert(self.points@[j] == before.points@[j]);
                    }
                }
            }
            i += 1;
        }
        proof {
            // the remaining points
            assert forall|a: int, b: int| 0 <= a < b < self.points.len() implies self.points@[a].id
                < self.points@[b].id by {
                assert(psrc[a] < psrc[b]);
                assert(self.points@[a].id == pre.points@[psrc[a]].id);
                assert(self.points@[b].id == pre.points@[psrc[b]].id);
            }
            assert forall|a: int| 0 <= a < self.points.len() implies self.points@[a].id
                < self.next_point by {
                assert(self.points@[a].id == pre.points@[psrc[a]].id);
            }
            assert forall|j: int| 0 <= j < self.cables.len() implies self.cables@[j].id
                < self.next_cable by {
                assert(self.cables@[j] == pre.cables@[src[j]]);
            }
            assert(self.ids_wf());
            assert forall|q: u64| self.has_point(q) <==> pre.has_point(q) && q != p by {
                if self.has_point(q) {
                    let a = self.point_index(q);
                    assert(self.points@[a].id == pre.points@[psrc[a]].id);
                }
                if pre.has_point(q) && q != p {
                    let m = pre.point_index(q);
                    assert(pre.points@[m].id != p);
                    let a = choose|a: int| 0 <= a < psrc.len() && psrc[a] == m;
                    assert(self.points@[a].id == q);
                }
            }
            assert(self.point_ids() =~= pre.point_ids().remove(p));
            assert forall|q: u64| self.has_point(q) implies {
                &&& self.point_spec(q).origin == pre.point_spec(q).origin
                &&& self.point_spec(q).connection_point_offset == pre.point_spec(q).connection_point_offset
                &&& self.point_spec(q).index == pre.point_spec(q).index
            } by {
                let a = self.point_index(q);
                self.lemma_point_lookup(a);
                pre.lemma_point_lookup(psrc[a]);
            }
            // the remaining cables
            assert forall|c: u64| self.has_cable(c) implies pre.has_cable(c) && detached(
                pre.cable_spec(c),
                p,
            ) && self.cable_spec(c) == pre.cable_spec(c) by {
                let j = self.cable_index(c);
                self.lemma_cable_lookup(j);
                assert(self.cables@[j] == pre.cables@[src[j]]);
                pre.lemma_cable_lookup(src[j]);
            }
            assert forall|c: u64| pre.has_cable(c) && detached(pre.cable_spec(c), p) implies self.has_cable(c) by {
                let m = pre.cable_index(c);
                pre.lemma_cable_lookup(m);
                assert(detached(pre.cables@[m], p));
                let a = choose|a: int| 0 <= a < src.len() && src[a] == m;
                assert(self.cables@[a].id == c);
            }
            assert forall|j: int| 0 <= j < self.cables.len() implies self.cable_ok(
                #[trigger] self.cables@[j],
            ) by {
                let c = self.cables@[j];
                assert(c == pre.cables@[src[j]]);
                assert(pre.cable_ok(pre.cables@[src[j]]));
                assert(pre.has_point(c.start) && c.start != p);
                assert(pre.has_point(c.end) && c.end != p);
            }
            assert(self.wf());
            assert forall|c: u64| removed@.contains(c) <==> pre.has_cable(c) && !detached(
                pre.cable_spec(c),
                p,
            ) by {
                if removed@.contains(c) {
                    let m = choose|m: int|
                        0 <= m < pre.cables.len() && pre.cables@[m].id == c && !detached(
                            pre.cables@[m],
                            p,
                        );
                    pre.lemma_cable_lookup(m);
                }
                if pre.has_cable(c) && !detached(pre.cable_spec(c), p) {
                    let m = pre.cable_index(c);
                    pre.lemma_cable_lookup(m);
                }
            }
            assert forall|c: u64, q: u64| removed@.contains(c) implies !self.starting_index(
                q,
            ).contains(c) && !self.ending_index(q).contains(c) by {
                self.lemma_index_matches(q);
            }
        }
        removed
    }

    /// Registers an ungenerated cable from `start` to `end` with the default
    /// number of segments.
    pub fn spawn_cable(&mut self, start: u64, end: u64, hang: H) -> (r: Result<u64, CableError>)
        requires
            old(self).wf(),
            old(self).has_room_for_cable(),
        ensures
            final(self).wf(),
            r is Err <==> !(old(self).has_point(start) && old(self).has_point(end)),
            r is Err ==> r == Err::<u64, CableError>(CableError::UnresolvedEndpoint),
            r is Err ==> *final(self) == *old(self),
            r matches Ok(id) ==> {
                &&& !old(self).has_cable(id)
                &&& id == old(self).next_cable_id()
                &&& final(self).next_cable_id() == id + 1
                &&& final(self).cable_ids() == old(self).cable_ids().insert(id)
                &&& final(self).cable_spec(id).id == id
                &&& final(self).cable_spec(id).start == start
                &&& final(self).cable_spec(id).end == end
                &&& final(self).cable_spec(id).hang == hang
                &&& final(self).cable_spec(id).segment_count == DEFAULT_SEGMENT_COUNT
                &&& !final(self).cable_spec(id).generated
                &&& final(self).cable_spec(id).segments@.len() == 0
            },
            forall|c: u64|
                final(self).has_cable(c) <==> old(self).has_cable(c) || r == Ok::<u64, CableError>(
                    c,
                ),
            forall|c: u64|
                old(self).has_cable(c) ==> final(self).cable_spec(c) == old(self).cable_spec(c),
            forall|q: u64| final(self).has_point(q) == old(self).has_point(q),
            final(self).next_point_id() == old(self).next_point_id(),
            final(self).points_agree(*old(self)),
    {
        self.create_cable(start, end, hang, DEFAULT_SEGMENT_COUNT)
    }

    /// The connection point with this id.
    pub fn point(&self, id: u64) -> (r: Option<&CableConnection<P>>)
        requires
            self.wf(),
        ensures
            r is None <==> !self.has_point(id),
            r matches Some(q) ==> *q == self.point_spec(id),
    {
        match self.find_point(id) {
            Some(i) => Some(&self.points[i]),
            None => None,
        }
    }

    /// The cable with this id.
    pub fn cable(&self, id: u64) -> (r: Option<&Cable<P, H>>)
        requires
            self.wf(),
        ensures
            r is None <==> !self.has_cable(id),
            r matches Some(c) ==> *c == self.cable_spec(id),
    {
        match self.find_cable(id) {
            Some(j) => Some(&self.cables[j]),
            None => None,
        }
    }

    /// The cached samples of a generated cable; `None` for a cable that does
    /// not exist or is not generated yet.
    pub fn generated_geometry(&self, id: u64) -> (r: Option<&Vec<P>>)
        requires
            self.wf(),
        ensures
            r is Some <==> self.has_cable(id) && self.cable_spec(id).generated,
            r matches Some(v) ==> v@ == self.cable_spec(id).segments@,
    {
        match self.find_cable(id) {
            Some(j) => {
                if self.cables[j].generated {
                    Some(&self.cables[j].segments)
                } else {
                    None
                }
            },
            None => None,
        }
    }

    /// Ids of the cables starting at point `p`, in increasing order (empty
    /// where there is no such point).
    pub fn cables_starting_at(&self, p: u64) -> (r: Vec<u64>)
        requires
            self.wf(),
        ensures
            r@ == self.starting_index(p),
            increasing(r@),
            forall|c: u64| r@.contains(c) <==> self.starting_at(p).contains(c),
    {
        proof {
            self.lemma_index_matches(p);
        }
        match self.find_point(p) {
            Some(i) => self.points[i].starting.clone(),
            None => Vec::new(),
        }
    }

    /// Ids of the cables ending at point `p`, in increasing order (empty
    /// where there is no such point).
    pub fn cables_ending_at(&self, p: u64) -> (r: Vec<u64>)
        requires
            self.wf(),
        ensures
            r@ == self.ending_index(p),
            increasing(r@),
            forall|c: u64| r@.contains(c) <==> self.ending_at(p).contains(c),
    {
        proof {
            self.lemma_index_matches(p);
        }
        match self.find_point(p) {
            Some(i) => self.points[i].ending.clone(),
            None => Vec::new(),
        }
    }

    /// Whether `n` more cables can still be given fresh ids.
    pub open(crate) spec fn has_room_for_cables(self, n: nat) -> bool {
        self.next_cable_id() + n <= u64::MAX
    }

    /// Whether `n` more cables can still be created.
    pub fn room_for_cables(&self, n: usize) -> (r: bool)
        ensures
            r == self.has_room_for_cables(n as nat),
    {
        n as u64 <= u64::MAX - self.next_cable
    }

}

} // verus!
