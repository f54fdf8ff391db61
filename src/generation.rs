//! Generation of a cable's cached geometry: a one-time transition, guarded
//! by the cable's flag, from the curve solver's samples to the cache.

use vstd::prelude::*;

use crate::network::{increasing, lemma_push_increasing, CableError, Network};

verus! {

/// Every sample is defined.
pub open spec fn all_some<P>(s: Seq<Option<P>>) -> bool {
    forall|k: int| 0 <= k < s.len() ==> s[k] is Some
}

/// The defined samples' values.
pub open spec fn unwrap_all<P>(s: Seq<Option<P>>) -> Seq<P> {
    s.map_values(|o: Option<P>| o->0)
}

impl<P, H> Network<P, H> {
    /// Everything but cable `c`'s flag and samples is the same in both networks.
    pub open(crate) spec fn same_but_samples(self, other: Self, c: u64) -> bool {
        &&& self.cable_ids() == other.cable_ids()
        &&& self.point_ids() == other.point_ids()
        &&& self.next_point_id() == other.next_point_id()
        &&& self.next_cable_id() == other.next_cable_id()
        &&& forall|q: u64| other.has_point(q) ==> self.point_spec(q) == other.point_spec(q)
        &&& forall|d: u64| d != c && other.has_cable(d) ==> self.cable_spec(d) == other.cable_spec(d)
        &&& self.cable_spec(c).id == other.cable_spec(c).id
        &&& self.cable_spec(c).start == other.cable_spec(c).start
        &&& self.cable_spec(c).end == other.cable_spec(c).end
        &&& self.cable_spec(c).hang == other.cable_spec(c).hang
        &&& self.cable_spec(c).segment_count == other.cable_spec(c).segment_count
    }

    /// What `generate(c, samples)` does to the network `pre`, giving `post`
    /// and the result `r`.
    pub open(crate) spec fn generate_post(
        pre: Self,
        post: Self,
        c: u64,
        samples: Seq<Option<P>>,
        r: Result<(), CableError>,
    ) -> bool {
        if !pre.has_cable(c) {
            r == Err::<(), CableError>(CableError::UnresolvedEndpoint) && post == pre
        } else if pre.cable_spec(c).generated {
            r == Ok::<(), CableError>(()) && post == pre
        } else if !all_some(samples) {
            r == Err::<(), CableError>(CableError::DegenerateCurve) && post == pre
        } else {
            &&& r == Ok::<(), CableError>(())
            &&& post.same_but_samples(pre, c)
            &&& post.cable_spec(c).generated
            &&& post.cable_spec(c).segments@ == unwrap_all(samples)
        }
    }

    /// Generates cable `c` from its solved samples (`None` where the curve
    /// solver gave no position), taken at `t = k / segment_count` for `k`
    /// from `0` to `segment_count`.
    ///
    /// A cable that no longer exists gives `UnresolvedEndpoint`, an undefined
    /// sample `DegenerateCurve` (the cable stays ungenerated), and a cable
    /// that was already generated is left as it is.
    pub fn generate(&mut self, c: u64, samples: Vec<Option<P>>) -> (r: Result<(), CableError>)
        requires
            old(self).wf(),
            old(self).has_cable(c) && !old(self).cable_spec(c).generated ==> samples@.len()
                == old(self).cable_spec(c).segment_count + 1,
        ensures
            final(self).wf(),
            Self::generate_post(*old(self), *final(self), c, samples@, r),
    {
        let j = match self.find_cable(c) {
            Some(j) => j,
            None => return Err(CableError::UnresolvedEndpoint),
        };
        if self.cables[j].generated {
            return Ok(());
        }
        proof {
            self.lemma_cable_lookup(j as int);
        }
        let mut k: usize = 0;
        while k < samples.len()
            invariant
                self.wf(),
                self.has_cable(c),
                !self.cable_spec(c).generated,
                *self == *old(self),
                k <= samples.len(),
                forall|m: int| 0 <= m < k ==> samples@[m] is Some,
            decreases samples.len() - k,
        {
            if samples[k].is_none() {
                return Err(CableError::DegenerateCurve);
            }
            k += 1;
        }
        let ghost all = samples@;
        let mut rest = samples;
        let mut out: Vec<P> = Vec::new();
        while rest.len() > 0
            invariant
                all_some(all),
                out@.len() + rest@.len() == all.len(),
                out@ == unwrap_all(all).take(out@.len() as int),
                rest@ == all.skip(out@.len() as int),
            decreases rest.len(),
        {
            let x = rest.remove(0);
            let ghost n = out@.len() as int;
            assert(x == all[n]);
            match x {
                Some(p) => out.push(p),
                None => {},
            }
            assert(out@ =~= unwrap_all(all).take(n + 1));
            assert(rest@ =~= all.skip(n + 1));
        }
        assert(out@ =~= unwrap_all(all));
        let ghost pre = *self;
        self.cables[j].segments = out;
        self.cables[j].generated = true;
        proof {
            let jj = j as int;
            pre.lemma_cable_lookup(jj);
            assert forall|m: int| 0 <= m < self.cables.len() && m != jj implies self.cables@[m]
                == pre.cables@[m] by {}
            assert(self.ids_wf());
            assert forall|q: u64| #[trigger] self.has_point(q) == pre.has_point(q) by {}
            assert forall|q: u64| pre.has_point(q) implies self.point_spec(q) == pre.point_spec(q) by {}
            assert(self.point_ids() =~= pre.point_ids());
            assert forall|d: u64| #[trigger] self.has_cable(d) == pre.has_cable(d) by {
                if pre.has_cable(d) {
                    let m = pre.cable_index(d);
                    assert(self.cables@[m].id == d);
                }
                if self.has_cable(d) {
                    let m = self.cable_index(d);
                    assert(pre.cables@[m].id == d);
                }
            }
            assert(self.cable_ids() =~= pre.cable_ids());
            self.lemma_cable_lookup(jj);
            assert forall|d: u64| d != c && pre.has_cable(d) implies self.cable_spec(d)
                == pre.cable_spec(d) by {
                let m = pre.cable_index(d);
                pre.lemma_cable_lookup(m);
                self.lemma_cable_lookup(m);
            }
            assert forall|m: int| 0 <= m < self.cables.len() implies self.cable_ok(
                #[trigger] self.cables@[m],
            ) by {
                assert(pre.cable_ok(pre.cables@[m]));
            }
            assert forall|i: int| 0 <= i < self.points.len() implies #[trigger] self.index_wf(i) by {
                assert(pre.index_wf(i));
                let p = self.points@[i];
                assert forall|x: u64| p.starting@.contains(x) <==> exists|m: int|
                    0 <= m < self.cables.len() && self.cables@[m].id == x && self.cables@[m].start
                        == p.id by {
                    if p.starting@.contains(x) {
                        let m = choose|m: int|
                            0 <= m < pre.cables.len() && pre.cables@[m].id == x
                                && pre.cables@[m].start == p.id;
                        assert(self.cables@[m].id == x);
                    }
                    if exists|m: int|
                        0 <= m < self.cables.len() && self.cables@[m].id == x
                            && self.cables@[m].start == p.id {
                        let m = choose|m: int|
                            0 <= m < self.cables.len() && self.cables@[m].id == x
                                && self.cables@[m].start == p.id;
                        assert(pre.cables@[m].id == x);
                    }
                }
                assert forall|x: u64| p.ending@.contains(x) <==> exists|m: int|
                    0 <= m < self.cables.len() && self.cables@[m].id == x && self.cables@[m].end
                        == p.id by {
                    if p.ending@.contains(x) {
                        let m = choose|m: int|
                            0 <= m < pre.cables.len() && pre.cables@[m].id == x
                                && pre.cables@[m].end == p.id;
                        assert(self.cables@[m].id == x);
                    }
                    if exists|m: int|
                        0 <= m < self.cables.len() && self.cables@[m].id == x
                            && self.cables@[m].end == p.id {
                        let m = choose|m: int|
                            0 <= m < self.cables.len() && self.cables@[m].id == x
                                && self.cables@[m].end == p.id;
                        assert(pre.cables@[m].id == x);
                    }
                }
            }
        }
        Ok(())
    }

    /// Generating a cable a second time, from any samples, changes nothing
    /// and succeeds: the cached samples stay those of the first call.
    pub proof fn lemma_generate_twice(
        n0: Self,
        n1: Self,
        n2: Self,
        c: u64,
        first: Seq<Option<P>>,
        second: Seq<Option<P>>,
        r1: Result<(), CableError>,
        r2: Result<(), CableError>,
    )
        requires
            Self::generate_post(n0, n1, c, first, r1),
            r1 is Ok,
            Self::generate_post(n1, n2, c, second, r2),
        ensures
            n2 == n1,
            r2 == Ok::<(), CableError>(()),
            n2.cable_spec(c).segments@ == n1.cable_spec(c).segments@,
    {
        if n0.cable_spec(c).generated {
        } else {
            assert(n1.cable_ids() == n0.cable_ids());
            assert(n0.cable_ids().contains(c));
            assert(n1.has_cable(c));
        }
    }

    /// Ids of the cables that are not generated yet, in creation order.
    pub fn pending_cables(&self) -> (r: Vec<u64>)
        requires
            self.wf(),
        ensures
            increasing(r@),
            forall|c: u64| r@.contains(c) <==> self.has_cable(c) && !self.cable_spec(c).generated,
    {
        let mut r: Vec<u64> = Vec::new();
        let mut j: usize = 0;
        while j < self.cables.len()
            invariant
                self.wf(),
                j <= self.cables.len(),
                increasing(r@),
                forall|c: u64|
                    r@.contains(c) <==> exists|m: int|
                        0 <= m < j && self.cables@[m].id == c && !self.cables@[m].generated,
            decreases self.cables.len() - j,
        {
            let c = &self.cables[j];
            if !c.generated {
                proof {
                    assert forall|x: u64| r@.contains(x) implies x < c.id by {
                        let m = choose|m: int|
                            0 <= m < j && self.cables@[m].id == x && !self.cables@[m].generated;
                    }
                    lemma_push_increasing(r@, c.id);
                }
                let ghost r0 = r@;
                r.push(c.id);
                proof {
                    assert forall|x: u64| r@.contains(x) <==> exists|m: int|
                        0 <= m < j + 1 && self.cables@[m].id == x && !self.cables@[m].generated by {
                        if x == c.id {
                            assert(self.cables@[j as int].id == x);
                        }
                        if exists|m: int|
                            0 <= m < j + 1 && self.cables@[m].id == x && !self.cables@[m].generated {
                            let m = choose|m: int|
                                0 <= m < j + 1 && self.cables@[m].id == x
                                    && !self.cables@[m].generated;
                            if m < j {
                                assert(r0.contains(x));
                            }
                        }
                    }
                }
            } else {
                proof {
                    assert forall|x: u64| r@.contains(x) <==> exists|m: int|
                        0 <= m < j + 1 && self.cables@[m].id == x && !self.cables@[m].generated by {
                        if exists|m: int|
                            0 <= m < j + 1 && self.cables@[m].id == x && !self.cables@[m].generated {
                            let m = choose|m: int|
                                0 <= m < j + 1 && self.cables@[m].id == x
                                    && !self.cables@[m].generated;
                            assert(m < j);
                        }
                    }
                }
            }
            j += 1;
        }
        proof {
            assert forall|c: u64| r@.contains(c) <==> self.has_cable(c) && !self.cable_spec(c).generated by {
                if r@.contains(c) {
                    let m = choose|m: int|
                        0 <= m < self.cables.len() && self.cables@[m].id == c
                            && !self.cables@[m].generated;
                    self.lemma_cable_lookup(m);
                }
                if self.has_cable(c) && !self.cable_spec(c).generated {
                    let m = self.cable_index(c);
                    self.lemma_cable_lookup(m);
                }
            }
        }
        r
    }
}

} // verus!
