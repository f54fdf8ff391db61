//! The traversal engine: sparks that move along the cable network and cross
//! junctions when they run past either end of their cable.

use vstd::prelude::*;

use crate::network::{CableError, Network};

verus! {

/// Fixed-point scale of positions along a cable: `0` is the start point and
/// `UNIT` the end point of the cable a spark is bound to.
pub const UNIT: i64 = 1_000_000;

/// A traveller moving along the cable network.
#[derive(Clone, Copy, Debug, PartialEq, Eq, Structural)]
pub struct Spark {
    /// The cable the spark is bound to.
    pub cable: u64,
    /// Speed, in `UNIT`s per second.
    pub speed: i64,
    /// Position on `cable`, from `0` to `UNIT` after every step.
    pub dist_along: i64,
}

/// Where a step that reaches position `pos` on `cable` ends, with at most
/// `hops` junction crossings: past the end the spark moves onto the
/// canonical next cable, before the start onto the canonical previous one,
/// and where there is none it stops at that end of its cable.
pub open spec fn walk<P, H>(net: Network<P, H>, cable: u64, pos: int, hops: nat) -> Result<
    (u64, int),
    CableError,
>
    decreases hops,
{
    if 0 <= pos <= UNIT {
        Ok((cable, pos))
    } else if pos > UNIT {
        match net.next_cable(cable) {
            None => Ok((cable, UNIT as int)),
            Some(n) => if hops == 0 {
                Err(CableError::TraversalCycle)
            } else {
                walk(net, n, pos - UNIT, (hops - 1) as nat)
            },
        }
    } else {
        match net.prev_cable(cable) {
            None => Ok((cable, 0)),
            Some(n) => if hops == 0 {
                Err(CableError::TraversalCycle)
            } else {
                walk(net, n, pos + UNIT, (hops - 1) as nat)
            },
        }
    }
}

/// The outcome of moving a spark bound to `cable` at `dist_along` by `delta`:
/// a step may cross as many junctions as the network has cables.
pub open spec fn step<P, H>(net: Network<P, H>, cable: u64, dist_along: int, delta: int) -> Result<
    (u64, int),
    CableError,
> {
    walk(net, cable, dist_along + delta, net.cable_count())
}

impl Spark {
    pub fn new(start_cable: u64, speed: i64) -> (r: Spark)
        ensures
            r.cable == start_cable,
            r.speed == speed,
            r.dist_along == 0,
    {
        Spark { cable: start_cable, speed, dist_along: 0 }
    }

    /// Moves the spark by `delta` along the network.
    ///
    /// On `Err(TraversalCycle)` the spark keeps its last good state.
    pub fn advance<P, H>(&mut self, net: &Network<P, H>, delta: i64) -> (r: Result<(), CableError>)
        requires
            net.wf(),
            net.has_cable(old(self).cable),
        ensures
            r is Ok <==> step(*net, old(self).cable, old(self).dist_along as int, delta as int) is Ok,
            step(*net, old(self).cable, old(self).dist_along as int, delta as int) matches Ok(
                (c, p),
            ) ==> final(self).cable == c && final(self).dist_along == p && final(self).speed
                == old(self).speed,
            r is Err ==> r == Err::<(), CableError>(CableError::TraversalCycle) && *final(self)
                == *old(self),
            r is Ok ==> net.has_cable(final(self).cable) && 0 <= final(self).dist_along <= UNIT,
    {
        let ghost target = step(*net, self.cable, self.dist_along as int, delta as int);
        let mut cable = self.cable;
        let mut pos: i128 = self.dist_along as i128 + delta as i128;
        let mut hops: usize = net.num_cables();
        let big: i128 = 0x1_0000_0000_0000_0000;
        loop
            invariant
                net.wf(),
                net.has_cable(cable),
                -big <= pos <= big,
                big == 0x1_0000_0000_0000_0000,
                walk(*net, cable, pos as int, hops as nat) == target,
                target == step(*net, old(self).cable, old(self).dist_along as int, delta as int),
                *self == *old(self),
            ensures
                0 <= pos <= UNIT,
            decreases hops,
        {
            if 0 <= pos && pos <= UNIT as i128 {
                break ;
            }
            if pos > UNIT as i128 {
                match net.next_cable_of(cable) {
                    None => {
                        pos = UNIT as i128;
                        break ;
                    },
                    Some(n) => {
                        if hops == 0 {
                            return Err(CableError::TraversalCycle);
                        }
                        cable = n;
                        pos = pos - UNIT as i128;
                        hops = hops - 1;
                    },
                }
            } else {
                match net.prev_cable_of(cable) {
                    None => {
                        pos = 0;
                        break ;
                    },
                    Some(n) => {
                        if hops == 0 {
                            return Err(CableError::TraversalCycle);
                        }
                        cable = n;
                        pos = pos + UNIT as i128;
                        hops = hops - 1;
                    },
                }
            }
        }
        self.cable = cable;
        self.dist_along = pos as i64;
        Ok(())
    }
}

/// A step that stays within the cable (the position reached is neither
/// before its start nor past its end) keeps the spark on the same cable and
/// moves it by exactly `delta`.
pub proof fn lemma_step_within_cable<P, H>(
    net: Network<P, H>,
    cable: u64,
    dist_along: int,
    delta: int,
)
    requires
        0 <= dist_along + delta <= UNIT,
    ensures
        step(net, cable, dist_along, delta) == Ok::<(u64, int), CableError>(
            (cable, dist_along + delta),
        ),
{
}

/// A spark that overshoots the end of cable `a` by less than one cable
/// length, where `b` is the only cable starting at `a`'s end point, ends on
/// `b` with the overshoot as its position.
pub proof fn lemma_junction_crossing<P, H>(net: Network<P, H>, a: u64, b: u64, dist_along: int, delta: int)
    requires
        net.wf(),
        net.has_cable(a),
        net.starting_at(net.cable_spec(a).end) == set![b],
        UNIT < dist_along + delta <= 2 * UNIT,
    ensures
        step(net, a, dist_along, delta) == Ok::<(u64, int), CableError>(
            (b, dist_along + delta - UNIT),
        ),
{
    let e = net.cable_spec(a).end;
    net.lemma_index_matches(e);
    let s = net.starting_index(e);
    assert(s.contains(b));
    assert(s.len() >= 1);
    if s.len() > 1 {
        assert(s.contains(s[1]));
        assert(s.contains(s[0]));
        assert(s[0] < s[1]);
    }
    assert(s[0] == b) by {
        assert(s.contains(s[0]));
    }
    assert(net.next_cable(a) == Some(b));
    let j = net.cable_index(a);
    assert(net.cable_count() >= 1);
    let hops = net.cable_count();
    assert(walk(net, b, dist_along + delta - UNIT, (hops - 1) as nat) == Ok::<(u64, int), CableError>(
        (b, dist_along + delta - UNIT),
    ));
}

/// A spark that overshoots the end of a cable whose end point has no
/// outgoing cables stops exactly at the end of that cable.
pub proof fn lemma_end_of_line<P, H>(net: Network<P, H>, a: u64, dist_along: int, delta: int)
    requires
        net.wf(),
        net.starting_at(net.cable_spec(a).end).is_empty(),
        dist_along + delta > UNIT,
    ensures
        step(net, a, dist_along, delta) == Ok::<(u64, int), CableError>((a, UNIT as int)),
{
    net.lemma_canonical_is_lowest(a);
}

/// A spark that undershoots the start of a cable whose start point has no
/// incoming cables stops exactly at the start of that cable.
pub proof fn lemma_start_of_line<P, H>(net: Network<P, H>, a: u64, dist_along: int, delta: int)
    requires
        net.wf(),
        net.ending_at(net.cable_spec(a).start).is_empty(),
        dist_along + delta < 0,
    ensures
        step(net, a, dist_along, delta) == Ok::<(u64, int), CableError>((a, 0)),
{
    net.lemma_canonical_is_lowest(a);
}

/// The two cached samples around position `dist_along` on a cable with
/// `segment_count` segments: `dist_along * segment_count / UNIT` is the
/// fractional sample index, `lo` and `hi` its floor and ceiling, and
/// `frac / UNIT` its fractional part.
pub fn sample_bracket(dist_along: i64, segment_count: usize) -> (r: (usize, usize, i64))
    requires
        0 <= dist_along <= UNIT,
    ensures
        ({
            let (lo, hi, frac) = r;
            &&& lo as int * UNIT + frac == dist_along * segment_count
            &&& 0 <= frac < UNIT
            &&& hi == if frac == 0 {
                lo as int
            } else {
                lo + 1
            }
            &&& lo <= hi <= segment_count
        }),
{
    proof {
        assert(dist_along as u128 * segment_count as u128 <= UNIT * usize::MAX) by (nonlinear_arith)
            requires
                0 <= dist_along <= UNIT,
                segment_count <= usize::MAX,
        ;
    }
    let scaled: u128 = dist_along as u128 * segment_count as u128;
    let lo: u128 = scaled / UNIT as u128;
    let frac: u128 = scaled % UNIT as u128;
    proof {
        assert(scaled <= UNIT * segment_count) by (nonlinear_arith)
            requires
                scaled == dist_along * segment_count,
                0 <= dist_along <= UNIT,
                segment_count >= 0,
        ;
        assert(lo <= segment_count) by (nonlinear_arith)
            requires
                lo == scaled as int / (UNIT as int),
                scaled <= UNIT * segment_count,
        ;
        assert(lo * UNIT + frac == scaled) by (nonlinear_arith)
            requires
                lo == scaled as int / (UNIT as int),
                frac == scaled as int % (UNIT as int),
        ;
        if frac != 0 {
            assert(lo < segment_count) by (nonlinear_arith)
                requires
                    lo * UNIT + frac == scaled,
                    scaled <= UNIT * segment_count,
                    frac > 0,
            ;
        }
    }
    let lo = lo as usize;
    let hi = if frac == 0 {
        lo
    } else {
        lo + 1
    };
    (lo, hi, frac as i64)
}

} // verus!
