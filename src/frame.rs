//! One frame of the simulation: attraction and detection, merging,
//! compaction of consumed bodies, and integration.
use crate::arith::{AREA_LIMIT, DT_LIMIT, MASS_LIMIT, VALUE_LIMIT};
use crate::body::{advance, body_wf, consumed, moved_body, Body};
use crate::gravity::{attract_and_detect, collision_pairs, pulled};
use crate::merging::{
    all_clear, all_wf, area_weight, chosen, consumed_weight, mass_weight, resolve_merges,
    resolved, total,
};
use vstd::prelude::*;

verus! {

/// A population between frames: bodies within their limits, no merge marks,
/// and total mass and area within theirs.
pub open spec fn population_ok(s: Seq<Body>) -> bool {
    &&& all_wf(s)
    &&& all_clear(s)
    &&& total(s, mass_weight()) <= MASS_LIMIT
    &&& total(s, area_weight()) <= AREA_LIMIT
}

/// A body with its merge marks reset.
pub open spec fn cleared(b: Body) -> Body {
    Body { merged: false, survivor: false, ..b }
}

/// The bodies of `s` that were not consumed, in order, with their marks reset.
pub open spec fn compacted(s: Seq<Body>) -> Seq<Body>
    decreases s.len(),
{
    if s.len() == 0 {
        Seq::empty()
    } else {
        let p = compacted(s.drop_last());
        if consumed(s.last()) {
            p
        } else {
            p.push(cleared(s.last()))
        }
    }
}

/// Every body of `s` moved for `dt` at its velocity.
pub open spec fn moved(s: Seq<Body>, dt: int) -> Seq<Body> {
    Seq::new(s.len(), |k: int| moved_body(s[k], dt))
}

/// The merges that a frame from `s` performs.
pub open spec fn frame_merges(s: Seq<Body>) -> Seq<(usize, usize)> {
    chosen(collision_pairs(s))
}

/// The population after one frame of `dt` from `s`.
pub open spec fn frame(s: Seq<Body>, dt: int) -> Seq<Body> {
    moved(compacted(resolved(pulled(s, dt), frame_merges(s))), dt)
}

/// Sums agree over two sequences whose terms agree one by one.
pub proof fn lemma_total_pointwise(s: Seq<Body>, t: Seq<Body>, f: spec_fn(Body) -> int)
    requires
        s.len() == t.len(),
        forall|k: int| 0 <= k < s.len() ==> f(#[trigger] s[k]) == f(t[k]),
    ensures
        total(s, f) == total(t, f),
    decreases s.len(),
{
    if s.len() > 0 {
        let (p, q) = (s.drop_last(), t.drop_last());
        assert forall|k: int| 0 <= k < p.len() implies f(#[trigger] p[k]) == f(q[k]) by {
            assert(p[k] == s[k] && q[k] == t[k]);
        }
        lemma_total_pointwise(p, q, f);
        assert(f(s[s.len() - 1]) == f(t[t.len() - 1]));
    }
}

/// Whether `v` lies within `[-VALUE_LIMIT, VALUE_LIMIT]`.
fn in_range(v: i64) -> (r: bool)
    ensures
        r == (-VALUE_LIMIT <= v <= VALUE_LIMIT),
{
    -VALUE_LIMIT <= v && v <= VALUE_LIMIT
}

/// Whether `b` keeps the limits of a body.
pub fn is_valid_body(b: &Body) -> (r: bool)
    ensures
        r == body_wf(*b),
{
    if !(in_range(b.position.x) && in_range(b.position.y) && in_range(b.velocity.x) && in_range(
        b.velocity.y,
    )) {
        return false;
    }
    if b.radius == 0 || b.mass == 0 || b.mass > MASS_LIMIT {
        return false;
    }
    if b.radius > 1_000_000_000 {
        assert(b.radius * b.radius > AREA_LIMIT) by (nonlinear_arith)
            requires
                b.radius > 1_000_000_000,
        ;
        return false;
    }
    assert(b.radius * b.radius <= 1_000_000_000_000_000_000) by (nonlinear_arith)
        requires
            b.radius <= 1_000_000_000,
    ;
    b.radius * b.radius <= AREA_LIMIT
}

/// Whether `bodies` may start a frame: every body within its limits, none
/// marked by a merge, and total mass and area within their limits.
pub fn is_valid_population(bodies: &Vec<Body>) -> (r: bool)
    ensures
        r == population_ok(bodies@),
{
    let ghost s = bodies@;
    let mut mass: u64 = 0;
    let mut area: u64 = 0;
    let mut k: usize = 0;
    assert(s.take(0) =~= Seq::<Body>::empty());
    while k < bodies.len()
        invariant
            s == bodies@,
            k <= s.len(),
            all_wf(s.take(k as int)),
            all_clear(s.take(k as int)),
            mass == total(s.take(k as int), mass_weight()),
            area == total(s.take(k as int), area_weight()),
            mass <= MASS_LIMIT,
            area <= AREA_LIMIT,
        decreases s.len() - k,
    {
        let b = &bodies[k];
        let ghost t = s.take(k + 1);
        proof {
            assert(t.drop_last() =~= s.take(k as int));
            assert(t.last() == *b);
        }
        if !is_valid_body(b) || b.merged || b.survivor {
            proof {
                assert(t[k as int] == *b);
                assert(s[k as int] == *b);
            }
            return false;
        }
        if b.mass > MASS_LIMIT - mass {
            proof {
                assert(s[k as int] == *b);
                let f = mass_weight();
                assert(total(t, f) == total(s.take(k as int), f) + b.mass);
                lemma_total_prefix_le(s, k + 1, f);
            }
            return false;
        }
        if b.radius * b.radius > AREA_LIMIT - area {
            proof {
                assert(s[k as int] == *b);
                let f = area_weight();
                assert(total(t, f) == total(s.take(k as int), f) + b.radius * b.radius);
                lemma_total_prefix_le(s, k + 1, f);
            }
            return false;
        }
        mass = mass + b.mass;
        area = area + b.radius * b.radius;
        proof {
            assert forall|q: int| 0 <= q < k + 1 implies body_wf(#[trigger] t[q]) && !t[q].merged
                && !t[q].survivor by {
                if q < k {
                    assert(t[q] == s.take(k as int)[q]);
                }
            }
        }
        k = k + 1;
    }
    assert(s.take(s.len() as int) =~= s);
    true
}

/// With non-negative terms, a prefix sums to no more than the whole.
pub proof fn lemma_total_prefix_le(s: Seq<Body>, k: int, f: spec_fn(Body) -> int)
    requires
        0 <= k <= s.len(),
        forall|q: int| 0 <= q < s.len() ==> f(#[trigger] s[q]) >= 0,
    ensures
        total(s.take(k), f) <= total(s, f),
    decreases s.len(),
{
    if k < s.len() {
        let p = s.drop_last();
        assert forall|q: int| 0 <= q < p.len() implies f(#[trigger] p[q]) >= 0 by {
            assert(p[q] == s[q]);
        }
        lemma_total_prefix_le(p, k, f);
        assert(p.take(k) =~= s.take(k));
        assert(f(s[s.len() - 1]) >= 0);
    } else {
        assert(s.take(k) =~= s);
    }
}

/// Drops the consumed bodies, keeping the order of the others, and resets the
/// marks of the survivors.
pub fn compact(bodies: &Vec<Body>) -> (r: Vec<Body>)
    requires
        all_wf(bodies@),
    ensures
        r@ == compacted(bodies@),
        r.len() == bodies.len() - total(bodies@, consumed_weight()),
        total(r@, mass_weight()) == total(bodies@, mass_weight()),
        total(r@, area_weight()) == total(bodies@, area_weight()),
        all_wf(r@),
        all_clear(r@),
{
    let ghost s = bodies@;
    let mut out: Vec<Body> = Vec::new();
    let mut k: usize = 0;
    assert(s.take(0) =~= Seq::<Body>::empty());
    while k < bodies.len()
        invariant
            s == bodies@,
            k <= s.len(),
            all_wf(s),
            out@ == compacted(s.take(k as int)),
            out.len() == k - total(s.take(k as int), consumed_weight()),
            total(out@, mass_weight()) == total(s.take(k as int), mass_weight()),
            total(out@, area_weight()) == total(s.take(k as int), area_weight()),
            all_wf(out@),
            all_clear(out@),
        decreases s.len() - k,
    {
        let b = bodies[k];
        let ghost o = out@;
        proof {
            assert(s.take(k + 1).drop_last() =~= s.take(k as int));
            assert(s.take(k + 1).last() == b);
        }
        if !(b.merged && !b.survivor) {
            out.push(Body { merged: false, survivor: false, ..b });
            proof {
                assert(out@.drop_last() =~= o);
            }
        }
        k = k + 1;
    }
    assert(s.take(s.len() as int) =~= s);
    out
}

/// Moves every body for `dt` at its velocity.
pub fn integrate(bodies: &Vec<Body>, dt: u64) -> (r: Vec<Body>)
    requires
        all_wf(bodies@),
        dt <= DT_LIMIT,
    ensures
        r@ == moved(bodies@, dt as int),
        all_wf(r@),
{
    let mut out: Vec<Body> = Vec::new();
    let mut k: usize = 0;
    while k < bodies.len()
        invariant
            k <= bodies.len(),
            all_wf(bodies@),
            dt <= DT_LIMIT,
            out.len() == k,
            forall|q: int| 0 <= q < k ==> out[q] == moved_body(bodies[q], dt as int),
            all_wf(out@),
        decreases bodies.len() - k,
    {
        out.push(advance(&bodies[k], dt));
        k = k + 1;
    }
    assert(out@ =~= moved(bodies@, dt as int));
    out
}

/// One frame of `dt`: every pair attracts, colliding pairs merge once each in
/// order of discovery, consumed bodies leave, and the rest move. The count
/// drops by exactly the number of merges, and total mass is kept.
pub fn step(bodies: &Vec<Body>, dt: u64) -> (r: Vec<Body>)
    requires
        population_ok(bodies@),
        dt <= DT_LIMIT,
    ensures
        r@ == frame(bodies@, dt as int),
        population_ok(r@),
        r.len() == bodies.len() - frame_merges(bodies@).len(),
        total(r@, mass_weight()) == total(bodies@, mass_weight()),
        total(r@, area_weight()) <= total(bodies@, area_weight()),
{
    let ghost s = bodies@;
    let (pulled_bodies, pairs) = attract_and_detect(bodies, dt);
    let ghost p = pulled_bodies@;
    proof {
        assert forall|k: int| 0 <= k < s.len() implies mass_weight()(#[trigger] s[k]) == mass_weight()(p[k]) by {}
        assert forall|k: int| 0 <= k < s.len() implies area_weight()(#[trigger] s[k]) == area_weight()(p[k]) by {}
        lemma_total_pointwise(s, p, mass_weight());
        lemma_total_pointwise(s, p, area_weight());
        assert forall|t: int| 0 <= t < pairs.len() implies #[trigger] pairs[t].0 < pairs[t].1 < pulled_bodies.len() by {
            assert(pairs@.contains(pairs@[t]));
        }
    }
    let merged = resolve_merges(pulled_bodies, &pairs);
    let kept = compact(&merged);
    let ghost kv = kept@;
    let r = integrate(&kept, dt);
    proof {
        assert forall|k: int| 0 <= k < kv.len() implies mass_weight()(#[trigger] kv[k]) == mass_weight()(r@[k]) by {}
        assert forall|k: int| 0 <= k < kv.len() implies area_weight()(#[trigger] kv[k]) == area_weight()(r@[k]) by {}
        lemma_total_pointwise(kv, r@, mass_weight());
        lemma_total_pointwise(kv, r@, area_weight());
        assert(r.len() == kv.len());
    }
    r
}

} // verus!
