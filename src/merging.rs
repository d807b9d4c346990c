//! Merge resolution: each colliding pair, in the order of discovery, merges
//! when neither body has merged yet this frame.
use crate::arith::{AREA_LIMIT, MASS_LIMIT};
use crate::body::{body_wf, consumed, merge, merged_body, Body};
use vstd::prelude::*;

verus! {

/// Sum of `f` over the bodies of `s`.
pub open spec fn total(s: Seq<Body>, f: spec_fn(Body) -> int) -> int
    decreases s.len(),
{
    if s.len() == 0 {
        0
    } else {
        total(s.drop_last(), f) + f(s.last())
    }
}

/// The mass a body contributes to its population: none once consumed.
pub open spec fn mass_weight() -> spec_fn(Body) -> int {
    |b: Body| if consumed(b) { 0 } else { b.mass as int }
}

/// The squared radius a body contributes to its population: none once consumed.
pub open spec fn area_weight() -> spec_fn(Body) -> int {
    |b: Body| if consumed(b) { 0 } else { b.radius * b.radius }
}

/// One for a consumed body, zero for any other.
pub open spec fn consumed_weight() -> spec_fn(Body) -> int {
    |b: Body| if consumed(b) { 1 } else { 0 }
}

/// Body `k` takes part in one of the pairs of `done`.
pub open spec fn touches(done: Seq<(usize, usize)>, k: int) -> bool {
    exists|t: int| 0 <= t < done.len() && (done[t].0 == k || done[t].1 == k)
}

/// The candidate pairs that merge: in order, each pair none of whose bodies
/// is in a pair chosen before it.
pub open spec fn chosen(c: Seq<(usize, usize)>) -> Seq<(usize, usize)>
    decreases c.len(),
{
    if c.len() == 0 {
        Seq::empty()
    } else {
        let prev = chosen(c.drop_last());
        let p = c.last();
        if !touches(prev, p.0 as int) && !touches(prev, p.1 as int) {
            prev.push(p)
        } else {
            prev
        }
    }
}

/// The bodies of `s` after the merges of `done`, in order: the first body of
/// each pair becomes the merged body, the second is marked consumed.
pub open spec fn resolved(s: Seq<Body>, done: Seq<(usize, usize)>) -> Seq<Body>
    decreases done.len(),
{
    if done.len() == 0 {
        s
    } else {
        let t = resolved(s, done.drop_last());
        let i = done.last().0 as int;
        let j = done.last().1 as int;
        t.update(i, merged_body(t[i], t[j])).update(j, Body { merged: true, survivor: false, ..t[j] })
    }
}

/// Changing one body changes a sum by the difference of its terms.
pub proof fn lemma_total_update(s: Seq<Body>, i: int, v: Body, f: spec_fn(Body) -> int)
    requires
        0 <= i < s.len(),
    ensures
        total(s.update(i, v), f) == total(s, f) - f(s[i]) + f(v),
    decreases s.len(),
{
    let u = s.update(i, v);
    if i == s.len() - 1 {
        assert(u.drop_last() =~= s.drop_last());
    } else {
        lemma_total_update(s.drop_last(), i, v, f);
        assert(u.drop_last() =~= s.drop_last().update(i, v));
    }
}

/// A sum of non-negative terms is at least each term.
pub proof fn lemma_total_single(s: Seq<Body>, i: int, f: spec_fn(Body) -> int)
    requires
        0 <= i < s.len(),
        forall|k: int| 0 <= k < s.len() ==> f(#[trigger] s[k]) >= 0,
    ensures
        f(s[i]) <= total(s, f),
        0 <= total(s, f),
    decreases s.len(),
{
    let p = s.drop_last();
    assert forall|k: int| 0 <= k < p.len() implies f(#[trigger] p[k]) >= 0 by {
        assert(p[k] == s[k]);
    }
    assert(f(s[s.len() - 1]) >= 0);
    assert(s.last() == s[s.len() - 1]);
    if p.len() > 0 {
        lemma_total_single(p, if i < p.len() { i } else { 0 }, f);
        if i < p.len() {
            assert(s[i] == p[i]);
        }
    } else {
        assert(total(p, f) == 0);
    }
}

/// A sum of non-negative terms is at least any two of its terms together.
pub proof fn lemma_total_pair(s: Seq<Body>, i: int, j: int, f: spec_fn(Body) -> int)
    requires
        0 <= i < s.len(),
        0 <= j < s.len(),
        i != j,
        forall|k: int| 0 <= k < s.len() ==> f(#[trigger] s[k]) >= 0,
    ensures
        f(s[i]) + f(s[j]) <= total(s, f),
    decreases s.len(),
{
    let p = s.drop_last();
    let last = s.len() - 1;
    assert forall|k: int| 0 <= k < p.len() implies f(#[trigger] p[k]) >= 0 by {
        assert(p[k] == s[k]);
    }
    if i == last {
        lemma_total_single(p, j, f);
    } else if j == last {
        lemma_total_single(p, i, f);
    } else {
        lemma_total_pair(p, i, j, f);
        assert(f(s[last]) >= 0);
    }
}

/// A population where no body is consumed has no consumed weight.
pub proof fn lemma_total_none_consumed(s: Seq<Body>)
    requires
        forall|k: int| 0 <= k < s.len() ==> !consumed(#[trigger] s[k]),
    ensures
        total(s, consumed_weight()) == 0,
    decreases s.len(),
{
    if s.len() > 0 {
        let p = s.drop_last();
        assert forall|k: int| 0 <= k < p.len() implies !consumed(#[trigger] p[k]) by {
            assert(p[k] == s[k]);
        }
        lemma_total_none_consumed(p);
    }
}

/// Adding a pair to `done` adds exactly its two bodies to those it touches.
pub proof fn lemma_touches_push(done: Seq<(usize, usize)>, p: (usize, usize), k: int)
    ensures
        touches(done.push(p), k) <==> (touches(done, k) || p.0 == k || p.1 == k),
{
    let d = done.push(p);
    if touches(d, k) {
        let t = choose|t: int| 0 <= t < d.len() && (d[t].0 == k || d[t].1 == k);
        if t < done.len() {
            assert(done[t] == d[t]);
        }
    }
    if touches(done, k) {
        let t = choose|t: int| 0 <= t < done.len() && (done[t].0 == k || done[t].1 == k);
        assert(d[t] == done[t]);
    }
    if p.0 == k || p.1 == k {
        assert(d[done.len() as int] == p);
    }
}

/// No body takes part in two merges of one frame: any two chosen pairs share no body.
pub proof fn lemma_merge_once(c: Seq<(usize, usize)>)
    ensures
        forall|p: int, q: int|
            0 <= p < q < chosen(c).len() ==> {
                let a = #[trigger] chosen(c)[p];
                let b = #[trigger] chosen(c)[q];
                a.0 != b.0 && a.0 != b.1 && a.1 != b.0 && a.1 != b.1
            },
    decreases c.len(),
{
    if c.len() > 0 {
        lemma_merge_once(c.drop_last());
        let prev = chosen(c.drop_last());
        let x = c.last();
        if !touches(prev, x.0 as int) && !touches(prev, x.1 as int) {
            let d = prev.push(x);
            assert forall|p: int, q: int| 0 <= p < q < d.len() implies {
                let a = #[trigger] d[p];
                let b = #[trigger] d[q];
                a.0 != b.0 && a.0 != b.1 && a.1 != b.0 && a.1 != b.1
            } by {
                if q == prev.len() {
                    assert(d[p] == prev[p]);
                    if d[p].0 == x.0 || d[p].1 == x.0 {
                        assert(touches(prev, x.0 as int));
                    }
                    if d[p].0 == x.1 || d[p].1 == x.1 {
                        assert(touches(prev, x.1 as int));
                    }
                } else {
                    assert(d[p] == prev[p]);
                    assert(d[q] == prev[q]);
                }
            }
        }
    }
}

/// Every body keeps its limits.
pub open spec fn all_wf(s: Seq<Body>) -> bool {
    forall|k: int| 0 <= k < s.len() ==> body_wf(#[trigger] s[k])
}

/// No body carries a merge mark.
pub open spec fn all_clear(s: Seq<Body>) -> bool {
    forall|k: int| 0 <= k < s.len() ==> !(#[trigger] s[k]).merged && !s[k].survivor
}

/// Merges the candidate pairs in order, skipping each pair one of whose bodies
/// has already merged: the first body of a merging pair becomes the merged
/// body, the second is marked consumed. Live mass is kept exactly, live area
/// does not grow, and one body is consumed per merge.
pub fn resolve_merges(bodies: Vec<Body>, candidates: &Vec<(usize, usize)>) -> (r: Vec<Body>)
    requires
        all_wf(bodies@),
        all_clear(bodies@),
        total(bodies@, mass_weight()) <= MASS_LIMIT,
        total(bodies@, area_weight()) <= AREA_LIMIT,
        forall|t: int|
            0 <= t < candidates.len() ==> #[trigger] candidates[t].0 < candidates[t].1 < bodies.len(),
    ensures
        r@ == resolved(bodies@, chosen(candidates@)),
        r.len() == bodies.len(),
        all_wf(r@),
        total(r@, mass_weight()) == total(bodies@, mass_weight()),
        total(r@, area_weight()) <= total(bodies@, area_weight()),
        total(r@, consumed_weight()) == chosen(candidates@).len(),
{
    let ghost s = bodies@;
    let ghost c = candidates@;
    let mut bodies = bodies;
    let n = bodies.len();
    proof {
        lemma_total_none_consumed(s);
        assert(c.take(0) =~= Seq::<(usize, usize)>::empty());
    }
    let mut t: usize = 0;
    while t < candidates.len()
        invariant
            c == candidates@,
            n == bodies.len(),
            n == s.len(),
            t <= c.len(),
            forall|q: int| 0 <= q < c.len() ==> #[trigger] c[q].0 < c[q].1 < n,
            bodies@ == resolved(s, chosen(c.take(t as int))),
            forall|k: int|
                0 <= k < n ==> (#[trigger] bodies[k]).merged == touches(chosen(c.take(t as int)), k),
            all_wf(bodies@),
            total(bodies@, mass_weight()) == total(s, mass_weight()),
            total(s, mass_weight()) <= MASS_LIMIT,
            total(bodies@, area_weight()) <= total(s, area_weight()),
            total(s, area_weight()) <= AREA_LIMIT,
            total(bodies@, consumed_weight()) == chosen(c.take(t as int)).len(),
        decreases c.len() - t,
    {
        let (i, j) = candidates[t];
        let ghost prev = chosen(c.take(t as int));
        proof {
            assert(c.take(t + 1).drop_last() =~= c.take(t as int));
            assert(c.take(t + 1).last() == c[t as int]);
        }
        if !bodies[i].merged && !bodies[j].merged {
            let ghost u = bodies@;
            proof {
                assert forall|k: int| 0 <= k < u.len() implies (#[trigger] mass_weight()(u[k])) >= 0 by {}
                assert forall|k: int| 0 <= k < u.len() implies (#[trigger] area_weight()(u[k])) >= 0 by {
                    assert(u[k].radius * u[k].radius >= 0) by (nonlinear_arith);
                }
                lemma_total_pair(u, i as int, j as int, mass_weight());
                lemma_total_pair(u, i as int, j as int, area_weight());
            }
            let m = merge(&bodies[i], &bodies[j]);
            let gone = Body { merged: true, survivor: false, ..bodies[j] };
            bodies.set(i, m);
            bodies.set(j, gone);
            proof {
                let u1 = u.update(i as int, m);
                lemma_total_update(u, i as int, m, mass_weight());
                lemma_total_update(u1, j as int, gone, mass_weight());
                lemma_total_update(u, i as int, m, area_weight());
                lemma_total_update(u1, j as int, gone, area_weight());
                lemma_total_update(u, i as int, m, consumed_weight());
                lemma_total_update(u1, j as int, gone, consumed_weight());
                assert(u1[j as int] == u[j as int]);
                assert(mass_weight()(m) == m.mass as int);
                assert(mass_weight()(gone) == 0);
                assert(mass_weight()(u[i as int]) == u[i as int].mass as int);
                assert(mass_weight()(u[j as int]) == u[j as int].mass as int);
                assert(prev.push((i, j)).drop_last() =~= prev);
                assert(chosen(c.take(t + 1)) == prev.push((i, j)));
                assert(bodies@ =~= resolved(s, prev.push((i, j))));
                assert forall|k: int| 0 <= k < n implies (#[trigger] bodies[k]).merged == touches(
                    chosen(c.take(t + 1)),
                    k,
                ) by {
                    lemma_touches_push(prev, (i, j), k);
                }
            }
        } else {
            assert(chosen(c.take(t + 1)) == prev);
        }
        t = t + 1;
    }
    assert(c.take(c.len() as int) =~= c);
    bodies
}

} // verus!
