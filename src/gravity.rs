//! The all-pairs pass: gravity on every pair and the list of colliding pairs.
use crate::arith::{clamp, clamp_value, DT_LIMIT, VALUE_LIMIT};
use crate::body::{body_wf, collides, colliding, pull, pull_on, Body, Vec2};
use vstd::prelude::*;

verus! {

/// Sum of the velocity changes that bodies `0..hi` (all but `k` itself) give body `k`.
pub open spec fn pull_sum(s: Seq<Body>, k: int, hi: int, dt: int) -> (int, int)
    decreases hi,
{
    if hi <= 0 {
        (0, 0)
    } else {
        let p = pull_sum(s, k, hi - 1, dt);
        if hi - 1 == k {
            p
        } else {
            let q = pull_on(s[k], s[hi - 1], dt);
            (p.0 + q.0, p.1 + q.1)
        }
    }
}

/// Body `k` of `s` after the attraction of all the others over `dt`.
pub open spec fn pulled_body(s: Seq<Body>, k: int, dt: int) -> Body {
    let d = pull_sum(s, k, s.len() as int, dt);
    Body {
        velocity: Vec2 {
            x: clamp_value(s[k].velocity.x + d.0) as i64,
            y: clamp_value(s[k].velocity.y + d.1) as i64,
        },
        ..s[k]
    }
}

/// Every body of `s` after the attraction of all the others over `dt`.
pub open spec fn pulled(s: Seq<Body>, dt: int) -> Seq<Body> {
    Seq::new(s.len(), |k: int| pulled_body(s, k, dt))
}

/// The colliding pairs `(i, q)` with `i < q < j`, by ascending `q`.
pub open spec fn row_pairs(s: Seq<Body>, i: int, j: int) -> Seq<(usize, usize)>
    decreases j - i,
{
    if j <= i + 1 {
        Seq::empty()
    } else {
        let p = row_pairs(s, i, j - 1);
        if collides(s[i], s[j - 1]) {
            p.push((i as usize, (j - 1) as usize))
        } else {
            p
        }
    }
}

/// The colliding pairs `(p, q)` with `p < i` and `p < q`, in the order of discovery:
/// ascending `p`, then ascending `q`.
pub open spec fn pairs_before(s: Seq<Body>, i: int) -> Seq<(usize, usize)>
    decreases i,
{
    if i <= 0 {
        Seq::empty()
    } else {
        pairs_before(s, i - 1) + row_pairs(s, i - 1, s.len() as int)
    }
}

/// All colliding pairs of `s` in the order of discovery.
pub open spec fn collision_pairs(s: Seq<Body>) -> Seq<(usize, usize)> {
    pairs_before(s, s.len() as int)
}

/// Entry `k` of the accumulators holds the pull of the first `h` bodies on body `k`,
/// which is at most `h` times the component limit in magnitude.
pub open spec fn accumulated(s: Seq<Body>, sx: Seq<i128>, sy: Seq<i128>, k: int, h: int, d: int) -> bool {
    let l = VALUE_LIMIT as int;
    &&& sx[k] == pull_sum(s, k, h, d).0
    &&& sy[k] == pull_sum(s, k, h, d).1
    &&& -h * l <= sx[k] <= h * l
    &&& -h * l <= sy[k] <= h * l
}

/// How many bodies have acted on body `k` when the pass stands at pair `(i, j)`.
pub open spec fn seen(n: int, k: int, i: int, j: int) -> int {
    if k < i {
        n
    } else if k == i {
        j
    } else if k < j {
        i + 1
    } else {
        i
    }
}

/// A row holds exactly the colliding pairs `(i, q)` with `i < q < j`.
pub proof fn lemma_row_pairs(s: Seq<Body>, i: int, j: int)
    requires
        0 <= i,
        j <= s.len() <= usize::MAX,
    ensures
        forall|p: (usize, usize)|
            row_pairs(s, i, j).contains(p) <==> (p.0 == i && i < p.1 < j && collides(
                s[i],
                s[p.1 as int],
            )),
    decreases j - i,
{
    if j > i + 1 {
        lemma_row_pairs(s, i, j - 1);
        let r = row_pairs(s, i, j - 1);
        if collides(s[i], s[j - 1]) {
            let rp = r.push((i as usize, (j - 1) as usize));
            assert forall|p: (usize, usize)| rp.contains(p) <==> (r.contains(p) || p == (
                i as usize,
                (j - 1) as usize,
            )) by {
                if rp.contains(p) {
                    let t = choose|t: int| 0 <= t < rp.len() && rp[t] == p;
                    if t < r.len() {
                        assert(r[t] == p);
                    }
                }
                if r.contains(p) {
                    let t = choose|t: int| 0 <= t < r.len() && r[t] == p;
                    assert(rp[t] == p);
                }
                if p == (i as usize, (j - 1) as usize) {
                    assert(rp[r.len() as int] == p);
                }
            }
        }
    }
}

/// The pairs before row `i` are exactly the colliding pairs `(p, q)` with `p < i`, `p < q`.
pub proof fn lemma_pairs_before(s: Seq<Body>, i: int)
    requires
        0 <= i <= s.len() <= usize::MAX,
    ensures
        forall|p: (usize, usize)|
            pairs_before(s, i).contains(p) <==> (p.0 < i && p.0 < p.1 < s.len() && collides(
                s[p.0 as int],
                s[p.1 as int],
            )),
    decreases i,
{
    if i > 0 {
        lemma_pairs_before(s, i - 1);
        lemma_row_pairs(s, i - 1, s.len() as int);
        let a = pairs_before(s, i - 1);
        let b = row_pairs(s, i - 1, s.len() as int);
        assert forall|p: (usize, usize)| (a + b).contains(p) <==> (a.contains(p) || b.contains(p)) by {
            if (a + b).contains(p) {
                let t = choose|t: int| 0 <= t < (a + b).len() && (a + b)[t] == p;
                if t < a.len() {
                    assert(a[t] == p);
                } else {
                    assert(b[t - a.len()] == p);
                }
            }
            if a.contains(p) {
                let t = choose|t: int| 0 <= t < a.len() && a[t] == p;
                assert((a + b)[t] == p);
            }
            if b.contains(p) {
                let t = choose|t: int| 0 <= t < b.len() && b[t] == p;
                assert((a + b)[a.len() + t] == p);
            }
        }
        assert(pairs_before(s, i) == a + b);
        assert forall|p: (usize, usize)|
            pairs_before(s, i).contains(p) <==> (p.0 < i && p.0 < p.1 < s.len() && collides(
                s[p.0 as int],
                s[p.1 as int],
            )) by {
            assert(a.contains(p) <==> (p.0 < i - 1 && p.0 < p.1 < s.len() && collides(
                s[p.0 as int],
                s[p.1 as int],
            )));
            assert(b.contains(p) <==> (p.0 == i - 1 && i - 1 < p.1 < s.len() && collides(
                s[i - 1],
                s[p.1 as int],
            )));
        }
    }
}

/// The all-pairs pass of a frame: every body's velocity after the attraction of
/// all the others over `dt`, and the colliding pairs in the order of discovery.
pub fn attract_and_detect(bodies: &Vec<Body>, dt: u64) -> (r: (Vec<Body>, Vec<(usize, usize)>))
    requires
        forall|k: int| 0 <= k < bodies.len() ==> body_wf(#[trigger] bodies[k]),
        dt <= DT_LIMIT,
    ensures
        r.0@ == pulled(bodies@, dt as int),
        r.1@ == collision_pairs(bodies@),
        forall|p: (usize, usize)|
            r.1@.contains(p) <==> (p.0 < p.1 < bodies.len() && collides(
                bodies[p.0 as int],
                bodies[p.1 as int],
            )),
        forall|k: int| 0 <= k < r.0.len() ==> body_wf(#[trigger] r.0[k]),
{
    let ghost s = bodies@;
    let ghost d = dt as int;
    let n = bodies.len();
    let mut sx: Vec<i128> = Vec::new();
    let mut sy: Vec<i128> = Vec::new();
    let mut z: usize = 0;
    while z < n
        invariant
            z <= n,
            sx.len() == z,
            sy.len() == z,
            forall|k: int| 0 <= k < z ==> sx[k] == 0 && sy[k] == 0,
        decreases n - z,
    {
        sx.push(0);
        sy.push(0);
        z = z + 1;
    }
    let mut found: Vec<(usize, usize)> = Vec::new();
    let mut i: usize = 0;
    proof {
        assert forall|k: int| 0 <= k < n implies #[trigger] accumulated(s, sx@, sy@, k, seen(n as int, k, 0, 1), d) by {
            assert(pull_sum(s, k, 0, d) == (0int, 0int));
            if k == 0 {
                assert(pull_sum(s, k, 1, d) == pull_sum(s, k, 0, d));
            }
        }
    }
    while i < n
        invariant
            s == bodies@,
            n == s.len(),
            forall|k: int| 0 <= k < n ==> body_wf(#[trigger] s[k]),
            dt <= DT_LIMIT,
            d == dt as int,
            i <= n,
            sx.len() == n,
            sy.len() == n,
            forall|k: int|
                0 <= k < n ==> #[trigger] accumulated(s, sx@, sy@, k, seen(n as int, k, i as int, i + 1), d),
            found@ == pairs_before(s, i as int),
        decreases n - i,
    {
        let mut j: usize = i + 1;
        while j < n
            invariant
                s == bodies@,
                n == s.len(),
                forall|k: int| 0 <= k < n ==> body_wf(#[trigger] s[k]),
                dt <= DT_LIMIT,
                d == dt as int,
                i < j <= n,
                sx.len() == n,
                sy.len() == n,
                forall|k: int|
                    0 <= k < n ==> #[trigger] accumulated(s, sx@, sy@, k, seen(n as int, k, i as int, j as int), d),
                found@ == pairs_before(s, i as int) + row_pairs(s, i as int, j as int),
            decreases n - j,
        {
            let a = &bodies[i];
            let b = &bodies[j];
            let pa = pull(a, b, dt);
            let pb = pull(b, a, dt);
            proof {
                let l = VALUE_LIMIT as int;
                assert(accumulated(s, sx@, sy@, i as int, seen(n as int, i as int, i as int, j as int), d));
                assert(accumulated(s, sx@, sy@, j as int, seen(n as int, j as int, i as int, j as int), d));
                assert(-(j as int) * l <= sx[i as int] <= j * l);
                assert(-(j as int + 1) * l <= sx[i as int] + pa.x <= (j + 1) * l) by (nonlinear_arith)
                    requires
                        -(j as int) * l <= sx[i as int] <= j * l,
                        -l <= pa.x <= l,
                ;
                assert(-(j as int + 1) * l <= sy[i as int] + pa.y <= (j + 1) * l) by (nonlinear_arith)
                    requires
                        -(j as int) * l <= sy[i as int] <= j * l,
                        -l <= pa.y <= l,
                ;
                assert(-(i as int + 1) * l <= sx[j as int] + pb.x <= (i + 1) * l) by (nonlinear_arith)
                    requires
                        -(i as int) * l <= sx[j as int] <= i * l,
                        -l <= pb.x <= l,
                ;
                assert(-(i as int + 1) * l <= sy[j as int] + pb.y <= (i + 1) * l) by (nonlinear_arith)
                    requires
                        -(i as int) * l <= sy[j as int] <= i * l,
                        -l <= pb.y <= l,
                ;
                assert((j + 1) * 1_000_000_000_000 <= 20_000_000_000_000_000_000_000_000_000_000);
            }
            let ghost sx0 = sx@;
            let ghost sy0 = sy@;
            sx.set(i, sx[i] + pa.x as i128);
            sy.set(i, sy[i] + pa.y as i128);
            sx.set(j, sx[j] + pb.x as i128);
            sy.set(j, sy[j] + pb.y as i128);
            if colliding(a, b) {
                found.push((i, j));
            }
            proof {
                assert forall|k: int| 0 <= k < n implies #[trigger] accumulated(s, sx@, sy@, k, seen(n as int, k, i as int, j + 1), d) by {
                    assert(accumulated(s, sx0, sy0, k, seen(n as int, k, i as int, j as int), d));
                    assert(pa.x == pull_on(s[i as int], s[j as int], d).0);
                    assert(pb.x == pull_on(s[j as int], s[i as int], d).0);
                    if k == i {
                        assert(pull_sum(s, k, j + 1, d) == (
                            pull_sum(s, k, j as int, d).0 + pa.x,
                            pull_sum(s, k, j as int, d).1 + pa.y,
                        ));
                    } else if k == j {
                        assert(pull_sum(s, k, i + 1, d) == (
                            pull_sum(s, k, i as int, d).0 + pb.x,
                            pull_sum(s, k, i as int, d).1 + pb.y,
                        ));
                    }
                }
                assert(row_pairs(s, i as int, j + 1) == if collides(s[i as int], s[j as int]) {
                    row_pairs(s, i as int, j as int).push((i, j))
                } else {
                    row_pairs(s, i as int, j as int)
                });
                if collides(s[i as int], s[j as int]) {
                    assert(found@ == pairs_before(s, i as int) + row_pairs(s, i as int, j + 1));
                }
            }
            j = j + 1;
        }
        proof {
            assert(pairs_before(s, i + 1) == pairs_before(s, i as int) + row_pairs(s, i as int, n as int));
            assert forall|k: int| 0 <= k < n implies #[trigger] accumulated(s, sx@, sy@, k, seen(n as int, k, i + 1, i + 2), d) by {
                let l = VALUE_LIMIT as int;
                assert(accumulated(s, sx@, sy@, k, seen(n as int, k, i as int, n as int), d));
                if k == i + 1 {
                    assert(pull_sum(s, k, i + 2, d) == pull_sum(s, k, i + 1, d));
                    assert(-(i as int + 2) * l <= -(i as int + 1) * l);
                    assert((i as int + 1) * l <= (i + 2) * l);
                }
            }
        }
        i = i + 1;
    }
    proof {
        assert forall|k: int| 0 <= k < n implies #[trigger] accumulated(s, sx@, sy@, k, n as int, d) by {
            assert(accumulated(s, sx@, sy@, k, seen(n as int, k, i as int, i + 1), d));
        }
    }
    let mut out: Vec<Body> = Vec::new();
    let mut k: usize = 0;
    while k < n
        invariant
            s == bodies@,
            n == s.len(),
            forall|q: int| 0 <= q < n ==> body_wf(#[trigger] s[q]),
            k <= n,
            d == dt as int,
            sx.len() == n,
            sy.len() == n,
            forall|q: int| 0 <= q < n ==> #[trigger] accumulated(s, sx@, sy@, q, n as int, d),
            out.len() == k,
            forall|q: int| 0 <= q < k ==> out[q] == pulled_body(s, q, d),
            forall|q: int| 0 <= q < k ==> body_wf(#[trigger] out[q]),
        decreases n - k,
    {
        let b = &bodies[k];
        proof {
            let l = VALUE_LIMIT as int;
            assert(accumulated(s, sx@, sy@, k as int, n as int, d));
            assert(n * 1_000_000_000_000 <= 20_000_000_000_000_000_000_000_000_000_000);
        }
        let v = Vec2 {
            x: clamp(b.velocity.x as i128 + sx[k]),
            y: clamp(b.velocity.y as i128 + sy[k]),
        };
        out.push(Body { velocity: v, ..*b });
        k = k + 1;
    }
    assert(out@ == pulled(s, d));
    proof {
        lemma_pairs_before(s, n as int);
    }
    (out, found)
}

} // verus!
