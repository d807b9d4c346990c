use gravity_sim::arith::{div_toward_zero, isqrt, VALUE_LIMIT};
use gravity_sim::body::{advance, colliding, merge, pull, Body, Rgb, Vec2};
use gravity_sim::frame::{compact, integrate, is_valid_body, is_valid_population, step};
use gravity_sim::gravity::attract_and_detect;
use gravity_sim::merging::resolve_merges;

fn body(x: i64, y: i64, vx: i64, vy: i64, radius: u64, mass: u64) -> Body {
    Body {
        position: Vec2 { x, y },
        velocity: Vec2 { x: vx, y: vy },
        colour: Rgb { r: 100, g: 150, b: 200 },
        radius,
        mass,
        merged: false,
        survivor: false,
    }
}

#[test]
fn touching_pair_merges_into_one() {
    let bodies = vec![body(0, 0, 0, 0, 600, 1), body(1000, 0, 0, 0, 600, 1)];
    assert!(is_valid_population(&bodies));
    let next = step(&bodies, 16);
    assert_eq!(next.len(), 1);
    let b = next[0];
    assert_eq!(b.mass, 2);
    assert_eq!(b.radius, 848);
    assert_eq!(b.position, Vec2 { x: 500, y: 0 });
    assert_eq!(b.velocity, Vec2 { x: 0, y: 0 });
    assert!(!b.merged && !b.survivor);
}

#[test]
fn distant_pair_only_attracts() {
    let bodies = vec![body(0, 0, 0, 0, 600, 1), body(2000, 0, 0, 0, 600, 1)];
    let next = step(&bodies, 16);
    assert_eq!(next.len(), 2);
    assert_eq!(next[0].velocity, Vec2 { x: 4000, y: 0 });
    assert_eq!(next[1].velocity, Vec2 { x: -4000, y: 0 });
    assert_eq!(next[0].position, Vec2 { x: 64, y: 0 });
    assert_eq!(next[1].position, Vec2 { x: 1936, y: 0 });
    assert_eq!(next[0].mass, 1);
    assert_eq!(next[1].radius, 600);
}

#[test]
fn triangle_pulls_toward_centroid_and_keeps_momentum() {
    let bodies = vec![
        body(0, 0, 0, 0, 100, 1),
        body(10000, 0, 0, 0, 100, 1),
        body(5000, 8660, 0, 0, 100, 1),
    ];
    let next = step(&bodies, 100);
    assert_eq!(next.len(), 3);
    let px: i64 = next.iter().map(|b| b.velocity.x * b.mass as i64).sum();
    let py: i64 = next.iter().map(|b| b.velocity.y * b.mass as i64).sum();
    assert_eq!((px, py), (0, 0));
    let (cx, cy) = (5000i64, 2887i64);
    for (before, after) in bodies.iter().zip(next.iter()) {
        let to_centre = (cx - before.position.x, cy - before.position.y);
        let dot = after.velocity.x * to_centre.0 + after.velocity.y * to_centre.1;
        assert!(dot > 0);
        let cross = after.velocity.x * to_centre.1 - after.velocity.y * to_centre.0;
        assert!(cross.abs() * 50 <= dot.abs());
    }
}

#[test]
fn gravity_changes_are_opposite_for_equal_masses() {
    let a = body(0, 0, 0, 0, 10, 3);
    let b = body(3000, 4000, 0, 0, 10, 3);
    let pa = pull(&a, &b, 10);
    let pb = pull(&b, &a, 10);
    assert_eq!(pa.x, -pb.x);
    assert_eq!(pa.y, -pb.y);
    // G * m * dt * d / |d|^3 in fixed point: 1000 * 3 * 0.01 * (3, 4) / 125
    assert_eq!(pa, Vec2 { x: 720, y: 960 });
}

#[test]
fn gravity_momentum_cancels_for_unequal_masses() {
    let a = body(0, 0, 0, 0, 10, 2);
    let b = body(7000, 0, 0, 0, 10, 5);
    let pa = pull(&a, &b, 16);
    let pb = pull(&b, &a, 16);
    let p = a.mass as i64 * pa.x + b.mass as i64 * pb.x;
    assert!(p.abs() < (a.mass + b.mass) as i64);
    assert!(pa.x > 0 && pb.x < 0);
}

#[test]
fn coincident_bodies_exert_no_pull() {
    let a = body(500, 500, 0, 0, 10, 1);
    let b = body(500, 500, 0, 0, 10, 1);
    assert_eq!(pull(&a, &b, 16), Vec2 { x: 0, y: 0 });
}

#[test]
fn collision_is_strict_on_the_sum_of_radii() {
    let a = body(0, 0, 0, 0, 500, 1);
    assert!(!colliding(&a, &body(1000, 0, 0, 0, 500, 1)));
    assert!(colliding(&a, &body(999, 0, 0, 0, 500, 1)));
    assert!(colliding(&a, &body(600, 800, 0, 0, 501, 1)));
    assert!(!colliding(&a, &body(600, 800, 0, 0, 500, 1)));
}

#[test]
fn merge_keeps_mass_momentum_and_area() {
    let a = body(0, 0, 3000, -1000, 300, 1);
    let b = body(4000, 2000, 0, 500, 400, 3);
    let m = merge(&a, &b);
    assert_eq!(m.mass, 4);
    assert_eq!(m.radius, 500);
    assert_eq!(m.velocity, Vec2 { x: 750, y: 125 });
    assert_eq!(m.position, Vec2 { x: 3000, y: 1500 });
    assert!(m.merged && m.survivor);
}

#[test]
fn merge_rounds_toward_zero_and_blends_colour() {
    let mut a = body(-1, 0, -7, 0, 1, 1);
    a.colour = Rgb { r: 0, g: 255, b: 10 };
    let mut b = body(0, 0, 0, 0, 1, 2);
    b.colour = Rgb { r: 255, g: 0, b: 11 };
    let m = merge(&a, &b);
    assert_eq!(m.position.x, 0);
    assert_eq!(m.velocity.x, -2);
    assert_eq!(m.colour, Rgb { r: 170, g: 85, b: 10 });
    assert_eq!(m.radius, 1);
}

#[test]
fn each_body_merges_once_per_frame() {
    let bodies = vec![
        body(0, 0, 0, 0, 600, 1),
        body(500, 0, 0, 0, 600, 1),
        body(1000, 0, 0, 0, 600, 1),
    ];
    let (pulled, pairs) = attract_and_detect(&bodies, 16);
    assert_eq!(pairs, vec![(0, 1), (0, 2), (1, 2)]);
    let merged = resolve_merges(pulled, &pairs);
    assert!(merged[0].merged && merged[0].survivor);
    assert!(merged[1].merged && !merged[1].survivor);
    assert!(!merged[2].merged);
    let kept = compact(&merged);
    assert_eq!(kept.len(), 2);
    assert_eq!(kept[0].mass, 2);
    assert_eq!(kept[1].position.x, 1000);
    let next = step(&bodies, 16);
    assert_eq!(next.len(), 2);
}

#[test]
fn chain_of_merges_leaves_count_minus_merges() {
    let bodies = vec![
        body(0, 0, 0, 0, 600, 1),
        body(1000, 0, 0, 0, 600, 1),
        body(50000, 0, 0, 0, 600, 1),
        body(51000, 0, 0, 0, 600, 1),
        body(100000, 0, 0, 0, 600, 1),
    ];
    let next = step(&bodies, 16);
    assert_eq!(next.len(), 3);
    let total: u64 = next.iter().map(|b| b.mass).sum();
    assert_eq!(total, 5);
}

#[test]
fn compaction_keeps_order_and_clears_marks() {
    let mut bodies = vec![body(1, 0, 0, 0, 5, 1), body(2, 0, 0, 0, 5, 1), body(3, 0, 0, 0, 5, 1)];
    bodies[0].merged = true;
    bodies[0].survivor = true;
    bodies[1].merged = true;
    let kept = compact(&bodies);
    assert_eq!(kept.len(), 2);
    assert_eq!(kept[0].position.x, 1);
    assert_eq!(kept[1].position.x, 3);
    assert!(!kept[0].merged && !kept[0].survivor);
}

#[test]
fn integration_moves_and_holds_to_the_limit() {
    let b = body(100, -100, 2500, -1500, 5, 1);
    let moved = advance(&b, 20);
    assert_eq!(moved.position, Vec2 { x: 150, y: -130 });
    let fast = body(VALUE_LIMIT - 1, 0, VALUE_LIMIT, 0, 5, 1);
    assert_eq!(advance(&fast, 1000).position.x, VALUE_LIMIT);
    let all = integrate(&vec![b, fast], 20);
    assert_eq!(all[0], moved);
}

#[test]
fn validity_checks() {
    assert!(is_valid_body(&body(0, 0, 0, 0, 1, 1)));
    assert!(!is_valid_body(&body(0, 0, 0, 0, 0, 1)));
    assert!(!is_valid_body(&body(0, 0, 0, 0, 1, 0)));
    assert!(!is_valid_body(&body(VALUE_LIMIT + 1, 0, 0, 0, 1, 1)));
    assert!(!is_valid_body(&body(0, 0, 0, 0, 1_000_000_001, 1)));
    let mut marked = body(0, 0, 0, 0, 1, 1);
    marked.merged = true;
    assert!(!is_valid_population(&vec![marked]));
    let heavy = body(0, 0, 0, 0, 1, 600_000_000);
    assert!(is_valid_population(&vec![heavy]));
    assert!(!is_valid_population(&vec![heavy, heavy]));
    assert!(is_valid_population(&vec![]));
}

#[test]
fn integer_helpers() {
    assert_eq!(isqrt(0), 0);
    assert_eq!(isqrt(15), 3);
    assert_eq!(isqrt(16), 4);
    assert_eq!(isqrt(720_000), 848);
    assert_eq!(isqrt(u128::MAX), 0xffff_ffff_ffff_ffff);
    assert_eq!(div_toward_zero(-7, 2), -3);
    assert_eq!(div_toward_zero(7, 2), 3);
}

#[test]
fn empty_and_single_populations() {
    assert!(step(&vec![], 16).is_empty());
    let one = step(&vec![body(0, 0, 1000, 0, 10, 1)], 16);
    assert_eq!(one[0].position.x, 16);
    assert_eq!(one[0].velocity.x, 1000);
}
