use rrt_star::geometry::{integer_sqrt, steer, try_steer, units, Point, MAX_EDGE, MIN_STEP, UNIT};

fn pt(x: i16, y: i16) -> Point {
    Point::from_units(x, y)
}

fn raw(x: i32, y: i32) -> Point {
    Point { x, y }
}

/// The length of `n` units as a distance.
fn len(n: u16) -> u64 {
    units(n) as u64
}

/// Whether `p` is `step` away from `from` to a thousandth of `step`.
fn a_step_away(from: Point, p: Point, step: u32) -> bool {
    let d2 = from.distance_squared(&p);
    let s2 = step as u128 * step as u128;
    999 * 999 * s2 <= 1000 * 1000 * d2 && 1000 * 1000 * d2 <= 1001 * 1001 * s2
}

/// Whether `p` lies from `from` in the direction of `to`, to a thousandth.
fn on_bearing(from: Point, to: Point, p: Point) -> bool {
    let vx = to.x as i128 - from.x as i128;
    let vy = to.y as i128 - from.y as i128;
    let wx = p.x as i128 - from.x as i128;
    let wy = p.y as i128 - from.y as i128;
    let c = vx * wy - vy * wx;
    vx * wx + vy * wy > 0 && 1_000_000 * c * c <= (vx * vx + vy * vy) * (wx * wx + wy * wy)
}

#[test]
fn integer_sqrt_of_small_numbers() {
    assert_eq!(integer_sqrt(0), 0);
    assert_eq!(integer_sqrt(1), 1);
    assert_eq!(integer_sqrt(2), 1);
    assert_eq!(integer_sqrt(3), 1);
    assert_eq!(integer_sqrt(4), 2);
    assert_eq!(integer_sqrt(15), 3);
    assert_eq!(integer_sqrt(16), 4);
    assert_eq!(integer_sqrt(17), 4);
    assert_eq!(integer_sqrt(1_000_000), 1000);
}

#[test]
fn integer_sqrt_of_the_largest_number() {
    assert_eq!(integer_sqrt(u128::MAX), u64::MAX);
    let r = u64::MAX as u128;
    assert_eq!(integer_sqrt(r * r), u64::MAX);
    assert_eq!(integer_sqrt(r * r - 1), u64::MAX - 1);
}

#[test]
fn units_are_sixteen_binary_places() {
    assert_eq!(UNIT, 65_536);
    assert_eq!(units(0), 0);
    assert_eq!(units(10), 655_360);
    assert_eq!(units(u16::MAX), 65_535 * 65_536);
    assert_eq!(pt(3, -4), raw(196_608, -262_144));
    assert_eq!(pt(i16::MIN, i16::MAX), raw(i32::MIN, 32_767 * 65_536));
}

#[test]
fn distance_of_a_three_four_five_triangle() {
    assert_eq!(pt(0, 0).distance(&pt(3, 4)), len(5));
    assert_eq!(pt(0, 0).distance_squared(&pt(3, 4)), 25 * 65_536 * 65_536);
    assert_eq!(pt(-1, -1).distance(&pt(2, 3)), len(5));
    assert_eq!(raw(0, 0).distance(&raw(3, 4)), 5);
}

#[test]
fn distance_is_rounded_down_to_a_sub_unit() {
    // Twice the square root of two is 2.828427..., which is 185363.8 sub-units.
    assert_eq!(pt(0, 0).distance(&pt(2, 2)), 185_363);
    assert_eq!(pt(0, 0).distance(&pt(5, 5)), 463_409);
    assert_eq!(raw(0, 0).distance(&raw(1, 1)), 1);
    assert_eq!(raw(0, 0).distance(&raw(2, 2)), 2);
}

#[test]
fn distance_of_a_point_and_a_half() {
    // From (1.5, 0) to (0, 2): 2.5 units.
    let a = raw(3 * UNIT / 2, 0);
    let b = raw(0, 2 * UNIT);
    assert_eq!(a.distance(&b), 5 * 65_536 / 2);
}

#[test]
fn distance_is_symmetric() {
    let a = raw(-17_000, 40_123);
    let b = raw(123_456, -9);
    assert_eq!(a.distance(&b), b.distance(&a));
    assert_eq!(a.distance_squared(&b), b.distance_squared(&a));
}

#[test]
fn distance_is_zero_only_to_the_same_point() {
    assert_eq!(raw(7, -3).distance(&raw(7, -3)), 0);
    assert_eq!(raw(7, -3).distance(&raw(8, -3)), 1);
    assert_eq!(raw(7, -3).distance(&raw(7, -4)), 1);
}

#[test]
fn distance_between_the_farthest_points() {
    let a = raw(i32::MIN, i32::MIN);
    let b = raw(i32::MAX, i32::MAX);
    assert_eq!(a.distance(&b), 6_074_000_998);
    assert!(a.distance(&b) < MAX_EDGE);
    assert_eq!(a.distance_squared(&b), 2 * (u32::MAX as u128) * (u32::MAX as u128));
}

#[test]
fn steer_along_an_axis_keeps_the_exact_step() {
    assert_eq!(steer(&pt(0, 0), &pt(100, 0), units(10)), pt(10, 0));
    assert_eq!(steer(&pt(0, 0), &pt(0, -100), units(10)), pt(0, -10));
    assert_eq!(steer(&pt(2, 3), &pt(2, -100), units(4)), pt(2, -1));
}

#[test]
fn steer_on_a_whole_triangle_is_exact() {
    assert_eq!(steer(&pt(0, 0), &pt(-3, -4), units(10)), pt(-6, -8));
    assert_eq!(steer(&pt(0, 0), &pt(-7, 24), units(50)), pt(-14, 48));
    assert_eq!(steer(&pt(0, 0), &pt(30, 40), units(10)), pt(6, 8));
}

#[test]
fn steer_goes_past_a_target_that_is_nearer_than_a_step() {
    assert_eq!(steer(&pt(0, 0), &pt(3, 0), units(10)), pt(10, 0));
    assert_eq!(steer(&raw(0, 0), &raw(1, 0), units(10)), pt(10, 0));
}

#[test]
fn steer_rounds_each_component_down_to_a_sub_unit() {
    // Ten units along the diagonal: 7.0710678 units each way.
    let p = steer(&pt(0, 0), &pt(1, 1), units(10));
    assert_eq!(p, raw(463_409, 463_409));
    assert_eq!(pt(0, 0).distance(&p), 655_359);
    let q = steer(&pt(0, 0), &pt(2, 3), units(10));
    assert_eq!(q, raw(363_528, 545_292));
    assert!(a_step_away(pt(0, 0), q, units(10)));
    assert!(on_bearing(pt(0, 0), pt(2, 3), q));
}

#[test]
fn steer_at_the_length_from_which_a_step_is_exact_to_a_thousandth() {
    assert_eq!(MIN_STEP, 2_000);
    assert_eq!(steer(&raw(0, 0), &raw(1, 1), MIN_STEP), raw(1414, 1414));
    assert_eq!(steer(&raw(0, 0), &raw(2, 3), MIN_STEP), raw(1109, 1664));
    assert!(a_step_away(raw(0, 0), raw(1414, 1414), MIN_STEP));
    assert!(on_bearing(raw(0, 0), raw(2, 3), raw(1109, 1664)));
}

#[test]
fn steer_from_a_point_to_itself_goes_along_the_x_axis() {
    assert_eq!(steer(&pt(5, 5), &pt(5, 5), units(10)), pt(15, 5));
    assert_eq!(steer(&raw(5, 5), &raw(5, 5), MIN_STEP), raw(2005, 5));
}

#[test]
fn steer_keeps_its_length_and_bearing_to_a_thousandth() {
    let from = raw(10 * UNIT + 123, -20 * UNIT + 77);
    let steps: [u32; 6] = [MIN_STEP, 2_001, 3_333, units(1), units(13), 1_000_000_007];
    for &step in steps.iter() {
        let mut tx: i64 = -50 * UNIT as i64;
        while tx <= 50 * UNIT as i64 {
            let mut ty: i64 = -50 * UNIT as i64;
            while ty <= 50 * UNIT as i64 {
                let to = raw(tx as i32, ty as i32);
                let p = steer(&from, &to, step);
                assert!(a_step_away(from, p, step));
                assert!(on_bearing(from, to, p));
                assert!(from.distance(&p) <= step as u64);
                assert!(from.distance(&p) + 2 >= step as u64);
                ty += 7 * UNIT as i64 + 4_321;
            }
            tx += 7 * UNIT as i64 + 1_234;
        }
    }
}

#[test]
fn steer_towards_very_near_and_very_far_targets() {
    let from = raw(0, 0);
    let targets = [
        raw(1, 0),
        raw(0, -1),
        raw(1, 1),
        raw(-1, 2),
        raw(i32::MAX, 1),
        raw(1, i32::MIN),
        raw(i32::MIN, i32::MAX),
        raw(-1_000_000_007, 998_244_353),
    ];
    for to in targets.iter() {
        for &step in [MIN_STEP, units(10), 0x7FFF_FFFF].iter() {
            let p = steer(&from, to, step);
            assert!(a_step_away(from, p, step));
            assert!(on_bearing(from, *to, p));
        }
    }
}

#[test]
fn steer_with_a_step_below_a_thousand_sub_units_is_coarser() {
    // Less than one sub-unit each way: the step stays in place.
    assert_eq!(steer(&raw(0, 0), &raw(1, 1), 1), raw(0, 0));
    assert_eq!(steer(&raw(0, 0), &raw(1, 2), 1), raw(0, 0));
    assert_eq!(steer(&raw(0, 0), &raw(5, 0), 1), raw(1, 0));
    assert_eq!(steer(&raw(0, 0), &raw(1, 1), 2), raw(1, 1));
    assert_eq!(steer(&raw(0, 0), &raw(-3, 4), 5), raw(-3, 4));
    assert_eq!(steer(&raw(0, 0), &raw(2, 3), 100), raw(55, 83));
    assert_eq!(steer(&raw(7, 7), &raw(7, 7), 1), raw(8, 7));
    let from = raw(-40, 12);
    let mut step: u32 = 1;
    while step < MIN_STEP {
        let mut tx = -9;
        while tx <= 9 {
            let to = raw(tx * 1_000 + 3, 17 - tx * 351);
            let p = steer(&from, &to, step);
            assert!(from.distance(&p) <= step as u64);
            assert!(from.distance(&p) + 2 >= step as u64);
            assert_eq!(try_steer(&from, &to, step), Some(p));
            tx += 1;
        }
        step += 37;
    }
}

#[test]
fn try_steer_asks_only_that_the_point_reached_fits() {
    // One step from the edge: inward and along the edge there is room.
    let corner = raw(i32::MAX - 5, i32::MIN + 5);
    assert_eq!(try_steer(&corner, &raw(0, i32::MIN + 5), units(10)), Some(raw(i32::MAX - 5 - 655_360, i32::MIN + 5)));
    assert_eq!(try_steer(&corner, &raw(i32::MAX - 5, 0), units(10)), Some(raw(i32::MAX - 5, i32::MIN + 5 + 655_360)));
    assert_eq!(try_steer(&corner, &raw(i32::MAX, i32::MIN + 5), units(10)), None);
    assert_eq!(try_steer(&corner, &raw(i32::MAX - 5, i32::MIN), units(10)), None);
    assert_eq!(try_steer(&corner, &corner, units(10)), None);
    assert_eq!(try_steer(&corner, &corner, 5), Some(raw(i32::MAX, i32::MIN + 5)));
    assert_eq!(try_steer(&corner, &corner, 6), None);
    assert_eq!(try_steer(&raw(0, 0), &raw(3, 4), units(10)), Some(pt(6, 8)));
}

#[test]
fn try_steer_with_the_longest_steps() {
    let low = raw(i32::MIN, i32::MIN);
    let high = raw(i32::MAX, i32::MAX);
    assert_eq!(try_steer(&low, &high, u32::MAX), Some(raw(889_516_851, 889_516_851)));
    assert_eq!(try_steer(&raw(i32::MIN, 0), &raw(i32::MAX, 0), u32::MAX), Some(raw(i32::MAX, 0)));
    assert_eq!(try_steer(&raw(i32::MIN + 1, 0), &raw(i32::MAX, 0), u32::MAX), None);
    assert_eq!(try_steer(&raw(0, 0), &raw(1, 1), u32::MAX), None);
    assert_eq!(try_steer(&raw(0, 0), &raw(1, 0), 0x7FFF_FFFF), Some(raw(i32::MAX, 0)));
    assert_eq!(try_steer(&raw(0, 0), &raw(1, 0), 0x8000_0000), None);
    assert_eq!(try_steer(&raw(0, 0), &raw(-1, 0), 0x8000_0000), Some(raw(i32::MIN, 0)));
}
