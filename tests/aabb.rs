use wasm_physics::aabb::{Vec2, AABB};

fn bx(lx: i32, ly: i32, ux: i32, uy: i32) -> AABB {
    AABB { lower_bound: Vec2::new(lx, ly), upper_bound: Vec2::new(ux, uy) }
}

#[test]
fn join_takes_componentwise_min_and_max() {
    let a = bx(0, 3, 4, 5);
    let b = bx(-2, 4, 3, 9);
    assert_eq!(AABB::join(&a, &b), bx(-2, 3, 4, 9));
}

#[test]
fn join_is_commutative() {
    let a = bx(1, -7, 2, 0);
    let b = bx(-3, 4, 8, 6);
    assert_eq!(AABB::join(&a, &b), AABB::join(&b, &a));
}

#[test]
fn join_is_idempotent() {
    let a = bx(-5, 2, 7, 11);
    assert_eq!(AABB::join(&a, &a), a);
}

#[test]
fn join_is_associative() {
    let a = bx(0, 0, 1, 1);
    let b = bx(5, -2, 6, 3);
    let c = bx(-4, 8, -1, 9);
    assert_eq!(
        AABB::join(&AABB::join(&a, &b), &c),
        AABB::join(&a, &AABB::join(&b, &c))
    );
}

#[test]
fn join_costs_at_least_either_part() {
    let a = bx(0, 0, 1, 1);
    let b = bx(5, 5, 6, 6);
    let j = AABB::join(&a, &b);
    assert_eq!(j.surface_area(), 24);
    assert!(j.surface_area() >= a.surface_area());
    assert!(j.surface_area() >= b.surface_area());
}

#[test]
fn surface_area_is_perimeter() {
    assert_eq!(bx(0, 0, 3, 2).surface_area(), 10);
    assert_eq!(bx(-4, -1, 4, 1).surface_area(), 20);
}

#[test]
fn surface_area_of_point_is_zero() {
    assert_eq!(bx(3, 3, 3, 3).surface_area(), 0);
    assert_eq!(bx(3, 3, 3, 4).surface_area(), 2);
}

#[test]
fn surface_area_of_widest_box() {
    let b = bx(i32::MIN, i32::MIN, i32::MAX, i32::MAX);
    assert_eq!(b.surface_area(), 4 * (u32::MAX as i64));
}

#[test]
fn box_ray_cast_crossing_segment() {
    let b = bx(0, 0, 2, 2);
    assert!(b.ray_cast(Vec2::new(-2, 1), Vec2::new(4, 1)));
}

#[test]
fn box_ray_cast_segment_far_away() {
    let b = bx(0, 0, 2, 2);
    assert!(!b.ray_cast(Vec2::new(20, 20), Vec2::new(40, 40)));
}

#[test]
fn box_ray_cast_segment_stops_short() {
    let b = bx(0, 0, 2, 2);
    assert!(!b.ray_cast(Vec2::new(-5, 1), Vec2::new(-1, 1)));
    assert!(b.ray_cast(Vec2::new(-5, 1), Vec2::new(0, 1)));
}

#[test]
fn box_ray_cast_touching_edge_counts() {
    let b = bx(0, 0, 2, 2);
    assert!(b.ray_cast(Vec2::new(-1, 2), Vec2::new(3, 2)));
    assert!(!b.ray_cast(Vec2::new(-1, 3), Vec2::new(3, 3)));
}

#[test]
fn box_ray_cast_touching_corner_counts() {
    let b = bx(0, 0, 2, 2);
    assert!(b.ray_cast(Vec2::new(1, 3), Vec2::new(3, 1)));
    assert!(!b.ray_cast(Vec2::new(1, 4), Vec2::new(4, 1)));
}

#[test]
fn box_ray_cast_diagonal_passing_corner() {
    let b = bx(0, 0, 2, 2);
    // passes just above the corner (2, 2)
    assert!(!b.ray_cast(Vec2::new(0, 5), Vec2::new(5, 0)));
    assert!(b.ray_cast(Vec2::new(0, 4), Vec2::new(4, 0)));
}

#[test]
fn box_ray_cast_direction_does_not_matter() {
    let b = bx(0, 0, 2, 2);
    assert!(b.ray_cast(Vec2::new(4, 1), Vec2::new(-2, 1)));
    assert!(b.ray_cast(Vec2::new(1, 5), Vec2::new(1, -5)));
    assert!(b.ray_cast(Vec2::new(1, -5), Vec2::new(1, 5)));
}

#[test]
fn box_ray_cast_point_segment() {
    let b = bx(0, 0, 2, 2);
    assert!(b.ray_cast(Vec2::new(1, 1), Vec2::new(1, 1)));
    assert!(b.ray_cast(Vec2::new(2, 0), Vec2::new(2, 0)));
    assert!(!b.ray_cast(Vec2::new(3, 1), Vec2::new(3, 1)));
}

#[test]
fn box_ray_cast_segment_inside() {
    let b = bx(-10, -10, 10, 10);
    assert!(b.ray_cast(Vec2::new(-1, -2), Vec2::new(3, 4)));
}

#[test]
fn box_ray_cast_far_coordinates() {
    let b = bx(i32::MAX - 1, i32::MAX - 1, i32::MAX, i32::MAX);
    assert!(b.ray_cast(Vec2::new(i32::MIN, i32::MIN), Vec2::new(i32::MAX, i32::MAX)));
    assert!(!b.ray_cast(Vec2::new(i32::MIN, i32::MIN + 4), Vec2::new(i32::MAX, i32::MAX - 3)));
}
