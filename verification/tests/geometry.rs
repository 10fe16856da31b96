use arena_core::geometry::{
    ray_vs_rect, rect_overlaps, segment_vs_rect, swept_rect_vs_rect, Rect, Time, Vector,
};

fn v(x: i32, y: i32) -> Vector {
    Vector { x, y }
}

fn r(x: i32, y: i32, w: i32, h: i32) -> Rect {
    Rect { x, y, w, h }
}

#[test]
fn overlapping_rects_touch_at_edges() {
    let a = r(0, 0, 10, 10);
    assert!(rect_overlaps(&a, &r(10, 0, 5, 5)));
    assert!(rect_overlaps(&a, &r(10, 10, 5, 5)));
    assert!(rect_overlaps(&a, &r(3, 3, 2, 2)));
    assert!(!rect_overlaps(&a, &r(11, 0, 5, 5)));
    assert!(!rect_overlaps(&a, &r(0, -6, 5, 5)));
}

#[test]
fn degenerate_rects_never_overlap() {
    let a = r(0, 0, 10, 10);
    assert!(!rect_overlaps(&a, &r(5, 5, 0, 4)));
    assert!(!rect_overlaps(&a, &r(5, 5, 4, 0)));
    assert!(!rect_overlaps(&r(5, 5, -3, 4), &a));
}

#[test]
fn overlap_at_the_ends_of_the_coordinate_range() {
    let a = r(i32::MAX - 1, i32::MAX - 1, i32::MAX, i32::MAX);
    let b = r(i32::MIN, i32::MIN, i32::MAX, i32::MAX);
    assert!(!rect_overlaps(&a, &b));
    assert!(rect_overlaps(&a, &a));
}

#[test]
fn ray_hits_rect_at_half() {
    let rect = r(10, -5, 10, 10);
    let hit = ray_vs_rect(v(0, 0), v(20, 0), &rect).unwrap();
    assert_eq!(hit.time, Time { num: 10, den: 20 });
    assert_eq!(hit.normal, v(-1, 0));
    assert_eq!((hit.x, hit.y), (10, 0));
}

#[test]
fn ray_from_the_right_has_normal_to_the_right() {
    let rect = r(10, -5, 10, 10);
    let hit = ray_vs_rect(v(40, 0), v(-40, 0), &rect).unwrap();
    assert_eq!(hit.time, Time { num: 20, den: 40 });
    assert_eq!(hit.normal, v(1, 0));
    assert_eq!((hit.x, hit.y), (20, 0));
}

#[test]
fn ray_from_above_and_below() {
    let rect = r(-5, 10, 10, 10);
    let down = ray_vs_rect(v(0, 0), v(0, 40), &rect).unwrap();
    assert_eq!(down.time, Time { num: 10, den: 40 });
    assert_eq!(down.normal, v(0, -1));
    let up = ray_vs_rect(v(0, 30), v(0, -20), &rect).unwrap();
    assert_eq!(up.time, Time { num: 10, den: 20 });
    assert_eq!(up.normal, v(0, 1));
    assert_eq!((up.x, up.y), (0, 20));
}

#[test]
fn diagonal_ray_takes_the_axis_entered_last() {
    let rect = r(10, 0, 10, 100);
    // enters the vertical interval at once, the horizontal one at 1/3
    let hit = ray_vs_rect(v(0, 1), v(30, 30), &rect).unwrap();
    assert_eq!(hit.time, Time { num: 10, den: 30 });
    assert_eq!(hit.normal, v(-1, 0));
    assert_eq!((hit.x, hit.y), (10, 11));
    let rect = r(0, 10, 100, 10);
    let hit = ray_vs_rect(v(1, 0), v(30, 30), &rect).unwrap();
    assert_eq!(hit.normal, v(0, -1));
    assert_eq!((hit.x, hit.y), (11, 10));
}

#[test]
fn contact_point_is_rounded_down() {
    let rect = r(10, -100, 10, 200);
    let hit = ray_vs_rect(v(0, 0), v(30, 10), &rect).unwrap();
    // at time 1/3 the ray is at y = 10/3
    assert_eq!((hit.x, hit.y), (10, 3));
    let hit = ray_vs_rect(v(0, 0), v(30, -10), &rect).unwrap();
    // at time 1/3 the ray is at y = -10/3, rounded down to -4
    assert_eq!((hit.x, hit.y), (10, -4));
}

#[test]
fn ray_through_a_corner_takes_the_horizontal_axis() {
    let rect = r(10, 10, 10, 10);
    let hit = ray_vs_rect(v(0, 0), v(20, 20), &rect).unwrap();
    assert_eq!(hit.time, Time { num: 10, den: 20 });
    assert_eq!(hit.normal, v(-1, 0));
}

#[test]
fn ray_that_ends_before_the_rect_misses() {
    let rect = r(10, -5, 10, 10);
    assert!(ray_vs_rect(v(0, 0), v(9, 0), &rect).is_none());
}

#[test]
fn ray_that_ends_on_the_edge_hits_at_one() {
    let rect = r(10, -5, 10, 10);
    let hit = ray_vs_rect(v(0, 0), v(10, 0), &rect).unwrap();
    assert_eq!(hit.time, Time { num: 10, den: 10 });
}

#[test]
fn ray_pointing_away_misses() {
    let rect = r(10, -5, 10, 10);
    assert!(ray_vs_rect(v(0, 0), v(-20, 0), &rect).is_none());
}

#[test]
fn ray_passing_beside_misses() {
    let rect = r(10, 10, 10, 10);
    assert!(ray_vs_rect(v(0, 0), v(30, 5), &rect).is_none());
}

#[test]
fn ray_from_inside_has_no_contact() {
    let rect = r(0, 0, 10, 10);
    assert!(ray_vs_rect(v(5, 5), v(20, 0), &rect).is_none());
}

#[test]
fn ray_with_zero_direction_misses() {
    let rect = r(0, 0, 10, 10);
    assert!(ray_vs_rect(v(-5, 5), v(0, 0), &rect).is_none());
    assert!(ray_vs_rect(v(0, 5), v(0, 0), &rect).is_none());
}

#[test]
fn ray_against_degenerate_rect_misses() {
    assert!(ray_vs_rect(v(0, 0), v(20, 0), &r(10, -5, 0, 10)).is_none());
    assert!(ray_vs_rect(v(0, 0), v(20, 0), &r(10, -5, 10, 0)).is_none());
}

#[test]
fn ray_from_the_boundary_inward_hits_at_zero() {
    let rect = r(0, 0, 10, 10);
    let hit = ray_vs_rect(v(0, 5), v(3, 0), &rect).unwrap();
    assert_eq!(hit.time.num, 0);
    assert!(hit.time.den > 0);
    assert_eq!(hit.normal, v(-1, 0));
    let hit = ray_vs_rect(v(5, 10), v(1, -4), &rect).unwrap();
    assert_eq!(hit.time.num, 0);
    assert_eq!(hit.normal, v(0, 1));
    let hit = ray_vs_rect(v(0, 0), v(2, 7), &rect).unwrap();
    assert_eq!(hit.time.num, 0);
}

#[test]
fn parallel_ray_outside_the_slab_misses() {
    let rect = r(0, 0, 10, 10);
    assert!(ray_vs_rect(v(-5, 11), v(30, 0), &rect).is_none());
    assert!(ray_vs_rect(v(-5, -1), v(30, 0), &rect).is_none());
    assert!(ray_vs_rect(v(11, -5), v(0, 30), &rect).is_none());
}

#[test]
fn parallel_ray_along_the_edge_hits() {
    let rect = r(0, 0, 10, 10);
    let hit = ray_vs_rect(v(-10, 10), v(20, 0), &rect).unwrap();
    assert_eq!(hit.time, Time { num: 10, den: 20 });
}

#[test]
fn ray_with_extreme_coordinates() {
    let rect = r(i32::MAX - 10, i32::MIN, 10, i32::MAX);
    let hit = ray_vs_rect(v(i32::MIN, -5), v(i32::MAX, 0), &rect);
    assert!(hit.is_none());
    let rect = r(-1, i32::MIN, 2, i32::MAX);
    let hit = ray_vs_rect(v(i32::MIN, -5), v(i32::MAX, 0), &rect).unwrap();
    assert_eq!(hit.time, Time { num: i32::MAX as i64, den: i32::MAX as i64 });
}

#[test]
fn segment_between_two_points() {
    let rect = r(10, -5, 10, 10);
    let hit = segment_vs_rect(v(0, 0), v(40, 0), &rect).unwrap();
    assert_eq!(hit.time, Time { num: 10, den: 40 });
    assert!(segment_vs_rect(v(0, 0), v(5, 0), &rect).is_none());
    let hit = segment_vs_rect(v(i32::MIN, 0), v(i32::MAX, 0), &rect).unwrap();
    assert_eq!(hit.time.den, i32::MAX as i64 - i32::MIN as i64);
    assert_eq!(hit.time.num, 10 - i32::MIN as i64);
}

#[test]
fn sweep_with_zero_velocity_reports_nothing() {
    let moving = r(0, 0, 4, 4);
    let target = r(2, 2, 4, 4);
    assert!(swept_rect_vs_rect(&moving, v(0, 0), &target, 1).is_none());
    assert!(swept_rect_vs_rect(&moving, v(5, 5), &target, 0).is_none());
}

#[test]
fn sweep_gives_exact_time_of_impact() {
    // the moving box's right edge is at 4, the target's left at 7: a gap
    // of 3, covered at 3/10 of a displacement of 10
    let moving = r(0, 0, 4, 4);
    let target = r(7, 0, 4, 4);
    let hit = swept_rect_vs_rect(&moving, v(10, 0), &target, 1).unwrap();
    assert_eq!(hit.time, Time { num: 3, den: 10 });
    assert_eq!(hit.normal, v(-1, 0));
    assert_eq!((hit.x, hit.y), (3, 0));
}

#[test]
fn sweep_scales_velocity_by_delta_time() {
    let moving = r(0, 0, 4, 4);
    let target = r(7, 0, 4, 4);
    assert!(swept_rect_vs_rect(&moving, v(1, 0), &target, 2).is_none());
    let hit = swept_rect_vs_rect(&moving, v(1, 0), &target, 3).unwrap();
    assert_eq!(hit.time, Time { num: 3, den: 3 });
    let hit = swept_rect_vs_rect(&moving, v(2, 0), &target, 5).unwrap();
    assert_eq!(hit.time, Time { num: 3, den: 10 });
}

#[test]
fn sweep_never_tunnels_through_a_thin_wall() {
    let moving = r(0, 0, 4, 4);
    let wall = r(500, -50, 1, 100);
    let hit = swept_rect_vs_rect(&moving, v(1_000_000, 0), &wall, 1).unwrap();
    assert_eq!(hit.time, Time { num: 496, den: 1_000_000 });
    let hit = swept_rect_vs_rect(&moving, v(i32::MAX, 0), &wall, u32::MAX).unwrap();
    assert_eq!(hit.time.num, 496);
    assert_eq!(hit.time.den, i32::MAX as i64 * u32::MAX as i64);
    let hit = swept_rect_vs_rect(&moving, v(i32::MAX, 3), &wall, 7).unwrap();
    assert_eq!(hit.normal, v(-1, 0));
}

#[test]
fn sweep_of_overlapping_rects_reports_nothing() {
    let moving = r(0, 0, 4, 4);
    let target = r(2, 2, 4, 4);
    assert!(swept_rect_vs_rect(&moving, v(5, 0), &target, 1).is_none());
}

#[test]
fn sweep_of_touching_rects_moving_in_hits_at_zero() {
    let moving = r(0, 0, 4, 4);
    let target = r(4, 0, 4, 4);
    let hit = swept_rect_vs_rect(&moving, v(5, 0), &target, 1).unwrap();
    assert_eq!(hit.time.num, 0);
    assert_eq!(hit.normal, v(-1, 0));
}

#[test]
fn sweep_of_degenerate_rects_reports_nothing() {
    let target = r(7, 0, 4, 4);
    assert!(swept_rect_vs_rect(&r(0, 0, 0, 4), v(10, 0), &target, 1).is_none());
    assert!(swept_rect_vs_rect(&r(0, 0, 4, 4), v(10, 0), &r(7, 0, 4, 0), 1).is_none());
}

#[test]
fn sweep_past_the_target_misses() {
    let moving = r(0, 0, 4, 4);
    let target = r(7, 10, 4, 4);
    assert!(swept_rect_vs_rect(&moving, v(10, 0), &target, 1).is_none());
    let hit = swept_rect_vs_rect(&moving, v(10, 10), &target, 1).unwrap();
    // horizontal gap 3 of 10, vertical gap 6 of 10: the vertical axis is entered last
    assert_eq!(hit.time, Time { num: 6, den: 10 });
    assert_eq!(hit.normal, v(0, -1));
}

#[test]
fn times_compare_as_fractions() {
    let fifth = Time { num: 1, den: 5 };
    let half = Time { num: 1, den: 2 };
    let two_tenths = Time { num: 2, den: 10 };
    assert!(fifth.is_earlier(&half));
    assert!(!half.is_earlier(&fifth));
    assert!(!fifth.is_earlier(&two_tenths));
    assert!(fifth.is_same(&two_tenths));
    assert!(!fifth.is_same(&half));
    let big = Time { num: i64::MAX - 1, den: i64::MAX };
    let one = Time { num: i64::MAX, den: i64::MAX };
    assert!(big.is_earlier(&one));
}
