use connect_pairs::blocking::{blocking_at, first_block, ConnectionData};
use connect_pairs::geometry::{
    intersect_ray_circle, intersect_ray_segment, Circle, HitTime, Ray, Segment, Vector,
    COORD_LIMIT, TICKS_PER_UNIT,
};
use connect_pairs::level::{GridPos, ObstacleData, OBSTACLE_RADIUS};
use connect_pairs::quadratic::Constraint;
use parry2d::query::RayCast;

fn v(x: i64, y: i64) -> Vector {
    Vector { x, y }
}

fn ray(ox: i64, oy: i64, tx: i64, ty: i64) -> Ray {
    Ray::between(v(ox, oy), v(tx, ty))
}

fn circle(x: i64, y: i64, radius: i64) -> Circle {
    Circle { center: v(x, y), radius }
}

fn segment(ax: i64, ay: i64, bx: i64, by: i64) -> Segment {
    Segment { a: v(ax, ay), b: v(bx, by) }
}

fn ticks(hit: Option<HitTime>) -> Option<u32> {
    hit.map(|t| t.ticks)
}

#[test]
fn ray_between_two_points() {
    let r = ray(256, 512, 0, 1024);
    assert_eq!(r.origin, v(256, 512));
    assert_eq!(r.dir, v(-256, 512));
    assert!(v(COORD_LIMIT, -COORD_LIMIT).is_in_world());
    assert!(!v(COORD_LIMIT + 1, 0).is_in_world());
    assert!(!v(0, -COORD_LIMIT - 1).is_in_world());
}

#[test]
fn circle_hit_at_three_tenths() {
    let hit = intersect_ray_circle(&ray(0, 0, 1280, 0), &circle(512, 0, 128));
    assert_eq!(ticks(hit), Some(19660));
}

#[test]
fn circle_hit_at_seven_tenths() {
    let hit = intersect_ray_circle(&ray(0, 0, 1280, 0), &circle(1024, 0, 128));
    assert_eq!(ticks(hit), Some(45875));
}

#[test]
fn circle_hit_on_a_tick_boundary() {
    let hit = intersect_ray_circle(&ray(0, 0, 512, 0), &circle(384, 0, 128));
    assert_eq!(ticks(hit), Some(32768));
}

#[test]
fn circle_missed() {
    assert_eq!(intersect_ray_circle(&ray(0, 0, 1280, 0), &circle(512, 129, 128)), None);
    assert_eq!(intersect_ray_circle(&ray(0, 0, 1280, 0), &circle(-512, 0, 128)), None);
    assert_eq!(intersect_ray_circle(&ray(0, 0, 256, 0), &circle(512, 0, 128)), None);
}

#[test]
fn circle_touched_from_the_side() {
    let hit = intersect_ray_circle(&ray(0, 128, 1280, 128), &circle(512, 0, 128));
    assert_eq!(ticks(hit), Some(26214));
}

#[test]
fn circle_reached_only_at_the_end_does_not_block() {
    assert_eq!(intersect_ray_circle(&ray(0, 0, 384, 0), &circle(512, 0, 128)), None);
    let hit = intersect_ray_circle(&ray(0, 0, 385, 0), &circle(512, 0, 128));
    assert_eq!(ticks(hit), Some(65365));
}

#[test]
fn circle_around_the_origin_blocks_at_once() {
    assert_eq!(ticks(intersect_ray_circle(&ray(0, 0, 1280, 0), &circle(64, 64, 128))), Some(0));
    assert_eq!(ticks(intersect_ray_circle(&ray(0, 0, 1280, 0), &circle(-128, 0, 128))), Some(0));
}

#[test]
fn motion_that_does_not_move() {
    assert_eq!(ticks(intersect_ray_circle(&ray(5, 5, 5, 5), &circle(0, 0, 128))), Some(0));
    assert_eq!(intersect_ray_circle(&ray(500, 5, 500, 5), &circle(0, 0, 128)), None);
    assert_eq!(ticks(intersect_ray_segment(&ray(5, 0, 5, 0), &segment(0, 0, 10, 0))), Some(0));
    assert_eq!(intersect_ray_segment(&ray(5, 1, 5, 1), &segment(0, 0, 10, 0)), None);
}

#[test]
fn circle_of_radius_zero_is_a_point() {
    assert_eq!(ticks(intersect_ray_circle(&ray(0, 0, 400, 0), &circle(100, 0, 0))), Some(16384));
    assert_eq!(intersect_ray_circle(&ray(0, 0, 400, 0), &circle(100, 1, 0)), None);
}

#[test]
fn segment_crossed_halfway() {
    let hit = intersect_ray_segment(&ray(0, 0, 512, 0), &segment(256, -256, 256, 256));
    assert_eq!(ticks(hit), Some(32768));
    let hit = intersect_ray_segment(&ray(0, 0, 512, 0), &segment(256, 256, 256, -256));
    assert_eq!(ticks(hit), Some(32768));
}

#[test]
fn segment_crossed_at_a_third() {
    let hit = intersect_ray_segment(&ray(0, 0, 768, 768), &segment(0, 512, 512, 0));
    assert_eq!(ticks(hit), Some(21845));
}

#[test]
fn segment_missed() {
    assert_eq!(intersect_ray_segment(&ray(0, 0, 512, 0), &segment(256, 1, 256, 256)), None);
    assert_eq!(intersect_ray_segment(&ray(0, 0, 512, 0), &segment(-256, -256, -256, 256)), None);
    assert_eq!(intersect_ray_segment(&ray(0, 0, 512, 0), &segment(0, 256, 512, 256)), None);
    assert_eq!(intersect_ray_segment(&ray(0, 0, 512, 0), &segment(768, -256, 768, 256)), None);
}

#[test]
fn segment_touched_at_its_end() {
    let hit = intersect_ray_segment(&ray(0, 0, 512, 0), &segment(256, 0, 256, 256));
    assert_eq!(ticks(hit), Some(32768));
}

#[test]
fn segment_reached_only_at_the_end_does_not_block() {
    assert_eq!(intersect_ray_segment(&ray(0, 0, 512, 0), &segment(512, -256, 512, 256)), None);
    assert_eq!(intersect_ray_segment(&ray(0, 0, 512, 0), &segment(512, 0, 768, 0)), None);
}

#[test]
fn segment_that_begins_at_the_origin_blocks_at_once() {
    assert_eq!(ticks(intersect_ray_segment(&ray(0, 0, 512, 0), &segment(0, 0, 0, 256))), Some(0));
    assert_eq!(ticks(intersect_ray_segment(&ray(0, 0, 512, 0), &segment(-256, 0, 256, 0))), Some(0));
}

#[test]
fn segment_along_the_motion() {
    let hit = intersect_ray_segment(&ray(0, 0, 1024, 0), &segment(512, 0, 768, 0));
    assert_eq!(ticks(hit), Some(32768));
    let hit = intersect_ray_segment(&ray(0, 0, 1024, 0), &segment(768, 0, 512, 0));
    assert_eq!(ticks(hit), Some(32768));
    assert_eq!(intersect_ray_segment(&ray(0, 0, 1024, 0), &segment(-768, 0, -512, 0)), None);
    assert_eq!(intersect_ray_segment(&ray(0, 0, 1024, 0), &segment(1025, 0, 2048, 0)), None);
}

#[test]
fn segment_that_is_a_point() {
    let hit = intersect_ray_segment(&ray(0, 0, 1024, 0), &segment(256, 0, 256, 0));
    assert_eq!(ticks(hit), Some(16384));
    assert_eq!(intersect_ray_segment(&ray(0, 0, 1024, 0), &segment(256, 1, 256, 1)), None);
}

#[test]
fn the_largest_world_is_computed_without_overflow() {
    let far = COORD_LIMIT;
    let r = ray(-far, -far, far, far);
    assert_eq!(ticks(intersect_ray_circle(&r, &circle(0, 0, far))), Some(9597));
    assert_eq!(ticks(intersect_ray_segment(&r, &segment(-far, far, far, -far))), Some(32768));
    assert_eq!(ticks(intersect_ray_segment(&r, &segment(far, far, far, far))), None);
    assert_eq!(ticks(intersect_ray_circle(&r, &circle(far, -far, 0))), None);
}

#[test]
fn constraint_met_before_a_limit() {
    // t^2 - 3 t + 2 <= 0 holds for t in [1, 2]
    let k = Constraint { line0: 0, line1: 0, a: 1, b: -3, c: 2 };
    assert!(!k.is_met_before(1, 1));
    assert!(k.is_met_before(3, 2));
    assert!(k.is_met_before(65536, 65535));
    assert!(!k.is_met_before(65535, 65536));
    assert!(!k.is_met_before(0, 1));
    // the line 2 - 4 t == 0 holds at t = 1/2 only
    let k = Constraint { line0: 2, line1: -4, a: 0, b: 0, c: -1 };
    assert!(!k.is_met_before(1, 2));
    assert!(k.is_met_before(2, 3));
    let k = Constraint { line0: 2, line1: -4, a: 0, b: 0, c: 1 };
    assert!(!k.is_met_before(1, 1));
    let k = Constraint { line0: 1, line1: 0, a: 0, b: 0, c: -1 };
    assert!(!k.is_met_before(1, 1));
}

#[test]
fn constraint_first_step() {
    // 4 t^2 - 4 t + 1 <= 0 holds at t = 1/2 only
    let k = Constraint { line0: 0, line1: 0, a: 4, b: -4, c: 1 };
    assert_eq!(k.first_step(10), Some(5));
    assert_eq!(k.first_step(3), Some(1));
    assert_eq!(k.first_step(1), Some(0));
    // t^2 - 3 t + 2 <= 0 first holds at t = 1
    let k = Constraint { line0: 0, line1: 0, a: 1, b: -3, c: 2 };
    assert_eq!(k.first_step(10), None);
    // always
    let k = Constraint { line0: 0, line1: 0, a: 0, b: 0, c: 0 };
    assert_eq!(k.first_step(65536), Some(0));
}

fn obstacle(x: i64, y: i64) -> ObstacleData {
    ObstacleData { position: GridPos { x, y }, radius: OBSTACLE_RADIUS }
}

fn link(layout_index: usize, ax: i64, ay: i64, bx: i64, by: i64) -> ConnectionData {
    ConnectionData {
        layout_index,
        from_point_index: 0,
        to_point_index: 1,
        segment: segment(ax * 256, ay * 256, bx * 256, by * 256),
    }
}

#[test]
fn of_two_obstacles_the_nearer_blocks() {
    let way = ray(0, 0, 1280, 0);
    let near_first = vec![obstacle(2, 0), obstacle(4, 0)];
    let far_first = vec![obstacle(4, 0), obstacle(2, 0)];
    let none: Vec<ConnectionData> = Vec::new();
    assert_eq!(ticks(first_block(&near_first, &none, 0, &way)), Some(19660));
    assert_eq!(ticks(first_block(&far_first, &none, 0, &way)), Some(19660));
    assert_eq!(ticks(first_block(&vec![obstacle(4, 0)], &none, 0, &way)), Some(45875));
    assert_eq!(first_block(&Vec::new(), &none, 0, &way), None);
}

#[test]
fn the_blocking_point_is_where_the_motion_has_got() {
    let way = ray(0, 0, 1280, 0);
    let hit = first_block(&vec![obstacle(4, 0), obstacle(2, 0)], &Vec::new(), 0, &way).unwrap();
    let b = blocking_at(&way, hit);
    assert_eq!(b.time, HitTime { ticks: 19660 });
    assert_eq!(b.point, v(383, 0));
    let back = ray(1280, 256, 0, -256);
    let b = blocking_at(&back, HitTime { ticks: 32768 });
    assert_eq!(b.point, v(640, 0));
    let b = blocking_at(&back, HitTime { ticks: 1 });
    assert_eq!(b.point, v(1280, 256));
    let b = blocking_at(&back, HitTime { ticks: TICKS_PER_UNIT - 1 });
    assert_eq!(b.point, v(1, -255));
}

#[test]
fn connections_block_in_their_own_layout_only() {
    let way = ray(0, 0, 1280, 0);
    let path = vec![link(1, 1, -1, 1, 1), link(0, 3, -1, 3, 1), link(0, 2, -1, 2, 1)];
    assert_eq!(ticks(first_block(&Vec::new(), &path, 0, &way)), Some(26214));
    assert_eq!(ticks(first_block(&Vec::new(), &path, 1, &way)), Some(13107));
    assert_eq!(first_block(&Vec::new(), &path, 2, &way), None);
    assert_eq!(ticks(first_block(&vec![obstacle(2, 0)], &path, 0, &way)), Some(19660));
    assert_eq!(ticks(first_block(&vec![obstacle(2, 0)], &path, 1, &way)), Some(13107));
}

fn parry_ray(r: &Ray, shift: Vector) -> parry2d::query::Ray {
    parry2d::query::Ray::new(
        parry2d::math::Vector::new((r.origin.x - shift.x) as f32, (r.origin.y - shift.y) as f32),
        parry2d::math::Vector::new(r.dir.x as f32, r.dir.y as f32),
    )
}

fn cross(ax: i64, ay: i64, bx: i64, by: i64) -> i64 {
    ax * by - ay * bx
}

#[test]
fn circle_hits_agree_with_floating_point_ray_casts() {
    let ball = parry2d::shape::Ball::new(128.0);
    let mut compared = 0;
    for ox in -2..=2i64 {
        for tx in -3..=3i64 {
            for ty in -3..=3i64 {
                for cx in -2..=2i64 {
                    let r = ray(ox * 256, 64, tx * 256, ty * 256 + 32);
                    let c = circle(cx * 256, 256, 128);
                    let ours = intersect_ray_circle(&r, &c);
                    let theirs = ball
                        .cast_local_ray(&parry_ray(&r, c.center), f32::MAX, true)
                        .filter(|t| *t < 1.0);
                    match (ours, theirs) {
                        (Some(a), Some(b)) => {
                            let t = a.ticks as f32 / 65536.0;
                            assert!((t - b).abs() < 0.001, "{:?} {:?}: {} {}", r, c, t, b);
                            compared += 1;
                        }
                        (None, None) => compared += 1,
                        (Some(a), None) => assert!(a.ticks > 65000, "{:?} {:?}", r, c),
                        (None, Some(b)) => assert!(b > 0.999, "{:?} {:?}", r, c),
                    }
                }
            }
        }
    }
    assert!(compared > 1000);
}

#[test]
fn segment_hits_agree_with_floating_point_ray_casts() {
    let mut compared = 0;
    for tx in -3..=3i64 {
        for ty in -3..=3i64 {
            for ax in -2..=2i64 {
                for ay in -2..=2i64 {
                    for bx in -2..=2i64 {
                        let r = ray(32, 64, tx * 256, ty * 256);
                        let s = segment(ax * 256, ay * 256, bx * 256, 128);
                        let (ex, ey) = (s.b.x - s.a.x, s.b.y - s.a.y);
                        let grazing = cross(r.dir.x, r.dir.y, ex, ey) == 0
                            || cross(s.a.x - r.origin.x, s.a.y - r.origin.y, r.dir.x, r.dir.y) == 0
                            || cross(s.b.x - r.origin.x, s.b.y - r.origin.y, r.dir.x, r.dir.y) == 0;
                        if grazing {
                            continue;
                        }
                        let ours = intersect_ray_segment(&r, &s);
                        let theirs = parry2d::shape::Segment::new(
                            parry2d::math::Vector::new(s.a.x as f32, s.a.y as f32),
                            parry2d::math::Vector::new(s.b.x as f32, s.b.y as f32),
                        )
                        .cast_local_ray(&parry_ray(&r, v(0, 0)), f32::MAX, true)
                        .filter(|t| *t < 1.0);
                        match (ours, theirs) {
                            (Some(a), Some(b)) => {
                                let t = a.ticks as f32 / 65536.0;
                                assert!((t - b).abs() < 0.001, "{:?} {:?}: {} {}", r, s, t, b);
                                compared += 1;
                            }
                            (None, None) => compared += 1,
                            (Some(a), None) => assert!(a.ticks > 65000, "{:?} {:?}", r, s),
                            (None, Some(b)) => assert!(b > 0.999, "{:?} {:?}", r, s),
                        }
                    }
                }
            }
        }
    }
    assert!(compared > 1000);
}
