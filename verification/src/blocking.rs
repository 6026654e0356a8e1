//! What stands in the way of a new connection: the obstacles of the layout
//! and the connections already drawn in it.

use vstd::prelude::*;
use crate::geometry::{
    circle_first_hit,
    circle_hit_before,
    intersect_ray_circle,
    intersect_ray_segment,
    lemma_circle_hit_later,
    lemma_segment_hit_later,
    segment_first_hit,
    segment_hit_before,
    HitTime,
    Ray,
    Segment,
    Vector,
    TICKS_PER_UNIT,
};
use crate::level::ObstacleData;

verus! {

/// A connection that the player has drawn, from one point of a layout to
/// another, with the segment between them in lattice units.
#[derive(Clone, Copy, Debug, PartialEq, Eq, Structural)]
pub struct ConnectionData {
    pub layout_index: usize,
    pub from_point_index: usize,
    pub to_point_index: usize,
    pub segment: Segment,
}

/// Where a motion is stopped: the tick of the first hit, and the point the
/// motion has reached at the start of that tick.
#[derive(Clone, Copy, Debug, PartialEq, Eq, Structural)]
pub struct Blocking {
    pub time: HitTime,
    pub point: Vector,
}

/// One of the first `n` obstacles is hit before `num / den`.
pub open spec fn obstacles_hit(
    obstacles: Seq<ObstacleData>,
    n: int,
    ray: Ray,
    num: int,
    den: int,
) -> bool {
    exists|k: int|
        0 <= k < n && circle_hit_before(ray, (#[trigger] obstacles[k]).disc(), num, den)
}

/// One of the first `n` connections lies in `layout` and is hit before `num / den`.
pub open spec fn links_hit(
    path: Seq<ConnectionData>,
    n: int,
    layout: usize,
    ray: Ray,
    num: int,
    den: int,
) -> bool {
    exists|i: int|
        0 <= i < n && (#[trigger] path[i]).layout_index == layout && segment_hit_before(
            ray,
            path[i].segment,
            num,
            den,
        )
}

/// Something stands in the way before `num / den`: an obstacle, or a
/// connection drawn in `layout`.
pub open spec fn blocked_before(
    obstacles: Seq<ObstacleData>,
    path: Seq<ConnectionData>,
    layout: usize,
    ray: Ray,
    num: int,
    den: int,
) -> bool {
    obstacles_hit(obstacles, obstacles.len() as int, ray, num, den) || links_hit(
        path,
        path.len() as int,
        layout,
        ray,
        num,
        den,
    )
}

/// `t` is the tick of the nearest hit: nothing stands in the way before it,
/// and something does before its end.
pub open spec fn is_first_block(
    obstacles: Seq<ObstacleData>,
    path: Seq<ConnectionData>,
    layout: usize,
    ray: Ray,
    t: HitTime,
) -> bool {
    &&& t.ticks < TICKS_PER_UNIT
    &&& !blocked_before(obstacles, path, layout, ray, t.ticks as int, TICKS_PER_UNIT as int)
    &&& blocked_before(obstacles, path, layout, ray, t.ticks + 1, TICKS_PER_UNIT as int)
}

/// The state of a search for the nearest hit, after `n` connections and `m`
/// obstacles: nothing met so far, or the earliest tick met so far.
spec fn searched(
    obstacles: Seq<ObstacleData>,
    m: int,
    path: Seq<ConnectionData>,
    n: int,
    layout: usize,
    ray: Ray,
    best: Option<HitTime>,
) -> bool {
    let unit = TICKS_PER_UNIT as int;
    match best {
        None => !obstacles_hit(obstacles, m, ray, 1, 1) && !links_hit(path, n, layout, ray, 1, 1),
        Some(t) => {
            &&& t.ticks < TICKS_PER_UNIT
            &&& !obstacles_hit(obstacles, m, ray, t.ticks as int, unit)
            &&& !links_hit(path, n, layout, ray, t.ticks as int, unit)
            &&& (obstacles_hit(obstacles, m, ray, t.ticks + 1, unit) || links_hit(
                path,
                n,
                layout,
                ray,
                t.ticks + 1,
                unit,
            ))
        },
    }
}

/// The earlier of what was met so far and a new hit.
fn earlier(best: Option<HitTime>, hit: Option<HitTime>) -> (r: Option<HitTime>)
    ensures
        r == match (best, hit) {
            (None, _) => hit,
            (_, None) => best,
            (Some(b), Some(h)) => if h.ticks < b.ticks {
                hit
            } else {
                best
            },
        },
{
    match (best, hit) {
        (None, _) => hit,
        (_, None) => best,
        (Some(b), Some(h)) => if h.ticks < b.ticks {
            hit
        } else {
            best
        },
    }
}

/// A search stays right when one more connection has been looked at.
proof fn lemma_search_link(
    obstacles: Seq<ObstacleData>,
    m: int,
    path: Seq<ConnectionData>,
    n: int,
    layout: usize,
    ray: Ray,
    best: Option<HitTime>,
    hit: Option<HitTime>,
    next: Option<HitTime>,
)
    requires
        0 <= n < path.len(),
        searched(obstacles, m, path, n, layout, ray, best),
        path[n].layout_index == layout ==> (hit is Some <==> segment_hit_before(
            ray,
            path[n].segment,
            1,
            1,
        )) && (hit matches Some(t) ==> segment_first_hit(ray, path[n].segment, t)),
        path[n].layout_index != layout ==> hit is None,
        next == match (best, hit) {
            (None, _) => hit,
            (_, None) => best,
            (Some(b), Some(h)) => if h.ticks < b.ticks {
                hit
            } else {
                best
            },
        },
    ensures
        searched(obstacles, m, path, n + 1, layout, ray, next),
{
    let unit = TICKS_PER_UNIT as int;
    let seg = path[n].segment;
    match next {
        None => {},
        Some(t) => {
            let at = t.ticks as int;
            assert forall|i: int|
                0 <= i < n + 1 && (#[trigger] path[i]).layout_index == layout implies !segment_hit_before(
                ray,
                path[i].segment,
                at,
                unit,
            ) by {
                if segment_hit_before(ray, path[i].segment, at, unit) {
                    if i < n {
                        match best {
                            None => {
                                lemma_segment_hit_later(ray, path[i].segment, at, unit, 1, 1);
                            },
                            Some(b) => {
                                lemma_segment_hit_later(
                                    ray,
                                    path[i].segment,
                                    at,
                                    unit,
                                    b.ticks as int,
                                    unit,
                                );
                            },
                        }
                    } else {
                        match hit {
                            None => {
                                lemma_segment_hit_later(ray, seg, at, unit, 1, 1);
                            },
                            Some(h) => {
                                lemma_segment_hit_later(ray, seg, at, unit, h.ticks as int, unit);
                            },
                        }
                    }
                }
            }
            assert forall|k: int| 0 <= k < m implies !circle_hit_before(
                ray,
                (#[trigger] obstacles[k]).disc(),
                at,
                unit,
            ) by {
                if circle_hit_before(ray, obstacles[k].disc(), at, unit) {
                    match best {
                        None => {
                            lemma_circle_hit_later(ray, obstacles[k].disc(), at, unit, 1, 1);
                        },
                        Some(b) => {
                            lemma_circle_hit_later(
                                ray,
                                obstacles[k].disc(),
                                at,
                                unit,
                                b.ticks as int,
                                unit,
                            );
                        },
                    }
                }
            }
            if hit == next && path[n].layout_index == layout {
                assert(segment_hit_before(ray, path[n].segment, at + 1, unit));
            } else {
                assert(best == next);
                if links_hit(path, n, layout, ray, at + 1, unit) {
                    let i = choose|i: int|
                        0 <= i < n && (#[trigger] path[i]).layout_index == layout
                            && segment_hit_before(ray, path[i].segment, at + 1, unit);
                    assert(0 <= i < n + 1);
                }
            }
        },
    }
}

/// A search stays right when one more obstacle has been looked at.
proof fn lemma_search_obstacle(
    obstacles: Seq<ObstacleData>,
    m: int,
    path: Seq<ConnectionData>,
    n: int,
    layout: usize,
    ray: Ray,
    best: Option<HitTime>,
    hit: Option<HitTime>,
    next: Option<HitTime>,
)
    requires
        0 <= m < obstacles.len(),
        searched(obstacles, m, path, n, layout, ray, best),
        hit is Some <==> circle_hit_before(ray, obstacles[m].disc(), 1, 1),
        hit matches Some(t) ==> circle_first_hit(ray, obstacles[m].disc(), t),
        next == match (best, hit) {
            (None, _) => hit,
            (_, None) => best,
            (Some(b), Some(h)) => if h.ticks < b.ticks {
                hit
            } else {
                best
            },
        },
    ensures
        searched(obstacles, m + 1, path, n, layout, ray, next),
{
    let unit = TICKS_PER_UNIT as int;
    let disc = obstacles[m].disc();
    match next {
        None => {},
        Some(t) => {
            let at = t.ticks as int;
            assert forall|i: int|
                0 <= i < n && (#[trigger] path[i]).layout_index == layout implies !segment_hit_before(
                ray,
                path[i].segment,
                at,
                unit,
            ) by {
                if segment_hit_before(ray, path[i].segment, at, unit) {
                    match best {
                        None => {
                            lemma_segment_hit_later(ray, path[i].segment, at, unit, 1, 1);
                        },
                        Some(b) => {
                            lemma_segment_hit_later(
                                ray,
                                path[i].segment,
                                at,
                                unit,
                                b.ticks as int,
                                unit,
                            );
                        },
                    }
                }
            }
            assert forall|k: int| 0 <= k < m + 1 implies !circle_hit_before(
                ray,
                (#[trigger] obstacles[k]).disc(),
                at,
                unit,
            ) by {
                if circle_hit_before(ray, obstacles[k].disc(), at, unit) {
                    if k < m {
                        match best {
                            None => {
                                lemma_circle_hit_later(ray, obstacles[k].disc(), at, unit, 1, 1);
                            },
                            Some(b) => {
                                lemma_circle_hit_later(
                                    ray,
                                    obstacles[k].disc(),
                                    at,
                                    unit,
                                    b.ticks as int,
                                    unit,
                                );
                            },
                        }
                    } else {
                        match hit {
                            None => {
                                lemma_circle_hit_later(ray, disc, at, unit, 1, 1);
                            },
                            Some(h) => {
                                lemma_circle_hit_later(ray, disc, at, unit, h.ticks as int, unit);
                            },
                        }
                    }
                }
            }
            if hit == next {
                assert(circle_hit_before(ray, obstacles[m].disc(), at + 1, unit));
            } else {
                assert(best == next);
                if obstacles_hit(obstacles, m, ray, at + 1, unit) {
                    let k = choose|k: int|
                        0 <= k < m && circle_hit_before(
                            ray,
                            (#[trigger] obstacles[k]).disc(),
                            at + 1,
                            unit,
                        );
                    assert(0 <= k < m + 1);
                }
            }
        },
    }
}

/// The tick of the nearest hit among the obstacles and the connections drawn
/// in `layout`; `None` where the motion reaches its end unhindered.
pub fn first_block(
    obstacles: &Vec<ObstacleData>,
    path: &Vec<ConnectionData>,
    layout: usize,
    ray: &Ray,
) -> (r: Option<HitTime>)
    requires
        ray.wf(),
        forall|k: int| 0 <= k < obstacles@.len() ==> (#[trigger] obstacles@[k]).wf(),
        forall|i: int| 0 <= i < path@.len() ==> (#[trigger] path@[i]).segment.wf(),
    ensures
        r is Some <==> blocked_before(obstacles@, path@, layout, *ray, 1, 1),
        r matches Some(t) ==> is_first_block(obstacles@, path@, layout, *ray, t),
{
    let mut best: Option<HitTime> = None;
    let mut i: usize = 0;
    while i < path.len()
        invariant
            ray.wf(),
            forall|j: int| 0 <= j < path@.len() ==> (#[trigger] path@[j]).segment.wf(),
            0 <= i <= path.len(),
            searched(obstacles@, 0, path@, i as int, layout, *ray, best),
        decreases path.len() - i,
    {
        let hit = if path[i].layout_index == layout {
            intersect_ray_segment(ray, &path[i].segment)
        } else {
            None
        };
        let next = earlier(best, hit);
        proof {
            lemma_search_link(obstacles@, 0, path@, i as int, layout, *ray, best, hit, next);
        }
        best = next;
        i = i + 1;
    }
    let mut k: usize = 0;
    while k < obstacles.len()
        invariant
            ray.wf(),
            forall|j: int| 0 <= j < obstacles@.len() ==> (#[trigger] obstacles@[j]).wf(),
            0 <= k <= obstacles.len(),
            searched(obstacles@, k as int, path@, path@.len() as int, layout, *ray, best),
        decreases obstacles.len() - k,
    {
        let disc = obstacles[k].to_circle();
        let hit = intersect_ray_circle(ray, &disc);
        let next = earlier(best, hit);
        proof {
            lemma_search_obstacle(
                obstacles@,
                k as int,
                path@,
                path@.len() as int,
                layout,
                *ray,
                best,
                hit,
                next,
            );
        }
        best = next;
        k = k + 1;
    }
    proof {
        let unit = TICKS_PER_UNIT as int;
        if let Some(t) = best {
            if obstacles_hit(obstacles@, obstacles@.len() as int, *ray, t.ticks + 1, unit) {
                let w = choose|w: int|
                    0 <= w < obstacles@.len() && circle_hit_before(
                        *ray,
                        (#[trigger] obstacles@[w]).disc(),
                        t.ticks + 1,
                        unit,
                    );
                lemma_circle_hit_later(*ray, obstacles@[w].disc(), t.ticks + 1, unit, 1, 1);
            } else {
                let w = choose|w: int|
                    0 <= w < path@.len() && (#[trigger] path@[w]).layout_index == layout
                        && segment_hit_before(*ray, path@[w].segment, t.ticks + 1, unit);
                lemma_segment_hit_later(*ray, path@[w].segment, t.ticks + 1, unit, 1, 1);
            }
        }
    }
    best
}

/// How far a displacement `d` has got after `ticks` ticks, rounded towards zero.
pub open spec fn travelled(d: int, ticks: int) -> int {
    if d >= 0 {
        (d * ticks) / (TICKS_PER_UNIT as int)
    } else {
        -((-d * ticks) / (TICKS_PER_UNIT as int))
    }
}

/// The point that the motion has reached at the start of the tick `t`,
/// rounded towards its origin.
pub open spec fn point_at_tick(ray: Ray, t: HitTime) -> Vector {
    Vector {
        x: (ray.origin.x + travelled(ray.dir.x as int, t.ticks as int)) as i64,
        y: (ray.origin.y + travelled(ray.dir.y as int, t.ticks as int)) as i64,
    }
}

/// Computes `travelled`.
fn travel(d: i64, ticks: u32) -> (r: i64)
    requires
        -0x10_0000 <= d <= 0x10_0000,
        ticks < TICKS_PER_UNIT,
    ensures
        r == travelled(d as int, ticks as int),
        -0x10_0000 <= r <= 0x10_0000,
{
    let t: i64 = ticks as i64;
    let unit: i64 = TICKS_PER_UNIT as i64;
    if d >= 0 {
        assert(0 <= d * t <= d * unit) by (nonlinear_arith)
            requires
                0 <= d,
                0 <= t < unit,
        ;
        (d * t) / unit
    } else {
        assert(0 <= (-d) * t <= (-d) * unit) by (nonlinear_arith)
            requires
                0 <= -d,
                0 <= t < unit,
        ;
        -(((-d) * t) / unit)
    }
}

/// Where the motion is stopped by a hit in the tick `time`.
pub fn blocking_at(ray: &Ray, time: HitTime) -> (b: Blocking)
    requires
        ray.wf(),
        time.ticks < TICKS_PER_UNIT,
    ensures
        b.time == time,
        b.point == point_at_tick(*ray, time),
{
    Blocking {
        time,
        point: Vector {
            x: ray.origin.x + travel(ray.dir.x, time.ticks),
            y: ray.origin.y + travel(ray.dir.y, time.ticks),
        },
    }
}

/// The nearest hit wins: the tick at which the way is blocked is no later
/// than the first hit of any obstacle of the layout.
pub proof fn lemma_block_before_obstacle(
    obstacles: Seq<ObstacleData>,
    path: Seq<ConnectionData>,
    layout: usize,
    ray: Ray,
    t: HitTime,
    k: int,
    hit: HitTime,
)
    requires
        is_first_block(obstacles, path, layout, ray, t),
        0 <= k < obstacles.len(),
        circle_first_hit(ray, obstacles[k].disc(), hit),
    ensures
        t.ticks <= hit.ticks,
{
    if hit.ticks < t.ticks {
        lemma_circle_hit_later(
            ray,
            obstacles[k].disc(),
            hit.ticks + 1,
            TICKS_PER_UNIT as int,
            t.ticks as int,
            TICKS_PER_UNIT as int,
        );
    }
}

/// The nearest hit wins: the tick at which the way is blocked is no later
/// than the first hit of any connection drawn in the layout.
pub proof fn lemma_block_before_link(
    obstacles: Seq<ObstacleData>,
    path: Seq<ConnectionData>,
    layout: usize,
    ray: Ray,
    t: HitTime,
    i: int,
    hit: HitTime,
)
    requires
        is_first_block(obstacles, path, layout, ray, t),
        0 <= i < path.len(),
        path[i].layout_index == layout,
        segment_first_hit(ray, path[i].segment, hit),
    ensures
        t.ticks <= hit.ticks,
{
    if hit.ticks < t.ticks {
        lemma_segment_hit_later(
            ray,
            path[i].segment,
            hit.ticks + 1,
            TICKS_PER_UNIT as int,
            t.ticks as int,
            TICKS_PER_UNIT as int,
        );
    }
}

/// The tick at which the way is blocked is the first hit of one of the
/// obstacles or connections.
pub proof fn lemma_block_is_a_hit(
    obstacles: Seq<ObstacleData>,
    path: Seq<ConnectionData>,
    layout: usize,
    ray: Ray,
    t: HitTime,
)
    requires
        is_first_block(obstacles, path, layout, ray, t),
    ensures
        (exists|k: int|
            0 <= k < obstacles.len() && circle_first_hit(ray, (#[trigger] obstacles[k]).disc(), t))
            || (exists|i: int|
            0 <= i < path.len() && (#[trigger] path[i]).layout_index == layout
                && segment_first_hit(ray, path[i].segment, t)),
{
    let unit = TICKS_PER_UNIT as int;
    if obstacles_hit(obstacles, obstacles.len() as int, ray, t.ticks + 1, unit) {
        let k = choose|k: int|
            0 <= k < obstacles.len() && circle_hit_before(
                ray,
                (#[trigger] obstacles[k]).disc(),
                t.ticks + 1,
                unit,
            );
        assert(circle_first_hit(ray, obstacles[k].disc(), t));
    } else {
        let i = choose|i: int|
            0 <= i < path.len() && (#[trigger] path[i]).layout_index == layout
                && segment_hit_before(ray, path[i].segment, t.ticks + 1, unit);
        assert(segment_first_hit(ray, path[i].segment, t));
    }
}

} // verus!
