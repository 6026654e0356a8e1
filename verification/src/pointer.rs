//! What the pointer touches, and how far a connection drawn towards it would get.

use vstd::prelude::*;
use crate::blocking::{
    blocked_before,
    blocking_at,
    first_block,
    is_first_block,
    point_at_tick,
    Blocking,
    ConnectionData,
};
use crate::engine::{anchor_after, from_id, link_ok, to_id, ConnectionEngine};
use crate::geometry::{Ray, Vector};
use crate::level::{
    GridPos,
    LevelAdditionalData,
    PointData,
    PointId,
    PointType,
    POINT_RADIUS,
    UNITS_PER_CELL,
};

verus! {

/// The pointer is within `POINT_RADIUS` of the centre of the cell.
pub open spec fn touches(pointer: Vector, position: GridPos) -> bool {
    let dx = pointer.x - position.x * UNITS_PER_CELL;
    let dy = pointer.y - position.y * UNITS_PER_CELL;
    dx * dx + dy * dy < POINT_RADIUS * POINT_RADIUS
}

/// Decides `touches`.
pub fn is_touching(pointer: Vector, position: GridPos) -> (r: bool)
    requires
        position.in_grid(),
    ensures
        r == touches(pointer, position),
{
    let reach: i128 = POINT_RADIUS as i128;
    let dx: i128 = pointer.x as i128 - (position.x * UNITS_PER_CELL) as i128;
    let dy: i128 = pointer.y as i128 - (position.y * UNITS_PER_CELL) as i128;
    if dx <= -reach || dx >= reach || dy <= -reach || dy >= reach {
        assert(dx * dx + dy * dy >= reach * reach) by (nonlinear_arith)
            requires
                dx <= -reach || dx >= reach || dy <= -reach || dy >= reach,
                reach >= 0,
        ;
        return false;
    }
    assert(0 <= dx * dx <= reach * reach && 0 <= dy * dy <= reach * reach) by (nonlinear_arith)
        requires
            -reach < dx < reach,
            -reach < dy < reach,
    ;
    dx * dx + dy * dy < reach * reach
}

/// `r` is the first of `points` that the pointer touches, or `None` where it
/// touches none.
pub open spec fn first_touched(points: Seq<PointData>, pointer: Vector, r: Option<usize>) -> bool {
    match r {
        Some(i) => i < points.len() && touches(pointer, points[i as int].position) && forall|
            j: int,
        | 0 <= j < i ==> !touches(pointer, (#[trigger] points[j]).position),
        None => forall|j: int|
            0 <= j < points.len() ==> !touches(pointer, (#[trigger] points[j]).position),
    }
}

/// The first of `points` that the pointer touches.
pub fn touched_point(points: &Vec<PointData>, pointer: Vector) -> (r: Option<usize>)
    requires
        forall|i: int| 0 <= i < points@.len() ==> (#[trigger] points@[i]).position.in_grid(),
    ensures
        first_touched(points@, pointer, r),
{
    let mut i: usize = 0;
    while i < points.len()
        invariant
            0 <= i <= points@.len(),
            forall|j: int| 0 <= j < points@.len() ==> (#[trigger] points@[j]).position.in_grid(),
            forall|j: int| 0 <= j < i ==> !touches(pointer, (#[trigger] points@[j]).position),
        decreases points.len() - i,
    {
        if is_touching(pointer, points[i].position) {
            return Some(i);
        }
        i = i + 1;
    }
    None
}

/// A press at `pointer` picks the connection `c`: the pointer touches the
/// point where `c` begins, in the layout being played, or the partner of the
/// point where it ends, where that partner lies in the layout being played.
pub open spec fn picks(
    level: LevelAdditionalData,
    active: usize,
    pointer: Vector,
    c: ConnectionData,
) -> bool {
    ||| c.layout_index == active && touches(pointer, level.point(from_id(c)).position)
    ||| level.point(to_id(c)).point_type is Paired && level.exit_of(to_id(c)).layout_index
        == active && touches(pointer, level.point(level.exit_of(to_id(c))).position)
}

/// `r` is the first connection of `path` that a press at `pointer` picks, or
/// `None` where it picks none.
pub open spec fn first_picked(
    level: LevelAdditionalData,
    path: Seq<ConnectionData>,
    pointer: Vector,
    r: Option<usize>,
) -> bool {
    let active = anchor_after(level, path, path.len() as int).layout_index;
    match r {
        Some(i) => i < path.len() && picks(level, active, pointer, path[i as int]) && forall|
            j: int,
        | 0 <= j < i ==> !picks(level, active, pointer, #[trigger] path[j]),
        None => forall|j: int|
            0 <= j < path.len() ==> !picks(level, active, pointer, #[trigger] path[j]),
    }
}

/// The points of the layout that holds the anchor.
pub open spec fn active_points(level: LevelAdditionalData, path: Seq<ConnectionData>) -> Seq<
    PointData,
> {
    level.layouts()[anchor_after(level, path, path.len() as int).layout_index as int].points_data@
}

/// The motion from the anchor to the pointer.
pub open spec fn preview_ray(
    level: LevelAdditionalData,
    path: Seq<ConnectionData>,
    pointer: Vector,
) -> Ray {
    let from = level.point(anchor_after(level, path, path.len() as int)).position.world();
    Ray {
        origin: from,
        dir: Vector { x: (pointer.x - from.x) as i64, y: (pointer.y - from.y) as i64 },
    }
}

impl ConnectionEngine {
    /// The point of the layout being played that the pointer touches: the
    /// first such point, if there are several.
    pub fn point_at(&self, pointer: Vector) -> (r: Option<usize>)
        requires
            self.wf(),
        ensures
            first_touched(active_points(self.level(), self.path()), pointer, r),
    {
        let active = self.active_layout();
        let layout = &self.level_data().layouts_data()[active];
        assert(layout.wf());
        touched_point(&layout.points_data, pointer)
    }

    /// The first connection that a press at `pointer` picks.
    pub fn connection_at(&self, pointer: Vector) -> (r: Option<usize>)
        requires
            self.wf(),
        ensures
            first_picked(self.level(), self.path(), pointer, r),
    {
        let active = self.active_layout();
        let level = self.level_data();
        let path = self.connections();
        let mut i: usize = 0;
        while i < path.len()
            invariant
                self.wf(),
                *level == self.level(),
                path@ == self.path(),
                active == self.anchor_point().layout_index,
                0 <= i <= path@.len(),
                forall|j: int|
                    0 <= j < i ==> !picks(self.level(), active, pointer, #[trigger] path@[j]),
            decreases path.len() - i,
        {
            let c = &path[i];
            assert(link_ok(self.level(), self.path(), i as int));
            let from = PointId { layout_index: c.layout_index, point_index: c.from_point_index };
            let to = PointId { layout_index: c.layout_index, point_index: c.to_point_index };
            proof {
                assert(level.layouts()[from.layout_index as int].wf());
                crate::engine::lemma_exit_is_point(*level, to);
                assert(level.layouts()[level.exit_of(to).layout_index as int].wf());
            }
            if c.layout_index == active && is_touching(pointer, level.point_data(from).position) {
                return Some(i);
            }
            let paired = match level.point_data(to).point_type {
                PointType::Paired { .. } => true,
                _ => false,
            };
            if paired {
                let exit = level.exit(to);
                if exit.layout_index == active && is_touching(
                    pointer,
                    level.point_data(exit).position,
                ) {
                    return Some(i);
                }
            }
            i = i + 1;
        }
        None
    }

    /// How far a connection drawn from the anchor towards the pointer would
    /// get: where it is stopped, or `None` where it reaches the pointer.
    pub fn preview(&self, pointer: Vector) -> (r: Option<Blocking>)
        requires
            self.wf(),
            pointer.in_world(),
        ensures
            ({
                let layout = self.anchor_point().layout_index;
                let obstacles = self.level().layouts()[layout as int].obstacles_data@;
                let ray = preview_ray(self.level(), self.path(), pointer);
                &&& r is Some <==> blocked_before(obstacles, self.path(), layout, ray, 1, 1)
                &&& r matches Some(b) ==> is_first_block(
                    obstacles,
                    self.path(),
                    layout,
                    ray,
                    b.time,
                ) && b.point == point_at_tick(ray, b.time)
            }),
    {
        let anchor = self.anchor();
        let level = self.level_data();
        let path = self.connections();
        let layout = &level.layouts_data()[anchor.layout_index];
        assert(layout.wf());
        let from = level.point_data(anchor).position.to_world();
        let ray = Ray::between(from, pointer);
        assert(ray == preview_ray(self.level(), self.path(), pointer));
        proof {
            assert forall|i: int| 0 <= i < path@.len() implies (
            #[trigger] path@[i]).segment.wf() by {
                assert(link_ok(self.level(), self.path(), i));
                let a = from_id(path@[i]);
                let b = to_id(path@[i]);
                assert(level.layouts()[a.layout_index as int].wf());
                assert(level.point(a).position.in_grid());
                assert(level.point(b).position.in_grid());
            }
        }
        match first_block(&layout.obstacles_data, path, anchor.layout_index, &ray) {
            Some(time) => Some(blocking_at(&ray, time)),
            None => None,
        }
    }
}

} // verus!
