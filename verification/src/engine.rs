//! The path that the player draws through a level.
//!
//! The path is a list of connections. It begins at the start point of the
//! level; each connection begins where the one before it let the path go on:
//! at the partner of the point it reached, or at that point itself where it
//! has no partner. That place is the anchor. A new connection runs from the
//! anchor to a point of the anchor's layout that the path has not used, and
//! only if nothing stands in its way.

use vstd::prelude::*;
use crate::blocking::{
    blocked_before,
    blocking_at,
    first_block,
    is_first_block,
    point_at_tick,
    Blocking,
    ConnectionData,
};
use crate::geometry::{Ray, Segment, Vector};
use crate::level::{LevelAdditionalData, PointId, PointType};

verus! {

/// Why a connection was not made.
#[derive(Clone, Copy, Debug, PartialEq, Eq, Structural)]
pub enum InvalidConnectionAttempt {
    /// The target is the anchor or an end of a connection.
    TargetOccupied,
    /// The target is a finish point and too few connections have been made.
    InsufficientConnections,
    /// An obstacle or a connection stands in the way.
    PathBlocked(Blocking),
}

/// What an attempt to connect did.
#[derive(Clone, Copy, Debug, PartialEq, Eq, Structural)]
pub enum ConnectOutcome {
    /// There was no target: nothing happened.
    NoTarget,
    /// The connection was made. Where the path goes on in another layout,
    /// `switch_to` names it.
    Connected { switch_to: Option<usize> },
}

/// The level being played and the connections made so far.
#[derive(Debug)]
pub struct ConnectionEngine {
    level: LevelAdditionalData,
    connections: Vec<ConnectionData>,
}

/// The point at which the connection begins.
pub open spec fn from_id(c: ConnectionData) -> PointId {
    PointId { layout_index: c.layout_index, point_index: c.from_point_index }
}

/// The point at which the connection ends.
pub open spec fn to_id(c: ConnectionData) -> PointId {
    PointId { layout_index: c.layout_index, point_index: c.to_point_index }
}

/// The anchor when the first `n` connections of `path` have been made.
pub open spec fn anchor_after(level: LevelAdditionalData, path: Seq<ConnectionData>, n: int) -> PointId {
    if n <= 0 {
        level.start_point()
    } else {
        level.exit_of(to_id(path[n - 1]))
    }
}

/// The segment between two points of the level, in lattice units.
pub open spec fn segment_between(level: LevelAdditionalData, from: PointId, to: PointId) -> Segment {
    Segment { a: level.point(from).position.world(), b: level.point(to).position.world() }
}

/// The connection `i` joins two points of one layout, begins at the anchor
/// that the connections before it leave, and carries the segment between
/// its ends.
pub open spec fn link_ok(level: LevelAdditionalData, path: Seq<ConnectionData>, i: int) -> bool {
    let c = path[i];
    &&& level.has_point(from_id(c))
    &&& level.has_point(to_id(c))
    &&& from_id(c) == anchor_after(level, path, i)
    &&& c.segment == segment_between(level, from_id(c), to_id(c))
}

/// The path is a chain of connections that ends no two of them at one point
/// and none at the start of the level.
pub open spec fn path_ok(level: LevelAdditionalData, path: Seq<ConnectionData>) -> bool {
    &&& forall|i: int| 0 <= i < path.len() ==> #[trigger] link_ok(level, path, i)
    &&& forall|i: int, j: int|
        0 <= i < j < path.len() ==> to_id(#[trigger] path[i]) != to_id(#[trigger] path[j])
    &&& forall|i: int| 0 <= i < path.len() ==> to_id(#[trigger] path[i]) != level.start_point()
    &&& level.has_point(anchor_after(level, path, path.len() as int))
}

/// The path has used the point: it is the anchor, or an end of a connection.
pub open spec fn is_used(level: LevelAdditionalData, path: Seq<ConnectionData>, id: PointId) -> bool {
    ||| id == anchor_after(level, path, path.len() as int)
    ||| exists|i: int|
        0 <= i < path.len() && (from_id(#[trigger] path[i]) == id || to_id(path[i]) == id)
}

/// The segments of those of the first `n` connections that lie in `layout`,
/// in order.
pub open spec fn segments_in(path: Seq<ConnectionData>, layout: usize, n: int) -> Seq<Segment>
    decreases n,
{
    if n <= 0 {
        Seq::empty()
    } else if path[n - 1].layout_index == layout {
        segments_in(path, layout, n - 1).push(path[n - 1].segment)
    } else {
        segments_in(path, layout, n - 1)
    }
}

/// The motion from the anchor to the point `target` of the anchor's layout.
pub open spec fn attempt_ray(
    level: LevelAdditionalData,
    path: Seq<ConnectionData>,
    target: usize,
) -> Ray {
    let anchor = anchor_after(level, path, path.len() as int);
    let from = level.point(anchor).position.world();
    let to = level.point(PointId { layout_index: anchor.layout_index, point_index: target }).position.world();
    Ray { origin: from, dir: Vector { x: (to.x - from.x) as i64, y: (to.y - from.y) as i64 } }
}

/// The connection from the anchor to the point `target` of the anchor's layout.
pub open spec fn attempt_link(
    level: LevelAdditionalData,
    path: Seq<ConnectionData>,
    target: usize,
) -> ConnectionData {
    let anchor = anchor_after(level, path, path.len() as int);
    ConnectionData {
        layout_index: anchor.layout_index,
        from_point_index: anchor.point_index,
        to_point_index: target,
        segment: segment_between(
            level,
            anchor,
            PointId { layout_index: anchor.layout_index, point_index: target },
        ),
    }
}

/// The layout to switch to when the anchor has moved from the layout
/// `before` to the layout `after`.
pub open spec fn layout_change(before: usize, after: usize) -> Option<usize> {
    if after != before {
        Some(after)
    } else {
        None
    }
}

/// The layout to switch to when the path, anchored in `layout`, has reached
/// the point `id`.
pub open spec fn switch_after(level: LevelAdditionalData, layout: usize, id: PointId) -> Option<
    usize,
> {
    layout_change(layout, level.exit_of(id).layout_index)
}

/// What an attempt to connect the anchor to `target` does to `path`, in the
/// order in which the reasons to refuse are tried: a finish point reached
/// too early, a point already used, a way that is blocked.
pub open spec fn attempt_spec(
    level: LevelAdditionalData,
    path: Seq<ConnectionData>,
    target: Option<usize>,
    r: Result<ConnectOutcome, InvalidConnectionAttempt>,
    after: Seq<ConnectionData>,
) -> bool {
    match target {
        None => r == Ok::<ConnectOutcome, InvalidConnectionAttempt>(ConnectOutcome::NoTarget)
            && after == path,
        Some(t) => {
            let anchor = anchor_after(level, path, path.len() as int);
            let id = PointId { layout_index: anchor.layout_index, point_index: t };
            let obstacles = level.layouts()[anchor.layout_index as int].obstacles_data@;
            let ray = attempt_ray(level, path, t);
            if level.point(id).point_type == PointType::Finish && path.len()
                < level.win_threshold() {
                r == Err::<ConnectOutcome, InvalidConnectionAttempt>(
                    InvalidConnectionAttempt::InsufficientConnections,
                ) && after == path
            } else if is_used(level, path, id) {
                r == Err::<ConnectOutcome, InvalidConnectionAttempt>(
                    InvalidConnectionAttempt::TargetOccupied,
                ) && after == path
            } else if blocked_before(obstacles, path, anchor.layout_index, ray, 1, 1) {
                &&& after == path
                &&& r matches Err(InvalidConnectionAttempt::PathBlocked(b))
                &&& is_first_block(obstacles, path, anchor.layout_index, ray, b.time)
                &&& b.point == point_at_tick(ray, b.time)
            } else {
                &&& after == path.push(attempt_link(level, path, t))
                &&& r == Ok::<ConnectOutcome, InvalidConnectionAttempt>(
                    ConnectOutcome::Connected { switch_to: switch_after(level, anchor.layout_index, id) },
                )
            }
        },
    }
}

impl ConnectionEngine {
    /// The level being played.
    pub closed spec fn level(&self) -> LevelAdditionalData {
        self.level
    }

    /// The connections made so far, in order.
    pub closed spec fn path(&self) -> Seq<ConnectionData> {
        self.connections@
    }

    /// The point from which the next connection will begin.
    pub open spec fn anchor_point(&self) -> PointId {
        anchor_after(self.level(), self.path(), self.path().len() as int)
    }

    /// The level is well formed and the path is a chain in it.
    pub open spec fn wf(&self) -> bool {
        self.level().wf() && path_ok(self.level(), self.path())
    }

    /// An engine for `level`, with no connection made.
    pub fn new(level: LevelAdditionalData) -> (engine: ConnectionEngine)
        requires
            level.wf(),
        ensures
            engine.wf(),
            engine.level() == level,
            engine.path() == Seq::<ConnectionData>::empty(),
    {
        proof {
            let l = level.start_point().layout_index as int;
            assert(level.layouts()[l].wf());
        }
        ConnectionEngine { level, connections: Vec::new() }
    }

    /// The level being played.
    pub fn level_data(&self) -> (r: &LevelAdditionalData)
        ensures
            *r == self.level(),
    {
        &self.level
    }

    /// The connections made so far, in order.
    pub fn connections(&self) -> (r: &Vec<ConnectionData>)
        ensures
            r@ == self.path(),
    {
        &self.connections
    }

    /// The point from which the next connection will begin.
    pub fn anchor(&self) -> (r: PointId)
        requires
            self.wf(),
        ensures
            r == self.anchor_point(),
            self.level().has_point(r),
    {
        let n = self.connections.len();
        if n == 0 {
            self.level.start()
        } else {
            let last = &self.connections[n - 1];
            assert(link_ok(self.level(), self.path(), n - 1));
            self.level.exit(
                PointId { layout_index: last.layout_index, point_index: last.to_point_index },
            )
        }
    }

    /// The layout that holds the anchor: the one being played.
    pub fn active_layout(&self) -> (r: usize)
        requires
            self.wf(),
        ensures
            r == self.anchor_point().layout_index,
            r < self.level().layouts().len(),
    {
        self.anchor().layout_index
    }
}

impl ConnectionEngine {
    /// Decides `is_used`.
    pub fn uses(&self, id: PointId) -> (r: bool)
        requires
            self.wf(),
        ensures
            r == is_used(self.level(), self.path(), id),
    {
        if self.anchor() == id {
            return true;
        }
        let mut i: usize = 0;
        while i < self.connections.len()
            invariant
                0 <= i <= self.connections@.len(),
                forall|j: int|
                    0 <= j < i ==> from_id(#[trigger] self.connections@[j]) != id && to_id(
                        self.connections@[j],
                    ) != id,
            decreases self.connections.len() - i,
        {
            let c = &self.connections[i];
            if c.layout_index == id.layout_index && (c.from_point_index == id.point_index
                || c.to_point_index == id.point_index) {
                return true;
            }
            i = i + 1;
        }
        false
    }

    /// The last connection ends at a finish point.
    pub open spec fn won(&self) -> bool {
        self.path().len() > 0 && self.level().point(to_id(self.path().last())).point_type
            == PointType::Finish
    }

    /// Decides `won`.
    pub fn is_won(&self) -> (r: bool)
        requires
            self.wf(),
        ensures
            r == self.won(),
    {
        let n = self.connections.len();
        if n == 0 {
            return false;
        }
        let last = &self.connections[n - 1];
        assert(link_ok(self.level(), self.path(), n - 1));
        let point = self.level.point_data(
            PointId { layout_index: last.layout_index, point_index: last.to_point_index },
        );
        match point.point_type {
            PointType::Finish => true,
            _ => false,
        }
    }

    /// The segments of the connections made in the layout being played, in
    /// the order in which they were made.
    pub fn shown_segments(&self) -> (r: Vec<Segment>)
        requires
            self.wf(),
        ensures
            r@ == segments_in(
                self.path(),
                self.anchor_point().layout_index,
                self.path().len() as int,
            ),
    {
        let active = self.active_layout();
        let mut shown: Vec<Segment> = Vec::new();
        let mut i: usize = 0;
        while i < self.connections.len()
            invariant
                0 <= i <= self.connections@.len(),
                shown@ == segments_in(self.connections@, active, i as int),
            decreases self.connections.len() - i,
        {
            if self.connections[i].layout_index == active {
                shown.push(self.connections[i].segment);
            }
            i = i + 1;
        }
        shown
    }

    /// Tries to connect the anchor to the point `target` of the anchor's
    /// layout. Where the attempt is refused the path stays as it was.
    pub fn attempt_connect(&mut self, target: Option<usize>) -> (r: Result<
        ConnectOutcome,
        InvalidConnectionAttempt,
    >)
        requires
            old(self).wf(),
            target matches Some(t) ==> old(self).level().has_point(
                PointId { layout_index: old(self).anchor_point().layout_index, point_index: t },
            ),
        ensures
            final(self).wf(),
            final(self).level() == old(self).level(),
            attempt_spec(old(self).level(), old(self).path(), target, r, final(self).path()),
    {
        let t = match target {
            None => {
                return Ok(ConnectOutcome::NoTarget);
            },
            Some(t) => t,
        };
        let ghost level = self.level();
        let ghost path = self.path();
        let anchor = self.anchor();
        let layout_index = anchor.layout_index;
        let id = PointId { layout_index, point_index: t };
        let point = self.level.point_data(id);
        let is_finish = match point.point_type {
            PointType::Finish => true,
            _ => false,
        };
        if is_finish && self.connections.len() < self.level.win_count() {
            return Err(InvalidConnectionAttempt::InsufficientConnections);
        }
        if self.uses(id) {
            return Err(InvalidConnectionAttempt::TargetOccupied);
        }
        let layout = &self.level.layouts_data()[layout_index];
        assert(layout.wf());
        let from = self.level.point_data(anchor).position.to_world();
        let to = point.position.to_world();
        let ray = Ray::between(from, to);
        assert(ray == attempt_ray(level, path, t));
        proof {
            assert forall|i: int| 0 <= i < path.len() implies (
            #[trigger] path[i]).segment.wf() by {
                assert(link_ok(level, path, i));
                let a = from_id(path[i]);
                let b = to_id(path[i]);
                assert(level.layouts()[a.layout_index as int].wf());
                assert(level.point(a).position.in_grid());
                assert(level.point(b).position.in_grid());
            }
        }
        match first_block(&layout.obstacles_data, &self.connections, layout_index, &ray) {
            Some(time) => Err(InvalidConnectionAttempt::PathBlocked(blocking_at(&ray, time))),
            None => {
                let exit = self.level.exit(id);
                self.connections.push(
                    ConnectionData {
                        layout_index,
                        from_point_index: anchor.point_index,
                        to_point_index: t,
                        segment: Segment { a: from, b: to },
                    },
                );
                proof {
                    let after = self.path();
                    let n = path.len() as int;
                    assert(after == path.push(attempt_link(level, path, t)));
                    assert forall|i: int| 0 <= i < after.len() implies #[trigger] link_ok(
                        level,
                        after,
                        i,
                    ) by {
                        if i < n {
                            assert(link_ok(level, path, i));
                            assert(after[i] == path[i]);
                            if i > 0 {
                                assert(after[i - 1] == path[i - 1]);
                            }
                        }
                    }
                    assert forall|i: int, j: int| 0 <= i < j < after.len() implies to_id(
                        #[trigger] after[i],
                    ) != to_id(#[trigger] after[j]) by {
                        assert(after[i] == path[i]);
                        if j < n {
                            assert(after[j] == path[j]);
                        }
                    }
                    assert forall|i: int| 0 <= i < after.len() implies to_id(
                        #[trigger] after[i],
                    ) != level.start_point() by {
                        if i < n {
                            assert(after[i] == path[i]);
                        } else if n > 0 {
                            assert(link_ok(level, path, 0));
                        }
                    }
                }
                let switch_to = if exit.layout_index != layout_index {
                    Some(exit.layout_index)
                } else {
                    None
                };
                Ok(ConnectOutcome::Connected { switch_to })
            },
        }
    }

    /// Takes back the connection `index` and all that follow it. Where the
    /// anchor then lies in another layout than before, names that layout.
    pub fn undo_to(&mut self, index: usize) -> (r: Option<usize>)
        requires
            old(self).wf(),
        ensures
            final(self).wf(),
            final(self).level() == old(self).level(),
            index <= old(self).path().len() ==> final(self).path().len() == index,
            index <= old(self).path().len() ==> final(self).path() == old(self).path().take(
                index as int,
            ),
            index > old(self).path().len() ==> final(self).path() == old(self).path(),
            index <= old(self).path().len() ==> final(self).anchor_point() == anchor_after(
                old(self).level(),
                old(self).path(),
                index as int,
            ),
            r == layout_change(
                old(self).anchor_point().layout_index,
                final(self).anchor_point().layout_index,
            ),
    {
        let ghost level = self.level();
        let ghost path = self.path();
        let before = self.active_layout();
        self.connections.truncate(index);
        proof {
            let after = self.path();
            if index <= path.len() {
                assert(after =~= path.take(index as int));
            }
            assert forall|i: int| 0 <= i < after.len() implies #[trigger] link_ok(
                level,
                after,
                i,
            ) by {
                assert(link_ok(level, path, i));
                assert(after[i] == path[i]);
                if i > 0 {
                    assert(after[i - 1] == path[i - 1]);
                }
            }
            assert forall|i: int, j: int| 0 <= i < j < after.len() implies to_id(
                #[trigger] after[i],
            ) != to_id(#[trigger] after[j]) by {
                assert(after[i] == path[i]);
                assert(after[j] == path[j]);
            }
            assert forall|i: int| 0 <= i < after.len() implies to_id(#[trigger] after[i])
                != level.start_point() by {
                assert(after[i] == path[i]);
            }
            let n = after.len() as int;
            if n > 0 {
                assert(after[n - 1] == path[n - 1]);
                assert(link_ok(level, path, n - 1));
                lemma_exit_is_point(level, to_id(path[n - 1]));
            } else {
                let l = level.start_point().layout_index as int;
                assert(level.layouts()[l].wf());
            }
        }
        let now = self.active_layout();
        if now != before {
            Some(now)
        } else {
            None
        }
    }
}

/// Where the path goes on after a point of the level is a point of the level.
pub proof fn lemma_exit_is_point(level: LevelAdditionalData, id: PointId)
    requires
        level.wf(),
        level.has_point(id),
    ensures
        level.has_point(level.exit_of(id)),
{
}

/// No point begins two connections of a path, and none ends two.
pub proof fn lemma_path_is_simple(
    level: LevelAdditionalData,
    path: Seq<ConnectionData>,
    i: int,
    j: int,
)
    requires
        level.wf(),
        path_ok(level, path),
        0 <= i < j < path.len(),
    ensures
        from_id(path[i]) != from_id(path[j]),
        to_id(path[i]) != to_id(path[j]),
{
    assert(link_ok(level, path, i));
    assert(link_ok(level, path, j));
    assert(link_ok(level, path, j - 1));
    let y = to_id(path[j - 1]);
    let start = level.start_point();
    assert(level.layouts()[start.layout_index as int].wf());
    assert(level.has_point(y));
    if i > 0 {
        assert(link_ok(level, path, i - 1));
        let x = to_id(path[i - 1]);
        assert(level.has_point(x));
        assert(x != y);
    }
}

/// The finish may not be reached too early: with fewer connections than the
/// level asks for, an attempt to connect to a finish point is refused and
/// leaves the path as it was. With enough of them the attempt is made like
/// any other: it fails only where the point is used or the way is blocked.
pub proof fn lemma_finish_gate(
    level: LevelAdditionalData,
    path: Seq<ConnectionData>,
    target: usize,
    r: Result<ConnectOutcome, InvalidConnectionAttempt>,
    after: Seq<ConnectionData>,
)
    requires
        attempt_spec(level, path, Some(target), r, after),
        level.point(
            PointId {
                layout_index: anchor_after(level, path, path.len() as int).layout_index,
                point_index: target,
            },
        ).point_type == PointType::Finish,
    ensures
        path.len() < level.win_threshold() ==> r == Err::<
            ConnectOutcome,
            InvalidConnectionAttempt,
        >(InvalidConnectionAttempt::InsufficientConnections) && after == path,
        path.len() >= level.win_threshold() ==> r != Err::<
            ConnectOutcome,
            InvalidConnectionAttempt,
        >(InvalidConnectionAttempt::InsufficientConnections),
        path.len() >= level.win_threshold() ==> (r is Ok <==> !is_used(
            level,
            path,
            PointId {
                layout_index: anchor_after(level, path, path.len() as int).layout_index,
                point_index: target,
            },
        ) && !blocked_before(
            level.layouts()[anchor_after(
                level,
                path,
                path.len() as int,
            ).layout_index as int].obstacles_data@,
            path,
            anchor_after(level, path, path.len() as int).layout_index,
            attempt_ray(level, path, target),
            1,
            1,
        )),
        r is Ok ==> after.len() == path.len() + 1 && to_id(after.last()) == (PointId {
            layout_index: anchor_after(level, path, path.len() as int).layout_index,
            point_index: target,
        }),
{
}

/// Where the anchor is when the path has been cut to its first `k`
/// connections: at the start of the level where none is left; else where the
/// connection `k - 1` lets the path go on, which is the point at which it
/// ends unless that point has a partner.
pub proof fn lemma_anchor_after_cut(level: LevelAdditionalData, path: Seq<ConnectionData>, k: int)
    requires
        level.wf(),
        path_ok(level, path),
        0 <= k <= path.len(),
    ensures
        anchor_after(level, path.take(k), k) == anchor_after(level, path, k),
        k == 0 ==> anchor_after(level, path, k) == level.start_point(),
        k > 0 ==> anchor_after(level, path, k) == level.exit_of(to_id(path[k - 1])),
        k > 0 && !(level.point(to_id(path[k - 1])).point_type is Paired) ==> anchor_after(
            level,
            path,
            k,
        ) == to_id(path[k - 1]),
        k > 0 && level.point(to_id(path[k - 1])).point_type is Paired ==> level.exit_of(
            anchor_after(level, path, k),
        ) == to_id(path[k - 1]),
{
    if k > 0 {
        assert(path.take(k)[k - 1] == path[k - 1]);
        assert(link_ok(level, path, k - 1));
    }
}

} // verus!
