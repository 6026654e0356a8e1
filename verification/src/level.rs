//! What a level is made of: layouts, their points and obstacles, and the
//! pairing that links points across layouts.

use vstd::prelude::*;
use crate::geometry::{Circle, Vector, COORD_LIMIT};

verus! {

/// Lattice units per grid cell.
pub const UNITS_PER_CELL: i64 = 256;

/// A layout has fewer than this many columns, and rows.
pub const MAX_GRID: i64 = 2048;

/// Radius of every obstacle: half a cell.
pub const OBSTACLE_RADIUS: i64 = 128;

/// A pointer within this distance of a point's centre touches the point: a
/// quarter of a cell.
pub const POINT_RADIUS: i64 = 64;

/// A grid cell: column `x`, row `y`.
#[derive(Clone, Copy, Debug, PartialEq, Eq, Structural)]
pub struct GridPos {
    pub x: i64,
    pub y: i64,
}

/// What a point is.
#[derive(Clone, Copy, Debug, PartialEq, Eq, Structural)]
pub enum PointType {
    Start,
    Finish,
    /// Linked to the point `pair_point_id` of layout `layout_id`.
    Paired { layout_id: usize, pair_point_id: usize },
}

/// A point of a layout.
#[derive(Clone, Copy, Debug, PartialEq, Eq, Structural)]
pub struct PointData {
    pub position: GridPos,
    pub point_type: PointType,
}

/// A circular obstacle of a layout; the radius is in lattice units.
#[derive(Clone, Copy, Debug, PartialEq, Eq, Structural)]
pub struct ObstacleData {
    pub position: GridPos,
    pub radius: i64,
}

/// A point of a level: the layout it belongs to and its index there.
#[derive(Clone, Copy, Debug, PartialEq, Eq, Structural)]
pub struct PointId {
    pub layout_index: usize,
    pub point_index: usize,
}

/// What a grid cell shows.
#[derive(Clone, Copy, Debug, PartialEq, Eq, Structural)]
pub enum CellKind {
    Empty,
    Start,
    Finish,
    Paired,
    Obstacle,
}

/// A level as it is stored: its name, the number of connections needed
/// before the finish may be reached, and the text of each layout.
#[derive(Debug)]
pub struct LevelData {
    pub name: String,
    pub win_count: usize,
    pub layouts: Vec<String>,
}

/// One parsed layout.
#[derive(Debug)]
pub struct LayoutAdditionalData {
    pub width: i64,
    pub height: i64,
    pub points_data: Vec<PointData>,
    pub obstacles_data: Vec<ObstacleData>,
    pub start_point_index: Option<usize>,
    pub finish_point_index: Option<usize>,
}

impl GridPos {
    /// The cell lies in the largest grid a layout may have.
    pub open spec fn in_grid(&self) -> bool {
        0 <= self.x < MAX_GRID && 0 <= self.y < MAX_GRID
    }

    /// The centre of the cell, in lattice units.
    pub open spec fn world(&self) -> Vector {
        Vector { x: (self.x * UNITS_PER_CELL) as i64, y: (self.y * UNITS_PER_CELL) as i64 }
    }

    /// Computes `world`.
    pub fn to_world(&self) -> (v: Vector)
        requires
            self.in_grid(),
        ensures
            v == self.world(),
            v.in_world(),
            v.x == self.x * UNITS_PER_CELL,
            v.y == self.y * UNITS_PER_CELL,
    {
        Vector { x: self.x * UNITS_PER_CELL, y: self.y * UNITS_PER_CELL }
    }
}

impl PointType {
    /// What a cell that holds such a point shows.
    pub open spec fn cell_kind(&self) -> CellKind {
        match self {
            PointType::Start => CellKind::Start,
            PointType::Finish => CellKind::Finish,
            PointType::Paired { .. } => CellKind::Paired,
        }
    }
}

impl ObstacleData {
    /// The obstacle lies in the grid and its radius is between 0 and `COORD_LIMIT`.
    pub open spec fn wf(&self) -> bool {
        self.position.in_grid() && 0 <= self.radius <= COORD_LIMIT
    }

    /// The disc that the obstacle covers, in lattice units.
    pub open spec fn disc(&self) -> Circle {
        Circle { center: self.position.world(), radius: self.radius }
    }

    /// Computes `disc`.
    pub fn to_circle(&self) -> (c: Circle)
        requires
            self.wf(),
        ensures
            c == self.disc(),
            c.wf(),
    {
        Circle { center: self.position.to_world(), radius: self.radius }
    }
}

/// What the first of the first `n` points that lie in the cell shows.
pub open spec fn point_kind_at(points: Seq<PointData>, pos: GridPos, n: int) -> Option<CellKind>
    decreases n,
{
    if n <= 0 {
        None
    } else if point_kind_at(points, pos, n - 1) is Some {
        point_kind_at(points, pos, n - 1)
    } else if points[n - 1].position == pos {
        Some(points[n - 1].point_type.cell_kind())
    } else {
        None
    }
}

/// One of the first `n` obstacles lies in the cell.
pub open spec fn obstacle_at(obstacles: Seq<ObstacleData>, pos: GridPos, n: int) -> bool
    decreases n,
{
    n > 0 && (obstacle_at(obstacles, pos, n - 1) || obstacles[n - 1].position == pos)
}

impl LayoutAdditionalData {
    /// What the cell shows: the first point that lies in it, else an
    /// obstacle that lies in it, else nothing.
    pub open spec fn kind_at(&self, pos: GridPos) -> CellKind {
        match point_kind_at(self.points_data@, pos, self.points_data@.len() as int) {
            Some(kind) => kind,
            None => if obstacle_at(self.obstacles_data@, pos, self.obstacles_data@.len() as int) {
                CellKind::Obstacle
            } else {
                CellKind::Empty
            },
        }
    }

    /// Computes `kind_at`.
    pub fn cell_at(&self, pos: GridPos) -> (kind: CellKind)
        ensures
            kind == self.kind_at(pos),
    {
        let mut i: usize = 0;
        while i < self.points_data.len()
            invariant
                0 <= i <= self.points_data@.len(),
                point_kind_at(self.points_data@, pos, i as int) is None,
            decreases self.points_data.len() - i,
        {
            let point = &self.points_data[i];
            if point.position.x == pos.x && point.position.y == pos.y {
                proof {
                    lemma_first_point_stays(
                        self.points_data@,
                        pos,
                        i + 1,
                        self.points_data@.len() as int,
                    );
                }
                return match point.point_type {
                    PointType::Start => CellKind::Start,
                    PointType::Finish => CellKind::Finish,
                    PointType::Paired { .. } => CellKind::Paired,
                };
            }
            i = i + 1;
        }
        let mut k: usize = 0;
        while k < self.obstacles_data.len()
            invariant
                0 <= k <= self.obstacles_data@.len(),
                point_kind_at(self.points_data@, pos, self.points_data@.len() as int) is None,
                !obstacle_at(self.obstacles_data@, pos, k as int),
            decreases self.obstacles_data.len() - k,
        {
            let obstacle = &self.obstacles_data[k];
            if obstacle.position.x == pos.x && obstacle.position.y == pos.y {
                proof {
                    lemma_obstacle_stays(
                        self.obstacles_data@,
                        pos,
                        k + 1,
                        self.obstacles_data@.len() as int,
                    );
                }
                return CellKind::Obstacle;
            }
            k = k + 1;
        }
        CellKind::Empty
    }

    /// The grid that the layout shows, row by row: `height` rows of `width` cells.
    pub fn rows(&self) -> (grid: Vec<Vec<CellKind>>)
        requires
            self.wf(),
        ensures
            grid@.len() == self.height,
            forall|y: int| 0 <= y < self.height ==> (#[trigger] grid@[y])@.len() == self.width,
            forall|y: int, x: int|
                0 <= y < self.height && 0 <= x < self.width ==> (#[trigger] grid@[y]@[x])
                    == self.kind_at(GridPos { x: x as i64, y: y as i64 }),
    {
        let mut grid: Vec<Vec<CellKind>> = Vec::new();
        let mut y: i64 = 0;
        while y < self.height
            invariant
                self.wf(),
                0 <= y <= self.height,
                grid@.len() == y,
                forall|j: int| 0 <= j < y ==> (#[trigger] grid@[j])@.len() == self.width,
                forall|j: int, x: int|
                    0 <= j < y && 0 <= x < self.width ==> (#[trigger] grid@[j]@[x])
                        == self.kind_at(GridPos { x: x as i64, y: j as i64 }),
            decreases self.height - y,
        {
            let mut row: Vec<CellKind> = Vec::new();
            let mut x: i64 = 0;
            while x < self.width
                invariant
                    self.wf(),
                    0 <= y < self.height,
                    0 <= x <= self.width,
                    row@.len() == x,
                    forall|i: int|
                        0 <= i < x ==> (#[trigger] row@[i]) == self.kind_at(
                            GridPos { x: i as i64, y },
                        ),
                decreases self.width - x,
            {
                row.push(self.cell_at(GridPos { x, y }));
                x = x + 1;
            }
            grid.push(row);
            y = y + 1;
        }
        grid
    }
}

/// Once a point has been found in the cell, later points do not matter.
pub proof fn lemma_first_point_stays(points: Seq<PointData>, pos: GridPos, m: int, n: int)
    requires
        0 <= m <= n,
        point_kind_at(points, pos, m) is Some,
    ensures
        point_kind_at(points, pos, n) == point_kind_at(points, pos, m),
    decreases n,
{
    if m < n {
        lemma_first_point_stays(points, pos, m, n - 1);
    }
}

/// Once an obstacle has been found in the cell, later obstacles do not matter.
pub proof fn lemma_obstacle_stays(obstacles: Seq<ObstacleData>, pos: GridPos, m: int, n: int)
    requires
        0 <= m <= n,
        obstacle_at(obstacles, pos, m),
    ensures
        obstacle_at(obstacles, pos, n),
    decreases n,
{
    if m < n {
        lemma_obstacle_stays(obstacles, pos, m, n - 1);
    }
}

impl LayoutAdditionalData {
    /// Every point and obstacle lies in the grid, and the start and finish
    /// indices name points of those kinds.
    pub open spec fn wf(&self) -> bool {
        &&& 0 <= self.width <= MAX_GRID
        &&& 0 <= self.height <= MAX_GRID
        &&& forall|i: int|
            0 <= i < self.points_data@.len() ==> (#[trigger] self.points_data@[i]).position.in_grid()
        &&& forall|i: int|
            0 <= i < self.obstacles_data@.len() ==> (#[trigger] self.obstacles_data@[i]).wf()
        &&& self.start_point_index matches Some(s) ==> s < self.points_data@.len()
            && self.points_data@[s as int].point_type == PointType::Start
        &&& self.finish_point_index matches Some(f) ==> f < self.points_data@.len()
            && self.points_data@[f as int].point_type == PointType::Finish
    }
}

/// A parsed level: its layouts with every point paired, the number of
/// connections needed before the finish may be reached, and the point at
/// which the path begins.
#[derive(Debug)]
pub struct LevelAdditionalData {
    layouts_data: Vec<LayoutAdditionalData>,
    win_count: usize,
    start: PointId,
}

impl LevelAdditionalData {
    /// The layouts of the level.
    pub closed spec fn layouts(&self) -> Seq<LayoutAdditionalData> {
        self.layouts_data@
    }

    /// The number of connections needed before the finish may be reached.
    pub closed spec fn win_threshold(&self) -> usize {
        self.win_count
    }

    /// The point at which the path begins.
    pub closed spec fn start_point(&self) -> PointId {
        self.start
    }

    /// `id` names a point of the level.
    pub open spec fn has_point(&self, id: PointId) -> bool {
        id.layout_index < self.layouts().len() && id.point_index < self.layouts()[id.layout_index as int].points_data@.len()
    }

    /// The point that `id` names.
    pub open spec fn point(&self, id: PointId) -> PointData {
        self.layouts()[id.layout_index as int].points_data@[id.point_index as int]
    }

    /// Where the path goes on after it has reached `id`: at the partner of a
    /// paired point, at the point itself otherwise.
    pub open spec fn exit_of(&self, id: PointId) -> PointId {
        match self.point(id).point_type {
            PointType::Paired { layout_id, pair_point_id } => PointId {
                layout_index: layout_id,
                point_index: pair_point_id,
            },
            _ => id,
        }
    }

    /// Every paired point names another point of the level, which names it back.
    pub open spec fn pairing_mutual(&self) -> bool {
        forall|id: PointId| #[trigger]
            self.has_point(id) && self.point(id).point_type is Paired ==> {
                let other = self.exit_of(id);
                &&& self.has_point(other)
                &&& other != id
                &&& self.point(other).point_type == (PointType::Paired {
                    layout_id: id.layout_index,
                    pair_point_id: id.point_index,
                })
            }
    }

    /// The layouts are well formed, the pairing is mutual, and the path
    /// begins at the start point of the first layout that has one.
    pub open spec fn wf(&self) -> bool {
        &&& forall|l: int| 0 <= l < self.layouts().len() ==> (#[trigger] self.layouts()[l]).wf()
        &&& self.pairing_mutual()
        &&& self.start_point().layout_index < self.layouts().len()
        &&& self.layouts()[self.start_point().layout_index as int].start_point_index == Some(
            self.start_point().point_index,
        )
        &&& forall|l: int|
            0 <= l < self.start_point().layout_index ==> (
            #[trigger] self.layouts()[l]).start_point_index is None
    }

    /// Puts a level together.
    pub(crate) fn assemble(
        layouts_data: Vec<LayoutAdditionalData>,
        win_count: usize,
        start: PointId,
    ) -> (level: LevelAdditionalData)
        ensures
            level.layouts() == layouts_data@,
            level.win_threshold() == win_count,
            level.start_point() == start,
    {
        LevelAdditionalData { layouts_data, win_count, start }
    }

    /// The layouts of the level.
    pub fn layouts_data(&self) -> (r: &Vec<LayoutAdditionalData>)
        ensures
            r@ == self.layouts(),
    {
        &self.layouts_data
    }

    /// The number of connections needed before the finish may be reached.
    pub fn win_count(&self) -> (r: usize)
        ensures
            r == self.win_threshold(),
    {
        self.win_count
    }

    /// The point at which the path begins.
    pub fn start(&self) -> (r: PointId)
        ensures
            r == self.start_point(),
    {
        self.start
    }

    /// The point that `id` names.
    pub fn point_data(&self, id: PointId) -> (r: PointData)
        requires
            self.has_point(id),
        ensures
            r == self.point(id),
    {
        self.layouts_data[id.layout_index].points_data[id.point_index]
    }

    /// Computes `exit_of`.
    pub fn exit(&self, id: PointId) -> (r: PointId)
        requires
            self.has_point(id),
        ensures
            r == self.exit_of(id),
    {
        match self.layouts_data[id.layout_index].points_data[id.point_index].point_type {
            PointType::Paired { layout_id, pair_point_id } => PointId {
                layout_index: layout_id,
                point_index: pair_point_id,
            },
            _ => id,
        }
    }
}

/// A paired point's partner is paired with it: following the pairing twice
/// leads back.
pub proof fn lemma_partner_of_partner(level: LevelAdditionalData, id: PointId)
    requires
        level.wf(),
        level.has_point(id),
        level.point(id).point_type is Paired,
    ensures
        level.has_point(level.exit_of(id)),
        level.point(level.exit_of(id)).point_type is Paired,
        level.exit_of(level.exit_of(id)) == id,
{
}

} // verus!
