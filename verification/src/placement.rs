//! A parsed layout shows in every cell what its text has there.

use vstd::prelude::*;
use crate::level::{
    obstacle_at,
    point_kind_at,
    CellKind,
    GridPos,
    LayoutAdditionalData,
    LevelAdditionalData,
    LevelData,
    ObstacleData,
    PointData,
    MAX_GRID,
};
use crate::loader::{is_reading_of, scans};
use crate::pairing::{layout_resolves, names_partner};
use crate::parser::{
    cell_of,
    column_of,
    count_of,
    first_cell,
    is_separator,
    kind_of,
    layout_fault,
    lemma_size_grows,
    row_of,
    rows_started,
    scan,
    scan_prefix,
    width_of,
    ParseError,
    RawLayoutView,
    RawPoint,
};

verus! {

/// What the first `n` characters of the text have in the cell: the kind of
/// the character that stands there, nothing where none does.
pub open spec fn shown_by(text: Seq<char>, pos: GridPos, n: int) -> CellKind
    decreases n,
{
    if n <= 0 {
        CellKind::Empty
    } else if !is_separator(text[n - 1]) && cell_of(text, n - 1) == pos {
        kind_of(text[n - 1])
    } else {
        shown_by(text, pos, n - 1)
    }
}

/// One of the points to be paired lies in the cell.
pub open spec fn among_commons(commons: Seq<RawPoint>, pos: GridPos) -> bool {
    exists|k: int| 0 <= k < commons.len() && (#[trigger] commons[k]).position == pos
}

/// One of the obstacles lies in the cell.
pub open spec fn among_obstacles(obstacles: Seq<GridPos>, pos: GridPos) -> bool {
    exists|k: int| 0 <= k < obstacles.len() && #[trigger] obstacles[k] == pos
}

/// What a raw layout has in the cell.
pub open spec fn raw_kind_at(raw: RawLayoutView, pos: GridPos) -> CellKind {
    if raw.start == Some(pos) {
        CellKind::Start
    } else if raw.finish == Some(pos) {
        CellKind::Finish
    } else if among_commons(raw.commons, pos) {
        CellKind::Paired
    } else if among_obstacles(raw.obstacles, pos) {
        CellKind::Obstacle
    } else {
        CellKind::Empty
    }
}

/// A raw layout has at most one thing in the cell.
pub open spec fn at_most_one(raw: RawLayoutView, pos: GridPos) -> bool {
    let s = raw.start == Some(pos);
    let f = raw.finish == Some(pos);
    let c = among_commons(raw.commons, pos);
    let o = among_obstacles(raw.obstacles, pos);
    !(s && f) && !(s && c) && !(s && o) && !(f && c) && !(f && o) && !(c && o)
}

/// The text fits into the grid and has at most one start and one finish.
pub open spec fn text_sound(text: Seq<char>) -> bool {
    let n = text.len() as int;
    &&& width_of(text, n) <= MAX_GRID
    &&& rows_started(text, n) <= MAX_GRID
    &&& count_of(text, CellKind::Start, n) <= 1
    &&& count_of(text, CellKind::Finish, n) <= 1
}

/// No column is negative.
proof fn lemma_column_not_negative(text: Seq<char>, i: int)
    ensures
        column_of(text, i) >= 0,
    decreases i,
{
    if i > 0 && !is_separator(text[i - 1]) {
        lemma_column_not_negative(text, i - 1);
    }
}

/// A character that is no separator lies in a row that has begun.
proof fn lemma_row_has_begun(text: Seq<char>, i: int)
    requires
        0 <= i < text.len(),
        !is_separator(text[i]),
    ensures
        rows_started(text, i + 1) >= 1,
    decreases i,
{
    lemma_size_grows(text, i, i);
    if i > 0 && !is_separator(text[i - 1]) {
        lemma_row_has_begun(text, i - 1);
    }
}

/// The cell of a character lies within the size of the text read so far.
pub proof fn lemma_cell_in_size(text: Seq<char>, i: int, n: int)
    requires
        0 <= i < n <= text.len(),
        !is_separator(text[i]),
    ensures
        0 <= column_of(text, i) < width_of(text, n),
        0 <= row_of(text, i) < rows_started(text, n),
{
    lemma_column_not_negative(text, i);
    lemma_row_has_begun(text, i);
    lemma_size_grows(text, i + 1, n);
}

/// Characters come in reading order: a later one lies in a later row, or
/// later in the same row.
pub proof fn lemma_reading_order(text: Seq<char>, i: int, j: int)
    requires
        0 <= i < j < text.len(),
        !is_separator(text[i]),
        !is_separator(text[j]),
    ensures
        row_of(text, i) < row_of(text, j) || (row_of(text, i) == row_of(text, j) && column_of(
            text,
            i,
        ) < column_of(text, j)),
    decreases j,
{
    if is_separator(text[j - 1]) {
        lemma_size_grows(text, i + 1, j);
    } else if i < j - 1 {
        lemma_reading_order(text, i, j - 1);
    }
}

/// No two characters of a text that fits into the grid share a cell.
pub proof fn lemma_cells_distinct(text: Seq<char>, i: int, j: int)
    requires
        text_sound(text),
        0 <= i < j < text.len(),
        !is_separator(text[i]),
        !is_separator(text[j]),
    ensures
        cell_of(text, i) != cell_of(text, j),
{
    lemma_reading_order(text, i, j);
    lemma_cell_in_size(text, i, text.len() as int);
    lemma_cell_in_size(text, j, text.len() as int);
}

/// A cell in which no character stands shows nothing.
pub proof fn lemma_unseen_is_empty(text: Seq<char>, pos: GridPos, n: int)
    requires
        0 <= n <= text.len(),
        forall|i: int| 0 <= i < n && !is_separator(#[trigger] text[i]) ==> cell_of(text, i) != pos,
    ensures
        shown_by(text, pos, n) == CellKind::Empty,
    decreases n,
{
    if n > 0 {
        assert(!is_separator(text[n - 1]) ==> cell_of(text, n - 1) != pos);
        lemma_unseen_is_empty(text, pos, n - 1);
    }
}

/// The cell of a character shows the kind of that character.
pub proof fn lemma_shown_at_index(text: Seq<char>, i: int, n: int)
    requires
        text_sound(text),
        0 <= i < n <= text.len(),
        !is_separator(text[i]),
    ensures
        shown_by(text, cell_of(text, i), n) == kind_of(text[i]),
    decreases n,
{
    if i < n - 1 {
        if !is_separator(text[n - 1]) {
            lemma_cells_distinct(text, i, n - 1);
        }
        lemma_shown_at_index(text, i, n - 1);
    }
}

/// The number of characters of a kind only grows, from zero.
proof fn lemma_count_grows(text: Seq<char>, kind: CellKind, m: int, n: int)
    requires
        0 <= m <= n,
    ensures
        0 <= count_of(text, kind, m) <= count_of(text, kind, n),
    decreases n,
{
    if m < n {
        lemma_count_grows(text, kind, m, n - 1);
    } else if m > 0 {
        lemma_count_grows(text, kind, m - 1, m - 1);
    }
}

/// There is a first cell of a kind exactly where there is a character of it.
proof fn lemma_first_cell_counts(text: Seq<char>, kind: CellKind, n: int)
    requires
        0 <= n,
    ensures
        first_cell(text, kind, n) is None <==> count_of(text, kind, n) == 0,
    decreases n,
{
    if n > 0 {
        lemma_first_cell_counts(text, kind, n - 1);
        lemma_count_grows(text, kind, n - 1, n - 1);
    }
}

/// What a text says has in every cell what the text shows there, and no
/// more than one thing.
pub proof fn lemma_scan_shows_text(text: Seq<char>, n: int, pos: GridPos)
    requires
        text_sound(text),
        0 <= n <= text.len(),
    ensures
        raw_kind_at(scan_prefix(text, n), pos) == shown_by(text, pos, n),
        at_most_one(scan_prefix(text, n), pos),
    decreases n,
{
    if n > 0 {
        let c = text[n - 1];
        let kind = kind_of(c);
        let here = cell_of(text, n - 1);
        let before = scan_prefix(text, n - 1);
        let after = scan_prefix(text, n);
        lemma_scan_shows_text(text, n - 1, pos);
        lemma_first_cell_counts(text, CellKind::Start, n - 1);
        lemma_first_cell_counts(text, CellKind::Finish, n - 1);
        lemma_count_grows(text, CellKind::Start, n, text.len() as int);
        lemma_count_grows(text, CellKind::Finish, n, text.len() as int);
        lemma_count_grows(text, CellKind::Start, n - 1, n - 1);
        lemma_count_grows(text, CellKind::Finish, n - 1, n - 1);
        if !is_separator(c) && here == pos {
            assert forall|i: int| 0 <= i < n - 1 && !is_separator(#[trigger] text[i]) implies cell_of(
                text,
                i,
            ) != pos by {
                lemma_cells_distinct(text, i, n - 1);
            }
            lemma_unseen_is_empty(text, pos, n - 1);
            assert(raw_kind_at(before, pos) == CellKind::Empty);
            assert(!among_commons(before.commons, pos));
            assert(!among_obstacles(before.obstacles, pos));
            if kind == CellKind::Paired {
                assert(after.commons[before.commons.len() as int].position == pos);
                assert(after.obstacles == before.obstacles);
            } else if kind == CellKind::Obstacle {
                assert(after.obstacles[before.obstacles.len() as int] == pos);
                assert(after.commons == before.commons);
            } else {
                assert(after.commons == before.commons);
                assert(after.obstacles == before.obstacles);
            }
        } else {
            assert(kind == CellKind::Empty || here != pos);
            if kind == CellKind::Paired {
                assert forall|k: int| 0 <= k < after.commons.len() implies ((
                #[trigger] after.commons[k]).position == pos ==> among_commons(
                    before.commons,
                    pos,
                )) by {
                    if k < before.commons.len() {
                        assert(after.commons[k] == before.commons[k]);
                    }
                }
                if among_commons(before.commons, pos) {
                    let k = choose|k: int|
                        0 <= k < before.commons.len() && (#[trigger] before.commons[k]).position
                            == pos;
                    assert(after.commons[k] == before.commons[k]);
                }
                assert(among_commons(after.commons, pos) == among_commons(before.commons, pos));
                assert(after.obstacles == before.obstacles);
            } else if kind == CellKind::Obstacle {
                assert forall|k: int| 0 <= k < after.obstacles.len() implies ((
                #[trigger] after.obstacles[k]) == pos ==> among_obstacles(
                    before.obstacles,
                    pos,
                )) by {
                    if k < before.obstacles.len() {
                        assert(after.obstacles[k] == before.obstacles[k]);
                    }
                }
                if among_obstacles(before.obstacles, pos) {
                    let k = choose|k: int|
                        0 <= k < before.obstacles.len() && #[trigger] before.obstacles[k] == pos;
                    assert(after.obstacles[k] == before.obstacles[k]);
                }
                assert(among_obstacles(after.obstacles, pos) == among_obstacles(
                    before.obstacles,
                    pos,
                ));
                assert(after.commons == before.commons);
            } else {
                assert(after.commons == before.commons);
                assert(after.obstacles == before.obstacles);
            }
        }
    }
}

/// Where no point lies in the cell, no point is found there.
proof fn lemma_no_point_found(points: Seq<PointData>, pos: GridPos, n: int)
    requires
        0 <= n <= points.len(),
        forall|i: int| 0 <= i < n ==> (#[trigger] points[i]).position != pos,
    ensures
        point_kind_at(points, pos, n) is None,
    decreases n,
{
    if n > 0 {
        lemma_no_point_found(points, pos, n - 1);
    }
}

/// Where every point that lies in the cell shows one kind, and there is
/// such a point, that kind is found.
proof fn lemma_point_found(points: Seq<PointData>, pos: GridPos, n: int, kind: CellKind, at: int)
    requires
        0 <= at < n <= points.len(),
        points[at].position == pos,
        forall|i: int|
            0 <= i < n && (#[trigger] points[i]).position == pos ==> points[i].point_type.cell_kind()
                == kind,
    ensures
        point_kind_at(points, pos, n) == Some(kind),
    decreases n,
{
    if at < n - 1 {
        lemma_point_found(points, pos, n - 1, kind, at);
    } else {
        if point_kind_at(points, pos, n - 1) is Some {
            lemma_some_point_found(points, pos, n - 1, kind);
        }
    }
}

/// A kind that is found is the kind of a point that lies in the cell.
proof fn lemma_some_point_found(points: Seq<PointData>, pos: GridPos, n: int, kind: CellKind)
    requires
        0 <= n <= points.len(),
        point_kind_at(points, pos, n) is Some,
        forall|i: int|
            0 <= i < n && (#[trigger] points[i]).position == pos ==> points[i].point_type.cell_kind()
                == kind,
    ensures
        point_kind_at(points, pos, n) == Some(kind),
    decreases n,
{
    if n > 0 && point_kind_at(points, pos, n - 1) is Some {
        lemma_some_point_found(points, pos, n - 1, kind);
    }
}

/// An obstacle is found in the cell exactly where one lies in it.
proof fn lemma_obstacle_found(obstacles: Seq<ObstacleData>, pos: GridPos, n: int)
    requires
        0 <= n <= obstacles.len(),
    ensures
        obstacle_at(obstacles, pos, n) <==> exists|k: int|
            0 <= k < n && (#[trigger] obstacles[k]).position == pos,
    decreases n,
{
    if n > 0 {
        lemma_obstacle_found(obstacles, pos, n - 1);
        if obstacle_at(obstacles, pos, n) {
            if obstacle_at(obstacles, pos, n - 1) {
                let k = choose|k: int| 0 <= k < n - 1 && (#[trigger] obstacles[k]).position == pos;
                assert(0 <= k < n);
            } else {
                assert(obstacles[n - 1].position == pos);
            }
        }
    }
}

/// A layout with its points paired shows in every cell what the raw layout
/// has there.
pub proof fn lemma_layout_shows_raw(
    raws: Seq<RawLayoutView>,
    l: int,
    layout: LayoutAdditionalData,
    pos: GridPos,
)
    requires
        0 <= l < raws.len(),
        layout_resolves(raws, l, layout),
        at_most_one(raws[l], pos),
    ensures
        layout.kind_at(pos) == raw_kind_at(raws[l], pos),
{
    let raw = raws[l];
    let points = layout.points_data@;
    let commons = raw.commons.len() as int;
    let n = points.len() as int;
    let starts = if raw.start is Some {
        1int
    } else {
        0int
    };
    assert forall|k: int| 0 <= k < commons implies (#[trigger] points[k]).position
        == raw.commons[k].position && points[k].point_type.cell_kind() == CellKind::Paired by {
        assert(names_partner(raws, l, k, points[k].point_type));
    }
    lemma_obstacle_found(layout.obstacles_data@, pos, layout.obstacles_data@.len() as int);
    if obstacle_at(layout.obstacles_data@, pos, layout.obstacles_data@.len() as int) {
        let k = choose|k: int|
            0 <= k < layout.obstacles_data@.len() && (
            #[trigger] layout.obstacles_data@[k]).position == pos;
        assert(raw.obstacles[k] == pos);
    }
    if among_obstacles(raw.obstacles, pos) {
        let k = choose|k: int| 0 <= k < raw.obstacles.len() && #[trigger] raw.obstacles[k] == pos;
        assert(layout.obstacles_data@[k].position == pos);
    }
    let kind = raw_kind_at(raw, pos);
    if kind == CellKind::Start {
        assert forall|i: int| 0 <= i < n && (#[trigger] points[i]).position == pos implies points[i].point_type.cell_kind()
            == kind by {
            if i < commons {
                assert(raw.commons[i].position == pos);
            }
        }
        lemma_point_found(points, pos, n, kind, commons);
    } else if kind == CellKind::Finish {
        assert forall|i: int| 0 <= i < n && (#[trigger] points[i]).position == pos implies points[i].point_type.cell_kind()
            == kind by {
            if i < commons {
                assert(raw.commons[i].position == pos);
            }
        }
        lemma_point_found(points, pos, n, kind, commons + starts);
    } else if kind == CellKind::Paired {
        let k = choose|k: int| 0 <= k < raw.commons.len() && (#[trigger] raw.commons[k]).position == pos;
        assert(points[k].position == pos);
        lemma_point_found(points, pos, n, kind, k);
    } else {
        assert forall|i: int| 0 <= i < n implies (#[trigger] points[i]).position != pos by {
            if i < commons {
                if points[i].position == pos {
                    assert(raw.commons[i].position == pos);
                }
            }
        }
        lemma_no_point_found(points, pos, n);
    }
}

/// Reading keeps every symbol in its place: each layout of a level that was
/// read has the size of its text and shows in every cell what the text has
/// there, a paired point where the text has a pairing symbol.
pub proof fn lemma_placement_kept(
    data: LevelData,
    level: LevelAdditionalData,
    l: int,
    pos: GridPos,
)
    requires
        is_reading_of(data, Ok::<LevelAdditionalData, ParseError>(level)),
        0 <= l < data.layouts@.len(),
    ensures
        level.layouts()[l].width == width_of(data.layouts@[l]@, data.layouts@[l]@.len() as int),
        level.layouts()[l].height == rows_started(
            data.layouts@[l]@,
            data.layouts@[l]@.len() as int,
        ),
        level.layouts()[l].kind_at(pos) == shown_by(
            data.layouts@[l]@,
            pos,
            data.layouts@[l]@.len() as int,
        ),
{
    let text = data.layouts@[l]@;
    let raws = scans(data.layouts@);
    assert(layout_fault(data.layouts@[l]@) is None);
    lemma_count_grows(text, CellKind::Start, 0, text.len() as int);
    lemma_count_grows(text, CellKind::Finish, 0, text.len() as int);
    assert(text_sound(text));
    assert(raws[l] == scan(text));
    assert(layout_resolves(raws, l, level.layouts()[l]));
    lemma_scan_shows_text(text, text.len() as int, pos);
    lemma_layout_shows_raw(raws, l, level.layouts()[l], pos);
}

/// Reading keeps every symbol in its place: the cell of each character of
/// the text shows the kind of that character.
pub proof fn lemma_symbol_kept(data: LevelData, level: LevelAdditionalData, l: int, i: int)
    requires
        is_reading_of(data, Ok::<LevelAdditionalData, ParseError>(level)),
        0 <= l < data.layouts@.len(),
        0 <= i < data.layouts@[l]@.len(),
        !is_separator(data.layouts@[l]@[i]),
    ensures
        level.layouts()[l].kind_at(cell_of(data.layouts@[l]@, i)) == kind_of(data.layouts@[l]@[i]),
{
    let text = data.layouts@[l]@;
    assert(layout_fault(data.layouts@[l]@) is None);
    lemma_count_grows(text, CellKind::Start, 0, text.len() as int);
    lemma_count_grows(text, CellKind::Finish, 0, text.len() as int);
    lemma_placement_kept(data, level, l, cell_of(text, i));
    lemma_shown_at_index(text, i, text.len() as int);
}

} // verus!
