//! Reading a layout from text.
//!
//! Rows are separated by spaces or line breaks, and empty rows do not count.
//! Every other character stands for one grid cell: `s` the start, `f` the
//! finish, a digit a point to be paired, `z` an obstacle, anything else
//! nothing.

use vstd::prelude::*;
use crate::level::{CellKind, GridPos, MAX_GRID};
use crate::text::chars_of;

verus! {

/// Why a level could not be read.
#[derive(Clone, Copy, Debug, PartialEq, Eq, Structural)]
pub enum ParseError {
    /// A layout has more than `MAX_GRID` columns or rows.
    LayoutTooLarge,
    /// A layout has two start cells.
    DuplicateStart,
    /// A layout has two finish cells.
    DuplicateFinish,
    /// A pairing symbol is used once only.
    UnpairedPoint,
    /// A pairing symbol is used three times or more.
    AmbiguousPairing,
    /// No layout of the level has a start cell.
    MissingStart,
}

/// A point that awaits its partner: its cell and its pairing symbol.
#[derive(Clone, Copy, Debug, PartialEq, Eq, Structural)]
pub struct RawPoint {
    pub position: GridPos,
    pub symbol: char,
}

/// A layout as read from its text alone, before points are paired.
#[derive(Debug)]
pub struct RawLayout {
    pub width: i64,
    pub height: i64,
    pub commons: Vec<RawPoint>,
    pub obstacles: Vec<GridPos>,
    pub start: Option<GridPos>,
    pub finish: Option<GridPos>,
}

/// What a raw layout holds.
#[verifier::ext_equal]
pub struct RawLayoutView {
    pub width: int,
    pub height: int,
    pub commons: Seq<RawPoint>,
    pub obstacles: Seq<GridPos>,
    pub start: Option<GridPos>,
    pub finish: Option<GridPos>,
}

impl View for RawLayout {
    type V = RawLayoutView;

    open spec fn view(&self) -> RawLayoutView {
        RawLayoutView {
            width: self.width as int,
            height: self.height as int,
            commons: self.commons@,
            obstacles: self.obstacles@,
            start: self.start,
            finish: self.finish,
        }
    }
}

/// The character ends a row.
pub open spec fn is_separator(c: char) -> bool {
    c == ' ' || c == '\n'
}

/// What the character stands for.
pub open spec fn kind_of(c: char) -> CellKind {
    if c == 's' {
        CellKind::Start
    } else if c == 'f' {
        CellKind::Finish
    } else if '0' <= c && c <= '9' {
        CellKind::Paired
    } else if c == 'z' {
        CellKind::Obstacle
    } else {
        CellKind::Empty
    }
}

/// The column of the character at index `i`: how many characters of its row
/// come before it.
pub open spec fn column_of(text: Seq<char>, i: int) -> int
    decreases i,
{
    if i <= 0 || is_separator(text[i - 1]) {
        0
    } else {
        column_of(text, i - 1) + 1
    }
}

/// A row begins with the character at index `i`.
pub open spec fn starts_row(text: Seq<char>, i: int) -> bool {
    !is_separator(text[i]) && (i == 0 || is_separator(text[i - 1]))
}

/// The number of rows that begin among the first `n` characters.
pub open spec fn rows_started(text: Seq<char>, n: int) -> int
    decreases n,
{
    if n <= 0 {
        0
    } else {
        rows_started(text, n - 1) + if starts_row(text, n - 1) {
            1int
        } else {
            0int
        }
    }
}

/// The row of the character at index `i`.
pub open spec fn row_of(text: Seq<char>, i: int) -> int {
    rows_started(text, i + 1) - 1
}

/// The length of the longest row among the first `n` characters.
pub open spec fn width_of(text: Seq<char>, n: int) -> int
    decreases n,
{
    if n <= 0 {
        0
    } else {
        let before = width_of(text, n - 1);
        if !is_separator(text[n - 1]) && column_of(text, n - 1) + 1 > before {
            column_of(text, n - 1) + 1
        } else {
            before
        }
    }
}

/// The cell of the character at index `i`.
pub open spec fn cell_of(text: Seq<char>, i: int) -> GridPos {
    GridPos { x: column_of(text, i) as i64, y: row_of(text, i) as i64 }
}

/// The points to be paired among the first `n` characters, in reading order.
pub open spec fn commons_of(text: Seq<char>, n: int) -> Seq<RawPoint>
    decreases n,
{
    if n <= 0 {
        Seq::empty()
    } else if kind_of(text[n - 1]) == CellKind::Paired {
        commons_of(text, n - 1).push(
            RawPoint { position: cell_of(text, n - 1), symbol: text[n - 1] },
        )
    } else {
        commons_of(text, n - 1)
    }
}

/// The obstacles among the first `n` characters, in reading order.
pub open spec fn obstacles_of(text: Seq<char>, n: int) -> Seq<GridPos>
    decreases n,
{
    if n <= 0 {
        Seq::empty()
    } else if kind_of(text[n - 1]) == CellKind::Obstacle {
        obstacles_of(text, n - 1).push(cell_of(text, n - 1))
    } else {
        obstacles_of(text, n - 1)
    }
}

/// How many of the first `n` characters stand for `kind`.
pub open spec fn count_of(text: Seq<char>, kind: CellKind, n: int) -> int
    decreases n,
{
    if n <= 0 {
        0
    } else {
        count_of(text, kind, n - 1) + if kind_of(text[n - 1]) == kind {
            1int
        } else {
            0int
        }
    }
}

/// The cell of the first of the first `n` characters that stands for `kind`.
pub open spec fn first_cell(text: Seq<char>, kind: CellKind, n: int) -> Option<GridPos>
    decreases n,
{
    if n <= 0 {
        None
    } else if first_cell(text, kind, n - 1) is Some {
        first_cell(text, kind, n - 1)
    } else if kind_of(text[n - 1]) == kind {
        Some(cell_of(text, n - 1))
    } else {
        None
    }
}

/// What is wrong with the text of a layout, if anything.
pub open spec fn layout_fault(text: Seq<char>) -> Option<ParseError> {
    let n = text.len() as int;
    if width_of(text, n) > MAX_GRID || rows_started(text, n) > MAX_GRID {
        Some(ParseError::LayoutTooLarge)
    } else if count_of(text, CellKind::Start, n) >= 2 {
        Some(ParseError::DuplicateStart)
    } else if count_of(text, CellKind::Finish, n) >= 2 {
        Some(ParseError::DuplicateFinish)
    } else {
        None
    }
}

/// What the first `n` characters of `text` say.
pub open spec fn scan_prefix(text: Seq<char>, n: int) -> RawLayoutView {
    RawLayoutView {
        width: width_of(text, n),
        height: rows_started(text, n),
        commons: commons_of(text, n),
        obstacles: obstacles_of(text, n),
        start: first_cell(text, CellKind::Start, n),
        finish: first_cell(text, CellKind::Finish, n),
    }
}

/// What `text` says.
pub open spec fn scan(text: Seq<char>) -> RawLayoutView {
    scan_prefix(text, text.len() as int)
}

impl RawLayoutView {
    /// Every cell named lies in the grid.
    pub open spec fn wf(&self) -> bool {
        &&& 0 <= self.width <= MAX_GRID
        &&& 0 <= self.height <= MAX_GRID
        &&& forall|k: int|
            0 <= k < self.commons.len() ==> (#[trigger] self.commons[k]).position.in_grid()
        &&& forall|k: int| 0 <= k < self.obstacles.len() ==> (#[trigger] self.obstacles[k]).in_grid()
        &&& self.start matches Some(p) ==> p.in_grid()
        &&& self.finish matches Some(p) ==> p.in_grid()
    }
}

/// Computes `kind_of`.
pub fn classify(c: char) -> (k: CellKind)
    ensures
        k == kind_of(c),
{
    if c == 's' {
        CellKind::Start
    } else if c == 'f' {
        CellKind::Finish
    } else if '0' <= c && c <= '9' {
        CellKind::Paired
    } else if c == 'z' {
        CellKind::Obstacle
    } else {
        CellKind::Empty
    }
}

/// Rows and width only grow as more of the text is read.
pub proof fn lemma_size_grows(text: Seq<char>, m: int, n: int)
    requires
        0 <= m <= n,
    ensures
        rows_started(text, m) <= rows_started(text, n),
        width_of(text, m) <= width_of(text, n),
        0 <= rows_started(text, m),
        0 <= width_of(text, m),
    decreases n,
{
    if m < n {
        lemma_size_grows(text, m, n - 1);
    } else if m > 0 {
        lemma_size_grows(text, m - 1, m - 1);
    }
}

/// Reads one layout. Fails exactly where `layout_fault` names a fault.
pub fn parse_layout(text: &str) -> (r: Result<RawLayout, ParseError>)
    ensures
        match layout_fault(text@) {
            Some(e) => r == Err::<RawLayout, ParseError>(e),
            None => r matches Ok(raw) && raw@ == scan(text@) && raw@.wf(),
        },
{
    let chars = chars_of(text);
    let n = chars.len();
    let ghost txt = chars@;
    let mut raw = RawLayout {
        width: 0,
        height: 0,
        commons: Vec::new(),
        obstacles: Vec::new(),
        start: None,
        finish: None,
    };
    let mut col: i64 = 0;
    let mut second_start = false;
    let mut second_finish = false;
    let mut i: usize = 0;
    assert(raw@ =~= scan_prefix(txt, 0));
    while i < n
        invariant
            txt == chars@,
            txt == text@,
            n == txt.len(),
            0 <= i <= n,
            col == column_of(txt, i as int),
            0 <= col <= MAX_GRID,
            (col == 0) == (i == 0 || is_separator(txt[i - 1])),
            col > 0 ==> raw.height >= 1,
            raw@ == scan_prefix(txt, i as int),
            raw@.wf(),
            count_of(txt, CellKind::Start, i as int) >= 0,
            count_of(txt, CellKind::Finish, i as int) >= 0,
            raw.start is Some == (count_of(txt, CellKind::Start, i as int) >= 1),
            raw.finish is Some == (count_of(txt, CellKind::Finish, i as int) >= 1),
            second_start == (count_of(txt, CellKind::Start, i as int) >= 2),
            second_finish == (count_of(txt, CellKind::Finish, i as int) >= 2),
        decreases n - i,
    {
        let c = chars[i];
        if c == ' ' || c == '\n' {
            col = 0;
        } else {
            let row: i64 = if col == 0 {
                raw.height
            } else {
                raw.height - 1
            };
            proof {
                lemma_size_grows(txt, i as int, i as int);
            }
            if col + 1 > MAX_GRID || row + 1 > MAX_GRID {
                proof {
                    lemma_size_grows(txt, i + 1, n as int);
                }
                return Err(ParseError::LayoutTooLarge);
            }
            let position = GridPos { x: col, y: row };
            assert(position == cell_of(txt, i as int));
            let ghost before = raw@;
            match classify(c) {
                CellKind::Paired => {
                    raw.commons.push(RawPoint { position, symbol: c });
                },
                CellKind::Obstacle => {
                    raw.obstacles.push(position);
                },
                CellKind::Start => {
                    if raw.start.is_none() {
                        raw.start = Some(position);
                    } else {
                        second_start = true;
                    }
                },
                CellKind::Finish => {
                    if raw.finish.is_none() {
                        raw.finish = Some(position);
                    } else {
                        second_finish = true;
                    }
                },
                CellKind::Empty => {},
            }
            raw.height = row + 1;
            if col + 1 > raw.width {
                raw.width = col + 1;
            }
            col = col + 1;
            proof {
                assert forall|k: int| 0 <= k < raw@.commons.len() implies (
                #[trigger] raw@.commons[k]).position.in_grid() by {
                    if k < before.commons.len() {
                        assert(raw@.commons[k] == before.commons[k]);
                    }
                }
                assert forall|k: int| 0 <= k < raw@.obstacles.len() implies (
                #[trigger] raw@.obstacles[k]).in_grid() by {
                    if k < before.obstacles.len() {
                        assert(raw@.obstacles[k] == before.obstacles[k]);
                    }
                }
            }
        }
        assert(raw@ =~= scan_prefix(txt, i + 1));
        i = i + 1;
    }
    if second_start {
        Err(ParseError::DuplicateStart)
    } else if second_finish {
        Err(ParseError::DuplicateFinish)
    } else {
        Ok(raw)
    }
}

} // verus!
