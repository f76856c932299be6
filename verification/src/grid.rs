//! The puzzle surface: a square character grid with blank-cell semantics
//! and conflict-checked, check-then-commit word writes.

use vstd::prelude::*;
use vstd::string::StrSliceExecFns;

verus! {

/// The character that marks an empty cell.
pub const BLANK: char = ' ';

/// A square matrix of cells; each cell holds the blank marker or one
/// placed character.
#[derive(Debug, Clone, PartialEq, Eq)]
pub struct Grid {
    pub cells: Vec<Vec<char>>,
}

impl View for Grid {
    type V = Seq<Seq<char>>;

    open spec fn view(&self) -> Seq<Seq<char>> {
        Seq::new(self.cells@.len(), |r: int| self.cells@[r]@)
    }
}

/// A grid is well formed when it is square: every row has as many cells
/// as there are rows.
pub open spec fn grid_wf(g: Seq<Seq<char>>) -> bool {
    forall|r: int| 0 <= r < g.len() ==> (#[trigger] g[r]).len() == g.len()
}

/// Row index of the cell that holds character `i` of a word placed at
/// (`row`, `col`) in the given orientation.
pub open spec fn cell_row(row: int, vertical: bool, i: int) -> int {
    if vertical {
        row + i
    } else {
        row
    }
}

/// Column index of the cell that holds character `i` of a word placed at
/// (`row`, `col`) in the given orientation.
pub open spec fn cell_col(col: int, vertical: bool, i: int) -> int {
    if vertical {
        col
    } else {
        col + i
    }
}

/// The character currently in the cell that position `i` of the run
/// would occupy.
pub open spec fn cell_at(g: Seq<Seq<char>>, row: int, col: int, vertical: bool, i: int) -> char {
    g[cell_row(row, vertical, i)][cell_col(col, vertical, i)]
}

/// Every target cell of a run of length `len` lies inside a grid of the
/// given size. An empty run has no target cells and so is always in
/// bounds.
pub open spec fn placement_in_bounds(
    size: int,
    len: int,
    row: int,
    col: int,
    vertical: bool,
) -> bool {
    len == 0 || if vertical {
        0 <= col < size && 0 <= row && row + len <= size
    } else {
        0 <= row < size && 0 <= col && col + len <= size
    }
}

/// Every target cell is blank or already holds exactly the word's
/// character for that position.
pub open spec fn placement_agrees(
    g: Seq<Seq<char>>,
    w: Seq<char>,
    row: int,
    col: int,
    vertical: bool,
) -> bool {
    forall|i: int|
        0 <= i < w.len() ==> (#[trigger] cell_at(g, row, col, vertical, i)) == BLANK || cell_at(
            g,
            row,
            col,
            vertical,
            i,
        ) == w[i]
}

/// A placement is accepted exactly when its whole run is in bounds and
/// conflicts with no existing character.
pub open spec fn can_place(
    g: Seq<Seq<char>>,
    w: Seq<char>,
    row: int,
    col: int,
    vertical: bool,
) -> bool {
    &&& placement_in_bounds(g.len() as int, w.len() as int, row, col, vertical)
    &&& placement_agrees(g, w, row, col, vertical)
}

/// Whether cell (`r`, `c`) is covered by a run of length `len` placed at
/// (`row`, `col`).
pub open spec fn covers(len: int, row: int, col: int, vertical: bool, r: int, c: int) -> bool {
    if vertical {
        c == col && row <= r < row + len
    } else {
        r == row && col <= c < col + len
    }
}

/// The position within the word of the character that a covered cell
/// (`r`, `c`) receives.
pub open spec fn cover_index(row: int, col: int, vertical: bool, r: int, c: int) -> int {
    if vertical {
        r - row
    } else {
        c - col
    }
}

/// The grid after committing a placement: covered cells take the word's
/// characters, all other cells keep their value.
pub open spec fn placed_grid(
    g: Seq<Seq<char>>,
    w: Seq<char>,
    row: int,
    col: int,
    vertical: bool,
) -> Seq<Seq<char>> {
    Seq::new(
        g.len(),
        |r: int|
            Seq::new(
                g[r].len(),
                |c: int|
                    (if covers(w.len() as int, row, col, vertical, r, c) {
                        w[cover_index(row, col, vertical, r, c)]
                    } else {
                        g[r][c]
                    }),
            ),
    )
}

impl Grid {
    /// Number of rows (and, on a well-formed grid, of columns).
    pub fn size(&self) -> (n: usize)
        ensures
            n == self@.len(),
    {
        self.cells.len()
    }

    /// The character at (`row`, `col`).
    pub fn get(&self, row: usize, col: usize) -> (c: char)
        requires
            row < self@.len(),
            col < self@[row as int].len(),
        ensures
            c == self@[row as int][col as int],
    {
        self.cells[row][col]
    }
}

/// Writes one character into one cell.
pub(crate) fn set_cell(grid: &mut Grid, r: usize, c: usize, ch: char)
    requires
        r < old(grid)@.len(),
        c < old(grid)@[r as int].len(),
    ensures
        final(grid)@ == old(grid)@.update(r as int, old(grid)@[r as int].update(c as int, ch)),
{
    let ghost before = grid@;
    grid.cells[r][c] = ch;
    proof {
        assert(grid@ =~~= before.update(r as int, before[r as int].update(c as int, ch)));
    }
}

/// Returns a `size` x `size` grid with every cell blank.
pub fn initialize_grid(size: usize) -> (g: Grid)
    requires
        size > 0,
    ensures
        grid_wf(g@),
        g@.len() == size,
        forall|r: int, c: int| 0 <= r < size && 0 <= c < size ==> g@[r][c] == BLANK,
{
    let mut cells: Vec<Vec<char>> = Vec::new();
    while cells.len() < size
        invariant
            cells@.len() <= size,
            forall|r: int|
                0 <= r < cells@.len() ==> (#[trigger] cells@[r])@.len() == size && forall|c: int|
                    0 <= c < size ==> cells@[r]@[c] == BLANK,
        decreases size - cells.len(),
    {
        let mut row: Vec<char> = Vec::new();
        while row.len() < size
            invariant
                row@.len() <= size,
                forall|c: int| 0 <= c < row@.len() ==> row@[c] == BLANK,
            decreases size - row.len(),
        {
            row.push(BLANK);
        }
        cells.push(row);
    }
    Grid { cells }
}

/// Whether placing `word` at (`row`, `col`) in the given orientation
/// would be accepted; the grid is not touched.
pub fn check_place(grid: &Grid, word: &str, row: usize, col: usize, vertical: bool) -> (ok: bool)
    requires
        grid_wf(grid@),
    ensures
        ok == can_place(grid@, word@, row as int, col as int, vertical),
{
    let len = word.unicode_len();
    let size = grid.cells.len();
    let ghost g0 = grid@;
    if len == 0 {
        return true;
    }
    let in_bounds = if vertical {
        col < size && len <= size && row <= size - len
    } else {
        row < size && len <= size && col <= size - len
    };
    if !in_bounds {
        return false;
    }
    let mut i: usize = 0;
    while i < len
        invariant
            grid@ == g0,
            grid_wf(g0),
            size == g0.len(),
            len == word@.len(),
            i <= len,
            placement_in_bounds(size as int, len as int, row as int, col as int, vertical),
            forall|j: int|
                0 <= j < i ==> (#[trigger] cell_at(g0, row as int, col as int, vertical, j))
                    == BLANK || cell_at(g0, row as int, col as int, vertical, j) == word@[j],
        decreases len - i,
    {
        let ch = word.get_char(i);
        let r = if vertical {
            row + i
        } else {
            row
        };
        let c = if vertical {
            col
        } else {
            col + i
        };
        proof {
            assert(grid.cells@.len() == size);
            assert(r < size && c < size);
            assert(grid.cells@[r as int]@ == g0[r as int]);
            assert(grid.cells@[r as int]@.len() == size);
        }
        let cur = grid.cells[r][c];
        if cur != BLANK && cur != ch {
            proof {
                assert(cell_at(g0, row as int, col as int, vertical, i as int) != BLANK && cell_at(
                    g0,
                    row as int,
                    col as int,
                    vertical,
                    i as int,
                ) != word@[i as int]);
            }
            return false;
        }
        i += 1;
    }
    true
}

/// Tries to place `word` at (`row`, `col`) in the given orientation.
///
/// The whole run is validated first; only if every target cell is inside
/// the grid and blank or already equal to the word's character there are
/// the characters committed. A rejected placement leaves the grid
/// exactly as it was.
pub fn place_word(grid: &mut Grid, word: &str, row: usize, col: usize, vertical: bool) -> (placed:
    bool)
    requires
        grid_wf(old(grid)@),
    ensures
        grid_wf(final(grid)@),
        final(grid)@.len() == old(grid)@.len(),
        placed == can_place(old(grid)@, word@, row as int, col as int, vertical),
        placed ==> final(grid)@ == placed_grid(old(grid)@, word@, row as int, col as int, vertical),
        !placed ==> final(grid)@ == old(grid)@,
{
    let ghost g0 = grid@;
    if !check_place(grid, word, row, col, vertical) {
        return false;
    }
    let len = word.unicode_len();
    let size = grid.cells.len();
    if len == 0 {
        proof {
            assert(placed_grid(g0, word@, row as int, col as int, vertical) =~~= g0);
        }
        return true;
    }
    proof {
        assert(placed_grid(g0, word@.take(0), row as int, col as int, vertical) =~~= g0);
    }
    let mut i: usize = 0;
    while i < len
        invariant
            grid_wf(g0),
            size == g0.len(),
            len == word@.len(),
            i <= len,
            placement_in_bounds(size as int, len as int, row as int, col as int, vertical),
            grid@ == placed_grid(g0, word@.take(i as int), row as int, col as int, vertical),
        decreases len - i,
    {
        proof {
            assert(grid@.len() == g0.len());
            assert(forall|r: int| 0 <= r < g0.len() ==> (#[trigger] grid@[r]).len() == g0[r].len());
        }
        let ch = word.get_char(i);
        let r = if vertical {
            row + i
        } else {
            row
        };
        let c = if vertical {
            col
        } else {
            col + i
        };
        set_cell(grid, r, c, ch);
        proof {
            assert(grid@ =~~= placed_grid(
                g0,
                word@.take(i as int + 1),
                row as int,
                col as int,
                vertical,
            ));
        }
        i += 1;
    }
    proof {
        assert(word@.take(len as int) =~= word@);
        assert(grid@ =~~= placed_grid(g0, word@, row as int, col as int, vertical));
    }
    true
}

/// Every cell covered by an accepted placement ends up holding exactly
/// the word's character for that position: an accepted overlap never
/// silently corrupts a word.
pub proof fn lemma_placed_word_cells(
    g: Seq<Seq<char>>,
    w: Seq<char>,
    row: int,
    col: int,
    vertical: bool,
    i: int,
)
    requires
        grid_wf(g),
        can_place(g, w, row, col, vertical),
        0 <= i < w.len(),
    ensures
        placed_grid(g, w, row, col, vertical)[cell_row(row, vertical, i)][cell_col(
            col,
            vertical,
            i,
        )] == w[i],
{
    let r = cell_row(row, vertical, i);
    let c = cell_col(col, vertical, i);
    assert(0 <= r < g.len());
    assert(0 <= c < g[r].len());
    assert(covers(w.len() as int, row, col, vertical, r, c));
    assert(cover_index(row, col, vertical, r, c) == i);
}

} // verus!
