//! Placement policies: greedy first-fit scanning (which is also what the
//! proximity-seeking variant degenerates to), sequential diagonal
//! stepping, and the simple one-word-per-row layout.

use vstd::prelude::*;
use vstd::string::StrSliceExecFns;
use crate::grid::{
    Grid, grid_wf, can_place, placed_grid, place_word, check_place, set_cell, initialize_grid,
    BLANK,
};

verus! {

/// The row-major scan order of the first-fit policies: (`r2`, `c2`,
/// `v2`) is tried strictly before (`r`, `c`, `v`). At one coordinate the
/// vertical orientation is tried before the horizontal one.
pub open spec fn scan_precedes(r2: int, c2: int, v2: bool, r: int, c: int, v: bool) -> bool {
    ||| r2 < r
    ||| (r2 == r && c2 < c)
    ||| (r2 == r && c2 == c && v2 && !v)
}

/// (`r`, `c`, `v`) is the first coordinate/orientation pair in scan
/// order at which the word fits.
pub open spec fn is_first_fit(g: Seq<Seq<char>>, w: Seq<char>, r: int, c: int, v: bool) -> bool {
    &&& 0 <= r
    &&& 0 <= c
    &&& can_place(g, w, r, c, v)
    &&& forall|r2: int, c2: int, v2: bool|
        0 <= r2 && 0 <= c2 && scan_precedes(r2, c2, v2, r, c, v) ==> !can_place(g, w, r2, c2, v2)
}

/// The first fit, when one exists.
pub open spec fn first_fit(g: Seq<Seq<char>>, w: Seq<char>) -> (int, int, bool) {
    choose|t: (int, int, bool)| is_first_fit(g, w, t.0, t.1, t.2)
}

/// The grid after offering one word to the first-fit policy: committed
/// at the first fit when there is one, untouched otherwise.
pub open spec fn greedy_step(g: Seq<Seq<char>>, w: Seq<char>) -> Seq<Seq<char>> {
    if exists|t: (int, int, bool)| is_first_fit(g, w, t.0, t.1, t.2) {
        placed_grid(g, w, first_fit(g, w).0, first_fit(g, w).1, first_fit(g, w).2)
    } else {
        g
    }
}

/// The grid after offering the first `k` words, in order, to the
/// first-fit policy.
pub open spec fn greedy_grid_after(g: Seq<Seq<char>>, words: Seq<Seq<char>>, k: int) -> Seq<
    Seq<char>,
>
    decreases k,
{
    if k <= 0 {
        g
    } else {
        greedy_step(greedy_grid_after(g, words, k - 1), words[k - 1])
    }
}

/// A word with at least one character fits nowhere outside the grid's
/// own coordinates.
pub proof fn lemma_no_fit_outside(g: Seq<Seq<char>>, w: Seq<char>)
    requires
        w.len() > 0,
    ensures
        forall|r: int, c: int, v: bool|
            !(0 <= r < g.len() && 0 <= c < g.len()) ==> !can_place(g, w, r, c, v),
{
}

/// A word longer than the grid dimension fits nowhere at all: every
/// placement attempt for it is rejected, under every policy.
pub proof fn lemma_long_word_never_places(
    g: Seq<Seq<char>>,
    w: Seq<char>,
    r: int,
    c: int,
    v: bool,
)
    requires
        w.len() > g.len(),
    ensures
        !can_place(g, w, r, c, v),
{
}

/// A word longer than the grid dimension fits nowhere in it, so the
/// first-fit policy reports it unplaced and leaves the grid untouched.
pub proof fn lemma_long_word_reported(g: Seq<Seq<char>>, w: Seq<char>)
    requires
        w.len() > g.len(),
    ensures
        !(exists|r: int, c: int, v: bool| can_place(g, w, r, c, v)),
        greedy_step(g, w) == g,
{
    assert forall|r: int, c: int, v: bool| !can_place(g, w, r, c, v) by {
        lemma_long_word_never_places(g, w, r, c, v);
    }
    if exists|t: (int, int, bool)| is_first_fit(g, w, t.0, t.1, t.2) {
        let t = choose|t: (int, int, bool)| is_first_fit(g, w, t.0, t.1, t.2);
        assert(can_place(g, w, t.0, t.1, t.2));
    }
}

/// The first-fit policy never changes the grid's dimension, so a word
/// longer than it when the run starts stays too long for every later
/// state as well.
pub proof fn lemma_greedy_grid_len(g: Seq<Seq<char>>, words: Seq<Seq<char>>, k: int)
    ensures
        greedy_grid_after(g, words, k).len() == g.len(),
    decreases k,
{
    if k > 0 {
        lemma_greedy_grid_len(g, words, k - 1);
    }
}

/// The sequential-diagonal policy never changes the grid's dimension
/// either.
pub proof fn lemma_sequential_grid_len(
    g: Seq<Seq<char>>,
    words: Seq<Seq<char>>,
    start_row: int,
    start_col: int,
    step_row: int,
    step_col: int,
    k: int,
)
    ensures
        sequential_grid_after(g, words, start_row, start_col, step_row, step_col, k).len()
            == g.len(),
    decreases k,
{
    if k > 0 {
        lemma_sequential_grid_len(g, words, start_row, start_col, step_row, step_col, k - 1);
    }
}

/// Scans the grid in row-major order, trying the vertical orientation
/// before the horizontal one at each coordinate, and returns the first
/// position at which the word fits, or `None` when it fits nowhere.
pub fn find_first_fit(grid: &Grid, word: &str) -> (res: Option<(usize, usize, bool)>)
    requires
        grid_wf(grid@),
    ensures
        match res {
            Some(p) => is_first_fit(grid@, word@, p.0 as int, p.1 as int, p.2),
            None => forall|r: int, c: int, v: bool| !can_place(grid@, word@, r, c, v),
        },
{
    let len = word.unicode_len();
    if len == 0 {
        assert(can_place(grid@, word@, 0, 0, true));
        return Some((0, 0, true));
    }
    let n = grid.size();
    let mut r: usize = 0;
    while r < n
        invariant
            grid_wf(grid@),
            n == grid@.len(),
            len == word@.len(),
            len > 0,
            r <= n,
            forall|r2: int, c2: int, v2: bool|
                0 <= r2 < r && 0 <= c2 < n ==> !can_place(grid@, word@, r2, c2, v2),
        decreases n - r,
    {
        let mut c: usize = 0;
        while c < n
            invariant
                grid_wf(grid@),
                n == grid@.len(),
                len == word@.len(),
                len > 0,
                r < n,
                c <= n,
                forall|r2: int, c2: int, v2: bool|
                    0 <= r2 < r && 0 <= c2 < n ==> !can_place(grid@, word@, r2, c2, v2),
                forall|c2: int, v2: bool|
                    0 <= c2 < c ==> !can_place(grid@, word@, r as int, c2, v2),
            decreases n - c,
        {
            if check_place(grid, word, r, c, true) {
                proof {
                    lemma_no_fit_outside(grid@, word@);
                }
                return Some((r, c, true));
            }
            if check_place(grid, word, r, c, false) {
                proof {
                    lemma_no_fit_outside(grid@, word@);
                }
                return Some((r, c, false));
            }
            c += 1;
        }
        r += 1;
    }
    proof {
        lemma_no_fit_outside(grid@, word@);
    }
    None
}

/// Places the word at the first position of the row-major scan at which
/// it fits, reporting whether any position fit. This is both the greedy
/// first-fit policy and the proximity-seeking one: the scan that seeks
/// cells near already-placed letters deliberately enforces no locality
/// restriction, so it degenerates to the same full-grid first-fit scan,
/// and the unscoped fallback scan coincides with the first attempt.
pub fn place_word_near(grid: &mut Grid, word: &str) -> (placed: bool)
    requires
        grid_wf(old(grid)@),
    ensures
        grid_wf(final(grid)@),
        final(grid)@.len() == old(grid)@.len(),
        placed == exists|r: int, c: int, v: bool| can_place(old(grid)@, word@, r, c, v),
        final(grid)@ == greedy_step(old(grid)@, word@),
        !placed ==> final(grid)@ == old(grid)@,
{
    let ghost g0 = grid@;
    match find_first_fit(grid, word) {
        Some((r, c, v)) => {
            proof {
                let t = (r as int, c as int, v);
                assert(is_first_fit(g0, word@, t.0, t.1, t.2));
                let u = first_fit(g0, word@);
                assert(is_first_fit(g0, word@, u.0, u.1, u.2));
                assert(u == t);
            }
            let ok = place_word(grid, word, r, c, v);
            assert(ok);
            true
        },
        None => {
            assert(greedy_step(g0, word@) =~~= g0);
            false
        },
    }
}

/// Offers every word, in arrival order, to the first-fit policy;
/// `reports[i]` says whether word `i` could be placed anywhere in the
/// grid as it stood when the word arrived.
pub fn place_words_greedy(grid: &mut Grid, words: &Vec<String>) -> (reports: Vec<bool>)
    requires
        grid_wf(old(grid)@),
    ensures
        grid_wf(final(grid)@),
        final(grid)@.len() == old(grid)@.len(),
        reports@.len() == words@.len(),
        final(grid)@ == greedy_grid_after(old(grid)@, words.deep_view(), words@.len() as int),
        forall|i: int|
            0 <= i < words@.len() ==> reports@[i] == exists|r: int, c: int, v: bool|
                can_place(
                    greedy_grid_after(old(grid)@, words.deep_view(), i),
                    words.deep_view()[i],
                    r,
                    c,
                    v,
                ),
{
    let ghost g0 = grid@;
    let ghost wv = words.deep_view();
    let mut reports: Vec<bool> = Vec::new();
    let mut i: usize = 0;
    while i < words.len()
        invariant
            grid_wf(grid@),
            grid@.len() == g0.len(),
            wv == words.deep_view(),
            wv.len() == words@.len(),
            i <= words@.len(),
            reports@.len() == i,
            grid@ == greedy_grid_after(g0, wv, i as int),
            forall|j: int|
                0 <= j < i ==> reports@[j] == exists|r: int, c: int, v: bool|
                    can_place(greedy_grid_after(g0, wv, j), wv[j], r, c, v),
        decreases words@.len() - i,
    {
        proof {
            assert(wv[i as int] == words@[i as int]@);
        }
        let placed = place_word_near(grid, words[i].as_str());
        reports.push(placed);
        i += 1;
    }
    reports
}

/// The cursor coordinate of the sequential-diagonal policy after `i`
/// fixed-size steps from `start`.
pub open spec fn cursor_pos(start: int, step: int, i: int) -> int
    decreases i,
{
    if i <= 0 {
        start
    } else {
        cursor_pos(start, step, i - 1) + step
    }
}

/// With a non-negative step the cursor never moves backwards.
pub proof fn lemma_cursor_mono(start: int, step: int, i: int, j: int)
    requires
        0 <= i <= j,
        0 <= step,
    ensures
        cursor_pos(start, step, i) <= cursor_pos(start, step, j),
    decreases j,
{
    if i < j {
        lemma_cursor_mono(start, step, i, j - 1);
    }
}

/// One attempted placement of the sequential-diagonal policy.
#[derive(Clone, Copy, Debug, PartialEq, Eq)]
pub struct Attempt {
    pub row: usize,
    pub col: usize,
    pub vertical: bool,
    pub placed: bool,
}

/// The grid after the sequential-diagonal policy has attempted the
/// first `k` words.
pub open spec fn sequential_grid_after(
    g: Seq<Seq<char>>,
    words: Seq<Seq<char>>,
    start_row: int,
    start_col: int,
    step_row: int,
    step_col: int,
    k: int,
) -> Seq<Seq<char>>
    decreases k,
{
    if k <= 0 {
        g
    } else {
        let prev = sequential_grid_after(g, words, start_row, start_col, step_row, step_col, k - 1);
        let row = cursor_pos(start_row, step_row, k - 1);
        let col = cursor_pos(start_col, step_col, k - 1);
        let v = (k - 1) % 2 == 0;
        if can_place(prev, words[k - 1], row, col, v) {
            placed_grid(prev, words[k - 1], row, col, v)
        } else {
            prev
        }
    }
}

/// The sequential-diagonal policy: one single placement attempt per word
/// at the current cursor, alternating orientation (vertical first), the
/// cursor advancing by the fixed step whether or not the attempt
/// succeeded. Failures are reported in the returned attempts, never
/// retried.
pub fn place_words_sequential(
    grid: &mut Grid,
    words: &Vec<String>,
    start_row: usize,
    start_col: usize,
    step_row: usize,
    step_col: usize,
) -> (attempts: Vec<Attempt>)
    requires
        grid_wf(old(grid)@),
        cursor_pos(start_row as int, step_row as int, words@.len() as int) <= usize::MAX,
        cursor_pos(start_col as int, step_col as int, words@.len() as int) <= usize::MAX,
    ensures
        grid_wf(final(grid)@),
        final(grid)@.len() == old(grid)@.len(),
        attempts@.len() == words@.len(),
        final(grid)@ == sequential_grid_after(
            old(grid)@,
            words.deep_view(),
            start_row as int,
            start_col as int,
            step_row as int,
            step_col as int,
            words@.len() as int,
        ),
        forall|i: int|
            0 <= i < words@.len() ==> {
                &&& (#[trigger] attempts@[i]).row == cursor_pos(start_row as int, step_row as int, i)
                &&& attempts@[i].col == cursor_pos(start_col as int, step_col as int, i)
                &&& attempts@[i].vertical == (i % 2 == 0)
                &&& attempts@[i].placed == can_place(
                    sequential_grid_after(
                        old(grid)@,
                        words.deep_view(),
                        start_row as int,
                        start_col as int,
                        step_row as int,
                        step_col as int,
                        i,
                    ),
                    words.deep_view()[i],
                    cursor_pos(start_row as int, step_row as int, i),
                    cursor_pos(start_col as int, step_col as int, i),
                    i % 2 == 0,
                )
            },
{
    let ghost g0 = grid@;
    let ghost wv = words.deep_view();
    let mut attempts: Vec<Attempt> = Vec::new();
    let mut row = start_row;
    let mut col = start_col;
    let mut vertical = true;
    let mut i: usize = 0;
    while i < words.len()
        invariant
            grid_wf(grid@),
            grid@.len() == g0.len(),
            wv == words.deep_view(),
            wv.len() == words@.len(),
            i <= words@.len(),
            attempts@.len() == i,
            row as int == cursor_pos(start_row as int, step_row as int, i as int),
            col as int == cursor_pos(start_col as int, step_col as int, i as int),
            vertical == ((i as int) % 2 == 0),
            cursor_pos(start_row as int, step_row as int, words@.len() as int) <= usize::MAX,
            cursor_pos(start_col as int, step_col as int, words@.len() as int) <= usize::MAX,
            grid@ == sequential_grid_after(
                g0,
                wv,
                start_row as int,
                start_col as int,
                step_row as int,
                step_col as int,
                i as int,
            ),
            forall|j: int|
                0 <= j < i ==> {
                    &&& (#[trigger] attempts@[j]).row == cursor_pos(
                        start_row as int,
                        step_row as int,
                        j,
                    )
                    &&& attempts@[j].col == cursor_pos(start_col as int, step_col as int, j)
                    &&& attempts@[j].vertical == (j % 2 == 0)
                    &&& attempts@[j].placed == can_place(
                        sequential_grid_after(
                            g0,
                            wv,
                            start_row as int,
                            start_col as int,
                            step_row as int,
                            step_col as int,
                            j,
                        ),
                        wv[j],
                        cursor_pos(start_row as int, step_row as int, j),
                        cursor_pos(start_col as int, step_col as int, j),
                        j % 2 == 0,
                    )
                },
        decreases words@.len() - i,
    {
        proof {
            assert(wv[i as int] == words@[i as int]@);
        }
        let placed = place_word(grid, words[i].as_str(), row, col, vertical);
        attempts.push(Attempt { row, col, vertical, placed });
        proof {
            lemma_cursor_mono(start_row as int, step_row as int, i as int + 1, wv.len() as int);
            lemma_cursor_mono(start_col as int, step_col as int, i as int + 1, wv.len() as int);
        }
        row = row + step_row;
        col = col + step_col;
        vertical = !vertical;
        i += 1;
    }
    attempts
}

/// The length of the longest word in the list; 0 for an empty list.
pub open spec fn spec_max_len(ws: Seq<Seq<char>>) -> int
    decreases ws.len(),
{
    if ws.len() == 0 {
        0
    } else {
        let rest = spec_max_len(ws.drop_last());
        if ws.last().len() > rest {
            ws.last().len() as int
        } else {
            rest
        }
    }
}

/// No word in the list is longer than the longest.
pub proof fn lemma_max_len_bound(ws: Seq<Seq<char>>, i: int)
    requires
        0 <= i < ws.len(),
    ensures
        ws[i].len() <= spec_max_len(ws),
    decreases ws.len(),
{
    if i + 1 < ws.len() {
        lemma_max_len_bound(ws.drop_last(), i);
    }
}

/// Lays the words out one per row, word `i` starting at the left edge of
/// row `i`, on a blank grid just large enough for them: its dimension is
/// the larger of the longest word's length and the number of words.
pub fn generate_crossword(words: &Vec<String>) -> (g: Grid)
    ensures
        grid_wf(g@),
        g@.len() == if spec_max_len(words.deep_view()) > words@.len() as int {
            spec_max_len(words.deep_view())
        } else {
            words@.len() as int
        },
        forall|r: int, c: int|
            0 <= r < g@.len() && 0 <= c < g@.len() ==> #[trigger] g@[r][c] == (if r
                < words.deep_view().len() && c < words.deep_view()[r].len() {
                words.deep_view()[r][c]
            } else {
                BLANK
            }),
{
    let ghost wv = words.deep_view();
    let mut max_len: usize = 0;
    let mut i: usize = 0;
    while i < words.len()
        invariant
            wv == words.deep_view(),
            wv.len() == words@.len(),
            i <= words@.len(),
            max_len as int == spec_max_len(wv.take(i as int)),
        decreases words@.len() - i,
    {
        proof {
            assert(wv[i as int] == words@[i as int]@);
            assert(wv.take(i as int + 1).drop_last() =~= wv.take(i as int));
            assert(wv.take(i as int + 1).last() == wv[i as int]);
        }
        let l = words[i].as_str().unicode_len();
        if l > max_len {
            max_len = l;
        }
        i += 1;
    }
    proof {
        assert(wv.take(wv.len() as int) =~= wv);
    }
    let size = if max_len > words.len() {
        max_len
    } else {
        words.len()
    };
    if size == 0 {
        let g = Grid { cells: Vec::new() };
        return g;
    }
    let mut g = initialize_grid(size);
    let mut r: usize = 0;
    while r < words.len()
        invariant
            wv == words.deep_view(),
            wv.len() == words@.len(),
            words@.len() <= size,
            spec_max_len(wv) <= size,
            grid_wf(g@),
            g@.len() == size,
            r <= words@.len(),
            forall|rr: int, cc: int|
                0 <= rr < size && 0 <= cc < size ==> #[trigger] g@[rr][cc] == (if rr < r && cc
                    < wv[rr].len() {
                    wv[rr][cc]
                } else {
                    BLANK
                }),
        decreases words@.len() - r,
    {
        proof {
            assert(wv[r as int] == words@[r as int]@);
            lemma_max_len_bound(wv, r as int);
        }
        let w = words[r].as_str();
        let wlen = w.unicode_len();
        let mut c: usize = 0;
        while c < wlen
            invariant
                wv == words.deep_view(),
                wv.len() == words@.len(),
                r < words@.len(),
                words@.len() <= size,
                wlen == wv[r as int].len(),
                wlen <= size,
                w@ == wv[r as int],
                grid_wf(g@),
                g@.len() == size,
                c <= wlen,
                forall|rr: int, cc: int|
                    0 <= rr < size && 0 <= cc < size ==> #[trigger] g@[rr][cc] == (if (rr < r && cc
                        < wv[rr].len()) || (rr == r && cc < c) {
                        wv[rr][cc]
                    } else {
                        BLANK
                    }),
            decreases wlen - c,
        {
            let ch = w.get_char(c);
            set_cell(&mut g, r, c, ch);
            c += 1;
        }
        r += 1;
    }
    g
}

} // verus!
