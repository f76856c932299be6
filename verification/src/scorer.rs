//! The compactness scorer: the area of the smallest axis-aligned
//! rectangle that contains every non-blank cell, and 0 for an all-blank
//! grid.

use vstd::prelude::*;
use crate::grid::{Grid, grid_wf, BLANK};

verus! {

/// Cell (`r`, `c`) exists and holds a placed character.
pub open spec fn nonblank_at(g: Seq<Seq<char>>, r: int, c: int) -> bool {
    0 <= r < g.len() && 0 <= c < g[r].len() && g[r][c] != BLANK
}

/// Row `r` holds at least one placed character.
pub open spec fn row_has_nonblank(g: Seq<Seq<char>>, r: int) -> bool {
    exists|c: int| nonblank_at(g, r, c)
}

/// Column `c` holds at least one placed character.
pub open spec fn col_has_nonblank(g: Seq<Seq<char>>, c: int) -> bool {
    exists|r: int| nonblank_at(g, r, c)
}

/// The grid holds at least one placed character.
pub open spec fn has_nonblank(g: Seq<Seq<char>>) -> bool {
    exists|r: int, c: int| nonblank_at(g, r, c)
}

/// `m` is the topmost row with a placed character.
pub open spec fn is_min_row(g: Seq<Seq<char>>, m: int) -> bool {
    row_has_nonblank(g, m) && forall|r: int| r < m ==> !row_has_nonblank(g, r)
}

/// `m` is the bottommost row with a placed character.
pub open spec fn is_max_row(g: Seq<Seq<char>>, m: int) -> bool {
    row_has_nonblank(g, m) && forall|r: int| r > m ==> !row_has_nonblank(g, r)
}

/// `m` is the leftmost column with a placed character.
pub open spec fn is_min_col(g: Seq<Seq<char>>, m: int) -> bool {
    col_has_nonblank(g, m) && forall|c: int| c < m ==> !col_has_nonblank(g, c)
}

/// `m` is the rightmost column with a placed character.
pub open spec fn is_max_col(g: Seq<Seq<char>>, m: int) -> bool {
    col_has_nonblank(g, m) && forall|c: int| c > m ==> !col_has_nonblank(g, c)
}

pub open spec fn min_row(g: Seq<Seq<char>>) -> int {
    choose|m: int| is_min_row(g, m)
}

pub open spec fn max_row(g: Seq<Seq<char>>) -> int {
    choose|m: int| is_max_row(g, m)
}

pub open spec fn min_col(g: Seq<Seq<char>>) -> int {
    choose|m: int| is_min_col(g, m)
}

pub open spec fn max_col(g: Seq<Seq<char>>) -> int {
    choose|m: int| is_max_col(g, m)
}

/// The compactness score: the area of the bounding rectangle of the
/// non-blank cells, and 0 when there is none.
pub open spec fn compactness(g: Seq<Seq<char>>) -> int {
    if has_nonblank(g) {
        (max_row(g) - min_row(g) + 1) * (max_col(g) - min_col(g) + 1)
    } else {
        0
    }
}

/// A grid with a placed character has a topmost such row.
pub proof fn lemma_min_row_exists(g: Seq<Seq<char>>, w: int)
    requires
        row_has_nonblank(g, w),
    ensures
        exists|m: int| is_min_row(g, m),
    decreases w,
{
    let c = choose|c: int| nonblank_at(g, w, c);
    assert(0 <= w);
    if exists|r: int| 0 <= r < w && row_has_nonblank(g, r) {
        let r = choose|r: int| 0 <= r < w && row_has_nonblank(g, r);
        lemma_min_row_exists(g, r);
    } else {
        assert(is_min_row(g, w));
    }
}

/// A grid with a placed character has a bottommost such row.
pub proof fn lemma_max_row_exists(g: Seq<Seq<char>>, w: int)
    requires
        row_has_nonblank(g, w),
    ensures
        exists|m: int| is_max_row(g, m),
    decreases g.len() - w,
{
    let c = choose|c: int| nonblank_at(g, w, c);
    assert(w < g.len());
    if exists|r: int| w < r < g.len() && row_has_nonblank(g, r) {
        let r = choose|r: int| w < r < g.len() && row_has_nonblank(g, r);
        lemma_max_row_exists(g, r);
    } else {
        assert(is_max_row(g, w));
    }
}

/// A grid with a placed character has a leftmost such column.
pub proof fn lemma_min_col_exists(g: Seq<Seq<char>>, w: int)
    requires
        col_has_nonblank(g, w),
    ensures
        exists|m: int| is_min_col(g, m),
    decreases w,
{
    let r = choose|r: int| nonblank_at(g, r, w);
    assert(0 <= w);
    if exists|c: int| 0 <= c < w && col_has_nonblank(g, c) {
        let c = choose|c: int| 0 <= c < w && col_has_nonblank(g, c);
        lemma_min_col_exists(g, c);
    } else {
        assert(is_min_col(g, w));
    }
}

/// A well-formed grid with a placed character has a rightmost such
/// column.
pub proof fn lemma_max_col_exists(g: Seq<Seq<char>>, w: int)
    requires
        grid_wf(g),
        col_has_nonblank(g, w),
    ensures
        exists|m: int| is_max_col(g, m),
    decreases g.len() - w,
{
    let r = choose|r: int| nonblank_at(g, r, w);
    assert(w < g[r].len());
    assert(w < g.len());
    if exists|c: int| w < c < g.len() && col_has_nonblank(g, c) {
        let c = choose|c: int| w < c < g.len() && col_has_nonblank(g, c);
        lemma_max_col_exists(g, c);
    } else {
        assert forall|c: int| c > w implies !col_has_nonblank(g, c) by {
            if col_has_nonblank(g, c) {
                let r2 = choose|r2: int| nonblank_at(g, r2, c);
                assert(c < g[r2].len());
            }
        }
        assert(is_max_col(g, w));
    }
}

/// Whether row `r` holds any placed character.
fn row_nonblank(g: &Grid, r: usize) -> (b: bool)
    requires
        grid_wf(g@),
        r < g@.len(),
    ensures
        b == row_has_nonblank(g@, r as int),
{
    let n = g.size();
    let mut c: usize = 0;
    while c < n
        invariant
            grid_wf(g@),
            r < g@.len(),
            n == g@.len(),
            c <= n,
            forall|cc: int| 0 <= cc < c ==> !nonblank_at(g@, r as int, cc),
        decreases n - c,
    {
        assert(g@[r as int].len() == n);
        if g.get(r, c) != BLANK {
            assert(nonblank_at(g@, r as int, c as int));
            return true;
        }
        c += 1;
    }
    assert forall|cc: int| !nonblank_at(g@, r as int, cc) by {
        if nonblank_at(g@, r as int, cc) {
            assert(cc < g@[r as int].len());
        }
    }
    false
}

/// Whether column `c` holds any placed character.
fn col_nonblank(g: &Grid, c: usize) -> (b: bool)
    requires
        grid_wf(g@),
        c < g@.len(),
    ensures
        b == col_has_nonblank(g@, c as int),
{
    let n = g.size();
    let mut r: usize = 0;
    while r < n
        invariant
            grid_wf(g@),
            c < g@.len(),
            n == g@.len(),
            r <= n,
            forall|rr: int| 0 <= rr < r ==> !nonblank_at(g@, rr, c as int),
        decreases n - r,
    {
        assert(g@[r as int].len() == n);
        if g.get(r, c) != BLANK {
            assert(nonblank_at(g@, r as int, c as int));
            return true;
        }
        r += 1;
    }
    false
}

/// Computes the compactness score of a grid: the area of the tightest
/// bounding rectangle around its non-blank cells, and exactly 0 when the
/// whole grid is blank.
pub fn calculate_compactness(g: &Grid) -> (score: usize)
    requires
        grid_wf(g@),
        g@.len() * g@.len() <= usize::MAX,
    ensures
        score == compactness(g@),
{
    let n = g.size();
    let mut found = false;
    let mut minr: usize = 0;
    let mut maxr: usize = 0;
    let mut r: usize = 0;
    while r < n
        invariant
            grid_wf(g@),
            n == g@.len(),
            r <= n,
            !found ==> forall|rr: int| 0 <= rr < r ==> !row_has_nonblank(g@, rr),
            found ==> minr <= maxr < r && row_has_nonblank(g@, minr as int) && row_has_nonblank(
                g@,
                maxr as int,
            ),
            found ==> forall|rr: int| rr < minr ==> !row_has_nonblank(g@, rr),
            found ==> forall|rr: int| maxr < rr < r ==> !row_has_nonblank(g@, rr),
        decreases n - r,
    {
        if row_nonblank(g, r) {
            if !found {
                minr = r;
                found = true;
            }
            maxr = r;
        }
        r += 1;
    }
    if !found {
        assert forall|rr: int, cc: int| !nonblank_at(g@, rr, cc) by {
            if nonblank_at(g@, rr, cc) {
                assert(row_has_nonblank(g@, rr));
            }
        }
        assert(!has_nonblank(g@));
        return 0;
    }
    assert(is_min_row(g@, minr as int));
    assert(is_max_row(g@, maxr as int));
    assert(has_nonblank(g@)) by {
        let c = choose|c: int| nonblank_at(g@, minr as int, c);
        assert(nonblank_at(g@, minr as int, c));
    }
    let mut foundc = false;
    let mut minc: usize = 0;
    let mut maxc: usize = 0;
    let mut c: usize = 0;
    while c < n
        invariant
            grid_wf(g@),
            n == g@.len(),
            c <= n,
            !foundc ==> forall|cc: int| 0 <= cc < c ==> !col_has_nonblank(g@, cc),
            foundc ==> minc <= maxc < c && col_has_nonblank(g@, minc as int) && col_has_nonblank(
                g@,
                maxc as int,
            ),
            foundc ==> forall|cc: int| cc < minc ==> !col_has_nonblank(g@, cc),
            foundc ==> forall|cc: int| maxc < cc < c ==> !col_has_nonblank(g@, cc),
        decreases n - c,
    {
        if col_nonblank(g, c) {
            if !foundc {
                minc = c;
                foundc = true;
            }
            maxc = c;
        }
        c += 1;
    }
    proof {
        let cw = choose|cw: int| nonblank_at(g@, minr as int, cw);
        assert(cw < g@[minr as int].len());
        assert(col_has_nonblank(g@, cw));
        if !foundc {
            assert(false);
        }
    }
    assert(is_min_col(g@, minc as int));
    assert forall|cc: int| cc > maxc implies !col_has_nonblank(g@, cc) by {
        if col_has_nonblank(g@, cc) {
            let rw = choose|rw: int| nonblank_at(g@, rw, cc);
            assert(cc < g@[rw].len());
        }
    }
    assert(is_max_col(g@, maxc as int));
    proof {
        lemma_min_row_exists(g@, minr as int);
        lemma_max_row_exists(g@, minr as int);
        lemma_min_col_exists(g@, minc as int);
        lemma_max_col_exists(g@, minc as int);
        assert(min_row(g@) == minr as int);
        assert(max_row(g@) == maxr as int);
        assert(min_col(g@) == minc as int);
        assert(max_col(g@) == maxc as int);
    }
    let h = maxr - minr + 1;
    let w = maxc - minc + 1;
    assert(h * w <= n * n) by (nonlinear_arith)
        requires
            0 < h <= n,
            0 < w <= n,
    ;
    h * w
}

/// The compactness of an all-blank grid is exactly 0.
pub proof fn lemma_blank_grid_compactness(g: Seq<Seq<char>>)
    requires
        forall|r: int, c: int| 0 <= r < g.len() && 0 <= c < g[r].len() ==> #[trigger] g[r][c] == BLANK,
    ensures
        compactness(g) == 0,
{
    assert(!has_nonblank(g));
}

/// Compactness is invariant under padding: a non-blank pattern embedded
/// at the origin of a larger, otherwise blank grid scores the same as in
/// the smaller grid.
pub proof fn lemma_compactness_padding(small: Seq<Seq<char>>, big: Seq<Seq<char>>)
    requires
        grid_wf(small),
        grid_wf(big),
        small.len() <= big.len(),
        forall|r: int, c: int|
            0 <= r < small.len() && 0 <= c < small.len() ==> big[r][c] == #[trigger] small[r][c],
        forall|r: int, c: int|
            0 <= r < big.len() && 0 <= c < big.len() && !(r < small.len() && c < small.len())
                ==> #[trigger] big[r][c] == BLANK,
    ensures
        compactness(big) == compactness(small),
{
    assert forall|r: int, c: int| #[trigger] nonblank_at(big, r, c) implies nonblank_at(
        small,
        r,
        c,
    ) by {
        assert(c < big[r].len());
        assert(big[r].len() == big.len());
        if !(r < small.len() && c < small.len()) {
            assert(big[r][c] == BLANK);
        }
    }
    assert forall|r: int, c: int| #[trigger] nonblank_at(small, r, c) implies nonblank_at(
        big,
        r,
        c,
    ) by {
        assert(c < small[r].len());
        assert(small[r].len() == small.len());
        assert(big[r][c] == small[r][c]);
        assert(c < big[r].len());
    }
    assert forall|r: int| #[trigger] row_has_nonblank(big, r) == row_has_nonblank(small, r) by {
        if row_has_nonblank(big, r) {
            let c = choose|c: int| nonblank_at(big, r, c);
            assert(nonblank_at(small, r, c));
        }
        if row_has_nonblank(small, r) {
            let c = choose|c: int| nonblank_at(small, r, c);
            assert(nonblank_at(big, r, c));
        }
    }
    assert forall|c: int| #[trigger] col_has_nonblank(big, c) == col_has_nonblank(small, c) by {
        if col_has_nonblank(big, c) {
            let r = choose|r: int| nonblank_at(big, r, c);
            assert(nonblank_at(small, r, c));
        }
        if col_has_nonblank(small, c) {
            let r = choose|r: int| nonblank_at(small, r, c);
            assert(nonblank_at(big, r, c));
        }
    }
    if has_nonblank(big) {
        let (rw, cw) = choose|rw: int, cw: int| nonblank_at(big, rw, cw);
        assert(nonblank_at(small, rw, cw));
        assert(has_nonblank(small));
        lemma_min_row_exists(small, rw);
        lemma_max_row_exists(small, rw);
        lemma_min_col_exists(small, cw);
        lemma_max_col_exists(small, cw);
        assert(is_min_row(small, min_row(small)));
        assert(is_min_row(big, min_row(small)));
        lemma_min_row_exists(big, rw);
        assert(min_row(big) == min_row(small));
        assert(is_max_row(small, max_row(small)));
        assert(is_max_row(big, max_row(small)));
        lemma_max_row_exists(big, rw);
        assert(max_row(big) == max_row(small));
        assert(is_min_col(small, min_col(small)));
        assert(is_min_col(big, min_col(small)));
        lemma_min_col_exists(big, cw);
        assert(min_col(big) == min_col(small));
        assert(is_max_col(small, max_col(small)));
        assert(is_max_col(big, max_col(small)));
        lemma_max_col_exists(big, cw);
        assert(max_col(big) == max_col(small));
    } else {
        if has_nonblank(small) {
            let (rw, cw) = choose|rw: int, cw: int| nonblank_at(small, rw, cw);
            assert(nonblank_at(big, rw, cw));
        }
        assert(!has_nonblank(small));
    }
}

} // verus!
