//! The mathematical model of a Sudoku board.
//!
//! A grid is modelled as a `Seq<Seq<u8>>`: nine rows of nine cells, each cell
//! holding a digit 1..=9 or 0 for "unknown".  Rows, columns and 3x3 regions
//! are each abstracted as a nine-cell sequence, and the single notion of a
//! "duplicate scan" (`first_dup`) underlies every validity check.

use vstd::prelude::*;

verus! {

/// Shape and range invariant: nine rows of nine cells, every value at most 9.
pub open spec fn wf_grid(g: Seq<Seq<u8>>) -> bool {
    &&& g.len() == 9
    &&& forall|r: int| 0 <= r < 9 ==> (#[trigger] g[r]).len() == 9
    &&& forall|r: int, c: int| 0 <= r < 9 && 0 <= c < 9 ==> #[trigger] g[r][c] <= 9
}

/// The region (3x3 block) index a cell belongs to.
pub open spec fn region_of(line: int, column: int) -> int {
    (line / 3) * 3 + column / 3
}

/// Top-left cell (line, column) of a region.
pub open spec fn region_anchor_line(region: int) -> int {
    (region / 3) * 3
}

/// Top-left cell (line, column) of a region.
pub open spec fn region_anchor_column(region: int) -> int {
    (region % 3) * 3
}

/// Row `r` of the grid as a nine-cell sequence.
pub open spec fn row_seq(g: Seq<Seq<u8>>, r: int) -> Seq<u8> {
    g[r]
}

/// Column `c` of the grid as a nine-cell sequence, top to bottom.
pub open spec fn col_seq(g: Seq<Seq<u8>>, c: int) -> Seq<u8> {
    Seq::new(9, |i: int| g[i][c])
}

/// Region `k` of the grid as a nine-cell sequence, in row-major scan order.
pub open spec fn region_seq(g: Seq<Seq<u8>>, k: int) -> Seq<u8> {
    Seq::new(9, |i: int| g[region_anchor_line(k) + i / 3][region_anchor_column(k) + i % 3])
}

/// Cell `j` closes a duplicate: it is a known value already seen earlier in the scan.
pub open spec fn dup_at(s: Seq<u8>, j: int) -> bool {
    &&& 0 <= j < s.len()
    &&& s[j] != 0
    &&& exists|i: int| 0 <= i < j && s[i] == s[j]
}

/// No two known (non-zero) cells of the sequence hold the same value.
pub open spec fn dup_free(s: Seq<u8>) -> bool {
    forall|i: int, j: int|
        #![trigger s[i], s[j]]
        0 <= i < j < s.len() && s[i] == s[j] ==> s[j] == 0
}

/// The first duplicated known value found by a left-to-right scan from `j`, if any.
pub open spec fn first_dup_from(s: Seq<u8>, j: int) -> Option<u8>
    decreases s.len() - j,
{
    if j < 0 || j >= s.len() {
        None
    } else if dup_at(s, j) {
        Some(s[j])
    } else {
        first_dup_from(s, j + 1)
    }
}

/// The first duplicated known value of the sequence, if any.
pub open spec fn first_dup(s: Seq<u8>) -> Option<u8> {
    first_dup_from(s, 0)
}

pub open spec fn row_valid(g: Seq<Seq<u8>>, r: int) -> bool {
    dup_free(row_seq(g, r))
}

pub open spec fn col_valid(g: Seq<Seq<u8>>, c: int) -> bool {
    dup_free(col_seq(g, c))
}

pub open spec fn region_valid(g: Seq<Seq<u8>>, k: int) -> bool {
    dup_free(region_seq(g, k))
}

/// The Sudoku invariant: every row, column and region is free of duplicates.
pub open spec fn grid_valid(g: Seq<Seq<u8>>) -> bool {
    forall|i: int|
        0 <= i < 9 ==> #[trigger] row_valid(g, i) && col_valid(g, i) && region_valid(g, i)
}

/// Every cell holds a known value.
pub open spec fn grid_complete(g: Seq<Seq<u8>>) -> bool {
    forall|r: int, c: int| 0 <= r < 9 && 0 <= c < 9 ==> #[trigger] g[r][c] != 0
}

/// The grid with one cell replaced.
pub open spec fn grid_set(g: Seq<Seq<u8>>, r: int, c: int, v: u8) -> Seq<Seq<u8>> {
    g.update(r, g[r].update(c, v))
}

/// A scan that finds no duplicate at any position finds none overall,
/// and the first position closing a duplicate determines `first_dup`.
pub proof fn lemma_first_dup_skip(s: Seq<u8>, j: int)
    requires
        0 <= j <= s.len(),
        forall|jj: int| 0 <= jj < j ==> !dup_at(s, jj),
    ensures
        first_dup(s) == first_dup_from(s, j),
    decreases j,
{
    if j > 0 {
        lemma_first_dup_skip(s, j - 1);
    }
}

/// `first_dup` returns `None` exactly on duplicate-free sequences.
pub proof fn lemma_first_dup_none(s: Seq<u8>)
    ensures
        first_dup(s) is None <==> dup_free(s),
{
    if dup_free(s) {
        assert forall|jj: int| 0 <= jj < s.len() implies !dup_at(s, jj) by {
            if dup_at(s, jj) {
                let i = choose|i: int| 0 <= i < jj && s[i] == s[jj];
                assert(s[jj] == 0);
            }
        }
        lemma_first_dup_skip(s, s.len() as int);
    }
    if first_dup(s) is None && !dup_free(s) {
        let (i0, j0) = choose|i: int, j: int|
            0 <= i < j < s.len() && s[i] == s[j] && s[j] != 0;
        assert(dup_at(s, j0));
        let jm = first_dup_position(s, j0);
        lemma_first_dup_position(s, j0);
        lemma_first_dup_skip(s, jm);
        assert(first_dup_from(s, jm) == Some(s[jm]));
    }
}

/// The smallest position at or before `j` that closes a duplicate.
pub open spec fn first_dup_position(s: Seq<u8>, j: int) -> int
    decreases j,
{
    if exists|jj: int| 0 <= jj < j && dup_at(s, jj) {
        first_dup_position(s, choose|jj: int| 0 <= jj < j && dup_at(s, jj))
    } else {
        j
    }
}

pub proof fn lemma_first_dup_position(s: Seq<u8>, j: int)
    requires
        0 <= j < s.len(),
        dup_at(s, j),
    ensures
        0 <= first_dup_position(s, j) <= j,
        dup_at(s, first_dup_position(s, j)),
        forall|jj: int| 0 <= jj < first_dup_position(s, j) ==> !dup_at(s, jj),
    decreases j,
{
    if exists|jj: int| 0 <= jj < j && dup_at(s, jj) {
        let jj = choose|jj: int| 0 <= jj < j && dup_at(s, jj);
        lemma_first_dup_position(s, jj);
    }
}

/// The three scans a valid grid passes at one index.
pub proof fn lemma_grid_valid_at(g: Seq<Seq<u8>>, i: int)
    requires
        grid_valid(g),
        0 <= i < 9,
    ensures
        row_valid(g, i),
        col_valid(g, i),
        region_valid(g, i),
{
    assert(row_valid(g, i) && col_valid(g, i) && region_valid(g, i));
}

/// Writing a value at most 9 keeps a well-formed grid well-formed.
pub proof fn lemma_grid_set_wf(g: Seq<Seq<u8>>, r: int, c: int, v: u8)
    requires
        wf_grid(g),
        0 <= r < 9,
        0 <= c < 9,
        v <= 9,
    ensures
        wf_grid(grid_set(g, r, c, v)),
{
    let g2 = grid_set(g, r, c, v);
    assert forall|i: int| 0 <= i < 9 implies (#[trigger] g2[i]).len() == 9 by {
        assert(g[i].len() == 9);
    }
    assert forall|i: int, j: int| 0 <= i < 9 && 0 <= j < 9 implies #[trigger] g2[i][j] <= 9 by {
        assert(g[i][j] <= 9);
    }
}

/// Writing a cell's own value back changes nothing.
pub proof fn lemma_grid_set_same(g: Seq<Seq<u8>>, r: int, c: int)
    requires
        0 <= r < g.len(),
        0 <= c < g[r].len(),
    ensures
        grid_set(g, r, c, g[r][c]) == g,
{
    assert(grid_set(g, r, c, g[r][c]) =~~= g);
}

/// Writing the same cell twice keeps only the second value.
pub proof fn lemma_grid_set_twice(g: Seq<Seq<u8>>, r: int, c: int, a: u8, b: u8)
    requires
        0 <= r < g.len(),
        0 <= c < g[r].len(),
    ensures
        grid_set(grid_set(g, r, c, a), r, c, b) == grid_set(g, r, c, b),
{
    assert(grid_set(grid_set(g, r, c, a), r, c, b) =~~= grid_set(g, r, c, b));
}

/// Cells other than the written one are unchanged, as are all row lengths.
pub proof fn lemma_grid_set_frame(g: Seq<Seq<u8>>, r: int, c: int, v: u8)
    requires
        0 <= r < g.len(),
        0 <= c < g[r].len(),
    ensures
        grid_set(g, r, c, v).len() == g.len(),
        forall|i: int| 0 <= i < g.len() ==> (#[trigger] grid_set(g, r, c, v)[i]).len() == g[i].len(),
        forall|i: int, j: int|
            #![trigger grid_set(g, r, c, v)[i][j]]
            0 <= i < g.len() && 0 <= j < g[i].len() && !(i == r && j == c) ==> grid_set(
                g,
                r,
                c,
                v,
            )[i][j] == g[i][j],
        grid_set(g, r, c, v)[r][c] == v,
{
}

} // verus!

