//! The 9x9 board as a mathematical object: cells, units, candidates,
//! completeness, consistency and solutions.
use vstd::prelude::*;

verus! {

/// A board: `None` is an empty cell, `Some(n)` a cell holding `n`.
pub type Grid = [[Option<u8>; 9]; 9];

/// The content of the cell in row `r`, column `c`.
pub open spec fn cell(g: Grid, r: int, c: int) -> Option<u8> {
    g[r][c]
}

/// The board `g` with the cell at (`r`, `c`) replaced by `v`.
pub open spec fn set_cell(g: Grid, r: int, c: int, v: Option<u8>) -> Grid {
    vstd::array::spec_array_update(g, r, vstd::array::spec_array_update(g[r], c, v))
}

pub open spec fn in_grid(r: int, c: int) -> bool {
    0 <= r < 9 && 0 <= c < 9
}

/// The first row (or column) of the 3x3 box that row (or column) `i` lies in.
pub open spec fn box_start(i: int) -> int {
    if i < 3 { 0 } else if i < 6 { 3 } else { 6 }
}

pub open spec fn same_box(r1: int, c1: int, r2: int, c2: int) -> bool {
    box_start(r1) == box_start(r2) && box_start(c1) == box_start(c2)
}

/// Two positions share a row, a column or a 3x3 box (a position is its own peer).
pub open spec fn peers(r1: int, c1: int, r2: int, c2: int) -> bool {
    r1 == r2 || c1 == c2 || same_box(r1, c1, r2, c2)
}

/// Some cell in the row, column or box of (`r`, `c`), that cell included, holds `n`.
pub open spec fn seen(g: Grid, r: int, c: int, n: u8) -> bool {
    exists|i: int, j: int| #[trigger] peers(r, c, i, j) && in_grid(i, j) && cell(g, i, j) == Some(n)
}

/// `n` is a digit that nothing in the row, column or box of (`r`, `c`) holds.
pub open spec fn is_candidate(g: Grid, r: int, c: int, n: int) -> bool {
    1 <= n <= 9 && !seen(g, r, c, n as u8)
}

/// The candidates of (`r`, `c`) below `k`, in increasing order.
pub open spec fn cands_below(g: Grid, r: int, c: int, k: int) -> Seq<u8>
    decreases k,
{
    if k <= 1 {
        seq![]
    } else if is_candidate(g, r, c, k - 1) {
        cands_below(g, r, c, k - 1).push((k - 1) as u8)
    } else {
        cands_below(g, r, c, k - 1)
    }
}

/// The digits that may still go in (`r`, `c`), in increasing order.
pub open spec fn candidates(g: Grid, r: int, c: int) -> Seq<u8> {
    cands_below(g, r, c, 10)
}

/// No cell is empty.
pub open spec fn complete(g: Grid) -> bool {
    forall|r: int, c: int| in_grid(r, c) ==> (#[trigger] cell(g, r, c)) is Some
}

/// Every filled cell holds a digit from 1 to 9.
pub open spec fn digits(g: Grid) -> bool {
    forall|r: int, c: int| in_grid(r, c) && (#[trigger] cell(g, r, c)) is Some
        ==> 1 <= cell(g, r, c)->0 <= 9
}

/// No two distinct cells of one row, column or box hold the same value.
pub open spec fn consistent(g: Grid) -> bool {
    forall|r1: int, c1: int, r2: int, c2: int|
        #![trigger cell(g, r1, c1), cell(g, r2, c2)]
        in_grid(r1, c1) && in_grid(r2, c2) && peers(r1, c1, r2, c2) && (r1 != r2 || c1 != c2)
            && cell(g, r1, c1) is Some ==> cell(g, r1, c1) != cell(g, r2, c2)
}

/// `s` keeps every filled cell of `g`.
pub open spec fn extends(s: Grid, g: Grid) -> bool {
    forall|r: int, c: int| in_grid(r, c) && (#[trigger] cell(g, r, c)) is Some
        ==> cell(s, r, c) == cell(g, r, c)
}

/// `s` is a solution of `g`: a full board of digits, free of conflicts, that keeps `g`'s givens.
pub open spec fn is_solution(s: Grid, g: Grid) -> bool {
    complete(s) && digits(s) && consistent(s) && extends(s, g)
}

pub open spec fn has_solution(g: Grid) -> bool {
    exists|s: Grid| is_solution(s, g)
}

/// Exactly one board is a solution of `g`.
pub open spec fn unique_solution(g: Grid) -> bool {
    has_solution(g) && forall|s1: Grid, s2: Grid|
        is_solution(s1, g) && is_solution(s2, g) ==> s1 == s2
}

/// (`i`, `j`) comes before (`r`, `c`) in row-major order.
pub open spec fn before(i: int, j: int, r: int, c: int) -> bool {
    i < r || (i == r && j < c)
}

/// (`r`, `c`) is the first empty cell in row-major order.
pub open spec fn is_first_empty(g: Grid, r: int, c: int) -> bool {
    &&& in_grid(r, c)
    &&& cell(g, r, c) is None
    &&& forall|i: int, j: int| in_grid(i, j) && before(i, j, r, c) ==> (#[trigger] cell(g, i, j)) is Some
}

pub open spec fn first_empty(g: Grid) -> (int, int) {
    choose|p: (int, int)| is_first_empty(g, p.0, p.1)
}

/// Number of empty cells in row `r` before column `j`.
pub open spec fn row_empties(g: Grid, r: int, j: int) -> nat
    decreases j,
{
    if j <= 0 {
        0
    } else {
        row_empties(g, r, j - 1) + if cell(g, r, j - 1) is None { 1nat } else { 0nat }
    }
}

/// Number of empty cells in the rows before `i`.
pub open spec fn empties_below(g: Grid, i: int) -> nat
    decreases i,
{
    if i <= 0 {
        0
    } else {
        empties_below(g, i - 1) + row_empties(g, i - 1, 9)
    }
}

/// Number of empty cells.
pub open spec fn empties(g: Grid) -> nat {
    empties_below(g, 9)
}

// ---------------------------------------------------------------- lemmas

pub proof fn lemma_set_cell(g: Grid, r: int, c: int, v: Option<u8>)
    requires
        in_grid(r, c),
    ensures
        forall|i: int, j: int| in_grid(i, j) ==>
            #[trigger] cell(set_cell(g, r, c, v), i, j) == if i == r && j == c { v } else { cell(g, i, j) },
{
    broadcast use vstd::array::group_array_axioms;
    assert forall|i: int, j: int| in_grid(i, j) implies
        #[trigger] cell(set_cell(g, r, c, v), i, j) == if i == r && j == c { v } else { cell(g, i, j) } by {
        let row = vstd::array::spec_array_update(g[r], c, v);
        assert(row@ == g[r]@.update(c, v));
        assert(set_cell(g, r, c, v)@ == g@.update(r, row));
        assert(set_cell(g, r, c, v)[i] == set_cell(g, r, c, v)@[i]);
    }
}

/// Boards that agree on every cell are equal.
pub proof fn lemma_grid_ext(a: Grid, b: Grid)
    requires
        forall|i: int, j: int| in_grid(i, j) ==> #[trigger] cell(a, i, j) == cell(b, i, j),
    ensures
        a == b,
{
    broadcast use vstd::array::group_array_axioms;
    assert forall|i: int| 0 <= i < 9 implies a[i] == b[i] by {
        assert forall|j: int| 0 <= j < 9 implies a[i][j] == b[i][j] by {
            assert(cell(a, i, j) == cell(b, i, j));
        }
        assert(a[i] =~= b[i]);
    }
    assert(a =~= b);
}

pub proof fn lemma_cands_below(g: Grid, r: int, c: int, k: int)
    requires
        k <= 10,
    ensures
        forall|n: int| #![trigger cands_below(g, r, c, k).contains(n as u8)]
            0 <= n < 256 ==> (cands_below(g, r, c, k).contains(n as u8) <==> (n < k && is_candidate(g, r, c, n))),
        forall|i: int, j: int| 0 <= i < j < cands_below(g, r, c, k).len()
            ==> cands_below(g, r, c, k)[i] < cands_below(g, r, c, k)[j],
        forall|i: int| 0 <= i < cands_below(g, r, c, k).len()
            ==> is_candidate(g, r, c, #[trigger] cands_below(g, r, c, k)[i] as int),
        cands_below(g, r, c, k).len() <= if k < 1 { 0 } else { k - 1 },
    decreases k,
{
    if k > 1 {
        lemma_cands_below(g, r, c, k - 1);
        let prev = cands_below(g, r, c, k - 1);
        if is_candidate(g, r, c, k - 1) {
            let cur = prev.push((k - 1) as u8);
            assert forall|n: int| #![trigger cur.contains(n as u8)]
                0 <= n < 256 implies (cur.contains(n as u8) <==> (n < k && is_candidate(g, r, c, n))) by {
                if cur.contains(n as u8) {
                    let idx = choose|idx: int| 0 <= idx < cur.len() && cur[idx] == n as u8;
                    if idx < prev.len() {
                        assert(prev.contains(n as u8));
                    }
                }
                if n < k && is_candidate(g, r, c, n) {
                    if n == k - 1 {
                        assert(cur[cur.len() - 1] == n as u8);
                    } else {
                        assert(prev.contains(n as u8));
                        let idx = choose|idx: int| 0 <= idx < prev.len() && prev[idx] == n as u8;
                        assert(cur[idx] == n as u8);
                    }
                }
            }
            assert forall|i: int| 0 <= i < prev.len() implies prev[i] < (k - 1) by {
                assert(prev.contains(prev[i]));
                assert(prev[i] as int == prev[i] as u8 as int);
            }
        } else {
        }
    }
}

pub proof fn lemma_candidates(g: Grid, r: int, c: int)
    ensures
        forall|n: u8| #[trigger] candidates(g, r, c).contains(n) <==> is_candidate(g, r, c, n as int),
        forall|i: int, j: int| 0 <= i < j < candidates(g, r, c).len()
            ==> candidates(g, r, c)[i] < candidates(g, r, c)[j],
        forall|i: int| 0 <= i < candidates(g, r, c).len()
            ==> is_candidate(g, r, c, #[trigger] candidates(g, r, c)[i] as int),
        candidates(g, r, c).len() <= 9,
        candidates(g, r, c).no_duplicates(),
{
    lemma_cands_below(g, r, c, 10);
    assert forall|n: u8| #[trigger] candidates(g, r, c).contains(n) <==> is_candidate(g, r, c, n as int) by {
        assert((n as int) as u8 == n);
    }
}

pub proof fn lemma_row_empties_fill(g: Grid, r: int, c: int, v: u8, i: int, j: int)
    requires
        in_grid(r, c),
        cell(g, r, c) is None,
        0 <= i < 9,
        0 <= j <= 9,
    ensures
        row_empties(set_cell(g, r, c, Some(v)), i, j) + (if i == r && c < j { 1nat } else { 0nat })
            == row_empties(g, i, j),
        row_empties(g, i, j) <= j,
    decreases j,
{
    lemma_set_cell(g, r, c, Some(v));
    if j > 0 {
        lemma_row_empties_fill(g, r, c, v, i, j - 1);
    }
}

pub proof fn lemma_empties_below_fill(g: Grid, r: int, c: int, v: u8, i: int)
    requires
        in_grid(r, c),
        cell(g, r, c) is None,
        0 <= i <= 9,
    ensures
        empties_below(set_cell(g, r, c, Some(v)), i) + (if r < i { 1nat } else { 0nat }) == empties_below(g, i),
        empties_below(g, i) <= 9 * i,
    decreases i,
{
    if i > 0 {
        lemma_empties_below_fill(g, r, c, v, i - 1);
        lemma_row_empties_fill(g, r, c, v, i - 1, 9);
    }
}

/// Filling an empty cell leaves one empty cell fewer.
pub proof fn lemma_empties_fill(g: Grid, r: int, c: int, v: u8)
    requires
        in_grid(r, c),
        cell(g, r, c) is None,
    ensures
        empties(set_cell(g, r, c, Some(v))) + 1 == empties(g),
        empties(g) <= 81,
{
    lemma_empties_below_fill(g, r, c, v, 9);
}

pub proof fn lemma_empties_bound(g: Grid)
    ensures
        empties(g) <= 81,
{
    lemma_empties_bound_rows(g, 9);
}

proof fn lemma_empties_bound_rows(g: Grid, i: int)
    requires
        0 <= i <= 9,
    ensures
        empties_below(g, i) <= 9 * i,
    decreases i,
{
    if i > 0 {
        lemma_empties_bound_rows(g, i - 1);
        lemma_row_empties_bound(g, i - 1, 9);
    }
}

proof fn lemma_row_empties_bound(g: Grid, i: int, j: int)
    requires
        0 <= j <= 9,
    ensures
        row_empties(g, i, j) <= j,
    decreases j,
{
    if j > 0 {
        lemma_row_empties_bound(g, i, j - 1);
    }
}

/// The first empty cell, when there is one, is unique.
pub proof fn lemma_first_empty_unique(g: Grid, r1: int, c1: int, r2: int, c2: int)
    requires
        is_first_empty(g, r1, c1),
        is_first_empty(g, r2, c2),
    ensures
        r1 == r2 && c1 == c2,
{
    if before(r1, c1, r2, c2) {
        assert(cell(g, r1, c1) is Some);
    } else if before(r2, c2, r1, c1) {
        assert(cell(g, r2, c2) is Some);
    }
}

/// An incomplete board has a first empty cell, and `first_empty` names it.
pub proof fn lemma_first_empty(g: Grid)
    requires
        !complete(g),
    ensures
        is_first_empty(g, first_empty(g).0, first_empty(g).1),
{
    let (r, c) = choose|r: int, c: int| in_grid(r, c) && cell(g, r, c) is None;
    lemma_first_empty_scan(g, r, c, 0, 0);
}

proof fn lemma_first_empty_scan(g: Grid, r: int, c: int, i: int, j: int)
    requires
        in_grid(r, c),
        cell(g, r, c) is None,
        in_grid(i, j),
        i < r || (i == r && j <= c),
        forall|a: int, b: int| in_grid(a, b) && before(a, b, i, j) ==> (#[trigger] cell(g, a, b)) is Some,
    ensures
        exists|p: (int, int)| is_first_empty(g, p.0, p.1),
    decreases 9 * (9 - i) - j,
{
    if cell(g, i, j) is None {
        assert(is_first_empty(g, (i, j).0, (i, j).1));
    } else if j < 8 {
        lemma_first_empty_scan(g, r, c, i, j + 1);
    } else {
        lemma_first_empty_scan(g, r, c, i + 1, 0);
    }
}

/// A full board has no empty cell.
pub proof fn lemma_complete_empties(g: Grid)
    requires
        complete(g),
    ensures
        empties(g) == 0,
{
    lemma_complete_rows(g, 9);
}

proof fn lemma_complete_rows(g: Grid, i: int)
    requires
        complete(g),
        0 <= i <= 9,
    ensures
        empties_below(g, i) == 0,
    decreases i,
{
    if i > 0 {
        lemma_complete_rows(g, i - 1);
        lemma_complete_row(g, i - 1, 9);
    }
}

proof fn lemma_complete_row(g: Grid, i: int, j: int)
    requires
        complete(g),
        0 <= i < 9,
        0 <= j <= 9,
    ensures
        row_empties(g, i, j) == 0,
    decreases j,
{
    if j > 0 {
        lemma_complete_row(g, i, j - 1);
        assert(cell(g, i, j - 1) is Some);
    }
}

} // verus!
