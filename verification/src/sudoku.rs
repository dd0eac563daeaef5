//! The game board with its givens and hints, the rules for filling it, and
//! the solvers that search it.
use vstd::prelude::*;
use crate::grid::{
    Grid, cell, set_cell, in_grid, box_start, same_box, peers, seen, is_candidate, cands_below,
    candidates, complete, digits, consistent, before, is_first_empty, first_empty, empties,
    is_solution, has_solution, unique_solution,
    lemma_set_cell, lemma_grid_ext, lemma_candidates, lemma_empties_fill,
    lemma_empties_bound, lemma_first_empty, lemma_first_empty_unique, lemma_complete_empties,
};
use crate::search::{
    leaves, leaves_over, count_leaves, empty_board, lemma_leaves, lemma_leaves_are_solutions,
    lemma_leaves_over_empty, lemma_leaves_over_member, lemma_empty_board_solvable,
};
use crate::random::{thread_rng, shuffle};
use crate::logic::{
    naked_step, naked_cols, naked_rows, naked_pass, region_cell, hidden_hit, hidden_count, hidden_pos,
    hidden_step, hidden_nums, hidden_regions, hidden_pass, logic_round, logic_rounds, logic_solve, grew,
    refines, lemma_grew, lemma_grew_trans, lemma_naked_step, lemma_hidden_step, lemma_refines_refl,
    lemma_refines_trans, lemma_naked_rows, lemma_hidden_regions,
};

verus! {

/// The difficulty of a new puzzle: how many of its cells the generator tries to empty.
#[derive(Clone, Copy, Debug, PartialEq, Eq, Structural)]
pub enum Difficulty {
    Easy,
    Medium,
    Hard,
    Master,
}

impl Difficulty {
    pub open spec fn remove_count(self) -> usize {
        match self {
            Difficulty::Easy => 40,
            Difficulty::Medium => 50,
            Difficulty::Hard => 60,
            Difficulty::Master => 70,
        }
    }

    /// How many cells a puzzle of this difficulty tries to empty.
    fn get_remove_count(&self) -> (n: usize)
        ensures
            n == self.remove_count(),
    {
        match self {
            Difficulty::Easy => 40,
            Difficulty::Medium => 50,
            Difficulty::Hard => 60,
            Difficulty::Master => 70,
        }
    }

    pub open spec fn spec_next(self) -> Difficulty {
        match self {
            Difficulty::Easy => Difficulty::Medium,
            Difficulty::Medium => Difficulty::Hard,
            Difficulty::Hard => Difficulty::Master,
            Difficulty::Master => Difficulty::Easy,
        }
    }

    /// The next difficulty, round from Master back to Easy.
    pub fn next(&self) -> (d: Difficulty)
        ensures
            d == self.spec_next(),
    {
        match self {
            Difficulty::Easy => Difficulty::Medium,
            Difficulty::Medium => Difficulty::Hard,
            Difficulty::Hard => Difficulty::Master,
            Difficulty::Master => Difficulty::Easy,
        }
    }
}

/// A board in play: its cells, which cells are givens, and which were filled by a hint.
#[derive(Clone, Debug)]
pub struct Sudoku {
    pub grid: Grid,
    pub fixed: [[bool; 9]; 9],
    pub hint_filled: [[bool; 9]; 9],
}

/// Putting `n` at (`r`, `c`) clashes with nothing: no other cell of the row or the
/// column holds `n`, and no cell of the box, that cell included, holds it.
pub open spec fn valid_placement(g: Grid, r: int, c: int, n: u8) -> bool {
    &&& forall|i: int| 0 <= i < 9 && i != c ==> #[trigger] cell(g, r, i) != Some(n)
    &&& forall|i: int| 0 <= i < 9 && i != r ==> #[trigger] cell(g, i, c) != Some(n)
    &&& forall|i: int, j: int| in_grid(i, j) && same_box(r, c, i, j) ==> #[trigger] cell(g, i, j) != Some(n)
}

pub open spec fn flag(f: [[bool; 9]; 9], r: int, c: int) -> bool {
    f[r][c]
}

pub open spec fn set_flag(f: [[bool; 9]; 9], r: int, c: int, b: bool) -> [[bool; 9]; 9] {
    vstd::array::spec_array_update(f, r, vstd::array::spec_array_update(f[r], c, b))
}

pub proof fn lemma_set_flag(f: [[bool; 9]; 9], r: int, c: int, b: bool)
    requires
        in_grid(r, c),
    ensures
        forall|i: int, j: int| in_grid(i, j) ==>
            #[trigger] flag(set_flag(f, r, c, b), i, j) == if i == r && j == c { b } else { flag(f, i, j) },
{
    broadcast use vstd::array::group_array_axioms;
    assert forall|i: int, j: int| in_grid(i, j) implies
        #[trigger] flag(set_flag(f, r, c, b), i, j) == if i == r && j == c { b } else { flag(f, i, j) } by {
        let row = vstd::array::spec_array_update(f[r], c, b);
        assert(row@ == f[r]@.update(c, b));
        assert(set_flag(f, r, c, b)@ == f@.update(r, row));
        assert(set_flag(f, r, c, b)[i] == set_flag(f, r, c, b)@[i]);
    }
}

proof fn lemma_box(i: usize)
    requires
        i < 9,
    ensures
        (i / 3) * 3 == box_start(i as int),
{
}

/// In an empty cell a placement is valid exactly when the value is not seen.
pub proof fn lemma_valid_placement_empty(g: Grid, r: int, c: int, n: u8)
    requires
        in_grid(r, c),
        cell(g, r, c) is None,
    ensures
        valid_placement(g, r, c, n) <==> !seen(g, r, c, n),
{
    if seen(g, r, c, n) {
        let (i, j) = choose|i: int, j: int| #[trigger] peers(r, c, i, j) && in_grid(i, j) && cell(g, i, j) == Some(n);
        if i == r {
            assert(cell(g, r, j) == Some(n));
        } else if j == c {
            assert(cell(g, i, c) == Some(n));
        } else {
            assert(cell(g, i, j) == Some(n));
        }
    }
    if !valid_placement(g, r, c, n) {
        if exists|i: int| 0 <= i < 9 && i != c && #[trigger] cell(g, r, i) == Some(n) {
            let i = choose|i: int| 0 <= i < 9 && i != c && #[trigger] cell(g, r, i) == Some(n);
            assert(peers(r, c, r, i));
        } else if exists|i: int| 0 <= i < 9 && i != r && #[trigger] cell(g, i, c) == Some(n) {
            let i = choose|i: int| 0 <= i < 9 && i != r && #[trigger] cell(g, i, c) == Some(n);
            assert(peers(r, c, i, c));
        } else {
            let (i, j) = choose|i: int, j: int| in_grid(i, j) && same_box(r, c, i, j) && #[trigger] cell(g, i, j) == Some(n);
            assert(peers(r, c, i, j));
        }
    }
}

impl Default for Sudoku {
    /// An empty board with no givens and no hints.
    fn default() -> (s: Self)
        ensures
            forall|r: int, c: int| in_grid(r, c) ==> #[trigger] cell(s.grid, r, c) is None,
            forall|r: int, c: int| in_grid(r, c) ==> !#[trigger] flag(s.fixed, r, c),
            forall|r: int, c: int| in_grid(r, c) ==> !#[trigger] flag(s.hint_filled, r, c),
    {
        Sudoku::new()
    }
}

/// `f` has the givens of `o`, in the same cells, with the same values.
pub open spec fn keeps_givens(o: Sudoku, f: Sudoku) -> bool {
    &&& f.fixed == o.fixed
    &&& forall|r: int, c: int| in_grid(r, c) && flag(o.fixed, r, c)
        ==> #[trigger] cell(f.grid, r, c) == cell(o.grid, r, c)
}

/// `f` has the hints of `o`, in the same cells, with the same values, and no others.
pub open spec fn keeps_hints(o: Sudoku, f: Sudoku) -> bool {
    &&& f.hint_filled == o.hint_filled
    &&& forall|r: int, c: int| in_grid(r, c) && flag(o.hint_filled, r, c)
        ==> #[trigger] cell(f.grid, r, c) == cell(o.grid, r, c)
}

/// `v` can go at (`r`, `c`) of `g` without a clash, and the search then reaches a full board.
pub open spec fn viable(g: Grid, r: int, c: int, v: u8) -> bool {
    valid_placement(g, r, c, v) && count_leaves(set_cell(g, r, c, Some(v))) > 0
}

/// The index of the first viable value of `order` from index `k` on (`order.len()` if none).
pub open spec fn first_viable_from(g: Grid, r: int, c: int, order: Seq<u8>, k: int) -> int
    decreases order.len() - k,
{
    if k < 0 || k >= order.len() {
        order.len() as int
    } else if viable(g, r, c, order[k]) {
        k
    } else {
        first_viable_from(g, r, c, order, k + 1)
    }
}

/// The index of the first viable value of `order` (`order.len()` if none).
pub open spec fn first_viable(g: Grid, r: int, c: int, order: Seq<u8>) -> int {
    first_viable_from(g, r, c, order, 0)
}

pub proof fn lemma_first_viable(g: Grid, r: int, c: int, order: Seq<u8>, k: int)
    requires
        0 <= k <= order.len(),
    ensures
        k <= first_viable_from(g, r, c, order, k) <= order.len(),
        first_viable_from(g, r, c, order, k) < order.len()
            ==> viable(g, r, c, order[first_viable_from(g, r, c, order, k)]),
        forall|j: int| k <= j < first_viable_from(g, r, c, order, k) ==> !#[trigger] viable(g, r, c, order[j]),
        first_viable_from(g, r, c, order, k) == order.len()
            <==> forall|j: int| k <= j < order.len() ==> !#[trigger] viable(g, r, c, order[j]),
    decreases order.len() - k,
{
    if k < order.len() {
        lemma_first_viable(g, r, c, order, k + 1);
    }
}

/// One visit of the removal walk to cell `pos`, from the state (board, removals
/// made, tries made): once `target` removals or 200 tries are made nothing more
/// changes; a filled cell is emptied, and the removal is kept only if the search
/// then reaches exactly one full board; an empty cell is passed over.
pub open spec fn removal_step(st: (Grid, nat, nat), pos: (usize, usize), target: nat) -> (Grid, nat, nat) {
    let (g, removed, checked) = st;
    if removed >= target || checked >= 200 {
        st
    } else if cell(g, pos.0 as int, pos.1 as int) is Some {
        let h = set_cell(g, pos.0 as int, pos.1 as int, None);
        if count_leaves(h) == 1 {
            (h, removed + 1, checked + 1)
        } else {
            (g, removed, checked + 1)
        }
    } else {
        st
    }
}

/// The state of the removal walk over `order` after its first `k` cells.
pub open spec fn removal_run(p: Grid, order: Seq<(usize, usize)>, target: nat, k: int) -> (Grid, nat, nat)
    decreases k,
{
    if k <= 0 {
        (p, 0, 0)
    } else {
        removal_step(removal_run(p, order, target, k - 1), order[k - 1], target)
    }
}

/// Once the walk has stopped, visiting more cells changes nothing.
pub proof fn lemma_removal_stopped(p: Grid, order: Seq<(usize, usize)>, target: nat, k: int, n: int)
    requires
        0 <= k <= n,
        removal_run(p, order, target, k).1 >= target || removal_run(p, order, target, k).2 >= 200,
    ensures
        removal_run(p, order, target, n) == removal_run(p, order, target, k),
    decreases n - k,
{
    if n > k {
        lemma_removal_stopped(p, order, target, k, n - 1);
    }
}

/// What the solution count with a cap answers on `g` at recursion depth `depth`:
/// past depth 200 it gives up and answers `limit`; a full board counts one; else
/// it adds up the counts of the candidates of the first empty cell in increasing
/// order, stopping as soon as the sum reaches `limit`.
spec fn capped_count(g: Grid, limit: nat, depth: nat) -> nat
    decreases empties(g), 10nat,
{
    if depth > 200 {
        limit
    } else if complete(g) {
        1
    } else {
        let p = first_empty(g);
        proof {
            lemma_candidates(g, p.0, p.1);
        }
        capped_over(g, p.0, p.1, candidates(g, p.0, p.1), limit, depth, 0)
    }
}

/// The running sum `acc` of the capped count, continued over the values `cs` put
/// in the empty cell (`r`, `c`).
spec fn capped_over(g: Grid, r: int, c: int, cs: Seq<u8>, limit: nat, depth: nat, acc: nat) -> nat
    decreases empties(g), cs.len(),
{
    if cs.len() == 0 || !in_grid(r, c) || cell(g, r, c) is Some {
        acc
    } else {
        proof {
            lemma_empties_fill(g, r, c, cs[0]);
        }
        let a = acc + capped_count(set_cell(g, r, c, Some(cs[0])), limit, depth + 1);
        if a >= limit {
            a
        } else {
            capped_over(g, r, c, cs.drop_first(), limit, depth, a)
        }
    }
}

/// Emptying any filled cell of `g` would leave a board without a unique solution.
pub open spec fn minimal_puzzle(g: Grid) -> bool {
    forall|r: int, c: int| in_grid(r, c) && cell(g, r, c) is Some
        ==> !unique_solution(#[trigger] set_cell(g, r, c, None))
}

/// `s` is what a new puzzle of difficulty `d` is: exactly one solution, no
/// conflict, all digits, at least one and at most `d.remove_count()` empty cells
/// (exactly that many, unless no further cell can be emptied keeping the
/// solution unique), its filled cells
/// are its givens, and no cell is a hint.
pub open spec fn is_fresh_puzzle(s: Sudoku, d: Difficulty) -> bool {
    &&& unique_solution(s.grid)
    &&& consistent(s.grid)
    &&& digits(s.grid)
    &&& 1 <= empties(s.grid) <= d.remove_count()
    &&& empties(s.grid) == d.remove_count() || minimal_puzzle(s.grid)
    &&& forall|r: int, c: int| in_grid(r, c) ==> (#[trigger] flag(s.fixed, r, c) == cell(s.grid, r, c) is Some)
    &&& forall|r: int, c: int| in_grid(r, c) ==> !#[trigger] flag(s.hint_filled, r, c)
}

impl Sudoku {
    /// An empty board with no givens and no hints.
    pub fn new() -> (s: Self)
        ensures
            forall|r: int, c: int| in_grid(r, c) ==> #[trigger] cell(s.grid, r, c) is None,
            forall|r: int, c: int| in_grid(r, c) ==> !#[trigger] flag(s.fixed, r, c),
            forall|r: int, c: int| in_grid(r, c) ==> !#[trigger] flag(s.hint_filled, r, c),
    {
        Sudoku { grid: [[None; 9]; 9], fixed: [[false; 9]; 9], hint_filled: [[false; 9]; 9] }
    }

    /// The candidates of (`row`, `col`) in increasing order.
    fn get_candidates(&self, row: usize, col: usize) -> (res: Vec<u8>)
        requires
            row < 9,
            col < 9,
        ensures
            res@ == candidates(self.grid, row as int, col as int),
    {
        let ghost g = self.grid;
        let mut used = [false; 10];
        proof {
            lemma_box(row);
        }
        let mut i: usize = 0;
        while i < 9
            invariant
                g == self.grid,
                row < 9,
                col < 9,
                0 <= i <= 9,
                forall|n: int| 1 <= n <= 9 ==> (#[trigger] used[n] <==>
                    exists|a: int, b: int| #[trigger] peers(row as int, col as int, a, b) && in_grid(a, b) && a < i
                        && cell(g, a, b) == Some(n as u8)),
            decreases 9 - i,
        {
            let mut j: usize = 0;
            proof {
                lemma_box(i);
            }
            while j < 9
                invariant
                    g == self.grid,
                    row < 9,
                    col < 9,
                    0 <= i < 9,
                    0 <= j <= 9,
                    (i / 3) * 3 == box_start(i as int),
                    (row / 3) * 3 == box_start(row as int),
                    forall|n: int| 1 <= n <= 9 ==> (#[trigger] used[n] <==>
                        exists|a: int, b: int| #[trigger] peers(row as int, col as int, a, b) && in_grid(a, b)
                            && before(a, b, i as int, j as int) && cell(g, a, b) == Some(n as u8)),
                decreases 9 - j,
            {
                proof {
                    lemma_box(j);
                    lemma_box(col);
                }
                if i == row || j == col || (i / 3 == row / 3 && j / 3 == col / 3) {
                    if let Some(v) = self.grid[i][j] {
                        if 1 <= v && v <= 9 {
                            used[v as usize] = true;
                        }
                    }
                }
                proof {
                    assert(peers(row as int, col as int, i as int, j as int) <==>
                        (i == row || j == col || (i / 3 == row / 3 && j / 3 == col / 3)));
                    assert forall|n: int| 1 <= n <= 9 implies (#[trigger] used[n] <==>
                        exists|a: int, b: int| #[trigger] peers(row as int, col as int, a, b) && in_grid(a, b)
                            && before(a, b, i as int, j + 1) && cell(g, a, b) == Some(n as u8)) by {
                        if peers(row as int, col as int, i as int, j as int) && cell(g, i as int, j as int) == Some(n as u8) {
                            assert(before(i as int, j as int, i as int, j + 1));
                        }
                    }
                }
                j += 1;
            }
            proof {
                assert forall|n: int| 1 <= n <= 9 implies (#[trigger] used[n] <==>
                    exists|a: int, b: int| #[trigger] peers(row as int, col as int, a, b) && in_grid(a, b) && a < i + 1
                        && cell(g, a, b) == Some(n as u8)) by {
                    if exists|a: int, b: int| #[trigger] peers(row as int, col as int, a, b) && in_grid(a, b) && a < i + 1
                        && cell(g, a, b) == Some(n as u8) {
                        let (a, b) = choose|a: int, b: int| #[trigger] peers(row as int, col as int, a, b) && in_grid(a, b) && a < i + 1
                            && cell(g, a, b) == Some(n as u8);
                        assert(before(a, b, i as int, 9));
                    }
                }
            }
            i += 1;
        }
        let mut res: Vec<u8> = Vec::new();
        let mut n: u8 = 1;
        while n <= 9
            invariant
                1 <= n <= 10,
                row < 9,
                col < 9,
                res@ == cands_below(g, row as int, col as int, n as int),
                forall|m: int| 1 <= m <= 9 ==> (#[trigger] used[m] <==> seen(g, row as int, col as int, m as u8)),
            decreases 10 - n,
        {
            if !used[n as usize] {
                res.push(n);
            }
            n += 1;
        }
        res
    }

    /// The first empty cell in row-major order, if any.
    fn find_empty(&self) -> (res: Option<(usize, usize)>)
        ensures
            match res {
                Some((r, c)) => is_first_empty(self.grid, r as int, c as int),
                None => complete(self.grid),
            },
    {
        let mut r: usize = 0;
        while r < 9
            invariant
                0 <= r <= 9,
                forall|i: int, j: int| in_grid(i, j) && i < r ==> (#[trigger] cell(self.grid, i, j)) is Some,
            decreases 9 - r,
        {
            let mut c: usize = 0;
            while c < 9
                invariant
                    0 <= r < 9,
                    0 <= c <= 9,
                    forall|i: int, j: int| in_grid(i, j) && before(i, j, r as int, c as int)
                        ==> (#[trigger] cell(self.grid, i, j)) is Some,
                decreases 9 - c,
            {
                if self.grid[r][c].is_none() {
                    return Some((r, c));
                }
                c += 1;
            }
            r += 1;
        }
        None
    }

    /// Whether `num` can go at (`row`, `col`) of `puzzle` without a clash.
    fn is_valid_pos(puzzle: &Grid, row: usize, col: usize, num: u8) -> (ok: bool)
        requires
            row < 9,
            col < 9,
        ensures
            ok == valid_placement(*puzzle, row as int, col as int, num),
    {
        let num_opt = Some(num);
        let mut i: usize = 0;
        while i < 9
            invariant
                0 <= i <= 9,
                row < 9,
                col < 9,
                num_opt == Some(num),
                forall|k: int| 0 <= k < i && k != col ==> #[trigger] cell(*puzzle, row as int, k) != Some(num),
                forall|k: int| 0 <= k < i && k != row ==> #[trigger] cell(*puzzle, k, col as int) != Some(num),
            decreases 9 - i,
        {
            if (i != col && puzzle[row][i] == num_opt) || (i != row && puzzle[i][col] == num_opt) {
                proof {
                    if i != col && puzzle[row as int][i as int] == num_opt {
                        assert(cell(*puzzle, row as int, i as int) == Some(num));
                    } else {
                        assert(cell(*puzzle, i as int, col as int) == Some(num));
                    }
                }
                return false;
            }
            i += 1;
        }
        let start_row = (row / 3) * 3;
        let start_col = (col / 3) * 3;
        proof {
            lemma_box(row);
            lemma_box(col);
        }
        let mut r: usize = 0;
        while r < 3
            invariant
                0 <= r <= 3,
                row < 9,
                col < 9,
                start_row == box_start(row as int),
                start_col == box_start(col as int),
                num_opt == Some(num),
                forall|k: int| 0 <= k < 9 && k != col ==> #[trigger] cell(*puzzle, row as int, k) != Some(num),
                forall|k: int| 0 <= k < 9 && k != row ==> #[trigger] cell(*puzzle, k, col as int) != Some(num),
                forall|a: int, b: int| in_grid(a, b) && same_box(row as int, col as int, a, b) && a < start_row + r
                    ==> #[trigger] cell(*puzzle, a, b) != Some(num),
            decreases 3 - r,
        {
            let mut c: usize = 0;
            while c < 3
                invariant
                    0 <= r < 3,
                    0 <= c <= 3,
                    row < 9,
                    col < 9,
                    start_row == box_start(row as int),
                    start_col == box_start(col as int),
                    num_opt == Some(num),
                    forall|k: int| 0 <= k < 9 && k != col ==> #[trigger] cell(*puzzle, row as int, k) != Some(num),
                    forall|k: int| 0 <= k < 9 && k != row ==> #[trigger] cell(*puzzle, k, col as int) != Some(num),
                    forall|a: int, b: int| in_grid(a, b) && same_box(row as int, col as int, a, b)
                        && before(a, b, start_row + r, start_col + c)
                        ==> #[trigger] cell(*puzzle, a, b) != Some(num),
                decreases 3 - c,
            {
                if puzzle[start_row + r][start_col + c] == num_opt {
                    proof {
                        assert(same_box(row as int, col as int, start_row + r, start_col + c));
                        assert(cell(*puzzle, start_row + r, start_col + c) == Some(num));
                    }
                    return false;
                }
                c += 1;
            }
            r += 1;
        }
        true
    }

    /// Whether `num` can go at (`row`, `col`) without a clash.
    pub fn is_valid(&self, row: usize, col: usize, num: u8) -> (ok: bool)
        requires
            row < 9,
            col < 9,
        ensures
            ok == valid_placement(self.grid, row as int, col as int, num),
    {
        Self::is_valid_pos(&self.grid, row, col, num)
    }

    /// Fills the board by depth-first search over candidates; on success the board
    /// is the first full board the search reaches, on failure it is left as it was.
    fn solve_with_backtracking(&mut self) -> (solved: bool)
        ensures
            solved == (count_leaves(old(self).grid) > 0),
            solved ==> final(self).grid == leaves(old(self).grid)[0],
            !solved ==> final(self).grid == old(self).grid,
            final(self).fixed == old(self).fixed,
            final(self).hint_filled == old(self).hint_filled,
        decreases empties(old(self).grid),
    {
        let ghost g = self.grid;
        match self.find_empty() {
            Some((row, col)) => {
                let candidates = self.get_candidates(row, col);
                let ghost cs = candidates@;
                proof {
                    lemma_first_empty(g);
                    lemma_first_empty_unique(g, row as int, col as int, first_empty(g).0, first_empty(g).1);
                    assert(cs.skip(0) =~= cs);
                }
                let mut k: usize = 0;
                while k < candidates.len()
                    invariant
                        self.grid == g,
                        self.fixed == old(self).fixed,
                        self.hint_filled == old(self).hint_filled,
                        g == old(self).grid,
                        row < 9,
                        col < 9,
                        is_first_empty(g, row as int, col as int),
                        cs == candidates@,
                        0 <= k <= cs.len(),
                        leaves(g) == leaves_over(g, row as int, col as int, cs.skip(k as int)),
                    decreases cs.len() - k,
                {
                    let num = candidates[k];
                    let ghost h = set_cell(g, row as int, col as int, Some(num));
                    proof {
                        lemma_set_cell(g, row as int, col as int, Some(num));
                        lemma_empties_fill(g, row as int, col as int, num);
                        assert(cs.skip(k as int).drop_first() =~= cs.skip(k + 1));
                        assert(cs.skip(k as int)[0] == num);
                    }
                    self.grid[row][col] = Some(num);
                    proof {
                        lemma_set_cell(g, row as int, col as int, Some(num));
                        assert forall|i: int, j: int| in_grid(i, j) implies #[trigger] cell(self.grid, i, j) == cell(h, i, j) by {}
                        lemma_grid_ext(self.grid, h);
                    }
                    if self.solve_with_backtracking() {
                        return true;
                    }
                    self.grid[row][col] = None;
                    proof {
                        assert forall|i: int, j: int| in_grid(i, j) implies #[trigger] cell(self.grid, i, j) == cell(g, i, j) by {}
                        lemma_grid_ext(self.grid, g);
                    }
                    k += 1;
                }
                false
            },
            None => true,
        }
    }

    /// Counts the full boards the search reaches, stopping once the count gets to
    /// `limit`; past a depth of 200 it gives up and answers `limit`. The board is
    /// left as it was.
    fn count_solutions(&mut self, limit: usize, depth: usize) -> (n: usize)
        requires
            (limit + 1) * (empties(old(self).grid) + 1) <= usize::MAX,
        ensures
            *final(self) == *old(self),
            n == capped_count(old(self).grid, limit as nat, depth as nat),
            depth > 200 ==> n == limit,
            depth + empties(old(self).grid) <= 200 ==> {
                &&& count_leaves(old(self).grid) < limit ==> n == count_leaves(old(self).grid)
                &&& count_leaves(old(self).grid) >= limit ==> n >= limit
                &&& n <= count_leaves(old(self).grid)
            },
            n <= (limit + 1) * (empties(old(self).grid) + 1),
        decreases empties(old(self).grid),
    {
        let ghost g = self.grid;
        proof {
            lemma_empties_bound(g);
        }
        if depth > 200 {
            proof {
                assert(limit <= (limit + 1) * (empties(g) + 1)) by (nonlinear_arith);
            }
            return limit;
        }
        match self.find_empty() {
            Some((row, col)) => {
                let candidates = self.get_candidates(row, col);
                let ghost cs = candidates@;
                let ghost e = empties(g);
                proof {
                    lemma_first_empty(g);
                    lemma_first_empty_unique(g, row as int, col as int, first_empty(g).0, first_empty(g).1);
                    assert(cs.skip(0) =~= cs);
                    lemma_empties_fill(g, row as int, col as int, 1);
                }
                let mut count: usize = 0;
                let mut k: usize = 0;
                while k < candidates.len()
                    invariant
                        self.grid == g,
                        *self == *old(self),
                        g == old(self).grid,
                        row < 9,
                        col < 9,
                        depth <= 200,
                        (limit + 1) * (e + 1) <= usize::MAX,
                        e == empties(g),
                        1 <= e <= 81,
                        is_first_empty(g, row as int, col as int),
                        cs == candidates@,
                        0 <= k <= cs.len(),
                        leaves(g) == leaves_over(g, row as int, col as int, cs),
                        count <= limit,
                        k > 0 ==> count < limit,
                        capped_count(g, limit as nat, depth as nat)
                            == capped_over(g, row as int, col as int, cs.skip(k as int), limit as nat, depth as nat, count as nat),
                        depth + e <= 200 ==>
                            count + leaves_over(g, row as int, col as int, cs.skip(k as int)).len()
                                == count_leaves(old(self).grid),
                    decreases cs.len() - k,
                {
                    let num = candidates[k];
                    let ghost h = set_cell(g, row as int, col as int, Some(num));
                    proof {
                        lemma_set_cell(g, row as int, col as int, Some(num));
                        lemma_empties_fill(g, row as int, col as int, num);
                        assert(cs.skip(k as int).drop_first() =~= cs.skip(k + 1));
                        assert(cs.skip(k as int)[0] == num);
                        assert((limit + 1) * e <= (limit + 1) * (e + 1)) by (nonlinear_arith);
                    }
                    self.grid[row][col] = Some(num);
                    proof {
                        assert forall|i: int, j: int| in_grid(i, j) implies #[trigger] cell(self.grid, i, j) == cell(h, i, j) by {}
                        lemma_grid_ext(self.grid, h);
                    }
                    let sub = self.count_solutions(limit, depth + 1);
                    proof {
                        assert(sub <= (limit + 1) * e);
                        assert(count + sub <= (limit + 1) * (e + 1)) by (nonlinear_arith)
                            requires count <= limit, sub <= (limit + 1) * e;
                    }
                    count += sub;
                    self.grid[row][col] = None;
                    proof {
                        assert forall|i: int, j: int| in_grid(i, j) implies #[trigger] cell(self.grid, i, j) == cell(g, i, j) by {}
                        lemma_grid_ext(self.grid, g);
                    }
                    if count >= limit {
                        return count;
                    }
                    k += 1;
                }
                proof {
                    assert(count <= (limit + 1) * (e + 1)) by (nonlinear_arith)
                        requires count <= limit, e >= 1;
                }
                count
            },
            None => {
                proof {
                    assert(1 <= (limit + 1) * (empties(g) + 1)) by (nonlinear_arith);
                }
                1
            },
        }
    }

    /// One sweep of naked singles; tells whether a cell got filled.
    fn naked_sweep(&mut self) -> (changed: bool)
        ensures
            final(self).grid == naked_pass(old(self).grid),
            changed == grew(old(self).grid, final(self).grid),
            final(self).fixed == old(self).fixed,
            final(self).hint_filled == old(self).hint_filled,
    {
        let ghost g0 = self.grid;
        let mut changed = false;
        let mut r: usize = 0;
        proof {
            lemma_refines_refl(g0);
        }
        while r < 9
            invariant
                0 <= r <= 9,
                self.grid == naked_rows(g0, r as int),
                refines(g0, self.grid),
                changed == grew(g0, self.grid),
                self.fixed == old(self).fixed,
                self.hint_filled == old(self).hint_filled,
                g0 == old(self).grid,
            decreases 9 - r,
        {
            let ghost row_start = self.grid;
            let mut c: usize = 0;
            while c < 9
                invariant
                    0 <= r < 9,
                    0 <= c <= 9,
                    row_start == naked_rows(g0, r as int),
                    self.grid == naked_cols(row_start, r as int, c as int),
                    refines(g0, self.grid),
                    changed == grew(g0, self.grid),
                    self.fixed == old(self).fixed,
                    self.hint_filled == old(self).hint_filled,
                decreases 9 - c,
            {
                let ghost before = self.grid;
                if self.grid[r][c].is_none() {
                    let candidates = self.get_candidates(r, c);
                    if candidates.len() == 1 {
                        self.grid[r][c] = Some(candidates[0]);
                        changed = true;
                        proof {
                            lemma_set_cell(before, r as int, c as int, Some(candidates@[0]));
                            assert forall|i: int, j: int| in_grid(i, j) implies #[trigger] cell(self.grid, i, j)
                                == cell(naked_step(before, r as int, c as int), i, j) by {}
                            lemma_grid_ext(self.grid, naked_step(before, r as int, c as int));
                        }
                    }
                }
                proof {
                    lemma_naked_step(before, r as int, c as int);
                    lemma_refines_trans(g0, before, self.grid);
                    lemma_grew_trans(g0, before, self.grid);
                    lemma_grew(before, self.grid);
                }
                c += 1;
            }
            r += 1;
        }
        changed
    }

    /// One sweep of hidden singles over the nine regions; tells whether a cell got filled.
    fn hidden_sweep(&mut self) -> (changed: bool)
        ensures
            final(self).grid == hidden_pass(old(self).grid),
            changed == grew(old(self).grid, final(self).grid),
            final(self).fixed == old(self).fixed,
            final(self).hint_filled == old(self).hint_filled,
    {
        let ghost g0 = self.grid;
        let mut changed = false;
        let mut region: usize = 0;
        proof {
            lemma_refines_refl(g0);
        }
        while region < 9
            invariant
                0 <= region <= 9,
                self.grid == hidden_regions(g0, region as int),
                refines(g0, self.grid),
                changed == grew(g0, self.grid),
                self.fixed == old(self).fixed,
                self.hint_filled == old(self).hint_filled,
                g0 == old(self).grid,
            decreases 9 - region,
        {
            let ghost region_start = self.grid;
            let mut num: u8 = 1;
            while num < 10
                invariant
                    0 <= region < 9,
                    1 <= num <= 10,
                    region_start == hidden_regions(g0, region as int),
                    self.grid == hidden_nums(region_start, region as int, num as int),
                    refines(g0, self.grid),
                    changed == grew(g0, self.grid),
                    self.fixed == old(self).fixed,
                    self.hint_filled == old(self).hint_filled,
                decreases 10 - num,
            {
                let ghost before = self.grid;
                let mut count: usize = 0;
                let mut pos: (usize, usize) = (0, 0);
                let mut i: usize = 0;
                while i < 9
                    invariant
                        0 <= region < 9,
                        1 <= num <= 9,
                        0 <= i <= 9,
                        self.grid == before,
                        count == hidden_count(before, region as int, num as int, i as int),
                        count <= i,
                        (pos.0 as int, pos.1 as int) == hidden_pos(before, region as int, num as int, i as int),
                    decreases 9 - i,
                {
                    let (r, c) = if region < 3 {
                        (region, i)
                    } else if region < 6 {
                        (i, region - 3)
                    } else {
                        (i / 3 + (region - 6) * 3, i % 3 + (region - 6) * 3)
                    };
                    proof {
                        assert((r as int, c as int) == region_cell(region as int, i as int));
                    }
                    if self.grid[r][c].is_none() && Self::has_digit(&self.get_candidates(r, c), num) {
                        count += 1;
                        pos = (r, c);
                    }
                    i += 1;
                }
                if count == 1 {
                    proof {
                        crate::logic::lemma_hidden_count(before, region as int, num as int, 9);
                        let k0 = choose|k0: int| {
                            &&& 0 <= k0 < 9
                            &&& #[trigger] hidden_hit(before, region as int, num as int, k0)
                            &&& region_cell(region as int, k0) == hidden_pos(before, region as int, num as int, 9)
                            &&& forall|k: int| 0 <= k < 9 && #[trigger] hidden_hit(before, region as int, num as int, k) ==> k == k0
                        };
                        crate::logic::lemma_region_cell(region as int, k0);
                    }
                    self.grid[pos.0][pos.1] = Some(num);
                    changed = true;
                    proof {
                        lemma_set_cell(before, pos.0 as int, pos.1 as int, Some(num));
                        assert forall|a: int, b: int| in_grid(a, b) implies #[trigger] cell(self.grid, a, b)
                            == cell(hidden_step(before, region as int, num as int), a, b) by {}
                        lemma_grid_ext(self.grid, hidden_step(before, region as int, num as int));
                    }
                }
                proof {
                    lemma_hidden_step(before, region as int, num as int);
                    lemma_refines_trans(g0, before, self.grid);
                    lemma_grew_trans(g0, before, self.grid);
                }
                num += 1;
            }
            region += 1;
        }
        changed
    }

    /// Whether `v` holds `x`.
    fn has_digit(v: &Vec<u8>, x: u8) -> (found: bool)
        ensures
            found == v@.contains(x),
    {
        let mut i: usize = 0;
        while i < v.len()
            invariant
                0 <= i <= v.len(),
                forall|k: int| 0 <= k < i ==> v@[k] != x,
            decreases v.len() - i,
        {
            if v[i] == x {
                return true;
            }
            i += 1;
        }
        false
    }

    /// Runs rounds of naked and hidden singles until a round changes nothing or 100
    /// rounds have run; tells whether the board is then full.
    fn solve_with_logic(&mut self) -> (done: bool)
        ensures
            final(self).grid == logic_solve(old(self).grid),
            done == complete(final(self).grid),
            final(self).fixed == old(self).fixed,
            final(self).hint_filled == old(self).hint_filled,
    {
        let ghost g0 = self.grid;
        let mut changed = true;
        let mut attempts: usize = 0;
        let max_attempts: usize = 100;
        while changed && attempts < max_attempts
            invariant
                max_attempts == 100,
                0 <= attempts <= 100,
                changed ==> logic_solve(g0) == logic_rounds(self.grid, (100 - attempts) as nat),
                !changed ==> logic_solve(g0) == self.grid,
                self.fixed == old(self).fixed,
                self.hint_filled == old(self).hint_filled,
            decreases 100 - attempts,
        {
            let ghost before = self.grid;
            changed = false;
            attempts += 1;
            let c1 = self.naked_sweep();
            let ghost mid = self.grid;
            let c2 = self.hidden_sweep();
            changed = c1 || c2;
            proof {
                lemma_naked_rows(before, 9);
                lemma_hidden_regions(mid, 9);
                lemma_grew_trans(before, mid, self.grid);
                crate::search::lemma_extends_trans(self.grid, mid, before);
                lemma_grew(before, self.grid);
                assert(self.grid == logic_round(before));
            }
        }
        self.find_empty().is_none()
    }

    /// Whether the depth-first search reaches exactly one full board from this
    /// board (for a board free of conflicts and of non-digits: whether it has
    /// exactly one solution, see `lemma_unique_solution`).
    fn has_unique_solution(&self) -> (unique: bool)
        ensures
            unique == (count_leaves(self.grid) == 1),
    {
        let mut test_sudoku = Sudoku::new();
        test_sudoku.grid = self.grid;
        test_sudoku.solve_with_logic();
        test_sudoku.grid = self.grid;
        proof {
            lemma_empties_bound(self.grid);
        }
        test_sudoku.count_solutions(2, 0) == 1
    }

    /// Whether the deductive solver fills the board, or else the backtracking
    /// search reaches a full board.
    pub fn is_solvable(&self) -> (solvable: bool)
        ensures
            solvable == (complete(logic_solve(self.grid)) || count_leaves(self.grid) > 0),
    {
        let mut test_grid = Sudoku { grid: self.grid, fixed: self.fixed, hint_filled: self.hint_filled };
        if test_grid.solve_with_logic() {
            return true;
        }
        test_grid.grid = self.grid;
        test_grid.solve_with_backtracking()
    }

    /// Puts `num` at (`row`, `col`) unless the cell is a given or a hint, or `num`
    /// clashes there; tells whether it did.
    pub fn set(&mut self, row: usize, col: usize, num: u8) -> (done: bool)
        requires
            row < 9,
            col < 9,
        ensures
            done == (!flag(old(self).fixed, row as int, col as int) && !flag(old(self).hint_filled, row as int, col as int)
                && valid_placement(old(self).grid, row as int, col as int, num)),
            done ==> final(self).grid == set_cell(old(self).grid, row as int, col as int, Some(num)),
            !done ==> final(self).grid == old(self).grid,
            final(self).fixed == old(self).fixed,
            final(self).hint_filled == old(self).hint_filled,
            keeps_givens(*old(self), *final(self)),
            keeps_hints(*old(self), *final(self)),
    {
        if self.fixed[row][col] || self.hint_filled[row][col] {
            return false;
        }
        if self.is_valid(row, col, num) {
            let ghost g = self.grid;
            self.grid[row][col] = Some(num);
            proof {
                lemma_set_cell(g, row as int, col as int, Some(num));
                assert forall|i: int, j: int| in_grid(i, j) implies #[trigger] cell(self.grid, i, j)
                    == cell(set_cell(g, row as int, col as int, Some(num)), i, j) by {}
                lemma_grid_ext(self.grid, set_cell(g, row as int, col as int, Some(num)));
            }
            true
        } else {
            false
        }
    }

    /// Puts `num` at (`row`, `col`) as a hint unless the cell is a given or `num`
    /// clashes there; a hinted cell can no longer be changed by `set` or `clear`.
    pub fn set_hint(&mut self, row: usize, col: usize, num: u8) -> (done: bool)
        requires
            row < 9,
            col < 9,
        ensures
            done == (!flag(old(self).fixed, row as int, col as int)
                && valid_placement(old(self).grid, row as int, col as int, num)),
            done ==> final(self).grid == set_cell(old(self).grid, row as int, col as int, Some(num)),
            !done ==> final(self).grid == old(self).grid,
            final(self).fixed == old(self).fixed,
            !done ==> final(self).hint_filled == old(self).hint_filled,
            forall|i: int, j: int| in_grid(i, j) ==> #[trigger] flag(final(self).hint_filled, i, j)
                == if done && i == row && j == col { true } else { flag(old(self).hint_filled, i, j) },
            keeps_givens(*old(self), *final(self)),
    {
        if self.fixed[row][col] {
            return false;
        }
        if self.is_valid(row, col, num) {
            let ghost g = self.grid;
            self.grid[row][col] = Some(num);
            self.hint_filled[row][col] = true;
            proof {
                lemma_set_cell(g, row as int, col as int, Some(num));
                assert forall|i: int, j: int| in_grid(i, j) implies #[trigger] cell(self.grid, i, j)
                    == cell(set_cell(g, row as int, col as int, Some(num)), i, j) by {}
                lemma_grid_ext(self.grid, set_cell(g, row as int, col as int, Some(num)));
            }
            true
        } else {
            false
        }
    }

    /// Empties (`row`, `col`) unless it is a given or a hint.
    pub fn clear(&mut self, row: usize, col: usize)
        requires
            row < 9,
            col < 9,
        ensures
            !flag(old(self).fixed, row as int, col as int) && !flag(old(self).hint_filled, row as int, col as int)
                ==> final(self).grid == set_cell(old(self).grid, row as int, col as int, None),
            flag(old(self).fixed, row as int, col as int) || flag(old(self).hint_filled, row as int, col as int)
                ==> final(self).grid == old(self).grid,
            final(self).fixed == old(self).fixed,
            final(self).hint_filled == old(self).hint_filled,
            keeps_givens(*old(self), *final(self)),
            keeps_hints(*old(self), *final(self)),
    {
        if !self.fixed[row][col] && !self.hint_filled[row][col] {
            let ghost g = self.grid;
            self.grid[row][col] = None;
            proof {
                lemma_set_cell(g, row as int, col as int, None);
                assert forall|i: int, j: int| in_grid(i, j) implies #[trigger] cell(self.grid, i, j)
                    == cell(set_cell(g, row as int, col as int, None), i, j) by {}
                lemma_grid_ext(self.grid, set_cell(g, row as int, col as int, None));
            }
        }
    }

    /// Whether (`row`, `col`) is a given of the puzzle.
    pub fn is_fixed(&self, row: usize, col: usize) -> (b: bool)
        requires
            row < 9,
            col < 9,
        ensures
            b == flag(self.fixed, row as int, col as int),
    {
        self.fixed[row][col]
    }

    /// Whether every cell is filled.
    pub fn is_complete(&self) -> (b: bool)
        ensures
            b == complete(self.grid),
    {
        self.find_empty().is_none()
    }

    /// The one candidate of the empty cell (`row`, `col`), if it has exactly one.
    pub fn get_hint(&self, row: usize, col: usize) -> (hint: Option<u8>)
        requires
            row < 9,
            col < 9,
        ensures
            hint == if cell(self.grid, row as int, col as int) is None
                && candidates(self.grid, row as int, col as int).len() == 1 {
                Some(candidates(self.grid, row as int, col as int)[0])
            } else {
                None
            },
    {
        if self.grid[row][col].is_some() {
            return None;
        }
        let candidates = self.get_candidates(row, col);
        if candidates.len() == 1 {
            Some(candidates[0])
        } else {
            None
        }
    }

    /// Fills the board by depth-first search, trying the values of each cell in a
    /// random order; on success the board is one of the full boards the search
    /// reaches, on failure it is left as it was.
    fn fill_grid(puzzle: &mut Grid) -> (filled: bool)
        ensures
            filled == (count_leaves(*old(puzzle)) > 0),
            filled ==> leaves(*old(puzzle)).contains(*final(puzzle)),
            !filled ==> *final(puzzle) == *old(puzzle),
        decreases empties(*old(puzzle)), 1nat,
    {
        let ghost g = *puzzle;
        let mut rng = thread_rng();
        let mut r: usize = 0;
        while r < 9
            invariant
                0 <= r <= 9,
                *puzzle == g,
                g == *old(puzzle),
                forall|i: int, j: int| in_grid(i, j) && i < r ==> (#[trigger] cell(g, i, j)) is Some,
            decreases 9 - r,
        {
            let mut c: usize = 0;
            while c < 9
                invariant
                    0 <= r < 9,
                    0 <= c <= 9,
                    *puzzle == g,
                    g == *old(puzzle),
                    forall|i: int, j: int| in_grid(i, j) && before(i, j, r as int, c as int)
                        ==> (#[trigger] cell(g, i, j)) is Some,
                decreases 9 - c,
            {
                if puzzle[r][c].is_none() {
                    let mut numbers: Vec<u8> = Vec::new();
                    let mut d: u8 = 1;
                    while d < 10
                        invariant
                            1 <= d <= 10,
                            numbers@ == Seq::new((d - 1) as nat, |i: int| (i + 1) as u8),
                        decreases 10 - d,
                    {
                        numbers.push(d);
                        d += 1;
                    }
                    let ghost digits_seq = numbers@;
                    shuffle(&mut numbers, &mut rng);
                    let ghost cs = candidates(g, r as int, c as int);
                    proof {
                        broadcast use vstd::seq_lib::group_to_multiset_ensures;
                        assert(cell(g, r as int, c as int) is None);
                        lemma_first_empty(g);
                        lemma_first_empty_unique(g, r as int, c as int, first_empty(g).0, first_empty(g).1);
                        lemma_candidates(g, r as int, c as int);
                        assert forall|x: u8| #[trigger] numbers@.contains(x) <==> 1 <= x <= 9 by {
                            assert(numbers@.contains(x) <==> numbers@.to_multiset().count(x) > 0);
                            assert(digits_seq.contains(x) <==> digits_seq.to_multiset().count(x) > 0);
                            if 1 <= x <= 9 {
                                assert(digits_seq[x - 1] == x);
                            }
                        }
                    }
                    let filled = Self::try_values(puzzle, r, c, &numbers);
                    proof {
                        lemma_first_viable(g, r as int, c as int, numbers@, 0);
                        lemma_leaves_over_empty(g, r as int, c as int, cs);
                        if filled {
                            let k0 = first_viable(g, r as int, c as int, numbers@);
                            let v = numbers@[k0];
                            assert(numbers@.contains(v));
                            lemma_valid_placement_empty(g, r as int, c as int, v);
                            assert(cs.contains(v));
                            lemma_leaves_over_member(g, r as int, c as int, cs, v, *puzzle);
                            let i = choose|i: int| 0 <= i < cs.len() && cs[i] == v;
                            assert(leaves(set_cell(g, r as int, c as int, Some(cs[i]))).len() != 0);
                        } else {
                            assert forall|i: int| 0 <= i < cs.len()
                                implies #[trigger] leaves(set_cell(g, r as int, c as int, Some(cs[i]))).len() == 0 by {
                                let v = cs[i];
                                assert(cs.contains(v));
                                assert(numbers@.contains(v));
                                lemma_valid_placement_empty(g, r as int, c as int, v);
                                let j = choose|j: int| 0 <= j < numbers@.len() && numbers@[j] == v;
                                assert(!viable(g, r as int, c as int, numbers@[j]));
                            }
                        }
                    }
                    return filled;
                }
                c += 1;
            }
            r += 1;
        }
        proof {
            assert(complete(g));
            assert(leaves(g)[0] == g);
        }
        true
    }

    /// Tries the values of `order` in turn at the empty cell (`row`, `col`): the
    /// first whose placement is valid and from which `fill_grid` completes the
    /// board is kept. On success the cell holds the first value of `order` that
    /// is valid there and from which the search reaches a full board, and the
    /// board is one of the full boards reached from that placement; on failure
    /// no value of `order` is such, and the board is left as it was.
    fn try_values(puzzle: &mut Grid, row: usize, col: usize, order: &Vec<u8>) -> (filled: bool)
        requires
            row < 9,
            col < 9,
            cell(*old(puzzle), row as int, col as int) is None,
        ensures
            filled == (first_viable(*old(puzzle), row as int, col as int, order@) < order@.len()),
            filled ==> leaves(set_cell(*old(puzzle), row as int, col as int,
                Some(order@[first_viable(*old(puzzle), row as int, col as int, order@)]))).contains(*final(puzzle)),
            !filled ==> *final(puzzle) == *old(puzzle),
        decreases empties(*old(puzzle)), 0nat,
    {
        let ghost g = *puzzle;
        let mut k: usize = 0;
        while k < order.len()
            invariant
                row < 9,
                col < 9,
                *puzzle == g,
                g == *old(puzzle),
                cell(g, row as int, col as int) is None,
                0 <= k <= order@.len(),
                first_viable(g, row as int, col as int, order@)
                    == first_viable_from(g, row as int, col as int, order@, k as int),
            decreases order@.len() - k,
        {
            let num = order[k];
            if Self::is_valid_pos(puzzle, row, col, num) {
                let ghost h = set_cell(g, row as int, col as int, Some(num));
                puzzle[row][col] = Some(num);
                proof {
                    lemma_set_cell(g, row as int, col as int, Some(num));
                    lemma_empties_fill(g, row as int, col as int, num);
                    assert forall|i: int, j: int| in_grid(i, j) implies #[trigger] cell(*puzzle, i, j) == cell(h, i, j) by {}
                    lemma_grid_ext(*puzzle, h);
                }
                if Self::fill_grid(puzzle) {
                    return true;
                }
                puzzle[row][col] = None;
                proof {
                    assert forall|i: int, j: int| in_grid(i, j) implies #[trigger] cell(*puzzle, i, j) == cell(g, i, j) by {}
                    lemma_grid_ext(*puzzle, g);
                }
            }
            k += 1;
        }
        false
    }

    /// A full board, chosen at random: free of conflicts, all digits.
    pub fn generation() -> (puzzle: Grid)
        ensures
            complete(puzzle),
            digits(puzzle),
            consistent(puzzle),
    {
        let mut puzzle: Grid = [[None; 9]; 9];
        proof {
            lemma_empty_board_solvable();
            assert forall|i: int, j: int| in_grid(i, j) implies #[trigger] cell(puzzle, i, j) == cell(empty_board(), i, j) by {}
            lemma_grid_ext(puzzle, empty_board());
            lemma_leaves_are_solutions(puzzle);
        }
        Self::fill_grid(&mut puzzle);
        proof {
            lemma_leaves(empty_board());
            let k = choose|k: int| 0 <= k < leaves(empty_board()).len() && leaves(empty_board())[k] == puzzle;
            assert(complete(leaves(empty_board())[k]));
        }
        puzzle
    }

    /// Marks as givens exactly the cells that are filled.
    fn mark_givens(&mut self)
        requires
            forall|i: int, j: int| in_grid(i, j) ==> !#[trigger] flag(old(self).fixed, i, j),
        ensures
            final(self).grid == old(self).grid,
            final(self).hint_filled == old(self).hint_filled,
            forall|i: int, j: int| in_grid(i, j) ==>
                (#[trigger] flag(final(self).fixed, i, j) == cell(final(self).grid, i, j) is Some),
    {
        let ghost g = self.grid;
        let mut r: usize = 0;
        while r < 9
            invariant
                0 <= r <= 9,
                self.grid == g,
                self.hint_filled == old(self).hint_filled,
                g == old(self).grid,
                forall|i: int, j: int| in_grid(i, j) && i < r ==>
                    (#[trigger] flag(self.fixed, i, j) == cell(g, i, j) is Some),
                forall|i: int, j: int| in_grid(i, j) && i >= r ==> !#[trigger] flag(self.fixed, i, j),
            decreases 9 - r,
        {
            let mut c: usize = 0;
            while c < 9
                invariant
                    0 <= r < 9,
                    0 <= c <= 9,
                    self.grid == g,
                    self.hint_filled == old(self).hint_filled,
                    g == old(self).grid,
                    forall|i: int, j: int| in_grid(i, j) && before(i, j, r as int, c as int) ==>
                        (#[trigger] flag(self.fixed, i, j) == cell(g, i, j) is Some),
                    forall|i: int, j: int| in_grid(i, j) && !before(i, j, r as int, c as int) ==>
                        !#[trigger] flag(self.fixed, i, j),
                decreases 9 - c,
            {
                let ghost f = self.fixed;
                if self.grid[r][c].is_some() {
                    self.fixed[r][c] = true;
                    proof {
                        lemma_set_flag(f, r as int, c as int, true);
                        assert forall|i: int, j: int| in_grid(i, j) implies
                            #[trigger] flag(self.fixed, i, j) == flag(set_flag(f, r as int, c as int, true), i, j) by {}
                    }
                }
                proof {
                    assert forall|i: int, j: int| in_grid(i, j) && before(i, j, r as int, c as int + 1) implies
                        (#[trigger] flag(self.fixed, i, j) == cell(g, i, j) is Some) by {
                        if !(i == r && j == c) {
                            assert(before(i, j, r as int, c as int));
                        }
                    }
                }
                c += 1;
            }
            r += 1;
        }
    }

    /// Empties cells of `puzzle`, visited in a random order, keeping each removal
    /// only if the search then still reaches exactly one full board; it stops
    /// after `difficulty.remove_count()` removals or 200 tries. Made from a full
    /// board free of conflicts, a puzzle that has fewer empty cells than that is
    /// minimal: emptying any more of its cells would lose the unique solution.
    pub fn create_puzzle(puzzle: Grid, difficulty: Difficulty) -> (res: Grid)
        ensures
            forall|r: int, c: int| in_grid(r, c) ==>
                #[trigger] cell(res, r, c) == cell(puzzle, r, c) || cell(res, r, c) is None,
            empties(res) <= empties(puzzle) + difficulty.remove_count(),
            res == puzzle || count_leaves(res) == 1,
            complete(puzzle) && digits(puzzle) && consistent(puzzle) && empties(res) < difficulty.remove_count()
                ==> minimal_puzzle(res),
    {
        let mut puzzle = puzzle;
        let ghost p0 = puzzle;
        let mut rng = thread_rng();
        let target = difficulty.get_remove_count();
        let mut cells: Vec<(usize, usize)> = Vec::new();
        let mut r: usize = 0;
        while r < 9
            invariant
                0 <= r <= 9,
                cells@.len() == r * 9,
                forall|k: int| 0 <= k < cells@.len() ==> (#[trigger] cells@[k]).0 < 9 && cells@[k].1 < 9,
                forall|a: int, b: int| in_grid(a, b) && a < r ==> #[trigger] cells@.contains((a as usize, b as usize)),
            decreases 9 - r,
        {
            let mut c: usize = 0;
            while c < 9
                invariant
                    0 <= r < 9,
                    0 <= c <= 9,
                    cells@.len() == r * 9 + c,
                    forall|k: int| 0 <= k < cells@.len() ==> (#[trigger] cells@[k]).0 < 9 && cells@[k].1 < 9,
                    forall|a: int, b: int| in_grid(a, b) && before(a, b, r as int, c as int)
                        ==> #[trigger] cells@.contains((a as usize, b as usize)),
                decreases 9 - c,
            {
                let ghost prev = cells@;
                cells.push((r, c));
                proof {
                    assert forall|a: int, b: int| in_grid(a, b) && before(a, b, r as int, c as int + 1)
                        implies #[trigger] cells@.contains((a as usize, b as usize)) by {
                        if a == r && b == c {
                            assert(cells@[prev.len() as int] == (a as usize, b as usize));
                        } else {
                            assert(before(a, b, r as int, c as int));
                            assert(prev.contains((a as usize, b as usize)));
                            let i = choose|i: int| 0 <= i < prev.len() && prev[i] == (a as usize, b as usize);
                            assert(cells@[i] == (a as usize, b as usize));
                        }
                    }
                }
                c += 1;
            }
            r += 1;
        }
        let ghost before_shuffle = cells@;
        shuffle(&mut cells, &mut rng);
        proof {
            broadcast use vstd::seq_lib::group_to_multiset_ensures;
            assert forall|k: int| 0 <= k < cells@.len() implies (#[trigger] cells@[k]).0 < 9 && cells@[k].1 < 9 by {
                assert(cells@.contains(cells@[k]));
                assert(cells@.to_multiset().count(cells@[k]) > 0);
                assert(before_shuffle.contains(cells@[k]));
            }
            assert forall|a: int, b: int| in_grid(a, b) implies #[trigger] cells@.contains((a as usize, b as usize)) by {
                assert(before_shuffle.contains((a as usize, b as usize)));
                assert(before_shuffle.to_multiset().count((a as usize, b as usize)) > 0);
            }
        }
        let res = Self::remove_in_order(puzzle, &cells, target);
        proof {
            if complete(p0) && digits(p0) && consistent(p0) {
                lemma_complete_empties(p0);
            }
        }
        res
    }

    /// Visits the cells of `order` in turn, emptying each filled one and keeping
    /// the removal only if the search then reaches exactly one full board; it
    /// stops after `target` removals or 200 tries. The result is
    /// `removal_run(puzzle, order, target, order.len())`: it keeps only cells of
    /// `puzzle`, empties at most `target` of them, and is `puzzle` itself or a
    /// board on which the search reaches exactly one full board. Made from a full
    /// board free of conflicts, with `order` naming every cell and at most 200
    /// entries, a result with fewer than `target` empty cells is minimal.
    fn remove_in_order(puzzle: Grid, order: &Vec<(usize, usize)>, target: usize) -> (res: Grid)
        requires
            forall|i: int| 0 <= i < order@.len() ==> (#[trigger] order@[i]).0 < 9 && order@[i].1 < 9,
        ensures
            res == removal_run(puzzle, order@, target as nat, order@.len() as int).0,
            forall|r: int, c: int| in_grid(r, c) ==>
                #[trigger] cell(res, r, c) == cell(puzzle, r, c) || cell(res, r, c) is None,
            empties(res) <= empties(puzzle) + target,
            res == puzzle || count_leaves(res) == 1,
            complete(puzzle) && digits(puzzle) && consistent(puzzle) && order@.len() <= 200
                && (forall|a: int, b: int| in_grid(a, b) ==> #[trigger] order@.contains((a as usize, b as usize)))
                && empties(res) < target
                ==> minimal_puzzle(res),
    {
        let ghost p0 = puzzle;
        let mut puzzle = puzzle;
        let mut removed: usize = 0;
        let mut checked: usize = 0;
        let max_check: usize = 200;
        let mut k: usize = 0;
        proof {
            lemma_empties_bound(p0);
        }
        while k < order.len()
            invariant
                0 <= k <= order@.len(),
                max_check == 200,
                forall|i: int| 0 <= i < order@.len() ==> (#[trigger] order@[i]).0 < 9 && order@[i].1 < 9,
                (puzzle, removed as nat, checked as nat) == removal_run(p0, order@, target as nat, k as int),
                forall|i: int, j: int| in_grid(i, j) ==>
                    #[trigger] cell(puzzle, i, j) == cell(p0, i, j) || cell(puzzle, i, j) is None,
                empties(puzzle) == empties(p0) + removed,
                removed <= target,
                checked <= k,
                puzzle == p0 || count_leaves(puzzle) == 1,
                complete(p0) && digits(p0) && consistent(p0) ==> forall|i: int| 0 <= i < k
                    && #[trigger] cell(puzzle, order@[i].0 as int, order@[i].1 as int) is Some
                    ==> count_leaves(set_cell(puzzle, order@[i].0 as int, order@[i].1 as int, None)) != 1,
            ensures
                removed >= target || checked >= max_check || k == order@.len(),
            decreases order@.len() - k,
        {
            if removed >= target || checked >= max_check {
                break;
            }
            let (r, c) = order[k];
            let ghost st = removal_run(p0, order@, target as nat, k as int);
            if puzzle[r][c].is_some() {
                checked += 1;
                let backup = puzzle[r][c];
                let ghost before = puzzle;
                puzzle[r][c] = None;
                let ghost after = puzzle;
                proof {
                    lemma_set_cell(before, r as int, c as int, None);
                    lemma_set_cell(after, r as int, c as int, backup);
                    lemma_empties_fill(after, r as int, c as int, backup->0);
                    assert forall|i: int, j: int| in_grid(i, j) implies
                        #[trigger] cell(set_cell(after, r as int, c as int, backup), i, j) == cell(before, i, j) by {}
                    lemma_grid_ext(set_cell(after, r as int, c as int, backup), before);
                }
                let mut test_sudoku = Sudoku::new();
                test_sudoku.grid = puzzle;
                proof {
                    assert forall|i: int, j: int| in_grid(i, j) implies #[trigger] cell(after, i, j)
                        == cell(set_cell(before, r as int, c as int, None), i, j) by {}
                    lemma_grid_ext(after, set_cell(before, r as int, c as int, None));
                }
                if test_sudoku.has_unique_solution() {
                    removed += 1;
                    proof {
                        if complete(p0) && digits(p0) && consistent(p0) {
                            assert forall|i: int| 0 <= i < k + 1
                                && #[trigger] cell(puzzle, order@[i].0 as int, order@[i].1 as int) is Some
                                implies count_leaves(set_cell(puzzle, order@[i].0 as int, order@[i].1 as int, None)) != 1 by {
                                let (a, b) = (order@[i].0 as int, order@[i].1 as int);
                                lemma_set_cell(after, a, b, None);
                                lemma_set_cell(before, a, b, None);
                                if i < k {
                                    assert(cell(before, a, b) is Some);
                                    lemma_sub_board_not_unique(set_cell(before, a, b, None), set_cell(after, a, b, None), p0);
                                }
                            }
                        }
                    }
                } else {
                    puzzle[r][c] = backup;
                    proof {
                        assert forall|i: int, j: int| in_grid(i, j) implies #[trigger] cell(puzzle, i, j) == cell(before, i, j) by {}
                        lemma_grid_ext(puzzle, before);
                    }
                }
            }
            proof {
                assert(removal_run(p0, order@, target as nat, k + 1)
                    == removal_step(st, order@[k as int], target as nat));
            }
            k += 1;
        }
        proof {
            if k < order@.len() {
                lemma_removal_stopped(p0, order@, target as nat, k as int, order@.len() as int);
            }
            if complete(p0) && digits(p0) && consistent(p0) && order@.len() <= 200
                && (forall|a: int, b: int| in_grid(a, b) ==> #[trigger] order@.contains((a as usize, b as usize)))
                && empties(puzzle) < target {
                lemma_complete_empties(p0);
                assert(k == order@.len());
                assert forall|a: int, b: int| in_grid(a, b) && cell(puzzle, a, b) is Some
                    implies !unique_solution(#[trigger] set_cell(puzzle, a, b, None)) by {
                    assert(order@.contains((a as usize, b as usize)));
                    let i = choose|i: int| 0 <= i < order@.len() && order@[i] == (a as usize, b as usize);
                    assert(cell(puzzle, order@[i].0 as int, order@[i].1 as int) is Some);
                    lemma_set_cell(puzzle, a, b, None);
                    lemma_sub_of_full(set_cell(puzzle, a, b, None), p0);
                    lemma_unique_solution(set_cell(puzzle, a, b, None));
                }
            }
        }
        puzzle
    }

    /// A new puzzle of the given difficulty (Easy when none is given): its cells
    /// that are filled are its givens, none is a hint, and it has exactly one solution.
    pub fn generate_puzzle(difficulty: Option<Difficulty>) -> (sudoku: Self)
        ensures
            is_fresh_puzzle(sudoku, match difficulty {
                Some(d) => d,
                None => Difficulty::Easy,
            }),
    {
        let selected_diff = match difficulty {
            Some(d) => d,
            None => Difficulty::Easy,
        };
        let mut sudoku: Sudoku;
        let mut attempts: usize = 0;
        let max_attempts: usize = 100;
        loop
            invariant
                max_attempts == 100,
                attempts < 100,
            ensures
                unique_solution(sudoku.grid),
                consistent(sudoku.grid),
                digits(sudoku.grid),
                1 <= empties(sudoku.grid) <= selected_diff.remove_count(),
                empties(sudoku.grid) == selected_diff.remove_count() || minimal_puzzle(sudoku.grid),
                forall|r: int, c: int| in_grid(r, c) ==> !#[trigger] flag(sudoku.hint_filled, r, c),
                forall|r: int, c: int| in_grid(r, c) ==> !#[trigger] flag(sudoku.fixed, r, c),
            decreases 100 - attempts,
        {
            sudoku = Sudoku::new();
            let full = Self::generation();
            sudoku.grid = Self::create_puzzle(full, selected_diff);
            proof {
                lemma_puzzle_from_full(sudoku.grid, full);
                lemma_complete_empties(full);
                lemma_unique_solution(sudoku.grid);
                if empties(sudoku.grid) < selected_diff.remove_count() {
                    lemma_minimal_not_full(sudoku.grid);
                }
            }
            if sudoku.is_solvable() {
                break;
            }
            attempts += 1;
            if attempts >= max_attempts {
                let full = Self::generation();
                sudoku.grid = Self::create_puzzle(full, Difficulty::Easy);
                break;
            }
        }
        sudoku.mark_givens();
        sudoku
    }
}

/// A board that keeps only cells of a full board free of conflicts and of
/// non-digits is itself free of them, and has that full board as a solution.
pub proof fn lemma_sub_of_full(p: Grid, full: Grid)
    requires
        complete(full),
        digits(full),
        consistent(full),
        forall|r: int, c: int| in_grid(r, c) ==>
            #[trigger] cell(p, r, c) == cell(full, r, c) || cell(p, r, c) is None,
    ensures
        is_solution(full, p),
        consistent(p),
        digits(p),
{
    assert forall|r1: int, c1: int, r2: int, c2: int|
        #![trigger cell(p, r1, c1), cell(p, r2, c2)]
        in_grid(r1, c1) && in_grid(r2, c2) && peers(r1, c1, r2, c2) && (r1 != r2 || c1 != c2)
            && cell(p, r1, c1) is Some implies cell(p, r1, c1) != cell(p, r2, c2) by {
        assert(cell(full, r1, c1) != cell(full, r2, c2));
    }
    assert forall|i: int, j: int| in_grid(i, j) && (#[trigger] cell(p, i, j)) is Some
        implies 1 <= cell(p, i, j)->0 <= 9 by {
        assert(cell(full, i, j) is Some);
    }
}

/// Emptying more cells of a board that keeps only cells of a full board free of
/// conflicts never brings back a lost unique solution.
pub proof fn lemma_sub_board_not_unique(p: Grid, q: Grid, full: Grid)
    requires
        complete(full),
        digits(full),
        consistent(full),
        forall|r: int, c: int| in_grid(r, c) ==>
            #[trigger] cell(p, r, c) == cell(full, r, c) || cell(p, r, c) is None,
        forall|r: int, c: int| in_grid(r, c) ==>
            #[trigger] cell(q, r, c) == cell(p, r, c) || cell(q, r, c) is None,
        count_leaves(p) != 1,
    ensures
        count_leaves(q) != 1,
{
    lemma_sub_of_full(p, full);
    assert forall|r: int, c: int| in_grid(r, c) implies
        #[trigger] cell(q, r, c) == cell(full, r, c) || cell(q, r, c) is None by {
        assert(cell(p, r, c) == cell(full, r, c) || cell(p, r, c) is None);
    }
    lemma_sub_of_full(q, full);
    lemma_leaves_are_solutions(p);
    lemma_leaves_are_solutions(q);
    let (s1, s2) = choose|s1: Grid, s2: Grid| is_solution(s1, p) && is_solution(s2, p) && s1 != s2;
    assert(is_solution(s1, q));
    assert(is_solution(s2, q));
}

/// A board made by emptying cells of a full board free of conflicts and of
/// non-digits, on which the search reaches exactly one full board (or which is
/// that full board itself), has exactly one solution: the full board.
pub proof fn lemma_puzzle_from_full(p: Grid, full: Grid)
    requires
        complete(full),
        digits(full),
        consistent(full),
        forall|r: int, c: int| in_grid(r, c) ==>
            #[trigger] cell(p, r, c) == cell(full, r, c) || cell(p, r, c) is None,
        p == full || count_leaves(p) == 1,
    ensures
        unique_solution(p),
        is_solution(full, p),
        consistent(p),
        digits(p),
{
    lemma_sub_of_full(p, full);
    lemma_leaves_are_solutions(p);
    if p == full {
        assert(count_leaves(p) == 1);
    }
}

/// The generator tries to empty 40, 50, 60 and 70 cells for Easy, Medium, Hard
/// and Master: each step up in difficulty empties ten cells more.
pub proof fn lemma_remove_counts(d: Difficulty)
    ensures
        d == Difficulty::Easy ==> d.remove_count() == 40,
        d == Difficulty::Medium ==> d.remove_count() == 50,
        d == Difficulty::Hard ==> d.remove_count() == 60,
        d == Difficulty::Master ==> d.remove_count() == 70,
        d != Difficulty::Master ==> d.spec_next().remove_count() == d.remove_count() + 10,
{
}

/// A new puzzle has 40, 50, 60 or 70 empty cells for Easy, Medium, Hard or
/// Master, or fewer only when emptying any of its filled cells would lose the
/// unique solution; it never has more, and always has a unique solution.
pub proof fn lemma_fresh_puzzle_empties(s: Sudoku, d: Difficulty)
    requires
        is_fresh_puzzle(s, d),
    ensures
        unique_solution(s.grid),
        1 <= empties(s.grid),
        empties(s.grid) <= match d {
            Difficulty::Easy => 40int,
            Difficulty::Medium => 50int,
            Difficulty::Hard => 60int,
            Difficulty::Master => 70int,
        },
        empties(s.grid) == match d {
            Difficulty::Easy => 40int,
            Difficulty::Medium => 50int,
            Difficulty::Hard => 60int,
            Difficulty::Master => 70int,
        } || minimal_puzzle(s.grid),
{
}

/// Four steps of `next` come back to the difficulty they started from.
pub proof fn lemma_next_cycles(d: Difficulty)
    ensures
        d.spec_next().spec_next().spec_next().spec_next() == d,
        d.spec_next() != d,
{
}

/// A valid placement never creates a conflict: the board stays free of them.
pub proof fn lemma_valid_placement_keeps_consistency(g: Grid, r: int, c: int, n: u8)
    requires
        in_grid(r, c),
        consistent(g),
        valid_placement(g, r, c, n),
    ensures
        consistent(set_cell(g, r, c, Some(n))),
{
    let h = set_cell(g, r, c, Some(n));
    lemma_set_cell(g, r, c, Some(n));
    assert forall|r1: int, c1: int, r2: int, c2: int|
        #![trigger cell(h, r1, c1), cell(h, r2, c2)]
        in_grid(r1, c1) && in_grid(r2, c2) && peers(r1, c1, r2, c2) && (r1 != r2 || c1 != c2)
            && cell(h, r1, c1) is Some implies cell(h, r1, c1) != cell(h, r2, c2) by {
        if r1 == r && c1 == c {
            if r2 == r {
                assert(cell(g, r, c2) != Some(n));
            } else if c2 == c {
                assert(cell(g, r2, c) != Some(n));
            } else {
                assert(cell(g, r2, c2) != Some(n));
            }
        } else if r2 == r && c2 == c {
            if r1 == r {
                assert(cell(g, r, c1) != Some(n));
            } else if c1 == c {
                assert(cell(g, r1, c) != Some(n));
            } else {
                assert(same_box(r, c, r1, c1));
                assert(cell(g, r1, c1) != Some(n));
            }
        } else {
            assert(cell(g, r1, c1) == cell(h, r1, c1));
            assert(cell(g, r2, c2) == cell(h, r2, c2));
        }
    }
}

/// A hint is never wrong: the one candidate of an empty cell is what every
/// solution holds there.
pub proof fn lemma_hint_agrees_with_solutions(g: Grid, r: int, c: int, s: Grid)
    requires
        in_grid(r, c),
        cell(g, r, c) is None,
        candidates(g, r, c).len() == 1,
        is_solution(s, g),
    ensures
        cell(s, r, c) == Some(candidates(g, r, c)[0]),
{
    crate::search::lemma_solution_value_is_candidate(s, g, r, c);
    lemma_candidates(g, r, c);
    let w = cell(s, r, c)->0;
    assert(candidates(g, r, c).contains(w));
}

/// Clearing an empty cell that was just filled gives back the board as it was.
pub proof fn lemma_clear_undoes_set(g: Grid, r: int, c: int, n: u8)
    requires
        in_grid(r, c),
        cell(g, r, c) is None,
    ensures
        set_cell(set_cell(g, r, c, Some(n)), r, c, None) == g,
{
    lemma_set_cell(g, r, c, Some(n));
    lemma_set_cell(set_cell(g, r, c, Some(n)), r, c, None);
    assert forall|i: int, j: int| in_grid(i, j) implies
        #[trigger] cell(set_cell(set_cell(g, r, c, Some(n)), r, c, None), i, j) == cell(g, i, j) by {}
    lemma_grid_ext(set_cell(set_cell(g, r, c, Some(n)), r, c, None), g);
}

/// For a board free of conflicts and of non-digits, `is_solvable` answers
/// whether the board has a solution.
pub proof fn lemma_solvable_iff_solution(g: Grid)
    requires
        consistent(g),
        digits(g),
    ensures
        (complete(logic_solve(g)) || count_leaves(g) > 0) <==> has_solution(g),
{
    crate::logic::lemma_logic_solve_sound(g);
    lemma_leaves_are_solutions(g);
}

/// For a board free of conflicts and of non-digits, the search reaches exactly
/// one full board when the board has exactly one solution.
pub proof fn lemma_unique_solution(g: Grid)
    requires
        consistent(g),
        digits(g),
    ensures
        count_leaves(g) == 1 <==> unique_solution(g),
{
    lemma_leaves_are_solutions(g);
}

/// A full board free of conflicts and of non-digits, with its top-left cell
/// emptied, still has exactly one solution: the full board.
pub proof fn lemma_full_board_not_minimal(g: Grid)
    requires
        complete(g),
        digits(g),
        consistent(g),
    ensures
        unique_solution(set_cell(g, 0, 0, None)),
{
    let h = set_cell(g, 0, 0, None);
    lemma_set_cell(g, 0, 0, None);
    lemma_sub_of_full(h, g);
    assert forall|s: Grid| is_solution(s, h) implies s == g by {
        let v = cell(g, 0, 0)->0;
        crate::logic::lemma_region_holds_digit(s, 0, v as int);
        let i = choose|i: int| 0 <= i < 9
            && #[trigger] cell(s, crate::logic::region_cell(0, i).0, crate::logic::region_cell(0, i).1) == Some(v as u8);
        if i != 0 {
            assert(cell(h, 0, i) == cell(g, 0, i));
            assert(cell(s, 0, i) == cell(g, 0, i));
            assert(peers(0, 0, 0, i));
            assert(cell(g, 0, 0) != cell(g, 0, i));
        }
        assert forall|a: int, b: int| in_grid(a, b) implies #[trigger] cell(s, a, b) == cell(g, a, b) by {
            if a != 0 || b != 0 {
                assert(cell(h, a, b) == cell(g, a, b));
            }
        }
        lemma_grid_ext(s, g);
    }
}

/// A minimal puzzle free of conflicts and of non-digits has an empty cell.
pub proof fn lemma_minimal_not_full(g: Grid)
    requires
        digits(g),
        consistent(g),
        minimal_puzzle(g),
    ensures
        !complete(g),
        empties(g) >= 1,
{
    if complete(g) {
        lemma_full_board_not_minimal(g);
        assert(cell(g, 0, 0) is Some);
        assert(!unique_solution(set_cell(g, 0, 0, None)));
    }
    lemma_first_empty(g);
    let p = first_empty(g);
    lemma_empties_fill(g, p.0, p.1, 1);
}

/// Givens never change: over any run of `set`, `set_hint` and `clear` calls
/// (each of which keeps the givens), the last board has the givens of the first.
pub proof fn lemma_givens_kept_over_edits(states: Seq<Sudoku>)
    requires
        states.len() >= 1,
        forall|i: int| 0 <= i < states.len() - 1 ==> keeps_givens(#[trigger] states[i], states[i + 1]),
    ensures
        keeps_givens(states[0], states.last()),
    decreases states.len(),
{
    if states.len() > 1 {
        let prefix = states.drop_last();
        assert forall|i: int| 0 <= i < prefix.len() - 1 implies keeps_givens(#[trigger] prefix[i], prefix[i + 1]) by {
            assert(keeps_givens(states[i], states[i + 1]));
        }
        lemma_givens_kept_over_edits(prefix);
        assert(keeps_givens(states[states.len() - 2], states[states.len() - 1]));
    }
}

/// Hints never change: over any run of `set` and `clear` calls (each of which
/// keeps the hints), the last board has the hints of the first, with their values.
pub proof fn lemma_hints_kept_over_edits(states: Seq<Sudoku>)
    requires
        states.len() >= 1,
        forall|i: int| 0 <= i < states.len() - 1 ==> keeps_hints(#[trigger] states[i], states[i + 1]),
    ensures
        keeps_hints(states[0], states.last()),
    decreases states.len(),
{
    if states.len() > 1 {
        let prefix = states.drop_last();
        assert forall|i: int| 0 <= i < prefix.len() - 1 implies keeps_hints(#[trigger] prefix[i], prefix[i + 1]) by {
            assert(keeps_hints(states[i], states[i + 1]));
        }
        lemma_hints_kept_over_edits(prefix);
        assert(keeps_hints(states[states.len() - 2], states[states.len() - 1]));
    }
}

/// The givens of a new puzzle are exactly its filled cells, and over any run of
/// `set`, `set_hint` and `clear` calls they stay the givens, with their values.
pub proof fn lemma_puzzle_givens_stay(states: Seq<Sudoku>, d: Difficulty)
    requires
        states.len() >= 1,
        is_fresh_puzzle(states[0], d),
        forall|i: int| 0 <= i < states.len() - 1 ==> keeps_givens(#[trigger] states[i], states[i + 1]),
    ensures
        forall|r: int, c: int| in_grid(r, c) ==> {
            &&& #[trigger] flag(states.last().fixed, r, c) == cell(states[0].grid, r, c) is Some
            &&& flag(states.last().fixed, r, c) ==> cell(states.last().grid, r, c) == cell(states[0].grid, r, c)
        },
{
    lemma_givens_kept_over_edits(states);
}

/// A hint stays: once `set_hint` has put `n` at (`r`, `c`), any run of `set` and
/// `clear` calls leaves the hint there.
pub proof fn lemma_hint_stays(states: Seq<Sudoku>, r: int, c: int, n: u8)
    requires
        in_grid(r, c),
        states.len() >= 1,
        flag(states[0].hint_filled, r, c),
        cell(states[0].grid, r, c) == Some(n),
        forall|i: int| 0 <= i < states.len() - 1 ==> keeps_hints(#[trigger] states[i], states[i + 1]),
    ensures
        flag(states.last().hint_filled, r, c),
        cell(states.last().grid, r, c) == Some(n),
{
    lemma_hints_kept_over_edits(states);
}

/// In an empty cell, a digit is a candidate exactly when placing it is valid.
pub proof fn lemma_candidate_iff_valid(g: Grid, r: int, c: int, n: u8)
    requires
        in_grid(r, c),
        cell(g, r, c) is None,
        1 <= n <= 9,
    ensures
        candidates(g, r, c).contains(n) <==> valid_placement(g, r, c, n),
{
    lemma_candidates(g, r, c);
    lemma_valid_placement_empty(g, r, c, n);
}

} // verus!
