//! The deductive solver: rounds of "naked singles" (a cell with one candidate
//! takes it) and "hidden singles" (a digit with one place left in a region
//! goes there), and why every step it takes agrees with every solution.
use vstd::prelude::*;
use crate::grid::{
    Grid, cell, set_cell, in_grid, same_box, peers, seen, is_candidate, candidates, complete,
    digits, consistent, extends, is_solution, lemma_set_cell, lemma_grid_ext, lemma_candidates,
};
use crate::search::{lemma_place_candidate, lemma_solution_value_is_candidate, lemma_solution_of_set};

verus! {

/// A naked single at (`r`, `c`): an empty cell with exactly one candidate takes it.
pub open spec fn naked_step(g: Grid, r: int, c: int) -> Grid {
    if cell(g, r, c) is None && candidates(g, r, c).len() == 1 {
        set_cell(g, r, c, Some(candidates(g, r, c)[0]))
    } else {
        g
    }
}

/// Naked singles tried in row `r`, columns `0..c`, one after the other.
pub open spec fn naked_cols(g: Grid, r: int, c: int) -> Grid
    decreases c,
{
    if c <= 0 {
        g
    } else {
        naked_step(naked_cols(g, r, c - 1), r, c - 1)
    }
}

/// Naked singles tried in rows `0..r`, row by row.
pub open spec fn naked_rows(g: Grid, r: int) -> Grid
    decreases r,
{
    if r <= 0 {
        g
    } else {
        naked_cols(naked_rows(g, r - 1), r - 1, 9)
    }
}

/// One sweep of naked singles over the board in row-major order.
pub open spec fn naked_pass(g: Grid) -> Grid {
    naked_rows(g, 9)
}

/// The `i`-th cell of region `region`: regions 0..3 are the top three rows,
/// 3..6 the left three columns, 6..9 the three boxes on the main diagonal.
pub open spec fn region_cell(region: int, i: int) -> (int, int) {
    if region < 3 {
        (region, i)
    } else if region < 6 {
        (i, region - 3)
    } else {
        (i / 3 + (region - 6) * 3, i % 3 + (region - 6) * 3)
    }
}

/// The `i`-th cell of the region is empty and has `num` among its candidates.
pub open spec fn hidden_hit(g: Grid, region: int, num: int, i: int) -> bool {
    let p = region_cell(region, i);
    cell(g, p.0, p.1) is None && candidates(g, p.0, p.1).contains(num as u8)
}

/// How many of the region's first `i` cells are hits for `num`.
pub open spec fn hidden_count(g: Grid, region: int, num: int, i: int) -> nat
    decreases i,
{
    if i <= 0 {
        0
    } else {
        hidden_count(g, region, num, i - 1) + if hidden_hit(g, region, num, i - 1) { 1nat } else { 0nat }
    }
}

/// The last hit for `num` among the region's first `i` cells ((0, 0) if none).
pub open spec fn hidden_pos(g: Grid, region: int, num: int, i: int) -> (int, int)
    decreases i,
{
    if i <= 0 {
        (0, 0)
    } else if hidden_hit(g, region, num, i - 1) {
        region_cell(region, i - 1)
    } else {
        hidden_pos(g, region, num, i - 1)
    }
}

/// A hidden single: when exactly one cell of the region can take `num`, it does.
pub open spec fn hidden_step(g: Grid, region: int, num: int) -> Grid {
    if hidden_count(g, region, num, 9) == 1 {
        let p = hidden_pos(g, region, num, 9);
        set_cell(g, p.0, p.1, Some(num as u8))
    } else {
        g
    }
}

/// Hidden singles tried in `region` for the digits `1..n`.
pub open spec fn hidden_nums(g: Grid, region: int, n: int) -> Grid
    decreases n,
{
    if n <= 1 {
        g
    } else {
        hidden_step(hidden_nums(g, region, n - 1), region, n - 1)
    }
}

/// Hidden singles tried in the regions `0..region`, region by region.
pub open spec fn hidden_regions(g: Grid, region: int) -> Grid
    decreases region,
{
    if region <= 0 {
        g
    } else {
        hidden_nums(hidden_regions(g, region - 1), region - 1, 10)
    }
}

/// One sweep of hidden singles over the nine regions.
pub open spec fn hidden_pass(g: Grid) -> Grid {
    hidden_regions(g, 9)
}

/// One round: a sweep of naked singles, then a sweep of hidden singles.
pub open spec fn logic_round(g: Grid) -> Grid {
    hidden_pass(naked_pass(g))
}

/// Rounds until one changes nothing, at most `fuel` of them.
pub open spec fn logic_rounds(g: Grid, fuel: nat) -> Grid
    decreases fuel,
{
    if fuel == 0 {
        g
    } else if logic_round(g) == g {
        g
    } else {
        logic_rounds(logic_round(g), (fuel - 1) as nat)
    }
}

/// The board the deductive solver ends with: at most 100 rounds.
pub open spec fn logic_solve(g: Grid) -> Grid {
    logic_rounds(g, 100)
}

/// Some cell empty in `a` is filled in `b`.
pub open spec fn grew(a: Grid, b: Grid) -> bool {
    exists|r: int, c: int| in_grid(r, c) && #[trigger] cell(a, r, c) is None && cell(b, r, c) is Some
}

/// `h` only fills cells of `g`, keeps it free of conflicts and of non-digits,
/// and every solution of `g` is a solution of `h`.
pub open spec fn refines(g: Grid, h: Grid) -> bool {
    &&& extends(h, g)
    &&& consistent(g) ==> consistent(h)
    &&& digits(g) ==> digits(h)
    &&& forall|s: Grid| #![trigger is_solution(s, g)] is_solution(s, g) ==> is_solution(s, h)
}

// ---------------------------------------------------------------- lemmas

pub proof fn lemma_refines_refl(g: Grid)
    ensures
        refines(g, g),
{
}

pub proof fn lemma_refines_trans(a: Grid, b: Grid, c: Grid)
    requires
        refines(a, b),
        refines(b, c),
    ensures
        refines(a, c),
{
    assert forall|s: Grid| #![trigger is_solution(s, a)] is_solution(s, a) implies is_solution(s, c) by {
        assert(is_solution(s, b));
    }
}

/// Between a board and a board that extends it, growth is the same as change.
pub proof fn lemma_grew(a: Grid, b: Grid)
    requires
        extends(b, a),
    ensures
        grew(a, b) <==> a != b,
{
    if !grew(a, b) {
        assert forall|i: int, j: int| in_grid(i, j) implies #[trigger] cell(b, i, j) == cell(a, i, j) by {
            if cell(a, i, j) is None {
                assert(!(cell(a, i, j) is None && cell(b, i, j) is Some));
            }
        }
        lemma_grid_ext(b, a);
    }
}

pub proof fn lemma_grew_trans(a: Grid, b: Grid, c: Grid)
    requires
        extends(b, a),
        extends(c, b),
    ensures
        grew(a, c) <==> (grew(a, b) || grew(b, c)),
{
    if grew(a, b) {
        let (r, c0) = choose|r: int, c0: int| in_grid(r, c0) && #[trigger] cell(a, r, c0) is None && cell(b, r, c0) is Some;
        assert(cell(c, r, c0) is Some);
    }
    if grew(b, c) {
        let (r, c0) = choose|r: int, c0: int| in_grid(r, c0) && #[trigger] cell(b, r, c0) is None && cell(c, r, c0) is Some;
        if cell(a, r, c0) is Some {
            assert(cell(b, r, c0) is Some);
        }
        assert(cell(a, r, c0) is None);
    }
    if grew(a, c) {
        let (r, c0) = choose|r: int, c0: int| in_grid(r, c0) && #[trigger] cell(a, r, c0) is None && cell(c, r, c0) is Some;
        if cell(b, r, c0) is Some {
            assert(grew(a, b));
        } else {
            assert(grew(b, c));
        }
    }
}

/// Filling an empty cell of `g` with a candidate refines `g`, when the value is
/// one every solution of `g` holds there.
proof fn lemma_fill_refines(g: Grid, r: int, c: int, v: u8)
    requires
        in_grid(r, c),
        cell(g, r, c) is None,
        is_candidate(g, r, c, v as int),
        forall|s: Grid| is_solution(s, g) ==> cell(s, r, c) == Some(v),
    ensures
        refines(g, set_cell(g, r, c, Some(v))),
        grew(g, set_cell(g, r, c, Some(v))),
{
    lemma_place_candidate(g, r, c, v);
    lemma_set_cell(g, r, c, Some(v));
    assert forall|s: Grid| #![trigger is_solution(s, g)] is_solution(s, g)
        implies is_solution(s, set_cell(g, r, c, Some(v))) by {
        lemma_solution_of_set(s, g, r, c, v);
    }
    assert(cell(g, r, c) is None && cell(set_cell(g, r, c, Some(v)), r, c) is Some);
}

pub proof fn lemma_naked_step(g: Grid, r: int, c: int)
    requires
        in_grid(r, c),
    ensures
        refines(g, naked_step(g, r, c)),
        grew(g, naked_step(g, r, c)) <==> naked_step(g, r, c) != g,
{
    if cell(g, r, c) is None && candidates(g, r, c).len() == 1 {
        lemma_candidates(g, r, c);
        let v = candidates(g, r, c)[0];
        assert(is_candidate(g, r, c, v as int));
        assert forall|s: Grid| is_solution(s, g) implies cell(s, r, c) == Some(v) by {
            lemma_solution_value_is_candidate(s, g, r, c);
            let w = cell(s, r, c)->0;
            assert(candidates(g, r, c).contains(w));
            let k = choose|k: int| 0 <= k < candidates(g, r, c).len() && candidates(g, r, c)[k] == w;
        }
        lemma_fill_refines(g, r, c, v);
    }
    lemma_refines_refl(g);
    lemma_grew(g, naked_step(g, r, c));
}

pub proof fn lemma_naked_cols(g: Grid, r: int, c: int)
    requires
        0 <= r < 9,
        c <= 9,
    ensures
        refines(g, naked_cols(g, r, c)),
    decreases c,
{
    if c <= 0 {
        lemma_refines_refl(g);
    } else {
        lemma_naked_cols(g, r, c - 1);
        lemma_naked_step(naked_cols(g, r, c - 1), r, c - 1);
        lemma_refines_trans(g, naked_cols(g, r, c - 1), naked_cols(g, r, c));
    }
}

pub proof fn lemma_naked_rows(g: Grid, r: int)
    requires
        r <= 9,
    ensures
        refines(g, naked_rows(g, r)),
    decreases r,
{
    if r <= 0 {
        lemma_refines_refl(g);
    } else {
        lemma_naked_rows(g, r - 1);
        lemma_naked_cols(naked_rows(g, r - 1), r - 1, 9);
        lemma_refines_trans(g, naked_rows(g, r - 1), naked_rows(g, r));
    }
}

pub proof fn lemma_region_cell(region: int, i: int)
    requires
        0 <= region < 9,
        0 <= i < 9,
    ensures
        in_grid(region_cell(region, i).0, region_cell(region, i).1),
        forall|j: int| 0 <= j < 9 ==> #[trigger] peers(region_cell(region, i).0, region_cell(region, i).1,
            region_cell(region, j).0, region_cell(region, j).1),
        forall|j: int| 0 <= j < 9 && j != i ==> #[trigger] region_cell(region, j) != region_cell(region, i),
{
    assert forall|j: int| 0 <= j < 9 implies #[trigger] peers(region_cell(region, i).0, region_cell(region, i).1,
        region_cell(region, j).0, region_cell(region, j).1) by {
        if region >= 6 {
            assert(same_box(region_cell(region, i).0, region_cell(region, i).1,
                region_cell(region, j).0, region_cell(region, j).1));
        }
    }
    assert forall|j: int| 0 <= j < 9 && j != i implies #[trigger] region_cell(region, j) != region_cell(region, i) by {
        if region >= 6 {
            assert(i == (i / 3) * 3 + i % 3);
            assert(j == (j / 3) * 3 + j % 3);
        }
    }
}

/// In a solution every region holds every digit.
pub proof fn lemma_region_holds_digit(s: Grid, region: int, num: int)
    requires
        complete(s),
        digits(s),
        consistent(s),
        0 <= region < 9,
        1 <= num <= 9,
    ensures
        exists|i: int| 0 <= i < 9 && #[trigger] cell(s, region_cell(region, i).0, region_cell(region, i).1) == Some(num as u8),
{
    if !exists|i: int| 0 <= i < 9 && #[trigger] cell(s, region_cell(region, i).0, region_cell(region, i).1) == Some(num as u8) {
        let f = |i: int| cell(s, region_cell(region, i).0, region_cell(region, i).1)->0 as int;
        let x = vstd::set_lib::set_int_range(0, 9);
        let y = x.map(f);
        let z = vstd::set_lib::set_int_range(1, 10).remove(num);
        vstd::set_lib::lemma_int_range(0, 9);
        vstd::set_lib::lemma_int_range(1, 10);
        assert forall|a: int, b: int| x.contains(a) && x.contains(b) && #[trigger] f(a) == #[trigger] f(b) implies a == b by {
            lemma_region_cell(region, a);
            lemma_region_cell(region, b);
            let pa = region_cell(region, a);
            let pb = region_cell(region, b);
            assert(cell(s, pa.0, pa.1) is Some);
            assert(cell(s, pb.0, pb.1) is Some);
            assert(peers(pa.0, pa.1, pb.0, pb.1));
            if a != b {
                assert(pa != pb);
                assert(cell(s, pa.0, pa.1) != cell(s, pb.0, pb.1));
            }
        }
        vstd::set_lib::lemma_map_size(x, y, f);
        assert forall|v: int| y.contains(v) implies z.contains(v) by {
            let a = choose|a: int| x.contains(a) && f(a) == v;
            lemma_region_cell(region, a);
            let pa = region_cell(region, a);
            assert(cell(s, pa.0, pa.1) is Some);
            assert(cell(s, pa.0, pa.1) != Some(num as u8));
        }
        vstd::set_lib::lemma_len_subset(y, z);
    }
}

pub proof fn lemma_hidden_count(g: Grid, region: int, num: int, i: int)
    requires
        0 <= i <= 9,
    ensures
        hidden_count(g, region, num, i) == 0 ==> forall|k: int| 0 <= k < i ==> !#[trigger] hidden_hit(g, region, num, k),
        hidden_count(g, region, num, i) == 1 ==> exists|k0: int| {
            &&& 0 <= k0 < i
            &&& #[trigger] hidden_hit(g, region, num, k0)
            &&& region_cell(region, k0) == hidden_pos(g, region, num, i)
            &&& forall|k: int| 0 <= k < i && #[trigger] hidden_hit(g, region, num, k) ==> k == k0
        },
    decreases i,
{
    if i > 0 {
        lemma_hidden_count(g, region, num, i - 1);
        if hidden_count(g, region, num, i) == 1 && !hidden_hit(g, region, num, i - 1) {
            let k0 = choose|k0: int| {
                &&& 0 <= k0 < i - 1
                &&& #[trigger] hidden_hit(g, region, num, k0)
                &&& region_cell(region, k0) == hidden_pos(g, region, num, i - 1)
                &&& forall|k: int| 0 <= k < i - 1 && #[trigger] hidden_hit(g, region, num, k) ==> k == k0
            };
            assert(hidden_hit(g, region, num, k0));
        }
        if hidden_count(g, region, num, i) == 1 && hidden_hit(g, region, num, i - 1) {
            assert(hidden_hit(g, region, num, i - 1));
        }
    }
}

pub proof fn lemma_hidden_step(g: Grid, region: int, num: int)
    requires
        0 <= region < 9,
        1 <= num <= 9,
    ensures
        refines(g, hidden_step(g, region, num)),
        grew(g, hidden_step(g, region, num)) <==> hidden_count(g, region, num, 9) == 1,
{
    lemma_refines_refl(g);
    lemma_hidden_count(g, region, num, 9);
    if hidden_count(g, region, num, 9) == 1 {
        let k0 = choose|k0: int| {
            &&& 0 <= k0 < 9
            &&& #[trigger] hidden_hit(g, region, num, k0)
            &&& region_cell(region, k0) == hidden_pos(g, region, num, 9)
            &&& forall|k: int| 0 <= k < 9 && #[trigger] hidden_hit(g, region, num, k) ==> k == k0
        };
        let p = region_cell(region, k0);
        lemma_region_cell(region, k0);
        lemma_candidates(g, p.0, p.1);
        assert(candidates(g, p.0, p.1).contains(num as u8));
        assert forall|s: Grid| is_solution(s, g) implies cell(s, p.0, p.1) == Some(num as u8) by {
            lemma_region_holds_digit(s, region, num);
            let i = choose|i: int| 0 <= i < 9 && #[trigger] cell(s, region_cell(region, i).0, region_cell(region, i).1) == Some(num as u8);
            let q = region_cell(region, i);
            lemma_region_cell(region, i);
            if cell(g, q.0, q.1) is Some {
                assert(cell(g, q.0, q.1) == Some(num as u8));
                assert(peers(p.0, p.1, q.0, q.1));
                assert(seen(g, p.0, p.1, num as u8));
            } else {
                lemma_solution_value_is_candidate(s, g, q.0, q.1);
                lemma_candidates(g, q.0, q.1);
                assert(candidates(g, q.0, q.1).contains(num as u8));
                assert(hidden_hit(g, region, num, i));
            }
        }
        lemma_fill_refines(g, p.0, p.1, num as u8);
    } else {
        assert(!grew(g, g));
    }
}

pub proof fn lemma_hidden_nums(g: Grid, region: int, n: int)
    requires
        0 <= region < 9,
        n <= 10,
    ensures
        refines(g, hidden_nums(g, region, n)),
    decreases n,
{
    if n <= 1 {
        lemma_refines_refl(g);
    } else {
        lemma_hidden_nums(g, region, n - 1);
        lemma_hidden_step(hidden_nums(g, region, n - 1), region, n - 1);
        lemma_refines_trans(g, hidden_nums(g, region, n - 1), hidden_nums(g, region, n));
    }
}

pub proof fn lemma_hidden_regions(g: Grid, region: int)
    requires
        region <= 9,
    ensures
        refines(g, hidden_regions(g, region)),
    decreases region,
{
    if region <= 0 {
        lemma_refines_refl(g);
    } else {
        lemma_hidden_regions(g, region - 1);
        lemma_hidden_nums(hidden_regions(g, region - 1), region - 1, 10);
        lemma_refines_trans(g, hidden_regions(g, region - 1), hidden_regions(g, region));
    }
}

pub proof fn lemma_logic_round(g: Grid)
    ensures
        refines(g, logic_round(g)),
{
    lemma_naked_rows(g, 9);
    lemma_hidden_regions(naked_pass(g), 9);
    lemma_refines_trans(g, naked_pass(g), logic_round(g));
}

pub proof fn lemma_logic_rounds(g: Grid, fuel: nat)
    ensures
        refines(g, logic_rounds(g, fuel)),
    decreases fuel,
{
    if fuel == 0 || logic_round(g) == g {
        lemma_refines_refl(g);
    } else {
        lemma_logic_round(g);
        lemma_logic_rounds(logic_round(g), (fuel - 1) as nat);
        lemma_refines_trans(g, logic_round(g), logic_rounds(g, fuel));
    }
}

/// The deductive solver only fills empty cells, never creates a conflict or a
/// non-digit, and never rules out a solution: every solution of the board it
/// starts from is a solution of the board it ends with, and (as that board keeps
/// every given) the other way round.
pub proof fn lemma_logic_solve_sound(g: Grid)
    ensures
        refines(g, logic_solve(g)),
        forall|s: Grid| is_solution(s, g) <==> #[trigger] is_solution(s, logic_solve(g)),
        consistent(g) && digits(g) && complete(logic_solve(g)) ==> is_solution(logic_solve(g), g),
{
    lemma_logic_rounds(g, 100);
    let h = logic_solve(g);
    assert forall|s: Grid| is_solution(s, g) <==> #[trigger] is_solution(s, h) by {
        if is_solution(s, h) {
            crate::search::lemma_extends_trans(s, h, g);
        }
    }
}

} // verus!
