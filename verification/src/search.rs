//! The depth-first search over candidates that the backtracking solvers run,
//! as a sequence of the full boards it reaches, and how those boards relate
//! to the solutions of a board.
use vstd::prelude::*;
use crate::grid::{
    Grid, cell, set_cell, in_grid, peers, seen, is_candidate, candidates, complete, digits,
    consistent, extends, is_solution, has_solution, unique_solution, first_empty, empties,
    lemma_set_cell, lemma_grid_ext, lemma_candidates, lemma_empties_fill, lemma_first_empty,
};

verus! {

/// The full boards that a depth-first search reaches from `g`, in the order it
/// reaches them: it fills the first empty cell with each candidate in increasing
/// order and searches on; a full board is reached as it is.
pub open spec fn leaves(g: Grid) -> Seq<Grid>
    decreases empties(g), 10nat,
{
    if complete(g) {
        seq![g]
    } else {
        let p = first_empty(g);
        proof {
            lemma_candidates(g, p.0, p.1);
        }
        leaves_over(g, p.0, p.1, candidates(g, p.0, p.1))
    }
}

/// The full boards reached by filling the empty cell (`r`, `c`) with each value
/// of `cs` in turn.
pub open spec fn leaves_over(g: Grid, r: int, c: int, cs: Seq<u8>) -> Seq<Grid>
    decreases empties(g), cs.len(),
{
    if cs.len() == 0 || !in_grid(r, c) || cell(g, r, c) is Some {
        seq![]
    } else {
        proof {
            lemma_empties_fill(g, r, c, cs[0]);
        }
        leaves(set_cell(g, r, c, Some(cs[0]))) + leaves_over(g, r, c, cs.drop_first())
    }
}

/// The number of full boards the search reaches from `g`.
pub open spec fn count_leaves(g: Grid) -> nat {
    leaves(g).len()
}

// ---------------------------------------------------------------- lemmas

pub proof fn lemma_extends_trans(a: Grid, b: Grid, c: Grid)
    requires
        extends(a, b),
        extends(b, c),
    ensures
        extends(a, c),
{
}

pub proof fn lemma_extends_refl(a: Grid)
    ensures
        extends(a, a),
{
}

/// Putting a candidate into an empty cell keeps the board free of conflicts
/// and of non-digits, and keeps every filled cell.
pub proof fn lemma_place_candidate(g: Grid, r: int, c: int, v: u8)
    requires
        in_grid(r, c),
        cell(g, r, c) is None,
        is_candidate(g, r, c, v as int),
    ensures
        extends(set_cell(g, r, c, Some(v)), g),
        consistent(g) ==> consistent(set_cell(g, r, c, Some(v))),
        digits(g) ==> digits(set_cell(g, r, c, Some(v))),
{
    let h = set_cell(g, r, c, Some(v));
    lemma_set_cell(g, r, c, Some(v));
    if consistent(g) {
        assert forall|r1: int, c1: int, r2: int, c2: int|
            #![trigger cell(h, r1, c1), cell(h, r2, c2)]
            in_grid(r1, c1) && in_grid(r2, c2) && peers(r1, c1, r2, c2) && (r1 != r2 || c1 != c2)
                && cell(h, r1, c1) is Some implies cell(h, r1, c1) != cell(h, r2, c2) by {
            if r1 == r && c1 == c {
                if cell(h, r2, c2) == Some(v) {
                    assert(peers(r, c, r2, c2) && in_grid(r2, c2) && cell(g, r2, c2) == Some(v));
                }
            } else if r2 == r && c2 == c {
                if cell(h, r1, c1) == Some(v) {
                    assert(peers(r, c, r1, c1) && in_grid(r1, c1) && cell(g, r1, c1) == Some(v));
                }
            } else {
                assert(cell(g, r1, c1) == cell(h, r1, c1));
                assert(cell(g, r2, c2) == cell(h, r2, c2));
            }
        }
    }
    if digits(g) {
        assert forall|i: int, j: int| in_grid(i, j) && (#[trigger] cell(h, i, j)) is Some
            implies 1 <= cell(h, i, j)->0 <= 9 by {
            if i != r || j != c {
                assert(cell(g, i, j) == cell(h, i, j));
            }
        }
    }
}

/// What a solution holds in an empty cell of the board is a candidate there.
pub proof fn lemma_solution_value_is_candidate(s: Grid, g: Grid, r: int, c: int)
    requires
        is_solution(s, g),
        in_grid(r, c),
        cell(g, r, c) is None,
    ensures
        cell(s, r, c) is Some,
        is_candidate(g, r, c, cell(s, r, c)->0 as int),
{
    let v = cell(s, r, c)->0;
    assert(cell(s, r, c) is Some);
    if seen(g, r, c, v) {
        let (i, j) = choose|i: int, j: int|
            #[trigger] peers(r, c, i, j) && in_grid(i, j) && cell(g, i, j) == Some(v);
        assert(cell(s, i, j) == Some(v));
        assert(cell(s, r, c) != cell(s, i, j));
    }
}

/// A solution of `g` holding `v` at (`r`, `c`) is a solution of `g` with `v` put there.
pub proof fn lemma_solution_of_set(s: Grid, g: Grid, r: int, c: int, v: u8)
    requires
        is_solution(s, g),
        in_grid(r, c),
        cell(s, r, c) == Some(v),
    ensures
        is_solution(s, set_cell(g, r, c, Some(v))),
{
    lemma_set_cell(g, r, c, Some(v));
    let h = set_cell(g, r, c, Some(v));
    assert forall|i: int, j: int| in_grid(i, j) && (#[trigger] cell(h, i, j)) is Some
        implies cell(s, i, j) == cell(h, i, j) by {
        if i != r || j != c {
            assert(cell(g, i, j) == cell(h, i, j));
        }
    }
}

/// A full board that keeps every cell of a full board is that board.
pub proof fn lemma_extends_complete(s: Grid, g: Grid)
    requires
        complete(g),
        extends(s, g),
    ensures
        s == g,
{
    assert forall|i: int, j: int| in_grid(i, j) implies #[trigger] cell(s, i, j) == cell(g, i, j) by {
        assert(cell(g, i, j) is Some);
    }
    lemma_grid_ext(s, g);
}

/// What the search reaches from `g`: full boards that keep `g`, free of conflicts
/// and of non-digits where `g` is; among them every solution of `g`; none twice.
pub proof fn lemma_leaves(g: Grid)
    ensures
        forall|k: int| 0 <= k < leaves(g).len() ==> {
            &&& complete(#[trigger] leaves(g)[k])
            &&& extends(leaves(g)[k], g)
            &&& consistent(g) ==> consistent(leaves(g)[k])
            &&& digits(g) ==> digits(leaves(g)[k])
        },
        forall|s: Grid| is_solution(s, g) ==> #[trigger] leaves(g).contains(s),
        leaves(g).no_duplicates(),
    decreases empties(g), 10nat,
{
    if complete(g) {
        lemma_extends_refl(g);
        assert forall|s: Grid| is_solution(s, g) implies #[trigger] leaves(g).contains(s) by {
            lemma_extends_complete(s, g);
            assert(leaves(g)[0] == s);
        }
    } else {
        lemma_first_empty(g);
        let p = first_empty(g);
        lemma_candidates(g, p.0, p.1);
        let cs = candidates(g, p.0, p.1);
        lemma_leaves_over(g, p.0, p.1, cs);
        assert forall|s: Grid| is_solution(s, g) implies #[trigger] leaves(g).contains(s) by {
            lemma_solution_value_is_candidate(s, g, p.0, p.1);
            assert(cs.contains(cell(s, p.0, p.1)->0));
        }
    }
}

pub proof fn lemma_leaves_over(g: Grid, r: int, c: int, cs: Seq<u8>)
    requires
        in_grid(r, c),
        cell(g, r, c) is None,
        forall|i: int| 0 <= i < cs.len() ==> is_candidate(g, r, c, #[trigger] cs[i] as int),
        cs.no_duplicates(),
    ensures
        forall|k: int| 0 <= k < leaves_over(g, r, c, cs).len() ==> {
            &&& complete(#[trigger] leaves_over(g, r, c, cs)[k])
            &&& extends(leaves_over(g, r, c, cs)[k], g)
            &&& consistent(g) ==> consistent(leaves_over(g, r, c, cs)[k])
            &&& digits(g) ==> digits(leaves_over(g, r, c, cs)[k])
            &&& cell(leaves_over(g, r, c, cs)[k], r, c) is Some
            &&& cs.contains(cell(leaves_over(g, r, c, cs)[k], r, c)->0)
        },
        forall|s: Grid| is_solution(s, g) && cell(s, r, c) is Some && cs.contains(cell(s, r, c)->0)
            ==> #[trigger] leaves_over(g, r, c, cs).contains(s),
        leaves_over(g, r, c, cs).no_duplicates(),
    decreases empties(g), cs.len(),
{
    if cs.len() > 0 {
        let v = cs[0];
        let h = set_cell(g, r, c, Some(v));
        lemma_empties_fill(g, r, c, v);
        lemma_set_cell(g, r, c, Some(v));
        lemma_place_candidate(g, r, c, v);
        lemma_leaves(h);
        let rest = cs.drop_first();
        assert forall|i: int| 0 <= i < rest.len() implies is_candidate(g, r, c, #[trigger] rest[i] as int) by {
            assert(rest[i] == cs[i + 1]);
        }
        lemma_leaves_over(g, r, c, rest);
        let a = leaves(h);
        let b = leaves_over(g, r, c, rest);
        let all = leaves_over(g, r, c, cs);
        assert(all == a + b);
        assert forall|k: int| 0 <= k < all.len() implies {
            &&& complete(#[trigger] all[k])
            &&& extends(all[k], g)
            &&& consistent(g) ==> consistent(all[k])
            &&& digits(g) ==> digits(all[k])
            &&& cell(all[k], r, c) is Some
            &&& cs.contains(cell(all[k], r, c)->0)
        } by {
            if k < a.len() {
                assert(all[k] == a[k]);
                lemma_extends_trans(a[k], h, g);
                assert(cell(h, r, c) == Some(v));
                assert(cs[0] == v);
            } else {
                assert(all[k] == b[k - a.len()]);
                let w = cell(b[k - a.len()], r, c)->0;
                let idx = choose|idx: int| 0 <= idx < rest.len() && rest[idx] == w;
                assert(cs[idx + 1] == w);
            }
        }
        assert forall|s: Grid| is_solution(s, g) && cell(s, r, c) is Some && cs.contains(cell(s, r, c)->0)
            implies #[trigger] all.contains(s) by {
            let w = cell(s, r, c)->0;
            if w == v {
                lemma_solution_of_set(s, g, r, c, v);
                assert(a.contains(s));
                let idx = choose|idx: int| 0 <= idx < a.len() && a[idx] == s;
                assert(all[idx] == s);
            } else {
                let idx = choose|idx: int| 0 <= idx < cs.len() && cs[idx] == w;
                assert(idx != 0);
                assert(rest[idx - 1] == w);
                assert(rest.contains(w));
                assert(b.contains(s));
                let j = choose|j: int| 0 <= j < b.len() && b[j] == s;
                assert(all[a.len() + j] == s);
            }
        }
        assert forall|i: int, j: int| 0 <= i < all.len() && 0 <= j < all.len() && i != j
            implies all[i] != all[j] by {
            if i < a.len() && j < a.len() {
                assert(a[i] != a[j]);
            } else if i >= a.len() && j >= a.len() {
                assert(b[i - a.len()] != b[j - a.len()]);
            } else {
                let (x, y) = if i < a.len() { (i, j) } else { (j, i) };
                assert(cell(all[x], r, c) == Some(v));
                let w = cell(all[y], r, c)->0;
                assert(all[y] == b[y - a.len()]);
                let idx = choose|idx: int| 0 <= idx < rest.len() && rest[idx] == w;
                assert(cs[idx + 1] == w);
                assert(w != v);
            }
        }
    }
}

/// For a board free of conflicts and of non-digits, the boards the search
/// reaches are exactly its solutions, each once.
pub proof fn lemma_leaves_are_solutions(g: Grid)
    requires
        consistent(g),
        digits(g),
    ensures
        forall|s: Grid| #[trigger] leaves(g).contains(s) <==> is_solution(s, g),
        leaves(g).no_duplicates(),
        has_solution(g) <==> count_leaves(g) > 0,
        unique_solution(g) <==> count_leaves(g) == 1,
{
    lemma_leaves(g);
    let l = leaves(g);
    assert forall|s: Grid| #[trigger] l.contains(s) implies is_solution(s, g) by {
        let k = choose|k: int| 0 <= k < l.len() && l[k] == s;
        assert(complete(l[k]));
    }
    if count_leaves(g) > 0 {
        assert(l.contains(l[0]));
        assert(is_solution(l[0], g));
    }
    if has_solution(g) {
        let s = choose|s: Grid| is_solution(s, g);
        assert(l.contains(s));
    }
    if count_leaves(g) == 1 {
        assert(l.contains(l[0]));
        assert forall|s1: Grid, s2: Grid| is_solution(s1, g) && is_solution(s2, g) implies s1 == s2 by {
            assert(l.contains(s1));
            assert(l.contains(s2));
        }
    }
    if unique_solution(g) {
        assert(count_leaves(g) > 0);
        if count_leaves(g) > 1 {
            assert(l.contains(l[0]));
            assert(l.contains(l[1]));
            assert(l[0] != l[1]);
        }
    }
}

/// The search over the values `cs` of an empty cell reaches nothing exactly when
/// it reaches nothing from any of them.
pub proof fn lemma_leaves_over_empty(g: Grid, r: int, c: int, cs: Seq<u8>)
    requires
        in_grid(r, c),
        cell(g, r, c) is None,
    ensures
        leaves_over(g, r, c, cs).len() == 0 <==> forall|i: int| 0 <= i < cs.len()
            ==> #[trigger] leaves(set_cell(g, r, c, Some(cs[i]))).len() == 0,
    decreases cs.len(),
{
    if cs.len() > 0 {
        let rest = cs.drop_first();
        lemma_leaves_over_empty(g, r, c, rest);
        if leaves_over(g, r, c, cs).len() == 0 {
            assert forall|i: int| 0 <= i < cs.len() implies #[trigger] leaves(set_cell(g, r, c, Some(cs[i]))).len() == 0 by {
                if i > 0 {
                    assert(cs[i] == rest[i - 1]);
                    assert(leaves(set_cell(g, r, c, Some(rest[i - 1]))).len() == 0);
                }
            }
        } else {
            if leaves(set_cell(g, r, c, Some(cs[0]))).len() == 0 {
                let i = choose|i: int| 0 <= i < rest.len() && #[trigger] leaves(set_cell(g, r, c, Some(rest[i]))).len() != 0;
                assert(cs[i + 1] == rest[i]);
                assert(leaves(set_cell(g, r, c, Some(cs[i + 1]))).len() != 0);
            }
        }
    }
}

/// Every board reached from an empty cell filled with a value of `cs` is reached
/// by the search over `cs`.
pub proof fn lemma_leaves_over_member(g: Grid, r: int, c: int, cs: Seq<u8>, v: u8, x: Grid)
    requires
        in_grid(r, c),
        cell(g, r, c) is None,
        cs.contains(v),
        leaves(set_cell(g, r, c, Some(v))).contains(x),
    ensures
        leaves_over(g, r, c, cs).contains(x),
    decreases cs.len(),
{
    let a = leaves(set_cell(g, r, c, Some(cs[0])));
    let rest = cs.drop_first();
    let b = leaves_over(g, r, c, rest);
    assert(leaves_over(g, r, c, cs) == a + b);
    if cs[0] == v {
        let k = choose|k: int| 0 <= k < a.len() && a[k] == x;
        assert((a + b)[k] == x);
    } else {
        let i = choose|i: int| 0 <= i < cs.len() && cs[i] == v;
        assert(rest[i - 1] == v);
        lemma_leaves_over_member(g, r, c, rest, v, x);
        let k = choose|k: int| 0 <= k < b.len() && b[k] == x;
        assert((a + b)[a.len() + k] == x);
    }
}

/// The value of the fixed full board used to show that the empty board has a solution.
pub open spec fn pattern_value(r: int, c: int) -> u8 {
    ((3 * r + r / 3 + c) % 9 + 1) as u8
}

pub open spec fn empty_board() -> Grid {
    vstd::array::spec_array_fill_for_copy_type::<[Option<u8>; 9], 9>(
        vstd::array::spec_array_fill_for_copy_type::<Option<u8>, 9>(None),
    )
}

/// The pattern board with its first `k` cells (row-major) filled, the others empty.
pub open spec fn pattern_upto(k: int) -> Grid
    decreases k,
{
    if k <= 0 {
        empty_board()
    } else {
        set_cell(pattern_upto(k - 1), (k - 1) / 9, (k - 1) % 9, Some(pattern_value((k - 1) / 9, (k - 1) % 9)))
    }
}

proof fn lemma_pattern_upto(k: int)
    requires
        0 <= k <= 81,
    ensures
        forall|r: int, c: int| in_grid(r, c) ==> #[trigger] cell(pattern_upto(k), r, c)
            == if r * 9 + c < k { Some(pattern_value(r, c)) } else { None },
    decreases k,
{
    broadcast use vstd::array::group_array_axioms;
    if k == 0 {
        assert forall|r: int, c: int| in_grid(r, c) implies #[trigger] cell(pattern_upto(k), r, c) == None::<u8> by {
            let row = vstd::array::spec_array_fill_for_copy_type::<Option<u8>, 9>(None);
            assert(empty_board()@[r] == row);
            assert(empty_board()[r] == row);
            assert(row@[c] == None::<u8>);
        }
    } else {
        lemma_pattern_upto(k - 1);
        let r0 = (k - 1) / 9;
        let c0 = (k - 1) % 9;
        lemma_set_cell(pattern_upto(k - 1), r0, c0, Some(pattern_value(r0, c0)));
        assert forall|r: int, c: int| in_grid(r, c) implies #[trigger] cell(pattern_upto(k), r, c)
            == if r * 9 + c < k { Some(pattern_value(r, c)) } else { None } by {
            if r == r0 && c == c0 {
                assert(r * 9 + c == k - 1);
            } else {
                assert(r * 9 + c != k - 1);
            }
        }
    }
}

proof fn lemma_pattern_bv(r1: u32, c1: u32, r2: u32, c2: u32)
    by (bit_vector)
    requires
        r1 < 9u32,
        c1 < 9u32,
        r2 < 9u32,
        c2 < 9u32,
        r1 == r2 || c1 == c2 || (r1 / 3 == r2 / 3 && c1 / 3 == c2 / 3),
        r1 != r2 || c1 != c2,
    ensures
        ((3 * r1 + r1 / 3 + c1) as u32) % 9 != ((3 * r2 + r2 / 3 + c2) as u32) % 9,
{
}

/// The empty board has a solution.
pub proof fn lemma_empty_board_solvable()
    ensures
        has_solution(empty_board()),
        consistent(empty_board()),
        digits(empty_board()),
        forall|r: int, c: int| in_grid(r, c) ==> #[trigger] cell(empty_board(), r, c) is None,
{
    lemma_pattern_upto(0);
    lemma_pattern_upto(81);
    let s = pattern_upto(81);
    assert forall|r1: int, c1: int, r2: int, c2: int|
        #![trigger cell(s, r1, c1), cell(s, r2, c2)]
        in_grid(r1, c1) && in_grid(r2, c2) && peers(r1, c1, r2, c2) && (r1 != r2 || c1 != c2)
            && cell(s, r1, c1) is Some implies cell(s, r1, c1) != cell(s, r2, c2) by {
        lemma_pattern_bv(r1 as u32, c1 as u32, r2 as u32, c2 as u32);
    }
    assert(is_solution(s, empty_board()));
}

} // verus!
