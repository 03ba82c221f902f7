//! The decoder and the solving pipeline: from a grid of givens to the
//! constraint clauses, through the SAT engine, and back to a full grid.

use vstd::prelude::*;
use crate::codec::col_of;
use crate::codec::decode;
use crate::codec::digit_of;
use crate::codec::encode;
use crate::codec::lemma_decode_encode;
use crate::codec::lemma_encode_decode;
use crate::codec::row_of;
use crate::codec::valid_triple;
use crate::codec::var_id;
use crate::formula::clause_sat;
use crate::formula::conflicting_vars;
use crate::formula::constraint_clause;
use crate::formula::coverage_clause;
use crate::formula::formula_sat;
use crate::formula::extends;
use crate::formula::has_coverage;
use crate::formula::has_pair;
use crate::formula::has_unit;
use crate::formula::is_pair_clause;
use crate::formula::lemma_constraints_persist;
use crate::formula::lemma_persist;
use crate::formula::lit_sat;
use crate::formula::neg_lit;
use crate::formula::pos_lit;
use crate::formula::same_block;
use crate::formula::sudoku_constraints;
use crate::formula::sudoku_formula;
use crate::formula::lemma_extends_trans;
use crate::formula::push_unit;
use crate::formula::vars_ok;
use crate::formula::Lit;
use vstd::relations::injective_on;
use vstd::set_lib::lemma_int_range;
use vstd::set_lib::lemma_len_subset;
use vstd::set_lib::lemma_map_size;
use vstd::set_lib::set_int_range;
use crate::grid::Grid;
use crate::sat::run_sat_solver;

verus! {

/// An internal consistency failure of the decoder: the model gives one
/// cell two digits, or leaves a cell without one.
#[derive(Clone, Copy, Debug, PartialEq, Eq)]
pub enum DecodeError {
    /// Two positive literals name the same cell with different digits.
    Conflict,
    /// A cell received no digit from the model.
    Unfilled,
}

/// A failed solve.
#[derive(Clone, Copy, Debug, PartialEq, Eq)]
pub enum SolveError {
    /// The puzzle has no completion; an ordinary outcome, not a fault.
    Unsatisfiable,
    /// The model broke the decoder's consistency check; proved never to
    /// happen for the formula this library builds.
    Internal(DecodeError),
}

/// The cell holds exactly this digit.
pub open spec fn is_digit(oc: Option<u8>, d: int) -> bool {
    match oc {
        Some(x) => x == d,
        None => false,
    }
}

/// The model makes the cell's digit-d variable true.
pub open spec fn model_digit(m: Seq<bool>, r: int, c: int, d: int) -> bool {
    m[var_id(r, c, d)]
}

/// The model asserts two distinct digits for the cell.
pub open spec fn cell_has_two(m: Seq<bool>, r: int, c: int) -> bool {
    exists|a: int, b: int|
        0 <= a < b < 9 && #[trigger] model_digit(m, r, c, a) && #[trigger] model_digit(m, r, c, b)
}

/// The model asserts no digit for the cell.
pub open spec fn cell_has_none(m: Seq<bool>, r: int, c: int) -> bool {
    forall|d: int| 0 <= d < 9 ==> !#[trigger] model_digit(m, r, c, d)
}

pub open spec fn some_cell_two(m: Seq<bool>) -> bool {
    exists|r: int, c: int| 0 <= r < 9 && 0 <= c < 9 && #[trigger] cell_has_two(m, r, c)
}

pub open spec fn some_cell_none(m: Seq<bool>) -> bool {
    exists|r: int, c: int| 0 <= r < 9 && 0 <= c < 9 && #[trigger] cell_has_none(m, r, c)
}

/// The grid holds a digit exactly where the model asserts it.
pub open spec fn grid_matches_model(g: Grid, m: Seq<bool>) -> bool {
    forall|r: int, c: int, d: int|
        valid_triple(r, c, d) ==> (#[trigger] is_digit(g.cell(r, c), d) <==> model_digit(m, r, c, d))
}

/// Reconstructs a grid from a satisfying assignment: every variable the
/// model makes true sets its cell to its digit.  A cell set twice with
/// different digits, or never set, is an internal consistency failure.
pub fn decode_model(m: &Vec<bool>) -> (res: Result<Grid, DecodeError>)
    requires
        m@.len() == 729,
    ensures
        res is Ok <==> (!some_cell_two(m@) && !some_cell_none(m@)),
        res matches Ok(g) ==> g.wf() && g.filled() && grid_matches_model(g, m@),
        res == Err::<Grid, DecodeError>(DecodeError::Conflict) <==> some_cell_two(m@),
        res == Err::<Grid, DecodeError>(DecodeError::Unfilled) <==> (!some_cell_two(m@)
            && some_cell_none(m@)),
{
    let mut cells: Vec<Option<u8>> = Vec::new();
    let mut k: usize = 0;
    while k < 81
        invariant
            k <= 81,
            cells@.len() == k,
            forall|j: int| 0 <= j < k ==> (#[trigger] cells@[j]) is None,
        decreases 81 - k,
    {
        cells.push(None);
        k += 1;
    }
    let mut id: usize = 0;
    while id < 729
        invariant
            id <= 729,
            m@.len() == 729,
            cells@.len() == 81,
            forall|r: int, c: int, d: int|
                valid_triple(r, c, d) && var_id(r, c, d) < id && #[trigger] model_digit(m@, r, c, d)
                    ==> cells@[r * 9 + c] == Some(d as u8),
            forall|r: int, c: int|
                0 <= r < 9 && 0 <= c < 9 ==> ((#[trigger] cells@[r * 9 + c]) matches Some(dd) ==> (
                dd < 9 && var_id(r, c, dd as int) < id && model_digit(m@, r, c, dd as int))),
        decreases 729 - id,
    {
        if m[id] {
            let (r, c, d) = decode(id);
            let j = r * 9 + c;
            let here = cells[j];
            match here {
                Some(prev) => {
                    if prev as usize != d {
                        proof {
                            let a = if (prev as int) < (d as int) {
                                prev as int
                            } else {
                                d as int
                            };
                            let b = if (prev as int) < (d as int) {
                                d as int
                            } else {
                                prev as int
                            };
                            assert(model_digit(m@, r as int, c as int, prev as int));
                            assert(model_digit(m@, r as int, c as int, d as int));
                            assert(cell_has_two(m@, r as int, c as int));
                        }
                        return Err(DecodeError::Conflict);
                    }
                    proof {
                        assert(var_id(r as int, c as int, prev as int) < id);
                        assert(false);
                    }
                },
                None => {
                    cells.set(j, Some(d as u8));
                    proof {
                        assert forall|rr: int, cc: int, dd: int|
                            valid_triple(rr, cc, dd) && var_id(rr, cc, dd) < id + 1
                                && #[trigger] model_digit(m@, rr, cc, dd) implies cells@[rr * 9
                            + cc] == Some(dd as u8) by {
                            if var_id(rr, cc, dd) < id {
                                if rr * 9 + cc == r * 9 + c {
                                    assert(rr == r && cc == c);
                                }
                            } else {
                                crate::codec::lemma_var_id_injective(
                                    rr,
                                    cc,
                                    dd,
                                    r as int,
                                    c as int,
                                    d as int,
                                );
                            }
                        }
                    }
                },
            }
        }
        id += 1;
    }
    proof {
        assert forall|r: int, c: int| 0 <= r < 9 && 0 <= c < 9 implies !cell_has_two(
            m@,
            r,
            c,
        ) by {
            if cell_has_two(m@, r, c) {
                let (a, b) = choose|a: int, b: int|
                    0 <= a < b < 9 && #[trigger] model_digit(m@, r, c, a) && #[trigger] model_digit(
                        m@,
                        r,
                        c,
                        b,
                    );
                lemma_decode_encode(r, c, a);
                lemma_decode_encode(r, c, b);
                assert(cells@[r * 9 + c] == Some(a as u8));
                assert(cells@[r * 9 + c] == Some(b as u8));
            }
        }
        assert(!some_cell_two(m@));
    }
    let ghost done = cells@;
    let mut j: usize = 0;
    while j < 81
        invariant
            j <= 81,
            m@.len() == 729,
            cells@.len() == 81,
            cells@ == done,
            !some_cell_two(m@),
            forall|r: int, c: int, d: int|
                valid_triple(r, c, d) && #[trigger] model_digit(m@, r, c, d) ==> cells@[r * 9 + c]
                    == Some(d as u8),
            forall|r: int, c: int|
                0 <= r < 9 && 0 <= c < 9 ==> ((#[trigger] cells@[r * 9 + c]) matches Some(dd) ==> (
                dd < 9 && model_digit(m@, r, c, dd as int))),
            forall|t: int| 0 <= t < j ==> (#[trigger] cells@[t]) is Some,
        decreases 81 - j,
    {
        let slot = cells[j];
        if slot.is_none() {
            proof {
                let r = j as int / 9;
                let c = j as int % 9;
                assert(r * 9 + c == j);
                assert forall|d: int| 0 <= d < 9 implies !#[trigger] model_digit(m@, r, c, d) by {
                    if model_digit(m@, r, c, d) {
                        assert(cells@[r * 9 + c] == Some(d as u8));
                    }
                }
                assert(cell_has_none(m@, r, c));
            }
            return Err(DecodeError::Unfilled);
        }
        j += 1;
    }
    let ghost cv = cells@;
    proof {
        assert forall|i: int| 0 <= i < 81 implies ((#[trigger] cv[i]) matches Some(d) ==> d
            < 9) by {
            let r = i / 9;
            let c = i % 9;
            assert(r * 9 + c == i);
            assert(0 <= r < 9 && 0 <= c < 9);
            assert(cv[r * 9 + c] matches Some(dd) ==> dd < 9);
        }
    }
    let g = Grid::from_cells(cells);
    proof {
        assert forall|r: int, c: int| 0 <= r < 9 && 0 <= c < 9 implies !cell_has_none(
            m@,
            r,
            c,
        ) by {
            assert(cv[r * 9 + c] is Some);
            let dd = cv[r * 9 + c].unwrap();
            assert(model_digit(m@, r, c, dd as int));
        }
        assert(!some_cell_none(m@));
        assert forall|r: int, c: int, d: int| valid_triple(r, c, d) implies (#[trigger] is_digit(
            g.cell(r, c),
            d,
        ) <==> model_digit(m@, r, c, d)) by {
            if model_digit(m@, r, c, d) {
                assert(g.cell(r, c) == Some(d as u8));
            }
            if is_digit(g.cell(r, c), d) {
                assert(g.cell(r, c) matches Some(dd) && dd == d);
            }
        }
    }
    Ok(g)
}

/// Under the constraint set, a satisfying assignment gives every cell
/// exactly one digit.
pub proof fn lemma_model_consistent(m: Seq<bool>, f: Seq<Vec<Lit>>)
    requires
        m.len() == 729,
        sudoku_constraints(f),
        formula_sat(m, f),
    ensures
        !some_cell_two(m),
        !some_cell_none(m),
{
    assert forall|r: int, c: int| 0 <= r < 9 && 0 <= c < 9 implies !cell_has_two(m, r, c)
        && !cell_has_none(m, r, c) by {
        if cell_has_two(m, r, c) {
            let (a, b) = choose|a: int, b: int|
                0 <= a < b < 9 && #[trigger] model_digit(m, r, c, a) && #[trigger] model_digit(
                    m,
                    r,
                    c,
                    b,
                );
            lemma_decode_encode(r, c, a);
            lemma_decode_encode(r, c, b);
            assert(has_pair(f, neg_lit(var_id(r, c, a)), neg_lit(var_id(r, c, b))));
            let i = choose|i: int|
                0 <= i < f.len() && is_pair_clause(
                    #[trigger] f[i]@,
                    neg_lit(var_id(r, c, a)),
                    neg_lit(var_id(r, c, b)),
                );
            assert(clause_sat(m, f[i]@));
            let k = choose|k: int| 0 <= k < f[i]@.len() && lit_sat(m, f[i]@[k]);
            assert(k == 0 || k == 1);
            assert(false);
        }
        assert(has_coverage(f, r, c));
        let i = choose|i: int| 0 <= i < f.len() && #[trigger] f[i]@ == coverage_clause(r, c);
        assert(clause_sat(m, f[i]@));
        let k = choose|k: int| 0 <= k < f[i]@.len() && lit_sat(m, f[i]@[k]);
        assert(f[i]@[k] == pos_lit(var_id(r, c, k)));
        lemma_decode_encode(r, c, k);
        assert(model_digit(m, r, c, k));
        assert(!cell_has_none(m, r, c));
    }
}

/// The digit a cell holds, or -1 for an empty cell.
spec fn cell_digit(oc: Option<u8>) -> int {
    match oc {
        Some(x) => x as int,
        None => -1,
    }
}

/// The row contains the digit somewhere.
pub open spec fn row_contains(g: Grid, r: int, d: int) -> bool {
    exists|c: int| 0 <= c < 9 && #[trigger] is_digit(g.cell(r, c), d)
}

/// The column contains the digit somewhere.
pub open spec fn col_contains(g: Grid, c: int, d: int) -> bool {
    exists|r: int| 0 <= r < 9 && #[trigger] is_digit(g.cell(r, c), d)
}

/// The 3x3 block with corner (3*br, 3*bc) contains the digit somewhere.
pub open spec fn block_contains(g: Grid, br: int, bc: int, d: int) -> bool {
    exists|r: int, c: int|
        3 * br <= r < 3 * br + 3 && 3 * bc <= c < 3 * bc + 3 && #[trigger] is_digit(
            g.cell(r, c),
            d,
        )
}

/// No digit appears twice in a row.
pub open spec fn row_at_most(g: Grid) -> bool {
    forall|r: int, c1: int, c2: int, d: int|
        0 <= r < 9 && 0 <= c1 < 9 && 0 <= c2 < 9 && c1 != c2 && 0 <= d < 9 ==> !(
        #[trigger] is_digit(g.cell(r, c1), d) && #[trigger] is_digit(g.cell(r, c2), d))
}

/// No digit appears twice in a column.
pub open spec fn col_at_most(g: Grid) -> bool {
    forall|r1: int, r2: int, c: int, d: int|
        0 <= r1 < 9 && 0 <= r2 < 9 && 0 <= c < 9 && r1 != r2 && 0 <= d < 9 ==> !(
        #[trigger] is_digit(g.cell(r1, c), d) && #[trigger] is_digit(g.cell(r2, c), d))
}

/// No digit appears twice in a block.
pub open spec fn block_at_most(g: Grid) -> bool {
    forall|r1: int, c1: int, r2: int, c2: int, d: int|
        0 <= r1 < 9 && 0 <= c1 < 9 && 0 <= r2 < 9 && 0 <= c2 < 9 && same_block(r1, c1, r2, c2)
            && !(r1 == r2 && c1 == c2) && 0 <= d < 9 ==> !(#[trigger] is_digit(g.cell(r1, c1), d)
            && #[trigger] is_digit(g.cell(r2, c2), d))
}

/// Every row, column and block holds every digit exactly once.
pub open spec fn valid_groups(g: Grid) -> bool {
    &&& (forall|r: int, d: int| 0 <= r < 9 && 0 <= d < 9 ==> #[trigger] row_contains(g, r, d))
    &&& (forall|c: int, d: int| 0 <= c < 9 && 0 <= d < 9 ==> #[trigger] col_contains(g, c, d))
    &&& (forall|br: int, bc: int, d: int|
        0 <= br < 3 && 0 <= bc < 3 && 0 <= d < 9 ==> #[trigger] block_contains(g, br, bc, d))
    &&& row_at_most(g)
    &&& col_at_most(g)
    &&& block_at_most(g)
}

/// Every cell filled in `before` keeps its digit in `after`.
pub open spec fn givens_preserved(before: Grid, after: Grid) -> bool {
    forall|r: int, c: int|
        0 <= r < 9 && 0 <= c < 9 && (#[trigger] before.cell(r, c)) is Some ==> after.cell(r, c)
            == before.cell(r, c)
}

/// Two cells of one row hold the same given digit.
pub open spec fn duplicate_given_in_row(g: Grid) -> bool {
    exists|r: int, c1: int, c2: int|
        #![auto]
        0 <= r < 9 && 0 <= c1 < c2 < 9 && g.cell(r, c1) is Some && g.cell(r, c1) == g.cell(r, c2)
}

/// The assignment a grid induces under the indexer: the variable of
/// (r, c, d) is true exactly when the grid holds digit d at (r, c).
pub open spec fn grid_model(g: Grid) -> Seq<bool> {
    Seq::new(729, |v: int| is_digit(g.cell(row_of(v), col_of(v)), digit_of(v)))
}

/// A unit clause asserting one given digit of the puzzle.
pub open spec fn is_given_unit(g: Grid, cl: Seq<Lit>) -> bool {
    exists|r: int, c: int, d: int|
        valid_triple(r, c, d) && #[trigger] is_digit(g.cell(r, c), d) && cl == seq![pos_lit(
            var_id(r, c, d),
        )]
}

/// Some full valid grid completes the puzzle's givens.
pub open spec fn has_completion(g: Grid) -> bool {
    exists|sol: Grid|
        #![auto]
        sol.wf() && sol.filled() && givens_preserved(g, sol) && valid_groups(sol)
}

/// A valid completion of the puzzle induces an assignment that satisfies
/// every constraint clause and every given-digit unit clause.
pub proof fn lemma_completion_satisfies(before: Grid, sol: Grid, f: Seq<Vec<Lit>>)
    requires
        sol.wf(),
        sol.filled(),
        givens_preserved(before, sol),
        valid_groups(sol),
        forall|i: int|
            0 <= i < f.len() ==> (constraint_clause(#[trigger] f[i]@) || is_given_unit(
                before,
                f[i]@,
            )),
    ensures
        grid_model(sol).len() == 729,
        formula_sat(grid_model(sol), f),
{
    let m = grid_model(sol);
    assert forall|r: int, c: int, d: int| valid_triple(r, c, d) implies (#[trigger] model_digit(
        m,
        r,
        c,
        d,
    ) == is_digit(sol.cell(r, c), d)) by {
        lemma_decode_encode(r, c, d);
    }
    assert forall|i: int| 0 <= i < f.len() implies clause_sat(m, #[trigger] f[i]@) by {
        let cl = f[i]@;
        if exists|r: int, c: int| 0 <= r < 9 && 0 <= c < 9 && cl == #[trigger] coverage_clause(
            r,
            c,
        ) {
            let (r, c) = choose|r: int, c: int|
                0 <= r < 9 && 0 <= c < 9 && cl == #[trigger] coverage_clause(r, c);
            assert(sol@[r * 9 + c] is Some);
            assert((sol@[r * 9 + c] matches Some(x) ==> x < 9));
            let dd = sol.cell(r, c).unwrap() as int;
            assert(is_digit(sol.cell(r, c), dd));
            assert(model_digit(m, r, c, dd));
            lemma_decode_encode(r, c, dd);
            assert(cl[dd] == pos_lit(var_id(r, c, dd)));
            assert(lit_sat(m, cl[dd]));
            assert(clause_sat(m, cl));
        } else if constraint_clause(cl) {
            let (v1, v2) = choose|v1: int, v2: int|
                0 <= v1 < 729 && 0 <= v2 < 729 && #[trigger] conflicting_vars(v1, v2) && cl
                    == seq![neg_lit(v1), neg_lit(v2)];
            let r1 = row_of(v1);
            let c1 = col_of(v1);
            let d1 = digit_of(v1);
            let r2 = row_of(v2);
            let c2 = col_of(v2);
            let d2 = digit_of(v2);
            lemma_encode_decode(v1);
            lemma_encode_decode(v2);
            if is_digit(sol.cell(r1, c1), d1) && is_digit(sol.cell(r2, c2), d2) {
                if r1 == r2 && c1 == c2 {
                    assert(d1 == d2);
                    assert(v1 == v2);
                } else {
                    assert(d1 == d2);
                    assert(is_digit(sol.cell(r2, c2), d1));
                    assert(!(r1 == r2 && c1 == c2));
                }
                assert(false);
            }
            if !is_digit(sol.cell(r1, c1), d1) {
                assert(model_digit(m, r1, c1, d1) == false);
                assert(cl[0] == neg_lit(v1));
                assert(lit_sat(m, cl[0]));
            } else {
                assert(model_digit(m, r2, c2, d2) == false);
                assert(cl[1] == neg_lit(v2));
                assert(lit_sat(m, cl[1]));
            }
            assert(clause_sat(m, cl));
        } else {
            let (r, c, d) = choose|r: int, c: int, d: int|
                valid_triple(r, c, d) && #[trigger] is_digit(before.cell(r, c), d) && cl == seq![
                    pos_lit(var_id(r, c, d)),
                ];
            assert(before.cell(r, c) is Some);
            assert(sol.cell(r, c) == before.cell(r, c));
            assert(is_digit(sol.cell(r, c), d));
            assert(model_digit(m, r, c, d));
            lemma_decode_encode(r, c, d);
            assert(cl[0] == pos_lit(var_id(r, c, d)));
            assert(lit_sat(m, cl[0]));
            assert(clause_sat(m, cl));
        }
    }
}

/// An injection from nine slots into the nine digits reaches every digit.
proof fn lemma_pigeonhole9(f: spec_fn(int) -> int, d: int)
    requires
        0 <= d < 9,
        forall|i: int| 0 <= i < 9 ==> 0 <= #[trigger] f(i) < 9,
        forall|i: int, j: int| 0 <= i < 9 && 0 <= j < 9 && i != j ==> #[trigger] f(i) != #[trigger] f(j),
    ensures
        exists|i: int| 0 <= i < 9 && #[trigger] f(i) == d,
{
    if !(exists|i: int| 0 <= i < 9 && #[trigger] f(i) == d) {
        let dom = set_int_range(0, 9);
        lemma_int_range(0, 9);
        let img = dom.map(f);
        assert(injective_on(f, dom));
        lemma_map_size(dom, img, f);
        let tgt = set_int_range(0, 9).remove(d);
        assert forall|y: int| img.contains(y) implies tgt.contains(y) by {
            let x = choose|x: int| dom.contains(x) && y == f(x);
            assert(0 <= f(x) < 9);
            assert(f(x) != d);
        }
        assert(img.subset_of(tgt));
        lemma_len_subset(img, tgt);
        assert(tgt.len() == 8);
        assert(false);
    }
}

/// A full well-formed grid that matches a satisfying assignment of the
/// constraint set is a valid solution: each group holds each digit
/// exactly once.
pub proof fn lemma_solution_valid(g: Grid, m: Seq<bool>, f: Seq<Vec<Lit>>)
    requires
        m.len() == 729,
        g.wf(),
        g.filled(),
        grid_matches_model(g, m),
        sudoku_constraints(f),
        formula_sat(m, f),
    ensures
        valid_groups(g),
{
    assert forall|r: int, c1: int, c2: int, d: int|
        0 <= r < 9 && 0 <= c1 < 9 && 0 <= c2 < 9 && c1 != c2 && 0 <= d < 9 implies !(
    #[trigger] is_digit(g.cell(r, c1), d) && #[trigger] is_digit(g.cell(r, c2), d)) by {
        if is_digit(g.cell(r, c1), d) && is_digit(g.cell(r, c2), d) {
            assert(model_digit(m, r, c1, d));
            assert(model_digit(m, r, c2, d));
            lemma_decode_encode(r, c1, d);
            lemma_decode_encode(r, c2, d);
            assert(has_pair(f, neg_lit(var_id(r, c1, d)), neg_lit(var_id(r, c2, d))));
            let i = choose|i: int|
                0 <= i < f.len() && is_pair_clause(
                    #[trigger] f[i]@,
                    neg_lit(var_id(r, c1, d)),
                    neg_lit(var_id(r, c2, d)),
                );
            assert(clause_sat(m, f[i]@));
            let k = choose|k: int| 0 <= k < f[i]@.len() && lit_sat(m, f[i]@[k]);
            assert(false);
        }
    }
    assert forall|r1: int, r2: int, c: int, d: int|
        0 <= r1 < 9 && 0 <= r2 < 9 && 0 <= c < 9 && r1 != r2 && 0 <= d < 9 implies !(
    #[trigger] is_digit(g.cell(r1, c), d) && #[trigger] is_digit(g.cell(r2, c), d)) by {
        if is_digit(g.cell(r1, c), d) && is_digit(g.cell(r2, c), d) {
            assert(model_digit(m, r1, c, d));
            assert(model_digit(m, r2, c, d));
            lemma_decode_encode(r1, c, d);
            lemma_decode_encode(r2, c, d);
            assert(has_pair(f, neg_lit(var_id(r1, c, d)), neg_lit(var_id(r2, c, d))));
            let i = choose|i: int|
                0 <= i < f.len() && is_pair_clause(
                    #[trigger] f[i]@,
                    neg_lit(var_id(r1, c, d)),
                    neg_lit(var_id(r2, c, d)),
                );
            assert(clause_sat(m, f[i]@));
            let k = choose|k: int| 0 <= k < f[i]@.len() && lit_sat(m, f[i]@[k]);
            assert(false);
        }
    }
    assert forall|r1: int, c1: int, r2: int, c2: int, d: int|
        0 <= r1 < 9 && 0 <= c1 < 9 && 0 <= r2 < 9 && 0 <= c2 < 9 && same_block(r1, c1, r2, c2)
            && !(r1 == r2 && c1 == c2) && 0 <= d < 9 implies !(#[trigger] is_digit(
        g.cell(r1, c1),
        d,
    ) && #[trigger] is_digit(g.cell(r2, c2), d)) by {
        if is_digit(g.cell(r1, c1), d) && is_digit(g.cell(r2, c2), d) {
            assert(model_digit(m, r1, c1, d));
            assert(model_digit(m, r2, c2, d));
            lemma_decode_encode(r1, c1, d);
            lemma_decode_encode(r2, c2, d);
            assert(has_pair(f, neg_lit(var_id(r1, c1, d)), neg_lit(var_id(r2, c2, d))));
            let i = choose|i: int|
                0 <= i < f.len() && is_pair_clause(
                    #[trigger] f[i]@,
                    neg_lit(var_id(r1, c1, d)),
                    neg_lit(var_id(r2, c2, d)),
                );
            assert(clause_sat(m, f[i]@));
            let k = choose|k: int| 0 <= k < f[i]@.len() && lit_sat(m, f[i]@[k]);
            assert(false);
        }
    }
    assert forall|r: int, d: int| 0 <= r < 9 && 0 <= d < 9 implies #[trigger] row_contains(
        g,
        r,
        d,
    ) by {
        let fm = |c: int| cell_digit(g.cell(r, c));
        assert forall|i: int| 0 <= i < 9 implies 0 <= #[trigger] fm(i) < 9 by {
            assert(g@[r * 9 + i] is Some);
            assert((g@[r * 9 + i] matches Some(x) ==> x < 9));
        }
        assert forall|i: int, j: int| 0 <= i < 9 && 0 <= j < 9 && i != j implies #[trigger] fm(i)
            != #[trigger] fm(j) by {
            if fm(i) == fm(j) {
                let dv = fm(i);
                assert(g@[r * 9 + i] is Some);
                assert(g@[r * 9 + j] is Some);
                assert(is_digit(g.cell(r, i), dv));
                assert(is_digit(g.cell(r, j), dv));
            }
        }
        lemma_pigeonhole9(fm, d);
        let c = choose|i: int| 0 <= i < 9 && #[trigger] fm(i) == d;
        assert(g@[r * 9 + c] is Some);
        assert(is_digit(g.cell(r, c), d));
    }
    assert forall|c: int, d: int| 0 <= c < 9 && 0 <= d < 9 implies #[trigger] col_contains(
        g,
        c,
        d,
    ) by {
        let fm = |r: int| cell_digit(g.cell(r, c));
        assert forall|i: int| 0 <= i < 9 implies 0 <= #[trigger] fm(i) < 9 by {
            assert(g@[i * 9 + c] is Some);
            assert((g@[i * 9 + c] matches Some(x) ==> x < 9));
        }
        assert forall|i: int, j: int| 0 <= i < 9 && 0 <= j < 9 && i != j implies #[trigger] fm(i)
            != #[trigger] fm(j) by {
            if fm(i) == fm(j) {
                let dv = fm(i);
                assert(g@[i * 9 + c] is Some);
                assert(g@[j * 9 + c] is Some);
                assert(is_digit(g.cell(i, c), dv));
                assert(is_digit(g.cell(j, c), dv));
            }
        }
        lemma_pigeonhole9(fm, d);
        let r = choose|i: int| 0 <= i < 9 && #[trigger] fm(i) == d;
        assert(g@[r * 9 + c] is Some);
        assert(is_digit(g.cell(r, c), d));
    }
    assert forall|br: int, bc: int, d: int|
        0 <= br < 3 && 0 <= bc < 3 && 0 <= d < 9 implies #[trigger] block_contains(
        g,
        br,
        bc,
        d,
    ) by {
        let fm = |i: int| cell_digit(g.cell(3 * br + i / 3, 3 * bc + i % 3));
        assert forall|i: int| 0 <= i < 9 implies 0 <= #[trigger] fm(i) < 9 by {
            let rr = 3 * br + i / 3;
            let cc = 3 * bc + i % 3;
            assert(0 <= rr < 9 && 0 <= cc < 9);
            assert(g@[rr * 9 + cc] is Some);
            assert((g@[rr * 9 + cc] matches Some(x) ==> x < 9));
        }
        assert forall|i: int, j: int| 0 <= i < 9 && 0 <= j < 9 && i != j implies #[trigger] fm(i)
            != #[trigger] fm(j) by {
            if fm(i) == fm(j) {
                let ri = 3 * br + i / 3;
                let ci = 3 * bc + i % 3;
                let rj = 3 * br + j / 3;
                let cj = 3 * bc + j % 3;
                assert(!(ri == rj && ci == cj));
                assert(ri / 3 == br && rj / 3 == br && ci / 3 == bc && cj / 3 == bc);
                assert(same_block(ri, ci, rj, cj));
                let dv = fm(i);
                assert(g@[ri * 9 + ci] is Some);
                assert(g@[rj * 9 + cj] is Some);
                assert(is_digit(g.cell(ri, ci), dv));
                assert(is_digit(g.cell(rj, cj), dv));
            }
        }
        lemma_pigeonhole9(fm, d);
        let i = choose|i: int| 0 <= i < 9 && #[trigger] fm(i) == d;
        let rr = 3 * br + i / 3;
        let cc = 3 * bc + i % 3;
        assert(3 * br <= rr < 3 * br + 3 && 3 * bc <= cc < 3 * bc + 3);
        assert(g@[rr * 9 + cc] is Some);
        assert(is_digit(g.cell(rr, cc), d));
    }
}

impl Grid {
    /// Solves the puzzle.  Builds the puzzle-independent constraint
    /// formula, adds one unit clause per given digit, hands the clause
    /// set to the SAT engine, and decodes the model into a full grid.
    ///
    /// A returned grid is well-formed and full, keeps every given digit,
    /// and holds every digit exactly once in each row, column and block.
    /// A failure is always `Unsatisfiable`, and it is owed only to a
    /// puzzle without a completion: whenever some full valid grid keeps
    /// the givens, a grid is returned.  The internal-consistency failure
    /// of the decoder is proved unreachable, and a grid with the same
    /// given digit twice in one row is never solved.
    pub fn solve(self) -> (res: Result<Grid, SolveError>)
        requires
            self.wf(),
        ensures
            res matches Ok(sol) ==> sol.wf() && sol.filled() && givens_preserved(self, sol)
                && valid_groups(sol),
            res is Err ==> res == Err::<Grid, SolveError>(SolveError::Unsatisfiable),
            res is Err ==> !has_completion(self),
            duplicate_given_in_row(self) ==> res is Err,
    {
        let mut f = sudoku_formula();
        let ghost base = f@;
        let mut y: usize = 0;
        while y < 9
            invariant
                self.wf(),
                y <= 9,
                vars_ok(f@),
                extends(f@, base),
                sudoku_constraints(base),
                forall|i: int|
                    0 <= i < f@.len() ==> (constraint_clause(#[trigger] f@[i]@) || is_given_unit(
                        self,
                        f@[i]@,
                    )),
                forall|rr: int, cc: int|
                    0 <= rr < y && 0 <= cc < 9 && (#[trigger] self.cell(rr, cc)) is Some
                        ==> has_unit(f@, var_id(rr, cc, self.cell(rr, cc).unwrap() as int)),
            decreases 9 - y,
        {
            let mut x: usize = 0;
            while x < 9
                invariant
                    self.wf(),
                    y < 9,
                    x <= 9,
                    vars_ok(f@),
                    extends(f@, base),
                    forall|i: int|
                        0 <= i < f@.len() ==> (constraint_clause(#[trigger] f@[i]@)
                            || is_given_unit(self, f@[i]@)),
                    forall|rr: int, cc: int|
                        0 <= rr < y && 0 <= cc < 9 && (#[trigger] self.cell(rr, cc)) is Some
                            ==> has_unit(f@, var_id(rr, cc, self.cell(rr, cc).unwrap() as int)),
                    forall|cc: int|
                        0 <= cc < x && (#[trigger] self.cell(y as int, cc)) is Some ==> has_unit(
                            f@,
                            var_id(y as int, cc, self.cell(y as int, cc).unwrap() as int),
                        ),
                decreases 9 - x,
            {
                let ghost fp = f@;
                if let Some(dv) = self.get(x, y) {
                    proof {
                        assert((self@[y as int * 9 + x as int] matches Some(dd) ==> dd < 9));
                    }
                    let v = encode(y, x, dv as usize);
                    push_unit(&mut f, v);
                    proof {
                        lemma_extends_trans(f@, fp, base);
                        assert(is_digit(self.cell(y as int, x as int), dv as int));
                        assert(f@[fp.len() as int]@ == seq![pos_lit(v as int)]);
                        assert(seq![pos_lit(v as int)] =~= seq![pos_lit(
                            var_id(y as int, x as int, dv as int),
                        )]);
                        assert(is_given_unit(self, f@[fp.len() as int]@));
                    }
                }
                proof {
                    lemma_persist(fp, f@);
                    assert forall|i: int|
                        0 <= i < f@.len() implies (constraint_clause(#[trigger] f@[i]@)
                        || is_given_unit(self, f@[i]@)) by {
                        if i < fp.len() {
                            assert(f@[i] == fp[i]);
                            assert(constraint_clause(fp[i]@) || is_given_unit(self, fp[i]@));
                        } else {
                            assert(is_given_unit(self, f@[i]@));
                        }
                    }
                    assert forall|cc: int|
                        0 <= cc < x + 1 && (#[trigger] self.cell(y as int, cc)) is Some implies has_unit(
                        f@,
                        var_id(y as int, cc, self.cell(y as int, cc).unwrap() as int),
                    ) by {
                        if cc < x {
                            assert(has_unit(
                                fp,
                                var_id(y as int, cc, self.cell(y as int, cc).unwrap() as int),
                            ));
                        }
                    }
                    assert forall|rr: int, cc: int|
                        0 <= rr < y && 0 <= cc < 9 && (#[trigger] self.cell(rr, cc)) is Some implies has_unit(
                        f@,
                        var_id(rr, cc, self.cell(rr, cc).unwrap() as int),
                    ) by {
                        assert(has_unit(fp, var_id(rr, cc, self.cell(rr, cc).unwrap() as int)));
                    }
                }
                x += 1;
            }
            y += 1;
        }
        proof {
            lemma_constraints_persist(base, f@);
        }
        match run_sat_solver(&f) {
            None => {
                proof {
                    if has_completion(self) {
                        let sol = choose|sol: Grid|
                            #![auto]
                            sol.wf() && sol.filled() && givens_preserved(self, sol)
                                && valid_groups(sol);
                        lemma_completion_satisfies(self, sol, f@);
                        assert(grid_model(sol).len() == 729 && formula_sat(grid_model(sol), f@));
                        assert(false);
                    }
                }
                Err(SolveError::Unsatisfiable)
            },
            Some(m) => {
                proof {
                    lemma_model_consistent(m@, f@);
                }
                let res = decode_model(&m);
                match res {
                    Ok(g) => {
                        proof {
                            assert forall|rr: int, cc: int|
                                0 <= rr < 9 && 0 <= cc < 9 && (#[trigger] self.cell(rr, cc))
                                    is Some implies g.cell(rr, cc) == self.cell(rr, cc) by {
                                assert((self@[rr * 9 + cc] matches Some(dd) ==> dd < 9));
                                let dv = self.cell(rr, cc).unwrap() as int;
                                assert(0 <= dv < 9);
                                assert(has_unit(f@, var_id(rr, cc, dv)));
                                let i = choose|i: int|
                                    0 <= i < f@.len() && (#[trigger] f@[i]@).len() == 1 && f@[i]@[0]
                                        == pos_lit(var_id(rr, cc, dv));
                                assert(clause_sat(m@, f@[i]@));
                                let k = choose|k: int|
                                    0 <= k < f@[i]@.len() && lit_sat(m@, f@[i]@[k]);
                                assert(k == 0);
                                lemma_decode_encode(rr, cc, dv);
                                assert(model_digit(m@, rr, cc, dv));
                                assert(is_digit(g.cell(rr, cc), dv));
                            }
                            lemma_solution_valid(g, m@, f@);
                            if duplicate_given_in_row(self) {
                                let (rr, c1, c2) = choose|rr: int, c1: int, c2: int|
                                    #![auto]
                                    0 <= rr < 9 && 0 <= c1 < c2 < 9 && self.cell(rr, c1) is Some
                                        && self.cell(rr, c1) == self.cell(rr, c2);
                                let dv = self.cell(rr, c1).unwrap() as int;
                                assert((self@[rr * 9 + c1] matches Some(dd) ==> dd < 9));
                                assert(0 <= dv < 9);
                                assert(g.cell(rr, c1) == self.cell(rr, c1));
                                assert(g.cell(rr, c2) == self.cell(rr, c2));
                                assert(is_digit(g.cell(rr, c1), dv));
                                assert(is_digit(g.cell(rr, c2), dv));
                                assert(false);
                            }
                        }
                        Ok(g)
                    },
                    Err(e) => {
                        proof {
                            assert(false);
                        }
                        Err(SolveError::Internal(e))
                    },
                }
            },
        }
    }
}

} // verus!
