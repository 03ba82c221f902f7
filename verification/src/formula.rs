//! The formula builder: the puzzle-independent Sudoku constraint set,
//! as a conjunction of disjunctive clauses over indexer-derived variables.

use vstd::prelude::*;
use crate::codec::col_of;
use crate::codec::decode;
use crate::codec::digit_of;
use crate::codec::encode;
use crate::codec::lemma_decode_encode;
use crate::codec::lemma_var_id_injective;
use crate::codec::row_of;
use crate::codec::valid_triple;
use crate::codec::var_id;

verus! {

/// One signed reference to a variable: a literal of a clause.
#[derive(Clone, Copy, PartialEq, Eq, Structural, Debug)]
pub struct Lit {
    pub var: usize,
    pub positive: bool,
}

pub open spec fn pos_lit(v: int) -> Lit {
    Lit { var: v as usize, positive: true }
}

pub open spec fn neg_lit(v: int) -> Lit {
    Lit { var: v as usize, positive: false }
}

/// A literal holds under a model when the model gives its variable its polarity.
pub open spec fn lit_sat(m: Seq<bool>, l: Lit) -> bool {
    m[l.var as int] == l.positive
}

/// A clause, a disjunction, holds when at least one of its literals holds.
pub open spec fn clause_sat(m: Seq<bool>, c: Seq<Lit>) -> bool {
    exists|k: int| 0 <= k < c.len() && lit_sat(m, c[k])
}

/// A formula, a conjunction, holds when every clause holds.
pub open spec fn formula_sat(m: Seq<bool>, f: Seq<Vec<Lit>>) -> bool {
    forall|i: int| 0 <= i < f.len() ==> clause_sat(m, #[trigger] f[i]@)
}

pub open spec fn clause_vars_ok(c: Seq<Lit>) -> bool {
    forall|k: int| 0 <= k < c.len() ==> (#[trigger] c[k]).var < 729
}

/// Every literal of every clause names a variable of the encoding.
pub open spec fn vars_ok(f: Seq<Vec<Lit>>) -> bool {
    forall|i: int| 0 <= i < f.len() ==> clause_vars_ok(#[trigger] f[i]@)
}

/// `f2` keeps every clause of `f1`, at the same position.
pub open spec fn extends(f2: Seq<Vec<Lit>>, f1: Seq<Vec<Lit>>) -> bool {
    f1.len() <= f2.len() && forall|i: int| 0 <= i < f1.len() ==> f2[i] == #[trigger] f1[i]
}

pub open spec fn is_pair_clause(c: Seq<Lit>, a: Lit, b: Lit) -> bool {
    c.len() == 2 && c[0] == a && c[1] == b
}

/// The formula holds the two-literal clause (a or b).
pub open spec fn has_pair(f: Seq<Vec<Lit>>, a: Lit, b: Lit) -> bool {
    exists|i: int| 0 <= i < f.len() && is_pair_clause(#[trigger] f[i]@, a, b)
}

/// The clause "cell (row, col) holds at least one digit".
pub open spec fn coverage_clause(row: int, col: int) -> Seq<Lit> {
    Seq::new(9, |d: int| pos_lit(var_id(row, col, d)))
}

pub open spec fn has_coverage(f: Seq<Vec<Lit>>, row: int, col: int) -> bool {
    exists|i: int| 0 <= i < f.len() && #[trigger] f[i]@ == coverage_clause(row, col)
}

/// The formula holds the unit clause asserting variable v.
pub open spec fn has_unit(f: Seq<Vec<Lit>>, v: int) -> bool {
    exists|i: int| 0 <= i < f.len() && (#[trigger] f[i]@).len() == 1 && f[i]@[0] == pos_lit(v)
}

/// Two cells lie in the same 3x3 block.
pub open spec fn same_block(r1: int, c1: int, r2: int, c2: int) -> bool {
    r1 / 3 == r2 / 3 && c1 / 3 == c2 / 3
}

/// Two variable identifiers whose propositions the rules forbid to hold
/// together: one cell with two digits, or one digit in two cells that
/// share a row, a column or a block.
pub open spec fn conflicting_vars(v1: int, v2: int) -> bool {
    v1 != v2 && ((row_of(v1) == row_of(v2) && col_of(v1) == col_of(v2)) || (digit_of(v1)
        == digit_of(v2) && (row_of(v1) == row_of(v2) || col_of(v1) == col_of(v2) || same_block(
        row_of(v1),
        col_of(v1),
        row_of(v2),
        col_of(v2),
    ))))
}

/// The shape of every emitted clause: a cell's nine-literal positive
/// coverage clause, or a two-literal negative pair forbidding one
/// conflicting variable pair.  In particular no per-group coverage
/// clause is ever emitted.
pub open spec fn constraint_clause(cl: Seq<Lit>) -> bool {
    ||| (exists|r: int, c: int| 0 <= r < 9 && 0 <= c < 9 && cl == #[trigger] coverage_clause(r, c))
    ||| (exists|v1: int, v2: int|
        0 <= v1 < 729 && 0 <= v2 < 729 && #[trigger] conflicting_vars(v1, v2) && cl == seq![
            neg_lit(v1),
            neg_lit(v2),
        ])
}

/// Every clause of the set keeps to the constraint shapes.
pub open spec fn all_constraint_clauses(f: Seq<Vec<Lit>>) -> bool {
    forall|i: int| 0 <= i < f.len() ==> constraint_clause(#[trigger] f[i]@)
}

/// The complete puzzle-independent constraint set: per-cell uniqueness and
/// coverage, and exclusivity of each digit within each row, column and block.
pub open spec fn sudoku_constraints(f: Seq<Vec<Lit>>) -> bool {
    &&& (forall|r: int, c: int, a: int, b: int|
        valid_triple(r, c, a) && valid_triple(r, c, b) && a < b ==> has_pair(
            f,
            neg_lit(var_id(r, c, a)),
            neg_lit(var_id(r, c, b)),
        ))
    &&& (forall|r: int, c: int| 0 <= r < 9 && 0 <= c < 9 ==> has_coverage(f, r, c))
    &&& (forall|r: int, c1: int, c2: int, d: int|
        valid_triple(r, c1, d) && valid_triple(r, c2, d) && c1 != c2 ==> has_pair(
            f,
            neg_lit(var_id(r, c1, d)),
            neg_lit(var_id(r, c2, d)),
        ))
    &&& (forall|r1: int, r2: int, c: int, d: int|
        valid_triple(r1, c, d) && valid_triple(r2, c, d) && r1 != r2 ==> has_pair(
            f,
            neg_lit(var_id(r1, c, d)),
            neg_lit(var_id(r2, c, d)),
        ))
    &&& (forall|r1: int, c1: int, r2: int, c2: int, d: int|
        valid_triple(r1, c1, d) && valid_triple(r2, c2, d) && same_block(r1, c1, r2, c2) && !(r1
            == r2 && c1 == c2) ==> has_pair(f, neg_lit(var_id(r1, c1, d)), neg_lit(var_id(r2, c2, d))))
}

/// Clauses present in a formula stay present in any extension of it.
pub proof fn lemma_persist(f1: Seq<Vec<Lit>>, f2: Seq<Vec<Lit>>)
    requires
        extends(f2, f1),
    ensures
        forall|a: Lit, b: Lit| has_pair(f1, a, b) ==> #[trigger] has_pair(f2, a, b),
        forall|a: Lit, b: Lit| #[trigger] has_pair(f1, a, b) ==> has_pair(f2, a, b),
        forall|r: int, c: int| #[trigger] has_coverage(f1, r, c) ==> has_coverage(f2, r, c),
        forall|r: int, c: int| has_coverage(f1, r, c) ==> #[trigger] has_coverage(f2, r, c),
        forall|v: int| #[trigger] has_unit(f1, v) ==> has_unit(f2, v),
        forall|v: int| has_unit(f1, v) ==> #[trigger] has_unit(f2, v),
{
    assert forall|a: Lit, b: Lit| has_pair(f1, a, b) implies has_pair(f2, a, b) by {
        let i = choose|i: int| 0 <= i < f1.len() && is_pair_clause(#[trigger] f1[i]@, a, b);
        assert(f2[i] == f1[i]);
        assert(is_pair_clause(f2[i]@, a, b));
    }
    assert forall|r: int, c: int| has_coverage(f1, r, c) implies has_coverage(f2, r, c) by {
        let i = choose|i: int| 0 <= i < f1.len() && #[trigger] f1[i]@ == coverage_clause(r, c);
        assert(f2[i] == f1[i]);
        assert(f2[i]@ == coverage_clause(r, c));
    }
    assert forall|v: int| has_unit(f1, v) implies has_unit(f2, v) by {
        let i = choose|i: int|
            0 <= i < f1.len() && (#[trigger] f1[i]@).len() == 1 && f1[i]@[0] == pos_lit(v);
        assert(f2[i] == f1[i]);
    }
}

/// Appends the clause (not v1 or not v2).
fn push_pair(f: &mut Vec<Vec<Lit>>, v1: usize, v2: usize)
    requires
        v1 < 729,
        v2 < 729,
        conflicting_vars(v1 as int, v2 as int),
        vars_ok(old(f)@),
        all_constraint_clauses(old(f)@),
    ensures
        final(f)@.len() == old(f)@.len() + 1,
        extends(final(f)@, old(f)@),
        vars_ok(final(f)@),
        all_constraint_clauses(final(f)@),
        has_pair(final(f)@, neg_lit(v1 as int), neg_lit(v2 as int)),
{
    let mut c: Vec<Lit> = Vec::new();
    c.push(Lit { var: v1, positive: false });
    c.push(Lit { var: v2, positive: false });
    let ghost cv = c@;
    f.push(c);
    proof {
        let n = old(f)@.len() as int;
        assert(f@[n]@ == cv);
        assert(is_pair_clause(cv, neg_lit(v1 as int), neg_lit(v2 as int)));
        assert(cv =~= seq![neg_lit(v1 as int), neg_lit(v2 as int)]);
        assert(constraint_clause(cv));
        assert forall|i: int| 0 <= i < f@.len() implies clause_vars_ok(#[trigger] f@[i]@) by {
            if i < n {
                assert(f@[i] == old(f)@[i]);
            } else {
                assert(f@[i]@ == cv);
            }
        }
        assert forall|i: int| 0 <= i < f@.len() implies constraint_clause(#[trigger] f@[i]@) by {
            if i < n {
                assert(f@[i] == old(f)@[i]);
                assert(constraint_clause(old(f)@[i]@));
            } else {
                assert(f@[i]@ == cv);
            }
        }
    }
}

/// Appends the unit clause asserting variable v.
pub(crate) fn push_unit(f: &mut Vec<Vec<Lit>>, v: usize)
    requires
        v < 729,
        vars_ok(old(f)@),
    ensures
        final(f)@.len() == old(f)@.len() + 1,
        extends(final(f)@, old(f)@),
        vars_ok(final(f)@),
        has_unit(final(f)@, v as int),
        final(f)@[old(f)@.len() as int]@ == seq![pos_lit(v as int)],
{
    let mut c: Vec<Lit> = Vec::new();
    c.push(Lit { var: v, positive: true });
    let ghost cv = c@;
    f.push(c);
    proof {
        let n = old(f)@.len() as int;
        assert(f@[n]@ == cv);
        assert(cv.len() == 1 && cv[0] == pos_lit(v as int));
        assert(cv =~= seq![pos_lit(v as int)]);
        assert forall|i: int| 0 <= i < f@.len() implies clause_vars_ok(#[trigger] f@[i]@) by {
            if i < n {
                assert(f@[i] == old(f)@[i]);
            } else {
                assert(f@[i]@ == cv);
            }
        }
    }
}

/// Number of digit pairs (x, y) with x < y < 9 and x < a.
spec fn tri_pairs(a: int) -> int
    decreases a,
{
    if a <= 0 {
        0
    } else {
        tri_pairs(a - 1) + (9 - a)
    }
}

/// Appends the 36 clauses that keep one cell from holding two digits.
fn add_one_cell_uniqueness(f: &mut Vec<Vec<Lit>>, r: usize, c: usize)
    requires
        r < 9,
        c < 9,
        vars_ok(old(f)@),
        all_constraint_clauses(old(f)@),
    ensures
        extends(final(f)@, old(f)@),
        vars_ok(final(f)@),
        all_constraint_clauses(final(f)@),
        final(f)@.len() == old(f)@.len() + 36,
        forall|a: int, b: int| 0 <= a < b < 9 ==> has_pair(
            final(f)@,
            neg_lit(var_id(r as int, c as int, a)),
            neg_lit(var_id(r as int, c as int, b)),
        ),
{
    let ghost f0 = f@;
    let mut a: usize = 0;
    while a < 9
        invariant
            a <= 9,
            r < 9,
            c < 9,
            vars_ok(f@),
            all_constraint_clauses(f@),
            extends(f@, f0),
            f@.len() == f0.len() + tri_pairs(a as int),
            forall|x: int, y: int| 0 <= x < a && x < y < 9 ==> has_pair(
                f@,
                neg_lit(var_id(r as int, c as int, x)),
                neg_lit(var_id(r as int, c as int, y)),
            ),
        decreases 9 - a,
    {
        let mut b: usize = a + 1;
        while b < 9
            invariant
                a < b <= 9,
                a < 9,
                r < 9,
                c < 9,
                vars_ok(f@),
                all_constraint_clauses(f@),
                extends(f@, f0),
                f@.len() == f0.len() + tri_pairs(a as int) + (b - a - 1),
                forall|x: int, y: int| 0 <= x < a && x < y < 9 ==> has_pair(
                    f@,
                    neg_lit(var_id(r as int, c as int, x)),
                    neg_lit(var_id(r as int, c as int, y)),
                ),
                forall|y: int| a < y < b ==> has_pair(
                    f@,
                    neg_lit(var_id(r as int, c as int, a as int)),
                    neg_lit(var_id(r as int, c as int, y)),
                ),
            decreases 9 - b,
        {
            let v1 = encode(r, c, a);
            let v2 = encode(r, c, b);
            proof {
                lemma_decode_encode(r as int, c as int, a as int);
                lemma_decode_encode(r as int, c as int, b as int);
                if v1 == v2 {
                    lemma_var_id_injective(
                        r as int,
                        c as int,
                        a as int,
                        r as int,
                        c as int,
                        b as int,
                    );
                }
                assert(conflicting_vars(v1 as int, v2 as int));
            }
            let ghost fp = f@;
            push_pair(f, v1, v2);
            proof {
                lemma_persist(fp, f@);
            }
            b += 1;
        }
        a += 1;
    }
    proof {
        assert(tri_pairs(9) == 36) by {
            reveal_with_fuel(tri_pairs, 10);
        }
    }
}

/// Appends the cell-uniqueness clauses of all 81 cells.
fn add_cell_uniqueness(f: &mut Vec<Vec<Lit>>)
    requires
        vars_ok(old(f)@),
        all_constraint_clauses(old(f)@),
    ensures
        extends(final(f)@, old(f)@),
        vars_ok(final(f)@),
        all_constraint_clauses(final(f)@),
        final(f)@.len() == old(f)@.len() + 2916,
        forall|r: int, c: int, a: int, b: int|
            valid_triple(r, c, a) && valid_triple(r, c, b) && a < b ==> has_pair(
                final(f)@,
                neg_lit(var_id(r, c, a)),
                neg_lit(var_id(r, c, b)),
            ),
{
    let ghost f0 = f@;
    let mut j: usize = 0;
    while j < 81
        invariant
            j <= 81,
            vars_ok(f@),
            all_constraint_clauses(f@),
            extends(f@, f0),
            f@.len() == f0.len() + 36 * j,
            forall|r: int, c: int, a: int, b: int|
                0 <= r < 9 && 0 <= c < 9 && r * 9 + c < j && 0 <= a < b < 9 ==> has_pair(
                    f@,
                    neg_lit(var_id(r, c, a)),
                    neg_lit(var_id(r, c, b)),
                ),
        decreases 81 - j,
    {
        let r = j / 9;
        let c = j % 9;
        let ghost fp = f@;
        add_one_cell_uniqueness(f, r, c);
        proof {
            lemma_persist(fp, f@);
            assert forall|rr: int, cc: int, aa: int, bb: int|
                0 <= rr < 9 && 0 <= cc < 9 && rr * 9 + cc < j + 1 && 0 <= aa < bb < 9 implies has_pair(
                f@,
                neg_lit(var_id(rr, cc, aa)),
                neg_lit(var_id(rr, cc, bb)),
            ) by {
                if rr * 9 + cc < j {
                    assert(has_pair(fp, neg_lit(var_id(rr, cc, aa)), neg_lit(var_id(rr, cc, bb))));
                } else {
                    assert(rr == r && cc == c);
                }
            }
        }
        j += 1;
    }
}

/// Appends the coverage clause of cell (r, c).
fn push_coverage(f: &mut Vec<Vec<Lit>>, r: usize, c: usize)
    requires
        r < 9,
        c < 9,
        vars_ok(old(f)@),
        all_constraint_clauses(old(f)@),
    ensures
        final(f)@.len() == old(f)@.len() + 1,
        extends(final(f)@, old(f)@),
        vars_ok(final(f)@),
        all_constraint_clauses(final(f)@),
        has_coverage(final(f)@, r as int, c as int),
{
    let mut cl: Vec<Lit> = Vec::new();
    let mut d: usize = 0;
    while d < 9
        invariant
            d <= 9,
            r < 9,
            c < 9,
            cl@.len() == d,
            forall|k: int| 0 <= k < d ==> cl@[k] == pos_lit(var_id(r as int, c as int, k)),
        decreases 9 - d,
    {
        let v = encode(r, c, d);
        cl.push(Lit { var: v, positive: true });
        d += 1;
    }
    proof {
        assert(cl@ =~= coverage_clause(r as int, c as int));
        assert forall|k: int| 0 <= k < cl@.len() implies (#[trigger] cl@[k]).var < 729 by {
            assert(cl@[k] == pos_lit(var_id(r as int, c as int, k)));
        }
    }
    let ghost cv = cl@;
    f.push(cl);
    proof {
        let n = old(f)@.len() as int;
        assert(f@[n]@ == cv);
        assert(cv == coverage_clause(r as int, c as int));
        assert(constraint_clause(cv));
        assert forall|i: int| 0 <= i < f@.len() implies clause_vars_ok(#[trigger] f@[i]@) by {
            if i < n {
                assert(f@[i] == old(f)@[i]);
            } else {
                assert(f@[i]@ == cv);
            }
        }
        assert forall|i: int| 0 <= i < f@.len() implies constraint_clause(#[trigger] f@[i]@) by {
            if i < n {
                assert(f@[i] == old(f)@[i]);
                assert(constraint_clause(old(f)@[i]@));
            } else {
                assert(f@[i]@ == cv);
            }
        }
    }
}

/// Appends the coverage clauses of all 81 cells.
fn add_cell_coverage(f: &mut Vec<Vec<Lit>>)
    requires
        vars_ok(old(f)@),
        all_constraint_clauses(old(f)@),
    ensures
        extends(final(f)@, old(f)@),
        vars_ok(final(f)@),
        all_constraint_clauses(final(f)@),
        final(f)@.len() == old(f)@.len() + 81,
        forall|r: int, c: int| 0 <= r < 9 && 0 <= c < 9 ==> has_coverage(final(f)@, r, c),
{
    let ghost f0 = f@;
    let mut j: usize = 0;
    while j < 81
        invariant
            j <= 81,
            vars_ok(f@),
            all_constraint_clauses(f@),
            extends(f@, f0),
            f@.len() == f0.len() + j,
            forall|r: int, c: int| 0 <= r < 9 && 0 <= c < 9 && r * 9 + c < j ==> has_coverage(
                f@,
                r,
                c,
            ),
        decreases 81 - j,
    {
        let r = j / 9;
        let c = j % 9;
        let ghost fp = f@;
        push_coverage(f, r, c);
        proof {
            lemma_persist(fp, f@);
            assert forall|rr: int, cc: int|
                0 <= rr < 9 && 0 <= cc < 9 && rr * 9 + cc < j + 1 implies has_coverage(
                f@,
                rr,
                cc,
            ) by {
                if rr * 9 + cc < j {
                    assert(has_coverage(fp, rr, cc));
                } else {
                    assert(rr == r && cc == c);
                }
            }
        }
        j += 1;
    }
}

/// Appends, for one cell and digit, the clauses excluding the digit from
/// every other column of the cell's row.
fn add_row_pairs(f: &mut Vec<Vec<Lit>>, r: usize, c1: usize, d: usize)
    requires
        r < 9,
        c1 < 9,
        d < 9,
        vars_ok(old(f)@),
        all_constraint_clauses(old(f)@),
    ensures
        extends(final(f)@, old(f)@),
        vars_ok(final(f)@),
        all_constraint_clauses(final(f)@),
        final(f)@.len() == old(f)@.len() + 8,
        forall|c2: int| 0 <= c2 < 9 && c2 != c1 ==> has_pair(
            final(f)@,
            neg_lit(var_id(r as int, c1 as int, d as int)),
            neg_lit(var_id(r as int, c2, d as int)),
        ),
{
    let ghost f0 = f@;
    let v1 = encode(r, c1, d);
    let mut c2: usize = 0;
    while c2 < 9
        invariant
            c2 <= 9,
            r < 9,
            c1 < 9,
            d < 9,
            v1 == var_id(r as int, c1 as int, d as int),
            v1 < 729,
            vars_ok(f@),
            all_constraint_clauses(f@),
            extends(f@, f0),
            f@.len() == f0.len() + c2 - (if c1 < c2 {
                1int
            } else {
                0int
            }),
            forall|x: int| 0 <= x < c2 && x != c1 ==> has_pair(
                f@,
                neg_lit(var_id(r as int, c1 as int, d as int)),
                neg_lit(var_id(r as int, x, d as int)),
            ),
        decreases 9 - c2,
    {
        if c2 != c1 {
            let v2 = encode(r, c2, d);
            proof {
                lemma_decode_encode(r as int, c1 as int, d as int);
                lemma_decode_encode(r as int, c2 as int, d as int);
                if v1 == v2 {
                    lemma_var_id_injective(
                        r as int,
                        c1 as int,
                        d as int,
                        r as int,
                        c2 as int,
                        d as int,
                    );
                }
                assert(conflicting_vars(v1 as int, v2 as int));
            }
            let ghost fp = f@;
            push_pair(f, v1, v2);
            proof {
                lemma_persist(fp, f@);
            }
        }
        c2 += 1;
    }
}

/// Appends the row-exclusivity clauses of every cell and digit.
fn add_row_exclusivity(f: &mut Vec<Vec<Lit>>)
    requires
        vars_ok(old(f)@),
        all_constraint_clauses(old(f)@),
    ensures
        extends(final(f)@, old(f)@),
        vars_ok(final(f)@),
        all_constraint_clauses(final(f)@),
        final(f)@.len() == old(f)@.len() + 5832,
        forall|r: int, c1: int, c2: int, d: int|
            valid_triple(r, c1, d) && valid_triple(r, c2, d) && c1 != c2 ==> has_pair(
                final(f)@,
                neg_lit(var_id(r, c1, d)),
                neg_lit(var_id(r, c2, d)),
            ),
{
    let ghost f0 = f@;
    let mut t: usize = 0;
    while t < 729
        invariant
            t <= 729,
            vars_ok(f@),
            all_constraint_clauses(f@),
            extends(f@, f0),
            f@.len() == f0.len() + 8 * t,
            forall|r: int, c1: int, c2: int, d: int|
                valid_triple(r, c1, d) && 0 <= c2 < 9 && c2 != c1 && var_id(r, c1, d) < t
                    ==> has_pair(f@, neg_lit(var_id(r, c1, d)), neg_lit(var_id(r, c2, d))),
        decreases 729 - t,
    {
        let (r, c1, d) = decode(t);
        let ghost fp = f@;
        add_row_pairs(f, r, c1, d);
        proof {
            lemma_persist(fp, f@);
            assert forall|rr: int, cc1: int, cc2: int, dd: int|
                valid_triple(rr, cc1, dd) && 0 <= cc2 < 9 && cc2 != cc1 && var_id(rr, cc1, dd) < t
                    + 1 implies has_pair(
                f@,
                neg_lit(var_id(rr, cc1, dd)),
                neg_lit(var_id(rr, cc2, dd)),
            ) by {
                if var_id(rr, cc1, dd) < t {
                    assert(has_pair(fp, neg_lit(var_id(rr, cc1, dd)), neg_lit(var_id(rr, cc2, dd))));
                } else {
                    lemma_var_id_injective(rr, cc1, dd, r as int, c1 as int, d as int);
                }
            }
        }
        t += 1;
    }
    proof {
        assert forall|r: int, c1: int, c2: int, d: int|
            valid_triple(r, c1, d) && valid_triple(r, c2, d) && c1 != c2 implies has_pair(
            f@,
            neg_lit(var_id(r, c1, d)),
            neg_lit(var_id(r, c2, d)),
        ) by {
            assert(var_id(r, c1, d) < 729);
        }
    }
}

/// Appends, for one cell and digit, the clauses excluding the digit from
/// every other row of the cell's column.
fn add_col_pairs(f: &mut Vec<Vec<Lit>>, r1: usize, c: usize, d: usize)
    requires
        r1 < 9,
        c < 9,
        d < 9,
        vars_ok(old(f)@),
        all_constraint_clauses(old(f)@),
    ensures
        extends(final(f)@, old(f)@),
        vars_ok(final(f)@),
        all_constraint_clauses(final(f)@),
        final(f)@.len() == old(f)@.len() + 8,
        forall|r2: int| 0 <= r2 < 9 && r2 != r1 ==> has_pair(
            final(f)@,
            neg_lit(var_id(r1 as int, c as int, d as int)),
            neg_lit(var_id(r2, c as int, d as int)),
        ),
{
    let ghost f0 = f@;
    let v1 = encode(r1, c, d);
    let mut r2: usize = 0;
    while r2 < 9
        invariant
            r2 <= 9,
            r1 < 9,
            c < 9,
            d < 9,
            v1 == var_id(r1 as int, c as int, d as int),
            v1 < 729,
            vars_ok(f@),
            all_constraint_clauses(f@),
            extends(f@, f0),
            f@.len() == f0.len() + r2 - (if r1 < r2 {
                1int
            } else {
                0int
            }),
            forall|x: int| 0 <= x < r2 && x != r1 ==> has_pair(
                f@,
                neg_lit(var_id(r1 as int, c as int, d as int)),
                neg_lit(var_id(x, c as int, d as int)),
            ),
        decreases 9 - r2,
    {
        if r2 != r1 {
            let v2 = encode(r2, c, d);
            proof {
                lemma_decode_encode(r1 as int, c as int, d as int);
                lemma_decode_encode(r2 as int, c as int, d as int);
                if v1 == v2 {
                    lemma_var_id_injective(
                        r1 as int,
                        c as int,
                        d as int,
                        r2 as int,
                        c as int,
                        d as int,
                    );
                }
                assert(conflicting_vars(v1 as int, v2 as int));
            }
            let ghost fp = f@;
            push_pair(f, v1, v2);
            proof {
                lemma_persist(fp, f@);
            }
        }
        r2 += 1;
    }
}

/// Appends the column-exclusivity clauses of every cell and digit.
fn add_col_exclusivity(f: &mut Vec<Vec<Lit>>)
    requires
        vars_ok(old(f)@),
        all_constraint_clauses(old(f)@),
    ensures
        extends(final(f)@, old(f)@),
        vars_ok(final(f)@),
        all_constraint_clauses(final(f)@),
        final(f)@.len() == old(f)@.len() + 5832,
        forall|r1: int, r2: int, c: int, d: int|
            valid_triple(r1, c, d) && valid_triple(r2, c, d) && r1 != r2 ==> has_pair(
                final(f)@,
                neg_lit(var_id(r1, c, d)),
                neg_lit(var_id(r2, c, d)),
            ),
{
    let ghost f0 = f@;
    let mut t: usize = 0;
    while t < 729
        invariant
            t <= 729,
            vars_ok(f@),
            all_constraint_clauses(f@),
            extends(f@, f0),
            f@.len() == f0.len() + 8 * t,
            forall|r1: int, r2: int, c: int, d: int|
                valid_triple(r1, c, d) && 0 <= r2 < 9 && r2 != r1 && var_id(r1, c, d) < t
                    ==> has_pair(f@, neg_lit(var_id(r1, c, d)), neg_lit(var_id(r2, c, d))),
        decreases 729 - t,
    {
        let (r1, c, d) = decode(t);
        let ghost fp = f@;
        add_col_pairs(f, r1, c, d);
        proof {
            lemma_persist(fp, f@);
            assert forall|rr1: int, rr2: int, cc: int, dd: int|
                valid_triple(rr1, cc, dd) && 0 <= rr2 < 9 && rr2 != rr1 && var_id(rr1, cc, dd) < t
                    + 1 implies has_pair(
                f@,
                neg_lit(var_id(rr1, cc, dd)),
                neg_lit(var_id(rr2, cc, dd)),
            ) by {
                if var_id(rr1, cc, dd) < t {
                    assert(has_pair(fp, neg_lit(var_id(rr1, cc, dd)), neg_lit(var_id(rr2, cc, dd))));
                } else {
                    lemma_var_id_injective(rr1, cc, dd, r1 as int, c as int, d as int);
                }
            }
        }
        t += 1;
    }
    proof {
        assert forall|r1: int, r2: int, c: int, d: int|
            valid_triple(r1, c, d) && valid_triple(r2, c, d) && r1 != r2 implies has_pair(
            f@,
            neg_lit(var_id(r1, c, d)),
            neg_lit(var_id(r2, c, d)),
        ) by {
            assert(var_id(r1, c, d) < 729);
        }
    }
}

/// Appends, for one cell and digit, the clauses excluding the digit from
/// every other cell of the cell's 3x3 block.
fn add_block_pairs(f: &mut Vec<Vec<Lit>>, r1: usize, c1: usize, d: usize)
    requires
        r1 < 9,
        c1 < 9,
        d < 9,
        vars_ok(old(f)@),
        all_constraint_clauses(old(f)@),
    ensures
        extends(final(f)@, old(f)@),
        vars_ok(final(f)@),
        all_constraint_clauses(final(f)@),
        final(f)@.len() == old(f)@.len() + 8,
        forall|r2: int, c2: int|
            0 <= r2 < 9 && 0 <= c2 < 9 && same_block(r1 as int, c1 as int, r2, c2) && !(r2 == r1
                && c2 == c1) ==> has_pair(
                final(f)@,
                neg_lit(var_id(r1 as int, c1 as int, d as int)),
                neg_lit(var_id(r2, c2, d as int)),
            ),
{
    let ghost f0 = f@;
    let br = (r1 / 3) * 3;
    let bc = (c1 / 3) * 3;
    let ghost self_pos = (r1 - br) * 3int + (c1 - bc);
    let v1 = encode(r1, c1, d);
    let mut x: usize = 0;
    while x < 3
        invariant
            x <= 3,
            r1 < 9,
            c1 < 9,
            d < 9,
            br == (r1 as int / 3) * 3,
            bc == (c1 as int / 3) * 3,
            self_pos == (r1 - br) * 3 + (c1 - bc),
            v1 == var_id(r1 as int, c1 as int, d as int),
            v1 < 729,
            vars_ok(f@),
            all_constraint_clauses(f@),
            extends(f@, f0),
            f@.len() == f0.len() + x * 3 - (if self_pos < x * 3 {
                1int
            } else {
                0int
            }),
            forall|r2: int, c2: int|
                br <= r2 < br + 3 && bc <= c2 < bc + 3 && (r2 - br) * 3 + (c2 - bc) < x * 3
                    && !(r2 == r1 && c2 == c1) ==> has_pair(
                    f@,
                    neg_lit(var_id(r1 as int, c1 as int, d as int)),
                    neg_lit(var_id(r2, c2, d as int)),
                ),
        decreases 3 - x,
    {
        let mut y: usize = 0;
        while y < 3
            invariant
                y <= 3,
                x < 3,
                r1 < 9,
                c1 < 9,
                d < 9,
                br == (r1 as int / 3) * 3,
                bc == (c1 as int / 3) * 3,
                self_pos == (r1 - br) * 3 + (c1 - bc),
                v1 == var_id(r1 as int, c1 as int, d as int),
                v1 < 729,
                vars_ok(f@),
                all_constraint_clauses(f@),
                extends(f@, f0),
                f@.len() == f0.len() + x * 3 + y - (if self_pos < x * 3 + y {
                    1int
                } else {
                    0int
                }),
                forall|r2: int, c2: int|
                    br <= r2 < br + 3 && bc <= c2 < bc + 3 && (r2 - br) * 3 + (c2 - bc) < x * 3 + y
                        && !(r2 == r1 && c2 == c1) ==> has_pair(
                        f@,
                        neg_lit(var_id(r1 as int, c1 as int, d as int)),
                        neg_lit(var_id(r2, c2, d as int)),
                    ),
            decreases 3 - y,
        {
            let r2 = br + x;
            let c2 = bc + y;
            if !(r2 == r1 && c2 == c1) {
                let v2 = encode(r2, c2, d);
                proof {
                    lemma_decode_encode(r1 as int, c1 as int, d as int);
                    lemma_decode_encode(r2 as int, c2 as int, d as int);
                    if v1 == v2 {
                        lemma_var_id_injective(
                            r1 as int,
                            c1 as int,
                            d as int,
                            r2 as int,
                            c2 as int,
                            d as int,
                        );
                    }
                    assert(r2 as int == (r2 as int / 3) * 3 + (r2 as int) % 3);
                    assert(c2 as int == (c2 as int / 3) * 3 + (c2 as int) % 3);
                    assert(same_block(r1 as int, c1 as int, r2 as int, c2 as int));
                    assert(conflicting_vars(v1 as int, v2 as int));
                }
                let ghost fp = f@;
                push_pair(f, v1, v2);
                proof {
                    lemma_persist(fp, f@);
                }
            } else {
                proof {
                    assert(self_pos == x * 3 + y);
                }
            }
            y += 1;
        }
        x += 1;
    }
    proof {
        assert forall|r2: int, c2: int|
            0 <= r2 < 9 && 0 <= c2 < 9 && same_block(r1 as int, c1 as int, r2, c2) && !(r2 == r1
                && c2 == c1) implies has_pair(
            f@,
            neg_lit(var_id(r1 as int, c1 as int, d as int)),
            neg_lit(var_id(r2, c2, d as int)),
        ) by {
            assert(r2 == (r2 / 3) * 3 + r2 % 3);
            assert(c2 == (c2 / 3) * 3 + c2 % 3);
            assert(br <= r2 < br + 3 && bc <= c2 < bc + 3);
            assert((r2 - br) * 3 + (c2 - bc) < 9);
        }
    }
}

/// Appends the block-exclusivity clauses of every cell and digit.
fn add_block_exclusivity(f: &mut Vec<Vec<Lit>>)
    requires
        vars_ok(old(f)@),
        all_constraint_clauses(old(f)@),
    ensures
        extends(final(f)@, old(f)@),
        vars_ok(final(f)@),
        all_constraint_clauses(final(f)@),
        final(f)@.len() == old(f)@.len() + 5832,
        forall|r1: int, c1: int, r2: int, c2: int, d: int|
            valid_triple(r1, c1, d) && valid_triple(r2, c2, d) && same_block(r1, c1, r2, c2)
                && !(r1 == r2 && c1 == c2) ==> has_pair(
                final(f)@,
                neg_lit(var_id(r1, c1, d)),
                neg_lit(var_id(r2, c2, d)),
            ),
{
    let ghost f0 = f@;
    let mut t: usize = 0;
    while t < 729
        invariant
            t <= 729,
            vars_ok(f@),
            all_constraint_clauses(f@),
            extends(f@, f0),
            f@.len() == f0.len() + 8 * t,
            forall|r1: int, c1: int, r2: int, c2: int, d: int|
                valid_triple(r1, c1, d) && 0 <= r2 < 9 && 0 <= c2 < 9 && same_block(r1, c1, r2, c2)
                    && !(r1 == r2 && c1 == c2) && var_id(r1, c1, d) < t ==> has_pair(
                    f@,
                    neg_lit(var_id(r1, c1, d)),
                    neg_lit(var_id(r2, c2, d)),
                ),
        decreases 729 - t,
    {
        let (r1, c1, d) = decode(t);
        let ghost fp = f@;
        add_block_pairs(f, r1, c1, d);
        proof {
            lemma_persist(fp, f@);
            assert forall|rr1: int, cc1: int, rr2: int, cc2: int, dd: int|
                valid_triple(rr1, cc1, dd) && 0 <= rr2 < 9 && 0 <= cc2 < 9 && same_block(
                    rr1,
                    cc1,
                    rr2,
                    cc2,
                ) && !(rr1 == rr2 && cc1 == cc2) && var_id(rr1, cc1, dd) < t + 1 implies has_pair(
                f@,
                neg_lit(var_id(rr1, cc1, dd)),
                neg_lit(var_id(rr2, cc2, dd)),
            ) by {
                if var_id(rr1, cc1, dd) < t {
                    assert(has_pair(fp, neg_lit(var_id(rr1, cc1, dd)), neg_lit(var_id(rr2, cc2, dd))));
                } else {
                    lemma_var_id_injective(rr1, cc1, dd, r1 as int, c1 as int, d as int);
                }
            }
        }
        t += 1;
    }
    proof {
        assert forall|r1: int, c1: int, r2: int, c2: int, d: int|
            valid_triple(r1, c1, d) && valid_triple(r2, c2, d) && same_block(r1, c1, r2, c2)
                && !(r1 == r2 && c1 == c2) implies has_pair(
            f@,
            neg_lit(var_id(r1, c1, d)),
            neg_lit(var_id(r2, c2, d)),
        ) by {
            assert(var_id(r1, c1, d) < 729);
        }
    }
}

/// Extension of formulas is transitive.
pub proof fn lemma_extends_trans(f3: Seq<Vec<Lit>>, f2: Seq<Vec<Lit>>, f1: Seq<Vec<Lit>>)
    requires
        extends(f3, f2),
        extends(f2, f1),
    ensures
        extends(f3, f1),
{
}

/// Builds the complete puzzle-independent Sudoku constraint formula:
/// 2916 cell-uniqueness clauses, 81 cell-coverage clauses, and 5832
/// exclusivity clauses for each of the rows, the columns and the blocks.
pub fn sudoku_formula() -> (f: Vec<Vec<Lit>>)
    ensures
        sudoku_constraints(f@),
        vars_ok(f@),
        all_constraint_clauses(f@),
        f@.len() == 2916 + 81 + 17496,
{
    let mut f: Vec<Vec<Lit>> = Vec::new();
    add_cell_uniqueness(&mut f);
    let ghost s1 = f@;
    add_cell_coverage(&mut f);
    let ghost s2 = f@;
    add_row_exclusivity(&mut f);
    let ghost s3 = f@;
    add_col_exclusivity(&mut f);
    let ghost s4 = f@;
    add_block_exclusivity(&mut f);
    proof {
        lemma_extends_trans(s3, s2, s1);
        lemma_extends_trans(s4, s3, s1);
        lemma_extends_trans(s4, s3, s2);
        lemma_extends_trans(f@, s4, s1);
        lemma_extends_trans(f@, s4, s2);
        lemma_extends_trans(f@, s4, s3);
        lemma_persist(s1, f@);
        lemma_persist(s2, f@);
        lemma_persist(s3, f@);
        lemma_persist(s4, f@);
        assert forall|r: int, c: int, a: int, b: int|
            valid_triple(r, c, a) && valid_triple(r, c, b) && a < b implies has_pair(
            f@,
            neg_lit(var_id(r, c, a)),
            neg_lit(var_id(r, c, b)),
        ) by {
            assert(has_pair(s1, neg_lit(var_id(r, c, a)), neg_lit(var_id(r, c, b))));
        }
        assert forall|r: int, c: int| 0 <= r < 9 && 0 <= c < 9 implies has_coverage(f@, r, c) by {
            assert(has_coverage(s2, r, c));
        }
        assert forall|r: int, c1: int, c2: int, d: int|
            valid_triple(r, c1, d) && valid_triple(r, c2, d) && c1 != c2 implies has_pair(
            f@,
            neg_lit(var_id(r, c1, d)),
            neg_lit(var_id(r, c2, d)),
        ) by {
            assert(has_pair(s3, neg_lit(var_id(r, c1, d)), neg_lit(var_id(r, c2, d))));
        }
        assert forall|r1: int, r2: int, c: int, d: int|
            valid_triple(r1, c, d) && valid_triple(r2, c, d) && r1 != r2 implies has_pair(
            f@,
            neg_lit(var_id(r1, c, d)),
            neg_lit(var_id(r2, c, d)),
        ) by {
            assert(has_pair(s4, neg_lit(var_id(r1, c, d)), neg_lit(var_id(r2, c, d))));
        }
        assert forall|r1: int, c1: int, r2: int, c2: int, d: int|
            valid_triple(r1, c1, d) && valid_triple(r2, c2, d) && same_block(r1, c1, r2, c2)
                && !(r1 == r2 && c1 == c2) implies has_pair(
            f@,
            neg_lit(var_id(r1, c1, d)),
            neg_lit(var_id(r2, c2, d)),
        ) by {
        }
    }
    f
}

/// The constraint set survives any extension of the formula.
pub proof fn lemma_constraints_persist(f1: Seq<Vec<Lit>>, f2: Seq<Vec<Lit>>)
    requires
        sudoku_constraints(f1),
        extends(f2, f1),
    ensures
        sudoku_constraints(f2),
{
    lemma_persist(f1, f2);
    assert forall|r: int, c: int, a: int, b: int|
        valid_triple(r, c, a) && valid_triple(r, c, b) && a < b implies has_pair(
        f2,
        neg_lit(var_id(r, c, a)),
        neg_lit(var_id(r, c, b)),
    ) by {
        assert(has_pair(f1, neg_lit(var_id(r, c, a)), neg_lit(var_id(r, c, b))));
    }
    assert forall|r: int, c: int| 0 <= r < 9 && 0 <= c < 9 implies has_coverage(f2, r, c) by {
        assert(has_coverage(f1, r, c));
    }
    assert forall|r: int, c1: int, c2: int, d: int|
        valid_triple(r, c1, d) && valid_triple(r, c2, d) && c1 != c2 implies has_pair(
        f2,
        neg_lit(var_id(r, c1, d)),
        neg_lit(var_id(r, c2, d)),
    ) by {
        assert(has_pair(f1, neg_lit(var_id(r, c1, d)), neg_lit(var_id(r, c2, d))));
    }
    assert forall|r1: int, r2: int, c: int, d: int|
        valid_triple(r1, c, d) && valid_triple(r2, c, d) && r1 != r2 implies has_pair(
        f2,
        neg_lit(var_id(r1, c, d)),
        neg_lit(var_id(r2, c, d)),
    ) by {
        assert(has_pair(f1, neg_lit(var_id(r1, c, d)), neg_lit(var_id(r2, c, d))));
    }
    assert forall|r1: int, c1: int, r2: int, c2: int, d: int|
        valid_triple(r1, c1, d) && valid_triple(r2, c2, d) && same_block(r1, c1, r2, c2) && !(r1
            == r2 && c1 == c2) implies has_pair(
        f2,
        neg_lit(var_id(r1, c1, d)),
        neg_lit(var_id(r2, c2, d)),
    ) by {
        assert(has_pair(f1, neg_lit(var_id(r1, c1, d)), neg_lit(var_id(r2, c2, d))));
    }
}

} // verus!
