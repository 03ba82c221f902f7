//! The variable indexer: a bijection between (row, col, digit) triples
//! and the variable identifiers [0, 729) of the SAT encoding.

use vstd::prelude::*;

verus! {

/// The identifier of the proposition "cell (row, col) holds digit".
pub open spec fn var_id(row: int, col: int, digit: int) -> int {
    row * 81 + col * 9 + digit
}

/// The row a variable identifier speaks about.
pub open spec fn row_of(id: int) -> int {
    id / 81
}

/// The column a variable identifier speaks about.
pub open spec fn col_of(id: int) -> int {
    (id % 81) / 9
}

/// The digit a variable identifier speaks about.
pub open spec fn digit_of(id: int) -> int {
    id % 9
}

/// The domain of the indexer: rows, columns and digits are zero-based
/// and below nine.
pub open spec fn valid_triple(row: int, col: int, digit: int) -> bool {
    0 <= row < 9 && 0 <= col < 9 && 0 <= digit < 9
}

/// Encoding a valid triple and decoding the result gives the triple back.
pub proof fn lemma_decode_encode(row: int, col: int, digit: int)
    requires
        valid_triple(row, col, digit),
    ensures
        0 <= var_id(row, col, digit) < 729,
        row_of(var_id(row, col, digit)) == row,
        col_of(var_id(row, col, digit)) == col,
        digit_of(var_id(row, col, digit)) == digit,
{
    let id = row * 81 + col * 9 + digit;
    assert(id / 81 == row) by (nonlinear_arith)
        requires
            0 <= row < 9 && 0 <= col < 9 && 0 <= digit < 9 && id == row * 81 + col * 9 + digit,
    ;
    assert(id % 81 == col * 9 + digit) by (nonlinear_arith)
        requires
            0 <= row < 9 && 0 <= col < 9 && 0 <= digit < 9 && id == row * 81 + col * 9 + digit,
    ;
    assert((col * 9 + digit) / 9 == col) by (nonlinear_arith)
        requires
            0 <= col < 9 && 0 <= digit < 9,
    ;
    assert(id % 9 == digit) by (nonlinear_arith)
        requires
            0 <= row < 9 && 0 <= col < 9 && 0 <= digit < 9 && id == row * 81 + col * 9 + digit,
    ;
}

/// Decoding an identifier in range and encoding the result gives the
/// identifier back, and the decoded triple is valid.
pub proof fn lemma_encode_decode(id: int)
    requires
        0 <= id < 729,
    ensures
        valid_triple(row_of(id), col_of(id), digit_of(id)),
        var_id(row_of(id), col_of(id), digit_of(id)) == id,
{
    assert(0 <= id / 81 < 9 && 0 <= (id % 81) / 9 < 9 && 0 <= id % 9 < 9) by (nonlinear_arith)
        requires
            0 <= id < 729,
    ;
    assert((id / 81) * 81 + ((id % 81) / 9) * 9 + id % 9 == id) by (nonlinear_arith)
        requires
            0 <= id < 729,
    ;
}

/// No two valid triples share an identifier.
pub proof fn lemma_var_id_injective(r1: int, c1: int, d1: int, r2: int, c2: int, d2: int)
    requires
        valid_triple(r1, c1, d1),
        valid_triple(r2, c2, d2),
        var_id(r1, c1, d1) == var_id(r2, c2, d2),
    ensures
        r1 == r2 && c1 == c2 && d1 == d2,
{
    lemma_decode_encode(r1, c1, d1);
    lemma_decode_encode(r2, c2, d2);
}

/// Maps a (row, col, digit) triple to its variable identifier.
pub fn encode(row: usize, col: usize, digit: usize) -> (id: usize)
    requires
        valid_triple(row as int, col as int, digit as int),
    ensures
        id == var_id(row as int, col as int, digit as int),
        id < 729,
{
    row * 81 + col * 9 + digit
}

/// Maps a variable identifier back to its (row, col, digit) triple.
pub fn decode(id: usize) -> (t: (usize, usize, usize))
    requires
        id < 729,
    ensures
        t.0 == row_of(id as int),
        t.1 == col_of(id as int),
        t.2 == digit_of(id as int),
        valid_triple(t.0 as int, t.1 as int, t.2 as int),
        var_id(t.0 as int, t.1 as int, t.2 as int) == id,
{
    proof {
        lemma_encode_decode(id as int);
    }
    (id / 81, (id % 81) / 9, id % 9)
}

} // verus!
