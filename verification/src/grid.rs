//! The 9x9 board: parsing from the 81-character text format and
//! rendering in the human-readable display format.

use vstd::prelude::*;
use vstd::string::StrSliceExecFns;
use vstd::string::StringExecFns;

verus! {

/// A parse failure: an unexpected character, or a wrong input length.
#[derive(Clone, Copy, Debug, PartialEq, Eq)]
pub enum ParseError {
    /// The first character outside ' ' and '1'..'9'.
    InvalidChar(char),
    /// All characters in range, but not exactly 81 of them.
    WrongLength,
}

/// The cell a character of the text format stands for, if any: a blank
/// for an empty cell, or a digit '1'..'9' stored zero-based.
pub open spec fn char_cell(ch: char) -> Option<Option<u8>> {
    if ch == ' ' {
        Some(None)
    } else if ch == '1' {
        Some(Some(0u8))
    } else if ch == '2' {
        Some(Some(1u8))
    } else if ch == '3' {
        Some(Some(2u8))
    } else if ch == '4' {
        Some(Some(3u8))
    } else if ch == '5' {
        Some(Some(4u8))
    } else if ch == '6' {
        Some(Some(5u8))
    } else if ch == '7' {
        Some(Some(6u8))
    } else if ch == '8' {
        Some(Some(7u8))
    } else if ch == '9' {
        Some(Some(8u8))
    } else {
        None
    }
}

pub open spec fn valid_cell_char(ch: char) -> bool {
    char_cell(ch) is Some
}

pub open spec fn has_bad_char(s: Seq<char>) -> bool {
    exists|i: int| 0 <= i < s.len() && !valid_cell_char(#[trigger] s[i])
}

/// The meaning of the text format: exactly 81 characters, each one a
/// blank or a digit, giving the cells in row-major order.
pub open spec fn parse_spec(s: Seq<char>) -> Option<Seq<Option<u8>>> {
    if s.len() == 81 && !has_bad_char(s) {
        Some(Seq::new(81, |i: int| char_cell(s[i]).unwrap()))
    } else {
        None
    }
}

/// The 9x9 board, row-major: 81 cells, each empty or a zero-based digit.
pub struct Grid {
    cells: Vec<Option<u8>>,
}

impl View for Grid {
    type V = Seq<Option<u8>>;

    closed spec fn view(&self) -> Seq<Option<u8>> {
        self.cells@
    }
}

impl Grid {
    /// Well-formed: exactly 81 cells, every digit below nine.
    pub open spec fn wf(&self) -> bool {
        self@.len() == 81 && forall|i: int|
            0 <= i < 81 ==> ((#[trigger] self@[i]) matches Some(d) ==> d < 9)
    }

    /// The cell in row r, column c.
    pub open spec fn cell(&self, r: int, c: int) -> Option<u8> {
        self@[r * 9 + c]
    }

    /// Every cell holds a digit.
    pub open spec fn filled(&self) -> bool {
        forall|i: int| 0 <= i < 81 ==> (#[trigger] self@[i]) is Some
    }

    /// The cell in column x, row y.
    pub fn get(&self, x: usize, y: usize) -> (c: Option<u8>)
        requires
            self.wf(),
            x < 9,
            y < 9,
        ensures
            c == self.cell(y as int, x as int),
    {
        self.cells[y * 9 + x]
    }

    /// Wraps a cell vector built by the decoder.
    pub(crate) fn from_cells(cells: Vec<Option<u8>>) -> (g: Grid)
        requires
            cells@.len() == 81,
            forall|i: int| 0 <= i < 81 ==> ((#[trigger] cells@[i]) matches Some(d) ==> d < 9),
        ensures
            g@ == cells@,
            g.wf(),
    {
        Grid { cells }
    }

    /// Parses the 81-character text format: ' ' for an empty cell,
    /// '1'..'9' for a given digit, row-major, no separators.
    pub fn from_str(s: &str) -> (res: Result<Grid, ParseError>)
        ensures
            res is Ok <==> parse_spec(s@) is Some,
            res matches Ok(g) ==> g.wf() && parse_spec(s@) == Some(g@),
            res matches Err(ParseError::InvalidChar(ch)) ==> (exists|i: int|
                0 <= i < s@.len() && s@[i] == ch && !valid_cell_char(#[trigger] s@[i]) && (forall|
                    j: int,
                |
                    0 <= j < i ==> valid_cell_char(#[trigger] s@[j]))),
            (res matches Err(ParseError::InvalidChar(c2))) <==> has_bad_char(s@),
            res == Err::<Grid, ParseError>(ParseError::WrongLength) <==> (!has_bad_char(s@)
                && s@.len() != 81),
    {
        let n = s.unicode_len();
        let mut cells: Vec<Option<u8>> = Vec::new();
        let mut i: usize = 0;
        while i < n
            invariant
                i <= n,
                n == s@.len(),
                cells@.len() == i,
                forall|j: int| 0 <= j < i ==> valid_cell_char(#[trigger] s@[j]),
                forall|j: int| 0 <= j < i ==> cells@[j] == char_cell(#[trigger] s@[j]).unwrap(),
                forall|j: int| 0 <= j < i ==> ((#[trigger] cells@[j]) matches Some(d) ==> d < 9),
            decreases n - i,
        {
            let ch = s.get_char(i);
            match classify(ch) {
                Some(cellv) => {
                    cells.push(cellv);
                },
                None => {
                    return Err(ParseError::InvalidChar(ch));
                },
            }
            i += 1;
        }
        if n != 81 {
            return Err(ParseError::WrongLength);
        }
        let g = Grid { cells };
        proof {
            let expect = Seq::new(81, |j: int| char_cell(s@[j]).unwrap());
            assert(g@ =~= expect);
        }
        Ok(g)
    }
}

/// The cell a character stands for, if any.
fn classify(ch: char) -> (r: Option<Option<u8>>)
    ensures
        r == char_cell(ch),
{
    match ch {
        ' ' => Some(None),
        '1' => Some(Some(0)),
        '2' => Some(Some(1)),
        '3' => Some(Some(2)),
        '4' => Some(Some(3)),
        '5' => Some(Some(4)),
        '6' => Some(Some(5)),
        '7' => Some(Some(6)),
        '8' => Some(Some(7)),
        '9' => Some(Some(8)),
        _ => None,
    }
}

/// The character a digit is displayed as.
pub open spec fn digit_char(d: int) -> char {
    if d == 0 {
        '1'
    } else if d == 1 {
        '2'
    } else if d == 2 {
        '3'
    } else if d == 3 {
        '4'
    } else if d == 4 {
        '5'
    } else if d == 5 {
        '6'
    } else if d == 6 {
        '7'
    } else if d == 7 {
        '8'
    } else {
        '9'
    }
}

/// The text of one cell: a digit and a space, or a single blank.
pub open spec fn cell_text(oc: Option<u8>) -> Seq<char> {
    match oc {
        None => seq![' '],
        Some(d) => seq![digit_char(d as int), ' '],
    }
}

/// The column separator written after columns 2 and 5.
pub open spec fn col_sep(c: int) -> Seq<char> {
    if c == 2 || c == 5 {
        seq!['|', ' ']
    } else {
        Seq::empty()
    }
}

/// The divider line written after rows 2 and 5.
pub open spec fn divider() -> Seq<char> {
    Seq::new(21, |i: int| '-') + seq!['\n']
}

pub open spec fn row_sep(r: int) -> Seq<char> {
    if r == 2 || r == 5 {
        divider()
    } else {
        Seq::empty()
    }
}

/// The display text of row r, up to column c.
pub open spec fn row_prefix(g: Grid, r: int, c: int) -> Seq<char>
    decreases c,
{
    if c <= 0 {
        Seq::empty()
    } else {
        row_prefix(g, r, c - 1) + cell_text(g.cell(r, c - 1)) + col_sep(c - 1)
    }
}

/// The display text of the first r rows.
pub open spec fn rows_prefix(g: Grid, r: int) -> Seq<char>
    decreases r,
{
    if r <= 0 {
        Seq::empty()
    } else {
        rows_prefix(g, r - 1) + row_prefix(g, r - 1, 9) + seq!['\n'] + row_sep(r - 1)
    }
}

/// The full display text of a grid.
pub open spec fn display_text(g: Grid) -> Seq<char> {
    rows_prefix(g, 9)
}

/// The two display characters of a given digit.
fn digit_str(d: u8) -> (r: &'static str)
    requires
        d < 9,
    ensures
        r@ == cell_text(Some(d)),
{
    proof {
        reveal_strlit("1 ");
        reveal_strlit("2 ");
        reveal_strlit("3 ");
        reveal_strlit("4 ");
        reveal_strlit("5 ");
        reveal_strlit("6 ");
        reveal_strlit("7 ");
        reveal_strlit("8 ");
        reveal_strlit("9 ");
    }
    match d {
        0 => "1 ",
        1 => "2 ",
        2 => "3 ",
        3 => "4 ",
        4 => "5 ",
        5 => "6 ",
        6 => "7 ",
        7 => "8 ",
        _ => "9 ",
    }
}

impl Grid {
    /// Renders the board: nine rows of cells with a block separator
    /// after every third column and a divider line after every third row.
    pub fn to_display_string(&self) -> (out: String)
        requires
            self.wf(),
        ensures
            out@ == display_text(*self),
    {
        let mut out = String::new();
        let mut r: usize = 0;
        proof {
            assert(out@ =~= rows_prefix(*self, 0));
        }
        while r < 9
            invariant
                self.wf(),
                r <= 9,
                out@ == rows_prefix(*self, r as int),
            decreases 9 - r,
        {
            let ghost row_start = out@;
            let mut c: usize = 0;
            proof {
                assert(out@ =~= row_start + row_prefix(*self, r as int, 0));
            }
            while c < 9
                invariant
                    self.wf(),
                    r < 9,
                    c <= 9,
                    row_start == rows_prefix(*self, r as int),
                    out@ == row_start + row_prefix(*self, r as int, c as int),
                decreases 9 - c,
            {
                let ghost before = out@;
                match self.get(c, r) {
                    None => {
                        out.append(" ");
                        proof {
                            reveal_strlit(" ");
                            assert(out@ =~= before + cell_text(self.cell(r as int, c as int)));
                        }
                    },
                    Some(d) => {
                        let piece = digit_str(d);
                        out.append(piece);
                        proof {
                            assert(out@ =~= before + cell_text(self.cell(r as int, c as int)));
                        }
                    },
                }
                if c < 8 && (c + 1) % 3 == 0 {
                    out.append("| ");
                    proof {
                        reveal_strlit("| ");
                    }
                }
                proof {
                    assert(out@ =~= row_start + row_prefix(*self, r as int, c as int + 1));
                }
                c += 1;
            }
            out.append("\n");
            proof {
                reveal_strlit("\n");
            }
            if r < 8 && (r + 1) % 3 == 0 {
                out.append("---------------------\n");
                proof {
                    reveal_strlit("---------------------\n");
                    assert("---------------------\n"@ =~= divider());
                }
            }
            proof {
                assert(out@ =~= rows_prefix(*self, r as int + 1));
            }
            r += 1;
        }
        out
    }
}

/// A character that displays a digit.
pub open spec fn is_digit_char(ch: char) -> bool {
    char_cell(ch) matches Some(Some(_))
}

/// The text with everything but digit characters removed: what is left
/// of a display rendering once separators, blanks and dividers go.
pub open spec fn strip_text(s: Seq<char>) -> Seq<char>
    decreases s.len(),
{
    if s.len() == 0 {
        Seq::empty()
    } else if is_digit_char(s.last()) {
        strip_text(s.drop_last()).push(s.last())
    } else {
        strip_text(s.drop_last())
    }
}

/// Stripping distributes over concatenation.
proof fn lemma_strip_add(a: Seq<char>, b: Seq<char>)
    ensures
        strip_text(a + b) == strip_text(a) + strip_text(b),
    decreases b.len(),
{
    if b.len() == 0 {
        assert(a + b =~= a);
        assert(strip_text(b) =~= Seq::<char>::empty());
        assert(strip_text(a) + strip_text(b) =~= strip_text(a));
    } else {
        lemma_strip_add(a, b.drop_last());
        assert((a + b).drop_last() =~= a + b.drop_last());
        assert((a + b).last() == b.last());
        if is_digit_char(b.last()) {
            assert(strip_text(a + b) == strip_text(a + b.drop_last()).push(b.last()));
            assert((strip_text(a) + strip_text(b.drop_last())).push(b.last()) =~= strip_text(a)
                + strip_text(b.drop_last()).push(b.last()));
        }
    }
}

/// A text of non-digit characters strips to nothing.
proof fn lemma_strip_none(s: Seq<char>)
    requires
        forall|i: int| 0 <= i < s.len() ==> !is_digit_char(#[trigger] s[i]),
    ensures
        strip_text(s) == Seq::<char>::empty(),
    decreases s.len(),
{
    if s.len() > 0 {
        lemma_strip_none(s.drop_last());
        assert(!is_digit_char(s.last()));
    }
}

/// The digits a full grid's display keeps after stripping, row by row.
proof fn lemma_strip_row(g: Grid, r: int, c: int)
    requires
        g.wf(),
        g.filled(),
        0 <= r < 9,
        0 <= c <= 9,
    ensures
        strip_text(row_prefix(g, r, c)) == Seq::new(
            c as nat,
            |i: int| digit_char(g.cell(r, i).unwrap() as int),
        ),
    decreases c,
{
    let expect = Seq::new(c as nat, |i: int| digit_char(g.cell(r, i).unwrap() as int));
    if c <= 0 {
        assert(strip_text(row_prefix(g, r, c)) =~= expect);
    } else {
        lemma_strip_row(g, r, c - 1);
        let head = row_prefix(g, r, c - 1);
        let cell = cell_text(g.cell(r, c - 1));
        let sep = col_sep(c - 1);
        lemma_strip_add(head + cell, sep);
        lemma_strip_add(head, cell);
        assert(g@[r * 9 + (c - 1)] is Some);
        let d = g.cell(r, c - 1).unwrap();
        assert(cell =~= seq![digit_char(d as int), ' ']);
        assert(!is_digit_char(' '));
        assert(is_digit_char(digit_char(d as int)));
        let single = seq![digit_char(d as int)];
        assert(cell.last() == ' ');
        assert(cell.drop_last() =~= single);
        assert(strip_text(cell) == strip_text(single));
        assert(single.last() == digit_char(d as int));
        assert(single.drop_last() =~= Seq::<char>::empty());
        assert(strip_text(single) == strip_text(Seq::<char>::empty()).push(digit_char(d as int)));
        assert(strip_text(Seq::<char>::empty()) =~= Seq::<char>::empty());
        assert(strip_text(cell) =~= single);
        assert forall|i: int| 0 <= i < sep.len() implies !is_digit_char(#[trigger] sep[i]) by {
            assert(!is_digit_char('|') && !is_digit_char(' '));
        }
        lemma_strip_none(sep);
        assert(strip_text(row_prefix(g, r, c)) =~= expect);
    }
}

/// The digits a full grid's display keeps after stripping.
proof fn lemma_strip_rows(g: Grid, r: int)
    requires
        g.wf(),
        g.filled(),
        0 <= r <= 9,
    ensures
        strip_text(rows_prefix(g, r)) == Seq::new(
            (r * 9) as nat,
            |i: int| digit_char(g@[i].unwrap() as int),
        ),
    decreases r,
{
    let expect = Seq::new((r * 9) as nat, |i: int| digit_char(g@[i].unwrap() as int));
    if r <= 0 {
        assert(strip_text(rows_prefix(g, r)) =~= expect);
    } else {
        lemma_strip_rows(g, r - 1);
        lemma_strip_row(g, r - 1, 9);
        let head = rows_prefix(g, r - 1);
        let row = row_prefix(g, r - 1, 9);
        let nl = seq!['\n'];
        let sep = row_sep(r - 1);
        lemma_strip_add(head + row + nl, sep);
        lemma_strip_add(head + row, nl);
        lemma_strip_add(head, row);
        assert(!is_digit_char('\n'));
        assert(nl.drop_last() =~= Seq::<char>::empty());
        assert(strip_text(nl) =~= Seq::<char>::empty());
        assert forall|i: int| 0 <= i < sep.len() implies !is_digit_char(#[trigger] sep[i]) by {
            if r - 1 == 2 || r - 1 == 5 {
                assert(sep == divider());
                if i < 21 {
                    assert(sep[i] == '-');
                } else {
                    assert(sep[i] == '\n');
                }
            }
        }
        lemma_strip_none(sep);
        assert forall|i: int| 0 <= i < r * 9 implies strip_text(rows_prefix(g, r))[i]
            == expect[i] by {
            if i < (r - 1) * 9 {
            } else {
                let cc = i - (r - 1) * 9;
                assert(strip_text(row)[cc] == digit_char(g.cell(r - 1, cc).unwrap() as int));
                assert(g.cell(r - 1, cc) == g@[(r - 1) * 9 + cc]);
            }
        }
        assert(strip_text(rows_prefix(g, r)) =~= expect);
    }
}

/// Parsing the display output of a full grid, once separators and
/// padding are stripped away, gives the very same cells back.
pub proof fn lemma_display_round_trip(g: Grid)
    requires
        g.wf(),
        g.filled(),
    ensures
        parse_spec(strip_text(display_text(g))) == Some(g@),
{
    lemma_strip_rows(g, 9);
    let line = strip_text(display_text(g));
    assert(line.len() == 81);
    assert forall|i: int| 0 <= i < line.len() implies valid_cell_char(#[trigger] line[i]) by {
        assert(g@[i] is Some);
        assert((g@[i] matches Some(x) ==> x < 9));
        assert(line[i] == digit_char(g@[i].unwrap() as int));
    }
    assert(!has_bad_char(line));
    let parsed = parse_spec(line).unwrap();
    assert forall|i: int| 0 <= i < 81 implies parsed[i] == g@[i] by {
        assert(g@[i] is Some);
        assert((g@[i] matches Some(x) ==> x < 9));
        assert(line[i] == digit_char(g@[i].unwrap() as int));
    }
    assert(parsed =~= g@);
}

} // verus!
