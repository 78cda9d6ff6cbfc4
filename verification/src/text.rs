//! Text encoding of a board: nine rows of nine characters, a space for an
//! empty cell and '1'-'9' for a digit. `construct` is the sole entry point
//! from raw text; `render` is its inverse on well-formed input.

use vstd::prelude::*;
use crate::board::{World, at, valid_cell};

verus! {

/// A character of the encoding: a space or a digit '1'-'9'.
pub open spec fn char_ok(c: char) -> bool {
    c == ' ' || ('1' <= c && c <= '9')
}

/// The cell a character encodes: a space is empty, a digit is itself.
pub open spec fn cell_of_char(c: char) -> Option<u8> {
    if c == ' ' {
        None
    } else {
        Some((c as int - 48) as u8)
    }
}

/// The character a cell renders to: the inverse of `cell_of_char`.
pub open spec fn char_of_cell(c: Option<u8>) -> char {
    match c {
        None => ' ',
        Some(d) => if d == 1 {
            '1'
        } else if d == 2 {
            '2'
        } else if d == 3 {
            '3'
        } else if d == 4 {
            '4'
        } else if d == 5 {
            '5'
        } else if d == 6 {
            '6'
        } else if d == 7 {
            '7'
        } else if d == 8 {
            '8'
        } else {
            '9'
        },
    }
}

/// A row of the encoding: exactly nine characters, each a space or a digit.
pub open spec fn row_ok(row: Seq<char>) -> bool {
    row.len() == 9 && forall|j: int| 0 <= j < 9 ==> char_ok(#[trigger] row[j])
}

/// A full encoding: exactly nine well-formed rows.
pub open spec fn rows_ok(rows: Seq<Seq<char>>) -> bool {
    rows.len() == 9 && forall|i: int| 0 <= i < 9 ==> row_ok(#[trigger] rows[i])
}

/// The grid a well-formed encoding denotes, cell by cell.
pub open spec fn parse_grid(rows: Seq<Seq<char>>) -> Seq<Option<u8>> {
    Seq::new(81, |k: int| cell_of_char(rows[k / 9][k % 9]))
}

/// The encoding of a grid, row by row.
pub open spec fn render_grid(s: Seq<Option<u8>>) -> Seq<Seq<char>> {
    Seq::new(9, |i: int| Seq::new(9, |j: int| char_of_cell(at(s, i, j))))
}

/// The failure report of `World::construct`: the text is not nine rows of
/// nine characters over spaces and '1'-'9'.
#[derive(Clone, Copy, Debug, PartialEq, Eq, Structural)]
pub struct FormatError;

/// Relies on String::push: appends exactly the given character at the end.
#[verifier::external_body]
fn push_char(s: &mut String, c: char)
    ensures
        final(s)@ == old(s)@.push(c),
{
    s.push(c);
}

impl World {
    /// The cell a valid character encodes.
    pub fn construct_cell(ch: char) -> (c: Option<u8>)
        requires
            char_ok(ch),
        ensures
            c == cell_of_char(ch),
            valid_cell(c),
    {
        if ch == ' ' {
            None
        } else {
            Some((ch as u32 - 48) as u8)
        }
    }

    /// Parse nine rows of text into a board.
    ///
    /// Fails exactly when the input is not nine rows of nine characters over
    /// spaces and digits; on success the board is the parsed grid.
    pub fn construct(rows: &Vec<String>) -> (r: Result<World, FormatError>)
        ensures
            r is Ok <==> rows_ok(rows.deep_view()),
            r matches Ok(w) ==> w.wf() && w@ == parse_grid(rows.deep_view()),
    {
        if rows.len() != 9 {
            return Err(FormatError);
        }
        let mut cells: Vec<Option<u8>> = Vec::new();
        let mut i: usize = 0;
        while i < 9
            invariant
                i <= 9,
                rows@.len() == 9,
                cells@.len() == i * 9,
                forall|m: int| 0 <= m < i ==> row_ok(#[trigger] rows.deep_view()[m]),
                forall|k: int| 0 <= k < i * 9 ==> valid_cell(#[trigger] cells@[k]),
                forall|k: int|
                    0 <= k < i * 9 ==> #[trigger] cells@[k] == cell_of_char(
                        rows.deep_view()[k / 9][k % 9],
                    ),
            decreases 9 - i,
        {
            let row = &rows[i];
            if row.as_str().unicode_len() != 9 {
                proof {
                    assert(rows.deep_view()[i as int] == rows@[i as int]@);
                    assert(!row_ok(rows.deep_view()[i as int]));
                }
                return Err(FormatError);
            }
            let mut j: usize = 0;
            while j < 9
                invariant
                    i < 9,
                    j <= 9,
                    rows@.len() == 9,
                    rows.deep_view()[i as int].len() == 9,
                    row == rows@[i as int],
                    cells@.len() == i * 9 + j,
                    forall|m: int| 0 <= m < j ==> char_ok(#[trigger] rows.deep_view()[i as int][m]),
                    forall|k: int| 0 <= k < i * 9 + j ==> valid_cell(#[trigger] cells@[k]),
                    forall|k: int|
                        0 <= k < i * 9 + j ==> #[trigger] cells@[k] == cell_of_char(
                            rows.deep_view()[k / 9][k % 9],
                        ),
                decreases 9 - j,
            {
                let ch = row.as_str().get_char(j);
                if !(ch == ' ' || ('1' <= ch && ch <= '9')) {
                    return Err(FormatError);
                }
                cells.push(World::construct_cell(ch));
                proof {
                    let k = i as int * 9 + j as int;
                    assert(k / 9 == i as int && k % 9 == j as int);
                    assert(cells@[k] == cell_of_char(rows.deep_view()[k / 9][k % 9]));
                }
                j += 1;
            }
            i += 1;
        }
        let w = World::from_cells(cells);
        proof {
            assert(w@ =~= parse_grid(rows.deep_view()));
        }
        Ok(w)
    }

    /// Render the board as nine rows of text, the inverse of `construct`.
    pub fn render(&self) -> (r: Vec<String>)
        requires
            self.wf(),
        ensures
            r.deep_view() == render_grid(self@),
    {
        let mut out: Vec<String> = Vec::new();
        let mut i: usize = 0;
        while i < 9
            invariant
                self.wf(),
                i <= 9,
                out@.len() == i,
                forall|m: int| 0 <= m < i ==> (#[trigger] out@[m])@ == render_grid(self@)[m],
            decreases 9 - i,
        {
            let mut row = String::new();
            let mut j: usize = 0;
            while j < 9
                invariant
                    self.wf(),
                    i < 9,
                    j <= 9,
                    row@.len() == j,
                    forall|m: int|
                        0 <= m < j ==> #[trigger] row@[m] == char_of_cell(
                            at(self@, i as int, m),
                        ),
                decreases 9 - j,
            {
                let c = match self.get(i, j) {
                    None => ' ',
                    Some(d) => if d == 1 {
                        '1'
                    } else if d == 2 {
                        '2'
                    } else if d == 3 {
                        '3'
                    } else if d == 4 {
                        '4'
                    } else if d == 5 {
                        '5'
                    } else if d == 6 {
                        '6'
                    } else if d == 7 {
                        '7'
                    } else if d == 8 {
                        '8'
                    } else {
                        '9'
                    },
                };
                push_char(&mut row, c);
                j += 1;
            }
            proof {
                assert(row@ =~= render_grid(self@)[i as int]);
            }
            out.push(row);
            i += 1;
        }
        proof {
            assert forall|m: int| 0 <= m < 9 implies #[trigger] out.deep_view()[m] == render_grid(
                self@,
            )[m] by {
                assert(out.deep_view()[m] == (out@[m])@);
            }
            assert(out.deep_view() =~= render_grid(self@));
        }
        out
    }
}

/// Each valid character survives a parse-then-render round trip.
proof fn lemma_char_round_trip(c: char)
    requires
        char_ok(c),
    ensures
        char_of_cell(cell_of_char(c)) == c,
{
}

/// Round trip of the encoding: rendering the board parsed from any
/// well-formed nine-row text gives that text back unchanged.
pub proof fn lemma_render_construct_round_trip(rows: Seq<Seq<char>>)
    requires
        rows_ok(rows),
    ensures
        render_grid(parse_grid(rows)) == rows,
{
    let s = parse_grid(rows);
    assert forall|i: int| 0 <= i < 9 implies #[trigger] render_grid(s)[i] == rows[i] by {
        assert forall|j: int| 0 <= j < 9 implies #[trigger] render_grid(s)[i][j] == rows[i][j] by {
            let k = i * 9 + j;
            assert(k / 9 == i && k % 9 == j);
            assert(at(s, i, j) == cell_of_char(rows[i][j]));
            lemma_char_round_trip(rows[i][j]);
        }
        assert(render_grid(s)[i] =~= rows[i]);
    }
    assert(render_grid(s) =~= rows);
}

} // verus!
