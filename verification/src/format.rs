//! Rendering a puzzle string as the traditional boxed grid: nine content
//! rows of digits in triples separated by `|`, with a dashed separator line
//! after every third row (the trailing one omitted), 11 lines in all.

use vstd::prelude::*;
use vstd::string::StringExecFns;
use crate::PuzzleError;
use crate::engine::Sudoku;
use crate::grid::{allowed_char, filtered_chars, valid_grid, filter_chars};

verus! {

/// The separator line: three runs of six dashes joined by `+`.
pub open spec fn sep_line() -> Seq<char> {
    Seq::new(20, |i: int| if i == 6 || i == 13 { '+' } else { '-' })
}

/// Content row `r` of the rendered grid: each digit in a two-column cell,
/// with `|` between the three-cell triples.
pub open spec fn display_line(g: Seq<char>, r: int) -> Seq<char> {
    seq![
        g[9 * r], ' ', g[9 * r + 1], ' ', g[9 * r + 2], ' ', '|',
        g[9 * r + 3], ' ', g[9 * r + 4], ' ', g[9 * r + 5], ' ', '|',
        g[9 * r + 6], ' ', g[9 * r + 7], ' ', g[9 * r + 8], ' ',
    ]
}

/// Where content row `r` lands in the output: separators shift later rows.
pub open spec fn line_index(r: int) -> int {
    r + r / 3
}

/// The one-character string spelling a cell of the puzzle alphabet.
fn cell_str(c: char) -> (r: &'static str)
    requires
        allowed_char(c),
    ensures
        r@ =~= seq![c],
{
    proof {
        reveal_strlit("1");
        reveal_strlit("2");
        reveal_strlit("3");
        reveal_strlit("4");
        reveal_strlit("5");
        reveal_strlit("6");
        reveal_strlit("7");
        reveal_strlit("8");
        reveal_strlit("9");
        reveal_strlit("0");
        reveal_strlit(".");
    }
    match c {
        '1' => "1",
        '2' => "2",
        '3' => "3",
        '4' => "4",
        '5' => "5",
        '6' => "6",
        '7' => "7",
        '8' => "8",
        '9' => "9",
        '0' => "0",
        _ => ".",
    }
}

/// Builds content row `r` from the 81 filtered characters.
fn build_row(g: &Vec<char>, r: usize) -> (line: String)
    requires
        r < 9,
        g@.len() == 81,
        forall|i: int| 0 <= i < 81 ==> allowed_char(#[trigger] g@[i]),
    ensures
        line@ == display_line(g@, r as int),
{
    let mut line = String::new();
    line.append(cell_str(g[9 * r]));
    line.append(" ");
    line.append(cell_str(g[9 * r + 1]));
    line.append(" ");
    line.append(cell_str(g[9 * r + 2]));
    line.append(" ");
    line.append("|");
    line.append(cell_str(g[9 * r + 3]));
    line.append(" ");
    line.append(cell_str(g[9 * r + 4]));
    line.append(" ");
    line.append(cell_str(g[9 * r + 5]));
    line.append(" ");
    line.append("|");
    line.append(cell_str(g[9 * r + 6]));
    line.append(" ");
    line.append(cell_str(g[9 * r + 7]));
    line.append(" ");
    line.append(cell_str(g[9 * r + 8]));
    line.append(" ");
    proof {
        reveal_strlit(" ");
        reveal_strlit("|");
        assert(line@ =~= display_line(g@, r as int));
    }
    line
}

/// The dashed separator between the three bands of rows.
fn sep_string() -> (line: String)
    ensures
        line@ == sep_line(),
{
    let line = "------+------+------";
    proof {
        reveal_strlit("------+------+------");
        assert(line@ =~= sep_line());
    }
    String::from_str(line)
}

/// Everything `display` promises of its result: exactly the invalid inputs
/// are rejected with `InvalidGrid`, and a rendered grid is 11 lines, the
/// separator at output lines 3 and 7 and each content row in its place.
pub open spec fn display_post(grid: Seq<char>, r: Result<Vec<String>, PuzzleError>) -> bool {
    &&& (r matches Err(e) ==> e == PuzzleError::InvalidGrid)
    &&& ((r matches Err(e)) <==> !valid_grid(grid))
    &&& (r matches Ok(lines) ==> {
        &&& lines@.len() == 11
        &&& lines@[3]@ == sep_line()
        &&& lines@[7]@ == sep_line()
        &&& forall|rr: int|
            0 <= rr < 9 ==> (#[trigger] lines@[line_index(rr)])@ == display_line(
                filtered_chars(grid),
                rr,
            )
    })
}

impl Sudoku {
    /// Renders a puzzle string, solved or not, as the boxed text layout:
    /// exactly 11 lines, with the separator at output lines 3 and 7.
    pub fn display(grid: &str) -> (r: Result<Vec<String>, PuzzleError>)
        ensures
            display_post(grid@, r),
    {
        let g = filter_chars(grid);
        if g.len() != 81 {
            return Err(PuzzleError::InvalidGrid);
        }
        proof {
            broadcast use vstd::seq_lib::group_filter_ensures;

            assert forall|i: int| 0 <= i < 81 implies allowed_char(#[trigger] g@[i]) by {
                assert(g@[i] == filtered_chars(grid@)[i]);
            }
        }
        let mut lines: Vec<String> = Vec::new();
        lines.push(build_row(&g, 0));
        lines.push(build_row(&g, 1));
        lines.push(build_row(&g, 2));
        lines.push(sep_string());
        lines.push(build_row(&g, 3));
        lines.push(build_row(&g, 4));
        lines.push(build_row(&g, 5));
        lines.push(sep_string());
        lines.push(build_row(&g, 6));
        lines.push(build_row(&g, 7));
        lines.push(build_row(&g, 8));
        proof {
            assert forall|rr: int| 0 <= rr < 9 implies (#[trigger] lines@[line_index(rr)])@
                == display_line(filtered_chars(grid@), rr) by {
                assert(line_index(rr) == rr + rr / 3);
            }
        }
        Ok(lines)
    }
}

} // verus!
