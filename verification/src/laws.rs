//! The engine's guiding laws, proved once and for all from the contracts of
//! `solve` and `display`.  Each takes the result of a call as a ghost
//! parameter together with the contract's postcondition, and pins down what
//! the call must have returned.

use vstd::prelude::*;
use crate::PuzzleError;
use crate::cands::solution_ok;
use crate::grid::{
    is_digit_char, filtered_chars, valid_grid, digit_of_char, digits_of_chars, clue_consistent,
    lemma_digit_char,
};
use crate::solver::{solves, solve_post};
use crate::format::display_post;

verus! {

/// On a valid puzzle whose clues admit exactly one valid solution, `solve`
/// returns precisely that solution, spelled as its 81 digit characters.
pub proof fn lemma_solve_unique_solution(
    grid: Seq<char>,
    a: Seq<u8>,
    r: Result<String, PuzzleError>,
)
    requires
        valid_grid(grid),
        solves(filtered_chars(grid), a),
        forall|b: Seq<u8>| solves(filtered_chars(grid), b) ==> b == a,
        solve_post(grid, r),
    ensures
        r matches Ok(out) && digits_of_chars(out@) == a,
{
    match r {
        Ok(out) => {
            assert(digits_of_chars(out@) == a);
        },
        Err(e) => {
            assert(e != PuzzleError::InvalidGrid);
            assert(e != PuzzleError::Unsolved);
            assert(clue_consistent(filtered_chars(grid), a));
            assert(false);
        },
    }
}

/// An input that does not filter to exactly 81 characters is rejected by
/// both `solve` and `display`, in each case with `InvalidGrid`.
pub proof fn lemma_invalid_rejected(
    grid: Seq<char>,
    rs: Result<String, PuzzleError>,
    rd: Result<Vec<String>, PuzzleError>,
)
    requires
        !valid_grid(grid),
        solve_post(grid, rs),
        display_post(grid, rd),
    ensures
        rs matches Err(e) && e == PuzzleError::InvalidGrid,
        rd matches Err(e) && e == PuzzleError::InvalidGrid,
{
}

/// A syntactically valid but logically contradictory puzzle — one whose
/// clues no valid solution can agree with — fails with `Contradiction`.
pub proof fn lemma_contradictory_rejected(grid: Seq<char>, r: Result<String, PuzzleError>)
    requires
        valid_grid(grid),
        forall|a: Seq<u8>|
            #![trigger clue_consistent(filtered_chars(grid), a)]
            !solves(filtered_chars(grid), a),
        solve_post(grid, r),
    ensures
        r matches Err(e) && e == PuzzleError::Contradiction,
{
    match r {
        Ok(out) => {
            assert(clue_consistent(filtered_chars(grid), digits_of_chars(out@)));
            assert(false);
        },
        Err(e) => {
        },
    }
}

/// Round trip: feeding `solve` an already fully solved puzzle returns the
/// very same 81 characters.
pub proof fn lemma_solved_round_trip(grid: Seq<char>, r: Result<String, PuzzleError>)
    requires
        valid_grid(grid),
        forall|i: int| 0 <= i < 81 ==> is_digit_char(#[trigger] filtered_chars(grid)[i]),
        solution_ok(digits_of_chars(filtered_chars(grid))),
        solve_post(grid, r),
    ensures
        r matches Ok(out) && out@ == filtered_chars(grid),
{
    let fg = filtered_chars(grid);
    let a = digits_of_chars(fg);
    assert(solves(fg, a)) by {
        assert forall|i: int| 0 <= i < 81 && is_digit_char(#[trigger] fg[i]) implies a[i]
            == digit_of_char(fg[i]) by {}
    }
    assert forall|b: Seq<u8>| solves(fg, b) implies b == a by {
        assert forall|i: int| 0 <= i < 81 implies b[i] == a[i] by {
            assert(is_digit_char(fg[i]));
            assert(b[i] == digit_of_char(fg[i]));
        }
        assert(b =~= a);
    }
    lemma_solve_unique_solution(grid, a, r);
    let out = r->Ok_0;
    assert forall|i: int| 0 <= i < 81 implies out@[i] == fg[i] by {
        assert(is_digit_char(out@[i]) && is_digit_char(fg[i]));
        assert(digit_of_char(out@[i]) == digits_of_chars(out@)[i]);
        assert(digit_of_char(out@[i]) == digit_of_char(fg[i]));
        lemma_digit_char(out@[i]);
        lemma_digit_char(fg[i]);
    }
    assert(out@ =~= fg);
}

} // verus!
