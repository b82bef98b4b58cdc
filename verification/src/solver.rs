//! Parsing a puzzle into a candidate mapping, the backtracking search, the
//! final solved check, and the top-level `solve` entry point.

use vstd::prelude::*;
use vstd::string::StringExecFns;
use crate::PuzzleError;
use crate::engine::Sudoku;
use crate::topology::{
    is_cell, in_unit, unit_cell, unit_pos, col_of, lemma_cell_decomp, lemma_unit_cell_in_unit,
    lemma_in_unit_unit_cell,
};
use crate::cands::{
    digit_ok, cands_wf, values_wf, vals_of, admits, solution_ok, unit_has_digit, refines,
    newly_fixed_clean, fixed_cells_clean, cell_clean, total_count, resolved, grid_of,
    all_candidates,
    copy_row, copy_values, lemma_cands_len, lemma_refines_refl, lemma_refines_trans,
    lemma_refines_len,
    lemma_clean_trans, lemma_clean_mono, lemma_clean_resolved_solution, lemma_singleton,
    lemma_total_pointwise_strict,
};
use crate::grid::{
    is_digit_char, filtered_chars, valid_grid, digit_of_char, char_of_digit, digits_of_chars,
    clue_consistent, filter_chars, lemma_digit_char,
};

verus! {

/// The clue characters of `g` pin grid `a` down to the clue digits; said of
/// the 81 filtered characters of an input.
pub open spec fn solves(g: Seq<char>, a: Seq<u8>) -> bool {
    solution_ok(a) && clue_consistent(g, a)
}

/// Everything `solve` promises of its result: exactly the invalid inputs
/// are rejected with `InvalidGrid`; a returned string is 81 digit characters
/// spelling a valid solution that agrees with every clue; `Contradiction`
/// comes back only when the clues admit no valid solution; and the defensive
/// `Unsolved` arm never fires.
pub open spec fn solve_post(grid: Seq<char>, r: Result<String, PuzzleError>) -> bool {
    &&& ((r matches Err(e) && e == PuzzleError::InvalidGrid) <==> !valid_grid(grid))
    &&& (r matches Ok(out) ==> {
        &&& out@.len() == 81
        &&& forall|i: int| 0 <= i < 81 ==> is_digit_char(#[trigger] out@[i])
        &&& solves(filtered_chars(grid), digits_of_chars(out@))
    })
    &&& (r matches Err(e) && e == PuzzleError::Contradiction ==> (forall|a: Seq<u8>|
        #![trigger clue_consistent(filtered_chars(grid), a)]
        !solves(filtered_chars(grid), a)))
    &&& !(r matches Err(e) && e == PuzzleError::Unsolved)
}

/// The one-character string spelling a digit.
fn digit_str(d: u8) -> (r: &'static str)
    requires
        digit_ok(d),
    ensures
        r@ =~= seq![char_of_digit(d)],
{
    proof {
        reveal_strlit("1");
        reveal_strlit("2");
        reveal_strlit("3");
        reveal_strlit("4");
        reveal_strlit("5");
        reveal_strlit("6");
        reveal_strlit("7");
        reveal_strlit("8");
        reveal_strlit("9");
    }
    match d {
        1 => "1",
        2 => "2",
        3 => "3",
        4 => "4",
        5 => "5",
        6 => "6",
        7 => "7",
        8 => "8",
        _ => "9",
    }
}

impl Sudoku {
    /// Filters the input to the allowed alphabet and demands 81 characters.
    pub(crate) fn grid_values(&self, grid: &str) -> (r: Result<Vec<char>, PuzzleError>)
        ensures
            r matches Ok(g) ==> valid_grid(grid@) && g@ == filtered_chars(grid@),
            r matches Err(e) ==> e == PuzzleError::InvalidGrid && !valid_grid(grid@),
    {
        let g = filter_chars(grid);
        if g.len() == 81 {
            Ok(g)
        } else {
            Err(PuzzleError::InvalidGrid)
        }
    }

    /// Builds the initial candidate mapping: every cell starts with all nine
    /// digits, and each clue is assigned, with full propagation, as it is read.
    pub(crate) fn parse_grid(&self, grid: &str) -> (r: Result<Vec<Vec<u8>>, PuzzleError>)
        requires
            self.wf(),
        ensures
            (r matches Err(e) && e == PuzzleError::InvalidGrid) <==> !valid_grid(grid@),
            r matches Ok(v) ==> {
                &&& values_wf(vals_of(v))
                &&& fixed_cells_clean(vals_of(v))
                &&& forall|i: int|
                    0 <= i < 81 && is_digit_char(#[trigger] filtered_chars(grid@)[i]) ==> vals_of(
                        v,
                    )[i] == seq![digit_of_char(filtered_chars(grid@)[i])]
                &&& forall|a: Seq<u8>|
                    #![trigger clue_consistent(filtered_chars(grid@), a)]
                    solves(filtered_chars(grid@), a) ==> admits(vals_of(v), a)
            },
            r matches Err(e) && e == PuzzleError::Contradiction ==> (forall|a: Seq<u8>|
                #![trigger clue_consistent(filtered_chars(grid@), a)]
                !solves(filtered_chars(grid@), a)),
            r matches Err(e) ==> e == PuzzleError::InvalidGrid || e == PuzzleError::Contradiction,
    {
        let g = match self.grid_values(grid) {
            Ok(g) => g,
            Err(e) => {
                return Err(e);
            },
        };
        let ghost fg = filtered_chars(grid@);
        let mut values = all_candidates();
        let mut i: usize = 0;
        while i < 81
            invariant
                self.wf(),
                i <= 81,
                g@ == fg,
                fg == filtered_chars(grid@),
                valid_grid(grid@),
                fg.len() == 81,
                values_wf(vals_of(values)),
                fixed_cells_clean(vals_of(values)),
                forall|ii: int|
                    0 <= ii < i && is_digit_char(#[trigger] fg[ii]) ==> vals_of(values)[ii]
                        == seq![digit_of_char(fg[ii])],
                forall|a: Seq<u8>|
                    #![trigger clue_consistent(fg, a)]
                    solves(fg, a) ==> admits(vals_of(values), a),
            decreases 81 - i,
        {
            let c = g[i];
            let u = c as u32;
            if 49 <= u && u <= 57 {
                let d = (u - 48) as u8;
                proof {
                    assert(is_digit_char(c));
                    assert(d == digit_of_char(c));
                    lemma_digit_char(c);
                }
                let ghost vpre = vals_of(values);
                let ok = self.assign(&mut values, i, d);
                let ghost vpost = vals_of(values);
                if !ok {
                    proof {
                        assert forall|a: Seq<u8>| solves(fg, a) implies false by {
                            assert(clue_consistent(fg, a));
                            assert(admits(vpre, a));
                            assert(a[i as int] == digit_of_char(fg[i as int]));
                        }
                    }
                    return Err(PuzzleError::Contradiction);
                }
                proof {
                    lemma_clean_mono(vpre, vpost);
                    assert forall|ii: int|
                        0 <= ii < i + 1 && is_digit_char(#[trigger] fg[ii]) implies vpost[ii]
                        == seq![digit_of_char(fg[ii])] by {
                        if ii < i {
                            let dii = digit_of_char(fg[ii]);
                            assert(vpre[ii] == seq![dii]);
                            assert forall|x: u8| vpost[ii].contains(x) implies x == dii by {
                                assert(vpre[ii].contains(x));
                            }
                            lemma_singleton(vpost[ii], dii);
                        }
                    }
                    assert forall|a: Seq<u8>| solves(fg, a) implies admits(vpost, a) by {
                        assert(clue_consistent(fg, a));
                        assert(admits(vpre, a));
                        assert(a[i as int] == digit_of_char(fg[i as int]));
                    }
                }
            }
            i = i + 1;
        }
        Ok(values)
    }

    /// Depth-first search: picks the unresolved cell with the fewest
    /// candidates (first such cell in enumeration order on ties), and tries
    /// its candidates in ascending order on an independent clone each.
    pub(crate) fn search(&self, values: Vec<Vec<u8>>) -> (r: Result<Vec<Vec<u8>>, PuzzleError>)
        requires
            self.wf(),
            values_wf(vals_of(values)),
        ensures
            r matches Ok(w) ==> {
                &&& values_wf(vals_of(w))
                &&& resolved(vals_of(w))
                &&& refines(vals_of(w), vals_of(values))
                &&& newly_fixed_clean(vals_of(values), vals_of(w))
            },
            r matches Err(e) ==> e == PuzzleError::Contradiction && (forall|a: Seq<u8>|
                #![trigger admits(vals_of(values), a)]
                !(solution_ok(a) && admits(vals_of(values), a))),
        decreases total_count(vals_of(values)),
    {
        let ghost v0 = vals_of(values);
        proof {
            assert(values@.len() == 81);
        }
        // Choose the unresolved cell with the fewest candidates.
        let mut best: usize = 81;
        let mut best_len: usize = 10;
        let mut i: usize = 0;
        while i < 81
            invariant
                v0 == vals_of(values),
                values_wf(v0),
                i <= 81,
                values@.len() == 81,
                best <= 81,
                best == 81 ==> best_len == 10,
                best == 81 ==> forall|ii: int| 0 <= ii < i ==> (#[trigger] v0[ii]).len() == 1,
                best < 81 ==> 2 <= best_len <= 9 && v0[best as int].len() == best_len,
            decreases 81 - i,
        {
            proof {
                assert(v0[i as int] == values@[i as int]@);
                lemma_cands_len(v0[i as int]);
            }
            let l = values[i].len();
            if l > 1 && l < best_len {
                best = i;
                best_len = l;
            }
            i = i + 1;
        }
        if best == 81 {
            proof {
                lemma_refines_refl(v0);
            }
            return Ok(values);  // every cell is down to one candidate
        }

        let cand_row = copy_row(&values[best]);
        proof {
            assert(v0[best as int] == values@[best as int]@);
        }
        let mut t: usize = 0;
        while t < cand_row.len()
            invariant
                self.wf(),
                v0 == vals_of(values),
                values_wf(v0),
                best < 81,
                cand_row@ == v0[best as int],
                2 <= v0[best as int].len(),
                t <= cand_row@.len(),
                forall|a: Seq<u8>|
                    #![trigger admits(v0, a)]
                    solution_ok(a) && admits(v0, a) && (exists|tt: int|
                        0 <= tt < t && a[best as int] == cand_row@[tt]) ==> false,
            decreases cand_row@.len() - t,
        {
            let d = cand_row[t];
            proof {
                assert(digit_ok(d)) by {
                    assert(cands_wf(v0[best as int]));
                }
            }
            let mut cloned = copy_values(&values);
            let ok = self.assign(&mut cloned, best, d);
            let ghost va = vals_of(cloned);
            if ok {
                proof {
                    assert forall|ii: int| 0 <= ii < 81 implies (#[trigger] va[ii]).len()
                        <= v0[ii].len() by {
                        lemma_refines_len(va, v0, ii);
                    }
                    assert(va[best as int].len() < v0[best as int].len());
                    lemma_total_pointwise_strict(v0, va, best as int);
                }
                let res = self.search(cloned);
                match res {
                    Ok(w) => {
                        proof {
                            lemma_refines_trans(vals_of(w), va, v0);
                            lemma_clean_trans(v0, va, vals_of(w));
                        }
                        return Ok(w);
                    },
                    Err(_) => {
                        proof {
                            assert forall|a: Seq<u8>|
                                solution_ok(a) && #[trigger] admits(v0, a) && (exists|tt: int|
                                    0 <= tt < t + 1 && a[best as int]
                                        == cand_row@[tt]) implies false by {
                                let tt = choose|tt: int|
                                    0 <= tt < t + 1 && a[best as int] == cand_row@[tt];
                                if tt == t {
                                    assert(a[best as int] == d);
                                    assert(admits(va, a));
                                }
                            }
                        }
                    },
                }
            } else {
                proof {
                    assert forall|a: Seq<u8>|
                        solution_ok(a) && #[trigger] admits(v0, a) && (exists|tt: int|
                            0 <= tt < t + 1 && a[best as int] == cand_row@[tt]) implies false by {
                        let tt = choose|tt: int|
                            0 <= tt < t + 1 && a[best as int] == cand_row@[tt];
                        if tt == t {
                            assert(a[best as int] == d);
                        }
                    }
                }
            }
            t = t + 1;
        }
        proof {
            assert forall|a: Seq<u8>|
                solution_ok(a) && #[trigger] admits(v0, a) implies false by {
                assert(v0[best as int].contains(a[best as int]));
                let tt = choose|tt: int|
                    0 <= tt < cand_row@.len() && cand_row@[tt] == a[best as int];
                assert(exists|tt: int| 0 <= tt < cand_row@.len() && a[best as int] == cand_row@[tt]);
            }
        }
        Err(PuzzleError::Contradiction)
    }

    /// The defensive final check: every group's nine resolved digits are a
    /// permutation of 1..=9.
    pub(crate) fn solved(&self, values: &Vec<Vec<u8>>) -> (r: bool)
        requires
            self.wf(),
            values_wf(vals_of(*values)),
        ensures
            r <==> (resolved(vals_of(*values)) && forall|k: int, d: u8|
                0 <= k < 27 && digit_ok(d) ==> #[trigger] unit_has_digit(
                    grid_of(vals_of(*values)),
                    k,
                    d,
                )),
    {
        let ghost v = vals_of(*values);
        let ghost a = grid_of(v);
        let mut k: usize = 0;
        while k < 27
            invariant
                self.wf(),
                v == vals_of(*values),
                a == grid_of(v),
                values_wf(v),
                k <= 27,
                forall|kk: int, jj: int|
                    #![trigger unit_cell(kk, jj)]
                    0 <= kk < k && 0 <= jj < 9 ==> v[unit_cell(kk, jj)].len() == 1,
                forall|kk: int, d: u8|
                    0 <= kk < k && digit_ok(d) ==> #[trigger] unit_has_digit(a, kk, d),
            decreases 27 - k,
        {
            let mut seen: Vec<bool> = Vec::new();
            let mut z: usize = 0;
            while z < 9
                invariant
                    z <= 9,
                    seen@.len() == z,
                    forall|zz: int| 0 <= zz < z ==> !(#[trigger] seen@[zz]),
                decreases 9 - z,
            {
                seen.push(false);
                z = z + 1;
            }
            let mut j: usize = 0;
            while j < 9
                invariant
                    self.wf(),
                    v == vals_of(*values),
                    a == grid_of(v),
                    values_wf(v),
                    values@.len() == 81,
                    k < 27,
                    j <= 9,
                    seen@.len() == 9,
                    forall|jj: int|
                        #![trigger unit_cell(k as int, jj)]
                        0 <= jj < j ==> v[unit_cell(k as int, jj)].len() == 1,
                    forall|jj: int|
                        #![trigger unit_cell(k as int, jj)]
                        0 <= jj < j ==> seen@[a[unit_cell(k as int, jj)] - 1],
                    forall|z: int|
                        0 <= z < 9 && #[trigger] seen@[z] ==> exists|jj: int|
                            0 <= jj < j && a[#[trigger] unit_cell(k as int, jj)] == z + 1,
                decreases 9 - j,
            {
                let c = self.ctx.unitlist[k][j];
                proof {
                    lemma_unit_cell_in_unit(k as int, j as int);
                    assert(c as int == unit_cell(k as int, j as int));
                    assert(v[c as int] == values@[c as int]@);
                }
                if values[c].len() != 1 {
                    return false;  // an unresolved cell: not a solution
                }
                let d = values[c][0];
                proof {
                    assert(v[c as int].contains(d));
                    assert(digit_ok(d));
                    assert(a[c as int] == d);
                }
                let ghost pre = seen@;
                seen[(d - 1) as usize] = true;
                proof {
                    assert forall|z: int|
                        0 <= z < 9 && #[trigger] seen@[z] implies exists|jj: int|
                        0 <= jj < j + 1 && a[#[trigger] unit_cell(k as int, jj)] == z + 1 by {
                        if z == d - 1 {
                            assert(a[unit_cell(k as int, j as int)] == z + 1);
                        } else {
                            assert(pre[z]);
                            let jj = choose|jj: int|
                                0 <= jj < j && a[#[trigger] unit_cell(k as int, jj)] == z + 1;
                            assert(a[unit_cell(k as int, jj)] == z + 1);
                        }
                    }
                }
                j = j + 1;
            }
            let mut z: usize = 0;
            while z < 9
                invariant
                    v == vals_of(*values),
                    a == grid_of(v),
                    values_wf(v),
                    k < 27,
                    z <= 9,
                    seen@.len() == 9,
                    forall|zz: int| 0 <= zz < 9 && #[trigger] seen@[zz] ==> exists|jj: int|
                        0 <= jj < 9 && a[#[trigger] unit_cell(k as int, jj)] == zz + 1,
                    forall|jj: int|
                        #![trigger unit_cell(k as int, jj)]
                        0 <= jj < 9 ==> seen@[a[unit_cell(k as int, jj)] - 1],
                    forall|zz: int| 0 <= zz < z ==> #[trigger] seen@[zz],
                decreases 9 - z,
            {
                if !seen[z] {
                    proof {
                        // the digit z+1 never appears in this group
                        let dd = (z + 1) as u8;
                        assert(!unit_has_digit(a, k as int, dd)) by {
                            if unit_has_digit(a, k as int, dd) {
                                let jj = choose|jj: int|
                                    0 <= jj < 9 && a[#[trigger] unit_cell(k as int, jj)] == dd;
                                assert(seen@[a[unit_cell(k as int, jj)] - 1]);
                            }
                        }
                        assert(digit_ok(dd));
                    }
                    return false;  // some digit is missing from this group
                }
                z = z + 1;
            }
            proof {
                assert forall|d: u8| digit_ok(d) implies unit_has_digit(a, k as int, d) by {
                    assert(seen@[d - 1]);
                    let jj = choose|jj: int|
                        0 <= jj < 9 && a[#[trigger] unit_cell(k as int, jj)] == d - 1 + 1;
                    assert(a[unit_cell(k as int, jj)] == d);
                }
            }
            k = k + 1;
        }
        proof {
            assert forall|i: int| 0 <= i < 81 implies (#[trigger] v[i]).len() == 1 by {
                lemma_cell_decomp(i);
                assert(in_unit(i, col_of(i)));
                lemma_in_unit_unit_cell(i, col_of(i));
                assert(v[unit_cell(col_of(i), unit_pos(i, col_of(i)))].len() == 1);
            }
        }
        true
    }

    /// Reads the solved digits off a resolved mapping, in cell order.
    pub(crate) fn solution_string(&self, values: &Vec<Vec<u8>>) -> (out: String)
        requires
            values_wf(vals_of(*values)),
            resolved(vals_of(*values)),
        ensures
            out@.len() == 81,
            forall|i: int|
                0 <= i < 81 ==> #[trigger] out@[i] == char_of_digit(grid_of(vals_of(*values))[i]),
            forall|i: int| 0 <= i < 81 ==> is_digit_char(#[trigger] out@[i]),
            digits_of_chars(out@) =~= grid_of(vals_of(*values)),
    {
        let ghost v = vals_of(*values);
        let mut out = String::new();
        let mut i: usize = 0;
        while i < 81
            invariant
                v == vals_of(*values),
                values_wf(v),
                resolved(v),
                i <= 81,
                out@.len() == i,
                forall|ii: int|
                    0 <= ii < i ==> #[trigger] out@[ii] == char_of_digit(grid_of(v)[ii]),
            decreases 81 - i,
        {
            proof {
                assert(vals_of(*values).len() == values@.len());
                assert(v[i as int] == values@[i as int]@);
            }
            let d = values[i][0];
            proof {
                assert(v[i as int].contains(d));
                assert(digit_ok(d));
                assert(grid_of(v)[i as int] == d);
            }
            out.append(digit_str(d));
            i = i + 1;
        }
        proof {
            assert forall|i: int| 0 <= i < 81 implies is_digit_char(#[trigger] out@[i]) by {
                assert(digit_ok(grid_of(v)[i]));
                lemma_digit_char(char_of_digit(grid_of(v)[i]));
            }
        }
        out
    }

    /// Solves a puzzle string: parse, propagate, search, and read off the
    /// 81-digit solution.  Exactly the invalid inputs are rejected with
    /// `InvalidGrid`; `Contradiction` comes back only when the clues admit no
    /// valid solution; and the defensive `Unsolved` arm is proved dead.
    pub fn solve(&self, grid: &str) -> (r: Result<String, PuzzleError>)
        requires
            self.wf(),
        ensures
            solve_post(grid@, r),
    {
        let ghost fg = filtered_chars(grid@);
        let parsed = match self.parse_grid(grid) {
            Ok(v) => v,
            Err(e) => {
                return Err(e);
            },
        };
        let ghost vp = vals_of(parsed);
        let searched = match self.search(parsed) {
            Ok(w) => w,
            Err(e) => {
                proof {
                    assert forall|a: Seq<u8>| solves(fg, a) implies false by {
                        assert(clue_consistent(fg, a));
                        assert(admits(vp, a));
                    }
                }
                return Err(e);
            },
        };
        let ghost vw = vals_of(searched);
        proof {
            lemma_clean_mono(vp, vw);
            assert forall|c: int| is_cell(c) implies cell_clean(vw, c) by {
                assert(vw[c].len() == 1);
            }
            lemma_clean_resolved_solution(vw);
        }
        if self.solved(&searched) {
            let out = self.solution_string(&searched);
            proof {
                assert forall|i: int|
                    0 <= i < 81 && is_digit_char(#[trigger] fg[i]) implies grid_of(vw)[i]
                    == digit_of_char(fg[i]) by {
                    let di = digit_of_char(fg[i]);
                    assert(vp[i] == seq![di]);
                    assert(vw[i].contains(vw[i][0]));
                    assert(vp[i].contains(vw[i][0]));
                }
            }
            Ok(out)
        } else {
            proof {
                assert(false);  // the solved check cannot fail after a successful search
            }
            Err(PuzzleError::Unsolved)
        }
    }
}

} // verus!
