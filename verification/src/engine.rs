//! The propagation engine: assigning a digit to a cell and eliminating a
//! digit from a cell, each cascading through peers and groups.
//!
//! Both operations return `false` on contradiction, leaving the mapping in a
//! narrowed but otherwise unspecified state that callers discard.  On success
//! they guarantee, beyond well-formedness: the mapping only narrowed
//! (`refines`), no admissible valid solution was lost, and every cell newly
//! reduced to one candidate has had that digit scrubbed from its peers
//! (`newly_fixed_clean`), which is what makes a fully resolved mapping a
//! genuine solution.

use vstd::prelude::*;
use crate::topology::{
    Context, context_init, is_cell, is_peer, unit_cell, lemma_cell_decomp,
    lemma_unit_cell_in_unit,
};
use crate::cands::{
    digit_ok, cands_wf, lists_wf, values_wf, vals_of, admits, solution_ok, unit_has_digit,
    refines, newly_fixed_clean, total_count, cell_clean, lemma_cands_no_dup, lemma_refines_total,
    lemma_refines_trans, lemma_clean_trans, lemma_singleton, lemma_total_update, find_digit,
    row_contains, copy_row,
};

verus! {

/// A solver instance: the immutable structural tables, shared by every
/// solve and display call made through it.
pub struct Sudoku {
    pub ctx: Context,
}

impl Sudoku {
    pub open spec fn wf(&self) -> bool {
        self.ctx.wf()
    }

    /// Builds the topology tables once; the instance is read-only afterwards.
    pub fn new() -> (s: Sudoku)
        ensures
            s.wf(),
    {
        Sudoku { ctx: context_init() }
    }

    /// Assigns digit `d` to cell `s` by eliminating every other digit from
    /// that cell's candidates, propagating as elimination demands.
    pub(crate) fn assign(&self, values: &mut Vec<Vec<u8>>, s: usize, d: u8) -> (r: bool)
        requires
            self.wf(),
            s < 81,
            digit_ok(d),
            values_wf(vals_of(*old(values))),
        ensures
            lists_wf(vals_of(*final(values))),
            refines(vals_of(*final(values)), vals_of(*old(values))),
            r ==> values_wf(vals_of(*final(values))),
            r ==> vals_of(*final(values))[s as int] =~= seq![d],
            r ==> newly_fixed_clean(vals_of(*old(values)), vals_of(*final(values))),
            forall|a: Seq<u8>|
                #![trigger admits(vals_of(*old(values)), a)]
                solution_ok(a) && admits(vals_of(*old(values)), a) && a[s as int] == d ==> r
                    && admits(vals_of(*final(values)), a),
        decreases total_count(vals_of(*old(values))), 1int,
    {
        let ghost v0 = vals_of(*old(values));
        let mut d2: u8 = 1;
        while d2 <= 9
            invariant
                self.wf(),
                s < 81,
                digit_ok(d),
                1 <= d2 <= 10,
                v0 == vals_of(*old(values)),
                values_wf(v0),
                values_wf(vals_of(*values)),
                refines(vals_of(*values), v0),
                total_count(vals_of(*values)) <= total_count(v0),
                newly_fixed_clean(v0, vals_of(*values)),
                forall|x: u8| 1 <= x < d2 && x != d ==> !vals_of(*values)[s as int].contains(x),
                forall|a: Seq<u8>|
                    #![trigger admits(v0, a)]
                    solution_ok(a) && admits(v0, a) && a[s as int] == d ==> admits(
                        vals_of(*values),
                        a,
                    ),
            decreases 10 - d2,
        {
            if d2 != d {
                let ghost vpre = vals_of(*values);
                proof {
                    lemma_refines_total(vpre, v0);
                }
                let ok = self.eliminate(values, s, d2);
                let ghost vpost = vals_of(*values);
                proof {
                    lemma_refines_trans(vpost, vpre, v0);
                }
                if !ok {
                    proof {
                        assert forall|a: Seq<u8>|
                            solution_ok(a) && #[trigger] admits(v0, a) && a[s as int]
                                == d implies false by {
                            assert(admits(vpre, a));
                            assert(a[s as int] != d2);
                        }
                    }
                    return false;
                }
                proof {
                    lemma_refines_total(vpost, vpre);
                    lemma_clean_trans(v0, vpre, vpost);
                    assert forall|x: u8|
                        1 <= x < d2 + 1 && x != d implies !vpost[s as int].contains(x) by {
                        if x < d2 {
                            assert(!vpre[s as int].contains(x));
                        }
                    }
                    assert forall|a: Seq<u8>|
                        solution_ok(a) && #[trigger] admits(v0, a) && a[s as int]
                            == d implies admits(vpost, a) by {
                        assert(admits(vpre, a));
                        assert(a[s as int] != d2);
                    }
                }
            }
            d2 = d2 + 1;
        }
        proof {
            let vfin = vals_of(*values);
            assert forall|x: u8| vfin[s as int].contains(x) implies x == d by {
                assert(v0[s as int].contains(x));
                assert(digit_ok(x));
            }
            lemma_singleton(vfin[s as int], d);
        }
        true
    }

    /// Removes digit `d` from the candidates of cell `s`, if present, and
    /// propagates the two rules: a cell left with one candidate excludes
    /// that digit from its peers, and a group left with one place for a
    /// digit assigns the digit there.  `false` reports a contradiction.
    pub(crate) fn eliminate(&self, values: &mut Vec<Vec<u8>>, s: usize, d: u8) -> (r: bool)
        requires
            self.wf(),
            s < 81,
            digit_ok(d),
            values_wf(vals_of(*old(values))),
        ensures
            lists_wf(vals_of(*final(values))),
            refines(vals_of(*final(values)), vals_of(*old(values))),
            r ==> values_wf(vals_of(*final(values))),
            r ==> !vals_of(*final(values))[s as int].contains(d),
            r ==> newly_fixed_clean(vals_of(*old(values)), vals_of(*final(values))),
            forall|a: Seq<u8>|
                #![trigger admits(vals_of(*old(values)), a)]
                solution_ok(a) && admits(vals_of(*old(values)), a) && a[s as int] != d ==> r
                    && admits(vals_of(*final(values)), a),
        decreases total_count(vals_of(*old(values))), 0int,
    {
        let ghost v0 = vals_of(*old(values));
        proof {
            assert(v0[s as int] == values@[s as int]@);
        }
        let pos = match find_digit(&values[s], d) {
            None => {
                return true;  // already eliminated
            },
            Some(p) => p,
        };

        // Remove d from the candidates of s.
        let mut row = copy_row(&values[s]);
        let ghost row0 = row@;
        row.remove(pos);
        let ghost row1 = row@;
        values[s] = row;
        let ghost v1 = vals_of(*values);
        proof {
            assert(row0 == v0[s as int]);
            assert(row0[pos as int] == d);
            assert(v1 =~= v0.update(s as int, row1));
            lemma_total_update(v0, s as int, row1);
            lemma_cands_no_dup(row0);
            assert(forall|tt: int|
                0 <= tt < row1.len() ==> row1[tt] == (if tt < pos {
                    row0[tt]
                } else {
                    row0[tt + 1]
                }));
            assert(cands_wf(row1));
            assert forall|x: u8| #[trigger] row1.contains(x) implies row0.contains(x) && x != d by {
                let tt = choose|tt: int| 0 <= tt < row1.len() && row1[tt] == x;
                if tt < pos {
                    assert(row0[tt] == x);
                } else {
                    assert(row0[tt + 1] == x);
                }
            }
            assert forall|x: u8| row0.contains(x) && x != d implies #[trigger] row1.contains(x) by {
                let tt = choose|tt: int| 0 <= tt < row0.len() && row0[tt] == x;
                if tt < pos {
                    assert(row1[tt] == x);
                } else {
                    assert(tt != pos);
                    assert(row1[tt - 1] == x);
                }
            }
            assert(!row1.contains(d));
            assert(lists_wf(v1));
            assert(refines(v1, v0));
            assert(total_count(v1) + 1 == total_count(v0));
            assert forall|a: Seq<u8>|
                solution_ok(a) && #[trigger] admits(v0, a) && a[s as int] != d implies admits(
                v1,
                a,
            ) by {
                assert forall|i: int| 0 <= i < 81 implies (#[trigger] v1[i]).contains(a[i]) by {
                    assert(v0[i].contains(a[i]));
                    if i == s as int {
                        assert(row0.contains(a[i]) && a[i] != d);
                    }
                }
            }
        }

        if values[s].len() == 0 {
            proof {
                assert(row0.len() == 1 && pos == 0);
                assert forall|a: Seq<u8>|
                    solution_ok(a) && #[trigger] admits(v0, a) && a[s as int] != d implies false by {
                    assert(v0[s as int].contains(a[s as int]));
                    assert(row0[0] == d);
                }
            }
            return false;  // contradiction: the last candidate was removed
        }

        // Rule 1: a cell reduced to one candidate excludes it from all peers.
        if values[s].len() == 1 {
            let d2 = values[s][0];
            proof {
                assert(v1[s as int] == row1);
                assert(row1 =~= seq![d2]);
                assert(digit_ok(d2)) by {
                    assert(row1[0] == d2);
                }
                assert(d2 != d) by {
                    assert(row1.contains(d2));
                }
                assert(values_wf(v1));
            }
            let mut t: usize = 0;
            let num_peers = self.ctx.peers[s].len();
            while t < num_peers
                invariant
                    self.wf(),
                    s < 81,
                    digit_ok(d),
                    digit_ok(d2),
                    d2 != d,
                    v0 == vals_of(*old(values)),
                    num_peers == self.ctx.peers@[s as int]@.len(),
                    t <= num_peers,
                    values_wf(v0),
                    values_wf(v1),
                    refines(v1, v0),
                    v1[s as int] == seq![d2],
                    total_count(v1) + 1 == total_count(v0),
                    values_wf(vals_of(*values)),
                    refines(vals_of(*values), v1),
                    refines(vals_of(*values), v0),
                    vals_of(*values)[s as int] == seq![d2],
                    total_count(vals_of(*values)) < total_count(v0),
                    newly_fixed_clean(v1, vals_of(*values)),
                    forall|tt: int|
                        0 <= tt < t ==> !vals_of(*values)[self.ctx.peers@[s as int]@[tt] as int]
                            .contains(d2),
                    forall|a: Seq<u8>|
                        #![trigger admits(v0, a)]
                        solution_ok(a) && admits(v0, a) && a[s as int] != d ==> admits(
                            vals_of(*values),
                            a,
                        ),
                decreases num_peers - t,
            {
                let p = self.ctx.peers[s][t];
                let ghost vpre = vals_of(*values);
                proof {
                    assert(is_cell(p as int) && is_peer(s as int, p as int));
                    lemma_refines_total(vpre, v1);
                }
                let ok = self.eliminate(values, p, d2);
                let ghost vpost = vals_of(*values);
                proof {
                    lemma_refines_trans(vpost, vpre, v1);
                    lemma_refines_trans(vpost, vpre, v0);
                }
                if !ok {
                    proof {
                        assert forall|a: Seq<u8>|
                            solution_ok(a) && #[trigger] admits(v0, a) && a[s as int]
                                != d implies false by {
                            assert(admits(vpre, a));
                            assert(vpre[s as int].contains(a[s as int]));
                            assert(a[s as int] == d2);
                            assert(a[p as int] != a[s as int]);
                        }
                    }
                    return false;
                }
                proof {
                    lemma_refines_total(vpost, vpre);
                    lemma_clean_trans(v1, vpre, vpost);
                    assert forall|x: u8| vpost[s as int].contains(x) implies x == d2 by {
                        assert(vpre[s as int].contains(x));
                    }
                    lemma_singleton(vpost[s as int], d2);
                    assert forall|tt: int|
                        0 <= tt < t + 1 implies !vpost[self.ctx.peers@[s as int]@[tt] as int]
                        .contains(d2) by {
                        if tt < t {
                            assert(!vpre[self.ctx.peers@[s as int]@[tt] as int].contains(d2));
                        }
                    }
                    assert forall|a: Seq<u8>|
                        solution_ok(a) && #[trigger] admits(v0, a) && a[s as int]
                            != d implies admits(vpost, a) by {
                        assert(admits(vpre, a));
                        assert(vpre[s as int].contains(a[s as int]));
                        assert(a[s as int] == d2);
                        assert(a[p as int] != a[s as int]);
                    }
                }
                t = t + 1;
            }
            proof {
                let vc = vals_of(*values);
                assert(cell_clean(vc, s as int)) by {
                    assert forall|p: int|
                        is_cell(p) && is_peer(s as int, p) implies !(#[trigger] vc[p]).contains(
                        vc[s as int][0],
                    ) by {
                        assert(self.ctx.peers@[s as int]@.contains(p as usize));
                        let tt = choose|tt: int|
                            0 <= tt < self.ctx.peers@[s as int]@.len()
                                && self.ctx.peers@[s as int]@[tt] == p as usize;
                        assert(!vc[self.ctx.peers@[s as int]@[tt] as int].contains(d2));
                    }
                }
                assert(newly_fixed_clean(v0, vc)) by {
                    assert forall|c: int|
                        is_cell(c) && (#[trigger] vc[c]).len() == 1 && v0[c].len()
                            != 1 implies cell_clean(vc, c) by {
                        if c != s as int {
                            assert(v1[c] == v0[c]);
                        }
                    }
                }
            }
        } else {
            proof {
                let vc = vals_of(*values);
                assert(vc == v1);
                assert(values_wf(vc)) by {
                    assert(vc[s as int].len() >= 1);
                }
                assert(newly_fixed_clean(v0, vc)) by {
                    assert forall|c: int|
                        is_cell(c) && (#[trigger] vc[c]).len() == 1 && v0[c].len()
                            != 1 implies cell_clean(vc, c) by {
                        assert(c != s as int);
                        assert(vc[c] == v0[c]);
                    }
                }
            }
        }

        // Rule 2: a group with a single remaining place for d assigns d there.
        let mut ui: usize = 0;
        while ui < 3
            invariant
                self.wf(),
                s < 81,
                digit_ok(d),
                ui <= 3,
                v0 == vals_of(*old(values)),
                values_wf(v0),
                values_wf(vals_of(*values)),
                refines(vals_of(*values), v0),
                !vals_of(*values)[s as int].contains(d),
                total_count(vals_of(*values)) < total_count(v0),
                newly_fixed_clean(v0, vals_of(*values)),
                forall|a: Seq<u8>|
                    #![trigger admits(v0, a)]
                    solution_ok(a) && admits(v0, a) && a[s as int] != d ==> admits(
                        vals_of(*values),
                        a,
                    ),
            decreases 3 - ui,
        {
            let uk = self.ctx.units[s][ui];
            proof {
                lemma_cell_decomp(s as int);
                assert(self.ctx.units@[s as int]@[ui as int] == uk);
                assert(uk < 27);
            }
            let ghost v2 = vals_of(*values);
            let mut dplaces: Vec<usize> = Vec::new();
            let mut j: usize = 0;
            while j < 9
                invariant
                    self.wf(),
                    s < 81,
                    digit_ok(d),
                    uk < 27,
                    j <= 9,
                    v2 == vals_of(*values),
                    values_wf(v2),
                    forall|tt: int|
                        0 <= tt < dplaces@.len() ==> is_cell(#[trigger] dplaces@[tt] as int)
                            && v2[dplaces@[tt] as int].contains(d),
                    forall|jj: int|
                        0 <= jj < j && v2[unit_cell(uk as int, jj)].contains(d) ==> dplaces@
                            .contains(#[trigger] unit_cell(uk as int, jj) as usize),
                decreases 9 - j,
            {
                let c = self.ctx.unitlist[uk][j];
                proof {
                    lemma_unit_cell_in_unit(uk as int, j as int);
                    assert(self.ctx.unitlist@[uk as int]@[j as int] == c);
                    assert(c as int == unit_cell(uk as int, j as int));
                    assert(v2[c as int] == values@[c as int]@);
                }
                if row_contains(&values[c], d) {
                    let ghost pre = dplaces@;
                    dplaces.push(c);
                    proof {
                        assert forall|jj: int|
                            0 <= jj < j + 1 && v2[unit_cell(uk as int, jj)].contains(
                                d,
                            ) implies dplaces@.contains(
                            #[trigger] unit_cell(uk as int, jj) as usize,
                        ) by {
                            if jj < j {
                                assert(pre.contains(unit_cell(uk as int, jj) as usize));
                                let tt = choose|tt: int|
                                    0 <= tt < pre.len() && pre[tt] == unit_cell(
                                        uk as int,
                                        jj,
                                    ) as usize;
                                assert(dplaces@[tt] == unit_cell(uk as int, jj) as usize);
                            } else {
                                assert(dplaces@[dplaces@.len() - 1] == c);
                            }
                        }
                    }
                }
                j = j + 1;
            }
            if dplaces.len() == 0 {
                proof {
                    assert forall|a: Seq<u8>|
                        solution_ok(a) && #[trigger] admits(v0, a) && a[s as int]
                            != d implies false by {
                        assert(admits(v2, a));
                        assert(unit_has_digit(a, uk as int, d));
                        let jj = choose|jj: int|
                            0 <= jj < 9 && a[#[trigger] unit_cell(uk as int, jj)] == d;
                        lemma_unit_cell_in_unit(uk as int, jj);
                        let cj = unit_cell(uk as int, jj);
                        assert(v2[cj].contains(a[cj]));
                        assert(dplaces@.contains(cj as usize));
                    }
                }
                return false;  // contradiction: no place left for d in this group
            }
            if dplaces.len() == 1 {
                let c2 = dplaces[0];
                let ghost vpre = vals_of(*values);
                proof {
                    lemma_refines_total(vpre, v0);
                    assert forall|a: Seq<u8>|
                        solution_ok(a) && #[trigger] admits(v0, a) && a[s as int]
                            != d implies a[c2 as int] == d by {
                        assert(admits(vpre, a));
                        assert(unit_has_digit(a, uk as int, d));
                        let jj = choose|jj: int|
                            0 <= jj < 9 && a[#[trigger] unit_cell(uk as int, jj)] == d;
                        lemma_unit_cell_in_unit(uk as int, jj);
                        let cj = unit_cell(uk as int, jj);
                        assert(v2[cj].contains(a[cj]));
                        assert(dplaces@.contains(cj as usize));
                        let tt = choose|tt: int|
                            0 <= tt < dplaces@.len() && dplaces@[tt] == cj as usize;
                        assert(tt == 0);
                    }
                }
                let ok = self.assign(values, c2, d);
                let ghost vpost = vals_of(*values);
                proof {
                    lemma_refines_trans(vpost, vpre, v0);
                }
                if !ok {
                    proof {
                        assert forall|a: Seq<u8>|
                            solution_ok(a) && #[trigger] admits(v0, a) && a[s as int]
                                != d implies false by {
                            assert(admits(vpre, a));
                            assert(a[c2 as int] == d);
                        }
                    }
                    return false;
                }
                proof {
                    lemma_refines_total(vpost, vpre);
                    lemma_clean_trans(v0, vpre, vpost);
                    assert forall|a: Seq<u8>|
                        solution_ok(a) && #[trigger] admits(v0, a) && a[s as int]
                            != d implies admits(vpost, a) by {
                        assert(admits(vpre, a));
                        assert(a[c2 as int] == d);
                    }
                }
            }
            ui = ui + 1;
        }
        true
    }
}

} // verus!
