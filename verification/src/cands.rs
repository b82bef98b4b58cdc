//! The per-cell candidate mapping and its mathematical model.
//!
//! A mapping assigns to each of the 81 cells a strictly ascending, non-empty
//! list of candidate digits 1..=9.  The model relates a mapping to the full
//! grids it still admits, which is what the propagation engine's contracts
//! are stated over: propagation only ever narrows the mapping, and it never
//! loses a grid that is a valid solution.

use vstd::prelude::*;
use vstd::seq_lib::seq_to_set_is_finite;
use vstd::set_lib::lemma_len_subset;
use crate::topology::{
    is_cell, is_peer, in_unit, unit_cell, unit_pos, lemma_unit_cell_in_unit,
    lemma_same_unit_is_peer, lemma_in_unit_unit_cell, lemma_peer_some_unit,
};

verus! {

pub open spec fn digit_ok(d: u8) -> bool {
    1 <= d <= 9
}

/// A well-formed candidate list: digits 1..=9 in strictly ascending order.
pub open spec fn cands_wf(s: Seq<u8>) -> bool {
    &&& forall|t: int| 0 <= t < s.len() ==> digit_ok(#[trigger] s[t])
    &&& forall|t1: int, t2: int| 0 <= t1 < t2 < s.len() ==> s[t1] < s[t2]
}

/// 81 well-formed candidate lists, possibly empty ones: what survives of
/// well-formedness on a failed propagation path.
pub open spec fn lists_wf(v: Seq<Seq<u8>>) -> bool {
    &&& v.len() == 81
    &&& forall|i: int| 0 <= i < 81 ==> cands_wf(#[trigger] v[i])
}

/// A well-formed mapping: 81 well-formed, non-empty candidate lists.
pub open spec fn values_wf(v: Seq<Seq<u8>>) -> bool {
    &&& lists_wf(v)
    &&& forall|i: int| 0 <= i < 81 ==> (#[trigger] v[i]).len() >= 1
}

/// The mathematical reading of a `Vec<Vec<u8>>` candidate mapping.
pub open spec fn vals_of(v: Vec<Vec<u8>>) -> Seq<Seq<u8>> {
    Seq::new(v@.len(), |i: int| v@[i]@)
}

/// A full grid: one digit for every cell.
pub open spec fn grid_wf(a: Seq<u8>) -> bool {
    &&& a.len() == 81
    &&& forall|i: int| 0 <= i < 81 ==> digit_ok(#[trigger] a[i])
}

/// The mapping still admits grid `a`: every cell's digit is still a candidate.
pub open spec fn admits(v: Seq<Seq<u8>>, a: Seq<u8>) -> bool {
    forall|i: int| 0 <= i < 81 ==> (#[trigger] v[i]).contains(a[i])
}

/// Group `k` of grid `a` holds digit `d` somewhere.
pub open spec fn unit_has_digit(a: Seq<u8>, k: int, d: u8) -> bool {
    exists|j: int| 0 <= j < 9 && a[#[trigger] unit_cell(k, j)] == d
}

/// A valid solved grid: peers never agree, and every group holds every digit.
pub open spec fn solution_ok(a: Seq<u8>) -> bool {
    &&& grid_wf(a)
    &&& forall|i: int, j: int|
        is_cell(i) && is_cell(j) && #[trigger] is_peer(i, j) ==> a[i] != a[j]
    &&& forall|k: int, d: u8| 0 <= k < 27 && digit_ok(d) ==> #[trigger] unit_has_digit(a, k, d)
}

/// `w` is a narrowing of `v`: every surviving candidate was already there.
pub open spec fn refines(w: Seq<Seq<u8>>, v: Seq<Seq<u8>>) -> bool {
    &&& w.len() == 81
    &&& v.len() == 81
    &&& forall|i: int, d: u8|
        #![trigger w[i].contains(d)]
        #![trigger v[i].contains(d)]
        0 <= i < 81 && w[i].contains(d) ==> v[i].contains(d)
}

/// Every cell is down to a single candidate.
pub open spec fn resolved(v: Seq<Seq<u8>>) -> bool {
    forall|i: int| 0 <= i < 81 ==> (#[trigger] v[i]).len() == 1
}

/// The grid read off a resolved mapping.
pub open spec fn grid_of(v: Seq<Seq<u8>>) -> Seq<u8> {
    Seq::new(81, |i: int| v[i][0])
}

/// The digit of cell `c` no longer appears in any of its peers.
pub open spec fn cell_clean(v: Seq<Seq<u8>>, c: int) -> bool {
    forall|p: int|
        is_cell(p) && is_peer(c, p) ==> !(#[trigger] v[p]).contains(v[c][0])
}

/// Between states `u` and `v` of one mapping, every cell newly reduced to a
/// single candidate has had that digit removed from all of its peers.  This
/// is the fact the first propagation rule maintains.
pub open spec fn newly_fixed_clean(u: Seq<Seq<u8>>, v: Seq<Seq<u8>>) -> bool {
    forall|c: int|
        is_cell(c) && (#[trigger] v[c]).len() == 1 && u[c].len() != 1 ==> cell_clean(v, c)
}

/// Total number of candidates left in the mapping; the termination measure
/// of the propagation engine.
pub open spec fn total_count(v: Seq<Seq<u8>>) -> nat
    decreases v.len(),
{
    if v.len() == 0 {
        0
    } else {
        total_count(v.drop_last()) + v.last().len()
    }
}

pub proof fn lemma_refines_refl(v: Seq<Seq<u8>>)
    requires
        v.len() == 81,
    ensures
        refines(v, v),
{
}

pub proof fn lemma_refines_trans(w: Seq<Seq<u8>>, v: Seq<Seq<u8>>, u: Seq<Seq<u8>>)
    requires
        refines(w, v),
        refines(v, u),
    ensures
        refines(w, u),
{
}

/// `newly_fixed_clean` composes along a chain of narrowing states.
pub proof fn lemma_clean_trans(u: Seq<Seq<u8>>, v: Seq<Seq<u8>>, w: Seq<Seq<u8>>)
    requires
        refines(v, u),
        refines(w, v),
        newly_fixed_clean(u, v),
        newly_fixed_clean(v, w),
        values_wf(v),
        values_wf(w),
    ensures
        newly_fixed_clean(u, w),
{
    assert forall|c: int|
        is_cell(c) && (#[trigger] w[c]).len() == 1 && u[c].len() != 1 implies cell_clean(w, c) by {
        let e = w[c][0];
        assert(w[c].contains(e));
        if v[c].len() == 1 {
            assert(v[c].contains(e));
            assert(v[c][0] == e);
            assert(cell_clean(v, c));
            assert forall|p: int| is_cell(p) && is_peer(c, p) implies !(#[trigger] w[p]).contains(
                e,
            ) by {
                assert(!v[p].contains(e));
            }
        } else {
            assert(cell_clean(w, c));
        }
    }
}

proof fn lemma_cands_lower_bound(s: Seq<u8>, t: int)
    requires
        cands_wf(s),
        0 <= t < s.len(),
    ensures
        s[t] >= 1 + t,
    decreases t,
{
    if t > 0 {
        lemma_cands_lower_bound(s, t - 1);
    }
}

/// At most nine digits fit in an ascending candidate list.
pub proof fn lemma_cands_len(s: Seq<u8>)
    requires
        cands_wf(s),
    ensures
        s.len() <= 9,
{
    if s.len() > 9 {
        lemma_cands_lower_bound(s, 9);
    }
}

/// A sorted candidate list has no duplicate digits.
pub proof fn lemma_cands_no_dup(s: Seq<u8>)
    requires
        cands_wf(s),
    ensures
        s.no_duplicates(),
{
    assert forall|t1: int, t2: int|
        0 <= t1 < s.len() && 0 <= t2 < s.len() && t1 != t2 implies s[t1] != s[t2] by {
        if t1 < t2 {
            assert(s[t1] < s[t2]);
        } else {
            assert(s[t2] < s[t1]);
        }
    }
}

/// A candidate list that is contained in another is no longer than it.
pub proof fn lemma_cands_subset_len(s1: Seq<u8>, s2: Seq<u8>)
    requires
        cands_wf(s1),
        cands_wf(s2),
        forall|d: u8| s1.contains(d) ==> s2.contains(d),
    ensures
        s1.len() <= s2.len(),
{
    broadcast use seq_to_set_is_finite;

    lemma_cands_no_dup(s1);
    lemma_cands_no_dup(s2);
    s1.unique_seq_to_set();
    s2.unique_seq_to_set();
    assert(s1.to_set().subset_of(s2.to_set())) by {
        assert forall|d: u8| s1.to_set().contains(d) implies s2.to_set().contains(d) by {
            assert(s1.contains(d));
            assert(s2.contains(d));
        }
    }
    lemma_len_subset(s1.to_set(), s2.to_set());
}

pub proof fn lemma_total_update(v: Seq<Seq<u8>>, i: int, s: Seq<u8>)
    requires
        0 <= i < v.len(),
    ensures
        total_count(v.update(i, s)) + v[i].len() == total_count(v) + s.len(),
    decreases v.len(),
{
    let w = v.update(i, s);
    if i == v.len() - 1 {
        assert(w.drop_last() =~= v.drop_last());
    } else {
        assert(w.drop_last() =~= v.drop_last().update(i, s));
        assert(w.last() == v.last());
        lemma_total_update(v.drop_last(), i, s);
    }
}

pub proof fn lemma_total_pointwise(v: Seq<Seq<u8>>, w: Seq<Seq<u8>>)
    requires
        v.len() == w.len(),
        forall|i: int| 0 <= i < v.len() ==> (#[trigger] w[i]).len() <= v[i].len(),
    ensures
        total_count(w) <= total_count(v),
    decreases v.len(),
{
    if v.len() > 0 {
        lemma_total_pointwise(v.drop_last(), w.drop_last());
        assert(w.last().len() <= v.last().len()) by {
            assert(w[v.len() - 1].len() <= v[v.len() - 1].len());
        }
    }
}

pub proof fn lemma_total_pointwise_strict(v: Seq<Seq<u8>>, w: Seq<Seq<u8>>, i0: int)
    requires
        v.len() == w.len(),
        forall|i: int| 0 <= i < v.len() ==> (#[trigger] w[i]).len() <= v[i].len(),
        0 <= i0 < v.len(),
        w[i0].len() < v[i0].len(),
    ensures
        total_count(w) < total_count(v),
{
    let mid = v.update(i0, w[i0]);
    lemma_total_update(v, i0, w[i0]);
    lemma_total_pointwise(mid, w);
}

/// Pointwise candidate-list lengths, derived from `refines` plus order.
pub proof fn lemma_refines_len(w: Seq<Seq<u8>>, v: Seq<Seq<u8>>, i: int)
    requires
        refines(w, v),
        lists_wf(w),
        lists_wf(v),
        0 <= i < 81,
    ensures
        w[i].len() <= v[i].len(),
{
    lemma_cands_subset_len(w[i], v[i]);
}

pub proof fn lemma_refines_total(w: Seq<Seq<u8>>, v: Seq<Seq<u8>>)
    requires
        refines(w, v),
        lists_wf(w),
        lists_wf(v),
    ensures
        total_count(w) <= total_count(v),
{
    assert forall|i: int| 0 <= i < w.len() implies (#[trigger] w[i]).len() <= v[i].len() by {
        lemma_refines_len(w, v, i);
    }
    lemma_total_pointwise(v, w);
}

/// A non-empty ordered list whose members all equal `e` is exactly `[e]`.
pub proof fn lemma_singleton(s: Seq<u8>, e: u8)
    requires
        cands_wf(s),
        s.len() >= 1,
        forall|x: u8| s.contains(x) ==> x == e,
    ensures
        s =~= seq![e],
{
    assert(s.contains(s[0]));
    if s.len() >= 2 {
        assert(s.contains(s[1]));
        assert(s[0] < s[1]);
    }
}

/// Finds the position of digit `d` in a candidate list.
pub fn find_digit(row: &Vec<u8>, d: u8) -> (r: Option<usize>)
    ensures
        match r {
            Some(t) => t < row@.len() && row@[t as int] == d,
            None => !row@.contains(d),
        },
{
    let mut t: usize = 0;
    while t < row.len()
        invariant
            t <= row@.len(),
            forall|tt: int| 0 <= tt < t ==> row@[tt] != d,
        decreases row@.len() - t,
    {
        if row[t] == d {
            return Some(t);
        }
        t = t + 1;
    }
    None
}

/// Whether digit `d` is still a candidate in the list.
pub fn row_contains(row: &Vec<u8>, d: u8) -> (r: bool)
    ensures
        r == row@.contains(d),
{
    match find_digit(row, d) {
        Some(_) => true,
        None => false,
    }
}

pub fn copy_row(row: &Vec<u8>) -> (r: Vec<u8>)
    ensures
        r@ == row@,
{
    let mut r: Vec<u8> = Vec::new();
    let mut t: usize = 0;
    while t < row.len()
        invariant
            t <= row@.len(),
            r@ == row@.subrange(0, t as int),
        decreases row@.len() - t,
    {
        r.push(row[t]);
        proof {
            assert(r@ =~= row@.subrange(0, t + 1));
        }
        t = t + 1;
    }
    proof {
        assert(r@ =~= row@);
    }
    r
}

/// An independently owned copy of the whole mapping; how the search clones
/// before guessing.
pub fn copy_values(v: &Vec<Vec<u8>>) -> (r: Vec<Vec<u8>>)
    ensures
        vals_of(r) == vals_of(*v),
        r@.len() == v@.len(),
{
    let mut r: Vec<Vec<u8>> = Vec::new();
    let mut t: usize = 0;
    while t < v.len()
        invariant
            t <= v@.len(),
            r@.len() == t,
            forall|tt: int| 0 <= tt < t ==> (#[trigger] r@[tt])@ == v@[tt]@,
        decreases v@.len() - t,
    {
        let row = copy_row(&v[t]);
        r.push(row);
        t = t + 1;
    }
    proof {
        assert(vals_of(r) =~= vals_of(*v));
    }
    r
}

/// The fresh mapping in which every cell still allows every digit.
pub fn all_candidates() -> (r: Vec<Vec<u8>>)
    ensures
        values_wf(vals_of(r)),
        forall|i: int, d: u8| 0 <= i < 81 && digit_ok(d) ==> vals_of(r)[i].contains(d),
        forall|i: int| 0 <= i < 81 ==> (#[trigger] vals_of(r)[i]).len() == 9,
{
    let mut r: Vec<Vec<u8>> = Vec::new();
    let mut i: usize = 0;
    while i < 81
        invariant
            i <= 81,
            r@.len() == i,
            forall|ii: int| 0 <= ii < i ==> cands_wf((#[trigger] r@[ii])@),
            forall|ii: int| 0 <= ii < i ==> (#[trigger] r@[ii])@.len() == 9,
            forall|ii: int, t: int|
                #![trigger r@[ii]@[t]]
                0 <= ii < i && 0 <= t < 9 ==> r@[ii]@[t] == t + 1,
        decreases 81 - i,
    {
        let mut row: Vec<u8> = Vec::new();
        let mut d: u8 = 1;
        while d <= 9
            invariant
                1 <= d <= 10,
                row@.len() == d - 1,
                forall|t: int| 0 <= t < d - 1 ==> #[trigger] row@[t] == t + 1,
            decreases 10 - d,
        {
            row.push(d);
            d = d + 1;
        }
        r.push(row);
        i = i + 1;
    }
    proof {
        assert forall|i: int, d: u8|
            0 <= i < 81 && digit_ok(d) implies vals_of(r)[i].contains(d) by {
            assert(r@[i]@[d - 1] == d);
        }
    }
    r
}

/// The digits 1..=9 as a sequence, for counting arguments.
pub open spec fn all_digits() -> Seq<u8> {
    seq![1u8, 2u8, 3u8, 4u8, 5u8, 6u8, 7u8, 8u8, 9u8]
}

pub proof fn lemma_all_digits()
    ensures
        all_digits().len() == 9,
        all_digits().no_duplicates(),
        forall|d: u8| #[trigger] all_digits().contains(d) <==> digit_ok(d),
        all_digits().to_set().len() == 9,
{
    let s = all_digits();
    assert forall|d: u8| #[trigger] s.contains(d) <==> digit_ok(d) by {
        if digit_ok(d) {
            assert(s[d - 1] == d);
        }
    }
    assert(s.no_duplicates()) by {
        assert(forall|t: int| 0 <= t < 9 ==> #[trigger] s[t] == t + 1);
    }
    s.unique_seq_to_set();
}

/// Every cell already down to one candidate has had its digit cleaned out
/// of its peers: how `newly_fixed_clean` is consumed, measured against the
/// fresh all-candidates mapping in which no cell is fixed.
pub open spec fn fixed_cells_clean(v: Seq<Seq<u8>>) -> bool {
    forall|c: int| is_cell(c) && (#[trigger] v[c]).len() == 1 ==> cell_clean(v, c)
}

/// Narrowing a mapping whose fixed cells are all clean, while cleaning every
/// newly fixed cell, keeps all fixed cells clean.
pub proof fn lemma_clean_mono(u: Seq<Seq<u8>>, w: Seq<Seq<u8>>)
    requires
        refines(w, u),
        newly_fixed_clean(u, w),
        fixed_cells_clean(u),
        values_wf(u),
        values_wf(w),
    ensures
        fixed_cells_clean(w),
{
    assert forall|c: int| is_cell(c) && (#[trigger] w[c]).len() == 1 implies cell_clean(w, c) by {
        let e = w[c][0];
        assert(w[c].contains(e));
        if u[c].len() == 1 {
            assert(u[c].contains(e));
            assert(u[c][0] == e);
            assert(cell_clean(u, c));
            assert forall|p: int| is_cell(p) && is_peer(c, p) implies !(#[trigger] w[p]).contains(
                e,
            ) by {
                assert(!u[p].contains(e));
            }
        }
    }
}

/// In a resolved grid that covers every digit in every group, no two peers
/// can agree: a repeated digit would crowd some other digit out of the group.
pub proof fn lemma_coverage_solution(v: Seq<Seq<u8>>)
    requires
        values_wf(v),
        resolved(v),
        forall|k: int, d: u8|
            0 <= k < 27 && digit_ok(d) ==> #[trigger] unit_has_digit(grid_of(v), k, d),
    ensures
        solution_ok(grid_of(v)),
{
    broadcast use seq_to_set_is_finite;
    broadcast use vstd::set::group_set_axioms;

    let a = grid_of(v);
    assert(grid_wf(a));
    assert forall|i: int, j: int|
        is_cell(i) && is_cell(j) && #[trigger] is_peer(i, j) implies a[i] != a[j] by {
        if a[i] == a[j] {
            lemma_peer_some_unit(i, j);
            let k = choose|k: int| 0 <= k < 27 && #[trigger] in_unit(i, k) && in_unit(j, k);
            lemma_in_unit_unit_cell(i, k);
            lemma_in_unit_unit_cell(j, k);
            let pi = unit_pos(i, k);
            let pj = unit_pos(j, k);
            assert(pi != pj) by {
                assert(unit_cell(k, pi) == i && unit_cell(k, pj) == j);
            }
            let digs = Seq::new(9, |jj: int| a[unit_cell(k, jj)]);
            lemma_all_digits();
            assert(all_digits().to_set().subset_of(digs.to_set())) by {
                assert forall|e: u8| all_digits().to_set().contains(e) implies digs.to_set()
                    .contains(e) by {
                    assert(all_digits().contains(e));
                    assert(unit_has_digit(a, k, e));
                    let jj = choose|jj: int| 0 <= jj < 9 && a[#[trigger] unit_cell(k, jj)] == e;
                    assert(digs[jj] == e);
                    assert(digs.contains(e));
                }
            }
            lemma_len_subset(all_digits().to_set(), digs.to_set());
            digs.lemma_cardinality_of_set();
            digs.lemma_no_dup_set_cardinality();
            assert(digs[pi] == digs[pj]);
        }
    }
}

/// A resolved mapping in which every fixed digit has been cleaned out of its
/// peers reads off as a valid solved grid.
pub proof fn lemma_clean_resolved_solution(v: Seq<Seq<u8>>)
    requires
        values_wf(v),
        resolved(v),
        forall|c: int| is_cell(c) ==> cell_clean(v, c),
    ensures
        solution_ok(grid_of(v)),
{
    broadcast use seq_to_set_is_finite;
    broadcast use vstd::set::group_set_axioms;

    let a = grid_of(v);
    assert(grid_wf(a));
    assert forall|i: int, j: int|
        is_cell(i) && is_cell(j) && #[trigger] is_peer(i, j) implies a[i] != a[j] by {
        assert(cell_clean(v, i));
        assert(!v[j].contains(v[i][0]));
        assert(v[j].contains(a[j]));
    }
    assert forall|k: int, d: u8| 0 <= k < 27 && digit_ok(d) implies #[trigger] unit_has_digit(
        a,
        k,
        d,
    ) by {
        let digs = Seq::new(9, |j: int| a[unit_cell(k, j)]);
        assert forall|j1: int, j2: int|
            0 <= j1 < 9 && 0 <= j2 < 9 && j1 != j2 implies digs[j1] != digs[j2] by {
            lemma_unit_cell_in_unit(k, j1);
            lemma_unit_cell_in_unit(k, j2);
            let c1 = unit_cell(k, j1);
            let c2 = unit_cell(k, j2);
            assert(unit_pos(c1, k) == j1 && unit_pos(c2, k) == j2);
            assert(c1 != c2);
            lemma_same_unit_is_peer(c1, c2, k);
        }
        assert(digs.no_duplicates());
        digs.unique_seq_to_set();
        lemma_all_digits();
        assert(digs.to_set().subset_of(all_digits().to_set())) by {
            assert forall|e: u8| digs.to_set().contains(e) implies all_digits().to_set().contains(
                e,
            ) by {
                assert(digs.contains(e));
                let j = choose|j: int| 0 <= j < 9 && digs[j] == e;
                lemma_unit_cell_in_unit(k, j);
                assert(digit_ok(e));
                assert(all_digits().contains(e));
            }
        }
        assert(digs.to_set().contains(d)) by {
            if !digs.to_set().contains(d) {
                assert(digs.to_set().subset_of(all_digits().to_set().remove(d))) by {
                    assert forall|e: u8| digs.to_set().contains(e) implies all_digits()
                        .to_set()
                        .remove(d)
                        .contains(e) by {}
                }
                assert(all_digits().to_set().remove(d).len() == 8) by {
                    assert(all_digits().contains(d));
                    assert(all_digits().to_set().contains(d));
                }
                lemma_len_subset(digs.to_set(), all_digits().to_set().remove(d));
            }
        }
        assert(digs.contains(d));
        let j = choose|j: int| 0 <= j < 9 && digs[j] == d;
        assert(0 <= j < 9 && a[unit_cell(k, j)] == d);
    }
}

} // verus!
