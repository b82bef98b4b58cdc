//! The static structure of the 9x9 grid: the 81 cells, the 27 constraint
//! groups (9 columns, 9 rows, 9 boxes), and the peer relation between cells.
//!
//! Cells are numbered 0..81 in left-to-right, top-to-bottom order, so cell
//! `i` sits in row `i / 9` and column `i % 9`.  Groups are numbered 0..27:
//! columns first, then rows, then boxes, each group listing its 9 cells in a
//! fixed order given by `unit_cell`.

use vstd::prelude::*;
use vstd::arithmetic::div_mod::{lemma_fundamental_div_mod, lemma_fundamental_div_mod_converse};

verus! {

pub open spec fn is_cell(i: int) -> bool {
    0 <= i < 81
}

/// Row index (0..9) of cell `i`.
pub open spec fn row_of(i: int) -> int {
    i / 9
}

/// Column index (0..9) of cell `i`.
pub open spec fn col_of(i: int) -> int {
    i % 9
}

/// Box index (0..9) of cell `i`, numbering the 3x3 boxes row-major.
pub open spec fn box_of(i: int) -> int {
    3 * (i / 27) + (i % 9) / 3
}

/// The `j`-th cell of constraint group `k`.  Groups 0..9 are the columns,
/// 9..18 the rows, 18..27 the boxes.
pub open spec fn unit_cell(k: int, j: int) -> int {
    if k < 9 {
        9 * j + k
    } else if k < 18 {
        9 * (k - 9) + j
    } else {
        27 * ((k - 18) / 3) + 3 * ((k - 18) % 3) + 9 * (j / 3) + j % 3
    }
}

/// Whether cell `i` belongs to group `k`.
pub open spec fn in_unit(i: int, k: int) -> bool {
    if k < 9 {
        col_of(i) == k
    } else if k < 18 {
        row_of(i) == k - 9
    } else {
        box_of(i) == k - 18
    }
}

/// The position (0..9) of cell `i` inside group `k`; the inverse of
/// `unit_cell` whenever `in_unit(i, k)` holds.
pub open spec fn unit_pos(i: int, k: int) -> int {
    if k < 9 {
        row_of(i)
    } else if k < 18 {
        col_of(i)
    } else {
        3 * (row_of(i) % 3) + col_of(i) % 3
    }
}

/// Two distinct cells are peers when they share a row, a column or a box.
pub open spec fn is_peer(i: int, j: int) -> bool {
    i != j && (row_of(i) == row_of(j) || col_of(i) == col_of(j) || box_of(i) == box_of(j))
}

/// Every cell decomposes as 9 * row + column, with both in range.
pub proof fn lemma_cell_decomp(i: int)
    requires
        is_cell(i),
    ensures
        i == 9 * row_of(i) + col_of(i),
        0 <= row_of(i) < 9,
        0 <= col_of(i) < 9,
        0 <= box_of(i) < 9,
        box_of(i) == 3 * (row_of(i) / 3) + col_of(i) / 3,
    decreases i,
{
    if i == 0 {
    } else {
        lemma_cell_decomp(i - 1);
    }
}

/// The cells listed for a group are cells of that group, at the stated
/// position within it.
pub proof fn lemma_unit_cell_in_unit(k: int, j: int)
    requires
        0 <= k < 27,
        0 <= j < 9,
    ensures
        is_cell(unit_cell(k, j)),
        in_unit(unit_cell(k, j), k),
        unit_pos(unit_cell(k, j), k) == j,
{
    if k < 9 {
        let i = 9 * j + k;
        lemma_fundamental_div_mod_converse(i, 9, j, k);
    } else if k < 18 {
        let i = 9 * (k - 9) + j;
        lemma_fundamental_div_mod_converse(i, 9, k - 9, j);
    } else {
        let b = k - 18;
        let bh = b / 3;
        let bl = b % 3;
        let jh = j / 3;
        let jl = j % 3;
        lemma_fundamental_div_mod(b, 3);
        lemma_fundamental_div_mod(j, 3);
        assert(0 <= bl < 3 && 0 <= jl < 3);
        assert(0 <= bh < 3) by {
            lemma_fundamental_div_mod_converse(b, 3, bh, bl);
        }
        assert(0 <= jh < 3) by {
            lemma_fundamental_div_mod_converse(j, 3, jh, jl);
        }
        let i = 27 * bh + 3 * bl + 9 * jh + jl;
        let r = 3 * bh + jh;
        let c = 3 * bl + jl;
        assert(i == 9 * r + c);
        lemma_fundamental_div_mod_converse(i, 9, r, c);
        assert(row_of(i) == r && col_of(i) == c);
        lemma_fundamental_div_mod_converse(i, 27, bh, 9 * jh + 3 * bl + jl);
        lemma_fundamental_div_mod_converse(c, 3, bl, jl);
        lemma_fundamental_div_mod_converse(r, 3, bh, jh);
        assert(box_of(i) == b);
        assert(unit_pos(i, k) == 3 * (r % 3) + c % 3);
        assert(r % 3 == jh && c % 3 == jl);
    }
}

/// Every cell of a group appears in the group's cell list, at `unit_pos`.
pub proof fn lemma_in_unit_unit_cell(i: int, k: int)
    requires
        is_cell(i),
        0 <= k < 27,
        in_unit(i, k),
    ensures
        0 <= unit_pos(i, k) < 9,
        unit_cell(k, unit_pos(i, k)) == i,
{
    lemma_cell_decomp(i);
    let r = row_of(i);
    let c = col_of(i);
    if k < 9 {
        assert(unit_cell(k, r) == 9 * r + c);
    } else if k < 18 {
        assert(unit_cell(k, c) == 9 * r + c);
    } else {
        let b = box_of(i);
        let j = 3 * (r % 3) + c % 3;
        lemma_fundamental_div_mod(r, 3);
        lemma_fundamental_div_mod(c, 3);
        assert(0 <= r % 3 < 3 && 0 <= c % 3 < 3);
        assert(0 <= r / 3 < 3 && 0 <= c / 3 < 3) by {
            lemma_fundamental_div_mod_converse(r, 3, r / 3, r % 3);
            lemma_fundamental_div_mod_converse(c, 3, c / 3, c % 3);
        }
        assert(0 <= j < 9);
        assert(b == 3 * (r / 3) + c / 3);
        lemma_fundamental_div_mod_converse(b, 3, r / 3, c / 3);
        lemma_fundamental_div_mod_converse(j, 3, r % 3, c % 3);
        assert(unit_cell(k, j) == 27 * (r / 3) + 3 * (c / 3) + 9 * (r % 3) + c % 3);
        assert(27 * (r / 3) + 9 * (r % 3) == 9 * r) by {
            assert(r == 3 * (r / 3) + r % 3);
        }
        assert(3 * (c / 3) + c % 3 == c);
        assert(unit_cell(k, j) == 9 * r + c);
    }
}

/// Distinct cells of one group are peers.
pub proof fn lemma_same_unit_is_peer(i: int, j: int, k: int)
    requires
        is_cell(i),
        is_cell(j),
        0 <= k < 27,
        in_unit(i, k),
        in_unit(j, k),
        i != j,
    ensures
        is_peer(i, j),
{
}

/// A peer pair shares at least one of the three groups of either cell.
pub proof fn lemma_peer_some_unit(i: int, j: int)
    requires
        is_cell(i),
        is_cell(j),
        is_peer(i, j),
    ensures
        exists|k: int| 0 <= k < 27 && #[trigger] in_unit(i, k) && in_unit(j, k),
{
    lemma_cell_decomp(i);
    lemma_cell_decomp(j);
    if row_of(i) == row_of(j) {
        assert(in_unit(i, 9 + row_of(i)) && in_unit(j, 9 + row_of(i)));
    } else if col_of(i) == col_of(j) {
        assert(in_unit(i, col_of(i)) && in_unit(j, col_of(i)));
    } else {
        assert(in_unit(i, 18 + box_of(i)) && in_unit(j, 18 + box_of(i)));
    }
}

/// The immutable structural tables shared by every solve call: the 27
/// groups, the groups containing each cell, and the peers of each cell.
pub struct Context {
    /// The 27 groups, each an ordered list of its 9 cells.
    pub unitlist: Vec<Vec<usize>>,
    /// For each cell, the indices into `unitlist` of the 3 groups holding it.
    pub units: Vec<Vec<usize>>,
    /// For each cell, the 20 cells sharing a group with it, ascending.
    pub peers: Vec<Vec<usize>>,
}

impl Context {
    /// Internal consistency: the tables list exactly the cells and groups
    /// that the spec-level topology functions describe.
    pub open spec fn wf(&self) -> bool {
        &&& self.unitlist@.len() == 27
        &&& forall|k: int|
            0 <= k < 27 ==> (#[trigger] self.unitlist@[k])@.len() == 9
        &&& forall|k: int, j: int|
            #![trigger self.unitlist@[k]@[j]]
            0 <= k < 27 && 0 <= j < 9 ==> self.unitlist@[k]@[j] == unit_cell(k, j)
        &&& self.units@.len() == 81
        &&& forall|i: int|
            0 <= i < 81 ==> (#[trigger] self.units@[i])@ == seq![
                col_of(i) as usize,
                (9 + row_of(i)) as usize,
                (18 + box_of(i)) as usize,
            ]
        &&& self.peers@.len() == 81
        &&& forall|i: int, t: int|
            #![trigger self.peers@[i]@[t]]
            0 <= i < 81 && 0 <= t < self.peers@[i]@.len() ==> is_cell(self.peers@[i]@[t] as int)
                && is_peer(i, self.peers@[i]@[t] as int)
        &&& forall|i: int, t1: int, t2: int|
            #![trigger self.peers@[i]@[t1], self.peers@[i]@[t2]]
            0 <= i < 81 && 0 <= t1 < t2 < self.peers@[i]@.len() ==> self.peers@[i]@[t1]
                < self.peers@[i]@[t2]
        &&& forall|i: int, j: int|
            #![trigger self.peers@[i]@.contains(j as usize)]
            0 <= i < 81 && is_cell(j) && is_peer(i, j) ==> self.peers@[i]@.contains(j as usize)
    }
}

/// The cells of group `k`, in the fixed order: the executable counterpart of
/// `unit_cell`.
fn build_unit(k: usize) -> (u: Vec<usize>)
    requires
        k < 27,
    ensures
        u@.len() == 9,
        forall|j: int| 0 <= j < 9 ==> u@[j] as int == unit_cell(k as int, j),
{
    let mut u: Vec<usize> = Vec::new();
    for j in 0..9usize
        invariant
            k < 27,
            u@.len() == j,
            forall|jj: int| 0 <= jj < j ==> u@[jj] as int == unit_cell(k as int, jj),
    {
        let cell: usize = if k < 9 {
            9 * j + k
        } else if k < 18 {
            9 * (k - 9) + j
        } else {
            27 * ((k - 18) / 3) + 3 * ((k - 18) % 3) + 9 * (j / 3) + j % 3
        };
        u.push(cell);
    }
    u
}

/// Builds the three tables once; `Sudoku::new` stores the result.
pub fn context_init() -> (ctx: Context)
    ensures
        ctx.wf(),
{
    let mut unitlist: Vec<Vec<usize>> = Vec::new();
    for k in 0..27usize
        invariant
            unitlist@.len() == k,
            forall|kk: int|
                0 <= kk < k ==> (#[trigger] unitlist@[kk])@.len() == 9,
            forall|kk: int, j: int|
                #![trigger unitlist@[kk]@[j]]
                0 <= kk < k && 0 <= j < 9 ==> unitlist@[kk]@[j] == unit_cell(kk, j),
    {
        let u = build_unit(k);
        unitlist.push(u);
    }

    let mut units: Vec<Vec<usize>> = Vec::new();
    for i in 0..81usize
        invariant
            units@.len() == i,
            forall|ii: int|
                0 <= ii < i ==> (#[trigger] units@[ii])@ == seq![
                    col_of(ii) as usize,
                    (9 + row_of(ii)) as usize,
                    (18 + box_of(ii)) as usize,
                ],
    {
        let mut us: Vec<usize> = Vec::new();
        us.push(i % 9);
        us.push(9 + i / 9);
        us.push(18 + (3 * (i / 27) + (i % 9) / 3));
        proof {
            lemma_cell_decomp(i as int);
            assert(us@ =~= seq![
                col_of(i as int) as usize,
                (9 + row_of(i as int)) as usize,
                (18 + box_of(i as int)) as usize,
            ]);
        }
        units.push(us);
    }

    let mut peers: Vec<Vec<usize>> = Vec::new();
    for i in 0..81usize
        invariant
            peers@.len() == i,
            forall|ii: int, t: int|
                #![trigger peers@[ii]@[t]]
                0 <= ii < i && 0 <= t < peers@[ii]@.len() ==> is_cell(peers@[ii]@[t] as int)
                    && is_peer(ii, peers@[ii]@[t] as int),
            forall|ii: int, t1: int, t2: int|
                #![trigger peers@[ii]@[t1], peers@[ii]@[t2]]
                0 <= ii < i && 0 <= t1 < t2 < peers@[ii]@.len() ==> peers@[ii]@[t1]
                    < peers@[ii]@[t2],
            forall|ii: int, jj: int|
                #![trigger peers@[ii]@.contains(jj as usize)]
                0 <= ii < i && is_cell(jj) && is_peer(ii, jj) ==> peers@[ii]@.contains(jj as usize),
    {
        let mut ps: Vec<usize> = Vec::new();
        for j in 0..81usize
            invariant
                i < 81,
                forall|t: int|
                    0 <= t < ps@.len() ==> is_cell(#[trigger] ps@[t] as int) && is_peer(
                        i as int,
                        ps@[t] as int,
                    ) && ps@[t] < j,
                forall|t1: int, t2: int| 0 <= t1 < t2 < ps@.len() ==> ps@[t1] < ps@[t2],
                forall|jj: int|
                    0 <= jj < j && is_peer(i as int, jj) ==> ps@.contains(jj as usize),
        {
            if j != i && (j / 9 == i / 9 || j % 9 == i % 9
                || 3 * (j / 27) + (j % 9) / 3 == 3 * (i / 27) + (i % 9) / 3) {
                let ghost pre = ps@;
                ps.push(j);
                proof {
                    assert forall|jj: int| 0 <= jj < j + 1 && is_peer(i as int, jj) implies ps@
                        .contains(jj as usize) by {
                        if jj < j {
                            assert(pre.contains(jj as usize));
                            let t = choose|t: int| 0 <= t < pre.len() && pre[t] == jj as usize;
                            assert(ps@[t] == jj as usize);
                        } else {
                            assert(ps@[ps@.len() - 1] == jj as usize);
                        }
                    }
                }
            }
        }
        peers.push(ps);
    }

    Context { unitlist, units, peers }
}

} // verus!
