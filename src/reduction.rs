use vstd::prelude::*;

use crate::matrix::{is_pivot, is_zero_row, num_cols, pivot_matches, Number};

verus! {

/// Rectangular, with `nc` columns, and every entry `0` or `1`.
pub open spec fn is_bit_matrix(m: Seq<Seq<u8>>, nc: nat) -> bool {
    forall|i: int| 0 <= i < m.len() ==> is_bit_row(#[trigger] m[i], nc)
}

pub open spec fn is_bit_row(row: Seq<u8>, nc: nat) -> bool {
    &&& row.len() == nc
    &&& forall|j: int| 0 <= j < nc ==> #[trigger] row[j] <= 1
}

/// Sum of two rows modulo 2.
pub open spec fn add_rows(a: Seq<u8>, b: Seq<u8>) -> Seq<u8> {
    Seq::new(a.len(), |j: int| ((a[j] + b[j]) % 2) as u8)
}

pub open spec fn swap_rows_spec(m: Seq<Seq<u8>>, a: int, b: int) -> Seq<Seq<u8>> {
    m.update(a, m[b]).update(b, m[a])
}

/// The first row from `r` on with a nonzero entry in column `lead`; `m.len()` if none.
pub open spec fn find_row(m: Seq<Seq<u8>>, r: int, lead: int) -> int
    decreases m.len() - r,
{
    if r >= m.len() {
        m.len() as int
    } else if m[r][lead] != 0 {
        r
    } else {
        find_row(m, r + 1, lead)
    }
}

/// Row `r` added into every other row that has a one in column `lead`.
pub open spec fn eliminate(m: Seq<Seq<u8>>, r: int, lead: int) -> Seq<Seq<u8>> {
    Seq::new(
        m.len(),
        |k: int|
            if k != r && m[k][lead] == 1 {
                add_rows(m[k], m[r])
            } else {
                m[k]
            },
    )
}

/// The records of `eliminate` for the rows before `k`.
pub open spec fn eliminate_ops(m: Seq<Seq<u8>>, r: int, lead: int, k: int) -> Seq<(usize, usize)>
    decreases k,
{
    if k <= 0 {
        seq![]
    } else if k - 1 != r && m[k - 1][lead] == 1 {
        eliminate_ops(m, r, lead, k - 1).push(((k - 1) as usize, r as usize))
    } else {
        eliminate_ops(m, r, lead, k - 1)
    }
}

/// The records of a swap of rows `r` and `i`: none when they are the same row.
pub open spec fn swap_ops(r: int, i: int) -> Seq<(usize, usize)> {
    if r == i {
        seq![]
    } else {
        seq![(r as usize, i as usize), (i as usize, r as usize), (r as usize, i as usize)]
    }
}

/// Gauss-Jordan elimination from row `r` and column `lead` on: the reduced
/// matrix and the row operations recorded on the way.
pub open spec fn reduce_from(m: Seq<Seq<u8>>, nc: nat, r: nat, lead: nat) -> (Seq<Seq<u8>>, Seq<(usize, usize)>)
    decreases nc - lead,
{
    if r >= m.len() || lead >= nc {
        (m, seq![])
    } else {
        let i = find_row(m, r as int, lead as int);
        if i >= m.len() {
            reduce_from(m, nc, r, lead + 1)
        } else {
            let m1 = swap_rows_spec(m, r as int, i);
            let m2 = eliminate(m1, r as int, lead as int);
            let rest = reduce_from(m2, nc, r + 1, lead + 1);
            (rest.0, swap_ops(r as int, i) + eliminate_ops(m1, r as int, lead as int, m.len() as int) + rest.1)
        }
    }
}

/// The reduced row echelon form of `m` and the row operations that lead to it.
pub open spec fn reduce(m: Seq<Seq<u8>>) -> (Seq<Seq<u8>>, Seq<(usize, usize)>) {
    reduce_from(m, num_cols(m), 0, 0)
}

pub(crate) proof fn lemma_find_row_bounds(m: Seq<Seq<u8>>, r: int, lead: int)
    requires
        0 <= r,
    ensures
        r <= find_row(m, r, lead) <= m.len() || (r > m.len() && find_row(m, r, lead) == m.len()),
        find_row(m, r, lead) < m.len() ==> m[find_row(m, r, lead)][lead] != 0,
        forall|k: int| r <= k < find_row(m, r, lead) ==> m[k][lead] == 0,
    decreases m.len() - r,
{
    if r < m.len() && m[r][lead] == 0 {
        lemma_find_row_bounds(m, r + 1, lead);
    }
}

pub(crate) proof fn lemma_add_rows_bits(a: Seq<u8>, b: Seq<u8>, nc: nat)
    requires
        is_bit_row(a, nc),
        is_bit_row(b, nc),
    ensures
        is_bit_row(add_rows(a, b), nc),
{
}

pub(crate) proof fn lemma_reduce_step_bits(m: Seq<Seq<u8>>, nc: nat, r: int, i: int, lead: int)
    requires
        is_bit_matrix(m, nc),
        0 <= r < m.len(),
        0 <= i < m.len(),
    ensures
        is_bit_matrix(swap_rows_spec(m, r, i), nc),
        is_bit_matrix(eliminate(swap_rows_spec(m, r, i), r, lead), nc),
{
    let m1 = swap_rows_spec(m, r, i);
    assert forall|k: int| 0 <= k < m1.len() implies is_bit_row(#[trigger] m1[k], nc) by {
        if k == i {
        } else if k == r {
        } else {
            assert(m1[k] == m[k]);
        }
    }
    let m2 = eliminate(m1, r, lead);
    assert forall|k: int| 0 <= k < m2.len() implies is_bit_row(#[trigger] m2[k], nc) by {
        assert(is_bit_row(m1[k], nc));
        assert(is_bit_row(m1[r], nc));
        lemma_add_rows_bits(m1[k], m1[r], nc);
    }
}

/// Column of the first nonzero entry of `row` from `k` on; `row.len()` if none.
pub open spec fn first_nonzero(row: Seq<u8>, k: int) -> int
    decreases row.len() - k,
{
    if k >= row.len() {
        row.len() as int
    } else if row[k] != 0 {
        k
    } else {
        first_nonzero(row, k + 1)
    }
}

/// Pivot column of `row`; `row.len()` for a zero row.
pub open spec fn pivot_of(row: Seq<u8>) -> int {
    first_nonzero(row, 0)
}

/// Reduced row echelon form: zero rows come last, pivots strictly increase
/// downwards, and a pivot's column is zero in every other row.
pub open spec fn is_rref(m: Seq<Seq<u8>>) -> bool {
    &&& forall|i: int, j: int|
        0 <= i < j < m.len() && is_zero_row(#[trigger] m[i]) ==> is_zero_row(#[trigger] m[j])
    &&& forall|i: int, j: int|
        0 <= i < j < m.len() && !is_zero_row(#[trigger] m[j]) ==> pivot_of(#[trigger] m[i]) < pivot_of(m[j])
    &&& forall|i: int, k: int|
        0 <= i < m.len() && 0 <= k < m.len() && k != i && !is_zero_row(#[trigger] m[i])
            ==> #[trigger] m[k][pivot_of(m[i])] == 0
}

pub(crate) proof fn lemma_first_nonzero(row: Seq<u8>, k: int)
    requires
        0 <= k <= row.len(),
    ensures
        k <= first_nonzero(row, k) <= row.len(),
        first_nonzero(row, k) < row.len() ==> row[first_nonzero(row, k)] != 0,
        forall|c: int| k <= c < first_nonzero(row, k) ==> row[c] == 0,
    decreases row.len() - k,
{
    if k < row.len() && row[k] == 0 {
        lemma_first_nonzero(row, k + 1);
    }
}

/// What `pivot_of` is: the first nonzero column, or the length for a zero row.
pub proof fn lemma_pivot_of(row: Seq<u8>)
    ensures
        0 <= pivot_of(row) <= row.len(),
        forall|c: int| 0 <= c < pivot_of(row) ==> row[c] == 0,
        pivot_of(row) < row.len() <==> !is_zero_row(row),
        pivot_of(row) < row.len() ==> is_pivot(row, pivot_of(row)),
{
    lemma_first_nonzero(row, 0);
}

/// A nonzero entry with only zeros before it is the pivot.
pub proof fn lemma_pivot_at(row: Seq<u8>, p: int)
    requires
        0 <= p < row.len(),
        row[p] != 0,
        forall|c: int| 0 <= c < p ==> row[c] == 0,
    ensures
        pivot_of(row) == p,
        !is_zero_row(row),
{
    lemma_pivot_of(row);
    if pivot_of(row) < p {
        assert(row[pivot_of(row)] == 0);
    }
    assert(!row[p].spec_is_zero());
}

pub(crate) proof fn lemma_pivot_matches(row: Seq<u8>, r: Option<usize>)
    requires
        pivot_matches(row, r),
    ensures
        r matches Some(p) ==> p == pivot_of(row) && !is_zero_row(row),
        r is None ==> is_zero_row(row) && pivot_of(row) == row.len(),
{
    lemma_pivot_of(row);
    if let Some(p) = r {
        lemma_pivot_at(row, p as int);
    }
}

/// The state of elimination before row `r` and column `lead`: rows above `r`
/// are reduced with pivots left of `lead`, rows from `r` on are zero left of `lead`.
pub open spec fn reduced_above(m: Seq<Seq<u8>>, nc: nat, r: nat, lead: nat) -> bool {
    &&& is_bit_matrix(m, nc)
    &&& r <= m.len()
    &&& lead <= nc
    &&& forall|i: int| 0 <= i < r ==> !is_zero_row(#[trigger] m[i]) && pivot_of(m[i]) < lead
    &&& forall|i: int, j: int| 0 <= i < j < r ==> pivot_of(#[trigger] m[i]) < pivot_of(#[trigger] m[j])
    &&& forall|i: int, k: int|
        0 <= i < r && 0 <= k < m.len() && k != i ==> #[trigger] m[k][pivot_of(#[trigger] m[i])] == 0
    &&& forall|i: int, c: int| r <= i < m.len() && 0 <= c < lead ==> #[trigger] m[i][c] == 0
}

pub(crate) proof fn lemma_reduced_above_done(m: Seq<Seq<u8>>, nc: nat, r: nat, lead: nat)
    requires
        reduced_above(m, nc, r, lead),
        r >= m.len() || lead >= nc,
    ensures
        is_rref(m),
{
    assert forall|i: int| 0 <= i < m.len() implies (i < r <==> !is_zero_row(#[trigger] m[i])) by {
        if i >= r {
            assert(lead == nc);
            assert(is_bit_row(m[i], nc));
            assert forall|c: int| 0 <= c < m[i].len() implies (#[trigger] m[i][c]).spec_is_zero() by {
                assert(m[i][c] == 0);
            }
        }
    }
}

pub(crate) proof fn lemma_reduce_step(m: Seq<Seq<u8>>, nc: nat, r: nat, lead: nat)
    requires
        reduced_above(m, nc, r, lead),
        r < m.len(),
        lead < nc,
    ensures
        find_row(m, r as int, lead as int) >= m.len() ==> reduced_above(m, nc, r, lead + 1),
        find_row(m, r as int, lead as int) < m.len() ==> reduced_above(
            eliminate(swap_rows_spec(m, r as int, find_row(m, r as int, lead as int)), r as int, lead as int),
            nc,
            r + 1,
            lead + 1,
        ),
{
    let q = find_row(m, r as int, lead as int);
    lemma_find_row_bounds(m, r as int, lead as int);
    if q >= m.len() {
        assert forall|i: int, c: int| r <= i < m.len() && 0 <= c < lead + 1 implies #[trigger] m[i][c] == 0 by {
            if c == lead {
                assert(m[i][lead as int] == 0);
            }
        }
    } else {
        let m1 = swap_rows_spec(m, r as int, q);
        let m2 = eliminate(m1, r as int, lead as int);
        lemma_reduce_step_bits(m, nc, r as int, q, lead as int);
        assert(is_bit_row(m[q], nc));
        assert(m1[r as int] == m[q]);
        assert(m1[r as int][lead as int] == 1);
        assert forall|k: int| 0 <= k < m.len() && k != r && k != q implies #[trigger] m1[k] == m[k] by {}
        assert(m1[q] == m[r as int]);
        // row r keeps its entries and has its pivot at lead
        assert(m2[r as int] == m1[r as int]);
        assert forall|c: int| 0 <= c < lead implies #[trigger] m2[r as int][c] == 0 by {
            assert(m[q][c] == 0);
        }
        lemma_pivot_at(m2[r as int], lead as int);
        // rows above r keep their pivots
        assert forall|i: int| 0 <= i < r implies pivot_of(#[trigger] m2[i]) == pivot_of(m[i]) && !is_zero_row(
            m2[i],
        ) by {
            let p = pivot_of(m[i]);
            lemma_pivot_of(m[i]);
            assert(m1[i] == m[i]);
            assert(is_bit_row(m[i], nc));
            assert(m[i][p] == 1);
            assert(m[q][p] == 0);
            assert forall|c: int| 0 <= c < p implies #[trigger] m2[i][c] == 0 by {
                assert(m[i][c] == 0);
                assert(m[q][c] == 0);
            }
            lemma_pivot_at(m2[i], p);
        }
        // clean pivot columns
        assert forall|i: int, k: int|
            0 <= i < r + 1 && 0 <= k < m2.len() && k != i implies #[trigger] m2[k][pivot_of(#[trigger] m2[i])] == 0 by {
            if i == r {
                assert(is_bit_row(m1[k], nc));
                if m1[k][lead as int] == 1 {
                    assert(m2[k] == add_rows(m1[k], m1[r as int]));
                } else {
                    assert(m2[k] == m1[k]);
                }
            } else {
                let p = pivot_of(m[i]);
                assert(pivot_of(m2[i]) == p);
                lemma_pivot_of(m[i]);
                assert(m1[r as int][p] == 0);
                if k == q {
                    assert(m1[k][p] == m[r as int][p]);
                } else if k == r {
                } else {
                    assert(m1[k][p] == m[k][p]);
                }
                assert(m1[k][p] == 0);
            }
        }
        assert forall|i: int, c: int| r + 1 <= i < m2.len() && 0 <= c < lead + 1 implies #[trigger] m2[i][c] == 0 by {
            assert(is_bit_row(m1[i], nc));
            if i == q {
                assert(m1[i] == m[r as int]);
            } else {
                assert(m1[i] == m[i]);
            }
            if c < lead {
                assert(m1[i][c] == 0);
                assert(m1[r as int][c] == 0);
            }
        }
        assert forall|i: int| 0 <= i < r + 1 implies !is_zero_row(#[trigger] m2[i]) && pivot_of(m2[i]) < lead + 1 by {}
        assert forall|i: int, j: int| 0 <= i < j < r + 1 implies pivot_of(#[trigger] m2[i]) < pivot_of(#[trigger] m2[j]) by {}
    }
}

/// Elimination from a state in `reduced_above` ends in reduced row echelon form.
pub(crate) proof fn lemma_reduce_from_rref(m: Seq<Seq<u8>>, nc: nat, r: nat, lead: nat)
    requires
        reduced_above(m, nc, r, lead),
    ensures
        is_rref(reduce_from(m, nc, r, lead).0),
        is_bit_matrix(reduce_from(m, nc, r, lead).0, nc),
        reduce_from(m, nc, r, lead).0.len() == m.len(),
    decreases nc - lead,
{
    if r >= m.len() || lead >= nc {
        lemma_reduced_above_done(m, nc, r, lead);
    } else {
        lemma_reduce_step(m, nc, r, lead);
        let q = find_row(m, r as int, lead as int);
        if q >= m.len() {
            lemma_reduce_from_rref(m, nc, r, lead + 1);
        } else {
            let m2 = eliminate(swap_rows_spec(m, r as int, q), r as int, lead as int);
            lemma_find_row_bounds(m, r as int, lead as int);
            assert(m2.len() == m.len());
            lemma_reduce_from_rref(m2, nc, r + 1, lead + 1);
        }
    }
}

/// The reduction of a well-formed matrix is in reduced row echelon form,
/// with the same shape.
pub proof fn lemma_reduce_is_rref(m: Seq<Seq<u8>>)
    requires
        is_bit_matrix(m, num_cols(m)),
    ensures
        is_rref(reduce(m).0),
        is_bit_matrix(reduce(m).0, num_cols(m)),
        reduce(m).0.len() == m.len(),
{
    lemma_reduce_from_rref(m, num_cols(m), 0, 0);
}

pub(crate) proof fn lemma_eliminate_ops_none(m: Seq<Seq<u8>>, r: int, lead: int, k: int)
    requires
        forall|t: int| 0 <= t < k && t != r ==> #[trigger] m[t][lead] != 1,
    ensures
        eliminate_ops(m, r, lead, k) == Seq::<(usize, usize)>::empty(),
    decreases k,
{
    if k > 0 {
        lemma_eliminate_ops_none(m, r, lead, k - 1);
    }
}

pub(crate) proof fn lemma_reduce_from_fixed(m: Seq<Seq<u8>>, nc: nat, r: nat, lead: nat)
    requires
        is_bit_matrix(m, nc),
        is_rref(m),
        r <= m.len(),
        lead <= nc,
        forall|k: int| r <= k < m.len() ==> pivot_of(#[trigger] m[k]) >= lead,
    ensures
        reduce_from(m, nc, r, lead) == (m, Seq::<(usize, usize)>::empty()),
    decreases nc - lead,
{
    if r >= m.len() || lead >= nc {
    } else {
        let q = find_row(m, r as int, lead as int);
        lemma_find_row_bounds(m, r as int, lead as int);
        assert(is_bit_row(m[r as int], nc));
        lemma_pivot_of(m[r as int]);
        if pivot_of(m[r as int]) == lead {
            assert(q == r);
            let m1 = swap_rows_spec(m, r as int, q);
            assert(m1 =~= m);
            assert forall|t: int| 0 <= t < m.len() && t != r implies #[trigger] m[t][lead as int] != 1 by {
                assert(m[t][pivot_of(m[r as int])] == 0);
            }
            assert(eliminate(m1, r as int, lead as int) =~= m);
            lemma_eliminate_ops_none(m, r as int, lead as int, m.len() as int);
            assert forall|k: int| r + 1 <= k < m.len() implies pivot_of(#[trigger] m[k]) >= lead + 1 by {
                assert(is_bit_row(m[k], nc));
                lemma_pivot_of(m[k]);
                if !is_zero_row(m[k]) {
                    assert(pivot_of(m[r as int]) < pivot_of(m[k]));
                }
            }
            lemma_reduce_from_fixed(m, nc, r + 1, lead + 1);
            assert(swap_ops(r as int, q) + eliminate_ops(m1, r as int, lead as int, m.len() as int) + Seq::<
                (usize, usize),
            >::empty() =~= Seq::<(usize, usize)>::empty());
        } else {
            assert forall|k: int| r <= k < m.len() implies #[trigger] m[k][lead as int] == 0 && pivot_of(m[k])
                >= lead + 1 by {
                assert(is_bit_row(m[k], nc));
                lemma_pivot_of(m[k]);
                if k > r && !is_zero_row(m[k]) {
                    assert(pivot_of(m[r as int]) < pivot_of(m[k]));
                }
            }
            lemma_reduce_from_fixed(m, nc, r, lead + 1);
        }
    }
}

/// A matrix already in reduced row echelon form is its own reduction,
/// reached by no row operation.
pub proof fn lemma_reduce_fixed(m: Seq<Seq<u8>>)
    requires
        is_bit_matrix(m, num_cols(m)),
        is_rref(m),
    ensures
        reduce(m) == (m, Seq::<(usize, usize)>::empty()),
{
    assert forall|k: int| 0 <= k < m.len() implies pivot_of(#[trigger] m[k]) >= 0 by {
        lemma_pivot_of(m[k]);
    }
    lemma_reduce_from_fixed(m, num_cols(m), 0, 0);
}

/// Columns that hold the pivot of one of the first `n` rows.
pub open spec fn pivot_cols_upto(m: Seq<Seq<u8>>, n: int) -> Set<int> {
    Set::new(|c: int| exists|t: int| 0 <= t < n && !is_zero_row(m[t]) && pivot_of(#[trigger] m[t]) == c)
}

/// The pivot columns of `m`.
pub open spec fn pivot_cols(m: Seq<Seq<u8>>) -> Set<int> {
    pivot_cols_upto(m, m.len() as int)
}

/// The row whose pivot is in column `c`.
pub open spec fn pivot_row(m: Seq<Seq<u8>>, c: int) -> int {
    choose|t: int| 0 <= t < m.len() && !is_zero_row(m[t]) && pivot_of(#[trigger] m[t]) == c
}

/// The columns before `j` that hold no pivot, in increasing order.
pub open spec fn free_cols(m: Seq<Seq<u8>>, j: int) -> Seq<int>
    decreases j,
{
    if j <= 0 {
        seq![]
    } else if pivot_cols(m).contains(j - 1) {
        free_cols(m, j - 1)
    } else {
        free_cols(m, j - 1).push(j - 1)
    }
}

/// The kernel vector of the free column `f`: one at `f`, zero at the other
/// free columns, and at a pivot column the entry of the pivot's row in column `f`.
pub open spec fn kernel_vector(m: Seq<Seq<u8>>, nc: nat, f: int) -> Seq<u8> {
    Seq::new(
        nc,
        |c: int|
            if c == f {
                1u8
            } else if pivot_cols(m).contains(c) {
                m[pivot_row(m, c)][f]
            } else {
                0u8
            },
    )
}

/// One kernel vector per free column of `m`, by increasing column.
pub open spec fn kernel_basis(m: Seq<Seq<u8>>, nc: nat) -> Seq<Seq<u8>> {
    free_cols(m, nc as int).map_values(|f: int| kernel_vector(m, nc, f))
}

/// The nonzero rows among the first `n` rows of `m`, in order.
pub open spec fn nonzero_rows(m: Seq<Seq<u8>>, n: int) -> Seq<Seq<u8>>
    decreases n,
{
    if n <= 0 {
        seq![]
    } else if is_zero_row(m[n - 1]) {
        nonzero_rows(m, n - 1)
    } else {
        nonzero_rows(m, n - 1).push(m[n - 1])
    }
}

pub(crate) proof fn lemma_xor_zero(x: u8)
    ensures
        x ^ 0u8 == x,
        0u8 ^ x == x,
{
    assert(x ^ 0u8 == x) by (bit_vector);
    assert(0u8 ^ x == x) by (bit_vector);
}

pub(crate) proof fn lemma_bit_mul(a: u8, b: u8)
    requires
        a <= 1,
        b <= 1,
    ensures
        a * b <= 1,
        b == 1 ==> a * b == a,
        a == 0 ==> a * b == 0,
        b == 0 ==> a * b == 0,
{
    assert(a * b <= 1 && (b == 1 ==> a * b == a) && (a == 0 ==> a * b == 0) && (b == 0 ==> a * b == 0)) by (nonlinear_arith)
        requires
            a <= 1,
            b <= 1,
    ;
}

pub(crate) proof fn lemma_free_cols(m: Seq<Seq<u8>>, j: int)
    requires
        0 <= j,
    ensures
        free_cols(m, j).len() <= j,
        forall|q: int|
            0 <= q < free_cols(m, j).len() ==> 0 <= #[trigger] free_cols(m, j)[q] < j && !pivot_cols(m).contains(
                free_cols(m, j)[q],
            ),
        forall|q1: int, q2: int|
            0 <= q1 < q2 < free_cols(m, j).len() ==> #[trigger] free_cols(m, j)[q1] < #[trigger] free_cols(m, j)[q2],
    decreases j,
{
    if j > 0 {
        lemma_free_cols(m, j - 1);
    }
}

/// In reduced row echelon form, distinct nonzero rows have distinct pivots.
pub(crate) proof fn lemma_rref_pivot_unique(m: Seq<Seq<u8>>, t1: int, t2: int)
    requires
        is_rref(m),
        0 <= t1 < m.len(),
        0 <= t2 < m.len(),
        !is_zero_row(m[t1]),
        !is_zero_row(m[t2]),
        pivot_of(m[t1]) == pivot_of(m[t2]),
    ensures
        t1 == t2,
{
    if t1 < t2 {
        assert(pivot_of(m[t1]) < pivot_of(m[t2]));
    } else if t2 < t1 {
        assert(pivot_of(m[t2]) < pivot_of(m[t1]));
    }
}

} // verus!
