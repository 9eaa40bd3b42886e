use vstd::prelude::*;

use crate::matrix::{is_zero_row, num_cols, rows_view, HasElements, Matrix, MatrixTrait};
use crate::reduction::{
    add_rows, eliminate, eliminate_ops, find_row, free_cols, is_bit_matrix, is_bit_row, is_rref,
    kernel_basis, kernel_vector, lemma_bit_mul, lemma_find_row_bounds, lemma_free_cols,
    lemma_pivot_matches, lemma_pivot_of, lemma_reduce_fixed, lemma_reduce_is_rref,
    lemma_reduce_step_bits, lemma_rref_pivot_unique, lemma_xor_zero, nonzero_rows, pivot_cols,
    pivot_cols_upto, pivot_of, pivot_row, reduce, reduce_from, swap_ops, swap_rows_spec,
};

verus! {

/// A matrix over the two-element field, with entries `0` and `1`.
pub type GF2Matrix = Matrix<u8>;

/// A copy of `row`.
fn copy_row(row: &Vec<u8>) -> (r: Vec<u8>)
    ensures
        r@ == row@,
{
    let mut out: Vec<u8> = Vec::new();
    let mut j: usize = 0;
    while j < row.len()
        invariant
            j <= row@.len(),
            out@ == row@.subrange(0, j as int),
        decreases row@.len() - j,
    {
        out.push(row[j]);
        j = j + 1;
        assert(out@ =~= row@.subrange(0, j as int));
    }
    assert(out@ =~= row@);
    out
}

/// `a + b` modulo 2, entry by entry.
fn add_row_into(a: &Vec<u8>, b: &Vec<u8>) -> (r: Vec<u8>)
    requires
        a@.len() == b@.len(),
        forall|j: int| 0 <= j < a@.len() ==> a@[j] <= 1 && b@[j] <= 1,
    ensures
        r@ == add_rows(a@, b@),
{
    let mut out: Vec<u8> = Vec::new();
    let mut j: usize = 0;
    while j < a.len()
        invariant
            a@.len() == b@.len(),
            forall|t: int| 0 <= t < a@.len() ==> a@[t] <= 1 && b@[t] <= 1,
            j <= a@.len(),
            out@ == add_rows(a@, b@).subrange(0, j as int),
        decreases a@.len() - j,
    {
        out.push((a[j] + b[j]) % 2);
        j = j + 1;
        assert(out@ =~= add_rows(a@, b@).subrange(0, j as int));
    }
    assert(out@ =~= add_rows(a@, b@));
    out
}

/// A copy of every row of `m`.
fn copy_rows(m: &Vec<Vec<u8>>) -> (r: Vec<Vec<u8>>)
    ensures
        rows_view(r@) == rows_view(m@),
{
    let mut out: Vec<Vec<u8>> = Vec::new();
    let mut i: usize = 0;
    while i < m.len()
        invariant
            i <= m@.len(),
            out@.len() == i,
            forall|t: int| 0 <= t < i ==> (#[trigger] out@[t])@ == m@[t]@,
        decreases m@.len() - i,
    {
        let row = copy_row(&m[i]);
        out.push(row);
        i = i + 1;
    }
    assert(rows_view(out@) =~= rows_view(m@));
    out
}

/// `c` occurs in `v`.
fn contains_col(v: &Vec<usize>, c: usize) -> (r: bool)
    ensures
        r == v@.contains(c),
{
    let mut q: usize = 0;
    while q < v.len()
        invariant
            q <= v@.len(),
            forall|t: int| 0 <= t < q ==> v@[t] != c,
        decreases v@.len() - q,
    {
        if v[q] == c {
            return true;
        }
        q = q + 1;
    }
    false
}

impl GF2Matrix {
    /// Number of distinct pivot columns.
    pub fn rank_echelon_form(&self) -> (r: usize)
        requires
            self.well_formed(),
        ensures
            r == pivot_cols(self.spec_elements()).len(),
    {
        let ghost m = self.spec_elements();
        let ghost nc = num_cols(m);
        let rows = self.nrows();
        let mut count: usize = 0;
        let mut pivot_columns: Vec<usize> = Vec::new();
        let ghost mut seen: Set<int> = Set::empty();
        let mut i: usize = 0;
        assert(seen =~= pivot_cols_upto(m, 0));
        while i < rows
            invariant
                rows == m.len(),
                m == self.spec_elements(),
                is_bit_matrix(m, nc),
                i <= rows,
                seen == pivot_cols_upto(m, i as int),
                seen.finite(),
                seen.len() == count,
                count <= i,
                forall|c: usize| seen.contains(c as int) <==> pivot_columns@.contains(c),
                forall|c: int| seen.contains(c) ==> 0 <= c,
            decreases rows - i,
        {
            let p = GF2Matrix::get_pivot(&self.elements[i]);
            assert(self.elements@[i as int]@ == m[i as int]);
            proof {
                lemma_pivot_matches(m[i as int], p);
            }
            if let Some(col) = p {
                if !contains_col(&pivot_columns, col) {
                    let ghost old_pc = pivot_columns@;
                    pivot_columns.push(col);
                    proof {
                        assert(!seen.contains(col as int));
                        seen = seen.insert(col as int);
                        assert forall|c: usize| seen.contains(c as int) <==> pivot_columns@.contains(c) by {
                            if c == col {
                                assert(pivot_columns@[old_pc.len() as int] == c);
                            } else {
                                if pivot_columns@.contains(c) {
                                    let q = choose|q: int| 0 <= q < pivot_columns@.len() && pivot_columns@[q] == c;
                                    assert(q < old_pc.len());
                                    assert(old_pc[q] == c);
                                }
                                if old_pc.contains(c) {
                                    let q = choose|q: int| 0 <= q < old_pc.len() && old_pc[q] == c;
                                    assert(pivot_columns@[q] == c);
                                }
                            }
                        }
                    }
                    count = count + 1;
                }
            }
            proof {
                assert(seen =~= pivot_cols_upto(m, i + 1)) by {
                    assert forall|c: int| pivot_cols_upto(m, i + 1).contains(c) implies seen.contains(c) by {
                        let t = choose|t: int| 0 <= t < i + 1 && !is_zero_row(m[t]) && pivot_of(#[trigger] m[t]) == c;
                        if t < i {
                            assert(pivot_cols_upto(m, i as int).contains(c));
                        } else {
                            assert(c == pivot_of(m[i as int]));
                            assert(0 <= c);
                        }
                    }
                    assert forall|c: int| seen.contains(c) implies pivot_cols_upto(m, i + 1).contains(c) by {
                        if pivot_cols_upto(m, i as int).contains(c) {
                            let t = choose|t: int| 0 <= t < i && !is_zero_row(m[t]) && pivot_of(#[trigger] m[t]) == c;
                            assert(0 <= t < i + 1 && !is_zero_row(m[t]) && pivot_of(m[t]) == c);
                        } else {
                            assert(0 <= i < i + 1 && !is_zero_row(m[i as int]) && pivot_of(m[i as int]) == c);
                        }
                    }
                }
            }
            i = i + 1;
        }
        count
    }

    /// One kernel vector per free column, for a matrix in reduced row echelon form.
    pub fn kernel_echelon_form(&self) -> (r: Vec<Vec<u8>>)
        requires
            self.well_formed(),
            is_rref(self.spec_elements()),
        ensures
            rows_view(r@) == kernel_basis(self.spec_elements(), num_cols(self.spec_elements())),
    {
        let ghost m = self.spec_elements();
        let ghost nc = num_cols(m);
        let rows = self.nrows();
        let cols = self.ncols();
        let mut pivots: Vec<(usize, usize)> = Vec::new();
        let mut kernel_base: Vec<Vec<u8>> = Vec::new();
        let mut free_columns: Vec<usize> = Vec::new();
        let mut row_index: usize = 0;
        let mut j: usize = 0;
        proof {
            assert forall|t: int| 0 <= t < rows implies pivot_of(#[trigger] m[t]) >= 0 by {
                lemma_pivot_of(m[t]);
            }
        }
        while j < cols
            invariant
                m == self.spec_elements(),
                rows == m.len(),
                cols == nc,
                is_bit_matrix(m, nc),
                is_rref(m),
                j <= cols,
                row_index <= rows,
                pivots@.len() == row_index,
                forall|t: int|
                    0 <= t < row_index ==> (#[trigger] pivots@[t]).1 == t && pivots@[t].0 as int == pivot_of(m[t])
                        && !is_zero_row(m[t]) && pivot_of(m[t]) < j,
                forall|t: int| row_index <= t < rows ==> pivot_of(#[trigger] m[t]) >= j,
                free_columns@.len() == free_cols(m, j as int).len(),
                forall|q: int| 0 <= q < free_columns@.len() ==> #[trigger] free_columns@[q] as int == free_cols(m, j as int)[q],
            decreases cols - j,
        {
            proof {
                if row_index < rows {
                    assert(self.elements@[row_index as int]@ == m[row_index as int]);
                    assert(is_bit_row(m[row_index as int], nc));
                    lemma_pivot_of(m[row_index as int]);
                }
            }
            let bound = row_index < rows && self.elements[row_index][j] == 1;
            proof {
                if bound {
                    assert(pivot_of(m[row_index as int]) == j);
                    assert(pivot_cols(m).contains(j as int)) by {
                        assert(0 <= row_index < m.len() && !is_zero_row(m[row_index as int]) && pivot_of(m[row_index as int]) == j);
                    }
                } else {
                    assert(!pivot_cols(m).contains(j as int)) by {
                        if pivot_cols(m).contains(j as int) {
                            let t = choose|t: int| 0 <= t < m.len() && !is_zero_row(m[t]) && pivot_of(#[trigger] m[t]) == j;
                            lemma_pivot_of(m[t]);
                            assert(is_bit_row(m[t], nc));
                            if t < row_index {
                                assert(pivots@[t].1 == t);
                            } else if t == row_index {
                                assert(m[t][j as int] != 0);
                            } else {
                                let ri = row_index as int;
                                assert(is_bit_row(m[ri], nc));
                                assert(pivot_of(m[ri]) >= j);
                                if is_zero_row(m[ri]) {
                                    assert(is_zero_row(m[t]));
                                } else {
                                    assert(pivot_of(m[ri]) < pivot_of(m[t]));
                                }
                            }
                        }
                    }
                }
                assert forall|t: int| (if bound { row_index + 1 } else { row_index as int }) <= t < rows implies pivot_of(
                    #[trigger] m[t],
                ) >= j + 1 by {
                    assert(is_bit_row(m[t], nc));
                    lemma_pivot_of(m[t]);
                    let ri = row_index as int;
                    if t > ri && !is_zero_row(m[t]) {
                        assert(pivot_of(m[ri]) < pivot_of(m[t]));
                    }
                    if t == ri && !is_zero_row(m[t]) && pivot_of(m[t]) == j {
                        assert(m[t][j as int] != 0);
                    }
                }
            }
            let ghost old_pivots = pivots@;
            if bound {
                pivots.push((j, row_index));
                proof {
                    assert forall|t: int| 0 <= t < row_index + 1 implies (#[trigger] pivots@[t]).1 == t
                        && pivots@[t].0 as int == pivot_of(m[t]) && !is_zero_row(m[t]) && pivot_of(m[t]) < j + 1 by {
                        if t < row_index {
                            assert(pivots@[t] == old_pivots[t]);
                        }
                    }
                }
                row_index = row_index + 1;
            } else {
                free_columns.push(j);
            }
            j = j + 1;
        }
        proof {
            lemma_free_cols(m, nc as int);
            assert forall|t: int| row_index <= t < rows implies is_zero_row(#[trigger] m[t]) by {
                assert(is_bit_row(m[t], nc));
                lemma_pivot_of(m[t]);
            }
        }
        let mut k: usize = 0;
        while k < free_columns.len()
            invariant
                m == self.spec_elements(),
                rows == m.len(),
                cols == nc,
                is_bit_matrix(m, nc),
                is_rref(m),
                row_index <= rows,
                pivots@.len() == row_index,
                forall|t: int|
                    0 <= t < row_index ==> (#[trigger] pivots@[t]).1 == t && pivots@[t].0 as int == pivot_of(m[t])
                        && !is_zero_row(m[t]) && pivot_of(m[t]) < nc,
                forall|t: int| row_index <= t < rows ==> is_zero_row(#[trigger] m[t]),
                free_columns@.len() == free_cols(m, nc as int).len(),
                forall|q: int| 0 <= q < free_columns@.len() ==> #[trigger] free_columns@[q] as int == free_cols(m, nc as int)[q],
                forall|q: int|
                    0 <= q < free_cols(m, nc as int).len() ==> 0 <= #[trigger] free_cols(m, nc as int)[q] < nc
                        && !pivot_cols(m).contains(free_cols(m, nc as int)[q]),
                k <= free_columns@.len(),
                kernel_base@.len() == k,
                forall|q: int| 0 <= q < k ==> (#[trigger] kernel_base@[q])@ == kernel_vector(m, nc, free_cols(m, nc as int)[q]),
            decreases free_columns@.len() - k,
        {
            let free_col = free_columns[k];
            assert(free_col as int == free_cols(m, nc as int)[k as int]);
            let mut kernel_vector: Vec<u8> = vec![0; cols];
            kernel_vector[free_col] = 1;
            proof {
                assert forall|s: int| 0 <= s < row_index implies pivot_of(#[trigger] m[s]) != free_col
                    && kernel_vector@[pivot_of(m[s])] == 0 by {
                    assert(pivots@[s].1 == s);
                    assert(0 <= s < m.len() && !is_zero_row(m[s]) && pivot_of(m[s]) == pivot_of(m[s]));
                    assert(pivot_cols(m).contains(pivot_of(m[s])));
                }
            }
            let mut t: usize = pivots.len();
            while t > 0
                invariant
                    m == self.spec_elements(),
                    rows == m.len(),
                    cols == nc,
                    is_bit_matrix(m, nc),
                    is_rref(m),
                    row_index <= rows,
                    pivots@.len() == row_index,
                    forall|s: int|
                        0 <= s < row_index ==> (#[trigger] pivots@[s]).1 == s && pivots@[s].0 as int == pivot_of(m[s])
                            && !is_zero_row(m[s]) && pivot_of(m[s]) < nc,
                    forall|s: int| row_index <= s < rows ==> is_zero_row(#[trigger] m[s]),
                    0 <= free_col < nc,
                    !pivot_cols(m).contains(free_col as int),
                    t <= row_index,
                    kernel_vector@.len() == nc,
                    kernel_vector@[free_col as int] == 1,
                    forall|c: int| 0 <= c < nc ==> #[trigger] kernel_vector@[c] <= 1,
                    forall|c: int|
                        0 <= c < nc && c != free_col && !pivot_cols(m).contains(c) ==> #[trigger] kernel_vector@[c] == 0,
                    forall|s: int|
                        0 <= s < row_index ==> kernel_vector@[pivot_of(#[trigger] m[s])] == (if s >= t {
                            m[s][free_col as int]
                        } else {
                            0u8
                        }),
                decreases t,
            {
                t = t - 1;
                let (p_index, p_row) = pivots[t];
                assert(p_row == t);
                assert(pivot_cols(m).contains(p_index as int)) by {
                    assert(0 <= t < m.len() && !is_zero_row(m[t as int]) && pivot_of(m[t as int]) == p_index);
                }
                assert(self.elements@[p_row as int]@ == m[t as int]);
                assert(is_bit_row(m[t as int], nc));
                let mut sum: u8 = 0;
                let mut col: usize = cols;
                while col > 0
                    invariant
                        m == self.spec_elements(),
                        rows == m.len(),
                        cols == nc,
                        is_bit_matrix(m, nc),
                        is_rref(m),
                        row_index <= rows,
                        pivots@.len() == row_index,
                        forall|s: int|
                            0 <= s < row_index ==> (#[trigger] pivots@[s]).1 == s && pivots@[s].0 as int == pivot_of(m[s])
                                && !is_zero_row(m[s]) && pivot_of(m[s]) < nc,
                        forall|s: int| row_index <= s < rows ==> is_zero_row(#[trigger] m[s]),
                        0 <= free_col < nc,
                        !pivot_cols(m).contains(free_col as int),
                        t < row_index,
                        p_row == t,
                        p_index as int == pivot_of(m[t as int]),
                        pivot_cols(m).contains(p_index as int),
                        is_bit_row(m[t as int], nc),
                        self.elements@[p_row as int]@ == m[t as int],
                        kernel_vector@.len() == nc,
                        kernel_vector@[free_col as int] == 1,
                        forall|c: int| 0 <= c < nc ==> #[trigger] kernel_vector@[c] <= 1,
                        forall|c: int|
                            0 <= c < nc && c != free_col && !pivot_cols(m).contains(c) ==> #[trigger] kernel_vector@[c]
                                == 0,
                        col <= cols,
                        sum == (if col <= free_col {
                            m[t as int][free_col as int]
                        } else {
                            0u8
                        }),
                    decreases col,
                {
                    col = col - 1;
                    if col != p_index {
                        let a = self.elements[p_row][col];
                        let b = kernel_vector[col];
                        assert(a <= 1 && b <= 1);
                        proof {
                            lemma_bit_mul(a, b);
                        }
                        let term: u8 = a * b;
                        proof {
                            lemma_xor_zero(sum);
                            lemma_xor_zero(term);
                            if col == free_col {
                                assert(b == 1);
                                assert(term == a);
                            } else if pivot_cols(m).contains(col as int) {
                                let s = choose|s: int| 0 <= s < m.len() && !is_zero_row(m[s]) && pivot_of(#[trigger] m[s]) == col;
                                assert(s != t);
                                assert(m[t as int][pivot_of(m[s])] == 0);
                                assert(a == 0);
                                assert(term == 0);
                            } else {
                                assert(b == 0);
                                assert(term == 0);
                            }
                        }
                        sum = sum ^ term;
                    } else {
                        assert(col != free_col);
                    }
                }
                proof {
                    assert forall|s: int| 0 <= s < row_index && s != t implies pivot_of(#[trigger] m[s]) != p_index by {
                        assert(pivots@[s].1 == s);
                        if pivot_of(m[s]) == p_index {
                            lemma_rref_pivot_unique(m, s, t as int);
                        }
                    }
                }
                let ghost old_v = kernel_vector@;
                kernel_vector[p_index] = sum;
                proof {
                    assert forall|s: int| 0 <= s < row_index implies kernel_vector@[pivot_of(#[trigger] m[s])] == (if s
                        >= t {
                        m[s][free_col as int]
                    } else {
                        0u8
                    }) by {
                        assert(pivots@[s].1 == s);
                        if s != t {
                            assert(old_v[pivot_of(m[s])] == kernel_vector@[pivot_of(m[s])]);
                        }
                    }
                }
            }
            proof {
                assert(kernel_vector@ =~= crate::gf2_matrix::kernel_vector(m, nc, free_col as int)) by {
                    assert forall|c: int| 0 <= c < nc && pivot_cols(m).contains(c) && c != free_col implies kernel_vector@[c]
                        == m[pivot_row(m, c)][free_col as int] by {
                        let s = pivot_row(m, c);
                        assert(0 <= s < m.len() && !is_zero_row(m[s]) && pivot_of(m[s]) == c);
                        assert(s < row_index);
                        assert(kernel_vector@[pivot_of(m[s])] == m[s][free_col as int]);
                    }
                }
            }
            kernel_base.push(kernel_vector);
            k = k + 1;
        }
        assert(rows_view(kernel_base@) =~= kernel_basis(m, nc));
        kernel_base
    }

    /// Exchanges rows `row1` and `row2`.
    pub fn swap_rows(&mut self, row1: usize, row2: usize)
        requires
            row1 < old(self).elements@.len(),
            row2 < old(self).elements@.len(),
        ensures
            final(self).spec_elements() == swap_rows_spec(old(self).spec_elements(), row1 as int, row2 as int),
    {
        let a = copy_row(&self.elements[row1]);
        let b = copy_row(&self.elements[row2]);
        self.elements[row1] = b;
        self.elements[row2] = a;
        assert(self.spec_elements() =~= swap_rows_spec(old(self).spec_elements(), row1 as int, row2 as int));
    }

    /// Adds row `r` into every other row with a one in column `lead`, and
    /// records each such addition.
    fn eliminate_column(&mut self, r: usize, lead: usize, ops: &mut Vec<(usize, usize)>)
        requires
            is_bit_matrix(old(self).spec_elements(), num_cols(old(self).spec_elements())),
            r < old(self).elements@.len(),
            lead < num_cols(old(self).spec_elements()),
        ensures
            final(self).spec_elements() == eliminate(old(self).spec_elements(), r as int, lead as int),
            final(ops)@ == old(ops)@ + eliminate_ops(
                old(self).spec_elements(),
                r as int,
                lead as int,
                old(self).elements@.len() as int,
            ),
    {
        let ghost m1 = self.spec_elements();
        let ghost nc = num_cols(m1);
        let ghost ops0 = ops@;
        let rows = self.elements.len();
        let mut k: usize = 0;
        assert(is_bit_row(m1[r as int], nc));
        while k < rows
            invariant
                rows == m1.len(),
                r < rows,
                lead < nc,
                nc == num_cols(m1),
                is_bit_matrix(m1, nc),
                k <= rows,
                self.elements@.len() == rows,
                forall|t: int| 0 <= t < k ==> #[trigger] self.spec_elements()[t] == eliminate(m1, r as int, lead as int)[t],
                forall|t: int| k <= t < rows ==> #[trigger] self.spec_elements()[t] == m1[t],
                ops@ == ops0 + eliminate_ops(m1, r as int, lead as int, k as int),
            decreases rows - k,
        {
            assert(self.spec_elements()[k as int] == m1[k as int]);
            assert(self.spec_elements()[r as int] == m1[r as int]);
            assert(is_bit_row(m1[k as int], nc));
            let ghost prev = self.spec_elements();
            if k != r && self.elements[k][lead] == 1 {
                let new_row = add_row_into(&self.elements[k], &self.elements[r]);
                self.elements[k] = new_row;
                ops.push((k, r));
                assert(self.spec_elements() =~= prev.update(k as int, add_rows(m1[k as int], m1[r as int])));
            } else {
                assert(self.spec_elements() =~= prev);
            }
            proof {
                assert(ops@ =~= ops0 + eliminate_ops(m1, r as int, lead as int, k + 1));
            }
            k = k + 1;
        }
        assert(self.spec_elements() =~= eliminate(m1, r as int, lead as int));
    }
}

impl MatrixTrait<u8> for GF2Matrix {
    open spec fn well_formed(&self) -> bool {
        is_bit_matrix(self.spec_elements(), num_cols(self.spec_elements()))
    }

    open spec fn spec_is_reduced(&self) -> bool {
        is_rref(self.spec_elements())
    }

    open spec fn spec_echelon(&self) -> (Seq<Seq<u8>>, Seq<(usize, usize)>) {
        reduce(self.spec_elements())
    }

    open spec fn spec_rank(&self) -> nat {
        pivot_cols(reduce(self.spec_elements()).0).len()
    }

    open spec fn spec_kernel(&self) -> Seq<Seq<u8>> {
        kernel_basis(reduce(self.spec_elements()).0, num_cols(self.spec_elements()))
    }

    open spec fn spec_image(&self) -> Seq<Seq<u8>> {
        let r = reduce(self.spec_elements()).0;
        nonzero_rows(r, r.len() as int)
    }

    fn is_reduced_echelon(&self) -> (r: bool) {
        let ghost m = self.spec_elements();
        let ghost nc = num_cols(m);
        let nrows = self.nrows();
        let mut old_piv: usize = 0;
        let mut found_zero_row = false;
        let ghost mut zero_at: int = 0;
        let ghost mut piv_row: int = 0;
        let mut i: usize = 0;
        while i < nrows
            invariant
                nrows == m.len(),
                m == self.spec_elements(),
                is_bit_matrix(m, nc),
                i <= nrows,
                found_zero_row ==> 0 <= zero_at < i && is_zero_row(m[zero_at]),
                !found_zero_row ==> forall|t: int| 0 <= t < i ==> !is_zero_row(#[trigger] m[t]),
                forall|t: int| 0 <= t < i && !is_zero_row(#[trigger] m[t]) ==> pivot_of(m[t]) <= old_piv,
                old_piv == 0 || (0 <= piv_row < i && !is_zero_row(m[piv_row]) && pivot_of(m[piv_row]) == old_piv),
                forall|t: int, k: int|
                    0 <= t < i && 0 <= k < m.len() && k != t && !is_zero_row(#[trigger] m[t])
                        ==> #[trigger] m[k][pivot_of(m[t])] == 0,
                forall|t1: int, t2: int|
                    0 <= t1 < t2 < i && is_zero_row(#[trigger] m[t1]) ==> is_zero_row(#[trigger] m[t2]),
                forall|t1: int, t2: int|
                    0 <= t1 < t2 < i && !is_zero_row(#[trigger] m[t2]) ==> pivot_of(#[trigger] m[t1]) < pivot_of(
                        m[t2],
                    ),
            decreases nrows - i,
        {
            let piv = GF2Matrix::get_pivot(&self.elements[i]);
            assert(self.elements@[i as int]@ == m[i as int]);
            proof {
                lemma_pivot_matches(m[i as int], piv);
            }
            match piv {
                None => {
                    found_zero_row = true;
                    proof {
                        zero_at = i as int;
                    }
                },
                Some(piv) => {
                    if piv < old_piv {
                        assert(!is_rref(m)) by {
                            if is_rref(m) {
                                assert(pivot_of(m[piv_row]) < pivot_of(m[i as int]));
                            }
                        }
                        return false;
                    }
                    if found_zero_row {
                        assert(!is_rref(m)) by {
                            if is_rref(m) {
                                assert(is_zero_row(m[zero_at]) ==> is_zero_row(m[i as int]));
                            }
                        }
                        return false;
                    }
                    let mut j: usize = 0;
                    while j < nrows
                        invariant
                            nrows == m.len(),
                            m == self.spec_elements(),
                            is_bit_matrix(m, nc),
                            i < nrows,
                            piv as int == pivot_of(m[i as int]),
                            !is_zero_row(m[i as int]),
                            j <= nrows,
                            forall|k: int| 0 <= k < j && k != i ==> #[trigger] m[k][piv as int] == 0,
                        decreases nrows - j,
                    {
                        assert(self.elements@[j as int]@ == m[j as int]);
                        assert(is_bit_row(m[j as int], nc));
                        assert(is_bit_row(m[i as int], nc));
                        proof {
                            lemma_pivot_of(m[i as int]);
                        }
                        if j != i && self.elements[j][piv] != 0 {
                            assert(!is_rref(m)) by {
                                if is_rref(m) {
                                    assert(m[j as int][pivot_of(m[i as int])] == 0);
                                }
                            }
                            return false;
                        }
                        j = j + 1;
                    }
                    proof {
                        lemma_pivot_of(m[i as int]);
                        assert forall|t: int| 0 <= t < i && !is_zero_row(#[trigger] m[t]) implies pivot_of(m[t])
                            < piv by {
                            lemma_pivot_of(m[t]);
                            assert(m[i as int][pivot_of(m[t])] == 0);
                        }
                        piv_row = i as int;
                    }
                    old_piv = piv;
                },
            }
            i = i + 1;
        }
        true
    }

    fn rank(&self) -> (r: usize) {
        if self.is_reduced_echelon() {
            proof {
                lemma_reduce_fixed(self.spec_elements());
            }
            self.rank_echelon_form()
        } else {
            let (ech_form, _) = self.echelon_form();
            ech_form.rank_echelon_form()
        }
    }

    fn kernel(&self) -> (r: Vec<Vec<u8>>) {
        proof {
            lemma_reduce_is_rref(self.spec_elements());
        }
        if self.is_reduced_echelon() {
            proof {
                lemma_reduce_fixed(self.spec_elements());
            }
            self.kernel_echelon_form()
        } else {
            let (ech_form, _) = self.echelon_form();
            ech_form.kernel_echelon_form()
        }
    }

    fn echelon_form(&self) -> (r: (Self, Vec<(usize, usize)>)) {
        let ghost m0 = self.spec_elements();
        let ghost nc = num_cols(m0);
        proof {
            lemma_reduce_is_rref(m0);
        }
        let rows = self.nrows();
        let cols = self.ncols();
        let mut work = Matrix { elements: copy_rows(&self.elements) };
        let mut operations: Vec<(usize, usize)> = Vec::new();
        let mut r: usize = 0;
        let mut lead: usize = 0;
        assert(operations@ + reduce_from(work.spec_elements(), nc, 0, 0).1 =~= reduce(m0).1);
        while r < rows && lead < cols
            invariant
                rows == m0.len(),
                cols == nc,
                nc == num_cols(m0),
                work.elements@.len() == rows,
                is_bit_matrix(work.spec_elements(), nc),
                r <= rows,
                lead <= cols,
                reduce_from(work.spec_elements(), nc, r as nat, lead as nat).0 == reduce(m0).0,
                operations@ + reduce_from(work.spec_elements(), nc, r as nat, lead as nat).1 == reduce(m0).1,
            decreases cols - lead,
        {
            let ghost w = work.spec_elements();
            let mut i: usize = r;
            while i < rows && work.elements[i][lead] == 0
                invariant
                    w == work.spec_elements(),
                    rows == w.len(),
                    is_bit_matrix(w, nc),
                    lead < nc,
                    r <= i <= rows,
                    find_row(w, r as int, lead as int) == find_row(w, i as int, lead as int),
                decreases rows - i,
            {
                assert(w[i as int] == work.elements@[i as int]@);
                assert(is_bit_row(w[i as int], nc));
                i = i + 1;
            }
            proof {
                if i < rows {
                    assert(w[i as int] == work.elements@[i as int]@);
                }
                lemma_find_row_bounds(w, r as int, lead as int);
            }
            if i == rows {
                lead = lead + 1;
            } else {
                proof {
                    lemma_reduce_step_bits(w, nc, r as int, i as int, lead as int);
                }
                work.swap_rows(r, i);
                let ghost ops0 = operations@;
                if r != i {
                    operations.push((r, i));
                    operations.push((i, r));
                    operations.push((r, i));
                }
                assert(operations@ =~= ops0 + swap_ops(r as int, i as int));
                let ghost ops1 = operations@;
                let ghost m1 = work.spec_elements();
                work.eliminate_column(r, lead, &mut operations);
                let ghost rest = reduce_from(work.spec_elements(), nc, (r + 1) as nat, (lead + 1) as nat);
                assert(operations@ + rest.1 =~= ops0 + (swap_ops(r as int, i as int) + eliminate_ops(
                    m1,
                    r as int,
                    lead as int,
                    rows as int,
                ) + rest.1));
                r = r + 1;
                lead = lead + 1;
            }
        }
        assert(operations@ =~= operations@ + Seq::<(usize, usize)>::empty());
        (work, operations)
    }

    fn image(&self) -> (r: Vec<Vec<u8>>) {
        proof {
            lemma_reduce_is_rref(self.spec_elements());
        }
        let mat = if !self.is_reduced_echelon() {
            let (m, _) = self.echelon_form();
            m
        } else {
            proof {
                lemma_reduce_fixed(self.spec_elements());
            }
            Matrix { elements: copy_rows(&self.elements) }
        };
        let ghost m = mat.spec_elements();
        let mut image_base: Vec<Vec<u8>> = Vec::new();
        let mut i: usize = 0;
        while i < mat.nrows()
            invariant
                m == mat.spec_elements(),
                i <= m.len(),
                rows_view(image_base@) == nonzero_rows(m, i as int),
            decreases m.len() - i,
        {
            let row = copy_row(&mat.elements[i]);
            assert(row@ == m[i as int]);
            let piv = GF2Matrix::get_pivot(&row);
            proof {
                lemma_pivot_matches(m[i as int], piv);
            }
            let ghost prev = image_base@;
            if !piv.is_none() {
                image_base.push(row);
                assert(rows_view(image_base@) =~= rows_view(prev).push(m[i as int]));
            }
            i = i + 1;
        }
        image_base
    }
}

} // verus!
