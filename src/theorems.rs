use vstd::prelude::*;

use crate::gf2_matrix::GF2Matrix;
use crate::matrix::{is_zero_row, num_cols, HasElements, MatrixTrait, Number};
use crate::reduction::{
    add_rows, eliminate, eliminate_ops, find_row, free_cols, is_bit_matrix, is_bit_row,
    kernel_vector, lemma_bit_mul, lemma_find_row_bounds, lemma_free_cols, lemma_pivot_of,
    lemma_reduce_fixed, lemma_reduce_is_rref, lemma_reduce_step_bits, lemma_rref_pivot_unique,
    nonzero_rows, pivot_cols, pivot_of, pivot_row, reduce, reduce_from, swap_ops, swap_rows_spec,
};

verus! {

/// Sum modulo 2 (exclusive or) of the products `a[c] * b[c]` for `c < n`.
pub open spec fn xor_dot(a: Seq<u8>, b: Seq<u8>, n: int) -> u8
    decreases n,
{
    if n <= 0 {
        0u8
    } else {
        xor_dot(a, b, n - 1) ^ ((a[n - 1] * b[n - 1]) as u8)
    }
}

proof fn lemma_xor_facts(x: u8, y: u8)
    ensures
        (0u8 ^ y) ^ x == x ^ y,
        (x ^ 0u8) ^ y == x ^ y,
        x ^ 0u8 == x,
        x ^ x == 0u8,
{
    assert((0u8 ^ y) ^ x == x ^ y) by (bit_vector);
    assert((x ^ 0u8) ^ y == x ^ y) by (bit_vector);
    assert(x ^ 0u8 == x) by (bit_vector);
    assert(x ^ x == 0u8) by (bit_vector);
}

/// A dot product whose terms vanish outside columns `p` and `f`.
proof fn lemma_xor_dot_two(a: Seq<u8>, b: Seq<u8>, n: int, p: int, f: int)
    requires
        0 <= n <= a.len(),
        a.len() == b.len(),
        p != f,
        forall|c: int| 0 <= c < a.len() ==> #[trigger] a[c] <= 1 && b[c] <= 1,
        forall|c: int| 0 <= c < n && c != p && c != f ==> #[trigger] (a[c] * b[c]) == 0,
    ensures
        xor_dot(a, b, n) == ((if 0 <= p < n {
            (a[p] * b[p]) as u8
        } else {
            0u8
        }) ^ (if 0 <= f < n {
            (a[f] * b[f]) as u8
        } else {
            0u8
        })),
    decreases n,
{
    if n == 0 {
        lemma_xor_facts(0u8, 0u8);
    } else {
        let c = n - 1;
        lemma_xor_dot_two(a, b, n - 1, p, f);
        lemma_bit_mul(a[c], b[c]);
        let pv = if 0 <= p < n { (a[p] * b[p]) as u8 } else { 0u8 };
        let fv = if 0 <= f < n { (a[f] * b[f]) as u8 } else { 0u8 };
        lemma_xor_facts(pv, fv);
        lemma_xor_facts(fv, pv);
        lemma_xor_facts(xor_dot(a, b, n - 1), 0u8);
    }
}

/// Reducing a matrix twice changes nothing the second time: the reduced form
/// is its own reduction, reached with an empty operation log.
pub proof fn lemma_echelon_idempotent(m: GF2Matrix)
    requires
        m.well_formed(),
    ensures
        reduce(m.spec_echelon().0) == (m.spec_echelon().0, Seq::<(usize, usize)>::empty()),
{
    let e = m.spec_elements();
    lemma_reduce_is_rref(e);
    let r = reduce(e).0;
    if r.len() > 0 {
        assert(is_bit_row(r[0], num_cols(e)));
    }
    assert(num_cols(r) == num_cols(e));
    lemma_reduce_fixed(r);
}

/// The pivot columns below `j`.
spec fn pivot_cols_below(m: Seq<Seq<u8>>, j: int) -> Set<int> {
    Set::new(|c: int| pivot_cols(m).contains(c) && 0 <= c < j)
}

proof fn lemma_count_cols(m: Seq<Seq<u8>>, j: int)
    requires
        0 <= j,
    ensures
        pivot_cols_below(m, j).finite(),
        pivot_cols_below(m, j).len() + free_cols(m, j).len() == j,
    decreases j,
{
    if j == 0 {
        assert(pivot_cols_below(m, 0) =~= Set::<int>::empty());
    } else {
        lemma_count_cols(m, j - 1);
        if pivot_cols(m).contains(j - 1) {
            assert(pivot_cols_below(m, j) =~= pivot_cols_below(m, j - 1).insert(j - 1));
        } else {
            assert(pivot_cols_below(m, j) =~= pivot_cols_below(m, j - 1));
        }
    }
}

/// Rank-nullity: the rank and the number of kernel basis vectors add up to
/// the number of columns.
pub proof fn lemma_rank_nullity(m: GF2Matrix)
    requires
        m.well_formed(),
    ensures
        m.spec_rank() + m.spec_kernel().len() == num_cols(m.spec_elements()),
{
    let e = m.spec_elements();
    let nc = num_cols(e);
    lemma_reduce_is_rref(e);
    let r = reduce(e).0;
    lemma_count_cols(r, nc as int);
    assert(pivot_cols_below(r, nc as int) =~= pivot_cols(r)) by {
        assert forall|c: int| pivot_cols(r).contains(c) implies 0 <= c < nc by {
            let t = choose|t: int| 0 <= t < r.len() && !is_zero_row(r[t]) && pivot_of(#[trigger] r[t]) == c;
            lemma_pivot_of(r[t]);
            assert(is_bit_row(r[t], nc));
        }
    }
}

/// Every kernel basis vector is annihilated by every row of the reduced form.
pub proof fn lemma_kernel_annihilated(m: GF2Matrix, k: int, i: int)
    requires
        m.well_formed(),
        0 <= k < m.spec_kernel().len(),
        0 <= i < m.spec_echelon().0.len(),
    ensures
        xor_dot(m.spec_echelon().0[i], m.spec_kernel()[k], num_cols(m.spec_elements()) as int) == 0,
{
    let e = m.spec_elements();
    let nc = num_cols(e);
    lemma_reduce_is_rref(e);
    let r = reduce(e).0;
    lemma_free_cols(r, nc as int);
    let f = free_cols(r, nc as int)[k];
    let v = kernel_vector(r, nc, f);
    assert(m.spec_kernel()[k] == v);
    let row = r[i];
    assert(is_bit_row(row, nc));
    assert forall|c: int| 0 <= c < nc implies #[trigger] row[c] <= 1 && v[c] <= 1 by {
        if pivot_cols(r).contains(c) && c != f {
            let t = pivot_row(r, c);
            assert(0 <= t < r.len() && !is_zero_row(r[t]) && pivot_of(r[t]) == c);
            assert(is_bit_row(r[t], nc));
        }
    }
    lemma_pivot_of(row);
    if is_zero_row(row) {
        assert forall|c: int| 0 <= c < nc && c != f implies #[trigger] (row[c] * v[c]) == 0 by {
            assert(row[c].spec_is_zero());
            lemma_bit_mul(row[c], v[c]);
        }
        lemma_xor_dot_two(row, v, nc as int, -1, f);
        assert(row[f].spec_is_zero());
        lemma_bit_mul(row[f], v[f]);
        lemma_xor_facts(0u8, 0u8);
    } else {
        let p = pivot_of(row);
        assert(pivot_cols(r).contains(p)) by {
            assert(0 <= i < r.len() && !is_zero_row(r[i]) && pivot_of(r[i]) == p);
        }
        assert(p != f);
        let t = pivot_row(r, p);
        assert(0 <= t < r.len() && !is_zero_row(r[t]) && pivot_of(r[t]) == p);
        lemma_rref_pivot_unique(r, t, i);
        assert(v[p] == row[f]);
        assert forall|c: int| 0 <= c < nc && c != p && c != f implies #[trigger] (row[c] * v[c]) == 0 by {
            lemma_bit_mul(row[c], v[c]);
            if pivot_cols(r).contains(c) {
                let s = pivot_row(r, c);
                assert(0 <= s < r.len() && !is_zero_row(r[s]) && pivot_of(r[s]) == c);
                assert(s != i);
                assert(r[i][pivot_of(r[s])] == 0);
            }
        }
        lemma_xor_dot_two(row, v, nc as int, p, f);
        assert(row[p] == 1);
        lemma_bit_mul(row[p], v[p]);
        lemma_bit_mul(row[f], v[f]);
        assert((row[p] * v[p]) as u8 == (row[f] * v[f]) as u8);
        lemma_xor_facts((row[p] * v[p]) as u8, 0u8);
    }
}

proof fn lemma_nonzero_rows_prefix(m: Seq<Seq<u8>>, n: int, z: int)
    requires
        0 <= n <= m.len(),
        0 <= z <= m.len(),
        forall|i: int| 0 <= i < z ==> !is_zero_row(#[trigger] m[i]),
        forall|i: int| z <= i < m.len() ==> is_zero_row(#[trigger] m[i]),
    ensures
        nonzero_rows(m, n) == m.subrange(0, if n < z { n } else { z }),
    decreases n,
{
    if n > 0 {
        lemma_nonzero_rows_prefix(m, n - 1, z);
        if n - 1 < z {
            assert(m.subrange(0, n - 1).push(m[n - 1]) =~= m.subrange(0, n));
        }
    } else {
        assert(m.subrange(0, 0) =~= Seq::<Seq<u8>>::empty());
    }
}

/// Index of the first zero row from `i` on; `m.len()` if none.
spec fn first_zero_row(m: Seq<Seq<u8>>, i: int) -> int
    decreases m.len() - i,
{
    if i >= m.len() {
        m.len() as int
    } else if is_zero_row(m[i]) {
        i
    } else {
        first_zero_row(m, i + 1)
    }
}

proof fn lemma_first_zero_row(m: Seq<Seq<u8>>, i: int)
    requires
        0 <= i <= m.len(),
    ensures
        i <= first_zero_row(m, i) <= m.len(),
        forall|k: int| i <= k < first_zero_row(m, i) ==> !is_zero_row(#[trigger] m[k]),
        first_zero_row(m, i) < m.len() ==> is_zero_row(m[first_zero_row(m, i)]),
    decreases m.len() - i,
{
    if i < m.len() && !is_zero_row(m[i]) {
        lemma_first_zero_row(m, i + 1);
    }
}

/// The image is made of the nonzero rows of the reduced form, in row order:
/// they are its leading rows, and every row after them is zero.
pub proof fn lemma_image_rows(m: GF2Matrix)
    requires
        m.well_formed(),
    ensures
        m.spec_image().len() <= m.spec_echelon().0.len(),
        m.spec_image() == m.spec_echelon().0.subrange(0, m.spec_image().len() as int),
        forall|k: int| 0 <= k < m.spec_image().len() ==> !is_zero_row(#[trigger] m.spec_image()[k]),
        forall|i: int|
            m.spec_image().len() <= i < m.spec_echelon().0.len() ==> is_zero_row(#[trigger] m.spec_echelon().0[i]),
{
    let e = m.spec_elements();
    lemma_reduce_is_rref(e);
    let r = reduce(e).0;
    lemma_first_zero_row(r, 0);
    let z = first_zero_row(r, 0);
    assert forall|i: int| z <= i < r.len() implies is_zero_row(#[trigger] r[i]) by {
        if i > z {
            assert(is_zero_row(r[z]));
        }
    }
    lemma_nonzero_rows_prefix(r, r.len() as int, z);
    assert(m.spec_image() == r.subrange(0, z));
}

/// One record `(t, s)`: row `t` becomes row `t` plus row `s`, modulo 2.
pub open spec fn apply_op(m: Seq<Seq<u8>>, op: (usize, usize)) -> Seq<Seq<u8>> {
    m.update(op.0 as int, add_rows(m[op.0 as int], m[op.1 as int]))
}

/// The records of `ops` applied to `m` in order.
pub open spec fn apply_ops(m: Seq<Seq<u8>>, ops: Seq<(usize, usize)>) -> Seq<Seq<u8>>
    decreases ops.len(),
{
    if ops.len() == 0 {
        m
    } else {
        apply_op(apply_ops(m, ops.drop_last()), ops.last())
    }
}

proof fn lemma_apply_ops_concat(m: Seq<Seq<u8>>, a: Seq<(usize, usize)>, b: Seq<(usize, usize)>)
    ensures
        apply_ops(m, a + b) == apply_ops(apply_ops(m, a), b),
    decreases b.len(),
{
    if b.len() == 0 {
        assert(a + b =~= a);
    } else {
        assert((a + b).drop_last() =~= a + b.drop_last());
        assert((a + b).last() == b.last());
        lemma_apply_ops_concat(m, a, b.drop_last());
    }
}

proof fn lemma_apply_swap(m: Seq<Seq<u8>>, nc: nat, r: int, i: int)
    requires
        is_bit_matrix(m, nc),
        0 <= r < m.len(),
        0 <= i < m.len(),
        m.len() <= usize::MAX,
    ensures
        apply_ops(m, swap_ops(r, i)) == swap_rows_spec(m, r, i),
{
    if r == i {
        assert(swap_rows_spec(m, r, i) =~= m);
    } else {
        let ops = swap_ops(r, i);
        assert(is_bit_row(m[r], nc));
        assert(is_bit_row(m[i], nc));
        let a = m[r];
        let b = m[i];
        assert(ops.drop_last().drop_last().drop_last() =~= Seq::<(usize, usize)>::empty());
        assert(ops.drop_last().drop_last().last() == (r as usize, i as usize));
        assert(ops.drop_last().last() == (i as usize, r as usize));
        assert(ops.last() == (r as usize, i as usize));
        let m1 = m.update(r, add_rows(a, b));
        let m2 = m1.update(i, add_rows(b, add_rows(a, b)));
        let m3 = m2.update(r, add_rows(add_rows(a, b), add_rows(b, add_rows(a, b))));
        let o1 = ops.drop_last().drop_last();
        let o2 = ops.drop_last();
        assert(apply_ops(m, o1.drop_last()) == m);
        assert(apply_ops(m, o1) == m1);
        assert(apply_ops(m, o2) == m2);
        assert(apply_ops(m, ops) == m3);
        assert(add_rows(b, add_rows(a, b)) =~= a);
        assert(add_rows(add_rows(a, b), a) =~= b);
        assert(m3 =~= swap_rows_spec(m, r, i));
    }
}

/// `eliminate` restricted to the rows before `k`.
spec fn eliminate_upto(m: Seq<Seq<u8>>, r: int, lead: int, k: int) -> Seq<Seq<u8>> {
    Seq::new(
        m.len(),
        |t: int|
            if t < k && t != r && m[t][lead] == 1 {
                add_rows(m[t], m[r])
            } else {
                m[t]
            },
    )
}

proof fn lemma_apply_eliminate(m: Seq<Seq<u8>>, r: int, lead: int, k: int)
    requires
        0 <= r < m.len(),
        0 <= k <= m.len(),
        m.len() <= usize::MAX,
    ensures
        apply_ops(m, eliminate_ops(m, r, lead, k)) == eliminate_upto(m, r, lead, k),
    decreases k,
{
    if k == 0 {
        assert(eliminate_upto(m, r, lead, 0) =~= m);
    } else {
        lemma_apply_eliminate(m, r, lead, k - 1);
        let prev = eliminate_upto(m, r, lead, k - 1);
        if k - 1 != r && m[k - 1][lead] == 1 {
            let ops = eliminate_ops(m, r, lead, k);
            assert(ops.drop_last() == eliminate_ops(m, r, lead, k - 1));
            assert(prev[r] == m[r]);
            assert(apply_op(prev, ops.last()) =~= eliminate_upto(m, r, lead, k));
        } else {
            assert(prev =~= eliminate_upto(m, r, lead, k));
        }
    }
}

proof fn lemma_reduce_from_replays(m: Seq<Seq<u8>>, nc: nat, r: nat, lead: nat)
    requires
        is_bit_matrix(m, nc),
        m.len() <= usize::MAX,
    ensures
        apply_ops(m, reduce_from(m, nc, r, lead).1) == reduce_from(m, nc, r, lead).0,
    decreases nc - lead,
{
    if r >= m.len() || lead >= nc {
    } else {
        let q = find_row(m, r as int, lead as int);
        lemma_find_row_bounds(m, r as int, lead as int);
        if q >= m.len() {
            lemma_reduce_from_replays(m, nc, r, lead + 1);
        } else {
            let m1 = swap_rows_spec(m, r as int, q);
            let m2 = eliminate(m1, r as int, lead as int);
            lemma_reduce_step_bits(m, nc, r as int, q, lead as int);
            assert(m2.len() == m.len());
            lemma_reduce_from_replays(m2, nc, r + 1, lead + 1);
            let sw = swap_ops(r as int, q);
            let el = eliminate_ops(m1, r as int, lead as int, m.len() as int);
            let rest = reduce_from(m2, nc, r + 1, lead + 1);
            lemma_apply_swap(m, nc, r as int, q);
            lemma_apply_eliminate(m1, r as int, lead as int, m.len() as int);
            assert(eliminate_upto(m1, r as int, lead as int, m.len() as int) =~= m2);
            lemma_apply_ops_concat(m, sw, el);
            lemma_apply_ops_concat(m, sw + el, rest.1);
        }
    }
}

/// The operation log replays: its records applied in order to the matrix
/// give the reduced form.
pub proof fn lemma_echelon_replays(m: GF2Matrix)
    requires
        m.well_formed(),
        m.spec_elements().len() <= usize::MAX,
    ensures
        apply_ops(m.spec_elements(), m.spec_echelon().1) == m.spec_echelon().0,
{
    lemma_reduce_from_replays(m.spec_elements(), num_cols(m.spec_elements()), 0, 0);
}

} // verus!
