use vstd::prelude::*;

verus! {

/// Relies on `num_traits::Zero::is_zero` for `u8`, which compares with `0`.
#[verifier::external_body]
fn u8_is_zero(x: u8) -> (r: bool)
    ensures
        r == (x == 0),
{
    num_traits::Zero::is_zero(&x)
}

/// What a matrix element must offer: equality, a total order, exclusive or,
/// and a test for zero.
pub trait Number: Copy + Eq + Ord + std::ops::BitXor<Self> + Sized {
    /// The element is the zero of its field.
    spec fn spec_is_zero(&self) -> bool;

    fn is_zero(&self) -> (r: bool)
        ensures
            r == self.spec_is_zero(),
    ;
}

impl Number for u8 {
    open spec fn spec_is_zero(&self) -> bool {
        *self == 0
    }

    fn is_zero(&self) -> (r: bool) {
        u8_is_zero(*self)
    }
}

/// The rows of a vector of rows, as sequences.
pub open spec fn rows_view<T>(rows: Seq<Vec<T>>) -> Seq<Seq<T>> {
    Seq::new(rows.len(), |i: int| rows[i]@)
}

/// Every row has as many entries as the first one.
pub open spec fn is_rectangular<T>(m: Seq<Seq<T>>) -> bool {
    forall|i: int| 0 <= i < m.len() ==> #[trigger] m[i].len() == m[0].len()
}

/// Number of columns: the length of the rows, zero for a matrix without rows.
pub open spec fn num_cols<T>(m: Seq<Seq<T>>) -> nat {
    if m.len() == 0 {
        0
    } else {
        m[0].len()
    }
}

pub open spec fn is_zero_row<T: Number>(row: Seq<T>) -> bool {
    forall|k: int| 0 <= k < row.len() ==> (#[trigger] row[k]).spec_is_zero()
}

/// `p` is the column of the first nonzero entry of `row`.
pub open spec fn is_pivot<T: Number>(row: Seq<T>, p: int) -> bool {
    &&& 0 <= p < row.len()
    &&& !row[p].spec_is_zero()
    &&& forall|k: int| 0 <= k < p ==> (#[trigger] row[k]).spec_is_zero()
}

/// `r` is the pivot of `row`: `None` for a zero row, else the first nonzero column.
pub open spec fn pivot_matches<T: Number>(row: Seq<T>, r: Option<usize>) -> bool {
    match r {
        None => is_zero_row(row),
        Some(p) => is_pivot(row, p as int),
    }
}

pub trait HasElements<T: Number> {
    /// The rows of the matrix.
    spec fn spec_elements(&self) -> Seq<Seq<T>>;

    fn elements(&self) -> (r: &Vec<Vec<T>>)
        ensures
            rows_view(r@) == self.spec_elements(),
    ;
}

/// Row reduction and what derives from it.
pub trait MatrixTrait<T: Number>: HasElements<T> + Sized {
    /// The matrix is rectangular and holds only elements of its field.
    spec fn well_formed(&self) -> bool;

    /// The matrix is in reduced row echelon form.
    spec fn spec_is_reduced(&self) -> bool;

    /// The reduced form and the row operations that lead to it.
    spec fn spec_echelon(&self) -> (Seq<Seq<T>>, Seq<(usize, usize)>);

    spec fn spec_rank(&self) -> nat;

    spec fn spec_kernel(&self) -> Seq<Seq<T>>;

    spec fn spec_image(&self) -> Seq<Seq<T>>;

    fn is_reduced_echelon(&self) -> (r: bool)
        requires
            self.well_formed(),
        ensures
            r == self.spec_is_reduced(),
    ;

    fn rank(&self) -> (r: usize)
        requires
            self.well_formed(),
        ensures
            r == self.spec_rank(),
    ;

    fn kernel(&self) -> (r: Vec<Vec<T>>)
        requires
            self.well_formed(),
        ensures
            rows_view(r@) == self.spec_kernel(),
    ;

    fn echelon_form(&self) -> (r: (Self, Vec<(usize, usize)>))
        requires
            self.well_formed(),
        ensures
            r.0.well_formed(),
            r.0.spec_is_reduced(),
            r.0.spec_elements() == self.spec_echelon().0,
            r.1@ == self.spec_echelon().1,
    ;

    fn image(&self) -> (r: Vec<Vec<T>>)
        requires
            self.well_formed(),
        ensures
            rows_view(r@) == self.spec_image(),
    ;

    fn ncols(&self) -> (r: usize)
        ensures
            r == num_cols(self.spec_elements()),
    {
        let e = self.elements();
        if e.len() == 0 {
            0
        } else {
            e[0].len()
        }
    }

    fn nrows(&self) -> (r: usize)
        ensures
            r == self.spec_elements().len(),
    {
        self.elements().len()
    }

    fn get_pivot(vec: &Vec<T>) -> (r: Option<usize>)
        ensures
            pivot_matches(vec@, r),
    {
        let mut k: usize = 0;
        while k < vec.len()
            invariant
                k <= vec@.len(),
                forall|j: int| 0 <= j < k ==> (#[trigger] vec@[j]).spec_is_zero(),
            decreases vec@.len() - k,
        {
            if !vec[k].is_zero() {
                return Some(k);
            }
            k = k + 1;
        }
        None
    }
}

/// Error of construction from rows.
#[derive(Debug, Clone, Copy, PartialEq, Eq, Structural)]
pub enum MatrixError {
    /// Two rows differ in length.
    RaggedRows,
}

/// A rectangular grid of elements, held as a sequence of rows.
pub struct Matrix<T: Number> {
    pub elements: Vec<Vec<T>>,
}

impl<T: Number> Matrix<T> {
    /// Builds a matrix from its rows; rows of unequal length are refused.
    pub fn new(elements: Vec<Vec<T>>) -> (r: Result<Self, MatrixError>)
        ensures
            is_rectangular(rows_view(elements@)) <==> r is Ok,
            r matches Ok(m) ==> m.elements@ == elements@,
    {
        let mut i: usize = 0;
        while i < elements.len()
            invariant
                i <= elements@.len(),
                forall|k: int| 0 <= k < i ==> (#[trigger] elements@[k])@.len() == elements@[0]@.len(),
            decreases elements@.len() - i,
        {
            if elements[i].len() != elements[0].len() {
                proof {
                    assert(rows_view(elements@)[i as int].len() != rows_view(elements@)[0].len());
                }
                return Err(MatrixError::RaggedRows);
            }
            i = i + 1;
        }
        proof {
            assert forall|k: int| 0 <= k < rows_view(elements@).len() implies
                #[trigger] rows_view(elements@)[k].len() == rows_view(elements@)[0].len() by {
                assert(elements@[k]@.len() == elements@[0]@.len());
            }
        }
        Ok(Matrix { elements })
    }
}

impl<T: Number> HasElements<T> for Matrix<T> {
    open spec fn spec_elements(&self) -> Seq<Seq<T>> {
        rows_view(self.elements@)
    }

    fn elements(&self) -> (r: &Vec<Vec<T>>) {
        &self.elements
    }
}

} // verus!
