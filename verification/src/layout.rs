//! The addressing model: which element of a flat buffer a logical index of a view names.

use vstd::prelude::*;
use vstd::arithmetic::mul::{lemma_mul_inequality, lemma_mul_nonnegative};

verus! {

/// The position that the index `(i, j, k)` names in a flat buffer, for a view that starts
/// at `offset` and steps `strides[axis]` elements per unit along each axis.
pub open spec fn linear_address(strides: Seq<usize>, offset: int, i: int, j: int, k: int) -> int {
    offset + i * strides[0] + j * strides[1] + k * strides[2]
}

/// Computes `offset + indices[0] * strides[0] + indices[1] * strides[1] + indices[2] * strides[2]`.
///
/// No shape is involved, so nothing is said about bounds: the result is the position
/// whenever it is representable, and `None` exactly when it is not.
pub fn address(strides: &[usize; 3], offset: usize, indices: &[usize; 3]) -> (addr: Option<usize>)
    ensures
        match addr {
            Some(a) => a == linear_address(
                strides@,
                offset as int,
                indices[0] as int,
                indices[1] as int,
                indices[2] as int,
            ),
            None => linear_address(
                strides@,
                offset as int,
                indices[0] as int,
                indices[1] as int,
                indices[2] as int,
            ) > usize::MAX,
        },
{
    let t0: usize = indices[0].checked_mul(strides[0])?;
    let t1: usize = indices[1].checked_mul(strides[1])?;
    let t2: usize = indices[2].checked_mul(strides[2])?;
    let a0: usize = offset.checked_add(t0)?;
    let a1: usize = a0.checked_add(t1)?;
    a1.checked_add(t2)
}

/// The strides of a dense row-major view whose matrices have `rows` rows and `cols`
/// columns: `rows * cols` from one matrix to the next, `cols` from one row to the next,
/// 1 from one column to the next. `None` exactly when `rows * cols` is not representable.
pub fn row_major_strides(rows: usize, cols: usize) -> (strides: Option<[usize; 3]>)
    ensures
        match strides {
            Some(s) => s[0] == rows * cols && s[1] == cols && s[2] == 1,
            None => rows * cols > usize::MAX,
        },
{
    match rows.checked_mul(cols) {
        Some(matrix) => Some([matrix, cols, 1]),
        None => None,
    }
}

/// Why a view cannot be laid over a buffer.
#[derive(Clone, Copy, Debug, PartialEq, Eq)]
pub enum LayoutError {
    /// The view's last element lies at a position that `usize` cannot hold.
    Unaddressable,
    /// The view's last element lies at position `last`, beyond a buffer of `len` elements.
    OutOfBounds { last: usize, len: usize },
}

/// A strided view of a flat buffer: `shape[axis]` logical positions along each of three
/// axes, `strides[axis]` elements between neighbours along that axis, and the element
/// `offset` at which index `(0, 0, 0)` lies. A view describes a buffer; it never owns one.
#[derive(Clone, Copy, Debug, PartialEq, Eq)]
pub struct TensorView {
    pub shape: [usize; 3],
    pub strides: [usize; 3],
    pub offset: usize,
}

impl TensorView {
    /// `(i, j, k)` is an index within the view's shape.
    pub open spec fn contains(self, i: int, j: int, k: int) -> bool {
        &&& 0 <= i < self.shape[0]
        &&& 0 <= j < self.shape[1]
        &&& 0 <= k < self.shape[2]
    }

    /// The buffer position of the element at `(i, j, k)`.
    pub open spec fn address_of(self, i: int, j: int, k: int) -> int {
        linear_address(self.strides@, self.offset as int, i, j, k)
    }

    /// Every index within the shape names a position inside a buffer of `len` elements.
    pub open spec fn fits(self, len: int) -> bool {
        forall|i: int, j: int, k: int|
            self.contains(i, j, k) ==> 0 <= #[trigger] self.address_of(i, j, k) < len
    }

    /// The view has no element at all.
    pub open spec fn is_empty(self) -> bool {
        self.shape[0] == 0 || self.shape[1] == 0 || self.shape[2] == 0
    }

    /// The position of the element with the largest index along every axis.
    pub open spec fn last_address(self) -> int {
        self.address_of(self.shape[0] - 1, self.shape[1] - 1, self.shape[2] - 1)
    }

    /// What stands in the way of laying the view over a buffer of `len` elements, if anything.
    pub open spec fn violation(self, len: usize) -> Option<LayoutError> {
        if self.is_empty() {
            None
        } else if self.last_address() > usize::MAX {
            Some(LayoutError::Unaddressable)
        } else if self.last_address() >= len {
            Some(LayoutError::OutOfBounds { last: self.last_address() as usize, len })
        } else {
            None
        }
    }

    /// Strides are not negative, so no element lies before the first or after the last.
    pub proof fn lemma_address_bounds(self, i: int, j: int, k: int)
        requires
            self.contains(i, j, k),
        ensures
            self.offset <= self.address_of(i, j, k) <= self.last_address(),
    {
        let s = self.strides@;
        lemma_mul_nonnegative(i, s[0] as int);
        lemma_mul_nonnegative(j, s[1] as int);
        lemma_mul_nonnegative(k, s[2] as int);
        lemma_mul_inequality(i, self.shape[0] - 1, s[0] as int);
        lemma_mul_inequality(j, self.shape[1] - 1, s[1] as int);
        lemma_mul_inequality(k, self.shape[2] - 1, s[2] as int);
    }

    /// A view fits a buffer exactly when it is empty or its last element lies inside.
    pub proof fn lemma_fits_iff_no_violation(self, len: usize)
        ensures
            self.fits(len as int) <==> self.violation(len) is None,
    {
        if self.is_empty() {
            assert(self.fits(len as int));
        } else if self.last_address() < len {
            assert forall|i: int, j: int, k: int| self.contains(i, j, k) implies 0
                <= #[trigger] self.address_of(i, j, k) < len by {
                self.lemma_address_bounds(i, j, k);
            }
        } else {
            assert(self.contains(self.shape[0] - 1, self.shape[1] - 1, self.shape[2] - 1));
            assert(!(self.address_of(self.shape[0] - 1, self.shape[1] - 1, self.shape[2] - 1)
                < len));
        }
    }

    /// The position of an element that is known to exist and to be addressable.
    pub(crate) fn element_address(&self, i: usize, j: usize, k: usize) -> (addr: usize)
        requires
            self.contains(i as int, j as int, k as int),
            self.address_of(i as int, j as int, k as int) <= usize::MAX,
        ensures
            addr == self.address_of(i as int, j as int, k as int),
    {
        proof {
            lemma_mul_nonnegative(i as int, self.strides[0] as int);
            lemma_mul_nonnegative(j as int, self.strides[1] as int);
            lemma_mul_nonnegative(k as int, self.strides[2] as int);
        }
        self.offset + i * self.strides[0] + j * self.strides[1] + k * self.strides[2]
    }

    /// Checks the view against a buffer of `len` elements.
    ///
    /// Succeeds exactly when every index within the shape names a position inside the
    /// buffer; otherwise says where the last element would lie.
    pub fn validate(&self, len: usize) -> (result: Result<(), LayoutError>)
        ensures
            result is Ok <==> self.fits(len as int),
            result is Err ==> self.violation(len) == Some(result->Err_0),
    {
        proof {
            self.lemma_fits_iff_no_violation(len);
        }
        if self.shape[0] == 0 || self.shape[1] == 0 || self.shape[2] == 0 {
            return Ok(());
        }
        let corner: [usize; 3] = [self.shape[0] - 1, self.shape[1] - 1, self.shape[2] - 1];
        match address(&self.strides, self.offset, &corner) {
            None => Err(LayoutError::Unaddressable),
            Some(last) => {
                if last < len {
                    Ok(())
                } else {
                    Err(LayoutError::OutOfBounds { last, len })
                }
            },
        }
    }
}

} // verus!
