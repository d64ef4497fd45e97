//! The batched matrix product: for every batch index, the product of one slice of the
//! left operand and one slice of the right operand, each read through its own view.
//!
//! The executor decides which elements meet in which sum and where each sum is written.
//! What a sum is, is left to the caller: the elements may be of any type, and each term
//! is folded into the running value by a function that the caller supplies.

use vstd::prelude::*;
use vstd::arithmetic::div_mod::lemma_fundamental_div_mod_converse;
use vstd::layout::size_of;
use vstd::arithmetic::mul::{
    lemma_mul_inequality, lemma_mul_is_distributive_add_other_way, lemma_mul_nonnegative,
};
use crate::layout::{linear_address, LayoutError, TensorView};

verus! {

/// The sizes of a batched product: `b` products of an `m` by `k` and a `k` by `n` matrix.
#[derive(Clone, Copy, Debug, PartialEq, Eq)]
pub struct GemmParams {
    pub b: usize,
    pub m: usize,
    pub n: usize,
    pub k: usize,
}

/// Why a batched product was not computed.
#[derive(Clone, Copy, Debug, PartialEq, Eq)]
pub enum GemmError {
    /// The left operand's view does not stay inside its buffer.
    Lhs(LayoutError),
    /// The right operand's view does not stay inside its buffer.
    Rhs(LayoutError),
    /// The output would hold more elements than `usize` can count, or take more bytes
    /// than an allocation can have.
    OutputTooLarge,
}

/// The terms of the dot product `(bi, i, j)`: for `p` in `0..k`, ascending, the left
/// element at `(bi, i, p)` paired with the right element at `(bi, p, j)`, each resolved
/// through its operand's view.
pub open spec fn terms<T>(
    lhs: Seq<T>,
    lv: TensorView,
    rhs: Seq<T>,
    rv: TensorView,
    bi: int,
    i: int,
    j: int,
    k: nat,
) -> Seq<(T, T)> {
    Seq::new(k, |p: int| (lhs[lv.address_of(bi, i, p)], rhs[rv.address_of(bi, p, j)]))
}

/// `out` is the dense row-major result: one `m` by `n` block per batch, the element
/// `(bi, i, j)` at `bi * (m * n) + i * n + j`, each standing in the relation `rel` to the
/// terms of its dot product.
pub open spec fn is_output_of<T, A>(
    out: Seq<A>,
    params: GemmParams,
    lhs: Seq<T>,
    lv: TensorView,
    rhs: Seq<T>,
    rv: TensorView,
    rel: spec_fn(Seq<(T, T)>, A) -> bool,
) -> bool {
    &&& out.len() == params.output_len()
    &&& forall|bi: int, i: int, j: int|
        params.in_output(bi, i, j) ==> rel(
            terms(lhs, lv, rhs, rv, bi, i, j, params.k as nat),
            out[#[trigger] params.output_index(bi, i, j)],
        )
}

/// `acc` is what folding the terms `ts` into `zero`, first to last, can give: each step
/// takes the value so far and one pair of elements, and no term is left out.
pub open spec fn accumulates<T, A, F: Fn(A, T, T) -> A>(
    step: F,
    zero: A,
    ts: Seq<(T, T)>,
    acc: A,
) -> bool
    decreases ts.len(),
{
    if ts.len() == 0 {
        acc == zero
    } else {
        exists|prev: A|
            accumulates(step, zero, ts.drop_last(), prev) && #[trigger] call_ensures(
                step,
                (prev, ts.last().0, ts.last().1),
                acc,
            )
    }
}

/// The relation between the terms of a dot product and the values that folding them
/// with `step`, from `zero`, can give.
pub open spec fn accumulation<T, A, F: Fn(A, T, T) -> A>(step: F, zero: A) -> spec_fn(
    Seq<(T, T)>,
    A,
) -> bool {
    |ts: Seq<(T, T)>, acc: A| accumulates(step, zero, ts, acc)
}

/// `step` may be called on every value that the fold can reach, for every output element.
pub open spec fn step_is_callable<T, A, F: Fn(A, T, T) -> A>(
    step: F,
    zero: A,
    params: GemmParams,
    lhs: Seq<T>,
    lv: TensorView,
    rhs: Seq<T>,
    rv: TensorView,
) -> bool {
    forall|bi: int, i: int, j: int, p: nat, acc: A|
        params.in_output(bi, i, j) && p < params.k && #[trigger] accumulates(
            step,
            zero,
            terms(lhs, lv, rhs, rv, bi, i, j, p),
            acc,
        ) ==> call_requires(
            step,
            (acc, lhs[lv.address_of(bi, i, p as int)], rhs[rv.address_of(bi, p as int, j)]),
        )
}

impl GemmParams {
    /// The left operand seen as `b` matrices of `m` rows and `k` columns.
    pub open spec fn lhs_view_spec(&self, strides: [usize; 3], offset: usize) -> TensorView {
        TensorView { shape: [self.b, self.m, self.k], strides, offset }
    }

    /// The right operand seen as `b` matrices of `k` rows and `n` columns.
    pub open spec fn rhs_view_spec(&self, strides: [usize; 3], offset: usize) -> TensorView {
        TensorView { shape: [self.b, self.k, self.n], strides, offset }
    }

    /// The number of elements in one batch's output block.
    pub open spec fn block_len(&self) -> int {
        self.m * self.n
    }

    /// The number of elements in the whole output.
    pub open spec fn output_len(&self) -> int {
        self.b * self.block_len()
    }

    /// `(bi, i, j)` names an output element.
    pub open spec fn in_output(&self, bi: int, i: int, j: int) -> bool {
        &&& 0 <= bi < self.b
        &&& 0 <= i < self.m
        &&& 0 <= j < self.n
    }

    /// Where the output element `(bi, i, j)` is written.
    pub open spec fn output_index(&self, bi: int, i: int, j: int) -> int {
        bi * self.block_len() + i * self.n + j
    }

    /// An output of elements of `element_size` bytes each can be allocated: `usize` can
    /// count its elements and its bytes do not exceed `isize::MAX`, the most that an
    /// allocation can have.
    pub open spec fn output_fits(&self, element_size: nat) -> bool {
        &&& self.output_len() <= usize::MAX
        &&& self.output_len() * element_size <= isize::MAX
    }

    /// The first reason, if any, for which the product cannot be computed over buffers of
    /// `lhs_len` and `rhs_len` elements into an output of elements of `element_size`
    /// bytes: the left view, then the right view, then the size of the output.
    pub open spec fn violation(
        &self,
        lhs_len: usize,
        lv: TensorView,
        rhs_len: usize,
        rv: TensorView,
        element_size: nat,
    ) -> Option<GemmError> {
        if lv.violation(lhs_len) is Some {
            Some(GemmError::Lhs(lv.violation(lhs_len)->Some_0))
        } else if rv.violation(rhs_len) is Some {
            Some(GemmError::Rhs(rv.violation(rhs_len)->Some_0))
        } else if !self.output_fits(element_size) {
            Some(GemmError::OutputTooLarge)
        } else {
            None
        }
    }

    /// Output positions are distinct and dense: an element's position determines its
    /// batch, row and column, and lies inside the output.
    pub proof fn lemma_output_index_unique(&self, bi: int, i: int, j: int)
        requires
            self.in_output(bi, i, j),
        ensures
            0 <= self.output_index(bi, i, j) < self.output_len(),
            bi == self.output_index(bi, i, j) / self.block_len(),
            i == (self.output_index(bi, i, j) % self.block_len()) / (self.n as int),
            j == (self.output_index(bi, i, j) % self.block_len()) % (self.n as int),
    {
        let n = self.n as int;
        let d = self.block_len();
        let r = i * n + j;
        lemma_mul_nonnegative(i, n);
        lemma_mul_inequality(i + 1, self.m as int, n);
        lemma_mul_is_distributive_add_other_way(n, i, 1);
        assert(0 <= r < d);
        lemma_mul_nonnegative(bi, d);
        lemma_mul_inequality(bi + 1, self.b as int, d);
        lemma_mul_is_distributive_add_other_way(d, bi, 1);
        lemma_fundamental_div_mod_converse(self.output_index(bi, i, j), d, bi, r);
        lemma_fundamental_div_mod_converse(r, n, i, j);
    }

    /// The output is laid out as a dense row-major view that starts at 0: an element's
    /// position in it is the address that such a view gives its index.
    pub proof fn lemma_output_is_row_major(&self, strides: [usize; 3], bi: int, i: int, j: int)
        requires
            strides[0] == self.m * self.n,
            strides[1] == self.n,
            strides[2] == 1,
        ensures
            self.output_index(bi, i, j) == linear_address(strides@, 0, bi, i, j),
    {
    }

    /// The left operand's view for the given strides and offset.
    #[verifier::when_used_as_spec(lhs_view_spec)]
    pub fn lhs_view(&self, strides: [usize; 3], offset: usize) -> (view: TensorView)
        ensures
            view == self.lhs_view_spec(strides, offset),
    {
        TensorView { shape: [self.b, self.m, self.k], strides, offset }
    }

    /// The right operand's view for the given strides and offset.
    #[verifier::when_used_as_spec(rhs_view_spec)]
    pub fn rhs_view(&self, strides: [usize; 3], offset: usize) -> (view: TensorView)
        ensures
            view == self.rhs_view_spec(strides, offset),
    {
        TensorView { shape: [self.b, self.k, self.n], strides, offset }
    }

    /// The number of output elements, `b * m * n`, or `None` exactly when `usize`
    /// cannot hold it.
    pub fn checked_output_len(&self) -> (len: Option<usize>)
        ensures
            match len {
                Some(l) => l == self.output_len(),
                None => self.output_len() > usize::MAX,
            },
    {
        if self.b == 0 || self.m == 0 || self.n == 0 {
            assert(self.output_len() == 0) by (nonlinear_arith)
                requires
                    self.b == 0 || self.m == 0 || self.n == 0,
                    self.output_len() == self.b * (self.m * self.n),
            ;
            return Some(0);
        }
        match self.m.checked_mul(self.n) {
            None => {
                proof {
                    lemma_mul_inequality(1, self.b as int, self.block_len());
                }
                None
            },
            Some(block) => self.b.checked_mul(block),
        }
    }

    /// Checks both operands' views against their buffers' lengths, and the size of an
    /// output of elements of `element_size` bytes against what can be allocated, once,
    /// before anything is read.
    ///
    /// Succeeds with the output's length exactly when both views fit and the output can
    /// be allocated; otherwise names the first thing that is wrong.
    pub fn validate(
        &self,
        lhs_len: usize,
        lhs_strides: [usize; 3],
        lhs_offset: usize,
        rhs_len: usize,
        rhs_strides: [usize; 3],
        rhs_offset: usize,
        element_size: usize,
    ) -> (result: Result<usize, GemmError>)
        ensures
            result is Ok <==> {
                &&& self.lhs_view(lhs_strides, lhs_offset).fits(lhs_len as int)
                &&& self.rhs_view(rhs_strides, rhs_offset).fits(rhs_len as int)
                &&& self.output_fits(element_size as nat)
            },
            match result {
                Ok(len) => len == self.output_len(),
                Err(e) => self.violation(
                    lhs_len,
                    self.lhs_view(lhs_strides, lhs_offset),
                    rhs_len,
                    self.rhs_view(rhs_strides, rhs_offset),
                    element_size as nat,
                ) == Some(e),
            },
    {
        let lv = self.lhs_view(lhs_strides, lhs_offset);
        let rv = self.rhs_view(rhs_strides, rhs_offset);
        proof {
            lv.lemma_fits_iff_no_violation(lhs_len);
            rv.lemma_fits_iff_no_violation(rhs_len);
        }
        match lv.validate(lhs_len) {
            Err(e) => { return Err(GemmError::Lhs(e)); },
            Ok(()) => {},
        }
        match rv.validate(rhs_len) {
            Err(e) => { return Err(GemmError::Rhs(e)); },
            Ok(()) => {},
        }
        let len: usize = match self.checked_output_len() {
            None => { return Err(GemmError::OutputTooLarge); },
            Some(len) => len,
        };
        match len.checked_mul(element_size) {
            None => Err(GemmError::OutputTooLarge),
            Some(bytes) => {
                if bytes > isize::MAX as usize {
                    Err(GemmError::OutputTooLarge)
                } else {
                    Ok(len)
                }
            },
        }
    }
}

/// One more term: the fold over the first `p + 1` terms is one step on from the fold
/// over the first `p`.
proof fn lemma_accumulates_next<T, A, F: Fn(A, T, T) -> A>(
    step: F,
    zero: A,
    lhs: Seq<T>,
    lv: TensorView,
    rhs: Seq<T>,
    rv: TensorView,
    bi: int,
    i: int,
    j: int,
    p: nat,
    acc: A,
    next: A,
)
    requires
        accumulates(step, zero, terms(lhs, lv, rhs, rv, bi, i, j, p), acc),
        call_ensures(
            step,
            (acc, lhs[lv.address_of(bi, i, p as int)], rhs[rv.address_of(bi, p as int, j)]),
            next,
        ),
    ensures
        accumulates(step, zero, terms(lhs, lv, rhs, rv, bi, i, j, p + 1), next),
{
    let ts = terms(lhs, lv, rhs, rv, bi, i, j, p + 1);
    assert(ts.drop_last() =~= terms(lhs, lv, rhs, rv, bi, i, j, p));
    assert(call_ensures(step, (acc, ts.last().0, ts.last().1), next));
}

/// One output element: the terms of the dot product `(bi, i, j)` folded in ascending
/// order of `p`.
fn accumulate_at<T: Copy, A: Copy, F: Fn(A, T, T) -> A>(
    params: &GemmParams,
    lhs: &[T],
    lv: &TensorView,
    rhs: &[T],
    rv: &TensorView,
    bi: usize,
    i: usize,
    j: usize,
    zero: A,
    step: &F,
) -> (acc: A)
    requires
        *lv == params.lhs_view(lv.strides, lv.offset),
        *rv == params.rhs_view(rv.strides, rv.offset),
        lv.fits(lhs@.len() as int),
        rv.fits(rhs@.len() as int),
        params.in_output(bi as int, i as int, j as int),
        step_is_callable(*step, zero, *params, lhs@, *lv, rhs@, *rv),
    ensures
        accumulates(
            *step,
            zero,
            terms(lhs@, *lv, rhs@, *rv, bi as int, i as int, j as int, params.k as nat),
            acc,
        ),
{
    let lhs_len: usize = lhs.len();
    let rhs_len: usize = rhs.len();
    let mut acc: A = zero;
    let mut p: usize = 0;
    while p < params.k
        invariant
            p <= params.k,
            lhs_len == lhs@.len(),
            rhs_len == rhs@.len(),
            *lv == params.lhs_view(lv.strides, lv.offset),
            *rv == params.rhs_view(rv.strides, rv.offset),
            lv.fits(lhs@.len() as int),
            rv.fits(rhs@.len() as int),
            params.in_output(bi as int, i as int, j as int),
            step_is_callable(*step, zero, *params, lhs@, *lv, rhs@, *rv),
            accumulates(
                *step,
                zero,
                terms(lhs@, *lv, rhs@, *rv, bi as int, i as int, j as int, p as nat),
                acc,
            ),
        decreases params.k - p,
    {
        assert(lv.contains(bi as int, i as int, p as int));
        assert(rv.contains(bi as int, p as int, j as int));
        let la: usize = lv.element_address(bi, i, p);
        let ra: usize = rv.element_address(bi, p, j);
        let a: T = lhs[la];
        let c: T = rhs[ra];
        let next: A = step(acc, a, c);
        proof {
            lemma_accumulates_next(
                *step,
                zero,
                lhs@,
                *lv,
                rhs@,
                *rv,
                bi as int,
                i as int,
                j as int,
                p as nat,
                acc,
                next,
            );
        }
        acc = next;
        p = p + 1;
    }
    acc
}

/// The elements written so far, a prefix of the output in row-major order, are the
/// values that they have to be.
spec fn written<T, A>(
    out: Seq<A>,
    params: GemmParams,
    lhs: Seq<T>,
    lv: TensorView,
    rhs: Seq<T>,
    rv: TensorView,
    rel: spec_fn(Seq<(T, T)>, A) -> bool,
) -> bool {
    forall|bi: int, i: int, j: int|
        params.in_output(bi, i, j) && #[trigger] params.output_index(bi, i, j) < out.len()
            ==> rel(
            terms(lhs, lv, rhs, rv, bi, i, j, params.k as nat),
            out[params.output_index(bi, i, j)],
        )
}

/// Appending the element `(bi, i, j)` at its own position keeps every element written
/// so far in place.
proof fn lemma_push_element<T, A>(
    out: Seq<A>,
    acc: A,
    params: GemmParams,
    lhs: Seq<T>,
    lv: TensorView,
    rhs: Seq<T>,
    rv: TensorView,
    rel: spec_fn(Seq<(T, T)>, A) -> bool,
    bi: int,
    i: int,
    j: int,
)
    requires
        params.in_output(bi, i, j),
        out.len() == params.output_index(bi, i, j),
        written(out, params, lhs, lv, rhs, rv, rel),
        rel(terms(lhs, lv, rhs, rv, bi, i, j, params.k as nat), acc),
    ensures
        written(out.push(acc), params, lhs, lv, rhs, rv, rel),
        out.push(acc).len() == params.output_index(bi, i, j + 1),
{
    let next = out.push(acc);
    params.lemma_output_index_unique(bi, i, j);
    assert forall|b2: int, i2: int, j2: int|
        params.in_output(b2, i2, j2) && #[trigger] params.output_index(b2, i2, j2)
            < next.len() implies rel(
        terms(lhs, lv, rhs, rv, b2, i2, j2, params.k as nat),
        next[params.output_index(b2, i2, j2)],
    ) by {
        params.lemma_output_index_unique(b2, i2, j2);
    }
}

/// Computes the batched product of `lhs` and `rhs`, folding the terms of each dot
/// product with `step`, starting from `zero`.
///
/// The left operand is read as `b` matrices of `m` by `k` elements and the right one as
/// `b` matrices of `k` by `n`, each through its own strides and element offset; the
/// batch axis is axis 0 of both. The result holds `b` dense row-major blocks of `m` by
/// `n` values. Each value is `zero` with the `k` terms of its dot product folded in, in
/// ascending order, none left out.
///
/// Nothing is read before both views have been checked against their buffers: the call
/// fails, naming the first violation, exactly when a view leaves its buffer or the
/// output is larger than an allocation can be.
///
/// `step` has to accept what it will be given: the value that the fold has reached and
/// the next pair of elements. A function without a precondition always does.
pub fn execute_with<T: Copy, A: Copy, F: Fn(A, T, T) -> A>(
    params: &GemmParams,
    lhs: &[T],
    lhs_strides: [usize; 3],
    lhs_offset: usize,
    rhs: &[T],
    rhs_strides: [usize; 3],
    rhs_offset: usize,
    zero: A,
    step: F,
) -> (result: Result<Vec<A>, GemmError>)
    requires
        params.lhs_view(lhs_strides, lhs_offset).fits(lhs@.len() as int) && params.rhs_view(
            rhs_strides,
            rhs_offset,
        ).fits(rhs@.len() as int) ==> step_is_callable(
            step,
            zero,
            *params,
            lhs@,
            params.lhs_view(lhs_strides, lhs_offset),
            rhs@,
            params.rhs_view(rhs_strides, rhs_offset),
        ),
    ensures
        result is Ok <==> {
            &&& params.lhs_view(lhs_strides, lhs_offset).fits(lhs@.len() as int)
            &&& params.rhs_view(rhs_strides, rhs_offset).fits(rhs@.len() as int)
            &&& params.output_fits(size_of::<A>())
        },
        match result {
            Ok(out) => is_output_of(
                out@,
                *params,
                lhs@,
                params.lhs_view(lhs_strides, lhs_offset),
                rhs@,
                params.rhs_view(rhs_strides, rhs_offset),
                accumulation(step, zero),
            ),
            Err(e) => params.violation(
                lhs.len(),
                params.lhs_view(lhs_strides, lhs_offset),
                rhs.len(),
                params.rhs_view(rhs_strides, rhs_offset),
                size_of::<A>(),
            ) == Some(e),
        },
{
    let len: usize = match params.validate(
        lhs.len(),
        lhs_strides,
        lhs_offset,
        rhs.len(),
        rhs_strides,
        rhs_offset,
        core::mem::size_of::<A>(),
    ) {
        Ok(len) => len,
        Err(e) => { return Err(e); },
    };
    let lv = params.lhs_view(lhs_strides, lhs_offset);
    let rv = params.rhs_view(rhs_strides, rhs_offset);
    let ghost rel = accumulation::<T, A, F>(step, zero);
    let mut out: Vec<A> = Vec::with_capacity(len);
    let mut bi: usize = 0;
    while bi < params.b
        invariant
            bi <= params.b,
            lv == params.lhs_view(lhs_strides, lhs_offset),
            rv == params.rhs_view(rhs_strides, rhs_offset),
            lv.fits(lhs@.len() as int),
            rv.fits(rhs@.len() as int),
            step_is_callable(step, zero, *params, lhs@, lv, rhs@, rv),
            rel == accumulation::<T, A, F>(step, zero),
            out@.len() == params.output_index(bi as int, 0, 0),
            written(out@, *params, lhs@, lv, rhs@, rv, rel),
        decreases params.b - bi,
    {
        let mut i: usize = 0;
        while i < params.m
            invariant
                bi < params.b,
                i <= params.m,
                lv == params.lhs_view(lhs_strides, lhs_offset),
                rv == params.rhs_view(rhs_strides, rhs_offset),
                lv.fits(lhs@.len() as int),
                rv.fits(rhs@.len() as int),
                step_is_callable(step, zero, *params, lhs@, lv, rhs@, rv),
                rel == accumulation::<T, A, F>(step, zero),
                out@.len() == params.output_index(bi as int, i as int, 0),
                written(out@, *params, lhs@, lv, rhs@, rv, rel),
            decreases params.m - i,
        {
            let mut j: usize = 0;
            while j < params.n
                invariant
                    bi < params.b,
                    i < params.m,
                    j <= params.n,
                    lv == params.lhs_view(lhs_strides, lhs_offset),
                    rv == params.rhs_view(rhs_strides, rhs_offset),
                    lv.fits(lhs@.len() as int),
                    rv.fits(rhs@.len() as int),
                    step_is_callable(step, zero, *params, lhs@, lv, rhs@, rv),
                    rel == accumulation::<T, A, F>(step, zero),
                    out@.len() == params.output_index(bi as int, i as int, j as int),
                    written(out@, *params, lhs@, lv, rhs@, rv, rel),
                decreases params.n - j,
            {
                let acc: A = accumulate_at(params, lhs, &lv, rhs, &rv, bi, i, j, zero, &step);
                proof {
                    lemma_push_element(
                        out@,
                        acc,
                        *params,
                        lhs@,
                        lv,
                        rhs@,
                        rv,
                        rel,
                        bi as int,
                        i as int,
                        j as int,
                    );
                }
                out.push(acc);
                j = j + 1;
            }
            proof {
                lemma_mul_is_distributive_add_other_way(params.n as int, i as int, 1);
            }
            i = i + 1;
        }
        proof {
            lemma_mul_is_distributive_add_other_way(params.block_len(), bi as int, 1);
        }
        bi = bi + 1;
    }
    proof {
        assert forall|b2: int, i2: int, j2: int| params.in_output(b2, i2, j2) implies rel(
            terms(lhs@, lv, rhs@, rv, b2, i2, j2, params.k as nat),
            out@[#[trigger] params.output_index(b2, i2, j2)],
        ) by {
            params.lemma_output_index_unique(b2, i2, j2);
        }
    }
    Ok(out)
}

} // verus!
