//! The batched product of 32-bit integers, exact: every sum is the mathematical one.

use vstd::prelude::*;
use crate::gemm::{accumulates, execute_with, is_output_of, terms, GemmError, GemmParams};
use crate::layout::TensorView;

verus! {

/// The sum over `p` in `0..k` of the left element at `(bi, i, p)` times the right element
/// at `(bi, p, j)`, each resolved through its operand's view.
pub open spec fn dot(
    lhs: Seq<i32>,
    lv: TensorView,
    rhs: Seq<i32>,
    rv: TensorView,
    bi: int,
    i: int,
    j: int,
    k: nat,
) -> int
    decreases k,
{
    if k == 0 {
        0
    } else {
        dot(lhs, lv, rhs, rv, bi, i, j, (k - 1) as nat) + lhs[lv.address_of(bi, i, k - 1)]
            * rhs[rv.address_of(bi, k - 1, j)]
    }
}

/// `out` is the dense row-major result of the exact product: one `m` by `n` block per
/// batch, the element `(bi, i, j)` at `bi * (m * n) + i * n + j`, each the sum that `dot`
/// defines.
pub open spec fn is_exact_output(
    out: Seq<i128>,
    params: GemmParams,
    lhs: Seq<i32>,
    lv: TensorView,
    rhs: Seq<i32>,
    rv: TensorView,
) -> bool {
    &&& out.len() == params.output_len()
    &&& forall|bi: int, i: int, j: int|
        params.in_output(bi, i, j) ==> out[#[trigger] params.output_index(bi, i, j)] == dot(
            lhs,
            lv,
            rhs,
            rv,
            bi,
            i,
            j,
            params.k as nat,
        )
}

/// The sum of the products of the pairs in `ts`.
pub open spec fn sum_of_products(ts: Seq<(i32, i32)>) -> int
    decreases ts.len(),
{
    if ts.len() == 0 {
        0
    } else {
        sum_of_products(ts.drop_last()) + ts.last().0 * ts.last().1
    }
}

/// The relation between the terms of a dot product and their exact sum.
pub open spec fn exact_sum() -> spec_fn(Seq<(i32, i32)>, i128) -> bool {
    |ts: Seq<(i32, i32)>, sum: i128| sum == sum_of_products(ts)
}

/// A product of two 32-bit integers is at most `2^62` in size.
pub proof fn lemma_product_bound(a: i32, c: i32)
    ensures
        -0x4000_0000_0000_0000 <= a * c <= 0x4000_0000_0000_0000,
{
    assert(-0x4000_0000_0000_0000 <= a * c <= 0x4000_0000_0000_0000) by (nonlinear_arith)
        requires
            -0x8000_0000 <= a <= 0x7fff_ffff,
            -0x8000_0000 <= c <= 0x7fff_ffff,
    ;
}

/// A sum of `n` products of 32-bit integers is at most `n * 2^62` in size, which 128
/// bits hold for every `n` that `usize` can count.
pub proof fn lemma_sum_bound(ts: Seq<(i32, i32)>)
    ensures
        -(ts.len() * 0x4000_0000_0000_0000) <= sum_of_products(ts) <= ts.len()
            * 0x4000_0000_0000_0000,
    decreases ts.len(),
{
    if ts.len() > 0 {
        lemma_sum_bound(ts.drop_last());
        lemma_product_bound(ts.last().0, ts.last().1);
    }
}

/// Folding with a step that adds the product of its pair gives the sum of products.
proof fn lemma_fold_is_sum<F: Fn(i128, i32, i32) -> i128>(
    step: F,
    ts: Seq<(i32, i32)>,
    acc: i128,
)
    requires
        accumulates(step, 0i128, ts, acc),
        forall|prev: i128, a: i32, c: i32, next: i128| #[trigger]
            call_ensures(step, (prev, a, c), next) ==> next == prev + a * c,
    ensures
        acc == sum_of_products(ts),
    decreases ts.len(),
{
    if ts.len() > 0 {
        let prev = choose|prev: i128|
            accumulates(step, 0i128, ts.drop_last(), prev) && #[trigger] call_ensures(
                step,
                (prev, ts.last().0, ts.last().1),
                acc,
            );
        lemma_fold_is_sum(step, ts.drop_last(), prev);
    }
}

/// A dot product is the sum of the products of its terms.
pub proof fn lemma_dot_is_sum_of_terms(
    lhs: Seq<i32>,
    lv: TensorView,
    rhs: Seq<i32>,
    rv: TensorView,
    bi: int,
    i: int,
    j: int,
    k: nat,
)
    ensures
        dot(lhs, lv, rhs, rv, bi, i, j, k) == sum_of_products(terms(lhs, lv, rhs, rv, bi, i, j, k)),
    decreases k,
{
    if k > 0 {
        let ts = terms(lhs, lv, rhs, rv, bi, i, j, k);
        lemma_dot_is_sum_of_terms(lhs, lv, rhs, rv, bi, i, j, (k - 1) as nat);
        assert(ts.drop_last() =~= terms(lhs, lv, rhs, rv, bi, i, j, (k - 1) as nat));
    }
}

/// The exact output is the output whose elements stand in the relation [`exact_sum`] to
/// the terms of their dot products.
pub proof fn lemma_exact_output_is_output_of_exact_sum(
    out: Seq<i128>,
    params: GemmParams,
    lhs: Seq<i32>,
    lv: TensorView,
    rhs: Seq<i32>,
    rv: TensorView,
)
    ensures
        is_exact_output(out, params, lhs, lv, rhs, rv) <==> is_output_of(
            out,
            params,
            lhs,
            lv,
            rhs,
            rv,
            exact_sum(),
        ),
{
    assert forall|bi: int, i: int, j: int|
        dot(lhs, lv, rhs, rv, bi, i, j, params.k as nat) == sum_of_products(
            #[trigger] terms(lhs, lv, rhs, rv, bi, i, j, params.k as nat),
        ) by {
        lemma_dot_is_sum_of_terms(lhs, lv, rhs, rv, bi, i, j, params.k as nat);
    }
    if is_exact_output(out, params, lhs, lv, rhs, rv) {
        assert forall|bi: int, i: int, j: int| params.in_output(bi, i, j) implies exact_sum()(
            terms(lhs, lv, rhs, rv, bi, i, j, params.k as nat),
            out[#[trigger] params.output_index(bi, i, j)],
        ) by {}
    }
    if is_output_of(out, params, lhs, lv, rhs, rv, exact_sum()) {
        assert forall|bi: int, i: int, j: int| params.in_output(bi, i, j) implies out[
            #[trigger] params.output_index(bi, i, j)] == dot(
            lhs,
            lv,
            rhs,
            rv,
            bi,
            i,
            j,
            params.k as nat,
        ) by {
            assert(exact_sum()(
                terms(lhs, lv, rhs, rv, bi, i, j, params.k as nat),
                out[params.output_index(bi, i, j)],
            ));
        }
    }
}

/// Computes the batched product of two buffers of 32-bit integers.
///
/// The operands are read as [`execute_with`] reads them. Each element of the result is
/// the exact sum of the `k` products of its dot product: products of 32-bit integers are
/// accumulated in 128 bits, which cannot overflow for any `k`.
///
/// The call fails, naming the first violation, exactly when a view leaves its buffer or
/// the output, at 16 bytes an element, is larger than an allocation can be.
pub fn execute(
    params: &GemmParams,
    lhs: &[i32],
    lhs_strides: [usize; 3],
    lhs_offset: usize,
    rhs: &[i32],
    rhs_strides: [usize; 3],
    rhs_offset: usize,
) -> (result: Result<Vec<i128>, GemmError>)
    ensures
        result is Ok <==> {
            &&& params.lhs_view(lhs_strides, lhs_offset).fits(lhs@.len() as int)
            &&& params.rhs_view(rhs_strides, rhs_offset).fits(rhs@.len() as int)
            &&& params.output_fits(16)
        },
        match result {
            Ok(out) => is_exact_output(
                out@,
                *params,
                lhs@,
                params.lhs_view(lhs_strides, lhs_offset),
                rhs@,
                params.rhs_view(rhs_strides, rhs_offset),
            ),
            Err(e) => params.violation(
                lhs.len(),
                params.lhs_view(lhs_strides, lhs_offset),
                rhs.len(),
                params.rhs_view(rhs_strides, rhs_offset),
                16,
            ) == Some(e),
        },
{
    broadcast use vstd::layout::layout_of_primitives;

    let ghost lv = params.lhs_view(lhs_strides, lhs_offset);
    let ghost rv = params.rhs_view(rhs_strides, rhs_offset);
    let step = |acc: i128, a: i32, c: i32| -> (next: i128)
        requires
            i128::MIN <= acc + a * c <= i128::MAX,
        ensures
            next == acc + a * c,
        {
            proof {
                lemma_product_bound(a, c);
            }
            acc + (a as i128) * (c as i128)
        };
    proof {
        assert forall|bi: int, i: int, j: int, p: nat, acc: i128|
            params.in_output(bi, i, j) && p < params.k && #[trigger] accumulates(
                step,
                0i128,
                terms(lhs@, lv, rhs@, rv, bi, i, j, p),
                acc,
            ) implies call_requires(
            step,
            (acc, lhs@[lv.address_of(bi, i, p as int)], rhs@[rv.address_of(bi, p as int, j)]),
        ) by {
            let ts = terms(lhs@, lv, rhs@, rv, bi, i, j, p);
            lemma_fold_is_sum(step, ts, acc);
            lemma_sum_bound(ts);
            lemma_product_bound(
                lhs@[lv.address_of(bi, i, p as int)],
                rhs@[rv.address_of(bi, p as int, j)],
            );
            assert(ts.len() * 0x4000_0000_0000_0000 <= 0xffff_ffff_ffff_ffff
                * 0x4000_0000_0000_0000) by (nonlinear_arith)
                requires
                    ts.len() <= 0xffff_ffff_ffff_ffff,
            ;
        }
    }
    let result = execute_with(
        params,
        lhs,
        lhs_strides,
        lhs_offset,
        rhs,
        rhs_strides,
        rhs_offset,
        0i128,
        step,
    );
    proof {
        if result is Ok {
            let out = result->Ok_0;
            assert forall|bi: int, i: int, j: int| params.in_output(bi, i, j) implies exact_sum()(
                terms(lhs@, lv, rhs@, rv, bi, i, j, params.k as nat),
                out@[#[trigger] params.output_index(bi, i, j)],
            ) by {
                lemma_fold_is_sum(
                    step,
                    terms(lhs@, lv, rhs@, rv, bi, i, j, params.k as nat),
                    out@[params.output_index(bi, i, j)],
                );
            }
            lemma_exact_output_is_output_of_exact_sum(out@, *params, lhs@, lv, rhs@, rv);
        }
    }
    result
}

} // verus!
