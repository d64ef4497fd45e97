//! What holds of every batched product, proved over the definitions that the contracts
//! of [`execute_with`](crate::gemm::execute_with) and [`execute`](crate::exact::execute)
//! are stated in.
//!
//! Most of it holds whatever a sum is: the statements take the relation between the
//! terms of a dot product and its value as a parameter, and both executors' relations
//! are instances. The last part says the same of the exact product, in its own terms.

use vstd::prelude::*;
use vstd::arithmetic::div_mod::{
    lemma_div_pos_is_pos, lemma_fundamental_div_mod, lemma_mod_bound, lemma_multiply_divide_lt,
};
use vstd::arithmetic::mul::{lemma_mul_is_commutative, lemma_mul_is_distributive_add_other_way};
use crate::exact::{exact_sum, is_exact_output, lemma_exact_output_is_output_of_exact_sum};
use crate::gemm::{accumulates, accumulation, is_output_of, terms, GemmParams};
use crate::layout::TensorView;

verus! {

/// The view of everything but the first batch slice: one slice fewer, the offset
/// advanced by one batch stride.
pub open spec fn after_first_batch(view: TensorView) -> TensorView {
    TensorView {
        shape: [(view.shape[0] - 1) as usize, view.shape[1], view.shape[2]],
        strides: view.strides,
        offset: (view.offset + view.strides[0]) as usize,
    }
}

/// The view of everything but the last batch slice: one slice fewer, the offset kept.
pub open spec fn before_last_batch(view: TensorView) -> TensorView {
    TensorView {
        shape: [(view.shape[0] - 1) as usize, view.shape[1], view.shape[2]],
        strides: view.strides,
        offset: view.offset,
    }
}

/// The same product with one batch fewer.
pub open spec fn one_batch_fewer(params: GemmParams) -> GemmParams {
    GemmParams { b: (params.b - 1) as usize, m: params.m, n: params.n, k: params.k }
}

/// Batch slice `to` of the second pair of operands holds, element for element, what
/// batch slice `from` of the first pair holds.
pub open spec fn same_slices<T>(
    params: GemmParams,
    lhs: Seq<T>,
    lv: TensorView,
    rhs: Seq<T>,
    rv: TensorView,
    from: int,
    lhs2: Seq<T>,
    lv2: TensorView,
    rhs2: Seq<T>,
    rv2: TensorView,
    to: int,
) -> bool {
    &&& forall|i: int, p: int|
        0 <= i < params.m && 0 <= p < params.k ==> lhs2[#[trigger] lv2.address_of(to, i, p)]
            == lhs[lv.address_of(from, i, p)]
    &&& forall|p: int, j: int|
        0 <= p < params.k && 0 <= j < params.n ==> rhs2[#[trigger] rv2.address_of(to, p, j)]
            == rhs[rv.address_of(from, p, j)]
}

/// The terms of a dot product have at most one value.
pub open spec fn functional<T, A>(rel: spec_fn(Seq<(T, T)>, A) -> bool) -> bool {
    forall|ts: Seq<(T, T)>, v1: A, v2: A|
        #[trigger] rel(ts, v1) && #[trigger] rel(ts, v2) ==> v1 == v2
}

/// `step` returns the same value whenever it is given the same arguments.
pub open spec fn deterministic<T, A, F: Fn(A, T, T) -> A>(step: F) -> bool {
    forall|acc: A, a: T, c: T, r1: A, r2: A| #[trigger]
        call_ensures(step, (acc, a, c), r1) && #[trigger] call_ensures(step, (acc, a, c), r2)
            ==> r1 == r2
}

/// An exact sum is a function of its terms.
pub proof fn lemma_exact_sum_is_functional()
    ensures
        functional(exact_sum()),
{
}

/// Folding with a deterministic step is a function of the terms.
pub proof fn lemma_accumulation_is_functional<T, A, F: Fn(A, T, T) -> A>(step: F, zero: A)
    requires
        deterministic(step),
    ensures
        functional(accumulation(step, zero)),
{
    assert forall|ts: Seq<(T, T)>, v1: A, v2: A| #[trigger]
        accumulation(step, zero)(ts, v1) && #[trigger] accumulation(step, zero)(ts, v2) implies v1
        == v2 by {
        lemma_fold_is_unique(step, zero, ts, v1, v2);
    }
}

/// Two folds of the same terms with a deterministic step end in the same value.
proof fn lemma_fold_is_unique<T, A, F: Fn(A, T, T) -> A>(
    step: F,
    zero: A,
    ts: Seq<(T, T)>,
    v1: A,
    v2: A,
)
    requires
        deterministic(step),
        accumulates(step, zero, ts, v1),
        accumulates(step, zero, ts, v2),
    ensures
        v1 == v2,
    decreases ts.len(),
{
    if ts.len() > 0 {
        let prev1 = choose|prev: A|
            accumulates(step, zero, ts.drop_last(), prev) && #[trigger] call_ensures(
                step,
                (prev, ts.last().0, ts.last().1),
                v1,
            );
        let prev2 = choose|prev: A|
            accumulates(step, zero, ts.drop_last(), prev) && #[trigger] call_ensures(
                step,
                (prev, ts.last().0, ts.last().1),
                v2,
            );
        lemma_fold_is_unique(step, zero, ts.drop_last(), prev1, prev2);
    }
}

/// Every position of the output belongs to an element `(bi, i, j)`.
pub proof fn lemma_output_index_onto(params: GemmParams, idx: int) -> (pos: (int, int, int))
    requires
        0 <= idx < params.output_len(),
    ensures
        params.in_output(pos.0, pos.1, pos.2),
        params.output_index(pos.0, pos.1, pos.2) == idx,
{
    let d = params.block_len();
    let n = params.n as int;
    assert(d > 0 && n > 0 && params.m > 0) by (nonlinear_arith)
        requires
            0 <= idx < params.b * d,
            d == params.m * n,
            n >= 0,
    ;
    let bi = idx / d;
    let r = idx % d;
    lemma_fundamental_div_mod(idx, d);
    lemma_mod_bound(idx, d);
    lemma_div_pos_is_pos(idx, d);
    lemma_mul_is_commutative(d, params.b as int);
    lemma_multiply_divide_lt(idx, d, params.b as int);
    lemma_mul_is_commutative(d, bi);
    let i = r / n;
    let j = r % n;
    lemma_fundamental_div_mod(r, n);
    lemma_mod_bound(r, n);
    lemma_div_pos_is_pos(r, n);
    lemma_mul_is_commutative(n, params.m as int);
    lemma_multiply_divide_lt(r, n, params.m as int);
    lemma_mul_is_commutative(n, i);
    (bi, i, j)
}

/// Repeated runs agree: where the terms of a dot product have one value only, two
/// outputs for the same sizes, buffers and views are equal, element for element.
pub proof fn lemma_output_is_unique<T, A>(
    out1: Seq<A>,
    out2: Seq<A>,
    params: GemmParams,
    lhs: Seq<T>,
    lv: TensorView,
    rhs: Seq<T>,
    rv: TensorView,
    rel: spec_fn(Seq<(T, T)>, A) -> bool,
)
    requires
        functional(rel),
        is_output_of(out1, params, lhs, lv, rhs, rv, rel),
        is_output_of(out2, params, lhs, lv, rhs, rv, rel),
    ensures
        out1 == out2,
{
    assert forall|idx: int| 0 <= idx < out1.len() implies out1[idx] == out2[idx] by {
        let pos = lemma_output_index_onto(params, idx);
        let ts = terms(lhs, lv, rhs, rv, pos.0, pos.1, pos.2, params.k as nat);
        assert(rel(ts, out1[params.output_index(pos.0, pos.1, pos.2)]));
        assert(rel(ts, out2[params.output_index(pos.0, pos.1, pos.2)]));
    }
    assert(out1 =~= out2);
}

/// A dot product has the same terms wherever the row and the column it reads hold the
/// same elements.
pub proof fn lemma_same_slices_same_terms<T>(
    params: GemmParams,
    lhs: Seq<T>,
    lv: TensorView,
    rhs: Seq<T>,
    rv: TensorView,
    from: int,
    lhs2: Seq<T>,
    lv2: TensorView,
    rhs2: Seq<T>,
    rv2: TensorView,
    to: int,
    i: int,
    j: int,
)
    requires
        0 <= i < params.m,
        0 <= j < params.n,
        same_slices(params, lhs, lv, rhs, rv, from, lhs2, lv2, rhs2, rv2, to),
    ensures
        terms(lhs2, lv2, rhs2, rv2, to, i, j, params.k as nat) == terms(
            lhs,
            lv,
            rhs,
            rv,
            from,
            i,
            j,
            params.k as nat,
        ),
{
    let t2 = terms(lhs2, lv2, rhs2, rv2, to, i, j, params.k as nat);
    let t1 = terms(lhs, lv, rhs, rv, from, i, j, params.k as nat);
    assert forall|p: int| 0 <= p < params.k implies t2[p] == t1[p] by {
        assert(lhs2[lv2.address_of(to, i, p)] == lhs[lv.address_of(from, i, p)]);
        assert(rhs2[rv2.address_of(to, p, j)] == rhs[rv.address_of(from, p, j)]);
    }
    assert(t2 =~= t1);
}

/// No block depends on another batch: where slice `to` of a second pair of operands
/// holds what slice `from` of the first pair holds, block `from` of the first output
/// holds what block `to` of the second pair's output has to hold, whatever the other
/// slices hold.
pub proof fn lemma_block_depends_only_on_its_slices<T, A>(
    out: Seq<A>,
    params: GemmParams,
    lhs: Seq<T>,
    lv: TensorView,
    rhs: Seq<T>,
    rv: TensorView,
    rel: spec_fn(Seq<(T, T)>, A) -> bool,
    from: int,
    lhs2: Seq<T>,
    lv2: TensorView,
    rhs2: Seq<T>,
    rv2: TensorView,
    to: int,
)
    requires
        0 <= from < params.b,
        is_output_of(out, params, lhs, lv, rhs, rv, rel),
        same_slices(params, lhs, lv, rhs, rv, from, lhs2, lv2, rhs2, rv2, to),
    ensures
        forall|i: int, j: int|
            0 <= i < params.m && 0 <= j < params.n ==> rel(
                terms(lhs2, lv2, rhs2, rv2, to, i, j, params.k as nat),
                out[#[trigger] params.output_index(from, i, j)],
            ),
{
    assert forall|i: int, j: int| 0 <= i < params.m && 0 <= j < params.n implies rel(
        terms(lhs2, lv2, rhs2, rv2, to, i, j, params.k as nat),
        out[#[trigger] params.output_index(from, i, j)],
    ) by {
        assert(params.in_output(from, i, j));
        lemma_same_slices_same_terms(params, lhs, lv, rhs, rv, from, lhs2, lv2, rhs2, rv2, to, i, j);
    }
}

/// Reordering the batch slices reorders the output blocks in the same way: where batch
/// `bi` of a second pair of operands holds what batch `source[bi]` of the first pair
/// holds, and the terms of a dot product have one value only, block `bi` of the second
/// output is block `source[bi]` of the first.
pub proof fn lemma_batches_are_independent<T, A>(
    out: Seq<A>,
    params: GemmParams,
    lhs: Seq<T>,
    lv: TensorView,
    rhs: Seq<T>,
    rv: TensorView,
    rel: spec_fn(Seq<(T, T)>, A) -> bool,
    source: Seq<int>,
    out2: Seq<A>,
    lhs2: Seq<T>,
    lv2: TensorView,
    rhs2: Seq<T>,
    rv2: TensorView,
)
    requires
        functional(rel),
        source.len() == params.b,
        forall|bi: int| 0 <= bi < params.b ==> 0 <= #[trigger] source[bi] < params.b,
        is_output_of(out, params, lhs, lv, rhs, rv, rel),
        is_output_of(out2, params, lhs2, lv2, rhs2, rv2, rel),
        forall|bi: int|
            0 <= bi < params.b ==> same_slices(
                params,
                lhs,
                lv,
                rhs,
                rv,
                #[trigger] source[bi],
                lhs2,
                lv2,
                rhs2,
                rv2,
                bi,
            ),
    ensures
        forall|bi: int, i: int, j: int|
            params.in_output(bi, i, j) ==> out2[#[trigger] params.output_index(bi, i, j)]
                == out[params.output_index(source[bi], i, j)],
{
    assert forall|bi: int, i: int, j: int| params.in_output(bi, i, j) implies out2[
        #[trigger] params.output_index(bi, i, j)] == out[params.output_index(source[bi], i, j)] by {
        lemma_block_depends_only_on_its_slices(
            out,
            params,
            lhs,
            lv,
            rhs,
            rv,
            rel,
            source[bi],
            lhs2,
            lv2,
            rhs2,
            rv2,
            bi,
        );
        let ts = terms(lhs2, lv2, rhs2, rv2, bi, i, j, params.k as nat);
        assert(rel(ts, out[params.output_index(source[bi], i, j)]));
        assert(rel(ts, out2[params.output_index(bi, i, j)]));
    }
}

/// Advancing a view's offset by one batch stride moves every slice one place forward:
/// slice `bi` of the advanced view is slice `bi + 1` of the view it was made from.
pub proof fn lemma_advanced_view_reads_next_slice(view: TensorView, bi: int, i: int, j: int)
    requires
        view.offset + view.strides[0] <= usize::MAX,
    ensures
        after_first_batch(view).address_of(bi, i, j) == view.address_of(bi + 1, i, j),
{
    lemma_mul_is_distributive_add_other_way(view.strides[0] as int, bi, 1);
}

/// Block `bi` of the output with one batch fewer lies one block further in the full one.
proof fn lemma_skip_one_block<A>(out: Seq<A>, params: GemmParams, bi: int, i: int, j: int)
    requires
        params.b >= 1,
        out.len() == params.output_len(),
        one_batch_fewer(params).in_output(bi, i, j),
    ensures
        params.in_output(bi + 1, i, j),
        out.skip(params.block_len())[one_batch_fewer(params).output_index(bi, i, j)]
            == out[params.output_index(bi + 1, i, j)],
{
    let fewer = one_batch_fewer(params);
    let d = params.block_len();
    lemma_mul_is_distributive_add_other_way(d, params.b - 1, 1);
    lemma_mul_is_distributive_add_other_way(d, bi, 1);
    fewer.lemma_output_index_unique(bi, i, j);
    assert(params.output_index(bi + 1, i, j) == d + fewer.output_index(bi, i, j));
}

/// Skipping the first batch by advancing both operands' offsets by one batch stride
/// each and reducing `b` by one yields the full output without its first block.
pub proof fn lemma_offset_composition<T, A>(
    out: Seq<A>,
    params: GemmParams,
    lhs: Seq<T>,
    lv: TensorView,
    rhs: Seq<T>,
    rv: TensorView,
    rel: spec_fn(Seq<(T, T)>, A) -> bool,
)
    requires
        params.b >= 1,
        lv.offset + lv.strides[0] <= usize::MAX,
        rv.offset + rv.strides[0] <= usize::MAX,
        is_output_of(out, params, lhs, lv, rhs, rv, rel),
    ensures
        is_output_of(
            out.skip(params.block_len()),
            one_batch_fewer(params),
            lhs,
            after_first_batch(lv),
            rhs,
            after_first_batch(rv),
            rel,
        ),
{
    let fewer = one_batch_fewer(params);
    let rest = out.skip(params.block_len());
    let lv2 = after_first_batch(lv);
    let rv2 = after_first_batch(rv);
    assert(rest.len() == fewer.output_len()) by {
        lemma_mul_is_distributive_add_other_way(params.block_len(), params.b - 1, 1);
    }
    assert forall|bi: int, i: int, j: int| fewer.in_output(bi, i, j) implies rel(
        terms(lhs, lv2, rhs, rv2, bi, i, j, fewer.k as nat),
        rest[#[trigger] fewer.output_index(bi, i, j)],
    ) by {
        lemma_skip_one_block(out, params, bi, i, j);
        let t2 = terms(lhs, lv2, rhs, rv2, bi, i, j, params.k as nat);
        let t1 = terms(lhs, lv, rhs, rv, bi + 1, i, j, params.k as nat);
        assert forall|p: int| 0 <= p < params.k implies t2[p] == t1[p] by {
            lemma_advanced_view_reads_next_slice(lv, bi, i, p);
            lemma_advanced_view_reads_next_slice(rv, bi, p, j);
        }
        assert(t2 =~= t1);
    }
}

/// Advancing the right operand's offset alone, with `b` reduced by one, pairs the left
/// slice `bi` with the right slice `bi + 1`. Where the left operand holds in each slice
/// what it holds in the next (a batch stride of 0 is the usual case), that still yields
/// the full output without its first block; where it does not, the terms differ.
pub proof fn lemma_offset_composition_right_only<T, A>(
    out: Seq<A>,
    params: GemmParams,
    lhs: Seq<T>,
    lv: TensorView,
    rhs: Seq<T>,
    rv: TensorView,
    rel: spec_fn(Seq<(T, T)>, A) -> bool,
)
    requires
        params.b >= 1,
        rv.offset + rv.strides[0] <= usize::MAX,
        is_output_of(out, params, lhs, lv, rhs, rv, rel),
        forall|bi: int, i: int, p: int|
            0 <= bi < params.b - 1 && 0 <= i < params.m && 0 <= p < params.k ==> lhs[
                #[trigger] lv.address_of(bi, i, p)] == lhs[lv.address_of(bi + 1, i, p)],
    ensures
        is_output_of(
            out.skip(params.block_len()),
            one_batch_fewer(params),
            lhs,
            before_last_batch(lv),
            rhs,
            after_first_batch(rv),
            rel,
        ),
{
    let fewer = one_batch_fewer(params);
    let rest = out.skip(params.block_len());
    let lv2 = before_last_batch(lv);
    let rv2 = after_first_batch(rv);
    assert(rest.len() == fewer.output_len()) by {
        lemma_mul_is_distributive_add_other_way(params.block_len(), params.b - 1, 1);
    }
    assert forall|bi: int, i: int, j: int| fewer.in_output(bi, i, j) implies rel(
        terms(lhs, lv2, rhs, rv2, bi, i, j, fewer.k as nat),
        rest[#[trigger] fewer.output_index(bi, i, j)],
    ) by {
        lemma_skip_one_block(out, params, bi, i, j);
        let t2 = terms(lhs, lv2, rhs, rv2, bi, i, j, params.k as nat);
        let t1 = terms(lhs, lv, rhs, rv, bi + 1, i, j, params.k as nat);
        assert forall|p: int| 0 <= p < params.k implies t2[p] == t1[p] by {
            assert(lhs[lv.address_of(bi, i, p)] == lhs[lv.address_of(bi + 1, i, p)]);
            lemma_advanced_view_reads_next_slice(rv, bi, p, j);
        }
        assert(t2 =~= t1);
    }
}

/// Advancing the left operand's offset alone, with `b` reduced by one, pairs the left
/// slice `bi + 1` with the right slice `bi`. Where the right operand holds in each slice
/// what it holds in the next (a batch stride of 0 is the usual case), that still yields
/// the full output without its first block; where it does not, the terms differ.
pub proof fn lemma_offset_composition_left_only<T, A>(
    out: Seq<A>,
    params: GemmParams,
    lhs: Seq<T>,
    lv: TensorView,
    rhs: Seq<T>,
    rv: TensorView,
    rel: spec_fn(Seq<(T, T)>, A) -> bool,
)
    requires
        params.b >= 1,
        lv.offset + lv.strides[0] <= usize::MAX,
        is_output_of(out, params, lhs, lv, rhs, rv, rel),
        forall|bi: int, p: int, j: int|
            0 <= bi < params.b - 1 && 0 <= p < params.k && 0 <= j < params.n ==> rhs[
                #[trigger] rv.address_of(bi, p, j)] == rhs[rv.address_of(bi + 1, p, j)],
    ensures
        is_output_of(
            out.skip(params.block_len()),
            one_batch_fewer(params),
            lhs,
            after_first_batch(lv),
            rhs,
            before_last_batch(rv),
            rel,
        ),
{
    let fewer = one_batch_fewer(params);
    let rest = out.skip(params.block_len());
    let lv2 = after_first_batch(lv);
    let rv2 = before_last_batch(rv);
    assert(rest.len() == fewer.output_len()) by {
        lemma_mul_is_distributive_add_other_way(params.block_len(), params.b - 1, 1);
    }
    assert forall|bi: int, i: int, j: int| fewer.in_output(bi, i, j) implies rel(
        terms(lhs, lv2, rhs, rv2, bi, i, j, fewer.k as nat),
        rest[#[trigger] fewer.output_index(bi, i, j)],
    ) by {
        lemma_skip_one_block(out, params, bi, i, j);
        let t2 = terms(lhs, lv2, rhs, rv2, bi, i, j, params.k as nat);
        let t1 = terms(lhs, lv, rhs, rv, bi + 1, i, j, params.k as nat);
        assert forall|p: int| 0 <= p < params.k implies t2[p] == t1[p] by {
            lemma_advanced_view_reads_next_slice(lv, bi, i, p);
            assert(rhs[rv.address_of(bi, p, j)] == rhs[rv.address_of(bi + 1, p, j)]);
        }
        assert(t2 =~= t1);
    }
}

/// Repeated runs of the exact product agree: two outputs for the same sizes, buffers and
/// views are equal, element for element.
pub proof fn lemma_exact_output_is_unique(
    out1: Seq<i128>,
    out2: Seq<i128>,
    params: GemmParams,
    lhs: Seq<i32>,
    lv: TensorView,
    rhs: Seq<i32>,
    rv: TensorView,
)
    requires
        is_exact_output(out1, params, lhs, lv, rhs, rv),
        is_exact_output(out2, params, lhs, lv, rhs, rv),
    ensures
        out1 == out2,
{
    lemma_exact_sum_is_functional();
    lemma_exact_output_is_output_of_exact_sum(out1, params, lhs, lv, rhs, rv);
    lemma_exact_output_is_output_of_exact_sum(out2, params, lhs, lv, rhs, rv);
    lemma_output_is_unique(out1, out2, params, lhs, lv, rhs, rv, exact_sum());
}

/// Skipping the first batch of the exact product by advancing both operands' offsets by
/// one batch stride each and reducing `b` by one yields the full output without its
/// first block.
pub proof fn lemma_exact_offset_composition(
    out: Seq<i128>,
    params: GemmParams,
    lhs: Seq<i32>,
    lv: TensorView,
    rhs: Seq<i32>,
    rv: TensorView,
)
    requires
        params.b >= 1,
        lv.offset + lv.strides[0] <= usize::MAX,
        rv.offset + rv.strides[0] <= usize::MAX,
        is_exact_output(out, params, lhs, lv, rhs, rv),
    ensures
        is_exact_output(
            out.skip(params.block_len()),
            one_batch_fewer(params),
            lhs,
            after_first_batch(lv),
            rhs,
            after_first_batch(rv),
        ),
{
    lemma_exact_output_is_output_of_exact_sum(out, params, lhs, lv, rhs, rv);
    lemma_offset_composition(out, params, lhs, lv, rhs, rv, exact_sum());
    lemma_exact_output_is_output_of_exact_sum(
        out.skip(params.block_len()),
        one_batch_fewer(params),
        lhs,
        after_first_batch(lv),
        rhs,
        after_first_batch(rv),
    );
}

/// Advancing the right operand's offset alone still yields the full exact output
/// without its first block where the left operand holds in each slice what it holds in
/// the next.
pub proof fn lemma_exact_offset_composition_right_only(
    out: Seq<i128>,
    params: GemmParams,
    lhs: Seq<i32>,
    lv: TensorView,
    rhs: Seq<i32>,
    rv: TensorView,
)
    requires
        params.b >= 1,
        rv.offset + rv.strides[0] <= usize::MAX,
        is_exact_output(out, params, lhs, lv, rhs, rv),
        forall|bi: int, i: int, p: int|
            0 <= bi < params.b - 1 && 0 <= i < params.m && 0 <= p < params.k ==> lhs[
                #[trigger] lv.address_of(bi, i, p)] == lhs[lv.address_of(bi + 1, i, p)],
    ensures
        is_exact_output(
            out.skip(params.block_len()),
            one_batch_fewer(params),
            lhs,
            before_last_batch(lv),
            rhs,
            after_first_batch(rv),
        ),
{
    lemma_exact_output_is_output_of_exact_sum(out, params, lhs, lv, rhs, rv);
    lemma_offset_composition_right_only(out, params, lhs, lv, rhs, rv, exact_sum());
    lemma_exact_output_is_output_of_exact_sum(
        out.skip(params.block_len()),
        one_batch_fewer(params),
        lhs,
        before_last_batch(lv),
        rhs,
        after_first_batch(rv),
    );
}

/// Advancing the left operand's offset alone still yields the full exact output without
/// its first block where the right operand holds in each slice what it holds in the
/// next.
pub proof fn lemma_exact_offset_composition_left_only(
    out: Seq<i128>,
    params: GemmParams,
    lhs: Seq<i32>,
    lv: TensorView,
    rhs: Seq<i32>,
    rv: TensorView,
)
    requires
        params.b >= 1,
        lv.offset + lv.strides[0] <= usize::MAX,
        is_exact_output(out, params, lhs, lv, rhs, rv),
        forall|bi: int, p: int, j: int|
            0 <= bi < params.b - 1 && 0 <= p < params.k && 0 <= j < params.n ==> rhs[
                #[trigger] rv.address_of(bi, p, j)] == rhs[rv.address_of(bi + 1, p, j)],
    ensures
        is_exact_output(
            out.skip(params.block_len()),
            one_batch_fewer(params),
            lhs,
            after_first_batch(lv),
            rhs,
            before_last_batch(rv),
        ),
{
    lemma_exact_output_is_output_of_exact_sum(out, params, lhs, lv, rhs, rv);
    lemma_offset_composition_left_only(out, params, lhs, lv, rhs, rv, exact_sum());
    lemma_exact_output_is_output_of_exact_sum(
        out.skip(params.block_len()),
        one_batch_fewer(params),
        lhs,
        after_first_batch(lv),
        rhs,
        before_last_batch(rv),
    );
}

/// Reordering the batch slices reorders the blocks of the exact product in the same
/// way: where batch `bi` of a second pair of operands holds what batch `source[bi]` of
/// the first pair holds, block `bi` of the second output is block `source[bi]` of the
/// first.
pub proof fn lemma_exact_batches_are_independent(
    out: Seq<i128>,
    params: GemmParams,
    lhs: Seq<i32>,
    lv: TensorView,
    rhs: Seq<i32>,
    rv: TensorView,
    source: Seq<int>,
    out2: Seq<i128>,
    lhs2: Seq<i32>,
    lv2: TensorView,
    rhs2: Seq<i32>,
    rv2: TensorView,
)
    requires
        source.len() == params.b,
        forall|bi: int| 0 <= bi < params.b ==> 0 <= #[trigger] source[bi] < params.b,
        is_exact_output(out, params, lhs, lv, rhs, rv),
        is_exact_output(out2, params, lhs2, lv2, rhs2, rv2),
        forall|bi: int|
            0 <= bi < params.b ==> same_slices(
                params,
                lhs,
                lv,
                rhs,
                rv,
                #[trigger] source[bi],
                lhs2,
                lv2,
                rhs2,
                rv2,
                bi,
            ),
    ensures
        forall|bi: int, i: int, j: int|
            params.in_output(bi, i, j) ==> out2[#[trigger] params.output_index(bi, i, j)]
                == out[params.output_index(source[bi], i, j)],
{
    lemma_exact_sum_is_functional();
    lemma_exact_output_is_output_of_exact_sum(out, params, lhs, lv, rhs, rv);
    lemma_exact_output_is_output_of_exact_sum(out2, params, lhs2, lv2, rhs2, rv2);
    lemma_batches_are_independent(
        out,
        params,
        lhs,
        lv,
        rhs,
        rv,
        exact_sum(),
        source,
        out2,
        lhs2,
        lv2,
        rhs2,
        rv2,
    );
}

} // verus!
