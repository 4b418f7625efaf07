//! Index arithmetic on row-major arrays, and the one way in which the
//! slicing operators read a tensor: axis by axis, from a first index, at a
//! stride.

use vstd::arithmetic::div_mod::{
    lemma_div_denominator, lemma_div_pos_is_pos, lemma_fundamental_div_mod_converse, lemma_mod_bound,
};
use vstd::prelude::*;
use crate::errors::TractError;
use crate::tensor::{lemma_numel_zero, numel, shape_len, Tensor, TensorValue};

verus! {

/// The number of elements that one step along axis `d - 1` skips: the
/// product of the sizes of the axes from `d` on.
pub open spec fn tail(dims: Seq<usize>, d: int) -> nat {
    numel(dims.skip(d))
}

/// The index along axis `d` of the element at place `p` of a row-major
/// array of shape `dims`.
pub open spec fn coord(dims: Seq<usize>, p: int, d: int) -> int {
    (p / tail(dims, d + 1) as int) % (dims[d] as int)
}

/// The index of the element at place `p` of a row-major array of shape
/// `dims`, axis by axis.
pub open spec fn index_at(dims: Seq<usize>, p: int) -> Seq<int> {
    Seq::new(dims.len(), |d: int| coord(dims, p, d))
}

/// The place in a row-major array of shape `dims` of the element at the
/// index `c`, counting the axes from `d` on only.
pub open spec fn place(dims: Seq<usize>, c: Seq<int>, d: int) -> int
    decreases dims.len() - d,
{
    if d >= dims.len() {
        0
    } else {
        c[d] * tail(dims, d + 1) + place(dims, c, d + 1)
    }
}

/// The place of an index that lies in the array lies in the array.
pub proof fn lemma_place_bound(dims: Seq<usize>, c: Seq<int>, d: int)
    requires
        0 <= d <= dims.len(),
        forall|k: int| d <= k < dims.len() ==> 0 <= #[trigger] c[k] < dims[k],
    ensures
        0 <= place(dims, c, d) < tail(dims, d),
    decreases dims.len() - d,
{
    if d == dims.len() {
        lemma_tail_ends(dims);
    } else {
        lemma_place_bound(dims, c, d + 1);
        lemma_tail_step(dims, d);
        let i = c[d];
        let t = tail(dims, d + 1) as int;
        let rest = place(dims, c, d + 1);
        let s = dims[d] as int;
        assert(0 <= i * t + rest < s * t) by (nonlinear_arith)
            requires
                0 <= i < s,
                0 <= rest < t,
        ;
    }
}

/// What the axes before `d` add to the place of the index `c`, counted in
/// steps along axis `d - 1`.
pub open spec fn lead(dims: Seq<usize>, c: Seq<int>, d: int) -> int
    decreases d,
{
    if d <= 0 {
        0
    } else {
        lead(dims, c, d - 1) * dims[d - 1] + c[d - 1]
    }
}

/// The place of an index is what the axes before `d` add, and what the
/// axes from `d` on add.
pub proof fn lemma_place_split(dims: Seq<usize>, c: Seq<int>, d: int)
    requires
        0 <= d <= dims.len(),
    ensures
        place(dims, c, 0) == lead(dims, c, d) * tail(dims, d) + place(dims, c, d),
    decreases d,
{
    if d > 0 {
        lemma_place_split(dims, c, d - 1);
        lemma_tail_step(dims, d - 1);
        let l = lead(dims, c, d - 1);
        let s = dims[d - 1] as int;
        let t = tail(dims, d) as int;
        let x = c[d - 1];
        assert(l * (s * t) + (x * t + place(dims, c, d)) == (l * s + x) * t + place(dims, c, d)) by (nonlinear_arith);
    }
}

/// The index of the place of an index is that index.
pub proof fn lemma_place_index(dims: Seq<usize>, c: Seq<int>, d: int)
    requires
        0 <= d < dims.len(),
        forall|k: int| 0 <= k < dims.len() ==> 0 <= #[trigger] c[k] < dims[k],
    ensures
        coord(dims, place(dims, c, 0), d) == c[d],
{
    lemma_place_split(dims, c, d + 1);
    lemma_place_bound(dims, c, d + 1);
    let p = place(dims, c, 0);
    let t = tail(dims, d + 1) as int;
    let l = lead(dims, c, d + 1);
    let rest = place(dims, c, d + 1);
    assert(p == l * t + rest);
    lemma_fundamental_div_mod_converse(p, t, l, rest);
    assert(p / t == l);
    let s = dims[d] as int;
    assert(l == lead(dims, c, d) * s + c[d]);
    lemma_fundamental_div_mod_converse(l, s, lead(dims, c, d), c[d]);
}

/// The index of a place in the array lies in the array.
pub proof fn lemma_index_bound(dims: Seq<usize>, p: int, d: int)
    requires
        0 <= p < numel(dims),
        0 <= d < dims.len(),
    ensures
        0 <= coord(dims, p, d) < dims[d],
{
    lemma_tail_positive(dims, d + 1);
    lemma_tail_positive(dims, d);
    lemma_div_pos_is_pos(p, tail(dims, d + 1) as int);
    lemma_mod_bound(p / tail(dims, d + 1) as int, dims[d] as int);
}

/// The index read along an axis for the index `c` written: `begin` and then
/// `stride` by `stride`.
pub open spec fn along(begin: i64, stride: i64, c: int) -> int {
    begin + c * stride
}

/// Every index written has an index to read: along each axis, all of
/// `begin`, `begin + stride`, ... lie in the input.
pub open spec fn window_fits(in_dims: Seq<usize>, out_dims: Seq<usize>, begins: Seq<i64>, strides: Seq<i64>) -> bool {
    &&& out_dims.len() == in_dims.len()
    &&& begins.len() == in_dims.len()
    &&& strides.len() == in_dims.len()
    &&& forall|d: int, c: int|
        0 <= d < out_dims.len() && 0 <= c < out_dims[d] ==> 0 <= #[trigger] along(begins[d], strides[d], c)
            < in_dims[d]
}

/// The place in the input of the element that is written at place `p`,
/// counting the axes from `d` on only.
pub open spec fn source(
    in_dims: Seq<usize>,
    out_dims: Seq<usize>,
    begins: Seq<i64>,
    strides: Seq<i64>,
    p: int,
    d: int,
) -> int
    decreases in_dims.len() - d,
{
    if d >= in_dims.len() {
        0
    } else {
        along(begins[d], strides[d], coord(out_dims, p, d)) * tail(in_dims, d + 1) + source(
            in_dims,
            out_dims,
            begins,
            strides,
            p,
            d + 1,
        )
    }
}

/// The elements of the array of shape `out_dims` whose element at the index
/// `c` is the element of the input at the index `begins + c * strides`.
pub open spec fn gathered(
    items: Seq<i64>,
    in_dims: Seq<usize>,
    out_dims: Seq<usize>,
    begins: Seq<i64>,
    strides: Seq<i64>,
) -> Seq<i64> {
    Seq::new(numel(out_dims), |p: int| items[source(in_dims, out_dims, begins, strides, p, 0)])
}

pub proof fn lemma_numel_concat(a: Seq<usize>, b: Seq<usize>)
    ensures
        numel(a + b) == numel(a) * numel(b),
    decreases b.len(),
{
    if b.len() == 0 {
        assert(a + b =~= a);
        assert(numel(b) == 1);
        assert(numel(a) * 1 == numel(a)) by (nonlinear_arith);
    } else {
        assert((a + b).drop_last() =~= a + b.drop_last());
        assert((a + b).last() == b.last());
        lemma_numel_concat(a, b.drop_last());
        let x = numel(a);
        let y = numel(b.drop_last());
        let z = b.last() as nat;
        assert(numel(a + b) == numel(a + b.drop_last()) * z);
        assert(numel(b) == y * z);
        assert((x * y) * z == x * (y * z)) by (nonlinear_arith);
    }
}

/// One step along axis `d` skips the elements of the axes after it.
pub proof fn lemma_tail_step(dims: Seq<usize>, d: int)
    requires
        0 <= d < dims.len(),
    ensures
        tail(dims, d) == dims[d] as nat * tail(dims, d + 1),
{
    assert(dims.skip(d) =~= seq![dims[d]] + dims.skip(d + 1));
    lemma_numel_concat(seq![dims[d]], dims.skip(d + 1));
    assert(seq![dims[d]].drop_last() =~= Seq::<usize>::empty());
    assert(numel(seq![dims[d]]) == dims[d] as nat) by {
        reveal_with_fuel(numel, 2);
    }
}

pub proof fn lemma_tail_ends(dims: Seq<usize>)
    ensures
        tail(dims, 0) == numel(dims),
        tail(dims, dims.len() as int) == 1,
{
    assert(dims.skip(0) =~= dims);
    assert(dims.skip(dims.len() as int) =~= Seq::<usize>::empty());
}

/// An array with an element has no axis of size 0, and none of its tails
/// is 0.
pub proof fn lemma_tail_positive(dims: Seq<usize>, d: int)
    requires
        numel(dims) > 0,
        0 <= d <= dims.len(),
    ensures
        tail(dims, d) >= 1,
        tail(dims, d) <= numel(dims),
        forall|k: int| 0 <= k < dims.len() ==> dims[k] >= 1,
    decreases d,
{
    assert forall|k: int| 0 <= k < dims.len() implies dims[k] >= 1 by {
        if dims[k] == 0 {
            lemma_numel_zero(dims, k);
        }
    }
    if d == 0 {
        lemma_tail_ends(dims);
    } else {
        lemma_tail_positive(dims, d - 1);
        lemma_tail_step(dims, d - 1);
        let t = tail(dims, d);
        let s = dims[d - 1] as nat;
        assert(t >= 1 && t <= s * t) by (nonlinear_arith)
            requires
                s * t >= 1,
                s >= 1,
        ;
    }
}

/// Along one axis, the indices read lie between the first and the last of
/// them.
pub proof fn lemma_along_between(begin: i64, stride: i64, n: int, c: int, bound: int)
    requires
        0 <= c < n,
        0 <= along(begin, stride, 0) < bound,
        0 <= along(begin, stride, n - 1) < bound,
    ensures
        0 <= along(begin, stride, c) < bound,
{
    if stride >= 0 {
        assert(0 <= c * stride <= (n - 1) * stride) by (nonlinear_arith)
            requires
                0 <= c <= n - 1,
                stride >= 0,
        ;
    } else {
        assert((n - 1) * stride <= c * stride <= 0) by (nonlinear_arith)
            requires
                0 <= c <= n - 1,
                stride < 0,
        ;
    }
}

/// The place read lies in the input.
pub proof fn lemma_source_bound(
    in_dims: Seq<usize>,
    out_dims: Seq<usize>,
    begins: Seq<i64>,
    strides: Seq<i64>,
    p: int,
    d: int,
)
    requires
        window_fits(in_dims, out_dims, begins, strides),
        0 <= p < numel(out_dims),
        0 <= d <= in_dims.len(),
    ensures
        0 <= source(in_dims, out_dims, begins, strides, p, d) < tail(in_dims, d),
    decreases in_dims.len() - d,
{
    if d == in_dims.len() {
        lemma_tail_ends(in_dims);
    } else {
        lemma_source_bound(in_dims, out_dims, begins, strides, p, d + 1);
        lemma_tail_positive(out_dims, d + 1);
        lemma_tail_step(in_dims, d);
        let c = coord(out_dims, p, d);
        lemma_div_pos_is_pos(p, tail(out_dims, d + 1) as int);
        lemma_mod_bound(p / tail(out_dims, d + 1) as int, out_dims[d] as int);
        let i = along(begins[d], strides[d], c);
        assert(0 <= i < in_dims[d]);
        let t = tail(in_dims, d + 1) as int;
        let rest = source(in_dims, out_dims, begins, strides, p, d + 1);
        let s = in_dims[d] as int;
        assert(0 <= i * t + rest < s * t) by (nonlinear_arith)
            requires
                0 <= i < s,
                0 <= rest < t,
        ;
    }
}

/// Whether every index written has an index to read.
fn fits(in_shape: &Vec<usize>, out_shape: &Vec<usize>, begins: &Vec<i64>, strides: &Vec<i64>) -> (r: bool)
    ensures
        r == window_fits(in_shape@, out_shape@, begins@, strides@),
{
    let rank = in_shape.len();
    if out_shape.len() != rank || begins.len() != rank || strides.len() != rank {
        return false;
    }
    let mut d: usize = 0;
    while d < rank
        invariant
            d <= rank,
            rank == in_shape@.len(),
            out_shape@.len() == rank,
            begins@.len() == rank,
            strides@.len() == rank,
            forall|k: int, c: int|
                0 <= k < d && 0 <= c < out_shape@[k] ==> 0 <= #[trigger] along(begins@[k], strides@[k], c)
                    < in_shape@[k],
        decreases rank - d,
    {
        let n = out_shape[d];
        if n > 0 {
            let last = n - 1;
            assert(-(0xffff_ffff_ffff_ffff * 0x8000_0000_0000_0000) <= last * strides@[d as int]
                <= 0xffff_ffff_ffff_ffff * 0x7fff_ffff_ffff_ffff) by (nonlinear_arith)
                requires
                    0 <= last <= 0xffff_ffff_ffff_ffff,
                    -0x8000_0000_0000_0000 <= strides@[d as int] <= 0x7fff_ffff_ffff_ffff,
            ;
            let first: i128 = begins[d] as i128;
            let end: i128 = begins[d] as i128 + (last as i128) * (strides[d] as i128);
            let size: i128 = in_shape[d] as i128;
            assert(first == along(begins@[d as int], strides@[d as int], 0));
            assert(end == along(begins@[d as int], strides@[d as int], last as int));
            if first < 0 || first >= size || end < 0 || end >= size {
                return false;
            }
            proof {
                assert forall|c: int| 0 <= c < n implies 0 <= #[trigger] along(begins@[d as int], strides@[d as int], c)
                    < in_shape@[d as int] by {
                    lemma_along_between(begins@[d as int], strides@[d as int], n as int, c, size as int);
                }
            }
        }
        d += 1;
    }
    true
}

/// The place in the input of the element written at place `p`.
fn source_of(in_shape: &Vec<usize>, out_shape: &Vec<usize>, begins: &Vec<i64>, strides: &Vec<i64>, p: usize) -> (r:
    usize)
    requires
        window_fits(in_shape@, out_shape@, begins@, strides@),
        p < numel(out_shape@),
        numel(in_shape@) <= usize::MAX,
    ensures
        r == source(in_shape@, out_shape@, begins@, strides@, p as int, 0),
        r < numel(in_shape@),
{
    let rank = in_shape.len();
    let mut rem: usize = p;
    let mut acc: usize = 0;
    let mut mult: usize = 1;
    let mut d: usize = rank;
    proof {
        lemma_tail_ends(in_shape@);
        lemma_tail_ends(out_shape@);
        lemma_source_bound(in_shape@, out_shape@, begins@, strides@, p as int, 0);
    }
    while d > 0
        invariant
            d <= rank,
            rank == in_shape@.len(),
            window_fits(in_shape@, out_shape@, begins@, strides@),
            p < numel(out_shape@),
            numel(in_shape@) <= usize::MAX,
            rem == p as int / tail(out_shape@, d as int) as int,
            acc == source(in_shape@, out_shape@, begins@, strides@, p as int, d as int),
            mult == tail(in_shape@, d as int),
        decreases d,
    {
        d -= 1;
        proof {
            lemma_tail_positive(out_shape@, d + 1);
            lemma_tail_step(out_shape@, d as int);
            lemma_tail_step(in_shape@, d as int);
            lemma_source_bound(in_shape@, out_shape@, begins@, strides@, p as int, d as int);
            lemma_source_bound(in_shape@, out_shape@, begins@, strides@, p as int, d + 1);
            lemma_div_denominator(p as int, tail(out_shape@, d + 1) as int, out_shape@[d as int] as int);
            lemma_div_pos_is_pos(p as int, tail(out_shape@, d + 1) as int);
            lemma_mod_bound(rem as int, out_shape@[d as int] as int);
            assert(tail(out_shape@, d + 1) * out_shape@[d as int] == out_shape@[d as int] * tail(
                out_shape@,
                d + 1,
            )) by (nonlinear_arith);
        }
        let c = rem % out_shape[d];
        rem = rem / out_shape[d];
        assert(c == coord(out_shape@, p as int, d as int));
        let ghost i = along(begins@[d as int], strides@[d as int], c as int);
        assert(0 <= i < in_shape@[d as int]);
        assert(-(0xffff_ffff_ffff_ffff * 0x8000_0000_0000_0000) <= c * strides@[d as int] <= 0xffff_ffff_ffff_ffff
            * 0x7fff_ffff_ffff_ffff) by (nonlinear_arith)
            requires
                0 <= c <= 0xffff_ffff_ffff_ffff,
                -0x8000_0000_0000_0000 <= strides@[d as int] <= 0x7fff_ffff_ffff_ffff,
        ;
        let wide: i128 = begins[d] as i128 + (c as i128) * (strides[d] as i128);
        let index: usize = wide as usize;
        proof {
            let t = tail(in_shape@, d + 1) as int;
            let s = in_shape@[d as int] as int;
            let rest = acc as int;
            lemma_tail_ends(in_shape@);
            lemma_source_bound(in_shape@, out_shape@, begins@, strides@, p as int, 0);
            lemma_tail_positive(in_shape@, d as int);
            assert(0 <= i * t + rest < s * t && i * t >= 0 && s * t == tail(in_shape@, d as int)) by (nonlinear_arith)
                requires
                    0 <= i < s,
                    0 <= rest < t,
                    tail(in_shape@, d as int) == s * t,
            ;
            assert(s * t == mult * in_shape@[d as int]) by (nonlinear_arith)
                requires
                    mult == t,
                    s == in_shape@[d as int],
            ;
        }
        acc = index * mult + acc;
        mult = mult * in_shape[d];
    }
    acc
}

/// Reads `input` axis by axis: the result has the shape `out_shape`, and
/// its element at the index `c` is the element of `input` at the index
/// `begins + c * strides`. Where some index to read lies outside the input,
/// or the result would hold more elements than can be counted, nothing is
/// read.
pub fn gather(input: &Tensor, out_shape: Vec<usize>, begins: &Vec<i64>, strides: &Vec<i64>) -> (r: Result<
    Tensor,
    TractError,
>)
    ensures
        window_fits(input@.dims, out_shape@, begins@, strides@) && numel(out_shape@) <= usize::MAX ==> r is Ok
            && r->Ok_0@ == (TensorValue {
            dt: input@.dt,
            dims: out_shape@,
            items: gathered(input@.items, input@.dims, out_shape@, begins@, strides@),
        }),
        !(window_fits(input@.dims, out_shape@, begins@, strides@) && numel(out_shape@) <= usize::MAX) ==> r == Err::<
            Tensor,
            TractError,
        >(TractError::EvalError),
{
    let in_shape = input.shape();
    let items = input.data();
    let count = items.len();
    if !fits(in_shape, &out_shape, begins, strides) {
        return Err(TractError::EvalError);
    }
    let total = match shape_len(&out_shape) {
        Some(n) => n,
        None => {
            return Err(TractError::EvalError);
        },
    };
    let mut data: Vec<i64> = Vec::new();
    let mut p: usize = 0;
    while p < total
        invariant
            p <= total,
            total == numel(out_shape@),
            in_shape@ == input@.dims,
            items@ == input@.items,
            numel(in_shape@) == items@.len(),
            count == items@.len(),
            window_fits(in_shape@, out_shape@, begins@, strides@),
            data@.len() == p,
            forall|q: int| 0 <= q < p ==> data@[q] == items@[source(in_shape@, out_shape@, begins@, strides@, q, 0)],
        decreases total - p,
    {
        let s = source_of(in_shape, &out_shape, begins, strides, p);
        data.push(items[s]);
        p += 1;
    }
    proof {
        assert(data@ =~= gathered(input@.items, input@.dims, out_shape@, begins@, strides@));
    }
    Tensor::new(input.datum_type(), out_shape, data)
}

} // verus!
