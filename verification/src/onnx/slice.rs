//! The slice of the exchange format: along each axis named, the elements
//! from a start up to an end. A negative bound counts from the end of the
//! axis. As in every slicing operator of the library, a bound that lies
//! outside the axis stands for the nearest edge of the axis.

use vstd::prelude::*;
use crate::array::{along, gather, gathered, window_fits};
use crate::dim::TDim;
use crate::errors::TractError;
use crate::ops::slice::lemma_numel_monotone;
use crate::solver::{in0, out0, Rule, Slot};
use crate::tensor::{numel, Tensor, TensorValue};

verus! {

/// The slice between `starts` and `ends`. Bound number `ix` speaks of the
/// axis `axes[ix]`, or of axis `ix` where no axes are named.
#[derive(Debug)]
pub struct Slice {
    pub axes: Option<Vec<usize>>,
    pub starts: Vec<isize>,
    pub ends: Vec<isize>,
}

/// A bound as an index from the start of an axis of the size `dim`: a
/// negative bound counts from the end, and a bound that lies outside the
/// axis is the nearest edge of the axis.
pub open spec fn from_start(bound: int, dim: int) -> int {
    if bound > dim {
        dim
    } else if bound >= 0 {
        bound
    } else if bound + dim >= 0 {
        bound + dim
    } else {
        0
    }
}

/// What is read along one axis of the size `dim`: the first index and the
/// number of elements, none where the end comes before the start.
pub open spec fn axis_window(b: int, e: int, dim: int) -> (int, int) {
    let start = from_start(b, dim);
    let end = from_start(e, dim);
    (
        start,
        if end >= start {
            end - start
        } else {
            0
        },
    )
}

/// The first index read along each axis, for a slice along one axis.
pub open spec fn one_first(rank: nat, axis: int, start: int) -> Seq<i64> {
    Seq::new(
        rank,
        |d: int|
            if d == axis {
                start as i64
            } else {
                0i64
            },
    )
}

/// What is left of `input` once axis `axis` is cut to the elements from
/// `b` up to `e`.
pub open spec fn cut_axis(input: TensorValue, axis: int, b: int, e: int) -> Option<TensorValue> {
    if 0 <= axis < input.dims.len() {
        let (start, len) = axis_window(b, e, input.dims[axis] as int);
        if start <= i64::MAX {
            Some(
                TensorValue {
                    dt: input.dt,
                    dims: input.dims.update(axis, len as usize),
                    items: gathered(
                        input.items,
                        input.dims,
                        input.dims.update(axis, len as usize),
                        one_first(input.dims.len(), axis, start),
                        Seq::new(input.dims.len(), |d: int| 1i64),
                    ),
                },
            )
        } else {
            None
        }
    } else {
        None
    }
}

impl Slice {
    pub fn new(axes: Option<Vec<usize>>, starts: Vec<isize>, ends: Vec<isize>) -> (r: Slice)
        ensures
            r.axes == axes,
            r.starts == starts,
            r.ends == ends,
    {
        Slice { axes, starts, ends }
    }

    /// The axis that bound number `ix` speaks of, where it names one.
    pub open spec fn axis_of(self, ix: int) -> Option<usize> {
        match self.axes {
            Some(a) => if ix < a@.len() {
                Some(a@[ix])
            } else {
                None
            },
            None => Some(ix as usize),
        }
    }

    /// How many pairs of bounds there are.
    pub open spec fn pairs(self) -> nat {
        if self.starts@.len() <= self.ends@.len() {
            self.starts@.len()
        } else {
            self.ends@.len()
        }
    }

    /// What is left of `input` after the first `upto` pairs of bounds were
    /// applied, one after the other.
    pub open spec fn sliced_upto(self, input: TensorValue, upto: nat) -> Option<TensorValue>
        decreases upto,
    {
        if upto == 0 {
            Some(input)
        } else {
            match (self.sliced_upto(input, (upto - 1) as nat), self.axis_of(upto - 1)) {
                (Some(t), Some(axis)) => cut_axis(t, axis as int, self.starts@[upto - 1] as int, self.ends@[upto - 1] as int),
                _ => None,
            }
        }
    }

    /// A bound as an index from the start of an axis: see `from_start`.
    fn index_of(bound: isize, dim: i128) -> (r: i128)
        requires
            0 <= dim <= usize::MAX,
        ensures
            r == from_start(bound as int, dim as int),
            0 <= r <= dim,
    {
        if bound as i128 > dim {
            dim
        } else if bound >= 0 {
            bound as i128
        } else if bound as i128 + dim >= 0 {
            bound as i128 + dim
        } else {
            0
        }
    }

    /// Cuts one axis of `input` to the elements from `b` up to `e`.
    fn slice_axis(input: &Tensor, axis: usize, b: isize, e: isize) -> (r: Result<Tensor, TractError>)
        ensures
            match cut_axis(input@, axis as int, b as int, e as int) {
                Some(v) => r is Ok && r->Ok_0@ == v,
                None => r is Err && r->Err_0 == TractError::EvalError,
            },
    {
        let shape = input.shape();
        let count = input.len();
        if axis >= shape.len() {
            return Err(TractError::EvalError);
        }
        let dim: i128 = shape[axis] as i128;
        let start: i128 = Self::index_of(b, dim);
        let end: i128 = Self::index_of(e, dim);
        if start > i64::MAX as i128 {
            return Err(TractError::EvalError);
        }
        let len: usize = if end >= start {
            (end - start) as usize
        } else {
            0
        };
        let mut out: Vec<usize> = Vec::new();
        let mut firsts: Vec<i64> = Vec::new();
        let mut steps: Vec<i64> = Vec::new();
        let mut d: usize = 0;
        while d < shape.len()
            invariant
                d <= shape.len(),
                axis < shape@.len(),
                out@ == shape@.update(axis as int, len).take(d as int),
                firsts@ == one_first(d as nat, axis as int, start as int),
                steps@ == Seq::new(d as nat, |k: int| 1i64),
            decreases shape.len() - d,
        {
            if d == axis {
                out.push(len);
                firsts.push(start as i64);
            } else {
                out.push(shape[d]);
                firsts.push(0);
            }
            steps.push(1);
            d += 1;
            proof {
                assert(out@ =~= shape@.update(axis as int, len).take(d as int));
                assert(firsts@ =~= one_first(d as nat, axis as int, start as int));
                assert(steps@ =~= Seq::new(d as nat, |k: int| 1i64));
            }
        }
        proof {
            let want = shape@.update(axis as int, len);
            assert(want.take(shape@.len() as int) =~= want);
            assert forall|k: int, c: int| 0 <= k < want.len() && 0 <= c < want[k] implies 0 <= #[trigger] along(
                firsts@[k],
                steps@[k],
                c,
            ) < shape@[k] by {}
            assert forall|k: int| 0 <= k < want.len() implies want[k] <= shape@[k] by {}
            lemma_numel_monotone(want, shape@);
        }
        gather(input, out, &firsts, &steps)
    }

    /// Evaluates the slice of `input`: the pairs of bounds are applied one
    /// after the other. It fails where a pair names no axis of the input.
    pub fn eval_slice(&self, input: &Tensor) -> (r: Result<Tensor, TractError>)
        ensures
            match self.sliced_upto(input@, self.pairs()) {
                Some(v) => r is Ok && r->Ok_0@ == v,
                None => r is Err && r->Err_0 == TractError::EvalError,
            },
    {
        let pairs = if self.starts.len() <= self.ends.len() {
            self.starts.len()
        } else {
            self.ends.len()
        };
        let mut current = input.clone();
        let mut ix: usize = 0;
        while ix < pairs
            invariant
                ix <= pairs,
                pairs == self.pairs(),
                self.sliced_upto(input@, ix as nat) == Some(current@),
            decreases pairs - ix,
        {
            let axis = match &self.axes {
                Some(a) => {
                    if ix < a.len() {
                        a[ix]
                    } else {
                        proof {
                            self.lemma_sliced_fails(input@, (ix + 1) as nat, pairs as nat);
                        }
                        return Err(TractError::EvalError);
                    }
                },
                None => ix,
            };
            match Self::slice_axis(&current, axis, self.starts[ix], self.ends[ix]) {
                Ok(t) => {
                    current = t;
                },
                Err(e) => {
                    proof {
                        self.lemma_sliced_fails(input@, (ix + 1) as nat, pairs as nat);
                    }
                    return Err(e);
                },
            }
            ix += 1;
        }
        Ok(current)
    }

    /// A slice that fails after some pairs of bounds has failed.
    proof fn lemma_sliced_fails(self, input: TensorValue, k: nat, n: nat)
        requires
            k <= n,
            self.sliced_upto(input, k) is None,
        ensures
            self.sliced_upto(input, n) is None,
        decreases n - k,
    {
        if k < n {
            self.lemma_sliced_fails(input, k, (n - 1) as nat);
        }
    }

    /// The rule for pair number `ix` of bounds: the size of axis `ix` of
    /// the output is `e - b`, each bound counted from the end of the axis
    /// of the input where it is negative.
    pub open spec fn pair_rule(self, ix: int) -> Rule {
        let b = self.starts@[ix];
        let e = self.ends@[ix];
        Rule::Affine {
            target: out0(),
            axis: ix as usize,
            coef: ((if e < 0 {
                1int
            } else {
                0int
            }) - (if b < 0 {
                1int
            } else {
                0int
            })) as i64,
            source: in0(),
            source_axis: ix as usize,
            offset: TDim { slope: 0, offset: (e - b) as i64 },
        }
    }

    /// The rules of the slice: the rank of the input is the number of
    /// starts and the number of ends; the output has the rank and the
    /// element type of the input; each pair of bounds gives the size of an
    /// axis of the output.
    pub open spec fn slice_rules(self) -> Seq<Rule> {
        seq![
            Rule::RankIs(in0(), self.starts@.len() as usize),
            Rule::RankIs(in0(), self.ends@.len() as usize),
            Rule::SameRank(in0(), out0()),
            Rule::SameType(in0(), out0()),
        ] + Seq::new(self.pairs(), |ix: int| self.pair_rule(ix))
    }

    /// Every difference of an end and a start fits a dimension.
    pub open spec fn measurable(self) -> bool {
        forall|ix: int| 0 <= ix < self.pairs() ==> i64::MIN <= #[trigger] self.ends@[ix] - self.starts@[ix] <= i64::MAX
    }

    /// The rules of the slice for an operator with this many inputs and
    /// outputs: see `slice_rules`. It wants one input and one output. A
    /// difference of bounds that does not fit a dimension is refused.
    pub fn rules(&self, n_inputs: usize, n_outputs: usize) -> (r: Result<Vec<Rule>, TractError>)
        ensures
            n_inputs == 1 && n_outputs == 1 && self.measurable() ==> r is Ok && r->Ok_0@ == self.slice_rules(),
            n_inputs == 1 && n_outputs == 1 && !self.measurable() ==> r is Err && r->Err_0 == TractError::EvalError,
            !(n_inputs == 1 && n_outputs == 1) ==> r is Err && r->Err_0 == TractError::MalformedGraph,
    {
        if n_inputs != 1 || n_outputs != 1 {
            return Err(TractError::MalformedGraph);
        }
        let i = Slot::input(0);
        let o = Slot::output(0);
        let mut out: Vec<Rule> = Vec::new();
        out.push(Rule::RankIs(i, self.starts.len()));
        out.push(Rule::RankIs(i, self.ends.len()));
        out.push(Rule::SameRank(i, o));
        out.push(Rule::SameType(i, o));
        let ghost head = out@;
        proof {
            assert(head =~= seq![
                Rule::RankIs(in0(), self.starts@.len() as usize),
                Rule::RankIs(in0(), self.ends@.len() as usize),
                Rule::SameRank(in0(), out0()),
                Rule::SameType(in0(), out0()),
            ]);
        }
        let pairs = if self.starts.len() <= self.ends.len() {
            self.starts.len()
        } else {
            self.ends.len()
        };
        let mut ix: usize = 0;
        while ix < pairs
            invariant
                ix <= pairs,
                pairs == self.pairs(),
                n_inputs == 1,
                n_outputs == 1,
                i == in0(),
                o == out0(),
                out@.len() == head.len() + ix,
                forall|k: int| 0 <= k < ix ==> i64::MIN <= #[trigger] self.ends@[k] - self.starts@[k] <= i64::MAX,
                forall|k: int| 0 <= k < head.len() ==> out@[k] == head[k],
                forall|k: int| 0 <= k < ix ==> out@[head.len() + k] == self.pair_rule(k),
            decreases pairs - ix,
        {
            let b = self.starts[ix];
            let e = self.ends[ix];
            let up: i64 = if e < 0 {
                1
            } else {
                0
            };
            let down: i64 = if b < 0 {
                1
            } else {
                0
            };
            let wide: i128 = e as i128 - b as i128;
            if wide < i64::MIN as i128 || wide > i64::MAX as i128 {
                proof {
                    assert(!(i64::MIN <= self.ends@[ix as int] - self.starts@[ix as int] <= i64::MAX));
                }
                return Err(TractError::EvalError);
            }
            let diff: i64 = wide as i64;
            out.push(
                Rule::Affine {
                    target: o,
                    axis: ix,
                    coef: up - down,
                    source: i,
                    source_axis: ix,
                    offset: TDim::constant(diff),
                },
            );
            ix += 1;
        }
        proof {
            assert(out@ =~= self.slice_rules()) by {
                assert forall|k: int| 0 <= k < out@.len() implies out@[k] == self.slice_rules()[k] by {
                    if k >= head.len() {
                        assert(out@[head.len() + (k - head.len())] == self.pair_rule(k - head.len()));
                    }
                }
            }
        }
        Ok(out)
    }
}

} // verus!
