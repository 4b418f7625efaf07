//! Reshape: the elements of the input under another shape. One of the
//! wanted sizes may be -1: it is then what is left of the elements.

use vstd::prelude::*;
use crate::dim::TDim;
use crate::errors::TractError;
use crate::facts::ValueFact;
use crate::solver::{in0, input, out0, Cont, Facts, FactsValue, Rule, Slot};
use crate::tensor::{i32s_of, numel, shape_len, DatumType, Tensor, TensorValue};

verus! {

/// Reshape of tensors of the element type `dt`.
#[derive(Debug, Clone, Copy, PartialEq, Eq, Structural)]
pub struct Reshape {
    pub dt: DatumType,
}

/// The reshape of tensors of the element type `dt`, as an operator.
pub fn reshape(dt: DatumType) -> (r: Result<crate::ops::Op, TractError>)
    ensures
        r == Ok::<crate::ops::Op, TractError>(crate::ops::Op::Reshape(Reshape { dt })),
{
    Ok(crate::ops::Op::Reshape(Reshape { dt }))
}

/// The wanted sizes with 1 in the place of each -1.
pub open spec fn fixed(dims: Seq<i32>) -> Seq<usize> {
    Seq::new(
        dims.len(),
        |i: int|
            if dims[i] == -1 {
                1usize
            } else {
                dims[i] as usize
            },
    )
}

/// The shape that `dims` asks for, for an input of `len` elements: each
/// -1 is replaced by `len` divided by the product of the other sizes. It is
/// undefined for a size below -1, for a product that cannot be counted,
/// and where a -1 stands beside a size of 0.
pub open spec fn wanted(dims: Seq<i32>, len: nat) -> Option<Seq<usize>> {
    if (forall|i: int| 0 <= i < dims.len() ==> #[trigger] dims[i] >= -1) && numel(fixed(dims)) <= usize::MAX && ((
    exists|i: int| 0 <= i < dims.len() && #[trigger] dims[i] == -1) ==> numel(fixed(dims)) > 0) {
        Some(
            Seq::new(
                dims.len(),
                |i: int|
                    if dims[i] == -1 {
                        (len / numel(fixed(dims))) as usize
                    } else {
                        dims[i] as usize
                    },
            ),
        )
    } else {
        None
    }
}

/// What the reshape of `input` to `dims` is: defined where `dims` is a
/// list of 32-bit integers that asks for a shape, and the shape holds as
/// many elements as the input.
pub open spec fn reshaped(input: TensorValue, dims: TensorValue) -> Option<TensorValue> {
    match i32s_of(dims) {
        Some(d) => match wanted(d, input.items.len()) {
            Some(shape) => if numel(shape) == input.items.len() {
                Some(TensorValue { dims: shape, ..input })
            } else {
                None
            },
            None => None,
        },
        None => None,
    }
}

/// The rules of a reshape of element type `dt`: input and output have the
/// type `dt`; the wanted sizes are a list of 32-bit integers; once the
/// shape of the input and the wanted sizes are known, the shape of the
/// output is.
pub open spec fn reshape_rules(dt: DatumType) -> Seq<Rule> {
    seq![
        Rule::TypeIs(in0(), dt),
        Rule::TypeIs(input(1), DatumType::I32),
        Rule::TypeIs(out0(), dt),
        Rule::RankIs(input(1), 1),
        Rule::Given(Cont::Reshape),
    ]
}

/// The sizes of `shape` where none depends on the stream and none is
/// negative.
pub open spec fn plain_sizes(shape: Seq<TDim>) -> Option<Seq<usize>> {
    if forall|i: int| 0 <= i < shape.len() ==> (#[trigger] shape[i]).slope == 0 && 0 <= shape[i].offset <= usize::MAX {
        Some(Seq::new(shape.len(), |i: int| shape[i].offset as usize))
    } else {
        None
    }
}

/// The rules that fix the shape of the first output at `shape`.
pub open spec fn shape_rules(shape: Seq<usize>) -> Seq<Rule> {
    seq![Rule::RankIs(out0(), shape.len() as usize)] + Seq::new(
        shape.len(),
        |i: int| Rule::DimIs(out0(), i as usize, TDim { slope: 0, offset: shape[i] as i64 }),
    )
}

/// What the conditional rule of a reshape states: nothing before the shape
/// of the input and the wanted sizes are known; nothing either for a shape
/// that depends on the stream; else the shape of the output. It fails
/// where the wanted sizes ask for no shape.
pub open spec fn reshape_expansion(f: FactsValue) -> Option<Result<Seq<Rule>, TractError>> {
    if f.inputs.len() < 2 {
        Some(Err(TractError::MalformedGraph))
    } else {
        match (f.inputs[0].shape.concrete(), f.inputs[1].value) {
            (Some(shape), Some(dims)) => if exists|i: int| 0 <= i < shape.len() && (#[trigger] shape[i]).slope != 0 {
                Some(Ok(Seq::empty()))
            } else {
                match (plain_sizes(shape), i32s_of(dims)) {
                    (Some(sizes), Some(d)) => if numel(sizes) <= usize::MAX {
                        match wanted(d, numel(sizes)) {
                            Some(w) => if forall|i: int| 0 <= i < w.len() ==> #[trigger] w[i] <= i64::MAX {
                                Some(Ok(shape_rules(w)))
                            } else {
                                Some(Err(TractError::EvalError))
                            },
                            None => Some(Err(TractError::EvalError)),
                        }
                    } else {
                        Some(Err(TractError::EvalError))
                    },
                    _ => Some(Err(TractError::EvalError)),
                }
            },
            _ => None,
        }
    }
}

/// The rules that fix the shape of the first output at `shape`. A size
/// that is too large for a dimension is refused.
pub fn rules_for_shape(shape: &Vec<usize>) -> (r: Result<Vec<Rule>, TractError>)
    ensures
        (forall|i: int| 0 <= i < shape@.len() ==> #[trigger] shape@[i] <= i64::MAX) ==> r is Ok && r->Ok_0@
            == shape_rules(shape@),
        !(forall|i: int| 0 <= i < shape@.len() ==> #[trigger] shape@[i] <= i64::MAX) ==> r is Err && r->Err_0
            == TractError::EvalError,
{
    let o = Slot::output(0);
    let mut out: Vec<Rule> = Vec::new();
    out.push(Rule::RankIs(o, shape.len()));
    let mut i: usize = 0;
    while i < shape.len()
        invariant
            i <= shape.len(),
            o == out0(),
            forall|k: int| 0 <= k < i ==> #[trigger] shape@[k] <= i64::MAX,
            out@.len() == i + 1,
            forall|k: int| 0 <= k < i + 1 ==> out@[k] == shape_rules(shape@)[k],
        decreases shape.len() - i,
    {
        match TDim::from_usize(shape[i]) {
            Some(d) => {
                out.push(Rule::DimIs(o, i, d));
            },
            None => {
                return Err(TractError::EvalError);
            },
        }
        i += 1;
    }
    proof {
        assert(out@ =~= shape_rules(shape@));
    }
    Ok(out)
}

impl Reshape {
    pub fn new(dt: DatumType) -> (r: Reshape)
        ensures
            r.dt == dt,
    {
        Reshape { dt }
    }

    /// Computes a vector of dimensions from the `dims` input. This is
    /// needed because `dims` might contain some -1 indices, in which case
    /// we need to infer the value for that index.
    pub fn true_dims(dims: &Vec<i32>, input_length: usize) -> (r: Result<Vec<usize>, TractError>)
        ensures
            match wanted(dims@, input_length as nat) {
                Some(w) => r is Ok && r->Ok_0@ == w,
                None => r is Err && r->Err_0 == TractError::EvalError,
            },
    {
        let mut plain: Vec<usize> = Vec::new();
        let mut free = false;
        let mut i: usize = 0;
        while i < dims.len()
            invariant
                i <= dims.len(),
                forall|k: int| 0 <= k < i ==> #[trigger] dims@[k] >= -1,
                free == (exists|k: int| 0 <= k < i && #[trigger] dims@[k] == -1),
                plain@ == fixed(dims@.take(i as int)),
            decreases dims.len() - i,
        {
            let a = dims[i];
            if a < -1 {
                return Err(TractError::EvalError);
            }
            if a == -1 {
                free = true;
                plain.push(1);
            } else {
                plain.push(a as usize);
            }
            i += 1;
            proof {
                assert(plain@ =~= fixed(dims@.take(i as int)));
                if a == -1 {
                    assert(dims@[i - 1] == -1);
                }
            }
        }
        proof {
            assert(dims@.take(dims@.len() as int) =~= dims@);
        }
        let prod = match shape_len(&plain) {
            Some(p) => p,
            None => {
                return Err(TractError::EvalError);
            },
        };
        if free && prod == 0 {
            return Err(TractError::EvalError);
        }
        let mut out: Vec<usize> = Vec::new();
        let mut j: usize = 0;
        while j < dims.len()
            invariant
                j <= dims.len(),
                wanted(dims@, input_length as nat) is Some,
                prod == numel(fixed(dims@)),
                free ==> prod > 0,
                free == (exists|k: int| 0 <= k < dims@.len() && #[trigger] dims@[k] == -1),
                out@.len() == j,
                forall|k: int| 0 <= k < j ==> out@[k] == wanted(dims@, input_length as nat).unwrap()[k],
            decreases dims.len() - j,
        {
            let a = dims[j];
            if a == -1 {
                out.push(input_length / prod);
            } else {
                out.push(a as usize);
            }
            j += 1;
        }
        proof {
            assert(out@ =~= wanted(dims@, input_length as nat).unwrap());
        }
        Ok(out)
    }

    /// Evaluates the reshape of `input` to the shape that `dims` asks for:
    /// see `reshaped`.
    pub fn eval_reshape(&self, input: &Tensor, dims: &Tensor) -> (r: Result<Tensor, TractError>)
        ensures
            match reshaped(input@, dims@) {
                Some(v) => r is Ok && r->Ok_0@ == v,
                None => r == Err::<Tensor, TractError>(TractError::EvalError),
            },
    {
        let d = match dims.to_i32s() {
            Ok(d) => d,
            Err(e) => {
                return Err(e);
            },
        };
        let shape = match Self::true_dims(&d, input.len()) {
            Ok(s) => s,
            Err(e) => {
                return Err(e);
            },
        };
        input.clone().into_shape(shape)
    }

    /// The rules of the reshape for an operator with this many inputs and
    /// outputs: see `reshape_rules`. It wants two inputs and one output.
    pub fn rules(&self, n_inputs: usize, n_outputs: usize) -> (r: Result<Vec<Rule>, TractError>)
        ensures
            n_inputs == 2 && n_outputs == 1 ==> r is Ok && r->Ok_0@ == reshape_rules(self.dt),
            !(n_inputs == 2 && n_outputs == 1) ==> r is Err && r->Err_0 == TractError::MalformedGraph,
    {
        if n_inputs != 2 || n_outputs != 1 {
            return Err(TractError::MalformedGraph);
        }
        let mut out: Vec<Rule> = Vec::new();
        out.push(Rule::TypeIs(Slot::input(0), self.dt));
        out.push(Rule::TypeIs(Slot::input(1), DatumType::I32));
        out.push(Rule::TypeIs(Slot::output(0), self.dt));
        out.push(Rule::RankIs(Slot::input(1), 1));
        out.push(Rule::Given(Cont::Reshape));
        proof {
            assert(out@ =~= reshape_rules(self.dt));
        }
        Ok(out)
    }
}

/// States what the conditional rule of a reshape has to state, if the
/// shape of the input and the wanted sizes are known: see
/// `reshape_expansion`.
#[verifier::loop_isolation(false)]
pub fn expand(f: &Facts) -> (r: Result<Option<Vec<Rule>>, TractError>)
    ensures
        match reshape_expansion(f@) {
            None => r is Ok && r->Ok_0 is None,
            Some(Ok(rules)) => r is Ok && r->Ok_0 is Some && r->Ok_0->Some_0@ == rules,
            Some(Err(e)) => r is Err && r->Err_0 == e,
        },
{
    if f.inputs.len() < 2 {
        return Err(TractError::MalformedGraph);
    }
    let shape = match f.inputs[0].shape.concrete() {
        Some(s) => s,
        None => {
            return Ok(None);
        },
    };
    let dims = match &f.inputs[1].value {
        ValueFact::Only(t) => t,
        ValueFact::Any => {
            return Ok(None);
        },
    };
    let mut i: usize = 0;
    while i < shape.len()
        invariant
            i <= shape.len(),
            forall|k: int| 0 <= k < i ==> (#[trigger] shape@[k]).slope == 0,
        decreases shape.len() - i,
    {
        if shape[i].is_stream() {
            return Ok(Some(Vec::new()));
        }
        i += 1;
    }
    let mut sizes: Vec<usize> = Vec::new();
    let mut k: usize = 0;
    while k < shape.len()
        invariant
            k <= shape.len(),
            forall|j: int| 0 <= j < k ==> (#[trigger] shape@[j]).slope == 0 && 0 <= shape@[j].offset <= usize::MAX,
            sizes@ == Seq::new(k as nat, |j: int| shape@[j].offset as usize),
        decreases shape.len() - k,
    {
        let c = shape[k].offset;
        if c < 0 || c as u64 > usize::MAX as u64 {
            proof {
                assert(!(0 <= shape@[k as int].offset <= usize::MAX));
            }
            return Err(TractError::EvalError);
        }
        sizes.push(c as usize);
        k += 1;
        proof {
            assert(sizes@ =~= Seq::new(k as nat, |j: int| shape@[j].offset as usize));
        }
    }
    proof {
        assert(plain_sizes(shape@) == Some(sizes@));
    }
    let d = match dims.to_i32s() {
        Ok(d) => d,
        Err(e) => {
            return Err(e);
        },
    };
    let len = match shape_len(&sizes) {
        Some(n) => n,
        None => {
            return Err(TractError::EvalError);
        },
    };
    let w = match Reshape::true_dims(&d, len) {
        Ok(w) => w,
        Err(e) => {
            return Err(e);
        },
    };
    match rules_for_shape(&w) {
        Ok(rules) => Ok(Some(rules)),
        Err(e) => Err(e),
    }
}

} // verus!
