//! The inference solver. An operator states rules over what is known of
//! its inputs and outputs: equalities between two unknowns, or between an
//! unknown and a value, and conditional rules that state more once
//! something they wait for is known. The solver applies the rules pass
//! after pass until a pass changes nothing, or as many passes as it is
//! allowed. What is known only grows; two different exact values for one
//! unknown are a contradiction, which ends the solving.

use vstd::prelude::*;
use crate::dim::TDim;
use crate::errors::TractError;
use crate::facts::{unified_values, DimFact, FactValue, ShapeFact, ShapeValue, TensorFact, TypeFact, ValueFact};
use crate::tensor::DatumType;
use crate::tf::strided_slice::BaseStridedSlice;

verus! {

/// One of the tensors of an operator: input or output number `index`.
#[derive(Clone, Copy, Debug, PartialEq, Eq, Structural)]
pub struct Slot {
    pub output: bool,
    pub index: usize,
}

/// Input number `i`.
pub open spec fn input(i: usize) -> Slot {
    Slot { output: false, index: i }
}

/// The first input.
pub open spec fn in0() -> Slot {
    Slot { output: false, index: 0 }
}

/// The first output.
pub open spec fn out0() -> Slot {
    Slot { output: true, index: 0 }
}

impl Slot {
    /// Input number `i`.
    pub fn input(i: usize) -> (r: Slot)
        ensures
            r == input(i),
    {
        Slot { output: false, index: i }
    }

    /// Output number `i`.
    pub fn output(i: usize) -> (r: Slot)
        ensures
            r == (Slot { output: true, index: i }),
    {
        Slot { output: true, index: i }
    }
}

/// What a conditional rule states once what it waits for is known. Each
/// variant says in the module of its operator what it waits for and what
/// it states then.
#[derive(Clone, Copy, Debug, PartialEq, Eq, Structural)]
pub enum Cont {
    /// Global pooling, once the rank of the input is known.
    PoolAxes,
    /// Concatenation of this many inputs, once the axis is known.
    ConcatAxis(usize),
    /// Concatenation of this many inputs along this axis, once the rank of
    /// the first input is known.
    ConcatTail(usize, usize),
    /// Reshape, once the shape of the input and the wanted sizes are known.
    Reshape,
    /// Strided slice, once the shape of the input and the three constants
    /// are known.
    StridedSlice(BaseStridedSlice),
}

/// A rule over the facts of one operator.
#[derive(Clone, Copy, Debug, PartialEq, Eq, Structural)]
pub enum Rule {
    /// The element type of a tensor is this one.
    TypeIs(Slot, DatumType),
    /// Two tensors have the same element type.
    SameType(Slot, Slot),
    /// The rank of a tensor is this one.
    RankIs(Slot, usize),
    /// Two tensors have the same rank.
    SameRank(Slot, Slot),
    /// An axis of a tensor has this size.
    DimIs(Slot, usize, TDim),
    /// An axis of a tensor and an axis of another have the same size.
    SameDim(Slot, usize, Slot, usize),
    /// The size of axis `axis` of `target` is `coef` times the size of axis
    /// `source_axis` of `source`, plus `offset`.
    Affine { target: Slot, axis: usize, coef: i64, source: Slot, source_axis: usize, offset: TDim },
    /// The size of axis `axis` of the first output is the sum of the sizes
    /// of that axis of the first `n` inputs. Whichever of these sizes is
    /// the one not known is found from the others.
    SumDims { n: usize, axis: usize },
    /// Two tensors have the same shape.
    SameShape(Slot, Slot),
    /// Two tensors have the same constant value, if either is constant.
    SameValue(Slot, Slot),
    /// A conditional rule.
    Given(Cont),
    /// A conditional rule that has stated what it had to.
    Used,
}

/// What is known of the inputs and of the outputs of one operator.
#[derive(Debug)]
pub struct Facts {
    pub inputs: Vec<TensorFact>,
    pub outputs: Vec<TensorFact>,
}

/// What the facts of an operator say.
pub struct FactsValue {
    pub inputs: Seq<FactValue>,
    pub outputs: Seq<FactValue>,
}

impl View for Facts {
    type V = FactsValue;

    open spec fn view(&self) -> FactsValue {
        FactsValue {
            inputs: Seq::new(self.inputs@.len(), |i: int| self.inputs@[i]@),
            outputs: Seq::new(self.outputs@.len(), |i: int| self.outputs@[i]@),
        }
    }
}

/// `coef` times `x`, plus `offset`, where that fits a dimension.
pub open spec fn affine(x: TDim, coef: i64, offset: TDim) -> Option<TDim> {
    match TDim::fitting(x.times(coef)) {
        Some(p) => TDim::fitting(p.plus(offset)),
        None => None,
    }
}

/// The `x` of which `y` is `coef` times it plus `offset`, for a `coef` of
/// 1 or -1, where it fits a dimension.
pub open spec fn unaffine(y: TDim, coef: i64, offset: TDim) -> Option<TDim> {
    match TDim::fitting(y.minus(offset)) {
        Some(p) => TDim::fitting(p.times(coef)),
        None => None,
    }
}

/// What is known of a sum of sizes: the sum of those that are known, if it
/// fits a dimension; how many are not known; and the place of the last of
/// those.
pub struct Partial {
    pub sum: Option<TDim>,
    pub missing: nat,
    pub last: int,
}

impl FactsValue {
    /// The tensor is one of the operator's.
    pub open spec fn has(self, s: Slot) -> bool {
        if s.output {
            s.index < self.outputs.len()
        } else {
            s.index < self.inputs.len()
        }
    }

    /// What is known of a tensor.
    pub open spec fn at(self, s: Slot) -> FactValue {
        if s.output {
            self.outputs[s.index as int]
        } else {
            self.inputs[s.index as int]
        }
    }

    /// The facts with `v` known of the tensor `s`.
    pub open spec fn put(self, s: Slot, v: FactValue) -> FactsValue {
        if s.output {
            FactsValue { inputs: self.inputs, outputs: self.outputs.update(s.index as int, v) }
        } else {
            FactsValue { inputs: self.inputs.update(s.index as int, v), outputs: self.outputs }
        }
    }

    /// The facts once the element type of `s` is known to be `t`.
    pub open spec fn typed(self, s: Slot, t: DatumType) -> Result<FactsValue, TractError> {
        if !self.has(s) {
            Err(TractError::MalformedGraph)
        } else {
            match self.at(s).datum_type.unified(TypeFact::Only(t)) {
                Some(u) => Ok(self.put(s, FactValue { datum_type: u, ..self.at(s) })),
                None => Err(TractError::InferenceContradiction),
            }
        }
    }

    /// The facts once the rank of `s` is known to be `r`.
    pub open spec fn ranked(self, s: Slot, r: nat) -> Result<FactsValue, TractError> {
        if !self.has(s) {
            Err(TractError::MalformedGraph)
        } else {
            match self.at(s).shape.with_rank(r) {
                Some(u) => Ok(self.put(s, FactValue { shape: u, ..self.at(s) })),
                None => Err(TractError::InferenceContradiction),
            }
        }
    }

    /// The facts once axis `axis` of `s` is known to have the size `d`.
    pub open spec fn sized(self, s: Slot, axis: nat, d: TDim) -> Result<FactsValue, TractError> {
        if !self.has(s) || axis >= usize::MAX {
            Err(TractError::MalformedGraph)
        } else {
            match self.at(s).shape.with_dim(axis, d) {
                Some(u) => Ok(self.put(s, FactValue { shape: u, ..self.at(s) })),
                None => Err(TractError::InferenceContradiction),
            }
        }
    }

    /// The facts once the value of `s` is known to be `v`.
    pub open spec fn valued(self, s: Slot, v: crate::tensor::TensorValue) -> Result<FactsValue, TractError> {
        if !self.has(s) {
            Err(TractError::MalformedGraph)
        } else {
            match unified_values(self.at(s).value, Some(v)) {
                Some(u) => Ok(self.put(s, FactValue { value: u, ..self.at(s) })),
                None => Err(TractError::InferenceContradiction),
            }
        }
    }

    /// What is known of the sum of the sizes of axis `axis` of the first
    /// `n` inputs.
    pub open spec fn dims_sum(self, n: nat, axis: int) -> Partial
        decreases n,
    {
        if n == 0 {
            Partial { sum: Some(TDim { slope: 0, offset: 0 }), missing: 0, last: -1 }
        } else {
            let p = self.dims_sum((n - 1) as nat, axis);
            match self.inputs[n - 1].shape.dim(axis) {
                DimFact::Only(d) => Partial {
                    sum: match p.sum {
                        Some(acc) => TDim::fitting(acc.plus(d)),
                        None => None,
                    },
                    ..p
                },
                DimFact::Any => Partial { missing: p.missing + 1, last: n - 1, ..p },
            }
        }
    }

    /// `self` says all that `other` says, tensor by tensor.
    pub open spec fn refines(self, other: FactsValue) -> bool {
        &&& self.inputs.len() == other.inputs.len()
        &&& self.outputs.len() == other.outputs.len()
        &&& forall|i: int| 0 <= i < self.inputs.len() ==> (#[trigger] self.inputs[i]).refines(other.inputs[i])
        &&& forall|i: int| 0 <= i < self.outputs.len() ==> (#[trigger] self.outputs[i]).refines(other.outputs[i])
    }
}

/// Copies of the facts of a list; known tensors are shared, not copied.
pub fn copy_facts(a: &Vec<TensorFact>) -> (r: Vec<TensorFact>)
    ensures
        r@.len() == a@.len(),
        forall|i: int| 0 <= i < r@.len() ==> (#[trigger] r@[i])@ == a@[i]@,
{
    let mut out: Vec<TensorFact> = Vec::new();
    let mut i: usize = 0;
    while i < a.len()
        invariant
            i <= a.len(),
            out@.len() == i,
            forall|k: int| 0 <= k < i ==> (#[trigger] out@[k])@ == a@[k]@,
        decreases a.len() - i,
    {
        out.push(a[i].duplicate());
        i += 1;
    }
    out
}

impl Facts {
    /// The facts of an operator with these inputs and outputs.
    pub fn new(inputs: Vec<TensorFact>, outputs: Vec<TensorFact>) -> (r: Facts)
        ensures
            r.inputs == inputs,
            r.outputs == outputs,
    {
        Facts { inputs, outputs }
    }

    /// A copy of the facts; known tensors are shared, not copied.
    pub fn duplicate(&self) -> (r: Facts)
        ensures
            r@ == self@,
    {
        let r = Facts { inputs: copy_facts(&self.inputs), outputs: copy_facts(&self.outputs) };
        proof {
            assert(r@.inputs =~= self@.inputs);
            assert(r@.outputs =~= self@.outputs);
        }
        r
    }

    /// What is known of the tensor `s`.
    pub fn fact(&self, s: Slot) -> (r: Option<&TensorFact>)
        ensures
            self@.has(s) ==> r is Some && r->Some_0@ == self@.at(s),
            !self@.has(s) ==> r is None,
    {
        if s.output {
            if s.index < self.outputs.len() {
                Some(&self.outputs[s.index])
            } else {
                None
            }
        } else if s.index < self.inputs.len() {
            Some(&self.inputs[s.index])
        } else {
            None
        }
    }

    /// Puts `fact` in the place of what is known of the tensor `s`.
    fn replace(&mut self, s: Slot, fact: TensorFact)
        requires
            old(self)@.has(s),
        ensures
            final(self)@ == old(self)@.put(s, fact@),
    {
        if s.output {
            self.outputs.set(s.index, fact);
            proof {
                assert(self@.outputs =~= old(self)@.outputs.update(s.index as int, fact@));
                assert(self@.inputs =~= old(self)@.inputs);
            }
        } else {
            self.inputs.set(s.index, fact);
            proof {
                assert(self@.inputs =~= old(self)@.inputs.update(s.index as int, fact@));
                assert(self@.outputs =~= old(self)@.outputs);
            }
        }
    }

    /// Notes that the element type of `s` is `t`, and tells whether that
    /// was news.
    pub fn set_type(&mut self, s: Slot, t: DatumType) -> (r: Result<bool, TractError>)
        ensures
            match old(self)@.typed(s, t) {
                Ok(v) => r is Ok && final(self)@ == v && r->Ok_0 == (v != old(self)@),
                Err(e) => r == Err::<bool, TractError>(e) && final(self)@ == old(self)@,
            },
    {
        let (datum_type, next) = match self.fact(s) {
            Some(f) => {
                match f.datum_type.unify(&TypeFact::Only(t)) {
                    Ok(u) => (f.datum_type, TensorFact { datum_type: u, shape: f.shape.duplicate(), value: f.value.duplicate() }),
                    Err(e) => {
                        return Err(e);
                    },
                }
            },
            None => {
                return Err(TractError::MalformedGraph);
            },
        };
        if next.datum_type == datum_type {
            proof {
                assert(old(self)@.put(s, next@).inputs =~= old(self)@.inputs);
                assert(old(self)@.put(s, next@).outputs =~= old(self)@.outputs);
            }
            return Ok(false);
        }
        self.replace(s, next);
        proof {
            assert(self@.at(s) != old(self)@.at(s));
        }
        Ok(true)
    }

    /// Notes that the rank of `s` is `r`, and tells whether that was news.
    pub fn set_rank(&mut self, s: Slot, rank: usize) -> (r: Result<bool, TractError>)
        ensures
            match old(self)@.ranked(s, rank as nat) {
                Ok(v) => r is Ok && final(self)@ == v && r->Ok_0 == (v != old(self)@),
                Err(e) => r == Err::<bool, TractError>(e) && final(self)@ == old(self)@,
            },
    {
        let (same, next) = match self.fact(s) {
            Some(f) => {
                match f.shape.with_rank(rank) {
                    Ok(u) => (
                        u.same(&f.shape),
                        TensorFact { datum_type: f.datum_type, shape: u, value: f.value.duplicate() },
                    ),
                    Err(e) => {
                        return Err(e);
                    },
                }
            },
            None => {
                return Err(TractError::MalformedGraph);
            },
        };
        if same {
            proof {
                assert(old(self)@.put(s, next@).inputs =~= old(self)@.inputs);
                assert(old(self)@.put(s, next@).outputs =~= old(self)@.outputs);
            }
            return Ok(false);
        }
        self.replace(s, next);
        proof {
            assert(self@.at(s) != old(self)@.at(s));
        }
        Ok(true)
    }

    /// Notes that axis `axis` of `s` has the size `d`, and tells whether
    /// that was news.
    pub fn set_dim(&mut self, s: Slot, axis: usize, d: TDim) -> (r: Result<bool, TractError>)
        ensures
            match old(self)@.sized(s, axis as nat, d) {
                Ok(v) => r is Ok && final(self)@ == v && r->Ok_0 == (v != old(self)@),
                Err(e) => r == Err::<bool, TractError>(e) && final(self)@ == old(self)@,
            },
    {
        if axis == usize::MAX {
            return Err(TractError::MalformedGraph);
        }
        let (same, next) = match self.fact(s) {
            Some(f) => {
                match f.shape.with_dim(axis, d) {
                    Ok(u) => (
                        u.same(&f.shape),
                        TensorFact { datum_type: f.datum_type, shape: u, value: f.value.duplicate() },
                    ),
                    Err(e) => {
                        return Err(e);
                    },
                }
            },
            None => {
                return Err(TractError::MalformedGraph);
            },
        };
        if same {
            proof {
                assert(old(self)@.put(s, next@).inputs =~= old(self)@.inputs);
                assert(old(self)@.put(s, next@).outputs =~= old(self)@.outputs);
            }
            return Ok(false);
        }
        self.replace(s, next);
        proof {
            assert(self@.at(s) != old(self)@.at(s));
        }
        Ok(true)
    }

    /// Notes that the value of `s` is `v`, and tells whether that was news.
    pub fn set_value(&mut self, s: Slot, v: &std::sync::Arc<crate::tensor::Tensor>) -> (r: Result<bool, TractError>)
        ensures
            match old(self)@.valued(s, v@) {
                Ok(f) => r is Ok && final(self)@ == f && r->Ok_0 == (f != old(self)@),
                Err(e) => r == Err::<bool, TractError>(e) && final(self)@ == old(self)@,
            },
    {
        let (news, next) = match self.fact(s) {
            Some(f) => {
                match &f.value {
                    ValueFact::Any => (
                        true,
                        TensorFact {
                            datum_type: f.datum_type,
                            shape: f.shape.duplicate(),
                            value: ValueFact::Only(crate::share::share(v)),
                        },
                    ),
                    ValueFact::Only(known) => {
                        if !known.same(v) {
                            return Err(TractError::InferenceContradiction);
                        }
                        (false, f.duplicate())
                    },
                }
            },
            None => {
                return Err(TractError::MalformedGraph);
            },
        };
        if !news {
            proof {
                assert(old(self)@.put(s, next@).inputs =~= old(self)@.inputs);
                assert(old(self)@.put(s, next@).outputs =~= old(self)@.outputs);
            }
            return Ok(false);
        }
        self.replace(s, next);
        proof {
            assert(self@.at(s) != old(self)@.at(s));
        }
        Ok(true)
    }

    /// What is known of the sum of the sizes of axis `axis` of the first
    /// `n` inputs: the sum of those that are known, if it fits; how many
    /// are not known; and the place of the last of those, if there is one.
    pub fn sum_dims(&self, n: usize, axis: usize) -> (r: (Option<TDim>, usize, usize))
        requires
            n <= self.inputs@.len(),
        ensures
            r.0 == self@.dims_sum(n as nat, axis as int).sum,
            r.1 == self@.dims_sum(n as nat, axis as int).missing,
            r.1 > 0 ==> r.2 == self@.dims_sum(n as nat, axis as int).last && r.2 < n,
    {
        let mut sum = Some(TDim::constant(0));
        let mut missing: usize = 0;
        let mut last: usize = 0;
        let mut i: usize = 0;
        while i < n
            invariant
                i <= n,
                n <= self.inputs@.len(),
                sum == self@.dims_sum(i as nat, axis as int).sum,
                missing == self@.dims_sum(i as nat, axis as int).missing,
                missing <= i,
                missing > 0 ==> last == self@.dims_sum(i as nat, axis as int).last && last < i,
            decreases n - i,
        {
            match self.inputs[i].shape.dim(axis) {
                DimFact::Only(d) => {
                    sum = match sum {
                        Some(acc) => acc.checked_add(&d),
                        None => None,
                    };
                },
                DimFact::Any => {
                    missing += 1;
                    last = i;
                },
            }
            i += 1;
        }
        (sum, missing, last)
    }
}

/// What a conditional rule states, given what is known: nothing yet
/// (`None`) while it waits, and then rules, or a failure to read what it
/// waited for.
pub open spec fn expansion(c: Cont, f: FactsValue) -> Option<Result<Seq<Rule>, TractError>> {
    match c {
        Cont::PoolAxes => crate::ops::global_pools::pool_expansion(f),
        Cont::ConcatAxis(n) => crate::tf::concatv2::axis_expansion(n, f),
        Cont::ConcatTail(n, axis) => crate::tf::concatv2::tail_expansion(n, axis, f),
        Cont::Reshape => crate::tf::reshape::reshape_expansion(f),
        Cont::StridedSlice(base) => crate::tf::strided_slice::slice_expansion(base, f),
    }
}

/// States what a conditional rule has to state, if what it waits for is
/// known: see `expansion`.
pub fn expand(c: Cont, f: &Facts) -> (r: Result<Option<Vec<Rule>>, TractError>)
    ensures
        match expansion(c, f@) {
            None => r is Ok && r->Ok_0 is None,
            Some(Ok(rules)) => r is Ok && r->Ok_0 is Some && r->Ok_0->Some_0@ == rules,
            Some(Err(e)) => r is Err && r->Err_0 == e,
        },
{
    match c {
        Cont::PoolAxes => crate::ops::global_pools::expand(f),
        Cont::ConcatAxis(n) => crate::tf::concatv2::expand_axis(n, f),
        Cont::ConcatTail(n, axis) => crate::tf::concatv2::expand_tail(n, axis, f),
        Cont::Reshape => crate::tf::reshape::expand(f),
        Cont::StridedSlice(base) => crate::tf::strided_slice::expand(&base, f),
    }
}

/// What applying one rule gives.
pub enum Step {
    /// A contradiction, or a rule that does not fit the operator.
    Fails(TractError),
    /// The facts after the rule; they are the facts before it where it had
    /// nothing new to say.
    Facts(FactsValue),
    /// A conditional rule has stated these rules, and is used.
    Fires(Seq<Rule>),
}

/// The facts, from a result.
pub open spec fn facts_step(r: Result<FactsValue, TractError>) -> Step {
    match r {
        Ok(f) => Step::Facts(f),
        Err(e) => Step::Fails(e),
    }
}

/// What applying the rule to the facts gives. An equality is read both
/// ways: whichever side is known is noted of the other.
pub open spec fn step(rule: Rule, f: FactsValue) -> Step {
    match rule {
        Rule::TypeIs(s, t) => facts_step(f.typed(s, t)),
        Rule::SameType(a, b) => if !f.has(a) || !f.has(b) {
            Step::Fails(TractError::MalformedGraph)
        } else {
            match (f.at(a).datum_type, f.at(b).datum_type) {
                (TypeFact::Only(x), _) => facts_step(f.typed(b, x)),
                (TypeFact::Any, TypeFact::Only(y)) => facts_step(f.typed(a, y)),
                (TypeFact::Any, TypeFact::Any) => Step::Facts(f),
            }
        },
        Rule::RankIs(s, r) => facts_step(f.ranked(s, r as nat)),
        Rule::SameRank(a, b) => if !f.has(a) || !f.has(b) {
            Step::Fails(TractError::MalformedGraph)
        } else if !f.at(a).shape.open {
            facts_step(f.ranked(b, f.at(a).shape.dims.len()))
        } else if !f.at(b).shape.open {
            facts_step(f.ranked(a, f.at(b).shape.dims.len()))
        } else {
            Step::Facts(f)
        },
        Rule::DimIs(s, axis, d) => facts_step(f.sized(s, axis as nat, d)),
        Rule::SameDim(a, ax, b, bx) => if !f.has(a) || !f.has(b) {
            Step::Fails(TractError::MalformedGraph)
        } else {
            match (f.at(a).shape.dim(ax as int), f.at(b).shape.dim(bx as int)) {
                (DimFact::Only(x), _) => facts_step(f.sized(b, bx as nat, x)),
                (DimFact::Any, DimFact::Only(y)) => facts_step(f.sized(a, ax as nat, y)),
                (DimFact::Any, DimFact::Any) => Step::Facts(f),
            }
        },
        Rule::Affine { target, axis, coef, source, source_axis, offset } => if !f.has(target) || !f.has(source) {
            Step::Fails(TractError::MalformedGraph)
        } else if coef == 0 {
            facts_step(f.sized(target, axis as nat, offset))
        } else {
            match (f.at(source).shape.dim(source_axis as int), f.at(target).shape.dim(axis as int)) {
                (DimFact::Only(x), _) => match affine(x, coef, offset) {
                    Some(y) => facts_step(f.sized(target, axis as nat, y)),
                    None => Step::Fails(TractError::EvalError),
                },
                (DimFact::Any, DimFact::Only(y)) => if coef == 1 || coef == -1 {
                    match unaffine(y, coef, offset) {
                        Some(x) => facts_step(f.sized(source, source_axis as nat, x)),
                        None => Step::Fails(TractError::EvalError),
                    }
                } else {
                    Step::Facts(f)
                },
                (DimFact::Any, DimFact::Any) => Step::Facts(f),
            }
        },
        Rule::SumDims { n, axis } => if n > f.inputs.len() || f.outputs.len() == 0 {
            Step::Fails(TractError::MalformedGraph)
        } else {
            let p = f.dims_sum(n as nat, axis as int);
            if p.missing == 0 {
                match p.sum {
                    Some(d) => facts_step(f.sized(out0(), axis as nat, d)),
                    None => Step::Fails(TractError::EvalError),
                }
            } else if p.missing == 1 {
                match (f.outputs[0].shape.dim(axis as int), p.sum) {
                    (DimFact::Only(total), Some(d)) => match TDim::fitting(total.minus(d)) {
                        Some(rest) => facts_step(f.sized(input(p.last as usize), axis as nat, rest)),
                        None => Step::Fails(TractError::EvalError),
                    },
                    (DimFact::Only(_), None) => Step::Fails(TractError::EvalError),
                    (DimFact::Any, _) => Step::Facts(f),
                }
            } else {
                Step::Facts(f)
            }
        },
        Rule::SameShape(a, b) => if !f.has(a) || !f.has(b) {
            Step::Fails(TractError::MalformedGraph)
        } else if !f.at(a).shape.agrees(f.at(b).shape) {
            Step::Fails(TractError::InferenceContradiction)
        } else {
            let u = f.at(a).shape.unified(f.at(b).shape);
            let g = f.put(a, FactValue { shape: u, ..f.at(a) });
            Step::Facts(g.put(b, FactValue { shape: u, ..g.at(b) }))
        },
        Rule::SameValue(a, b) => if !f.has(a) || !f.has(b) {
            Step::Fails(TractError::MalformedGraph)
        } else {
            match (f.at(a).value, f.at(b).value) {
                (Some(x), _) => facts_step(f.valued(b, x)),
                (None, Some(y)) => facts_step(f.valued(a, y)),
                (None, None) => Step::Facts(f),
            }
        },
        Rule::Given(c) => match expansion(c, f) {
            None => Step::Facts(f),
            Some(Ok(rules)) => Step::Fires(rules),
            Some(Err(e)) => Step::Fails(e),
        },
        Rule::Used => Step::Facts(f),
    }
}

/// What applying a rule gave: whether the facts have changed, and the
/// rules that a conditional rule has stated, if it has.
pub struct Applied {
    pub changed: bool,
    pub fresh: Option<Vec<Rule>>,
}

/// `r` stands for the step from `before` to `after`.
pub open spec fn is_step(r: Result<Applied, TractError>, before: FactsValue, after: FactsValue, s: Step) -> bool {
    match s {
        Step::Fails(e) => r is Err && r->Err_0 == e && after == before,
        Step::Facts(f) => r is Ok && r->Ok_0.fresh is None && after == f && r->Ok_0.changed == (f != before),
        Step::Fires(rules) => r is Ok && r->Ok_0.fresh is Some && r->Ok_0.fresh->Some_0@ == rules && after == before,
    }
}

/// The outcome of noting one thing.
fn noted(r: Result<bool, TractError>) -> (out: Result<Applied, TractError>)
    ensures
        match r {
            Ok(c) => out is Ok && out->Ok_0.changed == c && out->Ok_0.fresh is None,
            Err(e) => out is Err && out->Err_0 == e,
        },
{
    match r {
        Ok(changed) => Ok(Applied { changed, fresh: None }),
        Err(e) => Err(e),
    }
}

/// Applies the rule that two tensors have the same element type.
fn apply_same_type(a: Slot, b: Slot, f: &mut Facts) -> (r: Result<Applied, TractError>)
    ensures
        is_step(r, old(f)@, final(f)@, step(Rule::SameType(a, b), old(f)@)),
{
    let (ta, tb) = match (f.fact(a), f.fact(b)) {
        (Some(x), Some(y)) => (x.datum_type, y.datum_type),
        _ => {
            return Err(TractError::MalformedGraph);
        },
    };
    match (ta, tb) {
        (TypeFact::Only(x), _) => noted(f.set_type(b, x)),
        (TypeFact::Any, TypeFact::Only(y)) => noted(f.set_type(a, y)),
        (TypeFact::Any, TypeFact::Any) => Ok(Applied { changed: false, fresh: None }),
    }
}

/// Applies the rule that two tensors have the same rank.
fn apply_same_rank(a: Slot, b: Slot, f: &mut Facts) -> (r: Result<Applied, TractError>)
    ensures
        is_step(r, old(f)@, final(f)@, step(Rule::SameRank(a, b), old(f)@)),
{
    let (ra, rb) = match (f.fact(a), f.fact(b)) {
        (Some(x), Some(y)) => (
            if x.shape.open {
                None
            } else {
                Some(x.shape.dims.len())
            },
            if y.shape.open {
                None
            } else {
                Some(y.shape.dims.len())
            },
        ),
        _ => {
            return Err(TractError::MalformedGraph);
        },
    };
    match (ra, rb) {
        (Some(x), _) => noted(f.set_rank(b, x)),
        (None, Some(y)) => noted(f.set_rank(a, y)),
        (None, None) => Ok(Applied { changed: false, fresh: None }),
    }
}

/// Applies the rule that two axes have the same size.
fn apply_same_dim(a: Slot, ax: usize, b: Slot, bx: usize, f: &mut Facts) -> (r: Result<Applied, TractError>)
    ensures
        is_step(r, old(f)@, final(f)@, step(Rule::SameDim(a, ax, b, bx), old(f)@)),
{
    let (da, db) = match (f.fact(a), f.fact(b)) {
        (Some(x), Some(y)) => (x.shape.dim(ax), y.shape.dim(bx)),
        _ => {
            return Err(TractError::MalformedGraph);
        },
    };
    match (da, db) {
        (DimFact::Only(x), _) => noted(f.set_dim(b, bx, x)),
        (DimFact::Any, DimFact::Only(y)) => noted(f.set_dim(a, ax, y)),
        (DimFact::Any, DimFact::Any) => Ok(Applied { changed: false, fresh: None }),
    }
}

/// Applies the rule that a size is a multiple of another plus an offset.
fn apply_affine(target: Slot, axis: usize, coef: i64, source: Slot, source_axis: usize, offset: TDim, f: &mut Facts) -> (r: Result<Applied, TractError>)
    ensures
        is_step(r, old(f)@, final(f)@, step(Rule::Affine { target, axis, coef, source, source_axis, offset }, old(f)@)),
{
    let (ds, dt) = match (f.fact(source), f.fact(target)) {
        (Some(x), Some(y)) => (x.shape.dim(source_axis), y.shape.dim(axis)),
        _ => {
            return Err(TractError::MalformedGraph);
        },
    };
    if coef == 0 {
        return noted(f.set_dim(target, axis, offset));
    }
    match (ds, dt) {
        (DimFact::Only(x), _) => {
            let y = match x.checked_mul(coef) {
                Some(p) => p.checked_add(&offset),
                None => None,
            };
            match y {
                Some(y) => noted(f.set_dim(target, axis, y)),
                None => Err(TractError::EvalError),
            }
        },
        (DimFact::Any, DimFact::Only(y)) => {
            if coef == 1 || coef == -1 {
                let x = match y.checked_sub(&offset) {
                    Some(p) => p.checked_mul(coef),
                    None => None,
                };
                match x {
                    Some(x) => noted(f.set_dim(source, source_axis, x)),
                    None => Err(TractError::EvalError),
                }
            } else {
                Ok(Applied { changed: false, fresh: None })
            }
        },
        (DimFact::Any, DimFact::Any) => Ok(Applied { changed: false, fresh: None }),
    }
}

/// Applies the rule that a size is the sum of others.
fn apply_sum(n: usize, axis: usize, f: &mut Facts) -> (r: Result<Applied, TractError>)
    ensures
        is_step(r, old(f)@, final(f)@, step(Rule::SumDims { n, axis }, old(f)@)),
{
    if n > f.inputs.len() || f.outputs.len() == 0 {
        return Err(TractError::MalformedGraph);
    }
    let (sum, missing, last) = f.sum_dims(n, axis);
    if missing == 0 {
        match sum {
            Some(d) => noted(f.set_dim(Slot::output(0), axis, d)),
            None => Err(TractError::EvalError),
        }
    } else if missing == 1 {
        match (f.outputs[0].shape.dim(axis), sum) {
            (DimFact::Only(total), Some(d)) => match total.checked_sub(&d) {
                Some(rest) => noted(f.set_dim(Slot::input(last), axis, rest)),
                None => Err(TractError::EvalError),
            },
            (DimFact::Only(_), None) => Err(TractError::EvalError),
            (DimFact::Any, _) => Ok(Applied { changed: false, fresh: None }),
        }
    } else {
        Ok(Applied { changed: false, fresh: None })
    }
}

/// Applies the rule that two tensors have the same shape.
fn apply_same_shape(a: Slot, b: Slot, f: &mut Facts) -> (r: Result<Applied, TractError>)
    ensures
        is_step(r, old(f)@, final(f)@, step(Rule::SameShape(a, b), old(f)@)),
{
    let (u, next_a, news_a, news_b) = match (f.fact(a), f.fact(b)) {
        (Some(x), Some(y)) => {
            match x.shape.unify(&y.shape) {
                Ok(u) => {
                    let news_a = !u.same(&x.shape);
                    let news_b = !u.same(&y.shape);
                    let next_a = TensorFact {
                        datum_type: x.datum_type,
                        shape: u.duplicate(),
                        value: x.value.duplicate(),
                    };
                    (u, next_a, news_a, news_b)
                },
                Err(e) => {
                    return Err(e);
                },
            }
        },
        _ => {
            return Err(TractError::MalformedGraph);
        },
    };
    let ghost before = f@;
    f.replace(a, next_a);
    let ghost mid = f@;
    let next_b = match f.fact(b) {
        Some(y) => TensorFact { datum_type: y.datum_type, shape: u, value: y.value.duplicate() },
        None => {
            return Err(TractError::MalformedGraph);
        },
    };
    f.replace(b, next_b);
    proof {
        let after = f@;
        if !news_a && !news_b {
            assert(mid.inputs =~= before.inputs);
            assert(mid.outputs =~= before.outputs);
            assert(after.inputs =~= before.inputs);
            assert(after.outputs =~= before.outputs);
        } else if news_b {
            assert(after.at(b).shape != before.at(b).shape);
        } else {
            assert(after.at(a).shape != before.at(a).shape);
        }
    }
    Ok(Applied { changed: news_a || news_b, fresh: None })
}

/// Applies the rule that two tensors have the same value.
fn apply_same_value(a: Slot, b: Slot, f: &mut Facts) -> (r: Result<Applied, TractError>)
    ensures
        is_step(r, old(f)@, final(f)@, step(Rule::SameValue(a, b), old(f)@)),
{
    let (va, vb) = match (f.fact(a), f.fact(b)) {
        (Some(x), Some(y)) => (x.value.duplicate(), y.value.duplicate()),
        _ => {
            return Err(TractError::MalformedGraph);
        },
    };
    match (va, vb) {
        (ValueFact::Only(x), _) => noted(f.set_value(b, &x)),
        (ValueFact::Any, ValueFact::Only(y)) => noted(f.set_value(a, &y)),
        (ValueFact::Any, ValueFact::Any) => Ok(Applied { changed: false, fresh: None }),
    }
}

/// Applies one rule to the facts: see `step`.
pub fn apply_rule(rule: Rule, f: &mut Facts) -> (r: Result<Applied, TractError>)
    ensures
        is_step(r, old(f)@, final(f)@, step(rule, old(f)@)),
{
    match rule {
        Rule::TypeIs(s, t) => noted(f.set_type(s, t)),
        Rule::SameType(a, b) => apply_same_type(a, b, f),
        Rule::RankIs(s, r) => noted(f.set_rank(s, r)),
        Rule::SameRank(a, b) => apply_same_rank(a, b, f),
        Rule::DimIs(s, axis, d) => noted(f.set_dim(s, axis, d)),
        Rule::SameDim(a, ax, b, bx) => apply_same_dim(a, ax, b, bx, f),
        Rule::Affine { target, axis, coef, source, source_axis, offset } => apply_affine(
            target,
            axis,
            coef,
            source,
            source_axis,
            offset,
            f,
        ),
        Rule::SumDims { n, axis } => apply_sum(n, axis, f),
        Rule::SameShape(a, b) => apply_same_shape(a, b, f),
        Rule::SameValue(a, b) => apply_same_value(a, b, f),
        Rule::Given(c) => {
            match expand(c, f) {
                Ok(Some(rules)) => Ok(Applied { changed: false, fresh: Some(rules) }),
                Ok(None) => Ok(Applied { changed: false, fresh: None }),
                Err(e) => Err(e),
            }
        },
        Rule::Used => Ok(Applied { changed: false, fresh: None }),
    }
}

/// The state of a pass: the rules, the facts, the rules stated during the
/// pass, and whether anything has changed.
pub struct Pass {
    pub rules: Seq<Rule>,
    pub facts: FactsValue,
    pub fresh: Seq<Rule>,
    pub changed: bool,
}

/// A pass over the rules from number `i` on: each rule is applied to the
/// facts as the rules before it have left them. A conditional rule that
/// states its rules is marked as used; what it states is kept for the end
/// of the pass. A failure ends the pass.
pub open spec fn pass_from(p: Pass, i: nat) -> Result<Pass, TractError>
    decreases p.rules.len() - i,
{
    if i >= p.rules.len() {
        Ok(p)
    } else {
        match step(p.rules[i as int], p.facts) {
            Step::Fails(e) => Err(e),
            Step::Facts(f) => pass_from(
                Pass { rules: p.rules, facts: f, fresh: p.fresh, changed: p.changed || f != p.facts },
                i + 1,
            ),
            Step::Fires(stated) => pass_from(
                Pass {
                    rules: p.rules.update(i as int, Rule::Used),
                    facts: p.facts,
                    fresh: p.fresh + stated,
                    changed: true,
                },
                i + 1,
            ),
        }
    }
}

/// One pass: every rule is applied once, and the rules stated on the way
/// join the rules.
pub open spec fn pass(rules: Seq<Rule>, facts: FactsValue) -> Result<Pass, TractError> {
    match pass_from(Pass { rules, facts, fresh: Seq::empty(), changed: false }, 0) {
        Ok(p) => Ok(Pass { rules: p.rules + p.fresh, facts: p.facts, fresh: Seq::empty(), changed: p.changed }),
        Err(e) => Err(e),
    }
}

/// What solving gives: the facts, and whether the last pass changed
/// nothing (`settled`); without that the passes allowed were used up.
pub struct Solution {
    pub facts: FactsValue,
    pub settled: bool,
}

/// Pass after pass, until one changes nothing or `budget` passes are done.
pub open spec fn solved(rules: Seq<Rule>, facts: FactsValue, budget: nat) -> Result<Solution, TractError>
    decreases budget,
{
    if budget == 0 {
        Ok(Solution { facts, settled: false })
    } else {
        match pass(rules, facts) {
            Err(e) => Err(e),
            Ok(p) => if p.changed {
                solved(p.rules, p.facts, (budget - 1) as nat)
            } else {
                Ok(Solution { facts: p.facts, settled: true })
            },
        }
    }
}

/// Solves the rules from the facts given: see `solved`. It returns whether
/// the solving has settled, and the facts are left as the last pass left
/// them. After a failure the facts are as they were given: a solving that
/// fails leaves nothing of what it found.
pub fn solve(rules: Vec<Rule>, facts: &mut Facts, budget: usize) -> (r: Result<bool, TractError>)
    ensures
        match solved(rules@, old(facts)@, budget as nat) {
            Ok(s) => r == Ok::<bool, TractError>(s.settled) && final(facts)@ == s.facts,
            Err(e) => r == Err::<bool, TractError>(e) && final(facts)@ == old(facts)@,
        },
{
    let given = facts.duplicate();
    match solve_on(rules, facts, budget) {
        Ok(settled) => Ok(settled),
        Err(e) => {
            *facts = given;
            Err(e)
        },
    }
}

/// Solves the rules on the facts in place: see `solved`. After a failure
/// the facts are as the rule that failed found them.
#[verifier::loop_isolation(false)]
fn solve_on(rules: Vec<Rule>, facts: &mut Facts, budget: usize) -> (r: Result<bool, TractError>)
    ensures
        match solved(rules@, old(facts)@, budget as nat) {
            Ok(s) => r is Ok && r->Ok_0 == s.settled && final(facts)@ == s.facts,
            Err(e) => r is Err && r->Err_0 == e,
        },
{
    let ghost rules_in = rules@;
    let mut rules = rules;
    let mut left = budget;
    while left > 0
        invariant
            solved(rules@, facts@, left as nat) == solved(rules_in, old(facts)@, budget as nat),
        decreases left,
    {
        let ghost rules0 = rules@;
        let ghost facts0 = facts@;
        let mut fresh: Vec<Rule> = Vec::new();
        let mut changed = false;
        let mut i: usize = 0;
        let count = rules.len();
        while i < count
            invariant
                i <= count,
                count == rules@.len(),
                rules0.len() == count,
                pass_from(Pass { rules: rules@, facts: facts@, fresh: fresh@, changed }, i as nat) == pass_from(
                    Pass { rules: rules0, facts: facts0, fresh: Seq::empty(), changed: false },
                    0,
                ),
            decreases count - i,
        {
            let rule = rules[i];
            match apply_rule(rule, facts) {
                Ok(a) => {
                    match a.fresh {
                        Some(stated) => {
                            let mut stated = stated;
                            rules.set(i, Rule::Used);
                            fresh.append(&mut stated);
                            changed = true;
                        },
                        None => {
                            if a.changed {
                                changed = true;
                            }
                        },
                    }
                },
                Err(e) => {
                    proof {
                        assert(pass(rules0, facts0) is Err);
                    }
                    return Err(e);
                },
            }
            i += 1;
        }
        let ghost done = Pass { rules: rules@, facts: facts@, fresh: fresh@, changed };
        rules.append(&mut fresh);
        proof {
            assert(pass_from(Pass { rules: rules0, facts: facts0, fresh: Seq::empty(), changed: false }, 0) == Ok::<
                Pass,
                TractError,
            >(done));
            assert(pass(rules0, facts0) == Ok::<Pass, TractError>(
                Pass { rules: rules@, facts: facts@, fresh: Seq::empty(), changed },
            ));
        }
        if !changed {
            return Ok(true);
        }
        left -= 1;
    }
    Ok(false)
}

/// A fact says all that it says.
pub proof fn lemma_refines_itself(a: FactValue)
    ensures
        a.refines(a),
{
}

/// If `a` says all that `b` says, and `b` all that `c` says, then `a` says
/// all that `c` says.
pub proof fn lemma_refines_chain(a: FactValue, b: FactValue, c: FactValue)
    requires
        a.refines(b),
        b.refines(c),
    ensures
        a.refines(c),
{
    assert forall|i: int| 0 <= i < c.shape.dims.len() implies (#[trigger] a.shape.dims[i]).refines(c.shape.dims[i]) by {
        assert(a.shape.dims[i].refines(b.shape.dims[i]));
        assert(b.shape.dims[i].refines(c.shape.dims[i]));
    }
}

/// The same for the facts of an operator.
pub proof fn lemma_facts_refine_chain(a: FactsValue, b: FactsValue, c: FactsValue)
    requires
        a.refines(b),
        b.refines(c),
    ensures
        a.refines(c),
{
    assert forall|i: int| 0 <= i < a.inputs.len() implies (#[trigger] a.inputs[i]).refines(c.inputs[i]) by {
        assert(b.inputs[i].refines(c.inputs[i]));
        lemma_refines_chain(a.inputs[i], b.inputs[i], c.inputs[i]);
    }
    assert forall|i: int| 0 <= i < a.outputs.len() implies (#[trigger] a.outputs[i]).refines(c.outputs[i]) by {
        assert(b.outputs[i].refines(c.outputs[i]));
        lemma_refines_chain(a.outputs[i], b.outputs[i], c.outputs[i]);
    }
}

/// Knowing more of one tensor is knowing more.
proof fn lemma_put_refines(f: FactsValue, s: Slot, v: FactValue)
    requires
        f.has(s),
        v.refines(f.at(s)),
    ensures
        f.put(s, v).refines(f),
{
    let g = f.put(s, v);
    assert forall|i: int| 0 <= i < g.inputs.len() implies (#[trigger] g.inputs[i]).refines(f.inputs[i]) by {
        lemma_refines_itself(f.inputs[i]);
    }
    assert forall|i: int| 0 <= i < g.outputs.len() implies (#[trigger] g.outputs[i]).refines(f.outputs[i]) by {
        lemma_refines_itself(f.outputs[i]);
    }
}

proof fn lemma_typed_refines(f: FactsValue, s: Slot, t: DatumType)
    ensures
        f.typed(s, t) matches Ok(g) ==> g.refines(f),
{
    if let Ok(g) = f.typed(s, t) {
        lemma_refines_itself(f.at(s));
        lemma_put_refines(f, s, FactValue { datum_type: f.at(s).datum_type.unified(TypeFact::Only(t)).unwrap(), ..f.at(s) });
    }
}

proof fn lemma_ranked_refines(f: FactsValue, s: Slot, r: nat)
    ensures
        f.ranked(s, r) matches Ok(g) ==> g.refines(f),
{
    if let Ok(g) = f.ranked(s, r) {
        lemma_refines_itself(f.at(s));
        let u = f.at(s).shape.with_rank(r).unwrap();
        assert(u.refines(f.at(s).shape));
        lemma_put_refines(f, s, FactValue { shape: u, ..f.at(s) });
    }
}

proof fn lemma_sized_refines(f: FactsValue, s: Slot, axis: nat, d: TDim)
    ensures
        f.sized(s, axis, d) matches Ok(g) ==> g.refines(f),
{
    if let Ok(g) = f.sized(s, axis, d) {
        lemma_refines_itself(f.at(s));
        let u = f.at(s).shape.with_dim(axis, d).unwrap();
        assert(u.refines(f.at(s).shape));
        lemma_put_refines(f, s, FactValue { shape: u, ..f.at(s) });
    }
}

/// A rule never takes knowledge back.
pub proof fn lemma_step_refines(rule: Rule, f: FactsValue)
    ensures
        step(rule, f) matches Step::Facts(g) ==> g.refines(f),
{
    assert(f.refines(f)) by {
        assert forall|i: int| 0 <= i < f.inputs.len() implies (#[trigger] f.inputs[i]).refines(f.inputs[i]) by {
            lemma_refines_itself(f.inputs[i]);
        }
        assert forall|i: int| 0 <= i < f.outputs.len() implies (#[trigger] f.outputs[i]).refines(f.outputs[i]) by {
            lemma_refines_itself(f.outputs[i]);
        }
    }
    match rule {
        Rule::TypeIs(s, t) => {
            lemma_typed_refines(f, s, t);
        },
        Rule::SameType(a, b) => {
            if f.has(a) && f.has(b) {
                match (f.at(a).datum_type, f.at(b).datum_type) {
                    (TypeFact::Only(x), _) => {
                        lemma_typed_refines(f, b, x);
                    },
                    (TypeFact::Any, TypeFact::Only(y)) => {
                        lemma_typed_refines(f, a, y);
                    },
                    _ => {},
                }
            }
        },
        Rule::RankIs(s, r) => {
            lemma_ranked_refines(f, s, r as nat);
        },
        Rule::SameRank(a, b) => {
            if f.has(a) && f.has(b) {
                lemma_ranked_refines(f, b, f.at(a).shape.dims.len());
                lemma_ranked_refines(f, a, f.at(b).shape.dims.len());
            }
        },
        Rule::DimIs(s, axis, d) => {
            lemma_sized_refines(f, s, axis as nat, d);
        },
        Rule::SameDim(a, ax, b, bx) => {
            if f.has(a) && f.has(b) {
                match (f.at(a).shape.dim(ax as int), f.at(b).shape.dim(bx as int)) {
                    (DimFact::Only(x), _) => {
                        lemma_sized_refines(f, b, bx as nat, x);
                    },
                    (DimFact::Any, DimFact::Only(y)) => {
                        lemma_sized_refines(f, a, ax as nat, y);
                    },
                    _ => {},
                }
            }
        },
        Rule::Affine { target, axis, coef, source, source_axis, offset } => {
            if f.has(target) && f.has(source) {
                lemma_sized_refines(f, target, axis as nat, offset);
                match (f.at(source).shape.dim(source_axis as int), f.at(target).shape.dim(axis as int)) {
                    (DimFact::Only(x), _) => {
                        if let Some(y) = affine(x, coef, offset) {
                            lemma_sized_refines(f, target, axis as nat, y);
                        }
                    },
                    (DimFact::Any, DimFact::Only(y)) => {
                        if let Some(x) = unaffine(y, coef, offset) {
                            lemma_sized_refines(f, source, source_axis as nat, x);
                        }
                    },
                    _ => {},
                }
            }
        },
        Rule::SumDims { n, axis } => {
            let p = f.dims_sum(n as nat, axis as int);
            if let Some(d) = p.sum {
                lemma_sized_refines(f, out0(), axis as nat, d);
                if let DimFact::Only(total) = f.outputs[0].shape.dim(axis as int) {
                    if let Some(rest) = TDim::fitting(total.minus(d)) {
                        lemma_sized_refines(f, input(p.last as usize), axis as nat, rest);
                    }
                }
            }
        },
        Rule::SameShape(a, b) => {
            if f.has(a) && f.has(b) && f.at(a).shape.agrees(f.at(b).shape) {
                let u = f.at(a).shape.unified(f.at(b).shape);
                let blank = |shape: ShapeValue| FactValue { datum_type: TypeFact::Any, shape, value: None };
                crate::facts::lemma_unified_refines(blank(f.at(a).shape), blank(f.at(b).shape));
                let g = f.put(a, FactValue { shape: u, ..f.at(a) });
                lemma_refines_itself(f.at(a));
                lemma_put_refines(f, a, FactValue { shape: u, ..f.at(a) });
                lemma_refines_itself(g.at(b));
                assert(u.refines(g.at(b).shape)) by {
                    lemma_refines_itself(FactValue { shape: u, ..f.at(a) });
                }
                lemma_put_refines(g, b, FactValue { shape: u, ..g.at(b) });
                lemma_facts_refine_chain(g.put(b, FactValue { shape: u, ..g.at(b) }), g, f);
            }
        },
        Rule::SameValue(a, b) => {
            if f.has(a) && f.has(b) {
                match (f.at(a).value, f.at(b).value) {
                    (Some(x), _) => {
                        lemma_valued_refines(f, b, x);
                    },
                    (None, Some(y)) => {
                        lemma_valued_refines(f, a, y);
                    },
                    _ => {},
                }
            }
        },
        Rule::Given(c) => {},
        Rule::Used => {},
    }
}

proof fn lemma_valued_refines(f: FactsValue, s: Slot, v: crate::tensor::TensorValue)
    ensures
        f.valued(s, v) matches Ok(g) ==> g.refines(f),
{
    if let Ok(g) = f.valued(s, v) {
        lemma_refines_itself(f.at(s));
        lemma_put_refines(f, s, FactValue { value: unified_values(f.at(s).value, Some(v)).unwrap(), ..f.at(s) });
    }
}

/// A pass never takes knowledge back.
pub proof fn lemma_pass_refines(p: Pass, i: nat)
    ensures
        pass_from(p, i) matches Ok(q) ==> q.facts.refines(p.facts),
    decreases p.rules.len() - i,
{
    assert(p.facts.refines(p.facts)) by {
        assert forall|k: int| 0 <= k < p.facts.inputs.len() implies (#[trigger] p.facts.inputs[k]).refines(
            p.facts.inputs[k],
        ) by {
            lemma_refines_itself(p.facts.inputs[k]);
        }
        assert forall|k: int| 0 <= k < p.facts.outputs.len() implies (#[trigger] p.facts.outputs[k]).refines(
            p.facts.outputs[k],
        ) by {
            lemma_refines_itself(p.facts.outputs[k]);
        }
    }
    if i < p.rules.len() {
        lemma_step_refines(p.rules[i as int], p.facts);
        match step(p.rules[i as int], p.facts) {
            Step::Fails(e) => {},
            Step::Facts(f) => {
                let next = Pass { rules: p.rules, facts: f, fresh: p.fresh, changed: p.changed || f != p.facts };
                lemma_pass_refines(next, i + 1);
                if let Ok(q) = pass_from(next, i + 1) {
                    lemma_facts_refine_chain(q.facts, f, p.facts);
                }
            },
            Step::Fires(stated) => {
                let next = Pass {
                    rules: p.rules.update(i as int, Rule::Used),
                    facts: p.facts,
                    fresh: p.fresh + stated,
                    changed: true,
                };
                lemma_pass_refines(next, i + 1);
            },
        }
    }
}

/// What is known after the solving says all that was known before it:
/// facts only move from less known to more known.
pub proof fn lemma_solved_refines(rules: Seq<Rule>, facts: FactsValue, budget: nat)
    ensures
        solved(rules, facts, budget) matches Ok(s) ==> s.facts.refines(facts),
    decreases budget,
{
    let start = Pass { rules, facts, fresh: Seq::empty(), changed: false };
    lemma_pass_refines(start, 0);
    if budget == 0 {
        assert(facts.refines(facts)) by {
            assert forall|k: int| 0 <= k < facts.inputs.len() implies (#[trigger] facts.inputs[k]).refines(
                facts.inputs[k],
            ) by {
                lemma_refines_itself(facts.inputs[k]);
            }
            assert forall|k: int| 0 <= k < facts.outputs.len() implies (#[trigger] facts.outputs[k]).refines(
                facts.outputs[k],
            ) by {
                lemma_refines_itself(facts.outputs[k]);
            }
        }
    } else {
        if let Ok(p) = pass(rules, facts) {
            if p.changed {
                lemma_solved_refines(p.rules, p.facts, (budget - 1) as nat);
                if let Ok(s) = solved(p.rules, p.facts, (budget - 1) as nat) {
                    lemma_facts_refine_chain(s.facts, p.facts, facts);
                }
            }
        }
    }
}

/// Two rules that fix one rank at two different numbers are a
/// contradiction: the solving fails, whatever was known of the tensor, and
/// never settles on one of the two.
pub proof fn lemma_two_ranks_contradict(facts: FactsValue, s: Slot, a: usize, b: usize, budget: nat)
    requires
        facts.has(s),
        a != b,
        budget >= 1,
    ensures
        solved(seq![Rule::RankIs(s, a), Rule::RankIs(s, b)], facts, budget) == Err::<Solution, TractError>(
            TractError::InferenceContradiction,
        ),
{
    let rules = seq![Rule::RankIs(s, a), Rule::RankIs(s, b)];
    let start = Pass { rules, facts, fresh: Seq::empty(), changed: false };
    reveal_with_fuel(pass_from, 3);
    match facts.ranked(s, a as nat) {
        Ok(g) => {
            assert(g.has(s));
            assert(!g.at(s).shape.open);
            assert(g.at(s).shape.dims.len() == a);
            assert(g.at(s).shape.with_rank(b as nat) is None);
            assert(step(rules[1], g) == Step::Fails(TractError::InferenceContradiction));
            assert(pass_from(start, 0) is Err);
        },
        Err(e) => {
            assert(e == TractError::InferenceContradiction);
        },
    }
}

} // verus!
