//! Tensors as a model file holds them: a type, sizes, and either the
//! elements one by one or their bytes.

use vstd::prelude::*;
use crate::errors::TractError;
use crate::tensor::{numel, DatumType, Tensor, TensorValue};

verus! {

/// The tensor of the library, under the name that graphs of the first
/// format use for it.
pub type Matrix = Tensor;

/// The element types that a model file names.
#[derive(Debug, Clone, Copy, PartialEq, Eq, Structural)]
pub enum DataType {
    Float,
    Double,
    Int32,
    Int8,
    UInt8,
    String,
    /// A type that the library does not read.
    Other,
}

/// A tensor as a model file holds it. Floating-point elements are held as
/// their bit patterns.
#[derive(Debug)]
pub struct TensorProto {
    pub dtype: DataType,
    pub dims: Vec<i64>,
    pub tensor_content: Vec<u8>,
    pub int_val: Vec<i32>,
    pub float_val: Vec<u32>,
    pub string_val: Vec<Vec<u8>>,
}

/// The 32-bit number that four bytes hold, the lowest byte first.
pub open spec fn word(b0: u8, b1: u8, b2: u8, b3: u8) -> int {
    b0 + 256 * b1 + 65536 * b2 + 16777216 * b3
}

/// The element that four bytes hold: for 32-bit integers the number in
/// two's complement; for 32-bit floating point the bit pattern.
pub open spec fn element(dt: DatumType, w: int) -> i64 {
    if dt == DatumType::I32 && w >= 0x8000_0000 {
        (w - 0x1_0000_0000) as i64
    } else {
        w as i64
    }
}

/// The elements that `content` holds, four bytes each; bytes left over at
/// the end are not read.
pub open spec fn decoded(dt: DatumType, content: Seq<u8>) -> Seq<i64> {
    Seq::new(
        (content.len() / 4) as nat,
        |k: int|
            element(dt, word(content[4 * k], content[4 * k + 1], content[4 * k + 2], content[4 * k + 3])),
    )
}

/// The element type of the library for a type that a model file names.
pub open spec fn datum_type_of(t: DataType) -> Option<DatumType> {
    match t {
        DataType::Float => Some(DatumType::F32),
        DataType::Double => Some(DatumType::F64),
        DataType::Int32 => Some(DatumType::I32),
        DataType::Int8 => Some(DatumType::I8),
        DataType::UInt8 => Some(DatumType::U8),
        DataType::String => Some(DatumType::String),
        DataType::Other => None,
    }
}

/// The sizes that a model file gives: one axis of size 1 where it gives
/// none. They are undefined where one is negative or too large.
pub open spec fn sizes_of(dims: Seq<i64>) -> Option<Seq<usize>> {
    if dims.len() == 0 {
        Some(seq![1usize])
    } else if forall|i: int| 0 <= i < dims.len() ==> 0 <= #[trigger] dims[i] <= usize::MAX {
        Some(Seq::new(dims.len(), |i: int| dims[i] as usize))
    } else {
        None
    }
}

/// The tensor that a model file holds. Without content bytes it is the
/// list of the elements given one by one, of 32-bit integers or floating
/// point, or the bytes of the one string. With content bytes it has the
/// sizes given and the elements that the bytes hold. It is undefined for
/// other types, for several strings, and where sizes and bytes do not go
/// together.
pub open spec fn read(t: TensorProto) -> Option<TensorValue> {
    if t.tensor_content@.len() == 0 {
        match t.dtype {
            DataType::Int32 => Some(
                TensorValue {
                    dt: DatumType::I32,
                    dims: seq![t.int_val@.len() as usize],
                    items: Seq::new(t.int_val@.len(), |i: int| t.int_val@[i] as i64),
                },
            ),
            DataType::Float => Some(
                TensorValue {
                    dt: DatumType::F32,
                    dims: seq![t.float_val@.len() as usize],
                    items: Seq::new(t.float_val@.len(), |i: int| t.float_val@[i] as i64),
                },
            ),
            DataType::String => if t.string_val@.len() == 1 {
                Some(
                    TensorValue {
                        dt: DatumType::U8,
                        dims: seq![t.string_val@[0]@.len() as usize],
                        items: Seq::new(t.string_val@[0]@.len(), |i: int| t.string_val@[0]@[i] as i64),
                    },
                )
            } else {
                None
            },
            _ => None,
        }
    } else {
        match (t.dtype, sizes_of(t.dims@)) {
            (DataType::Float, Some(sizes)) => if numel(sizes) == t.tensor_content@.len() / 4 {
                Some(TensorValue { dt: DatumType::F32, dims: sizes, items: decoded(DatumType::F32, t.tensor_content@) })
            } else {
                None
            },
            (DataType::Int32, Some(sizes)) => if numel(sizes) == t.tensor_content@.len() / 4 {
                Some(TensorValue { dt: DatumType::I32, dims: sizes, items: decoded(DatumType::I32, t.tensor_content@) })
            } else {
                None
            },
            _ => None,
        }
    }
}

/// The lines of a dump that is cut to five lines: the first two, a mark in
/// the place of those left out, and the last two. Up to five lines are
/// kept as they are.
pub open spec fn elided(lines: Seq<Seq<char>>, mark: Seq<char>) -> Seq<Seq<char>> {
    if lines.len() > 5 {
        seq![lines[0], lines[1], mark, lines[lines.len() - 2], lines[lines.len() - 1]]
    } else {
        lines
    }
}

/// The mark for lines left out: three dots on one line, three colons in a
/// dump of several lines.
pub open spec fn mark_of(single_line: bool) -> Seq<char> {
    if single_line {
        "..."@
    } else {
        " : : :"@
    }
}

/// Cuts the lines of a dump to five: see `elided`.
pub fn elide(lines: Vec<String>, single_line: bool) -> (r: Vec<String>)
    ensures
        Seq::new(r@.len(), |i: int| r@[i]@) == elided(
            Seq::new(lines@.len(), |i: int| lines@[i]@),
            mark_of(single_line),
        ),
{
    let ghost all = Seq::new(lines@.len(), |i: int| lines@[i]@);
    let n = lines.len();
    if n <= 5 {
        proof {
            assert(Seq::new(lines@.len(), |i: int| lines@[i]@) =~= elided(all, mark_of(single_line)));
        }
        return lines;
    }
    let mut out: Vec<String> = Vec::new();
    out.push(lines[0].clone());
    out.push(lines[1].clone());
    if single_line {
        out.push("...".to_owned());
    } else {
        out.push(" : : :".to_owned());
    }
    out.push(lines[n - 2].clone());
    out.push(lines[n - 1].clone());
    proof {
        assert(Seq::new(out@.len(), |i: int| out@[i]@) =~= elided(all, mark_of(single_line)));
    }
    out
}

/// The elements that `content` holds: see `decoded`.
fn decode(dt: DatumType, content: &Vec<u8>) -> (r: Vec<i64>)
    ensures
        r@ == decoded(dt, content@),
{
    let len = content.len();
    let n = len / 4;
    let mut out: Vec<i64> = Vec::new();
    let mut k: usize = 0;
    while k < n
        invariant
            k <= n,
            len == content@.len(),
            n == content@.len() / 4,
            out@.len() == k,
            forall|j: int| 0 <= j < k ==> out@[j] == decoded(dt, content@)[j],
        decreases n - k,
    {
        assert(4 * k + 3 < len);
        let base = 4 * k;
        let w: i64 = content[base] as i64 + 256 * (content[base + 1] as i64) + 65536 * (content[base + 2] as i64)
            + 16777216 * (content[base + 3] as i64);
        let v = match dt {
            DatumType::I32 => if w >= 0x8000_0000 {
                w - 0x1_0000_0000
            } else {
                w
            },
            _ => w,
        };
        out.push(v);
        k += 1;
    }
    proof {
        assert(out@ =~= decoded(dt, content@));
    }
    out
}

impl Tensor {
    /// The tensor of the sizes `dims` whose elements `content` holds, four
    /// bytes each, the lowest byte first: 32-bit integers, or 32-bit
    /// floating point as bit patterns. It is refused for other element
    /// types, and where the sizes ask for another number of elements.
    pub fn from_content(dt: DatumType, dims: Vec<usize>, content: &Vec<u8>) -> (r: Result<Tensor, TractError>)
        ensures
            (dt == DatumType::I32 || dt == DatumType::F32) && numel(dims@) == content@.len() / 4 ==> r is Ok
                && r->Ok_0@ == (TensorValue { dt, dims: dims@, items: decoded(dt, content@) }),
            !((dt == DatumType::I32 || dt == DatumType::F32) && numel(dims@) == content@.len() / 4) ==> r == Err::<
                Tensor,
                TractError,
            >(TractError::EvalError),
    {
        match dt {
            DatumType::I32 | DatumType::F32 => {},
            _ => {
                return Err(TractError::EvalError);
            },
        }
        Tensor::new(dt, dims, decode(dt, content))
    }

    /// The tensor that a model file holds: see `read`.
    pub fn from_pb(t: &TensorProto) -> (r: Result<Tensor, TractError>)
        ensures
            match read(*t) {
                Some(v) => r is Ok && r->Ok_0@ == v,
                None => r is Err && r->Err_0 == TractError::EvalError,
            },
    {
        if t.tensor_content.len() == 0 {
            match t.dtype {
                DataType::Int32 => {
                    let mut items: Vec<i64> = Vec::new();
                    let mut i: usize = 0;
                    while i < t.int_val.len()
                        invariant
                            i <= t.int_val.len(),
                            items@ == Seq::new(i as nat, |k: int| t.int_val@[k] as i64),
                        decreases t.int_val.len() - i,
                    {
                        items.push(t.int_val[i] as i64);
                        i += 1;
                        proof {
                            assert(items@ =~= Seq::new(i as nat, |k: int| t.int_val@[k] as i64));
                        }
                    }
                    Ok(Tensor::vector(DatumType::I32, items))
                },
                DataType::Float => {
                    let mut items: Vec<i64> = Vec::new();
                    let mut i: usize = 0;
                    while i < t.float_val.len()
                        invariant
                            i <= t.float_val.len(),
                            items@ == Seq::new(i as nat, |k: int| t.float_val@[k] as i64),
                        decreases t.float_val.len() - i,
                    {
                        items.push(t.float_val[i] as i64);
                        i += 1;
                        proof {
                            assert(items@ =~= Seq::new(i as nat, |k: int| t.float_val@[k] as i64));
                        }
                    }
                    Ok(Tensor::vector(DatumType::F32, items))
                },
                DataType::String => {
                    if t.string_val.len() != 1 {
                        return Err(TractError::EvalError);
                    }
                    let bytes = &t.string_val[0];
                    let mut items: Vec<i64> = Vec::new();
                    let mut i: usize = 0;
                    while i < bytes.len()
                        invariant
                            i <= bytes.len(),
                            items@ == Seq::new(i as nat, |k: int| bytes@[k] as i64),
                        decreases bytes.len() - i,
                    {
                        items.push(bytes[i] as i64);
                        i += 1;
                        proof {
                            assert(items@ =~= Seq::new(i as nat, |k: int| bytes@[k] as i64));
                        }
                    }
                    Ok(Tensor::vector(DatumType::U8, items))
                },
                _ => Err(TractError::EvalError),
            }
        } else {
            let dt = match t.dtype {
                DataType::Float => DatumType::F32,
                DataType::Int32 => DatumType::I32,
                _ => {
                    return Err(TractError::EvalError);
                },
            };
            let mut sizes: Vec<usize> = Vec::new();
            if t.dims.len() == 0 {
                sizes.push(1);
                proof {
                    assert(sizes@ =~= seq![1usize]);
                }
            } else {
                let mut i: usize = 0;
                while i < t.dims.len()
                    invariant
                        i <= t.dims.len(),
                        t.dims@.len() > 0,
                        t.tensor_content@.len() != 0,
                        forall|k: int| 0 <= k < i ==> 0 <= #[trigger] t.dims@[k] <= usize::MAX,
                        sizes@ == Seq::new(i as nat, |k: int| t.dims@[k] as usize),
                    decreases t.dims.len() - i,
                {
                    let d = t.dims[i];
                    if d < 0 || d as u64 > usize::MAX as u64 {
                        proof {
                            assert(!(0 <= t.dims@[i as int] <= usize::MAX));
                            assert(sizes_of(t.dims@) is None);
                        }
                        return Err(TractError::EvalError);
                    }
                    sizes.push(d as usize);
                    i += 1;
                    proof {
                        assert(sizes@ =~= Seq::new(i as nat, |k: int| t.dims@[k] as usize));
                    }
                }
            }
            Tensor::from_content(dt, sizes, &t.tensor_content)
        }
    }

    /// The element type as a model file names it.
    pub fn datatype(&self) -> (r: DataType)
        ensures
            datum_type_of(r) == Some(self@.dt) || (r == DataType::Other && (self@.dt == DatumType::Bool || self@.dt
                == DatumType::I64 || self@.dt == DatumType::TDim)),
    {
        match self.datum_type() {
            DatumType::F32 => DataType::Float,
            DatumType::F64 => DataType::Double,
            DatumType::I32 => DataType::Int32,
            DatumType::I8 => DataType::Int8,
            DatumType::U8 => DataType::UInt8,
            DatumType::String => DataType::String,
            _ => DataType::Other,
        }
    }
}

} // verus!
