//! Standalone execution of neural-network computation graphs.
//!
//! A model is a graph of operators, its nodes addressed by stable integer
//! ids (`model`). The planner finds an order in which to evaluate the
//! nodes that some outputs need (`order`); a session computes the nodes of
//! a plan and keeps what it has computed (`plan`). Before a model runs,
//! the solver infers what can be known of its tensors from the rules of
//! its operators (`facts`, `solver`, `analyser`), and the declutter pass
//! puts simpler operators in the place of those of which enough is known
//! (`patch`, `declutter`). The operators are in `ops`, `tf` and `onnx`;
//! the numeric kernels among them are the host's.
//!
//! Two rules hold throughout. A node that is computed is not computed
//! again: its cell stays as it is for the rest of the session. And where
//! a slicing operator reads a tensor, a bound that lies outside its axis
//! stands for the nearest edge of the axis.

pub mod analyser;
pub mod array;
pub mod bits;
pub mod declutter;
pub mod dim;
pub mod errors;
pub mod facts;
pub mod framework;
pub mod matrix;
pub mod model;
pub mod nd;
pub mod onnx;
pub mod ops;
pub mod order;
pub mod patch;
pub mod plan;
pub mod share;
pub mod solver;
pub mod tensor;
pub mod tf;
