//! The intermediate representation for lowering inference kernels to Hako.
use vstd::prelude::*;

verus! {

/// A node of the Hako IR.
pub enum HakoIrNode {
    /// Load a model weight from a named tensor.
    LoadTensor(String),
    /// Matrix-vector multiply.
    Gemv { input_reg: usize, weight_tensor: String, output_reg: usize, quant: QuantMode },
    /// An element-wise operation.
    ElementWise { op: ElemOp, input_reg: usize, output_reg: usize },
    /// A call into a native kernel.
    NativeCall(String),
}

/// The weight format of a GEMV instruction.
#[derive(Clone, Copy, Debug, PartialEq, Eq, Structural)]
pub enum QuantMode {
    F32,
    F16,
    Q4_0,
}

/// An element-wise operation.
#[derive(Clone, Copy, Debug, PartialEq, Eq, Structural)]
pub enum ElemOp {
    Relu,
    Silu,
    Softmax,
    RmsNorm,
}

/// A Hako compilation unit: a name and its IR nodes.
pub struct HakoModule {
    pub name: String,
    pub nodes: Vec<HakoIrNode>,
}

impl HakoModule {
    /// An empty unit with the given name.
    pub fn new(name: &str) -> (m: Self)
        ensures
            m.name@ == name@,
            m.nodes@.len() == 0,
    {
        HakoModule { name: String::from_str(name), nodes: Vec::new() }
    }
}

} // verus!
