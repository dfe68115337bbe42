use vstd::prelude::*;

use crate::field::FieldElement;

verus! {

/// The identifier of an unknown quantity of a circuit.
#[derive(Clone, Copy, Debug, PartialEq, Eq, PartialOrd, Ord, Hash)]
pub struct Witness(pub u32);

/// `sum(c * a * b) + sum(c * x) + q_c`, a quadratic term over witnesses.
#[derive(Clone, Debug, PartialEq, Eq)]
pub struct Expression {
    pub mul_terms: Vec<(FieldElement, Witness, Witness)>,
    pub linear_combinations: Vec<(FieldElement, Witness)>,
    pub q_c: FieldElement,
}

/// The cryptographic primitives that a backend may provide.
#[derive(Clone, Copy, Debug, PartialEq, Eq, Hash)]
pub enum BlackBoxFunc {
    AES,
    AND,
    XOR,
    RANGE,
    SHA256,
    Blake2s,
    ComputeMerkleRoot,
    SchnorrVerify,
    Pedersen,
    HashToField128Security,
    EcdsaSecp256k1,
    FixedBaseScalarMul,
    Keccak256,
}

/// A witness handed to a primitive, with the bit width it is read at.
#[derive(Clone, Copy, Debug, PartialEq, Eq, Hash)]
pub struct FunctionInput {
    pub witness: Witness,
    pub num_bits: u32,
}

#[derive(Clone, Debug, PartialEq, Eq)]
pub struct BlackBoxFuncCall {
    pub name: BlackBoxFunc,
    pub inputs: Vec<FunctionInput>,
    pub outputs: Vec<Witness>,
}

/// A computation that helps the solver and constrains nothing by itself.
#[derive(Clone, Copy, Debug, PartialEq, Eq)]
pub enum Directive {
    /// `result` is the inverse of `x`, or zero where `x` is zero.
    Invert { x: Witness, result: Witness },
}

/// A request for values that only the caller of the solver can compute.
#[derive(Clone, Debug, PartialEq, Eq)]
pub struct OracleData {
    pub name: String,
    pub inputs: Vec<Expression>,
    pub input_values: Vec<FieldElement>,
    pub outputs: Vec<Witness>,
    pub output_values: Vec<FieldElement>,
}

/// One access to a memory block: `operation` is zero for a read and one for a write.
#[derive(Clone, Debug, PartialEq, Eq)]
pub struct MemOp {
    pub operation: Expression,
    pub index: Expression,
    pub value: Expression,
}

#[derive(Clone, Copy, Debug, PartialEq, Eq, PartialOrd, Ord, Hash)]
pub struct BlockId(pub u32);

/// An ordered trace of accesses to one memory block.
#[derive(Clone, Debug, PartialEq, Eq)]
pub struct MemoryBlock {
    pub id: BlockId,
    pub len: u32,
    pub trace: Vec<MemOp>,
}

#[derive(Clone, Debug, PartialEq, Eq)]
pub enum Opcode {
    Arithmetic(Expression),
    BlackBoxFuncCall(BlackBoxFuncCall),
    Directive(Directive),
    Block(MemoryBlock),
    Oracle(OracleData),
}

#[derive(Clone, Debug, Default, PartialEq, Eq)]
pub struct PublicInputs(pub Vec<Witness>);

#[derive(Clone, Debug, PartialEq, Eq)]
pub struct Circuit {
    pub current_witness_index: u32,
    pub opcodes: Vec<Opcode>,
    pub public_parameters: PublicInputs,
    pub return_values: PublicInputs,
}

impl Expression {
    /// The expression `0`.
    pub fn zero() -> (r: Expression)
        ensures
            r.mul_terms@.len() == 0,
            r.linear_combinations@.len() == 0,
            r.q_c.value() == 0,
    {
        Expression { mul_terms: Vec::new(), linear_combinations: Vec::new(), q_c: FieldElement::zero() }
    }
}

} // verus!
