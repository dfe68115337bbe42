pub mod arithmetic;
pub mod circuit;
pub mod field;
pub mod pwg;
pub mod redundant_range;
pub mod seq_util;

use vstd::prelude::*;

use crate::circuit::{BlackBoxFunc, Circuit, Expression, FunctionInput, Opcode, Witness};
use crate::field::FieldElement;
use crate::pwg::{OpcodeResolution, WitnessMap};

verus! {

/// Why an opcode cannot be solved yet; the solver retries it while others make progress.
#[derive(Debug, PartialEq, Eq)]
pub enum OpcodeNotSolvable {
    MissingAssignment(u32),
    ExpressionHasTooManyUnknowns(Expression),
}

/// Why solving failed.
#[derive(Debug, PartialEq, Eq)]
pub enum OpcodeResolutionError {
    OpcodeNotSolvable(OpcodeNotSolvable),
    UnsupportedBlackBoxFunc(BlackBoxFunc),
    UnsatisfiedConstrain,
    UnexpectedOpcode(&'static str, BlackBoxFunc),
    IncorrectNumFunctionArguments(usize, BlackBoxFunc, usize),
    BlackBoxFunctionFailed(BlackBoxFunc, String),
}

/// Computes the outputs of the cryptographic primitives for the solver. Each method fills the
/// output witnesses of its call from its inputs, or fails with `UnsupportedBlackBoxFunc` where
/// the backend lacks the primitive.
pub trait PartialWitnessGenerator {
    fn aes(
        &self,
        initial_witness: &mut WitnessMap,
        inputs: &Vec<FunctionInput>,
        outputs: &Vec<Witness>,
    ) -> Result<OpcodeResolution, OpcodeResolutionError>;

    fn and(
        &self,
        initial_witness: &mut WitnessMap,
        inputs: &Vec<FunctionInput>,
        outputs: &Vec<Witness>,
    ) -> Result<OpcodeResolution, OpcodeResolutionError>;

    fn xor(
        &self,
        initial_witness: &mut WitnessMap,
        inputs: &Vec<FunctionInput>,
        outputs: &Vec<Witness>,
    ) -> Result<OpcodeResolution, OpcodeResolutionError>;

    fn range(
        &self,
        initial_witness: &mut WitnessMap,
        inputs: &Vec<FunctionInput>,
        outputs: &Vec<Witness>,
    ) -> Result<OpcodeResolution, OpcodeResolutionError>;

    fn sha256(
        &self,
        initial_witness: &mut WitnessMap,
        inputs: &Vec<FunctionInput>,
        outputs: &Vec<Witness>,
    ) -> Result<OpcodeResolution, OpcodeResolutionError>;

    fn blake2s(
        &self,
        initial_witness: &mut WitnessMap,
        inputs: &Vec<FunctionInput>,
        outputs: &Vec<Witness>,
    ) -> Result<OpcodeResolution, OpcodeResolutionError>;

    fn compute_merkle_root(
        &self,
        initial_witness: &mut WitnessMap,
        inputs: &Vec<FunctionInput>,
        outputs: &Vec<Witness>,
    ) -> Result<OpcodeResolution, OpcodeResolutionError>;

    fn schnorr_verify(
        &self,
        initial_witness: &mut WitnessMap,
        inputs: &Vec<FunctionInput>,
        outputs: &Vec<Witness>,
    ) -> Result<OpcodeResolution, OpcodeResolutionError>;

    fn pedersen(
        &self,
        initial_witness: &mut WitnessMap,
        inputs: &Vec<FunctionInput>,
        outputs: &Vec<Witness>,
    ) -> Result<OpcodeResolution, OpcodeResolutionError>;

    fn hash_to_field128_security(
        &self,
        initial_witness: &mut WitnessMap,
        inputs: &Vec<FunctionInput>,
        outputs: &Vec<Witness>,
    ) -> Result<OpcodeResolution, OpcodeResolutionError>;

    fn ecdsa_secp256k1(
        &self,
        initial_witness: &mut WitnessMap,
        inputs: &Vec<FunctionInput>,
        outputs: &Vec<Witness>,
    ) -> Result<OpcodeResolution, OpcodeResolutionError>;

    fn fixed_base_scalar_mul(
        &self,
        initial_witness: &mut WitnessMap,
        inputs: &Vec<FunctionInput>,
        outputs: &Vec<Witness>,
    ) -> Result<OpcodeResolution, OpcodeResolutionError>;

    fn keccak256(
        &self,
        initial_witness: &mut WitnessMap,
        inputs: &Vec<FunctionInput>,
        outputs: &Vec<Witness>,
    ) -> Result<OpcodeResolution, OpcodeResolutionError>;
}

pub trait SmartContract {
    /// The error of a failed call.
    type Error;

    /// An Ethereum contract that verifies proofs against the given verification key.
    fn eth_contract_from_vk(&self, verification_key: &[u8]) -> Result<String, Self::Error>;
}

pub trait ProofSystemCompiler {
    /// The error of a failed call.
    type Error;

    /// The constraint language that the proof system accepts directly.
    fn np_language(&self) -> Language;

    /// Whether the backend provides the primitive.
    fn black_box_function_supported(&self, opcode: &BlackBoxFunc) -> bool;

    /// The number of gates of the circuit.
    fn get_exact_circuit_size(&self, circuit: &Circuit) -> Result<u32, Self::Error>;

    /// The proving key and the verification key of the circuit.
    fn preprocess(&self, circuit: &Circuit) -> Result<(Vec<u8>, Vec<u8>), Self::Error>;

    /// A proof that `witness_values` satisfy the circuit.
    fn prove_with_pk(
        &self,
        circuit: &Circuit,
        witness_values: WitnessMap,
        proving_key: &[u8],
    ) -> Result<Vec<u8>, Self::Error>;

    /// Whether the proof holds for the circuit and its public inputs.
    fn verify_with_vk(
        &self,
        proof: &[u8],
        public_inputs: WitnessMap,
        circuit: &Circuit,
        verification_key: &[u8],
    ) -> Result<bool, Self::Error>;
}

/// A proving backend: it solves primitives, compiles and proves circuits, and emits verifiers.
pub trait Backend: SmartContract + ProofSystemCompiler + PartialWitnessGenerator + Default {

}

/// The NP-complete languages that a proof system may accept.
#[derive(Debug, Clone, Copy, PartialEq, Eq)]
pub enum Language {
    R1CS,
    PLONKCSat { width: usize },
}

/// Whether `opcode` is supported by default by a proof system over `language`: R1CS supports
/// arithmetic opcodes only; PLONK supports every opcode but AES calls and memory blocks.
pub open spec fn default_support(language: Language, opcode: Opcode) -> bool {
    match language {
        Language::R1CS => opcode is Arithmetic,
        Language::PLONKCSat { .. } => !(opcode is Block) && !(opcode matches Opcode::BlackBoxFuncCall(
            call,
        ) && call.name == BlackBoxFunc::AES),
    }
}

/// The opcode support that a backend has by default for its language.
pub fn default_is_opcode_supported(language: Language, opcode: &Opcode) -> (r: bool)
    ensures
        r == default_support(language, *opcode),
{
    match language {
        Language::R1CS => matches!(opcode, Opcode::Arithmetic(_)),
        Language::PLONKCSat { .. } => match opcode {
            Opcode::Block(_) => false,
            Opcode::BlackBoxFuncCall(call) => match call.name {
                BlackBoxFunc::AES => false,
                _ => true,
            },
            _ => true,
        },
    }
}

/// The SHA-256 digest of a byte string.
pub uninterp spec fn sha256_of(data: Seq<u8>) -> Seq<u8>;

/// The CRC-32 (ISO-HDLC) checksum of a byte string.
pub uninterp spec fn crc32_of(data: Seq<u8>) -> u32;

/// Relies on sha2's `Sha256::digest`: the SHA-256 digest of `data`.
#[verifier::external_body]
fn sha256(data: &[u8]) -> (r: [u8; 32])
    ensures
        r@ == sha256_of(data@),
{
    <sha2::Sha256 as sha2::Digest>::digest(data).into()
}

/// Relies on crc32fast's `hash`: the CRC-32 checksum of `data`.
#[verifier::external_body]
fn crc32(data: &[u8]) -> (r: u32)
    ensures
        r == crc32_of(data@),
{
    crc32fast::hash(data)
}

/// The SHA-256 digest of a serialized circuit.
pub fn hash_constraint_system(serialized_circuit: &[u8]) -> (r: [u8; 32])
    ensures
        r@ == sha256_of(serialized_circuit@),
{
    sha256(serialized_circuit)
}

/// The CRC-32 checksum of a serialized circuit.
pub fn checksum_constraint_system(serialized_circuit: &[u8]) -> (r: u32)
    ensures
        r == crc32_of(serialized_circuit@),
{
    crc32(serialized_circuit)
}

} // verus!
