use std::collections::BTreeMap;

use acvm::circuit::{
    BlackBoxFunc, BlackBoxFuncCall, BlockId, Directive, Expression, FunctionInput, MemOp,
    MemoryBlock, Opcode, OracleData, Witness,
};
use acvm::field::FieldElement;
use acvm::arithmetic::{evaluate, insert_value, solve_arithmetic};
use acvm::pwg::{
    self, apply_blackbox_outcome, BlockSolver, Blocks, OpcodeResolution,
    PartialWitnessGeneratorStatus, WitnessMap,
};
use acvm::{OpcodeNotSolvable, OpcodeResolutionError, PartialWitnessGenerator};

fn fe(v: u128) -> FieldElement {
    FieldElement::from_u128(v)
}

/// A backend that is never reached.
struct StubbedPwg;

/// A backend without any primitive.
struct NoPrimitives;

/// A backend that provides AND on its two inputs.
struct AndOnly;

fn untrodden() -> Result<OpcodeResolution, OpcodeResolutionError> {
    panic!("Path not trodden by this test")
}

impl PartialWitnessGenerator for StubbedPwg {
    fn aes(
        &self,
        initial_witness: &mut WitnessMap,
        inputs: &Vec<FunctionInput>,
        outputs: &Vec<Witness>,
    ) -> Result<OpcodeResolution, OpcodeResolutionError> {
        let _ = (initial_witness, inputs, outputs);
        untrodden()
    }
    fn and(
        &self,
        initial_witness: &mut WitnessMap,
        inputs: &Vec<FunctionInput>,
        outputs: &Vec<Witness>,
    ) -> Result<OpcodeResolution, OpcodeResolutionError> {
        let _ = (initial_witness, inputs, outputs);
        untrodden()
    }
    fn xor(
        &self,
        initial_witness: &mut WitnessMap,
        inputs: &Vec<FunctionInput>,
        outputs: &Vec<Witness>,
    ) -> Result<OpcodeResolution, OpcodeResolutionError> {
        let _ = (initial_witness, inputs, outputs);
        untrodden()
    }
    fn range(
        &self,
        initial_witness: &mut WitnessMap,
        inputs: &Vec<FunctionInput>,
        outputs: &Vec<Witness>,
    ) -> Result<OpcodeResolution, OpcodeResolutionError> {
        let _ = (initial_witness, inputs, outputs);
        untrodden()
    }
    fn sha256(
        &self,
        initial_witness: &mut WitnessMap,
        inputs: &Vec<FunctionInput>,
        outputs: &Vec<Witness>,
    ) -> Result<OpcodeResolution, OpcodeResolutionError> {
        let _ = (initial_witness, inputs, outputs);
        untrodden()
    }
    fn blake2s(
        &self,
        initial_witness: &mut WitnessMap,
        inputs: &Vec<FunctionInput>,
        outputs: &Vec<Witness>,
    ) -> Result<OpcodeResolution, OpcodeResolutionError> {
        let _ = (initial_witness, inputs, outputs);
        untrodden()
    }
    fn compute_merkle_root(
        &self,
        initial_witness: &mut WitnessMap,
        inputs: &Vec<FunctionInput>,
        outputs: &Vec<Witness>,
    ) -> Result<OpcodeResolution, OpcodeResolutionError> {
        let _ = (initial_witness, inputs, outputs);
        untrodden()
    }
    fn schnorr_verify(
        &self,
        initial_witness: &mut WitnessMap,
        inputs: &Vec<FunctionInput>,
        outputs: &Vec<Witness>,
    ) -> Result<OpcodeResolution, OpcodeResolutionError> {
        let _ = (initial_witness, inputs, outputs);
        untrodden()
    }
    fn pedersen(
        &self,
        initial_witness: &mut WitnessMap,
        inputs: &Vec<FunctionInput>,
        outputs: &Vec<Witness>,
    ) -> Result<OpcodeResolution, OpcodeResolutionError> {
        let _ = (initial_witness, inputs, outputs);
        untrodden()
    }
    fn hash_to_field128_security(
        &self,
        initial_witness: &mut WitnessMap,
        inputs: &Vec<FunctionInput>,
        outputs: &Vec<Witness>,
    ) -> Result<OpcodeResolution, OpcodeResolutionError> {
        let _ = (initial_witness, inputs, outputs);
        untrodden()
    }
    fn ecdsa_secp256k1(
        &self,
        initial_witness: &mut WitnessMap,
        inputs: &Vec<FunctionInput>,
        outputs: &Vec<Witness>,
    ) -> Result<OpcodeResolution, OpcodeResolutionError> {
        let _ = (initial_witness, inputs, outputs);
        untrodden()
    }
    fn fixed_base_scalar_mul(
        &self,
        initial_witness: &mut WitnessMap,
        inputs: &Vec<FunctionInput>,
        outputs: &Vec<Witness>,
    ) -> Result<OpcodeResolution, OpcodeResolutionError> {
        let _ = (initial_witness, inputs, outputs);
        untrodden()
    }
    fn keccak256(
        &self,
        initial_witness: &mut WitnessMap,
        inputs: &Vec<FunctionInput>,
        outputs: &Vec<Witness>,
    ) -> Result<OpcodeResolution, OpcodeResolutionError> {
        let _ = (initial_witness, inputs, outputs);
        untrodden()
    }
}

impl PartialWitnessGenerator for NoPrimitives {
    fn aes(
        &self,
        initial_witness: &mut WitnessMap,
        inputs: &Vec<FunctionInput>,
        outputs: &Vec<Witness>,
    ) -> Result<OpcodeResolution, OpcodeResolutionError> {
        let _ = (initial_witness, inputs, outputs);
        Err(OpcodeResolutionError::UnsupportedBlackBoxFunc(BlackBoxFunc::AES))
    }
    fn and(
        &self,
        initial_witness: &mut WitnessMap,
        inputs: &Vec<FunctionInput>,
        outputs: &Vec<Witness>,
    ) -> Result<OpcodeResolution, OpcodeResolutionError> {
        let _ = (initial_witness, inputs, outputs);
        Err(OpcodeResolutionError::UnsupportedBlackBoxFunc(BlackBoxFunc::AND))
    }
    fn xor(
        &self,
        initial_witness: &mut WitnessMap,
        inputs: &Vec<FunctionInput>,
        outputs: &Vec<Witness>,
    ) -> Result<OpcodeResolution, OpcodeResolutionError> {
        let _ = (initial_witness, inputs, outputs);
        Err(OpcodeResolutionError::UnsupportedBlackBoxFunc(BlackBoxFunc::XOR))
    }
    fn range(
        &self,
        initial_witness: &mut WitnessMap,
        inputs: &Vec<FunctionInput>,
        outputs: &Vec<Witness>,
    ) -> Result<OpcodeResolution, OpcodeResolutionError> {
        let _ = (initial_witness, inputs, outputs);
        Err(OpcodeResolutionError::UnsupportedBlackBoxFunc(BlackBoxFunc::RANGE))
    }
    fn sha256(
        &self,
        initial_witness: &mut WitnessMap,
        inputs: &Vec<FunctionInput>,
        outputs: &Vec<Witness>,
    ) -> Result<OpcodeResolution, OpcodeResolutionError> {
        let _ = (initial_witness, inputs, outputs);
        Err(OpcodeResolutionError::UnsupportedBlackBoxFunc(BlackBoxFunc::SHA256))
    }
    fn blake2s(
        &self,
        initial_witness: &mut WitnessMap,
        inputs: &Vec<FunctionInput>,
        outputs: &Vec<Witness>,
    ) -> Result<OpcodeResolution, OpcodeResolutionError> {
        let _ = (initial_witness, inputs, outputs);
        Err(OpcodeResolutionError::UnsupportedBlackBoxFunc(BlackBoxFunc::Blake2s))
    }
    fn compute_merkle_root(
        &self,
        initial_witness: &mut WitnessMap,
        inputs: &Vec<FunctionInput>,
        outputs: &Vec<Witness>,
    ) -> Result<OpcodeResolution, OpcodeResolutionError> {
        let _ = (initial_witness, inputs, outputs);
        Err(OpcodeResolutionError::UnsupportedBlackBoxFunc(BlackBoxFunc::ComputeMerkleRoot))
    }
    fn schnorr_verify(
        &self,
        initial_witness: &mut WitnessMap,
        inputs: &Vec<FunctionInput>,
        outputs: &Vec<Witness>,
    ) -> Result<OpcodeResolution, OpcodeResolutionError> {
        let _ = (initial_witness, inputs, outputs);
        Err(OpcodeResolutionError::UnsupportedBlackBoxFunc(BlackBoxFunc::SchnorrVerify))
    }
    fn pedersen(
        &self,
        initial_witness: &mut WitnessMap,
        inputs: &Vec<FunctionInput>,
        outputs: &Vec<Witness>,
    ) -> Result<OpcodeResolution, OpcodeResolutionError> {
        let _ = (initial_witness, inputs, outputs);
        Err(OpcodeResolutionError::UnsupportedBlackBoxFunc(BlackBoxFunc::Pedersen))
    }
    fn hash_to_field128_security(
        &self,
        initial_witness: &mut WitnessMap,
        inputs: &Vec<FunctionInput>,
        outputs: &Vec<Witness>,
    ) -> Result<OpcodeResolution, OpcodeResolutionError> {
        let _ = (initial_witness, inputs, outputs);
        Err(OpcodeResolutionError::UnsupportedBlackBoxFunc(BlackBoxFunc::HashToField128Security))
    }
    fn ecdsa_secp256k1(
        &self,
        initial_witness: &mut WitnessMap,
        inputs: &Vec<FunctionInput>,
        outputs: &Vec<Witness>,
    ) -> Result<OpcodeResolution, OpcodeResolutionError> {
        let _ = (initial_witness, inputs, outputs);
        Err(OpcodeResolutionError::UnsupportedBlackBoxFunc(BlackBoxFunc::EcdsaSecp256k1))
    }
    fn fixed_base_scalar_mul(
        &self,
        initial_witness: &mut WitnessMap,
        inputs: &Vec<FunctionInput>,
        outputs: &Vec<Witness>,
    ) -> Result<OpcodeResolution, OpcodeResolutionError> {
        let _ = (initial_witness, inputs, outputs);
        Err(OpcodeResolutionError::UnsupportedBlackBoxFunc(BlackBoxFunc::FixedBaseScalarMul))
    }
    fn keccak256(
        &self,
        initial_witness: &mut WitnessMap,
        inputs: &Vec<FunctionInput>,
        outputs: &Vec<Witness>,
    ) -> Result<OpcodeResolution, OpcodeResolutionError> {
        let _ = (initial_witness, inputs, outputs);
        Err(OpcodeResolutionError::UnsupportedBlackBoxFunc(BlackBoxFunc::Keccak256))
    }
}

impl PartialWitnessGenerator for AndOnly {
    fn aes(
        &self,
        initial_witness: &mut WitnessMap,
        inputs: &Vec<FunctionInput>,
        outputs: &Vec<Witness>,
    ) -> Result<OpcodeResolution, OpcodeResolutionError> {
        let _ = (initial_witness, inputs, outputs);
        Err(OpcodeResolutionError::UnsupportedBlackBoxFunc(BlackBoxFunc::AES))
    }
    fn and(
        &self,
        initial_witness: &mut WitnessMap,
        inputs: &Vec<FunctionInput>,
        outputs: &Vec<Witness>,
    ) -> Result<OpcodeResolution, OpcodeResolutionError> {
        let value = and_values(initial_witness, inputs);
        initial_witness.insert(outputs[0].0, fe(value));
        Ok(OpcodeResolution::Solved)
    }
    fn xor(
        &self,
        initial_witness: &mut WitnessMap,
        inputs: &Vec<FunctionInput>,
        outputs: &Vec<Witness>,
    ) -> Result<OpcodeResolution, OpcodeResolutionError> {
        let _ = (initial_witness, inputs, outputs);
        Err(OpcodeResolutionError::UnsupportedBlackBoxFunc(BlackBoxFunc::XOR))
    }
    fn range(
        &self,
        initial_witness: &mut WitnessMap,
        inputs: &Vec<FunctionInput>,
        outputs: &Vec<Witness>,
    ) -> Result<OpcodeResolution, OpcodeResolutionError> {
        let _ = (initial_witness, inputs, outputs);
        Err(OpcodeResolutionError::UnsupportedBlackBoxFunc(BlackBoxFunc::RANGE))
    }
    fn sha256(
        &self,
        initial_witness: &mut WitnessMap,
        inputs: &Vec<FunctionInput>,
        outputs: &Vec<Witness>,
    ) -> Result<OpcodeResolution, OpcodeResolutionError> {
        let _ = (initial_witness, inputs, outputs);
        Err(OpcodeResolutionError::UnsupportedBlackBoxFunc(BlackBoxFunc::SHA256))
    }
    fn blake2s(
        &self,
        initial_witness: &mut WitnessMap,
        inputs: &Vec<FunctionInput>,
        outputs: &Vec<Witness>,
    ) -> Result<OpcodeResolution, OpcodeResolutionError> {
        let _ = (initial_witness, inputs, outputs);
        Err(OpcodeResolutionError::UnsupportedBlackBoxFunc(BlackBoxFunc::Blake2s))
    }
    fn compute_merkle_root(
        &self,
        initial_witness: &mut WitnessMap,
        inputs: &Vec<FunctionInput>,
        outputs: &Vec<Witness>,
    ) -> Result<OpcodeResolution, OpcodeResolutionError> {
        let _ = (initial_witness, inputs, outputs);
        Err(OpcodeResolutionError::UnsupportedBlackBoxFunc(BlackBoxFunc::ComputeMerkleRoot))
    }
    fn schnorr_verify(
        &self,
        initial_witness: &mut WitnessMap,
        inputs: &Vec<FunctionInput>,
        outputs: &Vec<Witness>,
    ) -> Result<OpcodeResolution, OpcodeResolutionError> {
        let _ = (initial_witness, inputs, outputs);
        Err(OpcodeResolutionError::UnsupportedBlackBoxFunc(BlackBoxFunc::SchnorrVerify))
    }
    fn pedersen(
        &self,
        initial_witness: &mut WitnessMap,
        inputs: &Vec<FunctionInput>,
        outputs: &Vec<Witness>,
    ) -> Result<OpcodeResolution, OpcodeResolutionError> {
        let _ = (initial_witness, inputs, outputs);
        Err(OpcodeResolutionError::UnsupportedBlackBoxFunc(BlackBoxFunc::Pedersen))
    }
    fn hash_to_field128_security(
        &self,
        initial_witness: &mut WitnessMap,
        inputs: &Vec<FunctionInput>,
        outputs: &Vec<Witness>,
    ) -> Result<OpcodeResolution, OpcodeResolutionError> {
        let _ = (initial_witness, inputs, outputs);
        Err(OpcodeResolutionError::UnsupportedBlackBoxFunc(BlackBoxFunc::HashToField128Security))
    }
    fn ecdsa_secp256k1(
        &self,
        initial_witness: &mut WitnessMap,
        inputs: &Vec<FunctionInput>,
        outputs: &Vec<Witness>,
    ) -> Result<OpcodeResolution, OpcodeResolutionError> {
        let _ = (initial_witness, inputs, outputs);
        Err(OpcodeResolutionError::UnsupportedBlackBoxFunc(BlackBoxFunc::EcdsaSecp256k1))
    }
    fn fixed_base_scalar_mul(
        &self,
        initial_witness: &mut WitnessMap,
        inputs: &Vec<FunctionInput>,
        outputs: &Vec<Witness>,
    ) -> Result<OpcodeResolution, OpcodeResolutionError> {
        let _ = (initial_witness, inputs, outputs);
        Err(OpcodeResolutionError::UnsupportedBlackBoxFunc(BlackBoxFunc::FixedBaseScalarMul))
    }
    fn keccak256(
        &self,
        initial_witness: &mut WitnessMap,
        inputs: &Vec<FunctionInput>,
        outputs: &Vec<Witness>,
    ) -> Result<OpcodeResolution, OpcodeResolutionError> {
        let _ = (initial_witness, inputs, outputs);
        Err(OpcodeResolutionError::UnsupportedBlackBoxFunc(BlackBoxFunc::Keccak256))
    }
}

fn and_values(w: &WitnessMap, inputs: &Vec<FunctionInput>) -> u128 {
    let a = w[&inputs[0].witness.0].try_to_u64().unwrap() as u128;
    let b = w[&inputs[1].witness.0].try_to_u64().unwrap() as u128;
    a & b
}

fn linear(terms: Vec<(FieldElement, Witness)>, q_c: FieldElement) -> Expression {
    Expression { mul_terms: vec![], linear_combinations: terms, q_c }
}

#[test]
fn inversion_oracle_equivalence() {
    // Opcodes below describe the following:
    // fn main(x : Field, y : pub Field) {
    //     let z = x + y;
    //     constrain 1/z == Oracle("inverse", x + y);
    // }
    let fe_0 = FieldElement::zero();
    let fe_1 = FieldElement::one();
    let w_x = Witness(1);
    let w_y = Witness(2);
    let w_oracle = Witness(3);
    let w_z = Witness(4);
    let w_z_inverse = Witness(5);
    let opcodes = vec![
        Opcode::Oracle(OracleData {
            name: "invert".into(),
            inputs: vec![Expression {
                mul_terms: vec![],
                linear_combinations: vec![(fe_1, w_x), (fe_1, w_y)],
                q_c: fe_0,
            }],
            input_values: vec![],
            outputs: vec![w_oracle],
            output_values: vec![],
        }),
        Opcode::Arithmetic(Expression {
            mul_terms: vec![],
            linear_combinations: vec![(fe_1, w_x), (fe_1, w_y), (fe_1.neg(), w_z)],
            q_c: fe_0,
        }),
        Opcode::Directive(Directive::Invert { x: w_z, result: w_z_inverse }),
        Opcode::Arithmetic(Expression {
            mul_terms: vec![(fe_1, w_z, w_z_inverse)],
            linear_combinations: vec![],
            q_c: fe_1.neg(),
        }),
        Opcode::Arithmetic(Expression {
            mul_terms: vec![],
            linear_combinations: vec![(fe_1.neg(), w_oracle), (fe_1, w_z_inverse)],
            q_c: fe_0,
        }),
    ];

    let backend = StubbedPwg;

    let mut witness_assignments: WitnessMap =
        BTreeMap::from([(1, FieldElement::from_u128(2u128)), (2, FieldElement::from_u128(3u128))]);
    let mut blocks = Blocks::default();
    let solver_status = pwg::solve(&backend, &mut witness_assignments, &mut blocks, opcodes)
        .expect("should stall on oracle");
    let PartialWitnessGeneratorStatus::RequiresOracleData { mut required_oracle_data, unsolved_opcodes } = solver_status else {
        panic!("Should require oracle data")
    };
    assert!(unsolved_opcodes.is_empty(), "oracle should be removed");
    assert_eq!(required_oracle_data.len(), 1, "should have an oracle request");
    let mut oracle_data = required_oracle_data.remove(0);

    assert_eq!(oracle_data.input_values.len(), 1, "Should have solved a single input");

    // Filling data request and continue solving
    oracle_data.output_values = vec![oracle_data.input_values.last().unwrap().inverse()];
    let mut next_opcodes_for_solving = vec![Opcode::Oracle(oracle_data)];
    next_opcodes_for_solving.extend_from_slice(&unsolved_opcodes[..]);
    let solver_status =
        pwg::solve(&backend, &mut witness_assignments, &mut blocks, next_opcodes_for_solving)
            .expect("should be solvable");
    assert_eq!(solver_status, PartialWitnessGeneratorStatus::Solved, "should be fully solved");
}

#[test]
fn oracle_round_trip_assigns_its_outputs() {
    // w3 is only known through the oracle; w4 = w3 + 1.
    let fe_1 = FieldElement::one();
    let opcodes = vec![
        Opcode::Arithmetic(linear(vec![(fe_1, Witness(3)), (fe_1.neg(), Witness(4))], fe_1)),
        Opcode::Oracle(OracleData {
            name: "double".into(),
            inputs: vec![linear(vec![(fe(2), Witness(1))], FieldElement::zero())],
            input_values: vec![],
            outputs: vec![Witness(3)],
            output_values: vec![],
        }),
    ];
    let mut w: WitnessMap = BTreeMap::from([(1, fe(21))]);
    let mut blocks = Blocks::new();
    let status = pwg::solve(&StubbedPwg, &mut w, &mut blocks, opcodes).unwrap();
    let PartialWitnessGeneratorStatus::RequiresOracleData { mut required_oracle_data, unsolved_opcodes } = status else {
        panic!("expected an oracle request")
    };
    assert_eq!(required_oracle_data.len(), 1);
    assert_eq!(unsolved_opcodes.len(), 1);
    assert!(unsolved_opcodes.iter().all(|op| !matches!(op, Opcode::Oracle(_))));
    let mut request = required_oracle_data.remove(0);
    assert_eq!(request.input_values, vec![fe(42)]);
    request.output_values = vec![fe(42)];
    let mut resumed = vec![Opcode::Oracle(request)];
    resumed.extend(unsolved_opcodes);
    let status = pwg::solve(&StubbedPwg, &mut w, &mut blocks, resumed).unwrap();
    assert_eq!(status, PartialWitnessGeneratorStatus::Solved);
    assert_eq!(w[&3], fe(42));
    assert_eq!(w[&4], fe(43));
}

#[test]
fn fully_assigned_wrong_constraint_is_unsatisfied() {
    // w1 + w2 - 6 with w1 = 2, w2 = 3 evaluates to -1.
    let fe_1 = FieldElement::one();
    let opcodes = vec![Opcode::Arithmetic(linear(
        vec![(fe_1, Witness(1)), (fe_1, Witness(2))],
        fe(6).neg(),
    ))];
    let mut w: WitnessMap = BTreeMap::from([(1, fe(2)), (2, fe(3))]);
    let before = w.clone();
    let result = pwg::solve(&StubbedPwg, &mut w, &mut Blocks::new(), opcodes);
    assert_eq!(result, Err(OpcodeResolutionError::UnsatisfiedConstrain));
    assert_eq!(w, before);
}

#[test]
fn unsupported_primitive_is_fatal_with_known_inputs() {
    let opcodes = vec![Opcode::BlackBoxFuncCall(BlackBoxFuncCall {
        name: BlackBoxFunc::SHA256,
        inputs: vec![FunctionInput { witness: Witness(1), num_bits: 8 }],
        outputs: vec![Witness(2)],
    })];
    let mut w: WitnessMap = BTreeMap::from([(1, fe(7))]);
    let result = pwg::solve(&NoPrimitives, &mut w, &mut Blocks::new(), opcodes);
    assert_eq!(result, Err(OpcodeResolutionError::UnsupportedBlackBoxFunc(BlackBoxFunc::SHA256)));
}

#[test]
fn backend_failure_is_passed_on() {
    let mut w: WitnessMap = BTreeMap::new();
    let computed: WitnessMap = BTreeMap::new();
    let failure = Err(OpcodeResolutionError::BlackBoxFunctionFailed(
        BlackBoxFunc::SchnorrVerify,
        "bad signature".to_string(),
    ));
    let r = apply_blackbox_outcome(BlackBoxFunc::SchnorrVerify, &mut w, &computed, &vec![Witness(1)], failure);
    assert_eq!(
        r,
        Err(OpcodeResolutionError::BlackBoxFunctionFailed(
            BlackBoxFunc::SchnorrVerify,
            "bad signature".to_string()
        ))
    );
    assert!(w.is_empty());
}

#[test]
fn blackbox_outputs_are_copied_after_inputs_are_known() {
    // w3 = w1 AND w2, where w2 is only known once w2 - 6 = 0 is solved.
    let opcodes = vec![
        Opcode::BlackBoxFuncCall(BlackBoxFuncCall {
            name: BlackBoxFunc::AND,
            inputs: vec![
                FunctionInput { witness: Witness(1), num_bits: 8 },
                FunctionInput { witness: Witness(2), num_bits: 8 },
            ],
            outputs: vec![Witness(3)],
        }),
        Opcode::Arithmetic(linear(vec![(FieldElement::one(), Witness(2))], fe(6).neg())),
    ];
    let mut w: WitnessMap = BTreeMap::from([(1, fe(12))]);
    let status = pwg::solve(&AndOnly, &mut w, &mut Blocks::new(), opcodes).unwrap();
    assert_eq!(status, PartialWitnessGeneratorStatus::Solved);
    assert_eq!(w[&2], fe(6));
    assert_eq!(w[&3], fe(4));
}

#[test]
fn stall_without_oracle_is_not_solvable() {
    // Two unknowns in one linear equation.
    let fe_1 = FieldElement::one();
    let opcodes = vec![Opcode::Arithmetic(linear(
        vec![(fe_1, Witness(1)), (fe_1, Witness(2))],
        FieldElement::zero(),
    ))];
    let mut w: WitnessMap = BTreeMap::new();
    let result = pwg::solve(&StubbedPwg, &mut w, &mut Blocks::new(), opcodes);
    assert!(matches!(
        result,
        Err(OpcodeResolutionError::OpcodeNotSolvable(OpcodeNotSolvable::ExpressionHasTooManyUnknowns(_)))
    ));
}

#[test]
fn directive_inverts_and_maps_zero_to_zero() {
    let opcodes = vec![
        Opcode::Directive(Directive::Invert { x: Witness(1), result: Witness(2) }),
        Opcode::Directive(Directive::Invert { x: Witness(3), result: Witness(4) }),
    ];
    let mut w: WitnessMap = BTreeMap::from([(1, fe(5)), (3, FieldElement::zero())]);
    let status = pwg::solve(&StubbedPwg, &mut w, &mut Blocks::new(), opcodes).unwrap();
    assert_eq!(status, PartialWitnessGeneratorStatus::Solved);
    assert_eq!(w[&2].mul(fe(5)), FieldElement::one());
    assert!(w[&4].is_zero());
}

#[test]
fn opcodes_out_of_order_are_solved_over_several_sweeps() {
    // w3 = w2 * 2 comes before w2 = w1 + 1.
    let fe_1 = FieldElement::one();
    let opcodes = vec![
        Opcode::Arithmetic(linear(vec![(fe(2), Witness(2)), (fe_1.neg(), Witness(3))], FieldElement::zero())),
        Opcode::Arithmetic(linear(vec![(fe_1, Witness(1)), (fe_1.neg(), Witness(2))], fe_1)),
    ];
    let mut w: WitnessMap = BTreeMap::from([(1, fe(4))]);
    let status = pwg::solve(&StubbedPwg, &mut w, &mut Blocks::new(), opcodes).unwrap();
    assert_eq!(status, PartialWitnessGeneratorStatus::Solved);
    assert_eq!(w[&2], fe(5));
    assert_eq!(w[&3], fe(10));
}

#[test]
fn solve_arithmetic_uses_known_factor_of_a_product() {
    // 3 * w1 * w2 - 24 = 0 with w1 = 2 gives w2 = 4.
    let e = Expression {
        mul_terms: vec![(fe(3), Witness(1), Witness(2))],
        linear_combinations: vec![],
        q_c: fe(24).neg(),
    };
    let mut w: WitnessMap = BTreeMap::from([(1, fe(2))]);
    assert_eq!(solve_arithmetic(&mut w, &e), Ok(OpcodeResolution::Solved));
    assert_eq!(w[&2], fe(4));
    assert_eq!(evaluate(&e, &w), Some(FieldElement::zero()));
}

#[test]
fn solve_arithmetic_cancelled_unknown_is_a_tautology() {
    // 0 * w1 + 0 = 0 holds whatever w1 is.
    let e = linear(vec![(FieldElement::zero(), Witness(1))], FieldElement::zero());
    let mut w: WitnessMap = BTreeMap::new();
    assert_eq!(solve_arithmetic(&mut w, &e), Ok(OpcodeResolution::Solved));
    assert!(w.is_empty());
    let e = linear(vec![(FieldElement::zero(), Witness(1))], fe(1));
    assert_eq!(solve_arithmetic(&mut w, &e), Err(OpcodeResolutionError::UnsatisfiedConstrain));
}

#[test]
fn insert_value_never_overwrites() {
    let mut w: WitnessMap = BTreeMap::new();
    assert_eq!(insert_value(&mut w, Witness(1), fe(9)), Ok(()));
    assert_eq!(insert_value(&mut w, Witness(1), fe(9)), Ok(()));
    assert_eq!(insert_value(&mut w, Witness(1), fe(8)), Err(OpcodeResolutionError::UnsatisfiedConstrain));
    assert_eq!(w[&1], fe(9));
}

fn mem_op(operation: u128, index: u128, value: Expression) -> MemOp {
    MemOp {
        operation: linear(vec![], fe(operation)),
        index: linear(vec![], fe(index)),
        value,
    }
}

#[test]
fn block_reads_what_was_written() {
    // mem[3] = w1; w2 = mem[3].
    let trace = vec![
        mem_op(1, 3, linear(vec![(FieldElement::one(), Witness(1))], FieldElement::zero())),
        mem_op(0, 3, linear(vec![(FieldElement::one(), Witness(2))], FieldElement::zero())),
    ];
    let opcodes = vec![Opcode::Block(MemoryBlock { id: BlockId(0), len: 4, trace })];
    let mut w: WitnessMap = BTreeMap::from([(1, fe(77))]);
    let status = pwg::solve(&StubbedPwg, &mut w, &mut Blocks::new(), opcodes).unwrap();
    assert_eq!(status, PartialWitnessGeneratorStatus::Solved);
    assert_eq!(w[&2], fe(77));
}

#[test]
fn block_resumes_where_it_stopped() {
    let trace = vec![
        mem_op(1, 0, linear(vec![], fe(5))),
        mem_op(0, 1, linear(vec![(FieldElement::one(), Witness(1))], FieldElement::zero())),
    ];
    let mut solver = BlockSolver::new();
    let mut w: WitnessMap = BTreeMap::new();
    let r = solver.solve(&mut w, &trace);
    assert!(matches!(r, Ok(OpcodeResolution::Stalled(_))));
    w.insert(1, fe(6));
    assert_eq!(solver.solve(&mut w, &trace), Ok(OpcodeResolution::Solved));
}

#[test]
fn block_read_that_disagrees_with_memory_is_unsatisfied() {
    let trace = vec![
        mem_op(1, 2, linear(vec![], fe(5))),
        mem_op(0, 2, linear(vec![], fe(6))),
    ];
    let mut w: WitnessMap = BTreeMap::new();
    let r = Blocks::new().solve(BlockId(1), &trace, &mut w);
    assert_eq!(r, Err(OpcodeResolutionError::UnsatisfiedConstrain));
}

#[test]
fn fully_assigned_holding_circuit_is_solved() {
    // w1 * w2 - 6 = 0 and w1 + w2 - 5 = 0 with w1 = 2, w2 = 3.
    let fe_1 = FieldElement::one();
    let opcodes = vec![
        Opcode::Arithmetic(Expression {
            mul_terms: vec![(fe_1, Witness(1), Witness(2))],
            linear_combinations: vec![],
            q_c: fe(6).neg(),
        }),
        Opcode::Arithmetic(linear(vec![(fe_1, Witness(1)), (fe_1, Witness(2))], fe(5).neg())),
    ];
    let mut w: WitnessMap = BTreeMap::from([(1, fe(2)), (2, fe(3))]);
    let status = pwg::solve(&StubbedPwg, &mut w, &mut Blocks::new(), opcodes).unwrap();
    assert_eq!(status, PartialWitnessGeneratorStatus::Solved);
    assert_eq!(w.len(), 2);
}

#[test]
fn each_ready_oracle_becomes_one_request() {
    let fe_1 = FieldElement::one();
    let oracle = |name: &str, input: u32, output: u32| {
        Opcode::Oracle(OracleData {
            name: name.into(),
            inputs: vec![linear(vec![(fe_1, Witness(input))], FieldElement::zero())],
            input_values: vec![],
            outputs: vec![Witness(output)],
            output_values: vec![],
        })
    };
    let opcodes = vec![
        oracle("first", 1, 3),
        Opcode::Arithmetic(linear(vec![(fe_1, Witness(1)), (fe_1, Witness(2))], fe(9).neg())),
        oracle("second", 2, 4),
    ];
    let mut w: WitnessMap = BTreeMap::from([(1, fe(4)), (2, fe(5))]);
    let status = pwg::solve(&StubbedPwg, &mut w, &mut Blocks::new(), opcodes).unwrap();
    let PartialWitnessGeneratorStatus::RequiresOracleData { required_oracle_data, unsolved_opcodes } = status else {
        panic!("expected oracle requests")
    };
    assert!(unsolved_opcodes.is_empty());
    assert_eq!(required_oracle_data.len(), 2);
    assert_eq!(required_oracle_data[0].name, "first");
    assert_eq!(required_oracle_data[0].input_values, vec![fe(4)]);
    assert_eq!(required_oracle_data[1].name, "second");
    assert_eq!(required_oracle_data[1].input_values, vec![fe(5)]);
}

#[test]
fn oracle_output_that_disagrees_is_unsatisfied() {
    let fe_1 = FieldElement::one();
    let opcodes = vec![Opcode::Oracle(OracleData {
        name: "copy".into(),
        inputs: vec![linear(vec![(fe_1, Witness(1))], FieldElement::zero())],
        input_values: vec![],
        outputs: vec![Witness(2)],
        output_values: vec![fe(8)],
    })];
    let mut w: WitnessMap = BTreeMap::from([(1, fe(7)), (2, fe(7))]);
    let result = pwg::solve(&StubbedPwg, &mut w, &mut Blocks::new(), opcodes);
    assert_eq!(result, Err(OpcodeResolutionError::UnsatisfiedConstrain));
}

#[test]
fn wrong_number_of_inputs_is_fatal_before_the_backend() {
    let opcodes = vec![Opcode::BlackBoxFuncCall(BlackBoxFuncCall {
        name: BlackBoxFunc::AND,
        inputs: vec![FunctionInput { witness: Witness(1), num_bits: 8 }],
        outputs: vec![Witness(2)],
    })];
    let mut w: WitnessMap = BTreeMap::from([(1, fe(3))]);
    let result = pwg::solve(&StubbedPwg, &mut w, &mut Blocks::new(), opcodes);
    assert_eq!(
        result,
        Err(OpcodeResolutionError::IncorrectNumFunctionArguments(2, BlackBoxFunc::AND, 1))
    );
}
