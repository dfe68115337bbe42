use acvm::circuit::{
    BlackBoxFunc, BlackBoxFuncCall, Circuit, Expression, FunctionInput, Opcode, PublicInputs,
    Witness,
};
use acvm::field::FieldElement;
use acvm::redundant_range::{extract_range_opcode, RangeOptimizer};

fn test_range_constraint(witness: Witness, num_bits: u32) -> Opcode {
    Opcode::BlackBoxFuncCall(BlackBoxFuncCall {
        name: BlackBoxFunc::RANGE,
        inputs: vec![FunctionInput { witness, num_bits }],
        outputs: vec![],
    })
}

fn test_circuit(ranges: Vec<(Witness, u32)>) -> Circuit {
    let opcodes: Vec<_> = ranges
        .into_iter()
        .map(|(witness, num_bits)| test_range_constraint(witness, num_bits))
        .collect();

    Circuit {
        current_witness_index: 1,
        opcodes,
        public_parameters: PublicInputs::default(),
        return_values: PublicInputs::default(),
    }
}

fn optimize(circuit: Circuit) -> Circuit {
    RangeOptimizer::new(circuit).replace_redundant_ranges()
}

#[test]
fn retain_lowest_range_size() {
    // The optimizer should keep the lowest bit size range constraint
    let circuit = test_circuit(vec![(Witness(1), 32), (Witness(1), 16)]);

    let optimizer = RangeOptimizer::new(circuit);

    let range_size = optimizer
        .lowest_range(Witness(1))
        .expect("Witness(1) was inserted, but it is missing from the map");
    assert_eq!(
        range_size, 16,
        "expected a range size of 16 since that was the lowest bit size provided"
    );

    let optimized_circuit = optimizer.replace_redundant_ranges();
    assert_eq!(optimized_circuit.opcodes.len(), 1);

    let (witness, num_bits) =
        extract_range_opcode(&optimized_circuit.opcodes[0]).expect("expected one range opcode");

    assert_eq!(witness, Witness(1));
    assert_eq!(num_bits, 16);
}

#[test]
fn remove_duplicates() {
    // The optimizer should remove all duplicate range opcodes.
    let circuit = test_circuit(vec![
        (Witness(1), 16),
        (Witness(1), 16),
        (Witness(2), 23),
        (Witness(2), 23),
    ]);

    let optimizer = RangeOptimizer::new(circuit);
    let optimized_circuit = optimizer.replace_redundant_ranges();
    assert_eq!(optimized_circuit.opcodes.len(), 2);

    let (witness_a, num_bits_a) =
        extract_range_opcode(&optimized_circuit.opcodes[0]).expect("expected two range opcode");
    let (witness_b, num_bits_b) =
        extract_range_opcode(&optimized_circuit.opcodes[1]).expect("expected two range opcode");

    assert_eq!(witness_a, Witness(1));
    assert_eq!(witness_b, Witness(2));
    assert_eq!(num_bits_a, 16);
    assert_eq!(num_bits_b, 23);
}

#[test]
fn non_range_opcodes() {
    // The optimizer should not remove or change non-range opcodes
    // The four Arithmetic opcodes should remain unchanged.
    let mut circuit = test_circuit(vec![(Witness(1), 16), (Witness(1), 16)]);

    circuit.opcodes.push(Opcode::Arithmetic(Expression::zero()));
    circuit.opcodes.push(Opcode::Arithmetic(Expression::zero()));
    circuit.opcodes.push(Opcode::Arithmetic(Expression::zero()));
    circuit.opcodes.push(Opcode::Arithmetic(Expression::zero()));

    let optimizer = RangeOptimizer::new(circuit);
    let optimized_circuit = optimizer.replace_redundant_ranges();
    assert_eq!(optimized_circuit.opcodes.len(), 5)
}

fn arithmetic(constant: u128) -> Opcode {
    Opcode::Arithmetic(Expression {
        mul_terms: vec![],
        linear_combinations: vec![(FieldElement::one(), Witness(3))],
        q_c: FieldElement::from_u128(constant),
    })
}

#[test]
fn optimizing_twice_changes_nothing() {
    let mut circuit = test_circuit(vec![
        (Witness(2), 64),
        (Witness(1), 32),
        (Witness(2), 8),
        (Witness(1), 32),
        (Witness(2), 8),
    ]);
    circuit.opcodes.insert(1, arithmetic(7));
    let once = optimize(circuit);
    let twice = optimize(once.clone());
    assert_eq!(once, twice);
    assert_eq!(once.opcodes.len(), 3);
}

#[test]
fn keeps_first_range_at_smallest_width_and_order_of_others() {
    let circuit = Circuit {
        current_witness_index: 4,
        opcodes: vec![
            test_range_constraint(Witness(2), 64),
            arithmetic(1),
            test_range_constraint(Witness(1), 32),
            test_range_constraint(Witness(2), 8),
            arithmetic(2),
            test_range_constraint(Witness(1), 32),
            test_range_constraint(Witness(2), 8),
            arithmetic(3),
        ],
        public_parameters: PublicInputs(vec![Witness(1)]),
        return_values: PublicInputs(vec![Witness(4)]),
    };
    let optimized = optimize(circuit);
    assert_eq!(
        optimized.opcodes,
        vec![
            arithmetic(1),
            test_range_constraint(Witness(1), 32),
            test_range_constraint(Witness(2), 8),
            arithmetic(2),
            arithmetic(3),
        ]
    );
    assert_eq!(optimized.current_witness_index, 4);
    assert_eq!(optimized.public_parameters, PublicInputs(vec![Witness(1)]));
    assert_eq!(optimized.return_values, PublicInputs(vec![Witness(4)]));
}

#[test]
fn circuit_without_ranges_is_unchanged() {
    let circuit = Circuit {
        current_witness_index: 3,
        opcodes: vec![arithmetic(1), arithmetic(2)],
        public_parameters: PublicInputs::default(),
        return_values: PublicInputs::default(),
    };
    let optimizer = RangeOptimizer::new(circuit.clone());
    assert_eq!(optimizer.lowest_range(Witness(1)), None);
    assert_eq!(optimizer.replace_redundant_ranges(), circuit);
}

#[test]
fn extract_range_ignores_other_calls() {
    let call = Opcode::BlackBoxFuncCall(BlackBoxFuncCall {
        name: BlackBoxFunc::SHA256,
        inputs: vec![FunctionInput { witness: Witness(1), num_bits: 8 }],
        outputs: vec![Witness(2)],
    });
    assert_eq!(extract_range_opcode(&call), None);
    assert_eq!(extract_range_opcode(&arithmetic(0)), None);
    assert_eq!(extract_range_opcode(&test_range_constraint(Witness(5), 3)), Some((Witness(5), 3)));
}
