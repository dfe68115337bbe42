use vstd::prelude::*;

use crate::circuit::{
    BlackBoxFunc, BlackBoxFuncCall, BlockId, Directive, Expression, MemOp, Opcode, OracleData,
    Witness,
};
use crate::arithmetic::{
    assigned, consistent, eval, evaluate, grows, insert_value, lemma_eval_grows, lemma_grows_len,
    lemma_grows_same_len, lemma_grows_trans, lemma_settled_grows, lemma_settled_stuck,
    settled_expression, solve_arithmetic, stuck_expression,
};
use crate::field::{fmul, modulus, FieldElement};
use crate::seq_util::reversed;
use crate::{OpcodeNotSolvable, OpcodeResolutionError, PartialWitnessGenerator};
use std::collections::BTreeMap;

verus! {

broadcast use vstd::std_specs::btree::group_btree_axioms, vstd::laws_cmp::group_laws_cmp;

/// The values assigned so far, keyed by witness index.
pub type WitnessMap = BTreeMap<u32, FieldElement>;

/// What became of one opcode in one attempt to solve it.
#[derive(Debug, PartialEq, Eq)]
pub enum OpcodeResolution {
    /// The opcode is solved and holds.
    Solved,
    /// Part of the opcode was solved; it stays in the list.
    InProgress,
    /// Nothing could be done yet.
    Stalled(OpcodeNotSolvable),
}

/// The opcode was solved.
pub open spec fn is_solved(r: Result<OpcodeResolution, OpcodeResolutionError>) -> bool {
    r matches Ok(OpcodeResolution::Solved)
}

/// Part of the opcode was solved.
pub open spec fn is_in_progress(r: Result<OpcodeResolution, OpcodeResolutionError>) -> bool {
    r matches Ok(OpcodeResolution::InProgress)
}

/// Nothing of the opcode could be solved yet.
pub open spec fn is_stalled(r: Result<OpcodeResolution, OpcodeResolutionError>) -> bool {
    r matches Ok(OpcodeResolution::Stalled(_))
}

/// The opcode does not hold.
pub open spec fn is_unsatisfied(r: Result<OpcodeResolution, OpcodeResolutionError>) -> bool {
    r matches Err(OpcodeResolutionError::UnsatisfiedConstrain)
}

/// Solves a directive once the witnesses it reads are assigned.
pub fn solve_directive(w: &mut WitnessMap, d: &Directive) -> (r: Result<
    OpcodeResolution,
    OpcodeResolutionError,
>)
    ensures
        grows(old(w)@, final(w)@),
        r matches Ok(OpcodeResolution::Stalled(_)) ==> final(w)@ == old(w)@,
        !(r matches Ok(OpcodeResolution::InProgress)),
        r is Err ==> r matches Err(OpcodeResolutionError::UnsatisfiedConstrain),
        match *d {
            Directive::Invert { x, result } => {
                &&& !old(w)@.contains_key(x.0) ==> is_stalled(r) && final(w)@ == old(w)@
                &&& old(w)@.contains_key(x.0) ==> !is_stalled(r)
                &&& old(w)@.contains_key(x.0) && !old(w)@.contains_key(result.0) ==> is_solved(r)
            },
        },
        r matches Ok(OpcodeResolution::Solved) ==> match *d {
            Directive::Invert { x, result } => {
                &&& final(w)@.contains_key(x.0)
                &&& final(w)@.contains_key(result.0)
                &&& final(w)@[x.0].value() % modulus() == 0 ==> final(w)@[result.0].value() == 0
                &&& final(w)@[x.0].value() % modulus() != 0 ==> fmul(
                    final(w)@[result.0].value(),
                    final(w)@[x.0].value(),
                ) == 1
            },
        },
{
    match d {
        Directive::Invert { x, result } => {
            let vx = match w.get(&x.0) {
                Some(v) => *v,
                None => {
                    return Ok(OpcodeResolution::Stalled(OpcodeNotSolvable::MissingAssignment(x.0)));
                },
            };
            match insert_value(w, *result, vx.inverse()) {
                Ok(()) => Ok(OpcodeResolution::Solved),
                Err(err) => Err(err),
            }
        },
    }
}

/// The values of the inputs of an oracle request, once every witness they name is assigned;
/// otherwise the position of the first input that is not determined yet.
pub fn oracle_input_values(w: &WitnessMap, inputs: &Vec<Expression>) -> (r: Result<Vec<FieldElement>, usize>)
    ensures
        r is Ok <==> forall|j: int| 0 <= j < inputs@.len() ==> assigned(#[trigger] inputs@[j], w@),
        r matches Ok(v) ==> v@.len() == inputs@.len() && forall|j: int|
            0 <= j < inputs@.len() ==> (#[trigger] v@[j]).value() == eval(inputs@[j], w@),
        r matches Err(k) ==> k < inputs@.len() && !assigned(inputs@[k as int], w@),
{
    let mut values: Vec<FieldElement> = Vec::new();
    let mut i: usize = 0;
    while i < inputs.len()
        invariant
            i <= inputs@.len(),
            values@.len() == i,
            forall|j: int| 0 <= j < i ==> assigned(#[trigger] inputs@[j], w@),
            forall|j: int| 0 <= j < i ==> (#[trigger] values@[j]).value() == eval(inputs@[j], w@),
        decreases inputs@.len() - i,
    {
        match evaluate(&inputs[i], w) {
            Some(v) => {
                values.push(v);
            },
            None => {
                return Err(i);
            },
        }
        i = i + 1;
    }
    Ok(values)
}

/// The supplied output values agree with `w` and with each other.
pub open spec fn outputs_agree(
    outputs: Seq<Witness>,
    values: Seq<FieldElement>,
    w: Map<u32, FieldElement>,
) -> bool {
    &&& forall|j: int|
        0 <= j < outputs.len() && w.contains_key(#[trigger] outputs[j].0) ==> w[outputs[j].0].value()
            == values[j].value()
    &&& forall|j: int, k: int|
        0 <= j < outputs.len() && 0 <= k < outputs.len() && #[trigger] outputs[j].0 == #[trigger] outputs[k].0
            ==> values[j].value() == values[k].value()
}

/// Assigns the output values that the caller supplied for an oracle request.
pub fn assign_oracle_outputs(w: &mut WitnessMap, outputs: &Vec<Witness>, values: &Vec<FieldElement>) -> (r: Result<
    (),
    OpcodeResolutionError,
>)
    requires
        outputs@.len() == values@.len(),
    ensures
        grows(old(w)@, final(w)@),
        r is Ok ==> forall|j: int|
            0 <= j < outputs@.len() ==> final(w)@.contains_key(#[trigger] outputs@[j].0)
                && final(w)@[outputs@[j].0].value() == values@[j].value(),
        r is Err ==> r == Err::<(), _>(OpcodeResolutionError::UnsatisfiedConstrain),
        outputs_agree(outputs@, values@, old(w)@) ==> r is Ok,
{
    let mut i: usize = 0;
    while i < outputs.len()
        invariant
            i <= outputs@.len(),
            outputs@.len() == values@.len(),
            grows(old(w)@, w@),
            forall|x: u32|
                #[trigger] w@.contains_key(x) && !old(w)@.contains_key(x) ==> exists|k: int|
                    0 <= k < i && outputs@[k].0 == x,
            outputs_agree(outputs@, values@, old(w)@) ==> forall|x: u32|
                #[trigger] w@.contains_key(x) && old(w)@.contains_key(x) ==> w@[x] == old(w)@[x],
            forall|j: int|
                0 <= j < i ==> w@.contains_key(#[trigger] outputs@[j].0) && w@[outputs@[j].0].value()
                    == values@[j].value(),
        decreases outputs@.len() - i,
    {
        let ghost before = w@;
        proof {
            let x = outputs@[i as int].0;
            if outputs_agree(outputs@, values@, old(w)@) && before.contains_key(x) {
                if !old(w)@.contains_key(x) {
                    let k = choose|k: int| 0 <= k < i && outputs@[k].0 == x;
                    assert(before[outputs@[k].0].value() == values@[k].value());
                }
            }
        }
        if let Err(err) = insert_value(w, outputs[i], values[i]) {
            return Err(err);
        }
        proof {
            assert forall|x: u32| #[trigger] w@.contains_key(x) && !old(w)@.contains_key(x) implies exists|k: int|
                0 <= k < i + 1 && outputs@[k].0 == x by {
                if !before.contains_key(x) {
                    assert(outputs@[i as int].0 == x);
                }
            }
        }
        i = i + 1;
    }
    Ok(())
}

/// Hands a primitive call to the backend method of its name.
fn dispatch<B: PartialWitnessGenerator>(backend: &B, w: &mut WitnessMap, call: &BlackBoxFuncCall) -> Result<
    OpcodeResolution,
    OpcodeResolutionError,
> {
    let inputs = &call.inputs;
    let outputs = &call.outputs;
    match call.name {
        BlackBoxFunc::AES => backend.aes(w, inputs, outputs),
        BlackBoxFunc::AND => backend.and(w, inputs, outputs),
        BlackBoxFunc::XOR => backend.xor(w, inputs, outputs),
        BlackBoxFunc::RANGE => backend.range(w, inputs, outputs),
        BlackBoxFunc::SHA256 => backend.sha256(w, inputs, outputs),
        BlackBoxFunc::Blake2s => backend.blake2s(w, inputs, outputs),
        BlackBoxFunc::ComputeMerkleRoot => backend.compute_merkle_root(w, inputs, outputs),
        BlackBoxFunc::SchnorrVerify => backend.schnorr_verify(w, inputs, outputs),
        BlackBoxFunc::Pedersen => backend.pedersen(w, inputs, outputs),
        BlackBoxFunc::HashToField128Security => backend.hash_to_field128_security(w, inputs, outputs),
        BlackBoxFunc::EcdsaSecp256k1 => backend.ecdsa_secp256k1(w, inputs, outputs),
        BlackBoxFunc::FixedBaseScalarMul => backend.fixed_base_scalar_mul(w, inputs, outputs),
        BlackBoxFunc::Keccak256 => backend.keccak256(w, inputs, outputs),
    }
}

/// Every output is computed, and agrees with `w` where `w` already assigns it.
pub open spec fn outputs_computed(
    outputs: Seq<Witness>,
    computed: Map<u32, FieldElement>,
    w: Map<u32, FieldElement>,
) -> bool {
    forall|j: int|
        0 <= j < outputs.len() ==> computed.contains_key(#[trigger] outputs[j].0) && (w.contains_key(
            outputs[j].0,
        ) ==> w[outputs[j].0].value() == computed[outputs[j].0].value())
}

/// Takes what a backend answered for a primitive call: on success the outputs it computed into
/// `computed` are assigned, and any failure it reported is passed on unchanged.
pub fn apply_blackbox_outcome(
    name: BlackBoxFunc,
    w: &mut WitnessMap,
    computed: &WitnessMap,
    outputs: &Vec<Witness>,
    outcome: Result<OpcodeResolution, OpcodeResolutionError>,
) -> (r: Result<OpcodeResolution, OpcodeResolutionError>)
    ensures
        grows(old(w)@, final(w)@),
        outcome is Err && !(outcome matches Err(OpcodeResolutionError::OpcodeNotSolvable(_)))
            ==> r == outcome && final(w)@ == old(w)@,
        outcome matches Err(OpcodeResolutionError::OpcodeNotSolvable(reason)) ==> r == Ok::<
            _,
            OpcodeResolutionError,
        >(OpcodeResolution::Stalled(reason)) && final(w)@ == old(w)@,
        !(r matches Err(OpcodeResolutionError::OpcodeNotSolvable(_))),
        outcome matches Ok(OpcodeResolution::Stalled(_)) ==> r == outcome && final(w)@ == old(w)@,
        is_in_progress(outcome) ==> final(w)@ == old(w)@ && r == Err::<OpcodeResolution, _>(
            OpcodeResolutionError::UnexpectedOpcode("a call that completes or stalls", name),
        ),
        !is_in_progress(r),
        is_solved(outcome) && r is Err ==> is_unsatisfied(r),
        is_solved(outcome) ==> !is_in_progress(r),
        is_solved(outcome) ==> (is_stalled(r) <==> exists|j: int|
            0 <= j < outputs@.len() && !computed@.contains_key(#[trigger] outputs@[j].0)),
        is_solved(outcome) && is_stalled(r) ==> final(w)@ == old(w)@,
        is_solved(outcome) && outputs_computed(outputs@, computed@, old(w)@) ==> is_solved(r),
        is_solved(outcome) && is_solved(r) ==> forall|j: int|
            0 <= j < outputs@.len() ==> {
                &&& computed@.contains_key(#[trigger] outputs@[j].0)
                &&& final(w)@.contains_key(outputs@[j].0)
                &&& final(w)@[outputs@[j].0].value() == computed@[outputs@[j].0].value()
            },
{
    let solved = match &outcome {
        Ok(OpcodeResolution::Solved) => true,
        _ => false,
    };
    let in_progress = match &outcome {
        Ok(OpcodeResolution::InProgress) => true,
        _ => false,
    };
    if in_progress {
        // A primitive call either completes or waits for its inputs.
        return Err(OpcodeResolutionError::UnexpectedOpcode("a call that completes or stalls", name));
    }
    if !solved {
        return match outcome {
            // A backend that lacks inputs waits like any other opcode.
            Err(OpcodeResolutionError::OpcodeNotSolvable(reason)) => Ok(OpcodeResolution::Stalled(reason)),
            other => other,
        };
    }
    // Every output must have been computed before any is assigned.
    let mut i: usize = 0;
    while i < outputs.len()
        invariant
            i <= outputs@.len(),
            is_solved(outcome),
            forall|j: int| 0 <= j < i ==> computed@.contains_key(#[trigger] outputs@[j].0),
        decreases outputs@.len() - i,
    {
        if !computed.contains_key(&outputs[i].0) {
            return Ok(OpcodeResolution::Stalled(OpcodeNotSolvable::MissingAssignment(outputs[i].0)));
        }
        i = i + 1;
    }
    let mut i: usize = 0;
    while i < outputs.len()
        invariant
            i <= outputs@.len(),
            is_solved(outcome),
            forall|j: int| 0 <= j < outputs@.len() ==> computed@.contains_key(#[trigger] outputs@[j].0),
            grows(old(w)@, w@),
            forall|x: u32|
                #[trigger] w@.contains_key(x) && !old(w)@.contains_key(x) ==> computed@.contains_key(x)
                    && w@[x].value() == computed@[x].value(),
            forall|j: int|
                0 <= j < i ==> {
                    &&& computed@.contains_key(#[trigger] outputs@[j].0)
                    &&& w@.contains_key(outputs@[j].0)
                    &&& w@[outputs@[j].0].value() == computed@[outputs@[j].0].value()
                },
        decreases outputs@.len() - i,
    {
        let out = outputs[i];
        let value = *computed.get(&out.0).unwrap();
        let ghost before = w@;
        if let Err(err) = insert_value(w, out, value) {
            return Err(err);
        }
        proof {
            assert forall|x: u32|
                #[trigger] w@.contains_key(x) && !old(w)@.contains_key(x) implies computed@.contains_key(x)
                    && w@[x].value() == computed@[x].value() by {
                if !before.contains_key(x) {
                    assert(x == out.0);
                }
            }
        }
        i = i + 1;
    }
    Ok(OpcodeResolution::Solved)
}

/// The number of inputs that a primitive takes, where it takes a fixed number.
pub open spec fn expected_inputs(name: BlackBoxFunc) -> Option<nat> {
    match name {
        BlackBoxFunc::AND => Some(2),
        BlackBoxFunc::XOR => Some(2),
        BlackBoxFunc::RANGE => Some(1),
        _ => None,
    }
}

/// The number of inputs that a primitive takes, where it takes a fixed number.
pub fn expected_input_count(name: BlackBoxFunc) -> (r: Option<usize>)
    ensures
        r matches Some(n) ==> expected_inputs(name) == Some(n as nat),
        r is None ==> expected_inputs(name) is None,
{
    match name {
        BlackBoxFunc::AND => Some(2),
        BlackBoxFunc::XOR => Some(2),
        BlackBoxFunc::RANGE => Some(1),
        _ => None,
    }
}

/// Solves a primitive call through the backend once all of its inputs are assigned. A call with
/// the wrong number of inputs fails before the backend is asked.
pub fn solve_blackbox<B: PartialWitnessGenerator>(
    backend: &B,
    w: &mut WitnessMap,
    call: &BlackBoxFuncCall,
) -> (r: Result<OpcodeResolution, OpcodeResolutionError>)
    ensures
        grows(old(w)@, final(w)@),
        !is_in_progress(r),
        !(r matches Err(OpcodeResolutionError::OpcodeNotSolvable(_))),
        expected_inputs(call.name) matches Some(n) ==> (n != call.inputs@.len() ==> final(w)@ == old(
            w,
        )@ && r == Err::<OpcodeResolution, _>(
            OpcodeResolutionError::IncorrectNumFunctionArguments(
                n as usize,
                call.name,
                call.inputs@.len() as usize,
            ),
        )),
        (expected_inputs(call.name) matches Some(n) ==> n == call.inputs@.len()) && (exists|j: int|
            0 <= j < call.inputs@.len() && !old(w)@.contains_key(
                #[trigger] call.inputs@[j].witness.0,
            )) ==> is_stalled(r) && final(w)@ == old(w)@,
{
    if let Some(n) = expected_input_count(call.name) {
        if n != call.inputs.len() {
            return Err(
                OpcodeResolutionError::IncorrectNumFunctionArguments(
                    n,
                    call.name,
                    call.inputs.len(),
                ),
            );
        }
    }
    let mut i: usize = 0;
    while i < call.inputs.len()
        invariant
            i <= call.inputs@.len(),
            forall|j: int| 0 <= j < i ==> w@.contains_key(#[trigger] call.inputs@[j].witness.0),
            expected_inputs(call.name) matches Some(n) ==> n == call.inputs@.len(),
        decreases call.inputs@.len() - i,
    {
        let witness = call.inputs[i].witness;
        if !w.contains_key(&witness.0) {
            return Ok(OpcodeResolution::Stalled(OpcodeNotSolvable::MissingAssignment(witness.0)));
        }
        i = i + 1;
    }
    let mut computed = w.clone();
    let outcome = dispatch(backend, &mut computed, call);
    apply_blackbox_outcome(call.name, w, &computed, &call.outputs, outcome)
}

/// The operation is resolvable now: its kind, address and value are determined by `w`, the
/// address fits in 64 bits, and a read agrees with what `mem` holds at the address.
pub open spec fn op_determined(op: MemOp, w: Map<u32, FieldElement>, mem: Map<u64, FieldElement>) -> bool {
    &&& assigned(op.operation, w)
    &&& assigned(op.index, w)
    &&& assigned(op.value, w)
    &&& eval(op.index, w) < 0x1_0000_0000_0000_0000
    &&& eval(op.operation, w) == 0 && mem.contains_key(eval(op.index, w) as u64) ==> mem[eval(
        op.index,
        w,
    ) as u64].value() == eval(op.value, w)
}

/// The state of one memory block, kept across solving calls: the values known at each address,
/// and how many operations of its trace are resolved.
pub struct BlockSolver {
    block_value: BTreeMap<u64, FieldElement>,
    solved_operations: usize,
}

impl BlockSolver {
    /// How many operations of the trace are resolved.
    pub closed spec fn spec_solved_operations(&self) -> nat {
        self.solved_operations as nat
    }

    /// The values known at each address.
    pub closed spec fn spec_memory(&self) -> Map<u64, FieldElement> {
        self.block_value@
    }

    pub fn new() -> (r: BlockSolver)
        ensures
            r.spec_solved_operations() == 0,
    {
        BlockSolver { block_value: BTreeMap::new(), solved_operations: 0 }
    }

    /// Resolves one memory operation: a write records its value at its address; a read either
    /// records a known value, checking it against the memory, or takes its unknown witness from
    /// the memory. `Ok(Some(_))` says why it cannot be resolved yet.
    fn solve_op(&mut self, w: &mut WitnessMap, op: &MemOp) -> (r: Result<
        Option<OpcodeNotSolvable>,
        OpcodeResolutionError,
    >)
        ensures
            grows(old(w)@, final(w)@),
            final(self).solved_operations == old(self).solved_operations,
            r matches Ok(Some(_)) ==> final(w)@ == old(w)@,
            r is Err ==> r == Err::<Option<OpcodeNotSolvable>, _>(
                OpcodeResolutionError::UnsatisfiedConstrain,
            ),
            op_determined(*op, old(w)@, old(self).spec_memory()) ==> r == Ok::<
                Option<OpcodeNotSolvable>,
                OpcodeResolutionError,
            >(None),
    {
        let operation = match evaluate(&op.operation, w) {
            Some(v) => v,
            None => {
                return Ok(Some(OpcodeNotSolvable::ExpressionHasTooManyUnknowns(op.operation.clone())));
            },
        };
        let index = match evaluate(&op.index, w) {
            Some(v) => v,
            None => {
                return Ok(Some(OpcodeNotSolvable::ExpressionHasTooManyUnknowns(op.index.clone())));
            },
        };
        let index = match index.try_to_u64() {
            Some(i) => i,
            None => {
                return Err(OpcodeResolutionError::UnsatisfiedConstrain);
            },
        };
        let is_read = operation.is_zero();
        match evaluate(&op.value, w) {
            Some(value) => {
                if is_read {
                    if let Some(stored) = self.block_value.get(&index) {
                        if !stored.eq_value(&value) {
                            return Err(OpcodeResolutionError::UnsatisfiedConstrain);
                        }
                    }
                }
                self.block_value.insert(index, value);
                Ok(None)
            },
            None => {
                if !is_read {
                    return Ok(Some(OpcodeNotSolvable::ExpressionHasTooManyUnknowns(op.value.clone())));
                }
                let stored = match self.block_value.get(&index) {
                    Some(v) => *v,
                    None => {
                        return Ok(Some(OpcodeNotSolvable::ExpressionHasTooManyUnknowns(op.value.clone())));
                    },
                };
                // The read value equals the stored one: solve `value - stored = 0`.
                let read = Expression {
                    mul_terms: op.value.mul_terms.clone(),
                    linear_combinations: op.value.linear_combinations.clone(),
                    q_c: op.value.q_c.add(stored.neg()),
                };
                match solve_arithmetic(w, &read) {
                    Ok(OpcodeResolution::Stalled(reason)) => Ok(Some(reason)),
                    Ok(_) => Ok(None),
                    Err(err) => Err(err),
                }
            },
        }
    }

    /// Resolves the operations of `trace` in order, from the first one not yet resolved, until
    /// one cannot be resolved yet.
    pub fn solve(&mut self, w: &mut WitnessMap, trace: &Vec<MemOp>) -> (r: Result<
        OpcodeResolution,
        OpcodeResolutionError,
    >)
        ensures
            grows(old(w)@, final(w)@),
            final(self).spec_solved_operations() >= old(self).spec_solved_operations(),
            is_solved(r) ==> final(self).spec_solved_operations() >= trace@.len(),
            !is_in_progress(r),
            r is Err ==> is_unsatisfied(r),
            old(self).spec_solved_operations() >= trace@.len() ==> is_solved(r),
            old(self).spec_solved_operations() < trace@.len() && op_determined(
                trace@[old(self).spec_solved_operations() as int],
                old(w)@,
                old(self).spec_memory(),
            ) ==> final(self).spec_solved_operations() > old(self).spec_solved_operations(),
    {
        while self.solved_operations < trace.len()
            invariant
                grows(old(w)@, w@),
                self.solved_operations >= old(self).solved_operations,
                self.solved_operations == old(self).solved_operations ==> self.block_value@
                    == old(self).block_value@ && w@ == old(w)@,
            decreases trace@.len() - self.solved_operations,
        {
            match self.solve_op(w, &trace[self.solved_operations]) {
                Ok(None) => {
                    self.solved_operations = self.solved_operations + 1;
                },
                Ok(Some(reason)) => {
                    return Ok(OpcodeResolution::Stalled(reason));
                },
                Err(err) => {
                    return Err(err);
                },
            }
        }
        Ok(OpcodeResolution::Solved)
    }
}

/// The memory blocks of a circuit, kept by the caller across solving calls.
pub struct Blocks {
    blocks: BTreeMap<u32, BlockSolver>,
}

impl Default for Blocks {
    fn default() -> (r: Blocks)
        ensures
            r.is_empty(),
    {
        Blocks::new()
    }
}

impl Blocks {
    /// No block has state yet.
    pub closed spec fn is_empty(&self) -> bool {
        self.blocks@.len() == 0
    }

    /// No block has been touched yet.
    pub fn new() -> (r: Blocks)
        ensures
            r.is_empty(),
    {
        Blocks { blocks: BTreeMap::new() }
    }

    /// Resolves what can be resolved of the trace of block `id`, resuming where an earlier call
    /// stopped.
    pub fn solve(&mut self, id: BlockId, trace: &Vec<MemOp>, w: &mut WitnessMap) -> (r: Result<
        OpcodeResolution,
        OpcodeResolutionError,
    >)
        ensures
            grows(old(w)@, final(w)@),
            !is_in_progress(r),
            r is Err ==> is_unsatisfied(r),
            trace@.len() == 0 ==> is_solved(r),
    {
        let mut solver = match self.blocks.remove(&id.0) {
            Some(s) => s,
            None => BlockSolver::new(),
        };
        let r = solver.solve(w, trace);
        self.blocks.insert(id.0, solver);
        r
    }
}

/// The outcome of a solving call that did not fail.
#[derive(Debug, PartialEq, Eq)]
pub enum PartialWitnessGeneratorStatus {
    /// Every opcode is solved and holds.
    Solved,
    /// The solver needs the outputs of these oracle requests. The caller fills them in and calls
    /// again with the requests as oracle opcodes followed by the unsolved opcodes.
    RequiresOracleData { required_oracle_data: Vec<OracleData>, unsolved_opcodes: Vec<Opcode> },
}

/// Every arithmetic opcode of `ops` holds under `w` wherever `w` determines it.
pub open spec fn arithmetic_consistent(ops: Seq<Opcode>, w: Map<u32, FieldElement>) -> bool {
    forall|i: int|
        0 <= i < ops.len() ==> match #[trigger] ops[i] {
            Opcode::Arithmetic(e) => consistent(e, w),
            _ => true,
        }
}

/// Every opcode is an arithmetic opcode whose witnesses are all assigned in `w`.
pub open spec fn all_arithmetic_assigned(ops: Seq<Opcode>, w: Map<u32, FieldElement>) -> bool {
    forall|i: int|
        0 <= i < ops.len() ==> (#[trigger] ops[i] matches Opcode::Arithmetic(e) && assigned(e, w))
}

/// Some arithmetic opcode evaluates to a nonzero value under `w`.
pub open spec fn some_arithmetic_fails(ops: Seq<Opcode>, w: Map<u32, FieldElement>) -> bool {
    exists|i: int|
        0 <= i < ops.len() && (#[trigger] ops[i] matches Opcode::Arithmetic(e) && eval(e, w) != 0)
}

/// Every input of the oracle request is determined by `w`.
pub open spec fn oracle_ready(d: OracleData, w: Map<u32, FieldElement>) -> bool {
    forall|k: int| 0 <= k < d.inputs@.len() ==> assigned(#[trigger] d.inputs@[k], w)
}

/// The number of oracle opcodes in `ops`.
pub open spec fn oracle_count(ops: Seq<Opcode>) -> nat
    decreases ops.len(),
{
    if ops.len() == 0 {
        0
    } else {
        oracle_count(ops.drop_last()) + if ops.last() is Oracle {
            1nat
        } else {
            0nat
        }
    }
}

/// Every opcode is either an arithmetic opcode that `w` determines and satisfies, or an oracle
/// opcode whose inputs `w` determines and whose outputs are not supplied.
pub open spec fn awaiting_oracles(ops: Seq<Opcode>, w: Map<u32, FieldElement>) -> bool {
    forall|i: int|
        0 <= i < ops.len() ==> {
            ||| (#[trigger] ops[i] matches Opcode::Arithmetic(e) && assigned(e, w) && eval(e, w) == 0)
            ||| (ops[i] matches Opcode::Oracle(d) && oracle_ready(d, w) && d.output_values@.len()
                != d.outputs@.len())
        }
}

/// Exactly one opcode is an oracle opcode, whose inputs `w` determines and whose supplied outputs
/// agree with `w`; every other opcode is an arithmetic opcode that `w` determines and satisfies.
pub open spec fn resumed_oracle(ops: Seq<Opcode>, w: Map<u32, FieldElement>) -> bool {
    &&& oracle_count(ops) == 1
    &&& forall|i: int|
        0 <= i < ops.len() ==> {
            ||| (#[trigger] ops[i] matches Opcode::Arithmetic(e) && assigned(e, w) && eval(e, w) == 0)
            ||| (ops[i] matches Opcode::Oracle(d) && oracle_ready(d, w) && d.output_values@.len()
                == d.outputs@.len() && outputs_agree(d.outputs@, d.output_values@, w))
        }
}

proof fn lemma_oracle_count_prefix(ops: Seq<Opcode>, i: int, j: int)
    requires
        0 <= i <= j <= ops.len(),
    ensures
        oracle_count(ops.take(i)) <= oracle_count(ops.take(j)),
    decreases j - i,
{
    if i < j {
        lemma_oracle_count_prefix(ops, i, j - 1);
        assert(ops.take(j).drop_last() == ops.take(j - 1));
    }
}

/// An oracle request whose inputs are all known and whose outputs are not yet supplied.
pub open spec fn pending_request(d: OracleData) -> bool {
    d.input_values@.len() == d.inputs@.len() && d.output_values@.len() != d.outputs@.len()
}

/// Checks the arithmetic opcodes that were solved against the final assignment.
fn check_all(w: &WitnessMap, solved: &Vec<Expression>) -> (r: bool)
    ensures
        r <==> forall|j: int| 0 <= j < solved@.len() ==> consistent(#[trigger] solved@[j], w@),
{
    let mut i: usize = 0;
    while i < solved.len()
        invariant
            i <= solved@.len(),
            forall|j: int| 0 <= j < i ==> consistent(#[trigger] solved@[j], w@),
        decreases solved@.len() - i,
    {
        if let Some(v) = evaluate(&solved[i], w) {
            if !v.is_zero() {
                return false;
            }
        }
        i = i + 1;
    }
    true
}

/// The opcode needs nothing more under `w`: an arithmetic opcode is settled, a directive has
/// its result, an oracle has its outputs supplied.
pub open spec fn settled(op: Opcode, w: Map<u32, FieldElement>) -> bool {
    match op {
        Opcode::Arithmetic(e) => settled_expression(e, w),
        Opcode::Directive(Directive::Invert { result, .. }) => w.contains_key(result.0),
        Opcode::Oracle(d) => d.output_values@.len() == d.outputs@.len(),
        _ => true,
    }
}

/// The opcode cannot make progress under `w` by itself: an arithmetic opcode has no unknown to
/// solve for, a directive lacks its input, an oracle cannot yet become a request.
pub open spec fn stuck(op: Opcode, w: Map<u32, FieldElement>) -> bool {
    match op {
        Opcode::Arithmetic(e) => stuck_expression(e, w),
        Opcode::Directive(Directive::Invert { x, result }) => !(w.contains_key(x.0)
            && !w.contains_key(result.0)),
        Opcode::Oracle(d) => !(oracle_ready(d, w) && d.output_values@.len() != d.outputs@.len()),
        _ => true,
    }
}

proof fn lemma_settled_op_grows(op: Opcode, a: Map<u32, FieldElement>, b: Map<u32, FieldElement>)
    requires
        settled(op, a),
        grows(a, b),
    ensures
        settled(op, b),
{
    if let Opcode::Arithmetic(e) = op {
        lemma_settled_grows(e, a, b);
    }
}

proof fn lemma_settled_op_stuck(op: Opcode, w: Map<u32, FieldElement>)
    requires
        settled(op, w),
    ensures
        stuck(op, w),
{
    if let Opcode::Arithmetic(e) = op {
        lemma_settled_stuck(e, w);
    }
}

/// What one attempt at one opcode came to.
enum Step {
    /// The opcode is resolved.
    Resolved,
    /// The arithmetic opcode with this expression is resolved.
    ResolvedArithmetic(Expression),
    /// The opcode stays for a later sweep, for the reason given.
    Kept(Opcode, OpcodeNotSolvable),
    /// The oracle opcode became this request, which waits for its outputs.
    Request(OracleData),
}

/// Makes one attempt at one opcode.
fn solve_opcode<B: PartialWitnessGenerator>(
    backend: &B,
    w: &mut WitnessMap,
    blocks: &mut Blocks,
    opcode: Opcode,
) -> (r: Result<Step, OpcodeResolutionError>)
    ensures
        grows(old(w)@, final(w)@),
        r matches Ok(Step::Kept(op, _)) ==> op == opcode && stuck(op, final(w)@),
        r matches Ok(Step::Resolved) ==> settled(opcode, final(w)@),
        r matches Ok(Step::ResolvedArithmetic(e)) ==> settled_expression(e, final(w)@),
        r matches Ok(Step::Request(_)) ==> opcode is Oracle,
        !(r matches Err(OpcodeResolutionError::OpcodeNotSolvable(_))),
        r matches Ok(Step::ResolvedArithmetic(e)) ==> opcode == Opcode::Arithmetic(e),
        r matches Ok(Step::Request(d)) ==> pending_request(d),
        r matches Ok(Step::Kept(Opcode::Oracle(d), _)) ==> final(w)@ == old(w)@ && !oracle_ready(
            d,
            final(w)@,
        ),
        opcode is Arithmetic ==> r is Err || r matches Ok(Step::Kept(_, _)) || r matches Ok(
            Step::ResolvedArithmetic(_),
        ),
        opcode matches Opcode::Arithmetic(e) && assigned(e, old(w)@) && eval(e, old(w)@) == 0
            ==> r matches Ok(Step::ResolvedArithmetic(_)),
        opcode matches Opcode::Oracle(d) && oracle_ready(d, old(w)@) && d.output_values@.len()
            != d.outputs@.len() ==> final(w)@ == old(w)@ && r matches Ok(Step::Request(_)),
        opcode matches Opcode::Oracle(d) && oracle_ready(d, old(w)@) && d.output_values@.len()
            == d.outputs@.len() && outputs_agree(d.outputs@, d.output_values@, old(w)@) ==> r matches Ok(
            Step::Resolved,
        ),
        opcode matches Opcode::Arithmetic(e) && assigned(e, old(w)@) ==> final(w)@ == old(w)@ && (
        r matches Ok(Step::ResolvedArithmetic(_)) || r == Err::<Step, _>(
            OpcodeResolutionError::UnsatisfiedConstrain,
        )),
{
    match opcode {
        Opcode::Arithmetic(expr) => match solve_arithmetic(w, &expr) {
            Ok(OpcodeResolution::Stalled(reason)) => Ok(Step::Kept(Opcode::Arithmetic(expr), reason)),
            Ok(_) => Ok(Step::ResolvedArithmetic(expr)),
            Err(err) => Err(err),
        },
        Opcode::Directive(directive) => match solve_directive(w, &directive) {
            Ok(OpcodeResolution::Stalled(reason)) => Ok(Step::Kept(Opcode::Directive(directive), reason)),
            Ok(_) => Ok(Step::Resolved),
            Err(err) => Err(err),
        },
        Opcode::BlackBoxFuncCall(call) => match solve_blackbox(backend, w, &call) {
            Ok(OpcodeResolution::Stalled(reason)) => Ok(Step::Kept(Opcode::BlackBoxFuncCall(call), reason)),
            Ok(_) => Ok(Step::Resolved),
            Err(err) => Err(err),
        },
        Opcode::Block(block) => match blocks.solve(block.id, &block.trace, w) {
            Ok(OpcodeResolution::Stalled(reason)) => Ok(Step::Kept(Opcode::Block(block), reason)),
            Ok(_) => Ok(Step::Resolved),
            Err(err) => Err(err),
        },
        Opcode::Oracle(data) => match oracle_input_values(w, &data.inputs) {
            Err(k) => {
                let reason = OpcodeNotSolvable::ExpressionHasTooManyUnknowns(data.inputs[k].clone());
                Ok(Step::Kept(Opcode::Oracle(data), reason))
            },
            Ok(values) => {
                if data.output_values.len() == data.outputs.len() {
                    match assign_oracle_outputs(w, &data.outputs, &data.output_values) {
                        Ok(()) => Ok(Step::Resolved),
                        Err(err) => Err(err),
                    }
                } else {
                    let OracleData { name, inputs, input_values: _, outputs, output_values } = data;
                    Ok(Step::Request(OracleData { name, inputs, input_values: values, outputs, output_values }))
                }
            },
        },
    }
}

/// Advances `initial_witness` as far as the opcodes allow, sweeping over the opcodes that are
/// left until a sweep resolves nothing and assigns nothing.
///
/// The result is `Solved` once no opcode is left, and `RequiresOracleData` where oracle requests
/// wait for their outputs; a stall with no request pending, and any failure of an opcode, is an
/// error. Assignments are never changed, and a solved circuit holds: every arithmetic opcode
/// whose witnesses are assigned evaluates to zero. Where every opcode is an arithmetic opcode
/// whose witnesses are already assigned, the result is `Solved` if all of them hold and the
/// unsatisfied-constraint error otherwise. Where the arithmetic opcodes are all determined and
/// satisfied and the oracle opcodes have known inputs and no outputs yet, the result asks for one
/// request per oracle opcode and leaves no opcode unsolved; resubmitted with the outputs of its
/// one oracle request supplied, such a circuit is solved.
pub fn solve<B: PartialWitnessGenerator>(
    backend: &B,
    initial_witness: &mut WitnessMap,
    blocks: &mut Blocks,
    opcode_to_solve: Vec<Opcode>,
) -> (r: Result<PartialWitnessGeneratorStatus, OpcodeResolutionError>)
    ensures
        grows(old(initial_witness)@, final(initial_witness)@),
        r matches Ok(PartialWitnessGeneratorStatus::Solved) ==> arithmetic_consistent(
            opcode_to_solve@,
            final(initial_witness)@,
        ),
        r matches Ok(
            PartialWitnessGeneratorStatus::RequiresOracleData { required_oracle_data, unsolved_opcodes },
        ) ==> {
            &&& required_oracle_data@.len() > 0
            &&& forall|j: int|
                0 <= j < required_oracle_data@.len() ==> pending_request(
                    #[trigger] required_oracle_data@[j],
                )
            &&& forall|j: int|
                0 <= j < unsolved_opcodes@.len() ==> (#[trigger] unsolved_opcodes@[j] matches Opcode::Oracle(
                    d,
                ) ==> !oracle_ready(d, final(initial_witness)@))
        },
        all_arithmetic_assigned(opcode_to_solve@, old(initial_witness)@) && some_arithmetic_fails(
            opcode_to_solve@,
            old(initial_witness)@,
        ) ==> r == Err::<PartialWitnessGeneratorStatus, _>(OpcodeResolutionError::UnsatisfiedConstrain),
        all_arithmetic_assigned(opcode_to_solve@, old(initial_witness)@) && arithmetic_consistent(
            opcode_to_solve@,
            old(initial_witness)@,
        ) ==> r == Ok::<_, OpcodeResolutionError>(PartialWitnessGeneratorStatus::Solved),
        awaiting_oracles(opcode_to_solve@, old(initial_witness)@) && oracle_count(opcode_to_solve@)
            > 0 ==> (r matches Ok(
            PartialWitnessGeneratorStatus::RequiresOracleData { required_oracle_data, unsolved_opcodes },
        ) && required_oracle_data@.len() == oracle_count(opcode_to_solve@)
            && unsolved_opcodes@.len() == 0),
        r matches Err(OpcodeResolutionError::OpcodeNotSolvable(_)) ==> forall|i: int|
            0 <= i < opcode_to_solve@.len() ==> stuck(
                #[trigger] opcode_to_solve@[i],
                final(initial_witness)@,
            ),
        resumed_oracle(opcode_to_solve@, old(initial_witness)@) ==> r == Ok::<
            _,
            OpcodeResolutionError,
        >(PartialWitnessGeneratorStatus::Solved),
{
    let ghost input = opcode_to_solve@;
    let ghost w0 = initial_witness@;
    let ghost known_and_failing = all_arithmetic_assigned(input, w0) && some_arithmetic_fails(input, w0);
    let ghost known_and_holding = all_arithmetic_assigned(input, w0) && arithmetic_consistent(input, w0);
    let ghost awaiting = awaiting_oracles(input, w0) && oracle_count(input) > 0;
    let ghost resumed = resumed_oracle(input, w0);
    let mut current = opcode_to_solve;
    let mut required_oracle_data: Vec<OracleData> = Vec::new();
    let mut solved_arithmetic: Vec<Expression> = Vec::new();
    let mut outcome: Option<Result<PartialWitnessGeneratorStatus, OpcodeResolutionError>> = None;
    proof {
        assert forall|x: int| 0 <= x < input.len() && (input[x] is Arithmetic) implies current@.contains(
            #[trigger] input[x],
        ) by {
            assert(current@[x] == input[x]);
        }
    }
    while outcome.is_none() && current.len() > 0
        invariant
            grows(w0, initial_witness@),
            forall|j: int|
                0 <= j < required_oracle_data@.len() ==> pending_request(
                    #[trigger] required_oracle_data@[j],
                ),
            outcome matches Some(Ok(PartialWitnessGeneratorStatus::Solved)) ==> false,
            outcome matches Some(
                Ok(PartialWitnessGeneratorStatus::RequiresOracleData { required_oracle_data, .. }),
            ) ==> {
                &&& required_oracle_data@.len() > 0
                &&& forall|j: int|
                    0 <= j < required_oracle_data@.len() ==> pending_request(
                        #[trigger] required_oracle_data@[j],
                    )
            },
            outcome matches Some(
                Ok(PartialWitnessGeneratorStatus::RequiresOracleData { unsolved_opcodes, .. }),
            ) ==> forall|j: int|
                0 <= j < unsolved_opcodes@.len() ==> (#[trigger] unsolved_opcodes@[j] matches Opcode::Oracle(
                    d,
                ) ==> !oracle_ready(d, initial_witness@)),
            known_and_failing ==> all_arithmetic_assigned(current@, initial_witness@),
            known_and_holding == (all_arithmetic_assigned(input, w0) && arithmetic_consistent(input, w0)),
            awaiting == (awaiting_oracles(input, w0) && oracle_count(input) > 0),
            resumed == resumed_oracle(input, w0),
            resumed ==> {
                &&& outcome is None
                &&& required_oracle_data@.len() == 0
                &&& current@ == input || current@.len() == 0
                &&& current@ == input ==> solved_arithmetic@.len() == 0 && initial_witness@ == w0
                &&& forall|k: int|
                    0 <= k < solved_arithmetic@.len() ==> exists|x: int|
                        0 <= x < input.len() && input[x] == Opcode::Arithmetic(
                            #[trigger] solved_arithmetic@[k],
                        )
            },
            awaiting ==> {
                &&& outcome is None
                &&& initial_witness@ == w0
                &&& current@ == input || current@.len() == 0
                &&& current@ == input ==> required_oracle_data@.len() == 0
                &&& current@.len() == 0 ==> required_oracle_data@.len() == oracle_count(input)
            },
            known_and_holding ==> {
                &&& outcome is None
                &&& required_oracle_data@.len() == 0
                &&& initial_witness@ == w0
                &&& current@ == input || current@.len() == 0
                &&& current@ == input ==> solved_arithmetic@.len() == 0
                &&& current@.len() == 0 ==> solved_arithmetic@.len() == input.len()
                &&& forall|k: int|
                    0 <= k < solved_arithmetic@.len() ==> #[trigger] solved_arithmetic@[k]
                        == input[k]->Arithmetic_0
            },
            known_and_failing ==> required_oracle_data@.len() == 0,
            known_and_failing ==> outcome is None || outcome == Some(
                Err::<PartialWitnessGeneratorStatus, _>(OpcodeResolutionError::UnsatisfiedConstrain),
            ),
            outcome is None ==> forall|x: int|
                0 <= x < input.len() ==> settled(#[trigger] input[x], initial_witness@) || (
                input[x] is Oracle && required_oracle_data@.len() > 0) || current@.contains(input[x]),
            outcome matches Some(Err(OpcodeResolutionError::OpcodeNotSolvable(_))) ==> forall|x: int|
                0 <= x < input.len() ==> stuck(#[trigger] input[x], initial_witness@),
            outcome is None ==> forall|x: int|
                0 <= x < input.len() && (input[x] is Arithmetic) ==> solved_arithmetic@.contains(
                    input[x]->Arithmetic_0,
                ) || current@.contains(#[trigger] input[x]),
        decreases current@.len() + (usize::MAX - initial_witness@.len()) + (if outcome is None {
            1int
        } else {
            0int
        }),
    {
        let ghost cur = current@;
        let ghost w_before = initial_witness@;
        let n = current.len();
        let len_before = initial_witness.len();
        let mut queue = reversed(current);
        let mut next: Vec<Opcode> = Vec::new();
        let mut first_stall: Option<OpcodeNotSolvable> = None;
        let mut failure: Option<OpcodeResolutionError> = None;
        let mut i: usize = 0;
        while i < n && failure.is_none()
            invariant
                n == cur.len(),
                i <= n,
                queue@.len() == n - i,
                forall|j: int| 0 <= j < n - i ==> queue@[j] == cur[n - 1 - j],
                next@.len() <= i,
                next@.len() > 0 ==> first_stall is Some,
                grows(w_before, initial_witness@),
                grows(w0, initial_witness@),
                forall|j: int|
                    0 <= j < required_oracle_data@.len() ==> pending_request(
                        #[trigger] required_oracle_data@[j],
                    ),
                known_and_failing ==> all_arithmetic_assigned(cur, initial_witness@),
                known_and_holding == (all_arithmetic_assigned(input, w0) && arithmetic_consistent(input, w0)),
                awaiting == (awaiting_oracles(input, w0) && oracle_count(input) > 0),
                resumed == resumed_oracle(input, w0),
                resumed ==> {
                    &&& cur == input
                    &&& next@.len() == 0
                    &&& failure is None
                    &&& required_oracle_data@.len() == 0
                    &&& oracle_count(input.take(i as int)) == 0 ==> initial_witness@ == w0
                    &&& forall|k: int|
                        0 <= k < solved_arithmetic@.len() ==> exists|x: int|
                            0 <= x < input.len() && input[x] == Opcode::Arithmetic(
                                #[trigger] solved_arithmetic@[k],
                            )
                },
                awaiting ==> {
                    &&& cur == input
                    &&& next@.len() == 0
                    &&& failure is None
                    &&& initial_witness@ == w0
                    &&& required_oracle_data@.len() == oracle_count(input.take(i as int))
                },
                known_and_holding ==> {
                    &&& cur == input
                    &&& next@.len() == 0
                    &&& failure is None
                    &&& required_oracle_data@.len() == 0
                    &&& initial_witness@ == w0
                    &&& solved_arithmetic@.len() == i
                    &&& forall|k: int|
                        0 <= k < solved_arithmetic@.len() ==> #[trigger] solved_arithmetic@[k]
                            == input[k]->Arithmetic_0
                },
                forall|j: int|
                    0 <= j < next@.len() ==> (#[trigger] next@[j] matches Opcode::Oracle(d) ==> (
                    initial_witness@.len() == w_before.len() ==> !oracle_ready(d, initial_witness@))),
                known_and_failing ==> next@.len() == 0,
                known_and_failing ==> required_oracle_data@.len() == 0,
                known_and_failing ==> failure is None || failure == Some(OpcodeResolutionError::UnsatisfiedConstrain),
                forall|j: int|
                    0 <= j < next@.len() ==> (initial_witness@.len() == w_before.len() ==> stuck(
                        #[trigger] next@[j],
                        initial_witness@,
                    )),
                !(failure matches Some(OpcodeResolutionError::OpcodeNotSolvable(_))),
                failure is None ==> forall|x: int|
                    0 <= x < input.len() ==> settled(#[trigger] input[x], initial_witness@) || (
                    input[x] is Oracle && required_oracle_data@.len() > 0) || next@.contains(input[x])
                        || exists|j: int| i <= j < n && cur[j] == input[x],
                failure is None ==> forall|x: int|
                    0 <= x < input.len() && (input[x] is Arithmetic) ==> solved_arithmetic@.contains(
                        input[x]->Arithmetic_0,
                    ) || next@.contains(#[trigger] input[x]) || exists|j: int|
                        i <= j < n && cur[j] == input[x],
            decreases n - i,
        {
            let ghost w_mid = initial_witness@;
            let opcode = queue.pop().unwrap();
            assert(opcode == cur[i as int]);
            proof {
                if resumed {
                    assert(input.take(i as int + 1).drop_last() == input.take(i as int));
                    assert(input.take(i as int + 1).last() == input[i as int]);
                    lemma_oracle_count_prefix(input, i as int + 1, n as int);
                    assert(input.take(n as int) == input);
                    match input[i as int] {
                        Opcode::Arithmetic(e) => {
                            assert(assigned(e, w0) && eval(e, w0) == 0);
                            lemma_eval_grows(e, w0, w_mid);
                        },
                        Opcode::Oracle(d) => {
                            assert(oracle_count(input.take(i as int)) == 0);
                            assert(oracle_ready(d, w0));
                        },
                        _ => {
                            assert(false);
                        },
                    }
                }
            }
            proof {
                if awaiting {
                    assert(input.take(i as int + 1).drop_last() == input.take(i as int));
                    assert(input.take(i as int + 1).last() == input[i as int]);
                    assert({
                        ||| (input[i as int] matches Opcode::Arithmetic(e) && assigned(e, w0) && eval(
                            e,
                            w0,
                        ) == 0)
                        ||| (input[i as int] matches Opcode::Oracle(d) && oracle_ready(d, w0)
                            && d.output_values@.len() != d.outputs@.len())
                    });
                }
                if known_and_holding {
                    assert(input[i as int] matches Opcode::Arithmetic(e) && assigned(e, w0));
                    assert(input[i as int] matches Opcode::Arithmetic(e) && consistent(e, w0));
                }
            }
            let ghost next_before = next@;
            let ghost solved_before = solved_arithmetic@;
            let ghost reqs_before = required_oracle_data@.len();
            match solve_opcode(backend, initial_witness, blocks, opcode) {
                Ok(Step::Resolved) => {},
                Ok(Step::ResolvedArithmetic(expr)) => {
                    solved_arithmetic.push(expr);
                },
                Ok(Step::Kept(op, reason)) => {
                    if first_stall.is_none() {
                        first_stall = Some(reason);
                    }
                    next.push(op);
                },
                Ok(Step::Request(data)) => {
                    required_oracle_data.push(data);
                },
                Err(err) => {
                    failure = Some(err);
                },
            }
            proof {
                if resumed {
                    assert(input.take(i as int + 1).drop_last() == input.take(i as int));
                    assert(input.take(i as int + 1).last() == input[i as int]);
                    if solved_arithmetic@.len() > solved_before.len() {
                        assert(input[i as int] == Opcode::Arithmetic(
                            solved_arithmetic@[solved_arithmetic@.len() - 1],
                        ));
                    }
                    assert forall|k: int|
                        0 <= k < solved_arithmetic@.len() implies exists|x: int|
                            0 <= x < input.len() && input[x] == Opcode::Arithmetic(
                                #[trigger] solved_arithmetic@[k],
                            ) by {
                        if k < solved_before.len() {
                            assert(solved_arithmetic@[k] == solved_before[k]);
                        } else {
                            assert(input[i as int] == Opcode::Arithmetic(solved_arithmetic@[k]));
                        }
                    }
                }
                lemma_grows_len(w_mid, initial_witness@);
                lemma_grows_len(w_before, w_mid);
                if initial_witness@.len() == w_before.len() {
                    lemma_grows_same_len(w_mid, initial_witness@);
                    assert forall|j: int| 0 <= j < next@.len() implies (initial_witness@.len()
                        == w_before.len() ==> stuck(#[trigger] next@[j], initial_witness@)) by {
                        if j < next_before.len() {
                            assert(next@[j] == next_before[j]);
                        }
                    }
                    assert forall|j: int|
                        0 <= j < next@.len() implies (#[trigger] next@[j] matches Opcode::Oracle(d)
                            ==> !oracle_ready(d, initial_witness@)) by {
                        if j < next_before.len() {
                            assert(next@[j] == next_before[j]);
                        }
                    }
                }
                if known_and_failing {
                    assert forall|j: int| 0 <= j < cur.len() implies (#[trigger] cur[j] matches Opcode::Arithmetic(e) && assigned(e, initial_witness@)) by {
                        assert(cur[j] matches Opcode::Arithmetic(e) && assigned(e, w_mid));
                        lemma_eval_grows(cur[j]->Arithmetic_0, w_mid, initial_witness@);
                    }
                }
                lemma_grows_trans(w_before, w_mid, initial_witness@);
                lemma_grows_trans(w0, w_mid, initial_witness@);
                if failure is None {
                    assert forall|x: int| 0 <= x < input.len() implies settled(
                        #[trigger] input[x],
                        initial_witness@,
                    ) || (input[x] is Oracle && required_oracle_data@.len() > 0) || next@.contains(
                        input[x],
                    ) || exists|j: int| i + 1 <= j < n && cur[j] == input[x] by {
                        if settled(input[x], w_mid) {
                            lemma_settled_op_grows(input[x], w_mid, initial_witness@);
                        } else if input[x] is Oracle && reqs_before > 0 {
                        } else if next_before.contains(input[x]) {
                            let k = choose|k: int| 0 <= k < next_before.len() && next_before[k] == input[x];
                            assert(next@[k] == next_before[k]);
                        } else {
                            let j = choose|j: int| i <= j < n && cur[j] == input[x];
                            if j == i {
                                if next@.len() > next_before.len() {
                                    assert(next@[next@.len() - 1] == input[x]);
                                }
                            } else {
                                assert(i + 1 <= j < n && cur[j] == input[x]);
                            }
                        }
                    }
                    assert forall|x: int|
                        0 <= x < input.len() && (input[x] is Arithmetic) implies solved_arithmetic@.contains(
                            input[x]->Arithmetic_0,
                        ) || next@.contains(#[trigger] input[x]) || exists|j: int|
                            i + 1 <= j < n && cur[j] == input[x] by {
                        if solved_before.contains(input[x]->Arithmetic_0) {
                            let k = choose|k: int|
                                0 <= k < solved_before.len() && solved_before[k]
                                    == input[x]->Arithmetic_0;
                            assert(solved_arithmetic@[k] == solved_before[k]);
                        } else if next_before.contains(input[x]) {
                            let k = choose|k: int| 0 <= k < next_before.len() && next_before[k] == input[x];
                            assert(next@[k] == next_before[k]);
                        } else {
                            let j = choose|j: int| i <= j < n && cur[j] == input[x];
                            if j == i {
                                if next@.len() > next_before.len() {
                                    assert(next@[next@.len() - 1] == input[x]);
                                } else {
                                    assert(solved_arithmetic@[solved_arithmetic@.len() - 1]
                                        == input[x]->Arithmetic_0);
                                }
                            }
                        }
                    }
                }
            }
            i = i + 1;
        }
        let len_after = initial_witness.len();
        proof {
            if awaiting {
                assert(input.take(n as int) == input);
            }
            lemma_grows_len(w_before, initial_witness@);
        }
        if let Some(err) = failure {
            current = Vec::new();
            outcome = Some(Err(err));
        } else if next.len() == n && len_after == len_before {
            // This sweep resolved nothing and assigned nothing.
            current = Vec::new();
            if required_oracle_data.len() > 0 {
                let mut pending: Vec<OracleData> = Vec::new();
                std::mem::swap(&mut pending, &mut required_oracle_data);
                outcome = Some(
                    Ok(
                        PartialWitnessGeneratorStatus::RequiresOracleData {
                            required_oracle_data: pending,
                            unsolved_opcodes: next,
                        },
                    ),
                );
            } else {
                proof {
                    assert forall|x: int| 0 <= x < input.len() implies stuck(
                        #[trigger] input[x],
                        initial_witness@,
                    ) by {
                        if settled(input[x], initial_witness@) {
                            lemma_settled_op_stuck(input[x], initial_witness@);
                        } else if next@.contains(input[x]) {
                            let k = choose|k: int| 0 <= k < next@.len() && next@[k] == input[x];
                            assert(stuck(next@[k], initial_witness@));
                        }
                    }
                }
                let reason = first_stall.unwrap();
                outcome = Some(Err(OpcodeResolutionError::OpcodeNotSolvable(reason)));
            }
        } else {
            current = next;
        }
    }
    if let Some(result) = outcome {
        return result;
    }
    if required_oracle_data.len() > 0 {
        return Ok(
            PartialWitnessGeneratorStatus::RequiresOracleData {
                required_oracle_data,
                unsolved_opcodes: current,
            },
        );
    }
    proof {
        if resumed {
            assert forall|k: int| 0 <= k < solved_arithmetic@.len() implies consistent(
                #[trigger] solved_arithmetic@[k],
                initial_witness@,
            ) by {
                let x = choose|x: int|
                    0 <= x < input.len() && input[x] == Opcode::Arithmetic(solved_arithmetic@[k]);
                assert(assigned(solved_arithmetic@[k], w0));
                lemma_eval_grows(solved_arithmetic@[k], w0, initial_witness@);
            }
        }
        if known_and_holding {
            assert forall|k: int| 0 <= k < solved_arithmetic@.len() implies consistent(
                #[trigger] solved_arithmetic@[k],
                initial_witness@,
            ) by {
                assert(input[k] matches Opcode::Arithmetic(e) && consistent(e, w0));
            }
        }
    }
    if !check_all(initial_witness, &solved_arithmetic) {
        return Err(OpcodeResolutionError::UnsatisfiedConstrain);
    }
    proof {
        if known_and_failing {
            let x = choose|x: int|
                0 <= x < input.len() && (#[trigger] input[x] matches Opcode::Arithmetic(e) && eval(
                    e,
                    w0,
                ) != 0);
            let e = input[x]->Arithmetic_0;
            assert(input[x] matches Opcode::Arithmetic(e) && assigned(e, w0));
            lemma_eval_grows(e, w0, initial_witness@);
            assert(solved_arithmetic@.contains(e));
            let k = choose|k: int| 0 <= k < solved_arithmetic@.len() && solved_arithmetic@[k] == e;
            assert(consistent(solved_arithmetic@[k], initial_witness@));
        }
        assert forall|x: int| 0 <= x < input.len() implies match #[trigger] input[x] {
            Opcode::Arithmetic(e) => consistent(e, initial_witness@),
            _ => true,
        } by {
            if input[x] is Arithmetic {
                assert(solved_arithmetic@.contains(input[x]->Arithmetic_0));
            }
        }
    }
    Ok(PartialWitnessGeneratorStatus::Solved)
}

} // verus!
