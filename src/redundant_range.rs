use vstd::prelude::*;

use crate::circuit::{BlackBoxFunc, Circuit, Opcode, Witness};
use crate::seq_util::reversed;
use std::collections::{BTreeMap, BTreeSet};

verus! {

broadcast use vstd::std_specs::btree::group_btree_axioms, vstd::laws_cmp::group_laws_cmp;

/// The witness and bit width that `op` range-constrains, if it is a range check.
pub open spec fn range_of(op: Opcode) -> Option<(Witness, u32)> {
    match op {
        Opcode::BlackBoxFuncCall(call) => if call.name == BlackBoxFunc::RANGE && call.inputs@.len()
            > 0 {
            Some((call.inputs@[0].witness, call.inputs@[0].num_bits))
        } else {
            None
        },
        _ => None,
    }
}

/// The index of the witness that a range check constrains.
pub open spec fn range_witness(op: Opcode) -> u32 {
    match range_of(op) {
        Some((w, _)) => w.0,
        None => 0,
    }
}

/// The width that a range check constrains its witness to.
pub open spec fn range_width(op: Opcode) -> u32 {
    match range_of(op) {
        Some((_, b)) => b,
        None => 0,
    }
}

/// A range check names the witness it constrains.
pub open spec fn range_well_formed(op: Opcode) -> bool {
    match op {
        Opcode::BlackBoxFuncCall(call) => call.name == BlackBoxFunc::RANGE ==> call.inputs@.len()
            > 0,
        _ => true,
    }
}

/// Every range check names the witness it constrains.
pub open spec fn ranges_well_formed(ops: Seq<Opcode>) -> bool {
    forall|i: int| 0 <= i < ops.len() ==> range_well_formed(#[trigger] ops[i])
}

/// Whether `op` is a range check on the witness with index `w` at width `b`.
pub open spec fn is_range_on(op: Opcode, w: u32, b: u32) -> bool {
    range_of(op) matches Some((x, n)) && x.0 == w && n == b
}

/// Whether `op` is a range check on the witness with index `w`, at any width.
pub open spec fn is_range_of(op: Opcode, w: u32) -> bool {
    range_of(op) matches Some((x, _)) && x.0 == w
}

/// For each range-checked witness, the smallest width it is checked at; of equal widths the
/// first one seen is recorded.
pub open spec fn collected(ops: Seq<Opcode>) -> Map<u32, u32>
    decreases ops.len(),
{
    if ops.len() == 0 {
        Map::empty()
    } else {
        let m = collected(ops.drop_last());
        match range_of(ops.last()) {
            Some((w, b)) => if !m.contains_key(w.0) || m[w.0] > b {
                m.insert(w.0, b)
            } else {
                m
            },
            None => m,
        }
    }
}

/// Whether the optimized circuit keeps the opcode at `i`: every opcode that is not a range check,
/// and, of the range checks on a witness, the first one at the smallest width.
pub open spec fn keeps(ops: Seq<Opcode>, mins: Map<u32, u32>, i: int) -> bool {
    match range_of(ops[i]) {
        None => true,
        Some((w, b)) => b == mins[w.0] && forall|j: int|
            0 <= j < i ==> !is_range_on(#[trigger] ops[j], w.0, mins[w.0]),
    }
}

/// The opcodes among the first `n` of `ops` that `keeps` retains, in their order.
pub open spec fn kept_prefix(ops: Seq<Opcode>, mins: Map<u32, u32>, n: int) -> Seq<Opcode>
    decreases n,
{
    if n <= 0 {
        Seq::empty()
    } else {
        let s = kept_prefix(ops, mins, n - 1);
        if keeps(ops, mins, n - 1) {
            s.push(ops[n - 1])
        } else {
            s
        }
    }
}

/// The opcodes of the optimized circuit.
pub open spec fn optimized(ops: Seq<Opcode>) -> Seq<Opcode> {
    kept_prefix(ops, collected(ops), ops.len() as int)
}

/// Removes range checks that a stricter or identical range check on the same witness implies.
pub struct RangeOptimizer {
    lists: BTreeMap<u32, u32>,
    circuit: Circuit,
}

impl RangeOptimizer {
    /// The circuit being optimized.
    pub closed spec fn spec_circuit(&self) -> Circuit {
        self.circuit
    }

    /// The smallest width recorded for each range-checked witness.
    pub closed spec fn spec_lists(&self) -> Map<u32, u32> {
        self.lists@
    }

    /// Records the smallest range of each witness of `circuit`.
    pub fn new(circuit: Circuit) -> (r: Self)
        requires
            ranges_well_formed(circuit.opcodes@),
        ensures
            r.spec_circuit() == circuit,
            r.spec_lists() == collected(circuit.opcodes@),
    {
        let range_list = Self::collect_ranges(&circuit);
        RangeOptimizer { circuit, lists: range_list }
    }

    /// The smallest width that `witness` is range-checked at, if it is range-checked.
    pub fn lowest_range(&self, witness: Witness) -> (r: Option<u32>)
        ensures
            r == (if self.spec_lists().contains_key(witness.0) {
                Some(self.spec_lists()[witness.0])
            } else {
                None
            }),
    {
        match self.lists.get(&witness.0) {
            Some(b) => Some(*b),
            None => None,
        }
    }

    fn collect_ranges(circuit: &Circuit) -> (r: BTreeMap<u32, u32>)
        requires
            ranges_well_formed(circuit.opcodes@),
        ensures
            r@ == collected(circuit.opcodes@),
    {
        let ops = &circuit.opcodes;
        let mut witness_to_bit_sizes: BTreeMap<u32, u32> = BTreeMap::new();
        let mut i: usize = 0;
        while i < ops.len()
            invariant
                i <= ops@.len(),
                ranges_well_formed(ops@),
                witness_to_bit_sizes@ == collected(ops@.take(i as int)),
            decreases ops@.len() - i,
        {
            assert(ops@.take(i as int + 1).drop_last() == ops@.take(i as int));
            match extract_range_opcode(&ops[i]) {
                Some((witness, num_bits)) => {
                    let should_replace = match witness_to_bit_sizes.get(&witness.0) {
                        Some(old_range_bits) => *old_range_bits > num_bits,
                        None => true,
                    };
                    if should_replace {
                        witness_to_bit_sizes.insert(witness.0, num_bits);
                    }
                },
                None => {},
            }
            i = i + 1;
        }
        assert(ops@.take(ops@.len() as int) == ops@);
        witness_to_bit_sizes
    }

    /// The circuit with each range-checked witness constrained once, at its smallest width.
    pub fn replace_redundant_ranges(self) -> (r: Circuit)
        requires
            ranges_well_formed(self.spec_circuit().opcodes@),
            self.spec_lists() == collected(self.spec_circuit().opcodes@),
        ensures
            r.opcodes@ == optimized(self.spec_circuit().opcodes@),
            r.current_witness_index == self.spec_circuit().current_witness_index,
            r.public_parameters == self.spec_circuit().public_parameters,
            r.return_values == self.spec_circuit().return_values,
    {
        let RangeOptimizer { lists, circuit } = self;
        let Circuit { current_witness_index, opcodes, public_parameters, return_values } = circuit;
        let ghost ops = opcodes@;
        let ghost mins = lists@;
        let n = opcodes.len();
        let mut queue = reversed(opcodes);
        let mut already_seen_witness: BTreeSet<u32> = BTreeSet::new();
        let mut optimized_opcodes: Vec<Opcode> = Vec::new();
        let mut i: usize = 0;
        while i < n
            invariant
                n == ops.len(),
                i <= n,
                queue@.len() == n - i,
                forall|j: int| 0 <= j < n - i ==> queue@[j] == ops[n - 1 - j],
                ranges_well_formed(ops),
                mins == collected(ops),
                lists@ == mins,
                optimized_opcodes@ == kept_prefix(ops, mins, i as int),
                forall|w: u32|
                    already_seen_witness@.contains(w) <==> exists|j: int|
                        0 <= j < i && is_range_on(#[trigger] ops[j], w, mins[w]),
            decreases n - i,
        {
            let opcode = queue.pop().unwrap();
            assert(opcode == ops[i as int]);
            match extract_range_opcode(&opcode) {
                None => {
                    optimized_opcodes.push(opcode);
                },
                Some((witness, num_bits)) => {
                    proof {
                        lemma_collected_has_every_range(ops, i as int);
                    }
                    let stored = lists.get(&witness.0).unwrap();
                    if !already_seen_witness.contains(&witness.0) && num_bits <= *stored {
                        already_seen_witness.insert(witness.0);
                        optimized_opcodes.push(opcode);
                    }
                },
            }
            i = i + 1;
        }
        Circuit {
            current_witness_index,
            opcodes: optimized_opcodes,
            public_parameters,
            return_values,
        }
    }
}

/// The range check on the opcode, if it is one.
pub fn extract_range_opcode(opcode: &Opcode) -> (r: Option<(Witness, u32)>)
    requires
        range_well_formed(*opcode),
    ensures
        r == range_of(*opcode),
{
    match opcode {
        Opcode::BlackBoxFuncCall(func_call) => {
            match func_call.name {
                BlackBoxFunc::RANGE => {
                    let func_input = func_call.inputs[0];
                    Some((func_input.witness, func_input.num_bits))
                },
                _ => None,
            }
        },
        _ => None,
    }
}

/// Every range check of `ops` has its witness recorded, at a width no greater than its own.
pub proof fn lemma_collected_has_every_range(ops: Seq<Opcode>, i: int)
    requires
        0 <= i < ops.len(),
        range_of(ops[i]) is Some,
    ensures
        collected(ops).contains_key(range_witness(ops[i])),
        collected(ops)[range_witness(ops[i])] <= range_width(ops[i]),
    decreases ops.len(),
{
    let prev = ops.drop_last();
    if i < ops.len() - 1 {
        assert(prev[i] == ops[i]);
        lemma_collected_has_every_range(prev, i);
    }
}

/// The opcodes of `s` that are not range checks, in their order.
pub open spec fn non_range(s: Seq<Opcode>) -> Seq<Opcode>
    decreases s.len(),
{
    if s.len() == 0 {
        Seq::empty()
    } else {
        let r = non_range(s.drop_last());
        if range_of(s.last()) is None {
            r.push(s.last())
        } else {
            r
        }
    }
}

/// A witness is recorded exactly when it is range-checked, and at a width that one of its range
/// checks has.
pub proof fn lemma_collected_domain(ops: Seq<Opcode>, w: u32)
    ensures
        collected(ops).contains_key(w) <==> exists|i: int|
            0 <= i < ops.len() && is_range_of(#[trigger] ops[i], w),
        collected(ops).contains_key(w) ==> exists|i: int|
            0 <= i < ops.len() && is_range_on(#[trigger] ops[i], w, collected(ops)[w]),
    decreases ops.len(),
{
    if ops.len() > 0 {
        let prev = ops.drop_last();
        lemma_collected_domain(prev, w);
        assert forall|i: int| 0 <= i < prev.len() implies prev[i] == ops[i] by {}
        if collected(prev).contains_key(w) {
            let i = choose|i: int| 0 <= i < prev.len() && is_range_on(#[trigger] prev[i], w, collected(prev)[w]);
            assert(is_range_on(ops[i], w, collected(prev)[w]));
        }
        if exists|i: int| 0 <= i < ops.len() && is_range_of(#[trigger] ops[i], w) {
            let i = choose|i: int| 0 <= i < ops.len() && is_range_of(#[trigger] ops[i], w);
            if i < ops.len() - 1 {
                assert(is_range_of(prev[i], w));
            }
        }
        if collected(ops).contains_key(w) && !(collected(prev).contains_key(w) && collected(ops)[w] == collected(prev)[w]) {
            assert(is_range_on(ops[ops.len() - 1], w, collected(ops)[w]));
        }
    }
}

/// Whether `x` is one of the first `n` opcodes of `ops` that `keeps` retains.
pub open spec fn kept_from(ops: Seq<Opcode>, mins: Map<u32, u32>, n: int, x: Opcode) -> bool {
    exists|i: int| 0 <= i < n && keeps(ops, mins, i) && x == ops[i]
}

/// Each opcode that the optimizer keeps is an opcode of the input that `keeps` retains.
proof fn lemma_kept_from(ops: Seq<Opcode>, mins: Map<u32, u32>, n: int)
    requires
        0 <= n <= ops.len(),
    ensures
        kept_prefix(ops, mins, n).len() <= n,
        forall|k: int|
            0 <= k < kept_prefix(ops, mins, n).len() ==> kept_from(
                ops,
                mins,
                n,
                #[trigger] kept_prefix(ops, mins, n)[k],
            ),
    decreases n,
{
    if n > 0 {
        lemma_kept_from(ops, mins, n - 1);
        let s = kept_prefix(ops, mins, n - 1);
        assert forall|k: int|
            0 <= k < kept_prefix(ops, mins, n).len() implies kept_from(
            ops,
            mins,
            n,
            #[trigger] kept_prefix(ops, mins, n)[k],
        ) by {
            if k < s.len() {
                assert(kept_prefix(ops, mins, n)[k] == s[k]);
                assert(kept_from(ops, mins, n - 1, s[k]));
                let i = choose|i: int| 0 <= i < n - 1 && keeps(ops, mins, i) && s[k] == ops[i];
                assert(0 <= i < n && keeps(ops, mins, i) && kept_prefix(ops, mins, n)[k] == ops[i]);
            } else {
                assert(keeps(ops, mins, n - 1));
                assert(kept_prefix(ops, mins, n)[k] == ops[n - 1]);
            }
        }
    } else {
        assert(kept_prefix(ops, mins, n).len() == 0);
    }
}

/// The optimizer keeps at most one range check per witness.
proof fn lemma_kept_unique(ops: Seq<Opcode>, mins: Map<u32, u32>, n: int)
    requires
        0 <= n <= ops.len(),
    ensures
        forall|k1: int, k2: int, w: u32|
            0 <= k1 < k2 < kept_prefix(ops, mins, n).len() && #[trigger] is_range_of(
                kept_prefix(ops, mins, n)[k1],
                w,
            ) ==> !#[trigger] is_range_of(kept_prefix(ops, mins, n)[k2], w),
    decreases n,
{
    if n > 0 {
        lemma_kept_unique(ops, mins, n - 1);
        lemma_kept_from(ops, mins, n - 1);
        let s = kept_prefix(ops, mins, n - 1);
        let t = kept_prefix(ops, mins, n);
        assert forall|k1: int, k2: int, w: u32|
            0 <= k1 < k2 < t.len() && #[trigger] is_range_of(t[k1], w) implies !#[trigger] is_range_of(
            t[k2],
            w,
        ) by {
            assert(t[k1] == s[k1]);
            if k2 == s.len() {
                let i = choose|i: int| 0 <= i < n - 1 && keeps(ops, mins, i) && s[k1] == ops[i];
                if is_range_of(t[k2], w) {
                    assert(is_range_on(ops[i], w, mins[w]));
                }
            } else {
                assert(t[k2] == s[k2]);
            }
        }
    }
}

/// Each witness with a range check in the first `n` opcodes keeps one at its recorded width.
proof fn lemma_kept_exists(ops: Seq<Opcode>, mins: Map<u32, u32>, n: int, w: u32)
    requires
        0 <= n <= ops.len(),
        exists|j: int| 0 <= j < n && is_range_on(#[trigger] ops[j], w, mins[w]),
    ensures
        exists|k: int|
            0 <= k < kept_prefix(ops, mins, n).len() && is_range_on(
                #[trigger] kept_prefix(ops, mins, n)[k],
                w,
                mins[w],
            ),
    decreases n,
{
    let s = kept_prefix(ops, mins, n - 1);
    let t = kept_prefix(ops, mins, n);
    if exists|j: int| 0 <= j < n - 1 && is_range_on(#[trigger] ops[j], w, mins[w]) {
        lemma_kept_exists(ops, mins, n - 1, w);
        let k = choose|k: int| 0 <= k < s.len() && is_range_on(#[trigger] s[k], w, mins[w]);
        assert(t[k] == s[k]);
    } else {
        assert(keeps(ops, mins, n - 1));
        assert(t[s.len() as int] == ops[n - 1]);
    }
}

/// Optimizing leaves every opcode that is not a range check in place, in the same order.
pub proof fn lemma_order_preserved(ops: Seq<Opcode>)
    ensures
        non_range(optimized(ops)) == non_range(ops),
{
    lemma_non_range_prefix(ops, collected(ops), ops.len() as int);
    assert(ops.take(ops.len() as int) == ops);
}

proof fn lemma_non_range_prefix(ops: Seq<Opcode>, mins: Map<u32, u32>, n: int)
    requires
        0 <= n <= ops.len(),
    ensures
        non_range(kept_prefix(ops, mins, n)) == non_range(ops.take(n)),
    decreases n,
{
    if n > 0 {
        lemma_non_range_prefix(ops, mins, n - 1);
        assert(ops.take(n).drop_last() == ops.take(n - 1));
        let s = kept_prefix(ops, mins, n - 1);
        if keeps(ops, mins, n - 1) {
            assert(s.push(ops[n - 1]).drop_last() == s);
        }
    }
}

/// After optimizing, each witness that was range-checked has exactly one range check, at the
/// smallest width it was checked at.
pub proof fn lemma_minimal(ops: Seq<Opcode>, w: u32)
    requires
        exists|i: int| 0 <= i < ops.len() && is_range_of(#[trigger] ops[i], w),
    ensures
        exists|k: int| 0 <= k < optimized(ops).len() && is_range_of(#[trigger] optimized(ops)[k], w),
        forall|k1: int, k2: int|
            0 <= k1 < optimized(ops).len() && 0 <= k2 < optimized(ops).len() && is_range_of(
                #[trigger] optimized(ops)[k1],
                w,
            ) && is_range_of(#[trigger] optimized(ops)[k2], w) ==> k1 == k2,
        forall|k: int|
            0 <= k < optimized(ops).len() && is_range_of(#[trigger] optimized(ops)[k], w) ==> {
                &&& exists|i: int|
                    0 <= i < ops.len() && is_range_on(
                        #[trigger] ops[i],
                        w,
                        range_width(optimized(ops)[k]),
                    )
                &&& forall|i: int|
                    0 <= i < ops.len() && is_range_of(#[trigger] ops[i], w) ==> range_width(
                        optimized(ops)[k],
                    ) <= range_width(ops[i])
            },
{
    let m = collected(ops);
    let n = ops.len() as int;
    let o = optimized(ops);
    lemma_collected_domain(ops, w);
    lemma_kept_exists(ops, m, n, w);
    lemma_kept_unique(ops, m, n);
    lemma_kept_from(ops, m, n);
    assert forall|k1: int, k2: int|
        0 <= k1 < o.len() && 0 <= k2 < o.len() && is_range_of(#[trigger] o[k1], w) && is_range_of(
            #[trigger] o[k2],
            w,
        ) implies k1 == k2 by {
        if k1 < k2 {
        } else if k2 < k1 {
        }
    }
    assert forall|k: int| 0 <= k < o.len() && is_range_of(#[trigger] o[k], w) implies {
        &&& exists|i: int| 0 <= i < ops.len() && is_range_on(#[trigger] ops[i], w, range_width(o[k]))
        &&& forall|i: int|
            0 <= i < ops.len() && is_range_of(#[trigger] ops[i], w) ==> range_width(o[k])
                <= range_width(ops[i])
    } by {
        let i = choose|i: int| 0 <= i < n && keeps(ops, m, i) && o[k] == ops[i];
        assert(range_width(o[k]) == m[w]);
        assert forall|i2: int| 0 <= i2 < ops.len() && is_range_of(#[trigger] ops[i2], w) implies range_width(o[k])
            <= range_width(ops[i2]) by {
            lemma_collected_has_every_range(ops, i2);
        }
    }
}

/// When `keeps` retains every opcode, nothing is removed.
proof fn lemma_kept_all(ops: Seq<Opcode>, mins: Map<u32, u32>, n: int)
    requires
        0 <= n <= ops.len(),
        forall|i: int| 0 <= i < ops.len() ==> #[trigger] keeps(ops, mins, i),
    ensures
        kept_prefix(ops, mins, n) == ops.take(n),
    decreases n,
{
    if n > 0 {
        lemma_kept_all(ops, mins, n - 1);
        assert(keeps(ops, mins, n - 1));
        assert(ops.take(n) == ops.take(n - 1).push(ops[n - 1]));
    } else {
        assert(ops.take(n) =~= Seq::<Opcode>::empty());
    }
}

/// Optimizing an optimized circuit changes nothing.
pub proof fn lemma_idempotent(ops: Seq<Opcode>)
    ensures
        optimized(optimized(ops)) == optimized(ops),
{
    let m = collected(ops);
    let n = ops.len() as int;
    let o = optimized(ops);
    lemma_kept_unique(ops, m, n);
    lemma_kept_from(ops, m, n);
    assert forall|w: u32| #[trigger] collected(o).contains_key(w) == m.contains_key(w) && (
    m.contains_key(w) ==> collected(o)[w] == m[w]) by {
        lemma_collected_domain(ops, w);
        lemma_collected_domain(o, w);
        if m.contains_key(w) {
            lemma_kept_exists(ops, m, n, w);
            let k = choose|k: int| 0 <= k < o.len() && is_range_on(#[trigger] o[k], w, m[w]);
            assert(is_range_of(o[k], w));
        }
        if collected(o).contains_key(w) {
            let k = choose|k: int| 0 <= k < o.len() && is_range_on(#[trigger] o[k], w, collected(o)[w]);
            assert(kept_from(ops, m, n, o[k]));
            let i = choose|i: int| 0 <= i < n && keeps(ops, m, i) && o[k] == ops[i];
            assert(is_range_of(ops[i], w));
        }
    }
    assert(collected(o) =~= m);
    assert forall|k: int| 0 <= k < o.len() implies #[trigger] keeps(o, m, k) by {
        assert(kept_from(ops, m, n, o[k]));
        let i = choose|i: int| 0 <= i < n && keeps(ops, m, i) && o[k] == ops[i];
        match range_of(o[k]) {
            Some((w, b)) => {
                assert forall|j: int| 0 <= j < k implies !is_range_on(#[trigger] o[j], w.0, m[w.0]) by {
                    if is_range_on(o[j], w.0, m[w.0]) {
                        assert(is_range_of(o[j], w.0));
                        assert(is_range_of(o[k], w.0));
                    }
                }
            },
            None => {},
        }
    }
    lemma_kept_all(o, m, o.len() as int);
    assert(o.take(o.len() as int) == o);
}

} // verus!
