use vstd::prelude::*;

use crate::circuit::{Expression, Witness};
use crate::field::{fadd, fmul, fneg, modulus, FieldElement};
use crate::pwg::{is_solved, is_stalled, OpcodeResolution, WitnessMap};
use crate::{OpcodeNotSolvable, OpcodeResolutionError};

verus! {

broadcast use vstd::std_specs::btree::group_btree_axioms, vstd::laws_cmp::group_laws_cmp;

/// `b` keeps every assignment of `a`.
pub open spec fn grows(a: Map<u32, FieldElement>, b: Map<u32, FieldElement>) -> bool {
    forall|k: u32| #[trigger] a.contains_key(k) ==> b.contains_key(k) && b[k] == a[k]
}

/// The value assigned to `x` in `w`.
pub open spec fn wval(w: Map<u32, FieldElement>, x: Witness) -> nat {
    w[x.0].value()
}

/// The sum of the products of `t` under `w`, in the field.
pub open spec fn mul_sum(t: Seq<(FieldElement, Witness, Witness)>, w: Map<u32, FieldElement>) -> nat
    decreases t.len(),
{
    if t.len() == 0 {
        0
    } else {
        fadd(
            mul_sum(t.drop_last(), w),
            fmul(fmul(t.last().0.value(), wval(w, t.last().1)), wval(w, t.last().2)),
        )
    }
}

/// The sum of the linear terms of `t` under `w`, in the field.
pub open spec fn lin_sum(t: Seq<(FieldElement, Witness)>, w: Map<u32, FieldElement>) -> nat
    decreases t.len(),
{
    if t.len() == 0 {
        0
    } else {
        fadd(lin_sum(t.drop_last(), w), fmul(t.last().0.value(), wval(w, t.last().1)))
    }
}

/// The value of `e` under the assignment `w`.
pub open spec fn eval(e: Expression, w: Map<u32, FieldElement>) -> nat {
    fadd(fadd(mul_sum(e.mul_terms@, w), lin_sum(e.linear_combinations@, w)), e.q_c.value())
}

/// Every witness that `e` names is assigned in `w`.
pub open spec fn assigned(e: Expression, w: Map<u32, FieldElement>) -> bool {
    &&& forall|i: int|
        #![trigger e.mul_terms@[i]]
        0 <= i < e.mul_terms@.len() ==> w.contains_key(e.mul_terms@[i].1.0) && w.contains_key(
            e.mul_terms@[i].2.0,
        )
    &&& forall|i: int|
        #![trigger e.linear_combinations@[i]]
        0 <= i < e.linear_combinations@.len() ==> w.contains_key(e.linear_combinations@[i].1.0)
}

/// `e` holds under `w` wherever `w` determines it.
pub open spec fn consistent(e: Expression, w: Map<u32, FieldElement>) -> bool {
    assigned(e, w) ==> eval(e, w) == 0
}

/// The value of `e` when every witness it names is assigned.
pub fn evaluate(e: &Expression, w: &WitnessMap) -> (r: Option<FieldElement>)
    ensures
        r is Some <==> assigned(*e, w@),
        r matches Some(v) ==> v.value() == eval(*e, w@),
{
    let mut acc = FieldElement::zero();
    let mut i: usize = 0;
    while i < e.mul_terms.len()
        invariant
            i <= e.mul_terms@.len(),
            acc.value() == mul_sum(e.mul_terms@.take(i as int), w@),
            forall|j: int|
                #![trigger e.mul_terms@[j]]
                0 <= j < i ==> w@.contains_key(e.mul_terms@[j].1.0) && w@.contains_key(
                    e.mul_terms@[j].2.0,
                ),
        decreases e.mul_terms@.len() - i,
    {
        assert(e.mul_terms@.take(i as int + 1).drop_last() == e.mul_terms@.take(i as int));
        let (c, a, b) = e.mul_terms[i];
        let va = match w.get(&a.0) {
            Some(v) => *v,
            None => return None,
        };
        let vb = match w.get(&b.0) {
            Some(v) => *v,
            None => return None,
        };
        assert(w@.contains_key(e.mul_terms@[i as int].1.0) && w@.contains_key(
            e.mul_terms@[i as int].2.0,
        ));
        acc = acc.add(c.mul(va).mul(vb));
        i = i + 1;
    }
    assert(e.mul_terms@.take(i as int) == e.mul_terms@);
    let mut lin = FieldElement::zero();
    let mut i: usize = 0;
    while i < e.linear_combinations.len()
        invariant
            i <= e.linear_combinations@.len(),
            lin.value() == lin_sum(e.linear_combinations@.take(i as int), w@),
            forall|j: int|
                #![trigger e.linear_combinations@[j]]
                0 <= j < i ==> w@.contains_key(e.linear_combinations@[j].1.0),
        decreases e.linear_combinations@.len() - i,
    {
        assert(e.linear_combinations@.take(i as int + 1).drop_last()
            == e.linear_combinations@.take(i as int));
        let (c, x) = e.linear_combinations[i];
        let vx = match w.get(&x.0) {
            Some(v) => *v,
            None => return None,
        };
        assert(w@.contains_key(e.linear_combinations@[i as int].1.0));
        lin = lin.add(c.mul(vx));
        i = i + 1;
    }
    assert(e.linear_combinations@.take(i as int) == e.linear_combinations@);
    Some(acc.add(lin).add(e.q_c))
}

/// Assigns `value` to `witness`, or checks it against the value already there.
pub fn insert_value(w: &mut WitnessMap, witness: Witness, value: FieldElement) -> (r: Result<
    (),
    OpcodeResolutionError,
>)
    ensures
        grows(old(w)@, final(w)@),
        final(w)@.dom() == old(w)@.dom().insert(witness.0),
        r is Ok <==> !old(w)@.contains_key(witness.0) || old(w)@[witness.0].value() == value.value(),
        r is Ok ==> final(w)@[witness.0].value() == value.value(),
        r is Err ==> r == Err::<(), _>(OpcodeResolutionError::UnsatisfiedConstrain),
{
    match w.get(&witness.0) {
        Some(existing) => {
            if existing.eq_value(&value) {
                proof {
                    assert(old(w)@.dom().insert(witness.0) == old(w)@.dom());
                }
                Ok(())
            } else {
                proof {
                    assert(old(w)@.dom().insert(witness.0) == old(w)@.dom());
                }
                Err(OpcodeResolutionError::UnsatisfiedConstrain)
            }
        },
        None => {
            w.insert(witness.0, value);
            Ok(())
        },
    }
}

/// `o` names the witness with index `x`.
pub open spec fn is_unknown(o: Option<Witness>, x: u32) -> bool {
    o matches Some(y) && y.0 == x
}

/// `u` is the one unassigned witness of `e`: it occurs in `e`, every other witness of `e` is
/// assigned, and no product multiplies `u` by itself.
pub open spec fn only_unknown(e: Expression, w: Map<u32, FieldElement>, u: u32) -> bool {
    &&& !w.contains_key(u)
    &&& forall|i: int|
        #![trigger e.mul_terms@[i]]
        0 <= i < e.mul_terms@.len() ==> {
            &&& e.mul_terms@[i].1.0 == u || w.contains_key(e.mul_terms@[i].1.0)
            &&& e.mul_terms@[i].2.0 == u || w.contains_key(e.mul_terms@[i].2.0)
            &&& !(e.mul_terms@[i].1.0 == u && e.mul_terms@[i].2.0 == u)
        }
    &&& forall|i: int|
        #![trigger e.linear_combinations@[i]]
        0 <= i < e.linear_combinations@.len() ==> e.linear_combinations@[i].1.0 == u
            || w.contains_key(e.linear_combinations@[i].1.0)
    &&& (exists|i: int|
        #![trigger e.mul_terms@[i]]
        0 <= i < e.mul_terms@.len() && (e.mul_terms@[i].1.0 == u || e.mul_terms@[i].2.0 == u))
        || (exists|i: int|
        #![trigger e.linear_combinations@[i]]
        0 <= i < e.linear_combinations@.len() && e.linear_combinations@[i].1.0 == u)
}

/// The coefficient of `u` in the products of `t`, the other factor taken from `w`.
pub open spec fn mul_coefficient(
    t: Seq<(FieldElement, Witness, Witness)>,
    w: Map<u32, FieldElement>,
    u: u32,
) -> nat
    decreases t.len(),
{
    if t.len() == 0 {
        0
    } else {
        let prev = mul_coefficient(t.drop_last(), w, u);
        if t.last().1.0 == u {
            fadd(prev, fmul(t.last().0.value(), wval(w, t.last().2)))
        } else if t.last().2.0 == u {
            fadd(prev, fmul(t.last().0.value(), wval(w, t.last().1)))
        } else {
            prev
        }
    }
}

/// `start` plus the coefficient of `u` in the linear terms of `t`.
pub open spec fn lin_coefficient(t: Seq<(FieldElement, Witness)>, u: u32, start: nat) -> nat
    decreases t.len(),
{
    if t.len() == 0 {
        start
    } else {
        let prev = lin_coefficient(t.drop_last(), u, start);
        if t.last().1.0 == u {
            fadd(prev, t.last().0.value())
        } else {
            prev
        }
    }
}

/// `start` plus the products of `t` that do not involve `u`, with values taken from `w`.
pub open spec fn mul_known(
    t: Seq<(FieldElement, Witness, Witness)>,
    w: Map<u32, FieldElement>,
    u: u32,
    start: nat,
) -> nat
    decreases t.len(),
{
    if t.len() == 0 {
        start
    } else {
        let prev = mul_known(t.drop_last(), w, u, start);
        if t.last().1.0 != u && t.last().2.0 != u {
            fadd(prev, fmul(fmul(t.last().0.value(), wval(w, t.last().1)), wval(w, t.last().2)))
        } else {
            prev
        }
    }
}

/// `start` plus the linear terms of `t` that do not involve `u`, with values taken from `w`.
pub open spec fn lin_known(t: Seq<(FieldElement, Witness)>, w: Map<u32, FieldElement>, u: u32, start: nat) -> nat
    decreases t.len(),
{
    if t.len() == 0 {
        start
    } else {
        let prev = lin_known(t.drop_last(), w, u, start);
        if t.last().1.0 != u {
            fadd(prev, fmul(t.last().0.value(), wval(w, t.last().1)))
        } else {
            prev
        }
    }
}

/// The part of `e` that does not involve `u`, with values taken from `w`.
pub open spec fn known_part(e: Expression, w: Map<u32, FieldElement>, u: u32) -> nat {
    lin_known(e.linear_combinations@, w, u, mul_known(e.mul_terms@, w, u, e.q_c.value()))
}

/// `a` and `b` are the same element of the field.
pub open spec fn cong(a: int, b: int) -> bool {
    a % (modulus() as int) == b % (modulus() as int)
}

proof fn lemma_cong_add(a: int, b: int, c: int, d: int)
    requires
        cong(a, b),
        cong(c, d),
    ensures
        cong(a + c, b + d),
{
    let p = modulus() as int;
    vstd::arithmetic::div_mod::lemma_add_mod_noop(a, c, p);
    vstd::arithmetic::div_mod::lemma_add_mod_noop(b, d, p);
}

proof fn lemma_cong_mul(a: int, b: int, c: int, d: int)
    requires
        cong(a, b),
        cong(c, d),
    ensures
        cong(a * c, b * d),
{
    let p = modulus() as int;
    vstd::arithmetic::div_mod::lemma_mul_mod_noop_left(a, c, p);
    vstd::arithmetic::div_mod::lemma_mul_mod_noop_left(b, c, p);
    vstd::arithmetic::div_mod::lemma_mul_mod_noop_right(b, c, p);
    vstd::arithmetic::div_mod::lemma_mul_mod_noop_right(b, d, p);
}

proof fn lemma_cong_mod(a: int)
    ensures
        cong(a % (modulus() as int), a),
{
    vstd::arithmetic::div_mod::lemma_mod_twice(a, modulus() as int);
}

/// One step of a sum that splits into a known part plus a coefficient times `x`.
proof fn lemma_split_step(
    ms: int,
    start: int,
    mk: int,
    cf: int,
    x: int,
    term: int,
    tk: int,
    tc: int,
    mk2: int,
    cf2: int,
)
    requires
        cong(ms + start, mk + cf * x),
        cong(term, tk + tc * x),
        cong(mk2, mk + tk),
        cong(cf2, cf + tc),
    ensures
        cong((ms + term) % (modulus() as int) + start, mk2 + cf2 * x),
{
    lemma_cong_mod(ms + term);
    lemma_cong_add((ms + term) % (modulus() as int), ms + term, start, start);
    lemma_cong_add(ms + start, mk + cf * x, term, tk + tc * x);
    lemma_cong_mul(cf2, cf + tc, x, x);
    lemma_cong_add(mk2, mk + tk, cf2 * x, (cf + tc) * x);
    assert((cf + tc) * x == cf * x + tc * x) by (nonlinear_arith);
    assert(mk + cf * x + (tk + tc * x) == mk + tk + (cf * x + tc * x));
    assert(ms + term + start == ms + start + term);
}

/// `(c * x) * v` and `(c * v) * x` agree in the field.
proof fn lemma_product_swap(c: int, x: int, v: int)
    ensures
        cong(((c * x) % (modulus() as int)) * v % (modulus() as int), ((c * v) % (modulus() as int)) * x),
{
    let p = modulus() as int;
    lemma_cong_mod(c * x);
    lemma_cong_mul((c * x) % p, c * x, v, v);
    lemma_cong_mod(((c * x) % p) * v);
    lemma_cong_mod(c * v);
    lemma_cong_mul((c * v) % p, c * v, x, x);
    assert(c * x * v == c * v * x) by (nonlinear_arith);
}

/// With `u` given the value `x`, the products of `t` add up to their known part plus the
/// coefficient of `u` times `x`.
#[verifier::rlimit(50)]
proof fn lemma_mul_split(
    t: Seq<(FieldElement, Witness, Witness)>,
    w: Map<u32, FieldElement>,
    w2: Map<u32, FieldElement>,
    u: u32,
    x: nat,
    start: nat,
)
    requires
        !w.contains_key(u),
        grows(w, w2),
        w2.contains_key(u),
        w2[u].value() == x,
        forall|i: int|
            #![trigger t[i]]
            0 <= i < t.len() ==> {
                &&& t[i].1.0 == u || w.contains_key(t[i].1.0)
                &&& t[i].2.0 == u || w.contains_key(t[i].2.0)
                &&& !(t[i].1.0 == u && t[i].2.0 == u)
            },
    ensures
        cong(
            (mul_sum(t, w2) + start) as int,
            (mul_known(t, w, u, start) + mul_coefficient(t, w, u) * x) as int,
        ),
    decreases t.len(),
{
    let p = modulus() as int;
    if t.len() == 0 {
        assert(mul_coefficient(t, w, u) * x == 0);
    } else {
        let pt = t.drop_last();
        assert forall|i: int| #![trigger pt[i]] 0 <= i < pt.len() implies {
            &&& pt[i].1.0 == u || w.contains_key(pt[i].1.0)
            &&& pt[i].2.0 == u || w.contains_key(pt[i].2.0)
            &&& !(pt[i].1.0 == u && pt[i].2.0 == u)
        } by {
            assert(pt[i] == t[i]);
        }
        lemma_mul_split(pt, w, w2, u, x, start);
        let last = t.last();
        assert(last == t[t.len() - 1]);
        let c = last.0.value() as int;
        let ms = mul_sum(pt, w2) as int;
        let mk = mul_known(pt, w, u, start) as int;
        let cf = mul_coefficient(pt, w, u) as int;
        let va = wval(w2, last.1) as int;
        let vb = wval(w2, last.2) as int;
        let term = fmul(fmul(c as nat, va as nat), vb as nat) as int;
        assert(mul_sum(t, w2) as int == (ms + term) % p);
        if last.1.0 != u && last.2.0 != u {
            assert(wval(w2, last.1) == wval(w, last.1));
            assert(wval(w2, last.2) == wval(w, last.2));
            lemma_cong_mod(mk + term);
            assert(cong(term, term + 0 * (x as int)));
            lemma_split_step(ms, start as int, mk, cf, x as int, term, term, 0, (mk + term) % p, cf);
        } else if last.1.0 == u {
            assert(wval(w2, last.2) == wval(w, last.2));
            let tc = fmul(c as nat, vb as nat) as int;
            lemma_product_swap(c, x as int, vb);
            lemma_cong_mod(cf + tc);
            assert(cong(mk, mk + 0));
            lemma_split_step(ms, start as int, mk, cf, x as int, term, 0, tc, mk, (cf + tc) % p);
        } else {
            assert(wval(w2, last.1) == wval(w, last.1));
            let tc = fmul(c as nat, va as nat) as int;
            lemma_cong_mod(tc * (x as int));
            lemma_cong_mod(cf + tc);
            assert(cong(mk, mk + 0));
            lemma_split_step(ms, start as int, mk, cf, x as int, term, 0, tc, mk, (cf + tc) % p);
        }
    }
}

/// With `u` given the value `x`, the linear terms of `t` add up to their known part plus the
/// coefficient of `u` times `x`.
#[verifier::rlimit(50)]
proof fn lemma_lin_split(
    t: Seq<(FieldElement, Witness)>,
    w: Map<u32, FieldElement>,
    w2: Map<u32, FieldElement>,
    u: u32,
    x: nat,
    start: nat,
    cstart: nat,
)
    requires
        !w.contains_key(u),
        grows(w, w2),
        w2.contains_key(u),
        w2[u].value() == x,
        forall|i: int| #![trigger t[i]] 0 <= i < t.len() ==> t[i].1.0 == u || w.contains_key(t[i].1.0),
    ensures
        cong(
            (lin_sum(t, w2) + start + cstart * x) as int,
            (lin_known(t, w, u, start) + lin_coefficient(t, u, cstart) * x) as int,
        ),
    decreases t.len(),
{
    let p = modulus() as int;
    if t.len() > 0 {
        let pt = t.drop_last();
        assert forall|i: int| #![trigger pt[i]] 0 <= i < pt.len() implies pt[i].1.0 == u
            || w.contains_key(pt[i].1.0) by {
            assert(pt[i] == t[i]);
        }
        lemma_lin_split(pt, w, w2, u, x, start, cstart);
        let last = t.last();
        assert(last == t[t.len() - 1]);
        let c = last.0.value() as int;
        let ls = lin_sum(pt, w2) as int;
        let lk = lin_known(pt, w, u, start) as int;
        let cf = lin_coefficient(pt, u, cstart) as int;
        let vx = wval(w2, last.1) as int;
        let term = fmul(c as nat, vx as nat) as int;
        let s2 = start as int + cstart as int * x as int;
        assert(lin_sum(t, w2) as int == (ls + term) % p);
        if last.1.0 != u {
            assert(wval(w2, last.1) == wval(w, last.1));
            lemma_cong_mod(lk + term);
            assert(cong(term, term + 0 * (x as int)));
            lemma_split_step(ls, s2, lk, cf, x as int, term, term, 0, (lk + term) % p, cf);
        } else {
            lemma_cong_mod(c * (x as int));
            lemma_cong_mod(cf + c);
            assert(cong(lk, lk + 0));
            lemma_split_step(ls, s2, lk, cf, x as int, term, 0, c, lk, (cf + c) % p);
        }
        assert((lin_sum(t, w2) + start + cstart * x) as int == (ls + term) % p + s2);
    }
}

/// With `u` given the value `x`, `e` evaluates to its known part plus the coefficient of `u`
/// times `x`.
proof fn lemma_eval_split(
    e: Expression,
    w: Map<u32, FieldElement>,
    w2: Map<u32, FieldElement>,
    u: u32,
    x: nat,
)
    requires
        only_unknown(e, w, u),
        grows(w, w2),
        w2.contains_key(u),
        w2[u].value() == x,
    ensures
        cong(eval(e, w2) as int, (known_part(e, w, u) + coefficient(e, w, u) * x) as int),
{
    let p = modulus() as int;
    let qc = e.q_c.value();
    let ms = mul_sum(e.mul_terms@, w2) as int;
    let ls = lin_sum(e.linear_combinations@, w2) as int;
    let mk = mul_known(e.mul_terms@, w, u, qc);
    let cfm = mul_coefficient(e.mul_terms@, w, u);
    lemma_mul_split(e.mul_terms@, w, w2, u, x, qc);
    lemma_lin_split(e.linear_combinations@, w, w2, u, x, mk, cfm);
    lemma_cong_mod(ms + ls);
    lemma_cong_add((ms + ls) % p, ms + ls, qc as int, qc as int);
    lemma_cong_mod((ms + ls) % p + qc);
    lemma_cong_add(ls, ls, ms + qc, (mk + cfm * x) as int);
    assert(eval(e, w2) as int == ((ms + ls) % p + qc) % p);
    assert(ms + ls + qc == ls + (ms + qc));
    assert(ls + (mk + cfm * x) == (ls + mk + cfm * x) as int);
}

/// `k + q * (-k / q)` is zero in the field.
proof fn lemma_solution(k: nat, q: nat, inv: nat)
    requires
        fmul(inv, q) == 1,
    ensures
        cong((k + q * fmul(fneg(k), inv)) as int, 0),
{
    let p = modulus() as int;
    let ki = k as int;
    let qi = q as int;
    let ii = inv as int;
    let n = fneg(k) as int;
    vstd::arithmetic::div_mod::lemma_mod_twice(ki, p);
    assert(n == (p - ki % p) % p);
    lemma_cong_mod(p - ki % p);
    vstd::arithmetic::div_mod::lemma_mod_sub_multiples_vanish(-(ki % p), p);
    lemma_cong_mod(ki);
    lemma_cong_mul(-1, -1, ki % p, ki);
    assert(cong(n, -ki)) by {
        assert(p - ki % p == -(ki % p) + p);
        vstd::arithmetic::div_mod::lemma_mod_add_multiples_vanish(-(ki % p), p);
        assert(-1 * (ki % p) == -(ki % p));
        assert(-1 * ki == -ki);
    }
    let xv = fmul(n as nat, inv) as int;
    lemma_cong_mod(n * ii);
    lemma_cong_mul(n, -ki, ii, ii);
    assert(cong(xv, -ki * ii));
    lemma_cong_mul(qi, qi, xv, -ki * ii);
    assert(qi * (-ki * ii) == -ki * (ii * qi)) by (nonlinear_arith);
    lemma_cong_mod(ii * qi);
    lemma_cong_mul(-ki, -ki, (ii * qi) % p, ii * qi);
    assert((ii * qi) % p == 1);
    assert(cong(qi * xv, -ki));
    lemma_cong_add(ki, ki, qi * xv, -ki);
    assert(ki + -ki == 0);
}

/// The coefficient of the witness `u` in `e`, the other witnesses taken from `w`.
pub open spec fn coefficient(e: Expression, w: Map<u32, FieldElement>, u: u32) -> nat {
    lin_coefficient(e.linear_combinations@, u, mul_coefficient(e.mul_terms@, w, u))
}

/// Solves an arithmetic opcode: checks it where every witness is known, and otherwise assigns
/// its one unknown witness where it occurs linearly.
pub fn solve_arithmetic(w: &mut WitnessMap, e: &Expression) -> (r: Result<
    OpcodeResolution,
    OpcodeResolutionError,
>)
    ensures
        grows(old(w)@, final(w)@),
        r matches Ok(OpcodeResolution::Solved) ==> consistent(*e, final(w)@),
        r matches Ok(OpcodeResolution::Stalled(_)) ==> final(w)@ == old(w)@,
        !(r matches Ok(OpcodeResolution::InProgress)),
        r is Err ==> r matches Err(OpcodeResolutionError::UnsatisfiedConstrain),
        assigned(*e, old(w)@) ==> {
            &&& final(w)@ == old(w)@
            &&& r is Ok <==> eval(*e, old(w)@) == 0
            &&& r is Ok ==> r matches Ok(OpcodeResolution::Solved)
        },
        !assigned(*e, old(w)@) && !(exists|u: u32| only_unknown(*e, old(w)@, u)) ==> is_stalled(r)
            && final(w)@ == old(w)@,
        forall|u: u32|
            #[trigger] only_unknown(*e, old(w)@, u) && coefficient(*e, old(w)@, u) == 0 ==> {
                &&& known_part(*e, old(w)@, u) == 0 ==> is_solved(r) && final(w)@ == old(w)@
                &&& known_part(*e, old(w)@, u) != 0 ==> r == Err::<OpcodeResolution, _>(
                    OpcodeResolutionError::UnsatisfiedConstrain,
                )
            },
        is_solved(r) ==> settled_expression(*e, final(w)@),
        forall|u: u32|
            only_unknown(*e, old(w)@, u) && coefficient(*e, old(w)@, u) != 0 ==> {
                &&& #[trigger] final(w)@.contains_key(u)
                &&& is_solved(r)
                &&& assigned(*e, final(w)@)
                &&& eval(*e, final(w)@) == 0
            },
{
    if let Some(v) = evaluate(e, w) {
        if v.is_zero() {
            return Ok(OpcodeResolution::Solved);
        } else {
            return Err(OpcodeResolutionError::UnsatisfiedConstrain);
        }
    }
    // The expression reads `q * u + k` in its one unknown witness `u`.
    let mut unknown: Option<Witness> = None;
    let mut q = FieldElement::zero();
    let mut k = e.q_c;
    let mut i: usize = 0;
    while i < e.mul_terms.len()
        invariant
            i <= e.mul_terms@.len(),
            unknown matches Some(x) ==> !w@.contains_key(x.0),
            forall|j: int|
                #![trigger e.mul_terms@[j]]
                0 <= j < i ==> {
                    &&& w@.contains_key(e.mul_terms@[j].1.0) || is_unknown(unknown, e.mul_terms@[j].1.0)
                    &&& w@.contains_key(e.mul_terms@[j].2.0) || is_unknown(unknown, e.mul_terms@[j].2.0)
                    &&& w@.contains_key(e.mul_terms@[j].1.0) || w@.contains_key(e.mul_terms@[j].2.0)
                },
            unknown is Some ==> exists|j: int|
                #![trigger e.mul_terms@[j]]
                0 <= j < i && (is_unknown(unknown, e.mul_terms@[j].1.0) || is_unknown(
                    unknown,
                    e.mul_terms@[j].2.0,
                )),
            forall|u: u32|
                #[trigger] only_unknown(*e, w@, u) ==> {
                    &&& q.value() == mul_coefficient(e.mul_terms@.take(i as int), w@, u)
                    &&& k.value() == mul_known(e.mul_terms@.take(i as int), w@, u, e.q_c.value())
                    &&& unknown matches Some(x) ==> x.0 == u
                    &&& unknown is None ==> forall|j: int|
                        0 <= j < i ==> !(#[trigger] e.mul_terms@[j].1.0 == u || e.mul_terms@[j].2.0
                            == u)
                },
        decreases e.mul_terms@.len() - i,
    {
        assert(e.mul_terms@.take(i as int + 1).drop_last() == e.mul_terms@.take(i as int));
        let (c, a, b) = e.mul_terms[i];
        match (w.get(&a.0), w.get(&b.0)) {
            (Some(va), Some(vb)) => {
                k = k.add(c.mul(*va).mul(*vb));
            },
            (None, Some(vb)) => {
                if let Some(u) = unknown {
                    if u.0 != a.0 {
                        return Ok(OpcodeResolution::Stalled(OpcodeNotSolvable::ExpressionHasTooManyUnknowns(e.clone())));
                    }
                }
                unknown = Some(a);
                q = q.add(c.mul(*vb));
            },
            (Some(va), None) => {
                if let Some(u) = unknown {
                    if u.0 != b.0 {
                        return Ok(OpcodeResolution::Stalled(OpcodeNotSolvable::ExpressionHasTooManyUnknowns(e.clone())));
                    }
                }
                unknown = Some(b);
                q = q.add(c.mul(*va));
            },
            (None, None) => {
                return Ok(OpcodeResolution::Stalled(OpcodeNotSolvable::ExpressionHasTooManyUnknowns(e.clone())));
            },
        }
        i = i + 1;
    }
    assert(e.mul_terms@.take(e.mul_terms@.len() as int) == e.mul_terms@);
    let mut i: usize = 0;
    while i < e.linear_combinations.len()
        invariant
            i <= e.linear_combinations@.len(),
            unknown matches Some(x) ==> !w@.contains_key(x.0),
            forall|j: int|
                #![trigger e.mul_terms@[j]]
                0 <= j < e.mul_terms@.len() ==> {
                    &&& w@.contains_key(e.mul_terms@[j].1.0) || is_unknown(unknown, e.mul_terms@[j].1.0)
                    &&& w@.contains_key(e.mul_terms@[j].2.0) || is_unknown(unknown, e.mul_terms@[j].2.0)
                    &&& w@.contains_key(e.mul_terms@[j].1.0) || w@.contains_key(e.mul_terms@[j].2.0)
                },
            forall|j: int|
                #![trigger e.linear_combinations@[j]]
                0 <= j < i ==> w@.contains_key(e.linear_combinations@[j].1.0) || is_unknown(
                    unknown,
                    e.linear_combinations@[j].1.0,
                ),
            unknown is Some ==> (exists|j: int|
                #![trigger e.mul_terms@[j]]
                0 <= j < e.mul_terms@.len() && (is_unknown(unknown, e.mul_terms@[j].1.0) || is_unknown(
                    unknown,
                    e.mul_terms@[j].2.0,
                ))) || (exists|j: int|
                #![trigger e.linear_combinations@[j]]
                0 <= j < i && is_unknown(unknown, e.linear_combinations@[j].1.0)),
            forall|u: u32|
                #[trigger] only_unknown(*e, w@, u) ==> {
                    &&& q.value() == lin_coefficient(
                        e.linear_combinations@.take(i as int),
                        u,
                        mul_coefficient(e.mul_terms@, w@, u),
                    )
                    &&& k.value() == lin_known(
                        e.linear_combinations@.take(i as int),
                        w@,
                        u,
                        mul_known(e.mul_terms@, w@, u, e.q_c.value()),
                    )
                    &&& unknown matches Some(x) ==> x.0 == u
                    &&& unknown is None ==> (forall|j: int|
                        0 <= j < e.mul_terms@.len() ==> !(#[trigger] e.mul_terms@[j].1.0 == u
                            || e.mul_terms@[j].2.0 == u)) && forall|j: int|
                        0 <= j < i ==> #[trigger] e.linear_combinations@[j].1.0 != u
                },
        decreases e.linear_combinations@.len() - i,
    {
        assert(e.linear_combinations@.take(i as int + 1).drop_last()
            == e.linear_combinations@.take(i as int));
        let (c, x) = e.linear_combinations[i];
        match w.get(&x.0) {
            Some(vx) => {
                k = k.add(c.mul(*vx));
            },
            None => {
                if let Some(u) = unknown {
                    if u.0 != x.0 {
                        return Ok(OpcodeResolution::Stalled(OpcodeNotSolvable::ExpressionHasTooManyUnknowns(e.clone())));
                    }
                }
                unknown = Some(x);
                q = q.add(c);
            },
        }
        i = i + 1;
    }
    assert(e.linear_combinations@.take(e.linear_combinations@.len() as int)
        == e.linear_combinations@);
    let u = match unknown {
        Some(u) => u,
        None => {
            return Ok(OpcodeResolution::Stalled(OpcodeNotSolvable::ExpressionHasTooManyUnknowns(e.clone())));
        },
    };
    assert(only_unknown(*e, w@, u.0));
    if q.is_zero() {
        // The unknown cancels out: the expression holds whatever its value, or never.
        if k.is_zero() {
            return Ok(OpcodeResolution::Solved);
        } else {
            return Err(OpcodeResolutionError::UnsatisfiedConstrain);
        }
    }
    let inv = q.inverse();
    let value = k.neg().mul(inv);
    let ghost w_old = w@;
    if let Err(err) = insert_value(w, u, value) {
        return Err(err);
    }
    proof {
        if only_unknown(*e, w_old, u.0) && coefficient(*e, w_old, u.0) != 0 {
            lemma_eval_split(*e, w_old, w@, u.0, value.value());
            lemma_solution(k.value(), q.value(), inv.value());
            lemma_cong_mod(eval(*e, w@) as int);
            assert(eval(*e, w@) as int % (modulus() as int) == eval(*e, w@)) by {
                vstd::arithmetic::div_mod::lemma_small_mod(eval(*e, w@), modulus());
            }
        }
    }
    // Evaluating the whole expression again confirms the assignment.
    match evaluate(e, w) {
        Some(v) => if v.is_zero() {
            Ok(OpcodeResolution::Solved)
        } else {
            Err(OpcodeResolutionError::UnsatisfiedConstrain)
        },
        None => Ok(OpcodeResolution::Solved),
    }
}

proof fn lemma_mul_sum_grows(
    t: Seq<(FieldElement, Witness, Witness)>,
    a: Map<u32, FieldElement>,
    b: Map<u32, FieldElement>,
)
    requires
        grows(a, b),
        forall|i: int|
            #![trigger t[i]]
            0 <= i < t.len() ==> a.contains_key(t[i].1.0) && a.contains_key(t[i].2.0),
    ensures
        mul_sum(t, a) == mul_sum(t, b),
    decreases t.len(),
{
    if t.len() > 0 {
        let p = t.drop_last();
        assert forall|i: int| #![trigger p[i]] 0 <= i < p.len() implies a.contains_key(p[i].1.0)
            && a.contains_key(p[i].2.0) by {
            assert(p[i] == t[i]);
        }
        lemma_mul_sum_grows(p, a, b);
        assert(t.last() == t[t.len() - 1]);
    }
}

proof fn lemma_lin_sum_grows(
    t: Seq<(FieldElement, Witness)>,
    a: Map<u32, FieldElement>,
    b: Map<u32, FieldElement>,
)
    requires
        grows(a, b),
        forall|i: int| #![trigger t[i]] 0 <= i < t.len() ==> a.contains_key(t[i].1.0),
    ensures
        lin_sum(t, a) == lin_sum(t, b),
    decreases t.len(),
{
    if t.len() > 0 {
        let p = t.drop_last();
        assert forall|i: int| #![trigger p[i]] 0 <= i < p.len() implies a.contains_key(p[i].1.0) by {
            assert(p[i] == t[i]);
        }
        lemma_lin_sum_grows(p, a, b);
        assert(t.last() == t[t.len() - 1]);
    }
}

/// `e` needs nothing more: every witness is assigned, or its one unknown cancels out.
pub open spec fn settled_expression(e: Expression, w: Map<u32, FieldElement>) -> bool {
    assigned(e, w) || exists|u: u32| #[trigger] only_unknown(e, w, u) && coefficient(e, w, u) == 0
}

/// `e` cannot be solved for an unknown under `w`.
pub open spec fn stuck_expression(e: Expression, w: Map<u32, FieldElement>) -> bool {
    !exists|u: u32| #[trigger] only_unknown(e, w, u) && coefficient(e, w, u) != 0
}

proof fn lemma_mul_coefficient_grows(
    t: Seq<(FieldElement, Witness, Witness)>,
    a: Map<u32, FieldElement>,
    b: Map<u32, FieldElement>,
    u: u32,
)
    requires
        grows(a, b),
        forall|i: int|
            #![trigger t[i]]
            0 <= i < t.len() ==> {
                &&& t[i].1.0 == u || a.contains_key(t[i].1.0)
                &&& t[i].2.0 == u || a.contains_key(t[i].2.0)
                &&& !(t[i].1.0 == u && t[i].2.0 == u)
            },
    ensures
        mul_coefficient(t, a, u) == mul_coefficient(t, b, u),
    decreases t.len(),
{
    if t.len() > 0 {
        let p = t.drop_last();
        assert forall|i: int| #![trigger p[i]] 0 <= i < p.len() implies {
            &&& p[i].1.0 == u || a.contains_key(p[i].1.0)
            &&& p[i].2.0 == u || a.contains_key(p[i].2.0)
            &&& !(p[i].1.0 == u && p[i].2.0 == u)
        } by {
            assert(p[i] == t[i]);
        }
        lemma_mul_coefficient_grows(p, a, b, u);
        assert(t.last() == t[t.len() - 1]);
    }
}

/// A settled expression stays settled as assignments grow.
pub proof fn lemma_settled_grows(e: Expression, a: Map<u32, FieldElement>, b: Map<u32, FieldElement>)
    requires
        settled_expression(e, a),
        grows(a, b),
    ensures
        settled_expression(e, b),
{
    if !assigned(e, a) {
        let u = choose|u: u32| #[trigger] only_unknown(e, a, u) && coefficient(e, a, u) == 0;
        if !b.contains_key(u) {
            lemma_mul_coefficient_grows(e.mul_terms@, a, b, u);
            assert(only_unknown(e, b, u));
        }
    } else {
        lemma_eval_grows(e, a, b);
    }
}

/// A settled expression cannot be solved for an unknown.
pub proof fn lemma_settled_stuck(e: Expression, w: Map<u32, FieldElement>)
    requires
        settled_expression(e, w),
    ensures
        stuck_expression(e, w),
{
    if exists|u: u32| #[trigger] only_unknown(e, w, u) && coefficient(e, w, u) != 0 {
        let u = choose|u: u32| #[trigger] only_unknown(e, w, u) && coefficient(e, w, u) != 0;
        if assigned(e, w) {
            if exists|i: int|
                #![trigger e.mul_terms@[i]]
                0 <= i < e.mul_terms@.len() && (e.mul_terms@[i].1.0 == u || e.mul_terms@[i].2.0 == u) {
                let i = choose|i: int|
                    #![trigger e.mul_terms@[i]]
                    0 <= i < e.mul_terms@.len() && (e.mul_terms@[i].1.0 == u || e.mul_terms@[i].2.0
                        == u);
                assert(w.contains_key(e.mul_terms@[i].1.0) && w.contains_key(e.mul_terms@[i].2.0));
            } else {
                let i = choose|i: int|
                    #![trigger e.linear_combinations@[i]]
                    0 <= i < e.linear_combinations@.len() && e.linear_combinations@[i].1.0 == u;
                assert(w.contains_key(e.linear_combinations@[i].1.0));
            }
        } else {
            let v = choose|v: u32| #[trigger] only_unknown(e, w, v) && coefficient(e, w, v) == 0;
            if v != u {
                if exists|i: int|
                    #![trigger e.mul_terms@[i]]
                    0 <= i < e.mul_terms@.len() && (e.mul_terms@[i].1.0 == v || e.mul_terms@[i].2.0
                        == v) {
                    let i = choose|i: int|
                        #![trigger e.mul_terms@[i]]
                        0 <= i < e.mul_terms@.len() && (e.mul_terms@[i].1.0 == v
                            || e.mul_terms@[i].2.0 == v);
                    assert(e.mul_terms@[i].1.0 == u || w.contains_key(e.mul_terms@[i].1.0));
                } else {
                    let i = choose|i: int|
                        #![trigger e.linear_combinations@[i]]
                        0 <= i < e.linear_combinations@.len() && e.linear_combinations@[i].1.0 == v;
                    assert(e.linear_combinations@[i].1.0 == u || w.contains_key(
                        e.linear_combinations@[i].1.0,
                    ));
                }
            }
        }
    }
}

/// Once every witness of `e` is assigned, further assignments do not change its value.
pub proof fn lemma_eval_grows(e: Expression, a: Map<u32, FieldElement>, b: Map<u32, FieldElement>)
    requires
        assigned(e, a),
        grows(a, b),
    ensures
        assigned(e, b),
        eval(e, a) == eval(e, b),
{
    lemma_mul_sum_grows(e.mul_terms@, a, b);
    lemma_lin_sum_grows(e.linear_combinations@, a, b);
}

pub proof fn lemma_grows_trans(
    a: Map<u32, FieldElement>,
    b: Map<u32, FieldElement>,
    c: Map<u32, FieldElement>,
)
    requires
        grows(a, b),
        grows(b, c),
    ensures
        grows(a, c),
{
    assert forall|k: u32| #[trigger] a.contains_key(k) implies c.contains_key(k) && c[k] == a[k] by {
        assert(b.contains_key(k));
    }
}

pub proof fn lemma_grows_same_len(a: Map<u32, FieldElement>, b: Map<u32, FieldElement>)
    requires
        grows(a, b),
        b.dom().finite(),
        a.len() == b.len(),
    ensures
        a == b,
{
    assert(a.dom().subset_of(b.dom()));
    vstd::set_lib::lemma_len_subset(a.dom(), b.dom());
    vstd::set_lib::lemma_subset_equality(a.dom(), b.dom());
    assert(a =~= b);
}

pub proof fn lemma_grows_len(a: Map<u32, FieldElement>, b: Map<u32, FieldElement>)
    requires
        grows(a, b),
        b.dom().finite(),
    ensures
        a.len() <= b.len(),
{
    assert(a.dom().subset_of(b.dom()));
    vstd::set_lib::lemma_len_subset(a.dom(), b.dom());
}

} // verus!
