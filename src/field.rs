use vstd::prelude::*;

verus! {

/// The order of the scalar field of the BN254 curve, over which circuits are written.
pub open spec fn modulus() -> nat {
    21888242871839275222246405745257275088548364400416034343698204186575808495617nat
}

/// The natural number whose big-endian base-256 digits are `s`.
pub open spec fn be_value(s: Seq<u8>) -> nat
    decreases s.len(),
{
    if s.len() == 0 {
        0
    } else {
        be_value(s.drop_last()) * 256 + s.last() as nat
    }
}

/// An element of the prime field, held as its canonical 32-byte big-endian encoding.
#[derive(Clone, Copy, Debug, PartialEq, Eq)]
pub struct FieldElement {
    bytes: [u8; 32],
}

/// Addition in the field.
pub open spec fn fadd(a: nat, b: nat) -> nat {
    (a + b) % modulus()
}

/// Multiplication in the field.
pub open spec fn fmul(a: nat, b: nat) -> nat {
    (a * b) % modulus()
}

/// The additive inverse in the field.
pub open spec fn fneg(a: nat) -> nat {
    ((modulus() - a % modulus()) as int % modulus() as int) as nat
}

proof fn lemma_be_value_zero(s: Seq<u8>)
    requires
        forall|i: int| 0 <= i < s.len() ==> s[i] == 0,
    ensures
        be_value(s) == 0,
    decreases s.len(),
{
    if s.len() > 0 {
        lemma_be_value_zero(s.drop_last());
    }
}

proof fn lemma_be_value_nonzero(s: Seq<u8>, i: int)
    requires
        0 <= i < s.len(),
        s[i] != 0,
    ensures
        be_value(s) > 0,
    decreases s.len(),
{
    if i < s.len() - 1 {
        lemma_be_value_nonzero(s.drop_last(), i);
    }
}

impl FieldElement {
    #[verifier::type_invariant]
    spec fn canonical(&self) -> bool {
        be_value(self.bytes@) < modulus()
    }

    /// Whether the two elements are equal.
    pub fn eq_value(&self, other: &FieldElement) -> (r: bool)
        ensures
            r == (self.value() == other.value()),
    {
        proof {
            use_type_invariant(self);
            use_type_invariant(other);
        }
        let d = self.add(other.neg());
        let r = d.is_zero();
        proof {
            let a = self.value();
            let b = other.value();
            let p = modulus();
            assert(b % p == b) by {
                vstd::arithmetic::div_mod::lemma_small_mod(b, p);
            }
            if b == 0 {
                assert((p - b) as int % p as int == 0);
                assert((a + 0) % p == a) by {
                    vstd::arithmetic::div_mod::lemma_small_mod(a, p);
                }
            } else {
                assert((p - b) as int % p as int == p - b) by {
                    vstd::arithmetic::div_mod::lemma_small_mod((p - b) as nat, p);
                }
                if a >= b {
                    assert((a + (p - b)) as int % p as int == a - b) by {
                        vstd::arithmetic::div_mod::lemma_mod_add_multiples_vanish((a - b) as int, p as int);
                        vstd::arithmetic::div_mod::lemma_small_mod((a - b) as nat, p);
                    }
                } else {
                    assert((a + (p - b)) as int % p as int == a + p - b) by {
                        vstd::arithmetic::div_mod::lemma_small_mod((a + p - b) as nat, p);
                    }
                }
            }
        }
        r
    }

    /// The value in `0 .. modulus()` that this element stands for.
    pub closed spec fn value(&self) -> nat {
        be_value(self.bytes@)
    }

    /// The additive identity.
    pub fn zero() -> (r: FieldElement)
        ensures
            r.value() == 0,
    {
        let bytes = [0u8; 32];
        proof {
            broadcast use vstd::array::group_array_axioms;
            lemma_be_value_zero(bytes@);
        }
        FieldElement { bytes }
    }

    /// The multiplicative identity.
    pub fn one() -> (r: FieldElement)
        ensures
            r.value() == 1,
    {
        let bytes: [u8; 32] = [
            0u8, 0u8, 0u8, 0u8, 0u8, 0u8, 0u8, 0u8, 0u8, 0u8, 0u8, 0u8, 0u8, 0u8, 0u8, 0u8,
            0u8, 0u8, 0u8, 0u8, 0u8, 0u8, 0u8, 0u8, 0u8, 0u8, 0u8, 0u8, 0u8, 0u8, 0u8, 1u8,
        ];
        proof {
            broadcast use vstd::array::group_array_axioms;

            let s = bytes@;
            assert(s.len() == 32);
            assert forall|i: int| 0 <= i < s.drop_last().len() implies s.drop_last()[i] == 0 by {
                assert(s.drop_last()[i] == s[i]);
            }
            lemma_be_value_zero(s.drop_last());
            assert(s.last() == 1);
        }
        FieldElement { bytes }
    }

    /// The element `v`: every `u128` is below the field order.
    pub fn from_u128(v: u128) -> (r: FieldElement)
        ensures
            r.value() == v as nat,
    {
        let mut acc = FieldElement::zero();
        let mut scale = FieldElement::one();
        let mut rem: u128 = v;
        let ghost mut done: int = 0;
        while rem > 0
            invariant
                v as int == rem as int * scale.value() + done,
                0 <= done < scale.value(),
                acc.value() == done,
                1 <= scale.value() <= 0x2_0000_0000_0000_0000_0000_0000_0000_0000,
            decreases rem,
        {
            let bit = rem % 2;
            let half = rem / 2;
            let ghost sc = scale.value() as int;
            proof {
                assert(sc <= rem as int * sc) by (nonlinear_arith)
                    requires
                        rem >= 1,
                        sc >= 1,
                ;
                assert(v as int == half as int * (2 * sc) + (bit as int * sc + done)) by (nonlinear_arith)
                    requires
                        v as int == rem as int * sc + done,
                        rem as int == 2 * half as int + bit as int,
                ;
            }
            if bit == 1 {
                acc = acc.add(scale);
                proof {
                    vstd::arithmetic::div_mod::lemma_small_mod((done + sc) as nat, modulus());
                    assert(bit as int * sc == sc) by (nonlinear_arith)
                        requires
                            bit == 1,
                    ;
                    done = done + sc;
                }
            } else {
                assert(bit as int * sc == 0) by (nonlinear_arith)
                    requires
                        bit == 0,
                ;
            }
            scale = scale.add(scale);
            proof {
                vstd::arithmetic::div_mod::lemma_small_mod((sc + sc) as nat, modulus());
            }
            rem = half;
            assert(scale.value() == 2 * sc);
            assert(v as int == rem as int * scale.value() + done);
        }
        acc
    }

    pub fn is_zero(&self) -> (r: bool)
        ensures
            r == (self.value() == 0),
            self.value() < modulus(),
    {
        broadcast use vstd::array::group_array_axioms;

        proof {
            use_type_invariant(self);
        }

        let mut i: usize = 0;
        while i < 32
            invariant
                0 <= i <= 32,
                self.bytes@.len() == 32,
                self.value() < modulus(),
                forall|j: int| 0 <= j < i ==> self.bytes@[j] == 0,
            decreases 32 - i,
        {
            if self.bytes[i] != 0 {
                proof {
                    lemma_be_value_nonzero(self.bytes@, i as int);
                }
                return false;
            }
            i = i + 1;
        }
        proof {
            lemma_be_value_zero(self.bytes@);
        }
        true
    }

    /// Relies on acir's `Add` for `FieldElement`: addition modulo the field order.
    #[verifier::external_body]
    pub fn add(self, b: FieldElement) -> (r: FieldElement)
        ensures
            r.value() == fadd(self.value(), b.value()),
    {
        let s = acir::FieldElement::from_be_bytes_reduce(&self.bytes)
            + acir::FieldElement::from_be_bytes_reduce(&b.bytes);
        FieldElement { bytes: s.to_be_bytes().try_into().unwrap() }
    }

    /// Relies on acir's `Mul` for `FieldElement`: multiplication modulo the field order.
    #[verifier::external_body]
    pub fn mul(self, b: FieldElement) -> (r: FieldElement)
        ensures
            r.value() == fmul(self.value(), b.value()),
    {
        let p = acir::FieldElement::from_be_bytes_reduce(&self.bytes)
            * acir::FieldElement::from_be_bytes_reduce(&b.bytes);
        FieldElement { bytes: p.to_be_bytes().try_into().unwrap() }
    }

    /// Relies on acir's `Neg` for `FieldElement`: the additive inverse modulo the field order.
    #[verifier::external_body]
    pub fn neg(self) -> (r: FieldElement)
        ensures
            r.value() == fneg(self.value()),
    {
        let n = -acir::FieldElement::from_be_bytes_reduce(&self.bytes);
        FieldElement { bytes: n.to_be_bytes().try_into().unwrap() }
    }

    /// Relies on acir's `FieldElement::inverse`: the multiplicative inverse, and zero for zero.
    #[verifier::external_body]
    pub fn inverse(self) -> (r: FieldElement)
        ensures
            self.value() % modulus() == 0 ==> r.value() == 0,
            self.value() % modulus() != 0 ==> fmul(r.value(), self.value()) == 1,
    {
        let i = acir::FieldElement::from_be_bytes_reduce(&self.bytes).inverse();
        FieldElement { bytes: i.to_be_bytes().try_into().unwrap() }
    }

    /// Relies on acir's `FieldElement::try_to_u64`: the value where it has at most 64 bits.
    #[verifier::external_body]
    pub fn try_to_u64(&self) -> (r: Option<u64>)
        ensures
            r is None <==> self.value() >= 0x1_0000_0000_0000_0000,
            r matches Some(v) ==> v as nat == self.value(),
    {
        acir::FieldElement::from_be_bytes_reduce(&self.bytes).try_to_u64()
    }
}

} // verus!
