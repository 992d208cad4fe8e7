//! Field values: the numeric quantities of a Merkle proof (root, key, value,
//! siblings), held in their canonical fixed-width little-endian encoding.

use vstd::prelude::*;
use vstd::arithmetic::power2::*;
use vstd::arithmetic::div_mod::*;
use vstd::arithmetic::mul::*;
use vstd::bits::*;

verus! {

/// The integer denoted by a little-endian byte string.
pub open spec fn value_of(s: Seq<u8>) -> nat
    decreases s.len(),
{
    if s.len() == 0 {
        0
    } else {
        (s[0] + 256 * value_of(s.drop_first())) as nat
    }
}

/// Bit `i` of the integer `v` (little-endian bit order).
pub open spec fn nat_bit(v: nat, i: nat) -> bool {
    (v / pow2(i)) % 2 == 1
}

/// A non-negative integer below 2^256, as used for roots, keys, values and
/// siblings. It is kept in its canonical 32-byte little-endian encoding,
/// the fixed-width form in which all quantities are hashed.
pub struct FieldValue {
    bytes: Vec<u8>,
}

impl View for FieldValue {
    type V = nat;

    closed spec fn view(&self) -> nat {
        value_of(self.bytes@)
    }
}

impl FieldValue {
    #[verifier::type_invariant]
    spec fn wf(self) -> bool {
        self.bytes@.len() == 32
    }

    /// The zero value, which also encodes an empty subtree.
    pub fn zero() -> (r: FieldValue)
        ensures
            r@ == 0,
    {
        let mut bytes: Vec<u8> = Vec::new();
        while bytes.len() < 32
            invariant
                bytes@.len() <= 32,
                forall|j: int| 0 <= j < bytes@.len() ==> bytes@[j] == 0,
            decreases 32 - bytes@.len(),
        {
            bytes.push(0u8);
        }
        proof {
            lemma_value_of_all_zero(bytes@);
        }
        FieldValue { bytes }
    }

    /// The one value.
    pub fn one() -> (r: FieldValue)
        ensures
            r@ == 1,
    {
        let mut bytes: Vec<u8> = Vec::new();
        bytes.push(1u8);
        proof {
            reveal_with_fuel(value_of, 2);
            assert(bytes@.drop_first() =~= Seq::<u8>::empty());
            assert(value_of(bytes@) == 1);
        }
        while bytes.len() < 32
            invariant
                1 <= bytes@.len() <= 32,
                value_of(bytes@) == 1,
            decreases 32 - bytes@.len(),
        {
            proof {
                lemma_value_of_extend_zero(bytes@);
            }
            bytes.push(0u8);
        }
        FieldValue { bytes }
    }

    /// Builds a field value from a little-endian byte string, padding short
    /// inputs with zeroes and keeping only the low 32 bytes of long ones.
    pub fn from_bytes_le(b: &[u8]) -> (r: FieldValue)
        ensures
            b@.len() <= 32 ==> r@ == value_of(b@),
            b@.len() > 32 ==> r@ == value_of(b@.subrange(0, 32)),
    {
        let n: usize = if b.len() < 32 {
            b.len()
        } else {
            32
        };
        let mut bytes: Vec<u8> = Vec::new();
        let mut i: usize = 0;
        while i < n
            invariant
                0 <= i <= n,
                n <= b@.len(),
                bytes@ =~= b@.subrange(0, i as int),
            decreases n - i,
        {
            bytes.push(b[i]);
            i = i + 1;
        }
        proof {
            if b@.len() <= 32 {
                assert(bytes@ =~= b@);
            }
        }
        while bytes.len() < 32
            invariant
                bytes@.len() <= 32,
                value_of(bytes@) == if b@.len() <= 32 {
                    value_of(b@)
                } else {
                    value_of(b@.subrange(0, 32))
                },
            decreases 32 - bytes@.len(),
        {
            proof {
                lemma_value_of_extend_zero(bytes@);
            }
            bytes.push(0u8);
        }
        FieldValue { bytes }
    }

    /// The canonical 32-byte little-endian encoding of this value.
    pub fn to_bytes_le(&self) -> (r: Vec<u8>)
        ensures
            r@.len() == 32,
            value_of(r@) == self@,
    {
        proof {
            use_type_invariant(self);
        }
        let mut r: Vec<u8> = Vec::new();
        let mut i: usize = 0;
        while i < 32
            invariant
                0 <= i <= 32,
                self.bytes@.len() == 32,
                r@ =~= self.bytes@.subrange(0, i as int),
            decreases 32 - i,
        {
            r.push(self.bytes[i]);
            i = i + 1;
        }
        proof {
            assert(r@ =~= self.bytes@);
        }
        r
    }

    /// Whether this value is zero.
    pub fn is_zero(&self) -> (r: bool)
        ensures
            r == (self@ == 0),
    {
        proof {
            use_type_invariant(self);
        }
        let mut i: usize = 0;
        let mut all0: bool = true;
        while i < 32
            invariant
                0 <= i <= 32,
                self.bytes@.len() == 32,
                all0 == (forall|j: int| 0 <= j < i ==> self.bytes@[j] == 0),
            decreases 32 - i,
        {
            if self.bytes[i] != 0 {
                all0 = false;
            }
            i = i + 1;
        }
        proof {
            lemma_value_of_all_zero(self.bytes@);
        }
        all0
    }

    /// Whether the two values are the same integer.
    pub fn equals(&self, other: &FieldValue) -> (r: bool)
        ensures
            r == (self@ == other@),
    {
        proof {
            use_type_invariant(self);
            use_type_invariant(other);
        }
        let mut i: usize = 0;
        let mut same: bool = true;
        while i < 32
            invariant
                0 <= i <= 32,
                self.bytes@.len() == 32,
                other.bytes@.len() == 32,
                same == (forall|j: int| 0 <= j < i ==> self.bytes@[j] == other.bytes@[j]),
            decreases 32 - i,
        {
            if self.bytes[i] != other.bytes[i] {
                same = false;
            }
            i = i + 1;
        }
        proof {
            if same {
                assert(self.bytes@ =~= other.bytes@);
            } else {
                assert(value_of(self.bytes@) != value_of(other.bytes@)) by {
                    if value_of(self.bytes@) == value_of(other.bytes@) {
                        lemma_value_of_injective(self.bytes@, other.bytes@);
                    }
                };
            }
        }
        same
    }

    /// Bit `i` of this value, counting from the least significant bit.
    pub fn bit(&self, i: usize) -> (r: bool)
        ensures
            r == nat_bit(self@, i as nat),
    {
        proof {
            use_type_invariant(self);
        }
        if i >= 256 {
            proof {
                lemma_value_of_bound(self.bytes@);
                lemma_pow2_le(256, i as nat);
                lemma_pow2_pos(i as nat);
                lemma_basic_div(self@ as int, pow2(i as nat) as int);
            }
            false
        } else {
            let byte = self.bytes[i / 8];
            let k: u8 = (i % 8) as u8;
            let b = (byte >> k) & 1;
            proof {
                lemma_u8_shr_is_div(byte, k);
                assert((byte >> k) & 1 == (byte >> k) % 2) by (bit_vector);
                lemma_value_of_bit(self.bytes@, i as nat);
            }
            b == 1
        }
    }
}

impl Clone for FieldValue {
    /// A clone denotes the same integer.
    fn clone(&self) -> (r: Self)
        ensures
            r@ == self@,
    {
        let bytes = self.to_bytes_le();
        FieldValue { bytes }
    }
}

/// A byte string denotes zero exactly when all its bytes are zero.
pub proof fn lemma_value_of_all_zero(s: Seq<u8>)
    ensures
        (value_of(s) == 0) <==> (forall|j: int| 0 <= j < s.len() ==> s[j] == 0),
    decreases s.len(),
{
    if s.len() > 0 {
        lemma_value_of_all_zero(s.drop_first());
        if value_of(s) == 0 {
            assert(s[0] == 0 && value_of(s.drop_first()) == 0);
            assert forall|j: int| 0 <= j < s.len() implies s[j] == 0 by {
                if j > 0 {
                    assert(s.drop_first()[j - 1] == 0);
                }
            }
        }
        if forall|j: int| 0 <= j < s.len() ==> s[j] == 0 {
            assert forall|j: int| 0 <= j < s.drop_first().len() implies s.drop_first()[j]
                == 0 by {
                assert(s[j + 1] == 0);
            }
            assert(value_of(s.drop_first()) == 0);
        }
    }
}

/// Appending a zero byte leaves the denoted integer unchanged.
pub proof fn lemma_value_of_extend_zero(s: Seq<u8>)
    ensures
        value_of(s.push(0u8)) == value_of(s),
    decreases s.len(),
{
    if s.len() == 0 {
        reveal_with_fuel(value_of, 2);
        assert(s.push(0u8).drop_first() =~= Seq::<u8>::empty());
        assert(s.push(0u8)[0] == 0u8);
    } else {
        assert(s.push(0u8).drop_first() =~= s.drop_first().push(0u8));
        lemma_value_of_extend_zero(s.drop_first());
    }
}

/// A little-endian byte string of length n denotes an integer below 2^(8n).
pub proof fn lemma_value_of_bound(s: Seq<u8>)
    ensures
        value_of(s) < pow2(8 * s.len()),
    decreases s.len(),
{
    if s.len() == 0 {
        lemma2_to64();
    } else {
        lemma_value_of_bound(s.drop_first());
        lemma_pow2_adds(8, 8 * (s.len() - 1) as nat);
        lemma2_to64();
        assert(256 * value_of(s.drop_first()) <= 256 * (pow2(8 * (s.len() - 1) as nat)
            - 1)) by {
            lemma_mul_inequality(
                value_of(s.drop_first()) as int,
                pow2(8 * (s.len() - 1) as nat) - 1,
                256,
            );
        };
        assert(8 * s.len() == 8 + 8 * (s.len() - 1));
    }
}

/// Head and tail of a little-endian byte string, recovered from its value.
proof fn lemma_value_of_head_tail(s: Seq<u8>)
    requires
        s.len() > 0,
    ensures
        value_of(s) % 256 == s[0],
        value_of(s) / 256 == value_of(s.drop_first()),
{
    let rest = value_of(s.drop_first()) as int;
    lemma_mod_multiples_vanish(rest, s[0] as int, 256);
    lemma_small_mod(s[0] as nat, 256);
    lemma_div_multiples_vanish_fancy(rest, s[0] as int, 256);
    assert(256 * rest + s[0] == value_of(s));
}

/// Two byte strings of the same length denoting the same integer are equal.
pub proof fn lemma_value_of_injective(s1: Seq<u8>, s2: Seq<u8>)
    requires
        s1.len() == s2.len(),
        value_of(s1) == value_of(s2),
    ensures
        s1 == s2,
    decreases s1.len(),
{
    if s1.len() > 0 {
        lemma_value_of_head_tail(s1);
        lemma_value_of_head_tail(s2);
        lemma_value_of_injective(s1.drop_first(), s2.drop_first());
        assert(s1[0] == s2[0]);
        assert forall|j: int| 0 <= j < s1.len() implies s1[j] == s2[j] by {
            if j > 0 {
                assert(s1.drop_first()[j - 1] == s2.drop_first()[j - 1]);
            }
        }
        assert(s1 =~= s2);
    } else {
        assert(s1 =~= s2);
    }
}

/// pow2 is monotone.
proof fn lemma_pow2_le(e1: nat, e2: nat)
    requires
        e1 <= e2,
    ensures
        pow2(e1) <= pow2(e2),
{
    if e1 < e2 {
        lemma_pow2_strictly_increases(e1, e2);
    }
}

/// Bit i of the denoted integer is bit i%8 of byte i/8.
pub proof fn lemma_value_of_bit(s: Seq<u8>, i: nat)
    requires
        i / 8 < s.len(),
    ensures
        nat_bit(value_of(s), i) == nat_bit(s[i as int / 8] as nat, i % 8),
    decreases s.len(),
{
    let v = value_of(s) as int;
    let rest = value_of(s.drop_first()) as int;
    lemma2_to64();
    if i < 8 {
        lemma_pow2_adds(i, (8 - i) as nat);
        lemma_pow2_pos(i);
        lemma_pow2_pos((8 - i) as nat);
        let p = pow2(i) as int;
        let q = pow2((8 - i) as nat) as int;
        lemma_fundamental_div_mod(s[0] as int, p);
        assert(256 * rest == p * (q * rest)) by (nonlinear_arith)
            requires
                256 == p * q,
        ;
        assert(v == p * (q * rest) + (p * (s[0] as int / p) + s[0] as int % p));
        assert(v == p * (q * rest + s[0] as int / p) + s[0] as int % p) by (nonlinear_arith)
            requires
                v == p * (q * rest) + (p * (s[0] as int / p) + s[0] as int % p),
        ;
        lemma_mod_division_less_than_divisor(s[0] as int, p);
        lemma_div_multiples_vanish_fancy(q * rest + s[0] as int / p, s[0] as int % p, p);
        assert(v / p == q * rest + s[0] as int / p);
        assert(q == 2 * pow2((7 - i) as nat)) by {
            lemma_pow2_adds(1, (7 - i) as nat);
            lemma_pow2_unfold(1);
        };
        assert(q * rest == 2 * (pow2((7 - i) as nat) * rest)) by (nonlinear_arith)
            requires
                q == 2 * pow2((7 - i) as nat),
        ;
        lemma_mod_multiples_vanish(pow2((7 - i) as nat) * rest, s[0] as int / p, 2);
        assert((v / p) % 2 == (s[0] as int / p) % 2);
    } else {
        lemma_pow2_adds(8, (i - 8) as nat);
        lemma_pow2_pos((i - 8) as nat);
        let p = pow2((i - 8) as nat) as int;
        lemma_value_of_head_tail(s);
        lemma_div_denominator(v, 256, p);
        assert(v / pow2(i) as int == rest / p);
        lemma_value_of_bit(s.drop_first(), (i - 8) as nat);
        assert(s.drop_first()[(i - 8) as int / 8] == s[i as int / 8]);
        assert((i - 8) % 8 == i % 8) by {
            lemma_mod_sub_multiples_vanish(i as int, 8);
        };
    }
}

} // verus!
