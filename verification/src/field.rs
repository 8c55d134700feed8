//! The prime field the shares live in.
//!
//! A field element is carried as its canonical 32-byte little-endian
//! encoding; its mathematical meaning is the encoded integer, reduced below
//! the group order. The arithmetic itself is done by an outside arithmetic
//! library behind the trusted wrappers at the end of this file; everything
//! the rest of the crate states about shares is phrased over [`le_val`] and
//! the integers modulo [`group_order`].

use vstd::prelude::*;
use vstd::calc;
use vstd::arithmetic::div_mod::{
    lemma_fundamental_div_mod_converse_div, lemma_mod_multiples_vanish, lemma_mul_mod_noop_left,
    lemma_mul_mod_noop_right, lemma_small_mod,
};
use vstd::arithmetic::mul::lemma_mul_is_associative;
use vstd::arithmetic::power::{lemma_pow_adds, lemma_pow_positive, pow};

verus! {

/// Width in bytes of the canonical encoding of one field element.
pub const FIELD_ELEMENT_LEN: usize = 32;

/// Order of the scalar field: the prime
/// 2^252 + 27742317777372353535851937790883648493.
pub open spec fn group_order() -> int {
    7237005577332262213973186563042994240857116359379907606001950938285454250989int
}

/// The integer a byte string encodes, read little-endian.
pub open spec fn le_val(s: Seq<u8>) -> int
    decreases s.len(),
{
    if s.len() == 0 {
        0
    } else {
        s[0] + 256 * le_val(s.drop_first())
    }
}

/// The multiplicative inverse of `a` modulo the group order, where one
/// exists. Callers establish existence by exhibiting a concrete inverse
/// (see [`lemma_inv_val_unique`]); the inverse is then unique.
pub open spec fn inv_val(a: int) -> int {
    choose|b: int| 0 <= b < group_order() && #[trigger] ((a * b) % group_order()) == 1
}

/// The values of a sequence of field elements.
pub open spec fn fe_vals(s: Seq<FieldElem>) -> Seq<int> {
    s.map_values(|f: FieldElem| f.value())
}

/// Every element of the sequence is in canonical form.
pub open spec fn all_wf(s: Seq<FieldElem>) -> bool {
    forall|i: int| 0 <= i < s.len() ==> (#[trigger] s[i]).wf()
}

/// One field element, held in canonical encoding.
#[derive(Clone, Copy, Debug)]
pub struct FieldElem {
    bytes: [u8; 32],
}

impl FieldElem {
    /// The integer this element stands for.
    pub closed spec fn value(self) -> int {
        le_val(self.bytes@)
    }

    /// The canonical encoding.
    pub closed spec fn byte_seq(self) -> Seq<u8> {
        self.bytes@
    }

    /// Canonical form: the encoded integer is reduced.
    pub open spec fn wf(self) -> bool {
        0 <= self.value() < group_order()
    }

    /// Copy the canonical encoding out.
    pub fn to_bytes(&self) -> (r: Vec<u8>)
        ensures
            r@ == self.byte_seq(),
    {
        let mut r: Vec<u8> = Vec::new();
        let mut i: usize = 0;
        while i < 32
            invariant
                i <= 32,
                r@ == self.byte_seq().subrange(0, i as int),
            decreases 32 - i,
        {
            r.push(self.bytes[i]);
            proof {
                assert(r@ =~= self.byte_seq().subrange(0, i + 1));
            }
            i += 1;
        }
        proof {
            assert(r@ =~= self.byte_seq());
        }
        r
    }

    /// Decode a 32-byte string; fails unless it is the canonical encoding of
    /// a reduced field element.
    pub fn from_bytes(bytes: &Vec<u8>) -> (r: Option<FieldElem>)
        ensures
            r is Some <==> bytes@.len() == 32 && 0 <= le_val(bytes@) < group_order(),
            r matches Some(f) ==> f.byte_seq() == bytes@ && f.value() == le_val(bytes@) && f.wf(),
    {
        if bytes.len() != 32 {
            return None;
        }
        let r = fe_decode_at(bytes, 0);
        proof {
            assert(bytes@.subrange(0, 32) =~= bytes@);
        }
        r
    }
}

/// The encoding and its value determine each other.
pub proof fn lemma_fe_bytes(fe: FieldElem)
    ensures
        fe.byte_seq().len() == 32,
        fe.value() == le_val(fe.byte_seq()),
{
}

/// A byte string's little-endian value is not negative.
pub proof fn lemma_le_val_nonneg(s: Seq<u8>)
    ensures
        0 <= le_val(s),
    decreases s.len(),
{
    if s.len() > 0 {
        lemma_le_val_nonneg(s.drop_first());
    }
}

/// Equal-length byte strings with the same little-endian value are equal:
/// the encoding is injective.
pub proof fn lemma_le_val_injective(s1: Seq<u8>, s2: Seq<u8>)
    requires
        s1.len() == s2.len(),
        le_val(s1) == le_val(s2),
    ensures
        s1 =~= s2,
    decreases s1.len(),
{
    if s1.len() > 0 {
        let t1 = s1.drop_first();
        let t2 = s2.drop_first();
        lemma_mod_multiples_vanish(le_val(t1), s1[0] as int, 256);
        lemma_mod_multiples_vanish(le_val(t2), s2[0] as int, 256);
        lemma_small_mod(s1[0] as nat, 256);
        lemma_small_mod(s2[0] as nat, 256);
        assert(s1[0] == s2[0]);
        assert(256 * le_val(t1) == 256 * le_val(t2));
        lemma_le_val_injective(t1, t2);
        assert(s1 =~= s2) by {
            assert(forall|i: int| 1 <= i < s1.len() ==> s1[i] == t1[i - 1] && s2[i] == t2[i - 1]);
        }
    }
}

/// Byte `i` of an encoding is digit `i` of its value, base 256.
pub proof fn lemma_le_val_digit(s: Seq<u8>, i: int)
    requires
        0 <= i < s.len(),
    ensures
        (le_val(s) / pow(256, i as nat)) % 256 == s[i],
    decreases i,
{
    let t = s.drop_first();
    lemma_le_val_nonneg(t);
    if i == 0 {
        vstd::arithmetic::power::lemma_pow0(256);
        lemma_mod_multiples_vanish(le_val(t), s[0] as int, 256);
        lemma_small_mod(s[0] as nat, 256);
    } else {
        lemma_fundamental_div_mod_converse_div(le_val(s), 256, le_val(t), s[0] as int);
        assert(le_val(s) / 256 == le_val(t));
        lemma_le_val_digit(t, i - 1);
        lemma_pow_positive(256, (i - 1) as nat);
        lemma_pow_adds(256, 1, (i - 1) as nat);
        vstd::arithmetic::power::lemma_pow1(256);
        assert(pow(256, i as nat) == 256 * pow(256, (i - 1) as nat));
        lemma_le_val_nonneg(s);
        vstd::arithmetic::div_mod::lemma_div_denominator(
            le_val(s),
            256,
            pow(256, (i - 1) as nat),
        );
        assert(le_val(s) / pow(256, i as nat) == le_val(t) / pow(256, (i - 1) as nat));
        assert(t[i - 1] == s[i]);
    }
}

/// The canonical 32-byte little-endian encoding of a value.
pub open spec fn le_bytes32(v: int) -> Seq<u8> {
    Seq::new(32, |i: int| ((v / pow(256, i as nat)) % 256) as u8)
}

/// Encoding a 32-byte string's value gives the string back.
pub proof fn lemma_le_bytes32_roundtrip(s: Seq<u8>)
    requires
        s.len() == 32,
    ensures
        le_bytes32(le_val(s)) =~= s,
{
    assert forall|i: int| 0 <= i < 32 implies le_bytes32(le_val(s))[i] == s[i] by {
        lemma_le_val_digit(s, i);
    }
}

/// An integer with an inverse modulo the group order has exactly one
/// inverse in canonical range, and [`inv_val`] is it.
pub proof fn lemma_inv_val_unique(a: int, b: int)
    requires
        0 <= b < group_order(),
        (a * b) % group_order() == 1,
    ensures
        inv_val(a) == b,
{
    let m = group_order();
    assert(exists|x: int| 0 <= x < m && #[trigger] ((a * x) % m) == 1) by {
        assert(0 <= b < m && (a * b) % m == 1);
    }
    let c = inv_val(a);
    assert(0 <= c < m && (a * c) % m == 1);
    calc! {
        (==)
        c; {
            lemma_small_mod(c as nat, m as nat);
        }
        c % m; {
            lemma_mul_mod_noop_right(c, a * b, m);
        }
        (c * (a * b)) % m; {
            lemma_mul_is_associative(c, a, b);
        }
        ((c * a) * b) % m; {
            lemma_mul_mod_noop_left(c * a, b, m);
        }
        (((c * a) % m) * b) % m; {
            assert(c * a == a * c) by {
                vstd::arithmetic::mul::lemma_mul_is_commutative(c, a);
            }
        }
        (((a * c) % m) * b) % m; {}
        (1 * b) % m; {
            lemma_small_mod(b as nat, m as nat);
        }
        b;
    }
}

/// A byte-for-byte copy of a byte string.
pub fn copy_bytes(v: &Vec<u8>) -> (r: Vec<u8>)
    ensures
        r@ == v@,
{
    let mut r: Vec<u8> = Vec::new();
    let mut i: usize = 0;
    while i < v.len()
        invariant
            i <= v@.len(),
            r@ == v@.subrange(0, i as int),
        decreases v@.len() - i,
    {
        r.push(v[i]);
        proof {
            assert(r@ =~= v@.subrange(0, i + 1));
        }
        i += 1;
    }
    proof {
        assert(r@ =~= v@);
    }
    r
}

/// Equality of field elements, by value.
pub fn fe_eq(a: &FieldElem, b: &FieldElem) -> (r: bool)
    ensures
        r <==> a.value() == b.value(),
{
    let mut i: usize = 0;
    while i < 32
        invariant
            i <= 32,
            forall|k: int| 0 <= k < i ==> a.byte_seq()[k] == b.byte_seq()[k],
        decreases 32 - i,
    {
        if a.bytes[i] != b.bytes[i] {
            proof {
                if a.value() == b.value() {
                    lemma_le_val_injective(a.byte_seq(), b.byte_seq());
                }
            }
            return false;
        }
        i += 1;
    }
    proof {
        assert(a.byte_seq() =~= b.byte_seq());
    }
    true
}

/// Relies on curve25519_dalek::scalar::Scalar: addition of two reduced
/// scalars is addition of the encoded integers modulo the group order, and
/// the result is reduced.
#[verifier::external_body]
pub(crate) fn fe_add(a: &FieldElem, b: &FieldElem) -> (r: FieldElem)
    requires
        a.wf(),
        b.wf(),
    ensures
        r.wf(),
        r.value() == (a.value() + b.value()) % group_order(),
{
    let x = curve25519_dalek::scalar::Scalar::from_canonical_bytes(a.bytes).unwrap();
    let y = curve25519_dalek::scalar::Scalar::from_canonical_bytes(b.bytes).unwrap();
    FieldElem { bytes: (x + y).to_bytes() }
}

/// Relies on curve25519_dalek::scalar::Scalar: subtraction of two reduced
/// scalars is subtraction of the encoded integers modulo the group order.
#[verifier::external_body]
pub(crate) fn fe_sub(a: &FieldElem, b: &FieldElem) -> (r: FieldElem)
    requires
        a.wf(),
        b.wf(),
    ensures
        r.wf(),
        r.value() == (a.value() - b.value()) % group_order(),
{
    let x = curve25519_dalek::scalar::Scalar::from_canonical_bytes(a.bytes).unwrap();
    let y = curve25519_dalek::scalar::Scalar::from_canonical_bytes(b.bytes).unwrap();
    FieldElem { bytes: (x - y).to_bytes() }
}

/// Relies on curve25519_dalek::scalar::Scalar: multiplication of two
/// reduced scalars is multiplication of the encoded integers modulo the
/// group order.
#[verifier::external_body]
pub(crate) fn fe_mul(a: &FieldElem, b: &FieldElem) -> (r: FieldElem)
    requires
        a.wf(),
        b.wf(),
    ensures
        r.wf(),
        r.value() == (a.value() * b.value()) % group_order(),
{
    let x = curve25519_dalek::scalar::Scalar::from_canonical_bytes(a.bytes).unwrap();
    let y = curve25519_dalek::scalar::Scalar::from_canonical_bytes(b.bytes).unwrap();
    FieldElem { bytes: (x * y).to_bytes() }
}

/// Relies on curve25519_dalek::scalar::Scalar::invert: the multiplicative
/// inverse modulo the (prime) group order of a nonzero reduced scalar,
/// computed by exponentiation, which maps zero to zero.
#[verifier::external_body]
pub(crate) fn fe_invert(a: &FieldElem) -> (r: FieldElem)
    requires
        a.wf(),
    ensures
        r.wf(),
        a.value() != 0 ==> (a.value() * r.value()) % group_order() == 1,
{
    let x = curve25519_dalek::scalar::Scalar::from_canonical_bytes(a.bytes).unwrap();
    FieldElem { bytes: x.invert().to_bytes() }
}

/// Relies on curve25519_dalek::scalar::Scalar::random: a scalar sampled
/// from 512 uniform bits and reduced, so the result is canonical. Nothing
/// is stated about which value comes back.
#[verifier::external_body]
pub(crate) fn fe_random() -> (r: FieldElem)
    ensures
        r.wf(),
{
    let mut rng = rand::thread_rng();
    FieldElem { bytes: curve25519_dalek::scalar::Scalar::random(&mut rng).to_bytes() }
}

/// The reduced scalar the outside library derives from a seed and a
/// counter: a function of those bytes alone.
pub uninterp spec fn seeded_elem(seed: Seq<u8>, counter: u64) -> int;

/// Relies on curve25519_dalek::scalar::Scalar::hash_from_bytes: a reduced
/// scalar derived deterministically by hashing the input bytes.
#[verifier::external_body]
pub(crate) fn fe_from_seed(seed: &Vec<u8>, counter: u64) -> (r: FieldElem)
    ensures
        r.wf(),
        r.value() == seeded_elem(seed@, counter),
{
    let mut input = seed.clone();
    input.extend_from_slice(&counter.to_le_bytes());
    let scalar = curve25519_dalek::scalar::Scalar::hash_from_bytes::<sha2::Sha512>(&input);
    FieldElem { bytes: scalar.to_bytes() }
}

/// Relies on curve25519_dalek::scalar::Scalar::from_canonical_bytes: it
/// accepts a 32-byte string exactly when the string encodes an integer
/// below the group order.
#[verifier::external_body]
pub(crate) fn fe_decode_at(buf: &Vec<u8>, off: usize) -> (r: Option<FieldElem>)
    requires
        off + 32 <= buf@.len(),
    ensures
        r is Some <==> 0 <= le_val(buf@.subrange(off as int, off as int + 32)) < group_order(),
        r matches Some(f) ==> f.byte_seq() == buf@.subrange(off as int, off as int + 32)
            && f.value() == le_val(buf@.subrange(off as int, off as int + 32)) && f.wf(),
{
    let mut bytes = [0u8; 32];
    bytes.copy_from_slice(&buf[off..off + 32]);
    let scalar = curve25519_dalek::scalar::Scalar::from_canonical_bytes(bytes);
    if bool::from(scalar.is_some()) {
        Some(FieldElem { bytes })
    } else {
        None
    }
}

} // verus!
