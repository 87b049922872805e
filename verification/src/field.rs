//! Elements of the BN254 scalar field and the hash-derived projection
//! coefficients.
//!
//! A field element is held as four little-endian 64-bit limbs; it stands for
//! the integer those limbs spell, reduced modulo the field's prime. The
//! arithmetic itself is done by `ark_bn254::Fr`.

use ark_bn254::Fr;
use ark_ff::{BigInt, BigInteger, PrimeField, UniformRand, Zero};
use sha2::{Digest, Sha256};
use vstd::prelude::*;

verus! {

/// The prime order of the BN254 scalar field.
pub open spec fn modulus() -> nat {
    21888242871839275222246405745257275088548364400416034343698204186575808495617nat
}

/// The integer spelled by four little-endian 64-bit limbs.
pub open spec fn limbs_value(limbs: [u64; 4]) -> nat {
    limbs[0] as nat + limbs[1] as nat * 0x1_0000_0000_0000_0000nat
        + limbs[2] as nat * 0x1_0000_0000_0000_0000_0000_0000_0000_0000nat
        + limbs[3] as nat * 0x1_0000_0000_0000_0000_0000_0000_0000_0000_0000_0000_0000_0000nat
}

/// The integer spelled by a little-endian byte string.
pub open spec fn le_nat(bytes: Seq<u8>) -> nat
    decreases bytes.len(),
{
    if bytes.len() == 0 {
        0
    } else {
        bytes[0] as nat + 256 * le_nat(bytes.drop_first())
    }
}

/// The `n` low bytes of `x`, least significant first.
pub open spec fn le_bytes(x: nat, n: nat) -> Seq<u8>
    decreases n,
{
    if n == 0 {
        Seq::empty()
    } else {
        seq![(x % 256) as u8] + le_bytes(x / 256, (n - 1) as nat)
    }
}

/// Number of bytes in a `usize` on this machine.
pub open spec fn usize_bytes() -> nat {
    (usize::BITS / 8) as nat
}

/// An element of the BN254 scalar field.
///
/// The derived `==` compares limbs. Every element the library produces holds
/// reduced limbs, and for those it is equality of the elements.
#[derive(Clone, Copy, Debug, PartialEq, Eq)]
pub struct Fe {
    /// Little-endian 64-bit limbs of a representative of the element.
    pub limbs: [u64; 4],
}

impl Fe {
    /// The field element this value stands for, as an integer in `0..modulus()`.
    pub open spec fn value(self) -> nat {
        limbs_value(self.limbs) % modulus()
    }

    /// The limbs already hold the reduced representative.
    pub open spec fn is_canonical(self) -> bool {
        limbs_value(self.limbs) < modulus()
    }

    /// The element zero.
    pub fn zero() -> (r: Fe)
        ensures
            r.value() == 0,
            r.is_canonical(),
            r == (Fe { limbs: [0u64, 0u64, 0u64, 0u64] }),
    {
        Fe { limbs: [0, 0, 0, 0] }
    }

    /// The element one.
    pub fn one() -> (r: Fe)
        ensures
            r.value() == 1,
            r.is_canonical(),
    {
        Fe { limbs: [1, 0, 0, 0] }
    }

    /// The element holding a small integer.
    pub fn from_u64(x: u64) -> (r: Fe)
        ensures
            r.value() == x as nat,
            r.is_canonical(),
    {
        Fe { limbs: [x, 0, 0, 0] }
    }
}

/// The values of a sequence of field elements.
pub open spec fn vals(s: Seq<Fe>) -> Seq<int> {
    s.map_values(|f: Fe| f.value() as int)
}

/// Sum of two field elements, computed by `Fr`'s `+`: the result is the sum of
/// the two values reduced modulo the prime, in reduced limbs (`into_bigint`
/// returns the representative in `0..p`).
#[verifier::external_body]
pub(crate) fn fe_add(a: Fe, b: Fe) -> (r: Fe)
    ensures
        r.value() == (a.value() + b.value()) % modulus(),
        r.is_canonical(),
{
    let x = Fr::from_le_bytes_mod_order(&BigInt::<4>(a.limbs).to_bytes_le());
    let y = Fr::from_le_bytes_mod_order(&BigInt::<4>(b.limbs).to_bytes_le());
    Fe { limbs: (x + y).into_bigint().0 }
}

/// Product of two field elements, computed by `Fr`'s `*`: the product of the
/// two values reduced modulo the prime, in reduced limbs.
#[verifier::external_body]
pub(crate) fn fe_mul(a: Fe, b: Fe) -> (r: Fe)
    ensures
        r.value() == (a.value() * b.value()) % modulus(),
        r.is_canonical(),
{
    let x = Fr::from_le_bytes_mod_order(&BigInt::<4>(a.limbs).to_bytes_le());
    let y = Fr::from_le_bytes_mod_order(&BigInt::<4>(b.limbs).to_bytes_le());
    Fe { limbs: (x * y).into_bigint().0 }
}

/// Equality of field elements, decided by `Fr`'s `==` on the reduced values.
#[verifier::external_body]
pub(crate) fn fe_eq(a: Fe, b: Fe) -> (r: bool)
    ensures
        r == (a.value() == b.value()),
{
    let x = Fr::from_le_bytes_mod_order(&BigInt::<4>(a.limbs).to_bytes_le());
    let y = Fr::from_le_bytes_mod_order(&BigInt::<4>(b.limbs).to_bytes_le());
    x == y
}

/// `Zero::is_zero` of `Fr`: whether the value is zero.
#[verifier::external_body]
pub(crate) fn fe_is_zero(a: Fe) -> (r: bool)
    ensures
        r == (a.value() == 0),
{
    Fr::from_le_bytes_mod_order(&BigInt::<4>(a.limbs).to_bytes_le()).is_zero()
}

/// `PrimeField::from_le_bytes_mod_order` of `Fr`: the little-endian integer of
/// `bytes`, reduced modulo the prime.
#[verifier::external_body]
pub(crate) fn fe_from_le_bytes_mod_order(bytes: &[u8]) -> (r: Fe)
    ensures
        r.value() == le_nat(bytes@) % modulus(),
        r.is_canonical(),
{
    Fe { limbs: Fr::from_le_bytes_mod_order(bytes).into_bigint().0 }
}

/// SHA-256 of a byte string.
pub uninterp spec fn sha256_spec(input: Seq<u8>) -> Seq<u8>;

/// `Sha256::digest` of the `sha2` crate: the digest is `sha256_spec` of the
/// input bytes, 32 bytes long; nothing else is stated of it.
#[verifier::external_body]
pub(crate) fn sha256(input: &[u8]) -> (r: Vec<u8>)
    ensures
        r@ == sha256_spec(input@),
        r@.len() == 32,
{
    Sha256::digest(input).to_vec()
}

/// `UniformRand::rand` of `Fr` with the thread-local generator of `rand`: the
/// element is drawn at random, so only the reduced form of every outcome is
/// stated.
#[verifier::external_body]
pub fn rand_field() -> (r: Fe)
    ensures
        r.is_canonical(),
{
    Fe { limbs: Fr::rand(&mut rand::thread_rng()).into_bigint().0 }
}

/// Hash a byte string into a field element: the SHA-256 digest read as a
/// little-endian integer and reduced modulo the prime.
pub fn hash_to_field(input: &[u8]) -> (r: Fe)
    ensures
        r.value() == le_nat(sha256_spec(input@)) % modulus(),
        r.is_canonical(),
{
    let hash = sha256(input);
    fe_from_le_bytes_mod_order(hash.as_slice())
}

/// The bytes of `x` in little-endian order, as many as a `usize` holds.
fn usize_to_le_bytes(x: usize) -> (r: Vec<u8>)
    ensures
        r@ == le_bytes(x as nat, usize_bytes()),
{
    let n: u32 = usize::BITS / 8;
    let mut out: Vec<u8> = Vec::new();
    let mut rest: usize = x;
    let mut k: u32 = 0;
    while k < n
        invariant
            n == usize::BITS / 8,
            k <= n,
            out@ + le_bytes(rest as nat, (n - k) as nat) == le_bytes(x as nat, n as nat),
        decreases n - k,
    {
        let byte: u8 = (rest % 256) as u8;
        proof {
            let m = (n - k) as nat;
            assert(le_bytes(rest as nat, m) == seq![byte] + le_bytes((rest / 256) as nat, (m - 1) as nat));
            assert(out@.push(byte) + le_bytes((rest / 256) as nat, (m - 1) as nat)
                =~= out@ + (seq![byte] + le_bytes((rest / 256) as nat, (m - 1) as nat)));
        }
        out.push(byte);
        rest = rest / 256;
        k = k + 1;
    }
    assert(out@ + le_bytes(rest as nat, 0) =~= out@);
    out
}

/// The bytes hashed for one projection coefficient: the layer id and the
/// pair position as little-endian `usize` bytes, then a one-byte tag.
pub open spec fn hash_input(layer_id: nat, position: nat, tag: u8) -> Seq<u8> {
    le_bytes(layer_id, usize_bytes()) + le_bytes(position, usize_bytes()) + seq![tag]
}

/// `256` raised to the power `n`.
pub open spec fn byte_pow(n: nat) -> nat
    decreases n,
{
    if n == 0 {
        1
    } else {
        256 * byte_pow((n - 1) as nat)
    }
}

/// Reading back the `n` little-endian bytes of `x` gives `x`, when `x` fits
/// in `n` bytes.
pub proof fn lemma_le_bytes_round_trip(x: nat, n: nat)
    requires
        x < byte_pow(n),
    ensures
        le_bytes(x, n).len() == n,
        le_nat(le_bytes(x, n)) == x,
    decreases n,
{
    if n > 0 {
        let m = (n - 1) as nat;
        let q = x / 256;
        assert(q < byte_pow(m)) by (nonlinear_arith)
            requires
                x < 256 * byte_pow(m),
                q == x / 256,
        ;
        lemma_le_bytes_round_trip(q, m);
        let s = le_bytes(x, n);
        assert(s.drop_first() =~= le_bytes(q, m));
        assert(s[0] as nat == x % 256);
        assert(x == x % 256 + 256 * q);
    }
}

/// Every `usize` fits in `usize_bytes()` bytes.
proof fn lemma_usize_fits(x: usize)
    ensures
        (x as nat) < byte_pow(usize_bytes()),
{
    assert(byte_pow(4) == 0x1_0000_0000nat) by {
        reveal_with_fuel(byte_pow, 5);
    }
    assert(byte_pow(8) == 0x1_0000_0000_0000_0000nat) by {
        reveal_with_fuel(byte_pow, 9);
    }
}

/// The bytes hashed for a coefficient spell the whole layer id, the whole
/// position and the tag: each can be read back from them.
pub proof fn lemma_hash_input_spells(layer_id: usize, position: usize, tag: u8)
    ensures
        hash_input(layer_id as nat, position as nat, tag).len() == 2 * usize_bytes() + 1,
        le_nat(hash_input(layer_id as nat, position as nat, tag).subrange(0, usize_bytes() as int)) == layer_id,
        le_nat(
            hash_input(layer_id as nat, position as nat, tag).subrange(usize_bytes() as int, 2 * usize_bytes() as int),
        ) == position,
        hash_input(layer_id as nat, position as nat, tag)[2 * usize_bytes() as int] == tag,
{
    let ub = usize_bytes();
    lemma_usize_fits(layer_id);
    lemma_usize_fits(position);
    lemma_le_bytes_round_trip(layer_id as nat, ub);
    lemma_le_bytes_round_trip(position as nat, ub);
    let a = le_bytes(layer_id as nat, ub);
    let b = le_bytes(position as nat, ub);
    let h = hash_input(layer_id as nat, position as nat, tag);
    assert(h.subrange(0, ub as int) =~= a);
    assert(h.subrange(ub as int, 2 * ub as int) =~= b);
}

/// Distinct layer ids, positions or tags are hashed from distinct byte
/// strings, so every coefficient of every pair is drawn from its own input.
pub proof fn lemma_hash_input_injective(l1: usize, p1: usize, t1: u8, l2: usize, p2: usize, t2: u8)
    requires
        hash_input(l1 as nat, p1 as nat, t1) == hash_input(l2 as nat, p2 as nat, t2),
    ensures
        l1 == l2,
        p1 == p2,
        t1 == t2,
{
    lemma_hash_input_spells(l1, p1, t1);
    lemma_hash_input_spells(l2, p2, t2);
}

/// One projection coefficient: the hash of its input as a field element, with
/// zero replaced by one.
pub open spec fn hash_coef(layer_id: nat, position: nat, tag: u8) -> nat {
    let h = le_nat(sha256_spec(hash_input(layer_id, position, tag))) % modulus();
    if h == 0 {
        1
    } else {
        h
    }
}

/// The bytes hashed for one projection coefficient.
fn coefficient_input(layer_id: usize, position: usize, tag: u8) -> (r: Vec<u8>)
    ensures
        r@ == hash_input(layer_id as nat, position as nat, tag),
{
    let mut input = usize_to_le_bytes(layer_id);
    let mut pos_bytes = usize_to_le_bytes(position);
    input.append(&mut pos_bytes);
    input.push(tag);
    input
}

/// Derive the two projection coefficients for one paired position. Neither
/// coefficient is zero.
pub fn hash_pair(layer_id: usize, position: usize) -> (r: (Fe, Fe))
    ensures
        r.0.value() == hash_coef(layer_id as nat, position as nat, 0),
        r.1.value() == hash_coef(layer_id as nat, position as nat, 1),
        r.0.value() != 0,
        r.1.value() != 0,
        r.0.is_canonical(),
        r.1.is_canonical(),
{
    let input_a = coefficient_input(layer_id, position, 0);
    let input_b = coefficient_input(layer_id, position, 1);
    let mut a = hash_to_field(input_a.as_slice());
    let mut b = hash_to_field(input_b.as_slice());
    if fe_is_zero(a) {
        a = Fe::one();
    }
    if fe_is_zero(b) {
        b = Fe::one();
    }
    (a, b)
}

/// Every draw in `draws` is zero.
pub open spec fn all_zero(draws: Seq<Fe>) -> bool {
    forall|j: int| 0 <= j < draws.len() ==> (#[trigger] draws[j]).value() == 0
}

/// `r` is what drawing `draws` in turn gives: the last draw, the first that is
/// not zero; or, when `u64::MAX` draws were all zero, one.
pub open spec fn first_nonzero(draws: Seq<Fe>, r: Fe) -> bool {
    ||| {
        &&& draws.len() > 0
        &&& all_zero(draws.drop_last())
        &&& draws.last().value() != 0
        &&& r == draws.last()
    }
    ||| {
        &&& draws.len() == u64::MAX
        &&& all_zero(draws)
        &&& r.value() == 1
    }
}

/// Draw random field elements until one is not zero, and return it.
///
/// The draws are bounded by `u64::MAX`; should every one of them be zero (the
/// chance of one zero draw is one in the field's size), one is returned.
pub fn rand_nonzero() -> (r: Fe)
    ensures
        r.value() != 0,
        r.is_canonical(),
        exists|draws: Seq<Fe>|
            first_nonzero(draws, r) && forall|j: int| 0 <= j < draws.len() ==> (#[trigger] draws[j]).is_canonical(),
{
    let ghost mut draws: Seq<Fe> = Seq::empty();
    let mut tries: u64 = 0;
    while tries < u64::MAX
        invariant
            draws.len() == tries,
            all_zero(draws),
            forall|j: int| 0 <= j < draws.len() ==> (#[trigger] draws[j]).is_canonical(),
        decreases u64::MAX - tries,
    {
        let x = rand_field();
        proof {
            assert(draws.push(x).drop_last() =~= draws);
            draws = draws.push(x);
        }
        if !fe_is_zero(x) {
            assert(first_nonzero(draws, x));
            return x;
        }
        tries = tries + 1;
    }
    let r = Fe::one();
    assert(first_nonzero(draws, r));
    r
}

} // verus!
