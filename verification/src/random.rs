use vstd::prelude::*;

use vstd::arithmetic::div_mod::{lemma_breakdown, lemma_div_denominator, lemma_small_mod};

use crate::error::ContractError;

verus! {

// The entropy accumulator folds every ticket purchase into a running seed,
// and the round-ending actor and block height into the finalized seed that
// drives winner selection.  All of it is a deterministic pure function of its
// inputs: fairness relies on the unpredictability of future purchases at
// commit time, not on cryptographic hardness.
//
// The seed's fixed representation is sixteen lowercase hex digits holding a
// 64-bit accumulator, least significant nibble first.

pub const FOLD_OFFSET: u64 = 0xcbf29ce484222325;

pub const FOLD_PRIME: u64 = 0x100000001b3;

/// One step of the fold: xor a byte in, then multiply by the fold prime,
/// wrapping (the classic FNV-1a round).
pub open spec fn fold_byte(h: u64, b: u8) -> u64 {
    vstd::wrapping::u64_specs::wrapping_mul(h ^ (b as u64), FOLD_PRIME)
}

/// Fold a whole byte sequence, left to right.
pub open spec fn fold_bytes(h: u64, s: Seq<u8>) -> u64
    decreases s.len(),
{
    if s.len() == 0 {
        h
    } else {
        fold_byte(fold_bytes(h, s.drop_last()), s.last())
    }
}

/// Fold the `k` low little-endian bytes of an integer.
pub open spec fn fold_num(h: u64, v: u64, k: nat) -> u64
    decreases k,
{
    if k == 0 {
        h
    } else {
        fold_num(fold_byte(h, (v % 256) as u8), v / 256, (k - 1) as nat)
    }
}

fn fold_byte_x(h: u64, b: u8) -> (r: u64)
    ensures
        r == fold_byte(h, b),
{
    (h ^ (b as u64)).wrapping_mul(FOLD_PRIME)
}

fn fold_bytes_x(h: u64, s: &[u8]) -> (r: u64)
    ensures
        r == fold_bytes(h, s@),
{
    let mut acc = h;
    let mut i: usize = 0;
    while i < s.len()
        invariant
            i <= s@.len(),
            acc == fold_bytes(h, s@.take(i as int)),
        decreases s@.len() - i,
    {
        proof {
            assert(s@.take(i + 1).drop_last() =~= s@.take(i as int));
            assert(s@.take(i + 1).last() == s@[i as int]);
        }
        acc = fold_byte_x(acc, s[i]);
        i += 1;
    }
    proof {
        assert(s@.take(s@.len() as int) =~= s@);
    }
    acc
}

fn fold_num_x(h: u64, v: u64, k: usize) -> (r: u64)
    ensures
        r == fold_num(h, v, k as nat),
{
    let mut acc = h;
    let mut x = v;
    let mut j: usize = 0;
    while j < k
        invariant
            j <= k,
            fold_num(acc, x, (k - j) as nat) == fold_num(h, v, k as nat),
        decreases k - j,
    {
        acc = fold_byte_x(acc, (x % 256) as u8);
        x = x / 256;
        j += 1;
    }
    acc
}

/// 16 raised to the `k`-th power.
pub open spec fn pow16(k: nat) -> int
    decreases k,
{
    if k == 0 {
        1
    } else {
        16 * pow16((k - 1) as nat)
    }
}

proof fn lemma_pow16_pos(k: nat)
    ensures
        pow16(k) >= 1,
    decreases k,
{
    if k > 0 {
        lemma_pow16_pos((k - 1) as nat);
    }
}

/// The ASCII lowercase hex digit for a value below 16.
pub open spec fn hex_digit(v: u8) -> u8 {
    if v < 10 {
        (48 + v) as u8
    } else {
        (87 + v) as u8
    }
}

pub open spec fn is_hex_digit(b: u8) -> bool {
    (48 <= b && b <= 57) || (97 <= b && b <= 102)
}

/// The value of an ASCII lowercase hex digit.
pub open spec fn hex_val(b: u8) -> int {
    if 48 <= b && b <= 57 {
        b - 48
    } else {
        b - 87
    }
}

/// A well-formed seed: sixteen lowercase hex digits.
pub open spec fn seed_wf(s: Seq<u8>) -> bool {
    s.len() == 16 && forall|i: int| 0 <= i < 16 ==> is_hex_digit(#[trigger] s[i])
}

/// The accumulator value a seed encodes (least significant nibble first).
pub open spec fn seed_int(s: Seq<u8>) -> int
    decreases s.len(),
{
    if s.len() == 0 {
        0
    } else {
        hex_val(s[0]) + 16 * seed_int(s.skip(1))
    }
}

/// The `i`-th nibble of an accumulator value.
pub open spec fn nib(x: u64, i: nat) -> u8 {
    ((x as int / pow16(i)) % 16) as u8
}

/// The seed that encodes an accumulator value.
pub open spec fn encode_seed(x: u64) -> Seq<u8> {
    Seq::new(16, |i: int| hex_digit(nib(x, i as nat)))
}

/// Encode an accumulator value as a seed.
pub fn seed_encode(x: u64) -> (s: Vec<u8>)
    ensures
        s@ == encode_seed(x),
        seed_wf(s@),
{
    let mut s: Vec<u8> = Vec::new();
    let mut v = x;
    let mut i: usize = 0;
    while i < 16
        invariant
            i <= 16,
            s@.len() == i,
            v as int == x as int / pow16(i as nat),
            forall|j: int| 0 <= j < i ==> s@[j] == hex_digit(nib(x, j as nat)),
        decreases 16 - i,
    {
        proof {
            lemma_pow16_pos(i as nat);
        }
        let d = (v % 16) as u8;
        let c = if d < 10 {
            48 + d
        } else {
            87 + d
        };
        proof {
            assert(d == nib(x, i as nat));
            assert(c == hex_digit(nib(x, i as nat)));
            lemma_div_denominator(x as int, pow16(i as nat), 16);
            assert(pow16((i + 1) as nat) == 16 * pow16(i as nat));
        }
        s.push(c);
        v = v / 16;
        i += 1;
    }
    proof {
        assert(s@ =~= encode_seed(x));
        assert forall|i: int| 0 <= i < 16 implies is_hex_digit(#[trigger] s@[i]) by {
            assert(s@[i] == hex_digit(nib(x, i as nat)));
        }
    }
    s
}

/// Decode a seed back to its accumulator value; `InvalidSeed` if the text is
/// not sixteen lowercase hex digits.
pub fn seed_decode(s: &Vec<u8>) -> (r: Result<u64, ContractError>)
    ensures
        seed_wf(s@) ==> r == Ok::<u64, ContractError>(seed_int(s@) as u64),
        !seed_wf(s@) ==> r == Err::<u64, ContractError>(ContractError::InvalidSeed),
{
    if s.len() != 16 {
        return Err(ContractError::InvalidSeed);
    }
    let mut i: usize = 0;
    while i < 16
        invariant
            i <= 16,
            s@.len() == 16,
            forall|j: int| 0 <= j < i ==> is_hex_digit(#[trigger] s@[j]),
        decreases 16 - i,
    {
        let b = s[i];
        if !((48 <= b && b <= 57) || (97 <= b && b <= 102)) {
            return Err(ContractError::InvalidSeed);
        }
        i += 1;
    }
    let mut acc: u64 = 0;
    let mut i: usize = 16;
    while i > 0
        invariant
            i <= 16,
            s@.len() == 16,
            seed_wf(s@),
            acc as int == seed_int(s@.skip(i as int)),
            (acc as int) < pow16((16 - i) as nat),
        decreases i,
    {
        i -= 1;
        let b = s[i];
        let d = if b <= 57 {
            b - 48
        } else {
            b - 87
        };
        proof {
            let tail = s@.skip(i as int);
            assert(tail[0] == s@[i as int]);
            assert(tail.skip(1) =~= s@.skip(i + 1));
            assert(seed_int(tail) == hex_val(s@[i as int]) + 16 * seed_int(s@.skip(i + 1)));
            lemma_pow16_pos((15 - i) as nat);
            assert(pow16((16 - i) as nat) == 16 * pow16((15 - i) as nat));
            assert((acc as int) * 16 + hex_val(s@[i as int]) < pow16((16 - i) as nat));
            assert(pow16(16nat) == 0x10000000000000000) by {
                reveal_with_fuel(pow16, 17);
            }
            lemma_pow16_le(((16 - i) as nat), 16nat);
        }
        acc = acc * 16 + (d as u64);
    }
    proof {
        assert(s@.skip(0) =~= s@);
    }
    Ok(acc)
}

proof fn lemma_pow16_le(a: nat, b: nat)
    requires
        a <= b,
    ensures
        pow16(a) <= pow16(b),
    decreases b,
{
    if a < b {
        lemma_pow16_pos(a);
        lemma_pow16_le(a, (b - 1) as nat);
    }
}

/// Decoding inverts encoding: the seed round-trips through its accumulator
/// value, so the engine's own seeds always decode.
pub proof fn lemma_seed_roundtrip(x: u64)
    ensures
        seed_wf(encode_seed(x)),
        seed_int(encode_seed(x)) == x,
{
    lemma_nibbles_value(x, 16);
    assert(pow16(16nat) == 0x10000000000000000) by {
        reveal_with_fuel(pow16, 17);
    }
    lemma_small_mod(x as nat, 0x10000000000000000nat);
    assert forall|i: int| 0 <= i < 16 implies is_hex_digit(#[trigger] encode_seed(x)[i]) by {
        assert(encode_seed(x)[i] == hex_digit(nib(x, i as nat)));
    }
}

/// The first `k` nibbles of `x` decode to `x % 16^k`.
proof fn lemma_nibbles_value(x: u64, k: nat)
    ensures
        seed_int(Seq::new(k, |i: int| hex_digit(nib(x, i as nat)))) == x as int % pow16(k),
    decreases k,
{
    let s = Seq::new(k, |i: int| hex_digit(nib(x, i as nat)));
    if k == 0 {
        assert(x as int % 1 == 0) by (nonlinear_arith);
    } else {
        let y = x / 16;
        lemma_nibbles_value(y, (k - 1) as nat);
        let t = Seq::new((k - 1) as nat, |i: int| hex_digit(nib(y, i as nat)));
        assert forall|i: int| 0 <= i < (k - 1) implies s.skip(1)[i] == t[i] by {
            lemma_pow16_pos(i as nat);
            lemma_div_denominator(x as int, 16, pow16(i as nat));
            assert(pow16((i + 1) as nat) == 16 * pow16(i as nat));
            assert(nib(x, (i + 1) as nat) == nib(y, i as nat));
        }
        assert(s.skip(1) =~= t);
        assert(s[0] == hex_digit(nib(x, 0)));
        assert(nib(x, 0) == x % 16);
        assert(hex_val(hex_digit((x % 16) as u8)) == x as int % 16);
        lemma_pow16_pos((k - 1) as nat);
        lemma_breakdown(x as int, 16, pow16((k - 1) as nat));
        assert(seed_int(s) == hex_val(s[0]) + 16 * seed_int(s.skip(1)));
    }
}

/// The initial seed, from the creator's address and the creation height.
pub open spec fn spec_seed_init(actor: Seq<u8>, height: u64) -> Seq<u8> {
    encode_seed(fold_num(fold_bytes(FOLD_OFFSET, actor), height, 8))
}

pub fn seed_init(actor: &Vec<u8>, height: u64) -> (s: Vec<u8>)
    ensures
        s@ == spec_seed_init(actor@, height),
        seed_wf(s@),
{
    let h = fold_bytes_x(FOLD_OFFSET, actor.as_slice());
    let h = fold_num_x(h, height, 8);
    seed_encode(h)
}

/// The running seed after a purchase folds in the buyer, the ticket count,
/// the block height and the optional order message.
pub open spec fn spec_seed_update(
    seed: Seq<u8>,
    actor: Seq<u8>,
    count: u32,
    height: u64,
    message: Option<Seq<u8>>,
) -> Seq<u8> {
    let h = fold_bytes(FOLD_OFFSET, seed);
    let h = fold_bytes(h, actor);
    let h = fold_num(h, count as u64, 4);
    let h = fold_num(h, height, 8);
    let h = match message {
        Some(m) => fold_bytes(fold_byte(h, 1), m),
        None => fold_byte(h, 0),
    };
    encode_seed(h)
}

pub fn seed_update(
    seed: &Vec<u8>,
    actor: &Vec<u8>,
    count: u32,
    height: u64,
    message: &Option<Vec<u8>>,
) -> (s: Vec<u8>)
    ensures
        s@ == spec_seed_update(
            seed@,
            actor@,
            count,
            height,
            match message {
                Some(m) => Some(m@),
                None => None,
            },
        ),
        seed_wf(s@),
{
    let h = fold_bytes_x(FOLD_OFFSET, seed.as_slice());
    let h = fold_bytes_x(h, actor.as_slice());
    let h = fold_num_x(h, count as u64, 4);
    let h = fold_num_x(h, height, 8);
    let h = match message {
        Some(m) => fold_bytes_x(fold_byte_x(h, 1), m.as_slice()),
        None => fold_byte_x(h, 0),
    };
    seed_encode(h)
}

/// The finalized seed: the round-ending actor and height perturb the draw.
pub open spec fn spec_seed_finalize(seed: Seq<u8>, actor: Seq<u8>, height: u64) -> Seq<u8> {
    let h = fold_bytes(FOLD_OFFSET, seed);
    let h = fold_bytes(h, actor);
    let h = fold_num(h, height, 8);
    encode_seed(h)
}

pub fn seed_finalize(seed: &Vec<u8>, actor: &Vec<u8>, height: u64) -> (s: Vec<u8>)
    ensures
        s@ == spec_seed_finalize(seed@, actor@, height),
        seed_wf(s@),
{
    let h = fold_bytes_x(FOLD_OFFSET, seed.as_slice());
    let h = fold_bytes_x(h, actor.as_slice());
    let h = fold_num_x(h, height, 8);
    seed_encode(h)
}

/// State advance of the generator (an additive Weyl sequence).
pub open spec fn rng_step(s: u64) -> u64 {
    vstd::wrapping::u64_specs::wrapping_add(s, 0x9E3779B97F4A7C15)
}

/// Output mix of the generator (the splitmix finalizer).
pub open spec fn rng_mix(s: u64) -> u64 {
    let z1 = vstd::wrapping::u64_specs::wrapping_mul(s ^ (s >> 30u64), 0xBF58476D1CE4E5B9);
    let z2 = vstd::wrapping::u64_specs::wrapping_mul(z1 ^ (z1 >> 27u64), 0x94D049BB133111EB);
    z2 ^ (z2 >> 31u64)
}

/// A deterministic pseudo-random generator seeded from the finalized entropy
/// seed.  Not a cryptographic primitive: reproducibility is the point.
pub struct Prng {
    pub state: u64,
}

impl Prng {
    /// Seed the generator from a finalized seed; `InvalidSeed` if the seed
    /// text does not decode.
    pub fn from_seed(seed: &Vec<u8>) -> (r: Result<Prng, ContractError>)
        ensures
            seed_wf(seed@) ==> r == Ok::<Prng, ContractError>(
                Prng { state: seed_int(seed@) as u64 },
            ),
            !seed_wf(seed@) ==> r == Err::<Prng, ContractError>(ContractError::InvalidSeed),
    {
        match seed_decode(seed) {
            Ok(x) => Ok(Prng { state: x }),
            Err(e) => Err(e),
        }
    }

    /// Draw the next 64-bit value.
    pub fn next_u64(&mut self) -> (r: u64)
        ensures
            final(self).state == rng_step(old(self).state),
            r == rng_mix(rng_step(old(self).state)),
    {
        self.state = self.state.wrapping_add(0x9E3779B97F4A7C15);
        let z = self.state;
        let z = (z ^ (z >> 30u64)).wrapping_mul(0xBF58476D1CE4E5B9);
        let z = (z ^ (z >> 27u64)).wrapping_mul(0x94D049BB133111EB);
        z ^ (z >> 31u64)
    }
}

} // verus!
