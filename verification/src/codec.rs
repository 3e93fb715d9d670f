//! Key codec: a 64-bit offset is stored as its 8-byte big-endian encoding, so
//! that byte-lexicographic ordering of keys equals numeric ordering of
//! offsets and the engine's ordered iteration serves as a numeric range scan.

use vstd::prelude::*;
use vstd::arithmetic::div_mod::{
    lemma_div_is_ordered,
    lemma_div_pos_is_pos,
    lemma_fundamental_div_mod,
    lemma_mod_division_less_than_divisor,
    lemma_mod_mod,
    lemma_multiply_divide_lt,
    lemma_small_mod,
};
use crate::order::{lex_le, lex_lt, lemma_lex_le_antisym};
use crate::store::QueueError;

verus! {

/// 256 raised to the k-th power: the number of distinct k-byte strings.
pub open spec fn pow256(k: nat) -> int
    decreases k,
{
    if k == 0 {
        1
    } else {
        256 * pow256((k - 1) as nat)
    }
}

/// The k-byte big-endian encoding of v (meaningful for 0 <= v < pow256(k)).
pub open spec fn be_seq(v: int, k: nat) -> Seq<u8>
    decreases k,
{
    if k == 0 {
        Seq::empty()
    } else {
        seq![(v / pow256((k - 1) as nat)) as u8] + be_seq(
            v % pow256((k - 1) as nat),
            (k - 1) as nat,
        )
    }
}

/// The fixed-width key under which an offset is stored.
pub open spec fn encoded(v: u64) -> Seq<u8> {
    be_seq(v as int, 8)
}

pub proof fn lemma_pow256_vals()
    ensures
        pow256(0) == 1,
        pow256(1) == 0x100,
        pow256(2) == 0x1_0000,
        pow256(3) == 0x100_0000,
        pow256(4) == 0x1_0000_0000,
        pow256(5) == 0x100_0000_0000,
        pow256(6) == 0x1_0000_0000_0000,
        pow256(7) == 0x100_0000_0000_0000,
        pow256(8) == 0x1_0000_0000_0000_0000,
{
    assert(pow256(0) == 1);
    assert(pow256(1) == 0x100);
    assert(pow256(2) == 0x1_0000);
    assert(pow256(3) == 0x100_0000);
    assert(pow256(4) == 0x1_0000_0000);
    assert(pow256(5) == 0x100_0000_0000);
    assert(pow256(6) == 0x1_0000_0000_0000);
    assert(pow256(7) == 0x100_0000_0000_0000);
    assert(pow256(8) == 0x1_0000_0000_0000_0000);
}

pub proof fn lemma_pow256_pos(k: nat)
    ensures
        pow256(k) >= 1,
    decreases k,
{
    if k > 0 {
        lemma_pow256_pos((k - 1) as nat);
    }
}

pub proof fn lemma_be_seq_len(v: int, k: nat)
    ensures
        be_seq(v, k).len() == k,
    decreases k,
{
    if k > 0 {
        lemma_be_seq_len(v % pow256((k - 1) as nat), (k - 1) as nat);
    }
}

/// Big-endian encodings of the same width order exactly as their values do.
pub proof fn lemma_be_seq_mono(v1: int, v2: int, k: nat)
    requires
        0 <= v1 < v2,
        v2 < pow256(k),
    ensures
        lex_lt(be_seq(v1, k), be_seq(v2, k)),
    decreases k,
{
    let a = be_seq(v1, k);
    let b = be_seq(v2, k);
    lemma_be_seq_len(v1, k);
    lemma_be_seq_len(v2, k);
    let p = pow256((k - 1) as nat);
    lemma_pow256_pos((k - 1) as nat);
    let h1 = v1 / p;
    let h2 = v2 / p;
    lemma_div_is_ordered(v1, v2, p);
    lemma_div_pos_is_pos(v1, p);
    lemma_multiply_divide_lt(v2, p, 256);
    assert(a[0] == (h1 as u8) && b[0] == (h2 as u8));
    if h1 < h2 {
        assert(a[0] < b[0]);
        assert(lex_le(a, b));
        assert(a != b);
    } else {
        let m1 = v1 % p;
        let m2 = v2 % p;
        lemma_fundamental_div_mod(v1, p);
        lemma_fundamental_div_mod(v2, p);
        lemma_mod_division_less_than_divisor(v1, p);
        lemma_mod_division_less_than_divisor(v2, p);
        assert(m1 < m2);
        lemma_be_seq_mono(m1, m2, (k - 1) as nat);
        assert(a.skip(1) =~= be_seq(m1, (k - 1) as nat));
        assert(b.skip(1) =~= be_seq(m2, (k - 1) as nat));
        assert(lex_le(a, b));
        assert(a != b) by {
            if a == b {
                assert(a.skip(1) == b.skip(1));
            }
        }
    }
}

/// Numeric order of offsets is exactly byte order of their encodings.
pub proof fn lemma_encoded_order(v1: u64, v2: u64)
    ensures
        v1 <= v2 <==> lex_le(encoded(v1), encoded(v2)),
        v1 < v2 <==> lex_lt(encoded(v1), encoded(v2)),
{
    lemma_pow256_vals();
    if v1 < v2 {
        lemma_be_seq_mono(v1 as int, v2 as int, 8);
    } else if v2 < v1 {
        lemma_be_seq_mono(v2 as int, v1 as int, 8);
        if lex_le(encoded(v1), encoded(v2)) {
            lemma_lex_le_antisym(encoded(v1), encoded(v2));
        }
    } else {
        crate::order::lemma_lex_le_refl(encoded(v1));
    }
}

/// No two offsets share an encoding.
pub proof fn lemma_encoded_injective(v1: u64, v2: u64)
    requires
        encoded(v1) == encoded(v2),
    ensures
        v1 == v2,
{
    lemma_encoded_order(v1, v2);
    crate::order::lemma_lex_le_refl(encoded(v1));
    lemma_encoded_order(v2, v1);
}

/// Byte i of the k-byte encoding, as a quotient of a remainder of v.
proof fn lemma_be_seq_index(v: int, k: nat, i: int)
    requires
        0 <= v < pow256(k),
        0 <= i < k,
    ensures
        be_seq(v, k)[i] == ((v % pow256((k - i) as nat)) / pow256((k - i - 1) as nat)) as u8,
    decreases k,
{
    let p = pow256((k - 1) as nat);
    lemma_pow256_pos((k - 1) as nat);
    if i == 0 {
        lemma_small_mod(v as nat, pow256(k) as nat);
    } else {
        let m = v % p;
        lemma_mod_division_less_than_divisor(v, p);
        lemma_be_seq_index(m, (k - 1) as nat, i - 1);
        assert(be_seq(v, k)[i] == be_seq(m, (k - 1) as nat)[i - 1]) by {
            lemma_be_seq_len(m, (k - 1) as nat);
        }
        let pki = pow256((k - i) as nat);
        lemma_pow256_pos((k - i) as nat);
        lemma_pow256_pos((i - 1) as nat);
        assert(pki * pow256((i - 1) as nat) == p) by {
            lemma_pow256_mul((k - i) as nat, (i - 1) as nat);
        }
        lemma_mod_mod(v, pki, pow256((i - 1) as nat));
        assert((v % p) % pki == v % pki);
    }
}

proof fn lemma_pow256_mul(a: nat, b: nat)
    ensures
        pow256(a) * pow256(b) == pow256((a + b) as nat),
    decreases b,
{
    if b == 0 {
        assert(pow256(a) * 1 == pow256(a));
    } else {
        lemma_pow256_mul(a, (b - 1) as nat);
        assert(pow256(a) * pow256(b) == pow256(a) * (256 * pow256((b - 1) as nat)));
        assert(pow256(a) * (256 * pow256((b - 1) as nat)) == 256 * (pow256(a) * pow256(
            (b - 1) as nat,
        ))) by {
            vstd::arithmetic::mul::lemma_mul_is_associative(pow256(a), 256, pow256((b - 1) as nat));
            vstd::arithmetic::mul::lemma_mul_is_commutative(pow256(a), 256);
            vstd::arithmetic::mul::lemma_mul_is_associative(256, pow256(a), pow256((b - 1) as nat));
        }
        assert(pow256((a + b) as nat) == 256 * pow256((a + b - 1) as nat));
    }
}

/// The bytes of an offset's encoding, written with shifts.
proof fn lemma_encoded_shifts(v: u64)
    ensures
        encoded(v).len() == 8,
        encoded(v)[0] == (v >> 56) as u8,
        encoded(v)[1] == (v >> 48) as u8,
        encoded(v)[2] == (v >> 40) as u8,
        encoded(v)[3] == (v >> 32) as u8,
        encoded(v)[4] == (v >> 24) as u8,
        encoded(v)[5] == (v >> 16) as u8,
        encoded(v)[6] == (v >> 8) as u8,
        encoded(v)[7] == v as u8,
{
    lemma_pow256_vals();
    lemma_be_seq_len(v as int, 8);
    lemma_be_seq_index(v as int, 8, 0);
    lemma_be_seq_index(v as int, 8, 1);
    lemma_be_seq_index(v as int, 8, 2);
    lemma_be_seq_index(v as int, 8, 3);
    lemma_be_seq_index(v as int, 8, 4);
    lemma_be_seq_index(v as int, 8, 5);
    lemma_be_seq_index(v as int, 8, 6);
    lemma_be_seq_index(v as int, 8, 7);
    lemma_small_mod(v as nat, pow256(8) as nat);
    assert((v / 0x100_0000_0000_0000) as u8 == (v >> 56) as u8) by (bit_vector);
    assert(((v % 0x100_0000_0000_0000) / 0x1_0000_0000_0000) as u8 == (v >> 48) as u8)
        by (bit_vector);
    assert(((v % 0x1_0000_0000_0000) / 0x100_0000_0000) as u8 == (v >> 40) as u8) by (bit_vector);
    assert(((v % 0x100_0000_0000) / 0x1_0000_0000) as u8 == (v >> 32) as u8) by (bit_vector);
    assert(((v % 0x1_0000_0000) / 0x100_0000) as u8 == (v >> 24) as u8) by (bit_vector);
    assert(((v % 0x100_0000) / 0x1_0000) as u8 == (v >> 16) as u8) by (bit_vector);
    assert(((v % 0x1_0000) / 0x100) as u8 == (v >> 8) as u8) by (bit_vector);
    assert(((v % 0x100) / 1) as u8 == v as u8) by (bit_vector);
}

/// Encodes an offset as its fixed-width, order-preserving key. Never fails.
pub fn encode_key(val: u64) -> (r: Vec<u8>)
    ensures
        r@ == encoded(val),
{
    let mut r: Vec<u8> = Vec::new();
    r.push((val >> 56) as u8);
    r.push((val >> 48) as u8);
    r.push((val >> 40) as u8);
    r.push((val >> 32) as u8);
    r.push((val >> 24) as u8);
    r.push((val >> 16) as u8);
    r.push((val >> 8) as u8);
    r.push(val as u8);
    proof {
        lemma_encoded_shifts(val);
        assert(r@ =~= encoded(val));
    }
    r
}

/// Decodes a stored key or counter value. Fails exactly when the input is
/// not 8 bytes long, which signals on-disk corruption or a foreign key in
/// the namespace.
pub fn decode_key(val: &[u8]) -> (r: Result<u64, QueueError>)
    ensures
        r is Ok <==> val@.len() == 8,
        r matches Ok(v) ==> val@ == encoded(v),
        r matches Err(e) ==> e is Codec,
{
    if val.len() != 8 {
        return Err(QueueError::Codec);
    }
    let b0 = val[0];
    let b1 = val[1];
    let b2 = val[2];
    let b3 = val[3];
    let b4 = val[4];
    let b5 = val[5];
    let b6 = val[6];
    let b7 = val[7];
    let v: u64 = ((b0 as u64) << 56) | ((b1 as u64) << 48) | ((b2 as u64) << 40) | ((b3 as u64)
        << 32) | ((b4 as u64) << 24) | ((b5 as u64) << 16) | ((b6 as u64) << 8) | (b7 as u64);
    proof {
        lemma_encoded_shifts(v);
        assert((v >> 56) as u8 == b0 && (v >> 48) as u8 == b1 && (v >> 40) as u8 == b2 && (v >> 32)
            as u8 == b3 && (v >> 24) as u8 == b4 && (v >> 16) as u8 == b5 && (v >> 8) as u8 == b6
            && v as u8 == b7) by (bit_vector)
            requires
                v == ((b0 as u64) << 56) | ((b1 as u64) << 48) | ((b2 as u64) << 40) | ((b3 as u64)
                    << 32) | ((b4 as u64) << 24) | ((b5 as u64) << 16) | ((b6 as u64) << 8) | (
                b7 as u64),
        ;
        assert(val@ =~= encoded(v));
    }
    Ok(v)
}

} // verus!
