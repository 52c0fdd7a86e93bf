//! Keys as bit sequences.
//!
//! A key is a byte string; the trie descends one bit at a time, most
//! significant bit of each byte first. This module defines that bit order
//! and the way a root-to-node path of branch decisions is folded back into
//! the key bytes.

use vstd::prelude::*;

verus! {

/// Bit `j` of byte `b`, counting from the most significant bit.
pub open spec fn byte_bit(b: u8, j: int) -> bool
    recommends
        0 <= j < 8,
{
    if j == 0 {
        (b as int) / 128 % 2 == 1
    } else if j == 1 {
        (b as int) / 64 % 2 == 1
    } else if j == 2 {
        (b as int) / 32 % 2 == 1
    } else if j == 3 {
        (b as int) / 16 % 2 == 1
    } else if j == 4 {
        (b as int) / 8 % 2 == 1
    } else if j == 5 {
        (b as int) / 4 % 2 == 1
    } else if j == 6 {
        (b as int) / 2 % 2 == 1
    } else {
        (b as int) % 2 == 1
    }
}

/// Bit `i` of the key `key`, in descent order: the most significant bit of
/// `key[0]` is bit 0.
pub open spec fn key_bit(key: Seq<u8>, i: int) -> bool
    recommends
        0 <= i < 8 * key.len(),
{
    byte_bit(key[i / 8], i % 8)
}

/// The whole key as a bit sequence, in descent order.
pub open spec fn bits_of_key(key: Seq<u8>) -> Seq<bool> {
    Seq::new(8 * key.len(), |i: int| key_bit(key, i))
}

/// 1 for a set bit, 0 for a clear one.
pub open spec fn bit_val(b: bool) -> int {
    if b {
        1
    } else {
        0
    }
}

/// The byte whose bits, most significant first, are `p[start..start + 8]`.
pub open spec fn path_byte(p: Seq<bool>, start: int) -> u8
    recommends
        0 <= start,
        start + 8 <= p.len(),
{
    (bit_val(p[start]) * 128 + bit_val(p[start + 1]) * 64 + bit_val(p[start + 2]) * 32 + bit_val(
        p[start + 3],
    ) * 16 + bit_val(p[start + 4]) * 8 + bit_val(p[start + 5]) * 4 + bit_val(p[start + 6]) * 2
        + bit_val(p[start + 7])) as u8
}

/// The bytes spelled by a root-to-node path of branch decisions: any leading
/// bits that do not fill a whole byte are dropped, and the rest are grouped
/// eight at a time, most significant bit first.
pub open spec fn bytes_of_path(p: Seq<bool>) -> Seq<u8> {
    Seq::new((p.len() / 8) as nat, |k: int| path_byte(p, p.len() % 8 + 8 * k))
}

/// A byte is the sum of its bits, most significant first.
proof fn lemma_byte_from_bits(b: u8)
    ensures
        bit_val(byte_bit(b, 0)) * 128 + bit_val(byte_bit(b, 1)) * 64 + bit_val(byte_bit(b, 2)) * 32
            + bit_val(byte_bit(b, 3)) * 16 + bit_val(byte_bit(b, 4)) * 8 + bit_val(byte_bit(b, 5))
            * 4 + bit_val(byte_bit(b, 6)) * 2 + bit_val(byte_bit(b, 7)) == b,
{
    assert(((b / 128) % 2) * 128 + ((b / 64) % 2) * 64 + ((b / 32) % 2) * 32 + ((b / 16) % 2) * 16
        + ((b / 8) % 2) * 8 + ((b / 4) % 2) * 4 + ((b / 2) % 2) * 2 + (b % 2) == b)
        by (bit_vector);
}

/// Law: expanding a key into its bit sequence and folding the bits back
/// into bytes gives the key again, for every key, the empty one included.
/// This is what lets a listing walk reproduce each stored key exactly from
/// its branch decisions.
pub proof fn lemma_path_round_trip(key: Seq<u8>)
    ensures
        bytes_of_path(bits_of_key(key)) == key,
{
    let p = bits_of_key(key);
    assert(p.len() == 8 * key.len());
    assert(p.len() % 8 == 0);
    assert forall|m: int| 0 <= m < key.len() implies bytes_of_path(p)[m] == key[m] by {
        let b = key[m];
        lemma_byte_from_bits(b);
        assert forall|j: int| 0 <= j < 8 implies p[8 * m + j] == byte_bit(b, j) by {
            assert((8 * m + j) / 8 == m && (8 * m + j) % 8 == j);
        };
        assert(path_byte(p, 8 * m) == b);
    };
    assert(bytes_of_path(p) =~= key);
}

/// Extracts bit `j` of byte `b`, counting from the most significant bit.
pub fn byte_bit_at(b: u8, j: u8) -> (r: bool)
    requires
        j < 8,
    ensures
        r == byte_bit(b, j as int),
{
    let d: u8 = if j == 0 {
        128
    } else if j == 1 {
        64
    } else if j == 2 {
        32
    } else if j == 3 {
        16
    } else if j == 4 {
        8
    } else if j == 5 {
        4
    } else if j == 6 {
        2
    } else {
        1
    };
    (b / d) % 2 == 1
}

/// Expands a key into its bits in descent order, most significant bit of
/// each byte first.
pub fn bits(bytes: &[u8]) -> (r: Vec<bool>)
    ensures
        r@ == bits_of_key(bytes@),
{
    let mut r: Vec<bool> = Vec::new();
    let mut bi: usize = 0;
    while bi < bytes.len()
        invariant
            bi <= bytes@.len(),
            r@.len() == 8 * bi,
            forall|i: int| 0 <= i < r@.len() ==> r@[i] == key_bit(bytes@, i),
        decreases bytes@.len() - bi,
    {
        let b = bytes[bi];
        let mut j: u8 = 0;
        while j < 8
            invariant
                j <= 8,
                bi < bytes@.len(),
                b == bytes@[bi as int],
                r@.len() == 8 * bi + j,
                forall|i: int| 0 <= i < r@.len() ==> r@[i] == key_bit(bytes@, i),
            decreases 8 - j,
        {
            r.push(byte_bit_at(b, j));
            proof {
                let i = r@.len() - 1;
                assert(i / 8 == bi && i % 8 == j);
            }
            j = j + 1;
        }
        bi = bi + 1;
    }
    proof {
        assert(r@ =~= bits_of_key(bytes@));
    }
    r
}

} // verus!
