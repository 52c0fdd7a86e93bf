//! Big-endian 64-bit integers inside a byte file, and whole-file updates.
//!
//! All interior pointers of the store are unsigned 64-bit big-endian absolute
//! file offsets; this module gives them their meaning over `Seq<u8>` and
//! provides the verified conversions the rest of the crate builds on.

use vstd::prelude::*;
use vstd::seq_lib::*;

verus! {

/// The value of the eight big-endian bytes `s[0..8]`.
pub open spec fn u64_from_be(s: Seq<u8>) -> u64
    recommends
        s.len() == 8,
{
    (s[7] as u64) | (s[6] as u64) << 8 | (s[5] as u64) << 16 | (s[4] as u64) << 24
        | (s[3] as u64) << 32 | (s[2] as u64) << 40 | (s[1] as u64) << 48 | (s[0] as u64) << 56
}

/// The eight big-endian bytes of `x`, most significant first.
pub open spec fn u64_to_be(x: u64) -> Seq<u8> {
    seq![
        ((x >> 56) & 0xff) as u8,
        ((x >> 48) & 0xff) as u8,
        ((x >> 40) & 0xff) as u8,
        ((x >> 32) & 0xff) as u8,
        ((x >> 24) & 0xff) as u8,
        ((x >> 16) & 0xff) as u8,
        ((x >> 8) & 0xff) as u8,
        (x & 0xff) as u8,
    ]
}

/// The 64-bit big-endian value stored at offset `a` of file `s`.
pub open spec fn u64_at(s: Seq<u8>, a: int) -> u64
    recommends
        0 <= a,
        a + 8 <= s.len(),
{
    u64_from_be(s.subrange(a, a + 8))
}

/// The file `s` after writing `d` at offset `a`: bytes of `d` replace the
/// bytes at `a..a + d.len()`, the file grows as needed, and any gap between
/// the old end of file and `a` is filled with zero bytes.
pub open spec fn store_at(s: Seq<u8>, a: int, d: Seq<u8>) -> Seq<u8>
    recommends
        0 <= a,
{
    Seq::new(
        if a + d.len() > s.len() {
            (a + d.len()) as nat
        } else {
            s.len()
        },
        |i: int|
            if a <= i && i < a + d.len() {
                d[i - a]
            } else if 0 <= i && i < s.len() {
                s[i]
            } else {
                0u8
            },
    )
}

pub proof fn lemma_be_round_trip(x: u64)
    ensures
        u64_to_be(x).len() == 8,
        u64_from_be(u64_to_be(x)) == x,
{
    let s = u64_to_be(x);
    assert({
        &&& x & 0xff < 256
        &&& (x >> 8) & 0xff < 256
        &&& (x >> 16) & 0xff < 256
        &&& (x >> 24) & 0xff < 256
        &&& (x >> 32) & 0xff < 256
        &&& (x >> 40) & 0xff < 256
        &&& (x >> 48) & 0xff < 256
        &&& (x >> 56) & 0xff < 256
    }) by (bit_vector);
    assert(x == ((x & 0xff) | ((x >> 8) & 0xff) << 8 | ((x >> 16) & 0xff) << 16 | ((x >> 24)
        & 0xff) << 24 | ((x >> 32) & 0xff) << 32 | ((x >> 40) & 0xff) << 40 | ((x >> 48) & 0xff)
        << 48 | ((x >> 56) & 0xff) << 56)) by (bit_vector);
}

/// Reading eight bytes back from a just-written big-endian value gives that
/// value, wherever in the file it was put.
pub proof fn lemma_store_u64_round_trip(s: Seq<u8>, a: int, x: u64)
    requires
        0 <= a,
    ensures
        u64_at(store_at(s, a, u64_to_be(x)), a) == x,
{
    lemma_be_round_trip(x);
    assert(store_at(s, a, u64_to_be(x)).subrange(a, a + 8) =~= u64_to_be(x));
}

/// A write leaves every byte outside the written range (and inside the old
/// file) as it was.
pub proof fn lemma_store_at_frame(s: Seq<u8>, a: int, d: Seq<u8>, i: int)
    requires
        0 <= a,
        0 <= i < s.len(),
        i < a || a + d.len() <= i,
    ensures
        store_at(s, a, d).len() >= s.len(),
        store_at(s, a, d)[i] == s[i],
{
}

/// Reading a 64-bit value whose eight bytes all lie outside a written range
/// gives the value the file held before the write.
pub proof fn lemma_u64_at_frame(s: Seq<u8>, a: int, d: Seq<u8>, b: int)
    requires
        0 <= a,
        0 <= b,
        b + 8 <= s.len(),
        b + 8 <= a || a + d.len() <= b,
    ensures
        u64_at(store_at(s, a, d), b) == u64_at(s, b),
{
    assert(store_at(s, a, d).subrange(b, b + 8) =~= s.subrange(b, b + 8));
}

/// Converts a 64-bit value to its eight big-endian bytes.
pub fn u64_to_be_vec(x: u64) -> (r: Vec<u8>)
    ensures
        r@ == u64_to_be(x),
{
    let mut r: Vec<u8> = Vec::new();
    r.push(((x >> 56) & 0xff) as u8);
    r.push(((x >> 48) & 0xff) as u8);
    r.push(((x >> 40) & 0xff) as u8);
    r.push(((x >> 32) & 0xff) as u8);
    r.push(((x >> 24) & 0xff) as u8);
    r.push(((x >> 16) & 0xff) as u8);
    r.push(((x >> 8) & 0xff) as u8);
    r.push((x & 0xff) as u8);
    proof {
        assert(r@ =~= u64_to_be(x));
    }
    r
}

/// Reads a 64-bit value from eight big-endian bytes.
pub fn u64_from_be_vec(v: &Vec<u8>) -> (r: u64)
    requires
        v@.len() == 8,
    ensures
        r == u64_from_be(v@),
{
    (v[7] as u64) | (v[6] as u64) << 8 | (v[5] as u64) << 16 | (v[4] as u64) << 24
        | (v[3] as u64) << 32 | (v[2] as u64) << 40 | (v[1] as u64) << 48 | (v[0] as u64) << 56
}

} // verus!
