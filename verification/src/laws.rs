//! The structural laws of the heap file: what it means for the live-block
//! chain to be well formed, and proofs that the store's operations respect
//! it.
//!
//! The chain is modelled by the sequence of its block addresses in order.
//! Well-formedness says: the pinned first block sits right after the magic
//! header with `prev = NIL` and `length = 24`; every block's `prev` and
//! `next` fields point at its true neighbours (`NIL` at the two ends); each
//! block ends at or before the next one begins — so the chain is strictly
//! ascending and acyclic — and the file ends flush with the last block's
//! payload.

use vstd::prelude::*;
use crate::codec::{u64_at, u64_to_be, store_at, lemma_u64_at_frame, lemma_store_u64_round_trip,
    lemma_be_round_trip};
use crate::store::{fresh_image, spec_alloc, spec_alloc_from, alloc_image, FIRST_BLOCK, NODE_SIZE,
    NIL, EMPTY_VALUE};
use crate::bitpath::key_bit;

verus! {

/// Where the block at address `b` ends: its 24-byte header plus its
/// `length` payload bytes.
pub open spec fn block_end(s: Seq<u8>, b: int) -> int {
    b + 24 + u64_at(s, b + 8)
}

/// The neighbour links and extent of the `i`th live block: `prev` points
/// at the block before it (`NIL` for the first), `next` at the one after
/// it (`NIL` for the last), and its payload ends by the next block's
/// address — by the end of file for the last.
pub open spec fn chain_link_ok(s: Seq<u8>, bs: Seq<int>, i: int) -> bool
    recommends
        0 <= i < bs.len(),
{
    &&& 0 <= bs[i]
    &&& bs[i] + 24 <= s.len()
    &&& u64_at(s, bs[i]) as int == (if i == 0 {
        0int
    } else {
        bs[i - 1]
    })
    &&& u64_at(s, bs[i] + 16) as int == (if i == bs.len() - 1 {
        0int
    } else {
        bs[i + 1]
    })
    &&& block_end(s, bs[i]) <= (if i == bs.len() - 1 {
        s.len() as int
    } else {
        bs[i + 1]
    })
}

/// The live-block chain of file `s` is exactly the blocks at the addresses
/// `bs`, in ascending order: the pinned first block — `prev = NIL`,
/// `length = 24`, holding the root node — leads a doubly-linked chain
/// whose links are mutual inverses, whose blocks do not overlap, and whose
/// last payload byte is the last byte of the file.
pub open spec fn chain_ok(s: Seq<u8>, bs: Seq<int>) -> bool {
    &&& s.len() <= u64::MAX
    &&& bs.len() >= 1
    &&& bs[0] == FIRST_BLOCK as int
    &&& u64_at(s, FIRST_BLOCK as int) == NIL
    &&& u64_at(s, FIRST_BLOCK as int + 8) == NODE_SIZE
    &&& (forall|i: int| 0 <= i < bs.len() ==> #[trigger] chain_link_ok(s, bs, i))
    &&& s.len() == block_end(s, bs[bs.len() - 1])
}

/// Blocks of a well-formed chain sit at strictly ascending addresses: in
/// particular the chain is acyclic.
pub proof fn lemma_chain_ascending(s: Seq<u8>, bs: Seq<int>, i: int, j: int)
    requires
        chain_ok(s, bs),
        0 <= i < j < bs.len(),
    ensures
        bs[i] + 24 <= bs[j],
    decreases j - i,
{
    assert(chain_link_ok(s, bs, i));
    if i + 1 < j {
        lemma_chain_ascending(s, bs, i + 1, j);
    }
}

/// The chain `bs` with the address `a` spliced in right after position
/// `k`.
pub open spec fn chain_insert(bs: Seq<int>, k: int, a: int) -> Seq<int>
    recommends
        0 <= k < bs.len(),
{
    bs.take(k + 1).push(a) + bs.skip(k + 1)
}

/// A 64-bit read whose eight bytes lie outside all three regions that
/// placing a block touches — the new block itself, the predecessor's
/// `next` field, the successor's `prev` field — sees the old file.
proof fn lemma_alloc_image_frame(
    s: Seq<u8>,
    b: int,
    data_end: int,
    next: int,
    data: Seq<u8>,
    x: int,
)
    requires
        0 <= x,
        x + 8 <= s.len(),
        0 <= b,
        0 <= next,
        b + 24 <= data_end,
        x + 8 <= data_end || x >= data_end + 24 + data.len(),
        x + 8 <= b + 16 || x >= b + 24,
        next != 0 ==> x + 8 <= next || x >= next + 8,
    ensures
        u64_at(alloc_image(s, b, data_end, next, data), x) == u64_at(s, x),
{
    let h = u64_to_be(b as u64) + u64_to_be(data.len() as u64) + u64_to_be(next as u64) + data;
    let s1 = store_at(s, data_end, h);
    let s2 = store_at(s1, b + 16, u64_to_be(data_end as u64));
    lemma_u64_at_frame(s, data_end, h, x);
    lemma_u64_at_frame(s1, b + 16, u64_to_be(data_end as u64), x);
    if next != 0 {
        lemma_u64_at_frame(s2, next, u64_to_be(data_end as u64), x);
    }
}

/// The header fields of the newly placed block, and the patched `next`
/// field of its predecessor, read back as written.
proof fn lemma_alloc_image_written(s: Seq<u8>, b: int, data_end: int, next: int, data: Seq<u8>)
    requires
        0 <= b,
        0 <= next,
        b + 24 <= data_end,
        s.len() <= u64::MAX,
        data.len() + 24 <= u64::MAX,
        data_end + 24 + data.len() <= u64::MAX,
        next != 0 ==> data_end + 24 + data.len() <= next,
        next != 0 ==> next + 8 <= s.len(),
    ensures
        u64_at(alloc_image(s, b, data_end, next, data), data_end) as int == b,
        u64_at(alloc_image(s, b, data_end, next, data), data_end + 8) as int == data.len(),
        u64_at(alloc_image(s, b, data_end, next, data), data_end + 16) as int == next,
        u64_at(alloc_image(s, b, data_end, next, data), b + 16) as int == data_end,
        next != 0 ==> u64_at(alloc_image(s, b, data_end, next, data), next) as int == data_end,
        alloc_image(s, b, data_end, next, data).len() == (if data_end + 24 + data.len() > s.len() {
            data_end + 24 + data.len()
        } else {
            s.len() as int
        }),
{
    let h = u64_to_be(b as u64) + u64_to_be(data.len() as u64) + u64_to_be(next as u64) + data;
    let s1 = store_at(s, data_end, h);
    let s2 = store_at(s1, b + 16, u64_to_be(data_end as u64));
    let s3 = alloc_image(s, b, data_end, next, data);
    lemma_be_round_trip(b as u64);
    lemma_be_round_trip(data.len() as u64);
    lemma_be_round_trip(next as u64);
    lemma_be_round_trip(data_end as u64);
    // The three header fields of the new block, as they stand in s1.
    assert(s1.subrange(data_end, data_end + 8) =~= u64_to_be(b as u64));
    assert(s1.subrange(data_end + 8, data_end + 16) =~= u64_to_be(data.len() as u64));
    assert(s1.subrange(data_end + 16, data_end + 24) =~= u64_to_be(next as u64));
    // The predecessor's next field survives into s2 and s3 unchanged; the
    // new block's fields survive the later patches.
    lemma_u64_at_frame(s1, b + 16, u64_to_be(data_end as u64), data_end);
    lemma_u64_at_frame(s1, b + 16, u64_to_be(data_end as u64), data_end + 8);
    lemma_u64_at_frame(s1, b + 16, u64_to_be(data_end as u64), data_end + 16);
    lemma_store_u64_round_trip(s1, b + 16, data_end as u64);
    if next != 0 {
        lemma_u64_at_frame(s2, next, u64_to_be(data_end as u64), data_end);
        lemma_u64_at_frame(s2, next, u64_to_be(data_end as u64), data_end + 8);
        lemma_u64_at_frame(s2, next, u64_to_be(data_end as u64), data_end + 16);
        lemma_u64_at_frame(s2, next, u64_to_be(data_end as u64), b + 16);
        lemma_store_u64_round_trip(s2, next, data_end as u64);
    }
}

/// Placing a block by first-fit from position `i` of a well-formed chain
/// keeps the chain well formed: the new block takes its place in address
/// order, every link is patched to match, and the file still ends flush
/// with the last payload byte.
proof fn lemma_alloc_from_preserves(
    s: Seq<u8>,
    bs: Seq<int>,
    data: Seq<u8>,
    i: int,
    fuel: nat,
    s2: Seq<u8>,
    addr: u64,
)
    requires
        chain_ok(s, bs),
        0 <= i < bs.len(),
        0 < data.len(),
        data.len() + 24 <= u64::MAX,
        spec_alloc_from(s, bs[i], data, fuel) == Some((s2, addr)),
    ensures
        exists|k: int|
            i <= k < bs.len() && #[trigger] chain_ok(s2, chain_insert(bs, k, addr as int)),
    decreases fuel,
{
    assert(chain_link_ok(s, bs, i));
    let b = bs[i];
    let len_b = u64_at(s, b + 8) as int;
    let next = u64_at(s, b + 16) as int;
    let data_end = b + 24 + len_b;
    assert(data_end == block_end(s, b));
    if next != 0 && data_end + 24 + data.len() <= next {
        // Splice between bs[i] and bs[i + 1].
        assert(i < bs.len() - 1 && next == bs[i + 1]);
        assert(chain_link_ok(s, bs, i + 1));
        lemma_alloc_insert_ok(s, bs, data, i);
        assert(chain_ok(s2, chain_insert(bs, i, addr as int)));
    } else if next != 0 {
        assert(i < bs.len() - 1 && next == bs[i + 1]);
        assert(chain_link_ok(s, bs, i + 1));
        assert(next > b);
        lemma_alloc_from_preserves(s, bs, data, i + 1, (fuel - 1) as nat, s2, addr);
    } else {
        // Append after the last block.
        assert(i == bs.len() - 1);
        assert(data_end == s.len());
        lemma_alloc_insert_ok(s, bs, data, i);
        assert(chain_ok(s2, chain_insert(bs, i, addr as int)));
    }
}

/// The heart of the placement proof: writing the new block right after
/// block `i`'s payload — between `i` and its successor, or at the end of
/// file — yields a well-formed chain with the new address in place.
#[verifier::rlimit(100)]
#[verifier::spinoff_prover]
proof fn lemma_alloc_insert_ok(s: Seq<u8>, bs: Seq<int>, data: Seq<u8>, i: int)
    requires
        chain_ok(s, bs),
        0 <= i < bs.len(),
        0 < data.len(),
        data.len() + 24 <= u64::MAX,
        i < bs.len() - 1 ==> block_end(s, bs[i]) + 24 + data.len() <= bs[i + 1],
        i == bs.len() - 1 ==> block_end(s, bs[i]) + 24 + data.len() <= u64::MAX,
    ensures
        chain_ok(
            alloc_image(
                s,
                bs[i],
                block_end(s, bs[i]),
                (if i == bs.len() - 1 {
                    0int
                } else {
                    bs[i + 1]
                }),
                data,
            ),
            chain_insert(bs, i, block_end(s, bs[i])),
        ),
{
    assert(chain_link_ok(s, bs, i));
    let b = bs[i];
    let data_end = block_end(s, b);
    let next: int = if i == bs.len() - 1 {
        0int
    } else {
        bs[i + 1]
    };
    let s2 = alloc_image(s, b, data_end, next, data);
    let bs2 = chain_insert(bs, i, data_end);
    if i < bs.len() - 1 {
        assert(chain_link_ok(s, bs, i + 1));
        assert(next + 24 <= s.len());
    }
    lemma_alloc_image_written(s, b, data_end, next, data);
    // Ascent facts: blocks before i end before b; blocks after i + 1 start
    // after the new block.
    assert forall|j: int| 0 <= j < i implies bs[j] + 24 <= b by {
        lemma_chain_ascending(s, bs, j, i);
    };
    assert forall|j: int| i + 1 <= j < bs.len() implies data_end + 24 + data.len() <= bs[j] by {
        if j > i + 1 {
            lemma_chain_ascending(s, bs, i + 1, j);
        }
    };
    assert(bs2.len() == bs.len() + 1);
    assert(bs2[i + 1] == data_end);
    assert(forall|j: int| 0 <= j <= i ==> bs2[j] == bs[j]);
    assert(forall|j: int| i + 2 <= j < bs2.len() ==> bs2[j] == bs[j - 1]);
    // The pinned block's fields survive.
    assert(b + 16 >= FIRST_BLOCK as int + 16);
    lemma_alloc_image_frame(s, b, data_end, next, data, FIRST_BLOCK as int);
    lemma_alloc_image_frame(s, b, data_end, next, data, FIRST_BLOCK as int + 8);
    // Every link of the new chain is in order.
    assert forall|j: int| 0 <= j < bs2.len() implies #[trigger] chain_link_ok(s2, bs2, j) by {
        if j <= i {
            assert(chain_link_ok(s, bs, j));
            if j < i {
                lemma_alloc_image_frame(s, b, data_end, next, data, bs[j]);
                lemma_alloc_image_frame(s, b, data_end, next, data, bs[j] + 8);
                lemma_alloc_image_frame(s, b, data_end, next, data, bs[j] + 16);
            } else {
                lemma_alloc_image_frame(s, b, data_end, next, data, b);
                lemma_alloc_image_frame(s, b, data_end, next, data, b + 8);
            }
            assert(chain_link_ok(s2, bs2, j));
        } else if j == i + 1 {
            assert(chain_link_ok(s2, bs2, j));
        } else {
            let m = j - 1;
            assert(chain_link_ok(s, bs, m));
            if m > i + 1 {
                lemma_chain_ascending(s, bs, i + 1, m);
                lemma_alloc_image_frame(s, b, data_end, next, data, bs[m]);
            }
            lemma_alloc_image_frame(s, b, data_end, next, data, bs[m] + 8);
            lemma_alloc_image_frame(s, b, data_end, next, data, bs[m] + 16);
            assert(chain_link_ok(s2, bs2, j));
        }
    };
    // The file still ends flush with the last block's payload.
    if i == bs.len() - 1 {
        assert(bs2[bs2.len() - 1] == data_end);
        assert(s2.len() == data_end + 24 + data.len());
        assert(s2.len() == block_end(s2, bs2[bs2.len() - 1]));
    } else {
        let last = bs[bs.len() - 1];
        assert(chain_link_ok(s, bs, bs.len() - 1));
        if bs.len() - 1 > i + 1 {
            lemma_chain_ascending(s, bs, i + 1, bs.len() - 1);
        }
        lemma_alloc_image_frame(s, b, data_end, next, data, last + 8);
        assert(s2.len() == s.len());
        assert(bs2[bs2.len() - 1] == last);
        assert(s2.len() == block_end(s2, bs2[bs2.len() - 1]));
    }
    assert(chain_ok(s2, bs2));
}

/// Law: `alloc` keeps the live-block chain well formed — acyclic,
/// strictly ascending, with `prev` and `next` mutual inverses, the pinned
/// first block untouched, and the end of file flush with the last block's
/// payload. A real block lands somewhere in address order; the empty
/// payload changes nothing.
pub proof fn lemma_alloc_preserves_chain(
    s: Seq<u8>,
    bs: Seq<int>,
    data: Seq<u8>,
    s2: Seq<u8>,
    addr: u64,
)
    requires
        chain_ok(s, bs),
        spec_alloc(s, data) == Some((s2, addr)),
    ensures
        data.len() == 0 ==> s2 == s && addr == EMPTY_VALUE && chain_ok(s2, bs),
        data.len() > 0 ==> exists|k: int|
            0 <= k < bs.len() && #[trigger] chain_ok(s2, chain_insert(bs, k, addr as int)),
{
    if data.len() > 0 {
        lemma_alloc_from_preserves(s, bs, data, 0, (s.len() + 1) as nat, s2, addr);
    }
}

/// No free space at all: every block ends exactly where the next one
/// begins. A fresh store is gap-free, and stays so while nothing is
/// removed.
pub open spec fn gap_free(s: Seq<u8>, bs: Seq<int>) -> bool {
    forall|j: int| 0 <= j < bs.len() - 1 ==> #[trigger] block_end(s, bs[j]) == bs[j + 1]
}

/// Every block of a well-formed chain lies at or above the address its
/// position dictates: at least 24 header bytes per predecessor.
proof fn lemma_chain_lower(s: Seq<u8>, bs: Seq<int>, j: int)
    requires
        chain_ok(s, bs),
        0 <= j < bs.len(),
    ensures
        bs[j] >= 7 + 24 * j,
    decreases j,
{
    if j > 0 {
        lemma_chain_lower(s, bs, j - 1);
        assert(chain_link_ok(s, bs, j - 1));
    }
}

/// On a gap-free chain, first-fit finds no gap and appends the new block
/// at the end of the file.
proof fn lemma_alloc_tight_from(s: Seq<u8>, bs: Seq<int>, data: Seq<u8>, i: int, fuel: nat)
    requires
        chain_ok(s, bs),
        gap_free(s, bs),
        0 <= i < bs.len(),
        0 < data.len(),
        data.len() + 24 <= u64::MAX,
        s.len() + 24 + data.len() <= u64::MAX,
        fuel >= bs.len() - i,
    ensures
        spec_alloc_from(s, bs[i], data, fuel) == Some(
            (
                alloc_image(s, bs[bs.len() - 1], s.len() as int, 0, data),
                s.len() as u64,
            ),
        ),
    decreases bs.len() - i,
{
    assert(chain_link_ok(s, bs, i));
    if i < bs.len() - 1 {
        assert(chain_link_ok(s, bs, i + 1));
        assert(block_end(s, bs[i]) == bs[i + 1]);
        lemma_alloc_tight_from(s, bs, data, i + 1, (fuel - 1) as nat);
    } else {
        assert(block_end(s, bs[i]) == s.len());
    }
}

/// Law: `alloc` on a gap-free chain appends at the end of file, and the
/// chain — one block longer — is well formed and gap-free again.
pub proof fn lemma_alloc_tight(s: Seq<u8>, bs: Seq<int>, data: Seq<u8>)
    requires
        chain_ok(s, bs),
        gap_free(s, bs),
        0 < data.len(),
        data.len() + 24 <= u64::MAX,
        s.len() + 24 + data.len() <= u64::MAX,
    ensures
        spec_alloc(s, data) == Some(
            (
                alloc_image(s, bs[bs.len() - 1], s.len() as int, 0, data),
                s.len() as u64,
            ),
        ),
        chain_ok(
            alloc_image(s, bs[bs.len() - 1], s.len() as int, 0, data),
            bs.push(s.len() as int),
        ),
        gap_free(
            alloc_image(s, bs[bs.len() - 1], s.len() as int, 0, data),
            bs.push(s.len() as int),
        ),
{
    let last = bs[bs.len() - 1];
    assert(chain_link_ok(s, bs, bs.len() - 1));
    assert(block_end(s, last) == s.len());
    lemma_chain_lower(s, bs, bs.len() - 1);
    assert(bs.len() <= s.len());
    lemma_alloc_tight_from(s, bs, data, 0, (s.len() + 1) as nat);
    lemma_alloc_insert_ok(s, bs, data, bs.len() - 1);
    let s2 = alloc_image(s, last, s.len() as int, 0, data);
    let bs2 = chain_insert(bs, bs.len() - 1, s.len() as int);
    assert(bs2 =~= bs.push(s.len() as int));
    assert(chain_ok(s2, bs2));
    // Gap-freeness: old blocks keep their lengths, and the new block sits
    // exactly at the old end of file.
    lemma_alloc_image_written(s, last, s.len() as int, 0, data);
    assert forall|j: int| 0 <= j < bs2.len() - 1 implies #[trigger] block_end(s2, bs2[j])
        == bs2[j + 1] by {
        if j < bs.len() - 1 {
            assert(chain_link_ok(s, bs, j));
            lemma_chain_ascending(s, bs, j, bs.len() - 1);
            lemma_alloc_image_frame(s, last, s.len() as int, 0, data, bs[j] + 8);
            assert(block_end(s2, bs[j]) == block_end(s, bs[j]));
            assert(block_end(s, bs[j]) == bs[j + 1]);
        } else {
            lemma_alloc_image_frame(s, last, s.len() as int, 0, data, last + 8);
            assert(block_end(s2, last) == block_end(s, last));
        }
    };
}

/// The materializing descent of `set`, entered at the all-`NIL` node that
/// is the payload of the chain's last block, builds one fresh node block
/// per remaining key bit, each appended at the end of file with the
/// parent's child pointer patched to it. It ends at the last node built —
/// its three fields still `NIL` — and everything below the old end of
/// file, except the immediate parent patches, is left alone, so that any
/// later file agreeing with the result below the terminal node's block
/// replays the same descent read for read.
#[verifier::rlimit(100)]
#[verifier::spinoff_prover]
proof fn lemma_set_descend_builds(s: Seq<u8>, bs: Seq<int>, key: Seq<u8>, i: int)
    requires
        chain_ok(s, bs),
        gap_free(s, bs),
        0 <= i <= 8 * key.len(),
        u64_at(s, bs[bs.len() - 1] + 8) == 24,
        forall|x: int| bs[bs.len() - 1] + 24 <= x < bs[bs.len() - 1] + 48 ==> s[x] == 0,
        forall|x: int| bs[bs.len() - 1] + 16 <= x < bs[bs.len() - 1] + 24 ==> s[x] == 0,
        s.len() + 48 * (8 * key.len() - i) + 104 <= u64::MAX,
    ensures
        ({
            let node = bs[bs.len() - 1] + 24;
            let r = crate::store::spec_set_descend(s, node, key, i);
            let t = r.0.len() - 24;
            &&& r.1 == Some(t)
            &&& r.0.len() == s.len() + 48 * (8 * key.len() - i)
            &&& u64_at(r.0, t) == 0
            &&& u64_at(r.0, t + 8) == 0
            &&& u64_at(r.0, t + 16) == 0
            &&& u64_at(r.0, t - 24 + 8) == 24
            &&& (forall|x: int| t <= x < t + 24 ==> r.0[x] == 0)
            &&& (forall|x: int| t - 8 <= x < t ==> r.0[x] == 0)
            &&& r.0.subrange(0, s.len() - 32) == s.subrange(0, s.len() - 32)
            &&& (exists|bs2: Seq<int>|
                #[trigger] chain_ok(r.0, bs2) && gap_free(r.0, bs2) && bs2[bs2.len() - 1] == t
                    - 24)
            &&& (forall|sl: Seq<u8>|
                sl.len() >= t - 24 && sl.subrange(0, t - 24) == r.0.subrange(0, t - 24)
                    ==> #[trigger] crate::store::spec_descend(sl, node, key, i) == Some(t))
        }),
    decreases 8 * key.len() - i,
{
    let last = bs[bs.len() - 1];
    let node = last + 24;
    assert(chain_link_ok(s, bs, bs.len() - 1));
    lemma_chain_lower(s, bs, bs.len() - 1);
    assert(block_end(s, last) == s.len());
    assert(node + 24 == s.len());
    crate::store::lemma_be_zero_24();
    lemma_be_round_trip(0);
    assert(s.subrange(node, node + 8) =~= u64_to_be(0));
    assert(s.subrange(node + 8, node + 16) =~= u64_to_be(0));
    assert(s.subrange(node + 16, node + 24) =~= u64_to_be(0));
    assert(u64_at(s, node) == 0 && u64_at(s, node + 8) == 0 && u64_at(s, node + 16) == 0);
    if i >= 8 * key.len() {
        // Terminal: the node itself, fields all NIL, block ending at EOF.
        let r = crate::store::spec_set_descend(s, node, key, i);
        assert(r == (s, Some(node)));
        assert(s.subrange(0, s.len() - 32) =~= s.subrange(0, s.len() - 32));
        assert(chain_ok(s, bs) && gap_free(s, bs) && bs[bs.len() - 1] == node - 24);
        assert forall|sl: Seq<u8>|
            sl.len() >= node - 24 && sl.subrange(0, node - 24) == s.subrange(0, node - 24)
                implies #[trigger] crate::store::spec_descend(sl, node, key, i) == Some(
            node,
        ) by {
            assert(crate::store::spec_descend(sl, node, key, i) == Some(node));
        };
    } else {
        let bit = crate::bitpath::key_bit(key, i);
        let a: int = node + (if bit {
            8int
        } else {
            0int
        });
        assert(u64_at(s, a) == 0);
        // The fresh node block is appended at the old end of file.
        let zeros = crate::store::zero_node();
        crate::store::lemma_be_zero_24();
        lemma_alloc_tight(s, bs, zeros);
        let s1 = alloc_image(s, last, s.len() as int, 0, zeros);
        let blk = s.len() as int;
        let child = blk + 24;
        assert(crate::store::spec_alloc(s, zeros) == Some((s1, blk as u64)));
        lemma_alloc_image_written(s, last, blk, 0, zeros);
        assert(s1.len() == blk + 48);
        let bs1 = bs.push(blk);
        assert(chain_ok(s1, bs1) && gap_free(s1, bs1));
        // The new node's three fields are the zero payload.
        let h = u64_to_be(last as u64) + u64_to_be(24u64) + u64_to_be(0u64) + zeros;
        assert(s1.subrange(child, child + 8) =~= u64_to_be(0));
        assert(s1.subrange(child + 8, child + 16) =~= u64_to_be(0));
        assert(s1.subrange(child + 16, child + 24) =~= u64_to_be(0));
        lemma_be_round_trip(0);
        assert(u64_at(s1, child) == 0 && u64_at(s1, child + 8) == 0 && u64_at(s1, child + 16)
            == 0);
        // Patch the parent's child pointer.
        let s2 = store_at(s1, a, u64_to_be(child as u64));
        assert(crate::store::spec_set_descend(s, node, key, i)
            == crate::store::spec_set_descend(s2, child, key, i + 1));
        lemma_store_u64_round_trip(s1, a, child as u64);
        assert(s2.len() == s1.len());
        // The patch lands inside the old last block's payload.
        assert(u64_at(s1, last + 8) == 24) by {
            lemma_alloc_image_frame(s, last, blk, 0, zeros, last + 8);
        };
        assert(bs1[bs1.len() - 2] == last);
        lemma_payload_write_preserves_chain(s1, bs1, bs1.len() - 2, a, child as u64);
        assert(chain_ok(s2, bs1));
        assert(gap_free(s2, bs1)) by {
            assert forall|j: int| 0 <= j < bs1.len() - 1 implies #[trigger] block_end(s2, bs1[j])
                == bs1[j + 1] by {
                assert(chain_link_ok(s1, bs1, j));
                if j < bs.len() - 1 {
                    lemma_chain_ascending(s1, bs1, j, bs1.len() - 2);
                }
                lemma_u64_at_frame(s1, a, u64_to_be(child as u64), bs1[j] + 8);
                assert(block_end(s2, bs1[j]) == block_end(s1, bs1[j]));
            };
        };
        // The new node's fields survive the patch.
        lemma_u64_at_frame(s1, a, u64_to_be(child as u64), child);
        lemma_u64_at_frame(s1, a, u64_to_be(child as u64), child + 8);
        lemma_u64_at_frame(s1, a, u64_to_be(child as u64), child + 16);
        lemma_u64_at_frame(s1, a, u64_to_be(child as u64), blk + 8);
        assert(u64_at(s2, blk + 8) == 24);
        assert(forall|x: int| child <= x < child + 24 ==> s2[x] == 0) by {
            assert forall|x: int| child <= x < child + 24 implies s2[x] == 0 by {
                assert(s2[x] == s1[x]);
                assert(s1[x] == h[x - blk]);
                assert(h[x - blk] == zeros[x - child]);
            };
        };
        assert(forall|x: int| blk + 16 <= x < blk + 24 ==> s2[x] == 0) by {
            assert forall|x: int| blk + 16 <= x < blk + 24 implies s2[x] == 0 by {
                assert(s2[x] == s1[x]);
                assert(s1[x] == h[x - blk]);
                assert(h[x - blk] == u64_to_be(0)[x - blk - 16]);
            };
        };
        // Recurse one bit deeper.
        lemma_set_descend_builds(s2, bs1, key, i + 1);
        let r = crate::store::spec_set_descend(s2, child, key, i + 1);
        let t = r.0.len() - 24;
        // Everything below the old end of file, less the parent patches,
        // is untouched.
        assert(s2.subrange(0, s.len() - 32) =~= s.subrange(0, s.len() - 32));
        assert(r.0.subrange(0, s2.len() - 32) == s2.subrange(0, s2.len() - 32));
        assert(r.0.subrange(0, s.len() - 32) =~= s.subrange(0, s.len() - 32)) by {
            assert forall|x: int| 0 <= x < s.len() - 32 implies #[trigger] r.0.subrange(
                0,
                s.len() - 32,
            )[x] == s.subrange(0, s.len() - 32)[x] by {
                assert(r.0.subrange(0, s2.len() - 32)[x] == s2.subrange(0, s2.len() - 32)[x]);
            };
        };
        // The patched pointer still reads as the child in the final file.
        assert(u64_at(r.0, a) == child as u64) by {
            assert(r.0.subrange(a, a + 8) =~= s2.subrange(a, a + 8)) by {
                assert forall|x: int| a <= x < a + 8 implies #[trigger] r.0.subrange(
                    a,
                    a + 8,
                )[x - a] == s2.subrange(a, a + 8)[x - a] by {
                    assert(r.0.subrange(0, s2.len() - 32)[x] == s2.subrange(
                        0,
                        s2.len() - 32,
                    )[x]);
                };
            };
        };
        // Replay: any file agreeing below the terminal block descends the
        // same way.
        assert forall|sl: Seq<u8>|
            sl.len() >= t - 24 && sl.subrange(0, t - 24) == r.0.subrange(0, t - 24)
                implies #[trigger] crate::store::spec_descend(sl, node, key, i) == Some(t) by {
            assert(r.0.len() == s2.len() + 48 * (8 * key.len() - i - 1));
            assert(a + 8 <= s.len() <= t - 24);
            assert(u64_at(sl, a) == child as u64) by {
                assert(sl.subrange(a, a + 8) =~= r.0.subrange(a, a + 8)) by {
                    assert forall|x: int| a <= x < a + 8 implies #[trigger] sl.subrange(
                        a,
                        a + 8,
                    )[x - a] == r.0.subrange(a, a + 8)[x - a] by {
                        assert(sl.subrange(0, t - 24)[x] == r.0.subrange(0, t - 24)[x]);
                    };
                };
            };
            assert(crate::store::spec_descend(sl, node, key, i)
                == crate::store::spec_descend(sl, child, key, i + 1));
            assert(crate::store::spec_descend(sl, child, key, i + 1) == Some(t));
        };
    }
}

/// Law of the round trip: on a fresh store, `set(k, v)` finds no previous
/// value, and `get(k)` straight after returns exactly `v` — for arbitrary
/// byte keys and values, the empty ones included. (The bound only asks
/// that the written store fit in 64-bit offsets.)
#[verifier::rlimit(100)]
#[verifier::spinoff_prover]
pub proof fn lemma_fresh_round_trip(key: Seq<u8>, value: Seq<u8>)
    requires
        48 * (8 * key.len()) + value.len() + 200 <= u64::MAX,
    ensures
        ({
            let r = crate::store::spec_set(fresh_image(), key, value);
            &&& r.1 is None
            &&& crate::store::spec_get(r.0, key) == Some(value)
        }),
{
    let s = fresh_image();
    let bs = seq![FIRST_BLOCK as int];
    lemma_fresh_store_chain_ok();
    lemma_be_round_trip(0);
    lemma_be_round_trip(24);
    assert(s.len() == 55);
    assert(s.subrange(15, 23) =~= u64_to_be(24));
    assert(s.subrange(31, 39) =~= u64_to_be(0));
    assert(s.subrange(39, 47) =~= u64_to_be(0));
    assert(s.subrange(47, 55) =~= u64_to_be(0));
    assert(u64_at(s, 15) == 24 && u64_at(s, 31) == 0 && u64_at(s, 39) == 0 && u64_at(s, 47) == 0);
    assert(gap_free(s, bs));
    crate::store::lemma_be_zero_24();
    assert forall|x: int| 31 <= x < 55 implies s[x] == 0 by {
        if x < 39 {
            assert(s[x] == u64_to_be(NIL)[x - 31]);
        } else if x < 47 {
            assert(s[x] == u64_to_be(NIL)[x - 39]);
        } else {
            assert(s[x] == u64_to_be(NIL)[x - 47]);
        }
    };
    assert forall|x: int| 23 <= x < 31 implies s[x] == 0 by {
        assert(s[x] == u64_to_be(NIL)[x - 23]);
    };
    lemma_set_descend_builds(s, bs, key, 0);
    let rd = crate::store::spec_set_descend(s, crate::store::ROOT_NODE as int, key, 0);
    let cap_s = rd.0;
    let t = cap_s.len() - 24;
    assert(rd.1 == Some(t));
    assert(u64_at(cap_s, t + 16) == 0);
    // set finds no previous value and hangs the new content block off the
    // terminal node.
    if value.len() == 0 {
        assert(crate::store::spec_alloc(cap_s, value) == Some((cap_s, EMPTY_VALUE)));
        let s4 = store_at(cap_s, t + 16, u64_to_be(EMPTY_VALUE));
        assert(crate::store::spec_set(s, key, value) == (s4, Option::<Seq<u8>>::None));
        lemma_store_u64_round_trip(cap_s, t + 16, EMPTY_VALUE);
        assert(s4.len() == cap_s.len());
        assert(s4.subrange(0, t - 24) =~= cap_s.subrange(0, t - 24));
        assert(crate::store::spec_descend(s4, crate::store::ROOT_NODE as int, key, 0) == Some(t));
        assert(crate::store::spec_read_block(s4, 1) == Some(value));
        assert(crate::store::spec_get(s4, key) == Some(value));
    } else {
        let bs2 = choose|bs2: Seq<int>|
            #[trigger] chain_ok(cap_s, bs2) && gap_free(cap_s, bs2) && bs2[bs2.len() - 1] == t
                - 24;
        lemma_alloc_tight(cap_s, bs2, value);
        let c = cap_s.len() as int;
        let s3 = alloc_image(cap_s, t - 24, c, 0, value);
        assert(crate::store::spec_alloc(cap_s, value) == Some((s3, c as u64)));
        lemma_alloc_image_written(cap_s, t - 24, c, 0, value);
        assert(s3.len() == c + 24 + value.len());
        let s4 = store_at(s3, t + 16, u64_to_be(c as u64));
        assert(crate::store::spec_set(s, key, value) == (s4, Option::<Seq<u8>>::None));
        lemma_store_u64_round_trip(s3, t + 16, c as u64);
        assert(s4.len() == s3.len());
        // The descent replays unchanged: the content block and the two
        // patches all lie at or above the terminal node's block.
        assert(s4.subrange(0, t - 24) =~= cap_s.subrange(0, t - 24)) by {
            assert forall|x: int| 0 <= x < t - 24 implies #[trigger] s4.subrange(0, t - 24)[x]
                == cap_s.subrange(0, t - 24)[x] by {
                assert(s4[x] == s3[x] && s3[x] == cap_s[x]);
            };
        };
        assert(crate::store::spec_descend(s4, crate::store::ROOT_NODE as int, key, 0) == Some(t));
        // The terminal node's content pointer reads back as the block.
        assert(u64_at(s4, t + 16) == c as u64);
        // And the block reads back as the value.
        lemma_u64_at_frame(s3, t + 16, u64_to_be(c as u64), c + 8);
        assert(u64_at(s4, c + 8) as int == value.len());
        assert(s4.subrange(c + 24, c + 24 + value.len() as int) =~= value) by {
            let h = u64_to_be((t - 24) as u64) + u64_to_be(value.len() as u64) + u64_to_be(0u64)
                + value;
            assert forall|x: int| c + 24 <= x < c + 24 + value.len() implies #[trigger] s4[x]
                == value[x - c - 24] by {
                assert(s4[x] == s3[x]);
                assert(s3[x] == h[x - c]);
            };
        };
        assert(crate::store::spec_read_block(s4, c) == Some(value));
        assert(crate::store::spec_get(s4, key) == Some(value));
    }
}

/// The file as `set` leaves it when its descent entered at the node below
/// `last` built `r.0`: the value's block appended at the end — or the
/// `EMPTY_VALUE` sentinel — and the terminal node's content pointer
/// patched to it.
pub open spec fn built_with(r0: Seq<u8>, v: Seq<u8>) -> Seq<u8> {
    let t = r0.len() - 24;
    if v.len() == 0 {
        store_at(r0, t + 16, u64_to_be(EMPTY_VALUE))
    } else {
        store_at(alloc_image(r0, t - 24, r0.len() as int, 0, v), t + 16, u64_to_be(r0.len() as u64))
    }
}

/// Undoing one content attachment restores the old bytes exactly: write a
/// block at the old end of file, patch the predecessor's `next` and the
/// node's content pointer, then truncate back and clear both fields — the
/// file is as before, because both fields held zero bytes.
proof fn lemma_content_restore(s: Seq<u8>, last: int, h: Seq<u8>)
    requires
        0 <= last,
        s.len() == last + 48,
        forall|x: int| last + 16 <= x < last + 24 ==> s[x] == 0,
        forall|x: int| last + 24 <= x < last + 48 ==> s[x] == 0,
    ensures
        ({
            let c = last + 48;
            let t = last + 24;
            let s3 = store_at(store_at(s, c, h), last + 16, u64_to_be(c as u64));
            let s4 = store_at(s3, t + 16, u64_to_be(c as u64));
            let d2 = store_at(s4.take(c), last + 16, u64_to_be(0u64));
            store_at(d2, t + 16, u64_to_be(0u64)) =~= s
        }),
{
    crate::store::lemma_be_zero_24();
}

/// Undoing one node materialization restores the old bytes exactly: the
/// appended node block is truncated away and the two patched pointer
/// fields — which held zero bytes — are cleared again.
proof fn lemma_prune_restores(s: Seq<u8>, last: int, a: int, h: Seq<u8>)
    requires
        0 <= last,
        s.len() == last + 48,
        last + 24 <= a,
        a + 8 <= s.len(),
        forall|x: int| last + 16 <= x < last + 24 ==> s[x] == 0,
        forall|x: int| last + 24 <= x < last + 48 ==> s[x] == 0,
    ensures
        ({
            let blk = last + 48;
            let child = blk + 24;
            let s1 = store_at(store_at(s, blk, h), last + 16, u64_to_be(blk as u64));
            let s2 = store_at(s1, a, u64_to_be(child as u64));
            let d2 = store_at(s2.take(s.len() as int), last + 16, u64_to_be(0u64));
            store_at(d2, a, u64_to_be(0u64)) =~= s
        }),
{
    crate::store::lemma_be_zero_24();
}

/// The terminal step of the walk back: detaching and freeing the content
/// of the node that ends the key's bit path — the payload of the file's
/// last block — restores the file that the terminal step of `set` saw.
#[verifier::rlimit(100)]
#[verifier::spinoff_prover]
proof fn lemma_remove_unbuilds_base(s: Seq<u8>, last: int, key: Seq<u8>, i: int, v: Seq<u8>)
    requires
        0 <= last,
        s.len() == last + 48,
        i >= 8 * key.len(),
        u64_at(s, last + 8) == 24,
        forall|x: int| last + 24 <= x < last + 48 ==> s[x] == 0,
        forall|x: int| last + 16 <= x < last + 24 ==> s[x] == 0,
        s.len() + v.len() + 104 <= u64::MAX,
    ensures
        crate::store::spec_remove_from(built_with(s, v), last + 24, key, i) == (
            s,
            crate::store::RemoveOutcome::Reducing(Some(v)),
        ),
{
    let node = last + 24;
    let t = node;
    crate::store::lemma_be_zero_24();
    lemma_be_round_trip(0);
    assert(s.subrange(node + 16, node + 24) =~= u64_to_be(0));
    assert(u64_at(s, node + 16) == 0);
    let s4 = built_with(s, v);
    if v.len() == 0 {
        assert(s4 == store_at(s, t + 16, u64_to_be(EMPTY_VALUE)));
        lemma_store_u64_round_trip(s, t + 16, EMPTY_VALUE);
        assert(s4.len() == s.len());
        assert(crate::store::spec_read_block(s4, 1) == Some(v));
        assert(crate::store::spec_dealloc(s4, 1) == s4);
        let s6 = store_at(s4, t + 16, u64_to_be(NIL));
        assert(crate::store::spec_remove_from(s4, node, key, i) == (
            s6,
            crate::store::RemoveOutcome::Reducing(Some(v)),
        ));
        assert(s6 =~= s);
    } else {
        let c = s.len() as int;
        let s3 = alloc_image(s, last, c, 0, v);
        assert(s4 == store_at(s3, t + 16, u64_to_be(c as u64)));
        lemma_alloc_image_written(s, last, c, 0, v);
        lemma_store_u64_round_trip(s3, t + 16, c as u64);
        assert(s4.len() == c + 24 + v.len());
        assert(u64_at(s4, t + 16) == c as u64);
        // The content block reads back as the value.
        lemma_u64_at_frame(s3, t + 16, u64_to_be(c as u64), c + 8);
        assert(u64_at(s4, c + 8) as int == v.len());
        let h = u64_to_be(last as u64) + u64_to_be(v.len() as u64) + u64_to_be(0u64) + v;
        assert(s4.subrange(c + 24, c + 24 + v.len() as int) =~= v) by {
            assert forall|x: int| c + 24 <= x < c + 24 + v.len() implies #[trigger] s4[x] == v[x - c
                - 24] by {
                assert(s4[x] == s3[x]);
                assert(s3[x] == h[x - c]);
            };
        };
        assert(crate::store::spec_read_block(s4, c) == Some(v));
        // Freeing it truncates flush to the terminal node's block.
        lemma_u64_at_frame(s3, t + 16, u64_to_be(c as u64), c);
        lemma_u64_at_frame(s3, t + 16, u64_to_be(c as u64), c + 16);
        assert(u64_at(s4, c) as int == last && u64_at(s4, c + 16) == 0);
        lemma_u64_at_frame(s, c, h, last + 8);
        lemma_u64_at_frame(store_at(s, c, h), last + 16, u64_to_be(c as u64), last + 8);
        lemma_u64_at_frame(s3, t + 16, u64_to_be(c as u64), last + 8);
        assert(u64_at(s4, last + 8) == 24);
        let d1 = s4.take(c);
        let d2 = store_at(d1, last + 16, u64_to_be(0u64));
        assert(crate::store::spec_dealloc(s4, c) == d2);
        let s6 = store_at(d2, t + 16, u64_to_be(NIL));
        assert(crate::store::spec_remove_from(s4, node, key, i) == (
            s6,
            crate::store::RemoveOutcome::Reducing(Some(v)),
        ));
        lemma_content_restore(s, last, h);
        assert(s6 =~= s);
    }
}

/// The walk back of `remove` undoes the build exactly: the content block
/// is freed and each node block pruned in turn, every truncation landing
/// flush on the previous end of file, until the file is byte for byte the
/// one the descent started from.
#[verifier::rlimit(100)]
#[verifier::spinoff_prover]
proof fn lemma_remove_unbuilds(s: Seq<u8>, bs: Seq<int>, key: Seq<u8>, i: int, v: Seq<u8>)
    requires
        chain_ok(s, bs),
        gap_free(s, bs),
        0 <= i <= 8 * key.len(),
        u64_at(s, bs[bs.len() - 1] + 8) == 24,
        forall|x: int| bs[bs.len() - 1] + 24 <= x < bs[bs.len() - 1] + 48 ==> s[x] == 0,
        forall|x: int| bs[bs.len() - 1] + 16 <= x < bs[bs.len() - 1] + 24 ==> s[x] == 0,
        s.len() + 48 * (8 * key.len() - i) + v.len() + 104 <= u64::MAX,
    ensures
        ({
            let node = bs[bs.len() - 1] + 24;
            let r = crate::store::spec_set_descend(s, node, key, i);
            crate::store::spec_remove_from(built_with(r.0, v), node, key, i) == (
                s,
                crate::store::RemoveOutcome::Reducing(Some(v)),
            )
        }),
    decreases 8 * key.len() - i,
{
    let last = bs[bs.len() - 1];
    let node = last + 24;
    assert(chain_link_ok(s, bs, bs.len() - 1));
    lemma_chain_lower(s, bs, bs.len() - 1);
    assert(block_end(s, last) == s.len());
    assert(node + 24 == s.len());
    crate::store::lemma_be_zero_24();
    lemma_be_round_trip(0);
    // Byte-level zeros give the field-level ones.
    assert(s.subrange(node, node + 8) =~= u64_to_be(0));
    assert(s.subrange(node + 8, node + 16) =~= u64_to_be(0));
    assert(s.subrange(node + 16, node + 24) =~= u64_to_be(0));
    assert(u64_at(s, node) == 0 && u64_at(s, node + 8) == 0 && u64_at(s, node + 16) == 0);
    lemma_set_descend_builds(s, bs, key, i);
    let r = crate::store::spec_set_descend(s, node, key, i);
    let t = r.0.len() - 24;
    let s4 = built_with(r.0, v);
    if i >= 8 * key.len() {
        assert(r == (s, Some(node)));
        lemma_remove_unbuilds_base(s, last, key, i, v);
    } else {
        // Rebuild the one materialization this level makes.
        let bit = crate::bitpath::key_bit(key, i);
        let a: int = node + (if bit {
            8int
        } else {
            0int
        });
        assert(u64_at(s, a) == 0);
        let zeros = crate::store::zero_node();
        lemma_alloc_tight(s, bs, zeros);
        let s1 = alloc_image(s, last, s.len() as int, 0, zeros);
        let blk = s.len() as int;
        let child = blk + 24;
        lemma_alloc_image_written(s, last, blk, 0, zeros);
        let bs1 = bs.push(blk);
        let s2 = store_at(s1, a, u64_to_be(child as u64));
        assert(crate::store::spec_set_descend(s, node, key, i)
            == crate::store::spec_set_descend(s2, child, key, i + 1));
        lemma_store_u64_round_trip(s1, a, child as u64);
        assert(s2.len() == s1.len());
        assert(s1.len() == blk + 48);
        assert(u64_at(s1, last + 8) == 24) by {
            lemma_alloc_image_frame(s, last, blk, 0, zeros, last + 8);
        };
        lemma_payload_write_preserves_chain(s1, bs1, bs1.len() - 2, a, child as u64);
        assert(chain_ok(s2, bs1));
        assert(gap_free(s2, bs1)) by {
            assert forall|j: int| 0 <= j < bs1.len() - 1 implies #[trigger] block_end(s2, bs1[j])
                == bs1[j + 1] by {
                assert(chain_link_ok(s1, bs1, j));
                if j < bs.len() - 1 {
                    lemma_chain_ascending(s1, bs1, j, bs1.len() - 2);
                }
                lemma_u64_at_frame(s1, a, u64_to_be(child as u64), bs1[j] + 8);
                assert(block_end(s2, bs1[j]) == block_end(s1, bs1[j]));
            };
        };
        lemma_u64_at_frame(s1, a, u64_to_be(child as u64), blk + 8);
        assert(u64_at(s2, blk + 8) == 24);
        let h = u64_to_be(last as u64) + u64_to_be(24u64) + u64_to_be(0u64) + zeros;
        assert(forall|x: int| child <= x < child + 24 ==> s2[x] == 0) by {
            assert forall|x: int| child <= x < child + 24 implies s2[x] == 0 by {
                assert(s2[x] == s1[x]);
                assert(s1[x] == h[x - blk]);
                assert(h[x - blk] == zeros[x - child]);
            };
        };
        assert(forall|x: int| blk + 16 <= x < blk + 24 ==> s2[x] == 0) by {
            assert forall|x: int| blk + 16 <= x < blk + 24 implies s2[x] == 0 by {
                assert(s2[x] == s1[x]);
                assert(s1[x] == h[x - blk]);
                assert(h[x - blk] == u64_to_be(0)[x - blk - 16]);
            };
        };
        assert(s2.subrange(child, child + 8) =~= u64_to_be(0));
        assert(s2.subrange(child + 8, child + 16) =~= u64_to_be(0));
        assert(s2.subrange(child + 16, child + 24) =~= u64_to_be(0));
        assert(u64_at(s2, child) == 0 && u64_at(s2, child + 8) == 0 && u64_at(s2, child + 16)
            == 0);
        // The deeper remove restores the deeper state.
        lemma_remove_unbuilds(s2, bs1, key, i + 1, v);
        assert(crate::store::spec_set_descend(s2, child, key, i + 1) == r);
        assert(crate::store::spec_remove_from(s4, child, key, i + 1) == (
            s2,
            crate::store::RemoveOutcome::Reducing(Some(v)),
        ));
        // This level's read sees the patched pointer in the final file.
        lemma_set_descend_builds(s2, bs1, key, i + 1);
        assert(u64_at(r.0, a) == child as u64) by {
            assert(r.0.subrange(a, a + 8) =~= s2.subrange(a, a + 8)) by {
                assert forall|x: int| a <= x < a + 8 implies #[trigger] r.0.subrange(a, a + 8)[x
                    - a] == s2.subrange(a, a + 8)[x - a] by {
                    assert(r.0.subrange(0, s2.len() - 32)[x] == s2.subrange(0, s2.len() - 32)[x]);
                };
            };
        };
        assert(u64_at(s4, a) == child as u64) by {
            assert(s4.subrange(a, a + 8) =~= r.0.subrange(a, a + 8)) by {
                assert forall|x: int| a <= x < a + 8 implies #[trigger] s4.subrange(a, a + 8)[x
                    - a] == r.0.subrange(a, a + 8)[x - a] by {
                    assert(s4[x] == r.0[x]);
                };
            };
        };
        assert(a + 8 <= s4.len());
        assert(crate::store::spec_remove_from(s4, node, key, i) == crate::store::reduce_step(
            s2,
            crate::store::RemoveOutcome::Reducing(Some(v)),
            a,
            child,
        ));
        // The pruning step: the fresh node is all NIL, its block last.
        lemma_u64_at_frame(s1, a, u64_to_be(child as u64), blk);
        lemma_u64_at_frame(s1, a, u64_to_be(child as u64), blk + 16);
        assert(u64_at(s2, blk) as int == last && u64_at(s2, blk + 16) == 0);
        let d1 = s2.take(s.len() as int);
        let d2 = store_at(d1, last + 16, u64_to_be(0u64));
        assert(crate::store::spec_dealloc(s2, blk) == d2);
        let d3 = store_at(d2, a, u64_to_be(NIL));
        assert(crate::store::reduce_step(
            s2,
            crate::store::RemoveOutcome::Reducing(Some(v)),
            a,
            child,
        ) == (d3, crate::store::RemoveOutcome::Reducing(Some(v))));
        lemma_prune_restores(s, last, a, h);
        assert(d3 =~= s);
    }
}

/// Law of remove-after-set and of space reclamation: on a fresh store,
/// `set(k, v)` then `remove(k)` returns exactly the value written and
/// restores the file byte for byte to the fresh image — every node block
/// built for the key and the value's block are reclaimed, and the end of
/// file ends up where it began. A `get(k)` afterwards finds nothing.
pub proof fn lemma_fresh_set_remove(key: Seq<u8>, value: Seq<u8>)
    requires
        48 * (8 * key.len()) + value.len() + 200 <= u64::MAX,
    ensures
        ({
            let r = crate::store::spec_set(fresh_image(), key, value);
            &&& crate::store::spec_remove(r.0, key) == (fresh_image(), Some(value))
            &&& crate::store::spec_get(crate::store::spec_remove(r.0, key).0, key) is None
        }),
{
    let s = fresh_image();
    let bs = seq![FIRST_BLOCK as int];
    lemma_fresh_store_chain_ok();
    lemma_be_round_trip(0);
    lemma_be_round_trip(24);
    assert(s.len() == 55);
    assert(s.subrange(15, 23) =~= u64_to_be(24));
    assert(u64_at(s, 15) == 24);
    assert(gap_free(s, bs));
    crate::store::lemma_be_zero_24();
    assert forall|x: int| 31 <= x < 55 implies s[x] == 0 by {
        if x < 39 {
            assert(s[x] == u64_to_be(NIL)[x - 31]);
        } else if x < 47 {
            assert(s[x] == u64_to_be(NIL)[x - 39]);
        } else {
            assert(s[x] == u64_to_be(NIL)[x - 47]);
        }
    };
    assert forall|x: int| 23 <= x < 31 implies s[x] == 0 by {
        assert(s[x] == u64_to_be(NIL)[x - 23]);
    };
    lemma_set_descend_builds(s, bs, key, 0);
    let rd = crate::store::spec_set_descend(s, crate::store::ROOT_NODE as int, key, 0);
    let cap_s = rd.0;
    let t = cap_s.len() - 24;
    assert(u64_at(cap_s, t + 16) == 0);
    // The set's result is exactly the built file.
    if value.len() == 0 {
        assert(crate::store::spec_alloc(cap_s, value) == Some((cap_s, EMPTY_VALUE)));
        assert(crate::store::spec_set(s, key, value) == (
            built_with(cap_s, value),
            Option::<Seq<u8>>::None,
        ));
    } else {
        let bs2 = choose|bs2: Seq<int>|
            #[trigger] chain_ok(cap_s, bs2) && gap_free(cap_s, bs2) && bs2[bs2.len() - 1] == t
                - 24;
        lemma_alloc_tight(cap_s, bs2, value);
        assert(crate::store::spec_set(s, key, value) == (
            built_with(cap_s, value),
            Option::<Seq<u8>>::None,
        ));
    }
    lemma_remove_unbuilds(s, bs, key, 0, value);
    assert(crate::store::spec_remove_from(
        built_with(cap_s, value),
        crate::store::ROOT_NODE as int,
        key,
        0,
    ) == (s, crate::store::RemoveOutcome::Reducing(Some(value))));
    assert(crate::store::spec_remove(built_with(cap_s, value), key) == (s, Some(value)));
    lemma_fresh_get_misses(key);
}

/// Law: a 64-bit write that lands wholly inside a live block's payload —
/// as every trie-node and content patch of the store does, node fields
/// being block payloads — leaves the chain laws intact: no block header
/// and not the file's length is touched.
pub proof fn lemma_payload_write_preserves_chain(
    s: Seq<u8>,
    bs: Seq<int>,
    i: int,
    x: int,
    v: u64,
)
    requires
        chain_ok(s, bs),
        0 <= i < bs.len(),
        bs[i] + 24 <= x,
        x + 8 <= block_end(s, bs[i]),
    ensures
        chain_ok(store_at(s, x, u64_to_be(v)), bs),
{
    let s2 = store_at(s, x, u64_to_be(v));
    assert(chain_link_ok(s, bs, i));
    if i < bs.len() - 1 {
        assert(chain_link_ok(s, bs, i + 1));
    }
    assert(s2.len() == s.len());
    assert forall|m: int| 0 <= m < bs.len() implies #[trigger] chain_link_ok(s2, bs, m) by {
        assert(chain_link_ok(s, bs, m));
        if m < i {
            lemma_chain_ascending(s, bs, m, i);
        } else if m > i {
            lemma_chain_ascending(s, bs, i, m);
            assert(chain_link_ok(s, bs, i));
            if m > i + 1 {
                lemma_chain_ascending(s, bs, i + 1, m);
            }
        }
        lemma_u64_at_frame(s, x, u64_to_be(v), bs[m]);
        lemma_u64_at_frame(s, x, u64_to_be(v), bs[m] + 8);
        lemma_u64_at_frame(s, x, u64_to_be(v), bs[m] + 16);
        assert(chain_link_ok(s2, bs, m));
    };
    if i > 0 {
        lemma_chain_ascending(s, bs, 0, i);
    }
    lemma_u64_at_frame(s, x, u64_to_be(v), FIRST_BLOCK as int);
    lemma_u64_at_frame(s, x, u64_to_be(v), FIRST_BLOCK as int + 8);
    assert(chain_link_ok(s2, bs, bs.len() - 1));
    if i + 1 < bs.len() - 1 {
        lemma_chain_ascending(s, bs, i + 1, bs.len() - 1);
    }
    lemma_u64_at_frame(s, x, u64_to_be(v), bs[bs.len() - 1] + 8);
    assert(s2.len() == block_end(s2, bs[bs.len() - 1]));
}

/// A 64-bit read below a truncation point sees the old file.
proof fn lemma_u64_at_take(s: Seq<u8>, t: int, x: int)
    requires
        0 <= x,
        x + 8 <= t,
        t <= s.len(),
    ensures
        u64_at(s.take(t), x) == u64_at(s, x),
{
    assert(s.take(t).subrange(x, x + 8) =~= s.subrange(x, x + 8));
}

/// Law: `dealloc` of any live block but the pinned first one keeps the
/// chain well formed: the two neighbours are patched to point at each
/// other, and freeing the last block truncates the file flush to the
/// previous block's payload.
#[verifier::rlimit(100)]
#[verifier::spinoff_prover]
pub proof fn lemma_dealloc_preserves_chain(s: Seq<u8>, bs: Seq<int>, j: int)
    requires
        chain_ok(s, bs),
        1 <= j < bs.len(),
    ensures
        chain_ok(crate::store::spec_dealloc(s, bs[j]), bs.remove(j)),
{
    let pos = bs[j];
    assert(chain_link_ok(s, bs, j));
    assert(chain_link_ok(s, bs, j - 1));
    lemma_chain_ascending(s, bs, 0, j);
    assert(pos != EMPTY_VALUE as int);
    let prev = bs[j - 1];
    let s2 = crate::store::spec_dealloc(s, pos);
    let bs2 = bs.remove(j);
    assert(bs2.len() == bs.len() - 1);
    assert(forall|m: int| 0 <= m < j ==> bs2[m] == bs[m]);
    assert(forall|m: int| j <= m < bs2.len() ==> bs2[m] == bs[m + 1]);
    lemma_be_round_trip(0);
    if j == bs.len() - 1 {
        // Freeing the last block: truncate to the end of the previous
        // block's payload and clear its next field.
        let trunc = block_end(s, prev);
        let s1 = s.take(trunc);
        assert(trunc <= pos);
        assert(s2 == store_at(s1, prev + 16, u64_to_be(0)));
        lemma_store_u64_round_trip(s1, prev + 16, 0);
        assert(s2.len() == trunc);
        assert forall|m: int| 0 <= m < bs2.len() implies #[trigger] chain_link_ok(s2, bs2, m) by {
            assert(chain_link_ok(s, bs, m));
            if m < j - 1 {
                lemma_chain_ascending(s, bs, m, j - 1);
                lemma_u64_at_take(s, trunc, bs[m]);
                lemma_u64_at_take(s, trunc, bs[m] + 8);
                lemma_u64_at_take(s, trunc, bs[m] + 16);
                lemma_u64_at_frame(s1, prev + 16, u64_to_be(0), bs[m]);
                lemma_u64_at_frame(s1, prev + 16, u64_to_be(0), bs[m] + 8);
                lemma_u64_at_frame(s1, prev + 16, u64_to_be(0), bs[m] + 16);
            } else {
                lemma_u64_at_take(s, trunc, prev);
                lemma_u64_at_take(s, trunc, prev + 8);
                lemma_u64_at_frame(s1, prev + 16, u64_to_be(0), prev);
                lemma_u64_at_frame(s1, prev + 16, u64_to_be(0), prev + 8);
            }
        };
        lemma_u64_at_take(s, trunc, prev + 8);
        lemma_u64_at_frame(s1, prev + 16, u64_to_be(0), prev + 8);
        assert(s2.len() == block_end(s2, bs2[bs2.len() - 1]));
        if j - 1 == 0 {
            assert(u64_at(s2, FIRST_BLOCK as int) == NIL && u64_at(
                s2,
                FIRST_BLOCK as int + 8,
            ) == NODE_SIZE);
        } else {
            lemma_chain_ascending(s, bs, 0, j - 1);
            lemma_u64_at_take(s, trunc, FIRST_BLOCK as int);
            lemma_u64_at_take(s, trunc, FIRST_BLOCK as int + 8);
            lemma_u64_at_frame(s1, prev + 16, u64_to_be(0), FIRST_BLOCK as int);
            lemma_u64_at_frame(s1, prev + 16, u64_to_be(0), FIRST_BLOCK as int + 8);
        }
        assert(chain_ok(s2, bs2));
    } else {
        // Freeing a middle block: the successor's prev and the
        // predecessor's next point at each other afterwards.
        assert(chain_link_ok(s, bs, j + 1));
        let next = bs[j + 1];
        let s1 = store_at(s, next, u64_to_be(prev as u64));
        assert(s2 == store_at(s1, prev + 16, u64_to_be(next as u64)));
        lemma_be_round_trip(prev as u64);
        lemma_be_round_trip(next as u64);
        lemma_store_u64_round_trip(s, next, prev as u64);
        lemma_u64_at_frame(s1, prev + 16, u64_to_be(next as u64), next);
        lemma_store_u64_round_trip(s1, prev + 16, next as u64);
        assert(s1.len() == s.len() && s2.len() == s.len());
        assert forall|m: int| 0 <= m < bs2.len() implies #[trigger] chain_link_ok(s2, bs2, m) by {
            let old_m: int = if m < j {
                m
            } else {
                m + 1
            };
            assert(chain_link_ok(s, bs, old_m));
            let x = bs[old_m];
            if old_m != j - 1 && old_m != j + 1 {
                if old_m < j - 1 {
                    lemma_chain_ascending(s, bs, old_m, j - 1);
                } else {
                    lemma_chain_ascending(s, bs, j + 1, old_m);
                }
                lemma_u64_at_frame(s, next, u64_to_be(prev as u64), x);
                lemma_u64_at_frame(s1, prev + 16, u64_to_be(next as u64), x);
                lemma_u64_at_frame(s, next, u64_to_be(prev as u64), x + 8);
                lemma_u64_at_frame(s1, prev + 16, u64_to_be(next as u64), x + 8);
                lemma_u64_at_frame(s, next, u64_to_be(prev as u64), x + 16);
                lemma_u64_at_frame(s1, prev + 16, u64_to_be(next as u64), x + 16);
            } else if old_m == j - 1 {
                lemma_u64_at_frame(s, next, u64_to_be(prev as u64), prev);
                lemma_u64_at_frame(s1, prev + 16, u64_to_be(next as u64), prev);
                lemma_u64_at_frame(s, next, u64_to_be(prev as u64), prev + 8);
                lemma_u64_at_frame(s1, prev + 16, u64_to_be(next as u64), prev + 8);
            } else {
                lemma_u64_at_frame(s, next, u64_to_be(prev as u64), next + 8);
                lemma_u64_at_frame(s1, prev + 16, u64_to_be(next as u64), next + 8);
                lemma_u64_at_frame(s, next, u64_to_be(prev as u64), next + 16);
                lemma_u64_at_frame(s1, prev + 16, u64_to_be(next as u64), next + 16);
            }
            assert(chain_link_ok(s2, bs2, m));
        };
        let last = bs[bs.len() - 1];
        assert(chain_link_ok(s, bs, bs.len() - 1));
        if j + 1 < bs.len() - 1 {
            lemma_chain_ascending(s, bs, j + 1, bs.len() - 1);
            lemma_u64_at_frame(s, next, u64_to_be(prev as u64), last + 8);
            lemma_u64_at_frame(s1, prev + 16, u64_to_be(next as u64), last + 8);
        } else {
            lemma_u64_at_frame(s, next, u64_to_be(prev as u64), last + 8);
            lemma_u64_at_frame(s1, prev + 16, u64_to_be(next as u64), last + 8);
        }
        assert(s2.len() == block_end(s2, bs2[bs2.len() - 1]));
        if j - 1 > 0 {
            lemma_chain_ascending(s, bs, 0, j - 1);
        }
        lemma_u64_at_frame(s, next, u64_to_be(prev as u64), FIRST_BLOCK as int);
        lemma_u64_at_frame(s1, prev + 16, u64_to_be(next as u64), FIRST_BLOCK as int);
        lemma_u64_at_frame(s, next, u64_to_be(prev as u64), FIRST_BLOCK as int + 8);
        lemma_u64_at_frame(s1, prev + 16, u64_to_be(next as u64), FIRST_BLOCK as int + 8);
        assert(chain_ok(s2, bs2));
    }
}

/// What the built trie holds for other keys: the descent of any key
/// agreeing with the set key's bits follows the built path and continues
/// from the terminal node; any other key's descent either hits a `NIL`
/// pointer — every off-path child of a built node is `NIL` — or ends at
/// an inner built node whose content is `NIL`. Lazily materialized nodes
/// exist only along the one key's path.
#[verifier::rlimit(100)]
#[verifier::spinoff_prover]
proof fn lemma_built_descent_misses(s: Seq<u8>, bs: Seq<int>, key: Seq<u8>, i: int)
    requires
        chain_ok(s, bs),
        gap_free(s, bs),
        0 <= i <= 8 * key.len(),
        u64_at(s, bs[bs.len() - 1] + 8) == 24,
        forall|x: int| bs[bs.len() - 1] + 24 <= x < bs[bs.len() - 1] + 48 ==> s[x] == 0,
        forall|x: int| bs[bs.len() - 1] + 16 <= x < bs[bs.len() - 1] + 24 ==> s[x] == 0,
        s.len() + 48 * (8 * key.len() - i) + 104 <= u64::MAX,
    ensures
        ({
            let node = bs[bs.len() - 1] + 24;
            let r = crate::store::spec_set_descend(s, node, key, i);
            let t = r.0.len() - 24;
            &&& (forall|sl: Seq<u8>, k2: Seq<u8>|
                sl.len() >= t - 24 && sl.subrange(0, t - 24) == r.0.subrange(0, t - 24) && 8
                    * k2.len() >= 8 * key.len() && (forall|j: int|
                    i <= j < 8 * key.len() ==> key_bit(k2, j) == key_bit(key, j))
                    ==> #[trigger] crate::store::spec_descend(sl, node, k2, i)
                    == crate::store::spec_descend(sl, t, k2, 8 * key.len() as int))
            &&& (forall|sl: Seq<u8>, k2: Seq<u8>|
                sl.len() >= t - 24 && sl.subrange(0, t - 24) == r.0.subrange(0, t - 24) && 8
                    * k2.len() >= i && !(8 * k2.len() >= 8 * key.len() && (forall|j: int|
                    i <= j < 8 * key.len() ==> key_bit(k2, j) == key_bit(key, j))) ==> (match #[trigger] crate::store::spec_descend(
                    sl,
                    node,
                    k2,
                    i,
                ) {
                    Option::None => true,
                    Option::Some(n) => n + 24 <= t - 24 && u64_at(sl, n + 16) == 0,
                }))
        }),
    decreases 8 * key.len() - i,
{
    let last = bs[bs.len() - 1];
    let node = last + 24;
    assert(chain_link_ok(s, bs, bs.len() - 1));
    lemma_chain_lower(s, bs, bs.len() - 1);
    assert(block_end(s, last) == s.len());
    assert(node + 24 == s.len());
    crate::store::lemma_be_zero_24();
    lemma_be_round_trip(0);
    assert(s.subrange(node, node + 8) =~= u64_to_be(0));
    assert(s.subrange(node + 8, node + 16) =~= u64_to_be(0));
    assert(s.subrange(node + 16, node + 24) =~= u64_to_be(0));
    assert(u64_at(s, node) == 0 && u64_at(s, node + 8) == 0 && u64_at(s, node + 16) == 0);
    lemma_set_descend_builds(s, bs, key, i);
    let r = crate::store::spec_set_descend(s, node, key, i);
    let t = r.0.len() - 24;
    if i >= 8 * key.len() {
        // The node is the terminal; both clauses are immediate.
        assert(r == (s, Some(node)));
    } else {
        // Rebuild this level's materialization, as the descent made it.
        let bit = key_bit(key, i);
        let a: int = node + (if bit {
            8int
        } else {
            0int
        });
        let a_other: int = node + (if bit {
            0int
        } else {
            8int
        });
        let zeros = crate::store::zero_node();
        lemma_alloc_tight(s, bs, zeros);
        let s1 = alloc_image(s, last, s.len() as int, 0, zeros);
        let blk = s.len() as int;
        let child = blk + 24;
        lemma_alloc_image_written(s, last, blk, 0, zeros);
        let bs1 = bs.push(blk);
        let s2 = store_at(s1, a, u64_to_be(child as u64));
        assert(crate::store::spec_set_descend(s, node, key, i)
            == crate::store::spec_set_descend(s2, child, key, i + 1));
        lemma_store_u64_round_trip(s1, a, child as u64);
        assert(s2.len() == s1.len());
        assert(s1.len() == blk + 48);
        assert(u64_at(s1, last + 8) == 24) by {
            lemma_alloc_image_frame(s, last, blk, 0, zeros, last + 8);
        };
        lemma_payload_write_preserves_chain(s1, bs1, bs1.len() - 2, a, child as u64);
        assert(gap_free(s2, bs1)) by {
            assert forall|j: int| 0 <= j < bs1.len() - 1 implies #[trigger] block_end(s2, bs1[j])
                == bs1[j + 1] by {
                assert(chain_link_ok(s1, bs1, j));
                if j < bs.len() - 1 {
                    lemma_chain_ascending(s1, bs1, j, bs1.len() - 2);
                }
                lemma_u64_at_frame(s1, a, u64_to_be(child as u64), bs1[j] + 8);
                assert(block_end(s2, bs1[j]) == block_end(s1, bs1[j]));
            };
        };
        lemma_u64_at_frame(s1, a, u64_to_be(child as u64), blk + 8);
        assert(u64_at(s2, blk + 8) == 24);
        let h = u64_to_be(last as u64) + u64_to_be(24u64) + u64_to_be(0u64) + zeros;
        assert(forall|x: int| child <= x < child + 24 ==> s2[x] == 0) by {
            assert forall|x: int| child <= x < child + 24 implies s2[x] == 0 by {
                assert(s2[x] == s1[x]);
                assert(s1[x] == h[x - blk]);
                assert(h[x - blk] == zeros[x - child]);
            };
        };
        assert(forall|x: int| blk + 16 <= x < blk + 24 ==> s2[x] == 0) by {
            assert forall|x: int| blk + 16 <= x < blk + 24 implies s2[x] == 0 by {
                assert(s2[x] == s1[x]);
                assert(s1[x] == h[x - blk]);
                assert(h[x - blk] == u64_to_be(0)[x - blk - 16]);
            };
        };
        lemma_built_descent_misses(s2, bs1, key, i + 1);
        assert(crate::store::spec_set_descend(s2, child, key, i + 1) == r);
        lemma_set_descend_builds(s2, bs1, key, i + 1);
        // The final file keeps this level's pointers: the taken child holds
        // the next node, the other child and the content stay NIL.
        assert(u64_at(r.0, a) == child as u64) by {
            lemma_agree_u64(r.0, s2, s2.len() as int - 32, a);
        };
        assert(u64_at(s2, a_other) == 0 && u64_at(s2, node + 16) == 0) by {
            lemma_u64_at_frame(s1, a, u64_to_be(child as u64), a_other);
            lemma_u64_at_frame(s1, a, u64_to_be(child as u64), node + 16);
            lemma_alloc_image_frame(s, last, blk, 0, zeros, a_other);
            lemma_alloc_image_frame(s, last, blk, 0, zeros, node + 16);
        };
        assert(u64_at(r.0, a_other) == 0) by {
            lemma_agree_u64(r.0, s2, s2.len() as int - 32, a_other);
        };
        assert(u64_at(r.0, node + 16) == 0) by {
            lemma_agree_u64(r.0, s2, s2.len() as int - 32, node + 16);
        };
        assert(node + 24 <= t - 24) by {
            assert(r.0.len() == s2.len() + 48 * (8 * key.len() - i - 1));
        };
        // Both clauses, by one step of the descent.
        assert forall|sl: Seq<u8>, k2: Seq<u8>|
            sl.len() >= t - 24 && sl.subrange(0, t - 24) == r.0.subrange(0, t - 24) && 8
                * k2.len() >= 8 * key.len() && (forall|j: int|
                i <= j < 8 * key.len() ==> key_bit(k2, j) == key_bit(key, j))
                implies #[trigger] crate::store::spec_descend(sl, node, k2, i)
                == crate::store::spec_descend(sl, t, k2, 8 * key.len() as int) by {
            assert(key_bit(k2, i) == bit);
            assert(u64_at(sl, a) == child as u64) by {
                lemma_agree_u64(sl, r.0, t - 24, a);
            };
            assert(crate::store::spec_descend(sl, node, k2, i)
                == crate::store::spec_descend(sl, child, k2, i + 1));
        };
        assert forall|sl: Seq<u8>, k2: Seq<u8>|
            sl.len() >= t - 24 && sl.subrange(0, t - 24) == r.0.subrange(0, t - 24) && 8
                * k2.len() >= i && !(8 * k2.len() >= 8 * key.len() && (forall|j: int|
                i <= j < 8 * key.len() ==> key_bit(k2, j) == key_bit(key, j))) implies (match #[trigger] crate::store::spec_descend(
                sl,
                node,
                k2,
                i,
            ) {
                Option::None => true,
                Option::Some(n) => n + 24 <= t - 24 && u64_at(sl, n + 16) == 0,
            }) by {
            if 8 * k2.len() == i {
                // The other key ends at this inner node: content NIL.
                assert(crate::store::spec_descend(sl, node, k2, i) == Some(node));
                lemma_agree_u64(sl, r.0, t - 24, node + 16);
            } else if key_bit(k2, i) != bit {
                // The other key branches off: that child is NIL.
                lemma_agree_u64(sl, r.0, t - 24, a_other);
                assert(crate::store::spec_descend(sl, node, k2, i) is None);
            } else {
                // Same branch so far: the obstruction lies deeper.
                assert(u64_at(sl, a) == child as u64) by {
                    lemma_agree_u64(sl, r.0, t - 24, a);
                };
                assert(crate::store::spec_descend(sl, node, k2, i)
                    == crate::store::spec_descend(sl, child, k2, i + 1));
                assert(!(8 * k2.len() >= 8 * key.len() && (forall|j: int|
                    i + 1 <= j < 8 * key.len() ==> key_bit(k2, j) == key_bit(key, j)))) by {
                    if 8 * k2.len() >= 8 * key.len() && (forall|j: int|
                        i + 1 <= j < 8 * key.len() ==> key_bit(k2, j) == key_bit(key, j)) {
                        assert(forall|j: int|
                            i <= j < 8 * key.len() ==> key_bit(k2, j) == key_bit(key, j));
                    }
                };
            }
        };
    }
}

/// Two files agreeing below a bound hold the same 64-bit value at any
/// offset whose eight bytes lie below it.
proof fn lemma_agree_u64(sl: Seq<u8>, r0: Seq<u8>, bound: int, x: int)
    requires
        0 <= x,
        x + 8 <= bound,
        bound <= sl.len(),
        bound <= r0.len(),
        sl.subrange(0, bound) == r0.subrange(0, bound),
    ensures
        u64_at(sl, x) == u64_at(r0, x),
{
    assert forall|k: int| 0 <= k < 8 implies #[trigger] sl.subrange(x, x + 8)[k] == r0.subrange(
        x,
        x + 8,
    )[k] by {
        let y = x + k;
        assert(sl.subrange(0, bound)[y] == r0.subrange(0, bound)[y]);
        assert(sl.subrange(0, bound)[y] == sl[y]);
        assert(r0.subrange(0, bound)[y] == r0[y]);
        assert(sl.subrange(x, x + 8)[k] == sl[y]);
        assert(r0.subrange(x, x + 8)[k] == r0[y]);
    };
    assert(sl.subrange(x, x + 8) =~= r0.subrange(x, x + 8));
}

/// Law: a single `set` touches no other key — on a fresh store, after
/// `set(key, value)`, a `get` of any other key still finds nothing, the
/// empty key and keys sharing any prefix included. Every `NIL` child
/// pointer left in the trie truly means that no key with that prefix
/// exists.
#[verifier::rlimit(100)]
#[verifier::spinoff_prover]
pub proof fn lemma_fresh_other_keys_miss(key: Seq<u8>, key2: Seq<u8>, value: Seq<u8>)
    requires
        48 * (8 * key.len()) + value.len() + 200 <= u64::MAX,
        key2 != key,
    ensures
        crate::store::spec_get(
            crate::store::spec_set(fresh_image(), key, value).0,
            key2,
        ) is None,
{
    let s = fresh_image();
    let bs = seq![FIRST_BLOCK as int];
    lemma_fresh_store_chain_ok();
    lemma_be_round_trip(0);
    lemma_be_round_trip(24);
    assert(s.len() == 55);
    assert(s.subrange(15, 23) =~= u64_to_be(24));
    assert(u64_at(s, 15) == 24);
    assert(gap_free(s, bs));
    crate::store::lemma_be_zero_24();
    assert forall|x: int| 31 <= x < 55 implies s[x] == 0 by {
        if x < 39 {
            assert(s[x] == u64_to_be(NIL)[x - 31]);
        } else if x < 47 {
            assert(s[x] == u64_to_be(NIL)[x - 39]);
        } else {
            assert(s[x] == u64_to_be(NIL)[x - 47]);
        }
    };
    assert forall|x: int| 23 <= x < 31 implies s[x] == 0 by {
        assert(s[x] == u64_to_be(NIL)[x - 23]);
    };
    lemma_set_descend_builds(s, bs, key, 0);
    lemma_built_descent_misses(s, bs, key, 0);
    let rd = crate::store::spec_set_descend(s, crate::store::ROOT_NODE as int, key, 0);
    let cap_s = rd.0;
    let t = cap_s.len() - 24;
    assert(u64_at(cap_s, t + 16) == 0);
    let s4 = built_with(cap_s, value);
    if value.len() == 0 {
        assert(crate::store::spec_alloc(cap_s, value) == Some((cap_s, EMPTY_VALUE)));
        assert(crate::store::spec_set(s, key, value) == (s4, Option::<Seq<u8>>::None));
    } else {
        let bs2 = choose|bs2: Seq<int>|
            #[trigger] chain_ok(cap_s, bs2) && gap_free(cap_s, bs2) && bs2[bs2.len() - 1] == t
                - 24;
        lemma_alloc_tight(cap_s, bs2, value);
        assert(crate::store::spec_set(s, key, value) == (s4, Option::<Seq<u8>>::None));
    }
    assert(s4.subrange(0, t - 24) =~= cap_s.subrange(0, t - 24)) by {
        assert forall|x: int| 0 <= x < t - 24 implies #[trigger] s4.subrange(0, t - 24)[x]
            == cap_s.subrange(0, t - 24)[x] by {
            if value.len() != 0 {
                let s3 = alloc_image(cap_s, t - 24, cap_s.len() as int, 0, value);
                assert(s4[x] == s3[x]);
                assert(s3[x] == cap_s[x]);
            }
        };
    };
    assert(s4.len() >= t - 24);
    if 8 * key2.len() >= 8 * key.len() && (forall|j: int|
        0 <= j < 8 * key.len() ==> key_bit(key2, j) == key_bit(key, j)) {
        // Same bits all the way to the set key's depth: the other key must
        // be strictly longer, and the walk past the terminal node hits its
        // NIL children.
        if key2.len() == key.len() {
            crate::bitpath::lemma_path_round_trip(key);
            crate::bitpath::lemma_path_round_trip(key2);
            assert(crate::bitpath::bits_of_key(key) =~= crate::bitpath::bits_of_key(key2));
            assert(false);
        }
        assert(crate::store::spec_descend(s4, crate::store::ROOT_NODE as int, key2, 0)
            == crate::store::spec_descend(s4, t, key2, 8 * key.len() as int));
        // Both children of the terminal node are NIL in the final file.
        assert(u64_at(s4, t) == 0 && u64_at(s4, t + 8) == 0) by {
            if value.len() == 0 {
                lemma_u64_at_frame(cap_s, t + 16, u64_to_be(EMPTY_VALUE), t);
                lemma_u64_at_frame(cap_s, t + 16, u64_to_be(EMPTY_VALUE), t + 8);
            } else {
                let c = cap_s.len() as int;
                let h = u64_to_be((t - 24) as u64) + u64_to_be(value.len() as u64) + u64_to_be(
                    0u64,
                ) + value;
                let s3 = alloc_image(cap_s, t - 24, c, 0, value);
                lemma_alloc_image_frame(cap_s, t - 24, c, 0, value, t);
                lemma_alloc_image_frame(cap_s, t - 24, c, 0, value, t + 8);
                lemma_u64_at_frame(s3, t + 16, u64_to_be(c as u64), t);
                lemma_u64_at_frame(s3, t + 16, u64_to_be(c as u64), t + 8);
            }
        };
        assert(crate::store::spec_descend(s4, t, key2, 8 * key.len() as int) is None);
    } else {
        // The other key leaves the built path, or ends above the terminal:
        // it reaches a NIL pointer or a node without content.
        match crate::store::spec_descend(s4, crate::store::ROOT_NODE as int, key2, 0) {
            Option::None => {},
            Option::Some(n) => {
                assert(n + 24 <= t - 24 && u64_at(s4, n + 16) == 0);
            },
        }
    }
}

/// A descent that finds every child pointer present materializes nothing:
/// the `set` walk then reads exactly as the `get` walk does.
proof fn lemma_descend_no_materialize(s: Seq<u8>, node: int, key: Seq<u8>, i: int)
    requires
        crate::store::spec_descend(s, node, key, i) is Some,
    ensures
        crate::store::spec_set_descend(s, node, key, i) == (
            s,
            crate::store::spec_descend(s, node, key, i),
        ),
    decreases 8 * key.len() - i,
{
    if i < 8 * key.len() {
        let a = node + (if crate::bitpath::key_bit(key, i) {
            8int
        } else {
            0int
        });
        let c = u64_at(s, a) as int;
        lemma_descend_no_materialize(s, c, key, i + 1);
    }
}

/// Law of idempotence: on a fresh store, setting the same key to the same
/// value twice returns the value as the previous one the second time and
/// leaves the file byte for byte as after the first call — in particular
/// not a byte longer: first-fit refills the freed content block's space
/// exactly.
#[verifier::rlimit(100)]
#[verifier::spinoff_prover]
pub proof fn lemma_fresh_set_idempotent(key: Seq<u8>, value: Seq<u8>)
    requires
        48 * (8 * key.len()) + value.len() + 200 <= u64::MAX,
    ensures
        ({
            let first = crate::store::spec_set(fresh_image(), key, value);
            let second = crate::store::spec_set(first.0, key, value);
            &&& second.0 == first.0
            &&& second.1 == Some(value)
        }),
{
    let s = fresh_image();
    let bs = seq![FIRST_BLOCK as int];
    lemma_fresh_store_chain_ok();
    lemma_be_round_trip(0);
    lemma_be_round_trip(24);
    assert(s.len() == 55);
    assert(s.subrange(15, 23) =~= u64_to_be(24));
    assert(u64_at(s, 15) == 24);
    assert(gap_free(s, bs));
    crate::store::lemma_be_zero_24();
    assert forall|x: int| 31 <= x < 55 implies s[x] == 0 by {
        if x < 39 {
            assert(s[x] == u64_to_be(NIL)[x - 31]);
        } else if x < 47 {
            assert(s[x] == u64_to_be(NIL)[x - 39]);
        } else {
            assert(s[x] == u64_to_be(NIL)[x - 47]);
        }
    };
    assert forall|x: int| 23 <= x < 31 implies s[x] == 0 by {
        assert(s[x] == u64_to_be(NIL)[x - 23]);
    };
    lemma_set_descend_builds(s, bs, key, 0);
    let rd = crate::store::spec_set_descend(s, crate::store::ROOT_NODE as int, key, 0);
    let cap_s = rd.0;
    let t = cap_s.len() - 24;
    assert(u64_at(cap_s, t + 16) == 0);
    let s4 = built_with(cap_s, value);
    // The first set produces the built file.
    if value.len() == 0 {
        assert(crate::store::spec_alloc(cap_s, value) == Some((cap_s, EMPTY_VALUE)));
        assert(crate::store::spec_set(s, key, value) == (s4, Option::<Seq<u8>>::None));
    } else {
        let bs2 = choose|bs2: Seq<int>|
            #[trigger] chain_ok(cap_s, bs2) && gap_free(cap_s, bs2) && bs2[bs2.len() - 1] == t
                - 24;
        lemma_alloc_tight(cap_s, bs2, value);
        assert(crate::store::spec_set(s, key, value) == (s4, Option::<Seq<u8>>::None));
    }
    // The second descent replays without materializing.
    assert(s4.subrange(0, t - 24) =~= cap_s.subrange(0, t - 24)) by {
        assert forall|x: int| 0 <= x < t - 24 implies #[trigger] s4.subrange(0, t - 24)[x]
            == cap_s.subrange(0, t - 24)[x] by {
            if value.len() != 0 {
                let s3 = alloc_image(cap_s, t - 24, cap_s.len() as int, 0, value);
                assert(s4[x] == s3[x]);
                assert(s3[x] == cap_s[x]);
            }
        };
    };
    assert(crate::store::spec_descend(s4, crate::store::ROOT_NODE as int, key, 0) == Some(t));
    lemma_descend_no_materialize(s4, crate::store::ROOT_NODE as int, key, 0);
    if value.len() == 0 {
        // The sentinel is freed as a no-op and written again.
        lemma_store_u64_round_trip(cap_s, t + 16, EMPTY_VALUE);
        assert(u64_at(s4, t + 16) == EMPTY_VALUE);
        assert(crate::store::spec_read_block(s4, 1) == Some(value));
        assert(crate::store::spec_dealloc(s4, 1) == s4);
        assert(crate::store::spec_alloc(s4, value) == Some((s4, EMPTY_VALUE)));
        let s4b = store_at(s4, t + 16, u64_to_be(EMPTY_VALUE));
        assert(crate::store::spec_set(s4, key, value) == (s4b, Some(value)));
        assert(s4b =~= s4);
    } else {
        let c = cap_s.len() as int;
        let s3 = alloc_image(cap_s, t - 24, c, 0, value);
        assert(s4 == store_at(s3, t + 16, u64_to_be(c as u64)));
        lemma_alloc_image_written(cap_s, t - 24, c, 0, value);
        lemma_store_u64_round_trip(s3, t + 16, c as u64);
        assert(s4.len() == c + 24 + value.len());
        assert(u64_at(s4, t + 16) == c as u64);
        // The old content block reads back as the value and is freed.
        lemma_u64_at_frame(s3, t + 16, u64_to_be(c as u64), c + 8);
        assert(u64_at(s4, c + 8) as int == value.len());
        let h = u64_to_be((t - 24) as u64) + u64_to_be(value.len() as u64) + u64_to_be(0u64)
            + value;
        assert(s4.subrange(c + 24, c + 24 + value.len() as int) =~= value) by {
            assert forall|x: int| c + 24 <= x < c + 24 + value.len() implies #[trigger] s4[x]
                == value[x - c - 24] by {
                assert(s4[x] == s3[x]);
                assert(s3[x] == h[x - c]);
            };
        };
        assert(crate::store::spec_read_block(s4, c) == Some(value));
        lemma_u64_at_frame(s3, t + 16, u64_to_be(c as u64), c);
        lemma_u64_at_frame(s3, t + 16, u64_to_be(c as u64), c + 16);
        assert(u64_at(s4, c) as int == t - 24 && u64_at(s4, c + 16) == 0);
        lemma_u64_at_frame(cap_s, c, h, t - 24 + 8);
        lemma_u64_at_frame(store_at(cap_s, c, h), t - 8, u64_to_be(c as u64), t - 24 + 8);
        lemma_u64_at_frame(s3, t + 16, u64_to_be(c as u64), t - 24 + 8);
        assert(u64_at(s4, t - 24 + 8) == 24);
        let d2 = store_at(s4.take(c), t - 8, u64_to_be(0u64));
        assert(crate::store::spec_dealloc(s4, c) == d2);
        // Freed, the file is the built one with only the dangling pointer.
        let e = store_at(cap_s, t + 16, u64_to_be(c as u64));
        assert(d2 =~= e) by {
            assert forall|x: int| 0 <= x < c implies #[trigger] d2[x] == e[x] by {
                if !(t - 8 <= x < t) && !(t + 16 <= x < t + 24) {
                    assert(d2[x] == s4[x]);
                    assert(s4[x] == s3[x]);
                    assert(s3[x] == cap_s[x]);
                    assert(e[x] == cap_s[x]);
                }
            };
        };
        // First-fit places the value right back where it was.
        let bs2 = choose|bs2: Seq<int>|
            #[trigger] chain_ok(cap_s, bs2) && gap_free(cap_s, bs2) && bs2[bs2.len() - 1] == t
                - 24;
        assert(u64_at(cap_s, t - 24 + 8) == 24);
        lemma_payload_write_preserves_chain(cap_s, bs2, bs2.len() - 1, t + 16, c as u64);
        assert(chain_ok(e, bs2));
        assert(gap_free(e, bs2)) by {
            assert forall|j: int| 0 <= j < bs2.len() - 1 implies #[trigger] block_end(e, bs2[j])
                == bs2[j + 1] by {
                assert(chain_link_ok(cap_s, bs2, j));
                lemma_chain_ascending(cap_s, bs2, j, bs2.len() - 1);
                lemma_u64_at_frame(cap_s, t + 16, u64_to_be(c as u64), bs2[j] + 8);
                assert(block_end(e, bs2[j]) == block_end(cap_s, bs2[j]));
            };
        };
        lemma_alloc_tight(e, bs2, value);
        assert(crate::store::spec_alloc(d2, value) == Some(
            (alloc_image(e, t - 24, c, 0, value), c as u64),
        ));
        let s3b = alloc_image(e, t - 24, c, 0, value);
        let s4b = store_at(s3b, t + 16, u64_to_be(c as u64));
        assert(crate::store::spec_set(s4, key, value) == (s4b, Some(value)));
        // And the result is byte for byte the file after the first set.
        lemma_alloc_image_written(e, t - 24, c, 0, value);
        assert(s4b =~= s4) by {
            assert(s4b.len() == c + 24 + value.len());
            assert forall|x: int| 0 <= x < s4b.len() implies #[trigger] s4b[x] == s4[x] by {
                if t + 16 <= x < t + 24 {
                    assert(s4b[x] == u64_to_be(c as u64)[x - t - 16]);
                    assert(s4[x] == u64_to_be(c as u64)[x - t - 16]);
                } else {
                    assert(s4b[x] == s3b[x]);
                    assert(s4[x] == s3[x]);
                    if c <= x {
                        assert(s3b[x] == h[x - c]);
                        assert(s3[x] == h[x - c]);
                    } else if t - 8 <= x < t {
                        assert(s3b[x] == u64_to_be(c as u64)[x - (t - 8)]);
                        assert(s3[x] == u64_to_be(c as u64)[x - (t - 8)]);
                    } else {
                        assert(s3b[x] == e[x]);
                        assert(e[x] == cap_s[x]);
                        assert(s3[x] == cap_s[x]);
                    }
                }
            };
        };
    }
}

/// Law: on a fresh store every lookup misses, whatever the key — each
/// `NIL` child pointer of the root truly means that no key with that
/// prefix exists.
pub proof fn lemma_fresh_get_misses(key: Seq<u8>)
    ensures
        crate::store::spec_get(fresh_image(), key) is None,
{
    let s = fresh_image();
    lemma_be_round_trip(0);
    assert(s.len() == 55);
    assert(s.subrange(31, 39) =~= u64_to_be(0));
    assert(s.subrange(39, 47) =~= u64_to_be(0));
    assert(s.subrange(47, 55) =~= u64_to_be(0));
    assert(u64_at(s, 31) == 0 && u64_at(s, 39) == 0 && u64_at(s, 47) == 0);
    if key.len() == 0 {
        assert(crate::store::spec_descend(s, 31, key, 0) == Some(31int));
    } else {
        assert(crate::store::spec_descend(s, 31, key, 0) is None);
    }
}

/// Law of listing completeness for a store holding exactly the empty key:
/// the walk yields that one entry — the key rebuilt from its (empty) bit
/// path, the value read from its block — and then ends.
#[verifier::rlimit(100)]
#[verifier::spinoff_prover]
pub proof fn lemma_single_entry_listing(value: Seq<u8>)
    requires
        0 < value.len(),
        value.len() + 79 <= u64::MAX,
    ensures
        ({
            let s1 = crate::store::spec_set(fresh_image(), Seq::<u8>::empty(), value).0;
            let start = seq![(crate::store::ROOT_NODE, Seq::<bool>::empty())];
            let first = crate::listing::spec_lister_next(s1, start, s1.len() as nat);
            &&& first.2 == Some((Seq::<u8>::empty(), value))
            &&& crate::listing::spec_lister_next(s1, first.0, first.1).2 is None
            &&& first.0.len() == 0
        }),
{
    let s = fresh_image();
    let empty_key = Seq::<u8>::empty();
    lemma_be_round_trip(0);
    lemma_be_round_trip(24);
    assert(s.len() == 55);
    assert(s.subrange(15, 23) =~= u64_to_be(24));
    assert(s.subrange(23, 31) =~= u64_to_be(0));
    assert(s.subrange(31, 39) =~= u64_to_be(0));
    assert(s.subrange(39, 47) =~= u64_to_be(0));
    assert(s.subrange(47, 55) =~= u64_to_be(0));
    assert(u64_at(s, 15) == 24 && u64_at(s, 23) == 0 && u64_at(s, 31) == 0 && u64_at(s, 39) == 0
        && u64_at(s, 47) == 0);
    let h = u64_to_be(7u64) + u64_to_be(value.len() as u64) + u64_to_be(0u64) + value;
    let s3 = alloc_image(s, 7, 55, 0, value);
    assert(crate::store::spec_alloc_from(s, 7, value, 56) == Some((s3, 55u64)));
    lemma_alloc_image_written(s, 7, 55, 0, value);
    let s1 = store_at(s3, 47, u64_to_be(55u64));
    assert(crate::store::spec_set_descend(s, 31, empty_key, 0) == (s, Some(31int)));
    assert(crate::store::spec_set(s, empty_key, value) == (s1, Option::<Seq<u8>>::None));
    lemma_store_u64_round_trip(s3, 47, 55u64);
    assert(s1.len() == 79 + value.len());
    // The root node as the walk reads it: no children, content at 55.
    lemma_u64_at_frame(s, 55, h, 31);
    lemma_u64_at_frame(s, 55, h, 39);
    lemma_alloc_image_frame(s, 7, 55, 0, value, 31);
    lemma_alloc_image_frame(s, 7, 55, 0, value, 39);
    lemma_u64_at_frame(s3, 47, u64_to_be(55u64), 31);
    lemma_u64_at_frame(s3, 47, u64_to_be(55u64), 39);
    assert(u64_at(s1, 31) == 0 && u64_at(s1, 39) == 0);
    assert(u64_at(s1, 47) == 55);
    // Its content block reads back as the value.
    lemma_u64_at_frame(s3, 47, u64_to_be(55u64), 63);
    assert(u64_at(s1, 63) as int == value.len());
    assert(s3.subrange(79, 79 + value.len() as int) =~= value);
    assert(s1.subrange(79, 79 + value.len() as int) =~= value);
    assert(crate::store::spec_read_block(s1, 55) == Some(value));
    // One step of the walk yields the entry; the next ends it.
    let start = seq![(crate::store::ROOT_NODE, Seq::<bool>::empty())];
    assert(start.last() == (crate::store::ROOT_NODE, Seq::<bool>::empty()));
    assert(start.drop_last() =~= Seq::<(u64, Seq<bool>)>::empty());
    assert(crate::bitpath::bytes_of_path(Seq::<bool>::empty()) =~= Seq::<u8>::empty());
    let first = crate::listing::spec_lister_next(s1, start, s1.len() as nat);
    assert(first.2 == Some((Seq::<u8>::empty(), value)) && first.0.len() == 0);
}

/// A freshly initialized store satisfies the chain laws: its one live
/// block is the pinned block, `prev = NIL`, `length = 24`, `next = NIL`,
/// and the file ends flush with its payload — the root node.
pub proof fn lemma_fresh_store_chain_ok()
    ensures
        chain_ok(fresh_image(), seq![FIRST_BLOCK as int]),
{
    let s = fresh_image();
    let bs = seq![FIRST_BLOCK as int];
    crate::codec::lemma_be_round_trip(0);
    crate::codec::lemma_be_round_trip(24);
    assert(s.len() == 55);
    assert(s.subrange(7, 15) =~= u64_to_be(0));
    assert(s.subrange(15, 23) =~= u64_to_be(24));
    assert(s.subrange(23, 31) =~= u64_to_be(0));
    assert(u64_at(s, 7) == 0);
    assert(u64_at(s, 15) == 24);
    assert(u64_at(s, 23) == 0);
    assert(chain_link_ok(s, bs, 0));
    assert(block_end(s, 7) == 55);
}

} // verus!
