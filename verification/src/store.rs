//! The key-value store proper: one byte file holding a bitwise binary trie
//! whose nodes and values live inside blocks of an in-file first-fit
//! allocator.
//!
//! Every operation is specified as a function of the file contents alone:
//! the `spec_*` functions below say, byte for byte, what each operation
//! reads and how it rewrites the file, and the executable methods are
//! verified to match them exactly.

use vstd::prelude::*;
use vstd::pervasive::unreached;
use crate::codec::{u64_at, u64_to_be, store_at, u64_to_be_vec, u64_from_be_vec};
use crate::file::ASSFile;
use crate::bitpath::{key_bit, byte_bit_at};

verus! {

/// Offset sentinel: "does not exist".
pub const NIL: u64 = 0;

/// Block-position sentinel: the empty byte string stored as a value,
/// without a real block. It lies inside the file header and is never
/// dereferenced.
pub const EMPTY_VALUE: u64 = 1;

/// Length of the magic header `"ASS v1\0"`, and so the address of the
/// pinned first block that immediately follows it.
pub const FIRST_BLOCK: u64 = 7;

/// A block is a 24-byte header — `prev`, `length`, `next`, each a 64-bit
/// big-endian offset — followed by `length` payload bytes.
pub const BLOCK_HEADER_SIZE: u64 = 24;

/// A trie node is three 64-bit fields: `false_child`, `true_child`,
/// `content`.
pub const NODE_SIZE: u64 = 24;

/// Address of the root trie node: the payload of the pinned first block.
pub const ROOT_NODE: u64 = 31;

/// The magic header bytes `"ASS v1\0"`.
pub open spec fn magic() -> Seq<u8> {
    seq![65u8, 83u8, 83u8, 32u8, 118u8, 49u8, 0u8]
}

/// The image of a freshly initialized store: the magic header, the pinned
/// first block (`prev = NIL`, `length = 24`, `next = NIL`) and its payload,
/// the root node with all three fields `NIL`.
pub open spec fn fresh_image() -> Seq<u8> {
    magic() + u64_to_be(NIL) + u64_to_be(NODE_SIZE as u64) + u64_to_be(NIL) + u64_to_be(NIL)
        + u64_to_be(NIL) + u64_to_be(NIL)
}

/// Whether eight bytes can be read at offset `a` of file `s`.
pub open spec fn readable_u64(s: Seq<u8>, a: int) -> bool {
    0 <= a && a + 8 <= s.len()
}

/// What reading the block at `pos` yields: the empty bytes for the
/// `EMPTY_VALUE` sentinel, the `length`-byte payload of a block whose
/// header and payload lie inside the file, and nothing otherwise.
pub open spec fn spec_read_block(s: Seq<u8>, pos: int) -> Option<Seq<u8>> {
    if pos == EMPTY_VALUE as int {
        Some(Seq::<u8>::empty())
    } else if !(0 <= pos && pos + 24 <= s.len()) {
        None
    } else {
        let len = u64_at(s, pos + 8) as int;
        if pos + 24 + len <= s.len() {
            Some(s.subrange(pos + 24, pos + 24 + len))
        } else {
            None
        }
    }
}

/// The file after a new block with payload `data` is spliced into the live
/// chain right after block `b`: the block is written at `data_end` (the end
/// of `b`'s payload) with header `prev = b`, `length = data.len()`,
/// `next = next`; then `b`'s `next` field is patched, and, when the new
/// block is not last, the old successor's `prev` field.
pub open spec fn alloc_image(s: Seq<u8>, b: int, data_end: int, next: int, data: Seq<u8>) -> Seq<
    u8,
> {
    let s1 = store_at(
        s,
        data_end,
        u64_to_be(b as u64) + u64_to_be(data.len() as u64) + u64_to_be(next as u64) + data,
    );
    let s2 = store_at(s1, b + 16, u64_to_be(data_end as u64));
    if next != 0 {
        store_at(s2, next, u64_to_be(data_end as u64))
    } else {
        s2
    }
}

/// First-fit placement, walking the live chain from block `b`: append after
/// the last block, or splice into the first gap that can hold the new
/// block's header and payload. Yields the rewritten file and the new
/// block's address, or nothing on a file whose chain is unreadable, does
/// not ascend, or runs past the limit of 64-bit offsets (such a file never
/// arises from the operations of this crate; nothing is then written).
pub open spec fn spec_alloc_from(s: Seq<u8>, b: int, data: Seq<u8>, fuel: nat) -> Option<
    (Seq<u8>, u64),
>
    decreases fuel,
{
    if fuel == 0 {
        None
    } else if !(0 <= b && b + 24 <= s.len()) {
        None
    } else {
        let len_b = u64_at(s, b + 8) as int;
        let next = u64_at(s, b + 16) as int;
        let data_end = b + 24 + len_b;
        if data_end > u64::MAX {
            None
        } else if next != 0 && data_end + 24 + data.len() <= next {
            if next + 8 > u64::MAX {
                None
            } else {
                Some((alloc_image(s, b, data_end, next, data), data_end as u64))
            }
        } else if next != 0 {
            if next <= b {
                None
            } else {
                spec_alloc_from(s, next, data, (fuel - 1) as nat)
            }
        } else {
            if data_end + 24 + data.len() > u64::MAX {
                None
            } else {
                Some((alloc_image(s, b, data_end, 0, data), data_end as u64))
            }
        }
    }
}

/// What `alloc` does to the file: the empty payload is represented by the
/// `EMPTY_VALUE` sentinel without touching the file; otherwise first-fit
/// placement from the pinned first block.
pub open spec fn spec_alloc(s: Seq<u8>, data: Seq<u8>) -> Option<(Seq<u8>, u64)> {
    if data.len() == 0 {
        Some((s, EMPTY_VALUE))
    } else if data.len() + 24 > u64::MAX {
        None
    } else {
        spec_alloc_from(s, FIRST_BLOCK as int, data, (s.len() + 1) as nat)
    }
}

/// What `dealloc` does to the file. Freeing the last block of the chain
/// truncates the file to the end of the previous block's payload and
/// clears that block's `next` field; freeing a middle block patches the
/// two neighbours to point at each other. The `EMPTY_VALUE` sentinel, and
/// any block whose neighbourhood cannot be read within 64-bit offsets,
/// leaves the file unchanged.
pub open spec fn spec_dealloc(s: Seq<u8>, pos: int) -> Seq<u8> {
    if pos == EMPTY_VALUE as int {
        s
    } else if !(0 <= pos && pos + 24 <= s.len()) {
        s
    } else {
        let prev = u64_at(s, pos) as int;
        let next = u64_at(s, pos + 16) as int;
        if next == 0 {
            if prev + 24 > u64::MAX || prev + 16 > s.len() {
                s
            } else {
                let prev_len = u64_at(s, prev + 8) as int;
                let trunc = prev + 24 + prev_len;
                if trunc > u64::MAX {
                    s
                } else {
                    let s1 = if trunc <= s.len() {
                        s.take(trunc)
                    } else {
                        s
                    };
                    store_at(s1, prev + 16, u64_to_be(next as u64))
                }
            }
        } else {
            if next + 8 > u64::MAX || prev + 24 > u64::MAX {
                s
            } else {
                let s1 = store_at(s, next, u64_to_be(prev as u64));
                store_at(s1, prev + 16, u64_to_be(next as u64))
            }
        }
    }
}

/// The trie node reached from `node` by following bits `i`, `i + 1`, … of
/// `key`: each bit selects the `false_child` or `true_child` field of the
/// current node, and a `NIL` pointer or an unreadable one ends the descent
/// with nothing.
pub open spec fn spec_descend(s: Seq<u8>, node: int, key: Seq<u8>, i: int) -> Option<int>
    recommends
        0 <= i <= 8 * key.len(),
    decreases 8 * key.len() - i,
{
    if i >= 8 * key.len() {
        Some(node)
    } else {
        let a = node + (if key_bit(key, i) {
            8int
        } else {
            0int
        });
        if !readable_u64(s, a) {
            None
        } else {
            let c = u64_at(s, a) as int;
            if c == 0 {
                None
            } else {
                spec_descend(s, c, key, i + 1)
            }
        }
    }
}

/// What `get` returns: the payload of the content block of the node
/// reached by the key's bits, the empty bytes for the `EMPTY_VALUE`
/// sentinel, and nothing when the descent ends at a `NIL` pointer, the
/// terminal node holds no content, or the file is unreadable along the
/// way.
pub open spec fn spec_get(s: Seq<u8>, key: Seq<u8>) -> Option<Seq<u8>> {
    match spec_descend(s, ROOT_NODE as int, key, 0) {
        None => None,
        Some(node) => {
            if !readable_u64(s, node + 16) {
                None
            } else {
                let c = u64_at(s, node + 16) as int;
                if c == 0 {
                    None
                } else {
                    spec_read_block(s, c)
                }
            }
        },
    }
}

/// A fresh trie node: 24 zero bytes, all three fields `NIL`.
pub open spec fn zero_node() -> Seq<u8> {
    Seq::new(24, |i: int| 0u8)
}

/// The descent of `set`: like `spec_descend`, but a `NIL` child pointer
/// does not end the walk — a fresh all-`NIL` node is allocated and the
/// parent's pointer patched to the new node's address before the walk goes
/// on. Yields the file after all materializations and the terminal node,
/// or no node when the file is unreadable along the way (the file then
/// keeps the materializations made so far).
pub open spec fn spec_set_descend(s: Seq<u8>, node: int, key: Seq<u8>, i: int) -> (Seq<u8>, Option<
    int,
>)
    recommends
        0 <= i <= 8 * key.len(),
    decreases 8 * key.len() - i,
{
    if i >= 8 * key.len() {
        (s, Some(node))
    } else {
        let a = node + (if key_bit(key, i) {
            8int
        } else {
            0int
        });
        if !readable_u64(s, a) {
            (s, None)
        } else {
            let c = u64_at(s, a) as int;
            if c != 0 {
                spec_set_descend(s, c, key, i + 1)
            } else {
                match spec_alloc(s, zero_node()) {
                    None => (s, None),
                    Some((s1, blk)) => {
                        let child = blk + 24;
                        let s2 = store_at(s1, a, u64_to_be(child as u64));
                        spec_set_descend(s2, child, key, i + 1)
                    },
                }
            }
        }
    }
}

/// What `set` does to the file and returns: descend with materialization;
/// at the terminal node read the old content pointer, remember and free
/// the old content block if there was one, allocate a block for the new
/// value, and patch the content pointer to it. The returned value is the
/// previous one, or nothing if the key was absent (or the file turned out
/// unreadable along the way, which no file written by this crate does).
pub open spec fn spec_set(s: Seq<u8>, key: Seq<u8>, value: Seq<u8>) -> (Seq<u8>, Option<Seq<u8>>) {
    let (s1, dn) = spec_set_descend(s, ROOT_NODE as int, key, 0);
    match dn {
        None => (s1, None),
        Some(node) => {
            if !readable_u64(s1, node + 16) {
                (s1, None)
            } else {
                let c = u64_at(s1, node + 16) as int;
                if c != 0 && spec_read_block(s1, c) is None {
                    (s1, None)
                } else {
                    let prev = if c == 0 {
                        None
                    } else {
                        spec_read_block(s1, c)
                    };
                    let s2 = if c == 0 {
                        s1
                    } else {
                        spec_dealloc(s1, c)
                    };
                    match spec_alloc(s2, value) {
                        None => (s2, None),
                        Some((s3, newc)) => {
                            let s4 = store_at(s3, node + 16, u64_to_be(newc));
                            (s4, prev)
                        },
                    }
                }
            }
        },
    }
}

/// How far a `remove` has got, seen from a node on the descent path.
pub enum RemoveOutcome {
    /// The key was absent — a child pointer on the path was `NIL` — or the
    /// file was unreadable: nothing was or will be changed above.
    Missing,
    /// The entry was removed (with the previous value carried along) and
    /// branch reduction has come to a stop below this node.
    Stopped(Option<Seq<u8>>),
    /// The entry was removed and the child just left may have become
    /// empty: the node above must check it and prune if so.
    Reducing(Option<Seq<u8>>),
}

/// One step of branch reduction, seen at a parent whose child pointer
/// field sits at `a` and points to the node at `c`: while the walk back up
/// is still reducing, a child whose three fields are all `NIL` is freed —
/// its block starts 24 bytes before it — and the parent's pointer cleared;
/// any other child stops the reduction.
pub open spec fn reduce_step(s: Seq<u8>, out: RemoveOutcome, a: int, c: int) -> (
    Seq<u8>,
    RemoveOutcome,
) {
    match out {
        RemoveOutcome::Reducing(p) => {
            if c < 24 {
                (s, RemoveOutcome::Stopped(p))
            } else if c + 24 > s.len() {
                (s, RemoveOutcome::Stopped(p))
            } else if u64_at(s, c) == 0 && u64_at(s, c + 8) == 0 && u64_at(s, c + 16) == 0 {
                (store_at(spec_dealloc(s, c - 24), a, u64_to_be(NIL)), RemoveOutcome::Reducing(p))
            } else {
                (s, RemoveOutcome::Stopped(p))
            }
        },
        _ => (s, out),
    }
}

/// Branch reduction folded over a whole stack of descent decisions, the
/// deepest (last) first. Each entry holds the address of the parent's
/// child pointer field and the child node's address.
pub open spec fn spec_reduce_up(s: Seq<u8>, out: RemoveOutcome, ds: Seq<(int, int)>) -> (
    Seq<u8>,
    RemoveOutcome,
)
    decreases ds.len(),
{
    if ds.len() == 0 {
        (s, out)
    } else {
        let stepped = reduce_step(s, out, ds.last().0, ds.last().1);
        spec_reduce_up(stepped.0, stepped.1, ds.drop_last())
    }
}

/// What `remove` does from `node` on, consuming bits `i`, … of the key:
/// descend without materializing; at the terminal node read the content
/// pointer, free the content block and clear the pointer; on the way back
/// up prune nodes left with all three fields `NIL` (the root, having no
/// parent, is never pruned).
pub open spec fn spec_remove_from(s: Seq<u8>, node: int, key: Seq<u8>, i: int) -> (
    Seq<u8>,
    RemoveOutcome,
)
    recommends
        0 <= i <= 8 * key.len(),
    decreases 8 * key.len() - i,
{
    if i >= 8 * key.len() {
        if !readable_u64(s, node + 16) {
            (s, RemoveOutcome::Missing)
        } else {
            let c = u64_at(s, node + 16) as int;
            if c == 0 {
                (store_at(s, node + 16, u64_to_be(NIL)), RemoveOutcome::Reducing(None))
            } else {
                match spec_read_block(s, c) {
                    None => (s, RemoveOutcome::Missing),
                    Some(v) => {
                        let s1 = spec_dealloc(s, c);
                        let s2 = store_at(s1, node + 16, u64_to_be(NIL));
                        (s2, RemoveOutcome::Reducing(Some(v)))
                    },
                }
            }
        }
    } else {
        let a = node + (if key_bit(key, i) {
            8int
        } else {
            0int
        });
        if !readable_u64(s, a) {
            (s, RemoveOutcome::Missing)
        } else {
            let c = u64_at(s, a) as int;
            if c == 0 {
                (s, RemoveOutcome::Missing)
            } else {
                let deeper = spec_remove_from(s, c, key, i + 1);
                reduce_step(deeper.0, deeper.1, a, c)
            }
        }
    }
}

/// What `remove` does to the file and returns: the previous value if the
/// key was present, nothing otherwise.
pub open spec fn spec_remove(s: Seq<u8>, key: Seq<u8>) -> (Seq<u8>, Option<Seq<u8>>) {
    let r = spec_remove_from(s, ROOT_NODE as int, key, 0);
    match r.1 {
        RemoveOutcome::Missing => (r.0, None),
        RemoveOutcome::Stopped(p) => (r.0, p),
        RemoveOutcome::Reducing(p) => (r.0, p),
    }
}

/// Once a `remove` is done reducing — the key was missing or reduction
/// stopped — the rest of the walk back up changes nothing.
proof fn lemma_reduce_up_done(s: Seq<u8>, out: RemoveOutcome, ds: Seq<(int, int)>)
    requires
        out is Missing || out is Stopped,
    ensures
        spec_reduce_up(s, out, ds) == (s, out),
    decreases ds.len(),
{
    if ds.len() > 0 {
        lemma_reduce_up_done(s, out, ds.drop_last());
    }
}

/// Could not open the store.
#[derive(Debug)]
pub enum OpeningError {
    /// The file is not an ASS file of the needed version, unfortunately.
    Assless(),
    /// The underlying byte store failed.
    IO(),
}

/// A handle on an opened store.
pub struct ASS<F> {
    file: F,
}

impl<F: ASSFile> ASS<F> {
    /// The current contents of the backing file.
    pub closed spec fn bytes(&self) -> Seq<u8> {
        self.file.bytes()
    }

    /// The current length of the backing file in bytes.
    pub fn file_len(&self) -> (n: u64)
        ensures
            n as int == self.bytes().len(),
    {
        self.file.file_len()
    }

    /// Gives the backing file up, closing the store.
    pub fn into_file(self) -> (r: F)
        ensures
            r.bytes() == self.bytes(),
    {
        self.file
    }

    /// Reads the 64-bit big-endian value at offset `a`, or reports failure
    /// when the file ends before `a + 8`.
    pub(crate) fn read_u64_at(&mut self, a: u64) -> (r: Option<u64>)
        ensures
            final(self).bytes() == old(self).bytes(),
            readable_u64(old(self).bytes(), a as int) ==> r == Some(
                u64_at(old(self).bytes(), a as int),
            ),
            !readable_u64(old(self).bytes(), a as int) ==> r is None,
    {
        match self.file.read_at(a, 8) {
            Some(v) => Some(u64_from_be_vec(&v)),
            None => None,
        }
    }

    /// Writes the 64-bit big-endian value `v` at offset `a`.
    fn write_u64_at(&mut self, a: u64, v: u64)
        requires
            a + 8 <= u64::MAX,
        ensures
            final(self).bytes() == store_at(old(self).bytes(), a as int, u64_to_be(v)),
    {
        let buf = u64_to_be_vec(v);
        self.file.write_at(a, buf.as_slice());
    }

    /// Reads the payload of the block at `pos`, `EMPTY_VALUE` meaning the
    /// empty bytes; fails only on a block that runs past the end of file.
    pub(crate) fn read_block(&mut self, pos: u64) -> (r: Option<Vec<u8>>)
        ensures
            final(self).bytes() == old(self).bytes(),
            match r {
                Some(v) => spec_read_block(old(self).bytes(), pos as int) == Some(v@),
                None => spec_read_block(old(self).bytes(), pos as int) is None,
            },
    {
        if pos == EMPTY_VALUE {
            return Some(Vec::new());
        }
        let n = self.file.file_len();
        if pos > u64::MAX - 24 || pos + 24 > n {
            return None;
        }
        let len_fld = match self.read_u64_at(pos + 8) {
            Some(v) => v,
            None => unreached(),
        };
        self.file.read_at(pos + 24, len_fld)
    }

    /// Reads the 64-bit big-endian value at an offset known to lie inside
    /// the file.
    pub(crate) fn must_read_u64(&mut self, a: u64) -> (r: u64)
        requires
            readable_u64(old(self).bytes(), a as int),
        ensures
            final(self).bytes() == old(self).bytes(),
            r == u64_at(old(self).bytes(), a as int),
    {
        match self.read_u64_at(a) {
            Some(v) => v,
            None => unreached(),
        }
    }

    /// Allocates a block holding `data` by first-fit placement in the live
    /// chain and returns its address, or `EMPTY_VALUE` for empty `data`.
    /// Fails, writing nothing, only on a file whose chain is unreadable.
    fn alloc_block(&mut self, data: &[u8]) -> (r: Option<u64>)
        ensures
            match r {
                Some(addr) => spec_alloc(old(self).bytes(), data@) == Some(
                    (final(self).bytes(), addr),
                ) && addr + 24 + data@.len() <= u64::MAX,
                None => spec_alloc(old(self).bytes(), data@) is None && final(self).bytes() == old(
                    self,
                ).bytes(),
            },
    {
        if data.len() == 0 {
            return Some(EMPTY_VALUE);
        }
        if data.len() as u64 > u64::MAX - 24 {
            return None;
        }
        let n = self.file.file_len();
        let ghost s0 = self.bytes();
        let ghost fuel0: nat = (s0.len() + 1) as nat;
        let mut b: u64 = FIRST_BLOCK;
        let ghost mut fuel: nat = fuel0;
        loop
            invariant
                self.bytes() == s0,
                s0 == old(self).bytes(),
                fuel0 == (s0.len() + 1) as nat,
                s0.len() <= u64::MAX,
                n as int == s0.len(),
                0 < data@.len(),
                data@.len() + 24 <= u64::MAX,
                spec_alloc_from(s0, FIRST_BLOCK as int, data@, fuel0) == spec_alloc_from(
                    s0,
                    b as int,
                    data@,
                    fuel,
                ),
                b + fuel >= s0.len() + 1,
            decreases fuel,
        {
            if b > u64::MAX - 24 || b + 24 > n {
                return None;
            }
            let len_b = self.must_read_u64(b + 8);
            let next = self.must_read_u64(b + 16);
            let data_end = match (b + 24).checked_add(len_b) {
                Some(v) => v,
                None => {
                    return None;
                },
            };
            let need: u64 = data.len() as u64 + 24;
            if next != 0 && next >= need && data_end <= next - need {
                // The gap between this block and the next holds the new
                // block: splice it in between the two.
                if next > u64::MAX - 8 {
                    return None;
                }
                let image = block_image(b, data.len() as u64, next, data);
                self.file.write_at(data_end, image.as_slice());
                self.write_u64_at(b + 16, data_end);
                self.write_u64_at(next, data_end);
                proof {
                    assert(self.bytes() =~= alloc_image(
                        s0,
                        b as int,
                        data_end as int,
                        next as int,
                        data@,
                    ));
                }
                return Some(data_end);
            } else if next != 0 {
                if next <= b {
                    return None;
                }
                proof {
                    fuel = (fuel - 1) as nat;
                }
                b = next;
            } else {
                // Last block of the chain: append right after its payload.
                if data_end > u64::MAX - need {
                    return None;
                }
                let image = block_image(b, data.len() as u64, next, data);
                self.file.write_at(data_end, image.as_slice());
                self.write_u64_at(b + 16, data_end);
                proof {
                    assert(self.bytes() =~= alloc_image(
                        s0,
                        b as int,
                        data_end as int,
                        0,
                        data@,
                    ));
                }
                return Some(data_end);
            }
        }
    }

    /// Unlinks the block at `pos` from the live chain, truncating the file
    /// when the block was the last of the chain. The `EMPTY_VALUE`
    /// sentinel is a no-op.
    fn dealloc(&mut self, pos: u64)
        ensures
            final(self).bytes() == spec_dealloc(old(self).bytes(), pos as int),
    {
        if pos == EMPTY_VALUE {
            return;
        }
        let n = self.file.file_len();
        if pos > u64::MAX - 24 || pos + 24 > n {
            return;
        }
        let prev = self.must_read_u64(pos);
        let next = self.must_read_u64(pos + 16);
        if next == 0 {
            if prev > u64::MAX - 24 || prev + 16 > n {
                return;
            }
            let prev_len = self.must_read_u64(prev + 8);
            let trunc = match (prev + 24).checked_add(prev_len) {
                Some(v) => v,
                None => {
                    return;
                },
            };
            self.file.truncate_to(trunc);
            self.write_u64_at(prev + 16, next);
        } else {
            if next > u64::MAX - 8 || prev > u64::MAX - 24 {
                return;
            }
            self.write_u64_at(next, prev);
            self.write_u64_at(prev + 16, next);
        }
    }

    /// Follows the key's bits from the root node down and returns the
    /// terminal node's address, reporting failure where a child pointer is
    /// `NIL` or the file ends. Reads only; the file is unchanged.
    fn descend(&mut self, key: &[u8]) -> (r: Option<u64>)
        ensures
            final(self).bytes() == old(self).bytes(),
            match r {
                Some(node) => spec_descend(old(self).bytes(), ROOT_NODE as int, key@, 0) == Some(
                    node as int,
                ),
                None => spec_descend(old(self).bytes(), ROOT_NODE as int, key@, 0) is None,
            },
    {
        let _file_len: u64 = self.file_len();
        let ghost s0 = self.bytes();
        let mut cur: u64 = ROOT_NODE;
        let mut bi: usize = 0;
        while bi < key.len()
            invariant
                self.bytes() == s0,
                s0 == old(self).bytes(),
                s0.len() <= u64::MAX,
                bi <= key@.len(),
                spec_descend(s0, ROOT_NODE as int, key@, 0) == spec_descend(
                    s0,
                    cur as int,
                    key@,
                    8 * bi,
                ),
            decreases key@.len() - bi,
        {
            let b = key[bi];
            let mut j: u8 = 0;
            while j < 8
                invariant
                    self.bytes() == s0,
                    s0 == old(self).bytes(),
                    s0.len() <= u64::MAX,
                    j <= 8,
                    bi < key@.len(),
                    b == key@[bi as int],
                    spec_descend(s0, ROOT_NODE as int, key@, 0) == spec_descend(
                        s0,
                        cur as int,
                        key@,
                        8 * bi + j,
                    ),
                decreases 8 - j,
            {
                let bit = byte_bit_at(b, j);
                proof {
                    let i: int = 8 * bi + j;
                    assert(i / 8 == bi as int && i % 8 == j as int);
                    assert(key_bit(key@, i) == bit);
                }
                let off: u64 = if bit {
                    8
                } else {
                    0
                };
                let a = match cur.checked_add(off) {
                    Some(v) => v,
                    None => {
                        return None;
                    },
                };
                match self.read_u64_at(a) {
                    Some(c) => {
                        if c == 0 {
                            return None;
                        }
                        cur = c;
                    },
                    None => {
                        return None;
                    },
                }
                j = j + 1;
            }
            bi = bi + 1;
        }
        Some(cur)
    }

    /// Looks the key up: its value if present — the empty bytes count as
    /// present — and nothing otherwise. The file is unchanged.
    pub fn get(&mut self, key: &[u8]) -> (r: Option<Vec<u8>>)
        ensures
            final(self).bytes() == old(self).bytes(),
            match r {
                Some(v) => spec_get(old(self).bytes(), key@) == Some(v@),
                None => spec_get(old(self).bytes(), key@) is None,
            },
    {
        let _file_len: u64 = self.file_len();
        let cur = match self.descend(key) {
            Some(node) => node,
            None => {
                return None;
            },
        };
        let a = match cur.checked_add(16) {
            Some(v) => v,
            None => {
                return None;
            },
        };
        match self.read_u64_at(a) {
            Some(c) => {
                if c == 0 {
                    None
                } else {
                    self.read_block(c)
                }
            },
            None => None,
        }
    }

    /// Sets the key to the given value and returns the previous value, or
    /// nothing if the key was absent. Trie nodes missing along the key's
    /// bit path are materialized; the old content block, if any, is freed
    /// before a block for the new value is placed.
    pub fn set(&mut self, key: &[u8], value: &[u8]) -> (r: Option<Vec<u8>>)
        ensures
            ({
                let (sf, prev) = spec_set(old(self).bytes(), key@, value@);
                final(self).bytes() == sf && (match r {
                    Some(v) => prev == Some(v@),
                    None => prev is None,
                })
            }),
    {
        let _file_len: u64 = self.file_len();
        let ghost s0 = self.bytes();
        let mut cur: u64 = ROOT_NODE;
        let mut bi: usize = 0;
        while bi < key.len()
            invariant
                s0 == old(self).bytes(),
                self.bytes().len() <= u64::MAX,
                bi <= key@.len(),
                spec_set_descend(s0, ROOT_NODE as int, key@, 0) == spec_set_descend(
                    self.bytes(),
                    cur as int,
                    key@,
                    8 * bi,
                ),
            decreases key@.len() - bi,
        {
            let b = key[bi];
            let mut j: u8 = 0;
            while j < 8
                invariant
                    s0 == old(self).bytes(),
                    self.bytes().len() <= u64::MAX,
                    j <= 8,
                    bi < key@.len(),
                    b == key@[bi as int],
                    spec_set_descend(s0, ROOT_NODE as int, key@, 0) == spec_set_descend(
                        self.bytes(),
                        cur as int,
                        key@,
                        8 * bi + j,
                    ),
                decreases 8 - j,
            {
                let bit = byte_bit_at(b, j);
                proof {
                    let i: int = 8 * bi + j;
                    assert(i / 8 == bi as int && i % 8 == j as int);
                    assert(key_bit(key@, i) == bit);
                }
                let off: u64 = if bit {
                    8
                } else {
                    0
                };
                let a = match cur.checked_add(off) {
                    Some(v) => v,
                    None => {
                        return None;
                    },
                };
                match self.read_u64_at(a) {
                    Some(c) => {
                        if c != 0 {
                            cur = c;
                        } else {
                            let zn = zero_node_vec();
                            match self.alloc_block(zn.as_slice()) {
                                Some(blk) => {
                                    let child = blk + 24;
                                    self.write_u64_at(a, child);
                                    let _grown: u64 = self.file_len();
                                    cur = child;
                                },
                                None => {
                                    return None;
                                },
                            }
                        }
                    },
                    None => {
                        return None;
                    },
                }
                j = j + 1;
            }
            bi = bi + 1;
        }
        let a16 = match cur.checked_add(16) {
            Some(v) => v,
            None => {
                return None;
            },
        };
        let mut prev_vec: Option<Vec<u8>> = None;
        match self.read_u64_at(a16) {
            Some(c) => {
                if c != 0 {
                    match self.read_block(c) {
                        Some(v) => {
                            prev_vec = Some(v);
                            self.dealloc(c);
                        },
                        None => {
                            return None;
                        },
                    }
                }
                match self.alloc_block(value) {
                    Some(newc) => {
                        self.write_u64_at(a16, newc);
                        prev_vec
                    },
                    None => None,
                }
            },
            None => None,
        }
    }

    /// Removes the key and returns its previous value, or nothing if it
    /// was absent. After clearing the terminal node's content pointer,
    /// nodes left with all three fields `NIL` are pruned on the way back
    /// up; the root is never pruned.
    pub fn remove(&mut self, key: &[u8]) -> (r: Option<Vec<u8>>)
        ensures
            ({
                let (sf, prev) = spec_remove(old(self).bytes(), key@);
                final(self).bytes() == sf && (match r {
                    Some(v) => prev == Some(v@),
                    None => prev is None,
                })
            }),
    {
        let _file_len: u64 = self.file_len();
        let ghost s0 = self.bytes();
        let ghost target = spec_remove_from(s0, ROOT_NODE as int, key@, 0);
        let mut stack: Vec<(u64, u64)> = Vec::new();
        let ghost mut ds: Seq<(int, int)> = Seq::empty();
        let mut cur: u64 = ROOT_NODE;
        let mut bi: usize = 0;
        while bi < key.len()
            invariant
                self.bytes() == s0,
                s0 == old(self).bytes(),
                s0.len() <= u64::MAX,
                bi <= key@.len(),
                target == spec_remove_from(s0, ROOT_NODE as int, key@, 0),
                ({
                    let deeper = spec_remove_from(s0, cur as int, key@, 8 * bi);
                    target == spec_reduce_up(deeper.0, deeper.1, ds)
                }),
                stack@.len() == ds.len(),
                forall|k: int|
                    0 <= k < ds.len() ==> ds[k] == (stack@[k].0 as int, stack@[k].1 as int),
                forall|k: int| 0 <= k < ds.len() ==> (#[trigger] stack@[k].0) + 8 <= u64::MAX,
            decreases key@.len() - bi,
        {
            let b = key[bi];
            let mut j: u8 = 0;
            while j < 8
                invariant
                    self.bytes() == s0,
                    s0 == old(self).bytes(),
                    s0.len() <= u64::MAX,
                    j <= 8,
                    bi < key@.len(),
                    b == key@[bi as int],
                    target == spec_remove_from(s0, ROOT_NODE as int, key@, 0),
                    ({
                        let deeper = spec_remove_from(s0, cur as int, key@, 8 * bi + j);
                        target == spec_reduce_up(deeper.0, deeper.1, ds)
                    }),
                    stack@.len() == ds.len(),
                    forall|k: int|
                        0 <= k < ds.len() ==> ds[k] == (stack@[k].0 as int, stack@[k].1 as int),
                    forall|k: int| 0 <= k < ds.len() ==> (#[trigger] stack@[k].0) + 8 <= u64::MAX,
                decreases 8 - j,
            {
                let bit = byte_bit_at(b, j);
                proof {
                    let i: int = 8 * bi + j;
                    assert(i / 8 == bi as int && i % 8 == j as int);
                    assert(key_bit(key@, i) == bit);
                }
                let off: u64 = if bit {
                    8
                } else {
                    0
                };
                let a = match cur.checked_add(off) {
                    Some(v) => v,
                    None => {
                        proof {
                            lemma_reduce_up_done(s0, RemoveOutcome::Missing, ds);
                        }
                        return None;
                    },
                };
                match self.read_u64_at(a) {
                    Some(c) => {
                        if c == 0 {
                            proof {
                                lemma_reduce_up_done(s0, RemoveOutcome::Missing, ds);
                            }
                            return None;
                        }
                        stack.push((a, c));
                        proof {
                            let e = (a as int, c as int);
                            let deeper = spec_remove_from(s0, c as int, key@, 8 * bi + j + 1);
                            assert(ds.push(e).drop_last() =~= ds);
                            assert(spec_reduce_up(deeper.0, deeper.1, ds.push(e))
                                == spec_reduce_up(
                                reduce_step(deeper.0, deeper.1, a as int, c as int).0,
                                reduce_step(deeper.0, deeper.1, a as int, c as int).1,
                                ds,
                            ));
                            ds = ds.push(e);
                        }
                        cur = c;
                    },
                    None => {
                        proof {
                            lemma_reduce_up_done(s0, RemoveOutcome::Missing, ds);
                        }
                        return None;
                    },
                }
                j = j + 1;
            }
            bi = bi + 1;
        }
        // Terminal node reached: clear its content pointer.
        let a16 = match cur.checked_add(16) {
            Some(v) => v,
            None => {
                proof {
                    lemma_reduce_up_done(s0, RemoveOutcome::Missing, ds);
                }
                return None;
            },
        };
        let mut prev_vec: Option<Vec<u8>> = None;
        match self.read_u64_at(a16) {
            Some(c) => {
                if c == 0 {
                    self.write_u64_at(a16, NIL);
                } else {
                    match self.read_block(c) {
                        Some(v) => {
                            self.dealloc(c);
                            self.write_u64_at(a16, NIL);
                            prev_vec = Some(v);
                        },
                        None => {
                            proof {
                                lemma_reduce_up_done(s0, RemoveOutcome::Missing, ds);
                            }
                            return None;
                        },
                    }
                }
            },
            None => {
                proof {
                    lemma_reduce_up_done(s0, RemoveOutcome::Missing, ds);
                }
                return None;
            },
        }
        // Walk back up, pruning nodes whose three fields are all NIL.
        while stack.len() > 0
            invariant
                target == spec_remove_from(s0, ROOT_NODE as int, key@, 0),
                s0 == old(self).bytes(),
                target == spec_reduce_up(
                    self.bytes(),
                    RemoveOutcome::Reducing(
                        match prev_vec {
                            Some(v) => Some(v@),
                            None => None,
                        },
                    ),
                    ds,
                ),
                stack@.len() == ds.len(),
                forall|k: int|
                    0 <= k < ds.len() ==> ds[k] == (stack@[k].0 as int, stack@[k].1 as int),
                forall|k: int| 0 <= k < ds.len() ==> (#[trigger] stack@[k].0) + 8 <= u64::MAX,
            decreases stack@.len(),
        {
            let ghost pv: Option<Seq<u8>> = match &prev_vec {
                Some(v) => Some(v@),
                None => None,
            };
            let (a, c) = match stack.pop() {
                Some(e) => e,
                None => unreached(),
            };
            proof {
                assert(ds.last() == (a as int, c as int));
                ds = ds.drop_last();
            }
            if c < 24 {
                proof {
                    lemma_reduce_up_done(self.bytes(), RemoveOutcome::Stopped(pv), ds);
                }
                return prev_vec;
            }
            let n = self.file.file_len();
            if c > u64::MAX - 24 || c + 24 > n {
                proof {
                    lemma_reduce_up_done(self.bytes(), RemoveOutcome::Stopped(pv), ds);
                }
                return prev_vec;
            }
            let f0 = self.must_read_u64(c);
            let f1 = self.must_read_u64(c + 8);
            let f2 = self.must_read_u64(c + 16);
            if f0 == 0 && f1 == 0 && f2 == 0 {
                self.dealloc(c - 24);
                self.write_u64_at(a, NIL);
            } else {
                proof {
                    lemma_reduce_up_done(self.bytes(), RemoveOutcome::Stopped(pv), ds);
                }
                return prev_vec;
            }
        }
        prev_vec
    }

    /// Opens a store over the given byte file: initializes an empty file
    /// with the fresh store image, accepts a non-empty file that starts
    /// with the magic header unchanged, and rejects any other file.
    pub fn open(file: F) -> (r: Result<ASS<F>, OpeningError>)
        ensures
            file.bytes().len() == 0 ==> (r matches Ok(a) && a.bytes() == fresh_image()),
            file.bytes().len() != 0 && file.bytes().len() >= 7 && file.bytes().subrange(0, 7)
                == magic() ==> (r matches Ok(a) && a.bytes() == file.bytes()),
            file.bytes().len() != 0 && (file.bytes().len() < 7 || file.bytes().subrange(0, 7)
                != magic()) ==> (r matches Err(e) && e == OpeningError::Assless()),
    {
        let n = file.file_len();
        let mut ass = ASS { file };
        if n == 0 {
            let image = fresh_image_vec();
            ass.file.write_at(0, image.as_slice());
            proof {
                assert(ass.file.bytes() =~= fresh_image());
            }
            Ok(ass)
        } else {
            match ass.file.read_at(0, 7) {
                Some(h) => {
                    if h[0] == 65 && h[1] == 83 && h[2] == 83 && h[3] == 32 && h[4] == 118 && h[5]
                        == 49 && h[6] == 0 {
                        proof {
                            assert(ass.file.bytes().subrange(0, 7) =~= magic());
                        }
                        Ok(ass)
                    } else {
                        proof {
                            assert(ass.file.bytes().subrange(0, 7) != magic()) by {
                                assert(h@ =~= ass.file.bytes().subrange(0, 7));
                            };
                        }
                        Err(OpeningError::Assless())
                    }
                },
                None => Err(OpeningError::Assless()),
            }
        }
    }
}

/// Appends all of `src` to `dst`.
fn append_bytes(dst: &mut Vec<u8>, src: &[u8])
    ensures
        final(dst)@ == old(dst)@ + src@,
{
    let mut i: usize = 0;
    while i < src.len()
        invariant
            i <= src@.len(),
            dst@ == old(dst)@ + src@.take(i as int),
        decreases src@.len() - i,
    {
        dst.push(src[i]);
        proof {
            assert(dst@ =~= old(dst)@ + src@.take(i + 1));
        }
        i = i + 1;
    }
    proof {
        assert(old(dst)@ + src@.take(src@.len() as int) =~= old(dst)@ + src@);
    }
}

/// A block as written to the file: the three 64-bit header fields followed
/// by the payload.
fn block_image(prev: u64, len: u64, next: u64, data: &[u8]) -> (r: Vec<u8>)
    ensures
        r@ == u64_to_be(prev) + u64_to_be(len) + u64_to_be(next) + data@,
{
    let mut r = u64_to_be_vec(prev);
    let lb = u64_to_be_vec(len);
    append_bytes(&mut r, lb.as_slice());
    let nb = u64_to_be_vec(next);
    append_bytes(&mut r, nb.as_slice());
    append_bytes(&mut r, data);
    r
}

/// A fresh trie node as a byte vector: 24 zero bytes.
fn zero_node_vec() -> (r: Vec<u8>)
    ensures
        r@ == zero_node(),
{
    let mut r: Vec<u8> = Vec::new();
    let mut i: usize = 0;
    while i < 24
        invariant
            i <= 24,
            r@ == Seq::new(i as nat, |k: int| 0u8),
        decreases 24 - i,
    {
        r.push(0);
        proof {
            assert(r@ =~= Seq::new((i + 1) as nat, |k: int| 0u8));
        }
        i = i + 1;
    }
    proof {
        assert(r@ =~= zero_node());
    }
    r
}

/// The fresh store image as a byte vector.
fn fresh_image_vec() -> (r: Vec<u8>)
    ensures
        r@ == fresh_image(),
{
    let mut r: Vec<u8> = Vec::new();
    r.push(65);
    r.push(83);
    r.push(83);
    r.push(32);
    r.push(118);
    r.push(49);
    r.push(0);
    let mut i: usize = 0;
    while i < 48
        invariant
            r@.len() == 7 + i,
            i <= 48,
            forall|k: int| 0 <= k < 7 ==> r@[k] == magic()[k],
            forall|k: int| 7 <= k < r@.len() ==> r@[k] == (if k == 15 + 7 {
                24u8
            } else {
                0u8
            }),
        decreases 48 - i,
    {
        if i == 15 {
            r.push(24);
        } else {
            r.push(0);
        }
        i = i + 1;
    }
    proof {
        lemma_be_zero_24();
        assert(r@ =~= fresh_image());
    }
    r
}

/// The big-endian bytes of the two constants in the fresh image.
pub(crate) proof fn lemma_be_zero_24()
    ensures
        forall|k: int| 0 <= k < 8 ==> u64_to_be(0)[k] == 0u8,
        forall|k: int| 0 <= k < 7 ==> u64_to_be(24)[k] == 0u8,
        u64_to_be(24)[7] == 24u8,
{
    assert(((0u64 >> 56) & 0xff) as u8 == 0 && ((0u64 >> 48) & 0xff) as u8 == 0 && ((0u64 >> 40)
        & 0xff) as u8 == 0 && ((0u64 >> 32) & 0xff) as u8 == 0 && ((0u64 >> 24) & 0xff) as u8 == 0
        && ((0u64 >> 16) & 0xff) as u8 == 0 && ((0u64 >> 8) & 0xff) as u8 == 0 && (0u64 & 0xff)
        as u8 == 0) by (bit_vector);
    assert(((24u64 >> 56) & 0xff) as u8 == 0 && ((24u64 >> 48) & 0xff) as u8 == 0 && ((24u64 >> 40)
        & 0xff) as u8 == 0 && ((24u64 >> 32) & 0xff) as u8 == 0 && ((24u64 >> 24) & 0xff) as u8 == 0
        && ((24u64 >> 16) & 0xff) as u8 == 0 && ((24u64 >> 8) & 0xff) as u8 == 0 && (24u64 & 0xff)
        as u8 == 24) by (bit_vector);
}

} // verus!
