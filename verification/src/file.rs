//! The random-access byte store that backs the key-value store.
//!
//! `ASSFile` is the file abstraction: positional reads and writes of whole
//! byte ranges, a length query, and truncation. Its contract speaks of the
//! file as a sequence of bytes; `MemFile` is the in-memory implementation,
//! verified against that contract. A disk-backed implementation can live
//! outside the verified library, since the contract is erased at compile
//! time.

use vstd::prelude::*;
use crate::codec::store_at;

verus! {

/// A random-access byte store. Writes may extend the file; a write past the
/// end of file fills the gap with zero bytes, as sparse files do.
pub trait ASSFile: Sized {
    /// The current contents of the file. An implementation outside the
    /// verified world may leave this default; it is then simply not
    /// reasoned about.
    open spec fn bytes(&self) -> Seq<u8> {
        Seq::<u8>::empty()
    }

    /// The current length of the file in bytes.
    fn file_len(&self) -> (n: u64)
        ensures
            n as int == self.bytes().len(),
    ;

    /// Reads exactly `n` bytes starting at offset `a`, or reports failure
    /// (leaving the contents untouched) when fewer than `n` bytes are there.
    fn read_at(&mut self, a: u64, n: u64) -> (r: Option<Vec<u8>>)
        ensures
            final(self).bytes() == old(self).bytes(),
            a + n <= old(self).bytes().len() ==> (r matches Some(v) && v@ == old(self).bytes()
                .subrange(a as int, a + n)),
            a + n > old(self).bytes().len() ==> r is None,
    ;

    /// Writes all of `data` at offset `a`, extending the file as necessary.
    fn write_at(&mut self, a: u64, data: &[u8])
        requires
            a + data@.len() <= u64::MAX,
        ensures
            final(self).bytes() == store_at(old(self).bytes(), a as int, data@),
    ;

    /// Shortens the file so that its length equals `end`. A call with `end`
    /// past the current end of file leaves the contents unchanged.
    fn truncate_to(&mut self, end: u64)
        ensures
            final(self).bytes() == (if end as int <= old(self).bytes().len() {
                old(self).bytes().take(end as int)
            } else {
                old(self).bytes()
            }),
    ;

}

/// A file held entirely in memory, as a growable byte vector.
pub struct MemFile {
    data: Vec<u8>,
}

impl MemFile {
    /// An empty in-memory file.
    pub fn new() -> (r: MemFile)
        ensures
            r.bytes() == Seq::<u8>::empty(),
    {
        let r = MemFile { data: Vec::new() };
        proof {
            assert(r.bytes() =~= Seq::<u8>::empty());
        }
        r
    }

    /// A copy of the whole file.
    pub fn to_vec(&self) -> (r: Vec<u8>)
        ensures
            r@ == self.bytes(),
    {
        let mut r: Vec<u8> = Vec::new();
        let mut i: usize = 0;
        while i < self.data.len()
            invariant
                i <= self.data@.len(),
                r@ == self.data@.take(i as int),
            decreases self.data@.len() - i,
        {
            r.push(self.data[i]);
            proof {
                assert(r@ =~= self.data@.take(i + 1));
            }
            i = i + 1;
        }
        proof {
            assert(self.data@.take(self.data@.len() as int) =~= self.data@);
        }
        r
    }

    /// An in-memory file holding the given bytes.
    pub fn from_vec(data: Vec<u8>) -> (r: MemFile)
        ensures
            r.bytes() == data@,
    {
        MemFile { data }
    }
}

impl ASSFile for MemFile {
    closed spec fn bytes(&self) -> Seq<u8> {
        self.data@
    }

    fn file_len(&self) -> (n: u64) {
        self.data.len() as u64
    }

    fn read_at(&mut self, a: u64, n: u64) -> (r: Option<Vec<u8>>) {
        if n > self.data.len() as u64 || a > self.data.len() as u64 - n {
            return None;
        }
        let start: usize = a as usize;
        let count: usize = n as usize;
        let mut v: Vec<u8> = Vec::new();
        let mut i: usize = 0;
        while i < count
            invariant
                i <= count,
                start + count <= self.data@.len(),
                self.data@.len() <= usize::MAX,
                v@ == self.data@.subrange(start as int, start + i),
                self.data@ == old(self).bytes(),
            decreases count - i,
        {
            v.push(self.data[start + i]);
            proof {
                assert(v@ =~= self.data@.subrange(start as int, start + i + 1));
            }
            i = i + 1;
        }
        Some(v)
    }

    fn write_at(&mut self, a: u64, data: &[u8]) {
        // Fill any gap between the old end of file and the write position.
        while (self.data.len() as u64) < a
            invariant
                self.data@.len() <= (if old(self).bytes().len() > a {
                    old(self).bytes().len() as int
                } else {
                    a as int
                }),
                self.data@ == old(self).bytes().add(
                    Seq::new((self.data@.len() - old(self).bytes().len()) as nat, |i: int| 0u8),
                ),
                old(self).bytes().len() <= self.data@.len(),
            decreases a - self.data@.len(),
        {
            self.data.push(0u8);
            proof {
                assert(self.data@ =~= old(self).bytes().add(
                    Seq::new((self.data@.len() - old(self).bytes().len()) as nat, |i: int| 0u8),
                ));
            }
        }
        let start: usize = a as usize;
        let mut i: usize = 0;
        let mut p: usize = start;
        while i < data.len()
            invariant
                i <= data@.len(),
                p == start + i,
                start <= self.data@.len(),
                self.data@.len() <= usize::MAX,
                self.data@.len() == (if start + i > old(self).bytes().len() {
                    start + i
                } else {
                    old(self).bytes().len() as int
                }),
                forall|j: int|
                    0 <= j < self.data@.len() ==> self.data@[j] == (if start <= j < start + i {
                        data@[j - start]
                    } else if j < old(self).bytes().len() {
                        old(self).bytes()[j]
                    } else {
                        0u8
                    }),
            decreases data@.len() - i,
        {
            if p < self.data.len() {
                self.data.set(p, data[i]);
            } else {
                self.data.push(data[i]);
            }
            let grown = self.data.len();
            assert(p < grown);
            i = i + 1;
            p = p + 1;
        }
        proof {
            assert(self.data@ =~= store_at(old(self).bytes(), a as int, data@));
        }
    }

    fn truncate_to(&mut self, end: u64) {
        if end < self.data.len() as u64 {
            self.data.truncate(end as usize);
        } else {
            proof {
                if end as int <= old(self).bytes().len() {
                    assert(self.data@.take(end as int) =~= self.data@);
                }
            }
        }
    }

}

} // verus!
