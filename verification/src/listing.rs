//! Full iteration over the store: a depth-first walk of the trie that
//! reproduces each key from the branch decisions leading to its node.
//!
//! The walk keeps a stack of pending tasks; popping a task visits one
//! node, pushes its children (the `false` branch first, so the `true`
//! branch is visited next), and yields a pair whenever the node holds
//! content. A fuel counter, amply large for any file this crate writes,
//! bounds the walk on files with pointer cycles.

use vstd::prelude::*;
use vstd::pervasive::unreached;
use crate::codec::u64_at;
use crate::file::ASSFile;
use crate::bitpath::{bytes_of_path, path_byte};
use crate::store::{ASS, ROOT_NODE, spec_read_block};

verus! {

/// A pending visit: a node's address and the root-to-node path of branch
/// decisions that led to it.
pub struct Task {
    pub node_pos: u64,
    pub path: Vec<bool>,
}

/// A task as its mathematical content: node address and path.
pub open spec fn tview(t: Task) -> (u64, Seq<bool>) {
    (t.node_pos, t.path@)
}

/// A whole task stack as its mathematical content.
pub open spec fn tasks_view(ts: Seq<Task>) -> Seq<(u64, Seq<bool>)> {
    ts.map_values(|t: Task| tview(t))
}

impl Task {
    /// Folds the task's path back into key bytes: any leading bits that do
    /// not fill a whole byte are dropped, and the rest are grouped eight at
    /// a time, most significant bit first.
    pub fn gather_key(&self) -> (r: Vec<u8>)
        ensures
            r@ == bytes_of_path(self.path@),
    {
        let k: usize = self.path.len() % 8;
        let mut r: Vec<u8> = Vec::new();
        let mut i: usize = k;
        while i < self.path.len()
            invariant
                k == self.path@.len() % 8,
                k <= i <= self.path@.len(),
                (i - k) % 8 == 0,
                r@.len() == (i - k) / 8,
                forall|m: int|
                    0 <= m < r@.len() ==> r@[m] == path_byte(self.path@, k + 8 * m),
            decreases self.path@.len() - i,
        {
            proof {
                assert(i + 8 <= self.path@.len()) by {
                    assert((self.path@.len() - i) % 8 == 0) by {
                        assert(self.path@.len() % 8 == k);
                        assert(i % 8 == k % 8);
                    };
                };
            }
            let byte: u8 = (if self.path[i] {
                128
            } else {
                0
            }) + (if self.path[i + 1] {
                64
            } else {
                0
            }) + (if self.path[i + 2] {
                32
            } else {
                0
            }) + (if self.path[i + 3] {
                16
            } else {
                0
            }) + (if self.path[i + 4] {
                8
            } else {
                0
            }) + (if self.path[i + 5] {
                4
            } else {
                0
            }) + (if self.path[i + 6] {
                2
            } else {
                0
            }) + (if self.path[i + 7] {
                1
            } else {
                0
            });
            proof {
                assert(byte == path_byte(self.path@, i as int));
            }
            r.push(byte);
            i = i + 8;
        }
        proof {
            assert(r@ =~= bytes_of_path(self.path@));
        }
        r
    }
}

/// One step of the walk: pop the deepest task; visit its node, pushing a
/// task for each non-`NIL` child; yield the node's key and content where
/// the content pointer is set. A node that runs past the end of file, or
/// content that cannot be read, yields nothing and the walk goes on. The
/// walk ends when the stack or the fuel is exhausted.
pub open spec fn spec_lister_next(s: Seq<u8>, tasks: Seq<(u64, Seq<bool>)>, fuel: nat) -> (
    Seq<(u64, Seq<bool>)>,
    nat,
    Option<(Seq<u8>, Seq<u8>)>,
)
    decreases fuel,
{
    if fuel == 0 {
        (tasks, fuel, None)
    } else if tasks.len() == 0 {
        (tasks, fuel, None)
    } else {
        let t = tasks.last();
        let rest = tasks.drop_last();
        let node = t.0 as int;
        let path = t.1;
        let fuel1 = (fuel - 1) as nat;
        if node + 24 > s.len() {
            spec_lister_next(s, rest, fuel1)
        } else {
            let fc = u64_at(s, node);
            let tc = u64_at(s, node + 8);
            let cc = u64_at(s, node + 16);
            let rest1 = if fc != 0 {
                rest.push((fc, path.push(false)))
            } else {
                rest
            };
            let rest2 = if tc != 0 {
                rest1.push((tc, path.push(true)))
            } else {
                rest1
            };
            if cc != 0 {
                match spec_read_block(s, cc as int) {
                    Some(v) => (rest2, fuel1, Some((bytes_of_path(path), v))),
                    None => spec_lister_next(s, rest2, fuel1),
                }
            } else {
                spec_lister_next(s, rest2, fuel1)
            }
        }
    }
}

/// A walk over the whole store, producing each stored `(key, value)` pair
/// once.
pub struct Lister {
    tasks: Vec<Task>,
    fuel: u64,
}

impl Lister {
    /// The pending tasks, deepest last.
    pub closed spec fn tasks(&self) -> Seq<(u64, Seq<bool>)> {
        tasks_view(self.tasks@)
    }

    /// How many more nodes the walk is willing to visit.
    pub closed spec fn fuel_left(&self) -> u64 {
        self.fuel
    }

    /// The next `(key, value)` pair of the walk, or nothing when every
    /// reachable node has been visited. The store is read, never changed.
    pub fn next<F: ASSFile>(&mut self, ass: &mut ASS<F>) -> (r: Option<(Vec<u8>, Vec<u8>)>)
        ensures
            final(ass).bytes() == old(ass).bytes(),
            ({
                let stepped = spec_lister_next(
                    old(ass).bytes(),
                    old(self).tasks(),
                    old(self).fuel_left() as nat,
                );
                final(self).tasks() == stepped.0 && final(self).fuel_left() as nat == stepped.1
                    && (match r {
                    Some(kv) => stepped.2 == Some((kv.0@, kv.1@)),
                    None => stepped.2 is None,
                })
            }),
    {
        let n = ass.file_len();
        let ghost s = ass.bytes();
        let ghost t0 = self.tasks();
        let ghost f0 = self.fuel_left() as nat;
        loop
            invariant
                ass.bytes() == s,
                s == old(ass).bytes(),
                s.len() <= u64::MAX,
                n as int == s.len(),
                t0 == old(self).tasks(),
                f0 == old(self).fuel_left() as nat,
                spec_lister_next(s, t0, f0) == spec_lister_next(
                    s,
                    tasks_view(self.tasks@),
                    self.fuel as nat,
                ),
            decreases self.fuel,
        {
            if self.fuel == 0 {
                return None;
            }
            if self.tasks.len() == 0 {
                return None;
            }
            let ghost pre = tasks_view(self.tasks@);
            let ghost fuelpre = self.fuel as nat;
            self.fuel = self.fuel - 1;
            let task = match self.tasks.pop() {
                Some(t) => t,
                None => unreached(),
            };
            let ghost rest = tasks_view(self.tasks@);
            proof {
                assert(pre.drop_last() =~= rest);
                assert(pre.last() == tview(task));
            }
            let node = task.node_pos;
            if node > u64::MAX - 24 || node + 24 > n {
                continue;
            }
            let fc = ass.must_read_u64(node);
            let tc = ass.must_read_u64(node + 8);
            let cc = ass.must_read_u64(node + 16);
            if fc != 0 {
                let mut p = clone_bools(&task.path);
                p.push(false);
                self.tasks.push(Task { node_pos: fc, path: p });
                proof {
                    assert(tasks_view(self.tasks@) =~= rest.push((fc, task.path@.push(false))));
                }
            }
            let ghost rest1 = tasks_view(self.tasks@);
            if tc != 0 {
                let mut p = clone_bools(&task.path);
                p.push(true);
                self.tasks.push(Task { node_pos: tc, path: p });
                proof {
                    assert(tasks_view(self.tasks@) =~= rest1.push((tc, task.path@.push(true))));
                }
            }
            if cc != 0 {
                match ass.read_block(cc) {
                    Some(v) => {
                        let key = task.gather_key();
                        return Some((key, v));
                    },
                    None => {
                        continue;
                    },
                }
            }
        }
    }
}

impl<F: ASSFile> ASS<F> {
    /// Begins a full walk of the store. The walk borrows nothing: hand it
    /// the store again for each step.
    pub fn list(&self) -> (r: Lister)
        ensures
            r.tasks() == seq![(ROOT_NODE, Seq::<bool>::empty())],
            r.fuel_left() as int == self.bytes().len(),
    {
        let n = self.file_len();
        let mut tasks: Vec<Task> = Vec::new();
        tasks.push(
            Task {
                node_pos: ROOT_NODE,
                path: Vec::new(),
            },
        );
        let r = Lister { tasks, fuel: n };
        proof {
            assert(r.tasks() =~= seq![(ROOT_NODE, Seq::<bool>::empty())]);
        }
        r
    }
}

/// A copy of a vector of branch decisions.
fn clone_bools(v: &Vec<bool>) -> (r: Vec<bool>)
    ensures
        r@ == v@,
{
    let mut r: Vec<bool> = Vec::new();
    let mut i: usize = 0;
    while i < v.len()
        invariant
            i <= v@.len(),
            r@ == v@.take(i as int),
        decreases v@.len() - i,
    {
        r.push(v[i]);
        proof {
            assert(r@ =~= v@.take(i + 1));
        }
        i = i + 1;
    }
    proof {
        assert(v@.take(v@.len() as int) =~= v@);
    }
    r
}

} // verus!
