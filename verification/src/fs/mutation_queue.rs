//! The per-file mutation queue.
//!
//! `write` and `edit` take turns on a per-path lock, so that concurrent tool
//! calls on the same file cannot lose updates or interleave; different files
//! proceed in parallel. The queue decides which lock a path has.

use vstd::prelude::*;

use crate::bytes;

verus! {

/// The paths that have a lock so far; the lock of a path has its place in this
/// list as its number.
#[derive(Debug)]
pub struct MutationQueue {
    paths: Vec<Vec<u8>>,
}

impl MutationQueue {
    /// The paths in the order in which they were first asked for.
    pub closed spec fn view(&self) -> Seq<Seq<u8>> {
        bytes::views(self.paths@)
    }

    /// No path has two locks.
    pub open spec fn wf(&self) -> bool {
        forall|i: int, j: int|
            0 <= i < j < self@.len() ==> #[trigger] self@[i] != #[trigger] self@[j]
    }

    /// A queue without any lock.
    pub fn new() -> (r: MutationQueue)
        ensures
            r.wf(),
            r@.len() == 0,
    {
        MutationQueue { paths: Vec::new() }
    }

    /// The lock for one canonical file path: the one it has, or a new one.
    pub fn lock(&mut self, path: &[u8]) -> (slot: usize)
        requires
            old(self).wf(),
        ensures
            final(self).wf(),
            slot < final(self)@.len(),
            final(self)@[slot as int] == path@,
            final(self)@ == (if old(self)@.contains(path@) {
                old(self)@
            } else {
                old(self)@.push(path@)
            }),
    {
        let n: usize = self.paths.len();
        let mut i: usize = 0;
        while i < n
            invariant
                self.paths == old(self).paths,
                self.wf(),
                n == self.paths@.len(),
                i <= n,
                forall|k: int| 0 <= k < i ==> #[trigger] self@[k] != path@,
            decreases n - i,
        {
            if bytes::same_bytes(self.paths[i].as_slice(), path) {
                assert(self@[i as int] == path@);
                return i;
            }
            i = i + 1;
        }
        assert(!self@.contains(path@));
        self.paths.push(bytes::copy(path));
        assert(self@ == old(self)@.push(path@));
        n
    }
}

/// Two requests get the same lock exactly where they name the same path, no
/// matter what was asked for in between.
pub proof fn one_lock_per_path(
    first: Seq<Seq<u8>>,
    later: Seq<Seq<u8>>,
    a: int,
    b: int,
)
    requires
        first.is_prefix_of(later),
        forall|i: int, j: int|
            0 <= i < j < later.len() ==> #[trigger] later[i] != #[trigger] later[j],
        0 <= a < first.len(),
        0 <= b < later.len(),
    ensures
        a == b <==> first[a] == later[b],
{
    assert(first[a] == later[a]);
}

} // verus!
