//! The minimal perfect hash function: an ordered list of levels, each a bit
//! vector with rank checkpoints. A key is hashed level by level; the first
//! level whose bit is set answers with its rank, which already carries the
//! global offset of the keys resolved by earlier levels.

use vstd::prelude::*;

use crate::bitvector::BitVector;
use crate::hashing::hashmod;
use crate::hashing::spec_hashmod;

verus! {

/// The greatest number of levels a construction may produce; reaching it
/// without resolving every key signals a duplicate or degenerate key set.
pub const MAX_LEVELS: usize = 32;

/// Failure of a lookup.
#[derive(Clone, Copy, Debug, PartialEq, Eq, Structural)]
pub enum QueryError {
    /// No level answered: the key cannot have been in the construction set.
    NotInConstructionSet,
    /// The answered index lies outside the entry table: the embedded data is
    /// corrupted or mismatched.
    OutOfRange,
}

/// A minimal perfect hash function over a fixed set of byte-string keys.
#[derive(Debug)]
pub struct Mphf {
    /// The construction levels, in order.
    pub levels: Vec<BitVector>,
}

impl Mphf {
    /// Every level is well formed and nonempty, and there are few enough
    /// levels for the per-level seeds to be well defined.
    pub open spec fn wf(self) -> bool {
        &&& self.levels@.len() <= MAX_LEVELS
        &&& forall|i: int|
            0 <= i < self.levels@.len() ==> (#[trigger] self.levels@[i]).wf()
                && self.levels@[i].bits >= 1
    }

    /// What `hash` answers for `key` when levels from `i` on remain: the
    /// rank of the key's position in the first remaining level that has the
    /// position set, if any.
    pub open spec fn spec_hash_from(self, key: Seq<u8>, i: int) -> Option<u64>
        decreases self.levels@.len() - i
    {
        if i < 0 || i >= self.levels@.len() {
            None
        } else {
            let bv = self.levels@[i];
            let p = spec_hashmod(key, i, bv.bits);
            if bv.bit_set(p as int) {
                Some(bv.spec_rank(p as int) as u64)
            } else {
                self.spec_hash_from(key, i + 1)
            }
        }
    }

    /// What `hash` answers for `key`.
    pub open spec fn spec_hash(self, key: Seq<u8>) -> Option<u64> {
        self.spec_hash_from(key, 0)
    }

    /// Assembles the hash function from its levels.
    pub fn new(levels: Vec<BitVector>) -> (r: Mphf)
        requires
            (Mphf { levels }).wf(),
        ensures
            r == (Mphf { levels }),
            r.wf(),
    {
        Mphf { levels }
    }

    /// The rank of position `hash` in level `i`: the count of set positions
    /// below it there, plus the level's embedded base offset.
    pub fn get_rank(&self, hash: u64, i: usize) -> (r: u64)
        requires
            self.wf(),
            i < self.levels@.len(),
            hash < self.levels@[i as int].bits,
        ensures
            r as int == self.levels@[i as int].spec_rank(hash as int),
    {
        self.levels[i].rank(hash)
    }

    /// The index of `key` in the dense range the construction set was mapped
    /// onto, or `NotInConstructionSet` if no level answers. A key outside
    /// the construction set may still land on a set bit of some level and
    /// receive a spurious in-range index: the hash function offers no
    /// membership test, and callers needing certainty must compare the entry
    /// found at the answered index against the key they asked for.
    pub fn hash(&self, key: &[u8]) -> (r: Result<u64, QueryError>)
        requires
            self.wf(),
        ensures
            match self.spec_hash(key@) {
                Some(v) => r == Ok::<u64, QueryError>(v),
                None => r == Err::<u64, QueryError>(QueryError::NotInConstructionSet),
            },
    {
        let n = self.levels.len();
        let mut i: usize = 0;
        while i < n
            invariant
                self.wf(),
                n == self.levels@.len(),
                0 <= i <= n,
                self.spec_hash(key@) == self.spec_hash_from(key@, i as int),
            decreases n - i,
        {
            let bv = &self.levels[i];
            let capacity = bv.capacity();
            let h = hashmod(i as u64, key, capacity);
            if bv.contains(h) {
                let r = self.get_rank(h, i);
                proof {
                    assert(self.spec_hash_from(key@, i as int) == Some(r));
                }
                return Ok(r);
            }
            i = i + 1;
        }
        Err(QueryError::NotInConstructionSet)
    }
}

} // verus!
