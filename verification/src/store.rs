//! The runtime facade: a permuted entry table paired with the hash function
//! that placed it, answering key lookups in constant time.

use vstd::prelude::*;

use crate::bitvector::BitVector;
use crate::mphf::Mphf;
use crate::mphf::QueryError;

verus! {

/// An embedded file: a path and its contents, both byte strings.
#[derive(Debug)]
pub struct File {
    /// The key the file is looked up by.
    pub path: Vec<u8>,
    /// The file's bytes.
    pub contents: Vec<u8>,
}

impl File {
    /// A file from its parts.
    pub fn new(path: Vec<u8>, contents: Vec<u8>) -> (f: File)
        ensures
            f.path == path,
            f.contents == contents,
    {
        File { path, contents }
    }
}

/// One entry of the embedded table.
#[derive(Debug)]
pub enum Entry {
    /// A file entry.
    File(File),
}

/// The file inside an entry.
pub open spec fn entry_file(e: Entry) -> File {
    match e {
        Entry::File(f) => f,
    }
}

/// Whether two byte strings hold the same bytes.
pub fn eq_bytes(a: &[u8], b: &[u8]) -> (r: bool)
    ensures
        r == (a@ == b@),
{
    if a.len() != b.len() {
        proof {
            assert(a@.len() != b@.len());
        }
        return false;
    }
    let n = a.len();
    let mut j: usize = 0;
    while j < n
        invariant
            n == a@.len(),
            n == b@.len(),
            0 <= j <= n,
            forall|t: int| 0 <= t < j ==> a@[t] == b@[t],
        decreases n - j,
    {
        if a[j] != b[j] {
            return false;
        }
        j = j + 1;
    }
    proof {
        assert(a@ =~= b@);
    }
    true
}

/// A read-only table of entries in hash order, with the hash function that
/// placed them.
#[derive(Debug)]
pub struct Wheatley {
    /// The entries, one per index the hash function can answer.
    pub entries: Vec<Entry>,
    /// The hash function.
    pub mphf: Mphf,
}

impl Wheatley {
    /// The embedded hash function is well formed.
    pub open spec fn wf(self) -> bool {
        self.mphf.wf()
    }

    /// What `lookup` answers for `key`.
    pub open spec fn spec_lookup(self, key: Seq<u8>) -> Result<File, QueryError> {
        match self.mphf.spec_hash(key) {
            None => Err(QueryError::NotInConstructionSet),
            Some(v) => {
                if v < self.entries@.len() {
                    Ok(entry_file(self.entries@[v as int]))
                } else {
                    Err(QueryError::OutOfRange)
                }
            },
        }
    }

    /// What `get` answers for `key`: the file at the hashed index, and only
    /// if its stored path is the queried key.
    pub open spec fn spec_get(self, key: Seq<u8>) -> Option<File> {
        match self.spec_lookup(key) {
            Err(_) => None,
            Ok(f) => if f.path@ == key {
                Some(f)
            } else {
                None
            },
        }
    }

    /// A store from its entry table and the embedded state of its hash
    /// function's levels.
    pub fn new(entries: Vec<Entry>, levels: Vec<BitVector>) -> (w: Wheatley)
        requires
            (Mphf { levels }).wf(),
        ensures
            w.entries == entries,
            w.mphf == (Mphf { levels }),
            w.wf(),
    {
        let mphf = Mphf::new(levels);
        Wheatley { entries, mphf }
    }

    /// The entry for `key`: `NotInConstructionSet` when no level of the hash
    /// function answers, `OutOfRange` when the answered index lies outside
    /// the table — the mark of corrupted or mismatched embedded data, which
    /// an embedding application should treat as fatal. A hit is not checked
    /// against the queried key here; see `get` for the hardened lookup.
    pub fn lookup(&self, key: &[u8]) -> (r: Result<&File, QueryError>)
        requires
            self.wf(),
        ensures
            match self.spec_lookup(key@) {
                Ok(f) => r is Ok && *r.unwrap() == f,
                Err(e) => r == Err::<&File, QueryError>(e),
            },
    {
        match self.mphf.hash(key) {
            Err(e) => Err(e),
            Ok(v) => {
                if v >= self.entries.len() as u64 {
                    Err(QueryError::OutOfRange)
                } else {
                    let Entry::File(f) = &self.entries[v as usize];
                    Ok(f)
                }
            },
        }
    }

    /// The file embedded under `key`, or `None`. The answered entry's stored
    /// path is compared against the queried key, so a key outside the
    /// construction set never returns another key's file; errors of the
    /// underlying lookup answer `None` as well.
    pub fn get(&self, key: &[u8]) -> (r: Option<&File>)
        requires
            self.wf(),
        ensures
            match self.spec_get(key@) {
                Some(f) => r is Some && *r.unwrap() == f,
                None => r is None,
            },
    {
        match self.lookup(key) {
            Err(_) => None,
            Ok(f) => {
                if eq_bytes(f.path.as_slice(), key) {
                    Some(f)
                } else {
                    None
                }
            },
        }
    }
}

} // verus!
