//! The reference resolver handed to the decoder: a table from content ids to
//! blob bytes.  The decoder takes it as an explicit parameter and resolves
//! every structural reference through it.

use vstd::prelude::*;
use crate::hash::ValueId;

verus! {

broadcast use vstd::seq::axiom_seq_subrange_decreases;

/// The view of a list of byte-string pairs, each as sequences.
pub open spec fn kv_view(s: Seq<(Vec<u8>, Vec<u8>)>) -> Seq<(Seq<u8>, Seq<u8>)> {
    Seq::new(s.len(), |i: int| (s[i].0@, s[i].1@))
}

/// What a table resolves a key to: the bytes of the first entry bearing that
/// key, if any.
pub open spec fn spec_lookup(t: Seq<(Seq<u8>, Seq<u8>)>, id: Seq<u8>) -> Option<Seq<u8>>
    decreases t.len(),
{
    if t.len() == 0 {
        None
    } else if t[0].0 == id {
        Some(t[0].1)
    } else {
        spec_lookup(t.drop_first(), id)
    }
}

/// A table of (content id, blob bytes) entries, resolving ids to blobs
/// during decoding.  Built from the decomposition of one or more values, or
/// from a snapshot of a store's reverse index.
pub struct BlobTable {
    pub entries: Vec<(Vec<u8>, Vec<u8>)>,
}

impl View for BlobTable {
    type V = Seq<(Seq<u8>, Seq<u8>)>;

    open spec fn view(&self) -> Seq<(Seq<u8>, Seq<u8>)> {
        kv_view(self.entries@)
    }
}

/// Compares two byte strings for equality.
pub fn bytes_equal(a: &[u8], b: &[u8]) -> (r: bool)
    ensures
        r == (a@ == b@),
{
    if a.len() != b.len() {
        return false;
    }
    let n = a.len();
    let mut j: usize = 0;
    while j < n
        invariant
            j <= n,
            n == a@.len() == b@.len(),
            forall|k: int| 0 <= k < j ==> a@[k] == b@[k],
        decreases n - j,
    {
        if a[j] != b[j] {
            return false;
        }
        j = j + 1;
    }
    proof {
        assert(a@ =~= b@);
    }
    true
}

impl BlobTable {
    /// The empty table.
    pub fn new() -> (r: BlobTable)
        ensures
            r@ =~= Seq::<(Seq<u8>, Seq<u8>)>::empty(),
    {
        BlobTable { entries: Vec::new() }
    }

    /// Wraps a list of (key, bytes) entries as a table.
    pub fn from_entries(entries: Vec<(Vec<u8>, Vec<u8>)>) -> (r: BlobTable)
        ensures
            r@ == kv_view(entries@),
    {
        BlobTable { entries }
    }

    /// Adds one (id, bytes) entry at the end.
    pub fn insert(&mut self, id: Vec<u8>, bytes: Vec<u8>)
        ensures
            final(self)@ =~= old(self)@.push((id@, bytes@)),
    {
        self.entries.push((id, bytes));
    }

    /// Resolves an id to the bytes of the first entry bearing it.
    pub fn lookup(&self, id: &[u8]) -> (r: Option<&Vec<u8>>)
        ensures
            match r {
                Some(v) => spec_lookup(self@, id@) == Some(v@),
                None => spec_lookup(self@, id@) is None,
            },
    {
        let n = self.entries.len();
        let mut i: usize = 0;
        proof {
            assert(self@.skip(0) =~= self@);
        }
        while i < n
            invariant
                i <= n,
                n == self.entries.len(),
                spec_lookup(self@, id@) == spec_lookup(self@.skip(i as int), id@),
            decreases n - i,
        {
            let e = &self.entries[i];
            proof {
                assert(self@.skip(i as int)[0] == (self.entries@[i as int].0@,
                    self.entries@[i as int].1@));
                assert(self@.skip(i as int).drop_first() =~= self@.skip(i + 1));
            }
            if bytes_equal(e.0.as_slice(), id) {
                return Some(&e.1);
            }
            i = i + 1;
        }
        proof {
            assert(self@.skip(n as int) =~= Seq::<(Seq<u8>, Seq<u8>)>::empty());
        }
        None
    }

    /// Builds the resolver for a decomposition: turns a post-order blob list,
    /// as `serialize_type` returns it, into a table keyed by id.
    pub fn from_blobs(blobs: &Vec<(Vec<u8>, ValueId)>) -> (r: BlobTable)
        ensures
            r@.len() == blobs@.len(),
            forall|i: int| 0 <= i < blobs@.len()
                ==> #[trigger] r@[i] == (blobs@[i].1@, blobs@[i].0@),
    {
        let mut t = BlobTable::new();
        let mut i: usize = 0;
        while i < blobs.len()
            invariant
                i <= blobs@.len(),
                t@.len() == i,
                forall|k: int| 0 <= k < i ==> #[trigger] t@[k] == (blobs@[k].1@, blobs@[k].0@),
            decreases blobs.len() - i,
        {
            let mut bytes: Vec<u8> = Vec::new();
            bytes.extend_from_slice(blobs[i].0.as_slice());
            let mut id: Vec<u8> = Vec::new();
            id.extend_from_slice(blobs[i].1.as_slice());
            t.insert(id, bytes);
            i = i + 1;
        }
        t
    }
}

} // verus!
