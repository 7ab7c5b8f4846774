//! The object store: two persistent indices (blob bytes to id, id to blob
//! bytes) over the ordered storage engine, plus the immutable type registry.
//! `put` decomposes a value and writes every blob into both indices; `scan`
//! runs an ordered prefix scan over the forward index and reconstructs each
//! matching value by resolving its references through the reverse index.

use vstd::prelude::*;
use crate::hash::ValueId;
use crate::model::{Shape, Value, ValModel, Registry, wf_model, shape_wf, registry_wf};
use crate::codec::{
    serialize_type, serialize_prefix, deserialize_type, spec_serialize, spec_encode_prefix,
    spec_decode, blobs_view, DECODE_BUDGET,
};
use crate::table::{BlobTable, kv_view};
use crate::order::{is_sorted_matching, table_matches_map, lemma_snapshot_lookup};
use crate::engine::{
    tree_entries, sled_open, tree_open, tree_insert, tree_get, tree_scan_prefix, tree_clear,
};

verus! {

/// What a store operation can fail with.
#[derive(Debug)]
pub enum VaultError {
    /// The registry handed to `new` mentions a tag it does not define, or
    /// holds more types than one byte can tag.
    InvalidRegistry,
    /// The storage engine failed; the error is the engine's own.
    Storage(sled::Error),
}

/// Decides whether a shape mentions only tags below `count`, for any
/// registry of that many types.
fn shape_registered(s: &Shape, count: usize) -> (r: bool)
    ensures
        forall|reg: Seq<Seq<Shape>>| reg.len() == count ==> r == shape_wf(*s, reg),
    decreases *s,
{
    match s {
        Shape::Unit => true,
        Shape::Prim(_) => true,
        Shape::Record(t) => (*t as usize) < count,
        Shape::Pair(a, b) => shape_registered(a, count) && shape_registered(b, count),
        Shape::Optional(si) => shape_registered(si, count),
    }
}

/// Decides whether a registry is closed: at most 256 types, and every shape
/// its descriptors mention names a registered tag.
#[verifier::loop_isolation(false)]
pub fn registry_is_wf(reg: &Registry) -> (r: bool)
    ensures
        r == registry_wf(reg@),
{
    let count = reg.types.len();
    if count > 256 {
        return false;
    }
    let mut t: usize = 0;
    while t < count
        invariant
            t <= count,
            forall|t2: int, i: int| 0 <= t2 < t && 0 <= i < reg@[t2].len()
                ==> #[trigger] shape_wf(reg@[t2][i], reg@),
        decreases count - t,
    {
        let fields = &reg.types[t].fields;
        let mut i: usize = 0;
        while i < fields.len()
            invariant
                i <= fields@.len(),
                forall|t2: int, i2: int| 0 <= t2 < t && 0 <= i2 < reg@[t2].len()
                    ==> #[trigger] shape_wf(reg@[t2][i2], reg@),
                forall|i2: int| 0 <= i2 < i ==> #[trigger] shape_wf(reg@[t as int][i2], reg@),
            decreases fields@.len() - i,
        {
            if !shape_registered(&fields[i], count) {
                proof {
                    assert(reg@.len() == count);
                    assert(reg@[t as int][i as int] == fields@[i as int]);
                    assert(!shape_wf(reg@[t as int][i as int], reg@));
                }
                return false;
            }
            i = i + 1;
        }
        t = t + 1;
    }
    true
}

/// The forward index after writing a decomposition: each (blob, id) pair
/// inserted in order, the blob bytes as key.
pub open spec fn store_forward_after(
    m: Map<Seq<u8>, Seq<u8>>,
    blobs: Seq<(Seq<u8>, Seq<u8>)>,
) -> Map<Seq<u8>, Seq<u8>>
    decreases blobs.len(),
{
    if blobs.len() == 0 {
        m
    } else {
        store_forward_after(m, blobs.drop_last()).insert(blobs.last().0, blobs.last().1)
    }
}

/// The reverse index after writing a decomposition: each (blob, id) pair
/// inserted in order, the id as key.
pub open spec fn store_reverse_after(
    m: Map<Seq<u8>, Seq<u8>>,
    blobs: Seq<(Seq<u8>, Seq<u8>)>,
) -> Map<Seq<u8>, Seq<u8>>
    decreases blobs.len(),
{
    if blobs.len() == 0 {
        m
    } else {
        store_reverse_after(m, blobs.drop_last()).insert(blobs.last().1, blobs.last().0)
    }
}

proof fn lemma_forward_after_push(m: Map<Seq<u8>, Seq<u8>>, blobs: Seq<(Seq<u8>, Seq<u8>)>, b: (Seq<u8>, Seq<u8>))
    ensures
        store_forward_after(m, blobs.push(b)) == store_forward_after(m, blobs).insert(b.0, b.1),
        store_reverse_after(m, blobs.push(b)) == store_reverse_after(m, blobs).insert(b.1, b.0),
{
    assert(blobs.push(b).drop_last() =~= blobs);
    assert(blobs.push(b).last() == b);
}

/// The result of an ordered scan over a list of forward-index entries: each
/// entry whose value is a well-formed 8-byte id and whose key (the stored
/// blob) decodes under the table contributes its decoded value and id, in
/// entry order; entries that fail to decode are skipped.
pub open spec fn spec_scan(
    entries: Seq<(Seq<u8>, Seq<u8>)>,
    s: Shape,
    table: Seq<(Seq<u8>, Seq<u8>)>,
    reg: Seq<Seq<Shape>>,
) -> Seq<(ValModel, Seq<u8>)>
    decreases entries.len(),
{
    if entries.len() == 0 {
        Seq::empty()
    } else {
        let rest = spec_scan(entries.drop_first(), s, table, reg);
        if entries[0].1.len() == 8 {
            match spec_decode(s, entries[0].0, table, reg, DECODE_BUDGET as nat) {
                Some(p) => seq![(p.1, entries[0].1)] + rest,
                None => rest,
            }
        } else {
            rest
        }
    }
}

/// The raw matching entries a primitive scan returns: those with an 8-byte
/// id, in entry order, undecoded.
pub open spec fn spec_scan_raw(entries: Seq<(Seq<u8>, Seq<u8>)>) -> Seq<(Seq<u8>, Seq<u8>)>
    decreases entries.len(),
{
    if entries.len() == 0 {
        Seq::empty()
    } else {
        let rest = spec_scan_raw(entries.drop_first());
        if entries[0].1.len() == 8 {
            seq![entries[0]] + rest
        } else {
            rest
        }
    }
}

/// The view of a scan result list.
pub open spec fn scan_view(s: Seq<(Value, ValueId)>) -> Seq<(ValModel, Seq<u8>)> {
    Seq::new(s.len(), |i: int| (s[i].0@, s[i].1@))
}

/// The content-addressed store: a forward index (blob bytes to id), a
/// reverse index (id to blob bytes), and the registry fixed at construction.
/// The store keeps no other state between calls.
pub struct TypeVault {
    base_db: sled::Db,
    id_to_value_map: sled::Tree,
    value_to_id_map: sled::Tree,
    pub registry: Registry,
}

impl TypeVault {
    /// The forward index as a map from blob bytes to id bytes.
    pub closed spec fn forward(&self) -> Map<Seq<u8>, Seq<u8>> {
        tree_entries(self.value_to_id_map)
    }

    /// The reverse index as a map from id bytes to blob bytes.
    pub closed spec fn reverse(&self) -> Map<Seq<u8>, Seq<u8>> {
        tree_entries(self.id_to_value_map)
    }

    /// The registered type descriptors, in tag order.
    pub closed spec fn registry_view(&self) -> Seq<Seq<Shape>> {
        self.registry@
    }

    /// Opens (or creates) the store at `path` with the given ordered
    /// registry; the tag of each type is its position in the registry.  An
    /// ill-formed registry — and exactly an ill-formed one — is refused as
    /// `InvalidRegistry`, before the engine is touched; any other failure is
    /// the engine's own, passed through as `Storage`.  What the indices hold
    /// is whatever the disk holds.
    pub fn new(path: &str, registry: Registry) -> (r: Result<TypeVault, VaultError>)
        ensures
            r matches Ok(v) ==> v.registry_view() == registry@ && registry_wf(v.registry_view()),
            (r matches Err(e) && e is InvalidRegistry) <==> !registry_wf(registry@),
    {
        if !registry_is_wf(&registry) {
            return Err(VaultError::InvalidRegistry);
        }
        let db = match sled_open(path) {
            Ok(d) => d,
            Err(e) => {
                return Err(VaultError::Storage(e));
            },
        };
        let id_to_value_map = match tree_open(&db, "id_to_value") {
            Ok(t) => t,
            Err(e) => {
                return Err(VaultError::Storage(e));
            },
        };
        let value_to_id_map = match tree_open(&db, "value_to_id") {
            Ok(t) => t,
            Err(e) => {
                return Err(VaultError::Storage(e));
            },
        };
        Ok(TypeVault { base_db: db, id_to_value_map, value_to_id_map, registry })
    }

    /// Decomposes `value` and writes every (blob, id) pair of the post-order
    /// decomposition into both indices, nested blobs before their parents.
    /// Writing an already-present blob overwrites it with equal content.  On
    /// an engine error the write stops there, with no rollback: both indices
    /// hold the fold of a prefix of the decomposition — so a blob's nested
    /// blobs are always written no later than the blob itself — with the
    /// forward index at most one pair ahead of the reverse index.
    #[verifier::loop_isolation(false)]
    pub fn put(&mut self, value: &Value) -> (r: Result<(), VaultError>)
        requires
            wf_model(value@, old(self).registry_view()),
        ensures
            final(self).registry_view() == old(self).registry_view(),
            r is Ok ==> final(self).forward() == store_forward_after(
                old(self).forward(), spec_serialize(value@),
            ) && final(self).reverse() == store_reverse_after(
                old(self).reverse(), spec_serialize(value@),
            ),
            r is Err ==> exists|jf: int, jr: int|
                #![trigger spec_serialize(value@).take(jf), spec_serialize(value@).take(jr)]
                0 <= jr <= jf <= spec_serialize(value@).len() && jf <= jr + 1
                && final(self).forward() == store_forward_after(
                    old(self).forward(), spec_serialize(value@).take(jf),
                ) && final(self).reverse() == store_reverse_after(
                    old(self).reverse(), spec_serialize(value@).take(jr),
                ),
    {
        let data = serialize_type(value);
        let ghost blobs = spec_serialize(value@);
        let n = data.len();
        let mut i: usize = 0;
        proof {
            assert(blobs.take(0) =~= Seq::<(Seq<u8>, Seq<u8>)>::empty());
        }
        while i < n
            invariant
                i <= n,
                n == data@.len(),
                blobs_view(data@) =~= blobs,
                blobs.len() == n,
                self.registry == old(self).registry,
                self.registry_view() == old(self).registry_view(),
                self.forward() == store_forward_after(old(self).forward(), blobs.take(i as int)),
                self.reverse() == store_reverse_after(old(self).reverse(), blobs.take(i as int)),
            decreases n - i,
        {
            let entry = &data[i];
            proof {
                assert(blobs[i as int] == (entry.0@, entry.1@));
                assert(blobs.take(i + 1) =~= blobs.take(i as int).push(blobs[i as int]));
                lemma_forward_after_push(old(self).forward(), blobs.take(i as int),
                    blobs[i as int]);
                lemma_forward_after_push(old(self).reverse(), blobs.take(i as int),
                    blobs[i as int]);
            }
            match tree_insert(&mut self.value_to_id_map, entry.0.as_slice(), entry.1.as_slice()) {
                Ok(u) => u,
                Err(e) => {
                    proof {
                        if self.forward() == store_forward_after(old(self).forward(),
                            blobs.take(i as int)) {
                            assert(0 <= i as int <= i as int <= blobs.len()
                                && i as int <= i as int + 1
                                && self.forward() == store_forward_after(old(self).forward(),
                                    blobs.take(i as int))
                                && self.reverse() == store_reverse_after(old(self).reverse(),
                                    blobs.take(i as int)));
                        } else {
                            assert(0 <= i as int <= i + 1 <= blobs.len()
                                && i + 1 <= i as int + 1
                                && self.forward() == store_forward_after(old(self).forward(),
                                    blobs.take(i + 1))
                                && self.reverse() == store_reverse_after(old(self).reverse(),
                                    blobs.take(i as int)));
                        }
                    }
                    return Err(VaultError::Storage(e));
                },
            };
            match tree_insert(&mut self.id_to_value_map, entry.1.as_slice(), entry.0.as_slice()) {
                Ok(u) => u,
                Err(e) => {
                    proof {
                        if self.reverse() == store_reverse_after(old(self).reverse(),
                            blobs.take(i as int)) {
                            assert(0 <= i as int <= i + 1 <= blobs.len()
                                && i + 1 <= i as int + 1
                                && self.forward() == store_forward_after(old(self).forward(),
                                    blobs.take(i + 1))
                                && self.reverse() == store_reverse_after(old(self).reverse(),
                                    blobs.take(i as int)));
                        } else {
                            assert(0 <= i + 1 <= i + 1 <= blobs.len()
                                && i + 1 <= i + 1 + 1
                                && self.forward() == store_forward_after(old(self).forward(),
                                    blobs.take(i + 1))
                                && self.reverse() == store_reverse_after(old(self).reverse(),
                                    blobs.take(i + 1)));
                        }
                    }
                    return Err(VaultError::Storage(e));
                },
            };
            i = i + 1;
        }
        proof {
            assert(blobs.take(n as int) =~= blobs);
        }
        Ok(())
    }

    /// Empties both indices.  On an engine error a partially cleared state
    /// may remain.
    pub fn clear(&mut self) -> (r: Result<(), VaultError>)
        ensures
            final(self).registry_view() == old(self).registry_view(),
            r is Ok ==> final(self).forward() =~= Map::empty()
                && final(self).reverse() =~= Map::empty(),
    {
        match tree_clear(&mut self.id_to_value_map) {
            Ok(u) => u,
            Err(e) => {
                return Err(VaultError::Storage(e));
            },
        };
        match tree_clear(&mut self.value_to_id_map) {
            Ok(u) => u,
            Err(e) => {
                return Err(VaultError::Storage(e));
            },
        };
        Ok(())
    }

    /// Resolves a content id through the reverse index.  A `Some` answer is
    /// the blob stored under the id; `None` means the id is absent, or the
    /// engine failed to answer.
    pub fn lookup_id(&self, id: ValueId) -> (r: Option<Vec<u8>>)
        ensures
            r matches Some(v) ==> self.reverse().contains_key(id@)
                && v@ == self.reverse()[id@],
    {
        match tree_get(&self.id_to_value_map, id.as_slice()) {
            Ok(Some(v)) => Some(v),
            Ok(None) => None,
            Err(_e) => None,
        }
    }

    /// Computes the prefix key of `value`'s first `fields_in_prefix` fields
    /// and returns every stored value whose encoding begins with it, in
    /// encoded-key byte order, reconstructed through the reverse index.
    /// Entries that fail to decode are skipped, not fatal.
    pub fn scan(&self, value: &Value, fields_in_prefix: u64) -> (r: Result<
        Vec<(Value, ValueId)>,
        VaultError,
    >)
        requires
            registry_wf(self.registry_view()),
            value@ is Record,
            wf_model(value@, self.registry_view()),
        ensures
            r matches Ok(res) ==> exists|es: Seq<(Seq<u8>, Seq<u8>)>, tb: Seq<(Seq<u8>, Seq<u8>)>|
                is_sorted_matching(es, self.forward(),
                    spec_encode_prefix(value@, fields_in_prefix as int))
                && table_matches_map(tb, self.reverse())
                && scan_view(res@) == spec_scan(es, Shape::Record(value@->Record_0), tb,
                    self.registry_view()),
    {
        let prefix = serialize_prefix(value, fields_in_prefix);
        let tag: u8 = match value {
            Value::Record(t, _) => *t,
            _ => {
                proof {
                    assert(false);
                }
                0
            },
        };
        self.debug_scan(&Shape::Record(tag), prefix)
    }

    /// Scans the forward index for keys beginning with the raw `prefix` and
    /// decodes each matching blob as a value of shape `s`, resolving
    /// references through a snapshot of the reverse index.  Entries whose id
    /// is not 8 bytes wide or whose blob fails to decode are skipped.
    #[verifier::loop_isolation(false)]
    pub fn debug_scan(&self, s: &Shape, prefix: Vec<u8>) -> (r: Result<
        Vec<(Value, ValueId)>,
        VaultError,
    >)
        requires
            registry_wf(self.registry_view()),
            shape_wf(*s, self.registry_view()),
        ensures
            r matches Ok(res) ==> exists|es: Seq<(Seq<u8>, Seq<u8>)>, tb: Seq<(Seq<u8>, Seq<u8>)>|
                is_sorted_matching(es, self.forward(), prefix@)
                && table_matches_map(tb, self.reverse())
                && scan_view(res@) == spec_scan(es, *s, tb, self.registry_view()),
    {
        let fwd = match tree_scan_prefix(&self.value_to_id_map, prefix.as_slice()) {
            Ok(es) => es,
            Err(e) => {
                return Err(VaultError::Storage(e));
            },
        };
        let no_prefix: Vec<u8> = Vec::new();
        let rev = match tree_scan_prefix(&self.id_to_value_map, no_prefix.as_slice()) {
            Ok(es) => es,
            Err(e) => {
                return Err(VaultError::Storage(e));
            },
        };
        proof {
            lemma_snapshot_lookup(kv_view(rev@), self.reverse());
        }
        let lookup = BlobTable::from_entries(rev);
        let ghost es = kv_view(fwd@);
        let n = fwd.len();
        let mut out: Vec<(Value, ValueId)> = Vec::new();
        let mut i: usize = 0;
        proof {
            assert(es.skip(0) =~= es);
            assert(scan_view(out@) =~= Seq::<(ValModel, Seq<u8>)>::empty());
        }
        while i < n
            invariant
                i <= n,
                n == fwd@.len(),
                es == kv_view(fwd@),
                spec_scan(es, *s, lookup@, self.registry_view()) == scan_view(out@)
                    + spec_scan(es.skip(i as int), *s, lookup@, self.registry_view()),
            decreases n - i,
        {
            let entry = &fwd[i];
            proof {
                assert(es.skip(i as int)[0] == (entry.0@, entry.1@));
                assert(es.skip(i as int).drop_first() =~= es.skip(i + 1));
            }
            if entry.1.len() == 8 {
                let id = crate::codec::read_id(entry.1.as_slice(), 0);
                proof {
                    assert(id@ =~= entry.1@);
                }
                match deserialize_type(s, entry.0.as_slice(), &lookup, &self.registry) {
                    Some(v) => {
                        proof {
                            assert(scan_view(out@.push((v, id)))
                                =~= scan_view(out@).push((v@, id@)));
                            assert(scan_view(out@).push((v@, id@))
                                + spec_scan(es.skip(i + 1), *s, lookup@, self.registry_view())
                                =~= scan_view(out@) + (seq![(v@, entry.1@)]
                                    + spec_scan(es.skip(i + 1), *s, lookup@, self.registry_view())));
                        }
                        out.push((v, id));
                    },
                    None => {},
                }
            }
            i = i + 1;
        }
        proof {
            assert(es.skip(n as int) =~= Seq::<(Seq<u8>, Seq<u8>)>::empty());
            assert(scan_view(out@) + Seq::<(ValModel, Seq<u8>)>::empty() =~= scan_view(out@));
        }
        Ok(out)
    }

    /// Scans the forward index for keys beginning with the raw `prefix` and
    /// returns the matching (blob bytes, id) entries undecoded, in key
    /// order.  Entries whose id is not 8 bytes wide are skipped.
    #[verifier::loop_isolation(false)]
    pub fn debug_scan_primitive(&self, prefix: Vec<u8>) -> (r: Result<
        Vec<(Vec<u8>, ValueId)>,
        VaultError,
    >)
        ensures
            r matches Ok(res) ==> exists|es: Seq<(Seq<u8>, Seq<u8>)>|
                is_sorted_matching(es, self.forward(), prefix@)
                && blobs_view(res@) == spec_scan_raw(es),
    {
        let fwd = match tree_scan_prefix(&self.value_to_id_map, prefix.as_slice()) {
            Ok(es) => es,
            Err(e) => {
                return Err(VaultError::Storage(e));
            },
        };
        let ghost es = kv_view(fwd@);
        let n = fwd.len();
        let mut out: Vec<(Vec<u8>, ValueId)> = Vec::new();
        let mut i: usize = 0;
        proof {
            assert(es.skip(0) =~= es);
            assert(blobs_view(out@) =~= Seq::<(Seq<u8>, Seq<u8>)>::empty());
        }
        while i < n
            invariant
                i <= n,
                n == fwd@.len(),
                es == kv_view(fwd@),
                spec_scan_raw(es) == blobs_view(out@) + spec_scan_raw(es.skip(i as int)),
            decreases n - i,
        {
            let entry = &fwd[i];
            proof {
                assert(es.skip(i as int)[0] == (entry.0@, entry.1@));
                assert(es.skip(i as int).drop_first() =~= es.skip(i + 1));
            }
            if entry.1.len() == 8 {
                let id = crate::codec::read_id(entry.1.as_slice(), 0);
                let mut bytes: Vec<u8> = Vec::new();
                bytes.extend_from_slice(entry.0.as_slice());
                proof {
                    assert(id@ =~= entry.1@);
                    assert(bytes@ =~= entry.0@);
                    assert(blobs_view(out@.push((bytes, id)))
                        =~= blobs_view(out@).push((bytes@, id@)));
                    assert(blobs_view(out@).push((bytes@, id@))
                        + spec_scan_raw(es.skip(i + 1))
                        =~= blobs_view(out@) + (seq![(entry.0@, entry.1@)]
                            + spec_scan_raw(es.skip(i + 1))));
                }
                out.push((bytes, id));
            }
            i = i + 1;
        }
        proof {
            assert(es.skip(n as int) =~= Seq::<(Seq<u8>, Seq<u8>)>::empty());
            assert(blobs_view(out@) + Seq::<(Seq<u8>, Seq<u8>)>::empty() =~= blobs_view(out@));
        }
        Ok(out)
    }

    /// Snapshots both indices, forward first, each in ascending key order.
    /// The compute half of printing or inspecting the store's contents.
    pub fn dump_entries(&self) -> (r: Result<
        (Vec<(Vec<u8>, Vec<u8>)>, Vec<(Vec<u8>, Vec<u8>)>),
        VaultError,
    >)
        ensures
            r matches Ok(p) ==> is_sorted_matching(kv_view(p.0@), self.forward(), Seq::empty())
                && is_sorted_matching(kv_view(p.1@), self.reverse(), Seq::empty()),
    {
        let no_prefix: Vec<u8> = Vec::new();
        let fwd = match tree_scan_prefix(&self.value_to_id_map, no_prefix.as_slice()) {
            Ok(es) => es,
            Err(e) => {
                return Err(VaultError::Storage(e));
            },
        };
        let rev = match tree_scan_prefix(&self.id_to_value_map, no_prefix.as_slice()) {
            Ok(es) => es,
            Err(e) => {
                return Err(VaultError::Storage(e));
            },
        };
        Ok((fwd, rev))
    }
}

} // verus!
