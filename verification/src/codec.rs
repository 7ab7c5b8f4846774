//! The value codec: decomposition of a value into nested blobs plus a
//! flattened record, the field-count-bounded prefix encoding used as a scan
//! key, and the reference-resolving decoder.
//!
//! The binary layout is canonical and deterministic: a record is its type's
//! tag byte followed by its fields in declaration order, primitives verbatim
//! (fixed-width, big-endian), structural fields as the 8-byte content id of
//! their own encoding; a pair is its two components in sequence; an optional
//! value is a discriminator byte (0 = absent, 1 = present + inner encoding);
//! the unit value is empty.

use vstd::prelude::*;
use vstd::slice::{slice_subrange, slice_to_vec};
use crate::hash::{ValueId, spec_id_of, value_id_of};
use crate::model::{
    Shape, Value, ValModel, Registry, models_of, lemma_models_of, model_primitive,
    shape_primitive, shape_wf, registry_wf, value_is_primitive,
};
use crate::table::{BlobTable, spec_lookup};

verus! {

broadcast use
    vstd::seq::axiom_seq_index_decreases,
    vstd::seq::axiom_seq_subrange_decreases,
    vstd::std_specs::vec::axiom_vec_index_decreases;

/// The canonical encoding of a value: the byte string that `serialize_into`
/// appends to its destination buffer.
pub open spec fn spec_encode(m: ValModel) -> Seq<u8>
    decreases m, 1int,
{
    match m {
        ValModel::Unit => Seq::empty(),
        ValModel::Prim(b) => b,
        ValModel::Record(t, fs) => seq![t] + spec_encode_fields(fs),
        ValModel::Pair(a, b) => spec_encode(*a) + spec_encode(*b),
        ValModel::Maybe(o) => match o {
            None => seq![0u8],
            Some(x) => seq![1u8] + spec_encode(*x),
        },
    }
}

/// How one record field appears inside its parent's flattened record: a
/// primitive field verbatim, a structural field as the content id of its own
/// encoding.
pub open spec fn spec_field_encoding(m: ValModel) -> Seq<u8>
    decreases m, 2int,
{
    if model_primitive(m) {
        spec_encode(m)
    } else {
        spec_id_of(spec_encode(m))
    }
}

/// The concatenated field encodings of a record, in declaration order.
pub open spec fn spec_encode_fields(fs: Seq<ValModel>) -> Seq<u8>
    decreases fs, 0int,
{
    if fs.len() == 0 {
        Seq::empty()
    } else {
        spec_encode_fields(fs.drop_last()) + spec_field_encoding(fs.last())
    }
}

/// The post-order list of nested blobs produced while decomposing a value:
/// one (blob bytes, id bytes) pair per structural field occurrence, a field's
/// own nested blobs before the field's blob, the fields in declaration order.
/// The value's own record blob is not part of this list.
pub open spec fn spec_nested(m: ValModel) -> Seq<(Seq<u8>, Seq<u8>)>
    decreases m, 1int,
{
    match m {
        ValModel::Unit => Seq::empty(),
        ValModel::Prim(_) => Seq::empty(),
        ValModel::Record(t, fs) => spec_nested_fields(fs),
        ValModel::Pair(a, b) => spec_nested(*a) + spec_nested(*b),
        ValModel::Maybe(o) => match o {
            None => Seq::empty(),
            Some(x) => spec_nested(*x),
        },
    }
}

/// The blobs one record field contributes: nothing for a primitive field; for
/// a structural field, the field's own nested blobs followed by the field's
/// blob with its content id.
pub open spec fn spec_field_blobs(m: ValModel) -> Seq<(Seq<u8>, Seq<u8>)>
    decreases m, 2int,
{
    if model_primitive(m) {
        Seq::empty()
    } else {
        spec_nested(m).push((spec_encode(m), spec_id_of(spec_encode(m))))
    }
}

/// The nested blobs of a record's fields, in declaration order.
pub open spec fn spec_nested_fields(fs: Seq<ValModel>) -> Seq<(Seq<u8>, Seq<u8>)>
    decreases fs, 0int,
{
    if fs.len() == 0 {
        Seq::empty()
    } else {
        spec_nested_fields(fs.drop_last()) + spec_field_blobs(fs.last())
    }
}

/// The full decomposition of a value: its nested blobs in post order,
/// followed by the value's own blob with its content id.  This is what `put`
/// persists, last entry included.
pub open spec fn spec_serialize(m: ValModel) -> Seq<(Seq<u8>, Seq<u8>)> {
    spec_nested(m).push((spec_encode(m), spec_id_of(spec_encode(m))))
}

/// The prefix encoding of a record covering its first `k` declared fields:
/// the tag byte, then each covered field encoded exactly as in the full
/// record.  Covers all fields when `k` meets or exceeds the field count.
/// Meaningful only for records.
pub open spec fn spec_encode_prefix(m: ValModel, k: int) -> Seq<u8>
    recommends m is Record,
{
    match m {
        ValModel::Record(t, fs) => seq![t] + spec_encode_fields(
            fs.take(if k < fs.len() { k } else { fs.len() as int }),
        ),
        _ => Seq::empty(),
    }
}

/// Extending the covered fields by one extends their encoding by that
/// field's encoding.
pub proof fn lemma_encode_fields_push(fs: Seq<ValModel>, m: ValModel)
    ensures
        spec_encode_fields(fs.push(m)) == spec_encode_fields(fs) + spec_field_encoding(m),
{
    assert(fs.push(m).drop_last() =~= fs);
    assert(fs.push(m).last() == m);
}

/// Extending the covered fields by one appends that field's blobs.
pub proof fn lemma_nested_fields_push(fs: Seq<ValModel>, m: ValModel)
    ensures
        spec_nested_fields(fs.push(m)) == spec_nested_fields(fs) + spec_field_blobs(m),
{
    assert(fs.push(m).drop_last() =~= fs);
    assert(fs.push(m).last() == m);
}

/// A primitive value contributes no nested blobs.
pub proof fn lemma_nested_of_primitive(m: ValModel)
    requires
        model_primitive(m),
    ensures
        spec_nested(m) =~= Seq::<(Seq<u8>, Seq<u8>)>::empty(),
    decreases m,
{
    match m {
        ValModel::Pair(a, b) => {
            lemma_nested_of_primitive(*a);
            lemma_nested_of_primitive(*b);
        },
        _ => {},
    }
}

/// The view of an exec blob list: each (bytes, id) pair as sequences.
pub open spec fn blobs_view(s: Seq<(Vec<u8>, ValueId)>) -> Seq<(Seq<u8>, Seq<u8>)> {
    Seq::new(s.len(), |i: int| (s[i].0@, s[i].1@))
}

/// Appends the 8 id bytes to a byte buffer.
fn push_id(dest: &mut Vec<u8>, id: &ValueId)
    ensures
        final(dest)@ == old(dest)@ + id@,
{
    let mut j: usize = 0;
    while j < 8
        invariant
            j <= 8,
            dest@ == old(dest)@ + id@.take(j as int),
        decreases 8 - j,
    {
        dest.push(id[j]);
        proof {
            assert(id@.take(j + 1 as int) =~= id@.take(j as int).push(id@[j as int]));
        }
        j = j + 1;
    }
    proof {
        assert(id@.take(8) =~= id@);
    }
}

/// Decomposes `value`, appending its encoding to `dest` and every nested blob
/// of its structural fields, post order, to `nested_dest`.
#[verifier::loop_isolation(false)]
pub fn serialize_into(value: &Value, nested_dest: &mut Vec<(Vec<u8>, ValueId)>, dest: &mut Vec<u8>)
    ensures
        final(dest)@ == old(dest)@ + spec_encode(value@),
        blobs_view(final(nested_dest)@) =~= blobs_view(old(nested_dest)@) + spec_nested(value@),
    decreases *value,
{
    match value {
        Value::Unit => {
            proof {
                assert(dest@ =~= old(dest)@ + spec_encode(value@));
            }
        },
        Value::Prim(b) => {
            dest.extend_from_slice(b.as_slice());
        },
        Value::Record(t, fs) => {
            dest.push(*t);
            let ghost models = models_of(fs@);
            proof {
                lemma_models_of(fs@);
                assert(models.take(0) =~= Seq::<ValModel>::empty());
                assert(blobs_view(nested_dest@) =~= blobs_view(old(nested_dest)@)
                    + spec_nested_fields(models.take(0)));
                assert(dest@ =~= old(dest)@ + seq![*t] + spec_encode_fields(models.take(0)));
            }
            let mut i: usize = 0;
            while i < fs.len()
                invariant
                    i <= fs.len(),
                    models == models_of(fs@),
                    models.len() == fs@.len(),
                    forall|k: int| 0 <= k < fs@.len() ==> #[trigger] models[k] == fs@[k]@,
                    dest@ == old(dest)@ + seq![*t as u8] + spec_encode_fields(models.take(i as int)),
                    blobs_view(nested_dest@) =~= blobs_view(old(nested_dest)@)
                        + spec_nested_fields(models.take(i as int)),
                decreases fs.len() - i,
            {
                let f = &fs[i];
                proof {
                    assert(decreases_to!(*value => *fs));
                    assert(decreases_to!(*fs => fs@[i as int]));
                    assert(models.take(i + 1) =~= models.take(i as int).push(models[i as int]));
                    lemma_encode_fields_push(models.take(i as int), f@);
                    lemma_nested_fields_push(models.take(i as int), f@);
                }
                if value_is_primitive(f) {
                    serialize_into(f, nested_dest, dest);
                    proof {
                        lemma_nested_of_primitive(f@);
                        assert(blobs_view(nested_dest@) =~= blobs_view(old(nested_dest)@)
                            + spec_nested_fields(models.take(i + 1)));
                        assert(dest@ =~= old(dest)@ + seq![*t as u8]
                            + spec_encode_fields(models.take(i + 1)));
                    }
                } else {
                    let mut dest_nested: Vec<u8> = Vec::new();
                    serialize_into(f, nested_dest, &mut dest_nested);
                    let id = value_id_of(&dest_nested);
                    proof {
                        assert(blobs_view(nested_dest@.push((dest_nested, id)))
                            =~= blobs_view(nested_dest@).push((dest_nested@, id@)));
                    }
                    nested_dest.push((dest_nested, id));
                    push_id(dest, &id);
                    proof {
                        assert(blobs_view(nested_dest@) =~= blobs_view(old(nested_dest)@)
                            + spec_nested_fields(models.take(i + 1)));
                        assert(dest@ =~= old(dest)@ + seq![*t as u8]
                            + spec_encode_fields(models.take(i + 1)));
                    }
                }
                i = i + 1;
            }
            proof {
                assert(models.take(fs@.len() as int) =~= models);
                assert(dest@ =~= old(dest)@ + spec_encode(value@));
            }
        },
        Value::Pair(a, b) => {
            serialize_into(a, nested_dest, dest);
            serialize_into(b, nested_dest, dest);
            proof {
                assert(dest@ =~= old(dest)@ + spec_encode(value@));
            }
        },
        Value::Maybe(o) => {
            match o {
                None => {
                    dest.push(0u8);
                    proof {
                        assert(dest@ =~= old(dest)@ + spec_encode(value@));
                    }
                },
                Some(x) => {
                    dest.push(1u8);
                    serialize_into(x, nested_dest, dest);
                    proof {
                        assert(dest@ =~= old(dest)@ + spec_encode(value@));
                    }
                },
            }
        },
    }
}

/// Fully decomposes a value: returns its nested blobs in post order followed
/// by the value's own (blob, content id) pair.  Identical values always yield
/// identical blob lists and ids; that is the deduplication contract.
pub fn serialize_type(value: &Value) -> (r: Vec<(Vec<u8>, ValueId)>)
    ensures
        blobs_view(r@) =~= spec_serialize(value@),
{
    let mut nested_dest: Vec<(Vec<u8>, ValueId)> = Vec::new();
    let mut dest: Vec<u8> = Vec::new();
    serialize_into(value, &mut nested_dest, &mut dest);
    let id = value_id_of(&dest);
    proof {
        assert(blobs_view(Seq::<(Vec<u8>, ValueId)>::empty()) =~= Seq::<(Seq<u8>, Seq<u8>)>::empty());
        assert(blobs_view(nested_dest@.push((dest, id)))
            =~= blobs_view(nested_dest@).push((dest@, id@)));
    }
    nested_dest.push((dest, id));
    nested_dest
}

/// Encodes the scan-key prefix of a record covering its first
/// `fields_in_prefix` declared fields: the tag byte, primitives verbatim,
/// structural fields as the content id of their own full encoding.  Prefix
/// encoding is meaningful only for records; for pairs and optional values it
/// is a contract violation.
#[verifier::loop_isolation(false)]
pub fn serialize_prefix(value: &Value, fields_in_prefix: u64) -> (r: Vec<u8>)
    requires
        value@ is Record,
    ensures
        r@ == spec_encode_prefix(value@, fields_in_prefix as int),
{
    let mut result: Vec<u8> = Vec::new();
    match value {
        Value::Record(t, fs) => {
            result.push(*t);
            let n: usize = if fields_in_prefix < fs.len() as u64 {
                fields_in_prefix as usize
            } else {
                fs.len()
            };
            let ghost models = models_of(fs@);
            proof {
                lemma_models_of(fs@);
                assert(models.take(0) =~= Seq::<ValModel>::empty());
                assert(result@ =~= seq![*t as u8] + spec_encode_fields(models.take(0)));
            }
            let mut i: usize = 0;
            while i < n
                invariant
                    i <= n <= fs@.len(),
                    models == models_of(fs@),
                    models.len() == fs@.len(),
                    forall|k: int| 0 <= k < fs@.len() ==> #[trigger] models[k] == fs@[k]@,
                    result@ == seq![*t as u8] + spec_encode_fields(models.take(i as int)),
                decreases n - i,
            {
                let f = &fs[i];
                proof {
                    assert(models.take(i + 1) =~= models.take(i as int).push(models[i as int]));
                    lemma_encode_fields_push(models.take(i as int), f@);
                }
                let mut scratch: Vec<(Vec<u8>, ValueId)> = Vec::new();
                if value_is_primitive(f) {
                    serialize_into(f, &mut scratch, &mut result);
                } else {
                    let mut dest: Vec<u8> = Vec::new();
                    serialize_into(f, &mut scratch, &mut dest);
                    let id = value_id_of(&dest);
                    push_id(&mut result, &id);
                }
                proof {
                    assert(result@ =~= seq![*t as u8]
                        + spec_encode_fields(models.take(i + 1)));
                }
                i = i + 1;
            }
            proof {
                let k = fields_in_prefix as int;
                let bound = if k < models.len() { k } else { models.len() as int };
                assert(n as int == bound);
            }
        },
        _ => {
            proof {
                assert(false);
            }
        },
    }
    result
}

/// The record-nesting depth budget the exec decoder starts from.  Decoding a
/// value nested deeper than this fails; in particular a cyclic reference
/// chain in a corrupted table fails instead of diverging.
pub const DECODE_BUDGET: u64 = 0xffffffffffffffff;

/// What decoding yields: parses the leading tag byte without validating it
/// (dispatch to the right shape is the caller's responsibility), decodes the
/// flattened record by the registered field shapes, resolves every
/// structural field through the table and decodes its blob recursively.
/// `None` if the bytes cannot be parsed, a referenced id is absent from the
/// table, or records nest deeper than the budget.  Returns the decoded value
/// together with the bytes remaining after it.
pub open spec fn spec_decode(
    s: Shape,
    bytes: Seq<u8>,
    table: Seq<(Seq<u8>, Seq<u8>)>,
    reg: Seq<Seq<Shape>>,
    budget: nat,
) -> Option<(Seq<u8>, ValModel)>
    recommends
        registry_wf(reg),
        shape_wf(s, reg),
    decreases budget, s,
{
    match s {
        Shape::Unit => Some((bytes, ValModel::Unit)),
        Shape::Prim(w) => if bytes.len() >= w {
            Some((bytes.skip(w as int), ValModel::Prim(bytes.take(w as int))))
        } else {
            None
        },
        Shape::Record(t) => if bytes.len() < 1 || budget == 0 {
            None
        } else {
            match spec_decode_fields(reg[t as int], bytes.skip(1), table, reg, (budget - 1) as nat) {
                None => None,
                Some((rest, fs)) => Some((rest, ValModel::Record(t, fs))),
            }
        },
        Shape::Pair(sa, sb) => match spec_decode(*sa, bytes, table, reg, budget) {
            None => None,
            Some((r1, a)) => match spec_decode(*sb, r1, table, reg, budget) {
                None => None,
                Some((r2, b)) => Some((r2, ValModel::Pair(Box::new(a), Box::new(b)))),
            },
        },
        Shape::Optional(si) => if bytes.len() == 0 {
            None
        } else if bytes[0] == 0 {
            Some((bytes.skip(1), ValModel::Maybe(None)))
        } else if bytes[0] == 1 {
            match spec_decode(*si, bytes.skip(1), table, reg, budget) {
                None => None,
                Some((r, x)) => Some((r, ValModel::Maybe(Some(Box::new(x))))),
            }
        } else {
            None
        },
    }
}

/// Decodes a record's fields, in declaration order: a primitive field in
/// place, a structural field by reading its 8-byte id, resolving it through
/// the table and decoding the resolved blob (whatever follows the blob's own
/// encoding is ignored).
pub open spec fn spec_decode_fields(
    shapes: Seq<Shape>,
    bytes: Seq<u8>,
    table: Seq<(Seq<u8>, Seq<u8>)>,
    reg: Seq<Seq<Shape>>,
    budget: nat,
) -> Option<(Seq<u8>, Seq<ValModel>)>
    recommends
        registry_wf(reg),
        forall|i: int| 0 <= i < shapes.len() ==> shape_wf(shapes[i], reg),
    decreases budget, shapes,
{
    if shapes.len() == 0 {
        Some((bytes, Seq::empty()))
    } else if shape_primitive(shapes[0]) {
        match spec_decode(shapes[0], bytes, table, reg, budget) {
            None => None,
            Some((r1, m)) => match spec_decode_fields(shapes.drop_first(), r1, table, reg, budget) {
                None => None,
                Some((rest, fs)) => Some((rest, seq![m] + fs)),
            },
        }
    } else if bytes.len() < 8 {
        None
    } else {
        match spec_lookup(table, bytes.take(8)) {
            None => None,
            Some(blob) => match spec_decode(shapes[0], blob, table, reg, budget) {
                None => None,
                Some((_ignored, m)) => match spec_decode_fields(
                    shapes.drop_first(), bytes.skip(8), table, reg, budget,
                ) {
                    None => None,
                    Some((rest, fs)) => Some((rest, seq![m] + fs)),
                },
            },
        }
    }
}

/// Prepends already-decoded leading fields to the outcome of decoding the
/// remaining ones.
pub open spec fn prepend_fields(
    pre: Seq<ValModel>,
    o: Option<(Seq<u8>, Seq<ValModel>)>,
) -> Option<(Seq<u8>, Seq<ValModel>)> {
    match o {
        None => None,
        Some((rest, fs)) => Some((rest, pre + fs)),
    }
}

/// Reads the 8-byte id at `at`.
pub(crate) fn read_id(data: &[u8], at: usize) -> (r: ValueId)
    requires
        at + 8 <= data@.len(),
    ensures
        r@ == data@.skip(at as int).take(8),
{
    let r: ValueId = [
        data[at], data[at + 1], data[at + 2], data[at + 3],
        data[at + 4], data[at + 5], data[at + 6], data[at + 7],
    ];
    proof {
        assert(r@ =~= data@.skip(at as int).take(8));
    }
    r
}

/// The decoder: decodes the bytes of `data` from offset `at` as a value of
/// shape `s`, resolving structural references through `lookup`.  Returns the
/// offset just past the decoded value.  Mirrors [`spec_decode`] exactly.
#[verifier::loop_isolation(false)]
fn decode_at(
    s: &Shape,
    data: &[u8],
    at: usize,
    lookup: &BlobTable,
    reg: &Registry,
    budget: u64,
) -> (r: Option<(usize, Value)>)
    requires
        at <= data@.len(),
        registry_wf(reg@),
        shape_wf(*s, reg@),
    ensures
        match r {
            None => spec_decode(*s, data@.skip(at as int), lookup@, reg@, budget as nat) is None,
            Some((j, v)) => at <= j <= data@.len()
                && spec_decode(*s, data@.skip(at as int), lookup@, reg@, budget as nat)
                    == Some((data@.skip(j as int), v@)),
        },
    decreases budget, *s,
{
    match s {
        Shape::Unit => Some((at, Value::Unit)),
        Shape::Prim(w) => {
            let avail = data.len() - at;
            if *w <= avail {
                let end = at + *w;
                let bytes = slice_to_vec(slice_subrange(data, at, end));
                proof {
                    assert(bytes@ =~= data@.skip(at as int).take(*w as int));
                    assert(data@.skip(end as int) =~= data@.skip(at as int).skip(*w as int));
                }
                Some((end, Value::Prim(bytes)))
            } else {
                None
            }
        },
        Shape::Record(t) => {
            if at == data.len() || budget == 0 {
                return None;
            }
            let bl = budget - 1;
            let shapes = &reg.types[*t as usize].fields;
            let at1 = at + 1;
            proof {
                assert(reg@[*t as int] == shapes@);
                assert(data@.skip(at1 as int) =~= data@.skip(at as int).skip(1));
            }
            let ghost full = spec_decode_fields(shapes@, data@.skip(at1 as int), lookup@, reg@,
                bl as nat);
            let mut acc: Vec<Value> = Vec::new();
            let mut cur: usize = at1;
            let mut i: usize = 0;
            proof {
                lemma_models_of(acc@);
                assert(models_of(acc@) =~= Seq::<ValModel>::empty());
                assert(shapes@.skip(0) =~= shapes@);
                assert(full == prepend_fields(models_of(acc@),
                    spec_decode_fields(shapes@.skip(0), data@.skip(at1 as int), lookup@, reg@,
                        bl as nat)));
            }
            while i < shapes.len()
                invariant
                    i <= shapes@.len(),
                    at1 <= cur <= data@.len(),
                    models_of(acc@).len() == i,
                    full == prepend_fields(models_of(acc@),
                        spec_decode_fields(shapes@.skip(i as int), data@.skip(cur as int),
                            lookup@, reg@, bl as nat)),
                decreases shapes@.len() - i,
            {
                let sf = &shapes[i];
                proof {
                    assert(shape_wf(*sf, reg@));
                    assert(shapes@.skip(i as int)[0] == *sf);
                    assert(shapes@.skip(i as int).drop_first() =~= shapes@.skip(i + 1));
                }
                let decoded: Value;
                if crate::model::shape_is_primitive(sf) {
                    match decode_at(sf, data, cur, lookup, reg, bl) {
                        None => {
                            return None;
                        },
                        Some((j, v)) => {
                            proof {
                                assert(data@.skip(j as int) =~= data@.skip(j as int));
                            }
                            decoded = v;
                            cur = j;
                        },
                    }
                } else {
                    if data.len() - cur < 8 {
                        return None;
                    }
                    let id = read_id(data, cur);
                    match lookup.lookup(id.as_slice()) {
                        None => {
                            return None;
                        },
                        Some(blob) => {
                            match decode_at(sf, blob.as_slice(), 0, lookup, reg, bl) {
                                None => {
                                    proof {
                                        assert(blob@.skip(0) =~= blob@);
                                    }
                                    return None;
                                },
                                Some((_consumed, v)) => {
                                    proof {
                                        assert(blob@.skip(0) =~= blob@);
                                        assert(data@.skip(cur + 8)
                                            =~= data@.skip(cur as int).skip(8));
                                    }
                                    decoded = v;
                                    cur = cur + 8;
                                },
                            }
                        },
                    }
                }
                proof {
                    lemma_models_push(acc@, decoded);
                    assert(models_of(acc@).push(decoded@) + (match spec_decode_fields(
                        shapes@.skip(i + 1), data@.skip(cur as int), lookup@, reg@, bl as nat,
                    ) {
                        Some((_r, fs)) => fs,
                        None => Seq::empty(),
                    }) =~= models_of(acc@) + (seq![decoded@] + (match spec_decode_fields(
                        shapes@.skip(i + 1), data@.skip(cur as int), lookup@, reg@, bl as nat,
                    ) {
                        Some((_r, fs)) => fs,
                        None => Seq::empty(),
                    })));
                }
                acc.push(decoded);
                i = i + 1;
            }
            proof {
                assert(shapes@.skip(shapes@.len() as int) =~= Seq::<Shape>::empty());
                assert(models_of(acc@) + Seq::<ValModel>::empty() =~= models_of(acc@));
            }
            Some((cur, Value::Record(*t, acc)))
        },
        Shape::Pair(sa, sb) => {
            match decode_at(sa, data, at, lookup, reg, budget) {
                None => None,
                Some((j1, a)) => match decode_at(sb, data, j1, lookup, reg, budget) {
                    None => None,
                    Some((j2, b)) => Some((j2, Value::Pair(Box::new(a), Box::new(b)))),
                },
            }
        },
        Shape::Optional(si) => {
            if at == data.len() {
                return None;
            }
            let disc = data[at];
            proof {
                assert(data@.skip(at as int)[0] == disc);
                assert(data@.skip(at + 1) =~= data@.skip(at as int).skip(1));
            }
            if disc == 0 {
                Some((at + 1, Value::Maybe(None)))
            } else if disc == 1 {
                match decode_at(si, data, at + 1, lookup, reg, budget) {
                    None => None,
                    Some((j, x)) => Some((j, Value::Maybe(Some(Box::new(x))))),
                }
            } else {
                None
            }
        },
    }
}

/// [`models_of`] of a list with one value appended.
proof fn lemma_models_push(s: Seq<Value>, v: Value)
    ensures
        models_of(s.push(v)) == models_of(s).push(v@),
{
    assert(s.push(v).drop_last() =~= s);
    assert(s.push(v).last() == v);
}

/// Decodes one value of shape `s` from the front of `data`, resolving every
/// structural reference through `lookup`; returns the value along with the
/// bytes remaining after it, or `None` exactly when [`spec_decode`] (at the
/// full depth budget) fails: unparsable bytes or an unresolvable reference.
pub fn deserialize_value<'a>(
    s: &Shape,
    data: &'a [u8],
    lookup: &BlobTable,
    reg: &Registry,
) -> (r: Option<(&'a [u8], Value)>)
    requires
        registry_wf(reg@),
        shape_wf(*s, reg@),
    ensures
        match r {
            None => spec_decode(*s, data@, lookup@, reg@, DECODE_BUDGET as nat) is None,
            Some((rest, v)) => spec_decode(*s, data@, lookup@, reg@, DECODE_BUDGET as nat)
                == Some((rest@, v@)),
        },
{
    proof {
        assert(data@.skip(0) =~= data@);
    }
    match decode_at(s, data, 0, lookup, reg, DECODE_BUDGET) {
        None => None,
        Some((j, v)) => {
            let rest = slice_subrange(data, j, data.len());
            proof {
                assert(rest@ =~= data@.skip(j as int));
            }
            Some((rest, v))
        },
    }
}

/// Decodes one value of shape `s` from `data`, discarding the leftover
/// bytes.  This is the form the store's scan uses.
pub fn deserialize_type(
    s: &Shape,
    data: &[u8],
    lookup: &BlobTable,
    reg: &Registry,
) -> (r: Option<Value>)
    requires
        registry_wf(reg@),
        shape_wf(*s, reg@),
    ensures
        match r {
            None => spec_decode(*s, data@, lookup@, reg@, DECODE_BUDGET as nat) is None,
            Some(v) => exists|rest: Seq<u8>|
                spec_decode(*s, data@, lookup@, reg@, DECODE_BUDGET as nat)
                    == Some((rest, v@)),
        },
{
    match deserialize_value(s, data, lookup, reg) {
        None => None,
        Some((_rest, v)) => Some(v),
    }
}

} // verus!
