use type_vault::{Registry, Shape, TypeDesc, Value, ValueId, BlobTable};
use type_vault::{serialize_type, serialize_into, serialize_prefix, deserialize_type,
    deserialize_value, value_id_of};

fn u32val(x: u32) -> Value {
    Value::Prim(x.to_be_bytes().to_vec())
}

fn base_struct(foo: u32) -> Value {
    Value::Record(1, vec![u32val(foo)])
}

fn test_struct(field: u32, foo: u32, rec_field: Option<Value>) -> Value {
    Value::Record(0, vec![
        u32val(field),
        base_struct(foo),
        Value::Maybe(rec_field.map(Box::new)),
    ])
}

fn registry() -> Registry {
    Registry {
        types: vec![
            TypeDesc {
                fields: vec![
                    Shape::Prim(4),
                    Shape::Record(1),
                    Shape::Optional(Box::new(Shape::Record(0))),
                ],
            },
            TypeDesc { fields: vec![Shape::Prim(4)] },
        ],
    }
}

#[test]
fn content_id_is_big_endian_fnv() {
    // Exact values of the content hash: the FNV-1a offset basis for the
    // empty buffer, and a five-byte blob's hash, big-endian.
    assert_eq!(value_id_of(&Vec::new()), [0xcb, 0xf2, 0x9c, 0xe4, 0x84, 0x22, 0x23, 0x25]);
    assert_eq!(
        value_id_of(&vec![1u8, 0, 0, 0, 10]),
        [216, 13, 118, 174, 167, 220, 143, 234]
    );
    // Determinism: equal bytes give equal ids, twice over.
    let a = value_id_of(&vec![7u8, 8, 9]);
    let b = value_id_of(&vec![7u8, 8, 9]);
    assert_eq!(a, b);
}

#[test]
fn encoding_is_deterministic() {
    let v1 = test_struct(42, 10, None);
    let v2 = test_struct(42, 10, None);
    let blobs1 = serialize_type(&v1);
    let blobs2 = serialize_type(&v2);
    assert_eq!(blobs1, blobs2);
}

#[test]
fn serialize_into_appends() {
    // The decomposition entry point appends to its buffers rather than
    // replacing them.
    let v = base_struct(10);
    let mut nested: Vec<(Vec<u8>, ValueId)> = Vec::new();
    let mut dest: Vec<u8> = vec![99u8];
    serialize_into(&v, &mut nested, &mut dest);
    assert_eq!(dest, vec![99u8, 1, 0, 0, 0, 10]);
    assert_eq!(nested.len(), 0);
}

#[test]
fn prefix_zero_is_the_tag_byte() {
    let v = test_struct(42, 10, None);
    assert_eq!(serialize_prefix(&v, 0), vec![0u8]);
    let b = base_struct(5);
    assert_eq!(serialize_prefix(&b, 0), vec![1u8]);
}

#[test]
fn prefix_is_a_byte_prefix_of_the_record() {
    let v = test_struct(42, 10, Some(test_struct(1, 2, None)));
    let blobs = serialize_type(&v);
    let record = &blobs[blobs.len() - 1].0;
    for k in 0..5u64 {
        let prefix = serialize_prefix(&v, k);
        assert!(prefix.len() <= record.len());
        assert_eq!(&record[..prefix.len()], prefix.as_slice());
    }
    // Covering every field (or more) gives the whole record.
    assert_eq!(&serialize_prefix(&v, 3), record);
    assert_eq!(&serialize_prefix(&v, 10), record);
}

#[test]
fn round_trip_with_full_blob_set() {
    let v = test_struct(43, 10, Some(test_struct(42, 10, None)));
    let blobs = serialize_type(&v);
    let table = BlobTable::from_blobs(&blobs);
    let record = blobs[blobs.len() - 1].0.as_slice();
    let decoded = deserialize_type(&Shape::Record(0), record, &table, &registry());
    assert_eq!(decoded, Some(v));
}

#[test]
fn round_trip_leaves_no_bytes() {
    let v = base_struct(77);
    let blobs = serialize_type(&v);
    let table = BlobTable::from_blobs(&blobs);
    let record = blobs[blobs.len() - 1].0.as_slice();
    match deserialize_value(&Shape::Record(1), record, &table, &registry()) {
        Some((rest, decoded)) => {
            assert_eq!(rest.len(), 0);
            assert_eq!(decoded, v);
        },
        None => panic!("decoding a freshly encoded record must succeed"),
    }
}

#[test]
fn decode_fails_on_missing_reference_only() {
    // Drop the base record's blob from the table: the parent no longer
    // decodes, while a sibling with its own complete blob set still does.
    let v = test_struct(42, 10, None);
    let blobs = serialize_type(&v);
    let table_full = BlobTable::from_blobs(&blobs);
    let record = blobs[blobs.len() - 1].0.as_slice();
    assert!(deserialize_type(&Shape::Record(0), record, &table_full, &registry()).is_some());

    let mut table_holed = BlobTable::new();
    for (bytes, id) in &blobs {
        // The base record's blob is the one whose tag byte is 1.
        if bytes[0] != 1u8 {
            table_holed.insert(id.to_vec(), bytes.clone());
        }
    }
    assert_eq!(
        deserialize_type(&Shape::Record(0), record, &table_holed, &registry()),
        None
    );

    let sibling = base_struct(10);
    let sibling_blobs = serialize_type(&sibling);
    let sibling_record = sibling_blobs[0].0.as_slice();
    assert_eq!(
        deserialize_type(&Shape::Record(1), sibling_record, &table_holed, &registry()),
        Some(sibling)
    );
}

#[test]
fn decode_fails_on_malformed_bytes() {
    let reg = registry();
    let table = BlobTable::new();
    // Too short for the declared primitive width.
    assert_eq!(deserialize_type(&Shape::Record(1), &[1u8, 0, 0], &table, &reg), None);
    // An empty buffer holds no tag byte.
    assert_eq!(deserialize_type(&Shape::Record(1), &[], &table, &reg), None);
    // An optional value must begin with discriminator 0 or 1.
    assert_eq!(
        deserialize_type(&Shape::Optional(Box::new(Shape::Prim(1))), &[2u8, 5], &table, &reg),
        None
    );
}

#[test]
fn unit_and_pair_encodings() {
    // The empty value encodes to zero bytes; a pair is its components in
    // sequence with no tag layer; both decode back.
    let reg = registry();
    let table = BlobTable::new();
    let unit_blobs = serialize_type(&Value::Unit);
    assert_eq!(unit_blobs.len(), 1);
    assert_eq!(unit_blobs[0].0.len(), 0);

    let pair = Value::Pair(
        Box::new(Value::Prim(vec![1u8, 2])),
        Box::new(Value::Maybe(None)),
    );
    let pair_blobs = serialize_type(&pair);
    // A pair's components are encoded in sequence, in place: the two
    // primitive bytes, then the optional's discriminator byte.
    let own = &pair_blobs[pair_blobs.len() - 1].0;
    assert_eq!(own, &vec![1u8, 2, 0]);
    let shape = Shape::Pair(
        Box::new(Shape::Prim(2)),
        Box::new(Shape::Optional(Box::new(Shape::Prim(1)))),
    );
    let table2 = BlobTable::from_blobs(&pair_blobs);
    let decoded = deserialize_type(&shape, own.as_slice(), &table2, &reg);
    assert_eq!(decoded, Some(pair));
    drop(table);
}

#[test]
fn fieldless_record_is_its_tag() {
    // A record with no declared fields encodes to just its tag byte.
    let reg = Registry { types: vec![TypeDesc { fields: vec![] }] };
    let v = Value::Record(0, vec![]);
    let blobs = serialize_type(&v);
    assert_eq!(blobs.len(), 1);
    assert_eq!(blobs[0].0, vec![0u8]);
    assert_eq!(serialize_prefix(&v, 0), vec![0u8]);
    assert_eq!(serialize_prefix(&v, 4), vec![0u8]);
    let table = BlobTable::from_blobs(&blobs);
    assert_eq!(
        deserialize_type(&Shape::Record(0), blobs[0].0.as_slice(), &table, &reg),
        Some(v)
    );
}

#[test]
fn shared_subvalue_blob_is_byte_identical() {
    // Two different records embedding the same sub-value produce the same
    // (blob, id) pair for it: the deduplication unit.
    let v1 = test_struct(42, 10, None);
    let v2 = test_struct(99, 10, None);
    let blobs1 = serialize_type(&v1);
    let blobs2 = serialize_type(&v2);
    assert_eq!(blobs1[0], blobs2[0]);
    assert_eq!(blobs1[0].0, vec![1u8, 0, 0, 0, 10]);
}
