use type_vault::{Registry, Shape, TypeDesc, Value, ValueId, TypeVault, VaultError};
use type_vault::{serialize_type, deserialize_type, value_id_of, BlobTable};

fn u32val(x: u32) -> Value {
    Value::Prim(x.to_be_bytes().to_vec())
}

fn base_struct(foo: u32) -> Value {
    Value::Record(1, vec![u32val(foo)])
}

fn test_struct(field: u32, foo: u32, rec_field: Option<Value>) -> Value {
    Value::Record(0, vec![
        u32val(field),
        base_struct(foo),
        Value::Maybe(rec_field.map(Box::new)),
    ])
}

fn registry() -> Registry {
    Registry {
        types: vec![
            TypeDesc {
                fields: vec![
                    Shape::Prim(4),
                    Shape::Record(1),
                    Shape::Optional(Box::new(Shape::Record(0))),
                ],
            },
            TypeDesc { fields: vec![Shape::Prim(4)] },
        ],
    }
}

#[test]
fn test_db_storage() {
    // Test structs
    let struct1 = test_struct(42, 10, None);
    let struct2 = test_struct(42, 20, None);
    let struct3 = test_struct(43, 10, Some(test_struct(42, 10, None)));

    // Set up DB.
    let mut db = TypeVault::new("/tmp/test_db", registry()).unwrap();
    db.clear().unwrap();
    db.put(&struct1).unwrap();
    db.put(&struct2).unwrap();
    db.put(&struct3).unwrap();
    // The first byte 0u8 is the tag for the two-field record type; the next
    // four bytes are the big-endian value 42u32 of its leading field.
    let mut visited = 0;
    for (value, id) in db.debug_scan_primitive(vec![0u8, 0u8, 0u8, 0u8, 42u8]).unwrap() {
        println!("Scanned Value with ID {:?}: {:?}", id, value);
        visited += 1;
    }
    assert_eq!(visited, 2); // At least struct1 and struct2 should match

    // Roundtripping
    let serialized: Vec<(Vec<u8>, ValueId)> = serialize_type(&struct1);
    let lookup = BlobTable::from_blobs(&serialized);
    let round_trip: Option<Value> =
        deserialize_type(&Shape::Record(0), serialized[2].0.as_slice(), &lookup, &registry());
    match round_trip {
        Some(deserialized) => {
            // The decoded value must equal what was encoded
            assert_eq!(deserialized, struct1);
            println!("Roundtripped successfully: {:?}", deserialized);
        },
        None => panic!("Roundtripping failed"),
    }

    // Full prefix scan test
    let scan_result: Vec<(Value, ValueId)> =
        db.scan(&test_struct(42, 0, None), 1).unwrap();
    assert_eq!(
        scan_result.into_iter().map(|(value, _id)| value).collect::<Vec<Value>>(),
        vec![struct1, struct2]
    );
    let scan_result2: Vec<(Value, ValueId)> =
        db.scan(&test_struct(43, 10, None), 2).unwrap();
    assert_eq!(
        scan_result2.into_iter().map(|(value, _id)| value).collect::<Vec<Value>>(),
        vec![struct3]
    );
}

#[test]
fn example_two_blob_decomposition() {
    // A record {field: 42u32, base: {foo: 10u32}} decomposes into two blobs.
    let reg = Registry {
        types: vec![
            TypeDesc { fields: vec![Shape::Prim(4), Shape::Record(1)] },
            TypeDesc { fields: vec![Shape::Prim(4)] },
        ],
    };
    let v = Value::Record(0, vec![u32val(42), Value::Record(1, vec![u32val(10)])]);
    let blobs = serialize_type(&v);
    assert_eq!(blobs.len(), 2);
    // Nested blob: tag + foo encoded big-endian.
    assert_eq!(blobs[0].0, vec![1u8, 0, 0, 0, 10]);
    assert_eq!(blobs[0].1, value_id_of(&vec![1u8, 0, 0, 0, 10]));
    // Parent blob: tag + field verbatim + the nested blob's id.
    let mut parent = vec![0u8, 0, 0, 0, 42];
    parent.extend_from_slice(&blobs[0].1);
    assert_eq!(blobs[1].0, parent);

    let mut db = TypeVault::new("/tmp/test_db_example", reg).unwrap();
    db.clear().unwrap();
    db.put(&v).unwrap();
    let probe42 = Value::Record(0, vec![u32val(42), Value::Record(1, vec![u32val(0)])]);
    let hits = db.scan(&probe42, 1).unwrap();
    assert_eq!(hits.len(), 1);
    assert_eq!(hits[0].0, v);
    let probe43 = Value::Record(0, vec![u32val(43), Value::Record(1, vec![u32val(0)])]);
    let misses = db.scan(&probe43, 1).unwrap();
    assert_eq!(misses.len(), 0);
}

#[test]
fn dedup_shared_subvalue_stored_once() {
    // struct1 and struct2 share the base {foo: 10} and the absent optional;
    // struct3 embeds struct1 whole.  The forward index holds one entry per
    // distinct blob.
    let struct1 = test_struct(42, 10, None);
    let struct2 = test_struct(42, 20, None);
    let struct3 = test_struct(43, 10, Some(test_struct(42, 10, None)));
    let mut db = TypeVault::new("/tmp/test_db_dedup", registry()).unwrap();
    db.clear().unwrap();
    db.put(&struct1).unwrap();
    db.put(&struct2).unwrap();
    db.put(&struct3).unwrap();
    let (forward, reverse) = db.dump_entries().unwrap();
    // Distinct blobs: base{10}, base{20}, the absent optional, struct1's
    // record, struct2's record, the present optional holding struct1, and
    // struct3's record.
    assert_eq!(forward.len(), 7);
    assert_eq!(reverse.len(), 7);

    // Re-putting an identical value changes nothing: writes are idempotent.
    db.put(&struct1).unwrap();
    let (forward2, reverse2) = db.dump_entries().unwrap();
    assert_eq!(forward, forward2);
    assert_eq!(reverse, reverse2);
}

#[test]
fn put_then_lookup_id_returns_blob() {
    let v = test_struct(7, 9, None);
    let mut db = TypeVault::new("/tmp/test_db_lookup", registry()).unwrap();
    db.clear().unwrap();
    db.put(&v).unwrap();
    let blobs = serialize_type(&v);
    for (bytes, id) in &blobs {
        let stored = db.lookup_id(*id).expect("stored blob must resolve");
        assert_eq!(&stored, bytes);
    }
    let absent: ValueId = [9, 9, 9, 9, 9, 9, 9, 9];
    assert_eq!(db.lookup_id(absent), None);
}

#[test]
fn clear_empties_both_indices() {
    let v = test_struct(1, 2, None);
    let mut db = TypeVault::new("/tmp/test_db_clear", registry()).unwrap();
    db.clear().unwrap();
    db.put(&v).unwrap();
    let (forward, _) = db.dump_entries().unwrap();
    assert!(forward.len() > 0);
    db.clear().unwrap();
    let (forward, reverse) = db.dump_entries().unwrap();
    assert_eq!(forward.len(), 0);
    assert_eq!(reverse.len(), 0);
}

#[test]
fn invalid_registry_is_refused() {
    // Tag 2 is never defined by this registry.
    let reg = Registry {
        types: vec![TypeDesc { fields: vec![Shape::Record(2)] }],
    };
    match TypeVault::new("/tmp/test_db_invalid", reg) {
        Err(VaultError::InvalidRegistry) => {},
        _ => panic!("an unclosed registry must be refused"),
    }
    // More types than one tag byte can name.
    let mut types = Vec::new();
    for _ in 0..257 {
        types.push(TypeDesc { fields: vec![] });
    }
    match TypeVault::new("/tmp/test_db_invalid", Registry { types }) {
        Err(VaultError::InvalidRegistry) => {},
        _ => panic!("an oversized registry must be refused"),
    }
}

#[test]
fn engine_failure_is_reported() {
    // A second store on the same path cannot take the engine's lock while
    // the first is open.
    let db = TypeVault::new("/tmp/test_db_locked", registry()).unwrap();
    match TypeVault::new("/tmp/test_db_locked", registry()) {
        Err(VaultError::Storage(e)) => {
            println!("engine refused the second open: {:?}", e);
        },
        Ok(_) => panic!("the engine's lock should refuse a second open"),
        Err(other) => panic!("unexpected error kind: {:?}", other),
    }
    drop(db);
}

#[test]
fn scan_skips_undecodable_entries() {
    // A raw scan with an empty prefix walks every stored blob and tries to
    // decode each one as the two-field record type.  The base-record and
    // optional-wrapper blobs cannot be parsed that way (too short, or their
    // misread reference resolves to nothing), and each such entry is skipped
    // on its own while the correctly decodable neighbours are still yielded.
    let struct1 = test_struct(42, 10, None);
    let struct3 = test_struct(43, 10, Some(test_struct(42, 10, None)));
    let mut db = TypeVault::new("/tmp/test_db_isolation", registry()).unwrap();
    db.clear().unwrap();
    db.put(&struct1).unwrap();
    db.put(&struct3).unwrap();
    let (forward, _) = db.dump_entries().unwrap();
    assert_eq!(forward.len(), 5);
    let hits = db.debug_scan(&Shape::Record(0), Vec::new()).unwrap();
    assert_eq!(hits.len(), 2);
    assert_eq!(hits[0].0, struct1);
    assert_eq!(hits[1].0, struct3);
}
