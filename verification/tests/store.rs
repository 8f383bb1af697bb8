use lwwdb::{DecodeError, LwwDb, LwwTable, OpId, Register, StrPool, Value, VectorClock};

fn str_value(s: &str) -> Value {
    Value::Str(String::from(s))
}

#[test]
fn basic_set_get() {
    let mut db = LwwDb::new_with_peer(7);
    db.set("t", "r1", "c1", Value::I64(1));
    db.set("t", "r1", "c2", Value::I64(2));
    match db.get_cell("t", "r1", "c1") {
        Some(Value::I64(v)) => assert_eq!(*v, 1),
        _ => panic!("expected an integer cell"),
    }
    let mut row: Vec<(String, i64)> = db
        .iter_row("t", "r1")
        .into_iter()
        .map(|rv| match rv.value {
            Value::I64(v) => (rv.col_name, v),
            _ => panic!("expected an integer cell"),
        })
        .collect();
    row.sort();
    assert_eq!(
        row,
        vec![(String::from("c1"), 1), (String::from("c2"), 2)]
    );
}

#[test]
fn row_delete_clears_cells() {
    let mut db = LwwDb::new_with_peer(7);
    db.set("t", "r1", "c1", Value::I64(1));
    db.set("t", "r1", "c2", Value::I64(2));
    db.delete_row("t", "r1");
    assert!(db.get_cell("t", "r1", "c1").is_none());
    assert!(db.iter_row("t", "r1").is_empty());
}

#[test]
fn cell_delete_reads_as_absent() {
    let mut db = LwwDb::new_with_peer(9);
    db.set("t", "r", "c", str_value("x"));
    db.delete("t", "r", "c");
    assert!(db.get_cell("t", "r", "c").is_none());
}

#[test]
fn two_replica_sync() {
    let mut a = LwwDb::new_with_peer(1);
    let mut b = LwwDb::new_with_peer(2);
    a.set("t", "r1", "c1", Value::I64(1));
    b.set("t", "r3", "c1", Value::I64(3));
    let to_b = a.export_updates(b.version());
    b.import_updates(&to_b).unwrap();
    let to_a = b.export_updates(a.version());
    a.import_updates(&to_a).unwrap();
    for db in [&a, &b] {
        match db.get_cell("t", "r1", "c1") {
            Some(Value::I64(v)) => assert_eq!(*v, 1),
            _ => panic!("missing first row"),
        }
        match db.get_cell("t", "r3", "c1") {
            Some(Value::I64(v)) => assert_eq!(*v, 3),
            _ => panic!("missing third row"),
        }
    }
    assert!(a.check_eq(&mut b));
}

#[test]
fn concurrent_cell_write_highest_peer_wins() {
    // Same lamport on both sides: the higher peer id is the later write.
    let mut a = LwwDb::new_with_peer(7);
    let mut b = LwwDb::new_with_peer(11);
    a.set("t", "r", "c", str_value("x"));
    b.set("t", "r", "c", str_value("y"));
    let to_b = a.export_updates(b.version());
    b.import_updates(&to_b).unwrap();
    let to_a = b.export_updates(a.version());
    a.import_updates(&to_a).unwrap();
    for db in [&a, &b] {
        match db.get_cell("t", "r", "c") {
            Some(Value::Str(s)) => assert_eq!(s.as_str(), "y"),
            _ => panic!("cell lost"),
        }
    }
    assert!(a.check_eq(&mut b));
}

#[test]
fn tombstone_races_a_write() {
    // Equal lamports: the deletion comes from the higher peer, so the
    // write at (5, low) is dominated by the row tombstone at (5, high).
    let mut a = LwwDb::new_with_peer(1);
    let mut b = LwwDb::new_with_peer(2);
    for _ in 0..4 {
        a.set("warm", "w", "c", Value::I64(0));
        b.set("warm", "w", "c", Value::I64(0));
    }
    a.set("t", "r", "c", Value::I64(42));
    b.delete_row("t", "r");
    let to_b = a.export_updates(b.version());
    b.import_updates(&to_b).unwrap();
    let to_a = b.export_updates(a.version());
    a.import_updates(&to_a).unwrap();
    assert!(a.get_cell("t", "r", "c").is_none());
    assert!(b.get_cell("t", "r", "c").is_none());
    assert!(a.check_eq(&mut b));
}

#[test]
fn import_is_idempotent() {
    let mut a = LwwDb::new_with_peer(1);
    a.set("t", "r", "c", str_value("v"));
    a.delete_row("t", "gone");
    let blob = a.export_updates(&VectorClock::new());
    let mut b = LwwDb::new_with_peer(2);
    b.import_updates(&blob).unwrap();
    let mut once = LwwDb::new_with_peer(3);
    once.import_updates(&blob).unwrap();
    b.import_updates(&blob).unwrap();
    assert!(b.check_eq(&mut once));
}

#[test]
fn disjoint_imports_commute() {
    let mut a = LwwDb::new_with_peer(1);
    a.set("t", "ra", "c", Value::I64(1));
    let mut b = LwwDb::new_with_peer(2);
    b.set("t", "rb", "c", Value::I64(2));
    let blob_a = a.export_updates(&VectorClock::new());
    let blob_b = b.export_updates(&VectorClock::new());
    let mut x = LwwDb::new_with_peer(3);
    x.import_updates(&blob_a).unwrap();
    x.import_updates(&blob_b).unwrap();
    let mut y = LwwDb::new_with_peer(4);
    y.import_updates(&blob_b).unwrap();
    y.import_updates(&blob_a).unwrap();
    assert!(x.check_eq(&mut y));
}

#[test]
fn convergence_after_exchange() {
    let mut a = LwwDb::new_with_peer(10);
    let mut b = LwwDb::new_with_peer(20);
    a.set("t", "r1", "c1", Value::I64(1));
    a.set("t", "r1", "c2", Value::True);
    a.delete("t", "r1", "c2");
    a.set("u", "x", "y", Value::Null);
    b.set("t", "r1", "c1", Value::I64(9));
    b.set("t", "r2", "c1", Value::False);
    b.delete_row("t", "r1");
    b.delete_table("u");
    let to_b = a.export_updates(b.version());
    b.import_updates(&to_b).unwrap();
    let to_a = b.export_updates(a.version());
    a.import_updates(&to_a).unwrap();
    assert!(a.check_eq(&mut b));
}

#[test]
fn snapshot_round_trip() {
    let mut db = LwwDb::new_with_peer(5);
    db.set("table", "a", "b", str_value("value"));
    db.set("table", "a", "c", str_value("value"));
    db.set("table", "b", "a", Value::I64(124));
    db.delete("table", "b", "a");
    db.delete_row("table", "a");
    db.set("table", "a", "d", Value::True);
    db.set("meta", "meta", "name", str_value("Bob"));
    let snap = db.export_snapshot();
    let mut loaded = LwwDb::from_snapshot(&snap).unwrap();
    assert!(db.check_eq(&mut loaded));
    // A replica loaded from a snapshot can serve full deltas afterwards.
    let mut c = LwwDb::new_with_peer(6);
    c.import_updates(&loaded.export_updates(&VectorClock::new())).unwrap();
    assert!(db.check_eq(&mut c));
}

#[test]
fn import_rejects_garbage() {
    let mut db = LwwDb::new_with_peer(1);
    db.set("t", "r", "c", Value::I64(1));
    let before = db.export_snapshot();
    assert!(db.import_updates(&[1, 2, 3, 4]).is_err());
    let junk = zstd::encode_all(&[9u8, 9, 9][..], 0).unwrap();
    assert!(db.import_updates(&junk).is_err());
    // A failed import leaves the state untouched.
    let after = db.export_snapshot();
    let mut x = LwwDb::from_snapshot(&before).unwrap();
    let mut y = LwwDb::from_snapshot(&after).unwrap();
    assert!(x.check_eq(&mut y));
}

#[test]
fn snapshot_rejects_garbage() {
    assert!(LwwDb::from_snapshot(&[0, 1, 2]).is_err());
    let junk = zstd::encode_all(&[7u8; 16][..], 0).unwrap();
    assert!(LwwDb::from_snapshot(&junk).is_err());
}

#[test]
fn import_errors_name_their_cause() {
    let mut db = LwwDb::new_with_peer(1);
    // Bytes that are no compressor frame.
    assert_eq!(db.import_updates(&[1, 2, 3, 4]), Err(DecodeError::Compression));
    // A well-formed frame whose payload is no record blob.
    let junk = zstd::encode_all(&[9u8, 9, 9][..], 0).unwrap();
    assert_eq!(db.import_updates(&junk), Err(DecodeError::Malformed));
    assert!(matches!(LwwDb::from_snapshot(&[0, 1, 2]), Err(DecodeError::Compression)));
    let junk2 = zstd::encode_all(&[7u8; 16][..], 0).unwrap();
    assert!(matches!(LwwDb::from_snapshot(&junk2), Err(DecodeError::Malformed)));
}

#[test]
fn fresh_replica_draws_a_peer() {
    // The platform random source is available here, so construction
    // succeeds and starts from an empty, writable state.
    let mut db = LwwDb::new().expect("random source available");
    db.set("t", "r", "c", Value::I64(1));
    match db.get_cell("t", "r", "c") {
        Some(Value::I64(v)) => assert_eq!(*v, 1),
        _ => panic!("cell missing"),
    }
}

#[test]
fn register_returns_stable_indices() {
    let mut reg = Register::new();
    let a = reg.register(11);
    let b = reg.register(22);
    let a2 = reg.register(11);
    assert_eq!(a, 0);
    assert_eq!(b, 1);
    assert_eq!(a2, a);
    assert_eq!(reg.finish(), vec![11, 22]);
}

#[test]
fn str_pool_interns_by_content() {
    let mut pool = StrPool::new();
    let a = pool.intern("row");
    let b = pool.intern("col");
    let a2 = pool.intern("row");
    assert_eq!(a, 0);
    assert_eq!(b, 1);
    assert_eq!(a2, a);
    assert_eq!(pool.get_index("col"), Some(1));
    assert_eq!(pool.get_index("absent"), None);
    assert_eq!(pool.get(0).as_str(), "row");
}

#[test]
fn opid_order_is_lamport_then_peer() {
    let a = OpId::new(1, 7);
    let b = OpId::new(1, 11);
    let c = OpId::new(2, 0);
    assert!(a.lt(&b));
    assert!(b.lt(&c));
    assert!(a.le(&a));
    assert!(!b.lt(&a));
}

#[test]
fn table_level_lww_rules() {
    let mut t = LwwTable::new();
    assert!(t.set("r", "c", Value::I64(1), OpId::new(2, 1)));
    // An older write is a no-op.
    assert!(!t.set("r", "c", Value::I64(9), OpId::new(1, 1)));
    // Replaying the same id is a no-op.
    assert!(!t.set("r", "c", Value::I64(1), OpId::new(2, 1)));
    // A newer write lands.
    assert!(t.set("r", "c", Value::I64(3), OpId::new(3, 1)));
    match t.get_cell("r", "c") {
        Some(Value::I64(v)) => assert_eq!(*v, 3),
        _ => panic!("cell lost"),
    }
    // A row deletion below the cell leaves it in place.
    assert!(t.delete_row("r", OpId::new(2, 9)));
    assert!(t.get_cell("r", "c").is_some());
    // A row deletion above it clears it.
    assert!(t.delete_row("r", OpId::new(4, 1)));
    assert!(t.get_cell("r", "c").is_none());
    // The tombstone now blocks older writes.
    assert!(!t.set("r", "c", Value::I64(5), OpId::new(4, 0)));
    assert!(t.set("r", "c", Value::I64(5), OpId::new(5, 0)));
}

#[test]
fn version_tracks_writes() {
    let mut db = LwwDb::new_with_peer(42);
    assert!(!db.version().includes(OpId::new(1, 42)));
    db.set("t", "r", "c", Value::Null);
    assert!(db.version().includes(OpId::new(1, 42)));
    assert!(!db.version().includes(OpId::new(2, 42)));
}

#[test]
fn vector_clock_wire_round_trip() {
    let mut db = LwwDb::new_with_peer(3);
    db.set("t", "r", "c", Value::I64(1));
    db.set("t", "r", "d", Value::I64(2));
    let vc = db.version();
    let bytes = vc.encode();
    let back = VectorClock::decode(&bytes).expect("well-formed clock bytes");
    assert!(back.includes(OpId::new(2, 3)));
    assert!(!back.includes(OpId::new(3, 3)));
    assert!(!back.includes(OpId::new(1, 4)));
    assert_eq!(bytes, back.encode());
    assert!(VectorClock::decode(&[5, 0]).is_none());
}

#[test]
fn export_at_own_version_carries_nothing() {
    let mut a = LwwDb::new_with_peer(11);
    a.set("t", "r", "c", Value::I64(7));
    a.delete_row("t", "q");
    let own = a.export_updates(a.version());
    let mut b = LwwDb::new_with_peer(12);
    b.import_updates(&own).unwrap();
    assert!(b.get_cell("t", "r", "c").is_none());
    assert!(!b.version().includes(OpId::new(1, 11)));
}
