use lwwdb::{LwwDb, Value, VectorClock};

fn double(v: f64) -> Value {
    Value::Double(v.to_bits())
}

fn s(v: &str) -> Value {
    Value::Str(String::from(v))
}

#[test]
fn test_basic() {
    let mut db = LwwDb::new().unwrap();
    db.set("table", "a", "b", s("value"));
    db.set("table", "a", "c", s("value"));
    db.set("table", "a", "a", double(123.0));
    db.set("table", "b", "a", double(124.0));
    db.set("meta", "meta", "name", s("Bob"));
    db.set("meta", "meta", "Date", s("2024/02/21"));
    let data = db.export_updates(&VectorClock::new());
    let mut new_db = LwwDb::new().unwrap();
    new_db.import_updates(&data).unwrap();
    assert!(db.check_eq(&mut new_db));
    let mut c_db = LwwDb::new().unwrap();
    c_db.import_updates(&new_db.export_updates(&VectorClock::new()))
        .unwrap();
    assert!(db.check_eq(&mut c_db));
}

#[test]
fn test_delete() {
    let mut db = LwwDb::new().unwrap();
    db.set("table", "a", "b", s("value"));
    db.set("table", "a", "c", s("value"));
    db.delete_row("table", "a");
    db.set("table", "a", "a", double(123.0));
    db.set("table", "b", "a", double(124.0));
    db.set("meta", "meta", "name", s("Bob"));
    db.set("meta", "meta", "Date", s("2024/02/21"));
    let data = db.export_updates(&VectorClock::new());
    let mut new_db = LwwDb::new().unwrap();
    new_db.import_updates(&data).unwrap();
    assert!(db.check_eq(&mut new_db));
    let mut c_db = LwwDb::new().unwrap();
    c_db.import_updates(&new_db.export_updates(&VectorClock::new()))
        .unwrap();
    assert!(db.check_eq(&mut c_db));
}

#[test]
fn test_snapshot_basic() {
    let mut db = LwwDb::new().unwrap();
    db.set("table", "a", "b", s("value"));
    db.set("table", "a", "c", s("value"));
    db.set("table", "a", "a", double(123.0));
    db.set("table", "b", "a", double(124.0));
    db.set("meta", "meta", "name", s("Bob"));
    db.set("meta", "meta", "Date", s("2024/02/21"));
    let data = db.export_snapshot();
    let mut new_db = LwwDb::from_snapshot(&data).unwrap();
    assert!(db.check_eq(&mut new_db));
    let mut c_db = LwwDb::new().unwrap();
    c_db.import_updates(&new_db.export_updates(&VectorClock::new()))
        .unwrap();
    assert!(db.check_eq(&mut c_db));
}
