use protohackers::udb::Database;

fn reply(db: &mut Database, msg: &str) -> Option<String> {
    db.handle(msg).map(|r| r.into_iter().collect())
}

#[test]
fn version_is_there() {
    let mut db = Database::new();
    assert_eq!(reply(&mut db, "version"), Some("version=UnusualDP ver. 0.0.1".to_string()));
}

#[test]
fn set_then_get() {
    let mut db = Database::new();
    assert_eq!(reply(&mut db, "foo=bar"), None);
    assert_eq!(reply(&mut db, "foo"), Some("foo=bar".to_string()));
    assert_eq!(reply(&mut db, "foo=baz"), None);
    assert_eq!(reply(&mut db, "foo"), Some("foo=baz".to_string()));
    assert_eq!(db.entries.len(), 2);
}

#[test]
fn value_may_hold_equals_signs() {
    let mut db = Database::new();
    assert_eq!(reply(&mut db, "foo=bar=baz"), None);
    assert_eq!(reply(&mut db, "foo"), Some("foo=bar=baz".to_string()));
    assert_eq!(reply(&mut db, "=empty key"), None);
    assert_eq!(reply(&mut db, ""), Some("=empty key".to_string()));
    assert_eq!(reply(&mut db, "empty="), None);
    assert_eq!(reply(&mut db, "empty"), Some("empty=".to_string()));
}

#[test]
fn version_cannot_be_set_and_missing_keys_get_nothing() {
    let mut db = Database::new();
    assert_eq!(reply(&mut db, "version=hacked"), None);
    assert_eq!(reply(&mut db, "version"), Some("version=UnusualDP ver. 0.0.1".to_string()));
    assert_eq!(reply(&mut db, "missing"), None);
}
