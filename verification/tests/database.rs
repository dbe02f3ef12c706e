use protohackers::database::Database;

#[test]
fn reads_give_back_the_last_write() {
    let mut db = Database::new();
    assert_eq!(db.handle("foo=bar"), None);
    assert_eq!(db.handle("other=thing"), None);
    assert_eq!(db.handle("foo"), Some("foo=bar".to_owned()));
    assert_eq!(db.handle("foo=baz"), None);
    assert_eq!(db.handle("foo"), Some("foo=baz".to_owned()));
}

#[test]
fn values_may_hold_equals_signs() {
    let mut db = Database::new();
    db.handle("foo=bar=baz");
    db.handle("empty=");
    db.handle("bar===");
    db.handle("=nameless");
    assert_eq!(db.handle("foo"), Some("foo=bar=baz".to_owned()));
    assert_eq!(db.handle("empty"), Some("empty=".to_owned()));
    assert_eq!(db.handle("bar"), Some("bar===".to_owned()));
    assert_eq!(db.handle(""), Some("=nameless".to_owned()));
}

#[test]
fn unwritten_keys_read_as_nothing() {
    let mut db = Database::new();
    assert_eq!(db.handle("missing"), Some("missing=".to_owned()));
    assert_eq!(db.handle(""), Some("=".to_owned()));
}

#[test]
fn the_version_cannot_be_written() {
    let mut db = Database::new();
    assert_eq!(db.handle("version"), Some("version=ivo's db 0.1".to_owned()));
    assert_eq!(db.handle("version=2"), None);
    assert_eq!(db.handle("version"), Some("version=ivo's db 0.1".to_owned()));
    db.handle("Version=2");
    assert_eq!(db.handle("Version"), Some("Version=2".to_owned()));
}
