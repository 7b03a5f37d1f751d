use my_redis::db::{Command, Db};
use my_redis::Frame;

#[test]
fn get_of_a_missing_key_is_null() {
    let mut db = Db::new();
    assert_eq!(db.handle(Command::Get { key: "hello".to_string() }), Frame::Null);
}

#[test]
fn put_answers_ok_and_get_returns_the_value() {
    let mut db = Db::new();
    let response = db.handle(Command::Put {
        key: "hello".to_string(),
        value: b"world".to_vec(),
    });
    assert_eq!(response, Frame::Simple("OK".into()));
    assert_eq!(
        db.handle(Command::Get { key: "hello".to_string() }),
        Frame::Bulk(b"world".to_vec())
    );
}

#[test]
fn put_replaces_and_leaves_other_keys() {
    let mut db = Db::new();
    db.handle(Command::Put { key: "a".to_string(), value: b"1".to_vec() });
    db.handle(Command::Put { key: "b".to_string(), value: b"2".to_vec() });
    db.handle(Command::Put { key: "a".to_string(), value: b"3".to_vec() });
    assert_eq!(db.handle(Command::Get { key: "a".to_string() }), Frame::Bulk(b"3".to_vec()));
    assert_eq!(db.handle(Command::Get { key: "b".to_string() }), Frame::Bulk(b"2".to_vec()));
}
