use mine::entry::Entry;
use mine::errors::Error;

#[test]
fn new_entry_has_no_tags() {
    let e = Entry::new();
    assert_eq!(e.get("password"), None);
}

#[test]
fn insert_then_get_returns_value() {
    let mut e = Entry::new();
    e.insert("password".to_string(), "hunter2".to_string()).unwrap();
    assert_eq!(e.get("password"), Some(&"hunter2".to_string()));
    assert_eq!(e.get("note"), None);
}

#[test]
fn insert_updates_existing_tag() {
    let mut e = Entry::new();
    e.insert("password".to_string(), "hunter2".to_string()).unwrap();
    e.insert("password".to_string(), "hunter3".to_string()).unwrap();
    assert_eq!(e.get("password"), Some(&"hunter3".to_string()));
}

#[test]
fn several_tags_coexist() {
    let mut e = Entry::new();
    e.insert("password".to_string(), "hunter2".to_string()).unwrap();
    e.insert("note".to_string(), "work account".to_string()).unwrap();
    assert_eq!(e.get("password"), Some(&"hunter2".to_string()));
    assert_eq!(e.get("note"), Some(&"work account".to_string()));
}

#[test]
fn encode_decode_round_trip() {
    let mut e = Entry::new();
    e.insert("password".to_string(), "hunter2".to_string()).unwrap();
    e.insert("note".to_string(), "pays the rent".to_string()).unwrap();
    let bytes = e.encode();
    let back = Entry::decode(&bytes).unwrap();
    assert_eq!(back.get("password"), Some(&"hunter2".to_string()));
    assert_eq!(back.get("note"), Some(&"pays the rent".to_string()));
    assert_eq!(back.get("missing"), None);
}

#[test]
fn empty_entry_round_trip() {
    let e = Entry::new();
    let bytes = e.encode();
    let back = Entry::decode(&bytes).unwrap();
    assert_eq!(back.get("password"), None);
}

#[test]
fn non_ascii_tags_round_trip() {
    let mut e = Entry::new();
    e.insert("ключ".to_string(), "значение «секрет»".to_string()).unwrap();
    let bytes = e.encode();
    let back = Entry::decode(&bytes).unwrap();
    assert_eq!(back.get("ключ"), Some(&"значение «секрет»".to_string()));
}

#[test]
fn decode_rejects_malformed_payload() {
    assert_eq!(Entry::decode(&[]).err(), Some(Error::SerializationFailure));
    assert_eq!(Entry::decode(&[7, 0, 0]).err(), Some(Error::SerializationFailure));
    let mut e = Entry::new();
    e.insert("password".to_string(), "hunter2".to_string()).unwrap();
    let mut bytes = e.encode();
    bytes.push(0);
    assert_eq!(Entry::decode(&bytes).err(), Some(Error::SerializationFailure));
    let truncated = &bytes[..bytes.len() - 5];
    assert_eq!(Entry::decode(truncated).err(), Some(Error::SerializationFailure));
}

#[test]
fn decode_rejects_invalid_character_value() {
    // one tag, whose name claims one character with a surrogate value
    let mut bytes: Vec<u8> = Vec::new();
    bytes.extend_from_slice(&1u64.to_le_bytes());
    bytes.extend_from_slice(&1u64.to_le_bytes());
    bytes.extend_from_slice(&0xD800u64.to_le_bytes());
    assert_eq!(Entry::decode(&bytes).err(), Some(Error::SerializationFailure));
}
