use mine::entry::Entry;
use mine::errors::Error;
use mine::keystore::{open_entry, seal_entry, set_tag, Encrypted, KeyStore};

fn ready_keystore() -> KeyStore {
    sodiumoxide::init().unwrap();
    let mut ks = KeyStore::new();
    ks.generate().unwrap();
    ks
}

#[test]
fn generate_fails_when_key_exists() {
    sodiumoxide::init().unwrap();
    let mut ks = KeyStore::new();
    assert!(ks.generate().is_ok());
    assert_eq!(ks.generate(), Err(Error::AlreadyExists));
}

#[test]
fn encode_without_key_is_not_found() {
    let ks = KeyStore::new();
    assert_eq!(ks.encode().err(), Some(Error::NotFound));
}

#[test]
fn key_encode_decode_round_trip() {
    let ks = ready_keystore();
    let bytes = ks.encode().unwrap();
    assert_eq!(bytes.len(), 40);
    let restored = KeyStore::decode(&bytes).unwrap();
    let enc = ks.encrypt(b"check").unwrap();
    assert_eq!(restored.decrypt(&enc).unwrap(), b"check");
}

#[test]
fn key_decode_rejects_malformed_file() {
    assert_eq!(KeyStore::decode(&[]).err(), Some(Error::SerializationFailure));
    assert_eq!(KeyStore::decode(&[0; 39]).err(), Some(Error::SerializationFailure));
    assert_eq!(KeyStore::decode(&[0; 41]).err(), Some(Error::SerializationFailure));
    let mut bad = vec![0u8; 40];
    bad[0] = 31; // length prefix disagrees with the key length
    assert_eq!(KeyStore::decode(&bad).err(), Some(Error::SerializationFailure));
}

#[test]
fn encrypt_decrypt_round_trip() {
    let ks = ready_keystore();
    let message = b"attack at dawn";
    let enc = ks.encrypt(message).unwrap();
    assert_eq!(enc.nonce.len(), 24);
    assert_eq!(enc.ciphertext.len(), message.len() + 16);
    assert_ne!(&enc.ciphertext[..], &message[..]);
    assert_eq!(ks.decrypt(&enc).unwrap(), message);
}

#[test]
fn encrypt_without_key_is_not_found() {
    let ks = KeyStore::new();
    assert_eq!(ks.encrypt(b"m").err(), Some(Error::NotFound));
    let enc = Encrypted { nonce: vec![0; 24], ciphertext: vec![0; 16] };
    assert_eq!(ks.decrypt(&enc).err(), Some(Error::NotFound));
}

#[test]
fn decrypt_with_wrong_key_fails() {
    let ks = ready_keystore();
    let other = ready_keystore();
    let enc = ks.encrypt(b"attack at dawn").unwrap();
    assert_eq!(other.decrypt(&enc).err(), Some(Error::AuthenticationFailure));
}

#[test]
fn decrypt_flipped_ciphertext_fails() {
    let ks = ready_keystore();
    let mut enc = ks.encrypt(b"attack at dawn").unwrap();
    enc.ciphertext[3] ^= 0x01;
    assert_eq!(ks.decrypt(&enc).err(), Some(Error::AuthenticationFailure));
}

#[test]
fn decrypt_flipped_nonce_fails() {
    let ks = ready_keystore();
    let mut enc = ks.encrypt(b"attack at dawn").unwrap();
    enc.nonce[0] ^= 0x01;
    assert_eq!(ks.decrypt(&enc).err(), Some(Error::AuthenticationFailure));
}

#[test]
fn encrypted_frame_round_trip() {
    let ks = ready_keystore();
    let enc = ks.encrypt(b"payload").unwrap();
    let framed = enc.encode();
    assert_eq!(framed.len(), enc.nonce.len() + enc.ciphertext.len());
    let back = Encrypted::decode(&framed).unwrap();
    assert_eq!(back.nonce, enc.nonce);
    assert_eq!(back.ciphertext, enc.ciphertext);
    assert_eq!(ks.decrypt(&back).unwrap(), b"payload");
}

#[test]
fn frame_shorter_than_nonce_is_malformed() {
    assert_eq!(Encrypted::decode(&[0; 23]).err(), Some(Error::SerializationFailure));
}

#[test]
fn seal_open_entry_round_trip() {
    let ks = ready_keystore();
    let mut entry = Entry::new();
    entry.insert("password".to_string(), "hunter2".to_string()).unwrap();
    let file = seal_entry(&ks, &entry).unwrap();
    let back = open_entry(&ks, &file).unwrap();
    assert_eq!(back.get("password"), Some(&"hunter2".to_string()));
}

#[test]
fn open_entry_with_wrong_key_fails() {
    let ks = ready_keystore();
    let other = ready_keystore();
    let mut entry = Entry::new();
    entry.insert("password".to_string(), "hunter2".to_string()).unwrap();
    let file = seal_entry(&ks, &entry).unwrap();
    assert_eq!(open_entry(&other, &file).err(), Some(Error::AuthenticationFailure));
}

#[test]
fn open_entry_on_garbage_fails() {
    let ks = ready_keystore();
    assert_eq!(open_entry(&ks, &[0; 10]).err(), Some(Error::SerializationFailure));
    assert_eq!(open_entry(&ks, &[0; 64]).err(), Some(Error::AuthenticationFailure));
}

#[test]
fn set_tag_updates_the_sealed_entry() {
    let ks = ready_keystore();
    let mut entry = Entry::new();
    entry.insert("password".to_string(), "hunter2".to_string()).unwrap();
    let file = seal_entry(&ks, &entry).unwrap();
    let updated = set_tag(&ks, &file, "note".to_string(), "work".to_string()).unwrap();
    let back = open_entry(&ks, &updated).unwrap();
    assert_eq!(back.get("password"), Some(&"hunter2".to_string()));
    assert_eq!(back.get("note"), Some(&"work".to_string()));
}
