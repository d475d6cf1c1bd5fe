//! The symmetric-key lifecycle and authenticated encryption.
//!
//! A `KeyStore` owns the store's one long-lived secret key: generated once
//! from a cryptographically secure source, persisted to the key file,
//! loaded back for a session, never rotated. Every payload is encrypted and
//! authenticated under it with a nonce drawn fresh for each call; a
//! ciphertext whose tag does not verify yields `AuthenticationFailure` and
//! never any plaintext. The key is stored unencrypted on disk, protected
//! only by filesystem permissions — a deliberate limitation.

use crate::assoc::pairs_map;
use crate::codec::{
    dec_entry, dec_frame, dec_key, enc_entry, enc_frame, enc_key, lemma_entry_round_trip,
    lemma_frame_round_trip, lemma_key_round_trip, push_bytes, push_u64, read_u64, tags_ok,
};
use crate::entry::Entry;
use crate::errors::Error;
use vstd::prelude::*;
use vstd::slice::slice_subrange;

verus! {

/// What secretbox::seal returns for a given key, nonce and message: a pure
/// function of the three.
pub uninterp spec fn sealed(key: Seq<u8>, nonce: Seq<u8>, msg: Seq<u8>) -> Seq<u8>;

/// Relies on sodiumoxide::crypto::secretbox::gen_key: a fresh random key of
/// the algorithm's 32-byte length.
#[verifier::external_body]
fn random_key_bytes() -> (r: Vec<u8>)
    ensures
        r@.len() == 32,
{
    sodiumoxide::crypto::secretbox::gen_key().0.to_vec()
}

/// Relies on sodiumoxide::crypto::secretbox::gen_nonce: a fresh random
/// 24-byte nonce.
#[verifier::external_body]
fn random_nonce_bytes() -> (r: Vec<u8>)
    ensures
        r@.len() == 24,
{
    sodiumoxide::crypto::secretbox::gen_nonce().0.to_vec()
}

/// Relies on sodiumoxide::crypto::secretbox::seal (xsalsa20poly1305): the
/// ciphertext is a function of key, nonce and message alone, 16 bytes (the
/// authentication tag) longer than the message.
#[verifier::external_body]
fn seal_bytes(key: &[u8], nonce: &[u8], msg: &[u8]) -> (c: Vec<u8>)
    requires
        key@.len() == 32,
        nonce@.len() == 24,
    ensures
        c@ == sealed(key@, nonce@, msg@),
        c@.len() == msg@.len() + 16,
{
    let k = sodiumoxide::crypto::secretbox::Key::from_slice(key).unwrap();
    let n = sodiumoxide::crypto::secretbox::Nonce::from_slice(nonce).unwrap();
    sodiumoxide::crypto::secretbox::seal(msg, &n, &k)
}

/// Relies on sodiumoxide::crypto::secretbox::open: verifies the tag, and
/// returns the message exactly when the ciphertext is what `seal` produces
/// under this key and nonce — decryption inverts encryption, and nothing
/// that was not sealed under the key opens.
#[verifier::external_body]
fn open_bytes(key: &[u8], nonce: &[u8], c: &[u8]) -> (r: Option<Vec<u8>>)
    requires
        key@.len() == 32,
        nonce@.len() == 24,
    ensures
        forall|m: Seq<u8>| c@ == sealed(key@, nonce@, m) ==> r is Some && r->Some_0@ == m,
        r is Some ==> c@ == sealed(key@, nonce@, r->Some_0@),
{
    let k = sodiumoxide::crypto::secretbox::Key::from_slice(key).unwrap();
    let n = sodiumoxide::crypto::secretbox::Nonce::from_slice(nonce).unwrap();
    sodiumoxide::crypto::secretbox::open(c, &n, &k).ok()
}

/// An encrypted payload: the nonce used for it, and the ciphertext carrying
/// its authentication tag.
pub struct Encrypted {
    pub nonce: Vec<u8>,
    pub ciphertext: Vec<u8>,
}

impl Encrypted {
    /// The secret-file frame: the 24 nonce bytes, then the ciphertext.
    pub fn encode(&self) -> (r: Vec<u8>)
        requires
            self.nonce@.len() == 24,
        ensures
            r@ == enc_frame(self.nonce@, self.ciphertext@),
            dec_frame(r@) == Some((self.nonce@, self.ciphertext@)),
    {
        let mut out: Vec<u8> = Vec::new();
        push_bytes(&mut out, self.nonce.as_slice());
        push_bytes(&mut out, self.ciphertext.as_slice());
        proof {
            assert(out@ =~= enc_frame(self.nonce@, self.ciphertext@));
            lemma_frame_round_trip(self.nonce@, self.ciphertext@);
        }
        out
    }

    /// Splits a secret file into nonce and ciphertext; a file shorter than
    /// a nonce is malformed.
    pub fn decode(b: &[u8]) -> (r: Result<Encrypted, Error>)
        ensures
            match r {
                Ok(e) => {
                    &&& dec_frame(b@) == Some((e.nonce@, e.ciphertext@))
                    &&& e.nonce@.len() == 24
                },
                Err(err) => err == Error::SerializationFailure && dec_frame(b@) is None,
            },
    {
        if b.len() < 24 {
            return Err(Error::SerializationFailure);
        }
        let nonce = vstd::slice::slice_to_vec(slice_subrange(b, 0, 24));
        let ciphertext = vstd::slice::slice_to_vec(slice_subrange(b, 24, b.len()));
        proof {
            assert(b@.subrange(0, 24) =~= b@.take(24));
            assert(b@.subrange(24, b@.len() as int) =~= b@.skip(24));
        }
        Ok(Encrypted { nonce, ciphertext })
    }
}

/// Owns the store's one symmetric key.
pub struct KeyStore {
    key: Option<Vec<u8>>,
}

impl KeyStore {
    /// The held key's bytes, if one is held.
    pub closed spec fn key_view(self) -> Option<Seq<u8>> {
        match self.key {
            Some(k) => Some(k@),
            None => None,
        }
    }

    /// Internal invariant: a held key has the algorithm's length.
    pub closed spec fn wf(self) -> bool {
        match self.key_view() {
            Some(k) => k.len() == 32,
            None => true,
        }
    }

    /// A key store holding no key yet.
    pub fn new() -> (ks: KeyStore)
        ensures
            ks.wf(),
            ks.key_view() is None,
    {
        KeyStore { key: None }
    }

    /// Whether a key is held.
    pub fn has_key(&self) -> (b: bool)
        ensures
            b == (self.key_view() is Some),
    {
        match &self.key {
            Some(_) => true,
            None => false,
        }
    }

    /// Generates a fresh random key; `AlreadyExists` if this store already
    /// holds one — a key is never silently overwritten.
    pub fn generate(&mut self) -> (r: Result<(), Error>)
        requires
            old(self).wf(),
        ensures
            final(self).wf(),
            match r {
                Ok(_) => old(self).key_view() is None && final(self).key_view() is Some,
                Err(e) => {
                    &&& e == Error::AlreadyExists
                    &&& old(self).key_view() is Some
                    &&& *final(self) == *old(self)
                },
            },
    {
        match &self.key {
            Some(_) => Err(Error::AlreadyExists),
            None => {
                self.key = Some(random_key_bytes());
                Ok(())
            },
        }
    }

    /// The key file encoding of the held key; `NotFound` with no key.
    pub fn encode(&self) -> (r: Result<Vec<u8>, Error>)
        requires
            self.wf(),
        ensures
            match r {
                Ok(b) => {
                    &&& self.key_view() is Some
                    &&& b@ == enc_key(self.key_view()->Some_0)
                    &&& dec_key(b@) == Some(self.key_view()->Some_0)
                },
                Err(e) => e == Error::NotFound && self.key_view() is None,
            },
    {
        match &self.key {
            None => Err(Error::NotFound),
            Some(k) => {
                let mut out: Vec<u8> = Vec::new();
                push_u64(&mut out, k.len() as u64);
                push_bytes(&mut out, k.as_slice());
                proof {
                    lemma_key_round_trip(k@);
                }
                Ok(out)
            },
        }
    }

    /// Decodes a key file; `SerializationFailure` exactly on bytes that no
    /// key encoding produces.
    pub fn decode(b: &[u8]) -> (r: Result<KeyStore, Error>)
        ensures
            match r {
                Ok(ks) => {
                    &&& ks.wf()
                    &&& dec_key(b@) is Some
                    &&& ks.key_view() == Some(dec_key(b@)->Some_0)
                },
                Err(e) => e == Error::SerializationFailure && dec_key(b@) is None,
            },
    {
        let (n, _) = match read_u64(b, 0) {
            Some(x) => x,
            None => {
                return Err(Error::SerializationFailure);
            },
        };
        if n != 32 || b.len() != 40 {
            return Err(Error::SerializationFailure);
        }
        let key = vstd::slice::slice_to_vec(slice_subrange(b, 8, 40));
        proof {
            assert(b@.subrange(8, 40) =~= b@.skip(8));
        }
        Ok(KeyStore { key: Some(key) })
    }

    /// Authenticated encryption of `msg` under the held key, with a nonce
    /// drawn fresh for this call and never reused; `NotFound` with no key.
    pub fn encrypt(&self, msg: &[u8]) -> (r: Result<Encrypted, Error>)
        requires
            self.wf(),
        ensures
            match r {
                Ok(e) => {
                    &&& self.key_view() is Some
                    &&& e.nonce@.len() == 24
                    &&& e.ciphertext@ == sealed(self.key_view()->Some_0, e.nonce@, msg@)
                    &&& e.ciphertext@.len() == msg@.len() + 16
                },
                Err(err) => err == Error::NotFound && self.key_view() is None,
            },
    {
        match &self.key {
            None => Err(Error::NotFound),
            Some(k) => {
                let nonce = random_nonce_bytes();
                let ciphertext = seal_bytes(k.as_slice(), nonce.as_slice(), msg);
                Ok(Encrypted { nonce, ciphertext })
            },
        }
    }

    /// Verifies and decrypts: returns the message exactly when the
    /// ciphertext was sealed under the held key and the carried nonce, and
    /// `AuthenticationFailure` otherwise — wrong key, corrupted nonce or
    /// corrupted ciphertext — never a partial or unverified plaintext.
    /// `NotFound` with no key.
    pub fn decrypt(&self, e: &Encrypted) -> (r: Result<Vec<u8>, Error>)
        requires
            self.wf(),
        ensures
            match self.key_view() {
                None => r == Err::<Vec<u8>, Error>(Error::NotFound),
                Some(k) => {
                    &&& forall|m: Seq<u8>|
                        e.nonce@.len() == 24 && e.ciphertext@ == sealed(k, e.nonce@, m) ==> r is Ok
                            && r->Ok_0@ == m
                    &&& (r is Ok ==> e.nonce@.len() == 24 && e.ciphertext@ == sealed(
                        k,
                        e.nonce@,
                        r->Ok_0@,
                    ))
                    &&& (r is Err ==> r->Err_0 == Error::AuthenticationFailure)
                },
            },
    {
        match &self.key {
            None => Err(Error::NotFound),
            Some(k) => {
                if e.nonce.len() != 24 {
                    return Err(Error::AuthenticationFailure);
                }
                match open_bytes(k.as_slice(), e.nonce.as_slice(), e.ciphertext.as_slice()) {
                    Some(msg) => Ok(msg),
                    None => Err(Error::AuthenticationFailure),
                }
            },
        }
    }
}

/// The bytes of a secret file holding `tags` sealed under `key` with
/// `nonce`.
pub open spec fn sealed_entry_bytes(
    key: Seq<u8>,
    nonce: Seq<u8>,
    tags: Seq<(Seq<char>, Seq<char>)>,
) -> Seq<u8> {
    enc_frame(nonce, sealed(key, nonce, enc_entry(tags)))
}

/// Encodes and encrypts `entry` under a fresh nonce, framed as a secret
/// file: the bytes the caller writes to the entry's opaque file. `NotFound`
/// with no key.
pub fn seal_entry(ks: &KeyStore, entry: &Entry) -> (r: Result<Vec<u8>, Error>)
    requires
        ks.wf(),
        entry.wf(),
    ensures
        match r {
            Ok(b) => {
                &&& ks.key_view() is Some
                &&& tags_ok(entry.tag_views())
                &&& exists|n: Seq<u8>|
                    #![auto]
                    n.len() == 24 && b@ == sealed_entry_bytes(
                        ks.key_view()->Some_0,
                        n,
                        entry.tag_views(),
                    )
            },
            Err(e) => e == Error::NotFound && ks.key_view() is None,
        },
{
    let payload = entry.encode();
    let enc = match ks.encrypt(payload.as_slice()) {
        Ok(enc) => enc,
        Err(e) => {
            return Err(e);
        },
    };
    let framed = enc.encode();
    proof {
        assert(framed@ == sealed_entry_bytes(
            ks.key_view()->Some_0,
            enc.nonce@,
            entry.tag_views(),
        ));
    }
    Ok(framed)
}

/// How a secret file's bytes open under the key `k`: the decoded tag list,
/// or the error the bytes earn — a malformed frame or payload is a
/// `SerializationFailure`, a ciphertext never sealed under `k` and the
/// carried nonce is an `AuthenticationFailure`.
pub open spec fn open_outcome(k: Seq<u8>, bytes: Seq<u8>) -> Result<
    Seq<(Seq<char>, Seq<char>)>,
    Error,
> {
    match dec_frame(bytes) {
        None => Err(Error::SerializationFailure),
        Some((n, c)) => {
            if exists|m: Seq<u8>| c == sealed(k, n, m) {
                let m = choose|m: Seq<u8>| c == sealed(k, n, m);
                match dec_entry(m) {
                    Some(tags) => Ok(tags),
                    None => Err(Error::SerializationFailure),
                }
            } else {
                Err(Error::AuthenticationFailure)
            }
        },
    }
}

/// Verifies, decrypts and decodes a secret file into its entry: the inverse
/// of [`seal_entry`] under the same key, whatever nonce was drawn.
/// `NotFound` with no key; otherwise the result follows [`open_outcome`].
pub fn open_entry(ks: &KeyStore, bytes: &[u8]) -> (r: Result<Entry, Error>)
    requires
        ks.wf(),
    ensures
        ks.key_view() is None ==> r == Err::<Entry, Error>(Error::NotFound),
        r is Ok ==> r->Ok_0.wf(),
        ks.key_view() matches Some(k) ==> {
            &&& forall|n: Seq<u8>, tags: Seq<(Seq<char>, Seq<char>)>|
                n.len() == 24 && tags_ok(tags) && bytes@ == #[trigger] sealed_entry_bytes(
                    k,
                    n,
                    tags,
                ) ==> r is Ok && r->Ok_0.wf() && r->Ok_0.as_map() == pairs_map(tags)
            &&& match open_outcome(k, bytes@) {
                Ok(tags) => r is Ok && r->Ok_0.as_map() == pairs_map(tags),
                Err(e2) => r == Err::<Entry, Error>(e2),
            }
        },
{
    if !ks.has_key() {
        return Err(Error::NotFound);
    }
    let enc = match Encrypted::decode(bytes) {
        Ok(enc) => enc,
        Err(e) => {
            proof {
                let k = ks.key_view()->Some_0;
                assert forall|n: Seq<u8>, tags: Seq<(Seq<char>, Seq<char>)>|
                    n.len() == 24 && tags_ok(tags) && bytes@ == #[trigger] sealed_entry_bytes(
                        k,
                        n,
                        tags,
                    ) implies false by {
                    lemma_frame_round_trip(n, sealed(k, n, enc_entry(tags)));
                }
            }
            return Err(e);
        },
    };
    let payload = match ks.decrypt(&enc) {
        Ok(payload) => payload,
        Err(e) => {
            proof {
                let k = ks.key_view()->Some_0;
                assert forall|n: Seq<u8>, tags: Seq<(Seq<char>, Seq<char>)>|
                    n.len() == 24 && tags_ok(tags) && bytes@ == #[trigger] sealed_entry_bytes(
                        k,
                        n,
                        tags,
                    ) implies false by {
                    lemma_frame_round_trip(n, sealed(k, n, enc_entry(tags)));
                    assert(enc.nonce@ == n);
                    assert(enc.ciphertext@ == sealed(k, n, enc_entry(tags)));
                }
                if exists|m: Seq<u8>| enc.ciphertext@ == sealed(k, enc.nonce@, m) {
                    let m = choose|m: Seq<u8>| enc.ciphertext@ == sealed(k, enc.nonce@, m);
                    assert(false);
                }
            }
            return Err(e);
        },
    };
    proof {
        let k = ks.key_view()->Some_0;
        assert(enc.ciphertext@ == sealed(k, enc.nonce@, payload@));
        let m0 = choose|m: Seq<u8>| enc.ciphertext@ == sealed(k, enc.nonce@, m);
        assert(m0 == payload@);
    }
    match Entry::decode(payload.as_slice()) {
        Ok(entry) => {
            proof {
                let k = ks.key_view()->Some_0;
                assert forall|n: Seq<u8>, tags: Seq<(Seq<char>, Seq<char>)>|
                    n.len() == 24 && tags_ok(tags) && bytes@ == #[trigger] sealed_entry_bytes(
                        k,
                        n,
                        tags,
                    ) implies entry.as_map() == pairs_map(tags) by {
                    lemma_frame_round_trip(n, sealed(k, n, enc_entry(tags)));
                    assert(enc.ciphertext@ == sealed(k, n, enc_entry(tags)));
                    assert(payload@ == enc_entry(tags));
                    lemma_entry_round_trip(tags);
                }
            }
            Ok(entry)
        },
        Err(e) => {
            proof {
                let k = ks.key_view()->Some_0;
                assert forall|n: Seq<u8>, tags: Seq<(Seq<char>, Seq<char>)>|
                    n.len() == 24 && tags_ok(tags) && bytes@ == #[trigger] sealed_entry_bytes(
                        k,
                        n,
                        tags,
                    ) implies false by {
                    lemma_frame_round_trip(n, sealed(k, n, enc_entry(tags)));
                    assert(payload@ == enc_entry(tags));
                    lemma_entry_round_trip(tags);
                }
            }
            Err(e)
        },
    }
}

/// The whole tag-setting step on a secret file's bytes: open the entry, set
/// `tag` to `value`, and seal the result again under a fresh nonce.
pub fn set_tag(ks: &KeyStore, bytes: &[u8], tag: String, value: String) -> (r: Result<
    Vec<u8>,
    Error,
>)
    requires
        ks.wf(),
    ensures
        ks.key_view() is None ==> r == Err::<Vec<u8>, Error>(Error::NotFound),
        ks.key_view() matches Some(k) ==> {
            &&& forall|n: Seq<u8>, tags: Seq<(Seq<char>, Seq<char>)>|
                n.len() == 24 && tags_ok(tags) && bytes@ == #[trigger] sealed_entry_bytes(
                    k,
                    n,
                    tags,
                ) ==> r is Ok && exists|n2: Seq<u8>, tags2: Seq<(Seq<char>, Seq<char>)>|
                    #![auto]
                    n2.len() == 24 && tags_ok(tags2) && pairs_map(tags2) == pairs_map(tags).insert(
                        tag@,
                        value@,
                    ) && r->Ok_0@ == sealed_entry_bytes(k, n2, tags2)
            &&& (open_outcome(k, bytes@) is Ok ==> r is Ok)
            &&& (open_outcome(k, bytes@) matches Err(e2) ==> r == Err::<Vec<u8>, Error>(e2))
        },
{
    let ghost tgv = tag@;
    let ghost vlv = value@;
    let mut entry = match open_entry(ks, bytes) {
        Ok(entry) => entry,
        Err(e) => {
            return Err(e);
        },
    };
    let ghost pre = entry;
    let _ = entry.insert(tag, value);
    match seal_entry(ks, &entry) {
        Ok(out) => {
            proof {
                let k = ks.key_view()->Some_0;
                crate::entry::lemma_entry_map(pre);
                crate::entry::lemma_entry_map(entry);
                let n2 = choose|n2: Seq<u8>|
                    #![auto]
                    n2.len() == 24 && out@ == sealed_entry_bytes(k, n2, entry.tag_views());
                assert forall|n: Seq<u8>, tags: Seq<(Seq<char>, Seq<char>)>|
                    n.len() == 24 && tags_ok(tags) && bytes@ == #[trigger] sealed_entry_bytes(
                        k,
                        n,
                        tags,
                    ) implies exists|m2: Seq<u8>, tags2: Seq<(Seq<char>, Seq<char>)>|
                    #![auto]
                    m2.len() == 24 && tags_ok(tags2) && pairs_map(tags2) == pairs_map(tags).insert(
                        tgv,
                        vlv,
                    ) && out@ == sealed_entry_bytes(k, m2, tags2) by {
                    assert(pre.as_map() == pairs_map(tags));
                    assert(pairs_map(entry.tag_views()) == pairs_map(tags).insert(tgv, vlv));
                    assert(n2.len() == 24 && tags_ok(entry.tag_views()) && pairs_map(
                        entry.tag_views(),
                    ) == pairs_map(tags).insert(tgv, vlv) && out@ == sealed_entry_bytes(
                        k,
                        n2,
                        entry.tag_views(),
                    ));
                }
            }
            Ok(out)
        },
        Err(e) => {
            proof {
                assert(false);
            }
            Err(e)
        },
    }
}

} // verus!
