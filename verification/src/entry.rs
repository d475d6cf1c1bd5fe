//! The logical secret record: a map from tag names to tag values.
//!
//! One `Entry` is the decrypted content of one stored secret. By convention
//! the tag `password` carries the primary secret; any further tags may be
//! set. An entry is encoded to bytes before encryption and decoded after
//! decryption, with the layout `codec::enc_entry` describes.

use crate::assoc::{lemma_pairs_map_char, lemma_pairs_update, pair_keys_unique, pairs_map};
use crate::codec::{
    dec_entry, dec_tags_at, dec_u64_at, enc_entry, enc_tag, enc_tags, lemma_enc_tags_push,
    lemma_entry_round_trip, push_str, read_str, read_u64, tag_ok, tags_ok,
};
use crate::errors::Error;
use vstd::prelude::*;

verus! {

/// An entry means exactly the map of its tag list.
pub proof fn lemma_entry_map(e: Entry)
    ensures
        e.as_map() == pairs_map(e.tag_views()),
{
}

/// A secret's tags: a list of name-value pairs with pairwise distinct names.
pub struct Entry {
    tags: Vec<(String, String)>,
}

impl Entry {
    /// The tag pairs, as they are ordered in memory.
    pub closed spec fn tag_views(self) -> Seq<(Seq<char>, Seq<char>)> {
        Seq::new(self.tags@.len(), |i: int| (self.tags@[i].0@, self.tags@[i].1@))
    }

    /// Internal invariant: no tag name occurs twice.
    pub closed spec fn wf(self) -> bool {
        pair_keys_unique(self.tag_views())
    }

    /// What the entry means: the map from tag names to tag values.
    pub closed spec fn as_map(self) -> Map<Seq<char>, Seq<char>> {
        pairs_map(self.tag_views())
    }

    /// An entry with no tags.
    pub fn new() -> (e: Entry)
        ensures
            e.wf(),
            e.as_map() == Map::<Seq<char>, Seq<char>>::empty(),
    {
        Entry { tags: Vec::new() }
    }

    /// Sets the tag `key` to `value`, adding it or updating it in place.
    pub fn insert(&mut self, key: String, value: String) -> (r: Result<(), Error>)
        requires
            old(self).wf(),
        ensures
            final(self).wf(),
            r is Ok,
            final(self).as_map() == old(self).as_map().insert(key@, value@),
    {
        let ghost kv = key@;
        let ghost vv = value@;
        let n = self.tags.len();
        let mut i: usize = 0;
        while i < n
            invariant
                *self == *old(self),
                self.wf(),
                n == self.tags@.len(),
                0 <= i <= n,
                kv == key@,
                vv == value@,
                forall|j: int| 0 <= j < i ==> (#[trigger] self.tag_views()[j]).0 != kv,
            decreases n - i,
        {
            if self.tags[i].0 == key {
                self.tags[i] = (key, value);
                proof {
                    let l1 = old(self).tag_views();
                    assert(self.tag_views() =~= l1.update(i as int, (kv, vv)));
                    lemma_pairs_update(l1, i as int, kv, vv);
                }
                return Ok(());
            }
            proof {
                assert(self.tag_views()[i as int].0 != kv);
            }
            i = i + 1;
        }
        self.tags.push((key, value));
        proof {
            let l1 = old(self).tag_views();
            let l2 = self.tag_views();
            assert(l2.drop_last() =~= l1);
            assert(l2.last() == (kv, vv));
            assert(pair_keys_unique(l2)) by {
                assert(forall|j: int| 0 <= j < l1.len() ==> (#[trigger] l2[j]).0 == l1[j].0);
            }
            assert(pairs_map(l2) == pairs_map(l1).insert(kv, vv));
        }
        Ok(())
    }

    /// The value of the tag named `key`, if it is set.
    pub fn get(&self, key: &str) -> (r: Option<&String>)
        requires
            self.wf(),
        ensures
            match r {
                Some(v) => self.as_map().contains_key(key@) && self.as_map()[key@] == v@,
                None => !self.as_map().contains_key(key@),
            },
    {
        let wanted = String::from_str(key);
        proof {
            lemma_pairs_map_char(self.tag_views());
        }
        let n = self.tags.len();
        let mut i: usize = 0;
        while i < n
            invariant
                self.wf(),
                n == self.tags@.len(),
                0 <= i <= n,
                wanted@ == key@,
                forall|j: int| 0 <= j < i ==> (#[trigger] self.tag_views()[j]).0 != key@,
            decreases n - i,
        {
            if self.tags[i].0 == wanted {
                proof {
                    lemma_pairs_map_char(self.tag_views());
                    assert(self.tag_views()[i as int].0 == key@);
                }
                return Some(&self.tags[i].1);
            }
            proof {
                assert(self.tag_views()[i as int].0 != key@);
            }
            i = i + 1;
        }
        proof {
            if self.as_map().contains_key(key@) {
                let j = choose|j: int|
                    0 <= j < self.tag_views().len() && (#[trigger] self.tag_views()[j]).0 == key@;
                assert(false);
            }
        }
        None
    }

    /// Encodes the tags as an entry payload. The result decodes back to
    /// exactly the current tags.
    pub fn encode(&self) -> (r: Vec<u8>)
        ensures
            r@ == enc_entry(self.tag_views()),
            tags_ok(self.tag_views()),
            dec_entry(r@) == Some(self.tag_views()),
    {
        let mut out: Vec<u8> = Vec::new();
        let n = self.tags.len();
        crate::codec::push_u64(&mut out, n as u64);
        let ghost start = out@;
        let mut i: usize = 0;
        while i < n
            invariant
                n == self.tags@.len(),
                0 <= i <= n,
                out@ == start + enc_tags(self.tag_views().take(i as int)),
                forall|j: int| 0 <= j < i ==> tag_ok(#[trigger] self.tag_views()[j]),
            decreases n - i,
        {
            let ghost tv = self.tag_views()[i as int];
            let ghost before = out@;
            push_str(&mut out, self.tags[i].0.as_str());
            push_str(&mut out, self.tags[i].1.as_str());
            proof {
                lemma_enc_tags_push(self.tag_views().take(i as int), tv);
                assert(self.tag_views().take(i as int).push(tv) =~= self.tag_views().take(i + 1));
                assert(out@ =~= before + (crate::codec::enc_str(tv.0) + crate::codec::enc_str(
                    tv.1,
                )));
                assert(out@ =~= start + (enc_tags(self.tag_views().take(i as int)) + enc_tag(tv)));
            }
            i = i + 1;
        }
        proof {
            assert(self.tag_views().take(n as int) =~= self.tag_views());
            lemma_entry_round_trip(self.tag_views());
        }
        out
    }

    /// Decodes an entry payload; `SerializationFailure` exactly on bytes
    /// that no entry encoding produces. When a tag name occurs more than
    /// once, the later value overrides the earlier one.
    pub fn decode(b: &[u8]) -> (r: Result<Entry, Error>)
        ensures
            match r {
                Ok(e) => {
                    &&& e.wf()
                    &&& dec_entry(b@) is Some
                    &&& e.as_map() == pairs_map(dec_entry(b@)->Some_0)
                },
                Err(e) => e == Error::SerializationFailure && dec_entry(b@) is None,
            },
    {
        let (n, start) = match read_u64(b, 0) {
            Some(x) => x,
            None => {
                return Err(Error::SerializationFailure);
            },
        };
        let mut e = Entry::new();
        let ghost mut done = Seq::<(Seq<char>, Seq<char>)>::empty();
        let mut p = start;
        let mut i: u64 = 0;
        proof {
            assert(done + dec_tags_at(b@, p as int, n as nat)->Some_0.0 =~= dec_tags_at(
                b@,
                p as int,
                n as nat,
            )->Some_0.0);
        }
        while i < n
            invariant
                0 <= i <= n,
                e.wf(),
                dec_u64_at(b@, 0) == Some((n, start as int)),
                e.as_map() == pairs_map(done),
                match dec_tags_at(b@, p as int, (n - i) as nat) {
                    Some((t, x)) => dec_tags_at(b@, start as int, n as nat) == Some((done + t, x)),
                    None => dec_tags_at(b@, start as int, n as nat) is None,
                },
            decreases n - i,
        {
            let (key, p2) = match read_str(b, p) {
                Some(x) => x,
                None => {
                    return Err(Error::SerializationFailure);
                },
            };
            let (value, p3) = match read_str(b, p2) {
                Some(x) => x,
                None => {
                    return Err(Error::SerializationFailure);
                },
            };
            let ghost a = (key@, value@);
            proof {
                let rest = dec_tags_at(b@, p3 as int, (n - i - 1) as nat);
                if rest is Some {
                    assert(done.push(a) + rest->Some_0.0 =~= done + (seq![a] + rest->Some_0.0));
                }
                assert(done.push(a).drop_last() =~= done);
            }
            let _ = e.insert(key, value);
            let ghost done2 = done.push(a);
            proof {
                assert(e.as_map() == pairs_map(done2));
            }
            p = p3;
            i = i + 1;
            proof {
                done = done2;
            }
        }
        if p != b.len() {
            return Err(Error::SerializationFailure);
        }
        proof {
            assert(done + Seq::<(Seq<char>, Seq<char>)>::empty() =~= done);
        }
        Ok(e)
    }
}

} // verus!
