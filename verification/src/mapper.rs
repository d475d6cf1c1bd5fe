//! The path-obfuscating index.
//!
//! A `Mapper` associates virtual hierarchical paths — sequences of non-empty
//! segments such as `alice/email` — with opaque, randomly generated
//! filenames, so that the on-disk names reveal nothing about the logical
//! ones. It is a pure in-memory structure; its abstract meaning is the map
//! from segment sequences to filenames given by [`Mapper::as_map`].

use crate::codec::{
    assoc_ok, assocs_ok, dec_assocs_at, dec_index, dec_u64_at, enc_assoc, enc_assocs, enc_index,
    enc_path, enc_str, lemma_enc_assocs_push, lemma_index_round_trip, push_path, push_str,
    push_u64, read_path, read_str, read_u64,
};
use crate::assoc::{lemma_pairs_map_char, lemma_pairs_remove, lemma_pairs_update, pair_keys_unique, pairs_map};
use crate::errors::Error;
use rand::distributions::DistString;
use vstd::prelude::*;

verus! {

// ---------------------------------------------------------------------------
// Paths and their segments
// ---------------------------------------------------------------------------
/// Splits `s` at `'/'`, accumulating the segment read so far in `cur`;
/// empty segments (leading, trailing or doubled separators) are dropped.
pub open spec fn split_acc(s: Seq<char>, cur: Seq<char>) -> Seq<Seq<char>>
    decreases s.len(),
{
    if s.len() == 0 {
        if cur.len() == 0 {
            Seq::empty()
        } else {
            seq![cur]
        }
    } else if s[0] == '/' {
        if cur.len() == 0 {
            split_acc(s.skip(1), Seq::empty())
        } else {
            seq![cur] + split_acc(s.skip(1), Seq::empty())
        }
    } else {
        split_acc(s.skip(1), cur.push(s[0]))
    }
}

/// The ordered non-empty segments of a path string.
pub open spec fn spec_split(s: Seq<char>) -> Seq<Seq<char>> {
    split_acc(s, Seq::empty())
}

/// Splits a path string into its ordered non-empty segments.
pub fn split_path(path: &str) -> (segs: Vec<String>)
    ensures
        segs.deep_view() == spec_split(path@),
{
    let n = path.unicode_len();
    let mut segs: Vec<String> = Vec::new();
    let mut cur = String::new();
    let mut i: usize = 0;
    proof {
        assert(path@.skip(0) =~= path@);
        assert(segs.deep_view() + split_acc(path@, cur@) =~= split_acc(path@, Seq::empty()));
    }
    while i < n
        invariant
            n == path@.len(),
            0 <= i <= n,
            segs.deep_view() + split_acc(path@.skip(i as int), cur@) == spec_split(path@),
        decreases n - i,
    {
        let c = path.get_char(i);
        proof {
            assert(path@.skip(i as int)[0] == path@[i as int]);
            assert(path@.skip(i as int).skip(1) =~= path@.skip(i + 1));
        }
        if c == '/' {
            if !cur.as_str().is_empty() {
                let ghost prev = segs.deep_view();
                let ghost cv = cur@;
                segs.push(cur);
                cur = String::new();
                proof {
                    assert(segs.deep_view() =~= prev.push(cv));
                    assert(prev.push(cv) + split_acc(path@.skip(i + 1), Seq::empty()) =~= prev + (
                    seq![cv] + split_acc(path@.skip(i + 1), Seq::empty())));
                }
            } else {
                proof {
                    assert(cur@ =~= Seq::<char>::empty());
                }
            }
        } else {
            cur.push(c);
        }
        i = i + 1;
    }
    proof {
        assert(path@.skip(n as int) =~= Seq::<char>::empty());
    }
    if !cur.as_str().is_empty() {
        let ghost prev = segs.deep_view();
        let ghost cv = cur@;
        segs.push(cur);
        proof {
            assert(segs.deep_view() =~= prev.push(cv));
            assert(prev.push(cv) =~= prev + seq![cv]);
        }
    } else {
        proof {
            assert(segs.deep_view() + Seq::<Seq<char>>::empty() =~= segs.deep_view());
        }
    }
    segs
}

// ---------------------------------------------------------------------------
// The mapper itself
// ---------------------------------------------------------------------------
/// The alphabet of opaque filenames.
pub open spec fn is_opaque_name_char(c: char) -> bool {
    ('a' <= c && c <= 'z') || ('A' <= c && c <= 'Z') || ('0' <= c && c <= '9')
}

/// Relies on rand::distributions::Alphanumeric (through DistString) driven by
/// rand::thread_rng, a cryptographically secure generator: the result is 100
/// characters drawn from a-z, A-Z and 0-9.
#[verifier::external_body]
fn random_name() -> (r: String)
    ensures
        r@.len() == 100,
        forall|i: int| 0 <= i < r@.len() ==> is_opaque_name_char(#[trigger] r@[i]),
{
    let mut rng = rand::thread_rng();
    rand::distributions::Alphanumeric.sample_string(&mut rng, 100)
}

/// A mapper means exactly the map of its association list.
pub proof fn lemma_as_map_is_pairs_map(m: Mapper)
    ensures
        m.as_map() == pairs_map(m.entry_views()),
{
}

/// The index: a list of path-to-filename associations with pairwise distinct
/// paths.
pub struct Mapper {
    entries: Vec<(Vec<String>, String)>,
}

impl Mapper {
    /// The associations, as they are ordered in memory.
    pub closed spec fn entry_views(self) -> Seq<(Seq<Seq<char>>, Seq<char>)> {
        Seq::new(
            self.entries@.len(),
            |i: int| (self.entries@[i].0.deep_view(), self.entries@[i].1@),
        )
    }

    /// Internal invariant: no path is associated twice.
    pub closed spec fn wf(self) -> bool {
        pair_keys_unique(self.entry_views())
    }

    /// What the mapper means: the map from segment sequences to filenames.
    pub closed spec fn as_map(self) -> Map<Seq<Seq<char>>, Seq<char>> {
        pairs_map(self.entry_views())
    }

    /// An empty mapper.
    pub fn new() -> (m: Mapper)
        ensures
            m.wf(),
            m.as_map() == Map::<Seq<Seq<char>>, Seq<char>>::empty(),
    {
        Mapper { entries: Vec::new() }
    }

    /// Exact-match lookup: the filename associated with `path`, if any.
    pub fn find(&self, path: &str) -> (r: Option<String>)
        requires
            self.wf(),
        ensures
            match r {
                Some(f) => self.as_map().contains_key(spec_split(path@)) && self.as_map()[
                    spec_split(path@)
                ] == f@,
                None => !self.as_map().contains_key(spec_split(path@)),
            },
    {
        let segs = split_path(path);
        proof {
            lemma_pairs_map_char(self.entry_views());
        }
        let n = self.entries.len();
        let mut i: usize = 0;
        while i < n
            invariant
                self.wf(),
                n == self.entries@.len(),
                0 <= i <= n,
                segs.deep_view() == spec_split(path@),
                forall|j: int|
                    0 <= j < i ==> (#[trigger] self.entry_views()[j]).0 != segs.deep_view(),
            decreases n - i,
        {
            if path_eq(&self.entries[i].0, &segs) {
                proof {
                    lemma_pairs_map_char(self.entry_views());
                    assert(self.entry_views()[i as int].0 == segs.deep_view());
                }
                return Some(self.entries[i].1.clone());
            }
            proof {
                assert(self.entry_views()[i as int].0 != segs.deep_view());
            }
            i = i + 1;
        }
        proof {
            if self.as_map().contains_key(segs.deep_view()) {
                let j = choose|j: int|
                    0 <= j < self.entry_views().len() && (#[trigger] self.entry_views()[j]).0
                        == segs.deep_view();
                assert(false);
            }
        }
        None
    }

    /// Associates `path` with a freshly generated opaque filename, replacing
    /// any existing association, and returns the new filename.
    pub fn insert(&mut self, path: &str) -> (name: String)
        requires
            old(self).wf(),
        ensures
            final(self).wf(),
            final(self).as_map() == old(self).as_map().insert(spec_split(path@), name@),
            name@.len() == 100,
            forall|i: int| 0 <= i < name@.len() ==> is_opaque_name_char(#[trigger] name@[i]),
    {
        let name = random_name();
        let segs = split_path(path);
        let nc = name.clone();
        self.set_assoc(segs, nc);
        name
    }

    /// Associates the already-split path `segs` with `name`, replacing any
    /// existing association.
    fn set_assoc(&mut self, segs: Vec<String>, name: String)
        requires
            old(self).wf(),
        ensures
            final(self).wf(),
            final(self).as_map() == old(self).as_map().insert(segs.deep_view(), name@),
    {
        let ghost kv = segs.deep_view();
        let ghost nv = name@;
        let n = self.entries.len();
        let mut i: usize = 0;
        while i < n
            invariant
                *self == *old(self),
                self.wf(),
                n == self.entries@.len(),
                0 <= i <= n,
                kv == segs.deep_view(),
                nv == name@,
                forall|j: int| 0 <= j < i ==> (#[trigger] self.entry_views()[j]).0 != kv,
            decreases n - i,
        {
            if path_eq(&self.entries[i].0, &segs) {
                self.entries[i] = (segs, name);
                proof {
                    let l1 = old(self).entry_views();
                    assert(self.entry_views() =~= l1.update(i as int, (kv, nv)));
                    lemma_pairs_update(l1, i as int, kv, nv);
                }
                return ;
            }
            proof {
                assert(self.entry_views()[i as int].0 != kv);
            }
            i = i + 1;
        }
        self.entries.push((segs, name));
        proof {
            let l1 = old(self).entry_views();
            let l2 = self.entry_views();
            assert(l2.drop_last() =~= l1);
            assert(l2.last() == (kv, nv));
            assert(pair_keys_unique(l2)) by {
                assert(forall|j: int| 0 <= j < l1.len() ==> (#[trigger] l2[j]).0 == l1[j].0);
            }
            assert(pairs_map(l2) == pairs_map(l1).insert(kv, nv));
        }
    }

    /// Deletes the association at exactly `path`; associations of descendant
    /// paths are untouched.
    pub fn remove(&mut self, path: &str)
        requires
            old(self).wf(),
        ensures
            final(self).wf(),
            final(self).as_map() == old(self).as_map().remove(spec_split(path@)),
    {
        let segs = split_path(path);
        let ghost kv = segs.deep_view();
        let n = self.entries.len();
        let mut i: usize = 0;
        while i < n
            invariant
                *self == *old(self),
                self.wf(),
                n == self.entries@.len(),
                0 <= i <= n,
                kv == segs.deep_view(),
                kv == spec_split(path@),
                forall|j: int| 0 <= j < i ==> (#[trigger] self.entry_views()[j]).0 != kv,
            decreases n - i,
        {
            if path_eq(&self.entries[i].0, &segs) {
                proof {
                    assert(self.entry_views()[i as int].0 == kv);
                }
                self.entries.remove(i);
                proof {
                    let l1 = old(self).entry_views();
                    assert(self.entry_views() =~= l1.remove(i as int));
                    lemma_pairs_remove(l1, i as int);
                }
                return ;
            }
            proof {
                assert(self.entry_views()[i as int].0 != kv);
            }
            i = i + 1;
        }
        proof {
            lemma_pairs_map_char(self.entry_views());
            if self.as_map().contains_key(kv) {
                let j = choose|j: int|
                    0 <= j < self.entry_views().len() && (#[trigger] self.entry_views()[j]).0 == kv;
                assert(false);
            }
            assert(self.as_map().remove(kv) =~= self.as_map());
        }
    }

    /// The immediate child segment names below `path`: `None` if the index
    /// has no node there, otherwise the names, each exactly once (an empty
    /// vector when the node has no children). A node may both carry a value
    /// and have children; the listing does not distinguish the two.
    pub fn list(&self, path: &str) -> (r: Option<Vec<String>>)
        requires
            self.wf(),
        ensures
            match r {
                Some(kids) => {
                    &&& has_node(self.as_map(), spec_split(path@))
                    &&& forall|s: Seq<char>| #[trigger]
                        kids.deep_view().contains(s) <==> child_names(
                            self.as_map(),
                            spec_split(path@),
                        ).contains(s)
                    &&& forall|a: int, b: int|
                        0 <= a < b < kids.deep_view().len() ==> kids.deep_view()[a]
                            != kids.deep_view()[b]
                },
                None => !has_node(self.as_map(), spec_split(path@)),
            },
    {
        let segs = split_path(path);
        let ghost kv = segs.deep_view();
        let n = segs.len();
        let mut found = segs.is_empty();
        let mut kids: Vec<String> = Vec::new();
        let m = self.entries.len();
        let mut i: usize = 0;
        while i < m
            invariant
                self.wf(),
                m == self.entries@.len(),
                0 <= i <= m,
                kv == segs.deep_view(),
                kv == spec_split(path@),
                n == segs@.len(),
                found <==> (kv.len() == 0 || exists|j: int|
                    0 <= j < i && is_prefix_of(kv, (#[trigger] self.entry_views()[j]).0)),
                forall|s: Seq<char>| #[trigger]
                    kids.deep_view().contains(s) <==> exists|j: int|
                        0 <= j < i && is_prefix_of(kv, (#[trigger] self.entry_views()[j]).0)
                            && self.entry_views()[j].0.len() > kv.len()
                            && self.entry_views()[j].0[kv.len() as int] == s,
                forall|a: int, b: int|
                    0 <= a < b < kids.deep_view().len() ==> kids.deep_view()[a]
                        != kids.deep_view()[b],
            decreases m - i,
        {
            let e = &self.entries[i];
            let ghost ev = self.entry_views()[i as int];
            proof {
                assert(ev.0 == e.0.deep_view());
            }
            if is_path_prefix(&segs, &e.0) {
                found = true;
                if e.0.len() > n {
                    let c = e.0[n].clone();
                    proof {
                        assert(ev.0[kv.len() as int] == c@);
                    }
                    if !contains_string(&kids, &c) {
                        let ghost prev = kids.deep_view();
                        let ghost cv = c@;
                        kids.push(c);
                        proof {
                            assert(kids.deep_view() =~= prev.push(cv));
                            assert forall|s: Seq<char>| #[trigger]
                                kids.deep_view().contains(s) implies exists|j: int|
                                0 <= j < i + 1 && is_prefix_of(
                                    kv,
                                    (#[trigger] self.entry_views()[j]).0,
                                ) && self.entry_views()[j].0.len() > kv.len()
                                && self.entry_views()[j].0[kv.len() as int] == s by {
                                let x = choose|x: int|
                                    0 <= x < kids.deep_view().len() && kids.deep_view()[x] == s;
                                if x < prev.len() {
                                    assert(prev.contains(s));
                                } else {
                                    assert(s == cv);
                                    assert(is_prefix_of(kv, self.entry_views()[i as int].0));
                                }
                            }
                            assert forall|s: Seq<char>|
                                exists|j: int|
                                    0 <= j < i + 1 && is_prefix_of(
                                        kv,
                                        (#[trigger] self.entry_views()[j]).0,
                                    ) && self.entry_views()[j].0.len() > kv.len()
                                        && self.entry_views()[j].0[kv.len() as int]
                                        == s implies #[trigger] kids.deep_view().contains(s) by {
                                let j = choose|j: int|
                                    0 <= j < i + 1 && is_prefix_of(
                                        kv,
                                        (#[trigger] self.entry_views()[j]).0,
                                    ) && self.entry_views()[j].0.len() > kv.len()
                                        && self.entry_views()[j].0[kv.len() as int] == s;
                                if j < i {
                                    assert(prev.contains(s));
                                    let x = choose|x: int|
                                        0 <= x < prev.len() && prev[x] == s;
                                    assert(kids.deep_view()[x] == s);
                                } else {
                                    assert(kids.deep_view()[prev.len() as int] == s);
                                }
                            }
                        }
                    } else {
                        proof {
                            assert forall|s: Seq<char>|
                                exists|j: int|
                                    0 <= j < i + 1 && is_prefix_of(
                                        kv,
                                        (#[trigger] self.entry_views()[j]).0,
                                    ) && self.entry_views()[j].0.len() > kv.len()
                                        && self.entry_views()[j].0[kv.len() as int]
                                        == s implies #[trigger] kids.deep_view().contains(s) by {
                                let j = choose|j: int|
                                    0 <= j < i + 1 && is_prefix_of(
                                        kv,
                                        (#[trigger] self.entry_views()[j]).0,
                                    ) && self.entry_views()[j].0.len() > kv.len()
                                        && self.entry_views()[j].0[kv.len() as int] == s;
                                if j == i {
                                    assert(s == c@);
                                }
                            }
                        }
                    }
                }
            }
            i = i + 1;
        }
        proof {
            lemma_pairs_map_char(self.entry_views());
            let l = self.entry_views();
            let mp = self.as_map();
            if found {
                if kv.len() != 0 {
                    let j = choose|j: int|
                        0 <= j < l.len() && is_prefix_of(kv, (#[trigger] l[j]).0);
                    assert(mp.contains_key(l[j].0));
                    assert(has_node(mp, kv));
                }
            } else {
                if has_node(mp, kv) {
                    let k = choose|k: Seq<Seq<char>>|
                        #[trigger] mp.contains_key(k) && is_prefix_of(kv, k);
                    let j = choose|j: int| 0 <= j < l.len() && (#[trigger] l[j]).0 == k;
                    assert(false);
                }
            }
            assert forall|s: Seq<char>| #[trigger]
                kids.deep_view().contains(s) implies child_names(mp, kv).contains(s) by {
                let j = choose|j: int|
                    0 <= j < l.len() && is_prefix_of(kv, (#[trigger] l[j]).0) && l[j].0.len()
                        > kv.len() && l[j].0[kv.len() as int] == s;
                assert(mp.contains_key(l[j].0));
            }
            assert forall|s: Seq<char>| child_names(mp, kv).contains(
                s,
            ) implies #[trigger] kids.deep_view().contains(s) by {
                let k = choose|k: Seq<Seq<char>>|
                    #[trigger] mp.contains_key(k) && is_prefix_of(kv, k) && k.len() > kv.len()
                        && k[kv.len() as int] == s;
                let j = choose|j: int| 0 <= j < l.len() && (#[trigger] l[j]).0 == k;
            }
        }
        if found {
            Some(kids)
        } else {
            None
        }
    }

    /// Encodes the associations as an index file.
    pub fn to_index_bytes(&self) -> (r: Vec<u8>)
        ensures
            r@ == enc_index(self.entry_views()),
            assocs_ok(self.entry_views()),
            dec_index(r@) == Some(self.entry_views()),
    {
        let mut out: Vec<u8> = Vec::new();
        let m = self.entries.len();
        push_u64(&mut out, m as u64);
        let ghost start = out@;
        let mut i: usize = 0;
        while i < m
            invariant
                m == self.entries@.len(),
                0 <= i <= m,
                out@ == start + enc_assocs(self.entry_views().take(i as int)),
                forall|j: int| 0 <= j < i ==> assoc_ok(#[trigger] self.entry_views()[j]),
            decreases m - i,
        {
            let ghost ev = self.entry_views()[i as int];
            let ghost before = out@;
            push_path(&mut out, &self.entries[i].0);
            push_str(&mut out, self.entries[i].1.as_str());
            proof {
                lemma_enc_assocs_push(self.entry_views().take(i as int), ev);
                assert(self.entry_views().take(i as int).push(ev) =~= self.entry_views().take(
                    i + 1,
                ));
                assert(out@ =~= before + (enc_path(ev.0) + enc_str(ev.1)));
                assert(out@ =~= start + (enc_assocs(self.entry_views().take(i as int)) + enc_assoc(
                    ev,
                )));
            }
            i = i + 1;
        }
        proof {
            assert(self.entry_views().take(m as int) =~= self.entry_views());
            lemma_index_round_trip(self.entry_views());
        }
        out
    }

    /// Decodes an index file; `SerializationFailure` exactly on bytes that
    /// no index encoding produces. When a path occurs more than once, the
    /// later association overrides the earlier one.
    pub fn from_index_bytes(b: &[u8]) -> (r: Result<Mapper, Error>)
        ensures
            match r {
                Ok(m) => {
                    &&& m.wf()
                    &&& dec_index(b@) is Some
                    &&& m.as_map() == pairs_map(dec_index(b@)->Some_0)
                },
                Err(e) => e == Error::SerializationFailure && dec_index(b@) is None,
            },
    {
        let (n, start) = match read_u64(b, 0) {
            Some(x) => x,
            None => {
                return Err(Error::SerializationFailure);
            },
        };
        let mut m = Mapper::new();
        let ghost mut done = Seq::<(Seq<Seq<char>>, Seq<char>)>::empty();
        let mut p = start;
        let mut i: u64 = 0;
        proof {
            assert(done + dec_assocs_at(b@, p as int, n as nat)->Some_0.0 =~= dec_assocs_at(
                b@,
                p as int,
                n as nat,
            )->Some_0.0);
        }
        while i < n
            invariant
                0 <= i <= n,
                m.wf(),
                dec_u64_at(b@, 0) == Some((n, start as int)),
                m.as_map() == pairs_map(done),
                match dec_assocs_at(b@, p as int, (n - i) as nat) {
                    Some((t, e)) => dec_assocs_at(b@, start as int, n as nat) == Some((
                        done + t,
                        e,
                    )),
                    None => dec_assocs_at(b@, start as int, n as nat) is None,
                },
            decreases n - i,
        {
            let (segs, p2) = match read_path(b, p) {
                Some(x) => x,
                None => {
                    return Err(Error::SerializationFailure);
                },
            };
            let (name, p3) = match read_str(b, p2) {
                Some(x) => x,
                None => {
                    return Err(Error::SerializationFailure);
                },
            };
            let ghost a = (segs.deep_view(), name@);
            proof {
                let rest = dec_assocs_at(b@, p3 as int, (n - i - 1) as nat);
                if rest is Some {
                    assert(done.push(a) + rest->Some_0.0 =~= done + (seq![a] + rest->Some_0.0));
                }
                assert(pairs_map(done.push(a)).insert(a.0, a.1) == pairs_map(done).insert(
                    a.0,
                    a.1,
                )) by {
                    assert(done.push(a).drop_last() =~= done);
                }
            }
            m.set_assoc(segs, name);
            proof {
                assert(done.push(a).drop_last() =~= done);
            }
            let ghost done2 = done.push(a);
            proof {
                assert(m.as_map() == pairs_map(done2));
            }
            p = p3;
            i = i + 1;
            proof {
                done = done2;
            }
        }
        if p != b.len() {
            return Err(Error::SerializationFailure);
        }
        proof {
            assert(done + Seq::<(Seq<Seq<char>>, Seq<char>)>::empty() =~= done);
        }
        Ok(m)
    }
}

// ---------------------------------------------------------------------------
// Listing children
// ---------------------------------------------------------------------------
/// Whether the segment sequence `p` is a (not necessarily proper) prefix of
/// `k`.
pub open spec fn is_prefix_of(p: Seq<Seq<char>>, k: Seq<Seq<char>>) -> bool {
    p.len() <= k.len() && k.take(p.len() as int) == p
}

/// Whether `p` names a node of the index: the root always does; any other
/// path does exactly when some stored path extends it (or is it).
pub open spec fn has_node(m: Map<Seq<Seq<char>>, Seq<char>>, p: Seq<Seq<char>>) -> bool {
    p.len() == 0 || exists|k: Seq<Seq<char>>|
        #[trigger] m.contains_key(k) && is_prefix_of(p, k)
}

/// The immediate child segment names below `p`.
pub open spec fn child_names(m: Map<Seq<Seq<char>>, Seq<char>>, p: Seq<Seq<char>>) -> Set<
    Seq<char>,
> {
    Set::new(
        |s: Seq<char>|
            exists|k: Seq<Seq<char>>|
                #[trigger] m.contains_key(k) && is_prefix_of(p, k) && k.len() > p.len() && k[p.len() as int]
                    == s,
    )
}

// ---------------------------------------------------------------------------
// Comparison helpers
// ---------------------------------------------------------------------------
/// Whether `p` spells a prefix of the path spelled by `k`.
fn is_path_prefix(p: &Vec<String>, k: &Vec<String>) -> (r: bool)
    ensures
        r == is_prefix_of(p.deep_view(), k.deep_view()),
{
    if p.len() > k.len() {
        proof {
            assert(!is_prefix_of(p.deep_view(), k.deep_view()));
        }
        return false;
    }
    let mut i: usize = 0;
    while i < p.len()
        invariant
            0 <= i <= p@.len(),
            p@.len() <= k@.len(),
            forall|j: int| 0 <= j < i ==> p.deep_view()[j] == k.deep_view()[j],
        decreases p@.len() - i,
    {
        if !(p[i] == k[i]) {
            proof {
                assert(k.deep_view().take(p.deep_view().len() as int)[i as int] != p.deep_view()[
                    i as int
                ]);
            }
            return false;
        }
        i = i + 1;
    }
    proof {
        assert(k.deep_view().take(p.deep_view().len() as int) =~= p.deep_view());
    }
    true
}

/// Whether `v` holds a string equal to `s`.
fn contains_string(v: &Vec<String>, s: &String) -> (r: bool)
    ensures
        r == v.deep_view().contains(s@),
{
    let mut i: usize = 0;
    while i < v.len()
        invariant
            0 <= i <= v@.len(),
            forall|j: int| 0 <= j < i ==> v.deep_view()[j] != s@,
        decreases v@.len() - i,
    {
        if v[i] == *s {
            proof {
                assert(v.deep_view()[i as int] == s@);
            }
            return true;
        }
        i = i + 1;
    }
    proof {
        if v.deep_view().contains(s@) {
            let j = choose|j: int| 0 <= j < v.deep_view().len() && v.deep_view()[j] == s@;
            assert(false);
        }
    }
    false
}

/// Whether two segment vectors spell the same path.
fn path_eq(a: &Vec<String>, b: &Vec<String>) -> (r: bool)
    ensures
        r == (a.deep_view() == b.deep_view()),
{
    if a.len() != b.len() {
        proof {
            assert(a.deep_view().len() != b.deep_view().len());
        }
        return false;
    }
    let mut i: usize = 0;
    while i < a.len()
        invariant
            0 <= i <= a@.len(),
            a@.len() == b@.len(),
            forall|j: int| 0 <= j < i ==> a.deep_view()[j] == b.deep_view()[j],
        decreases a@.len() - i,
    {
        if !(a[i] == b[i]) {
            proof {
                assert(a.deep_view()[i as int] != b.deep_view()[i as int]);
            }
            return false;
        }
        i = i + 1;
    }
    proof {
        assert(a.deep_view() =~= b.deep_view());
    }
    true
}

} // verus!
