//! The repository layer: the index plus the decisions that drive the disk.
//!
//! A `Repository` owns the path index and decides, for every operation,
//! which opaque filename the surrounding binary must read, write or remove
//! under its repository directory. The file contents themselves never pass
//! through this layer: the caller writes the bytes to the filename that
//! `insert` returns, reads them from the filename that `get` returns, and
//! removes the file whose name `delete` returns. It also persists the index
//! through [`Repository::serialize`] and [`Repository::deserialize`].
//!
//! The index is only mutated in memory; persisting it after a mutating
//! operation is the caller's responsibility. A crash between a blob write
//! and that save leaves an orphaned file (or, in the other order, a dangling
//! index entry); this two-step commit is a documented limitation, not
//! detected or repaired here.

use crate::assoc::pairs_map;
use crate::codec::{assocs_ok, dec_index, enc_index};
use crate::errors::Error;
use crate::mapper::{child_names, has_node, is_opaque_name_char, spec_split, Mapper};
use vstd::prelude::*;

verus! {

/// The repository: an index from virtual paths to the opaque filenames that
/// hold each secret's bytes.
pub struct Repository {
    mapper: Mapper,
}

impl Repository {
    /// Internal invariant: the index associates each path at most once.
    pub closed spec fn wf(self) -> bool {
        self.mapper.wf()
    }

    /// What the repository means: the map from paths to filenames.
    pub closed spec fn as_map(self) -> Map<Seq<Seq<char>>, Seq<char>> {
        self.mapper.as_map()
    }

    /// The associations in their stored order, as the index file lists them.
    pub closed spec fn entry_views(self) -> Seq<(Seq<Seq<char>>, Seq<char>)> {
        self.mapper.entry_views()
    }

    /// A repository with an empty index. The caller creates the repository
    /// directory on disk.
    pub fn new() -> (r: Repository)
        ensures
            r.wf(),
            r.as_map() == Map::<Seq<Seq<char>>, Seq<char>>::empty(),
    {
        Repository { mapper: Mapper::new() }
    }

    /// Resolves `path` to the filename the caller must write the secret's
    /// bytes to: the existing association if there is one — re-inserting
    /// overwrites in place and touches no other file — otherwise a freshly
    /// generated opaque filename, recorded in the index.
    pub fn insert(&mut self, path: &str) -> (name: String)
        requires
            old(self).wf(),
        ensures
            final(self).wf(),
            final(self).as_map() == old(self).as_map().insert(spec_split(path@), name@),
            old(self).as_map().contains_key(spec_split(path@)) ==> name@ == old(self).as_map()[
                spec_split(path@)
            ] && final(self).as_map() == old(self).as_map(),
            !old(self).as_map().contains_key(spec_split(path@)) ==> name@.len() == 100 && (
            forall|i: int| 0 <= i < name@.len() ==> is_opaque_name_char(#[trigger] name@[i])),
    {
        match self.mapper.find(path) {
            Some(name) => {
                proof {
                    assert(self.as_map().insert(spec_split(path@), name@) =~= self.as_map());
                }
                name
            },
            None => self.mapper.insert(path),
        }
    }

    /// The filename holding `path`'s bytes, or `NotFound` if the index has
    /// no association for it.
    pub fn get(&self, path: &str) -> (r: Result<String, Error>)
        requires
            self.wf(),
        ensures
            match r {
                Ok(name) => self.as_map().contains_key(spec_split(path@)) && self.as_map()[
                    spec_split(path@)
                ] == name@,
                Err(e) => e == Error::NotFound && !self.as_map().contains_key(spec_split(path@)),
            },
    {
        match self.mapper.find(path) {
            Some(name) => Ok(name),
            None => Err(Error::NotFound),
        }
    }

    /// Deletes `path`'s association and returns the filename whose file the
    /// caller must remove; `NotFound` if the index has no association.
    /// Associations of descendant paths are untouched.
    pub fn delete(&mut self, path: &str) -> (r: Result<String, Error>)
        requires
            old(self).wf(),
        ensures
            final(self).wf(),
            match r {
                Ok(name) => {
                    &&& old(self).as_map().contains_key(spec_split(path@))
                    &&& old(self).as_map()[spec_split(path@)] == name@
                    &&& final(self).as_map() == old(self).as_map().remove(spec_split(path@))
                },
                Err(e) => {
                    &&& e == Error::NotFound
                    &&& !old(self).as_map().contains_key(spec_split(path@))
                    &&& *final(self) == *old(self)
                },
            },
    {
        match self.mapper.find(path) {
            Some(name) => {
                self.mapper.remove(path);
                Ok(name)
            },
            None => Err(Error::NotFound),
        }
    }

    /// The immediate child segment names below `path`, as
    /// [`Mapper::list`] describes them.
    pub fn list(&self, path: &str) -> (r: Option<Vec<String>>)
        requires
            self.wf(),
        ensures
            match r {
                Some(kids) => {
                    &&& has_node(self.as_map(), spec_split(path@))
                    &&& forall|s: Seq<char>| #[trigger]
                        kids.deep_view().contains(s) <==> child_names(
                            self.as_map(),
                            spec_split(path@),
                        ).contains(s)
                    &&& forall|a: int, b: int|
                        0 <= a < b < kids.deep_view().len() ==> kids.deep_view()[a]
                            != kids.deep_view()[b]
                },
                None => !has_node(self.as_map(), spec_split(path@)),
            },
    {
        self.mapper.list(path)
    }

    /// Encodes the index for persistence. The result decodes back to
    /// exactly the current associations.
    pub fn serialize(&self) -> (r: Vec<u8>)
        ensures
            r@ == enc_index(self.entry_views()),
            assocs_ok(self.entry_views()),
            dec_index(r@) == Some(self.entry_views()),
    {
        self.mapper.to_index_bytes()
    }

    /// Decodes a persisted index; `SerializationFailure` exactly on bytes
    /// that no index encoding produces.
    pub fn deserialize(serialized: &[u8]) -> (r: Result<Repository, Error>)
        ensures
            match r {
                Ok(repo) => {
                    &&& repo.wf()
                    &&& dec_index(serialized@) is Some
                    &&& repo.as_map() == pairs_map(dec_index(serialized@)->Some_0)
                },
                Err(e) => e == Error::SerializationFailure && dec_index(serialized@) is None,
            },
    {
        match Mapper::from_index_bytes(serialized) {
            Ok(mapper) => Ok(Repository { mapper }),
            Err(e) => Err(e),
        }
    }
}

/// Law: once `insert` has associated a path with a filename, `get` on that
/// path resolves to that same filename — so the bytes read back are the
/// bytes that were written there, as long as the file is untouched.
pub proof fn lemma_insert_then_get(
    r0: Repository,
    r1: Repository,
    path: Seq<char>,
    name: Seq<char>,
)
    requires
        r1.as_map() == r0.as_map().insert(spec_split(path), name),
    ensures
        r1.as_map().contains_key(spec_split(path)),
        r1.as_map()[spec_split(path)] == name,
{
}

/// Law: after `delete(path)`, `get(path)` finds nothing, and — when no
/// other association extends `path` — the listing of `path`'s parent no
/// longer carries `path`'s last segment. (With an association below `path`,
/// say one for a path it prefixes, the segment rightly stays listed.)
pub proof fn lemma_delete_hides_path(m: Map<Seq<Seq<char>>, Seq<char>>, p: Seq<Seq<char>>)
    requires
        p.len() > 0,
        forall|k: Seq<Seq<char>>| #[trigger]
            m.contains_key(k) && k != p ==> !crate::mapper::is_prefix_of(p, k),
    ensures
        !m.remove(p).contains_key(p),
        !child_names(m.remove(p), p.drop_last()).contains(p.last()),
{
    let parent = p.drop_last();
    let m2 = m.remove(p);
    if child_names(m2, parent).contains(p.last()) {
        let k = choose|k: Seq<Seq<char>>|
            #[trigger] m2.contains_key(k) && crate::mapper::is_prefix_of(parent, k) && k.len()
                > parent.len() && k[parent.len() as int] == p.last();
        assert(k.take(p.len() as int) =~= p) by {
            assert(k.take(parent.len() as int) == parent);
            assert(forall|j: int|
                0 <= j < parent.len() ==> #[trigger] k.take(p.len() as int)[j] == k.take(
                    parent.len() as int,
                )[j]);
            assert(k.take(p.len() as int)[p.len() - 1] == p.last());
        }
        assert(crate::mapper::is_prefix_of(p, k));
        assert(m.contains_key(k) && k != p);
        assert(false);
    }
}

/// Law: a repository round-trips through its persisted index — deserializing
/// what `serialize` produced yields a repository with identical
/// path-to-filename associations.
pub proof fn lemma_repository_round_trip(r: Repository, bytes: Seq<u8>, r2: Repository)
    requires
        r.wf(),
        r2.wf(),
        bytes == enc_index(r.entry_views()),
        assocs_ok(r.entry_views()),
        dec_index(bytes) is Some,
        r2.as_map() == pairs_map(dec_index(bytes)->Some_0),
    ensures
        r2.as_map() == r.as_map(),
{
    crate::codec::lemma_index_round_trip(r.entry_views());
    crate::mapper::lemma_as_map_is_pairs_map(r.mapper);
}

} // verus!
