//! The objects of one peer, by name.

use crate::encoding::{decodable, decoded, holds_part_of, FileView};
use crate::file::{File, Metadata, Shard};
use crate::protocol::{ensured, held, merged_into, Objects};
use crate::slots::ShardView;
use vstd::hash_map::StringHashMap;
use vstd::prelude::*;
use vstd::utf8::encode_utf8;

verus! {

/// The object store of a peer: the objects it has seen, each under its name.
/// Objects are added and filled, never removed.
pub struct ObjectStore {
    index: StringHashMap<usize>,
    files: Vec<File>,
}

/// The shards of a vector of shards.
pub open spec fn shards_of(shards: Seq<Shard>) -> Seq<ShardView> {
    Seq::new(shards.len(), |i: int| shards[i]@)
}

impl View for ObjectStore {
    type V = Objects;

    closed spec fn view(&self) -> Objects {
        Map::new(
            |name: Seq<char>| self.index@.contains_key(name),
            |name: Seq<char>| self.files@[self.index@[name] as int]@,
        )
    }
}

impl ObjectStore {
    /// Every name leads to an object of its own.
    #[verifier::type_invariant]
    spec fn wf(self) -> bool {
        &&& forall|name: Seq<char>| #[trigger]
            self.index@.contains_key(name) ==> self.index@[name] < self.files@.len()
        &&& forall|a: Seq<char>, b: Seq<char>|
            self.index@.contains_key(a) && self.index@.contains_key(b) && #[trigger] self.index@[a]
                == #[trigger] self.index@[b] ==> a == b
    }

    /// A store that knows no name.
    pub fn new() -> (res: Self)
        ensures
            res@ == Map::<Seq<char>, FileView>::empty(),
    {
        let res = ObjectStore { index: StringHashMap::new(), files: Vec::new() };
        assert(res@ =~= Map::<Seq<char>, FileView>::empty());
        res
    }

    /// The object under `name`, if the name is known.
    pub fn get(&self, name: &str) -> (res: Option<&File>)
        ensures
            res is Some <==> self@.contains_key(name@),
            res matches Some(file) ==> file@ == self@[name@],
    {
        proof {
            use_type_invariant(self);
        }
        match self.index.get(name) {
            Some(position) => Some(&self.files[*position]),
            None => None,
        }
    }

    /// Puts `file` under `name`, in place of any object that was there.
    pub fn insert(&mut self, name: String, file: File)
        ensures
            final(self)@ == old(self)@.insert(name@, file@),
    {
        proof {
            use_type_invariant(&*self);
        }
        let found = match self.index.get(name.as_str()) {
            Some(position) => Some(*position),
            None => None,
        };
        match found {
            Some(position) => {
                self.files[position] = file;
            },
            None => {
                // The index and the objects are taken out, changed, and put
                // back, the objects first: at no step does the store know a
                // name without an object.
                let mut index: StringHashMap<usize> = StringHashMap::new();
                let mut files: Vec<File> = Vec::new();
                core::mem::swap(&mut self.index, &mut index);
                core::mem::swap(&mut self.files, &mut files);
                index.insert(name, files.len());
                files.push(file);
                core::mem::swap(&mut self.files, &mut files);
                core::mem::swap(&mut self.index, &mut index);
            },
        }
        assert(self@ =~= old(self)@.insert(name@, file@));
    }

    /// Reserves `name` for an object of the shape `meta`: a name that is not
    /// known gets a blank object, a known one keeps what it has.
    pub fn ensure(&mut self, name: String, meta: Metadata)
        ensures
            final(self)@ == ensured(old(self)@, name@, meta@),
    {
        if !self.index.contains_key(name.as_str()) {
            self.insert(name, File::empty(meta));
        }
    }

    /// Offers `shard` to the object under `name`. A shard for a name that is
    /// not known is dropped, and so is one for a slot that the object does
    /// not have.
    pub fn merge(&mut self, name: &str, shard: Shard)
        ensures
            final(self)@ == merged_into(old(self)@, name@, shard@),
    {
        proof {
            use_type_invariant(&*self);
        }
        let found = match self.index.get(name) {
            Some(position) => Some(*position),
            None => None,
        };
        if let Some(position) = found {
            if shard.index() < self.files[position].shards().len() {
                self.files[position].shards_mut().merge(shard);
            }
            assert(self@ =~= merged_into(old(self)@, name@, shard@));
        }
    }

    /// The shards held under `name`, each a copy of its own, in ascending
    /// order of index: none if the name is not known.
    pub fn snapshot_present(&self, name: &str) -> (res: Vec<Shard>)
        ensures
            shards_of(res@) == held(self@, name@),
    {
        let mut shards: Vec<Shard> = Vec::new();
        match self.get(name) {
            None => {
                assert(shards_of(shards@) =~= held(self@, name@));
            },
            Some(file) => {
                let mut walk = file.shards().present_iter();
                loop
                    invariant
                        walk.slots() == self@[name@].slots,
                        self@.contains_key(name@),
                        shards_of(shards@) + walk.remaining() == held(self@, name@),
                    ensures
                        shards_of(shards@) == held(self@, name@),
                    decreases walk.remaining().len(),
                {
                    let ghost before = shards_of(shards@);
                    let ghost coming = walk.remaining();
                    match walk.next() {
                        Some(shard) => {
                            shards.push(shard);
                            assert(shards_of(shards@) =~= before.push(coming[0]));
                            assert(before.push(coming[0]) + coming.drop_first() =~= before
                                + coming);
                        },
                        None => {
                            assert(before + coming =~= before);
                            break ;
                        },
                    }
                }
            },
        }
        shards
    }

    /// The text of the object under `name`: none where the name is not known
    /// or the object does not decode.
    pub fn try_decode(&self, name: &str) -> (res: Option<String>)
        ensures
            res is Some <==> self@.contains_key(name@) && decoded(self@[name@]) is Some,
            res matches Some(text) ==> Some(text@) == decoded(self@[name@]),
            self@.contains_key(name@) && !decodable(self@[name@]) ==> res is None,
            forall|text: Seq<char>|
                self@.contains_key(name@) && #[trigger] holds_part_of(
                    self@[name@],
                    encode_utf8(text),
                ) ==> res is Some && res->0@ == text,
    {
        match self.get(name) {
            Some(file) => file.decode(),
            None => None,
        }
    }
}

} // verus!
