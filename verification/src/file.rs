//! Shards, shard sets and the objects they make up.

use crate::codec::{
    buffers_of, codeword, complete, lemma_slots_of_push, occupied, parity, present_count,
    rs_encode, rs_reconstruct, slots_of, uniform, valid_shape, Slots, MAX_SHARDS,
};
use crate::encoding::{
    blank, can_encode, chunk, chunk_count, chunks, decodable, decoded, encoding, holds_part_of,
    lemma_chunks_uniform, lemma_encoding_complete, lemma_part_reconstructible,
    lemma_part_yields_content, payload, reconstructed, truncated, FileView, MetadataView,
    SHARD_SIZE,
};
use crate::slots::{
    deleted, inserted, lemma_present_step, merged, present_from, stored_bytes, stored_upto,
    ShardView,
};
use vstd::prelude::*;
use vstd::string::StringSliceAdditionalSpecFns;
use vstd::utf8::{
    decode_utf8, encode_utf8, encode_utf8_decode_utf8, encode_utf8_valid_utf8, valid_utf8,
};

verus! {

/// One shard of an object, as it travels between peers: the buffer, and the
/// index of the slot it belongs in.
#[derive(Debug)]
pub struct Shard {
    index: usize,
    data: Vec<u8>,
}

impl View for Shard {
    type V = ShardView;

    closed spec fn view(&self) -> ShardView {
        ShardView { index: self.index as nat, data: self.data@ }
    }
}

impl Clone for Shard {
    fn clone(&self) -> (res: Self)
        ensures
            res@ == self@,
    {
        Shard { index: self.index, data: self.data.clone() }
    }
}

impl Shard {
    /// The number of bytes in the buffer.
    pub fn size(&self) -> (res: usize)
        ensures
            res == self@.data.len(),
    {
        self.data.len()
    }

    /// The index of the slot that this shard belongs in.
    pub fn index(&self) -> (res: usize)
        ensures
            res == self@.index,
    {
        self.index
    }

    /// The buffer.
    pub fn data(&self) -> (res: &Vec<u8>)
        ensures
            res@ == self@.data,
    {
        &self.data
    }
}

/// The shard set of one object: a vector of slots, each absent or holding a
/// buffer. No operation changes the number of slots.
#[derive(Debug)]
pub struct Shards {
    inner: Vec<Option<Vec<u8>>>,
}

impl View for Shards {
    type V = Slots;

    closed spec fn view(&self) -> Slots {
        slots_of(self.inner@)
    }
}

impl Clone for Shards {
    fn clone(&self) -> (res: Self)
        ensures
            res@ == self@,
    {
        let mut inner: Vec<Option<Vec<u8>>> = Vec::with_capacity(self.inner.len());
        let mut i: usize = 0;
        while i < self.inner.len()
            invariant
                i <= self.inner.len(),
                slots_of(inner@) == slots_of(self.inner@).take(i as int),
            decreases self.inner.len() - i,
        {
            let slot = match &self.inner[i] {
                Some(buffer) => {
                    let copy = buffer.clone();
                    assert(copy@ =~= buffer@);
                    Some(copy)
                },
                None => None,
            };
            proof {
                lemma_slots_of_push(inner@, slot);
            }
            inner.push(slot);
            i += 1;
            assert(slots_of(inner@) =~= slots_of(self.inner@).take(i as int));
        }
        assert(slots_of(self.inner@).take(i as int) =~= slots_of(self.inner@));
        Shards { inner }
    }
}

impl Shards {
    /// A shard set with the given slots.
    pub fn new(inner: Vec<Option<Vec<u8>>>) -> (res: Self)
        ensures
            res@ == slots_of(inner@),
    {
        Shards { inner }
    }

    /// A shard set of `len` absent slots.
    fn absent(len: usize) -> (res: Self)
        ensures
            res@ == Seq::new(len as nat, |i: int| None::<Seq<u8>>),
    {
        let mut inner: Vec<Option<Vec<u8>>> = Vec::with_capacity(len);
        let mut i: usize = 0;
        while i < len
            invariant
                i <= len,
                inner@.len() == i,
                forall|x: int| 0 <= x < i ==> (#[trigger] inner@[x]) is None,
            decreases len - i,
        {
            inner.push(None);
            i += 1;
        }
        assert(slots_of(inner@) =~= Seq::new(len as nat, |i: int| None::<Seq<u8>>));
        Shards { inner }
    }

    /// The shard set in which every buffer of `buffers` is present, each at
    /// its own position.
    fn from_buffers(buffers: Vec<Vec<u8>>) -> (res: Self)
        ensures
            res@ == complete(buffers_of(buffers@)),
    {
        let mut buffers = buffers;
        let ghost all = buffers_of(buffers@);
        let mut inner: Vec<Option<Vec<u8>>> = Vec::with_capacity(buffers.len());
        let mut i: usize = 0;
        while i < buffers.len()
            invariant
                i <= buffers@.len(),
                buffers@.len() == all.len(),
                forall|x: int| i <= x < buffers@.len() ==> (#[trigger] buffers@[x])@ == all[x],
                inner@.len() == i,
                forall|x: int|
                    0 <= x < i ==> (#[trigger] inner@[x]) is Some && inner@[x]->0@ == all[x],
            decreases buffers@.len() - i,
        {
            let mut buffer: Vec<u8> = Vec::new();
            buffers.set_and_swap(i, &mut buffer);
            inner.push(Some(buffer));
            i += 1;
        }
        assert(slots_of(inner@) =~= complete(all));
        Shards { inner }
    }

    /// The number of slots, occupied or not.
    pub fn len(&self) -> (res: usize)
        ensures
            res == self@.len(),
    {
        self.inner.len()
    }

    /// Puts `shard` into the slot at `index`, over whatever the slot held.
    pub fn insert(&mut self, shard: Vec<u8>, index: usize)
        requires
            index < old(self)@.len(),
        ensures
            final(self)@ == inserted(old(self)@, index as int, shard@),
            final(self)@.len() == old(self)@.len(),
    {
        self.inner[index] = Some(shard);
        assert(slots_of(self.inner@) =~= inserted(slots_of(old(self).inner@), index as int, shard@));
    }

    /// Clears the slot at `index`.
    pub fn delete(&mut self, index: usize)
        requires
            index < old(self)@.len(),
        ensures
            final(self)@ == deleted(old(self)@, index as int),
            final(self)@.len() == old(self)@.len(),
    {
        self.inner[index] = None;
        assert(slots_of(self.inner@) =~= deleted(slots_of(old(self).inner@), index as int));
    }

    /// Offers `shard` to the slot at its index: an absent slot takes it, an
    /// occupied one keeps what it has.
    pub fn merge(&mut self, shard: Shard)
        requires
            shard@.index < old(self)@.len(),
        ensures
            final(self)@ == merged(old(self)@, shard@),
            final(self)@.len() == old(self)@.len(),
    {
        if self.inner[shard.index].is_none() {
            self.inner[shard.index] = Some(shard.data);
            assert(slots_of(self.inner@) =~= merged(slots_of(old(self).inner@), shard@));
        }
    }

    /// The number of occupied slots.
    pub fn present(&self) -> (res: usize)
        ensures
            res == present_count(self@),
            res <= self@.len(),
    {
        let mut count: usize = 0;
        let mut i: usize = 0;
        assert(occupied(slots_of(self.inner@).take(0)) =~= Set::<int>::empty());
        while i < self.inner.len()
            invariant
                i <= self.inner.len(),
                count <= i,
                count == present_count(slots_of(self.inner@).take(i as int)),
            decreases self.inner.len() - i,
        {
            proof {
                lemma_present_step(slots_of(self.inner@), i as int);
            }
            if self.inner[i].is_some() {
                count += 1;
            }
            i += 1;
        }
        assert(slots_of(self.inner@).take(i as int) =~= slots_of(self.inner@));
        count
    }

    /// A walk over the occupied slots, in ascending order of index, that
    /// hands out each as a shard of its own.
    pub fn present_iter(&self) -> (res: ShardsIter<'_>)
        ensures
            res.slots() == self@,
            res.position() == 0,
    {
        ShardsIter { inner: self, index: 0 }
    }

    /// The number of bytes in all buffers together.
    pub fn size(&self) -> (res: usize)
        requires
            stored_bytes(self@) <= usize::MAX,
        ensures
            res == stored_bytes(self@),
    {
        let mut total: usize = 0;
        let mut i: usize = 0;
        while i < self.inner.len()
            invariant
                i <= self.inner.len(),
                total == stored_upto(slots_of(self.inner@), i as int),
                stored_upto(slots_of(self.inner@), self.inner.len() as int) <= usize::MAX,
            decreases self.inner.len() - i,
        {
            proof {
                lemma_stored_monotone(slots_of(self.inner@), i as int + 1, self.inner.len() as int);
            }
            match &self.inner[i] {
                Some(buffer) => {
                    total += buffer.len();
                },
                None => {},
            }
            i += 1;
        }
        total
    }
}

/// The bytes stored in a prefix are no more than those stored in a longer one.
proof fn lemma_stored_monotone(slots: Slots, shorter: int, longer: int)
    requires
        0 <= shorter <= longer <= slots.len(),
    ensures
        stored_upto(slots, shorter) <= stored_upto(slots, longer),
    decreases longer - shorter,
{
    if shorter < longer {
        lemma_stored_monotone(slots, shorter, longer - 1);
    }
}

/// A walk over the occupied slots of a shard set, in ascending order of
/// index.
pub struct ShardsIter<'a> {
    inner: &'a Shards,
    index: usize,
}

impl<'a> ShardsIter<'a> {
    /// The slots that are walked over.
    pub closed spec fn slots(&self) -> Slots {
        self.inner@
    }

    /// The index of the first slot that has not been looked at.
    pub closed spec fn position(&self) -> nat {
        self.index as nat
    }

    /// The shards that are still to come.
    pub open spec fn remaining(&self) -> Seq<ShardView> {
        present_from(self.slots(), self.position() as int)
    }

    /// The next occupied slot as a shard of its own, or `None` when no
    /// occupied slot is left.
    pub fn next(&mut self) -> (res: Option<Shard>)
        ensures
            final(self).slots() == old(self).slots(),
            old(self).remaining().len() == 0 ==> res is None && final(self).remaining().len() == 0,
            old(self).remaining().len() > 0 ==> res is Some && res->0@ == old(self).remaining()[0]
                && final(self).remaining() == old(self).remaining().drop_first()
                && final(self).position() == res->0@.index + 1,
    {
        let shards: &'a Shards = self.inner;
        let mut index = self.index;
        while index < shards.inner.len()
            invariant
                shards == self.inner,
                self.index == old(self).index,
                self.inner == old(self).inner,
                old(self).index <= index,
                present_from(shards@, index as int) == present_from(
                    shards@,
                    old(self).index as int,
                ),
            decreases shards.inner.len() - index,
        {
            match &shards.inner[index] {
                Some(buffer) => {
                    let shard = Shard { index, data: buffer.clone() };
                    self.index = index + 1;
                    assert(old(self).remaining().drop_first() =~= present_from(
                        shards@,
                        index + 1,
                    ));
                    return Some(shard);
                },
                None => {
                    index += 1;
                },
            }
        }
        self.index = index;
        None
    }
}

/// The descriptor of an object: the length of its content and the numbers of
/// its data and parity shards. The two numbers are always a pair that the
/// codec accepts.
#[derive(Clone, Copy, Debug)]
pub struct Metadata {
    len: usize,
    data_shards: usize,
    parity_shards: usize,
}

impl View for Metadata {
    type V = MetadataView;

    closed spec fn view(&self) -> MetadataView {
        MetadataView {
            len: self.len as nat,
            data_shards: self.data_shards as nat,
            parity_shards: self.parity_shards as nat,
        }
    }
}

impl Metadata {
    /// The numbers of shards are a pair that the codec accepts.
    #[verifier::type_invariant]
    pub open spec fn wf(self) -> bool {
        valid_shape(self@.data_shards, self@.parity_shards)
    }

    /// The length of the content, in bytes.
    pub fn len(&self) -> (res: usize)
        ensures
            res == self@.len,
    {
        self.len
    }

    /// The number of data shards.
    pub fn data_shards(&self) -> (res: usize)
        ensures
            res == self@.data_shards,
            0 < res < MAX_SHARDS,
    {
        proof {
            use_type_invariant(self);
        }
        self.data_shards
    }

    /// The number of parity shards.
    pub fn parity_shards(&self) -> (res: usize)
        ensures
            res == self@.parity_shards,
            0 < res < MAX_SHARDS,
    {
        proof {
            use_type_invariant(self);
        }
        self.parity_shards
    }
}

/// A named object as a peer holds it: the descriptor and the shard set.
#[derive(Debug)]
pub struct File {
    meta: Metadata,
    shards: Shards,
}

impl View for File {
    type V = FileView;

    closed spec fn view(&self) -> FileView {
        FileView { meta: self.meta@, slots: self.shards@ }
    }
}

impl Clone for File {
    fn clone(&self) -> (res: Self)
        ensures
            res@ == self@,
    {
        File { meta: self.meta, shards: self.shards.clone() }
    }
}

/// The number of chunks of `SHARD_SIZE` bytes that `len` bytes are cut into.
fn count_chunks(len: usize) -> (res: usize)
    ensures
        res == chunk_count(len as nat),
        res <= usize::MAX / 2,
{
    if len % SHARD_SIZE == 0 {
        len / SHARD_SIZE
    } else {
        len / SHARD_SIZE + 1
    }
}

/// A buffer of `SHARD_SIZE` zeros.
fn zero_buffer() -> (res: Vec<u8>)
    ensures
        res@ == Seq::new(SHARD_SIZE as nat, |j: int| 0u8),
{
    let mut buffer: Vec<u8> = Vec::with_capacity(SHARD_SIZE);
    let mut j: usize = 0;
    while j < SHARD_SIZE
        invariant
            j <= SHARD_SIZE,
            buffer@ == Seq::new(j as nat, |x: int| 0u8),
        decreases SHARD_SIZE - j,
    {
        buffer.push(0u8);
        j += 1;
        assert(buffer@ =~= Seq::new(j as nat, |x: int| 0u8));
    }
    buffer
}

/// The chunk of `bytes` at position `i`, padded with zeros.
fn chunk_buffer(bytes: &[u8], i: usize) -> (res: Vec<u8>)
    requires
        i < chunk_count(bytes@.len()),
    ensures
        res@ == chunk(bytes@, i as int),
{
    let len = bytes.len();
    assert(i * SHARD_SIZE < len) by {
        assert(i + 1 <= (len + 63) / 64);
    }
    let start = i * SHARD_SIZE;
    let mut buffer = zero_buffer();
    let mut j: usize = 0;
    while j < SHARD_SIZE && j < len - start
        invariant
            start == i * SHARD_SIZE,
            start < len,
            len == bytes@.len(),
            j <= SHARD_SIZE,
            start + j <= len,
            buffer@.len() == SHARD_SIZE,
            forall|x: int| 0 <= x < j ==> buffer@[x] == bytes@[start + x],
            forall|x: int| j <= x < SHARD_SIZE ==> buffer@[x] == 0u8,
        decreases SHARD_SIZE - j,
    {
        buffer.set(j, bytes[start + j]);
        j += 1;
    }
    assert(buffer@ =~= chunk(bytes@, i as int));
    buffer
}

/// The buffers that the codec is handed for `bytes`: the chunks, and as many
/// buffers of zeros for the parity.
fn chunk_buffers(bytes: &[u8], data_shards: usize) -> (res: Vec<Vec<u8>>)
    requires
        data_shards == chunk_count(bytes@.len()),
        data_shards <= usize::MAX / 2,
    ensures
        res@.len() == 2 * data_shards,
        buffers_of(res@).take(data_shards as int) == chunks(bytes@),
        forall|i: int| 0 <= i < res@.len() ==> (#[trigger] res@[i])@.len() == SHARD_SIZE,
{
    let mut shards: Vec<Vec<u8>> = Vec::new();
    let mut i: usize = 0;
    while i < data_shards
        invariant
            i <= data_shards,
            data_shards == chunk_count(bytes@.len()),
            shards@.len() == i,
            forall|x: int| 0 <= x < i ==> (#[trigger] shards@[x])@ == chunk(bytes@, x),
        decreases data_shards - i,
    {
        shards.push(chunk_buffer(bytes, i));
        i += 1;
    }
    let mut i: usize = 0;
    while i < data_shards
        invariant
            i <= data_shards,
            data_shards <= usize::MAX / 2,
            data_shards == chunk_count(bytes@.len()),
            shards@.len() == data_shards + i,
            forall|x: int| 0 <= x < data_shards ==> (#[trigger] shards@[x])@ == chunk(bytes@, x),
            forall|x: int| 0 <= x < shards@.len() ==> (#[trigger] shards@[x])@.len() == SHARD_SIZE,
        decreases data_shards - i,
    {
        shards.push(zero_buffer());
        i += 1;
    }
    assert(buffers_of(shards@).take(data_shards as int) =~= chunks(bytes@));
    shards
}

impl File {
    /// The object with the descriptor `meta` and the shard set `shards`.
    pub fn new(meta: Metadata, shards: Shards) -> (res: Self)
        ensures
            res@ == (FileView { meta: meta@, slots: shards@ }),
    {
        File { meta, shards }
    }

    /// The descriptor and the shard set, each on its own.
    pub fn into_parts(self) -> (res: (Metadata, Shards))
        ensures
            self@ == (FileView { meta: res.0@, slots: res.1@ }),
    {
        (self.meta, self.shards)
    }

    /// An object of the shape that `meta` gives, with no shard yet.
    pub fn empty(meta: Metadata) -> (res: Self)
        ensures
            res@ == blank(meta@),
    {
        proof {
            use_type_invariant(&meta);
        }
        let shards = Shards::absent(meta.data_shards + meta.parity_shards);
        File { meta, shards }
    }

    /// Encodes `content`: cuts it into chunks of `SHARD_SIZE` bytes, pads the
    /// last with zeros, and adds as many parity shards as there are chunks.
    /// Every shard of the object is present. Content that is empty, or that
    /// has more chunks than the codec can take, is refused.
    pub fn encode(content: &str) -> (res: Option<Self>)
        ensures
            res is Some <==> can_encode(content.spec_bytes()),
            res matches Some(file) ==> file@ == encoding(content.spec_bytes()),
            res matches Some(file) ==> file@.slots.len() == 2 * chunk_count(
                content.spec_bytes().len(),
            ) && present_count(file@.slots) == file@.slots.len(),
    {
        let bytes = content.as_bytes();
        let data_shards = count_chunks(bytes.len());
        let parity_shards = data_shards;
        let mut shards = chunk_buffers(bytes, data_shards);
        let ghost before = buffers_of(shards@);
        assert(data_shards > 0 ==> uniform(before));
        match rs_encode(data_shards, parity_shards, &mut shards) {
            Err(_) => None,
            Ok(()) => {
                proof {
                    let after = buffers_of(shards@);
                    let data = chunks(bytes@);
                    lemma_chunks_uniform(bytes@);
                    assert(after.skip(data_shards as int) =~~= parity(data, parity_shards as nat))
                        by {
                        assert forall|i: int| 0 <= i < parity_shards implies (#[trigger] after.skip(
                            data_shards as int,
                        )[i]).len() == SHARD_SIZE by {
                            assert(after[data_shards + i].len() == before[data_shards + i].len());
                        }
                    }
                    assert(after =~= after.take(data_shards as int) + after.skip(
                        data_shards as int,
                    ));
                    assert(after == codeword(data, parity_shards as nat));
                    lemma_encoding_complete(bytes@);
                }
                let meta = Metadata { len: bytes.len(), data_shards, parity_shards };
                Some(File { meta, shards: Shards::from_buffers(shards) })
            },
        }
    }

    /// The content as bytes, reconstructed from a copy of the shard set: the
    /// data shards that the codec leaves behind, one after the other, cut
    /// down to the length that the descriptor gives. There is none where the
    /// codec refuses the shard set, as it does when fewer shards are held
    /// than there are data shards.
    ///
    /// Whatever is held of the encoding of some content, if it is enough to
    /// decode, yields that content.
    pub fn reconstruct(&self) -> (res: Option<Vec<u8>>)
        ensures
            res is Some <==> reconstructed(self@) is Some,
            res matches Some(content) ==> Some(content@) == reconstructed(self@),
            !decodable(self@) ==> res is None,
            forall|bytes: Seq<u8>| #[trigger]
                holds_part_of(self@, bytes) ==> res is Some && res->0@ == bytes,
    {
        proof {
            use_type_invariant(&self.meta);
        }
        let data_shards = self.meta.data_shards;
        let parity_shards = self.meta.parity_shards;
        let mut slots = self.shards.clone().inner;
        match rs_reconstruct(data_shards, parity_shards, &mut slots) {
            Err(_) => {
                proof {
                    assert forall|bytes: Seq<u8>| #[trigger]
                        holds_part_of(self@, bytes) implies false by {
                        lemma_part_reconstructible(self@, bytes);
                    }
                }
                None
            },
            Ok(()) => {
                let mut content: Vec<u8> = Vec::new();
                let mut i: usize = 0;
                while i < data_shards
                    invariant
                        i <= data_shards <= slots@.len(),
                        content@ == payload(slots_of(slots@), i as int),
                    decreases data_shards - i,
                {
                    match &slots[i] {
                        Some(buffer) => {
                            content.extend_from_slice(buffer.as_slice());
                            assert(content@ =~= payload(slots_of(slots@), i as int) + buffer@);
                        },
                        None => {
                            assert(content@ =~= payload(slots_of(slots@), i as int)
                                + Seq::<u8>::empty());
                        },
                    }
                    i += 1;
                }
                content.truncate(self.meta.len);
                proof {
                    assert(content@ =~= truncated(
                        payload(slots_of(slots@), data_shards as int),
                        self.meta.len as nat,
                    ));
                    assert forall|bytes: Seq<u8>| #[trigger]
                        holds_part_of(self@, bytes) implies content@ == bytes by {
                        lemma_part_yields_content(self@, bytes);
                    }
                }
                Some(content)
            },
        }
    }

    /// The content as text, decoded from a copy of the shard set. There is
    /// none where fewer shards are held than there are data shards, where the
    /// codec refuses the shard set, or where the content is not well-formed
    /// UTF-8.
    ///
    /// Decoding what encoding made gives the text back, and so does decoding
    /// any part of it that is enough to decode.
    pub fn decode(&self) -> (res: Option<String>)
        ensures
            res is Some <==> decoded(self@) is Some,
            res matches Some(text) ==> Some(text@) == decoded(self@),
            !decodable(self@) ==> res is None,
            forall|text: Seq<char>| #[trigger]
                holds_part_of(self@, encode_utf8(text)) ==> res is Some && res->0@ == text,
            forall|text: Seq<char>|
                can_encode(encode_utf8(text)) && self@ == #[trigger] encoding(encode_utf8(text))
                    ==> res is Some && res->0@ == text,
    {
        proof {
            assert forall|text: Seq<char>|
                can_encode(encode_utf8(text)) && self@ == #[trigger] encoding(
                    encode_utf8(text),
                ) implies holds_part_of(self@, encode_utf8(text)) by {
                lemma_encoding_complete(encode_utf8(text));
            }
        }
        if !self.can_decode() {
            return None;
        }
        match self.reconstruct() {
            None => None,
            Some(content) => {
                proof {
                    assert forall|text: Seq<char>| #[trigger]
                        holds_part_of(self@, encode_utf8(text)) implies valid_utf8(content@)
                        && decode_utf8(content@) == text by {
                        encode_utf8_valid_utf8(text);
                        encode_utf8_decode_utf8(text);
                    }
                }
                match String::from_utf8(content) {
                    Ok(text) => Some(text),
                    Err(_) => None,
                }
            },
        }
    }

    /// Whether enough shards are held to decode: at least as many as there
    /// are data shards.
    pub fn can_decode(&self) -> (res: bool)
        ensures
            res == decodable(self@),
    {
        self.shards.present() >= self.meta.data_shards
    }

    /// The descriptor.
    pub fn metadata(&self) -> (res: &Metadata)
        ensures
            res@ == self@.meta,
    {
        &self.meta
    }

    /// The shard set.
    pub fn shards(&self) -> (res: &Shards)
        ensures
            res@ == self@.slots,
    {
        &self.shards
    }

    /// The shard set, to be changed in place. The descriptor stays.
    pub fn shards_mut(&mut self) -> (res: &mut Shards)
        ensures
            res@ == old(self)@.slots,
            final(self)@ == (FileView { meta: old(self)@.meta, slots: final(res)@ }),
    {
        &mut self.shards
    }
}

} // verus!
