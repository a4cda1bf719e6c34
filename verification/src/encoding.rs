//! How a byte string becomes an object and an object a byte string again:
//! chunking, the shape of an encoded object, and what decoding yields.

use crate::codec::{
    codeword, complete, occupied, part_of, present_count, reconstructible, reconstruction_of,
    recovers, uniform, valid_shape, Slots,
};
use vstd::prelude::*;
use vstd::set_lib::{lemma_int_range, set_int_range};
use vstd::utf8::{
    decode_utf8, encode_utf8, encode_utf8_decode_utf8, encode_utf8_valid_utf8, valid_utf8,
};

verus! {

/// The length of the buffers that encoding produces, in bytes.
pub const SHARD_SIZE: usize = 64;

/// What the descriptor of an object says: the length of the content and the
/// numbers of data and parity shards.
pub struct MetadataView {
    pub len: nat,
    pub data_shards: nat,
    pub parity_shards: nat,
}

/// What an object is: its descriptor and its slots.
pub struct FileView {
    pub meta: MetadataView,
    pub slots: Slots,
}

/// The number of chunks that content of `len` bytes is cut into.
pub open spec fn chunk_count(len: nat) -> nat {
    ((len + SHARD_SIZE - 1) / (SHARD_SIZE as int)) as nat
}

/// The chunk of `bytes` at position `i`: `SHARD_SIZE` bytes, zeros where the
/// content has ended.
pub open spec fn chunk(bytes: Seq<u8>, i: int) -> Seq<u8> {
    Seq::new(
        SHARD_SIZE as nat,
        |j: int|
            if i * SHARD_SIZE + j < bytes.len() {
                bytes[i * SHARD_SIZE + j]
            } else {
                0u8
            },
    )
}

/// The chunks of `bytes`, in order.
pub open spec fn chunks(bytes: Seq<u8>) -> Seq<Seq<u8>> {
    Seq::new(chunk_count(bytes.len()), |i: int| chunk(bytes, i))
}

/// The content that can be encoded: its chunks, and as many parity shards,
/// make a shape that the codec accepts.
pub open spec fn can_encode(bytes: Seq<u8>) -> bool {
    valid_shape(chunk_count(bytes.len()), chunk_count(bytes.len()))
}

/// The descriptor of the encoding of `bytes`: as many parity shards as data
/// shards.
pub open spec fn encoded_meta(bytes: Seq<u8>) -> MetadataView {
    MetadataView {
        len: bytes.len(),
        data_shards: chunk_count(bytes.len()),
        parity_shards: chunk_count(bytes.len()),
    }
}

/// The encoding of `bytes`: its descriptor, and every shard of the code word
/// of its chunks.
pub open spec fn encoding(bytes: Seq<u8>) -> FileView {
    FileView {
        meta: encoded_meta(bytes),
        slots: complete(codeword(chunks(bytes), chunk_count(bytes.len()))),
    }
}

/// An object with no shard yet: as many absent slots as `meta` has shards.
pub open spec fn blank(meta: MetadataView) -> FileView {
    FileView {
        meta,
        slots: Seq::new(meta.data_shards + meta.parity_shards, |i: int| None::<Seq<u8>>),
    }
}

/// An object is decodable when it holds at least as many shards as it has
/// data shards.
pub open spec fn decodable(file: FileView) -> bool {
    present_count(file.slots) >= file.meta.data_shards
}

/// `file` holds enough shards of the encoding of `bytes` to decode it: it has
/// the descriptor of that encoding, every slot it holds is the shard of the
/// encoding at that position, and it is decodable.
pub open spec fn holds_part_of(file: FileView, bytes: Seq<u8>) -> bool {
    &&& can_encode(bytes)
    &&& file.meta == encoded_meta(bytes)
    &&& part_of(file.slots, codeword(chunks(bytes), chunk_count(bytes.len())))
    &&& decodable(file)
}

/// The buffers of the first `upto` slots, one after the other.
pub open spec fn payload(slots: Slots, upto: int) -> Seq<u8>
    decreases upto,
{
    if upto <= 0 || upto > slots.len() {
        Seq::empty()
    } else {
        payload(slots, upto - 1) + match slots[upto - 1] {
            Some(buffer) => buffer,
            None => Seq::empty(),
        }
    }
}

/// `bytes` cut down to `len` bytes, or left alone if it has no more.
pub open spec fn truncated(bytes: Seq<u8>, len: nat) -> Seq<u8> {
    if len <= bytes.len() {
        bytes.take(len as int)
    } else {
        bytes
    }
}

/// The content that reconstruction yields for `file`: nothing where the codec
/// refuses the slots, else the data shards that it leaves behind, one after
/// the other, cut down to the length that the descriptor gives.
pub open spec fn reconstructed(file: FileView) -> Option<Seq<u8>> {
    if reconstructible(file.meta.data_shards, file.meta.parity_shards, file.slots) {
        Some(
            truncated(
                payload(
                    reconstruction_of(file.meta.data_shards, file.meta.parity_shards, file.slots),
                    file.meta.data_shards as int,
                ),
                file.meta.len,
            ),
        )
    } else {
        None
    }
}

/// The text that decoding yields for `file`: the reconstructed content, where
/// there is one and it is well-formed UTF-8.
pub open spec fn decoded(file: FileView) -> Option<Seq<char>> {
    match reconstructed(file) {
        Some(bytes) => if valid_utf8(bytes) {
            Some(decode_utf8(bytes))
        } else {
            None
        },
        None => None,
    }
}

/// An object that is not decodable yields no content and no text.
pub proof fn lemma_undecodable(file: FileView)
    requires
        !decodable(file),
    ensures
        reconstructed(file) is None,
        decoded(file) is None,
{
}

/// Content can be encoded exactly when it is not empty and has no more than
/// 128 chunks.
pub proof fn lemma_can_encode(bytes: Seq<u8>)
    ensures
        can_encode(bytes) <==> 0 < bytes.len() <= 128 * SHARD_SIZE,
{
}

/// The chunks of content that can be encoded are data for the codec.
pub proof fn lemma_chunks_uniform(bytes: Seq<u8>)
    requires
        can_encode(bytes),
    ensures
        uniform(chunks(bytes)),
        chunks(bytes).len() == chunk_count(bytes.len()),
        chunks(bytes)[0].len() == SHARD_SIZE,
{
}

/// Every slot of a complete slot vector is occupied.
pub proof fn lemma_complete_present(shards: Seq<Seq<u8>>)
    ensures
        present_count(complete(shards)) == shards.len(),
        part_of(complete(shards), shards),
{
    lemma_int_range(0, shards.len() as int);
    assert(occupied(complete(shards)) =~= set_int_range(0, shards.len() as int));
}

/// The encoding of content that can be encoded holds every shard of it: all
/// its slots are occupied, by buffers of `SHARD_SIZE` bytes.
pub proof fn lemma_encoding_complete(bytes: Seq<u8>)
    requires
        can_encode(bytes),
    ensures
        encoding(bytes).slots.len() == 2 * chunk_count(bytes.len()),
        present_count(encoding(bytes).slots) == encoding(bytes).slots.len(),
        forall|i: int|
            0 <= i < encoding(bytes).slots.len() ==> (#[trigger] encoding(bytes).slots[i])
                is Some && encoding(bytes).slots[i]->0.len() == SHARD_SIZE,
        holds_part_of(encoding(bytes), bytes),
{
    let k = chunk_count(bytes.len());
    lemma_complete_present(codeword(chunks(bytes), k));
}

/// The first chunks of content, one after the other, are the content itself
/// followed by zeros.
pub proof fn lemma_payload_of_chunks(bytes: Seq<u8>, slots: Slots, upto: int)
    requires
        0 <= upto <= chunk_count(bytes.len()) <= slots.len(),
        forall|i: int|
            0 <= i < chunk_count(bytes.len()) ==> (#[trigger] slots[i]) == Some(chunk(bytes, i)),
    ensures
        payload(slots, upto) == Seq::new(
            (upto * SHARD_SIZE) as nat,
            |x: int|
                if x < bytes.len() {
                    bytes[x]
                } else {
                    0u8
                },
        ),
    decreases upto,
{
    let padded = |x: int|
        if x < bytes.len() {
            bytes[x]
        } else {
            0u8
        };
    if upto > 0 {
        lemma_payload_of_chunks(bytes, slots, upto - 1);
        assert(slots[upto - 1] == Some(chunk(bytes, upto - 1)));
        assert(payload(slots, upto) =~= Seq::new((upto * SHARD_SIZE) as nat, padded));
    } else {
        assert(payload(slots, upto) =~= Seq::new((upto * SHARD_SIZE) as nat, padded));
    }
}

/// The data shards of the encoding of `bytes`, one after the other and cut
/// down to the length of `bytes`, are `bytes`.
pub proof fn lemma_payload_truncated(bytes: Seq<u8>, slots: Slots)
    requires
        chunk_count(bytes.len()) <= slots.len(),
        forall|i: int|
            0 <= i < chunk_count(bytes.len()) ==> (#[trigger] slots[i]) == Some(chunk(bytes, i)),
    ensures
        truncated(payload(slots, chunk_count(bytes.len()) as int), bytes.len()) == bytes,
{
    let k = chunk_count(bytes.len());
    lemma_payload_of_chunks(bytes, slots, k as int);
    assert(truncated(payload(slots, k as int), bytes.len()) =~= bytes);
}

/// Slots that hold enough shards of an encoding are slots that the codec
/// reconstructs.
pub proof fn lemma_part_reconstructible(file: FileView, bytes: Seq<u8>)
    requires
        holds_part_of(file, bytes),
    ensures
        reconstructible(file.meta.data_shards, file.meta.parity_shards, file.slots),
        uniform(chunks(bytes)),
        chunks(bytes).len() == file.meta.data_shards,
{
    let k = chunk_count(bytes.len());
    let word = codeword(chunks(bytes), k);
    lemma_chunks_uniform(bytes);
    assert forall|i: int| 0 <= i < file.slots.len() && (#[trigger] file.slots[i]) is Some implies
        file.slots[i]->0.len() == SHARD_SIZE by {
        assert(file.slots[i] == Some(word[i]));
    }
}

/// The erasure property of the codec for the slots of `file`: what it leaves
/// behind when it reconstructs them is the code word of any data of which
/// they hold a part. The codec is trusted to have the property wherever it
/// has run; nothing else is known of what it leaves behind.
pub open spec fn codec_recovers(file: FileView) -> bool {
    recovers(
        file.meta.data_shards,
        file.meta.parity_shards,
        file.slots,
        reconstruction_of(file.meta.data_shards, file.meta.parity_shards, file.slots),
    )
}

/// The reconstruction bound: an object that holds enough shards of the
/// encoding of `bytes` to decode, whichever they are, yields `bytes`, given
/// the erasure property of the codec.
pub proof fn lemma_part_yields_content(file: FileView, bytes: Seq<u8>)
    requires
        holds_part_of(file, bytes),
        codec_recovers(file),
    ensures
        reconstructed(file) == Some(bytes),
{
    lemma_part_reconstructible(file, bytes);
    let k = chunk_count(bytes.len());
    let word = codeword(chunks(bytes), k);
    let after = reconstruction_of(file.meta.data_shards, file.meta.parity_shards, file.slots);
    assert(after == complete(word));
    assert forall|i: int| 0 <= i < k implies (#[trigger] after[i]) == Some(chunk(bytes, i)) by {
        assert(word[i] == chunks(bytes)[i]);
    }
    lemma_payload_truncated(bytes, after);
}

/// An object that holds enough shards of the encoding of `text` to decode
/// yields `text`, given the erasure property of the codec.
pub proof fn lemma_part_yields_text(file: FileView, text: Seq<char>)
    requires
        holds_part_of(file, encode_utf8(text)),
        codec_recovers(file),
    ensures
        decoded(file) == Some(text),
{
    lemma_part_yields_content(file, encode_utf8(text));
    encode_utf8_valid_utf8(text);
    encode_utf8_decode_utf8(text);
}

/// The round trip: decoding the encoding of `text` gives `text` back, given
/// the erasure property of the codec.
pub proof fn lemma_round_trip(text: Seq<char>)
    requires
        can_encode(encode_utf8(text)),
        codec_recovers(encoding(encode_utf8(text))),
    ensures
        decoded(encoding(encode_utf8(text))) == Some(text),
{
    lemma_encoding_complete(encode_utf8(text));
    lemma_part_yields_text(encoding(encode_utf8(text)), text);
}

} // verus!
