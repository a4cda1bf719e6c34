//! An erasure-coded object store for a set of cooperating peers.
//!
//! Content is cut into shards, the shards get Reed-Solomon parity, and any
//! half of the shards of an object gives its content back. A peer keeps what
//! it has of each object in an object store, merges the shards that reach
//! it, and answers requests with the shards it holds.
//!
//! - [`codec`]: the model of the code, and the calls into the codec that are
//!   trusted.
//! - [`slots`], [`encoding`], [`protocol`]: the mathematics of slot vectors,
//!   of encoding and decoding, and of the peer protocol, with their laws.
//! - [`file`], [`network`], [`store`], [`node`]: shards, objects, commands,
//!   the object store and the engine of a peer.
//! - [`text`]: what is trusted of the conversion of bytes to text.

pub mod codec;
pub mod encoding;
pub mod file;
pub mod network;
pub mod node;
pub mod protocol;
pub mod slots;
pub mod store;
pub mod text;

use crate::encoding::{can_encode, decoded, encoding, holds_part_of, FileView};
use crate::file::{File, Metadata, Shards};
use vstd::pervasive::unreached;
use vstd::prelude::*;
use vstd::string::StringSliceAdditionalSpecFns;
use vstd::utf8::encode_utf8;

verus! {

/// The descriptor and the shard set of the encoding of `message`, which must
/// be content that can be encoded.
pub fn encode(message: &str) -> (res: (Metadata, Shards))
    requires
        can_encode(message.spec_bytes()),
    ensures
        (FileView { meta: res.0@, slots: res.1@ }) == encoding(message.spec_bytes()),
{
    match File::encode(message) {
        Some(file) => file.into_parts(),
        None => unreached(),
    }
}

/// The text of the object with the descriptor `meta` and the shard set
/// `shards`, which must be one that decodes: as it does, for one, when it
/// holds enough of the encoding of some text, and then that text is what
/// comes back.
pub fn decode(meta: Metadata, shards: Shards) -> (res: String)
    requires
        decoded(FileView { meta: meta@, slots: shards@ }) is Some || exists|text: Seq<char>| #[trigger]
            holds_part_of(FileView { meta: meta@, slots: shards@ }, encode_utf8(text)),
    ensures
        Some(res@) == decoded(FileView { meta: meta@, slots: shards@ }),
        forall|text: Seq<char>| #[trigger]
            holds_part_of(FileView { meta: meta@, slots: shards@ }, encode_utf8(text)) ==> res@
                == text,
{
    match File::new(meta, shards).decode() {
        Some(text) => text,
        None => unreached(),
    }
}

} // verus!
