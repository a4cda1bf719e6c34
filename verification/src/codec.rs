//! The Reed-Solomon code over GF(2^8): its mathematical model and the two
//! calls into `reed_solomon_erasure` that compute it.
//!
//! Nothing in this module is proved about the arithmetic of the code. The
//! parity of a block of data is a name, [`parity_of`], and so is the outcome
//! of a reconstruction, [`reconstruction_of`]. What the rest of the crate
//! knows of the two is stated in the contracts of [`rs_encode`] and
//! [`rs_reconstruct`], and is taken on trust.
//!
//! The codec of the outside crate is generic over a trait of that crate, so
//! verified code cannot hold one. Each of the two functions therefore makes
//! its codec and uses it at once, and what it is trusted for covers both
//! steps.

use reed_solomon_erasure::galois_8::ReedSolomon;
use reed_solomon_erasure::Error;
use vstd::prelude::*;

verus! {

/// The number of shards that GF(2^8) can tell apart: the order of the field.
pub const MAX_SHARDS: usize = 256;

/// The slots of a shard vector: each one is absent or holds a buffer.
pub type Slots = Seq<Option<Seq<u8>>>;

/// The buffers of a vector of shards.
pub open spec fn buffers_of(shards: Seq<Vec<u8>>) -> Seq<Seq<u8>> {
    Seq::new(shards.len(), |i: int| shards[i]@)
}

/// The slots of a vector of shards that may be absent.
pub open spec fn slots_of(shards: Seq<Option<Vec<u8>>>) -> Slots {
    Seq::new(
        shards.len(),
        |i: int|
            match shards[i] {
                Some(buffer) => Some(buffer@),
                None => None,
            },
    )
}

/// The slots of a vector that has grown by one shard are the slots of the
/// vector before it, and the new one.
pub proof fn lemma_slots_of_push(shards: Seq<Option<Vec<u8>>>, last: Option<Vec<u8>>)
    ensures
        slots_of(shards.push(last)) == slots_of(shards).push(
            match last {
                Some(buffer) => Some(buffer@),
                None => None,
            },
        ),
{
    assert(slots_of(shards.push(last)) =~= slots_of(shards).push(
        match last {
            Some(buffer) => Some(buffer@),
            None => None,
        },
    ));
}

/// A pair of shard counts that the codec accepts.
pub open spec fn valid_shape(data_shards: nat, parity_shards: nat) -> bool {
    0 < data_shards && 0 < parity_shards && data_shards + parity_shards <= MAX_SHARDS
}

/// All buffers have one length, and it is not zero.
pub open spec fn uniform(shards: Seq<Seq<u8>>) -> bool {
    &&& 0 < shards.len()
    &&& 0 < shards[0].len()
    &&& forall|i: int| 0 <= i < shards.len() ==> (#[trigger] shards[i]).len() == shards[0].len()
}

/// Two shard vectors of the same length whose buffers have the same lengths.
pub open spec fn same_lengths(a: Seq<Seq<u8>>, b: Seq<Seq<u8>>) -> bool {
    &&& a.len() == b.len()
    &&& forall|i: int| 0 <= i < a.len() ==> (#[trigger] a[i]).len() == b[i].len()
}

/// The occupied positions of a slot vector.
pub open spec fn occupied(slots: Slots) -> Set<int> {
    Set::new(|i: int| 0 <= i < slots.len() && slots[i] is Some)
}

/// How many slots are occupied.
pub open spec fn present_count(slots: Slots) -> nat {
    occupied(slots).len()
}

/// The occupied slots hold buffers of one length, and it is not zero.
pub open spec fn present_uniform(slots: Slots) -> bool {
    &&& forall|i: int|
        0 <= i < slots.len() && (#[trigger] slots[i]) is Some ==> 0 < slots[i]->0.len()
    &&& forall|i: int, j: int|
        0 <= i < slots.len() && 0 <= j < slots.len() && (#[trigger] slots[i]) is Some && (
        #[trigger] slots[j]) is Some ==> slots[i]->0.len() == slots[j]->0.len()
}

/// The slot vector in which every shard of `shards` is present.
pub open spec fn complete(shards: Seq<Seq<u8>>) -> Slots {
    Seq::new(shards.len(), |i: int| Some(shards[i]))
}

/// `slots` holds some of the shards of `word`, each at its own position, and
/// nothing else.
pub open spec fn part_of(slots: Slots, word: Seq<Seq<u8>>) -> bool {
    &&& slots.len() == word.len()
    &&& forall|i: int|
        0 <= i < slots.len() && (#[trigger] slots[i]) is Some ==> slots[i] == Some(word[i])
}

/// The parity shards that the codec computes for `data` when it is set up
/// for `data.len()` data shards and `parity_shards` parity shards.
pub uninterp spec fn parity_of(data: Seq<Seq<u8>>, parity_shards: nat) -> Seq<Seq<u8>>;

/// The parity of `data`, read as `parity_shards` buffers of the length of
/// the first data shard. The codec writes its parity in exactly this shape,
/// so for the data it accepts this is [`parity_of`] itself; reading it so
/// gives every code word a known shape.
pub open spec fn parity(data: Seq<Seq<u8>>, parity_shards: nat) -> Seq<Seq<u8>> {
    Seq::new(
        parity_shards,
        |i: int| Seq::new(data[0].len(), |j: int| parity_of(data, parity_shards)[i][j]),
    )
}

/// The full shard vector of `data`: the data shards, then their parity.
pub open spec fn codeword(data: Seq<Seq<u8>>, parity_shards: nat) -> Seq<Seq<u8>> {
    data + parity(data, parity_shards)
}

/// The inputs on which encoding succeeds.
pub open spec fn encodable(data_shards: nat, parity_shards: nat, shards: Seq<Seq<u8>>) -> bool {
    &&& valid_shape(data_shards, parity_shards)
    &&& shards.len() == data_shards + parity_shards
    &&& uniform(shards)
}

/// The inputs on which reconstruction succeeds.
pub open spec fn reconstructible(data_shards: nat, parity_shards: nat, slots: Slots) -> bool {
    &&& valid_shape(data_shards, parity_shards)
    &&& slots.len() == data_shards + parity_shards
    &&& present_uniform(slots)
    &&& present_count(slots) >= data_shards
}

/// The slot vector that the codec leaves behind when it reconstructs `slots`
/// with the given shard counts.
pub uninterp spec fn reconstruction_of(data_shards: nat, parity_shards: nat, slots: Slots) -> Slots;

/// `after` fills every slot of `before` and keeps what `before` held.
pub open spec fn restores(before: Slots, after: Slots) -> bool {
    &&& after.len() == before.len()
    &&& present_uniform(after)
    &&& forall|i: int| 0 <= i < after.len() ==> (#[trigger] after[i]) is Some
    &&& forall|i: int|
        0 <= i < before.len() && (#[trigger] before[i]) is Some ==> after[i] == before[i]
}

/// The erasure property: if `before` holds part of the code word of some
/// data, then `after` is that code word, whole.
pub open spec fn recovers(
    data_shards: nat,
    parity_shards: nat,
    before: Slots,
    after: Slots,
) -> bool {
    forall|data: Seq<Seq<u8>>|
        data.len() == data_shards && uniform(data) && #[trigger] part_of(
            before,
            codeword(data, parity_shards),
        ) ==> after == complete(codeword(data, parity_shards))
}

/// The error of the codec. It is opaque here: the crate asks only whether
/// the codec has refused.
#[verifier::external_type_specification]
#[verifier::external_body]
pub struct ExCodecError(Error);

/// `ReedSolomon::new` followed by `ReedSolomon::encode` on the codec it made.
///
/// Trusted. The contract claims that the pair succeeds exactly on a valid
/// pair of shard counts and a vector of that many buffers of one non-zero
/// length; that a failure leaves the buffers alone; and that a success keeps
/// the first `data_shards` buffers, keeps every length, and overwrites the
/// rest with a value that depends on the data shards and on the number of
/// parity shards only, which is what [`parity_of`] names. The sum of the
/// two counts must fit a `usize`, or the codec could not even add them.
#[verifier::external_body]
pub(crate) fn rs_encode(data_shards: usize, parity_shards: usize, shards: &mut Vec<Vec<u8>>) -> (res:
    Result<(), Error>)
    requires
        data_shards + parity_shards <= usize::MAX,
    ensures
        res is Ok <==> encodable(
            data_shards as nat,
            parity_shards as nat,
            buffers_of(old(shards)@),
        ),
        res is Err ==> buffers_of(final(shards)@) == buffers_of(old(shards)@),
        res is Ok ==> same_lengths(buffers_of(final(shards)@), buffers_of(old(shards)@)),
        res is Ok ==> buffers_of(final(shards)@).take(data_shards as int) == buffers_of(
            old(shards)@,
        ).take(data_shards as int),
        res is Ok ==> buffers_of(final(shards)@).skip(data_shards as int) == parity_of(
            buffers_of(old(shards)@).take(data_shards as int),
            parity_shards as nat,
        ),
{
    ReedSolomon::new(data_shards, parity_shards)?.encode(shards)
}

/// `ReedSolomon::new` followed by `ReedSolomon::reconstruct` on the codec it
/// made.
///
/// Trusted. The contract claims that the pair succeeds exactly on a valid
/// pair of shard counts and a vector of that many slots, of which at least
/// `data_shards` are occupied, all by buffers of one non-zero length; that a
/// failure leaves the slots alone; that a success fills every slot with a
/// buffer of that length and keeps the occupied ones; that the outcome
/// depends on the shard counts and the slots only, which is what
/// [`reconstruction_of`] names; and that slots taken from the code word of
/// some data come back as that code word ([`recovers`]). The last claim is
/// what the code is for: the outside crate documents that missing shards are
/// reconstructed, shows on the example of its README that shards which were
/// encoded, then lost, come back as they were, and checks as much on random
/// shards in its own tests. It rests on the coding matrix, of which any
/// `data_shards` rows can be inverted, and on no single line of the outside
/// source.
#[verifier::external_body]
pub(crate) fn rs_reconstruct(
    data_shards: usize,
    parity_shards: usize,
    shards: &mut Vec<Option<Vec<u8>>>,
) -> (res: Result<(), Error>)
    requires
        data_shards + parity_shards <= usize::MAX,
    ensures
        res is Ok <==> reconstructible(
            data_shards as nat,
            parity_shards as nat,
            slots_of(old(shards)@),
        ),
        res is Err ==> slots_of(final(shards)@) == slots_of(old(shards)@),
        res is Ok ==> slots_of(final(shards)@) == reconstruction_of(
            data_shards as nat,
            parity_shards as nat,
            slots_of(old(shards)@),
        ),
        res is Ok ==> restores(slots_of(old(shards)@), slots_of(final(shards)@)),
        res is Ok ==> recovers(
            data_shards as nat,
            parity_shards as nat,
            slots_of(old(shards)@),
            slots_of(final(shards)@),
        ),
{
    ReedSolomon::new(data_shards, parity_shards)?.reconstruct(shards)
}

} // verus!
