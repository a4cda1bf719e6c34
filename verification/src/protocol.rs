//! The peer protocol as mathematics: the three commands, what a store does
//! with each, and which messages it sends in answer.

use crate::codec::{codeword, occupied, part_of, present_count};
use crate::encoding::{
    blank, can_encode, chunk_count, chunks, decodable, encoded_meta, holds_part_of, FileView,
    MetadataView,
};
use crate::slots::{
    lemma_merge_monotone, lemma_present_bounded, lemma_present_shards, merged, present_shards,
    ShardView,
};
use vstd::arithmetic::div_mod::lemma_small_mod;
use vstd::prelude::*;
use vstd::set_lib::lemma_len_subset;

verus! {

/// What a command says.
pub enum CommandView {
    /// Reserve an object of this shape under this name.
    Create { name: Seq<char>, meta: MetadataView },
    /// Store this shard under this name.
    Replicate { name: Seq<char>, shard: ShardView },
    /// Send every shard held under this name.
    Request { name: Seq<char> },
}

/// A command on its way: the peer at the other end, and the command.
pub type Message = (Seq<char>, CommandView);

/// What a store holds: for each name it knows, the object under that name.
pub type Objects = Map<Seq<char>, FileView>;

/// `store` after it has been told to reserve `name` with the shape `meta`:
/// a name that is known keeps its object, a new one gets a blank object.
pub open spec fn ensured(store: Objects, name: Seq<char>, meta: MetadataView) -> Objects {
    if store.contains_key(name) {
        store
    } else {
        store.insert(name, blank(meta))
    }
}

/// `store` after `shard` has been offered to the object under `name`: the
/// object merges it, and a store that does not know the name drops it.
pub open spec fn merged_into(store: Objects, name: Seq<char>, shard: ShardView) -> Objects {
    if store.contains_key(name) {
        store.insert(
            name,
            FileView { meta: store[name].meta, slots: merged(store[name].slots, shard) },
        )
    } else {
        store
    }
}

/// The shards that `store` holds under `name`, in ascending order of index:
/// none if it does not know the name.
pub open spec fn held(store: Objects, name: Seq<char>) -> Seq<ShardView> {
    if store.contains_key(name) {
        present_shards(store[name].slots)
    } else {
        Seq::empty()
    }
}

/// The message that carries `shard` of the object `name` to `peer`.
pub open spec fn replicate_to(peer: Seq<char>, name: Seq<char>, shard: ShardView) -> Message {
    (peer, CommandView::Replicate { name, shard })
}

/// The answer of `store` to a request of `peer` for `name`: one `Replicate`
/// to `peer` for each shard held under the name, in ascending order of index.
pub open spec fn replies(store: Objects, peer: Seq<char>, name: Seq<char>) -> Seq<Message> {
    Seq::new(held(store, name).len(), |i: int| replicate_to(peer, name, held(store, name)[i]))
}

/// What a store does with one command from `peer`: the store it becomes, and
/// the messages it sends.
pub open spec fn handled(store: Objects, peer: Seq<char>, command: CommandView) -> (
    Objects,
    Seq<Message>,
) {
    match command {
        CommandView::Create { name, meta } => (ensured(store, name, meta), Seq::empty()),
        CommandView::Replicate { name, shard } => (merged_into(store, name, shard), Seq::empty()),
        CommandView::Request { name } => (store, replies(store, peer, name)),
    }
}

/// What a store does with the commands of `inbox`, first to last: the store
/// it becomes, and all the messages it sends, in the order of sending.
pub open spec fn ran(store: Objects, inbox: Seq<Message>) -> (Objects, Seq<Message>)
    decreases inbox.len(),
{
    if inbox.len() == 0 {
        (store, Seq::empty())
    } else {
        let before = ran(store, inbox.drop_last());
        let step = handled(before.0, inbox.last().0, inbox.last().1);
        (step.0, before.1 + step.1)
    }
}

/// The messages that announce the object `name` of shape `meta` to `peers`:
/// one `Create` to each, in the order of `peers`.
pub open spec fn announcements(name: Seq<char>, meta: MetadataView, peers: Seq<Seq<char>>) -> Seq<
    Message,
> {
    Seq::new(peers.len(), |i: int| (peers[i], CommandView::Create { name, meta }))
}

/// The messages that scatter `shards` of the object `name` over `peers`: one
/// `Replicate` for each shard, to the peer at the shard's index modulo the
/// number of peers; none where there is no peer.
pub open spec fn scattering(name: Seq<char>, shards: Seq<ShardView>, peers: Seq<Seq<char>>) -> Seq<
    Message,
> {
    if peers.len() == 0 {
        Seq::empty()
    } else {
        Seq::new(
            shards.len(),
            |i: int|
                replicate_to(peers[(shards[i].index % peers.len()) as int], name, shards[i]),
        )
    }
}

/// The messages of an upload of `file` under `name` to `peers`: the
/// announcements, then the scattering of the shards that `file` holds.
pub open spec fn distribution(name: Seq<char>, file: FileView, peers: Seq<Seq<char>>) -> Seq<
    Message,
> {
    announcements(name, file.meta, peers) + scattering(name, present_shards(file.slots), peers)
}

/// The messages that ask `peers` for the object `name`: one `Request` to
/// each, in the order of `peers`.
pub open spec fn requests(name: Seq<char>, peers: Seq<Seq<char>>) -> Seq<Message> {
    Seq::new(peers.len(), |i: int| (peers[i], CommandView::Request { name }))
}

/// Of two reservations of one name the first wins: the second changes
/// nothing, whatever shape it asks for.
pub proof fn lemma_create_first_wins(
    store: Objects,
    name: Seq<char>,
    first: MetadataView,
    second: MetadataView,
)
    ensures
        ensured(ensured(store, name, first), name, second) == ensured(store, name, first),
{
}

/// Create is idempotent: a store that takes any number of `Create` commands
/// for one name and one shape, from whatever peers, ends as it does after a
/// single one, and sends nothing.
pub proof fn lemma_create_idempotent(
    store: Objects,
    inbox: Seq<Message>,
    name: Seq<char>,
    meta: MetadataView,
)
    requires
        inbox.len() >= 1,
        forall|i: int|
            0 <= i < inbox.len() ==> (#[trigger] inbox[i]).1 == (CommandView::Create { name, meta }),
    ensures
        ran(store, inbox).0 == ensured(store, name, meta),
        ran(store, inbox).1 == Seq::<Message>::empty(),
    decreases inbox.len(),
{
    let earlier = inbox.drop_last();
    assert(inbox.last().1 == (CommandView::Create { name, meta }));
    if earlier.len() >= 1 {
        assert forall|i: int| 0 <= i < earlier.len() implies (#[trigger] earlier[i]).1 == (
        CommandView::Create { name, meta }) by {
            assert(inbox[i].1 == (CommandView::Create { name, meta }));
        }
        lemma_create_idempotent(store, earlier, name, meta);
    } else {
        assert(ran(store, earlier).0 == store);
    }
    assert(ran(store, inbox).1 =~= Seq::<Message>::empty());
}

/// Request is complete: a store answers a request of `peer` for `name` with
/// exactly one `Replicate` to `peer` for each shard it holds under the name,
/// in ascending order of index, and stays as it is. A store that does not
/// know the name answers with nothing.
pub proof fn lemma_request_complete(store: Objects, peer: Seq<char>, name: Seq<char>)
    ensures
        handled(store, peer, CommandView::Request { name }).0 == store,
        handled(store, peer, CommandView::Request { name }).1 == replies(store, peer, name),
        !store.contains_key(name) ==> replies(store, peer, name).len() == 0,
        store.contains_key(name) ==> replies(store, peer, name).len() == present_count(
            store[name].slots,
        ),
        forall|x: int|
            0 <= x < replies(store, peer, name).len() ==> {
                let answer = #[trigger] replies(store, peer, name)[x];
                &&& answer.0 == peer
                &&& answer.1 is Replicate
                &&& answer.1->Replicate_name == name
                &&& answer.1->shard.index < store[name].slots.len()
                &&& store[name].slots[answer.1->shard.index as int] == Some(answer.1->shard.data)
            },
        forall|x: int, y: int|
            0 <= x < y < replies(store, peer, name).len() ==> (#[trigger] replies(
                store,
                peer,
                name,
            )[x]).1->shard.index < (#[trigger] replies(store, peer, name)[y]).1->shard.index,
        forall|i: int|
            store.contains_key(name) && 0 <= i < store[name].slots.len() && (
            #[trigger] store[name].slots[i]) is Some ==> replies(store, peer, name).contains(
                replicate_to(peer, name, ShardView { index: i as nat, data: store[name].slots[i]->0 }),
            ),
{
    if store.contains_key(name) {
        let slots = store[name].slots;
        let answers = replies(store, peer, name);
        lemma_present_shards(slots);
        assert forall|i: int| 0 <= i < slots.len() && (#[trigger] slots[i]) is Some implies
            answers.contains(
            replicate_to(peer, name, ShardView { index: i as nat, data: slots[i]->0 }),
        ) by {
            let x = choose|x: int|
                0 <= x < present_shards(slots).len() && (#[trigger] present_shards(slots)[x]).index
                    == i;
            assert(answers[x] == replicate_to(
                peer,
                name,
                ShardView { index: i as nat, data: slots[i]->0 },
            ));
        }
    }
}

/// A command never takes anything away from an object: the name stays
/// known, the descriptor and the number of slots stay, and every occupied
/// slot keeps what it holds.
pub proof fn lemma_handled_monotone(
    store: Objects,
    peer: Seq<char>,
    command: CommandView,
    name: Seq<char>,
)
    requires
        store.contains_key(name),
    ensures
        handled(store, peer, command).0.contains_key(name),
        handled(store, peer, command).0[name].meta == store[name].meta,
        handled(store, peer, command).0[name].slots.len() == store[name].slots.len(),
        forall|i: int|
            0 <= i < store[name].slots.len() && (#[trigger] store[name].slots[i]) is Some
                ==> handled(store, peer, command).0[name].slots[i] == store[name].slots[i],
{
    match command {
        CommandView::Replicate { name: target, shard } => {
            if target == name {
                lemma_merge_monotone(store[name].slots, shard);
            }
        },
        _ => {},
    }
}

/// A run of commands never takes anything away from an object.
pub proof fn lemma_ran_monotone(store: Objects, inbox: Seq<Message>, name: Seq<char>)
    requires
        store.contains_key(name),
    ensures
        ran(store, inbox).0.contains_key(name),
        ran(store, inbox).0[name].meta == store[name].meta,
        ran(store, inbox).0[name].slots.len() == store[name].slots.len(),
        forall|i: int|
            0 <= i < store[name].slots.len() && (#[trigger] store[name].slots[i]) is Some ==> ran(
                store,
                inbox,
            ).0[name].slots[i] == store[name].slots[i],
    decreases inbox.len(),
{
    if inbox.len() > 0 {
        lemma_ran_monotone(store, inbox.drop_last(), name);
        let before = ran(store, inbox.drop_last()).0;
        lemma_handled_monotone(before, inbox.last().0, inbox.last().1, name);
        assert forall|i: int|
            0 <= i < store[name].slots.len() && (#[trigger] store[name].slots[i]) is Some implies ran(
            store,
            inbox,
        ).0[name].slots[i] == store[name].slots[i] by {
            assert(before[name].slots[i] == store[name].slots[i]);
        }
    }
}

/// A shard that is delivered is held from then on: after a run in which a
/// `Replicate` for a known name and one of its slots occurs, that slot is
/// occupied.
pub proof fn lemma_delivered_is_held(
    store: Objects,
    inbox: Seq<Message>,
    at: int,
    name: Seq<char>,
    shard: ShardView,
)
    requires
        store.contains_key(name),
        shard.index < store[name].slots.len(),
        0 <= at < inbox.len(),
        inbox[at].1 == (CommandView::Replicate { name, shard }),
    ensures
        ran(store, inbox).0.contains_key(name),
        ran(store, inbox).0[name].slots.len() == store[name].slots.len(),
        ran(store, inbox).0[name].slots[shard.index as int] is Some,
    decreases inbox.len(),
{
    let earlier = inbox.drop_last();
    let before = ran(store, earlier).0;
    lemma_ran_monotone(store, earlier, name);
    lemma_ran_monotone(store, inbox, name);
    if at == inbox.len() - 1 {
        lemma_merge_monotone(before[name].slots, shard);
    } else {
        lemma_delivered_is_held(store, earlier, at, name, shard);
        lemma_handled_monotone(before, inbox.last().0, inbox.last().1, name);
        assert(before[name].slots[shard.index as int] is Some);
    }
}

/// Convergence: a peer that knows `name` and has asked for it can decode it
/// once the answers have arrived.
///
/// Let the object have `k` data shards. If there are at least `k` peers,
/// `holders`, of which each holds a shard of its own, the one at its position
/// in `picks`, in a slot that the object of the asking peer has, and if
/// `inbox` holds every `Replicate` with which these peers answer the request
/// of `asker`, in any order and among any other commands, then the object is
/// decodable after the asking peer has run `inbox`.
pub proof fn lemma_convergence(
    store: Objects,
    asker: Seq<char>,
    name: Seq<char>,
    holders: Seq<Objects>,
    picks: Seq<int>,
    inbox: Seq<Message>,
)
    requires
        store.contains_key(name),
        holders.len() >= store[name].meta.data_shards,
        picks.len() == holders.len(),
        picks.no_duplicates(),
        forall|j: int|
            0 <= j < holders.len() ==> {
                &&& 0 <= #[trigger] picks[j] < store[name].slots.len()
                &&& holders[j].contains_key(name)
                &&& picks[j] < holders[j][name].slots.len()
                &&& holders[j][name].slots[picks[j]] is Some
            },
        forall|j: int, x: int|
            0 <= j < holders.len() && 0 <= x < replies(holders[j], asker, name).len()
                ==> exists|at: int|
                0 <= at < inbox.len() && (#[trigger] inbox[at]).1 == (#[trigger] replies(
                    holders[j],
                    asker,
                    name,
                )[x]).1,
    ensures
        ran(store, inbox).0.contains_key(name),
        ran(store, inbox).0[name].meta == store[name].meta,
        decodable(ran(store, inbox).0[name]),
{
    let after = ran(store, inbox).0;
    lemma_ran_monotone(store, inbox, name);
    let slots = after[name].slots;
    assert forall|i: int| picks.to_set().contains(i) implies occupied(slots).contains(i) by {
        let j = choose|j: int| 0 <= j < picks.len() && picks[j] == i;
        let theirs = holders[j][name].slots;
        let shard = ShardView { index: i as nat, data: theirs[i]->0 };
        assert(0 <= picks[j] < store[name].slots.len());
        lemma_request_complete(holders[j], asker, name);
        let answers = replies(holders[j], asker, name);
        assert(theirs[i] is Some);
        assert(answers.contains(replicate_to(asker, name, shard)));
        let x = choose|x: int|
            0 <= x < answers.len() && answers[x] == replicate_to(asker, name, shard);
        let at = choose|at: int|
            0 <= at < inbox.len() && (#[trigger] inbox[at]).1 == (#[trigger] replies(
                holders[j],
                asker,
                name,
            )[x]).1;
        lemma_delivered_is_held(store, inbox, at, name, shard);
    }
    picks.unique_seq_to_set();
    lemma_present_bounded(slots);
    lemma_len_subset(picks.to_set(), occupied(slots));
}

/// Every shard that `inbox` carries for `name` is the shard of `word` at its
/// index.
pub open spec fn carries_only(inbox: Seq<Message>, name: Seq<char>, word: Seq<Seq<u8>>) -> bool {
    forall|at: int|
        0 <= at < inbox.len() && (#[trigger] inbox[at]).1 is Replicate
            && inbox[at].1->Replicate_name == name && inbox[at].1->shard.index < word.len()
            ==> inbox[at].1->shard.data == word[inbox[at].1->shard.index as int]
}

/// An object that holds shards of one code word only goes on doing so while
/// the shards that reach it are shards of that code word.
pub proof fn lemma_ran_keeps_part(
    store: Objects,
    inbox: Seq<Message>,
    name: Seq<char>,
    word: Seq<Seq<u8>>,
)
    requires
        store.contains_key(name),
        part_of(store[name].slots, word),
        carries_only(inbox, name, word),
    ensures
        ran(store, inbox).0.contains_key(name),
        part_of(ran(store, inbox).0[name].slots, word),
    decreases inbox.len(),
{
    if inbox.len() > 0 {
        let earlier = inbox.drop_last();
        assert forall|at: int|
            0 <= at < earlier.len() && (#[trigger] earlier[at]).1 is Replicate
                && earlier[at].1->Replicate_name == name && earlier[at].1->shard.index
                < word.len() implies earlier[at].1->shard.data
            == word[earlier[at].1->shard.index as int] by {
            assert(earlier[at] == inbox[at]);
        }
        lemma_ran_keeps_part(store, earlier, name, word);
        lemma_ran_monotone(store, earlier, name);
        let before = ran(store, earlier).0;
        let last = inbox.last();
        assert(last == inbox[inbox.len() - 1]);
        lemma_handled_monotone(before, last.0, last.1, name);
    }
}

/// Convergence to the content: if, beyond what [`lemma_convergence`] asks,
/// the asking peer has the descriptor of the encoding of `bytes`, holds
/// shards of that encoding only, and is sent shards of that encoding only,
/// then after it has run `inbox` it holds enough of the encoding to decode,
/// and every download gives `bytes` back.
pub proof fn lemma_convergence_to_content(
    store: Objects,
    asker: Seq<char>,
    name: Seq<char>,
    holders: Seq<Objects>,
    picks: Seq<int>,
    inbox: Seq<Message>,
    bytes: Seq<u8>,
)
    requires
        can_encode(bytes),
        store.contains_key(name),
        store[name].meta == encoded_meta(bytes),
        part_of(store[name].slots, codeword(chunks(bytes), chunk_count(bytes.len()))),
        carries_only(inbox, name, codeword(chunks(bytes), chunk_count(bytes.len()))),
        holders.len() >= store[name].meta.data_shards,
        picks.len() == holders.len(),
        picks.no_duplicates(),
        forall|j: int|
            0 <= j < holders.len() ==> {
                &&& 0 <= #[trigger] picks[j] < store[name].slots.len()
                &&& holders[j].contains_key(name)
                &&& picks[j] < holders[j][name].slots.len()
                &&& holders[j][name].slots[picks[j]] is Some
            },
        forall|j: int, x: int|
            0 <= j < holders.len() && 0 <= x < replies(holders[j], asker, name).len()
                ==> exists|at: int|
                0 <= at < inbox.len() && (#[trigger] inbox[at]).1 == (#[trigger] replies(
                    holders[j],
                    asker,
                    name,
                )[x]).1,
    ensures
        ran(store, inbox).0.contains_key(name),
        holds_part_of(ran(store, inbox).0[name], bytes),
{
    lemma_convergence(store, asker, name, holders, picks, inbox);
    lemma_ran_keeps_part(
        store,
        inbox,
        name,
        codeword(chunks(bytes), chunk_count(bytes.len())),
    );
}

/// How far a peer has come with an object.
pub enum Stage {
    /// The peer has not heard of the name.
    Unknown,
    /// The name is reserved and no shard is held.
    Reserved,
    /// Shards are held, and fewer of them than there are data shards.
    Partial,
    /// At least as many shards are held as there are data shards.
    Decodable,
}

/// The stage of `store` with the object `name`.
pub open spec fn stage(store: Objects, name: Seq<char>) -> Stage {
    if !store.contains_key(name) {
        Stage::Unknown
    } else if decodable(store[name]) {
        Stage::Decodable
    } else if present_count(store[name].slots) == 0 {
        Stage::Reserved
    } else {
        Stage::Partial
    }
}

/// The place of a stage in the order of the stages.
pub open spec fn rank(stage: Stage) -> nat {
    match stage {
        Stage::Unknown => 0,
        Stage::Reserved => 1,
        Stage::Partial => 2,
        Stage::Decodable => 3,
    }
}

/// The stages are passed one way only: no command takes a peer back to an
/// earlier stage with any object.
pub proof fn lemma_stage_monotone(
    store: Objects,
    peer: Seq<char>,
    command: CommandView,
    name: Seq<char>,
)
    ensures
        rank(stage(store, name)) <= rank(stage(handled(store, peer, command).0, name)),
{
    if store.contains_key(name) {
        let after = handled(store, peer, command).0;
        lemma_handled_monotone(store, peer, command, name);
        lemma_present_bounded(after[name].slots);
        assert(occupied(store[name].slots).subset_of(occupied(after[name].slots)));
        lemma_len_subset(occupied(store[name].slots), occupied(after[name].slots));
    }
}

/// With at least as many peers as there are shards, no peer is sent two
/// shards of an upload: the shards go to peers at different positions.
pub proof fn lemma_scattering_spreads(
    name: Seq<char>,
    file: FileView,
    peers: Seq<Seq<char>>,
    x: int,
    y: int,
)
    requires
        file.slots.len() <= peers.len(),
        0 <= x < y < present_shards(file.slots).len(),
    ensures
        scattering(name, present_shards(file.slots), peers).len() == present_shards(
            file.slots,
        ).len(),
        present_shards(file.slots)[x].index % peers.len() != present_shards(file.slots)[y].index
            % peers.len(),
{
    lemma_present_shards(file.slots);
    let shards = present_shards(file.slots);
    assert(shards[x].index < shards[y].index);
    assert(shards[y].index < file.slots.len());
    lemma_small_mod(shards[x].index, peers.len());
    lemma_small_mod(shards[y].index, peers.len());
}

} // verus!
