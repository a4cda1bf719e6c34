//! The engine of a peer: what it does on an upload, on a download and with
//! each command that reaches it, and which messages it sends.
//!
//! The engine sends nothing itself. Every function hands back the messages
//! that are to be sent, each with the peer it is for, and the caller sends
//! them over the network it has.

use crate::encoding::{
    can_encode, decodable, decoded, encoding, holds_part_of, lemma_encoding_complete, FileView,
};
use crate::file::{File, Metadata};
use crate::network::{messages_of, Command};
use crate::protocol::{
    announcements, distribution, handled, ran, replies, requests, scattering, CommandView,
    Message, Objects,
};
use crate::slots::present_shards;
use crate::store::{shards_of, ObjectStore};
use vstd::prelude::*;
use vstd::string::StringSliceAdditionalSpecFns;
use vstd::utf8::encode_utf8;

verus! {

/// The names of a vector of peers.
pub open spec fn names_of(peers: Seq<String>) -> Seq<Seq<char>> {
    Seq::new(peers.len(), |i: int| peers[i]@)
}

/// The refusal of an upload: the content cannot be encoded.
#[derive(Clone, Copy, Debug)]
pub struct EncodeFailure;

/// The messages that announce the object `name` of shape `meta` to `peers`.
fn announce(name: &str, meta: &Metadata, peers: &Vec<String>) -> (res: Vec<(String, Command)>)
    ensures
        messages_of(res@) == announcements(name@, meta@, names_of(peers@)),
{
    let mut sent: Vec<(String, Command)> = Vec::with_capacity(peers.len());
    let mut i: usize = 0;
    while i < peers.len()
        invariant
            i <= peers@.len(),
            sent@.len() == i,
            forall|x: int|
                0 <= x < i ==> (#[trigger] sent@[x]).0@ == peers@[x]@ && sent@[x].1@ == (
                CommandView::Create { name: name@, meta: meta@ }),
        decreases peers@.len() - i,
    {
        sent.push((peers[i].clone(), Command::Create { name: name.to_owned(), meta: *meta }));
        i += 1;
    }
    assert(messages_of(sent@) =~= announcements(name@, meta@, names_of(peers@)));
    sent
}

/// The messages that scatter the shards that `file` holds over `peers`.
fn scatter(name: &str, file: &File, peers: &Vec<String>) -> (res: Vec<(String, Command)>)
    ensures
        messages_of(res@) == scattering(name@, present_shards(file@.slots), names_of(peers@)),
{
    let mut sent: Vec<(String, Command)> = Vec::new();
    if peers.len() == 0 {
        assert(messages_of(sent@) =~= scattering(
            name@,
            present_shards(file@.slots),
            names_of(peers@),
        ));
        return sent;
    }
    let ghost all = present_shards(file@.slots);
    let ghost targets = names_of(peers@);
    let mut walk = file.shards().present_iter();
    loop
        invariant
            peers@.len() > 0,
            targets == names_of(peers@),
            walk.slots() == file@.slots,
            all == present_shards(file@.slots),
            sent@.len() + walk.remaining().len() == all.len(),
            walk.remaining() == all.skip(sent@.len() as int),
            forall|x: int|
                0 <= x < sent@.len() ==> (#[trigger] sent@[x]).0@ == targets[(all[x].index
                    % targets.len()) as int] && sent@[x].1@ == (CommandView::Replicate {
                    name: name@,
                    shard: all[x],
                }),
        ensures
            messages_of(sent@) == scattering(name@, all, targets),
        decreases walk.remaining().len(),
    {
        let ghost coming = walk.remaining();
        match walk.next() {
            Some(shard) => {
                let target = peers[shard.index() % peers.len()].clone();
                assert(coming[0] == all[sent@.len() as int]);
                assert(coming.drop_first() =~= all.skip(sent@.len() as int + 1));
                sent.push((target, Command::Replicate { name: name.to_owned(), shard }));
            },
            None => {
                assert(messages_of(sent@) =~= scattering(name@, all, targets));
                break ;
            },
        }
    }
    sent
}

/// The messages of an upload of `file` under `name` to `peers`: a `Create`
/// to every peer, then each shard that `file` holds to one peer, the one at
/// the shard's index modulo the number of peers. With no peer there is no
/// message.
pub fn distribute(name: &str, file: &File, peers: &Vec<String>) -> (res: Vec<(String, Command)>)
    ensures
        messages_of(res@) == distribution(name@, file@, names_of(peers@)),
{
    let mut sent = announce(name, file.metadata(), peers);
    let mut shards = scatter(name, file, peers);
    let ghost first = messages_of(sent@);
    let ghost second = messages_of(shards@);
    sent.append(&mut shards);
    assert(messages_of(sent@) =~= first + second);
    sent
}

/// The messages that ask `peers` for the object `name`: a `Request` to each.
pub fn request(name: &str, peers: &Vec<String>) -> (res: Vec<(String, Command)>)
    ensures
        messages_of(res@) == requests(name@, names_of(peers@)),
{
    let mut sent: Vec<(String, Command)> = Vec::with_capacity(peers.len());
    let mut i: usize = 0;
    while i < peers.len()
        invariant
            i <= peers@.len(),
            sent@.len() == i,
            forall|x: int|
                0 <= x < i ==> (#[trigger] sent@[x]).0@ == peers@[x]@ && sent@[x].1@ == (
                CommandView::Request { name: name@ }),
        decreases peers@.len() - i,
    {
        sent.push((peers[i].clone(), Command::Request { name: name.to_owned() }));
        i += 1;
    }
    assert(messages_of(sent@) =~= requests(name@, names_of(peers@)));
    sent
}

/// A peer: its object store and its end of the network.
pub struct Node<N> {
    files: ObjectStore,
    network: N,
}

impl<N> View for Node<N> {
    type V = Objects;

    closed spec fn view(&self) -> Objects {
        self.files@
    }
}

impl<N> Node<N> {
    /// The end of the network that the peer has.
    pub closed spec fn net(&self) -> N {
        self.network
    }

    /// A peer with the given end of the network that knows no object.
    pub fn new(network: N) -> (res: Self)
        ensures
            res@ == Map::<Seq<char>, FileView>::empty(),
            res.net() == network,
    {
        Node { files: ObjectStore::new(), network }
    }

    /// The end of the network that the peer has.
    pub fn network(&self) -> (res: &N)
        ensures
            *res == self.net(),
    {
        &self.network
    }

    /// The object store.
    pub fn files(&self) -> (res: &ObjectStore)
        ensures
            res@ == self@,
    {
        &self.files
    }

    /// Puts `file` under `name`, in place of any object that was there.
    pub fn insert(&mut self, name: String, file: File)
        ensures
            final(self).net() == old(self).net(),
            final(self)@ == old(self)@.insert(name@, file@),
    {
        self.files.insert(name, file);
    }

    /// Uploads `content` under `name`: encodes it, puts the object into the
    /// store in place of any that was there, and hands back the messages for
    /// `peers`. Content that cannot be encoded is refused, and the store
    /// stays as it is.
    ///
    /// What has been uploaded can be downloaded: the store holds the whole
    /// encoding of the content.
    pub fn upload(&mut self, name: String, content: &str, peers: &Vec<String>) -> (res: Result<
        Vec<(String, Command)>,
        EncodeFailure,
    >)
        ensures
            final(self).net() == old(self).net(),
            res is Ok <==> can_encode(content.spec_bytes()),
            res is Err ==> final(self)@ == old(self)@,
            res matches Ok(sent) ==> final(self)@ == old(self)@.insert(
                name@,
                encoding(content.spec_bytes()),
            ) && messages_of(sent@) == distribution(
                name@,
                encoding(content.spec_bytes()),
                names_of(peers@),
            ),
            res is Ok ==> holds_part_of(final(self)@[name@], content.spec_bytes()),
    {
        match File::encode(content) {
            None => Err(EncodeFailure),
            Some(file) => {
                proof {
                    lemma_encoding_complete(content.spec_bytes());
                }
                let sent = distribute(name.as_str(), &file, peers);
                self.files.insert(name, file);
                Ok(sent)
            },
        }
    }

    /// The text of the object under `name`, from what the store holds: none
    /// where the name is not known or the object does not decode.
    pub fn try_download(&self, name: &String) -> (res: Option<String>)
        ensures
            res is Some <==> self@.contains_key(name@) && decoded(self@[name@]) is Some,
            res matches Some(text) ==> Some(text@) == decoded(self@[name@]),
            self@.contains_key(name@) && !decodable(self@[name@]) ==> res is None,
            forall|text: Seq<char>|
                self@.contains_key(name@) && #[trigger] holds_part_of(
                    self@[name@],
                    encode_utf8(text),
                ) ==> res is Some && res->0@ == text,
    {
        self.files.try_decode(name.as_str())
    }

    /// Downloads the object under `name`: its text, from what the store
    /// holds, and no message; or, where there is no text yet, no text and a
    /// `Request` for every peer of `peers`.
    pub fn download(&self, name: String, peers: &Vec<String>) -> (res: (
        Option<String>,
        Vec<(String, Command)>,
    ))
        ensures
            res.0 is Some <==> self@.contains_key(name@) && decoded(self@[name@]) is Some,
            res.0 matches Some(text) ==> Some(text@) == decoded(self@[name@]),
            res.0 is Some ==> res.1@.len() == 0,
            res.0 is None ==> messages_of(res.1@) == requests(name@, names_of(peers@)),
            forall|text: Seq<char>|
                self@.contains_key(name@) && #[trigger] holds_part_of(
                    self@[name@],
                    encode_utf8(text),
                ) ==> res.0 is Some && res.0->0@ == text,
    {
        match self.try_download(&name) {
            Some(text) => (Some(text), Vec::new()),
            None => (None, request(name.as_str(), peers)),
        }
    }

    /// Takes one command from `peer`: reserves the name of a `Create`, merges
    /// the shard of a `Replicate`, and answers a `Request` with one
    /// `Replicate` to `peer` for each shard held under the name.
    pub fn handle(&mut self, peer: String, command: Command) -> (res: Vec<(String, Command)>)
        ensures
            final(self).net() == old(self).net(),
            (final(self)@, messages_of(res@)) == handled(old(self)@, peer@, command@),
    {
        match command {
            Command::Create { name, meta } => {
                self.files.ensure(name, meta);
                let sent: Vec<(String, Command)> = Vec::new();
                assert(messages_of(sent@) =~= Seq::<Message>::empty());
                sent
            },
            Command::Replicate { name, shard } => {
                self.files.merge(name.as_str(), shard);
                let sent: Vec<(String, Command)> = Vec::new();
                assert(messages_of(sent@) =~= Seq::<Message>::empty());
                sent
            },
            Command::Request { name } => {
                let shards = self.files.snapshot_present(name.as_str());
                let ghost all = shards_of(shards@);
                let mut sent: Vec<(String, Command)> = Vec::with_capacity(shards.len());
                for shard in it: shards
                    invariant
                        all == shards_of(it.seq()),
                        sent@.len() == it.index(),
                        forall|x: int|
                            0 <= x < sent@.len() ==> (#[trigger] sent@[x]).0@ == peer@
                                && sent@[x].1@ == (CommandView::Replicate {
                                name: name@,
                                shard: all[x],
                            }),
                {
                    sent.push((peer.clone(), Command::Replicate { name: name.clone(), shard }));
                }
                assert(messages_of(sent@) =~= replies(self@, peer@, name@));
                sent
            },
        }
    }

    /// The reactor: takes the commands of `inbox`, first to last, each as
    /// [`Node::handle`] does, and hands back all the messages to be sent, in
    /// the order of sending.
    pub fn run(&mut self, inbox: Vec<(String, Command)>) -> (res: Vec<(String, Command)>)
        ensures
            final(self).net() == old(self).net(),
            (final(self)@, messages_of(res@)) == ran(old(self)@, messages_of(inbox@)),
    {
        let ghost all = messages_of(inbox@);
        let mut sent: Vec<(String, Command)> = Vec::new();
        assert(messages_of(sent@) =~= Seq::<Message>::empty());
        for message in it: inbox
            invariant
                self.net() == old(self).net(),
                all == messages_of(it.seq()),
                (self@, messages_of(sent@)) == ran(old(self)@, all.take(it.index() as int)),
        {
            let ghost before = messages_of(sent@);
            let ghost done = all.take(it.index() as int);
            let (peer, command) = message;
            let mut answers = self.handle(peer, command);
            let ghost more = messages_of(answers@);
            sent.append(&mut answers);
            assert(messages_of(sent@) =~= before + more);
            assert(all.take(it.index() + 1).drop_last() =~= done);
        }
        assert(all.take(all.len() as int) =~= all);
        sent
    }
}

} // verus!
