//! The commands that peers send one another.

use crate::file::{Metadata, Shard};
use crate::protocol::{CommandView, Message};
use vstd::layout::size_of;
use vstd::prelude::*;
use vstd::utf8::encode_utf8;

verus! {

/// A command of the peer protocol. None of them is acknowledged.
#[derive(Debug)]
pub enum Command {
    /// Reserve an object of this shape under this name.
    Create { name: String, meta: Metadata },
    /// Store this shard under this name.
    Replicate { name: String, shard: Shard },
    /// Send every shard held under this name.
    Request { name: String },
}

impl View for Command {
    type V = CommandView;

    open spec fn view(&self) -> CommandView {
        match *self {
            Command::Create { name, meta } => CommandView::Create { name: name@, meta: meta@ },
            Command::Replicate { name, shard } => CommandView::Replicate {
                name: name@,
                shard: shard@,
            },
            Command::Request { name } => CommandView::Request { name: name@ },
        }
    }
}

impl Clone for Command {
    fn clone(&self) -> (res: Self)
        ensures
            res@ == self@,
    {
        match self {
            Command::Create { name, meta } => Command::Create { name: name.clone(), meta: *meta },
            Command::Replicate { name, shard } => Command::Replicate {
                name: name.clone(),
                shard: shard.clone(),
            },
            Command::Request { name } => Command::Request { name: name.clone() },
        }
    }
}

/// The size of a command for the purposes of accounting: the bytes of the
/// name, and with them the size of a descriptor or the bytes of the shard.
pub open spec fn accounted_size(command: CommandView) -> nat {
    match command {
        CommandView::Create { name, meta } => encode_utf8(name).len() + size_of::<Metadata>(),
        CommandView::Replicate { name, shard } => encode_utf8(name).len() + shard.data.len(),
        CommandView::Request { name } => encode_utf8(name).len(),
    }
}

impl Command {
    /// The size of the command for the purposes of accounting.
    pub fn size(&self) -> (res: usize)
        requires
            accounted_size(self@) <= usize::MAX,
        ensures
            res == accounted_size(self@),
    {
        match self {
            Command::Create { name, .. } => name.as_str().len() + core::mem::size_of::<Metadata>(),
            Command::Replicate { name, shard } => name.as_str().len() + shard.size(),
            Command::Request { name } => name.as_str().len(),
        }
    }

    /// The size of the command for the purposes of accounting, where a
    /// `usize` can hold it.
    pub fn checked_size(&self) -> (res: Option<usize>)
        ensures
            res is Some <==> accounted_size(self@) <= usize::MAX,
            res matches Some(size) ==> size == accounted_size(self@),
    {
        match self {
            Command::Create { name, .. } => name.as_str().as_bytes().len().checked_add(
                core::mem::size_of::<Metadata>(),
            ),
            Command::Replicate { name, shard } => name.as_str().as_bytes().len().checked_add(
                shard.size(),
            ),
            Command::Request { name } => Some(name.as_str().as_bytes().len()),
        }
    }
}

/// The messages of a vector of commands with their peers.
pub open spec fn messages_of(sent: Seq<(String, Command)>) -> Seq<Message> {
    Seq::new(sent.len(), |i: int| (sent[i].0@, sent[i].1@))
}

} // verus!
