use erasure_node::file::{File, Shard};
use erasure_node::network::Command;
use erasure_node::node::{distribute, request, Node};
use std::collections::{HashSet, VecDeque};

/// A network of nodes in one process: every node has a queue of commands
/// that have reached it, and commands for a disabled node are lost.
struct Net {
    nodes: Vec<Node<usize>>,
    queues: Vec<VecDeque<(String, Command)>>,
    disabled: HashSet<usize>,
}

impl Net {
    fn new(count: usize) -> Net {
        Net {
            nodes: (0..count).map(Node::new).collect(),
            queues: (0..count).map(|_| VecDeque::new()).collect(),
            disabled: HashSet::new(),
        }
    }

    fn discover(&self, id: usize) -> Vec<String> {
        (0..self.nodes.len()).filter(|peer| *peer != id).map(|peer| format!("{peer}")).collect()
    }

    fn disable(&mut self, id: usize) {
        self.disabled.insert(id);
    }

    fn send(&mut self, from: usize, sent: Vec<(String, Command)>) {
        for (peer, command) in sent {
            let to: usize = peer.parse().unwrap();
            if !self.disabled.contains(&to) {
                self.queues[to].push_back((format!("{from}"), command));
            }
        }
    }

    fn upload(&mut self, id: usize, name: &str, content: &str) {
        let peers = self.discover(id);
        let sent = self.nodes[id].upload(name.to_string(), content, &peers).unwrap();
        self.send(id, sent);
    }

    fn download(&mut self, id: usize, name: &str) -> Option<String> {
        let peers = self.discover(id);
        let (text, sent) = self.nodes[id].download(name.to_string(), &peers);
        self.send(id, sent);
        text
    }

    fn settle(&mut self) {
        loop {
            let mut quiet = true;
            for id in 0..self.nodes.len() {
                let inbox: Vec<(String, Command)> = self.queues[id].drain(..).collect();
                if !inbox.is_empty() {
                    quiet = false;
                    let sent = self.nodes[id].run(inbox);
                    self.send(id, sent);
                }
            }
            if quiet {
                return;
            }
        }
    }
}

fn names(peers: &[&str]) -> Vec<String> {
    peers.iter().map(|peer| peer.to_string()).collect()
}

fn held<N>(node: &Node<N>, name: &str) -> Vec<Shard> {
    node.files().snapshot_present(name)
}

#[test]
fn node_simple() {
    let mut net = Net::new(3);
    assert_eq!(net.discover(0).len(), 2);

    net.upload(1, "test", "content");
    assert_eq!(net.download(1, "test"), Some("content".to_string()));

    assert_eq!(net.download(2, "test"), None);
    net.settle();

    assert_eq!(net.download(2, "test"), Some("content".to_string()));
}

#[test]
fn node_big() {
    let mut net = Net::new(2);
    let content = "hello world!".repeat(100);

    net.upload(0, "hello", &content);
    assert!(net.download(0, "hello").is_some());

    net.download(1, "hello");
    net.settle();

    assert_eq!(net.download(1, "hello"), Some(content));
}

#[test]
fn many() {
    let mut net = Net::new(32);
    let content = "hello world!".repeat(100);

    net.upload(0, "hello", &content);
    net.upload(10, "hello", &content);
    net.upload(20, "hello", &content);
    net.settle();

    net.disable(0);
    net.disable(10);

    net.download(7, "hello");
    net.download(13, "hello");
    net.download(17, "hello");
    net.settle();

    assert_eq!(net.download(7, "hello"), Some(content.clone()));
    assert_eq!(net.download(13, "hello"), Some(content.clone()));
    assert_eq!(net.download(17, "hello"), Some(content));
}

#[test]
fn many_after_one_upload() {
    let mut net = Net::new(32);
    let content = "hello world!".repeat(100);
    assert_eq!(content.len(), 1200);

    net.upload(0, "hello", &content);
    net.settle();
    net.disable(0);
    net.disable(10);

    assert_eq!(net.download(7, "hello"), None);
    net.settle();
    assert_eq!(held(&net.nodes[7], "hello").len(), 37);
    assert_eq!(net.download(7, "hello"), Some(content));
}

#[test]
fn lost() {
    let mut net = Net::new(8);
    let content = "hello world!".repeat(30);
    assert_eq!(content.len(), 360);

    net.upload(0, "hello", &content);
    net.settle();
    assert_eq!(net.nodes[0].files().get("hello").unwrap().metadata().data_shards(), 6);
    for id in 0..6 {
        net.disable(id);
    }

    for _ in 0..3 {
        net.download(7, "hello");
        net.settle();
    }

    assert_eq!(held(&net.nodes[7], "hello").len(), 2);
    assert_eq!(net.download(7, "hello"), None);
}

#[test]
fn new_node_knows_nothing() {
    let node = Node::new(5usize);
    assert_eq!(*node.network(), 5);
    assert!(node.files().get("test").is_none());
    assert_eq!(node.try_download(&"test".to_string()), None);
}

#[test]
fn upload_keeps_the_whole_object() {
    let mut node = Node::new(());
    node.upload("test".to_string(), "content", &names(&["a", "b"])).unwrap();
    let file = node.files().get("test").unwrap();
    assert_eq!(file.shards().present(), 2);
    assert_eq!(node.try_download(&"test".to_string()), Some("content".to_string()));
}

#[test]
fn upload_overwrites() {
    let mut node = Node::new(());
    node.upload("test".to_string(), "one", &Vec::new()).unwrap();
    node.upload("test".to_string(), &"two".repeat(50), &Vec::new()).unwrap();
    assert_eq!(node.try_download(&"test".to_string()), Some("two".repeat(50)));
    assert_eq!(node.files().get("test").unwrap().shards().len(), 6);
}

#[test]
fn upload_of_nothing_is_refused() {
    let mut node = Node::new(());
    node.upload("kept".to_string(), "content", &Vec::new()).unwrap();
    assert!(node.upload("test".to_string(), "", &names(&["a"])).is_err());
    assert!(node.upload("kept".to_string(), "", &names(&["a"])).is_err());
    assert!(node.upload("test".to_string(), &"x".repeat(8193), &names(&["a"])).is_err());
    assert!(node.files().get("test").is_none());
    assert_eq!(node.try_download(&"kept".to_string()), Some("content".to_string()));
}

#[test]
fn upload_without_peers_sends_nothing() {
    let mut node = Node::new(());
    let sent = node.upload("test".to_string(), "content", &Vec::new()).unwrap();
    assert!(sent.is_empty());
    assert_eq!(node.try_download(&"test".to_string()), Some("content".to_string()));
}

#[test]
fn upload_announces_then_scatters_by_index() {
    let mut node = Node::new(());
    let content = "a".repeat(130);
    let peers = names(&["p", "q", "r", "s"]);
    let sent = node.upload("test".to_string(), &content, &peers).unwrap();
    assert_eq!(sent.len(), 4 + 6);
    for (position, (peer, command)) in sent[..4].iter().enumerate() {
        assert_eq!(peer, &peers[position]);
        match command {
            Command::Create { name, meta } => {
                assert_eq!(name, "test");
                assert_eq!((meta.len(), meta.data_shards(), meta.parity_shards()), (130, 3, 3));
            }
            _ => panic!("expected a create"),
        }
    }
    let expected = ["p", "q", "r", "s", "p", "q"];
    let all = held(&node, "test");
    for (index, (peer, command)) in sent[4..].iter().enumerate() {
        assert_eq!(peer, expected[index]);
        match command {
            Command::Replicate { name, shard } => {
                assert_eq!(name, "test");
                assert_eq!(shard.index(), index);
                assert_eq!(shard.data(), all[index].data());
            }
            _ => panic!("expected a replicate"),
        }
    }
}

#[test]
fn distribute_skips_absent_shards() {
    let mut file = File::encode(&"a".repeat(130)).unwrap();
    file.shards_mut().delete(1);
    file.shards_mut().delete(4);
    let sent = distribute("test", &file, &names(&["p", "q"]));
    let replicated: Vec<(String, usize)> = sent[2..]
        .iter()
        .map(|(peer, command)| match command {
            Command::Replicate { shard, .. } => (peer.clone(), shard.index()),
            _ => panic!("expected a replicate"),
        })
        .collect();
    let expected: Vec<(String, usize)> =
        [("p", 0), ("p", 2), ("q", 3), ("q", 5)].iter().map(|(p, i)| (p.to_string(), *i)).collect();
    assert_eq!(replicated, expected);
}

#[test]
fn request_asks_every_peer() {
    let sent = request("test", &names(&["p", "q", "r"]));
    assert_eq!(sent.len(), 3);
    for (position, (peer, command)) in sent.iter().enumerate() {
        assert_eq!(peer, ["p", "q", "r"][position]);
        assert!(matches!(command, Command::Request { name } if name == "test"));
    }
    assert!(request("test", &Vec::new()).is_empty());
}

#[test]
fn download_of_a_held_object_sends_nothing() {
    let mut node = Node::new(());
    node.upload("test".to_string(), "content", &Vec::new()).unwrap();
    let (text, sent) = node.download("test".to_string(), &names(&["p", "q"]));
    assert_eq!(text, Some("content".to_string()));
    assert!(sent.is_empty());
}

#[test]
fn download_of_an_unknown_object_asks_every_peer() {
    let node = Node::new(());
    let (text, sent) = node.download("test".to_string(), &names(&["p", "q"]));
    assert_eq!(text, None);
    assert_eq!(sent.len(), 2);
    assert_eq!(sent[0].0, "p");
    assert_eq!(sent[1].0, "q");
    assert!(matches!(&sent[1].1, Command::Request { name } if name == "test"));
}

#[test]
fn create_reserves_a_blank_object() {
    let meta = *File::encode(&"a".repeat(130)).unwrap().metadata();
    let mut node = Node::new(());
    let sent = node.handle("p".to_string(), Command::Create { name: "test".to_string(), meta });
    assert!(sent.is_empty());
    let file = node.files().get("test").unwrap();
    assert_eq!(file.metadata().len(), 130);
    assert_eq!(file.shards().len(), 6);
    assert_eq!(file.shards().present(), 0);
}

#[test]
fn create_is_idempotent() {
    let source = File::encode(&"a".repeat(130)).unwrap();
    let meta = *source.metadata();
    let create = Command::Create { name: "test".to_string(), meta };
    let replicate = distribute("test", &source, &names(&["p"])).remove(2);

    let mut once = Node::new(());
    once.handle("p".to_string(), create.clone());
    once.handle("p".to_string(), replicate.1.clone());

    let mut often = Node::new(());
    often.handle("p".to_string(), create.clone());
    often.handle("q".to_string(), create.clone());
    often.handle("p".to_string(), replicate.1.clone());
    often.handle("r".to_string(), create.clone());

    let one = once.files().get("test").unwrap();
    let other = often.files().get("test").unwrap();
    assert_eq!(format!("{:?}", one), format!("{:?}", other));
    assert_eq!(other.shards().present(), 1);
}

#[test]
fn of_two_creates_the_first_wins() {
    let small = *File::encode("a").unwrap().metadata();
    let large = *File::encode(&"a".repeat(130)).unwrap().metadata();
    let mut node = Node::new(());
    node.handle("p".to_string(), Command::Create { name: "test".to_string(), meta: small });
    node.handle("p".to_string(), Command::Create { name: "test".to_string(), meta: large });
    let file = node.files().get("test").unwrap();
    assert_eq!(file.metadata().len(), 1);
    assert_eq!(file.shards().len(), 2);
}

#[test]
fn replicate_before_create_is_dropped() {
    let source = File::encode("content").unwrap();
    let mut sent = distribute("test", &source, &names(&["p"]));
    let second = sent.pop().unwrap().1;
    let first = sent.pop().unwrap().1;
    let create = sent.pop().unwrap().1;

    let mut node = Node::new(());
    assert!(node.handle("p".to_string(), first).is_empty());
    assert!(node.files().get("test").is_none());
    node.handle("p".to_string(), create);
    assert_eq!(node.files().get("test").unwrap().shards().present(), 0);
    assert_eq!(node.try_download(&"test".to_string()), None);
    node.handle("p".to_string(), second);
    assert_eq!(node.try_download(&"test".to_string()), Some("content".to_string()));
}

#[test]
fn replicate_for_a_missing_slot_is_dropped() {
    let small = File::encode("a").unwrap();
    let large = File::encode(&"b".repeat(130)).unwrap();
    let mut node = Node::new(());
    node.handle(
        "p".to_string(),
        Command::Create { name: "test".to_string(), meta: *small.metadata() },
    );
    for (_, command) in distribute("test", &large, &names(&["p"])).drain(1..) {
        node.handle("p".to_string(), command);
    }
    let file = node.files().get("test").unwrap();
    assert_eq!(file.shards().len(), 2);
    assert_eq!(file.shards().present(), 2);
}

#[test]
fn replicate_does_not_overwrite() {
    let one = File::encode("one").unwrap();
    let two = File::encode("two").unwrap();
    let mut node = Node::new(());
    for (_, command) in distribute("test", &one, &names(&["p"])) {
        node.handle("p".to_string(), command);
    }
    for (_, command) in distribute("test", &two, &names(&["p"])) {
        node.handle("p".to_string(), command);
    }
    assert_eq!(node.try_download(&"test".to_string()), Some("one".to_string()));
}

#[test]
fn request_is_answered_with_every_held_shard() {
    let mut node = Node::new(());
    node.upload("test".to_string(), &"a".repeat(130), &Vec::new()).unwrap();
    let all = held(&node, "test");
    let sent = node.handle("asker".to_string(), Command::Request { name: "test".to_string() });
    assert_eq!(sent.len(), 6);
    for (index, (peer, command)) in sent.iter().enumerate() {
        assert_eq!(peer, "asker");
        match command {
            Command::Replicate { name, shard } => {
                assert_eq!(name, "test");
                assert_eq!(shard.index(), index);
                assert_eq!(shard.data(), all[index].data());
            }
            _ => panic!("expected a replicate"),
        }
    }
    assert_eq!(held(&node, "test").len(), 6);
}

#[test]
fn request_for_an_unknown_name_is_not_answered() {
    let mut node = Node::new(());
    node.upload("test".to_string(), "content", &Vec::new()).unwrap();
    let sent = node.handle("asker".to_string(), Command::Request { name: "other".to_string() });
    assert!(sent.is_empty());
    assert!(held(&node, "other").is_empty());
}

#[test]
fn run_takes_the_inbox_in_order() {
    let source = File::encode(&"a".repeat(130)).unwrap();
    let mut inbox = distribute("test", &source, &names(&["p"]));
    inbox.push(("asker".to_string(), Command::Request { name: "test".to_string() }));
    inbox.insert(0, ("early".to_string(), Command::Request { name: "test".to_string() }));

    let mut node = Node::new(());
    let sent = node.run(inbox);
    assert_eq!(sent.len(), 6);
    assert!(sent.iter().all(|(peer, _)| peer == "asker"));
    assert_eq!(node.try_download(&"test".to_string()), Some("a".repeat(130)));
    assert!(node.run(Vec::new()).is_empty());
}

#[test]
fn shards_arrive_in_any_order() {
    let source = File::encode(&"hello world!".repeat(100)).unwrap();
    let sent = distribute("test", &source, &names(&["p"]));
    let mut backwards: Vec<(String, Command)> = sent.iter().skip(1).cloned().collect();
    backwards.reverse();
    backwards.insert(0, sent[0].clone());

    let mut one = Node::new(());
    one.run(sent);
    let mut other = Node::new(());
    other.run(backwards);
    assert_eq!(
        format!("{:?}", one.files().get("test").unwrap()),
        format!("{:?}", other.files().get("test").unwrap())
    );
    assert_eq!(other.try_download(&"test".to_string()), Some("hello world!".repeat(100)));
}

#[test]
fn command_sizes() {
    let source = File::encode("content").unwrap();
    let sent = distribute("name", &source, &names(&["p"]));
    assert_eq!(sent[0].1.size(), 4 + std::mem::size_of_val(source.metadata()));
    assert_eq!(sent[1].1.size(), 4 + 64);
    assert_eq!(Command::Request { name: "näme".to_string() }.size(), 5);
}

#[test]
fn store_snapshot_and_decode() {
    let mut node = Node::new(());
    node.upload("test".to_string(), &"a".repeat(130), &Vec::new()).unwrap();
    let mut store_node = Node::new(());
    let source = node.files().get("test").unwrap().clone();
    store_node.insert("copy".to_string(), source);
    assert_eq!(store_node.files().try_decode("copy"), Some("a".repeat(130)));
    assert_eq!(store_node.files().try_decode("test"), None);
    assert_eq!(store_node.files().snapshot_present("copy").len(), 6);
    assert!(store_node.files().snapshot_present("test").is_empty());
}

#[test]
fn checked_size_is_the_size() {
    let source = File::encode("content").unwrap();
    for (_, command) in distribute("name", &source, &names(&["p"])) {
        assert_eq!(command.checked_size(), Some(command.size()));
    }
    assert_eq!(Command::Request { name: String::new() }.checked_size(), Some(0));
}

#[test]
fn polling_converges_once_enough_peers_answer() {
    let mut net = Net::new(8);
    let content = "hello world!".repeat(30);
    net.upload(0, "hello", &content);
    net.settle();
    for id in 0..4 {
        net.disable(id);
    }
    assert_eq!(net.download(7, "hello"), None);
    net.settle();
    assert_eq!(held(&net.nodes[7], "hello").len(), 6);
    assert_eq!(net.download(7, "hello"), Some(content));
}

#[test]
fn a_peer_that_never_heard_of_the_name_keeps_nothing() {
    let mut net = Net::new(3);
    net.disable(2);
    net.upload(0, "hello", "content");
    net.settle();
    assert!(net.nodes[2].files().get("hello").is_none());
    net.disabled.clear();
    assert_eq!(net.download(2, "hello"), None);
    net.settle();
    assert!(net.nodes[2].files().get("hello").is_none());
    assert_eq!(net.download(2, "hello"), None);
}
