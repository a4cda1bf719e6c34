use erasure_node::encoding::SHARD_SIZE;
use erasure_node::file::{File, Shard, Shards};
use erasure_node::{decode, encode};

fn shards_of(shards: &Shards) -> Vec<Shard> {
    let mut all = Vec::new();
    let mut walk = shards.present_iter();
    while let Some(shard) = walk.next() {
        all.push(shard);
    }
    all
}

fn padded(text: &str) -> Vec<u8> {
    let mut buffer = text.as_bytes().to_vec();
    buffer.resize(SHARD_SIZE, 0);
    buffer
}

#[test]
fn sanity() {
    let s1 = "hello world!";
    let (meta, mut shards) = encode(s1);
    shards.delete(1);
    let s2 = decode(meta, shards);
    assert_eq!(s1, s2);
}

#[test]
fn main_simple() {
    let s1 = "hello world!";
    let mut file = File::encode(s1).unwrap();
    file.shards_mut().delete(0);
    assert!(file.can_decode());
    let s2 = file.decode().unwrap();
    assert_eq!(s1, s2);
}

#[test]
fn main_big() {
    let s1 = "hello world!".repeat(100);
    let mut file = File::encode(&s1).unwrap();
    file.shards_mut().delete(0);
    file.shards_mut().delete(1);
    file.shards_mut().delete(3);
    file.shards_mut().delete(10);
    file.shards_mut().delete(20);
    assert!(file.can_decode());
    let s2 = file.decode().unwrap();
    assert_eq!(s1, s2);
}

#[test]
fn fail() {
    let s1 = "hello world!".repeat(3);
    let mut file = File::encode(&s1).unwrap();
    file.shards_mut().delete(0);
    file.shards_mut().delete(1);
    assert!(!file.can_decode());
    assert!(file.decode().is_none());
}

#[test]
fn shard_size_is_64() {
    assert_eq!(SHARD_SIZE, 64);
}

#[test]
fn simple_has_one_data_and_one_parity_shard() {
    let file = File::encode("hello world!").unwrap();
    assert_eq!(file.metadata().len(), 12);
    assert_eq!(file.metadata().data_shards(), 1);
    assert_eq!(file.metadata().parity_shards(), 1);
    assert_eq!(file.shards().len(), 2);
    assert_eq!(file.shards().present(), 2);
}

#[test]
fn big_has_19_data_and_19_parity_shards() {
    let content = "hello world!".repeat(100);
    assert_eq!(content.len(), 1200);
    let mut file = File::encode(&content).unwrap();
    assert_eq!(file.metadata().len(), 1200);
    assert_eq!(file.metadata().data_shards(), 19);
    assert_eq!(file.metadata().parity_shards(), 19);
    assert_eq!(file.shards().len(), 38);
    for index in [0, 1, 3, 10, 20] {
        file.shards_mut().delete(index);
    }
    assert_eq!(file.shards().present(), 33);
}

#[test]
fn three_repeats_fit_one_chunk() {
    let content = "hello world!".repeat(3);
    let mut file = File::encode(&content).unwrap();
    assert_eq!(file.metadata().data_shards(), 1);
    assert_eq!(file.metadata().parity_shards(), 1);
    assert_eq!(file.shards().len(), 2);
    file.shards_mut().delete(0);
    file.shards_mut().delete(1);
    assert_eq!(file.shards().present(), 0);
}

#[test]
fn chunk_count_rounds_up() {
    assert_eq!(File::encode(&"a".repeat(64)).unwrap().metadata().data_shards(), 1);
    assert_eq!(File::encode(&"a".repeat(65)).unwrap().metadata().data_shards(), 2);
    assert_eq!(File::encode(&"a".repeat(128)).unwrap().metadata().data_shards(), 2);
    assert_eq!(File::encode(&"a".repeat(129)).unwrap().metadata().data_shards(), 3);
}

#[test]
fn data_shards_are_the_chunks_padded_with_zeros() {
    let content = format!("{}{}", "a".repeat(64), "bc");
    let file = File::encode(&content).unwrap();
    let shards = shards_of(file.shards());
    assert_eq!(shards.len(), 4);
    assert_eq!(shards[0].index(), 0);
    assert_eq!(shards[0].data(), &vec![b'a'; 64]);
    assert_eq!(shards[1].index(), 1);
    assert_eq!(shards[1].data(), &padded("bc"));
    for shard in &shards {
        assert_eq!(shard.size(), 64);
    }
}

#[test]
fn single_chunk_has_itself_as_parity() {
    let file = File::encode("hello world!").unwrap();
    let shards = shards_of(file.shards());
    assert_eq!(shards[0].data(), &padded("hello world!"));
    assert_eq!(shards[1].index(), 1);
    assert_eq!(shards[1].data(), &padded("hello world!"));
}

#[test]
fn parity_is_not_left_blank() {
    let content = format!("{}{}", "a".repeat(64), "b".repeat(64));
    let file = File::encode(&content).unwrap();
    let shards = shards_of(file.shards());
    assert_eq!(shards.len(), 4);
    assert_ne!(shards[2].data(), &vec![0u8; 64]);
    assert_ne!(shards[3].data(), &vec![0u8; 64]);
    assert_ne!(shards[2].data(), shards[3].data());
}

#[test]
fn empty_content_is_refused() {
    assert!(File::encode("").is_none());
}

#[test]
fn largest_content_has_128_chunks() {
    let content = "x".repeat(128 * 64);
    let file = File::encode(&content).unwrap();
    assert_eq!(file.metadata().data_shards(), 128);
    assert_eq!(file.shards().len(), 256);
    assert_eq!(file.decode().unwrap(), content);
}

#[test]
fn content_of_129_chunks_is_refused() {
    assert!(File::encode(&"x".repeat(128 * 64 + 1)).is_none());
}

#[test]
fn round_trip_without_loss() {
    for content in ["a", "hello world!", "päivää, maailma", "日本語のテキスト"] {
        let file = File::encode(content).unwrap();
        assert_eq!(file.decode().unwrap(), content);
    }
    let long = "0123456789".repeat(333);
    assert_eq!(File::encode(&long).unwrap().decode().unwrap(), long);
}

#[test]
fn decode_leaves_the_shards_alone() {
    let content = "hello world!".repeat(100);
    let mut file = File::encode(&content).unwrap();
    file.shards_mut().delete(2);
    file.shards_mut().delete(30);
    assert_eq!(file.decode().unwrap(), content);
    assert_eq!(file.shards().present(), 36);
    assert_eq!(file.decode().unwrap(), content);
}

#[test]
fn parity_alone_reconstructs() {
    let content = "hello world!".repeat(100);
    let mut file = File::encode(&content).unwrap();
    for index in 0..19 {
        file.shards_mut().delete(index);
    }
    assert_eq!(file.shards().present(), 19);
    assert!(file.can_decode());
    assert_eq!(file.decode().unwrap(), content);
    assert_eq!(file.reconstruct().unwrap(), content.as_bytes());
}

#[test]
fn one_shard_too_few_does_not_decode() {
    let content = "hello world!".repeat(100);
    let mut file = File::encode(&content).unwrap();
    for index in 0..20 {
        file.shards_mut().delete(index);
    }
    assert_eq!(file.shards().present(), 18);
    assert!(!file.can_decode());
    assert!(file.decode().is_none());
    assert!(file.reconstruct().is_none());
}

#[test]
fn content_that_is_not_text_does_not_decode() {
    let short = File::encode("a").unwrap();
    let accented = File::encode("é").unwrap();
    let (_, shards) = accented.into_parts();
    let file = File::new(*short.metadata(), shards);
    assert!(file.can_decode());
    assert_eq!(file.reconstruct().unwrap(), vec![0xc3]);
    assert!(file.decode().is_none());
}

#[test]
fn shards_of_another_shape_do_not_decode() {
    let small = File::encode("a").unwrap();
    let large = File::encode(&"a".repeat(200)).unwrap();
    let (_, shards) = large.into_parts();
    let file = File::new(*small.metadata(), shards);
    assert!(file.can_decode());
    assert!(file.reconstruct().is_none());
    assert!(file.decode().is_none());
}

#[test]
fn buffers_of_different_lengths_do_not_decode() {
    let mut file = File::encode(&"a".repeat(100)).unwrap();
    file.shards_mut().insert(vec![1, 2, 3], 0);
    assert!(file.can_decode());
    assert!(file.decode().is_none());
}

#[test]
fn empty_file_has_absent_slots() {
    let encoded = File::encode(&"a".repeat(100)).unwrap();
    let file = File::empty(*encoded.metadata());
    assert_eq!(file.metadata().len(), 100);
    assert_eq!(file.metadata().data_shards(), 2);
    assert_eq!(file.shards().len(), 4);
    assert_eq!(file.shards().present(), 0);
    assert_eq!(file.shards().size(), 0);
    assert!(!file.can_decode());
    assert!(file.decode().is_none());
    assert!(file.shards().present_iter().next().is_none());
}

#[test]
fn insert_overwrites() {
    let mut shards = Shards::new(vec![None, Some(vec![1; 64]), None]);
    shards.insert(vec![2; 64], 1);
    shards.insert(vec![3; 64], 2);
    let held = shards_of(&shards);
    assert_eq!(shards.len(), 3);
    assert_eq!(held.len(), 2);
    assert_eq!((held[0].index(), held[0].data()), (1, &vec![2; 64]));
    assert_eq!((held[1].index(), held[1].data()), (2, &vec![3; 64]));
}

#[test]
fn delete_clears_a_slot() {
    let mut shards = Shards::new(vec![Some(vec![1; 64]), Some(vec![2; 64])]);
    shards.delete(0);
    shards.delete(0);
    assert_eq!(shards.len(), 2);
    assert_eq!(shards.present(), 1);
    let held = shards_of(&shards);
    assert_eq!((held[0].index(), held[0].data()), (1, &vec![2; 64]));
}

#[test]
fn merge_fills_an_absent_slot_only() {
    let theirs = Shards::new(vec![Some(vec![7; 64]), Some(vec![8; 64])]);
    let offered = shards_of(&theirs);
    let mut ours = Shards::new(vec![None, Some(vec![1; 64])]);
    ours.merge(offered[0].clone());
    ours.merge(offered[1].clone());
    let held = shards_of(&ours);
    assert_eq!(held.len(), 2);
    assert_eq!(held[0].data(), &vec![7; 64]);
    assert_eq!(held[1].data(), &vec![1; 64]);
}

#[test]
fn merge_is_idempotent() {
    let theirs = Shards::new(vec![None, Some(vec![8; 64]), None]);
    let offered = shards_of(&theirs);
    let mut once = Shards::new(vec![None, None, None]);
    once.merge(offered[0].clone());
    let mut twice = once.clone();
    twice.merge(offered[0].clone());
    assert_eq!(format!("{:?}", once), format!("{:?}", twice));
    assert_eq!(twice.present(), 1);
}

#[test]
fn merge_is_commutative() {
    let theirs = Shards::new(vec![Some(vec![7; 64]), None, Some(vec![9; 64])]);
    let offered = shards_of(&theirs);
    let mut forwards = Shards::new(vec![None, None, None]);
    forwards.merge(offered[0].clone());
    forwards.merge(offered[1].clone());
    let mut backwards = Shards::new(vec![None, None, None]);
    backwards.merge(offered[1].clone());
    backwards.merge(offered[0].clone());
    assert_eq!(format!("{:?}", forwards), format!("{:?}", backwards));
    assert_eq!(forwards.present(), 2);
}

#[test]
fn of_two_shards_for_one_slot_the_first_stays() {
    let one = shards_of(&Shards::new(vec![Some(vec![1; 64])]));
    let two = shards_of(&Shards::new(vec![Some(vec![2; 64])]));
    let mut forwards = Shards::new(vec![None]);
    forwards.merge(one[0].clone());
    forwards.merge(two[0].clone());
    let mut backwards = Shards::new(vec![None]);
    backwards.merge(two[0].clone());
    backwards.merge(one[0].clone());
    assert_eq!(shards_of(&forwards)[0].data(), &vec![1; 64]);
    assert_eq!(shards_of(&backwards)[0].data(), &vec![2; 64]);
}

#[test]
fn present_iter_goes_up_by_index() {
    let content = "hello world!".repeat(100);
    let mut file = File::encode(&content).unwrap();
    for index in [0, 1, 3, 10, 20] {
        file.shards_mut().delete(index);
    }
    let indices: Vec<usize> = shards_of(file.shards()).iter().map(|shard| shard.index()).collect();
    let expected: Vec<usize> = (0..38).filter(|index| ![0, 1, 3, 10, 20].contains(index)).collect();
    assert_eq!(indices, expected);
}

#[test]
fn present_iter_ends_and_stays_ended() {
    let shards = Shards::new(vec![None, Some(vec![5; 64]), None]);
    let mut walk = shards.present_iter();
    assert_eq!(walk.next().unwrap().index(), 1);
    assert!(walk.next().is_none());
    assert!(walk.next().is_none());
}

#[test]
fn shards_handed_out_are_copies() {
    let mut shards = Shards::new(vec![Some(vec![5; 64])]);
    let copy = shards.present_iter().next().unwrap();
    shards.delete(0);
    assert_eq!(copy.data(), &vec![5; 64]);
    assert_eq!(shards.present(), 0);
}

#[test]
fn size_adds_up_the_buffers() {
    let mut file = File::encode(&"hello world!".repeat(100)).unwrap();
    assert_eq!(file.shards().size(), 38 * 64);
    file.shards_mut().delete(4);
    assert_eq!(file.shards().size(), 37 * 64);
    let uneven = Shards::new(vec![Some(vec![0; 3]), None, Some(vec![0; 5])]);
    assert_eq!(uneven.size(), 8);
}

#[test]
fn can_decode_at_exactly_k() {
    let mut file = File::encode(&"a".repeat(130)).unwrap();
    assert_eq!(file.metadata().data_shards(), 3);
    file.shards_mut().delete(0);
    file.shards_mut().delete(2);
    file.shards_mut().delete(4);
    assert_eq!(file.shards().present(), 3);
    assert!(file.can_decode());
    assert_eq!(file.decode().unwrap(), "a".repeat(130));
    file.shards_mut().delete(5);
    assert!(!file.can_decode());
    assert!(file.decode().is_none());
}

#[test]
fn clone_is_a_copy_of_its_own() {
    let file = File::encode("hello world!").unwrap();
    let mut copy = file.clone();
    copy.shards_mut().delete(0);
    copy.shards_mut().delete(1);
    assert_eq!(file.shards().present(), 2);
    assert_eq!(copy.shards().present(), 0);
    assert_eq!(file.decode().unwrap(), "hello world!");
}

#[test]
fn encode_at_the_root_gives_the_parts() {
    let (meta, shards) = encode("hello world!");
    assert_eq!(meta.len(), 12);
    assert_eq!(meta.data_shards(), 1);
    assert_eq!(shards.len(), 2);
    assert_eq!(decode(meta, shards), "hello world!");
}

#[test]
fn an_empty_buffer_does_not_decode() {
    let mut file = File::encode(&"a".repeat(100)).unwrap();
    file.shards_mut().insert(Vec::new(), 3);
    assert!(file.can_decode());
    assert!(file.reconstruct().is_none());
    assert!(file.decode().is_none());
}

#[test]
fn buffers_of_another_size_decode_too() {
    let meta = *File::encode("a").unwrap().metadata();
    let shards = Shards::new(vec![Some(b"xyz".to_vec()), Some(b"xyz".to_vec())]);
    let file = File::new(meta, shards);
    assert_eq!(file.reconstruct().unwrap(), b"x");
    assert_eq!(file.decode().unwrap(), "x");
}

#[test]
fn content_shorter_than_its_length_stays_whole() {
    let meta = *File::encode(&"a".repeat(100)).unwrap().metadata();
    let buffers = [b"ab", b"cd", b"ef", b"gh"];
    let shards = Shards::new(buffers.iter().map(|buffer| Some(buffer.to_vec())).collect());
    let file = File::new(meta, shards);
    assert_eq!(file.metadata().len(), 100);
    assert_eq!(file.reconstruct().unwrap(), b"abcd");
    assert_eq!(file.decode().unwrap(), "abcd");
}

#[test]
fn a_lost_parity_shard_is_no_loss() {
    let content = "hello world!".repeat(100);
    let mut file = File::encode(&content).unwrap();
    for index in 19..38 {
        file.shards_mut().delete(index);
    }
    assert_eq!(file.shards().present(), 19);
    assert_eq!(file.decode().unwrap(), content);
}

#[test]
fn into_parts_and_back() {
    let file = File::encode("hello world!").unwrap();
    let (meta, shards) = file.into_parts();
    assert_eq!(meta.len(), 12);
    assert_eq!(shards.present(), 2);
    assert_eq!(File::new(meta, shards).decode().unwrap(), "hello world!");
}
