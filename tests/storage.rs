use dbdb::block::{Block, BlockManager};
use dbdb::compression::{compress_block, uncompress_block, BLOCK_SIZE};
use dbdb::error::StoreError;
use dbdb::fs::{get_path_from_hash, work_dir_path};
use dbdb::hash::{hash_block, hash_str, hash_tuple_2};
use dbdb::index::append_only_index;
use dbdb::store::ObjectStore;
use dbdb::tree::{read_tree, MerkleTree};

fn store_bytes(store: &mut ObjectStore, data: &[u8]) -> String {
    let bm = BlockManager::new();
    let hashes = bm.split(data, true, store);
    MerkleTree::new(hashes).write(store)
}

fn fetch_bytes(store: &ObjectStore, root: &str) -> Vec<u8> {
    let mut hashes = Vec::new();
    read_tree(store, root, &mut hashes);
    let mut out = Vec::new();
    BlockManager::new().join(store, hashes, &mut out).unwrap();
    out
}

fn sample(len: usize) -> Vec<u8> {
    (0..len).map(|i| ((i * 31 + i / 7) % 251) as u8).collect()
}

#[test]
fn hello_world_scenario() {
    let mut store = ObjectStore::new();
    let bm = BlockManager::new();
    let hashes = bm.split(b"hello world", true, &mut store);
    assert_eq!(hashes, vec!["2aae6c35c94fcfb415dbe95f408b9ce91ee846ed".to_string()]);
    let h = hashes[0].clone();
    let root = MerkleTree::new(hashes.clone()).write(&mut store);
    assert_eq!(root, hash_str(&h));
    assert_ne!(root, h);
    let mut read = Vec::new();
    read_tree(&store, &root, &mut read);
    assert_eq!(read, vec![h.clone()]);
    let mut out = Vec::new();
    bm.join(&store, vec![h], &mut out).unwrap();
    assert_eq!(out, b"hello world".to_vec());
}

#[test]
fn round_trip_various_lengths() {
    for len in [0, 1, BLOCK_SIZE, 2 * BLOCK_SIZE, 3 * BLOCK_SIZE + 5, 5 * BLOCK_SIZE + 1] {
        let mut store = ObjectStore::new();
        let data = sample(len);
        let root = store_bytes(&mut store, &data);
        assert_eq!(fetch_bytes(&store, &root), data, "length {}", len);
    }
}

#[test]
fn empty_input_has_no_blocks_and_a_sentinel_root() {
    let mut store = ObjectStore::new();
    let hashes = BlockManager::new().split(&[], true, &mut store);
    assert!(hashes.is_empty());
    let root = MerkleTree::new(hashes).write(&mut store);
    assert_eq!(root, "da39a3ee5e6b4b0d3255bfef95601890afd80709");
    assert_eq!(store.len(), 0);
    assert!(fetch_bytes(&store, &root).is_empty());
}

#[test]
fn digest_determinism() {
    assert_eq!(hash_block(b"abc"), hash_block(b"abc"));
    assert_eq!(hash_block(b"abc"), "a9993e364706816aba3e25717850c26c9cd0d89d");
    assert_ne!(hash_block(b"abc"), hash_block(b"abd"));
    assert_eq!(hash_str("abc"), hash_block(b"abc"));
    assert_eq!(hash_tuple_2(("ab", "c")), hash_block(b"abc"));
}

#[test]
fn chunk_count_and_lengths() {
    let mut store = ObjectStore::new();
    let bm = BlockManager::new();
    for (len, count) in [(0, 0), (1, 1), (BLOCK_SIZE, 1), (BLOCK_SIZE + 1, 2), (3 * BLOCK_SIZE + 7, 4)] {
        let data = sample(len);
        let hashes = bm.split(&data, false, &mut store);
        assert_eq!(hashes.len(), count);
        for (i, h) in hashes.iter().enumerate() {
            let end = std::cmp::min((i + 1) * BLOCK_SIZE, len);
            assert_eq!(*h, hash_block(&data[i * BLOCK_SIZE..end]));
        }
    }
    assert_eq!(store.len(), 0);
}

#[test]
fn two_hashes_make_one_pair_node() {
    let a = hash_block(b"a");
    let b = hash_block(b"b");
    let mut store = ObjectStore::new();
    let root = MerkleTree::new(vec![a.clone(), b.clone()]).write(&mut store);
    assert_eq!(root, hash_tuple_2((&a, &b)));
    assert_eq!(store.len(), 1);
    let node = store.get(&get_path_from_hash(&root)).unwrap();
    assert_eq!(*node, format!("block {}\nblock {}\n", a, b).into_bytes());
}

#[test]
fn three_hashes_rewrap_the_odd_one() {
    let a = hash_block(b"a");
    let b = hash_block(b"b");
    let c = hash_block(b"c");
    let mut store = ObjectStore::new();
    let root = MerkleTree::new(vec![a.clone(), b.clone(), c.clone()]).write(&mut store);
    let ab = hash_tuple_2((&a, &b));
    let cc = hash_str(&c);
    assert_eq!(root, hash_tuple_2((&ab, &cc)));
    assert_eq!(store.len(), 3);
    let single = store.get(&get_path_from_hash(&cc)).unwrap();
    assert_eq!(*single, format!("block {}\n", c).into_bytes());
    let top = store.get(&get_path_from_hash(&root)).unwrap();
    assert_eq!(*top, format!("tree {}\ntree {}\n", ab, cc).into_bytes());
    let orders = [
        vec![a.clone(), c.clone(), b.clone()],
        vec![b.clone(), a.clone(), c.clone()],
        vec![b.clone(), c.clone(), a.clone()],
        vec![c.clone(), a.clone(), b.clone()],
        vec![c.clone(), b.clone(), a.clone()],
    ];
    for order in orders {
        let mut other = ObjectStore::new();
        assert_ne!(MerkleTree::new(order).write(&mut other), root);
    }
    let mut read = Vec::new();
    read_tree(&store, &root, &mut read);
    assert_eq!(read, vec![a, b, c]);
}

#[test]
fn storing_a_block_twice_is_idempotent() {
    let mut store = ObjectStore::new();
    let bm = BlockManager::new();
    let first = bm.split(b"same bytes", true, &mut store);
    let second = bm.split(b"same bytes", true, &mut store);
    assert_eq!(first, second);
    assert_eq!(store.entries().len(), 2);
    assert_eq!(store.entries()[0], store.entries()[1]);
    assert_eq!(bm.read_chunk(&store, &first[0]).unwrap(), b"same bytes".to_vec());
}

#[test]
fn index_is_append_only() {
    let mut store = ObjectStore::new();
    let r1 = store_bytes(&mut store, b"twin");
    let r2 = store_bytes(&mut store, b"twin");
    assert_eq!(r1, r2);
    append_only_index(&mut store, &r1, "first.txt");
    append_only_index(&mut store, &r2, "second.txt");
    assert_eq!(
        *store.index(),
        vec![format!("{} first.txt", r1), format!("{} second.txt", r2)]
    );
}

#[test]
fn missing_block_is_not_found() {
    let store = ObjectStore::new();
    let bm = BlockManager::new();
    assert_eq!(
        bm.read_chunk(&store, "2aae6c35c94fcfb415dbe95f408b9ce91ee846ed"),
        Err(StoreError::NotFound)
    );
    assert_eq!(bm.read_chunk(&store, "a"), Err(StoreError::NotFound));
    let mut out = Vec::new();
    let r = bm.join(&store, vec!["2aae6c35c94fcfb415dbe95f408b9ce91ee846ed".to_string()], &mut out);
    assert_eq!(r, Err(StoreError::NotFound));
}

#[test]
fn garbage_block_is_a_decode_failure() {
    let mut store = ObjectStore::new();
    let h = "2aae6c35c94fcfb415dbe95f408b9ce91ee846ed";
    store.put(get_path_from_hash(h), b"not snappy".to_vec());
    assert_eq!(BlockManager::new().read_chunk(&store, h), Err(StoreError::DecodeFailure));
}

#[test]
fn codec_round_trip() {
    let data = sample(BLOCK_SIZE);
    let mut enc = Vec::new();
    compress_block(&mut enc, &data);
    assert_ne!(enc, data);
    assert_eq!(uncompress_block(&enc).unwrap(), data);
    let mut w = Vec::new();
    Block::from(&data[..10]).write(&mut w);
    assert_eq!(uncompress_block(&w).unwrap(), data[..10].to_vec());
    assert_eq!(Block::from(&data[..10]).data(), &data[..10]);
    assert_eq!(Block::from(&data[..10]).hash(), hash_block(&data[..10]));
}

#[test]
fn oversized_content_is_a_decode_failure() {
    let data = sample(BLOCK_SIZE + 1);
    let mut enc = Vec::new();
    compress_block(&mut enc, &data);
    assert_eq!(uncompress_block(&enc), Err(StoreError::DecodeFailure));
}

#[test]
fn paths_shard_by_first_two_characters() {
    assert_eq!(get_path_from_hash("abcdef"), "objects/ab/cdef");
    assert_eq!(work_dir_path("objects/ab/cdef"), "data/objects/ab/cdef");
}

#[test]
fn read_tree_ignores_missing_and_malformed_nodes() {
    let mut store = ObjectStore::new();
    let mut out = Vec::new();
    read_tree(&store, "ffffffffffffffffffffffffffffffffffffffff", &mut out);
    assert!(out.is_empty());
    let root = "0123456789abcdef0123456789abcdef01234567";
    store.put(get_path_from_hash(root), b"junk\nblock xy\ntree\n".to_vec());
    read_tree(&store, root, &mut out);
    assert_eq!(out, vec!["xy".to_string()]);
    let bad = "1123456789abcdef0123456789abcdef01234567";
    store.put(get_path_from_hash(bad), vec![0xff, 0xfe]);
    read_tree(&store, bad, &mut out);
    assert_eq!(out, vec!["xy".to_string()]);
}

#[test]
fn cyclic_tree_is_cut() {
    let mut store = ObjectStore::new();
    let root = "0123456789abcdef0123456789abcdef01234567";
    store.put(get_path_from_hash(root), format!("block aa\ntree {}\n", root).into_bytes());
    let mut out = Vec::new();
    read_tree(&store, root, &mut out);
    assert_eq!(out, vec!["aa".to_string()]);
}
