use state_store::node_key::{NibblePath, NodeKey, ROOT_NIBBLE_HEIGHT};
use state_store::node::Node;
use state_store::store::{StateStore, StaleNodeIndex, SchemaBatch, add_node_batch};
use state_store::commit::{ChangeSet, LedgerCounter, NodeStats, TreeUpdateBatch};
use state_store::StateStoreError;

fn key(version: u64, nibbles: Vec<u8>) -> NodeKey {
    NodeKey::new(version, NibblePath::new(nibbles).unwrap())
}

fn leaf(account_key: Vec<u8>, tag: u8) -> Node {
    Node::Leaf { account_key, hash: vec![tag; 32], blob: vec![tag] }
}

fn internal(tag: u8) -> Node {
    Node::Internal { hash: vec![tag; 32], children: Vec::new() }
}

fn account(first: u8) -> Vec<u8> {
    let mut v = vec![0u8; 32];
    v[0] = first;
    v
}

#[test]
fn codec_round_trip() {
    let k = key(7, vec![0, 15, 3]);
    let bytes = k.encode();
    assert_eq!(bytes, vec![0, 0, 0, 0, 0, 0, 0, 7, 3, 0, 15, 3]);
    let back = NodeKey::decode(&bytes).unwrap();
    assert_eq!(back.version, 7);
    assert_eq!(back.path.num_nibbles(), 3);
    assert_eq!(back.path.nibble(0), 0);
    assert_eq!(back.path.nibble(1), 15);
    assert_eq!(back.path.nibble(2), 3);
}

#[test]
fn codec_round_trip_extremes() {
    let k = key(u64::MAX, vec![]);
    let bytes = k.encode();
    assert_eq!(bytes, vec![255, 255, 255, 255, 255, 255, 255, 255, 0]);
    let back = NodeKey::decode(&bytes).unwrap();
    assert_eq!(back.version, u64::MAX);
    assert_eq!(back.path.num_nibbles(), 0);
}

#[test]
fn codec_rejects_bad_bytes() {
    assert!(NodeKey::decode(&vec![1, 2, 3]).is_none());
    // Length byte disagrees with the actual path length.
    assert!(NodeKey::decode(&vec![0, 0, 0, 0, 0, 0, 0, 0, 2, 1]).is_none());
    // A path byte that is not a nibble.
    assert!(NodeKey::decode(&vec![0, 0, 0, 0, 0, 0, 0, 0, 1, 16]).is_none());
    // A path longer than the tree is deep.
    let mut long = vec![0, 0, 0, 0, 0, 0, 0, 0, 65];
    long.extend(std::iter::repeat(1u8).take(65));
    assert!(NodeKey::decode(&long).is_none());
    assert!(NibblePath::new(vec![16]).is_none());
    assert_eq!(ROOT_NIBBLE_HEIGHT, 64);
}

#[test]
fn codec_order_matches_key_order() {
    // Version ascending, then path length, then path bytes.
    let keys = vec![
        key(1, vec![9]),
        key(2, vec![]),
        key(2, vec![0]),
        key(2, vec![1]),
        key(2, vec![0, 0]),
        key(3, vec![]),
    ];
    for i in 0..keys.len() {
        for j in 0..keys.len() {
            let a = keys[i].encode();
            let b = keys[j].encode();
            assert_eq!(a < b, i < j, "byte order must match key order at {} {}", i, j);
        }
    }
}

#[test]
fn empty_store_behavior() {
    let store = StateStore::new();
    match store.get_rightmost_leaf() {
        Ok(None) => {},
        _ => panic!("empty store must have no rightmost leaf"),
    }
    assert!(store.get_rightmost_leaf_naive().is_none());
    assert!(store.get_root_hash_option(0).is_none());
    assert_eq!(store.get_root_hash(0), Err(StateStoreError::NotFound));
    assert!(store.get_node_option(&key(0, vec![])).is_none());
}

#[test]
fn write_node_batch_and_get() {
    let mut store = StateStore::new();
    store.write_node_batch(vec![
        (key(0, vec![]), internal(1)),
        (key(0, vec![2]), leaf(account(0x2a), 2)),
    ]);
    assert_eq!(store.node_count(), 2);
    assert_eq!(store.stale_count(), 0);
    let n = store.get_node_option(&key(0, vec![2])).unwrap();
    assert_eq!(n.account_key(), &account(0x2a));
    assert!(store.get_node_option(&key(1, vec![2])).is_none());
    assert_eq!(store.get_root_hash(0), Ok(vec![1u8; 32]));
}

#[test]
fn rightmost_leaf_equals_naive_scan() {
    let mut store = StateStore::new();
    // A restore-shaped version-5 tree: root, two internal nodes, four leaves.
    // Account keys start with nibbles 0x1., 0x2., 0xa., 0xf.
    store.write_node_batch(vec![
        (key(5, vec![]), internal(1)),
        (key(5, vec![1]), leaf(account(0x10), 2)),
        (key(5, vec![2]), internal(3)),
        (key(5, vec![10]), leaf(account(0xa0), 4)),
        (key(5, vec![15]), leaf(account(0xf3), 5)),
        (key(5, vec![2, 9]), leaf(account(0x29), 6)),
    ]);
    let naive = store.get_rightmost_leaf_naive().expect("a leaf exists");
    let located = store.get_rightmost_leaf().unwrap().expect("a leaf exists");
    assert_eq!(naive.1.account_key(), located.1.account_key());
    assert_eq!(located.1.account_key(), &account(0xf3));
    assert_eq!(located.0.version, 5);
    assert_eq!(located.0.path.num_nibbles(), 1);
    assert_eq!(located.0.path.nibble(0), 15);
}

#[test]
fn rightmost_leaf_deep_tree() {
    let mut store = StateStore::new();
    // The maximal leaf sits at a longer path than some other leaves.
    let mut deep_key = account(0x21);
    deep_key[31] = 9;
    store.write_node_batch(vec![
        (key(3, vec![]), internal(1)),
        (key(3, vec![1]), leaf(account(0x1f), 2)),
        (key(3, vec![2]), internal(3)),
        (key(3, vec![2, 0]), leaf(account(0x20), 4)),
        (key(3, vec![2, 1]), leaf(deep_key.clone(), 5)),
    ]);
    let naive = store.get_rightmost_leaf_naive().unwrap();
    let located = store.get_rightmost_leaf().unwrap().unwrap();
    assert_eq!(naive.1.account_key(), &deep_key);
    assert_eq!(located.1.account_key(), &deep_key);
}

#[test]
fn put_account_state_sets_stages_everything() {
    let store = StateStore::new();
    let mut cs = ChangeSet::new();
    let update = TreeUpdateBatch {
        node_batch: vec![
            (key(0, vec![]), internal(1)),
            (key(0, vec![4]), leaf(account(0x4c), 2)),
        ],
        stale_node_index_batch: vec![],
        node_stats: vec![NodeStats { new_nodes: 2, new_leaves: 1, stale_nodes: 0, stale_leaves: 0 }],
    };
    let roots = store
        .put_account_state_sets(1, 0, vec![vec![1u8; 32]], update, &mut cs)
        .unwrap();
    assert_eq!(roots, vec![vec![1u8; 32]]);
    assert_eq!(cs.batch.node_puts.len(), 2);
    assert_eq!(cs.batch.stale_puts.len(), 0);
    assert_eq!(cs.counters.len(), 4);
    assert_eq!(cs.counters[0].version, 0);
    assert!(matches!(cs.counters[0].counter, LedgerCounter::NewStateNodes));
    assert_eq!(cs.counters[0].amount, 2);
    assert!(matches!(cs.counters[1].counter, LedgerCounter::NewStateLeaves));
    assert_eq!(cs.counters[1].amount, 1);
    assert!(matches!(cs.counters[2].counter, LedgerCounter::StaleStateNodes));
    assert_eq!(cs.counters[2].amount, 0);
    assert!(matches!(cs.counters[3].counter, LedgerCounter::StaleStateLeaves));
    assert_eq!(cs.counters[3].amount, 0);
}

#[test]
fn put_account_state_sets_rejects_cardinality_mismatch() {
    let store = StateStore::new();
    let mut cs = ChangeSet::new();
    let update = TreeUpdateBatch {
        node_batch: vec![],
        stale_node_index_batch: vec![],
        node_stats: vec![],
    };
    // One write-set but zero root hashes: the engine broke its contract.
    let r = store.put_account_state_sets(1, 0, vec![], update, &mut cs);
    assert_eq!(r, Err(StateStoreError::ContractViolation));
    assert_eq!(cs.batch.node_puts.len(), 0);
    assert_eq!(cs.counters.len(), 0);
}

#[test]
fn two_version_commit_keeps_history() {
    let mut store = StateStore::new();
    let mut cs = ChangeSet::new();
    let update = TreeUpdateBatch {
        node_batch: vec![
            (key(0, vec![]), internal(0x11)),
            (key(0, vec![4]), leaf(account(0x4c), 2)),
        ],
        stale_node_index_batch: vec![],
        node_stats: vec![NodeStats { new_nodes: 2, new_leaves: 1, stale_nodes: 0, stale_leaves: 0 }],
    };
    store
        .put_account_state_sets(1, 0, vec![vec![0x11u8; 32]], update, &mut cs)
        .unwrap();
    store.commit(cs.batch);
    assert_eq!(store.get_root_hash(0), Ok(vec![0x11u8; 32]));
    assert!(store.get_root_hash_option(1).is_none());

    // A second write-set at version 1 supersedes the old root.
    let mut cs2 = ChangeSet::new();
    let update2 = TreeUpdateBatch {
        node_batch: vec![
            (key(1, vec![]), internal(0x22)),
            (key(1, vec![4]), leaf(account(0x4c), 3)),
        ],
        stale_node_index_batch: vec![
            StaleNodeIndex { stale_since_version: 1, node_key: key(0, vec![]) },
            StaleNodeIndex { stale_since_version: 1, node_key: key(0, vec![4]) },
        ],
        node_stats: vec![NodeStats { new_nodes: 2, new_leaves: 1, stale_nodes: 2, stale_leaves: 1 }],
    };
    store
        .put_account_state_sets(1, 1, vec![vec![0x22u8; 32]], update2, &mut cs2)
        .unwrap();
    store.commit(cs2.batch);
    // The new version reads its root; the old version still reads its own.
    assert_eq!(store.get_root_hash(1), Ok(vec![0x22u8; 32]));
    assert_eq!(store.get_root_hash(0), Ok(vec![0x11u8; 32]));
    // Monotonic statistics: new nodes minus stale nodes committed so far
    // equals the live (non-stale-marked) node count.
    let total_new: usize = 2 + 2;
    let total_stale: usize = 0 + 2;
    assert_eq!(store.node_count() - store.stale_count(), total_new - total_stale);
}

#[test]
fn repeated_reads_are_identical() {
    let mut store = StateStore::new();
    store.write_node_batch(vec![
        (key(0, vec![]), internal(9)),
        (key(0, vec![3]), leaf(account(0x35), 7)),
    ]);
    assert_eq!(store.get_root_hash(0), store.get_root_hash(0));
    let a = store.get_node_option(&key(0, vec![3])).unwrap();
    let b = store.get_node_option(&key(0, vec![3])).unwrap();
    assert_eq!(a.account_key(), b.account_key());
    assert_eq!(a.hash(), b.hash());
}

#[test]
fn add_node_batch_appends_in_order() {
    let mut batch = SchemaBatch::new();
    add_node_batch(&mut batch, vec![(key(0, vec![]), internal(1))]);
    add_node_batch(&mut batch, vec![(key(0, vec![1]), leaf(account(0x17), 2))]);
    assert_eq!(batch.node_puts.len(), 2);
    assert_eq!(batch.node_puts[0].0.version, 0);
    assert_eq!(batch.node_puts[0].0.path.num_nibbles(), 0);
    assert_eq!(batch.node_puts[1].0.path.num_nibbles(), 1);
    assert_eq!(batch.stale_puts.len(), 0);
}
