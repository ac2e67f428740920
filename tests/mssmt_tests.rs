use bitcoin::hashes::sha256;
use mssmt::hash::NodeHash;
use mssmt::inclusion::Proof;
use mssmt::node::BranchNode;
use mssmt::node::ComputedNode;
use mssmt::node::EmptyTree;
use mssmt::node::LeafNode;
use mssmt::node::Node;
use mssmt::node::NodeKind;
use mssmt::tree::Tree;
use mssmt::tree::TreeError;

fn sha(data: &[u8]) -> [u8; 32] {
    let digest = <sha256::Hash as bitcoin::hashes::Hash>::hash(data);
    <sha256::Hash as bitcoin::hashes::Hash>::to_byte_array(digest)
}

fn leaf_hash(value: &[u8; 32], sum: u64) -> [u8; 32] {
    let mut pre = value.to_vec();
    pre.extend_from_slice(&sum.to_be_bytes());
    sha(&pre)
}

fn branch_hash(left: &[u8; 32], right: &[u8; 32], sum: u64) -> [u8; 32] {
    let mut pre = left.to_vec();
    pre.extend_from_slice(right);
    pre.extend_from_slice(&sum.to_be_bytes());
    sha(&pre)
}

fn empty_table() -> Vec<[u8; 32]> {
    let mut table = vec![[0u8; 32]; 257];
    table[256] = leaf_hash(&[0u8; 32], 0);
    for d in (0..256).rev() {
        table[d] = branch_hash(&table[d + 1], &table[d + 1], 0);
    }
    table
}

fn key_with_last(b: u8) -> [u8; 32] {
    let mut k = [0u8; 32];
    k[31] = b;
    k
}

#[test]
fn empty_levels_follow_recursive_definition() {
    let table = empty_table();
    let cache = EmptyTree::new();
    for d in 0..=256usize {
        assert_eq!(cache.hash_at(d).0, table[d]);
        assert_eq!(cache.node_at(d).sum(), 0);
    }
}

#[test]
fn empty_tree_root() {
    let t = Tree::init();
    assert_eq!(t.root_hash().0, empty_table()[0]);
    assert_eq!(t.root_sum(), 0);
}

#[test]
fn insert_then_delete_restores_empty_root() {
    let mut t = Tree::init();
    let before_hash = t.root_hash().0;
    let before_sum = t.root_sum();
    let k = key_with_last(1);
    assert!(t.insert(&k, [0u8; 32], 5).is_ok());
    assert_eq!(t.root_sum(), 5);
    assert_ne!(t.root_hash().0, before_hash);
    t.delete(&k);
    assert_eq!(t.root_hash().0, before_hash);
    assert_eq!(t.root_sum(), before_sum);
    assert_eq!(t.root.kind(), NodeKind::Empty);
}

#[test]
fn insert_then_get() {
    let mut t = Tree::init();
    let k = [0xabu8; 32];
    let v = [7u8; 32];
    assert!(t.insert(&k, v, 42).is_ok());
    assert_eq!(t.get(&k), Some((v, 42)));
    assert_eq!(t.get(&key_with_last(1)), None);
}

#[test]
fn insert_replaces_existing_leaf() {
    let mut t = Tree::init();
    let k = key_with_last(9);
    assert!(t.insert(&k, [1u8; 32], 10).is_ok());
    assert!(t.insert(&k, [2u8; 32], 3).is_ok());
    assert_eq!(t.get(&k), Some(([2u8; 32], 3)));
    assert_eq!(t.root_sum(), 3);
}

#[test]
fn sums_add_up_over_several_keys() {
    let mut t = Tree::init();
    let keys = [[0u8; 32], [0xffu8; 32], key_with_last(1), key_with_last(2)];
    for (i, k) in keys.iter().enumerate() {
        assert!(t.insert(k, [i as u8; 32], (i as u64 + 1) * 100).is_ok());
    }
    assert_eq!(t.root_sum(), 1000);
    if let Node::Branch(b) = &t.root {
        assert_eq!(b.sum, b.left.sum() + b.right.sum());
        assert_eq!(b.left.sum(), 800);
        assert_eq!(b.right.sum(), 200);
    } else {
        panic!("root should be a branch");
    }
    t.delete(&keys[1]);
    assert_eq!(t.root_sum(), 800);
    assert_eq!(t.get(&keys[1]), None);
    assert_eq!(t.get(&keys[0]), Some(([0u8; 32], 100)));
}

#[test]
fn two_leaves_root_matches_hand_computation() {
    let mut t = Tree::init();
    let left_key = [0u8; 32];
    let right_key = [0x80u8; 32];
    assert!(t.insert(&left_key, [1u8; 32], 4).is_ok());
    assert!(t.insert(&right_key, [2u8; 32], 6).is_ok());
    let table = empty_table();
    let mut left = leaf_hash(&[1u8; 32], 4);
    let mut right = leaf_hash(&[2u8; 32], 6);
    for d in (1..256).rev() {
        let bit_left = (left_key[d / 8] >> (7 - d % 8)) & 1;
        let bit_right = (right_key[d / 8] >> (7 - d % 8)) & 1;
        left = if bit_left == 1 {
            branch_hash(&table[d + 1], &left, 4)
        } else {
            branch_hash(&left, &table[d + 1], 4)
        };
        right = if bit_right == 1 {
            branch_hash(&table[d + 1], &right, 6)
        } else {
            branch_hash(&right, &table[d + 1], 6)
        };
    }
    assert_eq!(t.root_hash().0, branch_hash(&left, &right, 10));
    assert_eq!(t.root_sum(), 10);
}

#[test]
fn sum_overflow_is_rejected() {
    let mut t = Tree::init();
    assert!(t.insert(&key_with_last(1), [0u8; 32], u64::MAX).is_ok());
    let hash = t.root_hash().0;
    assert_eq!(t.insert(&key_with_last(2), [0u8; 32], 1), Err(TreeError::SumOverflow));
    assert_eq!(t.root_hash().0, hash);
    assert_eq!(t.root_sum(), u64::MAX);
    assert_eq!(t.get(&key_with_last(2)), None);
    assert!(t.insert(&key_with_last(1), [0u8; 32], 1).is_ok());
    assert!(t.insert(&key_with_last(2), [0u8; 32], u64::MAX - 1).is_ok());
    assert_eq!(t.root_sum(), u64::MAX);
}

#[test]
fn fresh_proof_verifies() {
    let mut t = Tree::init();
    let k = key_with_last(3);
    assert!(t.insert(&k, [5u8; 32], 11).is_ok());
    let p: Proof = t.prove(&k);
    assert_eq!(p.leaf, Some(([5u8; 32], 11)));
    assert_eq!(p.siblings.len(), 256);
    assert!(p.verify(&t.root_hash(), t.root_sum()));
    assert!(!p.verify(&t.root_hash(), 12));
    assert!(!p.verify(&NodeHash::default(), t.root_sum()));
}

#[test]
fn old_proof_after_other_key_changes() {
    let mut t = Tree::init();
    let k = key_with_last(3);
    let k2 = [0x42u8; 32];
    assert!(t.insert(&k, [5u8; 32], 11).is_ok());
    let p = t.prove(&k);
    let old_hash = t.root_hash();
    let old_sum = t.root_sum();
    assert!(t.insert(&k2, [6u8; 32], 1).is_ok());
    assert!(p.verify(&old_hash, old_sum));
    assert!(!p.verify(&t.root_hash(), t.root_sum()));
    let fresh = t.prove(&k);
    assert!(fresh.verify(&t.root_hash(), t.root_sum()));
}

#[test]
fn absent_proof_on_empty_tree() {
    let mut t = Tree::init();
    let k = [0x11u8; 32];
    let p = t.prove(&k);
    assert_eq!(p.leaf, None);
    assert!(p.verify(&t.root_hash(), t.root_sum()));
    assert!(t.insert(&k, [9u8; 32], 2).is_ok());
    assert!(!p.verify(&t.root_hash(), t.root_sum()));
}

#[test]
fn proof_with_missing_siblings_fails() {
    let t = Tree::init();
    let mut p = t.prove(&[0u8; 32]);
    p.siblings.pop();
    assert!(!p.verify(&t.root_hash(), t.root_sum()));
}

#[test]
fn proof_with_overflowing_sums_fails() {
    let t = Tree::init();
    let mut p = t.prove(&[0u8; 32]);
    p.siblings[10] = ComputedNode::new(NodeHash::default(), u64::MAX);
    p.siblings[20] = ComputedNode::new(NodeHash::default(), u64::MAX);
    assert!(!p.verify(&t.root_hash(), 0));
}

#[test]
fn hex_round_trip() {
    let mut bytes = [0u8; 32];
    for (i, b) in bytes.iter_mut().enumerate() {
        *b = (i as u8).wrapping_mul(37);
    }
    let h = NodeHash::new(bytes);
    let text = h.to_hex();
    assert_eq!(text.len(), 64);
    assert_eq!(NodeHash::parse(&text).unwrap().0, bytes);
}

#[test]
fn hex_format_is_lowercase_big_endian() {
    let mut bytes = [0u8; 32];
    bytes[0] = 0xab;
    bytes[31] = 0x01;
    let text = NodeHash::new(bytes).to_hex();
    assert_eq!(text, format!("ab{}01", "0".repeat(60)));
}

#[test]
fn hex_parse_accepts_uppercase() {
    let text = "AB".repeat(32);
    assert_eq!(NodeHash::parse(&text).unwrap().0, [0xabu8; 32]);
}

#[test]
fn hex_parse_rejects_bad_length() {
    assert!(NodeHash::parse("").is_err());
    assert!(NodeHash::parse(&"0".repeat(63)).is_err());
    assert!(NodeHash::parse(&"0".repeat(66)).is_err());
}

#[test]
fn hex_parse_rejects_bad_digit() {
    let mut text = "0".repeat(63);
    text.push('g');
    assert!(NodeHash::parse(&text).is_err());
    let mut wide = "0".repeat(62);
    wide.push('é');
    assert!(NodeHash::parse(&wide).is_err());
}

#[test]
fn default_hash_is_zero() {
    assert_eq!(NodeHash::default().0, [0u8; 32]);
}

#[test]
fn leaf_digest_and_emptiness() {
    let leaf = LeafNode::new([3u8; 32], 9);
    assert_eq!(leaf.hash.0, leaf_hash(&[3u8; 32], 9));
    assert!(!leaf.is_empty());
    assert!(!LeafNode::default().is_empty());
    assert_eq!(LeafNode::default().hash.0, empty_table()[256]);
    assert!(!LeafNode::new([0u8; 32], 1).is_empty());
}

#[test]
fn branch_new_sums_and_hashes() {
    let left = Node::Leaf(LeafNode::new([1u8; 32], 2));
    let right = Node::Compacted(ComputedNode::new(NodeHash::new([4u8; 32]), 5));
    let lh = left.hash().0;
    let b = BranchNode::new(left, right);
    assert_eq!(b.sum, 7);
    assert_eq!(b.hash.0, branch_hash(&lh, &[4u8; 32], 7));
    let n = Node::Branch(b);
    assert_eq!(n.kind(), NodeKind::Branch);
    assert_eq!(n.sum(), 7);
}

fn check_sums(n: &Node) -> u64 {
    match n {
        Node::Branch(b) => {
            let total = check_sums(&b.left) + check_sums(&b.right);
            assert_eq!(b.sum, total);
            assert!(!(b.left.kind() == NodeKind::Empty && b.right.kind() == NodeKind::Empty));
            total
        }
        other => other.sum(),
    }
}

#[test]
fn random_trees_keep_branch_sums() {
    let mut state: u64 = 0x9e3779b97f4a7c15;
    let mut next = move || {
        state ^= state << 13;
        state ^= state >> 7;
        state ^= state << 17;
        state
    };
    let mut t = Tree::init();
    let mut keys = Vec::new();
    for _ in 0..40 {
        let mut k = [0u8; 32];
        for chunk in k.chunks_mut(8) {
            chunk.copy_from_slice(&next().to_be_bytes());
        }
        let sum = next() % 1000;
        assert!(t.insert(&k, [(sum % 256) as u8; 32], sum).is_ok());
        assert_eq!(t.get(&k), Some(([(sum % 256) as u8; 32], sum)));
        keys.push((k, sum));
    }
    assert_eq!(check_sums(&t.root), keys.iter().map(|(_, s)| s).sum::<u64>());
    for (k, s) in &keys {
        let p = t.prove(k);
        assert_eq!(p.leaf.map(|l| l.1), Some(*s));
        assert!(p.verify(&t.root_hash(), t.root_sum()));
    }
    for (k, _) in keys.iter().step_by(2) {
        t.delete(k);
        check_sums(&t.root);
    }
    let remaining: u64 = keys.iter().skip(1).step_by(2).map(|(_, s)| s).sum();
    assert_eq!(t.root_sum(), remaining);
    for (k, _) in keys.iter().skip(1).step_by(2) {
        t.delete(k);
    }
    assert_eq!(t.root_hash().0, empty_table()[0]);
    assert_eq!(t.root_sum(), 0);
}
