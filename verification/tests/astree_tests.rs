use astree::{ASError, ASTree, CipherSuite, RosterIndex, SenderRatchet};
use astree::astree::ASTreeNode;
use astree::kdf::ApplicationContext;

const CIPHER: CipherSuite = CipherSuite::MLS10_128_HPKEX25519_CHACHA20POLY1305_SHA256_Ed25519;

#[test]
fn test_boundaries() {
    let ciphersuite = CIPHER;
    let mut astree = ASTree::new(ciphersuite, &[0u8; 32], RosterIndex::from(2u32));
    assert!(astree.get_secret(RosterIndex::from(0u32), 0).is_ok());
    assert!(astree.get_secret(RosterIndex::from(1u32), 0).is_ok());
    assert!(astree.get_secret(RosterIndex::from(0u32), 1).is_ok());
    assert!(astree.get_secret(RosterIndex::from(0u32), 1_000).is_ok());
    assert_eq!(
        astree.get_secret(RosterIndex::from(1u32), 1001),
        Err(ASError::TooDistantInTheFuture)
    );
    assert!(astree.get_secret(RosterIndex::from(0u32), 996).is_ok());
    assert_eq!(
        astree.get_secret(RosterIndex::from(0u32), 995),
        Err(ASError::TooDistantInThePast)
    );
    assert_eq!(
        astree.get_secret(RosterIndex::from(2u32), 0),
        Err(ASError::IndexOutOfBounds)
    );
    let mut largetree = ASTree::new(ciphersuite, &[0u8; 32], RosterIndex::from(100_000u32));
    assert!(largetree.get_secret(RosterIndex::from(0u32), 0).is_ok());
    assert!(largetree
        .get_secret(RosterIndex::from(99_999u32), 0)
        .is_ok());
    assert!(largetree
        .get_secret(RosterIndex::from(99_999u32), 1_000)
        .is_ok());
    assert_eq!(
        largetree.get_secret(RosterIndex::from(100_000u32), 0),
        Err(ASError::IndexOutOfBounds)
    );
}

#[test]
fn future_bound_on_fresh_tree() {
    let mut tree = ASTree::new(CIPHER, &[0u8; 32], RosterIndex::from(2u32));
    assert_eq!(
        tree.get_secret(RosterIndex::from(0u32), 1001),
        Err(ASError::TooDistantInTheFuture)
    );
    assert!(tree.get_secret(RosterIndex::from(0u32), 1000).is_ok());
}

#[test]
fn out_of_bounds_sender() {
    let mut tree = ASTree::new(CIPHER, &[0u8; 32], RosterIndex::from(2u32));
    assert_eq!(
        tree.get_secret(RosterIndex::from(2u32), 0),
        Err(ASError::IndexOutOfBounds)
    );
}

#[test]
fn erasure_after_first_touch() {
    // size 4: node array has 7 slots, root 3, leaf 0's intermediate ancestor
    // 1; the sibling subtree of the root stays live exactly at node 5
    let mut tree = ASTree::new(CIPHER, &[0u8; 32], RosterIndex::from(4u32));
    assert!(tree.node_is_live(3));
    assert!(tree.get_secret(RosterIndex::from(0u32), 0).is_ok());
    assert!(!tree.node_is_live(3));
    assert!(!tree.node_is_live(1));
    assert!(!tree.node_is_live(0));
    assert!(tree.node_is_live(5));
    assert!(!tree.node_is_live(4));
    assert!(!tree.node_is_live(6));
    assert!(tree.node_is_live(2));
}

#[test]
fn determinism_across_trees() {
    let mut t1 = ASTree::new(CIPHER, &[7u8; 32], RosterIndex::from(3u32));
    let mut t2 = ASTree::new(CIPHER, &[7u8; 32], RosterIndex::from(3u32));
    for (sender, generation) in [(0u32, 0u32), (2, 5), (1, 3), (0, 2), (2, 4)] {
        let a = t1.get_secret(RosterIndex::from(sender), generation);
        let b = t2.get_secret(RosterIndex::from(sender), generation);
        assert_eq!(a, b);
    }
}

#[test]
fn out_of_order_lookup_matches_first_request() {
    // size 2: asking generation 3 first and then 1 gives the same bytes for
    // generation 1 as asking 1 first on an identical tree
    let mut t1 = ASTree::new(CIPHER, &[0u8; 32], RosterIndex::from(2u32));
    let mut t2 = ASTree::new(CIPHER, &[0u8; 32], RosterIndex::from(2u32));
    assert!(t1.get_secret(RosterIndex::from(0u32), 3).is_ok());
    let late = t1.get_secret(RosterIndex::from(0u32), 1).unwrap();
    let first = t2.get_secret(RosterIndex::from(0u32), 1).unwrap();
    assert_eq!(late, first);
}

#[test]
fn window_lookup_is_idempotent() {
    let mut tree = ASTree::new(CIPHER, &[1u8; 32], RosterIndex::from(2u32));
    assert!(tree.get_secret(RosterIndex::from(0u32), 5).is_ok());
    let x = tree.get_secret(RosterIndex::from(0u32), 3).unwrap();
    let y = tree.get_secret(RosterIndex::from(0u32), 3).unwrap();
    assert_eq!(x, y);
    assert_eq!(tree.get_generation(RosterIndex::from(0u32)), 5);
}

#[test]
fn past_window_boundary() {
    let mut tree = ASTree::new(CIPHER, &[1u8; 32], RosterIndex::from(2u32));
    assert!(tree.get_secret(RosterIndex::from(0u32), 9).is_ok());
    assert!(tree.get_secret(RosterIndex::from(0u32), 5).is_ok());
    assert_eq!(
        tree.get_secret(RosterIndex::from(0u32), 4),
        Err(ASError::TooDistantInThePast)
    );
}

#[test]
fn generation_is_monotonic() {
    let mut tree = ASTree::new(CIPHER, &[2u8; 32], RosterIndex::from(2u32));
    let sender = RosterIndex::from(0u32);
    assert_eq!(tree.get_generation(sender), 0);
    let mut last = 0u32;
    for generation in [0u32, 4, 2, 10, 9, 10, 12] {
        assert!(tree.get_secret(sender, generation).is_ok());
        let now = tree.get_generation(sender);
        assert!(now >= last);
        last = now;
    }
    assert_eq!(last, 12);
}

#[test]
fn derived_material_has_aead_shape() {
    // the derivation must transform the seed: a key equal to the input
    // secret or an empty buffer would both fail here
    let mut tree = ASTree::new(CIPHER, &[0u8; 32], RosterIndex::from(1u32));
    let secrets = tree.get_secret(RosterIndex::from(0u32), 0).unwrap();
    assert_eq!(secrets.key.as_slice().len(), 32);
    assert_eq!(secrets.nonce.as_slice().len(), 12);
    assert_ne!(secrets.key.as_slice(), [0u8; 32]);
    assert_ne!(secrets.nonce.as_slice(), [0u8; 12]);
    let other = tree.get_secret(RosterIndex::from(0u32), 1).unwrap();
    assert_ne!(secrets.key.as_slice(), other.key.as_slice());
}

#[test]
fn single_leaf_tree() {
    // root and leaf coincide; the ratchet is seeded straight from the root
    let mut tree = ASTree::new(CIPHER, &[3u8; 32], RosterIndex::from(1u32));
    assert!(tree.node_is_live(0));
    assert!(tree.get_secret(RosterIndex::from(0u32), 0).is_ok());
    assert!(!tree.node_is_live(0));
    assert_eq!(
        tree.get_secret(RosterIndex::from(1u32), 0),
        Err(ASError::IndexOutOfBounds)
    );
}

#[test]
fn ratchet_encoding_round_trip() {
    let mut ratchet = SenderRatchet::new(RosterIndex::from(3u32), &[9u8; 32], CIPHER);
    assert!(ratchet.get_secret(7).is_ok());
    let mut bytes: Vec<u8> = Vec::new();
    ratchet.encode(&mut bytes);
    let (decoded, consumed) = SenderRatchet::decode(bytes.as_slice(), 0).unwrap();
    assert_eq!(consumed, bytes.len());
    assert_eq!(decoded, ratchet);
}

#[test]
fn ratchet_decode_rejects_truncated_input() {
    let ratchet = SenderRatchet::new(RosterIndex::from(0u32), &[1u8; 32], CIPHER);
    let mut bytes: Vec<u8> = Vec::new();
    ratchet.encode(&mut bytes);
    bytes.pop();
    assert!(SenderRatchet::decode(bytes.as_slice(), 0).is_err());
}

#[test]
fn context_encoding_is_big_endian() {
    let ctx = ApplicationContext { node: 0x01020304, generation: 5 };
    let mut bytes: Vec<u8> = Vec::new();
    ctx.encode(&mut bytes);
    assert_eq!(bytes, vec![1u8, 2, 3, 4, 0, 0, 0, 5]);
    let (back, consumed) = ApplicationContext::decode(bytes.as_slice(), 0).unwrap();
    assert_eq!(consumed, 8);
    assert_eq!(back.node, 0x01020304);
    assert_eq!(back.generation, 5);
}

#[test]
fn node_encoding_round_trip() {
    let node = ASTreeNode { secret: vec![7u8; 32] };
    let mut bytes: Vec<u8> = Vec::new();
    node.encode(&mut bytes).unwrap();
    assert_eq!(bytes.len(), 33);
    assert_eq!(bytes[0], 32);
    let (back, consumed) = ASTreeNode::decode(bytes.as_slice(), 0).unwrap();
    assert_eq!(consumed, 33);
    assert_eq!(back, node);
}

#[test]
fn tree_encoding_round_trip() {
    // a reachable state: some ratchets installed, some node slots erased,
    // some still live
    let mut tree = ASTree::new(CIPHER, &[5u8; 32], RosterIndex::from(4u32));
    assert!(tree.get_secret(RosterIndex::from(0u32), 3).is_ok());
    assert!(tree.get_secret(RosterIndex::from(2u32), 0).is_ok());
    let mut bytes: Vec<u8> = Vec::new();
    tree.encode(&mut bytes).unwrap();
    let (decoded, consumed) = ASTree::decode(bytes.as_slice(), 0).unwrap();
    assert_eq!(consumed, bytes.len());
    assert_eq!(decoded, tree);
}

#[test]
fn fresh_tree_encoding_round_trip() {
    let tree = ASTree::new(CIPHER, &[0u8; 32], RosterIndex::from(2u32));
    let mut bytes: Vec<u8> = Vec::new();
    tree.encode(&mut bytes).unwrap();
    let (decoded, consumed) = ASTree::decode(bytes.as_slice(), 0).unwrap();
    assert_eq!(consumed, bytes.len());
    assert_eq!(decoded, tree);
}

#[test]
fn tree_decode_rejects_truncated_input() {
    let tree = ASTree::new(CIPHER, &[0u8; 32], RosterIndex::from(2u32));
    let mut bytes: Vec<u8> = Vec::new();
    tree.encode(&mut bytes).unwrap();
    bytes.pop();
    assert!(ASTree::decode(bytes.as_slice(), 0).is_err());
}

#[test]
fn wipe_erases_every_slot() {
    let mut tree = ASTree::new(CIPHER, &[4u8; 32], RosterIndex::from(4u32));
    assert!(tree.get_secret(RosterIndex::from(1u32), 2).is_ok());
    assert!(tree.node_is_live(5));
    tree.wipe();
    for node in 0..7u32 {
        assert!(!tree.node_is_live(node));
    }
}
