use paxos_core::block::{
    calculate_difficulty, calculate_merkle_root, calculate_target, create_block, create_block_at,
    hash_meets_difficulty, proof_of_work, Block, BlockHeader, Transaction,
};
use sha2::{Digest, Sha256};

fn genesis(prev: u8, nonce: u32) -> Block {
    Block {
        header: BlockHeader {
            version: 1,
            prev_block: [prev; 32],
            merkle_root: [0; 32],
            timestamp: 1643723900,
            target: [0; 32],
            nonce,
        },
        transactions: vec![],
    }
}

/// Test that the Proof of Work function returns true when the hash meets the target
#[test]
fn test_proof_of_work_valid_hash() {
    let mut block = Block {
        header: BlockHeader {
            version: 1,
            prev_block: [0; 32],
            merkle_root: [0; 32],
            timestamp: 1643723900,
            target: [0; 32],
            nonce: 0,
        },
        transactions: vec![],
    };

    let difficulty = 1;
    block.header.target = calculate_target();
    assert!(proof_of_work(&mut block, difficulty));
}

/// Test that the Proof of Work function increments the nonce until it finds a valid hash
#[test]
fn test_proof_of_work_increments_nonce() {
    let mut block = Block {
        header: BlockHeader {
            version: 1,
            prev_block: [0; 32],
            merkle_root: [0; 32],
            timestamp: 1643723900,
            target: [0; 32],
            nonce: 0,
        },
        transactions: vec![],
    };

    let difficulty = 1;
    block.header.target = calculate_target();
    let initial_nonce = block.header.nonce;
    proof_of_work(&mut block, difficulty);
    assert!(block.header.nonce > initial_nonce);
}

/// Test that the Proof of Work function does not overflow the nonce
#[test]
fn test_proof_of_work_nonce_overflow() {
    let mut block = Block {
        header: BlockHeader {
            version: 1,
            prev_block: [0; 32],
            merkle_root: [0; 32],
            timestamp: 1643723900,
            target: [255; 32],
            nonce: u32::MAX,
        },
        transactions: vec![],
    };

    let difficulty = 1;
    assert!(!proof_of_work(&mut block, difficulty));
}

/// Test that the create_block function creates a block with a valid hash
#[test]
fn test_create_block_valid_hash() {
    let prev_block = Block {
        header: BlockHeader {
            version: 1,
            prev_block: [0; 32],
            merkle_root: [0; 32],
            timestamp: 1643723900,
            target: [0; 32],
            nonce: 0,
        },
        transactions: vec![],
    };

    let transactions = vec![];
    let block = create_block(&prev_block, transactions);
    assert!(proof_of_work(&mut block.clone(), 1));
}

/// Test that the create_block function creates a block with the correct previous block hash
#[test]
fn test_create_block_prev_block_hash() {
    let prev_block = Block {
        header: BlockHeader {
            version: 1,
            prev_block: [1; 32],
            merkle_root: [0; 32],
            timestamp: 1643723900,
            target: [0; 32],
            nonce: 0,
        },
        transactions: vec![],
    };

    let transactions = vec![];
    let block = create_block(&prev_block, transactions);
    assert_eq!(block.header.prev_block, prev_block.header.hash());
}

/// Test that the create_block function creates a block with the correct Merkle root
#[test]
fn test_create_block_merkle_root() {
    let prev_block = Block {
        header: BlockHeader {
            version: 1,
            prev_block: [0; 32],
            merkle_root: [0; 32],
            timestamp: 1643723900,
            target: [0; 32],
            nonce: 0,
        },
        transactions: vec![],
    };

    let transactions: Vec<Transaction> = vec![];
    let block = create_block(&prev_block, transactions.clone());
    assert_eq!(block.header.merkle_root, calculate_merkle_root(&transactions));
}

/// Test that the create_block function creates a block with the correct timestamp
#[test]
fn test_create_block_timestamp() {
    let prev_block = Block {
        header: BlockHeader {
            version: 1,
            prev_block: [0; 32],
            merkle_root: [0; 32],
            timestamp: 1643723900,
            target: [0; 32],
            nonce: 0,
        },
        transactions: vec![],
    };

    let transactions = vec![];
    let block = create_block(&prev_block, transactions);
    assert!(block.header.timestamp >= prev_block.header.timestamp);
}

/// Test that the create_block function creates a block with the correct target
#[test]
fn test_create_block_target() {
    let prev_block = Block {
        header: BlockHeader {
            version: 1,
            prev_block: [0; 32],
            merkle_root: [0; 32],
            timestamp: 1643723900,
            target: [0; 32],
            nonce: 0,
        },
        transactions: vec![],
    };

    let transactions = vec![];
    let block = create_block(&prev_block, transactions);
    assert_eq!(block.header.target, calculate_target());
}

#[test]
fn header_hash_is_sha256_of_the_serialised_fields() {
    let header = BlockHeader {
        version: 0x01020304,
        prev_block: [7; 32],
        merkle_root: [9; 32],
        timestamp: 1643723900,
        target: [3; 32],
        nonce: 0x0a0b0c0d,
    };
    let bytes = header.to_bytes();
    assert_eq!(bytes.len(), 108);
    assert_eq!(&bytes[0..4], &[4, 3, 2, 1]);
    assert_eq!(&bytes[4..36], &[7u8; 32]);
    assert_eq!(&bytes[36..68], &[9u8; 32]);
    assert_eq!(&bytes[68..72], &1643723900u32.to_le_bytes());
    assert_eq!(&bytes[72..104], &[3u8; 32]);
    assert_eq!(&bytes[104..108], &[0x0d, 0x0c, 0x0b, 0x0a]);
    let expected: [u8; 32] = Sha256::digest(&bytes).into();
    assert_eq!(header.hash(), expected);
    assert_ne!(header.hash().to_vec(), bytes);
}

#[test]
fn sha256_of_empty_header_free_input_matches_the_known_digest() {
    // The Merkle root of one transaction is the SHA-256 of its payload.
    let root = calculate_merkle_root(&vec![Transaction { data: b"abc".to_vec() }]);
    let hex: String = root.iter().map(|b| format!("{:02x}", b)).collect();
    assert_eq!(hex, "ba7816bf8f01cfea414140de5dae2223b00361a396177a9cb410ff61f20015ad");
}

#[test]
fn merkle_root_of_no_transactions_is_zero() {
    assert_eq!(calculate_merkle_root(&vec![]), [0u8; 32]);
}

#[test]
fn merkle_root_pairs_and_repeats_the_odd_last() {
    let txs: Vec<Transaction> =
        vec![b"a".to_vec(), b"b".to_vec(), b"c".to_vec()].into_iter().map(|data| Transaction { data }).collect();
    let h = |d: &[u8]| -> [u8; 32] { Sha256::digest(d).into() };
    let cat = |l: [u8; 32], r: [u8; 32]| -> [u8; 32] {
        let mut v = l.to_vec();
        v.extend_from_slice(&r);
        Sha256::digest(&v).into()
    };
    let (a, b, c) = (h(b"a"), h(b"b"), h(b"c"));
    let expected = cat(cat(a, b), cat(c, c));
    assert_eq!(calculate_merkle_root(&txs), expected);
    let two = cat(a, b);
    assert_eq!(calculate_merkle_root(&txs[0..2].to_vec()), two);
}

#[test]
fn difficulty_and_target_agree() {
    assert_eq!(calculate_difficulty(), 8);
    let mut expected = [0xffu8; 32];
    expected[0] = 0;
    assert_eq!(calculate_target(), expected);
}

#[test]
fn hash_meets_difficulty_counts_leading_zero_bytes() {
    let mut hash = [0xffu8; 32];
    assert!(hash_meets_difficulty(&hash, 0));
    assert!(hash_meets_difficulty(&hash, 7));
    assert!(!hash_meets_difficulty(&hash, 8));
    hash[0] = 0;
    assert!(hash_meets_difficulty(&hash, 8));
    assert!(hash_meets_difficulty(&hash, 15));
    assert!(!hash_meets_difficulty(&hash, 16));
    let zero = [0u8; 32];
    assert!(hash_meets_difficulty(&zero, 256));
    assert!(hash_meets_difficulty(&zero, 263));
    assert!(!hash_meets_difficulty(&zero, 264));
}

#[test]
fn proof_of_work_finds_the_first_working_nonce() {
    let mut block = genesis(5, 10);
    let before = block.header;
    assert!(proof_of_work(&mut block, 8));
    let found = block.header.nonce;
    assert!(found > 10);
    assert_eq!(block.header.hash()[0], 0);
    assert_eq!(BlockHeader { nonce: before.nonce, ..block.header }, before);
    for n in 11..found {
        let h = BlockHeader { nonce: n, ..before };
        assert_ne!(h.hash()[0], 0);
    }
}

#[test]
fn proof_of_work_leaves_the_block_when_no_nonce_is_left() {
    let mut block = genesis(5, u32::MAX);
    let before = block.header;
    assert!(!proof_of_work(&mut block, 8));
    assert_eq!(block.header, before);
}

#[test]
fn create_block_at_fills_the_header() {
    let prev = genesis(2, 0);
    let txs = vec![Transaction { data: vec![1, 2, 3] }];
    let block = create_block_at(&prev, txs.clone(), 1700000000);
    assert_eq!(block.header.version, 1);
    assert_eq!(block.header.prev_block, prev.header.hash());
    assert_eq!(block.header.merkle_root, calculate_merkle_root(&txs));
    assert_eq!(block.header.timestamp, 1700000000);
    assert_eq!(block.header.target, calculate_target());
    assert!(block.header.nonce > 0);
    assert_eq!(block.header.hash()[0], 0);
    assert_eq!(block.transactions.len(), 1);
    assert_eq!(block.transactions[0].data, vec![1, 2, 3]);
}
