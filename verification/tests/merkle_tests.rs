use paxos_core::merkle::{Direction, MerkleTree, MerkleTreeError, ProofOfInclusion};
use sha3::{Digest, Sha3_256};

fn hashes_of(data: &[&str]) -> Vec<String> {
    data.iter().map(|d| MerkleTree::get_hash_of(d.as_bytes())).collect()
}

fn big_data() -> Vec<&'static str> {
    vec![
        "something00",
        "something01",
        "something02",
        "something03",
        "something04",
        "something05",
        "something06",
        "something07",
        "something08",
        "something09",
        "something010",
        "something011",
        "something012",
        "something013",
        "something014",
        "something015",
        "something016",
        "something017",
        "something018",
        "something019",
        "something020",
        "something021",
        "something022",
        "something023",
        "something024",
        "something025",
        "something026",
        "something027",
        "something028",
        "something029",
        "something030",
        "something031",
    ]
}

fn sha3_hex(data: &[u8]) -> String {
    Sha3_256::digest(data).iter().map(|b| format!("{:02x}", b)).collect()
}

#[test]
fn build_simple_tree() {
    let data = vec![[1; 32], [2; 32], [3; 32], [4; 32]];
    let hashed: Vec<String> = data.iter().map(|d: &[u8; 32]| MerkleTree::get_hash_of(d)).collect();

    let tree = MerkleTree::new_from_hashes(hashed).unwrap();

    println!("LEVEL 1: {:?}", tree.levels()[0]);
    println!("LEVEL 2: {:?}", tree.levels()[1]);
    println!("LEVEL 3: {:?}", tree.levels()[2]);

    let mut hasher = Sha3_256::new();
    hasher.update([1; 32]);
    let result = hasher.finalize();

    let hash: [u8; 32] = result.into();
    println!("HASH 1: {:?}", hash);

    assert_eq!(tree.levels().len(), 3);
    assert_eq!(tree.levels()[0].len(), 4);
    assert_eq!(tree.levels()[1].len(), 2);
    assert_eq!(tree.levels()[2].len(), 1);
}

#[test]
fn build_simple_tree_from_strings() {
    let data = vec!["something00", "something01", "something02", "something03"];

    let tree = MerkleTree::new_from_hashes(hashes_of(&data)).unwrap();

    assert_eq!(tree.levels().len(), 3);
    assert_eq!(tree.levels()[0].len(), 4);
    assert_eq!(tree.levels()[1].len(), 2);
    assert_eq!(tree.levels()[2].len(), 1);
}

#[test]
fn verify_inclusion_in_simple_tree_from_strings() {
    let data = vec![
        "something00",
        "something01",
        "something02",
        "something03",
        "something04",
    ];

    let tree = MerkleTree::new_from_hashes(hashes_of(&data)).unwrap();

    let hash = MerkleTree::get_hash_of("something04".as_bytes());
    println!("HASH: {:?}", hash);

    assert!(tree.verify_with_index(&hash, 4));
}

#[test]
fn verify_inclusion_in_big_tree_from_strings() {
    let data = big_data();

    let tree = MerkleTree::new_from_hashes(hashes_of(&data)).unwrap();

    let hash = MerkleTree::get_hash_of("something017".as_bytes());

    assert!(tree.verify_with_index(&hash, 17));
}

#[test]
fn proof_of_inclusion_in_big_tree_from_strings() {
    let data = big_data();

    let tree = MerkleTree::new_from_hashes(hashes_of(&data)).unwrap();

    let hash = MerkleTree::get_hash_of("something017".as_bytes());

    let proof = tree.proof_of_inclusion(&hash).unwrap();

    assert_eq!(proof.leaf(), &hash);
    assert_eq!(proof.path().len(), 5);
}

#[test]
#[should_panic]
fn proof_of_inclusion_fails() {
    let mut data = big_data();
    data.truncate(32);

    let tree = MerkleTree::new_from_hashes(hashes_of(&data)).unwrap();

    let hash = MerkleTree::get_hash_of("not in the tree".as_bytes());

    let _proof = tree.proof_of_inclusion(&hash).unwrap();
}

#[test]
fn add_to_tree() {
    let data = vec![
        "something00",
        "something01",
        "something02",
        "something03",
        "something04",
        "something05",
        "something06",
        "something07",
        "something08",
        "something09",
        "something010",
        "something011",
        "something012",
        "something013",
        "something014",
        "something015",
        "something016",
    ];

    let mut tree = MerkleTree::new_from_hashes(hashes_of(&data)).unwrap();
    println!("TREE BEFORE ADDING:");

    let new_data = MerkleTree::get_hash_of("something099".as_bytes());
    let _ = tree.add_hash(new_data.clone());

    assert!(tree.verify(&new_data));

    let proof = tree.proof_of_inclusion(&new_data).unwrap();
    println!("PROOF OF ADDED:");
    println!("{:?}", proof);

    println!("TREE AFTER ADDING:");
}

#[test]
fn get_hash_of_is_hex_of_sha3_256() {
    assert_eq!(
        MerkleTree::get_hash_of(b""),
        "a7ffc6f8bf1ed76651c14756a061d662f580ff4de43b49fa82d80a4b80f8434a"
    );
    assert_eq!(MerkleTree::get_hash_of(b"something04"), sha3_hex(b"something04"));
    assert_ne!(MerkleTree::get_hash_of(b"something04"), "something04");
}

#[test]
fn combine_hashes_hashes_the_concatenation() {
    let l = "ab".to_string();
    let r = "cd".to_string();
    assert_eq!(MerkleTree::combine_hashes(&l, &r), sha3_hex(b"abcd"));
    assert_ne!(MerkleTree::combine_hashes(&l, &r), MerkleTree::combine_hashes(&r, &l));
}

#[test]
fn bytes_to_hex_is_lower_case_two_digits() {
    assert_eq!(MerkleTree::bytes_to_hex(&[]), "");
    assert_eq!(MerkleTree::bytes_to_hex(&[0x00, 0x0f, 0xa0, 0xff, 0x5c]), "000fa0ff5c");
}

#[test]
fn empty_list_is_refused() {
    match MerkleTree::new_from_hashes(vec![]) {
        Err(MerkleTreeError::FailedToBuild(m)) => assert_eq!(m, "No last element in hashes"),
        other => panic!("unexpected: {:?}", other),
    }
}

#[test]
fn odd_levels_are_padded_with_their_last_hash() {
    let leaves: Vec<String> = vec!["a", "b", "c", "d", "e"].into_iter().map(String::from).collect();
    let tree = MerkleTree::new_from_hashes(leaves).unwrap();
    let levels = tree.levels();
    assert_eq!(levels.len(), 4);
    assert_eq!(levels[0], vec!["a", "b", "c", "d", "e", "e"]);
    let c = |l: &str, r: &str| MerkleTree::combine_hashes(&l.to_string(), &r.to_string());
    let (ab, cd, ee) = (c("a", "b"), c("c", "d"), c("e", "e"));
    assert_eq!(levels[1], vec![ab.clone(), cd.clone(), ee.clone(), ee.clone()]);
    let (abcd, eeee) = (c(&ab, &cd), c(&ee, &ee));
    assert_eq!(levels[2], vec![abcd.clone(), eeee.clone()]);
    assert_eq!(levels[3], vec![c(&abcd, &eeee)]);
    assert_eq!(tree.root(), Some(&c(&abcd, &eeee)));
}

#[test]
fn single_leaf_is_its_own_root() {
    let tree = MerkleTree::new_from_hashes(vec!["only".to_string()]).unwrap();
    assert_eq!(tree.levels().len(), 1);
    assert_eq!(tree.root(), Some(&"only".to_string()));
    assert!(tree.verify(&"only".to_string()));
    assert!(tree.verify_with_index(&"only".to_string(), 0));
    let proof = tree.proof_of_inclusion_with_index(&"only".to_string(), 0).unwrap();
    assert_eq!(proof.path().len(), 0);
    assert_eq!(proof.computed_root(), "only");
}

#[test]
fn proof_lists_siblings_with_their_sides() {
    let leaves: Vec<String> = vec!["a", "b", "c", "d"].into_iter().map(String::from).collect();
    let tree = MerkleTree::new_from_hashes(leaves).unwrap();
    let c = |l: &str, r: &str| MerkleTree::combine_hashes(&l.to_string(), &r.to_string());
    let proof = tree.proof_of_inclusion_with_index(&"c".to_string(), 2).unwrap();
    assert_eq!(proof.leaf(), "c");
    assert_eq!(
        proof.path(),
        &vec![("d".to_string(), Direction::Right), (c("a", "b"), Direction::Left)]
    );
    assert_eq!(&proof.computed_root(), tree.root().unwrap());
    let proof = tree.proof_of_inclusion(&"b".to_string()).unwrap();
    assert_eq!(
        proof.path(),
        &vec![("a".to_string(), Direction::Left), (c("c", "d"), Direction::Right)]
    );
}

#[test]
fn wrong_leaf_at_index_is_refused() {
    let leaves: Vec<String> = vec!["a", "b", "c", "d"].into_iter().map(String::from).collect();
    let tree = MerkleTree::new_from_hashes(leaves).unwrap();
    assert!(!tree.verify_with_index(&"a".to_string(), 1));
    assert!(!tree.verify(&"z".to_string()));
    match tree.proof_of_inclusion_with_index(&"a".to_string(), 1) {
        Err(MerkleTreeError::InvalidHash(m)) => assert_eq!(m, "Hash is not part of the tree"),
        other => panic!("unexpected: {:?}", other),
    }
    match tree.proof_of_inclusion(&"z".to_string()) {
        Err(MerkleTreeError::InvalidHash(m)) => assert_eq!(m, "Hash is not part of the tree"),
        other => panic!("unexpected: {:?}", other),
    }
}

#[test]
fn a_forged_proof_leads_elsewhere() {
    let leaves: Vec<String> = vec!["a", "b", "c", "d"].into_iter().map(String::from).collect();
    let tree = MerkleTree::new_from_hashes(leaves).unwrap();
    let forged = ProofOfInclusion::new_from(
        "c".to_string(),
        vec![("x".to_string(), Direction::Right)],
    );
    assert_ne!(&forged.computed_root(), tree.root().unwrap());
}

#[test]
fn add_hash_overwrites_padding_or_appends() {
    let leaves: Vec<String> = vec!["a", "b", "c"].into_iter().map(String::from).collect();
    let mut tree = MerkleTree::new_from_hashes(leaves).unwrap();
    assert_eq!(tree.levels()[0], vec!["a", "b", "c", "c"]);
    tree.add_hash("d".to_string()).unwrap();
    assert_eq!(tree.levels()[0], vec!["a", "b", "c", "d"]);
    tree.add_hash("e".to_string()).unwrap();
    assert_eq!(tree.levels()[0], vec!["a", "b", "c", "d", "e", "e"]);
    assert_eq!(tree.levels().len(), 4);
    match tree.add_hash("b".to_string()) {
        Err(MerkleTreeError::HashAlreadyExists(m)) => {
            assert_eq!(m, "Hash is already contained in the tree")
        },
        other => panic!("unexpected: {:?}", other),
    }
    assert_eq!(tree.levels()[0], vec!["a", "b", "c", "d", "e", "e"]);
}

#[test]
fn remove_hash_rebuilds_and_may_empty_the_tree() {
    let leaves: Vec<String> = vec!["a", "b", "c", "d"].into_iter().map(String::from).collect();
    let mut tree = MerkleTree::new_from_hashes(leaves).unwrap();
    tree.remove_hash(&"z".to_string());
    assert_eq!(tree.levels()[0], vec!["a", "b", "c", "d"]);
    tree.remove_hash(&"b".to_string());
    assert_eq!(tree.levels()[0], vec!["a", "c", "d", "d"]);
    assert!(!tree.verify(&"b".to_string()));
    assert!(tree.verify(&"c".to_string()));

    let mut one = MerkleTree::new_from_hashes(vec!["only".to_string()]).unwrap();
    one.remove_hash(&"only".to_string());
    assert_eq!(one.levels().len(), 1);
    assert_eq!(one.levels()[0].len(), 0);
    assert_eq!(one.root(), None);
    assert!(!one.verify(&"only".to_string()));
    one.add_hash("next".to_string()).unwrap();
    assert_eq!(one.root(), Some(&"next".to_string()));
}
