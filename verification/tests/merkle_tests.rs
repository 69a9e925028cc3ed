use crypto::digest::Digest;
use crypto::sha3::Sha3;
use merkle_store::client::check_hashes_against_tophash;
use merkle_store::merkle::Merkle;

fn sha3_hex(data: &[u8]) -> String {
    let mut h = Sha3::sha3_256();
    h.input(data);
    h.result_str()
}

fn pair(left: Option<&str>, right: Option<&str>) -> String {
    let mut buf = Vec::new();
    if let Some(l) = left {
        buf.extend_from_slice(l.as_bytes());
    }
    if let Some(r) = right {
        buf.extend_from_slice(r.as_bytes());
    }
    sha3_hex(&buf)
}

#[test]
fn empty_tree_has_no_root() {
    let m = Merkle::make_tree();
    assert_eq!(m.file_count(), 0);
    assert_eq!(m.get_root_hash(), Err("No files in merkle tree"));
    assert!(m.tree.iter().all(|n| n.is_none()));
    assert!(m.files.iter().all(|f| f.is_none()));
}

#[test]
fn sha3_of_empty_input_is_the_standard_value() {
    let mut m = Merkle::make_tree();
    m.add_file(b"");
    assert_eq!(
        m.tree[8].as_deref(),
        Some("a7ffc6f8bf1ed76651c14756a061d662f580ff4de43b49fa82d80a4b80f8434a")
    );
}

#[test]
fn one_file_root_is_chain_of_left_hashes() {
    let mut m = Merkle::make_tree();
    m.add_file(b"hello");
    let leaf = sha3_hex(b"hello");
    let n4 = pair(Some(&leaf), None);
    let n2 = pair(Some(&n4), None);
    let n1 = pair(Some(&n2), None);
    assert_eq!(m.file_count(), 1);
    assert_eq!(m.tree[8].as_deref(), Some(leaf.as_str()));
    assert_eq!(m.tree[4].as_deref(), Some(n4.as_str()));
    assert_eq!(m.get_root_hash(), Ok(n1));
    assert_eq!(m.files[1].as_deref(), Some(&b"hello"[..]));
    assert!(m.tree[3].is_none());
    assert!(m.tree[9].is_none());
}

#[test]
fn three_files_tree_matches_hand_computation() {
    let mut m = Merkle::make_tree();
    m.add_file(b"a");
    m.add_file(b"b");
    m.add_file(b"c");
    let (a, b, c) = (sha3_hex(b"a"), sha3_hex(b"b"), sha3_hex(b"c"));
    let n4 = pair(Some(&a), Some(&b));
    let n5 = pair(Some(&c), None);
    let n2 = pair(Some(&n4), Some(&n5));
    let n1 = pair(Some(&n2), None);
    assert_eq!(m.tree[5].as_deref(), Some(n5.as_str()));
    assert_eq!(m.get_root_hash(), Ok(n1));
    assert_eq!(m.file_count(), 3);
}

#[test]
fn full_tree_of_eight_files() {
    let mut m = Merkle::make_tree();
    for i in 0..8u8 {
        m.add_file(&[i]);
    }
    assert_eq!(m.file_count(), 8);
    let l: Vec<String> = (0..8u8).map(|i| sha3_hex(&[i])).collect();
    let n: Vec<String> = (0..4).map(|j| pair(Some(&l[2 * j]), Some(&l[2 * j + 1]))).collect();
    let n2 = pair(Some(&n[0]), Some(&n[1]));
    let n3 = pair(Some(&n[2]), Some(&n[3]));
    assert_eq!(m.get_root_hash(), Ok(pair(Some(&n2), Some(&n3))));
}

#[test]
fn same_files_same_tree() {
    let mut a = Merkle::make_tree();
    let mut b = Merkle::make_tree();
    for f in [&b"x"[..], &b"yy"[..], &b"zzz"[..]] {
        a.add_file(f);
        b.add_file(f);
    }
    assert_eq!(a.tree, b.tree);
    assert_eq!(a.get_root_hash(), b.get_root_hash());
}

#[test]
fn adding_a_file_keeps_earlier_leaves() {
    let mut m = Merkle::make_tree();
    m.add_file(b"first");
    let leaf = m.tree[8].clone();
    m.add_file(b"second");
    assert_eq!(m.tree[8], leaf);
    assert_eq!(m.tree[9].as_deref(), Some(sha3_hex(b"second").as_str()));
    assert_ne!(m.get_root_hash(), Ok(pair(Some(&pair(Some(&pair(leaf.as_deref(), None)), None)), None)));
}

#[test]
fn complement_nodes_of_first_file() {
    let mut m = Merkle::make_tree();
    m.add_file(b"a");
    m.add_file(b"b");
    m.add_file(b"c");
    let (files, hashes) = m.get_complement_nodes(1);
    assert_eq!(files, vec![b"a".to_vec()]);
    // path of leaf 8: sibling 9 (b), sibling 5 of node 4, node 3 absent
    let (b, c) = (sha3_hex(b"b"), sha3_hex(b"c"));
    assert_eq!(hashes, vec![b, pair(Some(&c), None)]);
}

#[test]
fn complement_nodes_of_second_file() {
    let mut m = Merkle::make_tree();
    m.add_file(b"a");
    m.add_file(b"b");
    m.add_file(b"c");
    let (files, hashes) = m.get_complement_nodes(2);
    assert_eq!(files, vec![b"b".to_vec()]);
    // path of leaf 9: sibling 8 (a), sibling 5 of node 4, node 3 absent
    let (a, c) = (sha3_hex(b"a"), sha3_hex(b"c"));
    assert_eq!(hashes, vec![a, pair(Some(&c), None)]);
}

#[test]
fn complement_nodes_of_third_file() {
    let mut m = Merkle::make_tree();
    m.add_file(b"a");
    m.add_file(b"b");
    m.add_file(b"c");
    let (files, hashes) = m.get_complement_nodes(3);
    assert_eq!(files, vec![b"c".to_vec()]);
    // path of leaf 10: sibling 11 absent, sibling 4 of node 5, node 3 absent
    let (a, b) = (sha3_hex(b"a"), sha3_hex(b"b"));
    assert_eq!(hashes, vec![pair(Some(&a), Some(&b))]);
}

#[test]
fn complement_nodes_give_the_sibling_leaf_hash() {
    let mut m = Merkle::make_tree();
    m.add_file(b"abc");
    m.add_file(b"");
    assert_eq!(
        m.get_complement_nodes(1),
        (
            vec![b"abc".to_vec()],
            vec!["a7ffc6f8bf1ed76651c14756a061d662f580ff4de43b49fa82d80a4b80f8434a".to_string()]
        )
    );
}

#[test]
fn eighth_file_has_a_full_proof() {
    let mut m = Merkle::make_tree();
    for i in 0..8u8 {
        m.add_file(&[i]);
    }
    let (files, hashes) = m.get_complement_nodes(8);
    assert_eq!(files, vec![vec![7u8]]);
    assert_eq!(hashes, vec![
        m.tree[14].clone().unwrap(),
        m.tree[6].clone().unwrap(),
        m.tree[2].clone().unwrap(),
    ]);
}

#[test]
fn served_proof_of_first_file_verifies_with_five_files() {
    let mut m = Merkle::make_tree();
    let files: Vec<Vec<u8>> = (0..5u8).map(|i| vec![i, i]).collect();
    for f in &files {
        m.add_file(f);
    }
    let root = m.get_root_hash().unwrap();
    let (_, hashes) = m.get_complement_nodes(1);
    assert_eq!(hashes.len(), 3);
    assert!(check_hashes_against_tophash(root.clone(), &files[0], &hashes));
    assert!(!check_hashes_against_tophash(root, &files[1], &hashes));
}

#[test]
fn client_accepts_first_file_with_its_own_path() {
    let mut m = Merkle::make_tree();
    m.add_file(b"a");
    m.add_file(b"b");
    m.add_file(b"c");
    let root = m.get_root_hash().unwrap();
    let siblings = vec![
        m.tree[9].clone().unwrap(),
        m.tree[5].clone().unwrap(),
        "empty".to_string(),
    ];
    assert!(check_hashes_against_tophash(root.clone(), b"a", &siblings));
    assert!(!check_hashes_against_tophash(root, b"not a", &siblings));
}

#[test]
fn served_proof_of_single_file_leaves_out_absent_siblings() {
    let mut m = Merkle::make_tree();
    m.add_file(b"only");
    let root = m.get_root_hash().unwrap();
    let (_, hashes) = m.get_complement_nodes(1);
    assert!(hashes.is_empty());
    // without the absent marker the client's fold stops at the leaf
    assert!(!check_hashes_against_tophash(root.clone(), b"only", &hashes));
    let marked = vec!["empty".to_string(), "empty".to_string(), "empty".to_string()];
    assert!(check_hashes_against_tophash(root, b"only", &marked));
}

#[test]
fn client_check_with_no_siblings_compares_file_hash() {
    let h = sha3_hex(b"data");
    assert!(check_hashes_against_tophash(h.clone(), b"data", &vec![]));
    assert!(!check_hashes_against_tophash(h, b"other", &vec![]));
}

#[test]
fn client_check_folds_left_with_empty_marker() {
    let leaf = sha3_hex(b"data");
    let sib = sha3_hex(b"sib");
    let top = pair(Some(&pair(Some(&leaf), Some(&sib))), None);
    let siblings = vec![sib, "empty".to_string()];
    assert!(check_hashes_against_tophash(top, b"data", &siblings));
}

#[test]
fn each_stored_file_checks_against_its_own_leaf() {
    let mut m = Merkle::make_tree();
    let files: Vec<Vec<u8>> = vec![b"a".to_vec(), vec![0xff, 0xfe], b"third".to_vec()];
    for f in &files {
        m.add_file(f);
    }
    for k in 1..=files.len() {
        let leaf = m.tree[k + 7].clone().unwrap();
        assert!(check_hashes_against_tophash(leaf, &files[k - 1], &vec![]));
    }
}
