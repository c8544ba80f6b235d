use darts::keys::{key_less, keys_sorted};
use darts::{DartsError, DoubleArrayTrie, DoubleArrayTrieBuilder};

fn snapshot_of(base: &[i32], check: &[u32]) -> Vec<u8> {
    let mut bytes = Vec::new();
    bytes.extend_from_slice(&(base.len() as u64).to_le_bytes());
    for b in base {
        bytes.extend_from_slice(&b.to_le_bytes());
    }
    bytes.extend_from_slice(&(check.len() as u64).to_le_bytes());
    for c in check {
        bytes.extend_from_slice(&c.to_le_bytes());
    }
    bytes
}

#[test]
fn snapshot_round_trip_keeps_every_answer() {
    let mut keys = vec!["中国", "中华", "中华人民", "中华人民共和国"];
    keys.sort();
    let da = DoubleArrayTrieBuilder::new().build(&keys).unwrap();
    let bytes = da.to_bytes().unwrap();
    let back = DoubleArrayTrie::from_bytes(&bytes).unwrap();
    assert_eq!(back.base_array(), da.base_array());
    assert_eq!(back.check_array(), da.check_array());
    for query in ["中华人民共和国万岁", "中国人", "中华"] {
        assert!(da.common_prefix_search(query).is_some());
        assert_eq!(back.common_prefix_search(query), da.common_prefix_search(query));
    }
    assert_eq!(
        back.common_prefix_search("中华人民共和国万岁"),
        Some(vec![(6, 0), (12, 1), (21, 2)])
    );
    assert_eq!(back.to_bytes().unwrap(), bytes);
}

#[test]
fn snapshot_layout_is_two_counted_little_endian_vectors() {
    let da = DoubleArrayTrieBuilder::new().build(&["a"]).unwrap();
    let bytes = da.to_bytes().unwrap();
    let n = da.base_array().len();
    assert_eq!(bytes.len(), 16 + 8 * n);
    assert_eq!(bytes[0..8], (n as u64).to_le_bytes());
    // base[0] == 1
    assert_eq!(bytes[8..12], [1, 0, 0, 0]);
    // base[100] == -1: the end of the key "a", with value 0
    assert_eq!(da.base_array()[100], -1);
    assert_eq!(bytes[8 + 4 * 100..8 + 4 * 101], [0xFF, 0xFF, 0xFF, 0xFF]);
    assert_eq!(bytes[8 + 4 * n..16 + 4 * n], (n as u64).to_le_bytes());
    // check[99] == 1: the slot of `a` under the root
    assert_eq!(bytes[16 + 4 * n + 4 * 99..16 + 4 * n + 4 * 100], [1, 0, 0, 0]);
    assert_eq!(bytes, snapshot_of(da.base_array(), da.check_array()));
}

#[test]
fn hand_made_snapshot_is_read() {
    let bytes = snapshot_of(&[1, -3, 7], &[0, 1]);
    assert_eq!(
        bytes,
        vec![
            3, 0, 0, 0, 0, 0, 0, 0, 1, 0, 0, 0, 0xFD, 0xFF, 0xFF, 0xFF, 7, 0, 0, 0, 2, 0, 0, 0, 0,
            0, 0, 0, 0, 0, 0, 0, 1, 0, 0, 0
        ]
    );
    let da = DoubleArrayTrie::from_bytes(&bytes).unwrap();
    assert_eq!(da.base_array(), &vec![1, -3, 7]);
    assert_eq!(da.check_array(), &vec![0, 1]);
    // slot 1 is the end-of-key child of the root and holds the value 2
    assert_eq!(da.exact_match_search(""), Some(2));
    assert_eq!(da.exact_match_search("a"), None);
    assert_eq!(da.common_prefix_search("a"), Some(vec![(0, 2)]));
}

#[test]
fn bytes_after_a_snapshot_are_let_be() {
    let mut bytes = snapshot_of(&[1, 0], &[0, 0]);
    bytes.extend_from_slice(&[9, 9, 9]);
    let da = DoubleArrayTrie::from_bytes(&bytes).unwrap();
    assert_eq!(da.base_array(), &vec![1, 0]);
    assert_eq!(da.check_array(), &vec![0, 0]);
}

#[test]
fn broken_bytes_give_a_decoding_error() {
    for bytes in [
        vec![],
        vec![1, 2, 3],
        vec![2, 0, 0, 0, 0, 0, 0, 0, 1, 0, 0, 0],
        snapshot_of(&[1, 2], &[0, 1])[..30].to_vec(),
    ] {
        match DoubleArrayTrie::from_bytes(&bytes) {
            Err(DartsError::Decoding(_)) => {}
            other => panic!("unexpected: {:?}", other.map(|_| ())),
        }
    }
    let err = DoubleArrayTrie::from_bytes(&[]).err().unwrap();
    assert_eq!(err.message(), "rust-darts error");
}

#[test]
fn lookups_on_arbitrary_arrays_never_fail() {
    let shapes: Vec<(Vec<i32>, Vec<u32>)> = vec![
        (vec![], vec![]),
        (vec![5], vec![]),
        (vec![-1], vec![0]),
        (vec![i32::MAX, 3], vec![u32::MAX, i32::MAX as u32]),
        (vec![1, i32::MIN, 0], vec![0, 1, 2]),
        (vec![0, 0, 0], vec![0, 0, 0]),
        (vec![2, 1, 2, 1], vec![2, 1, 2, 1]),
    ];
    for (base, check) in shapes {
        let da = DoubleArrayTrie::from_bytes(&snapshot_of(&base, &check)).unwrap();
        for text in ["", "a", "\u{0}", "\u{10FFFF}x", "ab"] {
            let _ = da.exact_match_search(text);
            let _ = da.common_prefix_search(text);
            let mut searcher = da.search(text);
            for _ in 0..8 {
                let _ = searcher.next();
            }
        }
    }
    let da = DoubleArrayTrie::from_bytes(&snapshot_of(&[1, i32::MIN, 0], &[0, 1, 2])).unwrap();
    assert_eq!(da.exact_match_search(""), Some(i32::MAX as usize));
}

#[test]
fn order_of_keys() {
    assert!(key_less("a", "b"));
    assert!(key_less("a", "ab"));
    assert!(key_less("", "a"));
    assert!(key_less("ab", "b"));
    assert!(key_less("z", "中"));
    assert!(key_less("中华", "中国"));
    assert!(key_less("\u{FFFF}", "\u{10000}"));
    assert!(!key_less("a", "a"));
    assert!(!key_less("", ""));
    assert!(!key_less("b", "a"));
    assert!(!key_less("ab", "a"));
    assert!(!key_less("中国", "中华"));
}

#[test]
fn sorted_keys_are_told_from_others() {
    assert!(keys_sorted(&[]));
    assert!(keys_sorted(&["a"]));
    assert!(keys_sorted(&["he", "hers", "his", "she"]));
    assert!(keys_sorted(&["", "a", "ab", "b", "中"]));
    assert!(!keys_sorted(&["she", "he", "his", "hers"]));
    assert!(!keys_sorted(&["a", "a"]));
    assert!(!keys_sorted(&["a", "b", "ab"]));
    let mut keys = vec!["she", "he", "his", "hers"];
    keys.sort();
    assert!(keys_sorted(&keys));
}

#[test]
fn every_trie_has_a_snapshot_that_reads_back() {
    let shapes: Vec<(Vec<i32>, Vec<u32>)> = vec![
        (vec![], vec![]),
        (vec![5], vec![]),
        (vec![], vec![7, 8]),
        (vec![i32::MIN, -1, 0, i32::MAX], vec![u32::MAX, 0]),
    ];
    for (base, check) in shapes {
        let da = DoubleArrayTrie::from_bytes(&snapshot_of(&base, &check)).unwrap();
        let bytes = da.to_bytes().unwrap();
        assert_eq!(bytes, snapshot_of(&base, &check));
        assert_eq!(bytes.len(), 16 + 4 * base.len() + 4 * check.len());
        let back = DoubleArrayTrie::from_bytes(&bytes).unwrap();
        assert_eq!(back.base_array(), &base);
        assert_eq!(back.check_array(), &check);
    }
}
