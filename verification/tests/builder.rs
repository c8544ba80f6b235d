use darts::{DoubleArrayTrie, DoubleArrayTrieBuilder};
use std::cell::RefCell;
use std::rc::Rc;

fn build(keys: &[&str]) -> DoubleArrayTrie {
    let mut sorted: Vec<&str> = keys.to_vec();
    sorted.sort();
    DoubleArrayTrieBuilder::new().build(&sorted).unwrap()
}

#[test]
fn test_dat_basic() {
    let mut keys = vec![
        "万能",
        "万能胶",
        "东湖",
        "东湖高新技术开发区",
        "呼伦贝尔",
        "呼伦贝尔市",
        "she said",
    ];
    keys.sort();
    let da = DoubleArrayTrieBuilder::new()
        .progress(|c, t| println!("{}/{}", c, t))
        .build(&keys)
        .unwrap();

    assert!(da.exact_match_search("she").is_none());
    assert!(da.exact_match_search("万能胶啥").is_none());
    assert!(da.exact_match_search("呼伦贝尔").is_some());
    assert!(da.exact_match_search("东湖高新技术开发区").is_some());
}

#[test]
fn every_key_is_found_with_its_index() {
    let mut keys = vec!["he", "hers", "his", "she", "a", "ab", "abc", "b", "中国", "中华", "zebra"];
    keys.sort();
    let da = DoubleArrayTrieBuilder::new().build(&keys).unwrap();
    for (i, k) in keys.iter().enumerate() {
        assert_eq!(da.exact_match_search(k), Some(i));
    }
    for miss in ["h", "her", "herss", "sh", "shee", "", "c", "中", "中国人", "zebr", "abcd"] {
        assert_eq!(da.exact_match_search(miss), None);
    }
}

#[test]
fn stamped_slots_lie_above_their_parent() {
    let da = build(&["he", "hers", "his", "she", "中国", "中华", "中华人民"]);
    let base = da.base_array();
    let check = da.check_array();
    assert_eq!(base.len(), check.len());
    assert_eq!(base[0], 1);
    assert_eq!(check[0], 0);
    let mut stamped = 0;
    for i in 1..check.len() {
        let b = check[i] as usize;
        if b != 0 {
            stamped += 1;
            assert!(b >= 1);
            assert!(b <= i);
            assert!(i - b <= 0x110000);
        } else {
            assert_eq!(base[i], 0);
        }
    }
    // one slot per node of the trie below the root: 14 letters and scalars
    // that start a new path, and 7 ends of keys
    assert_eq!(stamped, 21);
}

#[test]
fn terminal_slots_decode_to_the_key_index() {
    let keys = ["he", "hers", "his", "she"];
    let da = build(&keys);
    let base = da.base_array();
    let check = da.check_array();
    for (v, k) in keys.iter().enumerate() {
        let mut b = base[0];
        for c in k.chars() {
            let p = b as usize + c as usize + 1;
            assert_eq!(check[p] as i32, b);
            b = base[p];
        }
        let t = b as usize;
        assert_eq!(check[t] as i32, b);
        assert!(base[t] < 0);
        assert_eq!((-base[t] - 1) as usize, v);
    }
}

#[test]
fn single_key_dictionary() {
    let da = build(&["a"]);
    let base = da.base_array();
    let check = da.check_array();
    assert_eq!(base[0], 1);
    let slot = 1 + ('a' as u32 as usize) + 1;
    assert_eq!(check[slot], 1);
    let child = base[slot] as usize;
    assert_eq!(check[child] as i32, base[slot]);
    assert!(base[child] < 0);
    assert_eq!(base[child], -1);
    assert_eq!(da.exact_match_search("a"), Some(0));
    assert_eq!(da.exact_match_search("ab"), None);
    assert_eq!(da.exact_match_search(""), None);
}

#[test]
fn arrays_keep_room_for_every_symbol_past_the_last_offset() {
    let da = build(&["a"]);
    // the root is placed at offset 1, which stamps slot 99; the search for
    // the node of "a" starts there and claims the next free slot, 100
    assert_eq!(da.base_array()[99], 100);
    assert_eq!(da.base_array().len(), 100 + 0x110000);
    assert_eq!(da.check_array().len(), 100 + 0x110000);
}

#[test]
fn empty_dictionary_holds_nothing() {
    let keys: Vec<&str> = Vec::new();
    let da = DoubleArrayTrieBuilder::new().build(&keys).unwrap();
    assert_eq!(da.base_array().len(), 0x110000);
    assert_eq!(da.base_array()[0], 1);
    assert_eq!(da.exact_match_search(""), None);
    assert_eq!(da.exact_match_search("a"), None);
    assert_eq!(da.common_prefix_search("abc"), None);
}

#[test]
fn key_that_is_a_prefix_of_another() {
    let da = build(&["a", "ab"]);
    assert_eq!(da.exact_match_search("a"), Some(0));
    assert_eq!(da.exact_match_search("ab"), Some(1));
    assert_eq!(da.common_prefix_search("abc"), Some(vec![(1, 0), (2, 1)]));
}

#[test]
fn largest_scalar_as_a_key() {
    let da = build(&["\u{10FFFF}", "\u{10FFFF}\u{10FFFF}", "\u{0}", "a\u{0}b"]);
    assert_eq!(da.exact_match_search("\u{0}"), Some(0));
    assert_eq!(da.exact_match_search("a\u{0}b"), Some(1));
    assert_eq!(da.exact_match_search("\u{10FFFF}"), Some(2));
    assert_eq!(da.exact_match_search("\u{10FFFF}\u{10FFFF}"), Some(3));
    assert_eq!(da.exact_match_search("a"), None);
    assert_eq!(da.exact_match_search("a\u{0}"), None);
    assert_eq!(da.exact_match_search("\u{10FFFE}"), None);
}

#[test]
fn empty_key_is_an_entry_when_given() {
    let da = build(&["", "a"]);
    assert_eq!(da.exact_match_search(""), Some(0));
    assert_eq!(da.exact_match_search("a"), Some(1));
    assert_eq!(da.common_prefix_search("ab"), Some(vec![(0, 0), (1, 1)]));
}

#[test]
fn many_keys() {
    let mut owned: Vec<String> = Vec::new();
    for i in 0..3000u32 {
        owned.push(format!("k{}", i * 7919 % 10007));
        owned.push(format!("词{}条", i * 31 % 4001));
    }
    owned.sort();
    owned.dedup();
    let keys: Vec<&str> = owned.iter().map(|s| s.as_str()).collect();
    let da = DoubleArrayTrieBuilder::new().build(&keys).unwrap();
    for (i, k) in keys.iter().enumerate() {
        assert_eq!(da.exact_match_search(k), Some(i));
    }
    assert_eq!(da.exact_match_search("k"), None);
    assert_eq!(da.exact_match_search("词"), None);
    assert_eq!(da.exact_match_search("k10008"), None);
    let base = da.base_array();
    let check = da.check_array();
    for i in 1..check.len() {
        if check[i] != 0 {
            assert!(check[i] as usize <= i);
            assert!(base[i] != 0);
        }
    }
}

#[test]
fn build_is_deterministic() {
    let keys = ["he", "hers", "his", "she", "中国", "中华"];
    let one = build(&keys);
    let two = build(&keys);
    assert_eq!(one.base_array(), two.base_array());
    assert_eq!(one.check_array(), two.check_array());
}

#[test]
fn progress_is_reported_once_per_key() {
    let keys = ["a", "ab", "abc", "b", "bc", "c", "d", "de", "e", "f"];
    let seen: Rc<RefCell<Vec<(usize, usize)>>> = Rc::new(RefCell::new(Vec::new()));
    let sink = seen.clone();
    let da = DoubleArrayTrieBuilder::new()
        .progress(move |done, total| sink.borrow_mut().push((done, total)))
        .build(&keys)
        .unwrap();
    let expected: Vec<(usize, usize)> = (1..=10).map(|d| (d, 10)).collect();
    assert_eq!(*seen.borrow(), expected);
    assert_eq!(da.exact_match_search("de"), Some(7));
}

#[test]
fn one_negative_base_for_each_key() {
    let keys = ["a", "ab", "abc", "b", "he", "hers", "his", "she", "中华", "中国"];
    let da = build(&keys);
    let base = da.base_array();
    let check = da.check_array();
    let mut seen = vec![0usize; keys.len()];
    for (p, &b) in base.iter().enumerate() {
        if b < 0 {
            // an end of a key is its own parent's offset
            assert_eq!(check[p] as usize, p);
            seen[(-(b + 1)) as usize] += 1;
        }
    }
    assert_eq!(seen, vec![1; keys.len()]);
}

#[test]
fn arrays_do_not_depend_on_the_callback() {
    let keys = ["he", "hers", "his", "she", "中华", "中国"];
    let plain = DoubleArrayTrieBuilder::new().build(&keys).unwrap();
    let told = DoubleArrayTrieBuilder::new().progress(|_, _| ()).build(&keys).unwrap();
    assert_eq!(plain.base_array(), told.base_array());
    assert_eq!(plain.check_array(), told.check_array());
}

#[test]
fn groups_lie_at_the_least_offset_that_fits() {
    // the root takes offset 1; the children of "a" (`b` and the end of the
    // key) start their search at the first free slot seen, 99, which the
    // end-of-key symbol would hit under offset 99: the group lies at 100
    let da = build(&["a", "ab"]);
    let base = da.base_array();
    let check = da.check_array();
    assert_eq!(check[99], 1);
    assert_eq!(base[99], 100);
    assert_eq!(check[100], 100);
    assert_eq!(base[100], -1);
    assert_eq!(check[100 + 99], 100);
    // the end of "ab" lies under the next offset that is free
    let node = base[100 + 99] as usize;
    assert_eq!(node, 101);
    assert_eq!(check[node], 101);
    assert_eq!(base[node], -2);
}

#[test]
fn only_prefixes_of_keys_can_be_walked() {
    let keys = ["he", "hers", "his", "she"];
    let da = build(&keys);
    let base = da.base_array();
    let check = da.check_array();
    let walks = |word: &str| -> bool {
        let mut b = base[0];
        for c in word.chars() {
            let p = b as usize + c as usize + 1;
            if p >= check.len() || check[p] as i32 != b {
                return false;
            }
            b = base[p];
        }
        true
    };
    for word in ["", "h", "he", "her", "hers", "hi", "his", "s", "sh", "she"] {
        assert!(walks(word));
    }
    for word in ["a", "ha", "hes", "herss", "hiss", "shes", "e", "\u{0}"] {
        assert!(!walks(word));
    }
}
