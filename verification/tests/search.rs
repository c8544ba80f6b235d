use darts::{DoubleArrayTrie, DoubleArrayTrieBuilder, SearchStep};

fn dictionary(keys: &[&str]) -> DoubleArrayTrie {
    let mut sorted: Vec<&str> = keys.to_vec();
    sorted.sort();
    DoubleArrayTrieBuilder::new().build(&sorted).unwrap()
}

fn steps(da: &DoubleArrayTrie, text: &str) -> Vec<SearchStep> {
    let mut searcher = da.search(text);
    let mut out = Vec::new();
    loop {
        let step = searcher.next();
        if step == SearchStep::Done {
            break;
        }
        out.push(step);
        assert!(out.len() <= text.len());
    }
    assert_eq!(searcher.next(), SearchStep::Done);
    out
}

#[test]
fn test_dat_prefix_search() {
    let da = dictionary(&["中", "中华", "中华人民", "中华人民共和国", "中国"]);
    let string = "中华人民共和国";
    let matches = da.common_prefix_search(string).unwrap();
    let shown: Vec<(&str, usize)> = matches.iter().map(|&(end, v)| (&string[..end], v)).collect();
    assert_eq!(
        shown,
        vec![("中", 0), ("中华", 1), ("中华人民", 2), ("中华人民共和国", 3)]
    );
}

#[test]
fn test_dat_searcher() {
    let da = dictionary(&["江西", "鄱阳湖", "干枯", "中国", "最大", "淡水湖", "变成", "大", "草原"]);
    let text = "江西鄱阳湖干枯，中国最大淡水湖变成大草原";
    let mut searcher = da.search(&text);

    let mut result = vec![];
    loop {
        let step = searcher.next();
        if step == SearchStep::Done {
            break;
        }
        result.push(step);
    }
    let segmented = result
        .iter()
        .map(|s| searcher.search_step_to_str(s))
        .collect::<Vec<String>>()
        .join(" ");
    assert_eq!(
        segmented,
        "江西/n 鄱阳湖/n 干枯/n ，/x 中国/n 最大/n 淡水湖/n 变成/n 大/n 草原/n"
    );
}

#[test]
fn longer_entries_are_taken_before_what_follows() {
    let da = dictionary(&[
        "江西", "鄱阳湖", "干枯", "中国", "最大", "淡水湖", "变成", "大", "草原", "淡水", "大草",
    ]);
    let text = "江西鄱阳湖干枯，中国最大淡水湖变成大草原";
    let searcher = da.search(text);
    let segmented = steps(&da, text)
        .iter()
        .map(|s| searcher.search_step_to_str(s))
        .collect::<Vec<String>>()
        .join(" ");
    assert_eq!(
        segmented,
        "江西/n 鄱阳湖/n 干枯/n ，/x 中国/n 最大/n 淡水湖/n 变成/n 大草/n 原/x"
    );
}

#[test]
fn common_prefixes_with_byte_offsets() {
    let da = dictionary(&["中国", "中华", "中华人民", "中华人民共和国"]);
    // sorted: 中华 (0), 中华人民 (1), 中华人民共和国 (2), 中国 (3)
    assert_eq!(
        da.common_prefix_search("中华人民共和国万岁"),
        Some(vec![(6, 0), (12, 1), (21, 2)])
    );
    assert_eq!(da.common_prefix_search("中"), None);
    assert_eq!(da.common_prefix_search("华"), None);
    assert_eq!(da.common_prefix_search(""), None);
    assert_eq!(da.common_prefix_search("中国"), Some(vec![(6, 3)]));
}

#[test]
fn prefixes_are_kept_when_the_whole_text_is_no_entry() {
    let da = dictionary(&["a", "abc"]);
    assert_eq!(da.common_prefix_search("ab"), Some(vec![(1, 0)]));
    assert_eq!(da.common_prefix_search("abc"), Some(vec![(1, 0), (3, 1)]));
    assert_eq!(da.common_prefix_search("abcd"), Some(vec![(1, 0), (3, 1)]));
    assert_eq!(da.common_prefix_search("b"), None);
}

#[test]
fn last_prefix_is_the_text_itself_exactly_for_entries() {
    let keys = ["he", "hers", "his", "she"];
    let da = dictionary(&keys);
    for (v, k) in keys.iter().enumerate() {
        let found = da.common_prefix_search(k).unwrap();
        assert_eq!(*found.last().unwrap(), (k.len(), v));
    }
    let found = da.common_prefix_search("herself").unwrap();
    assert_eq!(found, vec![(2, 0), (4, 1)]);
}

#[test]
fn tokenizer_on_ushers() {
    let da = dictionary(&["she", "he", "his", "hers"]);
    assert_eq!(
        steps(&da, "ushers"),
        vec![
            SearchStep::Reject(0, 1),
            SearchStep::Match(1, 4),
            SearchStep::Reject(4, 5),
            SearchStep::Reject(5, 6),
        ]
    );
    assert_eq!(
        steps(&da, "uhers"),
        vec![SearchStep::Reject(0, 1), SearchStep::Match(1, 5)]
    );
}

#[test]
fn empty_haystack_is_done_at_once() {
    let da = dictionary(&["a"]);
    let mut searcher = da.search("");
    assert_eq!(searcher.next(), SearchStep::Done);
    assert_eq!(searcher.next(), SearchStep::Done);
    assert_eq!(searcher.haystack(), "");
}

#[test]
fn steps_cover_every_byte_once() {
    let da = dictionary(&["ab", "abcd", "b", "cd", "é", "日本", "日本語"]);
    for text in ["abcabcdxcdb", "éé日本語日本日x", "zzz", "abc", "ab", "日", "abcdabcdab日本"] {
        let mut at = 0;
        for step in steps(&da, text) {
            let (start, end) = match step {
                SearchStep::Match(s, e) => (s, e),
                SearchStep::Reject(s, e) => (s, e),
                SearchStep::Done => unreachable!(),
            };
            assert_eq!(start, at);
            assert!(end > start);
            assert!(text.is_char_boundary(end));
            at = end;
        }
        assert_eq!(at, text.len());
    }
}

#[test]
fn matches_are_entries_and_the_longest_wins() {
    let da = dictionary(&["ab", "abcd", "b", "cd"]);
    assert_eq!(
        steps(&da, "abcdxbcd"),
        vec![
            SearchStep::Match(0, 4),
            SearchStep::Reject(4, 5),
            SearchStep::Match(5, 6),
            SearchStep::Match(6, 8),
        ]
    );
}

#[test]
fn a_walk_that_ends_without_an_entry_is_rejected_whole() {
    let da = dictionary(&["abc"]);
    // the walk stops at `d`: nothing matched, the stretch up to `d` is rejected
    assert_eq!(steps(&da, "abd"), vec![SearchStep::Reject(0, 3)]);
    // the walk reaches the end of the text inside an entry
    assert_eq!(steps(&da, "ab"), vec![SearchStep::Reject(0, 2)]);
    let da = dictionary(&["a", "abc"]);
    assert_eq!(steps(&da, "ab"), vec![SearchStep::Reject(0, 2)]);
    assert_eq!(steps(&da, "abx"), vec![SearchStep::Match(0, 1), SearchStep::Reject(1, 2), SearchStep::Reject(2, 3)]);
}

#[test]
fn steps_are_shown_with_their_kind() {
    let da = dictionary(&["日本"]);
    let searcher = da.search("日本x");
    assert_eq!(searcher.search_step_to_str(&SearchStep::Match(0, 6)), "日本/n");
    assert_eq!(searcher.search_step_to_str(&SearchStep::Reject(6, 7)), "x/x");
    assert_eq!(searcher.search_step_to_str(&SearchStep::Reject(3, 3)), "/x");
    assert_eq!(searcher.search_step_to_str(&SearchStep::Done), "/#");
    assert_eq!(searcher.haystack(), "日本x");
}
