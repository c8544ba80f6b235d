//! What the list of common prefixes is, for any trie and for a trie built
//! from a dictionary.
use crate::keys::is_prefix;
use crate::text::{byte_offset, lemma_byte_offset_monotone};
use crate::trie::{lookup, prefix_matches, DoubleArrayTrie};
use vstd::prelude::*;

verus! {

/// `item` reports the prefix of `word` with `m` scalars as held with the
/// value that the arrays give it.
pub open spec fn match_at(
    base: Seq<i32>,
    check: Seq<u32>,
    word: Seq<char>,
    m: int,
    item: (int, nat),
) -> bool {
    &&& 0 <= m <= word.len()
    &&& item.0 == byte_offset(word, m)
    &&& lookup(base, check, word.subrange(0, m)) == Some(item.1)
}

/// `item` reports some prefix of `word` with at most `n` scalars as held.
pub open spec fn match_within(
    base: Seq<i32>,
    check: Seq<u32>,
    word: Seq<char>,
    n: int,
    item: (int, nat),
) -> bool {
    exists|m: int| m <= n && #[trigger] match_at(base, check, word, m, item)
}

/// The matches among the prefixes of at most `n` scalars are those
/// prefixes that the arrays hold, each once, by ascending length.
pub proof fn lemma_prefix_matches_shape(base: Seq<i32>, check: Seq<u32>, word: Seq<char>, n: int)
    requires
        -1 <= n <= word.len(),
    ensures
        ({
            let found = prefix_matches(base, check, word, n);
            &&& forall|i: int|
                0 <= i < found.len() ==> match_within(base, check, word, n, #[trigger] found[i])
            &&& forall|m: int, item: (int, nat)|
                m <= n && #[trigger] match_at(base, check, word, m, item) ==> found.contains(item)
            &&& forall|i: int, j: int|
                0 <= i < j < found.len() ==> (#[trigger] found[i]).0 < (#[trigger] found[j]).0
            &&& forall|i: int|
                0 <= i < found.len() ==> 0 <= (#[trigger] found[i]).0 <= byte_offset(word, n)
            &&& forall|v: nat|
                n >= 0 ==> (lookup(base, check, word.subrange(0, n)) == Some(v) <==> found.len() > 0
                    && found.last() == (byte_offset(word, n), v))
        }),
    decreases n + 1,
{
    let found = prefix_matches(base, check, word, n);
    if n >= 0 {
        let shorter = prefix_matches(base, check, word, n - 1);
        lemma_prefix_matches_shape(base, check, word, n - 1);
        lemma_byte_offset_monotone(word, 0, n);
        if n > 0 {
            lemma_byte_offset_monotone(word, n - 1, n);
        }
        let here = lookup(base, check, word.subrange(0, n));
        assert forall|i: int| 0 <= i < found.len() implies match_within(
            base,
            check,
            word,
            n,
            #[trigger] found[i],
        ) by {
            if i < shorter.len() {
                assert(match_within(base, check, word, n - 1, shorter[i]));
                let m = choose|m: int| m <= n - 1 && #[trigger] match_at(
                    base,
                    check,
                    word,
                    m,
                    shorter[i],
                );
                assert(match_at(base, check, word, m, found[i]));
            } else {
                assert(match_at(base, check, word, n, found[i]));
            }
        }
        assert forall|m: int, item: (int, nat)|
            m <= n && #[trigger] match_at(base, check, word, m, item) implies found.contains(
            item,
        ) by {
            if m < n {
                assert(shorter.contains(item));
                let i = choose|i: int| 0 <= i < shorter.len() && shorter[i] == item;
                assert(found[i] == item);
            } else {
                assert(found[found.len() - 1] == item);
            }
        }
        assert forall|i: int| 0 <= i < found.len() implies 0 <= (#[trigger] found[i]).0
            <= byte_offset(word, n) by {
            if i < shorter.len() {
                assert(found[i] == shorter[i]);
            }
        }
        assert forall|i: int, j: int| 0 <= i < j < found.len() implies (#[trigger] found[i]).0 < (
        #[trigger] found[j]).0 by {
            assert(found[i] == shorter[i]);
            if j < shorter.len() {
                assert(found[j] == shorter[j]);
            }
        }
        assert forall|v: nat|
            (lookup(base, check, word.subrange(0, n)) == Some(v) <==> found.len() > 0
                && found.last() == (byte_offset(word, n), v)) by {
            if here is None && found.len() > 0 {
                assert(found.last() == shorter[shorter.len() - 1]);
            }
        }
    }
}

/// For a trie that holds exactly `keys`, the common prefixes of `word` are
/// the keys that are prefixes of `word`: each element is such a key, with
/// the byte offset of its end and its index; every such key is an element;
/// the elements come by ascending length; and the last element ends at the
/// end of `word` exactly if `word` is a key.
pub proof fn lemma_common_prefixes_are_the_entries(
    trie: DoubleArrayTrie,
    keys: Seq<Seq<char>>,
    word: Seq<char>,
)
    requires
        trie.holds(keys),
    ensures
        ({
            let found = trie.spec_common_prefixes(word);
            &&& forall|i: int|
                0 <= i < found.len() ==> (#[trigger] found[i]).1 < keys.len() && is_prefix(
                    keys[found[i].1 as int],
                    word,
                ) && found[i].0 == byte_offset(word, keys[found[i].1 as int].len() as int)
            &&& forall|v: int|
                0 <= v < keys.len() && is_prefix(#[trigger] keys[v], word) ==> found.contains(
                    (byte_offset(word, keys[v].len() as int), v as nat),
                )
            &&& forall|i: int, j: int|
                0 <= i < j < found.len() ==> (#[trigger] found[i]).0 < (#[trigger] found[j]).0
            &&& forall|v: int|
                0 <= v < keys.len() ==> (#[trigger] keys[v] == word <==> found.len() > 0
                    && found.last() == (byte_offset(word, word.len() as int), v as nat))
        }),
{
    let base = trie.base();
    let check = trie.check();
    let n = word.len() as int;
    let found = trie.spec_common_prefixes(word);
    lemma_prefix_matches_shape(base, check, word, n);
    assert(word.subrange(0, n) == word);
    assert forall|i: int| 0 <= i < found.len() implies (#[trigger] found[i]).1 < keys.len()
        && is_prefix(keys[found[i].1 as int], word) && found[i].0 == byte_offset(
        word,
        keys[found[i].1 as int].len() as int,
    ) by {
        assert(match_within(base, check, word, n, found[i]));
        let m = choose|m: int| m <= n && #[trigger] match_at(base, check, word, m, found[i]);
        assert(trie.spec_exact_match(word.subrange(0, m)) == Some(found[i].1));
    }
    assert forall|v: int| 0 <= v < keys.len() && is_prefix(#[trigger] keys[v], word) implies found.contains(
        (byte_offset(word, keys[v].len() as int), v as nat),
    ) by {
        let m = keys[v].len() as int;
        assert(trie.spec_exact_match(keys[v]) == Some(v as nat));
        assert(match_at(base, check, word, m, (byte_offset(word, m), v as nat)));
    }
    assert forall|v: int| 0 <= v < keys.len() implies (#[trigger] keys[v] == word <==> found.len()
        > 0 && found.last() == (byte_offset(word, n), v as nat)) by {
        assert(trie.spec_exact_match(keys[v]) == Some(v as nat));
        if found.len() > 0 && found.last() == (byte_offset(word, n), v as nat) {
            assert(trie.spec_exact_match(word) == Some(v as nat));
        }
    }
}

} // verus!
