//! The compiled automaton and its lookups.
use crate::keys::{is_path, symbol, symbol_of, MAX_SYMBOL};
use crate::searcher::DoubleArrayTrieSearcher;
use crate::text::{byte_offset, char_width, lemma_byte_offset_monotone, lemma_encoded_len};
use vstd::prelude::*;
use vstd::std_specs::iter::IteratorSpec;
use vstd::string::StringSliceAdditionalSpecFns;

verus! {

broadcast use {vstd::string::group_string_axioms, vstd::slice::group_slice_axioms};

/// Base of the root node: the content of slot 0.
pub open spec fn root_base(base: Seq<i32>) -> int {
    if base.len() > 0 {
        base[0] as int
    } else {
        0
    }
}

/// The slot that the node with base `b` reaches by `symbol`, provided that
/// the slot exists in both arrays and is stamped with `b`.
pub open spec fn child_slot(base: Seq<i32>, check: Seq<u32>, b: int, symbol: int) -> Option<int> {
    let p = b + symbol;
    if 0 <= p < base.len() && p < check.len() && check[p] as int == b {
        Some(p)
    } else {
        None
    }
}

/// Base of the node reached from the root by the symbols of the scalars of
/// `word`.
pub open spec fn walk(base: Seq<i32>, check: Seq<u32>, word: Seq<char>) -> Option<int>
    decreases word.len(),
{
    if word.len() == 0 {
        Some(root_base(base))
    } else {
        match walk(base, check, word.drop_last()) {
            Some(b) => match child_slot(base, check, b, symbol(word.last())) {
                Some(p) => Some(base[p] as int),
                None => None,
            },
            None => None,
        }
    }
}

/// Value stored under the end-of-key symbol of the node with base `b`:
/// that child holds a negative `n`, which stands for the value `-n - 1`.
pub open spec fn terminal_value(base: Seq<i32>, check: Seq<u32>, b: int) -> Option<nat> {
    match child_slot(base, check, b, 0) {
        Some(p) => if base[p] < 0 {
            Some((-(base[p] as int) - 1) as nat)
        } else {
            None
        },
        None => None,
    }
}

/// Value that the arrays associate with `word`, if any.
pub open spec fn lookup(base: Seq<i32>, check: Seq<u32>, word: Seq<char>) -> Option<nat> {
    match walk(base, check, word) {
        Some(b) => terminal_value(base, check, b),
        None => None,
    }
}

/// The prefixes of `word` with at most `n` scalars that the arrays hold,
/// shortest first, each as the byte offset of its end and its value.
pub open spec fn prefix_matches(base: Seq<i32>, check: Seq<u32>, word: Seq<char>, n: int) -> Seq<
    (int, nat),
>
    decreases n + 1,
{
    if n < 0 {
        Seq::empty()
    } else {
        let shorter = prefix_matches(base, check, word, n - 1);
        match lookup(base, check, word.subrange(0, n)) {
            Some(v) => shorter.push((byte_offset(word, n), v)),
            None => shorter,
        }
    }
}

/// The arrays hold the keys `keys` and nothing else, each key with its
/// index as its value.
pub open spec fn arrays_hold(base: Seq<i32>, check: Seq<u32>, keys: Seq<Seq<char>>) -> bool {
    &&& forall|i: int|
        0 <= i < keys.len() ==> lookup(base, check, #[trigger] keys[i]) == Some(i as nat)
    &&& forall|word: Seq<char>|
        (#[trigger] lookup(base, check, word)) matches Some(v) ==> v < keys.len() && keys[v as int]
            == word
}

/// The words that the arrays can walk from the root are the prefixes of the
/// keys `keys`, and the empty word.
pub open spec fn arrays_walk(base: Seq<i32>, check: Seq<u32>, keys: Seq<Seq<char>>) -> bool {
    forall|word: Seq<char>|
        word.len() > 0 ==> ((#[trigger] walk(base, check, word)) is Some <==> is_path(keys, word))
}

/// Every slot with a negative base is the end of a key: the slot is the
/// one that the walk of the key with the value of the slot ends at. So the
/// slots with a negative base stand one for one for the keys.
pub open spec fn arrays_end(base: Seq<i32>, check: Seq<u32>, keys: Seq<Seq<char>>) -> bool {
    forall|p: int|
        0 <= p < base.len() && #[trigger] base[p] < 0 ==> -(base[p] as int) - 1 < keys.len()
            && walk(base, check, keys[-(base[p] as int) - 1]) == Some(p)
}

/// Slot `p` is stamped, and the array ends either one slot past it or
/// 0x110000 slots past the offset that it is stamped with.
pub open spec fn ends_at(check: Seq<u32>, p: int) -> bool {
    &&& 1 <= p < check.len()
    &&& check[p] != 0
    &&& (check.len() == check[p] + 0x110000 || check.len() == p + 1)
}

/// No slot is stamped.
pub open spec fn unstamped(check: Seq<u32>) -> bool {
    forall|i: int| 1 <= i < check.len() ==> #[trigger] check[i] == 0
}

/// The shape that a build leaves: arrays of one length, the root in slot 0
/// with base 1, every stamped slot above the base of its parent by one
/// symbol, and every other slot empty. The arrays hold every stamped slot
/// and 0x110000 slots from every offset that a slot is stamped with, and
/// they end where the last of these ends; with no slot stamped they have
/// 0x110000 slots.
pub open spec fn arrays_shaped(base: Seq<i32>, check: Seq<u32>) -> bool {
    &&& base.len() == check.len()
    &&& base.len() >= 0x110000
    &&& base[0] == 1
    &&& check[0] == 0
    &&& forall|i: int|
        1 <= i < check.len() && #[trigger] check[i] != 0 ==> 1 <= check[i] <= i && i - check[i]
            <= MAX_SYMBOL
    &&& forall|i: int| 1 <= i < check.len() && #[trigger] check[i] == 0 ==> base[i] == 0
    &&& forall|i: int|
        1 <= i < check.len() && #[trigger] check[i] != 0 ==> check[i] + 0x110000 <= check.len()
    &&& if unstamped(check) {
        check.len() == 0x110000
    } else {
        exists|p: int| #[trigger] ends_at(check, p)
    }
}

/// `found` lists the same offsets and values as `expected`, in the same order.
pub open spec fn same_matches(found: Seq<(usize, usize)>, expected: Seq<(int, nat)>) -> bool {
    &&& found.len() == expected.len()
    &&& forall|i: int|
        0 <= i < found.len() ==> (#[trigger] found[i]).0 == expected[i].0 && found[i].1
            == expected[i].1
}

/// Once a prefix cannot be walked, no longer prefix can.
pub proof fn lemma_walk_stays_none(
    base: Seq<i32>,
    check: Seq<u32>,
    word: Seq<char>,
    j: int,
    m: int,
)
    requires
        0 <= j <= m <= word.len(),
        walk(base, check, word.subrange(0, j)) is None,
    ensures
        walk(base, check, word.subrange(0, m)) is None,
    decreases m - j,
{
    if j < m {
        lemma_walk_stays_none(base, check, word, j, m - 1);
        assert(word.subrange(0, m).drop_last() == word.subrange(0, m - 1));
    }
}

/// One more scalar: the walk of a prefix extended by its next scalar.
pub proof fn lemma_walk_step(base: Seq<i32>, check: Seq<u32>, word: Seq<char>, j: int)
    requires
        0 <= j < word.len(),
    ensures
        walk(base, check, word.subrange(0, j + 1)) == match walk(
            base,
            check,
            word.subrange(0, j),
        ) {
            Some(b) => match child_slot(base, check, b, symbol(word[j])) {
                Some(p) => Some(base[p] as int),
                None => None,
            },
            None => None,
        },
{
    assert(word.subrange(0, j + 1).drop_last() == word.subrange(0, j));
    assert(word.subrange(0, j + 1).last() == word[j]);
}

/// Past a prefix that cannot be walked there are no further matches.
pub proof fn lemma_prefix_matches_stop(
    base: Seq<i32>,
    check: Seq<u32>,
    word: Seq<char>,
    j: int,
    m: int,
)
    requires
        0 <= j <= m <= word.len(),
        j < word.len(),
        walk(base, check, word.subrange(0, j + 1)) is None,
    ensures
        prefix_matches(base, check, word, m) == prefix_matches(base, check, word, j),
    decreases m - j,
{
    if j < m {
        lemma_prefix_matches_stop(base, check, word, j, m - 1);
        lemma_walk_stays_none(base, check, word, j + 1, m);
    }
}

/// A double-array trie: `base[i]` is the offset of node `i`'s children, or,
/// when negative, the value of the key that ends at `i`; `check[i]` is the
/// base of the node that slot `i` belongs to.
#[derive(Debug)]
pub struct DoubleArrayTrie {
    pub(crate) base: Vec<i32>,
    pub(crate) check: Vec<u32>,
}

impl DoubleArrayTrie {
    /// The `base` array.
    pub closed spec fn base(&self) -> Seq<i32> {
        self.base@
    }

    /// The `check` array.
    pub closed spec fn check(&self) -> Seq<u32> {
        self.check@
    }

    /// Value of `word` in this trie, if it is an entry.
    pub open spec fn spec_exact_match(&self, word: Seq<char>) -> Option<nat> {
        lookup(self.base(), self.check(), word)
    }

    /// Entries that are prefixes of `word`, shortest first, each with the
    /// byte offset of its end in `word` and its value.
    pub open spec fn spec_common_prefixes(&self, word: Seq<char>) -> Seq<(int, nat)> {
        prefix_matches(self.base(), self.check(), word, word.len() as int)
    }

    /// The trie holds the keys `keys` and nothing else, each key with its
    /// index as its value.
    pub open spec fn holds(&self, keys: Seq<Seq<char>>) -> bool {
        arrays_hold(self.base(), self.check(), keys)
    }

    /// The words that can be walked from the root are the prefixes of the
    /// keys `keys`, and the empty word.
    pub open spec fn walks(&self, keys: Seq<Seq<char>>) -> bool {
        arrays_walk(self.base(), self.check(), keys)
    }

    /// Every slot with a negative base is the end of one of the keys `keys`,
    /// the one whose index it holds.
    pub open spec fn ends(&self, keys: Seq<Seq<char>>) -> bool {
        arrays_end(self.base(), self.check(), keys)
    }

    /// The shape that a build leaves: see `arrays_shaped`.
    pub open spec fn well_formed(&self) -> bool {
        arrays_shaped(self.base(), self.check())
    }

    /// The arrays are no longer than a vector can be.
    pub proof fn lemma_array_lengths(&self)
        ensures
            self.base().len() <= usize::MAX,
            self.check().len() <= usize::MAX,
    {
        vstd::std_specs::vec::axiom_spec_len(&self.base);
        vstd::std_specs::vec::axiom_spec_len(&self.check);
    }

    /// The `base` array.
    pub fn base_array(&self) -> (array: &Vec<i32>)
        ensures
            array@ == self.base(),
    {
        &self.base
    }

    /// The `check` array.
    pub fn check_array(&self) -> (array: &Vec<u32>)
        ensures
            array@ == self.check(),
    {
        &self.check
    }

    /// A trie over the two arrays.
    pub(crate) fn from_arrays(base: Vec<i32>, check: Vec<u32>) -> (trie: DoubleArrayTrie)
        ensures
            trie.base() == base@,
            trie.check() == check@,
    {
        DoubleArrayTrie { base, check }
    }

    /// Slot of the child of the node with base `b` by `symbol`.
    pub(crate) fn child(&self, b: i32, symbol: u32) -> (r: Option<usize>)
        requires
            symbol <= MAX_SYMBOL,
        ensures
            match r {
                Some(p) => child_slot(self.base(), self.check(), b as int, symbol as int) == Some(
                    p as int,
                ),
                None => child_slot(self.base(), self.check(), b as int, symbol as int) is None,
            },
    {
        if b < 0 {
            return None;
        }
        let p: u64 = b as u64 + symbol as u64;
        if p >= self.base.len() as u64 || p >= self.check.len() as u64 {
            return None;
        }
        let p: usize = p as usize;
        if self.check[p] == b as u32 {
            Some(p)
        } else {
            None
        }
    }

    /// Base found in slot `p`.
    pub(crate) fn base_at(&self, p: usize) -> (b: i32)
        requires
            p < self.base().len(),
        ensures
            b == self.base()[p as int],
    {
        self.base[p]
    }

    /// Base of the root node.
    pub(crate) fn root(&self) -> (b: i32)
        ensures
            b as int == root_base(self.base()),
    {
        if self.base.len() == 0 {
            0
        } else {
            self.base[0]
        }
    }

    /// Value of the key that ends at the node with base `b`.
    pub(crate) fn accept(&self, b: i32) -> (r: Option<usize>)
        ensures
            match r {
                Some(v) => terminal_value(self.base(), self.check(), b as int) == Some(v as nat),
                None => terminal_value(self.base(), self.check(), b as int) is None,
            },
    {
        match self.child(b, 0) {
            Some(p) => {
                let n: i32 = self.base[p];
                if n < 0 {
                    Some((-(n + 1)) as usize)
                } else {
                    None
                }
            },
            None => None,
        }
    }

    /// Starts forward maximum matching on `haystack`: the tokenizer returned
    /// stands at the start of the text.
    pub fn search<'a, 'b>(&'b self, haystack: &'a str) -> (searcher: DoubleArrayTrieSearcher<
        'a,
        'b,
    >)
        ensures
            searcher.text() == haystack@,
            searcher.trie() == *self,
            searcher.position() == 0,
            searcher.offset() == 0,
    {
        DoubleArrayTrieSearcher::new(self, haystack)
    }

    /// Looks `key` up as a whole: its value if it is an entry, `None` if not.
    /// The empty key is looked up like any other.
    pub fn exact_match_search(&self, key: &str) -> (r: Option<usize>)
        ensures
            match r {
                Some(v) => self.spec_exact_match(key@) == Some(v as nat),
                None => self.spec_exact_match(key@) is None,
            },
    {
        let mut b: i32 = self.root();
        let mut it = key.chars();
        let ghost mut j: int = 0;
        loop
            invariant
                it.decrease() is Some,
                0 <= j <= key@.len(),
                it.remaining() == key@.subrange(j, key@.len() as int),
                walk(self.base(), self.check(), key@.subrange(0, j)) == Some(b as int),
            ensures
                walk(self.base(), self.check(), key@) == Some(b as int),
            decreases it.decrease()->0,
        {
            match it.next() {
                Some(c) => {
                    proof {
                        lemma_walk_step(self.base(), self.check(), key@, j);
                        assert(key@.subrange(j, key@.len() as int).drop_first() == key@.subrange(
                            j + 1,
                            key@.len() as int,
                        ));
                    }
                    match self.child(b, symbol_of(c)) {
                        Some(p) => {
                            b = self.base[p];
                            proof {
                                j = j + 1;
                            }
                        },
                        None => {
                            proof {
                                lemma_walk_stays_none(
                                    self.base(),
                                    self.check(),
                                    key@,
                                    j + 1,
                                    key@.len() as int,
                                );
                                assert(key@.subrange(0, key@.len() as int) == key@);
                            }
                            return None;
                        },
                    }
                },
                None => {
                    proof {
                        assert(key@.subrange(0, key@.len() as int) == key@);
                    }
                    break ;
                },
            }
        }
        self.accept(b)
    }

    /// Finds every entry that is a prefix of `key`, shortest first. Each is
    /// reported as the byte offset in `key` at which it ends, and its value.
    /// `None` stands for no entry at all.
    pub fn common_prefix_search(&self, key: &str) -> (r: Option<Vec<(usize, usize)>>)
        ensures
            match r {
                Some(found) => found@.len() > 0 && same_matches(
                    found@,
                    self.spec_common_prefixes(key@),
                ),
                None => self.spec_common_prefixes(key@).len() == 0,
            },
    {
        let mut result: Vec<(usize, usize)> = Vec::new();
        let mut b: i32 = self.root();
        let mut off: usize = 0;
        let mut it = key.chars();
        let byte_len: usize = key.as_bytes().len();
        let ghost word = key@;
        let ghost n = word.len() as int;
        let ghost mut j: int = 0;
        proof {
            lemma_encoded_len(word);
            assert(byte_len == key.spec_bytes().len());
        }
        loop
            invariant_except_break
                it.decrease() is Some,
                it.remaining() == word.subrange(j, n),
                walk(self.base(), self.check(), word.subrange(0, j)) == Some(b as int),
                off == byte_offset(word, j),
                same_matches(result@, prefix_matches(self.base(), self.check(), word, j - 1)),
            invariant
                n == word.len(),
                0 <= j <= n,
                byte_offset(word, n) <= usize::MAX,
            ensures
                same_matches(result@, prefix_matches(self.base(), self.check(), word, n)),
            decreases it.decrease()->0,
        {
            match self.accept(b) {
                Some(v) => {
                    result.push((off, v));
                },
                None => {},
            }
            match it.next() {
                Some(c) => {
                    proof {
                        lemma_walk_step(self.base(), self.check(), word, j);
                        assert(word.subrange(j, n).drop_first() == word.subrange(j + 1, n));
                        lemma_byte_offset_monotone(word, j + 1, n);
                    }
                    match self.child(b, symbol_of(c)) {
                        Some(p) => {
                            b = self.base[p];
                            off = off + char_width(c);
                            proof {
                                j = j + 1;
                            }
                        },
                        None => {
                            proof {
                                lemma_prefix_matches_stop(self.base(), self.check(), word, j, n);
                            }
                            break ;
                        },
                    }
                },
                None => {
                    break ;
                },
            }
        }
        if result.len() == 0 {
            None
        } else {
            Some(result)
        }
    }
}

} // verus!
