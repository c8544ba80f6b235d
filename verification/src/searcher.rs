//! Forward maximum matching: cutting a text into dictionary entries and the
//! stretches between them.
use crate::keys::symbol_of;
use crate::text::{
    byte_offset, char_width, is_scalar_range, lemma_byte_offset_monotone, lemma_byte_offset_tail,
    lemma_encode_injective, lemma_encode_split, lemma_encoded_len, lemma_offset_is_boundary, piece,
    slice_of,
};
use crate::trie::{lemma_walk_step, lookup, walk, DoubleArrayTrie};
use vstd::prelude::*;
use vstd::std_specs::iter::IteratorSpec;
use vstd::string::{StringExecFns, StringSliceAdditionalSpecFns};

verus! {

broadcast use {vstd::string::group_string_axioms, vstd::slice::group_slice_axioms};

/// One step of the tokenizer: a dictionary entry, a stretch without one,
/// each with the byte offsets of its start and end, or the end of the text.
#[derive(Debug, Clone, Copy, PartialEq, Eq, Structural)]
pub enum SearchStep {
    Match(usize, usize),
    Reject(usize, usize),
    Done,
}

/// Number of leading scalars of `rest` that the arrays can walk, given that
/// the first `j` can.
pub open spec fn reach(base: Seq<i32>, check: Seq<u32>, rest: Seq<char>, j: int) -> int
    decreases rest.len() - j,
{
    if 0 <= j < rest.len() && walk(base, check, rest.subrange(0, j + 1)) is Some {
        reach(base, check, rest, j + 1)
    } else {
        j
    }
}

/// Length in scalars of the longest prefix of `rest` with at most `j`
/// scalars that is an entry, or -1 if there is none.
pub open spec fn last_entry(base: Seq<i32>, check: Seq<u32>, rest: Seq<char>, j: int) -> int
    decreases j + 1,
{
    if j < 0 {
        -1
    } else if lookup(base, check, rest.subrange(0, j)) is Some {
        j
    } else {
        last_entry(base, check, rest, j - 1)
    }
}

/// The step taken at the start of `rest`: whether it is a match, and how
/// many scalars it spans. If all of `rest` can be walked, the step spans it
/// and is a match exactly if `rest` is an entry. Otherwise the walk stops
/// at a scalar: the step is the longest entry found up to there, or, if
/// there is none, the stretch up to and including that scalar.
pub open spec fn step_of(base: Seq<i32>, check: Seq<u32>, rest: Seq<char>) -> (bool, int) {
    let stop = reach(base, check, rest, 0);
    if stop >= rest.len() {
        (lookup(base, check, rest) is Some, rest.len() as int)
    } else {
        let entry = last_entry(base, check, rest, stop);
        if entry >= 0 {
            (true, entry)
        } else {
            (false, stop + 1)
        }
    }
}

/// `r` is the step of the given kind over the byte range `start..end`.
pub open spec fn step_is(r: SearchStep, is_match: bool, start: int, end: int) -> bool {
    if is_match {
        r == SearchStep::Match(start as usize, end as usize)
    } else {
        r == SearchStep::Reject(start as usize, end as usize)
    }
}

/// The steps that the tokenizer takes from the scalar `from` of `text`
/// to its end, each as its kind and the byte offsets of its start and end.
/// Where a step spans nothing, which only a trie holding the empty word can
/// cause, the steps end with it.
pub open spec fn segments(base: Seq<i32>, check: Seq<u32>, text: Seq<char>, from: int) -> Seq<
    (bool, int, int),
>
    decreases text.len() - from,
{
    if from < 0 || from >= text.len() {
        Seq::empty()
    } else {
        let (is_match, n) = step_of(base, check, text.subrange(from, text.len() as int));
        let first = (is_match, byte_offset(text, from), byte_offset(text, from + n));
        if n <= 0 || from + n > text.len() {
            seq![first]
        } else {
            seq![first] + segments(base, check, text, from + n)
        }
    }
}

/// The ranges of `steps` are not empty and lie end to end from `from` to `to`.
pub open spec fn tiles(steps: Seq<(bool, int, int)>, from: int, to: int) -> bool
    decreases steps.len(),
{
    if steps.len() == 0 {
        from == to
    } else {
        steps[0].1 == from && steps[0].1 < steps[0].2 && tiles(steps.drop_first(), steps[0].2, to)
    }
}

/// The walk stops within what is left.
pub proof fn lemma_reach_bounds(base: Seq<i32>, check: Seq<u32>, rest: Seq<char>, j: int)
    requires
        0 <= j <= rest.len(),
    ensures
        j <= reach(base, check, rest, j) <= rest.len(),
    decreases rest.len() - j,
{
    if j < rest.len() && walk(base, check, rest.subrange(0, j + 1)) is Some {
        lemma_reach_bounds(base, check, rest, j + 1);
    }
}

/// The longest entry is no longer than its bound, and it is the empty word
/// only if the arrays hold the empty word.
pub proof fn lemma_last_entry_bounds(base: Seq<i32>, check: Seq<u32>, rest: Seq<char>, j: int)
    requires
        j <= rest.len(),
    ensures
        -1 <= last_entry(base, check, rest, j) <= j || last_entry(base, check, rest, j) == -1,
        lookup(base, check, Seq::<char>::empty()) is None ==> last_entry(base, check, rest, j) != 0,
    decreases j + 1,
{
    if j >= 0 {
        if j == 0 {
            assert(rest.subrange(0, 0) == Seq::<char>::empty());
        }
        lemma_last_entry_bounds(base, check, rest, j - 1);
    }
}

/// A step never spans more than is left, and it spans at least one scalar
/// unless the trie holds the empty word.
pub proof fn lemma_step_advances(base: Seq<i32>, check: Seq<u32>, rest: Seq<char>)
    requires
        rest.len() > 0,
    ensures
        0 <= step_of(base, check, rest).1 <= rest.len(),
        lookup(base, check, Seq::<char>::empty()) is None ==> 1 <= step_of(base, check, rest).1,
{
    lemma_reach_bounds(base, check, rest, 0);
    lemma_last_entry_bounds(base, check, rest, reach(base, check, rest, 0));
}

/// The steps of the tokenizer cut the text into ranges that are not empty
/// and lie end to end: every byte of the text lies in exactly one step.
/// This holds for every trie that does not hold the empty word.
pub proof fn lemma_segments_tile(base: Seq<i32>, check: Seq<u32>, text: Seq<char>, from: int)
    requires
        0 <= from <= text.len(),
        lookup(base, check, Seq::<char>::empty()) is None,
    ensures
        tiles(
            segments(base, check, text, from),
            byte_offset(text, from),
            byte_offset(text, text.len() as int),
        ),
    decreases text.len() - from,
{
    if from < text.len() {
        let rest = text.subrange(from, text.len() as int);
        lemma_step_advances(base, check, rest);
        let n = step_of(base, check, rest).1;
        lemma_segments_tile(base, check, text, from + n);
        lemma_byte_offset_monotone(text, from, from + n);
        let all = segments(base, check, text, from);
        assert(all.drop_first() == segments(base, check, text, from + n));
    }
}

/// A tokenizer over one text: each call of `next` takes the step at the
/// current position and moves past it.
pub struct DoubleArrayTrieSearcher<'a, 'b> {
    haystack: &'a str,
    dat: &'b DoubleArrayTrie,
    start_pos: usize,
    cursor: Ghost<int>,
}

impl<'a, 'b> DoubleArrayTrieSearcher<'a, 'b> {
    #[verifier::type_invariant]
    spec fn consistent(self) -> bool {
        &&& 0 <= self.cursor@ <= self.haystack@.len()
        &&& self.start_pos == byte_offset(self.haystack@, self.cursor@)
    }

    /// The text that is cut.
    pub closed spec fn text(&self) -> Seq<char> {
        self.haystack@
    }

    /// The trie that the text is cut by.
    pub closed spec fn trie(&self) -> DoubleArrayTrie {
        *self.dat
    }

    /// Number of scalars that the steps taken so far span.
    pub closed spec fn position(&self) -> int {
        self.cursor@
    }

    /// Byte offset at which the next step starts.
    pub closed spec fn offset(&self) -> int {
        self.start_pos as int
    }

    /// A tokenizer at the start of `haystack`.
    pub(crate) fn new(dat: &'b DoubleArrayTrie, haystack: &'a str) -> (searcher: Self)
        ensures
            searcher.text() == haystack@,
            searcher.trie() == *dat,
            searcher.position() == 0,
            searcher.offset() == 0,
    {
        DoubleArrayTrieSearcher { haystack, dat, start_pos: 0, cursor: Ghost(0) }
    }

    /// The text that is cut.
    pub fn haystack(&self) -> (text: &'a str)
        ensures
            text@ == self.text(),
    {
        self.haystack
    }

    /// Shows a step as text: the part of the text that it spans, followed by
    /// `/n` for a match and by `/x` for a reject; `/#` for the end.
    pub fn search_step_to_str(&self, step: &SearchStep) -> (shown: String)
        requires
            match *step {
                SearchStep::Match(start, end) => is_scalar_range(
                    self.text(),
                    start as int,
                    end as int,
                ),
                SearchStep::Reject(start, end) => is_scalar_range(
                    self.text(),
                    start as int,
                    end as int,
                ),
                SearchStep::Done => true,
            },
        ensures
            shown@ == match *step {
                SearchStep::Match(start, end) => piece(self.text(), start as int, end as int)
                    + "/n"@,
                SearchStep::Reject(start, end) => piece(self.text(), start as int, end as int)
                    + "/x"@,
                SearchStep::Done => "/#"@,
            },
    {
        match *step {
            SearchStep::Match(start, end) => {
                let mut shown = String::from_str(slice_of(self.haystack, start, end));
                shown.append("/n");
                shown
            },
            SearchStep::Reject(start, end) => {
                let mut shown = String::from_str(slice_of(self.haystack, start, end));
                shown.append("/x");
                shown
            },
            SearchStep::Done => String::from_str("/#"),
        }
    }

    /// Takes the next step: `Done` at the end of the text, and otherwise the
    /// step that `step_of` describes for the rest of the text, as a `Match`
    /// or a `Reject` with the byte offsets of its start and end. The
    /// tokenizer moves to the end of the step.
    pub fn next(&mut self) -> (r: SearchStep)
        ensures
            final(self).text() == old(self).text(),
            final(self).trie() == old(self).trie(),
            0 <= old(self).position() <= final(self).position() <= old(self).text().len(),
            old(self).offset() == byte_offset(old(self).text(), old(self).position()),
            final(self).offset() == byte_offset(old(self).text(), final(self).position()),
            old(self).offset() <= final(self).offset() <= usize::MAX,
            old(self).position() == old(self).text().len() ==> r == SearchStep::Done
                && final(self).position() == old(self).position(),
            old(self).position() < old(self).text().len() ==> ({
                let text = old(self).text();
                let from = old(self).position();
                let step = step_of(
                    old(self).trie().base(),
                    old(self).trie().check(),
                    text.subrange(from, text.len() as int),
                );
                &&& final(self).position() == from + step.1
                &&& step_is(r, step.0, old(self).offset(), final(self).offset())
                &&& is_scalar_range(text, old(self).offset(), final(self).offset())
            }),
    {
        proof {
            use_type_invariant(&*self);
        }
        let haystack: &'a str = self.haystack;
        let dat: &'b DoubleArrayTrie = self.dat;
        let start: usize = self.start_pos;
        let total: usize = haystack.as_bytes().len();
        let ghost text = haystack@;
        let ghost from = self.cursor@;
        let ghost len = text.len() as int;
        let ghost base = dat.base();
        let ghost check = dat.check();
        proof {
            lemma_encoded_len(text);
            lemma_byte_offset_monotone(text, from, len);
            assert(total == haystack.spec_bytes().len());
        }
        if start >= total {
            return SearchStep::Done;
        }
        proof {
            lemma_offset_is_boundary(text, from);
            lemma_encode_split(text, from);
        }
        let (_, tail) = haystack.split_at(start);
        let ghost rest = text.subrange(from, len);
        proof {
            lemma_encode_injective(tail@, rest);
            assert(rest.subrange(0, 0) == Seq::<char>::empty());
            assert(walk(base, check, rest.subrange(0, 0)) == Some(crate::trie::root_base(base)));
        }
        let mut b: i32 = dat.root();
        let mut it = tail.chars();
        let mut off: usize = 0;
        let mut matched: Option<usize> = None;
        let ghost mut j: int = 0;
        let ghost mut entry: int = -1;
        loop
            invariant
                it.decrease() is Some,
                0 <= from < len,
                len == text.len(),
                text == haystack@,
                rest == text.subrange(from, len),
                base == dat.base(),
                check == dat.check(),
                start == byte_offset(text, from),
                total == byte_offset(text, len),
                0 <= j <= rest.len(),
                it.remaining() == rest.subrange(j, rest.len() as int),
                walk(base, check, rest.subrange(0, j)) == Some(b as int),
                reach(base, check, rest, 0) == reach(base, check, rest, j),
                off == byte_offset(rest, j),
                entry == last_entry(base, check, rest, j - 1),
                -1 <= entry < j,
                entry < 0 <==> matched is None,
                matched matches Some(rel) ==> rel == byte_offset(rest, entry),
                self.haystack == haystack,
                self.dat == dat,
                self.start_pos == start,
                self.cursor@ == from,
                old(self).haystack == haystack,
                old(self).dat == dat,
                old(self).start_pos == start,
                old(self).cursor@ == from,
            decreases it.decrease()->0,
        {
            let here: bool = dat.accept(b).is_some();
            if here {
                matched = Some(off);
                proof {
                    entry = j;
                }
            }
            proof {
                lemma_byte_offset_tail(text, from, j);
                lemma_byte_offset_monotone(text, from + j, len);
                if entry >= 0 {
                    lemma_byte_offset_tail(text, from, entry);
                    lemma_byte_offset_monotone(text, from + entry, len);
                    lemma_byte_offset_monotone(text, from, from + entry);
                }
            }
            match it.next() {
                Some(c) => {
                    proof {
                        lemma_walk_step(base, check, rest, j);
                        assert(rest.subrange(j, rest.len() as int).drop_first() == rest.subrange(
                            j + 1,
                            rest.len() as int,
                        ));
                        lemma_byte_offset_tail(text, from, j + 1);
                        lemma_byte_offset_monotone(text, from + j + 1, len);
                        lemma_byte_offset_monotone(text, from, from + j + 1);
                    }
                    match dat.child(b, symbol_of(c)) {
                        Some(p) => {
                            b = dat.base_at(p);
                            off = off + char_width(c);
                            proof {
                                j = j + 1;
                            }
                        },
                        None => {
                            match matched {
                                Some(rel) => {
                                    let end: usize = start + rel;
                                    *self = DoubleArrayTrieSearcher {
                                        haystack,
                                        dat,
                                        start_pos: end,
                                        cursor: Ghost(from + entry),
                                    };
                                    return SearchStep::Match(start, end);
                                },
                                None => {
                                    let end: usize = start + off + char_width(c);
                                    *self = DoubleArrayTrieSearcher {
                                        haystack,
                                        dat,
                                        start_pos: end,
                                        cursor: Ghost(from + j + 1),
                                    };
                                    return SearchStep::Reject(start, end);
                                },
                            }
                        },
                    }
                },
                None => {
                    assert(rest.subrange(0, j) == rest);
                    *self = DoubleArrayTrieSearcher {
                        haystack,
                        dat,
                        start_pos: total,
                        cursor: Ghost(len),
                    };
                    if here {
                        return SearchStep::Match(start, total);
                    } else {
                        return SearchStep::Reject(start, total);
                    }
                },
            }
        }
    }
}

} // verus!
