//! Compiles a sorted list of keys into the two arrays of a trie.
use crate::keys::{
    is_prefix, key_views, lemma_adjacent_symbols, lemma_symbol_range, lemma_total_symbols_bounds,
    MAX_SYMBOL, ordered_at, sorted_keys, symbol, symbol_at, symbol_of, symbols_within,
    total_symbols, weight,
};
use crate::layout::{
    adjoins, ahead, ahead_ok, below, blocked, blocks, boundary, claim_ok, exhausted_node,
    extends, filled, free_in, group_ok, grows, internal_node, inv, least_fit,
    lemma_ahead_claimed, lemma_ahead_done, lemma_ahead_later, lemma_ahead_unowned,
    lemma_below_trans, lemma_built, lemma_child_node, lemma_child_weight, lemma_fill_child,
    lemma_fill_grows, lemma_fill_leaf, lemma_grows_done, lemma_grows_trans, lemma_grows_weaken,
    lemma_initial, lemma_place_group, lemma_resize_inv, lemma_resized_same, lemma_resized_twice,
    lemma_settled, lemma_settled_resized, lemma_shape, map_kept, member_ok, owner_kept,
    partial_ok, placed, resized, rooted, search_start, settled, siblings_ok, stamped, tail_free,
    threshold, unowned, Layout, Node,
};
use crate::plan::{
    finish, first_free, groups, initial_layout, lemma_finish, lemma_groups, lemma_initial_layout,
    lemma_least_fit_pad, lemma_next_start, lemma_offset_for, lemma_pad_filled, lemma_pad_placed,
    lemma_pad_resized, oversized, pad, place_node, place_rest, plan_arrays, root_node,
    starts_next, taken, taken_count, Plan,
};
use crate::trie::DoubleArrayTrie;
use vstd::prelude::*;
use vstd::std_specs::iter::IteratorSpec;

verus! {

broadcast use vstd::string::group_string_axioms;

/// Length that the arrays start with: one slot for every symbol of the root
/// but the largest.
pub const INITIAL_SLOTS: usize = 0x110000;

/// Largest high-water mark at which another sibling group is still placed:
/// a group that spans every symbol then still ends within 31 bits.
pub const SIZE_LIMIT: usize = 0x7FEE_FFFE;

/// High-water mark from which a search for free slots can always succeed:
/// the mark itself, or one while nothing is placed.
pub open spec fn search_floor(size: int) -> int {
    if size >= 1 {
        size
    } else {
        1
    }
}

/// Longest that the arrays are ever asked to be.
pub const ALLOC_LIMIT: usize = 0x8010_FFFF;

/// The larger of two numbers.
fn max(a: usize, b: usize) -> (m: usize)
    ensures
        m == if a > b {
            a
        } else {
            b
        },
{
    if a > b {
        a
    } else {
        b
    }
}

/// Length to which full arrays of length `alloc` grow when `done` of `total`
/// keys are in place: longer by a twentieth, or by the factor of keys to
/// keys in place if that is more, and never past the longest useful length.
pub open spec fn grown_length_of(alloc: int, total: int, done: int) -> int {
    let by_ratio = alloc * 105 / 100;
    let by_progress = alloc * total / (done + 1);
    let wanted = if by_ratio >= by_progress {
        by_ratio
    } else {
        by_progress
    };
    if wanted > ALLOC_LIMIT {
        ALLOC_LIMIT as int
    } else {
        wanted
    }
}

/// Length to which full arrays grow.
fn grown_length(alloc: usize, total: usize, done: usize) -> (len: usize)
    requires
        total <= 0x7FFF_FFFF,
    ensures
        len == grown_length_of(alloc as int, total as int, done as int),
        len <= ALLOC_LIMIT,
{
    let a: u128 = alloc as u128;
    let t: u128 = total as u128;
    assert(a * 105 <= 0xFFFF_FFFF_FFFF_FFFF * 105) by (nonlinear_arith)
        requires
            a <= 0xFFFF_FFFF_FFFF_FFFF,
    ;
    assert(a * t <= 0xFFFF_FFFF_FFFF_FFFF * 0x7FFF_FFFF) by (nonlinear_arith)
        requires
            a <= 0xFFFF_FFFF_FFFF_FFFF,
            t <= 0x7FFF_FFFF,
    ;
    let by_ratio: u128 = a * 105 / 100;
    let by_progress: u128 = a * t / (done as u128 + 1);
    let wanted: u128 = if by_ratio >= by_progress {
        by_ratio
    } else {
        by_progress
    };
    if wanted > ALLOC_LIMIT as u128 {
        ALLOC_LIMIT
    } else {
        wanted as usize
    }
}

/// Most slots by which `w` sibling groups raise the high-water mark when no
/// symbol is above `m`: a group is placed no higher than the mark and spans
/// at most `m + 1` slots.
pub open spec fn span_cost(m: int, w: int) -> int {
    (m + 1) * w
}

/// No symbol of `keys` is above `m`, and even if every symbol of the
/// dictionary took a sibling group of its own, the high-water mark would
/// stay within the limit.
pub open spec fn fits_within(keys: Seq<Seq<char>>, m: int) -> bool {
    &&& 0 <= m
    &&& symbols_within(keys, m)
    &&& 1 + span_cost(m, total_symbols(keys)) <= SIZE_LIMIT
}

/// The dictionary is small enough for a build to succeed wherever its
/// sibling groups come to lie: the number of its symbols times the span of
/// its scalars stays within 31 bits.
pub open spec fn surely_fits(keys: Seq<Seq<char>>) -> bool {
    exists|m: int| fits_within(keys, m)
}

/// The cost of groups adds up, grows with their number, and is at least
/// their number.
proof fn lemma_span_cost(m: int, a: int, b: int)
    requires
        0 <= m,
    ensures
        span_cost(m, a + b) == span_cost(m, a) + span_cost(m, b),
        a <= b ==> span_cost(m, a) <= span_cost(m, b),
        0 <= a ==> a <= span_cost(m, a),
        span_cost(m, 0) == 0,
        span_cost(m, 1) == m + 1,
{
    assert((m + 1) * (a + b) == (m + 1) * a + (m + 1) * b) by (nonlinear_arith);
    assert(a <= b ==> (m + 1) * a <= (m + 1) * b) by (nonlinear_arith)
        requires
            0 <= m,
    ;
    assert(0 <= a ==> a <= (m + 1) * a) by (nonlinear_arith)
        requires
            0 <= m,
    ;
}

/// A dictionary with 2^31 - 1 symbols or more need not fit.
proof fn lemma_too_many_symbols(keys: Seq<Seq<char>>)
    requires
        total_symbols(keys) >= 0x7FFF_FFFF,
    ensures
        !surely_fits(keys),
{
    assert forall|m: int| !fits_within(keys, m) by {
        if 0 <= m {
            lemma_span_cost(m, total_symbols(keys), total_symbols(keys));
        }
    }
}

/// The arrays that a build makes of `keys`, `base` first, or nothing where
/// it makes none. Every sibling group lies at the least offset, from the
/// position that the searches before it left, that is unclaimed and leaves
/// the slots of the group free; the groups are placed key by key and depth
/// first; and the arrays end 0x110000 slots past the highest offset. What
/// is built is this function of the keys and of nothing else.
pub closed spec fn built_arrays(keys: Seq<Seq<char>>) -> Option<(Seq<i32>, Seq<u32>)> {
    plan_arrays(keys)
}

/// What a build owes: the trie over the arrays that a build makes of the
/// keys, which is well-formed, holds exactly the keys, walks exactly their
/// prefixes and has one negative base for each key; or nothing, where a
/// build makes no arrays, which is so only for a dictionary that need not
/// fit.
pub open spec fn built(r: Option<DoubleArrayTrie>, keys: Seq<Seq<char>>) -> bool {
    match r {
        Some(trie) => {
            &&& built_arrays(keys) == Some((trie.base(), trie.check()))
            &&& trie.well_formed()
            &&& trie.holds(keys)
            &&& trie.walks(keys)
            &&& trie.ends(keys)
        },
        None => built_arrays(keys) is None && !surely_fits(keys),
    }
}

/// The scalars of `s`, unless there are too many of them to count in 31 bits.
fn scalars(s: &str) -> (r: Option<Vec<char>>)
    ensures
        match r {
            Some(v) => v@ == s@ && v@.len() < 0x7FFF_FFFF,
            None => s@.len() >= 0x7FFF_FFFF,
        },
{
    let mut out: Vec<char> = Vec::new();
    let mut it = s.chars();
    loop
        invariant
            it.decrease() is Some,
            out@ + it.remaining() == s@,
            out@.len() < 0x7FFF_FFFF,
        ensures
            out@ == s@,
        decreases it.decrease()->0,
    {
        match it.next() {
            Some(c) => {
                if out.len() >= 0x7FFF_FFFE {
                    return None;
                }
                let ghost before = out@;
                out.push(c);
                assert(out@ + it.remaining() == s@) by {
                    assert(out@ + it.remaining() =~= before + (seq![c] + it.remaining()));
                }
            },
            None => {
                assert(out@ + it.remaining() =~= out@);
                break ;
            },
        }
    }
    Some(out)
}

/// The keys as vectors of scalars, unless a key or the dictionary is too
/// large to count in 31 bits.
fn scalars_of_all(keys: &[&str]) -> (r: Option<Vec<Vec<char>>>)
    ensures
        match r {
            Some(v) => {
                &&& v@.len() == keys@.len()
                &&& v@.len() <= 0x7FFF_FFFF
                &&& forall|i: int|
                    0 <= i < v@.len() ==> (#[trigger] v@[i])@ == keys@[i]@ && v@[i]@.len()
                        < 0x7FFF_FFFF
                &&& !oversized(key_views(keys@))
            },
            None => !surely_fits(key_views(keys@)) && oversized(key_views(keys@)),
        },
{
    let n: usize = keys.len();
    let ghost all = key_views(keys@);
    if n > 0x7FFF_FFFF {
        proof {
            lemma_total_symbols_bounds(all, all.len() as int, 0);
            lemma_too_many_symbols(all);
        }
        return None;
    }
    let mut out: Vec<Vec<char>> = Vec::new();
    let mut i: usize = 0;
    while i < n
        invariant
            i <= n,
            n == keys@.len(),
            n <= 0x7FFF_FFFF,
            all == key_views(keys@),
            out@.len() == i,
            forall|j: int|
                0 <= j < out@.len() ==> (#[trigger] out@[j])@ == keys@[j]@ && out@[j]@.len()
                    < 0x7FFF_FFFF,
        decreases n - i,
    {
        match scalars(keys[i]) {
            Some(v) => {
                out.push(v);
            },
            None => {
                proof {
                    lemma_total_symbols_bounds(all, all.len() as int, i as int);
                    lemma_too_many_symbols(all);
                    assert(all[i as int].len() >= 0x7FFF_FFFF);
                }
                return None;
            },
        }
        i = i + 1;
    }
    proof {
        assert forall|j: int| 0 <= j < all.len() implies (#[trigger] all[j]).len() < 0x7FFF_FFFF by {
            assert(out@[j]@ == keys@[j]@);
        }
    }
    Some(out)
}

/// At the root every key has the empty prefix; and there is a bound on the
/// symbols of the keys, the one that lets them fit if any does.
proof fn lemma_root(all: Seq<Seq<char>>, m: int)
    requires
        m == if surely_fits(all) {
            choose|m: int| fits_within(all, m)
        } else {
            MAX_SYMBOL as int
        },
        all.len() <= 0x7FFF_FFFF,
    ensures
        0 <= m,
        symbols_within(all, m),
        internal_node(all, root_node(all), Seq::<char>::empty()),
{
    let nothing = Seq::<char>::empty();
    assert forall|i: int| 0 <= i < all.len() implies is_prefix(nothing, #[trigger] all[i]) by {
        assert(all[i].subrange(0, 0) =~= nothing);
    }
    if !surely_fits(all) {
        assert forall|i: int, j: int| 0 <= i < all.len() && 0 <= j < all[i].len() implies symbol(
            #[trigger] all[i][j],
        ) <= m by {
            lemma_symbol_range(all[i][j]);
        }
    }
}

/// The arrays of a dictionary with keys are those that placing the
/// children of the root leaves.
proof fn lemma_plan_arrays(all: Seq<Seq<char>>, s: Seq<Node>)
    requires
        !oversized(all),
        all.len() > 0,
        s == groups(all, root_node(all), Seq::<char>::empty()),
    ensures
        plan_arrays(all) == match place_node(
            Plan { st: pad(initial_layout()), ncp: 0, done: 0 },
            all,
            s,
            Seq::<char>::empty(),
            (total_symbols(all) + 1) as nat,
        ) {
            None => None::<(Seq<i32>, Seq<u32>)>,
            Some((q, _)) => Some(finish(q.st)),
        },
{
}

/// Builds a double-array trie from a sorted list of keys.
pub struct DoubleArrayTrieBuilder {
    check: Vec<u32>,
    base: Vec<i32>,
    used: Vec<bool>,
    size: usize,
    alloc_size: usize,
    keys: Vec<Vec<char>>,
    next_check_pos: usize,
    progress: usize,
    owner: Ghost<Map<int, Seq<char>>>,
}

impl DoubleArrayTrieBuilder {
    pub(crate) closed spec fn layout(&self) -> Layout {
        Layout {
            base: self.base@,
            check: self.check@,
            used: self.used@,
            size: self.size as int,
            owner: self.owner@,
        }
    }

    pub(crate) closed spec fn dictionary(&self) -> Seq<Seq<char>> {
        Seq::new(self.keys@.len(), |i: int| self.keys@[i]@)
    }

    /// A builder that reports no progress: nothing is allocated, no key is
    /// taken in, and nothing is placed or counted.
    pub fn new() -> (builder: DoubleArrayTrieBuilder)
        ensures
            builder.is_empty(),
    {
        DoubleArrayTrieBuilder {
            check: Vec::new(),
            base: Vec::new(),
            used: Vec::new(),
            size: 0,
            alloc_size: 0,
            keys: Vec::new(),
            next_check_pos: 0,
            progress: 0,
            owner: Ghost(Map::empty()),
        }
    }

    /// The builder is as `new` makes it: the three arrays have no slot, no
    /// key is taken in, no offset is claimed, the high-water mark and the
    /// position that searches start from are zero, and no key is counted as
    /// in place.
    pub closed spec fn is_empty(&self) -> bool {
        &&& self.check@.len() == 0
        &&& self.base@.len() == 0
        &&& self.used@.len() == 0
        &&& self.size == 0
        &&& self.alloc_size == 0
        &&& self.keys@.len() == 0
        &&& self.next_check_pos == 0
        &&& self.progress == 0
        &&& self.owner@ == Map::<int, Seq<char>>::empty()
    }

    /// Sets the callback that inspects the progress of the build: it is
    /// called once for every key put in place, with the number of keys in
    /// place so far and the number of all keys.
    pub fn progress<F: Fn(usize, usize)>(self, func: F) -> (reporting: ProgressBuilder<F>)
        ensures
            reporting.callback() == func,
    {
        ProgressBuilder { builder: self, func }
    }

    /// Builds the trie of `keys`, which must be sorted by scalar values and
    /// hold no key twice. The value of each key is its index in `keys`.
    /// The result is `None` if the arrays would outgrow what offsets of 31
    /// bits can address, which cannot happen to a dictionary that
    /// `surely_fits`.
    pub fn build(self, keys: &[&str]) -> (r: Option<DoubleArrayTrie>)
        requires
            sorted_keys(key_views(keys@)),
        ensures
            built(r, key_views(keys@)),
    {
        let quiet = |_done: usize, _total: usize| {};
        self.build_with(keys, &quiet)
    }

    /// Builds the trie of `keys` and calls `func` after every key put in
    /// place.
    pub(crate) fn build_with<F: Fn(usize, usize)>(self, keys: &[&str], func: &F) -> (r: Option<
        DoubleArrayTrie,
    >)
        requires
            sorted_keys(key_views(keys@)),
            forall|d: usize, t: usize|
                1 <= d <= t && t == keys@.len() ==> call_requires(*func, (d, t)),
        ensures
            built(r, key_views(keys@)),
    {
        let ghost all = key_views(keys@);
        let chars = match scalars_of_all(keys) {
            Some(chars) => chars,
            None => {
                return None;
            },
        };
        let total: usize = chars.len();
        let mut b = self.begin(chars, Ghost(all));
        let ghost st0 = b.layout();
        let root = Node { code: 0, depth: 0, left: 0, right: total };
        let mut siblings: Vec<Node> = Vec::new();
        let ghost nothing = Seq::<char>::empty();
        let ghost m: int = if surely_fits(all) {
            choose|m: int| fits_within(all, m)
        } else {
            MAX_SYMBOL as int
        };
        proof {
            lemma_root(all, m);
            assert(root == root_node(all));
            assert forall|q: int, i: int| #[trigger] ahead_ok(st0.owner, all, 0, 0, q, i) by {}
        }
        let cnt: usize = b.fetch(&root, &mut siblings, Ghost(nothing));
        if cnt > 0 {
            proof {
                lemma_total_symbols_bounds(all, all.len() as int, 0);
                lemma_groups(all, root, nothing, siblings@);
            }
            match b.insert(
                &siblings,
                func,
                Ghost(nothing),
                Ghost(m),
                Ghost((total_symbols(all) + 1) as nat),
            ) {
                None => {
                    proof {
                        lemma_plan_arrays(all, siblings@);
                    }
                    return None;
                },
                Some(begin) => {
                    proof {
                        lemma_plan_arrays(all, siblings@);
                    }
                },
            }
        }
        proof {
            lemma_settled(st0, b.layout(), all);
        }
        Some(b.end(Ghost(all)))
    }

    /// Empties the builder, takes the keys in, and sets the arrays up with
    /// the root alone.
    fn begin(self, chars: Vec<Vec<char>>, Ghost(all): Ghost<Seq<Seq<char>>>) -> (b:
        DoubleArrayTrieBuilder)
        requires
            sorted_keys(all),
            all.len() == chars@.len(),
            chars@.len() <= 0x7FFF_FFFF,
            forall|i: int|
                0 <= i < chars@.len() ==> (#[trigger] chars@[i])@ == all[i] && chars@[i]@.len()
                    < 0x7FFF_FFFF,
        ensures
            b.wf(),
            b.dictionary() == all,
            b.keys@.len() == chars@.len(),
            b.layout() == initial_layout(),
            b.next_check_pos == 0,
            b.progress == 0,
            b.size == 0,
    {
        let mut b = self;
        b.check.clear();
        b.base.clear();
        b.used.clear();
        b.size = 0;
        b.alloc_size = 0;
        b.keys = chars;
        b.next_check_pos = 0;
        b.progress = 0;
        proof {
            b.owner@ = Map::empty();
        }
        assert(b.dictionary() =~= all);
        b.resize(INITIAL_SLOTS);
        b.base[0] = 1;
        proof {
            lemma_initial(b.layout(), all);
            lemma_initial_layout(b.layout());
        }
        b
    }

    /// Cuts the arrays to their final length, 0x110000 slots past the
    /// highest claimed offset, and hands them over as a trie.
    fn end(self, Ghost(all): Ghost<Seq<Seq<char>>>) -> (trie: DoubleArrayTrie)
        requires
            self.wf(),
            self.dictionary() == all,
            settled(self.layout()),
            all.len() > 0 ==> rooted(self.layout()),
            all.len() == 0 ==> self.layout() == initial_layout(),
        ensures
            (trie.base(), trie.check()) == finish(pad(self.layout())),
            trie.well_formed(),
            trie.holds(all),
            trie.walks(all),
            trie.ends(all),
    {
        let mut b = self;
        let ghost st1 = b.layout();
        let last_used = b.last_used();
        let new_len: usize = match last_used {
            Some(last) => max(last + INITIAL_SLOTS, b.size),
            None => b.alloc_size,
        };
        proof {
            if last_used is None && all.len() > 0 {
                assert(claim_ok(st1, 1));
            }
            lemma_resize_inv(st1, all, new_len as int);
            lemma_settled_resized(st1, all, new_len as int);
        }
        b.resize(new_len);
        proof {
            let st2 = b.layout();
            let last = match last_used {
                Some(last) => Some(last as int),
                None => None,
            };
            if all.len() == 0 {
                assert(st2.owner.dom() =~= Set::<int>::empty());
            }
            lemma_built(st2, all);
            lemma_shape(st1, st2, all, last);
            lemma_finish(st1, last, new_len as int);
        }
        DoubleArrayTrie::from_arrays(b.base, b.check)
    }

    /// The highest offset marked as used, if any is: it lies below the
    /// high-water mark, and no offset above it is marked.
    fn last_used(&self) -> (r: Option<usize>)
        requires
            self.wf(),
        ensures
            match r {
                Some(last) => {
                    &&& last < self.size
                    &&& last < self.alloc_size
                    &&& self.layout().used[last as int]
                    &&& forall|p: int|
                        last < p < self.layout().used.len() ==> !#[trigger] self.layout().used[p]
                },
                None => forall|p: int|
                    0 <= p < self.layout().used.len() ==> !#[trigger] self.layout().used[p],
            },
    {
        let mut i: usize = self.used.len();
        while i > 0
            invariant
                i <= self.used@.len(),
                self.wf(),
                forall|p: int| i <= p < self.used@.len() ==> !#[trigger] self.used@[p],
            decreases i,
        {
            i = i - 1;
            if self.used[i] {
                proof {
                    if i >= self.size {
                        assert(tail_free(self.layout(), i as int));
                    }
                }
                return Some(i);
            }
        }
        None
    }

    /// Sets the length of the three arrays to `new_len`; new slots are empty.
    fn resize(&mut self, new_len: usize)
        requires
            old(self).base@.len() == old(self).check@.len(),
            old(self).base@.len() == old(self).used@.len(),
        ensures
            final(self).layout() == resized(old(self).layout(), new_len as int),
            final(self).alloc_size == new_len,
            final(self).keys == old(self).keys,
            final(self).next_check_pos == old(self).next_check_pos,
            final(self).progress == old(self).progress,
    {
        self.check.resize(new_len, 0);
        self.base.resize(new_len, 0);
        self.used.resize(new_len, false);
        self.alloc_size = new_len;
        proof {
            let st = old(self).layout();
            let new = resized(st, new_len as int);
            assert(self.base@ =~= new.base);
            assert(self.check@ =~= new.check);
            assert(self.used@ =~= new.used);
        }
    }

    /// Groups the keys of `parent` by their symbol at the parent's depth and
    /// appends one node per symbol to `siblings`. Returns their number, which
    /// is zero when every key of `parent` has ended before that depth.
    fn fetch(&self, parent: &Node, siblings: &mut Vec<Node>, Ghost(prefix): Ghost<Seq<char>>) -> (n:
        usize)
        requires
            old(siblings)@.len() == 0,
            sorted_keys(self.dictionary()),
            parent.left <= parent.right <= self.keys@.len(),
            parent.depth < usize::MAX,
            internal_node(self.dictionary(), *parent, prefix) || exhausted_node(
                self.dictionary(),
                *parent,
            ),
        ensures
            n == final(siblings)@.len(),
            exhausted_node(self.dictionary(), *parent) ==> n == 0,
            internal_node(self.dictionary(), *parent, prefix) && parent.left < parent.right ==> {
                &&& siblings_ok(self.dictionary(), final(siblings)@, prefix)
                &&& final(siblings)@[0].left == parent.left
                &&& final(siblings)@.last().right == parent.right
            },
    {
        let depth: usize = parent.depth;
        let ghost keys = self.dictionary();
        let mut i: usize = parent.left;
        let mut have: bool = false;
        let mut cur_code: usize = 0;
        let mut cur_left: usize = 0;
        while i < parent.right
            invariant
                parent.left <= i <= parent.right <= self.keys@.len(),
                keys == self.dictionary(),
                depth == parent.depth,
                depth < usize::MAX,
                sorted_keys(keys),
                internal_node(keys, *parent, prefix) || exhausted_node(keys, *parent),
                !have ==> siblings@.len() == 0,
                !have && i > parent.left ==> exhausted_node(keys, *parent),
                have ==> internal_node(keys, *parent, prefix) && partial_ok(
                    keys,
                    siblings@,
                    prefix,
                    parent.left as int,
                    cur_left as int,
                    i as int,
                    cur_code as int,
                ),
            decreases parent.right - i,
        {
            let key = &self.keys[i];
            let len: usize = key.len();
            assert(keys[i as int] == key@);
            if depth <= len {
                let code: usize = if depth < len {
                    symbol_of(key[depth]) as usize
                } else {
                    0
                };
                assert(code == symbol_at(keys[i as int], depth as int));
                assert(internal_node(keys, *parent, prefix));
                if have {
                    proof {
                        assert(ordered_at(keys, i - 1));
                        assert(is_prefix(prefix, keys[i - 1]));
                        assert(is_prefix(prefix, keys[i as int]));
                        lemma_adjacent_symbols(keys[i - 1], keys[i as int], depth as int);
                    }
                }
                if !have || code != cur_code {
                    if have {
                        let ghost before = siblings@;
                        siblings.push(
                            Node { code: cur_code, depth: depth + 1, left: cur_left, right: i },
                        );
                        proof {
                            let s = siblings@;
                            assert forall|k: int| 0 <= k < s.len() implies #[trigger] member_ok(
                                keys,
                                s,
                                prefix,
                                k,
                            ) by {
                                if k < before.len() {
                                    assert(member_ok(keys, before, prefix, k));
                                }
                            }
                            assert forall|k: int| 0 <= k < s.len() - 1 implies #[trigger] adjoins(
                                s,
                                k,
                            ) by {
                                if k < before.len() - 1 {
                                    assert(adjoins(before, k));
                                }
                            }
                        }
                    }
                    have = true;
                    cur_code = code;
                    cur_left = i;
                }
            } else {
                assert(exhausted_node(keys, *parent));
            }
            i = i + 1;
        }
        if have {
            let ghost before = siblings@;
            siblings.push(
                Node { code: cur_code, depth: depth + 1, left: cur_left, right: parent.right },
            );
            proof {
                let s = siblings@;
                assert forall|k: int| 0 <= k < s.len() implies #[trigger] member_ok(
                    keys,
                    s,
                    prefix,
                    k,
                ) by {
                    if k < before.len() {
                        assert(member_ok(keys, before, prefix, k));
                    }
                }
                assert forall|k: int| 0 <= k < s.len() - 1 implies #[trigger] adjoins(s, k) by {
                    if k < before.len() - 1 {
                        assert(adjoins(before, k));
                    }
                }
                assert forall|j: int, k: int| 0 <= j < k < s.len() implies (#[trigger] s[j]).code
                    < (#[trigger] s[k]).code by {
                    assert(s[j] == before[j]);
                    if k < before.len() {
                        assert(s[k] == before[k]);
                    }
                }
                assert(is_prefix(prefix, keys[cur_left as int]));
            }
        } else {
            proof {
                if parent.left < parent.right {
                    assert(exhausted_node(keys, *parent));
                    assert(keys[parent.left as int].len() < parent.depth);
                }
            }
        }
        siblings.len()
    }

    /// The state of the build: the arrays at full length, the position that
    /// the next search starts from, and the number of keys in place.
    pub(crate) closed spec fn plan(&self) -> Plan {
        Plan {
            st: pad(self.layout()),
            ncp: self.next_check_pos as int,
            done: self.progress as int,
        }
    }

    /// The arrays are consistent with the placements made so far, and the
    /// keys are sorted and of a size that the arrays can hold.
    pub(crate) closed spec fn wf(&self) -> bool {
        &&& inv(self.layout(), self.dictionary())
        &&& self.alloc_size == self.base@.len()
        &&& self.alloc_size <= ALLOC_LIMIT
        &&& self.size <= 0x7FFF_FFFF
        &&& sorted_keys(self.dictionary())
        &&& self.keys@.len() <= 0x7FFF_FFFF
        &&& forall|i: int|
            0 <= i < self.keys@.len() ==> (#[trigger] self.dictionary()[i]).len() < 0x7FFF_FFFF
    }

    /// Index of a sibling whose slot under `begin` is taken, if there is one.
    fn first_taken(&self, begin: usize, siblings: &Vec<Node>) -> (r: Option<usize>)
        requires
            forall|k: int|
                0 <= k < siblings@.len() ==> begin + (#[trigger] siblings@[k]).code
                    < self.check@.len(),
        ensures
            match r {
                Some(k) => k < siblings@.len() && self.layout().check[begin + siblings@[k as int].code]
                    != 0,
                None => forall|k: int|
                    0 <= k < siblings@.len() ==> self.layout().check[begin + (
                    #[trigger] siblings@[k]).code] == 0,
            },
    {
        let n: usize = siblings.len();
        let slots: usize = self.check.len();
        let mut k: usize = 0;
        while k < n
            invariant
                k <= n,
                n == siblings@.len(),
                slots == self.check@.len(),
                forall|j: int|
                    0 <= j < siblings@.len() ==> begin + (#[trigger] siblings@[j]).code
                        < self.check@.len(),
                forall|j: int| 0 <= j < k ==> self.check@[begin + (#[trigger] siblings@[j]).code] == 0,
            decreases n - k,
        {
            assert(begin + siblings@[k as int].code < self.check@.len());
            if self.check[begin + siblings[k].code] != 0 {
                return Some(k);
            }
            k = k + 1;
        }
        None
    }

    /// Searches the lowest offset, from the position kept from earlier
    /// searches on, that is unclaimed and leaves a free slot for the code of
    /// every sibling; the arrays grow as the search needs. The position from
    /// which later searches start moves to the first free slot seen, or past
    /// the slots passed if nearly all of them were taken.
    #[verifier::rlimit(40)]
    fn find_offset(&mut self, siblings: &Vec<Node>, Ghost(prefix): Ghost<Seq<char>>) -> (begin:
        usize)
        requires
            old(self).wf(),
            siblings_ok(old(self).dictionary(), siblings@, prefix),
            old(self).size <= SIZE_LIMIT,
            old(self).next_check_pos <= old(self).size,
        ensures
            final(self).wf(),
            final(self).keys == old(self).keys,
            final(self).progress == old(self).progress,
            final(self).alloc_size >= old(self).alloc_size,
            final(self).layout() == resized(old(self).layout(), final(self).alloc_size as int),
            1 <= begin,
            begin <= old(self).size || begin == 1,
            begin + siblings@.last().code < final(self).alloc_size,
            !final(self).layout().used[begin as int],
            forall|k: int|
                0 <= k < siblings@.len() ==> final(self).layout().check[begin + (
                #[trigger] siblings@[k]).code] == 0,
            final(self).next_check_pos <= begin + siblings@[0].code,
            least_fit(
                old(self).layout(),
                siblings@,
                search_start(old(self).next_check_pos as int, siblings@[0].code as int),
                begin as int,
            ),
            starts_next(
                old(self).layout().check,
                siblings@,
                old(self).next_check_pos as int,
                begin as int,
                final(self).next_check_pos as int,
            ),
    {
        let n: usize = siblings.len();
        let ghost keys = self.dictionary();
        let ghost st0 = self.layout();
        let code0: usize = siblings[0].code;
        let last_code: usize = siblings[n - 1].code;
        let key_size: usize = self.keys.len();
        proof {
            assert(member_ok(keys, siblings@, prefix, 0));
            assert(member_ok(keys, siblings@, prefix, n - 1));
            lemma_resized_same(st0);
            if 0 < n - 1 {
                assert(siblings@[0].code < siblings@[n - 1].code);
            }
        }
        let floor: usize = max(self.size, 1);
        let bound: usize = code0 + floor;
        let mut pos: usize = max(code0 + 1, self.next_check_pos) - 1;
        let ghost start = search_start(self.next_check_pos as int, code0 as int);
        let ghost from = start + code0;
        let mut nonzero_num: usize = 0;
        let mut first: bool = false;
        let mut begin: usize = 0;
        if self.alloc_size <= pos {
            self.resize(pos + 1);
        }
        loop
            invariant_except_break
                pos < bound,
                self.next_check_pos <= pos + 1,
                forall|b: int| start <= b <= pos - code0 ==> #[trigger] blocked(st0, siblings@, b),
                nonzero_num == taken_count(st0.check, from, pos + 1),
            invariant
                n == siblings@.len(),
                code0 == siblings@[0].code,
                last_code == siblings@.last().code,
                code0 <= last_code <= MAX_SYMBOL,
                floor >= 1,
                floor >= st0.size,
                floor <= SIZE_LIMIT,
                floor == st0.size || floor == 1,
                bound == code0 + floor,
                key_size == self.keys@.len(),
                key_size <= 0x7FFF_FFFF,
                inv(st0, keys),
                siblings_ok(keys, siblings@, prefix),
                self.layout() == resized(st0, self.alloc_size as int),
                self.alloc_size >= st0.base.len(),
                self.alloc_size == self.base@.len(),
                self.alloc_size <= ALLOC_LIMIT,
                self.alloc_size > pos,
                self.keys == old(self).keys,
                self.progress == old(self).progress,
                nonzero_num <= pos,
                code0 <= pos <= bound,
                start <= pos + 1 - code0,
                from == start + code0,
                first ==> first_free(st0.check, from, self.next_check_pos as int),
                !first ==> forall|p: int| from <= p <= pos ==> #[trigger] taken(st0.check, p),
            ensures
                first_free(st0.check, from, self.next_check_pos as int),
                nonzero_num == taken_count(st0.check, from, pos as int),
                1 <= begin,
                begin + code0 == pos,
                least_fit(st0, siblings@, start, begin as int),
                begin + last_code < self.alloc_size,
                !self.layout().used[begin as int],
                forall|k: int|
                    0 <= k < siblings@.len() ==> self.layout().check[begin + (
                    #[trigger] siblings@[k]).code] == 0,
                self.next_check_pos <= pos,
            decreases bound - pos,
        {
            pos = pos + 1;
            if self.alloc_size <= pos {
                proof {
                    lemma_resized_twice(st0, self.alloc_size as int, pos + 1);
                }
                self.resize(pos + 1);
            }
            proof {
                lemma_resize_inv(st0, keys, self.alloc_size as int);
            }
            if self.check[pos] != 0 {
                nonzero_num = nonzero_num + 1;
                proof {
                    if pos == bound {
                        assert(tail_free(self.layout(), pos as int));
                    }
                    assert(blocks(st0, siblings@, pos - code0, 0));
                }
            } else {
                if !first {
                    self.next_check_pos = pos;
                    first = true;
                }
                begin = pos - code0;
                if self.alloc_size <= begin + last_code {
                    let need: usize = begin + last_code + 1;
                    let grown: usize = grown_length(self.alloc_size, key_size, self.progress);
                    let new_len: usize = max(need, grown);
                    proof {
                        lemma_resized_twice(st0, self.alloc_size as int, new_len as int);
                    }
                    self.resize(new_len);
                    proof {
                        lemma_resize_inv(st0, keys, self.alloc_size as int);
                    }
                }
                assert forall|k: int| 0 <= k < siblings@.len() implies begin + (
                #[trigger] siblings@[k]).code < self.check@.len() by {
                    if k < n - 1 {
                        assert(siblings@[k].code < siblings@[n - 1].code);
                    }
                }
                if !self.used[begin] {
                    match self.first_taken(begin, siblings) {
                        None => {
                            proof {
                                assert forall|k: int| !#[trigger] blocks(
                                    st0,
                                    siblings@,
                                    begin as int,
                                    k,
                                ) by {
                                    if 0 <= k < n {
                                        assert(self.layout().check[begin + siblings@[k].code] == 0);
                                    }
                                }
                            }
                            break ;
                        },
                        Some(k) => {
                            proof {
                                assert(blocks(st0, siblings@, begin as int, k as int));
                                if pos == bound {
                                    assert(tail_free(
                                        self.layout(),
                                        begin + siblings@[k as int].code,
                                    ));
                                }
                            }
                        },
                    }
                } else {
                    proof {
                        if pos == bound {
                            assert(tail_free(self.layout(), begin as int));
                        }
                        assert(blocked(st0, siblings@, begin as int));
                    }
                }
            }
        }
        let ghost seen = self.next_check_pos as int;
        let span: usize = pos - self.next_check_pos + 1;
        if (nonzero_num as u64) * 20 >= (span as u64) * 19 {
            self.next_check_pos = pos;
        }
        proof {
            lemma_resize_inv(st0, keys, self.alloc_size as int);
            assert(first_free(st0.check, from, seen));
        }
        begin
    }

    /// Claims the offset `begin` for the node `prefix` and stamps the slot of
    /// every sibling with it.
    fn claim(&mut self, begin: usize, siblings: &Vec<Node>, Ghost(prefix): Ghost<Seq<char>>)
        requires
            old(self).wf(),
            siblings_ok(old(self).dictionary(), siblings@, prefix),
            1 <= begin <= SIZE_LIMIT,
            begin + siblings@.last().code < old(self).alloc_size,
            !old(self).layout().used[begin as int],
            forall|k: int|
                0 <= k < siblings@.len() ==> old(self).layout().check[begin + (
                #[trigger] siblings@[k]).code] == 0,
            unowned(old(self).layout().owner, prefix),
        ensures
            final(self).wf(),
            final(self).keys == old(self).keys,
            final(self).progress == old(self).progress,
            final(self).next_check_pos == old(self).next_check_pos,
            final(self).layout() == placed(old(self).layout(), begin as int, siblings@, prefix),
    {
        let n: usize = siblings.len();
        let ghost keys = self.dictionary();
        let ghost st0 = self.layout();
        let last_code: usize = siblings[n - 1].code;
        proof {
            assert(member_ok(keys, siblings@, prefix, n - 1));
            assert forall|k: int| 0 <= k < siblings@.len() implies begin + (
            #[trigger] siblings@[k]).code < st0.check.len() by {
                if k < n - 1 {
                    assert(siblings@[k].code < siblings@[n - 1].code);
                }
            }
        }
        self.used[begin] = true;
        self.size = max(self.size, begin + last_code + 1);
        proof {
            self.owner@ = self.owner@.insert(begin as int, prefix);
        }
        let mut k: usize = 0;
        while k < n
            invariant
                k <= n,
                n == siblings@.len(),
                1 <= begin <= SIZE_LIMIT,
                self.keys == old(self).keys,
                self.progress == old(self).progress,
                self.next_check_pos == old(self).next_check_pos,
                self.alloc_size == old(self).alloc_size,
                self.base@ == st0.base,
                self.used@ == st0.used.update(begin as int, true),
                self.owner@ == st0.owner.insert(begin as int, prefix),
                self.size == placed(st0, begin as int, siblings@, prefix).size,
                self.check@ == stamped(st0.check, begin as int, siblings@, k as int),
                self.check@.len() == st0.check.len(),
                st0.check.len() == self.alloc_size,
                forall|j: int|
                    0 <= j < siblings@.len() ==> begin + (#[trigger] siblings@[j]).code
                        < st0.check.len(),
            decreases n - k,
        {
            assert(begin + siblings@[k as int].code < st0.check.len());
            self.check[begin + siblings[k].code] = begin as u32;
            k = k + 1;
        }
        proof {
            lemma_place_group(st0, keys, siblings@, prefix, begin as int);
        }
    }

    /// Places the sibling group `siblings` of the node `prefix`, then, for
    /// each sibling in turn, either writes the value of the key that ends
    /// there or places the sibling's own children and writes their offset.
    /// Returns the offset of the group, or `None` if the arrays have grown
    /// past what offsets of 31 bits can address.
    fn insert<F: Fn(usize, usize)>(
        &mut self,
        siblings: &Vec<Node>,
        func: &F,
        Ghost(prefix): Ghost<Seq<char>>,
        Ghost(m): Ghost<int>,
        Ghost(fuel): Ghost<nat>,
    ) -> (r: Option<usize>)
        requires
            old(self).wf(),
            fuel > weight(
                old(self).dictionary(),
                siblings@[0].left as int,
                siblings@.last().right as int,
                prefix.len() as int,
            ),
            old(self).next_check_pos <= old(self).size,
            0 <= m,
            symbols_within(old(self).dictionary(), m),
            siblings_ok(old(self).dictionary(), siblings@, prefix),
            ahead(
                old(self).layout().owner,
                old(self).dictionary(),
                prefix.len() as int,
                siblings@[0].left as int,
            ),
            old(self).progress == siblings@[0].left,
            forall|d: usize, t: usize|
                1 <= d <= t && t == old(self).keys@.len() ==> call_requires(*func, (d, t)),
        ensures
            match r {
                Some(begin) => place_node(
                    old(self).plan(),
                    old(self).dictionary(),
                    siblings@,
                    prefix,
                    fuel,
                ) == Some((final(self).plan(), begin as int)),
                None => place_node(
                    old(self).plan(),
                    old(self).dictionary(),
                    siblings@,
                    prefix,
                    fuel,
                ) is None,
            },
            match r {
                Some(begin) => {
                    &&& final(self).wf()
                    &&& final(self).next_check_pos <= final(self).size
                    &&& final(self).keys == old(self).keys
                    &&& extends(old(self).layout(), final(self).layout())
                    &&& 1 <= begin <= 0x7FFF_FFFF
                    &&& (old(self).size == 0 ==> begin == 1)
                    &&& !old(self).layout().owner.dom().contains(begin as int)
                    &&& least_fit(
                        old(self).layout(),
                        siblings@,
                        search_start(old(self).next_check_pos as int, siblings@[0].code as int),
                        begin as int,
                    )
                    &&& ahead(
                        final(self).layout().owner,
                        old(self).dictionary(),
                        prefix.len() as int,
                        siblings@.last().right as int,
                    )
                    &&& below(old(self).layout().owner, final(self).layout().owner, prefix)
                    &&& final(self).layout().owner.dom().contains(begin as int)
                    &&& final(self).layout().owner[begin as int] == prefix
                    &&& final(self).progress == siblings@.last().right
                    &&& final(self).size >= 1
                    &&& final(self).size <= search_floor(old(self).size as int) + span_cost(
                        m,
                        weight(
                            old(self).dictionary(),
                            siblings@[0].left as int,
                            siblings@.last().right as int,
                            prefix.len() as int,
                        ),
                    )
                },
                None => search_floor(old(self).size as int) + span_cost(
                    m,
                    weight(
                        old(self).dictionary(),
                        siblings@[0].left as int,
                        siblings@.last().right as int,
                        prefix.len() as int,
                    ),
                ) > SIZE_LIMIT,
            },
        decreases
                weight(
                    old(self).dictionary(),
                    siblings@[0].left as int,
                    siblings@.last().right as int,
                    prefix.len() as int,
                ),
    {
        let n: usize = siblings.len();
        let ghost keys = self.dictionary();
        let ghost st0 = self.layout();
        let ghost d = prefix.len() as int;
        let ghost left = siblings@[0].left as int;
        let ghost right = siblings@.last().right as int;
        let ghost floor = search_floor(self.size as int);
        let ghost whole = weight(keys, left, right, d);
        proof {
            lemma_child_weight(keys, siblings@, prefix, 0);
            lemma_child_weight(keys, siblings@, prefix, n - 1);
            lemma_span_cost(m, 0, whole);
            lemma_span_cost(m, 1 + weight(keys, left, right, d + 1), whole);
        }
        if self.size > SIZE_LIMIT {
            return None;
        }
        let key_size: usize = self.keys.len();
        let begin: usize = self.find_offset(siblings, Ghost(prefix));
        let ghost st1 = self.layout();
        let ghost plan0 = old(self).plan();
        let ghost next = Plan {
            st: placed(pad(st0), begin as int, siblings@, prefix),
            ncp: self.next_check_pos as int,
            done: self.progress as int,
        };
        let ghost target = place_rest(
            next,
            keys,
            siblings@,
            prefix,
            begin as int,
            0,
            (fuel - 1) as nat,
        );
        proof {
            let ncp0 = old(self).next_check_pos as int;
            let start = search_start(ncp0, siblings@[0].code as int);
            lemma_least_fit_pad(st0, siblings@, start, begin as int);
            lemma_offset_for(pad(st0), siblings@, ncp0, begin as int);
            lemma_next_start(st0, siblings@, ncp0, begin as int, self.next_check_pos as int);
            lemma_pad_resized(st0, st1.base.len() as int);
            assert forall|i: int| 0 <= i < siblings@.len() implies begin + (
            #[trigger] siblings@[i]).code < st1.check.len() by {
                if i < n - 1 {
                    assert(siblings@[i].code < siblings@[n - 1].code);
                }
            }
            lemma_pad_placed(st1, begin as int, siblings@, prefix);
            assert(place_node(plan0, keys, siblings@, prefix, fuel) == match target {
                Some(q) => Some((q, begin as int)),
                None => None,
            });
            lemma_ahead_unowned(st0.owner, keys, siblings@, prefix);
            lemma_resize_inv(st0, keys, st1.base.len() as int);
            assert(claim_ok(st0, begin as int));
            lemma_ahead_claimed(st0.owner, keys, prefix, left, begin as int);
        }
        self.claim(begin, siblings, Ghost(prefix));
        proof {
            let st2 = self.layout();
            assert(member_ok(keys, siblings@, prefix, 0));
            assert(member_ok(keys, siblings@, prefix, n - 1));
            lemma_resize_inv(st0, keys, st1.base.len() as int);
            assert(claim_ok(st0, begin as int));
            lemma_place_group(st1, keys, siblings@, prefix, begin as int);
            lemma_grows_weaken(st0, st1, begin as int, siblings@[0].code as int);
            lemma_grows_trans(st0, st1, st2, begin as int, siblings@[0].code as int);
            assert forall|j: int| 0 <= j < n implies free_in(
                st0,
                begin + (#[trigger] siblings@[j]).code,
            ) by {}
            assert(weight(keys, left, left, d + 1) == 0);
            let last = siblings@.last();
            let i = last.left as int;
            if last.code != 0 {
                assert(symbol_at(keys[i], d) == last.code);
                assert(symbol(keys[i][d]) <= m);
            }
            lemma_span_cost(m, 1, 0);
        }
        let mut k: usize = 0;
        while k < n
            invariant
                k <= n,
                n == siblings@.len(),
                n >= 1,
                d == prefix.len(),
                left == siblings@[0].left,
                right == siblings@.last().right,
                floor >= 1,
                floor >= st0.size,
                floor == search_floor(old(self).size as int),
                0 <= m,
                symbols_within(keys, m),
                whole == weight(keys, left, right, d),
                span_cost(m, 1 + weight(keys, left, right, d + 1)) <= span_cost(m, whole),
                key_size == self.keys@.len(),
                1 <= begin <= SIZE_LIMIT,
                st0.size == 0 ==> begin == 1,
                !st0.owner.dom().contains(begin as int),
                fuel > whole,
                keys == old(self).dictionary(),
                plan0 == old(self).plan(),
                place_node(plan0, keys, siblings@, prefix, fuel) == match target {
                    Some(q) => Some((q, begin as int)),
                    None => None,
                },
                place_rest(
                    self.plan(),
                    keys,
                    siblings@,
                    prefix,
                    begin as int,
                    k as int,
                    (fuel - 1) as nat,
                ) == target,
                ahead(st0.owner, keys, d, left),
                ahead(self.layout().owner, keys, d + 1, boundary(siblings@, k as int)),
                below(st0.owner, self.layout().owner, prefix),
                least_fit(
                    st0,
                    siblings@,
                    search_start(old(self).next_check_pos as int, siblings@[0].code as int),
                    begin as int,
                ),
                self.wf(),
                self.keys == old(self).keys,
                keys == self.dictionary(),
                siblings_ok(keys, siblings@, prefix),
                self.next_check_pos <= self.size,
                self.size >= 1,
                grows(st0, self.layout(), begin as int, threshold(siblings@, k as int)),
                self.layout().owner.dom().contains(begin as int),
                self.layout().owner[begin as int] == prefix,
                forall|j: int|
                    0 <= j < n ==> free_in(st0, begin + (#[trigger] siblings@[j]).code),
                self.progress == boundary(siblings@, k as int),
                self.size <= floor + span_cost(
                    m,
                    1 + weight(keys, left, boundary(siblings@, k as int), d + 1),
                ),
                forall|c: usize, t: usize|
                    1 <= c <= t && t == self.keys@.len() ==> call_requires(*func, (c, t)),
            decreases n - k,
        {
            let code: usize = siblings[k].code;
            let sib_left: usize = siblings[k].left;
            let mut children: Vec<Node> = Vec::new();
            let ghost child_prefix = if code == 0 {
                prefix
            } else {
                prefix.push(keys[sib_left as int][d])
            };
            let ghost before = self.layout();
            proof {
                lemma_child_node(keys, siblings@, prefix, k as int);
                lemma_child_weight(keys, siblings@, prefix, k as int);
                assert(member_ok(keys, siblings@, prefix, k as int));
                assert(group_ok(before, keys, begin as int, sib_left as int));
                if k + 1 < n {
                    assert(adjoins(siblings@, k as int));
                }
                lemma_ahead_later(
                    before.owner,
                    keys,
                    d + 1,
                    boundary(siblings@, k as int),
                    boundary(siblings@, k + 1),
                );
                let done = weight(keys, left, sib_left as int, d + 1);
                let under = weight(keys, sib_left as int, siblings@[k as int].right as int, d + 1);
                lemma_span_cost(m, 1 + done, under);
                lemma_span_cost(m, 1 + done + under, whole);
            }
            let slot: usize = begin + code;
            let cnt: usize = self.fetch(&siblings[k], &mut children, Ghost(child_prefix));
            if cnt == 0 {
                let v: i32 = -(sib_left as i32) - 1;
                proof {
                    lemma_fill_leaf(before, keys, siblings@, prefix, begin as int, k as int, v);
                    lemma_fill_grows(
                        st0,
                        before,
                        keys,
                        siblings@,
                        prefix,
                        begin as int,
                        k as int,
                        v,
                    );
                }
                proof {
                    lemma_pad_filled(before, begin as int, v);
                }
                self.base[slot] = v;
                self.progress = self.progress + 1;
                assert(self.layout() == filled(before, begin as int, v));
                func(self.progress, key_size);
            } else {
                let ghost plan_before = self.plan();
                proof {
                    lemma_groups(keys, siblings@[k as int], child_prefix, children@);
                    assert(place_rest(
                        plan_before,
                        keys,
                        siblings@,
                        prefix,
                        begin as int,
                        k as int,
                        (fuel - 1) as nat,
                    ) == target);
                    assert(siblings@[k as int].code != 0);
                }
                match self.insert(
                    &children,
                    func,
                    Ghost(child_prefix),
                    Ghost(m),
                    Ghost((fuel - 1) as nat),
                ) {
                    None => {
                        assert(place_node(
                            plan_before,
                            keys,
                            children@,
                            child_prefix,
                            (fuel - 1) as nat,
                        ) is None);
                        assert(target is None);
                        return None;
                    },
                    Some(h) => {
                        let ghost mid = self.layout();
                        proof {
                            assert(is_prefix(prefix, child_prefix)) by {
                                assert(child_prefix.subrange(0, d) == prefix);
                            }
                            assert forall|q: int| #[trigger]
                                map_kept(before.owner, mid.owner, q) by {
                                assert(owner_kept(before, mid, q));
                            }
                            lemma_below_trans(
                                st0.owner,
                                before.owner,
                                mid.owner,
                                prefix,
                                child_prefix,
                            );
                            lemma_grows_weaken(
                                before,
                                mid,
                                begin as int,
                                threshold(siblings@, k as int),
                            );
                            lemma_grows_trans(
                                st0,
                                before,
                                mid,
                                begin as int,
                                threshold(siblings@, k as int),
                            );
                            assert(owner_kept(before, mid, begin as int));
                            assert(group_ok(
                                mid,
                                keys,
                                begin as int,
                                sib_left as int,
                            ));
                            lemma_fill_child(
                                mid,
                                keys,
                                begin as int,
                                keys[sib_left as int][d],
                                h as i32,
                            );
                            lemma_fill_grows(
                                st0,
                                mid,
                                keys,
                                siblings@,
                                prefix,
                                begin as int,
                                k as int,
                                h as i32,
                            );
                        }
                        proof {
                            lemma_pad_filled(mid, slot as int, h as i32);
                        }
                        self.base[slot] = h as i32;
                        assert(self.layout() == filled(mid, slot as int, h as i32));
                    },
                }
            }
            k = k + 1;
        }
        proof {
            lemma_grows_done(st0, self.layout(), keys, begin as int);
            let fin = self.layout();
            assert forall|q: int| #[trigger] map_kept(st0.owner, fin.owner, q) by {
                assert(owner_kept(st0, fin, q));
            }
            lemma_ahead_done(st0.owner, fin.owner, keys, siblings@, prefix);
        }
        Some(begin)
    }
}

/// A builder that reports its progress to a callback.
pub struct ProgressBuilder<F> {
    builder: DoubleArrayTrieBuilder,
    func: F,
}

impl<F: Fn(usize, usize)> ProgressBuilder<F> {
    /// The callback that the build reports to.
    pub closed spec fn callback(&self) -> F {
        self.func
    }

    /// Builds the trie of `keys` as `DoubleArrayTrieBuilder::build` does, and
    /// calls the callback once for every key put in place, with the number
    /// of keys in place so far and the number of all keys.
    pub fn build(self, keys: &[&str]) -> (r: Option<DoubleArrayTrie>)
        requires
            sorted_keys(key_views(keys@)),
            forall|d: usize, t: usize|
                1 <= d <= t && t == keys@.len() ==> call_requires(self.callback(), (d, t)),
        ensures
            built(r, key_views(keys@)),
    {
        assert(self.callback() == self.func);
        self.builder.build_with(keys, &self.func)
    }
}

} // verus!
