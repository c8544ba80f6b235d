//! The arrays under construction as a mathematical object, and what holds
//! of them while sibling groups are placed one by one.
use crate::keys::{
    is_path, is_prefix, lemma_symbol_injective, lemma_symbol_range, lemma_weight_deeper,
    lemma_weight_nonnegative, lemma_weight_split, MAX_SYMBOL, symbol, symbol_at, under, weight,
};
use crate::trie::{
    arrays_end, arrays_hold, arrays_shaped, arrays_walk, child_slot, ends_at, lookup,
    terminal_value, walk,
};
use vstd::prelude::*;

verus! {

/// A node of the trie under construction: the keys `left..right`, which
/// agree on their first `depth - 1` symbols and then take the symbol `code`.
pub(crate) struct Node {
    pub code: usize,
    pub depth: usize,
    pub left: usize,
    pub right: usize,
}

/// The arrays under construction, with the prefix that each claimed offset
/// stands for.
pub(crate) struct Layout {
    pub base: Seq<i32>,
    pub check: Seq<u32>,
    pub used: Seq<bool>,
    pub size: int,
    pub owner: Map<int, Seq<char>>,
}

/// Key `i` has the prefix `prefix` and goes on with `symbol`.
pub(crate) open spec fn takes(keys: Seq<Seq<char>>, prefix: Seq<char>, i: int, symbol: int) -> bool {
    0 <= i < keys.len() && is_prefix(prefix, keys[i]) && symbol_at(keys[i], prefix.len() as int)
        == symbol
}

/// Some key has the prefix `prefix` and goes on with `symbol`.
pub(crate) open spec fn has_child(keys: Seq<Seq<char>>, prefix: Seq<char>, symbol: int) -> bool {
    exists|i: int| #[trigger] takes(keys, prefix, i, symbol)
}

/// Slot `p` is free and empty, or belongs to a claimed offset not above it
/// whose prefix has a child by the symbol that leads to `p`.
pub(crate) open spec fn slot_ok(st: Layout, keys: Seq<Seq<char>>, p: int) -> bool {
    if st.check[p] == 0 {
        st.base[p] == 0
    } else {
        &&& 1 <= st.check[p] <= p
        &&& st.owner.dom().contains(st.check[p] as int)
        &&& has_child(keys, st.owner[st.check[p] as int], p - st.check[p])
    }
}

/// If key `i` passes through the node placed at `b`, its next slot is stamped.
pub(crate) open spec fn group_ok(st: Layout, keys: Seq<Seq<char>>, b: int, i: int) -> bool {
    is_prefix(st.owner[b], keys[i]) ==> {
        let p = b + symbol_at(keys[i], st.owner[b].len() as int);
        p < st.check.len() && st.check[p] == b
    }
}

/// The claimed offsets are those marked as used.
pub(crate) open spec fn claim_ok(st: Layout, b: int) -> bool {
    st.owner.dom().contains(b) <==> (1 <= b < st.used.len() && st.used[b])
}

/// A filled slot reached by a scalar holds the offset of the longer prefix.
pub(crate) open spec fn child_link_ok(st: Layout, b: int, c: char) -> bool {
    let p = b + symbol(c);
    (st.owner.dom().contains(b) && p < st.check.len() && st.check[p] == b && st.base[p] != 0) ==> {
        &&& st.base[p] >= 1
        &&& st.owner.dom().contains(st.base[p] as int)
        &&& st.owner[st.base[p] as int] == st.owner[b].push(c)
    }
}

/// A filled slot reached by the end-of-key symbol holds the index of the one
/// key that equals the prefix.
pub(crate) open spec fn leaf_link_ok(st: Layout, keys: Seq<Seq<char>>, b: int) -> bool {
    (st.owner.dom().contains(b) && b < st.check.len() && st.check[b] == b && st.base[b] != 0) ==> {
        let v = -(st.base[b] as int) - 1;
        &&& 0 <= v < keys.len()
        &&& keys[v] == st.owner[b]
        &&& forall|i: int| 0 <= i < keys.len() && #[trigger] keys[i] == st.owner[b] ==> i == v
    }
}

/// A claimed offset stands for a prefix of some key.
pub(crate) open spec fn owned_ok(st: Layout, keys: Seq<Seq<char>>, b: int) -> bool {
    st.owner.dom().contains(b) ==> is_path(keys, st.owner[b])
}

/// Two claimed offsets stand for different prefixes.
pub(crate) open spec fn distinct_ok(st: Layout, b1: int, b2: int) -> bool {
    st.owner.dom().contains(b1) && st.owner.dom().contains(b2) && st.owner[b1] == st.owner[b2]
        ==> b1 == b2
}

/// The offset `b` does not stand for `prefix`.
pub(crate) open spec fn not_owner(owner: Map<int, Seq<char>>, prefix: Seq<char>, b: int) -> bool {
    owner.dom().contains(b) ==> owner[b] != prefix
}

/// No offset stands for `prefix`.
pub(crate) open spec fn unowned(owner: Map<int, Seq<char>>, prefix: Seq<char>) -> bool {
    forall|b: int| #[trigger] not_owner(owner, prefix, b)
}

/// If the offset `b` stands for a prefix of key `i`, a key from `left` on,
/// that prefix is shorter than `depth`.
pub(crate) open spec fn ahead_ok(
    owner: Map<int, Seq<char>>,
    keys: Seq<Seq<char>>,
    depth: int,
    left: int,
    b: int,
    i: int,
) -> bool {
    owner.dom().contains(b) && left <= i < keys.len() && is_prefix(owner[b], keys[i])
        ==> owner[b].len() < depth
}

/// Of the keys from `left` on, only prefixes shorter than `depth` are
/// placed: the nodes above the one that is placed next.
pub(crate) open spec fn ahead(
    owner: Map<int, Seq<char>>,
    keys: Seq<Seq<char>>,
    depth: int,
    left: int,
) -> bool {
    forall|b: int, i: int| #[trigger] ahead_ok(owner, keys, depth, left, b, i)
}

/// The offset `b`, if it is claimed in `new` and was not in `old`, stands
/// for a word that begins with `prefix`.
pub(crate) open spec fn below_ok(
    old: Map<int, Seq<char>>,
    new: Map<int, Seq<char>>,
    prefix: Seq<char>,
    b: int,
) -> bool {
    new.dom().contains(b) && !old.dom().contains(b) ==> is_prefix(prefix, new[b])
}

/// What was placed between `old` and `new` lies at or below `prefix`.
pub(crate) open spec fn below(
    old: Map<int, Seq<char>>,
    new: Map<int, Seq<char>>,
    prefix: Seq<char>,
) -> bool {
    forall|b: int| #[trigger] below_ok(old, new, prefix, b)
}

/// The offset `q`, if `old` claims it, stands for the same prefix in `new`.
pub(crate) open spec fn map_kept(old: Map<int, Seq<char>>, new: Map<int, Seq<char>>, q: int) -> bool {
    old.dom().contains(q) ==> new.dom().contains(q) && new[q] == old[q]
}

/// A prefix of a prefix is a prefix.
pub(crate) proof fn lemma_prefix_trans(a: Seq<char>, b: Seq<char>, c: Seq<char>)
    requires
        is_prefix(a, b),
        is_prefix(b, c),
    ensures
        is_prefix(a, c),
{
    assert(c.subrange(0, a.len() as int) == c.subrange(0, b.len() as int).subrange(
        0,
        a.len() as int,
    ));
}

/// The node that is placed next is not placed yet.
pub(crate) proof fn lemma_ahead_unowned(
    owner: Map<int, Seq<char>>,
    keys: Seq<Seq<char>>,
    s: Seq<Node>,
    prefix: Seq<char>,
)
    requires
        siblings_ok(keys, s, prefix),
        ahead(owner, keys, prefix.len() as int, s[0].left as int),
    ensures
        unowned(owner, prefix),
{
    assert(member_ok(keys, s, prefix, 0));
    assert forall|b: int| #[trigger] not_owner(owner, prefix, b) by {
        assert(ahead_ok(owner, keys, prefix.len() as int, s[0].left as int, b, s[0].left as int));
    }
}

/// Once a node is placed, its children are the next to place.
pub(crate) proof fn lemma_ahead_claimed(
    owner: Map<int, Seq<char>>,
    keys: Seq<Seq<char>>,
    prefix: Seq<char>,
    left: int,
    g: int,
)
    requires
        ahead(owner, keys, prefix.len() as int, left),
        !owner.dom().contains(g),
    ensures
        ahead(owner.insert(g, prefix), keys, prefix.len() as int + 1, left),
        below(owner, owner.insert(g, prefix), prefix),
{
    let new = owner.insert(g, prefix);
    assert forall|b: int, i: int| #[trigger] ahead_ok(new, keys, prefix.len() as int + 1, left, b, i) by {
        assert(ahead_ok(owner, keys, prefix.len() as int, left, b, i));
    }
    assert forall|b: int| #[trigger] below_ok(owner, new, prefix, b) by {
        assert(prefix.subrange(0, prefix.len() as int) == prefix);
    }
}

/// Past a key that has ended, the same nodes are placed.
pub(crate) proof fn lemma_ahead_later(
    owner: Map<int, Seq<char>>,
    keys: Seq<Seq<char>>,
    depth: int,
    left: int,
    later: int,
)
    requires
        ahead(owner, keys, depth, left),
        left <= later,
    ensures
        ahead(owner, keys, depth, later),
{
    assert forall|b: int, i: int| #[trigger] ahead_ok(owner, keys, depth, later, b, i) by {
        assert(ahead_ok(owner, keys, depth, left, b, i));
    }
}

/// What is placed below a child lies below its parent.
pub(crate) proof fn lemma_below_trans(
    a: Map<int, Seq<char>>,
    b: Map<int, Seq<char>>,
    c: Map<int, Seq<char>>,
    prefix: Seq<char>,
    longer: Seq<char>,
)
    requires
        below(a, b, prefix),
        below(b, c, longer),
        is_prefix(prefix, longer),
        forall|q: int| #[trigger] map_kept(b, c, q),
    ensures
        below(a, c, prefix),
{
    assert forall|q: int| #[trigger] below_ok(a, c, prefix, q) by {
        assert(below_ok(a, b, prefix, q));
        assert(below_ok(b, c, longer, q));
        assert(map_kept(b, c, q));
        if c.dom().contains(q) && !a.dom().contains(q) {
            if b.dom().contains(q) {
                assert(c[q] == b[q]);
            } else {
                lemma_prefix_trans(prefix, longer, c[q]);
            }
        }
    }
}

/// Once all children of a node are placed, what is placed of the keys past
/// the node are the nodes above it.
pub(crate) proof fn lemma_ahead_done(
    old: Map<int, Seq<char>>,
    new: Map<int, Seq<char>>,
    keys: Seq<Seq<char>>,
    s: Seq<Node>,
    prefix: Seq<char>,
)
    requires
        siblings_ok(keys, s, prefix),
        ahead(old, keys, prefix.len() as int, s[0].left as int),
        below(old, new, prefix),
        forall|q: int| #[trigger] map_kept(old, new, q),
    ensures
        ahead(new, keys, prefix.len() as int, s.last().right as int),
{
    lemma_ranges_ordered(keys, s, prefix, 0, s.len() - 1);
    assert(member_ok(keys, s, prefix, 0));
    assert forall|b: int, i: int| #[trigger]
        ahead_ok(new, keys, prefix.len() as int, s.last().right as int, b, i) by {
        if new.dom().contains(b) && s.last().right <= i < keys.len() && is_prefix(new[b], keys[i]) {
            assert(below_ok(old, new, prefix, b));
            assert(map_kept(old, new, b));
            if old.dom().contains(b) {
                assert(new[b] == old[b]);
                assert(ahead_ok(old, keys, prefix.len() as int, s[0].left as int, b, i));
            } else {
                lemma_prefix_trans(prefix, new[b], keys[i]);
            }
        }
    }
}

/// The slot below the high-water mark is stamped.
pub(crate) open spec fn top_ok(st: Layout) -> bool {
    st.size == 0 || st.check[st.size - 1] != 0
}

/// Slot `p` is untouched.
pub(crate) open spec fn tail_free(st: Layout, p: int) -> bool {
    st.check[p] == 0 && !st.used[p]
}

/// What holds of the arrays whenever a sibling group has been placed whole.
pub(crate) open spec fn inv(st: Layout, keys: Seq<Seq<char>>) -> bool {
    &&& st.base.len() == st.check.len()
    &&& st.base.len() == st.used.len()
    &&& st.base.len() >= 1
    &&& st.base[0] == 1
    &&& st.check[0] == 0
    &&& 0 <= st.size <= st.base.len()
    &&& forall|p: int| 1 <= p < st.check.len() ==> #[trigger] slot_ok(st, keys, p)
    &&& forall|b: int, i: int|
        st.owner.dom().contains(b) && 0 <= i < keys.len() ==> #[trigger] group_ok(st, keys, b, i)
    &&& forall|b: int| #[trigger] claim_ok(st, b)
    &&& forall|b: int, c: char| #[trigger] child_link_ok(st, b, c)
    &&& forall|b: int| #[trigger] leaf_link_ok(st, keys, b)
    &&& forall|p: int| st.size <= p < st.check.len() ==> #[trigger] tail_free(st, p)
    &&& forall|b: int| #[trigger] owned_ok(st, keys, b)
    &&& top_ok(st)
    &&& !st.used[0]
    &&& forall|b1: int, b2: int| #[trigger] distinct_ok(st, b1, b2)
}

/// The arrays cut or filled up with empty slots to the length `n`.
pub(crate) open spec fn resized(st: Layout, n: int) -> Layout {
    Layout {
        base: Seq::new(
            n as nat,
            |i: int|
                if i < st.base.len() {
                    st.base[i]
                } else {
                    0i32
                },
        ),
        check: Seq::new(
            n as nat,
            |i: int|
                if i < st.check.len() {
                    st.check[i]
                } else {
                    0u32
                },
        ),
        used: Seq::new(
            n as nat,
            |i: int|
                if i < st.used.len() {
                    st.used[i]
                } else {
                    false
                },
        ),
        size: st.size,
        owner: st.owner,
    }
}

/// Slot `p`, if it was taken, is as it was.
pub(crate) open spec fn kept(old: Layout, new: Layout, p: int) -> bool {
    (p == 0 || old.check[p] != 0) ==> new.check[p] == old.check[p] && new.base[p] == old.base[p]
}

/// Slot `p`, if it is stamped and not yet filled, was so before, or belongs
/// to the group placed at `g` and is reached by a symbol from `thr` on.
pub(crate) open spec fn settled_from(old: Layout, new: Layout, g: int, thr: int, p: int) -> bool {
    (new.check[p] != 0 && new.base[p] == 0) ==> (p < old.check.len() && old.check[p] != 0) || (
    new.check[p] == g && p - g >= thr)
}

/// Offset `b`, if it was claimed, stands for the same prefix.
pub(crate) open spec fn owner_kept(old: Layout, new: Layout, b: int) -> bool {
    old.owner.dom().contains(b) ==> new.owner.dom().contains(b) && new.owner[b] == old.owner[b]
}

/// `new` came out of `old` by stamping free slots and filling slots of its
/// own; the only slots still to fill are those of `old` and those of the
/// group at `g` from the symbol `thr` on.
pub(crate) open spec fn grows(old: Layout, new: Layout, g: int, thr: int) -> bool {
    &&& old.check.len() <= new.check.len()
    &&& old.size <= new.size
    &&& forall|p: int| 0 <= p < old.check.len() ==> #[trigger] kept(old, new, p)
    &&& forall|p: int| 1 <= p < new.check.len() ==> #[trigger] settled_from(old, new, g, thr, p)
    &&& forall|b: int| #[trigger] owner_kept(old, new, b)
}

/// `new` came out of `old` by placing whole subtries on free slots.
pub(crate) open spec fn extends(old: Layout, new: Layout) -> bool {
    grows(old, new, 0, 0)
}

/// Cutting or lengthening the arrays anywhere at or past the high-water mark
/// changes nothing that the invariant speaks of.
pub(crate) proof fn lemma_resize_inv(st: Layout, keys: Seq<Seq<char>>, n: int)
    requires
        inv(st, keys),
        n >= st.size,
        n >= 1,
    ensures
        inv(resized(st, n), keys),
        n >= st.base.len() ==> extends(st, resized(st, n)),
{
    let new = resized(st, n);
    assert forall|p: int| 1 <= p < new.check.len() implies #[trigger] slot_ok(new, keys, p) by {
        if p < st.check.len() {
            assert(slot_ok(st, keys, p));
        }
    }
    assert forall|b: int| #[trigger] claim_ok(new, b) by {
        assert(claim_ok(st, b));
        if 1 <= b < st.used.len() && st.used[b] && b >= n {
            assert(tail_free(st, b));
        }
    }
    assert forall|b: int, i: int|
        new.owner.dom().contains(b) && 0 <= i < keys.len() implies #[trigger] group_ok(
        new,
        keys,
        b,
        i,
    ) by {
        assert(group_ok(st, keys, b, i));
        assert(claim_ok(st, b));
        if is_prefix(st.owner[b], keys[i]) {
            let p = b + symbol_at(keys[i], st.owner[b].len() as int);
            if p >= n {
                assert(tail_free(st, p));
            }
        }
    }
    assert forall|b: int, c: char| #[trigger] child_link_ok(new, b, c) by {
        assert(child_link_ok(st, b, c));
    }
    assert forall|b: int| #[trigger] leaf_link_ok(new, keys, b) by {
        assert(leaf_link_ok(st, keys, b));
    }
    assert forall|p: int| new.size <= p < new.check.len() implies #[trigger] tail_free(new, p) by {
        if p < st.check.len() {
            assert(tail_free(st, p));
        }
    }
    assert forall|b: int| #[trigger] owned_ok(new, keys, b) by {
        assert(owned_ok(st, keys, b));
    }
    assert forall|b1: int, b2: int| #[trigger] distinct_ok(new, b1, b2) by {
        assert(distinct_ok(st, b1, b2));
    }
    if n >= st.base.len() {
        assert forall|p: int| 0 <= p < st.check.len() implies #[trigger] kept(st, new, p) by {}
        assert forall|p: int| 1 <= p < new.check.len() implies #[trigger] settled_from(
            st,
            new,
            0,
            0,
            p,
        ) by {
            if p < st.check.len() {
                assert(slot_ok(st, keys, p));
            }
        }
        assert forall|b: int| #[trigger] owner_kept(st, new, b) by {}
    }
}

/// The keys of `node` all have the prefix `prefix`, whose length is the
/// node's depth, and no other key has it.
pub(crate) open spec fn internal_node(keys: Seq<Seq<char>>, node: Node, prefix: Seq<char>) -> bool {
    &&& prefix.len() == node.depth
    &&& forall|i: int| node.left <= i < node.right ==> is_prefix(prefix, #[trigger] keys[i])
    &&& forall|i: int|
        0 <= i < keys.len() && is_prefix(prefix, #[trigger] keys[i]) ==> node.left <= i
            < node.right
}

/// The keys of `node` all end before the node's depth.
pub(crate) open spec fn exhausted_node(keys: Seq<Seq<char>>, node: Node) -> bool {
    forall|i: int| node.left <= i < node.right ==> (#[trigger] keys[i]).len() < node.depth
}

/// The sibling at `k` covers keys that have `prefix` and go on with its code.
pub(crate) open spec fn member_ok(
    keys: Seq<Seq<char>>,
    s: Seq<Node>,
    prefix: Seq<char>,
    k: int,
) -> bool {
    let g = s[k];
    &&& g.depth == prefix.len() + 1
    &&& g.code <= MAX_SYMBOL
    &&& 0 <= g.left < g.right <= keys.len()
    &&& (g.code == 0 ==> g.right == g.left + 1)
    &&& forall|i: int|
        g.left <= i < g.right ==> is_prefix(prefix, #[trigger] keys[i]) && symbol_at(
            keys[i],
            prefix.len() as int,
        ) == g.code
}

/// The sibling at `k` ends where the next one starts.
pub(crate) open spec fn adjoins(s: Seq<Node>, k: int) -> bool {
    s[k].right == s[k + 1].left
}

/// `s` lists the children of the node with prefix `prefix`: one sibling per
/// symbol, by ascending symbol, over adjoining ranges that together hold
/// every key with that prefix.
pub(crate) open spec fn siblings_ok(keys: Seq<Seq<char>>, s: Seq<Node>, prefix: Seq<char>) -> bool {
    &&& s.len() >= 1
    &&& forall|k: int| 0 <= k < s.len() ==> #[trigger] member_ok(keys, s, prefix, k)
    &&& forall|j: int, k: int| 0 <= j < k < s.len() ==> (#[trigger] s[j]).code < (#[trigger] s[k]).code
    &&& forall|k: int| 0 <= k < s.len() - 1 ==> #[trigger] adjoins(s, k)
    &&& forall|i: int|
        0 <= i < keys.len() && is_prefix(prefix, #[trigger] keys[i]) ==> s[0].left <= i
            < s.last().right
}

/// State of the grouping loop: `s` holds the finished siblings, and the keys
/// `cur_left..i` form the sibling in the making, with code `cur_code`.
pub(crate) open spec fn partial_ok(
    keys: Seq<Seq<char>>,
    s: Seq<Node>,
    prefix: Seq<char>,
    start: int,
    cur_left: int,
    i: int,
    cur_code: int,
) -> bool {
    &&& start <= cur_left < i
    &&& 0 <= cur_code <= MAX_SYMBOL
    &&& (cur_code == 0 ==> i == cur_left + 1)
    &&& forall|m: int|
        cur_left <= m < i ==> symbol_at(#[trigger] keys[m], prefix.len() as int) == cur_code
    &&& forall|k: int| 0 <= k < s.len() ==> #[trigger] member_ok(keys, s, prefix, k)
    &&& forall|j: int, k: int| 0 <= j < k < s.len() ==> (#[trigger] s[j]).code < (#[trigger] s[k]).code
    &&& forall|k: int| 0 <= k < s.len() ==> (#[trigger] s[k]).code < cur_code
    &&& forall|k: int| 0 <= k < s.len() - 1 ==> #[trigger] adjoins(s, k)
    &&& if s.len() == 0 {
        cur_left == start
    } else {
        s[0].left == start && s.last().right == cur_left
    }
}


/// Placing whole subtries leaves nothing to fill, whatever group is named.
pub(crate) proof fn lemma_grows_weaken(a: Layout, b: Layout, g: int, thr: int)
    requires
        extends(a, b),
    ensures
        grows(a, b, g, thr),
{
    assert forall|p: int| 1 <= p < b.check.len() implies #[trigger] settled_from(
        a,
        b,
        g,
        thr,
        p,
    ) by {
        assert(settled_from(a, b, 0, 0, p));
    }
}

/// Growth after growth is growth.
pub(crate) proof fn lemma_grows_trans(a: Layout, b: Layout, c: Layout, g: int, thr: int)
    requires
        grows(a, b, g, thr),
        grows(b, c, g, thr),
    ensures
        grows(a, c, g, thr),
{
    assert forall|p: int| 0 <= p < a.check.len() implies #[trigger] kept(a, c, p) by {
        assert(kept(a, b, p));
        assert(kept(b, c, p));
    }
    assert forall|p: int| 1 <= p < c.check.len() implies #[trigger] settled_from(
        a,
        c,
        g,
        thr,
        p,
    ) by {
        assert(settled_from(b, c, g, thr, p));
        if p < b.check.len() {
            assert(kept(b, c, p));
            assert(settled_from(a, b, g, thr, p));
        }
    }
    assert forall|q: int| #[trigger] owner_kept(a, c, q) by {
        assert(owner_kept(a, b, q));
        assert(owner_kept(b, c, q));
    }
}

/// Resizing twice is resizing once.
pub(crate) proof fn lemma_resized_twice(st: Layout, a: int, b: int)
    requires
        st.base.len() == st.check.len(),
        st.base.len() == st.used.len(),
        st.base.len() <= a <= b,
    ensures
        resized(resized(st, a), b) == resized(st, b),
{
    let x = resized(resized(st, a), b);
    let y = resized(st, b);
    assert(x.base =~= y.base);
    assert(x.check =~= y.check);
    assert(x.used =~= y.used);
}

/// Siblings lie one after the other.
pub(crate) proof fn lemma_ranges_ordered(
    keys: Seq<Seq<char>>,
    s: Seq<Node>,
    prefix: Seq<char>,
    j: int,
    k: int,
)
    requires
        siblings_ok(keys, s, prefix),
        0 <= j <= k < s.len(),
    ensures
        s[j].left <= s[k].left,
        s[j].right <= s[k].right,
        j < k ==> s[j].right <= s[k].left,
    decreases k - j,
{
    assert(member_ok(keys, s, prefix, k));
    if j < k {
        lemma_ranges_ordered(keys, s, prefix, j, k - 1);
        assert(adjoins(s, k - 1));
        assert(member_ok(keys, s, prefix, k - 1));
    }
}

/// Every key within the siblings' span lies in one of them; `from` is a
/// sibling that does not start after the key.
pub(crate) proof fn lemma_group_cover(
    keys: Seq<Seq<char>>,
    s: Seq<Node>,
    prefix: Seq<char>,
    i: int,
    from: int,
) -> (k: int)
    requires
        siblings_ok(keys, s, prefix),
        0 <= from < s.len(),
        s[from].left <= i < s.last().right,
    ensures
        from <= k < s.len(),
        s[k].left <= i < s[k].right,
    decreases s.len() - from,
{
    if i < s[from].right {
        from
    } else {
        assert(adjoins(s, from));
        lemma_group_cover(keys, s, prefix, i, from + 1)
    }
}

/// The sibling that a key with the prefix falls in is the one with the
/// key's symbol.
pub(crate) proof fn lemma_group_of_symbol(
    keys: Seq<Seq<char>>,
    s: Seq<Node>,
    prefix: Seq<char>,
    i: int,
    k: int,
)
    requires
        siblings_ok(keys, s, prefix),
        0 <= k < s.len(),
        takes(keys, prefix, i, s[k].code as int),
    ensures
        s[k].left <= i < s[k].right,
{
    let j = lemma_group_cover(keys, s, prefix, i, 0);
    assert(member_ok(keys, s, prefix, j));
    assert(s[j].code == s[k].code);
    if j < k {
        assert(s[j].code < s[k].code);
    } else if k < j {
        assert(s[k].code < s[j].code);
    }
}

/// The symbol of a key with the prefix is the code of one of the siblings.
pub(crate) proof fn lemma_symbol_has_group(
    keys: Seq<Seq<char>>,
    s: Seq<Node>,
    prefix: Seq<char>,
    i: int,
) -> (k: int)
    requires
        siblings_ok(keys, s, prefix),
        0 <= i < keys.len(),
        is_prefix(prefix, keys[i]),
    ensures
        0 <= k < s.len(),
        s[k].left <= i < s[k].right,
        s[k].code == symbol_at(keys[i], prefix.len() as int),
{
    let k = lemma_group_cover(keys, s, prefix, i, 0);
    assert(member_ok(keys, s, prefix, k));
    k
}

/// What the sibling at `k` is as a node of its own: the end of the one key
/// that equals the prefix, or the node of the prefix made longer by a scalar.
pub(crate) proof fn lemma_child_node(keys: Seq<Seq<char>>, s: Seq<Node>, prefix: Seq<char>, k: int)
    requires
        siblings_ok(keys, s, prefix),
        0 <= k < s.len(),
    ensures
        s[k].code == 0 ==> {
            &&& exhausted_node(keys, s[k])
            &&& keys[s[k].left as int] == prefix
            &&& forall|i: int| 0 <= i < keys.len() && #[trigger] keys[i] == prefix ==> i == s[k].left
        },
        s[k].code != 0 ==> {
            &&& prefix.len() < keys[s[k].left as int].len()
            &&& symbol(keys[s[k].left as int][prefix.len() as int]) == s[k].code
            &&& internal_node(
                keys,
                s[k],
                prefix.push(keys[s[k].left as int][prefix.len() as int]),
            )
        },
{
    let d = prefix.len() as int;
    let l = s[k].left as int;
    assert(member_ok(keys, s, prefix, k));
    assert(is_prefix(prefix, keys[l]));
    if s[k].code == 0 {
        if d < keys[l].len() {
            lemma_symbol_range(keys[l][d]);
        }
        assert(keys[l] == prefix);
        assert forall|i: int| 0 <= i < keys.len() && #[trigger] keys[i] == prefix implies i
            == s[k].left by {
            assert(keys[i].subrange(0, d) == prefix);
            assert(takes(keys, prefix, i, 0));
            lemma_group_of_symbol(keys, s, prefix, i, k);
        }
    } else {
        let c = keys[l][d];
        let longer = prefix.push(c);
        assert forall|i: int| s[k].left <= i < s[k].right implies is_prefix(
            longer,
            #[trigger] keys[i],
        ) by {
            assert(is_prefix(prefix, keys[i]));
            assert(symbol_at(keys[i], d) == s[k].code);
            lemma_symbol_injective(keys[i][d], c);
            assert(keys[i].subrange(0, d + 1) == keys[i].subrange(0, d).push(keys[i][d]));
        }
        assert forall|i: int| 0 <= i < keys.len() && is_prefix(longer, #[trigger] keys[i]) implies s[k].left
            <= i < s[k].right by {
            assert(keys[i].subrange(0, d + 1)[d] == longer[d]);
            assert(keys[i].subrange(0, d) == keys[i].subrange(0, d + 1).subrange(0, d));
            assert(longer.subrange(0, d) == prefix);
            assert(takes(keys, prefix, i, s[k].code as int));
            lemma_group_of_symbol(keys, s, prefix, i, k);
        }
    }
}

/// Symbols still to place under the sibling at `k`, against those of the
/// whole group.
pub(crate) proof fn lemma_child_weight(keys: Seq<Seq<char>>, s: Seq<Node>, prefix: Seq<char>, k: int)
    requires
        siblings_ok(keys, s, prefix),
        0 <= k < s.len(),
    ensures
        ({
            let d = prefix.len() as int;
            let left = s[0].left as int;
            let right = s.last().right as int;
            let w = weight(keys, s[k].left as int, s[k].right as int, d + 1);
            &&& 0 <= w < weight(keys, left, right, d)
            &&& left <= s[k].left < s[k].right <= right
            &&& 0 <= weight(keys, left, s[k].left as int, d + 1)
            &&& weight(keys, left, s[k].right as int, d + 1) == weight(
                keys,
                left,
                s[k].left as int,
                d + 1,
            ) + w
            &&& 1 + weight(keys, left, s[k].right as int, d + 1) <= weight(keys, left, right, d)
            &&& (s[k].code == 0 ==> w == 0)
        }),
{
    let d = prefix.len() as int;
    let left = s[0].left as int;
    let right = s.last().right as int;
    let l = s[k].left as int;
    let r = s[k].right as int;
    lemma_ranges_ordered(keys, s, prefix, 0, k);
    lemma_ranges_ordered(keys, s, prefix, k, s.len() - 1);
    assert(member_ok(keys, s, prefix, k));
    assert(member_ok(keys, s, prefix, 0));
    assert(member_ok(keys, s, prefix, s.len() - 1));
    assert forall|i: int| left <= i < right implies d + 1 <= (#[trigger] keys[i]).len() + 1 by {
        let j = lemma_group_cover(keys, s, prefix, i, 0);
        assert(member_ok(keys, s, prefix, j));
        assert(is_prefix(prefix, keys[i]));
    }
    lemma_weight_nonnegative(keys, left, l, d + 1);
    lemma_weight_nonnegative(keys, l, r, d + 1);
    lemma_weight_nonnegative(keys, r, right, d + 1);
    lemma_weight_split(keys, left, l, r, d + 1);
    lemma_weight_split(keys, left, r, right, d + 1);
    lemma_weight_deeper(keys, left, right, d);
    if s[k].code == 0 {
        lemma_child_node(keys, s, prefix, k);
        assert(weight(keys, l, l, d + 1) == 0);
        assert(weight(keys, l, r, d + 1) == weight(keys, l, l, d + 1) + keys[l].len() + 1 - (d
            + 1));
    }
}

/// The slot `p` is reached from `g` by the code of the sibling at `j`.
pub(crate) open spec fn hits(s: Seq<Node>, g: int, j: int, p: int) -> bool {
    p == g + s[j].code
}

/// `check` with the slots of the first `k` siblings stamped with `g`.
pub(crate) open spec fn stamped(check: Seq<u32>, g: int, s: Seq<Node>, k: int) -> Seq<u32>
    decreases k,
{
    if k <= 0 {
        check
    } else {
        stamped(check, g, s, k - 1).update(g + s[k - 1].code, g as u32)
    }
}

/// A slot of the stamped array holds `g` if one of the first `k` siblings
/// hits it, the result then being such a sibling, and what it held otherwise,
/// the result then being negative.
pub(crate) proof fn lemma_stamped(check: Seq<u32>, g: int, s: Seq<Node>, k: int, p: int) -> (j: int)
    requires
        0 <= k <= s.len(),
        0 <= g <= u32::MAX,
        0 <= p < check.len(),
        forall|i: int| 0 <= i < k ==> g + (#[trigger] s[i]).code < check.len(),
    ensures
        stamped(check, g, s, k).len() == check.len(),
        j < 0 ==> stamped(check, g, s, k)[p] == check[p] && forall|i: int|
            0 <= i < k ==> !#[trigger] hits(s, g, i, p),
        j >= 0 ==> j < k && hits(s, g, j, p) && stamped(check, g, s, k)[p] == g,
    decreases k,
{
    if k <= 0 {
        -1
    } else {
        let j = lemma_stamped(check, g, s, k - 1, p);
        if p == g + s[k - 1].code {
            k - 1
        } else {
            j
        }
    }
}

/// The arrays after the group `s` of the node `prefix` has been placed at `g`.
pub(crate) open spec fn placed(st: Layout, g: int, s: Seq<Node>, prefix: Seq<char>) -> Layout {
    Layout {
        base: st.base,
        check: stamped(st.check, g, s, s.len() as int),
        used: st.used.update(g, true),
        size: if st.size >= g + s.last().code + 1 {
            st.size
        } else {
            g + s.last().code + 1
        },
        owner: st.owner.insert(g, prefix),
    }
}

/// The slot that the sibling at `k` would take under the offset `b` is
/// stamped.
pub(crate) open spec fn blocks(st: Layout, s: Seq<Node>, b: int, k: int) -> bool {
    0 <= k < s.len() && 0 <= b + s[k].code < st.check.len() && st.check[b + s[k].code] != 0
}

/// The offset `b` cannot take the siblings `s`: it is claimed, or the slot
/// that one of them would take is stamped.
pub(crate) open spec fn blocked(st: Layout, s: Seq<Node>, b: int) -> bool {
    (0 <= b < st.used.len() && st.used[b]) || exists|k: int| #[trigger] blocks(st, s, b, k)
}

/// Offset from which a search for the siblings starts: that of the position
/// kept from earlier searches, and at least one.
pub(crate) open spec fn search_start(next_check_pos: int, code0: int) -> int {
    if next_check_pos - code0 >= 1 {
        next_check_pos - code0
    } else {
        1
    }
}

/// `begin` is the least offset from `start` on that can take the siblings.
pub(crate) open spec fn least_fit(st: Layout, s: Seq<Node>, start: int, begin: int) -> bool {
    &&& start <= begin
    &&& !blocked(st, s, begin)
    &&& forall|b: int| start <= b < begin ==> #[trigger] blocked(st, s, b)
}

/// Slot `p` lies past the arrays or is free.
pub(crate) open spec fn free_in(st: Layout, p: int) -> bool {
    p >= st.check.len() || st.check[p] == 0
}

/// Placing a sibling group on an unclaimed offset whose slots are all free
/// keeps the invariant; the slots to fill are then those of the group too.
pub(crate) proof fn lemma_place_group(
    st: Layout,
    keys: Seq<Seq<char>>,
    s: Seq<Node>,
    prefix: Seq<char>,
    g: int,
)
    requires
        inv(st, keys),
        siblings_ok(keys, s, prefix),
        1 <= g <= 0x7FFF_FFFF,
        g + s.last().code < st.check.len(),
        !st.used[g],
        forall|k: int| 0 <= k < s.len() ==> st.check[g + (#[trigger] s[k]).code] == 0,
        unowned(st.owner, prefix),
    ensures
        inv(placed(st, g, s, prefix), keys),
        grows(st, placed(st, g, s, prefix), g, s[0].code as int),
        placed(st, g, s, prefix).owner.dom().contains(g),
        placed(st, g, s, prefix).owner[g] == prefix,
{
    let new = placed(st, g, s, prefix);
    let n = s.len() as int;
    assert(claim_ok(st, g));
    assert forall|i: int| 0 <= i < n implies g + (#[trigger] s[i]).code < st.check.len() by {
        if i < n - 1 {
            assert(s[i].code < s[n - 1].code);
        }
    }
    assert(new.check.len() == st.check.len()) by {
        lemma_stamped(st.check, g, s, n, 0);
    }
    assert(new.check[0] == 0) by {
        lemma_stamped(st.check, g, s, n, 0);
    }
    assert forall|p: int| 1 <= p < new.check.len() implies #[trigger] slot_ok(new, keys, p) by {
        let j = lemma_stamped(st.check, g, s, n, p);
        assert(slot_ok(st, keys, p));
        if j >= 0 {
            assert(member_ok(keys, s, prefix, j));
            assert(takes(keys, prefix, s[j].left as int, p - g));
        } else if st.check[p] != 0 {
            let i = choose|i: int| #[trigger]
                takes(keys, st.owner[st.check[p] as int], i, p - st.check[p]);
            assert(takes(keys, new.owner[new.check[p] as int], i, p - new.check[p]));
        }
    }
    assert forall|b: int, i: int|
        new.owner.dom().contains(b) && 0 <= i < keys.len() implies #[trigger] group_ok(
        new,
        keys,
        b,
        i,
    ) by {
        if b == g {
            if is_prefix(prefix, keys[i]) {
                let k = lemma_symbol_has_group(keys, s, prefix, i);
                let p = g + s[k].code;
                let j = lemma_stamped(st.check, g, s, n, p);
                assert(hits(s, g, k, p));
            }
        } else {
            assert(group_ok(st, keys, b, i));
            assert(claim_ok(st, b));
            if is_prefix(st.owner[b], keys[i]) {
                let p = b + symbol_at(keys[i], st.owner[b].len() as int);
                let j = lemma_stamped(st.check, g, s, n, p);
            }
        }
    }
    assert forall|b: int| #[trigger] claim_ok(new, b) by {
        assert(claim_ok(st, b));
    }
    assert forall|b: int, c: char| #[trigger] child_link_ok(new, b, c) by {
        let p = b + symbol(c);
        lemma_symbol_range(c);
        if new.owner.dom().contains(b) && p < new.check.len() && new.check[p] == b && new.base[p]
            != 0 {
            assert(claim_ok(new, b));
            assert(slot_ok(st, keys, p));
            let j = lemma_stamped(st.check, g, s, n, p);
            assert(child_link_ok(st, b, c));
        }
    }
    assert forall|b: int| #[trigger] leaf_link_ok(new, keys, b) by {
        if new.owner.dom().contains(b) && b < new.check.len() && new.check[b] == b && new.base[b]
            != 0 {
            assert(claim_ok(new, b));
            assert(slot_ok(st, keys, b));
            let j = lemma_stamped(st.check, g, s, n, b);
            assert(leaf_link_ok(st, keys, b));
        }
    }
    assert forall|p: int| new.size <= p < new.check.len() implies #[trigger] tail_free(new, p) by {
        let j = lemma_stamped(st.check, g, s, n, p);
        assert(tail_free(st, p));
        if j >= 0 && j < n - 1 {
            assert(s[j].code < s[n - 1].code);
        }
    }
    assert forall|b: int| #[trigger] owned_ok(new, keys, b) by {
        assert(owned_ok(st, keys, b));
        assert(member_ok(keys, s, prefix, 0));
        assert(under(keys, prefix, s[0].left as int));
    }
    assert forall|b1: int, b2: int| #[trigger] distinct_ok(new, b1, b2) by {
        assert(distinct_ok(st, b1, b2));
        assert(not_owner(st.owner, prefix, b1));
        assert(not_owner(st.owner, prefix, b2));
    }
    assert(top_ok(new)) by {
        assert(member_ok(keys, s, prefix, n - 1));
        if new.size == st.size {
            if st.size > 0 {
                let j = lemma_stamped(st.check, g, s, n, st.size - 1);
            }
        } else {
            let j = lemma_stamped(st.check, g, s, n, g + s[n - 1].code);
            assert(hits(s, g, n - 1, g + s[n - 1].code));
        }
    }
    assert forall|p: int| 0 <= p < st.check.len() implies #[trigger] kept(st, new, p) by {
        let j = lemma_stamped(st.check, g, s, n, p);
    }
    assert forall|p: int| 1 <= p < new.check.len() implies #[trigger] settled_from(
        st,
        new,
        g,
        s[0].code as int,
        p,
    ) by {
        let j = lemma_stamped(st.check, g, s, n, p);
        if j > 0 {
            assert(s[0].code < s[j].code);
        }
    }
    assert forall|b: int| #[trigger] owner_kept(st, new, b) by {}
}

/// The arrays with `v` written to `base[p]`.
pub(crate) open spec fn filled(st: Layout, p: int, v: i32) -> Layout {
    Layout { base: st.base.update(p, v), check: st.check, used: st.used, size: st.size, owner: st.owner }
}

/// Writing the index of the key that equals the prefix into the slot of the
/// end-of-key symbol keeps the invariant.
pub(crate) proof fn lemma_fill_leaf(
    st: Layout,
    keys: Seq<Seq<char>>,
    s: Seq<Node>,
    prefix: Seq<char>,
    g: int,
    k: int,
    v: i32,
)
    requires
        inv(st, keys),
        siblings_ok(keys, s, prefix),
        st.owner.dom().contains(g),
        st.owner[g] == prefix,
        0 <= k < s.len(),
        s[k].code == 0,
        v == -(s[k].left as int) - 1,
    ensures
        g < st.check.len(),
        st.check[g] == g,
        inv(filled(st, g, v), keys),
{
    let new = filled(st, g, v);
    lemma_child_node(keys, s, prefix, k);
    assert(member_ok(keys, s, prefix, k));
    assert(group_ok(st, keys, g, s[k].left as int));
    assert(claim_ok(st, g));
    assert forall|p: int| 1 <= p < new.check.len() implies #[trigger] slot_ok(new, keys, p) by {
        assert(slot_ok(st, keys, p));
    }
    assert forall|b: int, i: int|
        new.owner.dom().contains(b) && 0 <= i < keys.len() implies #[trigger] group_ok(
        new,
        keys,
        b,
        i,
    ) by {
        assert(group_ok(st, keys, b, i));
    }
    assert forall|b: int| #[trigger] claim_ok(new, b) by {
        assert(claim_ok(st, b));
    }
    assert forall|b: int, c: char| #[trigger] child_link_ok(new, b, c) by {
        assert(child_link_ok(st, b, c));
        lemma_symbol_range(c);
    }
    assert forall|b: int| #[trigger] leaf_link_ok(new, keys, b) by {
        assert(leaf_link_ok(st, keys, b));
    }
    assert forall|p: int| new.size <= p < new.check.len() implies #[trigger] tail_free(new, p) by {
        assert(tail_free(st, p));
    }
    assert forall|b: int| #[trigger] owned_ok(new, keys, b) by {
        assert(owned_ok(st, keys, b));
    }
    assert forall|b1: int, b2: int| #[trigger] distinct_ok(new, b1, b2) by {
        assert(distinct_ok(st, b1, b2));
    }
}

/// Writing the offset of the longer prefix into the slot that a scalar leads
/// to keeps the invariant.
pub(crate) proof fn lemma_fill_child(st: Layout, keys: Seq<Seq<char>>, g: int, c: char, h: i32)
    requires
        inv(st, keys),
        st.owner.dom().contains(g),
        st.owner.dom().contains(h as int),
        h >= 1,
        st.owner[h as int] == st.owner[g].push(c),
        g + symbol(c) < st.check.len(),
        st.check[g + symbol(c)] == g,
    ensures
        inv(filled(st, g + symbol(c), h), keys),
{
    let slot = g + symbol(c);
    let new = filled(st, slot, h);
    lemma_symbol_range(c);
    assert(claim_ok(st, g));
    assert forall|p: int| 1 <= p < new.check.len() implies #[trigger] slot_ok(new, keys, p) by {
        assert(slot_ok(st, keys, p));
    }
    assert forall|b: int, i: int|
        new.owner.dom().contains(b) && 0 <= i < keys.len() implies #[trigger] group_ok(
        new,
        keys,
        b,
        i,
    ) by {
        assert(group_ok(st, keys, b, i));
    }
    assert forall|b: int| #[trigger] claim_ok(new, b) by {
        assert(claim_ok(st, b));
    }
    assert forall|b: int, e: char| #[trigger] child_link_ok(new, b, e) by {
        assert(child_link_ok(st, b, e));
        if b + symbol(e) == slot && st.check[slot] == b {
            lemma_symbol_injective(e, c);
        }
    }
    assert forall|b: int| #[trigger] leaf_link_ok(new, keys, b) by {
        assert(leaf_link_ok(st, keys, b));
    }
    assert forall|p: int| new.size <= p < new.check.len() implies #[trigger] tail_free(new, p) by {
        assert(tail_free(st, p));
    }
    assert forall|b: int| #[trigger] owned_ok(new, keys, b) by {
        assert(owned_ok(st, keys, b));
    }
    assert forall|b1: int, b2: int| #[trigger] distinct_ok(new, b1, b2) by {
        assert(distinct_ok(st, b1, b2));
    }
}

/// Symbol from which the slots of a group are still to fill once the
/// siblings up to `k` are done.
pub(crate) open spec fn threshold(s: Seq<Node>, k: int) -> int {
    if 0 <= k < s.len() {
        s[k].code as int
    } else {
        MAX_SYMBOL + 1
    }
}

/// Filling the slot of the sibling at `k` leaves the slots of the later
/// siblings to fill.
pub(crate) proof fn lemma_fill_grows(
    a: Layout,
    b: Layout,
    keys: Seq<Seq<char>>,
    s: Seq<Node>,
    prefix: Seq<char>,
    g: int,
    k: int,
    v: i32,
)
    requires
        inv(b, keys),
        siblings_ok(keys, s, prefix),
        b.owner.dom().contains(g),
        b.owner[g] == prefix,
        0 <= k < s.len(),
        grows(a, b, g, s[k].code as int),
        free_in(a, g + s[k].code),
        g + s[k].code < b.check.len(),
        v != 0,
    ensures
        grows(a, filled(b, g + s[k].code, v), g, threshold(s, k + 1)),
{
    let slot = g + s[k].code;
    let new = filled(b, slot, v);
    assert(claim_ok(b, g));
    assert forall|p: int| 0 <= p < a.check.len() implies #[trigger] kept(a, new, p) by {
        assert(kept(a, b, p));
    }
    assert forall|p: int| 1 <= p < new.check.len() implies #[trigger] settled_from(
        a,
        new,
        g,
        threshold(s, k + 1),
        p,
    ) by {
        assert(settled_from(a, b, g, s[k].code as int, p));
        if new.check[p] != 0 && new.base[p] == 0 && !(p < a.check.len() && a.check[p] != 0) {
            assert(slot_ok(b, keys, p));
            let i = choose|i: int| #[trigger] takes(keys, prefix, i, p - g);
            let j = lemma_symbol_has_group(keys, s, prefix, i);
            assert(member_ok(keys, s, prefix, j));
            if j < k {
                assert(s[j].code < s[k].code);
            }
            assert(j != k);
            if j > k + 1 {
                assert(s[k + 1].code < s[j].code);
            }
        }
    }
    assert forall|q: int| #[trigger] owner_kept(a, new, q) by {
        assert(owner_kept(a, b, q));
    }
}


/// Resizing to the length that the arrays have changes nothing.
pub(crate) proof fn lemma_resized_same(st: Layout)
    requires
        st.base.len() == st.check.len(),
        st.base.len() == st.used.len(),
    ensures
        resized(st, st.base.len() as int) == st,
{
    let x = resized(st, st.base.len() as int);
    assert(x.base =~= st.base);
    assert(x.check =~= st.check);
    assert(x.used =~= st.used);
}

/// Once every sibling of the group at `g` is done, all that was placed is
/// whole.
pub(crate) proof fn lemma_grows_done(a: Layout, b: Layout, keys: Seq<Seq<char>>, g: int)
    requires
        inv(b, keys),
        grows(a, b, g, MAX_SYMBOL + 1),
    ensures
        extends(a, b),
{
    assert forall|p: int| 1 <= p < b.check.len() implies #[trigger] settled_from(a, b, 0, 0, p) by {
        assert(settled_from(a, b, g, MAX_SYMBOL + 1, p));
        if b.check[p] == g && p - g >= MAX_SYMBOL + 1 && b.check[p] != 0 {
            assert(slot_ok(b, keys, p));
            let prefix = b.owner[g];
            let i = choose|i: int| #[trigger] takes(keys, prefix, i, p - g);
            if prefix.len() < keys[i].len() {
                lemma_symbol_range(keys[i][prefix.len() as int]);
            }
        }
    }
}

/// Position of the key from which the siblings from `k` on start.
pub(crate) open spec fn boundary(s: Seq<Node>, k: int) -> int {
    if 0 <= k < s.len() {
        s[k].left as int
    } else {
        s.last().right as int
    }
}


/// Cut to the highest claimed offset and 0x110000 slots more, or to the
/// high-water mark if that is higher, the arrays hold 0x110000 slots from
/// every offset that a slot is stamped with, and they end where the slots
/// of the stamped slot returned end.
pub(crate) proof fn lemma_final_length(st: Layout, keys: Seq<Seq<char>>, last: int, n: int) -> (p:
    int)
    requires
        inv(st, keys),
        0 <= last < st.used.len(),
        st.used[last],
        forall|q: int| last < q < st.used.len() ==> !#[trigger] st.used[q],
        n == if last + 0x110000 >= st.size {
            last + 0x110000
        } else {
            st.size
        },
    ensures
        1 <= p < n,
        resized(st, n).check[p] != 0,
        n == resized(st, n).check[p] + 0x110000 || n == p + 1,
        forall|q: int|
            1 <= q < n && #[trigger] resized(st, n).check[q] != 0 ==> resized(st, n).check[q]
                + 0x110000 <= n,
{
    let new = resized(st, n);
    assert(claim_ok(st, last));
    assert(owned_ok(st, keys, last));
    let i = choose|i: int| #[trigger] under(keys, st.owner[last], i);
    assert(group_ok(st, keys, last, i));
    let q = last + symbol_at(keys[i], st.owner[last].len() as int);
    if q >= st.size {
        assert(tail_free(st, q));
    }
    assert forall|r: int| 1 <= r < n && #[trigger] new.check[r] != 0 implies new.check[r] + 0x110000
        <= n by {
        assert(slot_ok(st, keys, r));
        assert(claim_ok(st, st.check[r] as int));
    }
    if n == last + 0x110000 {
        q
    } else {
        st.size - 1
    }
}

/// Every stamped slot is filled.
pub(crate) open spec fn settled(st: Layout) -> bool {
    forall|p: int| 1 <= p < st.check.len() && #[trigger] st.check[p] != 0 ==> st.base[p] != 0
}

/// The root's children are placed at offset 1.
pub(crate) open spec fn rooted(st: Layout) -> bool {
    st.owner.dom().contains(1) && st.owner[1] == Seq::<char>::empty()
}

/// In whole arrays, walking the first `j` scalars of a key ends at the
/// offset claimed for that prefix.
pub(crate) proof fn lemma_walk_key(st: Layout, keys: Seq<Seq<char>>, i: int, j: int) -> (b: int)
    requires
        inv(st, keys),
        settled(st),
        rooted(st),
        0 <= i < keys.len(),
        0 <= j <= keys[i].len(),
    ensures
        walk(st.base, st.check, keys[i].subrange(0, j)) == Some(b),
        st.owner.dom().contains(b),
        st.owner[b] == keys[i].subrange(0, j),
    decreases j,
{
    let word = keys[i].subrange(0, j);
    if j == 0 {
        assert(word == Seq::<char>::empty());
        1
    } else {
        let b0 = lemma_walk_key(st, keys, i, j - 1);
        let c = keys[i][j - 1];
        assert(word.drop_last() == keys[i].subrange(0, j - 1));
        assert(word.last() == c);
        assert(group_ok(st, keys, b0, i));
        assert(claim_ok(st, b0));
        lemma_symbol_range(c);
        let p = b0 + symbol(c);
        assert(child_slot(st.base, st.check, b0, symbol(c)) == Some(p));
        assert(child_link_ok(st, b0, c));
        assert(st.owner[b0].push(c) == word);
        st.base[p] as int
    }
}

/// In whole arrays, a walk that succeeds ends at the offset claimed for the
/// word walked.
pub(crate) proof fn lemma_walk_any(st: Layout, keys: Seq<Seq<char>>, word: Seq<char>, j: int) -> (b:
    int)
    requires
        inv(st, keys),
        settled(st),
        rooted(st),
        0 <= j <= word.len(),
        walk(st.base, st.check, word.subrange(0, j)) is Some,
    ensures
        walk(st.base, st.check, word.subrange(0, j)) == Some(b),
        st.owner.dom().contains(b),
        st.owner[b] == word.subrange(0, j),
    decreases j,
{
    let part = word.subrange(0, j);
    if j == 0 {
        assert(part == Seq::<char>::empty());
        1
    } else {
        let c = word[j - 1];
        assert(part.drop_last() == word.subrange(0, j - 1));
        assert(part.last() == c);
        let b0 = lemma_walk_any(st, keys, word, j - 1);
        assert(claim_ok(st, b0));
        lemma_symbol_range(c);
        let p = b0 + symbol(c);
        assert(child_slot(st.base, st.check, b0, symbol(c)) == Some(p));
        assert(child_link_ok(st, b0, c));
        assert(st.owner[b0].push(c) == part);
        st.base[p] as int
    }
}

/// Whole arrays hold the keys and nothing else, each key with its index.
pub(crate) proof fn lemma_built(st: Layout, keys: Seq<Seq<char>>)
    requires
        inv(st, keys),
        settled(st),
        keys.len() > 0 ==> rooted(st),
        keys.len() == 0 ==> st.owner.dom() == Set::<int>::empty(),
    ensures
        arrays_hold(st.base, st.check, keys),
        arrays_walk(st.base, st.check, keys),
        arrays_end(st.base, st.check, keys),
{
    assert forall|p: int| 0 <= p < st.base.len() && #[trigger] st.base[p] < 0 implies -(
    st.base[p] as int) - 1 < keys.len() && walk(
        st.base,
        st.check,
        keys[-(st.base[p] as int) - 1],
    ) == Some(p) by {
        assert(slot_ok(st, keys, p));
        let g = st.check[p] as int;
        let i = choose|i: int| #[trigger] takes(keys, st.owner[g], i, p - g);
        if p - g > 0 {
            let c = keys[i][st.owner[g].len() as int];
            assert(child_link_ok(st, g, c));
        }
        assert(leaf_link_ok(st, keys, g));
        let v = -(st.base[p] as int) - 1;
        let b = lemma_walk_key(st, keys, v, keys[v].len() as int);
        assert(keys[v].subrange(0, keys[v].len() as int) == keys[v]);
        assert(distinct_ok(st, b, g));
    }
    assert forall|word: Seq<char>| word.len() > 0 implies ((#[trigger] walk(
        st.base,
        st.check,
        word,
    )) is Some <==> is_path(keys, word)) by {
        let n = word.len() as int;
        assert(word.subrange(0, n) == word);
        if is_path(keys, word) {
            let i = choose|i: int| #[trigger] under(keys, word, i);
            let b = lemma_walk_key(st, keys, i, n);
        }
        if walk(st.base, st.check, word) is Some {
            if keys.len() > 0 {
                let b = lemma_walk_any(st, keys, word, n);
                assert(owned_ok(st, keys, b));
            } else {
                lemma_unclaimed_lookup(st, keys, word, n);
            }
        }
    }
    assert forall|i: int| 0 <= i < keys.len() implies lookup(
        st.base,
        st.check,
        #[trigger] keys[i],
    ) == Some(i as nat) by {
        let n = keys[i].len() as int;
        let b = lemma_walk_key(st, keys, i, n);
        assert(keys[i].subrange(0, n) == keys[i]);
        assert(group_ok(st, keys, b, i));
        assert(claim_ok(st, b));
        assert(child_slot(st.base, st.check, b, 0) == Some(b));
        assert(leaf_link_ok(st, keys, b));
    }
    assert forall|word: Seq<char>| (#[trigger] lookup(st.base, st.check, word)) is Some implies ({
        let v = lookup(st.base, st.check, word)->0;
        v < keys.len() && keys[v as int] == word
    }) by {
        if lookup(st.base, st.check, word) is Some {
            let n = word.len() as int;
            assert(word.subrange(0, n) == word);
            if keys.len() > 0 {
                let b = lemma_walk_any(st, keys, word, n);
                assert(leaf_link_ok(st, keys, b));
            } else {
                lemma_unclaimed_lookup(st, keys, word, n);
            }
        }
    }
}

/// The arrays as a build leaves them have the shape that it owes: `st` has
/// been cut to its highest claimed offset `last` and 0x110000 slots more,
/// or to its high-water mark if that is higher; with no offset claimed it
/// has 0x110000 slots.
pub(crate) proof fn lemma_shape(
    before: Layout,
    st: Layout,
    keys: Seq<Seq<char>>,
    last: Option<int>,
)
    requires
        inv(before, keys),
        inv(st, keys),
        st == resized(before, st.check.len() as int),
        st.check.len() >= 0x110000,
        match last {
            Some(l) => {
                &&& 0 <= l < before.used.len()
                &&& before.used[l]
                &&& forall|q: int| l < q < before.used.len() ==> !#[trigger] before.used[q]
                &&& st.check.len() == if l + 0x110000 >= before.size {
                    l + 0x110000
                } else {
                    before.size
                }
            },
            None => {
                &&& forall|q: int| 0 <= q < before.used.len() ==> !#[trigger] before.used[q]
                &&& st.check.len() == 0x110000
            },
        },
    ensures
        arrays_shaped(st.base, st.check),
{
    assert forall|p: int| 1 <= p < st.check.len() && #[trigger] st.check[p] != 0 implies 1
        <= st.check[p] <= p && p - st.check[p] <= MAX_SYMBOL by {
        assert(slot_ok(st, keys, p));
        let prefix = st.owner[st.check[p] as int];
        let i = choose|i: int| #[trigger] takes(keys, prefix, i, p - st.check[p]);
        if prefix.len() < keys[i].len() {
            lemma_symbol_range(keys[i][prefix.len() as int]);
        }
    }
    assert forall|p: int| 1 <= p < st.check.len() && #[trigger] st.check[p] == 0 implies st.base[p]
        == 0 by {
        assert(slot_ok(st, keys, p));
    }
    match last {
        Some(l) => {
            let p = lemma_final_length(before, keys, l, st.check.len() as int);
            assert(ends_at(st.check, p));
        },
        None => {
            assert forall|p: int| 1 <= p < st.check.len() implies #[trigger] st.check[p] == 0 by {
                if st.check[p] != 0 {
                    assert(slot_ok(before, keys, p));
                    assert(claim_ok(before, before.check[p] as int));
                }
            }
        },
    }
}

/// Arrays in which nothing is placed yet: the root in slot 0, every other
/// slot empty, no offset claimed.
pub(crate) proof fn lemma_initial(st: Layout, keys: Seq<Seq<char>>)
    requires
        st.base.len() == st.check.len(),
        st.base.len() == st.used.len(),
        st.base.len() >= 1,
        st.base[0] == 1,
        forall|p: int| 1 <= p < st.base.len() ==> #[trigger] st.base[p] == 0,
        forall|p: int| 0 <= p < st.check.len() ==> #[trigger] st.check[p] == 0,
        forall|p: int| 0 <= p < st.used.len() ==> !#[trigger] st.used[p],
        st.size == 0,
        st.owner == Map::<int, Seq<char>>::empty(),
    ensures
        inv(st, keys),
{
    assert forall|p: int| 1 <= p < st.check.len() implies #[trigger] slot_ok(st, keys, p) by {}
    assert forall|c: int| #[trigger] claim_ok(st, c) by {}
    assert forall|c: int, e: char| #[trigger] child_link_ok(st, c, e) by {}
    assert forall|c: int| #[trigger] leaf_link_ok(st, keys, c) by {}
    assert forall|c: int| #[trigger] owned_ok(st, keys, c) by {}
    assert forall|b1: int, b2: int| #[trigger] distinct_ok(st, b1, b2) by {}
    assert forall|p: int| st.size <= p < st.check.len() implies #[trigger] tail_free(st, p) by {}
}

/// Whole subtries placed on arrays in which nothing was stamped leave
/// every stamped slot filled.
pub(crate) proof fn lemma_settled(st0: Layout, st1: Layout, keys: Seq<Seq<char>>)
    requires
        forall|p: int| 0 <= p < st0.check.len() ==> #[trigger] st0.check[p] == 0,
        extends(st0, st1) || st1 == st0,
    ensures
        settled(st1),
{
    assert forall|p: int| 1 <= p < st1.check.len() && #[trigger] st1.check[p] != 0 implies st1.base[p]
        != 0 by {
        if st1 != st0 {
            assert(settled_from(st0, st1, 0, 0, p));
        }
    }
}

/// Cutting or lengthening filled arrays past the high-water mark leaves
/// them filled.
pub(crate) proof fn lemma_settled_resized(st: Layout, keys: Seq<Seq<char>>, n: int)
    requires
        inv(st, keys),
        settled(st),
        n >= st.size,
        n >= 1,
    ensures
        settled(resized(st, n)),
{
    let new = resized(st, n);
    assert forall|p: int| 1 <= p < new.check.len() && #[trigger] new.check[p] != 0 implies new.base[p]
        != 0 by {
        if p < st.check.len() {
            assert(st.check[p] != 0);
        }
    }
}


/// While no offset is claimed, only the empty word can be walked, and it
/// has no value.
pub(crate) proof fn lemma_unclaimed_lookup(st: Layout, keys: Seq<Seq<char>>, word: Seq<char>, j: int)
    requires
        inv(st, keys),
        st.owner.dom() == Set::<int>::empty(),
        0 <= j <= word.len(),
    ensures
        j > 0 ==> walk(st.base, st.check, word.subrange(0, j)) is None,
        terminal_value(st.base, st.check, 1) is None,
        walk(st.base, st.check, word.subrange(0, 0)) == Some(1int),
    decreases j,
{
    assert(word.subrange(0, 0) == Seq::<char>::empty());
    if 1 < st.check.len() {
        assert(slot_ok(st, keys, 1));
    }
    if j > 0 {
        lemma_unclaimed_lookup(st, keys, word, j - 1);
        let part = word.subrange(0, j);
        assert(part.drop_last() == word.subrange(0, j - 1));
        if j == 1 {
            let c = part.last();
            lemma_symbol_range(c);
            let p = 1 + symbol(c);
            if p < st.check.len() {
                assert(slot_ok(st, keys, p));
            }
        }
    }
}

} // verus!
