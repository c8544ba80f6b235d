//! The build as a function of the keys: what each search finds, where each
//! sibling group comes to lie, and what the arrays are in the end.
use crate::keys::{symbol_at, total_symbols};
use crate::layout::{
    adjoins, blocked, blocks, filled, least_fit, lemma_ranges_ordered, member_ok, placed,
    resized, search_start, siblings_ok, stamped, Layout, Node,
};
use vstd::prelude::*;

verus! {

/// Length to which the arrays are filled up with empty slots when two
/// states of a build are compared: no build asks for longer arrays.
pub(crate) open spec fn full_length() -> int {
    0x8010_FFFF
}

/// The arrays filled up with empty slots to the full length.
pub(crate) open spec fn pad(st: Layout) -> Layout {
    resized(st, full_length())
}

/// A state of a build: the arrays at full length, the position that the
/// next search starts from, and the number of keys in place.
pub(crate) struct Plan {
    pub st: Layout,
    pub ncp: int,
    pub done: int,
}

/// The arrays have one length, which is not above the full length.
pub(crate) open spec fn sized(st: Layout) -> bool {
    st.base.len() == st.check.len() && st.base.len() == st.used.len() && st.base.len()
        <= full_length()
}

/// Filling up keeps what was filled up before.
pub(crate) proof fn lemma_pad_resized(st: Layout, n: int)
    requires
        sized(st),
        n <= full_length(),
        st.base.len() <= n,
    ensures
        pad(resized(st, n)) == pad(st),
{
    let x = pad(resized(st, n));
    let y = pad(st);
    assert(x.base =~= y.base);
    assert(x.check =~= y.check);
    assert(x.used =~= y.used);
}

/// Stamping and filling up can be done in either order.
pub(crate) proof fn lemma_stamped_pad(check: Seq<u32>, g: int, s: Seq<Node>, k: int, n: int)
    requires
        0 <= k <= s.len(),
        0 <= g <= u32::MAX,
        check.len() <= n,
        forall|i: int| 0 <= i < k ==> 0 <= g + (#[trigger] s[i]).code < check.len(),
    ensures
        stamped(Seq::new(n as nat, |i: int| if i < check.len() { check[i] } else { 0u32 }), g, s, k)
            == Seq::new(
            n as nat,
            |i: int|
                if i < stamped(check, g, s, k).len() {
                    stamped(check, g, s, k)[i]
                } else {
                    0u32
                },
        ),
        stamped(check, g, s, k).len() == check.len(),
    decreases k,
{
    let wide = Seq::new(n as nat, |i: int| if i < check.len() { check[i] } else { 0u32 });
    if k > 0 {
        lemma_stamped_pad(check, g, s, k - 1, n);
        let a = stamped(wide, g, s, k);
        let inner = stamped(check, g, s, k);
        let b = Seq::new(n as nat, |i: int| if i < inner.len() { inner[i] } else { 0u32 });
        assert(a =~= b);
    } else {
        let inner = stamped(check, g, s, k);
        let b = Seq::new(n as nat, |i: int| if i < inner.len() { inner[i] } else { 0u32 });
        assert(wide =~= b);
    }
}

/// Placing a group and filling up can be done in either order.
pub(crate) proof fn lemma_pad_placed(st: Layout, g: int, s: Seq<Node>, prefix: Seq<char>)
    requires
        sized(st),
        s.len() > 0,
        0 <= g < st.base.len(),
        forall|i: int| 0 <= i < s.len() ==> g + (#[trigger] s[i]).code < st.check.len(),
    ensures
        pad(placed(st, g, s, prefix)) == placed(pad(st), g, s, prefix),
{
    lemma_stamped_pad(st.check, g, s, s.len() as int, full_length());
    let x = pad(placed(st, g, s, prefix));
    let y = placed(pad(st), g, s, prefix);
    assert(x.base =~= y.base);
    assert(x.check =~= y.check);
    assert(x.used =~= y.used);
}

/// Filling a slot and filling up can be done in either order.
pub(crate) proof fn lemma_pad_filled(st: Layout, p: int, v: i32)
    requires
        sized(st),
        0 <= p < st.base.len(),
    ensures
        pad(filled(st, p, v)) == filled(pad(st), p, v),
{
    let x = pad(filled(st, p, v));
    let y = filled(pad(st), p, v);
    assert(x.base =~= y.base);
    assert(x.check =~= y.check);
    assert(x.used =~= y.used);
}

/// Empty slots past the end block no offset.
pub(crate) proof fn lemma_blocked_pad(st: Layout, s: Seq<Node>, b: int)
    requires
        sized(st),
    ensures
        blocked(pad(st), s, b) == blocked(st, s, b),
{
    let wide = pad(st);
    if blocked(st, s, b) {
        if !(0 <= b < st.used.len() && st.used[b]) {
            let k = choose|k: int| #[trigger] blocks(st, s, b, k);
            assert(blocks(wide, s, b, k));
        }
    }
    if blocked(wide, s, b) {
        if !(0 <= b < wide.used.len() && wide.used[b]) {
            let k = choose|k: int| #[trigger] blocks(wide, s, b, k);
            assert(blocks(st, s, b, k));
        }
    }
}

/// The least offset that fits is the least on the arrays filled up too.
pub(crate) proof fn lemma_least_fit_pad(st: Layout, s: Seq<Node>, start: int, begin: int)
    requires
        sized(st),
        least_fit(st, s, start, begin),
    ensures
        least_fit(pad(st), s, start, begin),
{
    lemma_blocked_pad(st, s, begin);
    assert forall|b: int| start <= b < begin implies #[trigger] blocked(pad(st), s, b) by {
        lemma_blocked_pad(st, s, b);
        assert(blocked(st, s, b));
    }
}

/// The offset that a search from the position `ncp` finds for the siblings.
pub(crate) open spec fn offset_for(st: Layout, s: Seq<Node>, ncp: int) -> int {
    choose|b: int| least_fit(st, s, search_start(ncp, s[0].code as int), b)
}

/// There is one least offset that fits.
pub(crate) proof fn lemma_offset_for(st: Layout, s: Seq<Node>, ncp: int, begin: int)
    requires
        least_fit(st, s, search_start(ncp, s[0].code as int), begin),
    ensures
        begin == offset_for(st, s, ncp),
{
    let start = search_start(ncp, s[0].code as int);
    let other = offset_for(st, s, ncp);
    assert(least_fit(st, s, start, other));
    if other < begin {
        assert(blocked(st, s, other));
    }
    if begin < other {
        assert(blocked(st, s, begin));
    }
}

/// Slot `p` is stamped.
pub(crate) open spec fn taken(check: Seq<u32>, p: int) -> bool {
    0 <= p < check.len() && check[p] != 0
}

/// Number of stamped slots from `from` up to `to`, which is left out.
pub(crate) open spec fn taken_count(check: Seq<u32>, from: int, to: int) -> int
    decreases to - from,
{
    if to <= from {
        0
    } else {
        taken_count(check, from, to - 1) + if taken(check, to - 1) {
            1int
        } else {
            0int
        }
    }
}

/// `first` is the first slot from `from` on that is not stamped.
pub(crate) open spec fn first_free(check: Seq<u32>, from: int, first: int) -> bool {
    &&& from <= first
    &&& !taken(check, first)
    &&& forall|p: int| from <= p < first ==> #[trigger] taken(check, p)
}

/// Position that the next search starts from, after one that started at
/// the position `ncp`, passed `first` as its first slot not stamped and
/// found `begin`: `first`, or, if 19 in 20 of the slots from the start to
/// the one found were stamped, the slot found.
pub(crate) open spec fn start_after(
    check: Seq<u32>,
    s: Seq<Node>,
    ncp: int,
    begin: int,
    first: int,
) -> int {
    let code0 = s[0].code as int;
    let from = search_start(ncp, code0) + code0;
    let pos = begin + code0;
    if taken_count(check, from, pos) * 20 >= (pos - first + 1) * 19 {
        pos
    } else {
        first
    }
}

/// `next` is the position that the next search starts from, after one that
/// started at the position `ncp` and found `begin`.
pub(crate) open spec fn starts_next(
    check: Seq<u32>,
    s: Seq<Node>,
    ncp: int,
    begin: int,
    next: int,
) -> bool {
    exists|first: int|
        #[trigger] first_free(check, search_start(ncp, s[0].code as int) + s[0].code, first)
            && next == start_after(check, s, ncp, begin, first)
}

/// Position that the next search starts from, after one that started at
/// the position `ncp` and found `begin`.
pub(crate) open spec fn next_start(st: Layout, s: Seq<Node>, ncp: int, begin: int) -> int {
    let from = search_start(ncp, s[0].code as int) + s[0].code;
    start_after(st.check, s, ncp, begin, choose|first: int| first_free(st.check, from, first))
}

/// The next search starts from one position, on the arrays filled up too.
pub(crate) proof fn lemma_next_start(st: Layout, s: Seq<Node>, ncp: int, begin: int, next: int)
    requires
        sized(st),
        starts_next(st.check, s, ncp, begin, next),
    ensures
        next == next_start(pad(st), s, ncp, begin),
{
    let code0 = s[0].code as int;
    let from = search_start(ncp, code0) + code0;
    let first = choose|first: int|
        #[trigger] first_free(st.check, from, first) && next == start_after(
            st.check,
            s,
            ncp,
            begin,
            first,
        );
    lemma_taken_pad(st, from, begin + code0);
    assert(taken(pad(st).check, first) == taken(st.check, first));
    assert forall|p: int| from <= p < first implies #[trigger] taken(pad(st).check, p) by {
        assert(taken(st.check, p));
    }
    assert(first_free(pad(st).check, from, first));
    lemma_first_free(pad(st).check, from, first);
}

/// There is one first slot that is not stamped.
pub(crate) proof fn lemma_first_free(check: Seq<u32>, from: int, first: int)
    requires
        first_free(check, from, first),
    ensures
        first == choose|f: int| first_free(check, from, f),
{
    let other = choose|f: int| first_free(check, from, f);
    if other < first {
        assert(taken(check, other));
    }
    if first < other {
        assert(taken(check, first));
    }
}

/// Empty slots past the end are not counted.
pub(crate) proof fn lemma_taken_pad(st: Layout, from: int, to: int)
    requires
        sized(st),
    ensures
        taken_count(pad(st).check, from, to) == taken_count(st.check, from, to),
        forall|p: int| #[trigger] taken(pad(st).check, p) == taken(st.check, p),
    decreases to - from,
{
    if from < to {
        lemma_taken_pad(st, from, to - 1);
    }
}

/// The children of the node `node`, whose prefix with the scalar that leads
/// to it is `longer`.
pub(crate) open spec fn groups(keys: Seq<Seq<char>>, node: Node, longer: Seq<char>) -> Seq<Node> {
    choose|t: Seq<Node>|
        siblings_ok(keys, t, longer) && t[0].left == node.left && t.last().right == node.right
}

/// Two lists of the children of one node agree up to any index that both
/// have.
pub(crate) proof fn lemma_siblings_agree(
    keys: Seq<Seq<char>>,
    s: Seq<Node>,
    t: Seq<Node>,
    prefix: Seq<char>,
    k: int,
)
    requires
        siblings_ok(keys, s, prefix),
        siblings_ok(keys, t, prefix),
        s[0].left == t[0].left,
        s.last().right == t.last().right,
        0 <= k < s.len(),
    ensures
        k < t.len(),
        s[k] == t[k],
    decreases k,
{
    let d = prefix.len() as int;
    if k > 0 {
        lemma_siblings_agree(keys, s, t, prefix, k - 1);
        assert(adjoins(s, k - 1));
        lemma_ranges_ordered(keys, s, prefix, k, s.len() - 1);
        assert(member_ok(keys, s, prefix, k));
        assert(member_ok(keys, s, prefix, s.len() - 1));
        if k >= t.len() {
            // the list `t` ends where `s` goes on
            assert(t.last() == t[k - 1]);
        }
        assert(adjoins(t, k - 1));
    }
    assert(member_ok(keys, s, prefix, k));
    assert(member_ok(keys, t, prefix, k));
    let l = s[k].left as int;
    assert(s[k].left == t[k].left);
    assert(symbol_at(keys[l], d) == s[k].code);
    assert(symbol_at(keys[l], d) == t[k].code);
    lemma_ranges_ordered(keys, s, prefix, k, s.len() - 1);
    lemma_ranges_ordered(keys, t, prefix, k, t.len() - 1);
    assert(member_ok(keys, s, prefix, s.len() - 1));
    assert(member_ok(keys, t, prefix, t.len() - 1));
    if s[k].right < t[k].right {
        let i = s[k].right as int;
        assert(symbol_at(keys[i], d) == t[k].code);
        assert(adjoins(s, k));
        assert(member_ok(keys, s, prefix, k + 1));
        assert(s[k].code < s[k + 1].code);
    }
    if t[k].right < s[k].right {
        let i = t[k].right as int;
        assert(symbol_at(keys[i], d) == s[k].code);
        assert(adjoins(t, k));
        assert(member_ok(keys, t, prefix, k + 1));
        assert(t[k].code < t[k + 1].code);
    }
}

/// A node has one list of children.
pub(crate) proof fn lemma_groups(keys: Seq<Seq<char>>, node: Node, longer: Seq<char>, s: Seq<Node>)
    requires
        siblings_ok(keys, s, longer),
        s[0].left == node.left,
        s.last().right == node.right,
    ensures
        s == groups(keys, node, longer),
{
    let t = groups(keys, node, longer);
    assert(siblings_ok(keys, t, longer) && t[0].left == node.left && t.last().right == node.right);
    lemma_siblings_agree(keys, s, t, longer, s.len() - 1);
    lemma_siblings_agree(keys, t, s, longer, t.len() - 1);
    assert forall|k: int| 0 <= k < s.len() implies s[k] == t[k] by {
        lemma_siblings_agree(keys, s, t, longer, k);
    }
    assert(s =~= t);
}

/// The state after the sibling group `s` of the node `prefix` and all that
/// lies below it are placed, with the offset of the group; nothing if the
/// high-water mark has passed the limit somewhere on the way. `fuel` bounds
/// the depth.
pub(crate) open spec fn place_node(
    p: Plan,
    keys: Seq<Seq<char>>,
    s: Seq<Node>,
    prefix: Seq<char>,
    fuel: nat,
) -> Option<(Plan, int)>
    decreases fuel, 0nat, 0nat,
{
    if fuel == 0 || p.st.size > 0x7FEE_FFFE {
        None
    } else {
        let begin = offset_for(p.st, s, p.ncp);
        let next = Plan {
            st: placed(p.st, begin, s, prefix),
            ncp: next_start(p.st, s, p.ncp, begin),
            done: p.done,
        };
        match place_rest(next, keys, s, prefix, begin, 0, (fuel - 1) as nat) {
            Some(q) => Some((q, begin)),
            None => None,
        }
    }
}

/// The state after the siblings from `k` on are filled: an end of a key
/// with the index of the key, any other sibling with the offset of its
/// own children, which are placed first.
pub(crate) open spec fn place_rest(
    p: Plan,
    keys: Seq<Seq<char>>,
    s: Seq<Node>,
    prefix: Seq<char>,
    begin: int,
    k: int,
    fuel: nat,
) -> Option<Plan>
    decreases fuel, 1nat, (s.len() - k) as nat,
{
    if k < 0 || k >= s.len() {
        Some(p)
    } else if s[k].code == 0 {
        place_rest(
            Plan {
                st: filled(p.st, begin, (-(s[k].left as int) - 1) as i32),
                ncp: p.ncp,
                done: p.done + 1,
            },
            keys,
            s,
            prefix,
            begin,
            k + 1,
            fuel,
        )
    } else {
        let longer = prefix.push(keys[s[k].left as int][prefix.len() as int]);
        match place_node(p, keys, groups(keys, s[k], longer), longer, fuel) {
            None => None,
            Some((q, h)) => place_rest(
                Plan { st: filled(q.st, begin + s[k].code, h as i32), ncp: q.ncp, done: q.done },
                keys,
                s,
                prefix,
                begin,
                k + 1,
                fuel,
            ),
        }
    }
}

/// The arrays before anything is placed: 0x110000 slots, all empty but
/// for the base of the root.
pub(crate) open spec fn initial_layout() -> Layout {
    Layout {
        base: Seq::new(
            0x110000,
            |i: int|
                if i == 0 {
                    1i32
                } else {
                    0i32
                },
        ),
        check: Seq::new(0x110000, |i: int| 0u32),
        used: Seq::new(0x110000, |i: int| false),
        size: 0,
        owner: Map::empty(),
    }
}

/// The node of the empty prefix, with all keys.
pub(crate) open spec fn root_node(keys: Seq<Seq<char>>) -> Node {
    Node { code: 0, depth: 0, left: 0, right: keys.len() as usize }
}

/// The dictionary has more keys, or a key has more scalars, than a build
/// counts.
pub(crate) open spec fn oversized(keys: Seq<Seq<char>>) -> bool {
    keys.len() > 0x7FFF_FFFF || exists|i: int|
        0 <= i < keys.len() && (#[trigger] keys[i]).len() >= 0x7FFF_FFFF
}

/// `l` is the highest offset marked as used.
pub(crate) open spec fn is_last(used: Seq<bool>, l: int) -> bool {
    0 <= l < used.len() && used[l] && forall|q: int| l < q < used.len() ==> !#[trigger] used[q]
}

/// Length that the arrays are cut to in the end: 0x110000 slots past the
/// highest claimed offset, or the high-water mark if that is higher; with
/// no offset claimed, 0x110000 slots.
pub(crate) open spec fn final_length(st: Layout) -> int {
    if exists|l: int| is_last(st.used, l) {
        let l = choose|l: int| is_last(st.used, l);
        if l + 0x110000 >= st.size {
            l + 0x110000
        } else {
            st.size
        }
    } else {
        0x110000
    }
}

/// The two arrays cut to their final length.
pub(crate) open spec fn finish(st: Layout) -> (Seq<i32>, Seq<u32>) {
    (resized(st, final_length(st)).base, resized(st, final_length(st)).check)
}

/// The arrays that a build makes of `keys`, if it makes any.
pub(crate) open spec fn plan_arrays(keys: Seq<Seq<char>>) -> Option<(Seq<i32>, Seq<u32>)> {
    if oversized(keys) {
        None
    } else if keys.len() == 0 {
        Some(finish(pad(initial_layout())))
    } else {
        match place_node(
            Plan { st: pad(initial_layout()), ncp: 0, done: 0 },
            keys,
            groups(keys, root_node(keys), Seq::empty()),
            Seq::empty(),
            (total_symbols(keys) + 1) as nat,
        ) {
            None => None,
            Some((q, _)) => Some(finish(q.st)),
        }
    }
}

/// Cutting the arrays to their final length gives what cutting the arrays
/// filled up gives.
pub(crate) proof fn lemma_finish(st: Layout, last: Option<int>, n: int)
    requires
        sized(st),
        n <= full_length(),
        match last {
            Some(l) => is_last(st.used, l) && n == if l + 0x110000 >= st.size {
                l + 0x110000
            } else {
                st.size
            },
            None => n == 0x110000 && forall|q: int| 0 <= q < st.used.len() ==> !#[trigger] st.used[q],
        },
    ensures
        finish(pad(st)) == (resized(st, n).base, resized(st, n).check),
{
    let wide = pad(st);
    match last {
        Some(l) => {
            assert(is_last(wide.used, l));
            let other = choose|o: int| is_last(wide.used, o);
            if other < l {
                assert(!wide.used[l]);
            }
            if l < other {
                assert(!wide.used[other]);
            }
        },
        None => {
            assert forall|o: int| !is_last(wide.used, o) by {
                if 0 <= o < st.used.len() {
                    assert(!st.used[o]);
                }
            }
        },
    }
    assert(final_length(wide) == n);
    assert(resized(wide, n).base =~= resized(st, n).base);
    assert(resized(wide, n).check =~= resized(st, n).check);
}

/// The arrays of a build that has just begun.
pub(crate) proof fn lemma_initial_layout(st: Layout)
    requires
        st.base.len() == 0x110000,
        st.check.len() == 0x110000,
        st.used.len() == 0x110000,
        st.base[0] == 1,
        forall|p: int| 1 <= p < st.base.len() ==> #[trigger] st.base[p] == 0,
        forall|p: int| 0 <= p < st.check.len() ==> #[trigger] st.check[p] == 0,
        forall|p: int| 0 <= p < st.used.len() ==> !#[trigger] st.used[p],
        st.size == 0,
        st.owner == Map::<int, Seq<char>>::empty(),
    ensures
        st == initial_layout(),
{
    let init = initial_layout();
    assert(st.base =~= init.base);
    assert(st.check =~= init.check);
    assert(st.used =~= init.used);
}

} // verus!
