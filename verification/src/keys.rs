//! The dictionary as a mathematical object: keys, their order, their symbols.
use vstd::prelude::*;
use vstd::std_specs::iter::IteratorSpec;

verus! {

broadcast use vstd::string::group_string_axioms;

/// `p` is a prefix of `k`.
pub open spec fn is_prefix(p: Seq<char>, k: Seq<char>) -> bool {
    p.len() <= k.len() && k.subrange(0, p.len() as int) == p
}

/// Key `i` has the prefix `prefix`.
pub open spec fn under(keys: Seq<Seq<char>>, prefix: Seq<char>, i: int) -> bool {
    0 <= i < keys.len() && is_prefix(prefix, keys[i])
}

/// Some key has the prefix `prefix`: the word is a path of the dictionary.
pub open spec fn is_path(keys: Seq<Seq<char>>, prefix: Seq<char>) -> bool {
    exists|i: int| #[trigger] under(keys, prefix, i)
}

/// Largest transition symbol: the largest scalar value plus one.
pub const MAX_SYMBOL: u32 = 0x110000;

/// Transition symbol of a scalar: its value plus one, zero being kept for
/// the end of a key.
pub open spec fn symbol(c: char) -> int {
    c as u32 as int + 1
}

/// Transition symbol of a scalar.
pub fn symbol_of(c: char) -> (s: u32)
    ensures
        s == symbol(c),
        1 <= s <= MAX_SYMBOL,
{
    c as u32 + 1
}

/// Symbols of scalars lie between one and the largest symbol.
pub proof fn lemma_symbol_range(c: char)
    ensures
        1 <= symbol(c) <= MAX_SYMBOL,
{
}

/// Different scalars have different symbols.
pub proof fn lemma_symbol_injective(a: char, b: char)
    requires
        symbol(a) == symbol(b),
    ensures
        a == b,
{
    vstd::utf8::char_u32_cast(a, a as u32);
    vstd::utf8::char_u32_cast(b, b as u32);
}

/// Transition symbol of `k` at depth `d`: that of the scalar there, or zero,
/// the end-of-key symbol, once the key is used up.
pub open spec fn symbol_at(k: Seq<char>, d: int) -> int {
    if 0 <= d < k.len() {
        symbol(k[d])
    } else {
        0
    }
}

/// `a` and `b` agree on their first `d` symbols, and the next symbol of `a`
/// is smaller than that of `b`.
pub open spec fn differs_at(a: Seq<char>, b: Seq<char>, d: int) -> bool {
    &&& 0 <= d <= a.len()
    &&& d < b.len()
    &&& a.subrange(0, d) == b.subrange(0, d)
    &&& symbol_at(a, d) < symbol_at(b, d)
}

/// `a` comes strictly before `b` when scalars are compared one by one.
pub open spec fn key_lt(a: Seq<char>, b: Seq<char>) -> bool {
    exists|d: int| #[trigger] differs_at(a, b, d)
}

/// The key at `i` comes strictly before its successor.
pub open spec fn ordered_at(keys: Seq<Seq<char>>, i: int) -> bool {
    key_lt(keys[i], keys[i + 1])
}

/// Every key comes strictly before the next one: the keys are sorted and
/// no key occurs twice.
pub open spec fn sorted_keys(keys: Seq<Seq<char>>) -> bool {
    forall|i: int| 0 <= i < keys.len() - 1 ==> #[trigger] ordered_at(keys, i)
}

/// The keys of a dictionary given as string slices.
pub open spec fn key_views(keys: Seq<&str>) -> Seq<Seq<char>> {
    Seq::new(keys.len(), |i: int| keys[i]@)
}

/// No scalar of any key has a symbol above `m`.
pub open spec fn symbols_within(keys: Seq<Seq<char>>, m: int) -> bool {
    forall|i: int, j: int|
        0 <= i < keys.len() && 0 <= j < keys[i].len() ==> symbol(#[trigger] keys[i][j]) <= m
}

/// Number of symbols, the end-of-key symbol included, that the keys in
/// `left..right` still have at depth `depth`.
pub open spec fn weight(keys: Seq<Seq<char>>, left: int, right: int, depth: int) -> int
    decreases right - left,
{
    if right <= left {
        0
    } else {
        weight(keys, left, right - 1, depth) + keys[right - 1].len() + 1 - depth
    }
}

/// Number of symbols of the whole dictionary, one end-of-key symbol per key
/// included.
pub open spec fn total_symbols(keys: Seq<Seq<char>>) -> int {
    weight(keys, 0, keys.len() as int, 0)
}

/// Under a common prefix of length `d`, the symbols at depth `d` of two
/// ordered keys are ordered too, and only a scalar can repeat.
pub proof fn lemma_adjacent_symbols(a: Seq<char>, b: Seq<char>, d: int)
    requires
        key_lt(a, b),
        0 <= d <= a.len(),
        d <= b.len(),
        a.subrange(0, d) == b.subrange(0, d),
    ensures
        symbol_at(a, d) <= symbol_at(b, d),
        symbol_at(a, d) == symbol_at(b, d) ==> symbol_at(a, d) > 0,
{
    let e = choose|e: int| #[trigger] differs_at(a, b, e);
    if e < d {
        assert(a.subrange(0, d)[e] == a[e]);
        assert(b.subrange(0, d)[e] == b[e]);
    } else if e > d {
        assert(a.subrange(0, e)[d] == a[d]);
        assert(b.subrange(0, e)[d] == b[d]);
    }
}

/// The weight of a range is the sum of the weights of its two parts.
pub proof fn lemma_weight_split(keys: Seq<Seq<char>>, left: int, mid: int, right: int, depth: int)
    requires
        left <= mid <= right,
    ensures
        weight(keys, left, right, depth) == weight(keys, left, mid, depth) + weight(
            keys,
            mid,
            right,
            depth,
        ),
    decreases right - mid,
{
    if mid < right {
        lemma_weight_split(keys, left, mid, right - 1, depth);
    }
}

/// One level deeper, every key has one symbol less.
pub proof fn lemma_weight_deeper(keys: Seq<Seq<char>>, left: int, right: int, depth: int)
    requires
        left <= right,
    ensures
        weight(keys, left, right, depth + 1) == weight(keys, left, right, depth) - (right - left),
    decreases right - left,
{
    if left < right {
        lemma_weight_deeper(keys, left, right - 1, depth);
    }
}

/// Keys that reach the depth, or end just before it, weigh nothing less
/// than zero.
pub proof fn lemma_weight_nonnegative(keys: Seq<Seq<char>>, left: int, right: int, depth: int)
    requires
        0 <= left <= right <= keys.len(),
        forall|i: int| left <= i < right ==> depth <= (#[trigger] keys[i]).len() + 1,
    ensures
        0 <= weight(keys, left, right, depth),
    decreases right - left,
{
    if left < right {
        lemma_weight_nonnegative(keys, left, right - 1, depth);
    }
}

/// Each key counts for at least one symbol.
pub proof fn lemma_total_symbols_bounds(keys: Seq<Seq<char>>, right: int, i: int)
    requires
        0 <= i < right <= keys.len(),
    ensures
        right <= weight(keys, 0, right, 0),
        keys[i].len() + 1 <= weight(keys, 0, right, 0),
    decreases right,
{
    if right > 1 {
        if i < right - 1 {
            lemma_total_symbols_bounds(keys, right - 1, i);
        } else {
            lemma_total_symbols_bounds(keys, right - 1, 0);
        }
    } else {
        assert(weight(keys, 0, 0, 0) == 0);
    }
}

/// Where two keys first differ decides their order.
pub proof fn lemma_first_difference(a: Seq<char>, b: Seq<char>, j: int)
    requires
        0 <= j <= a.len(),
        j <= b.len(),
        a.subrange(0, j) == b.subrange(0, j),
        symbol_at(a, j) != symbol_at(b, j),
    ensures
        key_lt(a, b) == (symbol_at(a, j) < symbol_at(b, j)),
{
    if symbol_at(a, j) < symbol_at(b, j) {
        assert(differs_at(a, b, j));
    } else {
        assert forall|d: int| !#[trigger] differs_at(a, b, d) by {
            if differs_at(a, b, d) {
                if d < j {
                    assert(a.subrange(0, j)[d] == a[d]);
                    assert(b.subrange(0, j)[d] == b[d]);
                } else if d > j {
                    assert(a.subrange(0, d)[j] == a[j]);
                    assert(b.subrange(0, d)[j] == b[j]);
                }
            }
        }
    }
}

/// Whether `a` comes strictly before `b` when scalars are compared one by
/// one.
pub fn key_less(a: &str, b: &str) -> (less: bool)
    ensures
        less == key_lt(a@, b@),
{
    let mut ia = a.chars();
    let mut ib = b.chars();
    let ghost mut j: int = 0;
    loop
        invariant
            ia.decrease() is Some,
            0 <= j <= a@.len(),
            j <= b@.len(),
            ia.remaining() == a@.subrange(j, a@.len() as int),
            ib.remaining() == b@.subrange(j, b@.len() as int),
            a@.subrange(0, j) == b@.subrange(0, j),
        decreases ia.decrease()->0,
    {
        let x = ia.next();
        let y = ib.next();
        proof {
            if j < a@.len() {
                assert(a@.subrange(j, a@.len() as int).drop_first() == a@.subrange(
                    j + 1,
                    a@.len() as int,
                ));
            }
            if j < b@.len() {
                assert(b@.subrange(j, b@.len() as int).drop_first() == b@.subrange(
                    j + 1,
                    b@.len() as int,
                ));
            }
        }
        match x {
            Some(c) => {
                match y {
                    Some(e) => {
                        let sc: u32 = symbol_of(c);
                        let se: u32 = symbol_of(e);
                        if sc != se {
                            proof {
                                lemma_first_difference(a@, b@, j);
                            }
                            return sc < se;
                        }
                        proof {
                            lemma_symbol_injective(c, e);
                            assert(a@.subrange(0, j + 1) == a@.subrange(0, j).push(a@[j]));
                            assert(b@.subrange(0, j + 1) == b@.subrange(0, j).push(b@[j]));
                            j = j + 1;
                        }
                    },
                    None => {
                        proof {
                            lemma_symbol_range(c);
                            lemma_first_difference(a@, b@, j);
                        }
                        return false;
                    },
                }
            },
            None => {
                match y {
                    Some(e) => {
                        proof {
                            lemma_symbol_range(e);
                            lemma_first_difference(a@, b@, j);
                        }
                        return true;
                    },
                    None => {
                        proof {
                            assert(a@.subrange(0, j) == a@);
                            assert(b@.subrange(0, j) == b@);
                            assert forall|d: int| !#[trigger] differs_at(a@, b@, d) by {}
                        }
                        return false;
                    },
                }
            },
        }
    }
}

/// Whether the keys are sorted by scalar values and no key occurs twice:
/// what a build asks of its keys.
pub fn keys_sorted(keys: &[&str]) -> (ok: bool)
    ensures
        ok == sorted_keys(key_views(keys@)),
{
    let n: usize = keys.len();
    let ghost all = key_views(keys@);
    let mut i: usize = 1;
    while i < n
        invariant
            1 <= i,
            n == keys@.len(),
            all == key_views(keys@),
            forall|j: int| 0 <= j < i - 1 ==> #[trigger] ordered_at(all, j),
        decreases n - i,
    {
        if !key_less(keys[i - 1], keys[i]) {
            assert(!ordered_at(all, i - 1));
            return false;
        }
        i = i + 1;
    }
    true
}

} // verus!
