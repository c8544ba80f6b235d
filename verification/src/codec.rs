//! Snapshots: the two arrays of a trie as bytes, written and read back by
//! `bincode`.
use crate::trie::DoubleArrayTrie;
use vstd::prelude::*;

verus! {

/// `bincode::ErrorKind`, what an error of `bincode` holds. Nothing is said
/// of what is inside: such an error is only handed on.
#[verifier::external_type_specification]
#[verifier::external_body]
pub struct ExBincodeErrorKind(bincode::ErrorKind);

/// `std::io::Error`, the error of a stream. Nothing is said of what is
/// inside: such an error is only handed on.
#[verifier::external_type_specification]
#[verifier::external_body]
pub struct ExIoError(std::io::Error);

/// What can go wrong when a snapshot is written or read.
#[derive(Debug)]
pub enum DartsError {
    /// The arrays could not be turned into bytes.
    Encoding(bincode::Error),
    /// The bytes do not hold two arrays.
    Decoding(bincode::Error),
    /// The sink or source of the bytes failed.
    Io(std::io::Error),
}

impl DartsError {
    /// The error as text.
    pub fn message(&self) -> (text: String)
        ensures
            text@ == "rust-darts error"@,
    {
        "rust-darts error".to_owned()
    }
}

/// The first `width` bytes of `value`, lowest first.
pub open spec fn le_bytes(value: int, width: int) -> Seq<u8>
    decreases width,
{
    if width <= 0 {
        Seq::empty()
    } else {
        seq![(value % 256) as u8] + le_bytes(value / 256, width - 1)
    }
}

/// The number that the 32 bits of `x` stand for when read without a sign.
pub open spec fn unsigned(x: i32) -> int {
    if x < 0 {
        x + 0x1_0000_0000
    } else {
        x as int
    }
}

/// The elements of `s`, four bytes each, lowest byte first.
pub open spec fn words_i32(s: Seq<i32>) -> Seq<u8>
    decreases s.len(),
{
    if s.len() == 0 {
        Seq::empty()
    } else {
        le_bytes(unsigned(s[0]), 4) + words_i32(s.drop_first())
    }
}

/// The elements of `s`, four bytes each, lowest byte first.
pub open spec fn words_u32(s: Seq<u32>) -> Seq<u8>
    decreases s.len(),
{
    if s.len() == 0 {
        Seq::empty()
    } else {
        le_bytes(s[0] as int, 4) + words_u32(s.drop_first())
    }
}

/// The snapshot of two arrays: `base`, then `check`, each as the number of
/// its elements in eight bytes followed by the elements.
pub open spec fn snapshot(base: Seq<i32>, check: Seq<u32>) -> Seq<u8> {
    le_bytes(base.len() as int, 8) + words_i32(base) + le_bytes(check.len() as int, 8) + words_u32(
        check,
    )
}

/// `bytes` begins with `head`.
pub open spec fn starts_with(bytes: Seq<u8>, head: Seq<u8>) -> bool {
    head.len() <= bytes.len() && bytes.subrange(0, head.len() as int) == head
}

/// `bytes` begin with the snapshot of some pair of arrays.
pub open spec fn holds_snapshot(bytes: Seq<u8>) -> bool {
    exists|base: Seq<i32>, check: Seq<u32>| starts_with(bytes, #[trigger] snapshot(base, check))
}

/// 256 to the power of `width`.
pub open spec fn pow256(width: int) -> int
    decreases width,
{
    if width <= 0 {
        1
    } else {
        256 * pow256(width - 1)
    }
}

/// A number written in `width` bytes takes `width` bytes.
pub proof fn lemma_le_bytes_len(value: int, width: int)
    requires
        0 <= width,
    ensures
        le_bytes(value, width).len() == width,
    decreases width,
{
    if width > 0 {
        lemma_le_bytes_len(value / 256, width - 1);
    }
}

/// Numbers that fit in `width` bytes and have the same bytes are the same.
pub proof fn lemma_le_bytes_injective(a: int, b: int, width: int)
    requires
        0 <= width,
        0 <= a < pow256(width),
        0 <= b < pow256(width),
        le_bytes(a, width) == le_bytes(b, width),
    ensures
        a == b,
    decreases width,
{
    if width > 0 {
        let x = le_bytes(a, width);
        let y = le_bytes(b, width);
        assert(x[0] == (a % 256) as u8);
        assert(y[0] == (b % 256) as u8);
        assert(x.drop_first() == le_bytes(a / 256, width - 1));
        assert(y.drop_first() == le_bytes(b / 256, width - 1));
        lemma_le_bytes_injective(a / 256, b / 256, width - 1);
    }
}

/// Every element takes four bytes.
pub proof fn lemma_words_i32_len(s: Seq<i32>)
    ensures
        words_i32(s).len() == 4 * s.len(),
    decreases s.len(),
{
    if s.len() > 0 {
        lemma_le_bytes_len(unsigned(s[0]), 4);
        lemma_words_i32_len(s.drop_first());
    }
}

/// Every element takes four bytes.
pub proof fn lemma_words_u32_len(s: Seq<u32>)
    ensures
        words_u32(s).len() == 4 * s.len(),
    decreases s.len(),
{
    if s.len() > 0 {
        lemma_le_bytes_len(s[0] as int, 4);
        lemma_words_u32_len(s.drop_first());
    }
}

/// Arrays of one length with the same bytes are the same.
pub proof fn lemma_words_i32_injective(a: Seq<i32>, b: Seq<i32>)
    requires
        a.len() == b.len(),
        words_i32(a) == words_i32(b),
    ensures
        a == b,
    decreases a.len(),
{
    if a.len() > 0 {
        let x = words_i32(a);
        let y = words_i32(b);
        lemma_le_bytes_len(unsigned(a[0]), 4);
        lemma_le_bytes_len(unsigned(b[0]), 4);
        assert(x.subrange(0, 4) == le_bytes(unsigned(a[0]), 4));
        assert(y.subrange(0, 4) == le_bytes(unsigned(b[0]), 4));
        assert(pow256(4) == 0x1_0000_0000) by {
            reveal_with_fuel(pow256, 5);
        }
        lemma_le_bytes_injective(unsigned(a[0]), unsigned(b[0]), 4);
        assert(x.subrange(4, x.len() as int) == words_i32(a.drop_first()));
        assert(y.subrange(4, y.len() as int) == words_i32(b.drop_first()));
        lemma_words_i32_injective(a.drop_first(), b.drop_first());
        assert(a == seq![a[0]] + a.drop_first());
        assert(b == seq![b[0]] + b.drop_first());
    } else {
        assert(a == b);
    }
}

/// Arrays of one length with the same bytes are the same.
pub proof fn lemma_words_u32_injective(a: Seq<u32>, b: Seq<u32>)
    requires
        a.len() == b.len(),
        words_u32(a) == words_u32(b),
    ensures
        a == b,
    decreases a.len(),
{
    if a.len() > 0 {
        let x = words_u32(a);
        let y = words_u32(b);
        lemma_le_bytes_len(a[0] as int, 4);
        lemma_le_bytes_len(b[0] as int, 4);
        assert(x.subrange(0, 4) == le_bytes(a[0] as int, 4));
        assert(y.subrange(0, 4) == le_bytes(b[0] as int, 4));
        assert(pow256(4) == 0x1_0000_0000) by {
            reveal_with_fuel(pow256, 5);
        }
        lemma_le_bytes_injective(a[0] as int, b[0] as int, 4);
        assert(x.subrange(4, x.len() as int) == words_u32(a.drop_first()));
        assert(y.subrange(4, y.len() as int) == words_u32(b.drop_first()));
        lemma_words_u32_injective(a.drop_first(), b.drop_first());
        assert(a == seq![a[0]] + a.drop_first());
        assert(b == seq![b[0]] + b.drop_first());
    } else {
        assert(a == b);
    }
}

/// The four parts of a snapshot, by their places in bytes that begin with it.
pub proof fn lemma_snapshot_parts(bytes: Seq<u8>, base: Seq<i32>, check: Seq<u32>)
    requires
        starts_with(bytes, snapshot(base, check)),
    ensures
        ({
            let n = base.len() as int;
            let m = check.len() as int;
            &&& 16 + 4 * n + 4 * m <= bytes.len()
            &&& bytes.subrange(0, 8) == le_bytes(n, 8)
            &&& bytes.subrange(8, 8 + 4 * n) == words_i32(base)
            &&& bytes.subrange(8 + 4 * n, 16 + 4 * n) == le_bytes(m, 8)
            &&& bytes.subrange(16 + 4 * n, 16 + 4 * n + 4 * m) == words_u32(check)
        }),
{
    let n = base.len() as int;
    let m = check.len() as int;
    let whole = snapshot(base, check);
    lemma_le_bytes_len(n, 8);
    lemma_le_bytes_len(m, 8);
    lemma_words_i32_len(base);
    lemma_words_u32_len(check);
    assert(whole.len() == 16 + 4 * n + 4 * m);
    assert(whole.subrange(0, 8) == le_bytes(n, 8));
    assert(whole.subrange(8, 8 + 4 * n) == words_i32(base));
    assert(whole.subrange(8 + 4 * n, 16 + 4 * n) == le_bytes(m, 8));
    assert(whole.subrange(16 + 4 * n, 16 + 4 * n + 4 * m) == words_u32(check));
    let head = bytes.subrange(0, whole.len() as int);
    assert(bytes.subrange(0, 8) == head.subrange(0, 8));
    assert(bytes.subrange(8, 8 + 4 * n) == head.subrange(8, 8 + 4 * n));
    assert(bytes.subrange(8 + 4 * n, 16 + 4 * n) == head.subrange(8 + 4 * n, 16 + 4 * n));
    assert(bytes.subrange(16 + 4 * n, 16 + 4 * n + 4 * m) == head.subrange(
        16 + 4 * n,
        16 + 4 * n + 4 * m,
    ));
}

/// Bytes begin with the snapshot of at most one pair of arrays: what is
/// read back from a snapshot, whatever follows it, is what was written.
pub proof fn lemma_snapshot_round_trip(
    bytes: Seq<u8>,
    base: Seq<i32>,
    check: Seq<u32>,
    base2: Seq<i32>,
    check2: Seq<u32>,
)
    requires
        starts_with(bytes, snapshot(base, check)),
        starts_with(bytes, snapshot(base2, check2)),
        base.len() <= u64::MAX,
        check.len() <= u64::MAX,
        base2.len() <= u64::MAX,
        check2.len() <= u64::MAX,
    ensures
        base2 == base,
        check2 == check,
{
    lemma_snapshot_parts(bytes, base, check);
    lemma_snapshot_parts(bytes, base2, check2);
    assert(pow256(8) == 0x1_0000_0000_0000_0000) by {
        reveal_with_fuel(pow256, 9);
    }
    lemma_le_bytes_injective(base.len() as int, base2.len() as int, 8);
    lemma_words_i32_injective(base, base2);
    lemma_le_bytes_injective(check.len() as int, check2.len() as int, 8);
    lemma_words_u32_injective(check, check2);
}

/// Reading back what was written gives the trie that was written: if bytes
/// that begin with the snapshot of `trie` are read as the snapshot of
/// `back`, the two tries have the same arrays.
pub proof fn lemma_snapshot_read_back(trie: DoubleArrayTrie, tail: Seq<u8>, back: DoubleArrayTrie)
    requires
        starts_with(
            snapshot(trie.base(), trie.check()) + tail,
            snapshot(back.base(), back.check()),
        ),
    ensures
        back.base() == trie.base(),
        back.check() == trie.check(),
{
    let written = snapshot(trie.base(), trie.check());
    let bytes = written + tail;
    trie.lemma_array_lengths();
    back.lemma_array_lengths();
    assert(bytes.subrange(0, written.len() as int) == written);
    lemma_snapshot_round_trip(bytes, trie.base(), trie.check(), back.base(), back.check());
}

/// What is written is read: bytes that are a snapshot followed by anything
/// begin with a snapshot.
pub proof fn lemma_snapshot_is_held(base: Seq<i32>, check: Seq<u32>, tail: Seq<u8>)
    ensures
        starts_with(snapshot(base, check) + tail, snapshot(base, check)),
        holds_snapshot(snapshot(base, check) + tail),
{
    let written = snapshot(base, check);
    assert((written + tail).subrange(0, written.len() as int) == written);
}

/// Calls `bincode::serialize` on the pair of the two arrays. With the
/// settings of that function, integers of fixed width in little-endian
/// order, a pair is written as its two parts one after the other, and a
/// vector as the number of its elements in eight bytes followed by the
/// elements; a signed element is written as the unsigned number with the
/// same bits. The contract claims that the call succeeds and that its
/// result holds exactly these bytes: these settings set no limit on the
/// size, a vector knows its length, and the bytes go to a vector, so the
/// encoder has nothing to fail on.
#[verifier::external_body]
fn serialize_arrays(base: &Vec<i32>, check: &Vec<u32>) -> (r: Result<Vec<u8>, bincode::Error>)
    ensures
        r is Ok,
        r matches Ok(bytes) ==> bytes@ == snapshot(base@, check@),
{
    bincode::serialize(&(base, check))
}

/// Calls `bincode::deserialize` for a pair of two vectors. With the
/// settings of that function it reads what `bincode::serialize` writes and
/// lets any bytes follow. The contract claims that a result that is `Ok`
/// holds arrays whose snapshot the bytes begin with, and that the call
/// succeeds on all bytes that begin with a snapshot: it reads two counted
/// vectors of integers of fixed width from the slice and fails only where
/// the slice ends before they do.
#[verifier::external_body]
fn deserialize_arrays(bytes: &[u8]) -> (r: Result<(Vec<i32>, Vec<u32>), bincode::Error>)
    ensures
        r matches Ok(arrays) ==> starts_with(bytes@, snapshot(arrays.0@, arrays.1@)),
        holds_snapshot(bytes@) ==> r is Ok,
{
    bincode::deserialize(bytes)
}

/// What writing a snapshot returns for each outcome of the encoder: the
/// bytes, or the encoder's error as an encoding error.
pub fn encoded(outcome: Result<Vec<u8>, bincode::Error>) -> (r: Result<Vec<u8>, DartsError>)
    ensures
        match outcome {
            Ok(bytes) => r == Ok::<Vec<u8>, DartsError>(bytes),
            Err(e) => r == Err::<Vec<u8>, DartsError>(DartsError::Encoding(e)),
        },
{
    match outcome {
        Ok(bytes) => Ok(bytes),
        Err(e) => Err(DartsError::Encoding(e)),
    }
}

/// What reading a snapshot returns for each outcome of the decoder: the
/// trie over the two arrays, or the decoder's error as a decoding error.
pub fn decoded(outcome: Result<(Vec<i32>, Vec<u32>), bincode::Error>) -> (r: Result<
    DoubleArrayTrie,
    DartsError,
>)
    ensures
        match outcome {
            Ok(arrays) => r matches Ok(trie) && trie.base() == arrays.0@ && trie.check()
                == arrays.1@,
            Err(e) => r matches Err(DartsError::Decoding(d)) && d == e,
        },
{
    match outcome {
        Ok(arrays) => Ok(DoubleArrayTrie::from_arrays(arrays.0, arrays.1)),
        Err(e) => Err(DartsError::Decoding(e)),
    }
}

impl DoubleArrayTrie {
    /// The snapshot of the trie: its two arrays as bytes. It is always had.
    pub fn to_bytes(&self) -> (r: Result<Vec<u8>, DartsError>)
        ensures
            r matches Ok(bytes) && bytes@ == snapshot(self.base(), self.check()),
    {
        encoded(serialize_arrays(self.base_array(), self.check_array()))
    }

    /// The trie whose snapshot `bytes` begin with; a decoding error exactly
    /// if they begin with none.
    pub fn from_bytes(bytes: &[u8]) -> (r: Result<DoubleArrayTrie, DartsError>)
        ensures
            match r {
                Ok(trie) => starts_with(bytes@, snapshot(trie.base(), trie.check())),
                Err(e) => e is Decoding && !holds_snapshot(bytes@),
            },
    {
        decoded(deserialize_arrays(bytes))
    }
}

} // verus!
