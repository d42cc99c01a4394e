//! The wire format as mathematics: what a run of bytes means, which runs a
//! decoder accepts, and what the canonical encoding of a value is.
use vstd::prelude::*;

verus! {

/// Number of bytes in the longest encoding of a 32-bit value.
pub const MAX_LEN: usize = 5;

/// The continuation bit: set on every byte of an encoding but the last.
pub const MSB: u8 = 0x80;

/// The bits of the fifth byte that still fall inside 32 bits.
pub const LAST_BYTE_MASK: u8 = 0x0f;

/// Whether the continuation bit of `b` is set.
pub open spec fn has_continuation(b: u8) -> bool {
    b >= 128
}

/// The seven data bits of `b`.
pub open spec fn payload(b: u8) -> nat {
    (b % 128) as nat
}

/// The number a run of bytes stands for: byte `i` gives its data bits the
/// weight `128^i`.
pub open spec fn value(s: Seq<u8>) -> nat
    decreases s.len(),
{
    if s.len() == 0 {
        0
    } else {
        payload(s[0]) + 128 * value(s.drop_first())
    }
}

/// The canonical encoding of `v`: seven bits per byte, least significant
/// first, as few bytes as `v` needs.
pub open spec fn encode(v: nat) -> Seq<u8>
    decreases v,
{
    if v < 128 {
        seq![v as u8]
    } else {
        seq![(v % 128 + 128) as u8] + encode(v / 128)
    }
}

/// Length of the terminated run that starts `s`, scanning from index `i`:
/// one past the first byte at or after `i`, among the first `MAX_LEN`,
/// whose continuation bit is clear; zero when there is none.
pub open spec fn run_len_from(s: Seq<u8>, i: nat) -> nat
    decreases MAX_LEN - i,
{
    if i >= MAX_LEN || i >= s.len() {
        0
    } else if !has_continuation(s[i as int]) {
        i + 1
    } else {
        run_len_from(s, i + 1)
    }
}

/// Length of the terminated run at the front of `s`; zero when none of the
/// first `MAX_LEN` bytes ends it.
pub open spec fn run_len(s: Seq<u8>) -> nat {
    run_len_from(s, 0)
}

/// Why a byte sequence holds no terminated run: it stopped short of five
/// bytes, or five bytes went by with the continuation bit set.
#[derive(Debug, Clone, Copy, PartialEq, Eq, Structural)]
pub enum DecodeError {
    Truncated,
    TooManyContinuationBytes,
}

/// The error for a sequence whose `run_len` is zero.
pub open spec fn invalid_kind(s: Seq<u8>) -> DecodeError {
    if s.len() >= MAX_LEN {
        DecodeError::TooManyContinuationBytes
    } else {
        DecodeError::Truncated
    }
}

/// Length of `p` once the trailing bytes whose data bits are all zero are
/// dropped; never below one.
pub open spec fn significant_len(p: Seq<u8>) -> nat
    decreases p.len(),
{
    if p.len() <= 1 {
        1
    } else if payload(p.last()) != 0 {
        p.len()
    } else {
        significant_len(p.drop_last())
    }
}

/// A run in which every byte carries information: nothing to normalize.
pub open spec fn is_tight(p: Seq<u8>) -> bool {
    significant_len(p) == p.len()
}

/// Bytes that end at their first byte with a clear continuation bit.
pub open spec fn is_terminated(p: Seq<u8>) -> bool {
    &&& p.len() >= 1
    &&& !has_continuation(p.last())
    &&& forall|i: int| 0 <= i < p.len() - 1 ==> has_continuation(#[trigger] p[i])
}

/// The bytes that a value of this library holds: a terminated run of at most
/// `MAX_LEN` bytes whose fifth byte, if any, keeps to the bits that fit in
/// 32 bits.
pub open spec fn is_valid_encoding(p: Seq<u8>) -> bool {
    &&& is_terminated(p)
    &&& p.len() <= MAX_LEN
    &&& p.len() == MAX_LEN ==> p.last() < 16
}

/// A terminated run with no redundant trailing group.
pub open spec fn is_canonical(p: Seq<u8>) -> bool {
    &&& is_terminated(p)
    &&& p.len() > 1 ==> p.last() != 0
}

/// The last byte of a normalized run of `n` bytes: its data bits, and of a
/// fifth byte only the four that fit in 32 bits.
pub open spec fn last_byte(b: u8, n: nat) -> u8 {
    if n == MAX_LEN {
        (b % 16) as u8
    } else {
        (b % 128) as u8
    }
}

/// The normalized form of a terminated run: cut to its significant length,
/// with the continuation bit (and the bits past 32) of the new last byte
/// cleared.
pub open spec fn normalize(p: Seq<u8>) -> Seq<u8> {
    let n = significant_len(p);
    p.take(n - 1).push(last_byte(p[n - 1], n))
}

/// `s` followed by zero bytes up to `MAX_LEN`.
pub open spec fn padded(s: Seq<u8>) -> Seq<u8> {
    s + Seq::new((MAX_LEN - s.len()) as nat, |i: int| 0u8)
}

/// Whether the continuation bit of `b` is clear.
pub fn is_last(b: u8) -> (r: bool)
    ensures
        r == !has_continuation(b),
{
    assert(b & 0x80 == 0 <==> b < 128) by (bit_vector);
    b & MSB == 0
}

/// The data bits of `b`.
pub fn clear_continuation(b: u8) -> (r: u8)
    ensures
        r == payload(b),
{
    assert(b & !0x80u8 == b % 128) by (bit_vector);
    b & !MSB
}

// Facts about the model.

/// The scan stops at the first byte without the continuation bit.
pub proof fn lemma_run_len_from(s: Seq<u8>, i: nat)
    requires
        i <= MAX_LEN,
        forall|j: int| 0 <= j < i && j < s.len() ==> has_continuation(#[trigger] s[j]),
    ensures
        run_len_from(s, i) == run_len(s),
    decreases i,
{
    if i > 0 {
        lemma_run_len_from(s, (i - 1) as nat);
    }
}

/// What `run_len` is, stated without the scan.
pub proof fn lemma_run_len(s: Seq<u8>)
    ensures
        run_len(s) <= MAX_LEN,
        run_len(s) <= s.len(),
        run_len(s) > 0 ==> is_terminated(s.take(run_len(s) as int)),
        run_len(s) == 0 <==> forall|j: int|
            0 <= j < MAX_LEN && j < s.len() ==> has_continuation(#[trigger] s[j]),
{
    lemma_run_len_scan(s, 0);
}

proof fn lemma_run_len_scan(s: Seq<u8>, i: nat)
    requires
        i <= MAX_LEN,
        forall|j: int| 0 <= j < i && j < s.len() ==> has_continuation(#[trigger] s[j]),
    ensures
        run_len_from(s, i) <= MAX_LEN,
        run_len_from(s, i) <= s.len(),
        run_len_from(s, i) > 0 ==> is_terminated(s.take(run_len_from(s, i) as int)),
        run_len_from(s, i) == 0 <==> forall|j: int|
            0 <= j < MAX_LEN && j < s.len() ==> has_continuation(#[trigger] s[j]),
    decreases MAX_LEN - i,
{
    if i >= MAX_LEN || i >= s.len() {
    } else if !has_continuation(s[i as int]) {
        let p = s.take(i + 1 as int);
        assert(p.last() == s[i as int]);
        assert forall|j: int| 0 <= j < p.len() - 1 implies has_continuation(#[trigger] p[j]) by {
            assert(p[j] == s[j]);
        }
    } else {
        lemma_run_len_scan(s, i + 1);
    }
}

/// A terminated run of at most `MAX_LEN` bytes is its own run, whatever
/// follows it.
pub proof fn lemma_run_len_of_terminated(p: Seq<u8>, rest: Seq<u8>)
    requires
        is_terminated(p),
        p.len() <= MAX_LEN,
    ensures
        run_len(p + rest) == p.len(),
        (p + rest).take(p.len() as int) == p,
{
    let s = p + rest;
    assert forall|j: int| 0 <= j < p.len() - 1 implies has_continuation(#[trigger] s[j]) by {
        assert(s[j] == p[j]);
    }
    lemma_run_len_from(s, (p.len() - 1) as nat);
    assert(s[p.len() - 1] == p.last());
    assert(s.take(p.len() as int) =~= p);
}

/// The significant length lies between one and the run's length, and the
/// data bits it drops are zero.
pub proof fn lemma_significant_len(p: Seq<u8>)
    requires
        p.len() >= 1,
    ensures
        1 <= significant_len(p) <= p.len(),
        significant_len(p) == 1 || payload(p[significant_len(p) - 1]) != 0,
        forall|i: int| significant_len(p) <= i < p.len() ==> payload(#[trigger] p[i]) == 0,
    decreases p.len(),
{
    if p.len() <= 1 {
    } else if payload(p.last()) != 0 {
    } else {
        let q = p.drop_last();
        lemma_significant_len(q);
        assert forall|i: int| significant_len(p) <= i < p.len() implies payload(
            #[trigger] p[i],
        ) == 0 by {
            if i < p.len() - 1 {
                assert(p[i] == q[i]);
            }
        }
        assert(q[significant_len(q) - 1] == p[significant_len(q) - 1]);
    }
}

/// Trailing bytes with no data bits add nothing to the value.
pub proof fn lemma_value_take(s: Seq<u8>, n: int)
    requires
        0 <= n <= s.len(),
        forall|i: int| n <= i < s.len() ==> payload(#[trigger] s[i]) == 0,
    ensures
        value(s.take(n)) == value(s),
    decreases s.len(),
{
    if s.len() == 0 {
    } else if n == 0 {
        let t = s.drop_first();
        assert forall|i: int| 0 <= i < t.len() implies payload(#[trigger] t[i]) == 0 by {
            assert(t[i] == s[i + 1]);
        }
        lemma_value_take(t, 0);
        assert(s.take(0) =~= t.take(0));
    } else {
        let t = s.drop_first();
        assert forall|i: int| n - 1 <= i < t.len() implies payload(#[trigger] t[i]) == 0 by {
            assert(t[i] == s[i + 1]);
        }
        lemma_value_take(t, n - 1);
        assert(s.take(n).drop_first() =~= t.take(n - 1));
    }
}

/// Changing only the bits of the last byte that are not data leaves the
/// value alone; changing its data bits changes the value by their weight.
proof fn lemma_value_push(s: Seq<u8>, b: u8)
    ensures
        value(s.push(b)) == value(s) + pow128(s.len()) * payload(b),
    decreases s.len(),
{
    if s.len() == 0 {
        assert(s.push(b).drop_first() =~= Seq::<u8>::empty());
        assert(s.push(b)[0] == b);
        assert(value(Seq::<u8>::empty()) == 0);
        assert(value(s.push(b)) == payload(b) + 128 * value(Seq::<u8>::empty()));
        assert(pow128(s.len()) == 1);
        assert(value(s) == 0);
        assert(value(s.push(b)) == value(s) + pow128(s.len()) * payload(b));
    } else {
        let t = s.drop_first();
        lemma_value_push(t, b);
        assert(s.push(b).drop_first() =~= t.push(b));
        assert(s.push(b)[0] == s[0]);
        assert(value(s.push(b)) == value(s) + pow128(s.len()) * payload(b)) by (nonlinear_arith)
            requires
                value(s.push(b)) == payload(s[0]) + 128 * value(t.push(b)),
                value(t.push(b)) == value(t) + pow128(t.len()) * payload(b),
                value(s) == payload(s[0]) + 128 * value(t),
                pow128(s.len()) == 128 * pow128(t.len()),
        ;
    }
}

/// `128^k`.
pub open spec fn pow128(k: nat) -> nat
    decreases k,
{
    if k == 0 {
        1
    } else {
        128 * pow128((k - 1) as nat)
    }
}

/// A run's value stays below `128` to the power of its length.
proof fn lemma_value_bound(s: Seq<u8>)
    ensures
        value(s) < pow128(s.len()),
    decreases s.len(),
{
    if s.len() > 0 {
        let t = s.drop_first();
        lemma_value_bound(t);
        assert(value(s) < pow128(s.len())) by (nonlinear_arith)
            requires
                value(s) == payload(s[0]) + 128 * value(t),
                payload(s[0]) < 128,
                value(t) < pow128(t.len()),
                pow128(s.len()) == 128 * pow128(t.len()),
        ;
    }
}

/// The value of a valid encoding fits in 32 bits.
pub proof fn lemma_valid_encoding_fits(s: Seq<u8>)
    requires
        is_valid_encoding(s),
    ensures
        value(s) < 0x1_0000_0000,
{
    reveal_with_fuel(pow128, 6);
    let n = s.len();
    let t = s.drop_last();
    assert(s =~= t.push(s.last()));
    lemma_value_push(t, s.last());
    lemma_value_bound(t);
    assert(payload(s.last()) == s.last());
    if n == MAX_LEN {
        assert(pow128(t.len()) == 0x1000_0000);
        assert(value(s) < 0x1_0000_0000) by (nonlinear_arith)
            requires
                value(s) == value(t) + pow128(t.len()) * payload(s.last()),
                value(t) < pow128(t.len()),
                pow128(t.len()) == 0x1000_0000,
                payload(s.last()) < 16,
        ;
    } else {
        assert(n <= 4);
        assert(pow128(t.len()) <= 0x20_0000) by {
            reveal_with_fuel(pow128, 4);
        }
        assert(value(s) < 0x1_0000_0000) by (nonlinear_arith)
            requires
                value(s) == value(t) + pow128(t.len()) * payload(s.last()),
                value(t) < pow128(t.len()),
                pow128(t.len()) <= 0x20_0000,
                payload(s.last()) < 128,
        ;
    }
}

/// The encoding of `v` is canonical and stands for `v`.
pub proof fn lemma_encode(v: nat)
    ensures
        is_canonical(encode(v)),
        value(encode(v)) == v,
    decreases v,
{
    if v >= 128 {
        let e = encode(v);
        let t = encode(v / 128);
        lemma_encode(v / 128);
        assert(e =~= seq![(v % 128 + 128) as u8] + t);
        assert(e.drop_first() =~= t);
        assert(e.last() == t.last());
        assert forall|i: int| 0 <= i < e.len() - 1 implies has_continuation(#[trigger] e[i]) by {
            if i > 0 {
                assert(e[i] == t[i - 1]);
            }
        }
        if t.len() == 1 {
            assert(t[0] == (v / 128) as u8);
        }
        assert(payload(e[0]) == v % 128);
        assert(value(e) == payload(e[0]) + 128 * value(t));
    } else {
        assert(encode(v).drop_first() =~= Seq::<u8>::empty());
        assert(value(encode(v)) == payload(encode(v)[0]) + 128 * value(Seq::<u8>::empty()));
    }
}

/// A value below `128^k` takes at most `k` bytes.
proof fn lemma_encode_len(v: nat, k: nat)
    requires
        k >= 1,
        v < pow128(k),
    ensures
        encode(v).len() <= k,
    decreases k,
{
    if v >= 128 {
        if k == 1 {
            assert(pow128(1) == 128) by {
                reveal_with_fuel(pow128, 2);
            }
        } else {
            lemma_encode_len(v / 128, (k - 1) as nat);
        }
    }
}

/// A value below `16 * 128^(k-1)` that takes exactly `k` bytes ends in a
/// byte below 16.
proof fn lemma_encode_last(v: nat, k: nat)
    requires
        k >= 1,
        v < 16 * pow128((k - 1) as nat),
        encode(v).len() == k,
    ensures
        encode(v).last() < 16,
    decreases k,
{
    if v < 128 {
        if k > 1 {
            assert(encode(v).len() == 1);
        }
    } else {
        let t = encode(v / 128);
        assert(encode(v) =~= seq![(v % 128 + 128) as u8] + t);
        if k == 1 {
            assert(encode(v).len() > 1);
        } else {
            lemma_encode_last(v / 128, (k - 1) as nat);
        }
    }
}

/// The encoding of a 32-bit value is a valid, canonical encoding of it.
pub proof fn lemma_encode_u32(v: u32)
    ensures
        is_valid_encoding(encode(v as nat)),
        is_canonical(encode(v as nat)),
        value(encode(v as nat)) == v,
{
    reveal_with_fuel(pow128, 6);
    lemma_encode(v as nat);
    lemma_encode_len(v as nat, 5);
    if encode(v as nat).len() == MAX_LEN {
        lemma_encode_last(v as nat, 5);
    }
}

/// A canonical run is tight.
pub proof fn lemma_canonical_is_tight(p: Seq<u8>)
    requires
        is_canonical(p),
    ensures
        is_tight(p),
{
}

/// A canonical run is the encoding of its value.
pub proof fn lemma_canonical_unique(p: Seq<u8>)
    requires
        is_canonical(p),
    ensures
        encode(value(p)) == p,
    decreases p.len(),
{
    let t = p.drop_first();
    if p.len() == 1 {
        assert(value(t) == 0);
        assert(encode(value(p)) =~= p);
    } else {
        assert(t.last() == p.last());
        assert forall|i: int| 0 <= i < t.len() - 1 implies has_continuation(#[trigger] t[i]) by {
            assert(t[i] == p[i + 1]);
        }
        assert(is_canonical(t));
        lemma_canonical_unique(t);
        lemma_canonical_positive(t);
        assert(has_continuation(p[0]));
        assert(value(p) % 128 == payload(p[0]));
        assert(value(p) / 128 == value(t));
        assert((value(p) % 128 + 128) as u8 == p[0]);
        assert(encode(value(p)) =~= p);
    }
}

/// A canonical run of two or more bytes stands for a value of at least 128;
/// one whose last byte is not zero for a positive value.
proof fn lemma_canonical_positive(p: Seq<u8>)
    requires
        is_terminated(p),
        p.last() != 0,
    ensures
        value(p) > 0,
    decreases p.len(),
{
    if p.len() > 1 {
        let t = p.drop_first();
        assert(t.last() == p.last());
        assert forall|i: int| 0 <= i < t.len() - 1 implies has_continuation(#[trigger] t[i]) by {
            assert(t[i] == p[i + 1]);
        }
        lemma_canonical_positive(t);
    }
}

/// What normalizing a terminated run gives.
pub proof fn lemma_normalize(p: Seq<u8>)
    requires
        is_terminated(p),
        p.len() <= MAX_LEN,
    ensures
        is_valid_encoding(normalize(p)),
        normalize(p).len() == significant_len(p),
        value(normalize(p)) == value(p) % 0x1_0000_0000,
        !is_tight(p) ==> is_canonical(normalize(p)),
        is_tight(p) && p.len() < MAX_LEN ==> normalize(p) == p,
{
    lemma_significant_len(p);
    let n = significant_len(p);
    let q = normalize(p);
    let h = p.take(n - 1);
    let b = p[n - 1];
    assert(q.last() == last_byte(b, n));
    assert forall|i: int| 0 <= i < q.len() - 1 implies has_continuation(#[trigger] q[i]) by {
        assert(q[i] == p[i]);
    }
    lemma_value_take(p, n as int);
    assert(p.take(n as int) =~= h.push(b));
    lemma_value_push(h, b);
    lemma_value_push(h, last_byte(b, n));
    lemma_value_bound(h);
    reveal_with_fuel(pow128, 6);
    if n == MAX_LEN {
        assert(pow128(h.len()) == 0x1000_0000);
        assert(payload(last_byte(b, n)) == payload(b) % 16);
        assert(value(q) == value(p) % 0x1_0000_0000) by (nonlinear_arith)
            requires
                value(p) == value(h) + 0x1000_0000 * payload(b),
                value(q) == value(h) + 0x1000_0000 * (payload(b) % 16),
                value(h) < 0x1000_0000,
                payload(b) < 128,
        ;
    } else {
        assert(pow128(h.len()) <= 0x20_0000) by {
            reveal_with_fuel(pow128, 4);
        }
        assert(payload(last_byte(b, n)) == payload(b));
        assert(value(p) < 0x1_0000_0000) by (nonlinear_arith)
            requires
                value(p) == value(h) + pow128(h.len()) * payload(b),
                value(h) < pow128(h.len()),
                pow128(h.len()) <= 0x20_0000,
                payload(b) < 128,
        ;
    }
    if is_tight(p) && p.len() < MAX_LEN {
        assert(q =~= p);
    }
}

/// A suffix of a run stands for no more than the whole run.
pub proof fn lemma_value_suffix(s: Seq<u8>, i: int)
    requires
        0 <= i <= s.len(),
    ensures
        value(s.subrange(i, s.len() as int)) <= value(s),
    decreases i,
{
    if i == 0 {
        assert(s.subrange(0, s.len() as int) =~= s);
    } else {
        lemma_value_suffix(s, i - 1);
        lemma_value_step(s, i - 1);
    }
}

/// One step of the fold from the top: the suffix from `i` is the byte at `i`
/// plus 128 times the suffix after it.
pub proof fn lemma_value_step(s: Seq<u8>, i: int)
    requires
        0 <= i < s.len(),
    ensures
        value(s.subrange(i, s.len() as int)) == payload(s[i]) + 128 * value(
            s.subrange(i + 1, s.len() as int),
        ),
{
    let t = s.subrange(i, s.len() as int);
    assert(t.drop_first() =~= s.subrange(i + 1, s.len() as int));
    assert(t[0] == s[i]);
}

} // verus!
