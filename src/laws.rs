//! What holds of the codec as a whole, over the model in `format`.
//!
//! The functions of the library state their results over these same spec
//! functions: `VarInt::from` gives `encode`, `u32::from` gives `value`, the
//! decoders give `normalize` of the run that `run_len` finds, and `find`
//! reports tight exactly when `is_tight` holds of that run.
use vstd::prelude::*;

use crate::format::{
    encode, has_continuation, invalid_kind, is_tight, lemma_canonical_is_tight,
    lemma_canonical_unique, lemma_encode_u32, lemma_normalize, lemma_run_len,
    lemma_run_len_of_terminated, normalize, padded, run_len, value, DecodeError, MAX_LEN,
};

verus! {

/// Decoding the encoding of a 32-bit value gives the value back, whether the
/// encoding is read as its significant bytes or as the zero-padded buffer.
pub proof fn lemma_round_trip(v: u32)
    ensures
        value(encode(v as nat)) == v,
        run_len(padded(encode(v as nat))) == encode(v as nat).len(),
        normalize(padded(encode(v as nat)).take(encode(v as nat).len() as int)) == encode(
            v as nat,
        ),
{
    let e = encode(v as nat);
    lemma_encode_u32(v);
    lemma_run_len_of_terminated(e, Seq::new((MAX_LEN - e.len()) as nat, |i: int| 0u8));
    lemma_canonical_is_tight(e);
    lemma_normalize(e);
    if e.len() == MAX_LEN {
        assert(normalize(e) =~= e);
    }
}

/// The encoder only produces tight runs: its output, alone or zero-padded,
/// classifies as tight, with the whole encoding as the run.
pub proof fn lemma_encode_is_tight(v: u32)
    ensures
        run_len(encode(v as nat)) == encode(v as nat).len(),
        is_tight(encode(v as nat)),
        run_len(padded(encode(v as nat))) == encode(v as nat).len(),
        padded(encode(v as nat)).take(encode(v as nat).len() as int) == encode(v as nat),
{
    let e = encode(v as nat);
    lemma_encode_u32(v);
    lemma_run_len_of_terminated(e, Seq::empty());
    assert(e + Seq::<u8>::empty() =~= e);
    lemma_run_len_of_terminated(e, Seq::new((MAX_LEN - e.len()) as nat, |i: int| 0u8));
    lemma_canonical_is_tight(e);
}

/// Normalizing a loose run and encoding the value it stands for gives the
/// normalized bytes back: they are the canonical, tight encoding of a 32-bit
/// value.
pub proof fn lemma_loose_normalizes(s: Seq<u8>)
    requires
        run_len(s) > 0,
        !is_tight(s.take(run_len(s) as int)),
    ensures
        value(normalize(s.take(run_len(s) as int))) < 0x1_0000_0000,
        encode(value(normalize(s.take(run_len(s) as int)))) == normalize(
            s.take(run_len(s) as int),
        ),
        is_tight(normalize(s.take(run_len(s) as int))),
        run_len(normalize(s.take(run_len(s) as int))) == normalize(
            s.take(run_len(s) as int),
        ).len(),
{
    let p = s.take(run_len(s) as int);
    lemma_run_len(s);
    lemma_normalize(p);
    let q = normalize(p);
    crate::format::lemma_valid_encoding_fits(q);
    lemma_canonical_unique(q);
    lemma_canonical_is_tight(q);
    lemma_run_len_of_terminated(q, Seq::empty());
    assert(q + Seq::<u8>::empty() =~= q);
}

/// Classification reads nothing past the five-byte window, nor past the
/// byte that ends a run: bytes appended after either change nothing.
pub proof fn lemma_classification_window(s: Seq<u8>, t: Seq<u8>)
    requires
        s.len() >= MAX_LEN || run_len(s) > 0,
    ensures
        run_len(s + t) == run_len(s),
        (s + t).take(run_len(s) as int) == s.take(run_len(s) as int),
        run_len(s) == 0 ==> invalid_kind(s + t) == invalid_kind(s),
{
    lemma_run_len(s);
    let n = run_len(s);
    if n > 0 {
        let p = s.take(n as int);
        lemma_run_len_of_terminated(p, s.skip(n as int) + t);
        assert(p + (s.skip(n as int) + t) =~= s + t);
    } else {
        let st = s + t;
        assert forall|j: int| 0 <= j < MAX_LEN && j < st.len() implies has_continuation(
            #[trigger] st[j],
        ) by {
            assert(st[j] == s[j]);
        }
        lemma_run_len(st);
        assert(st.take(0) =~= s.take(0));
    }
}

/// Five leading bytes with the continuation bit set hold no run, and the
/// error is `TooManyContinuationBytes`.
pub proof fn lemma_too_many_continuation_bytes(s: Seq<u8>)
    requires
        s.len() >= MAX_LEN,
        forall|j: int| 0 <= j < MAX_LEN ==> has_continuation(#[trigger] s[j]),
    ensures
        run_len(s) == 0,
        invalid_kind(s) == DecodeError::TooManyContinuationBytes,
{
    lemma_run_len(s);
}

} // verus!
