//! The value type and the classifier that every decoding path goes through.
use vstd::prelude::*;

use crate::format::{
    clear_continuation, encode, has_continuation, invalid_kind, is_last,
    is_terminated, is_tight, is_valid_encoding, lemma_encode, lemma_encode_u32, lemma_normalize,
    lemma_run_len, lemma_run_len_from, lemma_run_len_of_terminated, lemma_significant_len,
    lemma_valid_encoding_fits, lemma_value_step, normalize, padded, run_len, significant_len,
    value, DecodeError, LAST_BYTE_MASK, MAX_LEN, MSB,
};

verus! {

/// A slice of bytes was not a terminated run that a value can be decoded from.
#[derive(Debug, Copy, Clone, PartialEq, Eq, Structural)]
pub struct TryFromVarIntSliceError(pub DecodeError);

/// A five-byte buffer held no terminated run.
#[derive(Debug, Copy, Clone, PartialEq, Eq, Structural)]
pub struct TryFromVarIntInnerError(pub DecodeError);

/// A slice was not exactly one terminated run of at most five bytes.
#[derive(Debug, Copy, Clone, PartialEq, Eq, Structural)]
pub struct TryFromLooseSliceError;

/// How the front of a byte sequence classifies.
#[derive(Debug, Copy, Clone, PartialEq, Eq)]
pub enum VarIntFindResult<'a> {
    /// The terminated run, every byte of which carries information.
    Tight(&'a [u8]),
    /// The terminated run, and the length it shrinks to once its trailing
    /// groups without data are dropped.
    Loose(&'a [u8], usize),
    /// No byte among the first five ends a run.
    Invalid,
}

/// `r` is what the classifier says of the bytes `s`.
pub open spec fn is_classification_of(r: VarIntFindResult, s: Seq<u8>) -> bool {
    let n = run_len(s);
    match r {
        VarIntFindResult::Tight(t) => n > 0 && t@ == s.take(n as int) && is_tight(t@),
        VarIntFindResult::Loose(t, k) => {
            &&& n > 0
            &&& t@ == s.take(n as int)
            &&& !is_tight(t@)
            &&& k == significant_len(t@)
        },
        VarIntFindResult::Invalid => n == 0,
    }
}

/// A terminated run of one to five bytes, not yet normalized.
#[derive(Debug, Copy, Clone)]
pub struct LooseVarInt<'a>(&'a [u8]);

impl<'a> View for LooseVarInt<'a> {
    type V = Seq<u8>;

    closed spec fn view(&self) -> Seq<u8> {
        self.0@
    }
}

impl<'a> LooseVarInt<'a> {
    #[verifier::type_invariant]
    spec fn inv(self) -> bool {
        is_terminated(self.0@) && self.0@.len() <= MAX_LEN
    }

    pub fn into_inner(self) -> (r: &'a [u8])
        ensures
            r@ == self@,
    {
        self.0
    }

    pub fn as_inner(&'a self) -> (r: &'a [u8])
        ensures
            r@ == self@,
    {
        self.0
    }

    pub fn inner(&self) -> (r: &[u8])
        ensures
            r@ == self@,
    {
        self.0
    }

    /// Wraps a slice already known to be a terminated run.
    pub fn from_unchecked(slice: &'a [u8]) -> (r: LooseVarInt<'a>)
        requires
            is_terminated(slice@),
            slice@.len() <= MAX_LEN,
        ensures
            r@ == slice@,
    {
        LooseVarInt(slice)
    }

    /// The normalized value of the run.
    pub fn to_varint(&self) -> (r: VarInt)
        ensures
            r@ == normalize(self@),
            r == VarInt::spec_new(normalize(self@)),
    {
        proof {
            use_type_invariant(self);
            lemma_normalize(self@);
            lemma_significant_len(self@);
        }
        let slice = self.0;
        let n = match VarInt::find_from_loose(*self) {
            VarIntFindResult::Tight(t) => t.len(),
            VarIntFindResult::Loose(_, k) => k,
            // a terminated run always classifies
            VarIntFindResult::Invalid => 1,
        };
        let ghost q = normalize(self@);
        let mut buf: [u8; 5] = [0; 5];
        let mut i: usize = 0;
        while i + 1 < n
            invariant
                n == significant_len(slice@),
                1 <= n <= slice@.len() <= MAX_LEN,
                q == normalize(slice@),
                i + 1 <= n,
                forall|j: int| 0 <= j < i ==> buf[j] == slice@[j],
                forall|j: int| i <= j < MAX_LEN ==> buf[j] == 0,
            decreases n - i,
        {
            buf[i] = slice[i];
            i += 1;
        }
        let mut last = clear_continuation(slice[n - 1]);
        if n == MAX_LEN {
            assert(last & 0x0f == last % 16) by (bit_vector);
            assert((slice@[n - 1] % 128) % 16 == slice@[n - 1] % 16);
            last = last & LAST_BYTE_MASK;
        }
        buf[n - 1] = last;
        proof {
            assert(buf@.take(n as int) =~= q);
            assert(buf@ =~= padded(q));
        }
        VarInt::from_parts(buf, n)
    }
}

impl<'a> TryFrom<&'a [u8]> for LooseVarInt<'a> {
    type Error = TryFromLooseSliceError;

    /// Accepts exactly one terminated run of at most five bytes.
    fn try_from(slice: &'a [u8]) -> (r: Result<LooseVarInt<'a>, TryFromLooseSliceError>)
        ensures
            r is Ok <==> is_terminated(slice@) && slice@.len() <= MAX_LEN,
            r is Ok ==> r->Ok_0@ == slice@,
    {
        let found = VarInt::find_loose(slice);
        proof {
            lemma_run_len(slice@);
            if is_terminated(slice@) && slice@.len() <= MAX_LEN {
                lemma_run_len_of_terminated(slice@, Seq::empty());
                assert(slice@ + Seq::<u8>::empty() =~= slice@);
            }
        }
        match found {
            Some(l) => {
                if l.0.len() == slice.len() {
                    proof {
                        assert(slice@.take(slice@.len() as int) =~= slice@);
                    }
                    Ok(LooseVarInt(slice))
                } else {
                    Err(TryFromLooseSliceError)
                }
            },
            None => Err(TryFromLooseSliceError),
        }
    }
}

impl<'a> vstd::std_specs::convert::TryFromSpecImpl<&'a [u8]> for LooseVarInt<'a> {
    open spec fn obeys_try_from_spec() -> bool {
        true
    }

    closed spec fn try_from_spec(slice: &'a [u8]) -> Result<LooseVarInt<'a>, TryFromLooseSliceError> {
        if is_terminated(slice@) && slice@.len() <= MAX_LEN {
            Ok(LooseVarInt(slice))
        } else {
            Err(TryFromLooseSliceError)
        }
    }
}

/// The five-byte buffer behind a value.
pub type VarIntInner = [u8; 5];

/// A decoded value: the normalized bytes of its encoding, zero-padded to
/// five.
#[derive(Debug, Copy, Clone)]
pub struct VarInt {
    inner: [u8; 5],
    len: u8,
}

impl View for VarInt {
    type V = Seq<u8>;

    /// The significant bytes.
    closed spec fn view(&self) -> Seq<u8> {
        self.inner@.take(self.len as int)
    }
}

impl VarInt {
    /// Number of bytes in the longest encoding.
    pub const MAX_LEN: usize = 5;

    /// The bits of a fifth byte that fall inside 32 bits.
    pub const LAST_BYTE_MASK: u8 = 0x0f;

    #[verifier::type_invariant]
    spec fn inv(self) -> bool {
        &&& self.len <= MAX_LEN
        &&& is_valid_encoding(self.inner@.take(self.len as int))
        &&& self.inner@ == padded(self.inner@.take(self.len as int))
    }

    /// The value whose significant bytes are `s`.
    pub closed spec fn spec_new(s: Seq<u8>) -> VarInt {
        let p = padded(s);
        VarInt { inner: [p[0], p[1], p[2], p[3], p[4]], len: s.len() as u8 }
    }

    fn from_parts(buf: [u8; 5], n: usize) -> (r: VarInt)
        requires
            n <= MAX_LEN,
            is_valid_encoding(buf@.take(n as int)),
            buf@ == padded(buf@.take(n as int)),
        ensures
            r@ == buf@.take(n as int),
            r == VarInt::spec_new(buf@.take(n as int)),
    {
        let r = VarInt { inner: buf, len: n as u8 };
        proof {
            let p = padded(buf@.take(n as int));
            assert(buf =~= [p[0], p[1], p[2], p[3], p[4]]);
        }
        r
    }

    /// Number of significant bytes.
    pub fn len(&self) -> (r: usize)
        ensures
            r == self@.len(),
            1 <= r <= MAX_LEN,
    {
        proof {
            use_type_invariant(self);
        }
        self.len as usize
    }

    /// The significant bytes.
    pub fn as_slice(&self) -> (r: &[u8])
        ensures
            r@ == self@,
            is_valid_encoding(r@),
    {
        proof {
            use_type_invariant(self);
        }
        let s: &[u8] = self.inner.as_slice();
        &s[0..self.len as usize]
    }

    /// The whole five-byte buffer, zeros past the significant bytes.
    pub fn as_inner(&self) -> (r: &VarIntInner)
        ensures
            r@ == padded(self@),
    {
        proof {
            use_type_invariant(self);
        }
        &self.inner
    }

    /// The whole five-byte buffer, zeros past the significant bytes.
    pub fn into_inner(self) -> (r: VarIntInner)
        ensures
            r@ == padded(self@),
    {
        proof {
            use_type_invariant(&self);
        }
        self.inner
    }

    /// The terminated run at the front of `slice`, if one of its first five
    /// bytes ends it.
    pub fn find_loose(slice: &[u8]) -> (r: Option<LooseVarInt<'_>>)
        ensures
            match r {
                Some(l) => run_len(slice@) > 0 && l@ == slice@.take(run_len(slice@) as int),
                None => run_len(slice@) == 0,
            },
    {
        let mut i: usize = 0;
        while i < slice.len() && i < MAX_LEN
            invariant
                i <= MAX_LEN,
                i <= slice@.len(),
                forall|j: int| 0 <= j < i ==> has_continuation(#[trigger] slice@[j]),
            decreases MAX_LEN - i,
        {
            if is_last(slice[i]) {
                proof {
                    lemma_run_len_from(slice@, i as nat);
                    lemma_run_len(slice@);
                }
                return Some(LooseVarInt(&slice[0..i + 1]));
            }
            i += 1;
        }
        proof {
            lemma_run_len_from(slice@, i as nat);
        }
        None
    }

    /// Classifies a terminated run: tight, or loose with the length it
    /// shrinks to.
    pub fn find_from_loose<'a>(loose: LooseVarInt<'a>) -> (r: VarIntFindResult<'a>)
        ensures
            match r {
                VarIntFindResult::Tight(t) => t@ == loose@ && is_tight(loose@),
                VarIntFindResult::Loose(t, k) => {
                    &&& t@ == loose@
                    &&& !is_tight(loose@)
                    &&& k == significant_len(loose@)
                },
                VarIntFindResult::Invalid => false,
            },
    {
        proof {
            use_type_invariant(&loose);
        }
        let slice = loose.0;
        let n = slice.len();
        if n == 1 || clear_continuation(slice[n - 1]) != 0 {
            return VarIntFindResult::Tight(slice);
        }
        proof {
            assert(slice@.take(n - 1) =~= slice@.drop_last());
        }
        let mut k: usize = n - 1;
        while k > 1 && clear_continuation(slice[k - 1]) == 0
            invariant
                1 <= k < n,
                n == slice@.len(),
                significant_len(slice@) == significant_len(slice@.take(k as int)),
            decreases k,
        {
            proof {
                assert(slice@.take(k as int).drop_last() =~= slice@.take(k - 1));
                assert(slice@.take(k as int).last() == slice@[k - 1]);
            }
            k -= 1;
        }
        proof {
            if k > 1 {
                assert(slice@.take(k as int).last() == slice@[k - 1]);
            }
        }
        VarIntFindResult::Loose(slice, k)
    }

    /// Classifies the front of `slice`.
    pub fn find(slice: &[u8]) -> (r: VarIntFindResult<'_>)
        ensures
            is_classification_of(r, slice@),
    {
        match VarInt::find_loose(slice) {
            Some(l) => VarInt::find_from_loose(l),
            None => VarIntFindResult::Invalid,
        }
    }

    /// Decodes the front of `slice`.
    fn decode(slice: &[u8]) -> (r: Result<VarInt, DecodeError>)
        ensures
            match r {
                Ok(v) => {
                    &&& run_len(slice@) > 0
                    &&& v@ == normalize(slice@.take(run_len(slice@) as int))
                    &&& v == VarInt::spec_new(normalize(slice@.take(run_len(slice@) as int)))
                },
                Err(e) => run_len(slice@) == 0 && e == invalid_kind(slice@),
            },
    {
        match VarInt::find_loose(slice) {
            Some(l) => Ok(l.to_varint()),
            None => {
                if slice.len() >= MAX_LEN {
                    Err(DecodeError::TooManyContinuationBytes)
                } else {
                    Err(DecodeError::Truncated)
                }
            },
        }
    }
}

impl From<u32> for VarInt {
    /// Encodes `source`: the low seven bits into each byte in turn, with
    /// the continuation bit on all but the last, stopping as soon as what is
    /// left is zero.
    fn from(source: u32) -> (r: VarInt)
        ensures
            r@ == encode(source as nat),
            r == VarInt::spec_new(encode(source as nat)),
    {
        proof {
            lemma_encode_u32(source);
        }
        let ghost e = encode(source as nat);
        let mut buf: [u8; 5] = [0; 5];
        let mut rest: u32 = source;
        let mut i: usize = 0;
        loop
            invariant
                i < MAX_LEN,
                e == encode(source as nat),
                is_valid_encoding(e),
                e == buf@.take(i as int) + encode(rest as nat),
                forall|j: int| i <= j < MAX_LEN ==> buf[j] == 0,
            decreases MAX_LEN - i,
        {
            let low = (rest % 128) as u8;
            let ghost before = rest;
            let ghost head = buf@.take(i as int);
            rest = rest / 128;
            if rest == 0 {
                buf[i] = low;
                proof {
                    assert(encode(before as nat) =~= seq![low]);
                    assert(buf@.take(i + 1) =~= e);
                    assert(buf@ =~= padded(e));
                }
                return VarInt::from_parts(buf, i + 1);
            }
            assert(low | 0x80 == low + 128) by (bit_vector)
                requires
                    low < 128,
            ;
            buf[i] = low | MSB;
            proof {
                lemma_encode(rest as nat);
                assert(encode(before as nat) =~= seq![(low + 128) as u8] + encode(rest as nat));
                assert(buf@.take(i + 1) =~= head.push((low + 128) as u8));
                assert(e =~= buf@.take(i + 1) + encode(rest as nat));
            }
            i += 1;
        }
    }
}

impl vstd::std_specs::convert::FromSpecImpl<u32> for VarInt {
    open spec fn obeys_from_spec() -> bool {
        true
    }

    open spec fn from_spec(v: u32) -> VarInt {
        VarInt::spec_new(encode(v as nat))
    }
}

impl From<i32> for VarInt {
    /// Encodes the two's-complement bits of `source`.
    fn from(source: i32) -> (r: VarInt)
        ensures
            r@ == encode((source as u32) as nat),
            r == VarInt::spec_new(encode((source as u32) as nat)),
    {
        VarInt::from(source as u32)
    }
}

impl vstd::std_specs::convert::FromSpecImpl<i32> for VarInt {
    open spec fn obeys_from_spec() -> bool {
        true
    }

    open spec fn from_spec(v: i32) -> VarInt {
        VarInt::spec_new(encode((v as u32) as nat))
    }
}

impl TryFrom<[u8; 5]> for VarInt {
    type Error = TryFromVarIntInnerError;

    /// Decodes a five-byte buffer; fails only when all five bytes carry the
    /// continuation bit.
    fn try_from(source: [u8; 5]) -> (r: Result<VarInt, TryFromVarIntInnerError>)
        ensures
            match r {
                Ok(v) => run_len(source@) > 0 && v@ == normalize(
                    source@.take(run_len(source@) as int),
                ),
                Err(e) => {
                    &&& run_len(source@) == 0
                    &&& e == TryFromVarIntInnerError(DecodeError::TooManyContinuationBytes)
                },
            },
    {
        match VarInt::decode(source.as_slice()) {
            Ok(v) => Ok(v),
            Err(e) => Err(TryFromVarIntInnerError(e)),
        }
    }
}

impl vstd::std_specs::convert::TryFromSpecImpl<[u8; 5]> for VarInt {
    open spec fn obeys_try_from_spec() -> bool {
        true
    }

    open spec fn try_from_spec(source: [u8; 5]) -> Result<VarInt, TryFromVarIntInnerError> {
        if run_len(source@) > 0 {
            Ok(VarInt::spec_new(normalize(source@.take(run_len(source@) as int))))
        } else {
            Err(TryFromVarIntInnerError(DecodeError::TooManyContinuationBytes))
        }
    }
}

impl<'a> TryFrom<&'a [u8]> for VarInt {
    type Error = TryFromVarIntSliceError;

    /// Decodes the terminated run at the front of `source`; bytes after it
    /// are not read.
    fn try_from(source: &'a [u8]) -> (r: Result<VarInt, TryFromVarIntSliceError>)
        ensures
            match r {
                Ok(v) => run_len(source@) > 0 && v@ == normalize(
                    source@.take(run_len(source@) as int),
                ),
                Err(e) => run_len(source@) == 0 && e == TryFromVarIntSliceError(
                    invalid_kind(source@),
                ),
            },
    {
        match VarInt::decode(source) {
            Ok(v) => Ok(v),
            Err(e) => Err(TryFromVarIntSliceError(e)),
        }
    }
}

impl<'a> vstd::std_specs::convert::TryFromSpecImpl<&'a [u8]> for VarInt {
    open spec fn obeys_try_from_spec() -> bool {
        true
    }

    open spec fn try_from_spec(source: &'a [u8]) -> Result<VarInt, TryFromVarIntSliceError> {
        if run_len(source@) > 0 {
            Ok(VarInt::spec_new(normalize(source@.take(run_len(source@) as int))))
        } else {
            Err(TryFromVarIntSliceError(invalid_kind(source@)))
        }
    }
}

impl From<VarInt> for u32 {
    /// The value that the bytes stand for.
    fn from(source: VarInt) -> (r: u32)
        ensures
            r == value(source@),
    {
        proof {
            use_type_invariant(&source);
            lemma_valid_encoding_fits(source@);
        }
        let ghost s = source@;
        let n = source.len as usize;
        let mut result: u32 = 0;
        let mut i: usize = n;
        while i > 0
            invariant
                i <= n,
                n == s.len(),
                n <= MAX_LEN,
                s == source.inner@.take(n as int),
                value(s) < 0x1_0000_0000,
                result == value(s.subrange(i as int, n as int)),
            decreases i,
        {
            proof {
                lemma_value_step(s, i - 1);
                crate::format::lemma_value_suffix(s, i - 1);
            }
            result = result * 128 + clear_continuation(source.inner[i - 1]) as u32;
            i -= 1;
        }
        proof {
            assert(s.subrange(0, n as int) =~= s);
        }
        result
    }
}

impl vstd::std_specs::convert::FromSpecImpl<VarInt> for u32 {
    open spec fn obeys_from_spec() -> bool {
        true
    }

    open spec fn from_spec(v: VarInt) -> u32 {
        value(v@) as u32
    }
}

impl From<VarInt> for i32 {
    /// The value that the bytes stand for, its bits read as two's
    /// complement.
    fn from(source: VarInt) -> (r: i32)
        ensures
            r == value(source@) as i32,
    {
        u32::from(source) as i32
    }
}

impl vstd::std_specs::convert::FromSpecImpl<VarInt> for i32 {
    open spec fn obeys_from_spec() -> bool {
        true
    }

    open spec fn from_spec(v: VarInt) -> i32 {
        value(v@) as i32
    }
}

impl From<VarInt> for [u8; 5] {
    /// The whole five-byte buffer.
    fn from(source: VarInt) -> (r: [u8; 5])
        ensures
            r@ == padded(source@),
    {
        proof {
            use_type_invariant(&source);
        }
        source.inner
    }
}

impl vstd::std_specs::convert::FromSpecImpl<VarInt> for [u8; 5] {
    open spec fn obeys_from_spec() -> bool {
        true
    }

    closed spec fn from_spec(v: VarInt) -> [u8; 5] {
        v.inner
    }
}

impl AsRef<[u8]> for VarInt {
    /// The significant bytes, as `as_slice` gives them.
    fn as_ref(&self) -> &[u8] {
        self.as_slice()
    }
}

impl AsRef<[u8; 5]> for VarInt {
    /// The whole buffer, as `as_inner` gives it.
    fn as_ref(&self) -> &[u8; 5] {
        self.as_inner()
    }
}

impl<'a> AsRef<[u8]> for LooseVarInt<'a> {
    fn as_ref(&self) -> (r: &[u8])
        ensures
            r@ == self@,
    {
        self.0
    }
}

} // verus!
