//! Reading a value from a byte source one byte at a time.
//!
//! The source itself lives with the caller: it hands each byte (or the end
//! of input) to [`PartialVarInt::feed`], which decides whether to ask for
//! another byte, to stop with a value, or to fail.
use vstd::prelude::*;

use crate::format::{
    has_continuation, is_last, normalize, run_len, DecodeError, MAX_LEN,
    lemma_run_len_of_terminated,
};
use crate::varint::{LooseVarInt, VarInt};

verus! {

/// The bytes of one value read so far, each with its continuation bit set.
#[derive(Debug, Clone, Copy)]
pub struct PartialVarInt {
    buf: [u8; 5],
    len: usize,
}

/// What the source gave on a one-byte read.
#[derive(Debug, Clone, Copy, PartialEq, Eq, Structural)]
pub enum ReadEvent {
    Byte(u8),
    EndOfInput,
}

/// What to do after a byte was handed over.
#[derive(Debug, Clone, Copy)]
pub enum ReadStep {
    /// Read one more byte and feed it to this.
    NeedMore(PartialVarInt),
    /// The value is complete; no more bytes belong to it.
    Complete(VarInt),
    /// The bytes cannot make a value.
    Failed(DecodeError),
}

impl View for PartialVarInt {
    type V = Seq<u8>;

    closed spec fn view(&self) -> Seq<u8> {
        self.buf@.take(self.len as int)
    }
}

impl PartialVarInt {
    #[verifier::type_invariant]
    spec fn inv(self) -> bool {
        &&& self.len < MAX_LEN
        &&& forall|j: int| 0 <= j < self.len ==> has_continuation(#[trigger] self.buf@[j])
        &&& forall|j: int| self.len <= j < MAX_LEN ==> #[trigger] self.buf@[j] == 0
    }

    /// Nothing read yet.
    pub fn new() -> (r: PartialVarInt)
        ensures
            r@ == Seq::<u8>::empty(),
    {
        let r = PartialVarInt { buf: [0; 5], len: 0 };
        assert(r@ =~= Seq::<u8>::empty());
        r
    }

    /// Takes the outcome of one more single-byte read.
    ///
    /// The end of input before a byte without the continuation bit is
    /// `Truncated`; a fifth byte with the continuation bit is
    /// `TooManyContinuationBytes`; a byte without it completes the value,
    /// normalized as the same bytes in a slice would be.
    pub fn feed(self, event: ReadEvent) -> (r: ReadStep)
        ensures
            match event {
                ReadEvent::EndOfInput => r == ReadStep::Failed(DecodeError::Truncated),
                ReadEvent::Byte(b) => {
                    let s = self@.push(b);
                    if !has_continuation(b) {
                        &&& run_len(s) == s.len()
                        &&& r matches ReadStep::Complete(v) && v@ == normalize(s)
                    } else if s.len() == MAX_LEN {
                        r == ReadStep::Failed(DecodeError::TooManyContinuationBytes)
                    } else {
                        r matches ReadStep::NeedMore(p) && p@ == s
                    }
                },
            },
    {
        proof {
            use_type_invariant(&self);
        }
        match event {
            ReadEvent::EndOfInput => ReadStep::Failed(DecodeError::Truncated),
            ReadEvent::Byte(b) => {
                let ghost s = self@.push(b);
                let mut buf = self.buf;
                let len = self.len;
                buf[len] = b;
                proof {
                    assert(buf@.take(len + 1) =~= s);
                }
                if is_last(b) {
                    let run: &[u8] = buf.as_slice();
                    let run = &run[0..len + 1];
                    proof {
                        assert(s.last() == b);
                        assert forall|j: int| 0 <= j < s.len() - 1 implies has_continuation(
                            #[trigger] s[j],
                        ) by {
                            assert(s[j] == self.buf@[j]);
                        }
                        lemma_run_len_of_terminated(s, Seq::empty());
                        assert(s + Seq::<u8>::empty() =~= s);
                    }
                    ReadStep::Complete(LooseVarInt::from_unchecked(run).to_varint())
                } else if len + 1 == MAX_LEN {
                    ReadStep::Failed(DecodeError::TooManyContinuationBytes)
                } else {
                    let p = PartialVarInt { buf, len: len + 1 };
                    ReadStep::NeedMore(p)
                }
            },
        }
    }
}

} // verus!
