use varivari::parse::{varint, varint_loose};
use varivari::{
    DecodeError, LooseVarInt, PartialVarInt, ReadEvent, ReadStep, TryFromLooseSliceError,
    TryFromVarIntInnerError, TryFromVarIntSliceError, VarInt, VarIntFindResult, VarIntInner,
};

fn read_all(bytes: &[u8]) -> Result<VarInt, DecodeError> {
    let mut state = PartialVarInt::new();
    let mut i = 0;
    loop {
        let event = if i < bytes.len() {
            ReadEvent::Byte(bytes[i])
        } else {
            ReadEvent::EndOfInput
        };
        i += 1;
        match state.feed(event) {
            ReadStep::NeedMore(next) => state = next,
            ReadStep::Complete(v) => return Ok(v),
            ReadStep::Failed(e) => return Err(e),
        }
    }
}

#[test]
fn tight_three_bytes_with_trailing_zeros() {
    let arr: VarIntInner = [0xDD, 0xC7, 0x01, 0x00, 0x00];
    assert_eq!(VarInt::find(&arr), VarIntFindResult::Tight(&[0xDD, 0xC7, 0x01][..]));
    let v = VarInt::try_from(arr).unwrap();
    assert_eq!(v.len(), 3);
    assert_eq!(v.as_slice(), &[0xDD, 0xC7, 0x01]);
    assert_eq!(v.as_inner(), &arr);
    assert_eq!(u32::from(v), 25565);
    assert_eq!(i32::from(v), 25565);
}

#[test]
fn tight_five_bytes_is_max() {
    let arr: VarIntInner = [0xFF, 0xFF, 0xFF, 0xFF, 0x0F];
    assert_eq!(VarInt::find(&arr), VarIntFindResult::Tight(&arr[..]));
    let v = VarInt::try_from(arr).unwrap();
    assert_eq!(v.len(), 5);
    assert_eq!(u32::from(v), 0xFFFF_FFFF);
    assert_eq!(i32::from(v), -1);
}

#[test]
fn five_continuation_bytes_are_invalid() {
    let arr: VarIntInner = [0xFF; 5];
    assert_eq!(VarInt::find(&arr), VarIntFindResult::Invalid);
    assert_eq!(
        VarInt::try_from(arr).unwrap_err(),
        TryFromVarIntInnerError(DecodeError::TooManyContinuationBytes)
    );
    assert_eq!(
        VarInt::try_from(&arr[..]).unwrap_err(),
        TryFromVarIntSliceError(DecodeError::TooManyContinuationBytes)
    );
}

#[test]
fn single_zero_byte() {
    let bytes: &[u8] = &[0x00];
    assert_eq!(VarInt::find(bytes), VarIntFindResult::Tight(&[0x00][..]));
    let v = VarInt::try_from(bytes).unwrap();
    assert_eq!(v.len(), 1);
    assert_eq!(u32::from(v), 0);
    let again = VarInt::from(0u32);
    assert_eq!(again.as_inner(), &[0, 0, 0, 0, 0]);
    assert_eq!(again.len(), 1);
}

#[test]
fn loose_zero_collapses_to_one_byte() {
    let bytes: &[u8] = &[0x80, 0x00];
    assert_eq!(VarInt::find(bytes), VarIntFindResult::Loose(&[0x80, 0x00][..], 1));
    let v = VarInt::try_from(bytes).unwrap();
    assert_eq!(v.len(), 1);
    assert_eq!(v.as_slice(), &[0x00]);
    assert_eq!(v.into_inner(), [0, 0, 0, 0, 0]);
    assert_eq!(u32::from(v), 0);
}

#[test]
fn read_two_bytes_then_end() {
    let v = read_all(&[0x8C, 0x01]).unwrap();
    assert_eq!(v.len(), 2);
    assert_eq!(v.as_slice(), &[0x8C, 0x01]);
    assert_eq!(u32::from(v), 140);
}

#[test]
fn read_one_continuation_byte_then_end_is_truncated() {
    assert_eq!(read_all(&[0x8C]).unwrap_err(), DecodeError::Truncated);
    assert_eq!(read_all(&[]).unwrap_err(), DecodeError::Truncated);
}

#[test]
fn read_five_continuation_bytes_is_malformed() {
    assert_eq!(
        read_all(&[0x80, 0x80, 0x80, 0x80, 0x80, 0x00]).unwrap_err(),
        DecodeError::TooManyContinuationBytes
    );
}

#[test]
fn read_stops_at_the_terminator() {
    let v = read_all(&[0xDD, 0xC7, 0x01, 0x7F, 0x7F]).unwrap();
    assert_eq!(u32::from(v), 25565);
}

#[test]
fn read_normalizes_loose_runs() {
    let v = read_all(&[0x81, 0x80, 0x00]).unwrap();
    assert_eq!(v.len(), 1);
    assert_eq!(v.as_inner(), &[0x01, 0, 0, 0, 0]);
    assert_eq!(u32::from(v), 1);
}

#[test]
fn feed_steps() {
    let s = PartialVarInt::new();
    let s = match s.feed(ReadEvent::Byte(0x80)) {
        ReadStep::NeedMore(p) => p,
        _ => panic!("expected to need more"),
    };
    match s.feed(ReadEvent::EndOfInput) {
        ReadStep::Failed(e) => assert_eq!(e, DecodeError::Truncated),
        _ => panic!("expected a failure"),
    }
}

const SAMPLES: [u32; 14] = [
    0,
    1,
    127,
    128,
    140,
    255,
    256,
    16_383,
    16_384,
    25_565,
    2_097_151,
    268_435_455,
    268_435_456,
    u32::MAX,
];

#[test]
fn round_trip_of_samples() {
    for v in SAMPLES {
        let e = VarInt::from(v);
        assert_eq!(u32::from(e), v);
        let back = VarInt::try_from(*e.as_inner()).unwrap();
        assert_eq!(back.as_inner(), e.as_inner());
        assert_eq!(back.len(), e.len());
        let from_slice = VarInt::try_from(e.as_slice()).unwrap();
        assert_eq!(u32::from(from_slice), v);
    }
}

#[test]
fn encodings_are_exact() {
    assert_eq!(VarInt::from(0u32).as_slice(), &[0x00]);
    assert_eq!(VarInt::from(127u32).as_slice(), &[0x7F]);
    assert_eq!(VarInt::from(128u32).as_slice(), &[0x80, 0x01]);
    assert_eq!(VarInt::from(256u32).as_slice(), &[0x80, 0x02]);
    assert_eq!(VarInt::from(300u32).as_slice(), &[0xAC, 0x02]);
    assert_eq!(VarInt::from(25565u32).as_inner(), &[0xDD, 0xC7, 0x01, 0x00, 0x00]);
    assert_eq!(VarInt::from(u32::MAX).as_inner(), &[0xFF, 0xFF, 0xFF, 0xFF, 0x0F]);
    assert_eq!(VarInt::from(-1i32).as_inner(), &[0xFF, 0xFF, 0xFF, 0xFF, 0x0F]);
    assert_eq!(VarInt::from(i32::MIN).as_inner(), &[0x80, 0x80, 0x80, 0x80, 0x08]);
}

#[test]
fn decoding_ignores_continuation_bits() {
    // 256 encodes as [0x80, 0x02]; the continuation bit of the first byte
    // must not leak into the value
    let v = VarInt::try_from(&[0x80u8, 0x02][..]).unwrap();
    assert_eq!(u32::from(v), 256);
}

#[test]
fn encoder_output_classifies_tight() {
    for v in SAMPLES {
        let e = VarInt::from(v);
        assert_eq!(VarInt::find(e.as_slice()), VarIntFindResult::Tight(e.as_slice()));
        assert_eq!(VarInt::find(e.as_inner()), VarIntFindResult::Tight(e.as_slice()));
    }
}

#[test]
fn loose_then_reencode_is_canonical() {
    let cases: [&[u8]; 4] = [
        &[0x80, 0x00],
        &[0x81, 0x80, 0x00],
        &[0xFF, 0x80, 0x80, 0x00],
        &[0x81, 0x81, 0x81, 0x80, 0x00],
    ];
    for bytes in cases {
        assert!(matches!(VarInt::find(bytes), VarIntFindResult::Loose(..)));
        let v = VarInt::try_from(bytes).unwrap();
        let again = VarInt::from(u32::from(v));
        assert_eq!(again.as_inner(), v.as_inner());
        assert_eq!(again.len(), v.len());
        assert_eq!(VarInt::find(v.as_slice()), VarIntFindResult::Tight(v.as_slice()));
    }
}

#[test]
fn loose_lengths() {
    assert_eq!(
        VarInt::find(&[0x81, 0x80, 0x00]),
        VarIntFindResult::Loose(&[0x81, 0x80, 0x00][..], 1)
    );
    assert_eq!(
        VarInt::find(&[0x81, 0x81, 0x81, 0x80, 0x00]),
        VarIntFindResult::Loose(&[0x81, 0x81, 0x81, 0x80, 0x00][..], 3)
    );
    let v = VarInt::try_from(&[0x81u8, 0x81, 0x81, 0x80, 0x00][..]).unwrap();
    assert_eq!(v.as_inner(), &[0x81, 0x81, 0x01, 0x00, 0x00]);
    assert_eq!(u32::from(v), 1 + (1 << 7) + (1 << 14));
}

#[test]
fn classification_ignores_bytes_past_the_window() {
    let short: &[u8] = &[0xDD, 0xC7, 0x01];
    let long: &[u8] = &[0xDD, 0xC7, 0x01, 0xFF, 0xFF, 0xFF, 0xFF];
    assert_eq!(VarInt::find(short), VarInt::find(long));
    let five: &[u8] = &[0x80; 5];
    let seven: &[u8] = &[0x80, 0x80, 0x80, 0x80, 0x80, 0x00, 0x00];
    assert_eq!(VarInt::find(five), VarIntFindResult::Invalid);
    assert_eq!(VarInt::find(seven), VarIntFindResult::Invalid);
    assert_eq!(
        VarInt::try_from(seven).unwrap_err(),
        TryFromVarIntSliceError(DecodeError::TooManyContinuationBytes)
    );
}

#[test]
fn short_continuation_slice_is_truncated() {
    assert_eq!(
        VarInt::try_from(&[0x80u8, 0x80][..]).unwrap_err(),
        TryFromVarIntSliceError(DecodeError::Truncated)
    );
    let empty: &[u8] = &[];
    assert_eq!(
        VarInt::try_from(empty).unwrap_err(),
        TryFromVarIntSliceError(DecodeError::Truncated)
    );
}

#[test]
fn fifth_byte_keeps_only_bits_inside_32() {
    let v = VarInt::try_from([0xFFu8, 0xFF, 0xFF, 0xFF, 0x7F]).unwrap();
    assert_eq!(v.len(), 5);
    assert_eq!(v.as_inner(), &[0xFF, 0xFF, 0xFF, 0xFF, 0x0F]);
    assert_eq!(u32::from(v), u32::MAX);
}

#[test]
fn parse_splits_off_one_value() {
    let input: &[u8] = &[0x8C, 0x01, 0xAA, 0x00];
    let (rest, v) = varint(input).unwrap();
    assert_eq!(rest, &[0xAA, 0x00]);
    assert_eq!(u32::from(v), 140);
    let (rest, loose) = varint_loose(&[0x80, 0x00, 0x05]).unwrap();
    assert_eq!(rest, &[0x05]);
    assert_eq!(loose.into_inner(), &[0x80, 0x00]);
    assert_eq!(varint(&[0x80]).unwrap_err(), DecodeError::Truncated);
    assert_eq!(varint(&[0x80; 6]).unwrap_err(), DecodeError::TooManyContinuationBytes);
}

#[test]
fn loose_varint_from_slice() {
    let l = LooseVarInt::try_from(&[0x80u8, 0x00][..]).unwrap();
    assert_eq!(l.inner(), &[0x80, 0x00]);
    assert_eq!(l.as_inner(), &[0x80, 0x00]);
    assert_eq!(u32::from(l.to_varint()), 0);
    assert_eq!(l.to_varint().as_slice(), &[0x00]);
    let direct = LooseVarInt::from_unchecked(&[0xAC, 0x02]);
    assert_eq!(u32::from(direct.to_varint()), 300);
    assert_eq!(
        LooseVarInt::try_from(&[0x80u8, 0x00, 0x01][..]).unwrap_err(),
        TryFromLooseSliceError
    );
    assert_eq!(LooseVarInt::try_from(&[0x80u8][..]).unwrap_err(), TryFromLooseSliceError);
    let empty: &[u8] = &[];
    assert_eq!(LooseVarInt::try_from(empty).unwrap_err(), TryFromLooseSliceError);
}

#[test]
fn conversions_into_buffers() {
    let v = VarInt::from(25565i32);
    let inner: VarIntInner = v.into();
    assert_eq!(inner, [0xDD, 0xC7, 0x01, 0x00, 0x00]);
    let as_bytes: &[u8] = v.as_ref();
    assert_eq!(as_bytes, &[0xDD, 0xC7, 0x01]);
    let as_buf: &VarIntInner = v.as_ref();
    assert_eq!(as_buf, &inner);
}
