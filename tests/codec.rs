use unrepl::decode::{decode, DecodeError};
use unrepl::stream::{Next, StreamDecoder};
use unrepl::wire::{encode, WireValue};

fn bytes(s: &str) -> WireValue {
    WireValue::Bytes(s.as_bytes().to_vec())
}

fn decode_all(b: &[u8]) -> Result<(WireValue, usize), DecodeError> {
    decode(&b.to_vec())
}

#[test]
fn encodes_integers_and_strings() {
    assert_eq!(encode(&WireValue::Int(42)), b"i42e".to_vec());
    assert_eq!(encode(&WireValue::Int(-7)), b"i-7e".to_vec());
    assert_eq!(encode(&WireValue::Int(0)), b"i0e".to_vec());
    assert_eq!(encode(&WireValue::Int(i64::MIN)), b"i-9223372036854775808e".to_vec());
    assert_eq!(encode(&bytes("spam")), b"4:spam".to_vec());
    assert_eq!(encode(&bytes("")), b"0:".to_vec());
}

#[test]
fn encodes_containers_in_order() {
    let v = WireValue::List(vec![WireValue::Int(1), bytes("ab"), WireValue::List(vec![])]);
    assert_eq!(encode(&v), b"li1e2:ablee".to_vec());
    let d = WireValue::Dict(vec![(b"k".to_vec(), WireValue::Int(3))]);
    assert_eq!(encode(&d), b"d1:ki3ee".to_vec());
}

#[test]
fn round_trip_without_maps() {
    let v = WireValue::List(vec![
        WireValue::Int(-12),
        bytes("hello"),
        WireValue::List(vec![WireValue::Int(i64::MAX), bytes("")]),
    ]);
    let e = encode(&v);
    let (back, n) = decode(&e).unwrap();
    assert_eq!(back, v);
    assert_eq!(n, e.len());
}

#[test]
fn round_trip_with_trailing_bytes() {
    let v = WireValue::Dict(vec![(b"op".to_vec(), bytes("clone"))]);
    let mut e = encode(&v);
    let len = e.len();
    e.extend_from_slice(b"i1e");
    let (back, n) = decode(&e).unwrap();
    assert_eq!(back, v);
    assert_eq!(n, len);
}

#[test]
fn decodes_the_clone_request() {
    let (v, n) = decode_all(b"d2:op5:clonee").unwrap();
    assert_eq!(v, WireValue::Dict(vec![(b"op".to_vec(), bytes("clone"))]));
    assert_eq!(n, 13);
}

#[test]
fn truncated_integer_is_truncated() {
    assert_eq!(decode_all(b"i-42"), Err(DecodeError::Truncated));
    assert_eq!(decode_all(b"i-42e"), Ok((WireValue::Int(-42), 5)));
}

#[test]
fn malformed_integers_are_malformed() {
    assert_eq!(decode_all(b"i4x2e"), Err(DecodeError::BadInteger));
    assert_eq!(decode_all(b"ie"), Err(DecodeError::BadInteger));
    assert_eq!(decode_all(b"i-e"), Err(DecodeError::BadInteger));
    assert_eq!(decode_all(b"i9223372036854775808e"), Err(DecodeError::BadInteger));
    assert_eq!(
        decode_all(b"i-9223372036854775808e"),
        Ok((WireValue::Int(i64::MIN), 22))
    );
    assert_eq!(decode_all(b"i007e"), Ok((WireValue::Int(7), 5)));
}

#[test]
fn byte_strings_need_their_whole_length() {
    assert_eq!(decode_all(b"5:abc"), Err(DecodeError::Truncated));
    assert_eq!(decode_all(b"3"), Err(DecodeError::Truncated));
    assert_eq!(decode_all(b"1x:a"), Err(DecodeError::BadLength));
    assert_eq!(decode_all(b"99999999999999999999999:a"), Err(DecodeError::Truncated));
    assert_eq!(decode_all(b"3:abcd"), Ok((bytes("abc"), 5)));
}

#[test]
fn empty_list_and_nested_containers() {
    assert_eq!(decode_all(b"le"), Ok((WireValue::List(vec![]), 2)));
    assert_eq!(
        decode_all(b"ldedee"),
        Ok((WireValue::List(vec![WireValue::Dict(vec![]), WireValue::Dict(vec![])]), 6))
    );
    assert_eq!(
        decode_all(b"llleee"),
        Ok((WireValue::List(vec![WireValue::List(vec![WireValue::List(vec![])])]), 6))
    );
    assert_eq!(
        decode_all(b"li1eli2eei3ee"),
        Ok((
            WireValue::List(vec![
                WireValue::Int(1),
                WireValue::List(vec![WireValue::Int(2)]),
                WireValue::Int(3)
            ]),
            13
        ))
    );
}

#[test]
fn unfinished_containers_are_truncated() {
    assert_eq!(decode_all(b"l"), Err(DecodeError::Truncated));
    assert_eq!(decode_all(b"li1e"), Err(DecodeError::Truncated));
    assert_eq!(decode_all(b"d1:a"), Err(DecodeError::Truncated));
    assert_eq!(decode_all(b""), Err(DecodeError::Truncated));
}

#[test]
fn structural_errors() {
    assert_eq!(decode_all(b"di1ei2ee"), Err(DecodeError::ExpectedKey));
    assert_eq!(decode_all(b"dlee"), Err(DecodeError::ExpectedKey));
    assert_eq!(decode_all(b"x"), Err(DecodeError::UnexpectedByte(b'x')));
    assert_eq!(decode_all(b"e"), Err(DecodeError::UnexpectedByte(b'e')));
    assert_eq!(decode_all(b"d1:ae"), Err(DecodeError::UnexpectedByte(b'e')));
    assert_eq!(decode_all(b"dxe"), Err(DecodeError::UnexpectedByte(b'x')));
}

#[test]
fn duplicate_map_keys_are_kept_in_order() {
    let (v, _) = decode_all(b"d1:ai1e1:ai2ee").unwrap();
    assert_eq!(
        v,
        WireValue::Dict(vec![
            (b"a".to_vec(), WireValue::Int(1)),
            (b"a".to_vec(), WireValue::Int(2))
        ])
    );
}

#[test]
fn byte_at_a_time_matches_one_chunk() {
    let whole = b"d6:statusl4:doneee".to_vec();
    let mut at_once = StreamDecoder::new();
    at_once.feed(&whole);
    let once = match at_once.next_value(false).unwrap() {
        Next::Value(v) => v,
        other => panic!("expected a value, got {:?}", other),
    };
    let mut slow = StreamDecoder::new();
    let mut got = None;
    for (i, b) in whole.iter().enumerate() {
        slow.feed(&[*b]);
        match slow.next_value(false).unwrap() {
            Next::Value(v) => {
                assert_eq!(i, whole.len() - 1);
                got = Some(v);
            }
            Next::NeedMore => assert!(i < whole.len() - 1),
            Next::EndOfStream => panic!("stream is open"),
        }
    }
    assert_eq!(got.unwrap(), once);
    assert!(slow.buf.is_empty());
}

#[test]
fn stream_yields_values_one_after_another_then_ends() {
    let mut d = StreamDecoder::new();
    d.feed(b"i1e4:spam");
    assert!(matches!(d.next_value(false), Ok(Next::Value(WireValue::Int(1)))));
    match d.next_value(false) {
        Ok(Next::Value(v)) => assert_eq!(v, bytes("spam")),
        other => panic!("unexpected {:?}", other),
    }
    assert!(matches!(d.next_value(false), Ok(Next::NeedMore)));
    assert!(matches!(d.next_value(true), Ok(Next::EndOfStream)));
}

#[test]
fn stream_closed_inside_a_value_is_an_error() {
    let mut d = StreamDecoder::new();
    d.feed(b"li1e");
    assert!(matches!(d.next_value(false), Ok(Next::NeedMore)));
    assert!(matches!(d.next_value(true), Err(DecodeError::Truncated)));
}

#[test]
fn encoding_agrees_with_serde_bencode() {
    let v = WireValue::List(vec![
        WireValue::Int(-3),
        bytes("xyz"),
        WireValue::Dict(vec![(b"a".to_vec(), WireValue::Int(1)), (b"b".to_vec(), bytes("c"))]),
    ]);
    let e = encode(&v);
    let theirs: serde_bencode::value::Value = serde_bencode::from_bytes(&e).unwrap();
    assert_eq!(serde_bencode::to_bytes(&theirs).unwrap(), e);
}

#[test]
fn byte_at_a_time_matches_one_chunk_on_malformed_bytes() {
    let whole = b"li4x2ee".to_vec();
    let mut at_once = StreamDecoder::new();
    at_once.feed(&whole);
    let once = at_once.next_value(false).unwrap_err();
    let mut slow = StreamDecoder::new();
    let mut got = None;
    for b in whole.iter() {
        slow.feed(&[*b]);
        match slow.next_value(false) {
            Ok(Next::NeedMore) => {}
            Err(e) => {
                got = Some(e);
                break;
            }
            Ok(other) => panic!("unexpected {:?}", other),
        }
    }
    assert_eq!(got, Some(once));
    assert_eq!(once, DecodeError::BadInteger);
}
