use bindelta::apply::{apply, ApplyError};
use bindelta::codec::{deserialize, digest_to_hex, parse_digest_hex, serialize, ParsedDelta};
use bindelta::delta::{DeltaStream, EditKind, EditRecord, PatchDescriptor};
use bindelta::diff::diff;
use bindelta::digest::compute_digest;

fn rec(offset: u64, value: u8, kind: EditKind) -> EditRecord {
    EditRecord { offset, value, kind }
}

fn expect_stream(parsed: ParsedDelta) -> DeltaStream {
    match parsed {
        ParsedDelta::Stream(s) => s,
        ParsedDelta::NoDifferences => panic!("expected a stream, got an empty text"),
    }
}

#[test]
fn serialized_text_is_the_documented_lines() {
    let stream = DeltaStream {
        total_length: 26,
        records: vec![rec(3, 0x5a, EditKind::Write), rec(16, 0, EditKind::Truncate)],
    };
    let text = serialize(&stream);
    assert_eq!(text, b"1a,0,0\n3,5a,0\n10,0,1\n".to_vec());
}

#[test]
fn empty_stream_serializes_to_empty_text() {
    let stream = DeltaStream { total_length: 9, records: Vec::new() };
    assert_eq!(serialize(&stream), Vec::<u8>::new());
}

#[test]
fn wire_round_trip() {
    let source = b"a seq of source bytes, longer than one chunk: 0123456789".to_vec();
    let candidate = b"a seq of edited bytes, longer than one chunk: 01234".to_vec();
    let stream = diff(&source, &candidate);
    let text = serialize(&stream);
    let back = expect_stream(deserialize(&text).unwrap());
    assert_eq!(back.total_length, stream.total_length);
    assert_eq!(back.records, stream.records);
}

#[test]
fn empty_text_means_no_differences() {
    match deserialize(&Vec::new()).unwrap() {
        ParsedDelta::NoDifferences => {},
        ParsedDelta::Stream(_) => panic!("empty text must mean no differences"),
    }
}

#[test]
fn parses_documented_lines() {
    let text = b"1a,0,0\n3,5a,0\n10,0,1\n".to_vec();
    let stream = expect_stream(deserialize(&text).unwrap());
    assert_eq!(stream.total_length, 26);
    assert_eq!(
        stream.records,
        vec![rec(3, 0x5a, EditKind::Write), rec(16, 0, EditKind::Truncate)]
    );
}

#[test]
fn rejects_garbage() {
    assert!(deserialize(&b"zz\n".to_vec()).is_err());
}

#[test]
fn rejects_uppercase_hex() {
    assert!(deserialize(&b"A,0,0\n".to_vec()).is_err());
}

#[test]
fn rejects_leading_zeros() {
    assert!(deserialize(&b"04,0,0\n3,5,0\n".to_vec()).is_err());
}

#[test]
fn rejects_header_with_nonzero_value() {
    assert!(deserialize(&b"4,1,0\n3,5,0\n".to_vec()).is_err());
}

#[test]
fn rejects_missing_final_newline() {
    assert!(deserialize(&b"4,0,0\n3,5,0".to_vec()).is_err());
}

#[test]
fn rejects_offset_too_large_for_a_word() {
    // Nineteen hexadecimal digits exceed the 64-bit offset space.
    assert!(deserialize(&b"4,0,0\n1234567890123456789,5,0\n".to_vec()).is_err());
}

#[test]
fn rejects_value_too_large_for_a_byte() {
    assert!(deserialize(&b"4,0,0\n3,100,0\n".to_vec()).is_err());
}

#[test]
fn rejects_bad_flag() {
    assert!(deserialize(&b"4,0,0\n3,5,2\n".to_vec()).is_err());
}

#[test]
fn tampered_separator_is_rejected() {
    let stream = diff(&b"aaaa".to_vec(), &b"aaba".to_vec());
    let mut text = serialize(&stream);
    let comma = text.iter().position(|&c| c == b',').unwrap();
    text[comma] = b'x';
    assert!(deserialize(&text).is_err());
}

#[test]
fn tampered_value_is_caught_by_the_digest() {
    let source = b"aaaa".to_vec();
    let candidate = b"aaba".to_vec();
    let stream = diff(&source, &candidate);
    let digest = compute_digest(&candidate);
    let mut text = serialize(&stream);
    // The candidate byte 0x62 serializes as "62"; corrupt its high digit.
    let pos = text.iter().position(|&c| c == b'6').unwrap();
    text[pos] = b'7';
    let tampered = expect_stream(deserialize(&text).unwrap());
    let descriptor = PatchDescriptor { stream: tampered, digest: Some(digest) };
    assert!(matches!(
        apply(&source, &descriptor),
        Err(ApplyError::DigestMismatch { .. })
    ));
}

#[test]
fn tampered_offset_order_is_rejected_as_malformed() {
    // Reordering the record offsets survives parsing but fails the
    // validation step of the replay engine.
    let text = b"6,0,0\n5,61,0\n3,62,0\n".to_vec();
    let stream = expect_stream(deserialize(&text).unwrap());
    let descriptor = PatchDescriptor { stream, digest: None };
    assert!(matches!(
        apply(&b"abcdef".to_vec(), &descriptor),
        Err(ApplyError::MalformedDelta)
    ));
}

#[test]
fn digest_hex_round_trip() {
    let digest = compute_digest(&b"something to hash".to_vec());
    let hex = digest_to_hex(&digest);
    assert_eq!(hex.len(), 64);
    assert_eq!(parse_digest_hex(&hex).unwrap(), digest);
}

#[test]
fn digest_hex_matches_reference_implementation() {
    let data = b"cross-checked digest text".to_vec();
    let hex = digest_to_hex(&compute_digest(&data));
    let reference = blake3::hash(&data).to_hex();
    assert_eq!(hex, reference.as_bytes().to_vec());
}

#[test]
fn tampered_digest_hex_is_rejected_or_mismatches() {
    let source = b"abcdef".to_vec();
    let candidate = b"abXdef".to_vec();
    let digest = compute_digest(&candidate);
    let mut hex = digest_to_hex(&digest);

    // An invalid character makes the digest unreadable.
    let mut broken = hex.clone();
    broken[10] = b'g';
    assert!(parse_digest_hex(&broken).is_none());

    // A different valid character reads back as a different digest, which
    // the verification step then refuses.
    hex[0] = if hex[0] == b'0' { b'1' } else { b'0' };
    let wrong = parse_digest_hex(&hex).unwrap();
    assert_ne!(wrong, digest);
    let stream = diff(&source, &candidate);
    let descriptor = PatchDescriptor { stream, digest: Some(wrong) };
    assert!(matches!(
        apply(&source, &descriptor),
        Err(ApplyError::DigestMismatch { .. })
    ));
}

#[test]
fn empty_diff_round_trips_as_no_differences() {
    let a = b"unchanged".to_vec();
    let stream = diff(&a, &a);
    let text = serialize(&stream);
    assert!(text.is_empty());
    match deserialize(&text).unwrap() {
        ParsedDelta::NoDifferences => {},
        ParsedDelta::Stream(_) => panic!("an empty diff must serialize to the empty text"),
    }
}

#[test]
fn header_only_text_replays_a_source_prefix() {
    let stream = expect_stream(deserialize(&b"3,0,0\n".to_vec()).unwrap());
    assert_eq!(stream.total_length, 3);
    assert!(stream.records.is_empty());
    let source = b"abcdef".to_vec();
    let descriptor = PatchDescriptor { stream, digest: None };
    assert_eq!(apply(&source, &descriptor).unwrap(), b"abc".to_vec());
}

#[test]
fn digest_hex_rejects_wrong_length() {
    assert!(parse_digest_hex(&b"abcd".to_vec()).is_none());
}
