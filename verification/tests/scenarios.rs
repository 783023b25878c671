use bindelta::apply::{apply, compare_hash, ApplyError};
use bindelta::delta::{DeltaStream, EditKind, EditRecord, PatchDescriptor};
use bindelta::diff::{diff, encode, find_edits, lcs};
use bindelta::digest::compute_digest;

fn rec(offset: u64, value: u8, kind: EditKind) -> EditRecord {
    EditRecord { offset, value, kind }
}

fn apply_encoded(source: &[u8], candidate: &[u8]) -> Vec<u8> {
    let source = source.to_vec();
    let candidate = candidate.to_vec();
    let descriptor = encode(&source, &candidate);
    apply(&source, &descriptor).expect("replay of a freshly encoded delta must succeed")
}

#[test]
fn single_substitution_stream() {
    let source = b"abcdef".to_vec();
    let candidate = b"abXdef".to_vec();
    let stream = diff(&source, &candidate);
    assert_eq!(stream.total_length, 6);
    assert_eq!(stream.records, vec![rec(2, b'X', EditKind::Write)]);
}

#[test]
fn single_substitution_applies() {
    assert_eq!(apply_encoded(b"abcdef", b"abXdef"), b"abXdef".to_vec());
}

#[test]
fn growth_stream() {
    let source = b"abc".to_vec();
    let candidate = b"abcde".to_vec();
    let stream = diff(&source, &candidate);
    assert_eq!(stream.total_length, 5);
    assert_eq!(
        stream.records,
        vec![rec(3, b'd', EditKind::Write), rec(4, b'e', EditKind::Write)]
    );
    assert_eq!(apply_encoded(b"abc", b"abcde"), b"abcde".to_vec());
}

#[test]
fn truncation_stream() {
    let source = b"abcdef".to_vec();
    let candidate = b"abc".to_vec();
    let stream = diff(&source, &candidate);
    assert_eq!(stream.total_length, 3);
    assert_eq!(stream.records, vec![rec(3, 0, EditKind::Truncate)]);
    assert_eq!(apply_encoded(b"abcdef", b"abc"), b"abc".to_vec());
}

#[test]
fn lcs_within_one_chunk() {
    let source = vec![1u8, 2, 3, 4];
    let candidate = vec![1u8, 5, 3, 4];
    let pairs = lcs(&source, &candidate);
    assert_eq!(pairs, vec![(0, 0), (2, 2), (3, 3)]);
    let edits = find_edits(&source, &candidate);
    assert_eq!(edits, vec![(1, 5)]);
}

#[test]
fn digest_of_reconstruction_matches_encode_digest() {
    let source = b"the quick brown fox".to_vec();
    let candidate = b"the quick brown cat".to_vec();
    let descriptor = encode(&source, &candidate);
    let encode_digest = descriptor.digest.clone().unwrap();
    assert_eq!(encode_digest, compute_digest(&candidate));
    let out = apply(&source, &descriptor).unwrap();
    assert!(compare_hash(&compute_digest(&out), &encode_digest));
}

#[test]
fn identity_yields_empty_stream() {
    let a = b"some unchanged contents".to_vec();
    let stream = diff(&a, &a);
    assert_eq!(stream.total_length, a.len() as u64);
    assert!(stream.records.is_empty());
    assert_eq!(apply_encoded(&a, &a), a);
}

#[test]
fn empty_files() {
    let empty = Vec::new();
    let stream = diff(&empty, &empty);
    assert_eq!(stream.total_length, 0);
    assert!(stream.records.is_empty());
    assert_eq!(apply_encoded(b"", b""), Vec::<u8>::new());
}

#[test]
fn round_trip_across_chunks() {
    // Spans several 32-byte chunks, with edits in different chunks, a
    // partial last chunk, and bytes equal at some differing-chunk positions.
    let mut source = Vec::new();
    for i in 0..100u32 {
        source.push((i % 251) as u8);
    }
    let mut candidate = source.clone();
    candidate[0] = 200;
    candidate[31] = 201;
    candidate[32] = 202;
    candidate[70] = 203;
    candidate[99] = 204;
    assert_eq!(apply_encoded(&source, &candidate), candidate);
}

#[test]
fn round_trip_with_growth_across_chunks() {
    let source = vec![7u8; 40];
    let mut candidate = vec![7u8; 40];
    candidate[5] = 9;
    candidate.extend_from_slice(&[1, 2, 3, 4, 5, 6, 7, 8, 9, 10]);
    assert_eq!(apply_encoded(&source, &candidate), candidate);
}

#[test]
fn round_trip_with_truncation_across_chunks() {
    let mut source = Vec::new();
    for i in 0..90u32 {
        source.push((i * 3 % 256) as u8);
    }
    let mut candidate = source[..50].to_vec();
    candidate[49] = 255;
    assert_eq!(apply_encoded(&source, &candidate), candidate);
}

#[test]
fn completely_different_files() {
    let source = vec![0u8; 33];
    let candidate = vec![255u8; 33];
    assert_eq!(apply_encoded(&source, &candidate), candidate);
}

#[test]
fn growth_from_empty_source() {
    assert_eq!(apply_encoded(b"", b"fresh"), b"fresh".to_vec());
}

#[test]
fn truncation_to_empty_candidate() {
    let stream = diff(&b"gone".to_vec(), &Vec::new());
    assert_eq!(stream.total_length, 0);
    assert_eq!(stream.records, vec![rec(0, 0, EditKind::Truncate)]);
    assert_eq!(apply_encoded(b"gone", b""), Vec::<u8>::new());
}

#[test]
fn malformed_unsorted_offsets_rejected() {
    let source = b"abcdef".to_vec();
    let stream = DeltaStream {
        total_length: 6,
        records: vec![rec(5, 1, EditKind::Write), rec(3, 2, EditKind::Write)],
    };
    let descriptor = PatchDescriptor { stream, digest: None };
    assert!(matches!(apply(&source, &descriptor), Err(ApplyError::MalformedDelta)));
}

#[test]
fn malformed_truncate_not_last_rejected() {
    let source = b"abcdef".to_vec();
    let stream = DeltaStream {
        total_length: 6,
        records: vec![rec(2, 0, EditKind::Truncate), rec(4, 9, EditKind::Write)],
    };
    let descriptor = PatchDescriptor { stream, digest: None };
    assert!(matches!(apply(&source, &descriptor), Err(ApplyError::MalformedDelta)));
}

#[test]
fn malformed_write_beyond_target_rejected() {
    let source = b"abcdef".to_vec();
    let stream = DeltaStream { total_length: 4, records: vec![rec(4, 9, EditKind::Write)] };
    let descriptor = PatchDescriptor { stream, digest: None };
    assert!(matches!(apply(&source, &descriptor), Err(ApplyError::MalformedDelta)));
}

#[test]
fn malformed_uncovered_position_beyond_source_rejected() {
    // The stream asks for ten bytes but the source has three and only
    // position five is written: position three has no byte to come from.
    let source = b"abc".to_vec();
    let stream = DeltaStream { total_length: 10, records: vec![rec(5, 7, EditKind::Write)] };
    let descriptor = PatchDescriptor { stream, digest: None };
    assert!(matches!(apply(&source, &descriptor), Err(ApplyError::MalformedDelta)));
}

#[test]
fn digest_mismatch_rejected_with_both_digests() {
    let source = b"abcdef".to_vec();
    let candidate = b"abXdef".to_vec();
    let mut descriptor = encode(&source, &candidate);
    let mut wrong = descriptor.digest.clone().unwrap();
    wrong[0] ^= 1;
    descriptor.digest = Some(wrong.clone());
    match apply(&source, &descriptor) {
        Err(ApplyError::DigestMismatch { expected, actual, buffer }) => {
            assert_eq!(expected, wrong);
            assert_eq!(actual, compute_digest(&candidate));
            assert_ne!(expected, actual);
            assert_eq!(buffer, candidate);
        },
        other => panic!("expected a digest mismatch, got {:?}", other),
    }
}

#[test]
fn waived_digest_applies_without_verification() {
    let source = b"abcdef".to_vec();
    let candidate = b"abXdef".to_vec();
    let stream = diff(&source, &candidate);
    let descriptor = PatchDescriptor { stream, digest: None };
    assert_eq!(apply(&source, &descriptor).unwrap(), candidate);
}

#[test]
fn compare_hash_on_equal_and_unequal() {
    let a = vec![1u8, 2, 3];
    let b = vec![1u8, 2, 3];
    let c = vec![1u8, 2, 4];
    let d = vec![1u8, 2];
    assert!(compare_hash(&a, &b));
    assert!(!compare_hash(&a, &c));
    assert!(!compare_hash(&a, &d));
}

#[test]
fn compute_digest_matches_reference_implementation() {
    let data = b"binary delta digest check".to_vec();
    let ours = compute_digest(&data);
    let reference = blake3::hash(&data).as_bytes().to_vec();
    assert_eq!(ours, reference);
    assert_eq!(ours.len(), 32);
    assert_ne!(ours, data);
}
