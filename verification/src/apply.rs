//! The replay engine: validates a delta stream, reconstructs the candidate
//! from the source and the stream in a fresh buffer, and checks the
//! reconstruction against the carried digest.

use vstd::prelude::*;

use crate::delta::{
    covers, has_truncate, lemma_no_truncate, lemma_truncate_last, lemma_value_at, replay,
    replay_len, stream_valid, validate, written, DeltaStream, EditKind, EditRecord,
    PatchDescriptor,
};
use crate::digest::{blake3_of, compute_digest};

verus! {

/// Why an application attempt was rejected.
#[derive(Debug)]
pub enum ApplyError {
    /// The stream breaks its invariants, or reads the source where it has no
    /// bytes; reported before any output is produced.
    MalformedDelta,
    /// The reconstruction does not hash to the carried digest; both digests
    /// and the rejected buffer are surfaced for diagnosis.
    DigestMismatch { expected: Vec<u8>, actual: Vec<u8>, buffer: Vec<u8> },
}

/// Compares two digests byte for byte.
pub fn compare_hash(hash1: &Vec<u8>, hash2: &Vec<u8>) -> (r: bool)
    ensures
        r == (hash1@ == hash2@),
{
    if hash1.len() != hash2.len() {
        return false;
    }
    let mut i: usize = 0;
    while i < hash1.len()
        invariant
            hash1.len() == hash2.len(),
            i <= hash1.len(),
            forall|j: int| 0 <= j < i as int ==> hash1@[j] == hash2@[j],
        decreases hash1.len() - i,
    {
        if hash1[i] != hash2[i] {
            return false;
        }
        i = i + 1;
    }
    proof {
        assert(hash1@ =~= hash2@);
    }
    true
}

/// Copies a digest so that a rejection can surface it.
fn clone_bytes(v: &Vec<u8>) -> (r: Vec<u8>)
    ensures
        r@ == v@,
{
    let mut r: Vec<u8> = Vec::new();
    let mut i: usize = 0;
    while i < v.len()
        invariant
            i <= v.len(),
            r@ == v@.take(i as int),
        decreases v.len() - i,
    {
        r.push(v[i]);
        i = i + 1;
        proof {
            assert(r@ =~= v@.take(i as int));
        }
    }
    proof {
        assert(v@.take(v@.len() as int) =~= v@);
    }
    r
}

/// Replays a delta stream against the source and reconstructs the candidate.
///
/// The stream is validated first; a stream that breaks its invariants, or
/// that reads the source at a position the source does not have, is rejected
/// as malformed before any output is produced.  A reconstruction that does
/// not hash to the carried digest is rejected with both digests; when the
/// digest is absent, verification is waived and the reconstruction returned.
#[verifier::loop_isolation(false)]
pub fn apply(source: &Vec<u8>, descriptor: &PatchDescriptor) -> (r: Result<Vec<u8>, ApplyError>)
    requires
        descriptor.stream.total_length <= usize::MAX as u64,
    ensures
        match r {
            Ok(out) => {
                &&& stream_valid(descriptor.stream.total_length, descriptor.stream.records@)
                &&& covers(
                    descriptor.stream.records@,
                    descriptor.stream.total_length,
                    source@.len() as int,
                )
                &&& out@ == replay(
                    source@,
                    descriptor.stream.total_length,
                    descriptor.stream.records@,
                )
                &&& (descriptor.digest matches Some(d) ==> d@ == blake3_of(out@))
            },
            Err(e) => match e {
                ApplyError::MalformedDelta => !(stream_valid(
                    descriptor.stream.total_length,
                    descriptor.stream.records@,
                ) && covers(
                    descriptor.stream.records@,
                    descriptor.stream.total_length,
                    source@.len() as int,
                )),
                ApplyError::DigestMismatch { expected, actual, buffer } => {
                    &&& stream_valid(descriptor.stream.total_length, descriptor.stream.records@)
                    &&& covers(
                        descriptor.stream.records@,
                        descriptor.stream.total_length,
                        source@.len() as int,
                    )
                    &&& descriptor.digest matches Some(d) && expected@ == d@
                    &&& actual@ == blake3_of(
                        replay(
                            source@,
                            descriptor.stream.total_length,
                            descriptor.stream.records@,
                        ),
                    )
                    &&& expected@ != actual@
                    &&& buffer@ == replay(
                        source@,
                        descriptor.stream.total_length,
                        descriptor.stream.records@,
                    )
                },
            },
        },
{
    let stream = &descriptor.stream;
    if !validate(stream) {
        return Err(ApplyError::MalformedDelta);
    }
    let n = stream.records.len();

    // The replay stops at the truncate record if one exists; records before
    // it are the writes the cursor may consume.
    let end: u64;
    let limit: usize;
    if n > 0 {
        let last = stream.records[n - 1];
        match last.kind {
            EditKind::Truncate => {
                end = last.offset;
                limit = n - 1;
                proof {
                    lemma_truncate_last(stream.total_length, stream.records@);
                }
            },
            EditKind::Write => {
                end = stream.total_length;
                limit = n;
                proof {
                    lemma_no_truncate(stream.total_length, stream.records@);
                }
            },
        }
    } else {
        end = stream.total_length;
        limit = n;
        proof {
            lemma_no_truncate(stream.total_length, stream.records@);
        }
    }
    assert(replay_len(stream.total_length, stream.records@) == end as int);
    assert(end <= stream.total_length);
    let end_us: usize = end as usize;

    let mut out: Vec<u8> = Vec::new();
    let mut c: usize = 0;
    let mut i: usize = 0;
    while i < end_us
        invariant
            stream_valid(stream.total_length, stream.records@),
            n == stream.records.len(),
            limit <= n,
            limit == n || (limit == n - 1 && stream.records@[n - 1].kind is Truncate),
            forall|k: int| 0 <= k < limit ==> (#[trigger] stream.records@[k].kind) is Write,
            replay_len(stream.total_length, stream.records@) == end as int,
            end as int == end_us as int,
            i <= end_us,
            c <= limit,
            forall|k: int| 0 <= k < c as int ==> #[trigger] stream.records@[k].offset < i as int,
            c < limit ==> stream.records@[c as int].offset >= i as int,
            out@.len() == i as int,
            forall|t: int|
                0 <= t < i as int ==> out@[t] == (if written(stream.records@, t) {
                    crate::delta::value_at(stream.records@, t)
                } else {
                    source@[t]
                }),
            forall|t: int|
                0 <= t < i as int && !written(stream.records@, t) ==> t < source@.len(),
        decreases end_us - i,
    {
        let next_is_edit = c < limit && stream.records[c].offset == i as u64;
        if next_is_edit {
            let rec = stream.records[c];
            assert(rec.kind is Write);
            match rec.kind {
                EditKind::Write => {
                    out.push(rec.value);
                    proof {
                        lemma_value_at(stream.records@, i as int, c as int);
                    }
                },
                EditKind::Truncate => {
                    assert(false);
                },
            }
            c = c + 1;
            i = i + 1;
        } else {
            assert(!written(stream.records@, i as int)) by {
                if written(stream.records@, i as int) {
                    let k = choose|k: int|
                        0 <= k < stream.records@.len()
                            && (#[trigger] stream.records@[k].kind) is Write
                            && stream.records@[k].offset == i as int;
                    if k < c as int {
                        assert(stream.records@[k].offset < i as int);
                    } else {
                        assert(k < limit as int);
                        assert(c < limit);
                        if (c as int) < k {
                            assert(stream.records@[c as int].offset
                                < stream.records@[k].offset);
                        }
                    }
                }
            }
            if i < source.len() {
                out.push(source[i]);
                i = i + 1;
            } else {
                assert(!covers(
                    stream.records@,
                    stream.total_length,
                    source@.len() as int,
                ));
                return Err(ApplyError::MalformedDelta);
            }
        }
    }
    assert(out@ =~= replay(source@, stream.total_length, stream.records@));

    match &descriptor.digest {
        Some(d) => {
            let h = compute_digest(&out);
            if compare_hash(d, &h) {
                Ok(out)
            } else {
                Err(ApplyError::DigestMismatch { expected: clone_bytes(d), actual: h, buffer: out })
            }
        },
        None => Ok(out),
    }
}

} // verus!
