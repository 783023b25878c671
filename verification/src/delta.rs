//! The delta stream model: edit records, stream invariants, and the
//! mathematical replay function that defines what applying a stream means.

use vstd::prelude::*;

verus! {

/// The kind of one edit record.
#[derive(Clone, Copy, PartialEq, Eq, Structural, Debug)]
pub enum EditKind {
    /// The byte at `offset` of the reconstruction must be `value`.
    Write,
    /// Reconstruction stops at `offset`; nothing further is copied.
    Truncate,
}

/// One edit instruction at an absolute offset in the candidate's byte space.
#[derive(Clone, Copy, PartialEq, Eq, Structural, Debug)]
pub struct EditRecord {
    pub offset: u64,
    pub value: u8,
    pub kind: EditKind,
}

/// The ordered edit stream plus the authoritative target length.
#[derive(Debug)]
pub struct DeltaStream {
    pub total_length: u64,
    pub records: Vec<EditRecord>,
}

/// A delta stream together with the candidate's digest.  The digest is
/// absent only when integrity verification is explicitly waived.
#[derive(Debug)]
pub struct PatchDescriptor {
    pub stream: DeltaStream,
    pub digest: Option<Vec<u8>>,
}

/// The stream invariants: offsets strictly ascending, at most one `Truncate`
/// record and only in last position, and every offset within the candidate's
/// byte space given by `total_length`.
pub open spec fn stream_valid(total_length: u64, records: Seq<EditRecord>) -> bool {
    &&& forall|k1: int, k2: int|
        0 <= k1 < k2 < records.len() ==> #[trigger] records[k1].offset < #[trigger] records[k2].offset
    &&& forall|k: int|
        0 <= k < records.len() && #[trigger] records[k].kind is Truncate ==> k == records.len() - 1
    &&& forall|k: int|
        0 <= k < records.len() && (#[trigger] records[k].kind) is Write ==> records[k].offset < total_length
    &&& forall|k: int|
        0 <= k < records.len() && (#[trigger] records[k].kind) is Truncate
            ==> records[k].offset <= total_length
}

/// Whether some `Write` record edits position `i`.
pub open spec fn written(records: Seq<EditRecord>, i: int) -> bool {
    exists|k: int| 0 <= k < records.len() && (#[trigger] records[k].kind) is Write && records[k].offset == i
}

/// The value the stream writes at an edited position `i`.
pub open spec fn value_at(records: Seq<EditRecord>, i: int) -> u8 {
    let k = choose|k: int|
        0 <= k < records.len() && (#[trigger] records[k].kind) is Write && records[k].offset == i;
    records[k].value
}

/// Whether the stream carries a `Truncate` record.
pub open spec fn has_truncate(records: Seq<EditRecord>) -> bool {
    exists|k: int| 0 <= k < records.len() && (#[trigger] records[k].kind) is Truncate
}

/// The offset of the stream's `Truncate` record.
pub open spec fn truncate_offset(records: Seq<EditRecord>) -> int {
    let k = choose|k: int| 0 <= k < records.len() && (#[trigger] records[k].kind) is Truncate;
    records[k].offset as int
}

/// The length of the reconstruction: replay stops at the `Truncate` record if
/// one exists, and otherwise runs to the authoritative target length.
pub open spec fn replay_len(total_length: u64, records: Seq<EditRecord>) -> int {
    if has_truncate(records) {
        truncate_offset(records)
    } else {
        total_length as int
    }
}

/// The reconstruction itself: at every position up to the replay length, the
/// edited value where a `Write` record fires and the source byte elsewhere.
pub open spec fn replay(source: Seq<u8>, total_length: u64, records: Seq<EditRecord>) -> Seq<u8> {
    Seq::new(
        replay_len(total_length, records) as nat,
        |i: int| if written(records, i) { value_at(records, i) } else { source[i] },
    )
}

/// Whether the source supplies a byte for every position that the stream does
/// not write itself; replay reads the source exactly at those positions.
pub open spec fn covers(records: Seq<EditRecord>, total_length: u64, source_len: int) -> bool {
    forall|i: int|
        0 <= i < replay_len(total_length, records) && !written(records, i) ==> i < source_len
}

/// What a correct delta stream for the pair (source, candidate) states:
/// the target length is the candidate's length, the stream invariants hold,
/// every `Write` record carries the candidate's byte at its offset, positions
/// that no record edits agree between source and candidate, every candidate
/// position beyond the source's end is written, and a `Truncate` record
/// exists exactly when the candidate is shorter, at the candidate's length.
pub open spec fn delta_correct(
    src: Seq<u8>,
    cand: Seq<u8>,
    total_length: u64,
    records: Seq<EditRecord>,
) -> bool {
    &&& total_length == cand.len()
    &&& stream_valid(total_length, records)
    &&& forall|k: int|
        0 <= k < records.len() && (#[trigger] records[k].kind) is Write
            ==> records[k].value == cand[records[k].offset as int]
    &&& forall|i: int| 0 <= i < src.len() && i < cand.len() && !written(records, i) ==> src[i] == cand[i]
    &&& forall|i: int| src.len() <= i < cand.len() ==> written(records, i)
    &&& (has_truncate(records) <==> cand.len() < src.len())
    &&& (has_truncate(records) ==> truncate_offset(records) == cand.len())
}

/// A record seen to write position `i` witnesses that the position is written.
pub proof fn lemma_written_witness(records: Seq<EditRecord>, i: int, k: int)
    requires
        0 <= k < records.len(),
        records[k].kind is Write,
        records[k].offset == i,
    ensures
        written(records, i),
{
}

/// In a valid stream the record that writes position `i` is unique, so the
/// written value is the value of any record found at that position.
pub proof fn lemma_value_at(records: Seq<EditRecord>, i: int, k: int)
    requires
        forall|k1: int, k2: int|
            0 <= k1 < k2 < records.len()
                ==> #[trigger] records[k1].offset < #[trigger] records[k2].offset,
        0 <= k < records.len(),
        records[k].kind is Write,
        records[k].offset == i,
    ensures
        written(records, i),
        value_at(records, i) == records[k].value,
{
    assert(written(records, i));
    let k2 = choose|k2: int|
        0 <= k2 < records.len() && (#[trigger] records[k2].kind) is Write && records[k2].offset == i;
    if k2 < k {
        assert(records[k2].offset < records[k].offset);
    } else if k < k2 {
        assert(records[k].offset < records[k2].offset);
    }
    assert(k2 == k);
}

/// In a valid stream whose last record is a `Truncate`, that record is the
/// one the truncation offset speaks of.
pub proof fn lemma_truncate_last(total_length: u64, records: Seq<EditRecord>)
    requires
        stream_valid(total_length, records),
        records.len() > 0,
        records[records.len() - 1].kind is Truncate,
    ensures
        has_truncate(records),
        truncate_offset(records) == records[records.len() - 1].offset,
{
    assert(has_truncate(records));
    let k = choose|k: int| 0 <= k < records.len() && (#[trigger] records[k].kind) is Truncate;
    assert(k == records.len() - 1);
}

/// In a valid stream whose records are all `Write`s (in particular, whose
/// last record is a `Write`, or which is empty), no truncation exists.
pub proof fn lemma_no_truncate(total_length: u64, records: Seq<EditRecord>)
    requires
        stream_valid(total_length, records),
        records.len() == 0 || records[records.len() - 1].kind is Write,
    ensures
        !has_truncate(records),
{
    if has_truncate(records) {
        let k = choose|k: int| 0 <= k < records.len() && (#[trigger] records[k].kind) is Truncate;
        assert(k == records.len() - 1);
    }
}

/// Round trip: a correct delta stream for (source, candidate) satisfies the
/// stream invariants, reads the source only at positions where the source has
/// bytes, and replays against the source to exactly the candidate.
pub proof fn lemma_round_trip(
    src: Seq<u8>,
    cand: Seq<u8>,
    total_length: u64,
    records: Seq<EditRecord>,
)
    requires
        delta_correct(src, cand, total_length, records),
    ensures
        stream_valid(total_length, records),
        covers(records, total_length, src.len() as int),
        replay(src, total_length, records) == cand,
{
    assert(replay_len(total_length, records) == cand.len());
    assert forall|i: int|
        0 <= i < replay_len(total_length, records) && !written(records, i) implies i
        < src.len() by {
        if i >= src.len() {
            assert(written(records, i));
        }
    }
    assert forall|i: int| 0 <= i < cand.len() implies replay(src, total_length, records)[i]
        == cand[i] by {
        if written(records, i) {
            let k = choose|k: int|
                0 <= k < records.len() && (#[trigger] records[k].kind) is Write
                    && records[k].offset == i;
            assert(records[k].value == cand[records[k].offset as int]);
        } else {
            assert(i < src.len());
        }
    }
    assert(replay(src, total_length, records) =~= cand);
}

/// Identity: replaying an empty record stream whose target length is the
/// source's own length reproduces the source unchanged.
pub proof fn lemma_identity(src: Seq<u8>)
    requires
        src.len() <= u64::MAX,
    ensures
        replay(src, src.len() as u64, Seq::<EditRecord>::empty()) == src,
{
    let records = Seq::<EditRecord>::empty();
    assert(!has_truncate(records));
    assert forall|i: int| 0 <= i < src.len() implies replay(src, src.len() as u64, records)[i]
        == src[i] by {
        assert(!written(records, i));
    }
    assert(replay(src, src.len() as u64, records) =~= src);
}

/// Truncation: when the candidate is shorter than the source, a correct
/// stream holds exactly one truncate record, at the candidate's length, and
/// the replayed reconstruction stops at that offset.
pub proof fn lemma_truncation(
    src: Seq<u8>,
    cand: Seq<u8>,
    total_length: u64,
    records: Seq<EditRecord>,
)
    requires
        delta_correct(src, cand, total_length, records),
        cand.len() < src.len(),
    ensures
        exists|k: int|
            0 <= k < records.len() && (#[trigger] records[k].kind) is Truncate
                && records[k].offset == cand.len(),
        forall|k1: int, k2: int|
            (0 <= k1 < records.len() && (#[trigger] records[k1].kind) is Truncate && 0 <= k2
                < records.len() && (#[trigger] records[k2].kind) is Truncate) ==> k1 == k2,
        replay(src, total_length, records).len() == cand.len(),
{
    let k = choose|k: int| 0 <= k < records.len() && (#[trigger] records[k].kind) is Truncate;
    assert(records[k].offset == cand.len());
    assert(0 <= k < records.len() && records[k].kind is Truncate && records[k].offset
        == cand.len());
    assert forall|k1: int, k2: int|
        (0 <= k1 < records.len() && (#[trigger] records[k1].kind) is Truncate && 0 <= k2
            < records.len() && (#[trigger] records[k2].kind) is Truncate) implies k1 == k2 by {
        assert(k1 == records.len() - 1);
        assert(k2 == records.len() - 1);
    }
}

/// Growth: when the candidate is longer than the source, every candidate
/// byte beyond the source's end is written verbatim at its exact offset.
pub proof fn lemma_growth(
    src: Seq<u8>,
    cand: Seq<u8>,
    total_length: u64,
    records: Seq<EditRecord>,
)
    requires
        delta_correct(src, cand, total_length, records),
        src.len() < cand.len(),
    ensures
        forall|i: int|
            src.len() <= i < cand.len()
                ==> #[trigger] written(records, i) && value_at(records, i) == cand[i],
{
    assert forall|i: int| src.len() <= i < cand.len() implies #[trigger] written(records, i)
        && value_at(records, i) == cand[i] by {
        assert(written(records, i));
        let k = choose|k: int|
            0 <= k < records.len() && (#[trigger] records[k].kind) is Write && records[k].offset
                == i;
        assert(records[k].value == cand[records[k].offset as int]);
    }
}

/// Checks the stream invariants, exactly.
pub fn validate(stream: &DeltaStream) -> (r: bool)
    ensures
        r == stream_valid(stream.total_length, stream.records@),
{
    let n = stream.records.len();
    let mut k: usize = 0;
    while k < n
        invariant
            n == stream.records.len(),
            k <= n,
            forall|k1: int, k2: int|
                0 <= k1 < k2 <= k as int && k2 < n
                    ==> #[trigger] stream.records@[k1].offset < #[trigger] stream.records@[k2].offset,
            forall|j: int|
                0 <= j < k as int && (#[trigger] stream.records@[j].kind) is Truncate
                    ==> j == n - 1 && stream.records@[j].offset <= stream.total_length,
            forall|j: int|
                0 <= j < k as int && (#[trigger] stream.records@[j].kind) is Write
                    ==> stream.records@[j].offset < stream.total_length,
        decreases n - k,
    {
        let rec = stream.records[k];
        match rec.kind {
            EditKind::Write => {
                if !(rec.offset < stream.total_length) {
                    return false;
                }
            },
            EditKind::Truncate => {
                if k != n - 1 || !(rec.offset <= stream.total_length) {
                    return false;
                }
            },
        }
        if k + 1 < n {
            if !(rec.offset < stream.records[k + 1].offset) {
                return false;
            }
        }
        k = k + 1;
    }
    true
}

} // verus!
