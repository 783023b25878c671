//! The chunked comparator and its edit finder: locates the positions at
//! which the candidate differs from the source and produces a delta stream
//! that is correct for the pair.

use vstd::prelude::*;

use crate::delta::{
    delta_correct, lemma_no_truncate, lemma_truncate_last, lemma_written_witness,
    stream_valid, written, DeltaStream, EditKind, EditRecord, PatchDescriptor,
};
use crate::digest::{blake3_of, compute_digest};
use crate::CHUNK_SIZE;

verus! {

/// The length of a longest common subsequence of `a` and `b`: subsequences
/// of both that respect the relative order of positions in each.
pub open spec fn lcs_len(a: Seq<u8>, b: Seq<u8>) -> nat
    decreases a.len() + b.len(),
{
    if a.len() == 0 || b.len() == 0 {
        0
    } else if a.last() == b.last() {
        lcs_len(a.drop_last(), b.drop_last()) + 1
    } else {
        let l1 = lcs_len(a.drop_last(), b);
        let l2 = lcs_len(a, b.drop_last());
        if l1 >= l2 {
            l1
        } else {
            l2
        }
    }
}

/// A common subsequence is never longer than either sequence.
proof fn lemma_lcs_len_bound(a: Seq<u8>, b: Seq<u8>)
    ensures
        lcs_len(a, b) <= a.len(),
        lcs_len(a, b) <= b.len(),
    decreases a.len() + b.len(),
{
    if a.len() == 0 || b.len() == 0 {
    } else if a.last() == b.last() {
        lemma_lcs_len_bound(a.drop_last(), b.drop_last());
    } else {
        lemma_lcs_len_bound(a.drop_last(), b);
        lemma_lcs_len_bound(a, b.drop_last());
    }
}

/// Peeling one element off a prefix.
proof fn lemma_take_unfold(a: Seq<u8>, i: int)
    requires
        1 <= i <= a.len(),
    ensures
        a.take(i).last() == a[i - 1],
        a.take(i).drop_last() == a.take(i - 1),
        a.take(i).len() == i,
{
    assert(a.take(i).drop_last() =~= a.take(i - 1));
}

/// Computes a longest common subsequence of the two patterns by dynamic
/// programming over prefix pairs, and returns it as the list of matched
/// position pairs, ascending in both patterns.
#[verifier::loop_isolation(false)]
pub fn lcs(pattern1: &Vec<u8>, pattern2: &Vec<u8>) -> (r: Vec<(usize, usize)>)
    requires
        pattern1@.len() < usize::MAX,
        pattern2@.len() < usize::MAX,
    ensures
        r@.len() == lcs_len(pattern1@, pattern2@),
        forall|k: int|
            0 <= k < r@.len()
                ==> (#[trigger] r@[k]).0 < pattern1@.len() && r@[k].1 < pattern2@.len()
                && pattern1@[r@[k].0 as int] == pattern2@[r@[k].1 as int],
        forall|k1: int, k2: int|
            #![trigger r@[k1], r@[k2]]
            0 <= k1 < k2 < r@.len() ==> r@[k1].0 < r@[k2].0 && r@[k1].1 < r@[k2].1,
{
    let n = pattern1.len();
    let m = pattern2.len();
    let ghost a = pattern1@;
    let ghost b = pattern2@;

    // The table: dp[i][j] is the longest-common-subsequence length of the
    // first i bytes of pattern1 and the first j bytes of pattern2.
    let mut dp: Vec<Vec<usize>> = Vec::new();
    let mut row0: Vec<usize> = Vec::new();
    let mut j0: usize = 0;
    while j0 <= m
        invariant
            j0 <= m + 1,
            row0@.len() == j0 as int,
            forall|c: int| 0 <= c < j0 as int ==> #[trigger] row0@[c] == lcs_len(a.take(0), b.take(c)),
        decreases m + 1 - j0,
    {
        row0.push(0);
        j0 = j0 + 1;
    }
    dp.push(row0);

    let mut i: usize = 1;
    while i <= n
        invariant
            1 <= i <= n + 1,
            dp@.len() == i as int,
            forall|ri: int| 0 <= ri < i as int ==> (#[trigger] dp@[ri])@.len() == m + 1,
            forall|ri: int, c: int|
                0 <= ri < i as int && 0 <= c <= m as int
                    ==> (#[trigger] dp@[ri]@[c]) == lcs_len(a.take(ri), b.take(c)),
        decreases n + 1 - i,
    {
        let mut row: Vec<usize> = Vec::new();
        row.push(0);
        let mut j: usize = 1;
        while j <= m
            invariant
                1 <= j <= m + 1,
                row@.len() == j as int,
                forall|c: int|
                    0 <= c < j as int ==> (#[trigger] row@[c]) == lcs_len(a.take(i as int), b.take(c)),
            decreases m + 1 - j,
        {
            let up = dp[i - 1][j];
            let left = row[j - 1];
            let diag = dp[i - 1][j - 1];
            proof {
                lemma_take_unfold(a, i as int);
                lemma_take_unfold(b, j as int);
                lemma_lcs_len_bound(a.take(i as int - 1), b.take(j as int - 1));
            }
            let val: usize;
            if pattern1[i - 1] == pattern2[j - 1] {
                val = diag + 1;
            } else {
                val = if up >= left {
                    up
                } else {
                    left
                };
            }
            assert(val == lcs_len(a.take(i as int), b.take(j as int)));
            row.push(val);
            j = j + 1;
        }
        dp.push(row);
        i = i + 1;
    }

    // Walk the table back from the full pair, collecting matches in reverse.
    let mut pairs_rev: Vec<(usize, usize)> = Vec::new();
    let mut bi: usize = n;
    let mut bj: usize = m;
    proof {
        assert(a.take(n as int) =~= a);
        assert(b.take(m as int) =~= b);
    }
    while bi > 0 && bj > 0
        invariant
            bi <= n,
            bj <= m,
            forall|k: int|
                0 <= k < pairs_rev@.len()
                    ==> bi as int <= (#[trigger] pairs_rev@[k]).0 < n as int && bj as int
                    <= pairs_rev@[k].1 < m as int,
            forall|k: int|
                0 <= k < pairs_rev@.len()
                    ==> a[(#[trigger] pairs_rev@[k]).0 as int] == b[pairs_rev@[k].1 as int],
            forall|k1: int, k2: int|
                #![trigger pairs_rev@[k1], pairs_rev@[k2]]
                0 <= k1 < k2 < pairs_rev@.len()
                    ==> pairs_rev@[k1].0 > pairs_rev@[k2].0 && pairs_rev@[k1].1
                    > pairs_rev@[k2].1,
            lcs_len(a.take(bi as int), b.take(bj as int)) + pairs_rev@.len() == lcs_len(a, b),
        decreases bi + bj,
    {
        proof {
            lemma_take_unfold(a, bi as int);
            lemma_take_unfold(b, bj as int);
        }
        if pattern1[bi - 1] == pattern2[bj - 1] {
            pairs_rev.push((bi - 1, bj - 1));
            bi = bi - 1;
            bj = bj - 1;
        } else {
            if dp[bi - 1][bj] >= dp[bi][bj - 1] {
                bi = bi - 1;
            } else {
                bj = bj - 1;
            }
        }
    }
    assert(lcs_len(a.take(bi as int), b.take(bj as int)) == 0);

    // Reverse into ascending order.
    let total = pairs_rev.len();
    let mut r: Vec<(usize, usize)> = Vec::new();
    let mut k: usize = total;
    while k > 0
        invariant
            k <= total,
            total == pairs_rev@.len(),
            r@.len() == total - k,
            forall|t: int|
                0 <= t < r@.len() ==> (#[trigger] r@[t]) == pairs_rev@[total - 1 - t],
        decreases k,
    {
        k = k - 1;
        r.push(pairs_rev[k]);
    }
    r
}

/// Whether the edit list writes position `j` of the candidate chunk.
pub open spec fn edited(edits: Seq<(u64, u8)>, j: int) -> bool {
    exists|k: int| 0 <= k < edits.len() && (#[trigger] edits[k]).0 == j
}

/// Finds the edits that turn the source chunk into the candidate chunk:
/// candidate positions left out only where the longest common subsequence
/// aligns the two chunks at the same position, so that every position the
/// result does not write agrees between the two chunks.
#[verifier::loop_isolation(false)]
pub fn find_edits(source_chunk: &Vec<u8>, candidate_chunk: &Vec<u8>) -> (r: Vec<(u64, u8)>)
    requires
        source_chunk@.len() == candidate_chunk@.len(),
        candidate_chunk@.len() < usize::MAX,
    ensures
        forall|k: int|
            0 <= k < r@.len()
                ==> (#[trigger] r@[k]).0 < candidate_chunk@.len() && r@[k].1
                == candidate_chunk@[r@[k].0 as int],
        forall|k1: int, k2: int|
            #![trigger r@[k1], r@[k2]]
            0 <= k1 < k2 < r@.len() ==> r@[k1].0 < r@[k2].0,
        forall|j: int|
            0 <= j < candidate_chunk@.len() && !edited(r@, j)
                ==> source_chunk@[j] == candidate_chunk@[j],
        source_chunk@ != candidate_chunk@ ==> r@.len() > 0,
{
    let pairs = lcs(source_chunk, candidate_chunk);
    let len = candidate_chunk.len();
    let mut r: Vec<(u64, u8)> = Vec::new();
    let mut c: usize = 0;
    let mut j: usize = 0;
    while j < len
        invariant
            j <= len,
            c <= pairs@.len(),
            forall|k: int| 0 <= k < c as int ==> (#[trigger] pairs@[k]).1 < j as int,
            c < pairs@.len() ==> pairs@[c as int].1 >= j as int,
            forall|k: int|
                0 <= k < r@.len() ==> (#[trigger] r@[k]).0 < j as int && r@[k].1
                    == candidate_chunk@[r@[k].0 as int],
            forall|k1: int, k2: int|
                #![trigger r@[k1], r@[k2]]
                0 <= k1 < k2 < r@.len() ==> r@[k1].0 < r@[k2].0,
            forall|t: int|
                0 <= t < j as int && !edited(r@, t) ==> source_chunk@[t] == candidate_chunk@[t],
        decreases len - j,
    {
        let ghost r_old = r@;
        let mut skip = false;
        if c < pairs.len() {
            let p = pairs[c];
            if p.1 == j {
                c = c + 1;
                if p.0 == j {
                    skip = true;
                    assert(source_chunk@[j as int] == candidate_chunk@[j as int]);
                }
            }
        }
        if !skip {
            r.push((j as u64, candidate_chunk[j]));
            assert(r@[r@.len() - 1].0 == j as int);
            assert(edited(r@, j as int));
        }
        proof {
            assert forall|t: int|
                0 <= t < j as int + 1 && !edited(r@, t) implies source_chunk@[t]
                == candidate_chunk@[t] by {
                if t < j as int {
                    if edited(r_old, t) {
                        let k = choose|k: int|
                            0 <= k < r_old.len() && (#[trigger] r_old[k]).0 == t;
                        assert(r@[k] == r_old[k]);
                        assert(edited(r@, t));
                    }
                }
            }
        }
        j = j + 1;
    }
    if r.len() == 0 {
        proof {
            assert forall|t: int| 0 <= t < candidate_chunk@.len() implies source_chunk@[t]
                == candidate_chunk@[t] by {
                assert(!edited(r@, t));
            }
            assert(source_chunk@ =~= candidate_chunk@);
        }
    }
    r
}

/// Compares two byte vectors for equality.
fn bytes_eq(x: &Vec<u8>, y: &Vec<u8>) -> (r: bool)
    ensures
        r == (x@ == y@),
{
    if x.len() != y.len() {
        return false;
    }
    let mut i: usize = 0;
    while i < x.len()
        invariant
            x@.len() == y@.len(),
            i <= x@.len(),
            forall|t: int| 0 <= t < i as int ==> x@[t] == y@[t],
        decreases x@.len() - i,
    {
        if x[i] != y[i] {
            return false;
        }
        i = i + 1;
    }
    proof {
        assert(x@ =~= y@);
    }
    true
}

/// Copies the bytes of `v` between `start` and `end` into a fresh vector.
fn subrange_vec(v: &Vec<u8>, start: usize, end: usize) -> (r: Vec<u8>)
    requires
        start <= end <= v@.len(),
    ensures
        r@ == v@.subrange(start as int, end as int),
{
    let mut r: Vec<u8> = Vec::new();
    let mut i: usize = start;
    while i < end
        invariant
            start <= i <= end <= v@.len(),
            r@ == v@.subrange(start as int, i as int),
        decreases end - i,
    {
        r.push(v[i]);
        i = i + 1;
        proof {
            assert(r@ =~= v@.subrange(start as int, i as int));
        }
    }
    r
}

/// Appends the relative edits of one chunk as absolute write records.
fn append_edits(records: &mut Vec<EditRecord>, edits: &Vec<(u64, u8)>, base: u64)
    requires
        forall|k: int|
            0 <= k < edits@.len() ==> base + (#[trigger] edits@[k]).0 <= u64::MAX,
    ensures
        final(records)@.len() == old(records)@.len() + edits@.len(),
        forall|k: int|
            0 <= k < old(records)@.len() ==> (#[trigger] final(records)@[k]) == old(records)@[k],
        forall|k: int|
            0 <= k < edits@.len()
                ==> (#[trigger] final(records)@[old(records)@.len() + k]) == (EditRecord {
                offset: (base + edits@[k].0) as u64,
                value: edits@[k].1,
                kind: EditKind::Write,
            }),
{
    let mut e: usize = 0;
    while e < edits.len()
        invariant
            e <= edits@.len(),
            forall|k: int|
                0 <= k < edits@.len() ==> base + (#[trigger] edits@[k]).0 <= u64::MAX,
            records@.len() == old(records)@.len() + e as int,
            forall|k: int|
                0 <= k < old(records)@.len() ==> (#[trigger] records@[k]) == old(records)@[k],
            forall|k: int|
                0 <= k < e as int
                    ==> (#[trigger] records@[old(records)@.len() + k]) == (EditRecord {
                    offset: (base + edits@[k].0) as u64,
                    value: edits@[k].1,
                    kind: EditKind::Write,
                }),
        decreases edits@.len() - e,
    {
        let ed = edits[e];
        records.push(EditRecord { offset: base + ed.0, value: ed.1, kind: EditKind::Write });
        e = e + 1;
    }
}

/// Streams source and candidate in fixed-size chunks in lock-step, finds the
/// edits of each differing chunk, appends the growth writes or the single
/// truncate record when the lengths differ, and returns the delta stream:
/// correct for the pair, with an empty record sequence exactly when the two
/// inputs are equal.
#[verifier::loop_isolation(false)]
pub fn diff(source: &Vec<u8>, candidate: &Vec<u8>) -> (r: DeltaStream)
    ensures
        delta_correct(source@, candidate@, r.total_length, r.records@),
        r.total_length == candidate@.len(),
        (r.records@.len() == 0 <==> source@ == candidate@),
{
    let src_len = source.len();
    let cand_len = candidate.len();
    let paired = if src_len < cand_len {
        src_len
    } else {
        cand_len
    };
    let mut records: Vec<EditRecord> = Vec::new();
    let mut chunk_start: usize = 0;
    while chunk_start < paired
        invariant
            chunk_start <= paired,
            forall|k1: int, k2: int|
                0 <= k1 < k2 < records@.len()
                    ==> #[trigger] records@[k1].offset < #[trigger] records@[k2].offset,
            forall|k: int|
                0 <= k < records@.len() ==> (#[trigger] records@[k].kind) is Write,
            forall|k: int|
                0 <= k < records@.len() ==> #[trigger] records@[k].offset < chunk_start as int,
            forall|k: int|
                0 <= k < records@.len() && (#[trigger] records@[k].kind) is Write
                    ==> records@[k].value == candidate@[records@[k].offset as int],
            forall|t: int|
                0 <= t < chunk_start as int && !written(records@, t)
                    ==> source@[t] == candidate@[t],
            source@ == candidate@ ==> records@.len() == 0,
        decreases paired - chunk_start,
    {
        let chunk_end = if paired - chunk_start < CHUNK_SIZE {
            paired
        } else {
            chunk_start + CHUNK_SIZE
        };
        let sc = subrange_vec(source, chunk_start, chunk_end);
        let cc = subrange_vec(candidate, chunk_start, chunk_end);
        if !bytes_eq(&sc, &cc) {
            let ghost records0 = records@;
            let edits = find_edits(&sc, &cc);
            append_edits(&mut records, &edits, chunk_start as u64);
            proof {
                assert(source@ != candidate@);
                // Every record is either an old one or a translated edit.
                assert forall|k: int|
                    0 <= k < records@.len() implies (#[trigger] records@[k].kind) is Write
                    && records@[k].offset < chunk_end as int && records@[k].value
                    == candidate@[records@[k].offset as int] by {
                    if k < records0.len() {
                        assert(records@[k] == records0[k]);
                    } else {
                        let e = k - records0.len();
                        assert(records@[records0.len() + e] == (EditRecord {
                            offset: (chunk_start as u64 + edits@[e].0) as u64,
                            value: edits@[e].1,
                            kind: EditKind::Write,
                        }));
                        assert(edits@[e].0 < cc@.len());
                        assert(edits@[e].1 == cc@[edits@[e].0 as int]);
                        assert(cc@[edits@[e].0 as int] == candidate@[chunk_start + edits@[e].0]);
                    }
                }
                assert forall|k: int|
                    0 <= k < records@.len() implies #[trigger] records@[k].offset
                    < chunk_end as int by {
                    assert(records@[k].kind is Write);
                }
                assert forall|k1: int, k2: int|
                    0 <= k1 < k2 < records@.len() implies #[trigger] records@[k1].offset
                    < #[trigger] records@[k2].offset by {
                    if k2 < records0.len() {
                    } else if k1 < records0.len() {
                        assert(records@[k1] == records0[k1]);
                        assert(records0[k1].offset < chunk_start as int);
                        let e2 = k2 - records0.len();
                        assert(records@[records0.len() + e2] == (EditRecord {
                            offset: (chunk_start as u64 + edits@[e2].0) as u64,
                            value: edits@[e2].1,
                            kind: EditKind::Write,
                        }));
                    } else {
                        let e1 = k1 - records0.len();
                        let e2 = k2 - records0.len();
                        assert(records@[records0.len() + e1] == (EditRecord {
                            offset: (chunk_start as u64 + edits@[e1].0) as u64,
                            value: edits@[e1].1,
                            kind: EditKind::Write,
                        }));
                        assert(records@[records0.len() + e2] == (EditRecord {
                            offset: (chunk_start as u64 + edits@[e2].0) as u64,
                            value: edits@[e2].1,
                            kind: EditKind::Write,
                        }));
                        assert(edits@[e1].0 < edits@[e2].0);
                    }
                }
                assert forall|t: int|
                    0 <= t < chunk_end as int && !written(records@, t) implies source@[t]
                    == candidate@[t] by {
                    if t < chunk_start as int {
                        if written(records0, t) {
                            let k = choose|k: int|
                                0 <= k < records0.len() && (#[trigger] records0[k].kind) is Write
                                    && records0[k].offset == t;
                            assert(records@[k] == records0[k]);
                            lemma_written_witness(records@, t, k);
                        }
                    } else {
                        let rel = t - chunk_start as int;
                        if edited(edits@, rel) {
                            let k = choose|k: int|
                                0 <= k < edits@.len() && (#[trigger] edits@[k]).0 == rel;
                            assert(records@[records0.len() + k] == (EditRecord {
                                offset: (chunk_start as u64 + edits@[k].0) as u64,
                                value: edits@[k].1,
                                kind: EditKind::Write,
                            }));
                            lemma_written_witness(records@, t, records0.len() as int + k);
                        } else {
                            assert(sc@[rel] == cc@[rel]);
                            assert(sc@[rel] == source@[t]);
                            assert(cc@[rel] == candidate@[t]);
                        }
                    }
                }
            }
        } else {
            proof {
                assert forall|t: int|
                    0 <= t < chunk_end as int && !written(records@, t) implies source@[t]
                    == candidate@[t] by {
                    if chunk_start as int <= t {
                        let rel = t - chunk_start as int;
                        assert(sc@[rel] == cc@[rel]);
                        assert(sc@[rel] == source@[t]);
                        assert(cc@[rel] == candidate@[t]);
                    }
                }
            }
        }
        chunk_start = chunk_end;
    }

    let total_length = cand_len as u64;
    if cand_len > src_len {
        // Growth: every candidate byte beyond the source's end, verbatim.
        let mut g: usize = src_len;
        while g < cand_len
            invariant
                src_len <= g <= cand_len,
                paired == src_len,
                forall|k1: int, k2: int|
                    0 <= k1 < k2 < records@.len()
                        ==> #[trigger] records@[k1].offset < #[trigger] records@[k2].offset,
                forall|k: int|
                    0 <= k < records@.len() ==> (#[trigger] records@[k].kind) is Write,
                forall|k: int|
                    0 <= k < records@.len() ==> #[trigger] records@[k].offset < g as int,
                forall|k: int|
                    0 <= k < records@.len() && (#[trigger] records@[k].kind) is Write
                        ==> records@[k].value == candidate@[records@[k].offset as int],
                forall|t: int|
                    0 <= t < src_len as int && !written(records@, t)
                        ==> source@[t] == candidate@[t],
                forall|t: int| src_len as int <= t < g as int ==> written(records@, t),
                records@.len() > 0 || g == src_len,
            decreases cand_len - g,
        {
            let ghost records0 = records@;
            records.push(EditRecord { offset: g as u64, value: candidate[g], kind: EditKind::Write });
            proof {
                assert forall|t: int|
                    src_len as int <= t < g as int + 1 implies written(records@, t) by {
                    if t < g as int {
                        assert(written(records0, t));
                        let k = choose|k: int|
                            0 <= k < records0.len() && (#[trigger] records0[k].kind) is Write
                                && records0[k].offset == t;
                        assert(records@[k] == records0[k]);
                        lemma_written_witness(records@, t, k);
                    } else {
                        lemma_written_witness(records@, t, records@.len() as int - 1);
                    }
                }
                assert forall|t: int|
                    0 <= t < src_len as int && !written(records@, t) implies source@[t]
                    == candidate@[t] by {
                    if written(records0, t) {
                        let k = choose|k: int|
                            0 <= k < records0.len() && (#[trigger] records0[k].kind) is Write
                                && records0[k].offset == t;
                        assert(records@[k] == records0[k]);
                        lemma_written_witness(records@, t, k);
                    }
                }
            }
            g = g + 1;
        }
        proof {
            lemma_no_truncate(total_length, records@);
            assert(records@.len() > 0);
            assert(source@ != candidate@) by {
                assert(source@.len() != candidate@.len());
            }
        }
    } else if cand_len < src_len {
        // Truncation: reconstruction stops at the candidate's length.
        let ghost records0 = records@;
        records.push(
            EditRecord { offset: cand_len as u64, value: 0, kind: EditKind::Truncate },
        );
        proof {
            assert(records@[records@.len() - 1].kind is Truncate);
            assert forall|k: int|
                0 <= k < records@.len() && (#[trigger] records@[k].kind) is Truncate implies k
                == records@.len() - 1 by {
                if k < records0.len() {
                    assert(records@[k] == records0[k]);
                }
            }
            assert(stream_valid(total_length, records@));
            lemma_truncate_last(total_length, records@);
            assert forall|t: int|
                0 <= t < cand_len as int && !written(records@, t) implies source@[t]
                == candidate@[t] by {
                if written(records0, t) {
                    let k = choose|k: int|
                        0 <= k < records0.len() && (#[trigger] records0[k].kind) is Write
                            && records0[k].offset == t;
                    assert(records@[k] == records0[k]);
                    lemma_written_witness(records@, t, k);
                }
            }
            assert(source@ != candidate@) by {
                assert(source@.len() != candidate@.len());
            }
        }
    } else {
        proof {
            lemma_no_truncate(total_length, records@);
            if records@.len() == 0 {
                assert forall|t: int| 0 <= t < source@.len() implies source@[t]
                    == candidate@[t] by {
                    assert(!written(records@, t));
                }
                assert(source@ =~= candidate@);
            }
        }
    }
    DeltaStream { total_length, records }
}

/// The encode operation: computes the delta stream for the pair and the
/// candidate's integrity digest, and packs both into a patch descriptor.
pub fn encode(source: &Vec<u8>, candidate: &Vec<u8>) -> (r: PatchDescriptor)
    ensures
        delta_correct(source@, candidate@, r.stream.total_length, r.stream.records@),
        r.stream.total_length == candidate@.len(),
        (r.stream.records@.len() == 0 <==> source@ == candidate@),
        r.digest matches Some(d) && d@ == blake3_of(candidate@),
{
    let stream = diff(source, candidate);
    let digest = compute_digest(candidate);
    PatchDescriptor { stream, digest: Some(digest) }
}

} // verus!
