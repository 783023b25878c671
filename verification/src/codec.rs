//! The wire form of a delta stream and of a digest: one text line per
//! record, `hexadecimal offset, hexadecimal value, kind flag`, the first
//! line carrying the target length in place of an offset; and the digest as
//! lowercase hexadecimal.  Serializing and parsing are exact inverses.

use vstd::prelude::*;

use crate::delta::{DeltaStream, EditKind, EditRecord};

verus! {

/// Whether `c` is a lowercase hexadecimal digit.
pub open spec fn is_hex_digit(c: u8) -> bool {
    (48 <= c <= 57) || (97 <= c <= 102)
}

/// The numeric value of a hexadecimal digit.
pub open spec fn hex_val(c: u8) -> nat {
    if c <= 57 {
        (c - 48) as nat
    } else {
        (c - 87) as nat
    }
}

/// The lowercase hexadecimal digit for a value below 16.
pub open spec fn hex_digit(d: nat) -> u8 {
    if d < 10 {
        (d + 48) as u8
    } else {
        (d + 87) as u8
    }
}

/// The shortest lowercase hexadecimal text of `n`, most significant first.
pub open spec fn hex_rep(n: nat) -> Seq<u8>
    decreases n,
{
    if n < 16 {
        seq![hex_digit(n)]
    } else {
        hex_rep(n / 16).push(hex_digit(n % 16))
    }
}

/// The flag byte of a record kind.
pub open spec fn kind_flag(k: EditKind) -> u8 {
    if k is Write {
        48
    } else {
        49
    }
}

/// One serialized line: offset, value and flag, comma separated, newline
/// terminated.
pub open spec fn line_rep(o: nat, v: nat, f: u8) -> Seq<u8> {
    hex_rep(o) + seq![44u8] + hex_rep(v) + seq![44u8, f, 10u8]
}

/// The serialized line of one edit record.
pub open spec fn record_line(r: EditRecord) -> Seq<u8> {
    line_rep(r.offset as nat, r.value as nat, kind_flag(r.kind))
}

/// The serialized lines of a record sequence, in order.
pub open spec fn records_rep(records: Seq<EditRecord>) -> Seq<u8>
    decreases records.len(),
{
    if records.len() == 0 {
        Seq::empty()
    } else {
        record_line(records[0]) + records_rep(records.drop_first())
    }
}

/// The full serialized text: empty for an empty record sequence, else a
/// header line carrying the target length followed by the record lines.
pub open spec fn serialize_spec(total_length: u64, records: Seq<EditRecord>) -> Seq<u8> {
    if records.len() == 0 {
        Seq::empty()
    } else {
        line_rep(total_length as nat, 0, 48) + records_rep(records)
    }
}

/// Serialization distributes over concatenation of record sequences.
proof fn lemma_records_rep_concat(u: Seq<EditRecord>, v: Seq<EditRecord>)
    ensures
        records_rep(u + v) == records_rep(u) + records_rep(v),
    decreases u.len(),
{
    if u.len() == 0 {
        assert(u + v =~= v);
        assert(records_rep(u) + records_rep(v) =~= records_rep(v));
    } else {
        assert((u + v)[0] == u[0]);
        assert((u + v).drop_first() =~= u.drop_first() + v);
        lemma_records_rep_concat(u.drop_first(), v);
        assert(record_line(u[0]) + (records_rep(u.drop_first()) + records_rep(v)) =~= (record_line(
            u[0],
        ) + records_rep(u.drop_first())) + records_rep(v));
    }
}

/// The length of the maximal run of hexadecimal digits at the front.
pub open spec fn digit_run(t: Seq<u8>) -> nat
    decreases t.len(),
{
    if t.len() > 0 && is_hex_digit(t[0]) {
        1 + digit_run(t.drop_first())
    } else {
        0
    }
}

/// The numeric value of a digit string, most significant first.
pub open spec fn hex_value(digits: Seq<u8>) -> nat
    decreases digits.len(),
{
    if digits.len() == 0 {
        0
    } else {
        hex_value(digits.drop_last()) * 16 + hex_val(digits.last())
    }
}

/// Parses the canonical hexadecimal number at the front of the text: a
/// nonempty digit run, without a leading zero unless the number is zero
/// itself; yields the value and the rest of the text.
pub open spec fn parse_hex(t: Seq<u8>) -> Option<(nat, Seq<u8>)> {
    let k = digit_run(t);
    if k == 0 {
        None
    } else if t[0] == 48 && k > 1 {
        None
    } else {
        Some((hex_value(t.take(k as int)), t.skip(k as int)))
    }
}

/// Parses one line: two numbers and a flag byte, comma separated, newline
/// terminated; yields the triple and the rest of the text.
pub open spec fn parse_line(t: Seq<u8>) -> Option<((nat, nat, u8), Seq<u8>)> {
    match parse_hex(t) {
        Option::None => None,
        Option::Some((o, r1)) => if r1.len() == 0 || r1[0] != 44 {
            None
        } else {
            match parse_hex(r1.drop_first()) {
                Option::None => None,
                Option::Some((v, r2)) => if r2.len() >= 3 && r2[0] == 44 && (r2[1] == 48 || r2[1]
                    == 49) && r2[2] == 10 {
                    Some(((o, v, r2[1]), r2.skip(3)))
                } else {
                    None
                },
            }
        },
    }
}

/// A digit run never runs past the end of the text.
proof fn lemma_digit_run_le(t: Seq<u8>)
    ensures
        digit_run(t) <= t.len(),
    decreases t.len(),
{
    if t.len() > 0 && is_hex_digit(t[0]) {
        lemma_digit_run_le(t.drop_first());
    }
}

/// A parsed line consumes at least one byte of the text.
pub proof fn lemma_parse_line_consumes(t: Seq<u8>)
    ensures
        parse_line(t) matches Some(x) ==> x.1.len() < t.len(),
{
    lemma_digit_run_le(t);
    if parse_line(t) is Some {
        let k1 = digit_run(t);
        let r1 = t.skip(k1 as int);
        lemma_digit_run_le(r1.drop_first());
    }
}

/// Parses the record lines that make up the rest of a serialized stream.
pub open spec fn parse_records(t: Seq<u8>) -> Option<Seq<EditRecord>>
    decreases t.len(),
{
    if t.len() == 0 {
        Some(Seq::empty())
    } else {
        match parse_line(t) {
            Option::None => None,
            Option::Some(((o, v, f), rest)) => if o > u64::MAX || v > 255 {
                None
            } else {
                proof {
                    lemma_parse_line_consumes(t);
                }
                match parse_records(rest) {
                    Option::None => None,
                    Option::Some(recs) => Some(
                        seq![
                            EditRecord {
                                offset: o as u64,
                                value: v as u8,
                                kind: if f == 48 {
                                    EditKind::Write
                                } else {
                                    EditKind::Truncate
                                },
                            },
                        ] + recs,
                    ),
                }
            },
        }
    }
}

/// Parses a full serialized stream: the header line carrying the target
/// length, then the record lines, which must use the text up exactly.
pub open spec fn parse_stream(t: Seq<u8>) -> Option<(u64, Seq<EditRecord>)> {
    match parse_line(t) {
        Option::None => None,
        Option::Some(((total, v, f), rest)) => if total > u64::MAX || v != 0 || f != 48 {
            None
        } else {
            match parse_records(rest) {
                Option::None => None,
                Option::Some(recs) => Some((total as u64, recs)),
            }
        },
    }
}

/// The hexadecimal text of a number is made of hexadecimal digits and
/// starts with a zero digit only for the number zero.
proof fn lemma_hex_rep_wf(n: nat)
    ensures
        hex_rep(n).len() >= 1,
        forall|i: int| 0 <= i < hex_rep(n).len() ==> is_hex_digit(#[trigger] hex_rep(n)[i]),
        (hex_rep(n)[0] == 48 <==> n == 0),
    decreases n,
{
    if n < 16 {
    } else {
        lemma_hex_rep_wf(n / 16);
        assert forall|i: int| 0 <= i < hex_rep(n).len() implies is_hex_digit(
            #[trigger] hex_rep(n)[i],
        ) by {
            if i < hex_rep(n / 16).len() {
                assert(hex_rep(n)[i] == hex_rep(n / 16)[i]);
            }
        }
    }
}

/// Reading back the hexadecimal text of a number yields the number.
proof fn lemma_hex_value_rep(n: nat)
    ensures
        hex_value(hex_rep(n)) == n,
    decreases n,
{
    assert(hex_rep(n).len() >= 1);
    assert(hex_value(hex_rep(n)) == hex_value(hex_rep(n).drop_last()) * 16 + hex_val(
        hex_rep(n).last(),
    ));
    if n < 16 {
        assert(hex_rep(n).drop_last() =~= Seq::<u8>::empty());
        assert(hex_value(hex_rep(n).drop_last()) == 0);
        assert(hex_rep(n).last() == hex_digit(n));
        assert(hex_val(hex_digit(n)) == n);
    } else {
        lemma_hex_value_rep(n / 16);
        assert(hex_rep(n).drop_last() =~= hex_rep(n / 16));
        assert(hex_value(hex_rep(n).drop_last()) == n / 16);
        assert(hex_rep(n).last() == hex_digit(n % 16));
        assert(hex_val(hex_digit(n % 16)) == n % 16);
        assert(n == (n / 16) * 16 + n % 16) by (nonlinear_arith);
    }
}

/// The digit run of a digit string followed by a non-digit covers exactly
/// the digit string.
proof fn lemma_digit_run_concat(d: Seq<u8>, rest: Seq<u8>)
    requires
        forall|i: int| 0 <= i < d.len() ==> is_hex_digit(#[trigger] d[i]),
        rest.len() == 0 || !is_hex_digit(rest[0]),
    ensures
        digit_run(d + rest) == d.len(),
    decreases d.len(),
{
    if d.len() == 0 {
        assert(d + rest =~= rest);
    } else {
        assert((d + rest)[0] == d[0]);
        assert((d + rest).drop_first() =~= d.drop_first() + rest);
        lemma_digit_run_concat(d.drop_first(), rest);
    }
}

/// Parsing the hexadecimal text of a number followed by a non-digit yields
/// the number and that rest.
proof fn lemma_parse_hex_rep(n: nat, rest: Seq<u8>)
    requires
        rest.len() == 0 || !is_hex_digit(rest[0]),
    ensures
        parse_hex(hex_rep(n) + rest) == Some((n, rest)),
{
    lemma_hex_rep_wf(n);
    lemma_digit_run_concat(hex_rep(n), rest);
    let t = hex_rep(n) + rest;
    let k = digit_run(t);
    assert(k == hex_rep(n).len());
    assert(t[0] == hex_rep(n)[0]);
    assert(t.take(k as int) =~= hex_rep(n));
    lemma_hex_value_rep(n);
    assert(t.skip(k as int) =~= rest);
}

/// Parsing a serialized line yields its three fields and the rest.
proof fn lemma_parse_line_rep(o: nat, v: nat, f: u8, rest: Seq<u8>)
    requires
        f == 48 || f == 49,
    ensures
        parse_line(line_rep(o, v, f) + rest) == Some(((o, v, f), rest)),
{
    let t = line_rep(o, v, f) + rest;
    let tail2 = seq![44u8, f, 10u8] + rest;
    let tail1 = seq![44u8] + hex_rep(v) + tail2;
    assert(t =~= hex_rep(o) + tail1);
    assert(tail1[0] == 44);
    assert(!is_hex_digit(44));
    lemma_parse_hex_rep(o, tail1);
    assert(tail1.drop_first() =~= hex_rep(v) + tail2);
    assert(tail2[0] == 44);
    lemma_parse_hex_rep(v, tail2);
    assert(tail2.len() >= 3);
    assert(tail2[1] == f);
    assert(tail2[2] == 10);
    assert(tail2.skip(3) =~= rest);
}

/// Parsing the serialized lines of a record sequence yields the sequence.
proof fn lemma_parse_records_rep(s: Seq<EditRecord>)
    ensures
        parse_records(records_rep(s)) == Some(s),
    decreases s.len(),
{
    if s.len() == 0 {
        assert(s =~= Seq::<EditRecord>::empty());
    } else {
        let r0 = s[0];
        let rest_rep = records_rep(s.drop_first());
        lemma_hex_rep_wf(r0.offset as nat);
        lemma_parse_line_rep(r0.offset as nat, r0.value as nat, kind_flag(r0.kind), rest_rep);
        lemma_parse_records_rep(s.drop_first());
        assert(records_rep(s).len() > 0);
        let rec = EditRecord {
            offset: (r0.offset as nat) as u64,
            value: (r0.value as nat) as u8,
            kind: if kind_flag(r0.kind) == 48 {
                EditKind::Write
            } else {
                EditKind::Truncate
            },
        };
        assert(rec == r0);
        assert(seq![r0] + s.drop_first() =~= s);
    }
}

/// The wire form is lossless: parsing the serialized text of a nonempty
/// stream yields the target length and the records back, exactly.
pub proof fn lemma_parse_serialize(total_length: u64, records: Seq<EditRecord>)
    requires
        records.len() > 0,
    ensures
        parse_stream(serialize_spec(total_length, records)) == Some((total_length, records)),
{
    lemma_parse_line_rep(total_length as nat, 0, 48, records_rep(records));
    lemma_parse_records_rep(records);
}

/// Whether `c` is a lowercase hexadecimal digit.
fn is_hex_byte(c: u8) -> (r: bool)
    ensures
        r == is_hex_digit(c),
{
    (c >= 48 && c <= 57) || (c >= 97 && c <= 102)
}

/// The numeric value of a hexadecimal digit.
fn hex_val_byte(c: u8) -> (r: u8)
    requires
        is_hex_digit(c),
    ensures
        r as nat == hex_val(c),
        r < 16,
{
    if c <= 57 {
        c - 48
    } else {
        c - 87
    }
}

/// Parses the canonical hexadecimal number starting at `pos`, returning its
/// value and the position after its digits; rejects what the text grammar
/// rejects, and a number too large for its field.
fn parse_hex_at(text: &Vec<u8>, pos: usize) -> (r: Option<(u64, usize)>)
    requires
        pos <= text@.len(),
    ensures
        r matches Some(vp) ==> pos < vp.1 <= text@.len() && parse_hex(text@.skip(pos as int))
            == Some((vp.0 as nat, text@.skip(vp.1 as int))),
        r is None ==> (parse_hex(text@.skip(pos as int)) matches Some(x) ==> x.0 > u64::MAX),
{
    let ghost t = text@.skip(pos as int);
    let len = text.len();
    let mut p = pos;
    let mut val: u64 = 0;
    let mut overflow = false;
    loop
        invariant
            pos <= p <= len,
            len == text@.len(),
            t == text@.skip(pos as int),
            digit_run(t) == (p - pos) + digit_run(text@.skip(p as int)),
            forall|i: int| 0 <= i < p - pos ==> is_hex_digit(#[trigger] t[i]),
            !overflow ==> val as nat == hex_value(t.take(p - pos)),
            overflow ==> hex_value(t.take(p - pos)) > u64::MAX,
        ensures
            pos <= p <= len,
            digit_run(t) == p - pos,
            forall|i: int| 0 <= i < p - pos ==> is_hex_digit(#[trigger] t[i]),
            !overflow ==> val as nat == hex_value(t.take(p - pos)),
            overflow ==> hex_value(t.take(p - pos)) > u64::MAX,
        decreases len - p,
    {
        proof {
            assert(text@.skip(p as int).len() == len - p);
            if p < len {
                assert(text@.skip(p as int)[0] == text@[p as int]);
            }
        }
        if p >= len {
            assert(digit_run(text@.skip(p as int)) == 0);
            break;
        }
        let c = text[p];
        if !is_hex_byte(c) {
            assert(digit_run(text@.skip(p as int)) == 0);
            break;
        }
        assert(digit_run(text@.skip(p as int)) == 1 + digit_run(text@.skip(p as int + 1))) by {
            assert(text@.skip(p as int).drop_first() =~= text@.skip(p as int + 1));
        }
        let d = hex_val_byte(c);
        proof {
            assert(t.take(p - pos + 1).drop_last() =~= t.take(p - pos));
            assert(t.take(p - pos + 1).last() == t[p - pos]);
            assert(t[p - pos] == c);
            assert(hex_value(t.take(p - pos + 1)) == hex_value(t.take(p - pos)) * 16 + hex_val(c));
        }
        if !overflow {
            if val > (u64::MAX - d as u64) / 16 {
                overflow = true;
                proof {
                    assert((val as nat) * 16 + hex_val(c) > u64::MAX) by (nonlinear_arith)
                        requires
                            val as nat > (u64::MAX - d as u64) as nat / 16,
                            hex_val(c) == d as nat,
                            d < 16,
                    ;
                }
            } else {
                proof {
                    assert((val as nat) * 16 + d as nat <= u64::MAX) by (nonlinear_arith)
                        requires
                            val as nat <= (u64::MAX - d as u64) as nat / 16,
                            d < 16,
                    ;
                }
                val = val * 16 + d as u64;
            }
        } else {
            proof {
                assert(hex_value(t.take(p - pos)) * 16 + hex_val(c) > u64::MAX)
                    by (nonlinear_arith)
                    requires
                        hex_value(t.take(p - pos)) > u64::MAX,
                        hex_val(c) >= 0,
                ;
            }
        }
        p = p + 1;
    }
    if p == pos {
        assert(parse_hex(t) is None);
        return None;
    }
    assert(t[0] == text@[pos as int]);
    if text[pos] == 48 && p - pos > 1 {
        assert(parse_hex(t) is None);
        return None;
    }
    if overflow {
        return None;
    }
    proof {
        assert(t.skip(p - pos) =~= text@.skip(p as int));
    }
    Some((val, p))
}

/// Parses one serialized line starting at `pos`: offset, value, flag and
/// the position after the line's newline.
fn parse_line_at(text: &Vec<u8>, pos: usize) -> (r: Option<(u64, u64, u8, usize)>)
    requires
        pos <= text@.len(),
    ensures
        r matches Some(x) ==> pos < x.3 <= text@.len() && (x.2 == 48 || x.2 == 49) && parse_line(
            text@.skip(pos as int),
        ) == Some(((x.0 as nat, x.1 as nat, x.2), text@.skip(x.3 as int))),
        r is None ==> (parse_line(text@.skip(pos as int)) matches Some(y) ==> (y.0.0 > u64::MAX
            || y.0.1 > u64::MAX)),
{
    let ghost t = text@.skip(pos as int);
    let o_res = parse_hex_at(text, pos);
    match o_res {
        None => None,
        Some((o, p1)) => {
            let ghost r1 = text@.skip(p1 as int);
            if p1 >= text.len() {
                return None;
            }
            assert(r1[0] == text@[p1 as int]);
            if text[p1] != 44 {
                return None;
            }
            proof {
                assert(r1.drop_first() =~= text@.skip(p1 as int + 1));
            }
            let v_res = parse_hex_at(text, p1 + 1);
            match v_res {
                None => None,
                Some((v, p2)) => {
                    let ghost r2 = text@.skip(p2 as int);
                    if text.len() - p2 < 3 {
                        assert(r2.len() < 3);
                        return None;
                    }
                    proof {
                        assert(r2[0] == text@[p2 as int]);
                        assert(r2[1] == text@[p2 as int + 1]);
                        assert(r2[2] == text@[p2 as int + 2]);
                    }
                    let a = text[p2];
                    let b = text[p2 + 1];
                    let c = text[p2 + 2];
                    if a == 44 && (b == 48 || b == 49) && c == 10 {
                        proof {
                            assert(r2.skip(3) =~= text@.skip(p2 as int + 3));
                        }
                        Some((o, v, b, p2 + 3))
                    } else {
                        None
                    }
                },
            }
        },
    }
}

/// What a serialized delta text denotes: either the absence of differences
/// (an empty text) or a delta stream.
pub enum ParsedDelta {
    NoDifferences,
    Stream(DeltaStream),
}

/// The serialized text does not parse as a delta stream.
#[derive(Debug, PartialEq, Eq, Structural)]
pub struct MalformedDelta;

/// Parses a serialized delta text, exactly: the empty text denotes "no
/// differences", any other text must parse as a header line followed by
/// record lines.
#[verifier::loop_isolation(false)]
pub fn deserialize(text: &Vec<u8>) -> (r: Result<ParsedDelta, MalformedDelta>)
    ensures
        match r {
            Ok(pd) => match pd {
                ParsedDelta::NoDifferences => text@.len() == 0,
                ParsedDelta::Stream(s) => text@.len() > 0 && parse_stream(text@) == Some(
                    (s.total_length, s.records@),
                ),
            },
            Err(_) => text@.len() > 0 && parse_stream(text@) is None,
        },
{
    if text.len() == 0 {
        return Ok(ParsedDelta::NoDifferences);
    }
    proof {
        assert(text@.skip(0) =~= text@);
    }
    let header = parse_line_at(text, 0);
    match header {
        None => Err(MalformedDelta),
        Some((total, v, f, start)) => {
            if !(v == 0 && f == 48) {
                return Err(MalformedDelta);
            }
            let mut records: Vec<EditRecord> = Vec::new();
            let mut pos = start;
            let ghost pos0 = start as int;
            proof {
                assert forall|tail: Seq<EditRecord>|
                    parse_records(text@.skip(pos0)) == Some(tail) implies parse_records(
                    text@.skip(pos0),
                ) == Some(records@ + tail) by {
                    assert(records@ + tail =~= tail);
                }
            }
            while pos < text.len()
                invariant
                    start <= pos <= text@.len(),
                    forall|tail: Seq<EditRecord>|
                        parse_records(text@.skip(pos as int)) == Some(tail) ==> parse_records(
                            text@.skip(pos0),
                        ) == Some(records@ + tail),
                    parse_records(text@.skip(pos as int)) is None ==> parse_records(
                        text@.skip(pos0),
                    ) is None,
                decreases text@.len() - pos,
            {
                let ghost records_old = records@;
                let line = parse_line_at(text, pos);
                match line {
                    None => {
                        proof {
                            assert(text@.skip(pos as int).len() > 0);
                            assert(parse_records(text@.skip(pos as int)) is None);
                        }
                        return Err(MalformedDelta);
                    },
                    Some((o, v2, f2, npos)) => {
                        proof {
                            assert(text@.skip(pos as int).len() > 0);
                        }
                        if v2 > 255 {
                            proof {
                                assert(parse_records(text@.skip(pos as int)) is None);
                            }
                            return Err(MalformedDelta);
                        }
                        let kind = if f2 == 48 {
                            EditKind::Write
                        } else {
                            EditKind::Truncate
                        };
                        let rec = EditRecord { offset: o, value: v2 as u8, kind };
                        records.push(rec);
                        proof {
                            let trest = text@.skip(npos as int);
                            assert forall|tail: Seq<EditRecord>|
                                parse_records(trest) == Some(tail) implies parse_records(
                                text@.skip(pos0),
                            ) == Some(records@ + tail) by {
                                assert(parse_records(text@.skip(pos as int)) == Some(
                                    seq![rec] + tail,
                                ));
                                assert(records_old + (seq![rec] + tail) =~= records@ + tail);
                            }
                            if parse_records(trest) is None {
                                assert(parse_records(text@.skip(pos as int)) is None);
                            }
                        }
                        pos = npos;
                    },
                }
            }
            proof {
                assert(text@.skip(pos as int).len() == 0);
                assert(parse_records(text@.skip(pos as int)) == Some(Seq::<EditRecord>::empty()));
                assert(records@ + Seq::<EditRecord>::empty() =~= records@);
                assert(parse_records(text@.skip(pos0)) == Some(records@));
            }
            Ok(ParsedDelta::Stream(DeltaStream { total_length: total, records }))
        },
    }
}

/// Appends the hexadecimal text of `n`.
fn push_hex(out: &mut Vec<u8>, n: u64)
    ensures
        final(out)@ == old(out)@ + hex_rep(n as nat),
    decreases n,
{
    if n < 16 {
        let d: u8 = if n < 10 {
            (n as u8) + 48
        } else {
            (n as u8) + 87
        };
        assert(d == hex_digit(n as nat));
        out.push(d);
        assert(out@ =~= old(out)@ + hex_rep(n as nat));
    } else {
        push_hex(out, n / 16);
        let rem = (n % 16) as u8;
        let d: u8 = if rem < 10 {
            rem + 48
        } else {
            rem + 87
        };
        assert(d == hex_digit(n as nat % 16));
        out.push(d);
        assert(out@ =~= old(out)@ + hex_rep(n as nat));
    }
}

/// Appends one serialized line.
fn push_line(out: &mut Vec<u8>, o: u64, v: u8, f: u8)
    ensures
        final(out)@ == old(out)@ + line_rep(o as nat, v as nat, f),
{
    push_hex(out, o);
    out.push(44);
    push_hex(out, v as u64);
    out.push(44);
    out.push(f);
    out.push(10);
    assert(out@ =~= old(out)@ + line_rep(o as nat, v as nat, f));
}

/// The two lowercase hexadecimal digits of one byte, high digit first.
pub open spec fn byte_hex(b: u8) -> Seq<u8> {
    seq![hex_digit(b as nat / 16), hex_digit(b as nat % 16)]
}

/// The lowercase hexadecimal text of a digest, two digits per byte.
pub open spec fn digest_hex(d: Seq<u8>) -> Seq<u8>
    decreases d.len(),
{
    if d.len() == 0 {
        Seq::empty()
    } else {
        digest_hex(d.drop_last()) + byte_hex(d.last())
    }
}

/// A valid hexadecimal digit byte is the digit of its value.
proof fn lemma_hex_digit_inverse(c: u8)
    requires
        is_hex_digit(c),
    ensures
        hex_digit(hex_val(c)) == c,
        hex_val(c) < 16,
{
}

/// Serializes a digest as lowercase hexadecimal, two digits per byte.
#[verifier::loop_isolation(false)]
pub fn digest_to_hex(digest: &Vec<u8>) -> (r: Vec<u8>)
    ensures
        r@ == digest_hex(digest@),
{
    let mut out: Vec<u8> = Vec::new();
    let mut i: usize = 0;
    while i < digest.len()
        invariant
            i <= digest@.len(),
            out@ == digest_hex(digest@.take(i as int)),
        decreases digest@.len() - i,
    {
        let b = digest[i];
        let hi = b / 16;
        let lo = b % 16;
        let d1: u8 = if hi < 10 {
            hi + 48
        } else {
            hi + 87
        };
        let d2: u8 = if lo < 10 {
            lo + 48
        } else {
            lo + 87
        };
        assert(d1 == hex_digit(b as nat / 16));
        assert(d2 == hex_digit(b as nat % 16));
        out.push(d1);
        out.push(d2);
        proof {
            let dnext = digest@.take(i as int + 1);
            assert(dnext.drop_last() =~= digest@.take(i as int));
            assert(dnext.last() == digest@[i as int]);
            assert(out@ =~= digest_hex(dnext));
        }
        i = i + 1;
    }
    proof {
        assert(digest@.take(digest@.len() as int) =~= digest@);
    }
    out
}

/// Parses a digest from its 64-digit lowercase hexadecimal text; any other
/// length, and any byte that is not a lowercase hexadecimal digit, is
/// rejected.
#[verifier::loop_isolation(false)]
pub fn parse_digest_hex(text: &Vec<u8>) -> (r: Option<Vec<u8>>)
    ensures
        r matches Some(d) ==> d@.len() == 32 && text@ == digest_hex(d@),
        r is None ==> text@.len() != 64 || (exists|i: int|
            0 <= i < text@.len() && !is_hex_digit(#[trigger] text@[i])),
{
    if text.len() != 64 {
        return None;
    }
    let mut out: Vec<u8> = Vec::new();
    let mut i: usize = 0;
    while i < 32
        invariant
            i <= 32,
            text@.len() == 64,
            out@.len() == i as int,
            digest_hex(out@) == text@.take(2 * i as int),
        decreases 32 - i,
    {
        let c1 = text[2 * i];
        let c2 = text[2 * i + 1];
        if !is_hex_byte(c1) {
            assert(!is_hex_digit(text@[2 * i as int]));
            return None;
        }
        if !is_hex_byte(c2) {
            assert(!is_hex_digit(text@[2 * i as int + 1]));
            return None;
        }
        let v1 = hex_val_byte(c1);
        let v2 = hex_val_byte(c2);
        let b = v1 * 16 + v2;
        let ghost out_old = out@;
        out.push(b);
        proof {
            lemma_hex_digit_inverse(c1);
            lemma_hex_digit_inverse(c2);
            assert(b as nat / 16 == hex_val(c1) && b as nat % 16 == hex_val(c2))
                by (nonlinear_arith)
                requires
                    b as nat == hex_val(c1) * 16 + hex_val(c2),
                    hex_val(c1) < 16,
                    hex_val(c2) < 16,
            ;
            assert(out@.drop_last() =~= out_old);
            assert(out@.last() == b);
            assert(digest_hex(out@) == digest_hex(out_old) + byte_hex(b));
            assert(byte_hex(b) =~= seq![c1, c2]);
            assert(text@.take(2 * i as int + 2) =~= text@.take(2 * i as int) + seq![c1, c2]);
        }
        i = i + 1;
    }
    proof {
        assert(text@.take(64) =~= text@);
    }
    Some(out)
}

/// Serializes a delta stream to its wire text, exactly.
#[verifier::loop_isolation(false)]
pub fn serialize(stream: &DeltaStream) -> (r: Vec<u8>)
    ensures
        r@ == serialize_spec(stream.total_length, stream.records@),
{
    let mut out: Vec<u8> = Vec::new();
    if stream.records.len() == 0 {
        assert(out@ =~= serialize_spec(stream.total_length, stream.records@));
        return out;
    }
    push_line(&mut out, stream.total_length, 0, 48);
    let n = stream.records.len();
    let mut k: usize = 0;
    while k < n
        invariant
            k <= n,
            out@ == line_rep(stream.total_length as nat, 0, 48) + records_rep(
                stream.records@.take(k as int),
            ),
        decreases n - k,
    {
        let rec = stream.records[k];
        let f: u8 = match rec.kind {
            EditKind::Write => 48,
            EditKind::Truncate => 49,
        };
        assert(f == kind_flag(rec.kind));
        push_line(&mut out, rec.offset, rec.value, f);
        proof {
            let s = stream.records@;
            assert(s.take(k as int + 1) =~= s.take(k as int) + seq![s[k as int]]);
            lemma_records_rep_concat(s.take(k as int), seq![s[k as int]]);
            let single = seq![s[k as int]];
            assert(single.drop_first() =~= Seq::<EditRecord>::empty());
            assert(records_rep(single.drop_first()) == Seq::<u8>::empty());
            assert(records_rep(single) =~= record_line(s[k as int]));
            assert(out@ =~= line_rep(stream.total_length as nat, 0, 48) + records_rep(
                s.take(k as int + 1),
            ));
        }
        k = k + 1;
    }
    proof {
        assert(stream.records@.take(n as int) =~= stream.records@);
    }
    out
}

} // verus!
