use vstd::prelude::*;

use crate::error::FilterError;
use crate::record::RecordModel;
use crate::record::SequenceRecord;
use crate::record::append_bytes;
use crate::record::format_spec;
use crate::record::header_of;
use crate::record::records_wf;
use crate::record::subvec;
use crate::record::views_of;
use crate::record::wf_record;

verus! {

/// A line is a header when it begins with the marker character `>`.
pub open spec fn is_header_line(l: Seq<u8>) -> bool {
    l.len() > 0 && l[0] == 62
}

/// The lines of a byte stream, given the partial line `cur` read so far:
/// lines are separated by newline bytes, and a non-empty trailing segment
/// after the last newline counts as a final line.
pub open spec fn split_from(cur: Seq<u8>, rest: Seq<u8>) -> Seq<Seq<u8>>
    decreases rest.len(),
{
    if rest.len() == 0 {
        if cur.len() == 0 {
            Seq::<Seq<u8>>::empty()
        } else {
            seq![cur]
        }
    } else if rest[0] == 10 {
        seq![cur] + split_from(Seq::<u8>::empty(), rest.skip(1))
    } else {
        split_from(cur.push(rest[0]), rest.skip(1))
    }
}

/// The lines of a byte stream.
pub open spec fn lines_of(bytes: Seq<u8>) -> Seq<Seq<u8>> {
    split_from(Seq::<u8>::empty(), bytes)
}

/// The total number of bytes held by a sequence of lines.
pub open spec fn total_len(lines: Seq<Seq<u8>>) -> int
    decreases lines.len(),
{
    if lines.len() == 0 {
        0
    } else {
        total_len(lines.drop_last()) + lines.last().len()
    }
}

/// The index of the first space in `s`, or -1 when `s` holds none.
pub open spec fn first_space(s: Seq<u8>) -> int
    decreases s.len(),
{
    if s.len() == 0 {
        -1
    } else if s[0] == 32 {
        0
    } else {
        let r = first_space(s.skip(1));
        if r < 0 {
            -1
        } else {
            r + 1
        }
    }
}

/// Reading a header line: after the marker comes the identifier token, up to
/// the first space; the rest of the line after that space, when there is one,
/// is the description. A header without an identifier is malformed.
pub open spec fn parse_header_line(l: Seq<u8>) -> Option<RecordModel> {
    let after = l.skip(1);
    let fs = first_space(after);
    if fs < 0 {
        if after.len() == 0 {
            None
        } else {
            Some(RecordModel { id: after, desc: None, seq: Seq::<u8>::empty() })
        }
    } else {
        if fs == 0 {
            None
        } else {
            Some(
                RecordModel {
                    id: after.take(fs),
                    desc: Some(after.skip(fs + 1)),
                    seq: Seq::<u8>::empty(),
                },
            )
        }
    }
}

/// A record grows by one line of sequence symbols.
pub open spec fn append_seq(r: RecordModel, line: Seq<u8>) -> RecordModel {
    RecordModel { id: r.id, desc: r.desc, seq: r.seq + line }
}

/// Reading records from lines, one line at a time: `cur` is the record whose
/// header has been read and whose sequence lines are still being collected.
/// A header line finishes `cur` and opens a new record; any other line adds
/// its bytes to the sequence of `cur`. A sequence line before the first
/// header, or a malformed header, fails the whole parse.
pub open spec fn parse_from(cur: Option<RecordModel>, lines: Seq<Seq<u8>>) -> Option<
    Seq<RecordModel>,
>
    decreases lines.len(),
{
    if lines.len() == 0 {
        match cur {
            None => Some(Seq::<RecordModel>::empty()),
            Some(r) => Some(seq![r]),
        }
    } else if is_header_line(lines[0]) {
        match parse_header_line(lines[0]) {
            None => None,
            Some(started) => match parse_from(Some(started), lines.skip(1)) {
                None => None,
                Some(rs) => match cur {
                    None => Some(rs),
                    Some(r) => Some(seq![r] + rs),
                },
            },
        }
    } else {
        match cur {
            None => None,
            Some(r) => parse_from(Some(append_seq(r, lines[0])), lines.skip(1)),
        }
    }
}

/// The records held by a byte stream, or nothing when the stream is
/// malformed.
pub open spec fn parse_fasta_spec(bytes: Seq<u8>) -> Option<Seq<RecordModel>> {
    parse_from(None, lines_of(bytes))
}

/// Splitting consumes one whole newline-free line at a time.
proof fn lemma_split_line(cur: Seq<u8>, l: Seq<u8>, rest: Seq<u8>)
    requires
        line_clean(l),
    ensures
        split_from(cur, l + seq![10u8] + rest) == seq![cur + l] + split_from(
            Seq::<u8>::empty(),
            rest,
        ),
    decreases l.len(),
{
    let t = l + seq![10u8] + rest;
    if l.len() == 0 {
        assert(t[0] == 10);
        assert(t.skip(1) =~= rest);
        assert(cur + l =~= cur);
        assert(split_from(cur, t) == seq![cur] + split_from(Seq::<u8>::empty(), rest));
    } else {
        assert(t[0] == l[0]);
        assert(l[0] != 10);
        assert(t.skip(1) =~= l.skip(1) + seq![10u8] + rest);
        assert(forall|j: int| 0 <= j < l.skip(1).len() ==> l.skip(1)[j] == l[j + 1]);
        lemma_split_line(cur.push(l[0]), l.skip(1), rest);
        assert(cur.push(l[0]) + l.skip(1) =~= cur + l);
    }
}

/// The header line written for a well-formed record is a clean header line
/// and parses back to the record's identifier and description.
pub proof fn lemma_parse_header_of(r: RecordModel)
    requires
        wf_record(r),
    ensures
        is_header_line(header_of(r)),
        line_clean(header_of(r)),
        parse_header_line(header_of(r)) == Some(
            RecordModel { id: r.id, desc: r.desc, seq: Seq::<u8>::empty() },
        ),
{
    let hdr = header_of(r);
    assert(line_clean(hdr)) by {
        assert forall|i: int| 0 <= i < hdr.len() implies hdr[i] != 10 by {
            if i == 0 {
                assert(hdr[0] == 62);
            } else if i < 1 + r.id.len() {
                assert(hdr[i] == r.id[i - 1]);
            } else {
                match r.desc {
                    Some(d) => {
                        if i == 1 + r.id.len() {
                            assert(hdr[i] == (seq![32u8] + d)[0]);
                        } else {
                            assert(hdr[i] == (seq![32u8] + d)[i - 1 - r.id.len()]);
                            assert(hdr[i] == d[i - 2 - r.id.len()]);
                        }
                    },
                    None => {},
                }
            }
        }
    }
    assert(hdr[0] == 62);
    let after = hdr.skip(1);
    lemma_first_space(after);
    let fs = first_space(after);
    match r.desc {
        None => {
            assert(after =~= r.id);
            assert(forall|j: int| 0 <= j < after.len() ==> after[j] != 32);
            assert(fs < 0);
            assert(parse_header_line(hdr) == Some(
                RecordModel { id: after, desc: None, seq: Seq::<u8>::empty() },
            ));
        },
        Some(d) => {
            assert(after =~= r.id + seq![32u8] + d);
            assert(after[r.id.len() as int] == 32);
            assert(fs >= 0);
            assert(forall|j: int| 0 <= j < r.id.len() ==> after[j] == r.id[j] && after[j] != 32);
            assert(fs == r.id.len()) by {
                if fs < r.id.len() {
                    assert(after[fs] != 32);
                } else if fs > r.id.len() {
                    assert(after[r.id.len() as int] == 32);
                }
            }
            assert(after.take(fs) =~= r.id);
            assert(after.skip(fs + 1) =~= d);
        },
    }
}

/// The text of a well-formed record, followed by whatever comes next in the
/// stream, splits into the record's header line, its sequence line, and the
/// lines of the rest.
pub proof fn lemma_lines_of_record(r: RecordModel, b: Seq<u8>)
    requires
        wf_record(r),
    ensures
        lines_of(format_spec(r) + seq![10u8] + b) == seq![header_of(r), r.seq] + lines_of(b),
{
    let hdr = header_of(r);
    lemma_parse_header_of(r);
    assert(format_spec(r) + seq![10u8] + b =~= hdr + seq![10u8] + (r.seq + seq![10u8] + b));
    lemma_split_line(Seq::<u8>::empty(), hdr, r.seq + seq![10u8] + b);
    assert(line_clean(r.seq));
    lemma_split_line(Seq::<u8>::empty(), r.seq, b);
    assert(Seq::<u8>::empty() + hdr =~= hdr);
    assert(Seq::<u8>::empty() + r.seq =~= r.seq);
    assert(seq![hdr] + (seq![r.seq] + split_from(Seq::<u8>::empty(), b)) =~= seq![hdr, r.seq]
        + lines_of(b));
    assert(lines_of(format_spec(r) + seq![10u8] + b) == seq![hdr, r.seq] + lines_of(b));
}

/// Reading lines with a finished record in hand yields that record in front
/// of whatever the same lines yield alone, provided they begin at a record
/// boundary.
pub proof fn lemma_parse_from_cons(r: RecordModel, ls: Seq<Seq<u8>>)
    requires
        ls.len() == 0 || is_header_line(ls[0]),
    ensures
        parse_from(Some(r), ls) == (match parse_from(None, ls) {
            None => None::<Seq<RecordModel>>,
            Some(rs) => Some(seq![r] + rs),
        }),
{
    if ls.len() == 0 {
        assert(seq![r] + Seq::<RecordModel>::empty() =~= seq![r]);
    }
}

/// Format fidelity: a well-formed record written out and followed by the
/// line break that ends its last line reads back as exactly that record,
/// with the same identifier, description and sequence.
pub proof fn lemma_round_trip(r: RecordModel)
    requires
        wf_record(r),
    ensures
        parse_fasta_spec(format_spec(r) + seq![10u8]) == Some(seq![r]),
{
    let bytes = format_spec(r) + seq![10u8];
    assert(bytes =~= format_spec(r) + seq![10u8] + Seq::<u8>::empty());
    lemma_lines_of_record(r, Seq::<u8>::empty());
    let lines = lines_of(bytes);
    assert(lines_of(Seq::<u8>::empty()) =~= Seq::<Seq<u8>>::empty());
    assert(lines =~= seq![header_of(r), r.seq]);
    lemma_parse_header_of(r);
    let started = RecordModel { id: r.id, desc: r.desc, seq: Seq::<u8>::empty() };
    assert(lines[0] == header_of(r));
    assert(lines.skip(1) =~= seq![r.seq]);
    assert(!is_header_line(r.seq));
    let finished = append_seq(started, r.seq);
    assert(finished.seq =~= r.seq);
    assert(finished =~= r);
    assert(seq![r.seq].skip(1) =~= Seq::<Seq<u8>>::empty());
    assert(parse_from(Some(finished), seq![r.seq].skip(1)) == Some(seq![finished]));
    assert(parse_from(Some(started), lines.skip(1)) == Some(seq![finished]));
    assert(parse_from(None, lines) == Some(seq![finished]));
    assert(seq![finished] =~= seq![r]);
}

/// `first_space` names the first space of `s` when there is one and -1
/// otherwise.
pub proof fn lemma_first_space(s: Seq<u8>)
    ensures
        first_space(s) < 0 ==> forall|j: int| 0 <= j < s.len() ==> s[j] != 32,
        first_space(s) >= 0 ==> 0 <= first_space(s) < s.len() && s[first_space(s)] == 32
            && forall|j: int| 0 <= j < first_space(s) ==> s[j] != 32,
    decreases s.len(),
{
    if s.len() == 0 {
    } else if s[0] == 32 {
    } else {
        lemma_first_space(s.skip(1));
        assert(forall|j: int| 1 <= j < s.len() ==> s[j] == s.skip(1)[j - 1]);
    }
}

/// A line free of newline bytes.
pub open spec fn line_clean(l: Seq<u8>) -> bool {
    forall|i: int| 0 <= i < l.len() ==> l[i] != 10
}

/// Lines all free of newline bytes.
pub open spec fn lines_clean(ls: Seq<Seq<u8>>) -> bool {
    forall|k: int| 0 <= k < ls.len() ==> line_clean(#[trigger] ls[k])
}

/// Every line produced by splitting holds no newline byte, provided the
/// partial line held none.
pub proof fn lemma_split_from_no_newline(cur: Seq<u8>, rest: Seq<u8>)
    requires
        line_clean(cur),
    ensures
        lines_clean(split_from(cur, rest)),
    decreases rest.len(),
{
    let s = split_from(cur, rest);
    if rest.len() == 0 {
        if cur.len() != 0 {
            assert forall|k: int| 0 <= k < s.len() implies line_clean(#[trigger] s[k]) by {
                assert(s[k] == cur);
            }
        }
    } else if rest[0] == 10 {
        let s2 = split_from(Seq::<u8>::empty(), rest.skip(1));
        lemma_split_from_no_newline(Seq::<u8>::empty(), rest.skip(1));
        assert forall|k: int| 0 <= k < s.len() implies line_clean(#[trigger] s[k]) by {
            if k == 0 {
                assert(s[k] == cur);
            } else {
                assert(s[k] == s2[k - 1]);
            }
        }
    } else {
        assert(line_clean(cur.push(rest[0])));
        lemma_split_from_no_newline(cur.push(rest[0]), rest.skip(1));
        assert(s == split_from(cur.push(rest[0]), rest.skip(1)));
    }
}

/// Splitting a stream yields no more lines than it has bytes, when no partial
/// line is pending; one more at most, otherwise. The lines together hold no
/// more bytes than the pending line and the stream.
pub proof fn lemma_split_from_counts(cur: Seq<u8>, rest: Seq<u8>)
    ensures
        cur.len() == 0 ==> split_from(cur, rest).len() <= rest.len(),
        split_from(cur, rest).len() <= rest.len() + 1,
        total_len(split_from(cur, rest)) <= cur.len() + rest.len(),
    decreases rest.len(),
{
    if rest.len() == 0 {
        if cur.len() != 0 {
            lemma_total_len_singleton(cur);
        }
    } else if rest[0] == 10 {
        lemma_split_from_counts(Seq::<u8>::empty(), rest.skip(1));
        lemma_total_len_add(seq![cur], split_from(Seq::<u8>::empty(), rest.skip(1)));
        lemma_total_len_singleton(cur);
    } else {
        lemma_split_from_counts(cur.push(rest[0]), rest.skip(1));
    }
}

/// A single line holds its own length in bytes.
proof fn lemma_total_len_singleton(l: Seq<u8>)
    ensures
        total_len(seq![l]) == l.len(),
{
    let s = seq![l];
    assert(s.len() == 1);
    assert(s.last() == l);
    assert(s.drop_last() =~= Seq::<Seq<u8>>::empty());
    assert(total_len(Seq::<Seq<u8>>::empty()) == 0);
    assert(total_len(s) == total_len(s.drop_last()) + s.last().len());
}

/// No sequence of lines holds a negative number of bytes.
proof fn lemma_total_len_nonneg(ls: Seq<Seq<u8>>)
    ensures
        total_len(ls) >= 0,
    decreases ls.len(),
{
    if ls.len() != 0 {
        lemma_total_len_nonneg(ls.drop_last());
    }
}

/// The bytes of a non-empty line sequence are those of its first line and of
/// the rest.
proof fn lemma_total_len_skip1(ls: Seq<Seq<u8>>)
    requires
        ls.len() > 0,
    ensures
        total_len(ls) == ls[0].len() + total_len(ls.skip(1)),
{
    assert(ls =~= seq![ls[0]] + ls.skip(1));
    lemma_total_len_add(seq![ls[0]], ls.skip(1));
    lemma_total_len_singleton(ls[0]);
}

/// A well-formed header line parses to a well-formed record with an empty
/// sequence.
proof fn lemma_parse_header_wf(l: Seq<u8>)
    requires
        is_header_line(l),
        line_clean(l),
    ensures
        match parse_header_line(l) {
            Some(r) => wf_record(r) && r.seq.len() == 0,
            None => true,
        },
{
    let after = l.skip(1);
    assert(forall|j: int| 0 <= j < after.len() ==> after[j] == l[j + 1]);
    lemma_first_space(after);
    let fs = first_space(after);
    if fs < 0 {
    } else if fs > 0 {
        let r = parse_header_line(l)->Some_0;
        assert(r.id == after.take(fs));
        assert(forall|j: int| 0 <= j < r.id.len() ==> r.id[j] == after[j]);
        assert(r.desc->Some_0 == after.skip(fs + 1));
        assert(forall|j: int|
            0 <= j < r.desc->Some_0.len() ==> r.desc->Some_0[j] == after[j + fs + 1]);
    }
}

/// Every record parsed from clean lines is well formed, provided the record
/// under construction is.
pub proof fn lemma_parse_from_wf(cur: Option<RecordModel>, lines: Seq<Seq<u8>>)
    requires
        lines_clean(lines),
        match cur {
            Some(r) => wf_record(r),
            None => true,
        },
    ensures
        match parse_from(cur, lines) {
            Some(rs) => records_wf(rs),
            None => true,
        },
    decreases lines.len(),
{
    if lines.len() == 0 {
    } else {
        assert(line_clean(lines[0]));
        assert forall|k: int| 0 <= k < lines.skip(1).len() implies line_clean(
            #[trigger] lines.skip(1)[k],
        ) by {
            assert(lines.skip(1)[k] == lines[k + 1]);
        }
        if is_header_line(lines[0]) {
            lemma_parse_header_wf(lines[0]);
            match parse_header_line(lines[0]) {
                None => {},
                Some(started) => {
                    lemma_parse_from_wf(Some(started), lines.skip(1));
                    match parse_from(Some(started), lines.skip(1)) {
                        None => {},
                        Some(rs) => {
                            match cur {
                                None => {},
                                Some(r) => {
                                    let out = seq![r] + rs;
                                    assert forall|k: int| 0 <= k < out.len() implies wf_record(
                                        #[trigger] out[k],
                                    ) by {
                                        if k == 0 {
                                            assert(out[k] == r);
                                        } else {
                                            assert(out[k] == rs[k - 1]);
                                        }
                                    }
                                },
                            }
                        },
                    }
                },
            }
        } else {
            match cur {
                None => {},
                Some(r) => {
                    let r2 = append_seq(r, lines[0]);
                    assert(wf_record(r2)) by {
                        assert(forall|i: int| 0 <= i < r.seq.len() ==> r2.seq[i] == r.seq[i]);
                        assert(forall|i: int|
                            r.seq.len() <= i < r2.seq.len() ==> r2.seq[i] == lines[0][i
                                - r.seq.len()]);
                        if r.seq.len() == 0 && lines[0].len() > 0 {
                            assert(r2.seq[0] == lines[0][0]);
                            assert(lines[0][0] != 62);
                        }
                    }
                    lemma_parse_from_wf(Some(r2), lines.skip(1));
                },
            }
        }
    }
}

/// Bounds on what parsing can produce: no more records than lines (plus the
/// one under construction), and no record sequence longer than the bytes of
/// the pending record and all lines together.
pub proof fn lemma_parse_from_bounds(cur: Option<RecordModel>, lines: Seq<Seq<u8>>)
    ensures
        match parse_from(cur, lines) {
            Some(rs) => {
                let pending: int = match cur {
                    Some(r) => 1,
                    None => 0,
                };
                let pending_seq: int = match cur {
                    Some(r) => r.seq.len() as int,
                    None => 0,
                };
                rs.len() <= lines.len() + pending && forall|k: int|
                    0 <= k < rs.len() ==> (#[trigger] rs[k].seq.len()) <= pending_seq + total_len(
                        lines,
                    )
            },
            None => true,
        },
    decreases lines.len(),
{
    lemma_total_len_nonneg(lines);
    if lines.len() == 0 {
    } else {
        lemma_total_len_skip1(lines);
        lemma_total_len_nonneg(lines.skip(1));
        if is_header_line(lines[0]) {
            match parse_header_line(lines[0]) {
                None => {},
                Some(started) => {
                    lemma_parse_from_bounds(Some(started), lines.skip(1));
                    match parse_from(Some(started), lines.skip(1)) {
                        None => {},
                        Some(rs) => {
                            match cur {
                                None => {},
                                Some(r) => {
                                    let out = seq![r] + rs;
                                    assert forall|k: int| 0 <= k < out.len() implies (
                                    #[trigger] out[k].seq.len()) <= r.seq.len() + total_len(
                                        lines,
                                    ) by {
                                        if k == 0 {
                                            assert(out[k] == r);
                                        } else {
                                            assert(out[k] == rs[k - 1]);
                                        }
                                    }
                                },
                            }
                        },
                    }
                },
            }
        } else {
            match cur {
                None => {},
                Some(r) => {
                    lemma_parse_from_bounds(Some(append_seq(r, lines[0])), lines.skip(1));
                },
            }
        }
    }
}

/// The bytes of concatenated line sequences add up.
pub proof fn lemma_total_len_add(a: Seq<Seq<u8>>, b: Seq<Seq<u8>>)
    ensures
        total_len(a + b) == total_len(a) + total_len(b),
    decreases b.len(),
{
    if b.len() == 0 {
        assert(a + b =~= a);
    } else {
        lemma_total_len_add(a, b.drop_last());
        assert((a + b).drop_last() =~= a + b.drop_last());
        assert((a + b).last() == b.last());
    }
}

/// Every record read from a byte stream is well formed, so each one, written
/// out again, reads back unchanged.
pub proof fn lemma_parsed_records_wf(bytes: Seq<u8>)
    ensures
        match parse_fasta_spec(bytes) {
            Some(rs) => records_wf(rs),
            None => true,
        },
{
    lemma_split_from_no_newline(Seq::<u8>::empty(), bytes);
    lemma_parse_from_wf(None, lines_of(bytes));
}

/// The models of a vector of lines.
pub open spec fn line_views(ls: Seq<Vec<u8>>) -> Seq<Seq<u8>> {
    ls.map(|i: int, l: Vec<u8>| l@)
}

/// The model of the record under construction, when there is one.
pub open spec fn opt_view(c: Option<SequenceRecord>) -> Option<RecordModel> {
    match c {
        Some(r) => Some(r@),
        None => None,
    }
}

/// Splits the input bytes into lines at newline bytes; a non-empty trailing
/// segment counts as a final line.
#[verifier::loop_isolation(false)]
pub fn split_lines(input: &Vec<u8>) -> (lines: Vec<Vec<u8>>)
    ensures
        line_views(lines@) == lines_of(input@),
{
    let mut out: Vec<Vec<u8>> = Vec::new();
    let mut cur: Vec<u8> = Vec::new();
    let mut i: usize = 0;
    proof {
        assert(input@.skip(0) =~= input@);
        assert(line_views(out@) =~= Seq::<Seq<u8>>::empty());
        assert(Seq::<Seq<u8>>::empty() + split_from(cur@, input@) =~= split_from(cur@, input@));
    }
    while i < input.len()
        invariant
            0 <= i <= input@.len(),
            lines_of(input@) == line_views(out@) + split_from(cur@, input@.skip(i as int)),
        decreases input@.len() - i,
    {
        let ghost out0 = out@;
        let ghost cur0 = cur@;
        let b = input[i];
        proof {
            assert(input@.skip(i as int)[0] == input@[i as int]);
            assert(input@.skip(i as int).skip(1) =~= input@.skip(i as int + 1));
        }
        if b == 10 {
            out.push(cur);
            cur = Vec::new();
            proof {
                assert(cur@ =~= Seq::<u8>::empty());
                assert(line_views(out@) =~= line_views(out0) + seq![cur0]);
                assert((line_views(out0) + seq![cur0]) + split_from(
                    cur@,
                    input@.skip(i as int + 1),
                ) =~= line_views(out0) + (seq![cur0] + split_from(cur@, input@.skip(i as int + 1))));
            }
        } else {
            cur.push(b);
            proof {
                assert(cur@ == cur0.push(input@[i as int]));
            }
        }
        i = i + 1;
    }
    proof {
        assert(input@.skip(input@.len() as int) =~= Seq::<u8>::empty());
    }
    if cur.len() > 0 {
        let ghost out0 = out@;
        let ghost cur0 = cur@;
        out.push(cur);
        proof {
            assert(split_from(cur0, Seq::<u8>::empty()) == seq![cur0]);
            assert(line_views(out@) =~= line_views(out0) + seq![cur0]);
        }
    } else {
        proof {
            assert(split_from(cur@, Seq::<u8>::empty()) =~= Seq::<Seq<u8>>::empty());
            assert(line_views(out@) + Seq::<Seq<u8>>::empty() =~= line_views(out@));
        }
    }
    out
}

/// Finds the first space after the marker byte of a header line.
#[verifier::loop_isolation(false)]
fn find_space_after_marker(line: &Vec<u8>) -> (r: Option<usize>)
    requires
        line@.len() >= 1,
    ensures
        match r {
            Some(j) => 1 <= j < line@.len() && first_space(line@.skip(1)) == j - 1,
            None => first_space(line@.skip(1)) < 0,
        },
{
    let ghost after = line@.skip(1);
    proof {
        lemma_first_space(after);
        assert(forall|k: int| 0 <= k < after.len() ==> after[k] == line@[k + 1]);
    }
    let mut j: usize = 1;
    while j < line.len()
        invariant
            1 <= j <= line@.len(),
            forall|k: int| 1 <= k < j ==> line@[k] != 32,
        decreases line@.len() - j,
    {
        if line[j] == 32 {
            proof {
                let fs = first_space(after);
                assert(after[j - 1] == 32);
                if fs < 0 {
                } else if fs < j - 1 {
                    assert(after[fs] == line@[fs + 1]);
                } else if fs > j - 1 {
                    assert(after[j - 1] != 32);
                }
            }
            return Some(j);
        }
        j = j + 1;
    }
    proof {
        let fs = first_space(after);
        if fs >= 0 {
            assert(after[fs] == line@[fs + 1]);
        }
    }
    None
}

/// Reads all records from the input bytes, or reports that the input is
/// malformed: sequence data before the first header, or a header line
/// without an identifier token.
#[verifier::loop_isolation(false)]
pub fn parse_fasta(input: &Vec<u8>) -> (res: Result<Vec<SequenceRecord>, FilterError>)
    ensures
        match res {
            Ok(recs) => parse_fasta_spec(input@) == Some(views_of(recs@)),
            Err(e) => parse_fasta_spec(input@) is None && e == FilterError::ParseError,
        },
{
    let lines = split_lines(input);
    let ghost ls = line_views(lines@);
    let mut out: Vec<SequenceRecord> = Vec::new();
    let mut cur: Option<SequenceRecord> = None;
    let mut i: usize = 0;
    proof {
        assert(ls.skip(0) =~= ls);
        assert(views_of(out@) =~= Seq::<RecordModel>::empty());
        assert(Seq::<RecordModel>::empty() + parse_from(None, ls)->Some_0 =~= parse_from(
            None,
            ls,
        )->Some_0);
    }
    while i < lines.len()
        invariant
            0 <= i <= lines@.len(),
            ({
                let tail = parse_from(opt_view(cur), ls.skip(i as int));
                parse_from(None, ls) == (match tail {
                    None => None::<Seq<RecordModel>>,
                    Some(rs) => Some(views_of(out@) + rs),
                })
            }),
        decreases lines@.len() - i,
    {
        proof {
            assert(ls.skip(i as int)[0] == ls[i as int]);
            assert(ls[i as int] == lines@[i as int]@);
            assert(ls.skip(i as int).skip(1) =~= ls.skip(i as int + 1));
        }
        let line = &lines[i];
        let hdr = line.len() > 0 && line[0] == 62;
        if hdr {
            proof {
                assert(is_header_line(ls[i as int]));
            }
            let sp = find_space_after_marker(line);
            let started: SequenceRecord;
            match sp {
                Some(j) => {
                    if j == 1 {
                        proof {
                            assert(parse_header_line(ls[i as int]) is None);
                        }
                        return Err(FilterError::ParseError);
                    }
                    let id = subvec(line, 1, j);
                    let desc = subvec(line, j + 1, line.len());
                    started = SequenceRecord { id, desc: Some(desc), seq: Vec::new() };
                    proof {
                        let after = ls[i as int].skip(1);
                        let fs = first_space(after);
                        assert(fs == j - 1);
                        assert(started@.id =~= after.take(fs));
                        assert(started@.desc->Some_0 =~= after.skip(fs + 1));
                        assert(started@ =~= parse_header_line(ls[i as int])->Some_0);
                        assert(parse_header_line(ls[i as int]) == Some(started@));
                    }
                },
                None => {
                    if line.len() == 1 {
                        proof {
                            assert(ls[i as int].skip(1).len() == 0);
                            assert(parse_header_line(ls[i as int]) is None);
                        }
                        return Err(FilterError::ParseError);
                    }
                    let id = subvec(line, 1, line.len());
                    started = SequenceRecord { id, desc: None, seq: Vec::new() };
                    proof {
                        let after = ls[i as int].skip(1);
                        assert(started@.id =~= after);
                        assert(started@ =~= parse_header_line(ls[i as int])->Some_0);
                        assert(parse_header_line(ls[i as int]) == Some(started@));
                    }
                },
            }
            let ghost out0 = out@;
            let ghost cur0 = opt_view(cur);
            match cur {
                Some(r) => {
                    out.push(r);
                    proof {
                        assert(views_of(out@) =~= views_of(out0) + seq![cur0->Some_0]);
                    }
                },
                None => {},
            }
            cur = Some(started);
            proof {
                assert(opt_view(cur) == Some(started@));
                let tail1 = parse_from(Some(started@), ls.skip(i as int + 1));
                if tail1 is Some {
                    let rs1 = tail1->Some_0;
                    if cur0 is Some {
                        assert((views_of(out0) + seq![cur0->Some_0]) + rs1 =~= views_of(out0) + (
                        seq![cur0->Some_0] + rs1));
                    }
                }
            }
        } else {
            proof {
                assert(!is_header_line(ls[i as int]));
            }
            match cur {
                None => {
                    proof {
                        assert(parse_from(None, ls) is None);
                    }
                    return Err(FilterError::ParseError);
                },
                Some(mut r) => {
                    let ghost r0 = r@;
                    append_bytes(&mut r.seq, line);
                    proof {
                        assert(r@ =~= append_seq(r0, ls[i as int]));
                    }
                    cur = Some(r);
                },
            }
        }
        i = i + 1;
    }
    proof {
        assert(ls.skip(ls.len() as int) =~= Seq::<Seq<u8>>::empty());
    }
    let ghost out0 = out@;
    let ghost cur0 = opt_view(cur);
    match cur {
        Some(r) => {
            out.push(r);
            proof {
                assert(views_of(out@) =~= views_of(out0) + seq![cur0->Some_0]);
            }
        },
        None => {
            proof {
                assert(views_of(out0) + Seq::<RecordModel>::empty() =~= views_of(out0));
            }
        },
    }
    Ok(out)
}

} // verus!
