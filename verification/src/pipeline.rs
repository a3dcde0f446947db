use vstd::prelude::*;

use crate::error::FilterError;
use crate::parse::append_seq;
use crate::parse::is_header_line;
use crate::parse::lemma_lines_of_record;
use crate::parse::lemma_parse_from_bounds;
use crate::parse::lemma_parse_from_cons;
use crate::parse::lemma_parse_header_of;
use crate::parse::lemma_split_from_counts;
use crate::parse::lines_of;
use crate::parse::parse_fasta;
use crate::parse::parse_fasta_spec;
use crate::parse::parse_from;
use crate::parse::total_len;
use crate::record::RecordModel;
use crate::record::SequenceRecord;
use crate::record::append_bytes;
use crate::record::clone_record;
use crate::record::format_record;
use crate::record::format_spec;
use crate::record::has_ambiguous;
use crate::record::has_ambiguous_bases;
use crate::record::header_of;
use crate::record::records_wf;
use crate::record::views_of;
use crate::record::wf_record;
use crate::stats::LENGTH_LIMIT;
use crate::stats::ReadLengthStats;
use crate::stats::lemma_zero_variance;
use crate::stats::length_accepted;
use crate::stats::sum_of;
use crate::stats::sum_sq_of;

verus! {

/// The inclusion predicate of the filter: a record passes when its length
/// lies within the two-sigma bounds of the distribution (n, s, q) and its
/// sequence holds no ambiguous base.
pub open spec fn record_passes(n: int, s: int, q: int, r: RecordModel) -> bool {
    length_accepted(n, s, q, r.seq.len() as int) && !has_ambiguous(r.seq)
}

/// The records that survive filtering, in their original order: exactly
/// those of the input that satisfy the inclusion predicate.
pub open spec fn filter_recs(n: int, s: int, q: int, rs: Seq<RecordModel>) -> Seq<RecordModel>
    decreases rs.len(),
{
    if rs.len() == 0 {
        Seq::<RecordModel>::empty()
    } else {
        filter_recs(n, s, q, rs.drop_last()) + (if record_passes(n, s, q, rs.last()) {
            seq![rs.last()]
        } else {
            Seq::<RecordModel>::empty()
        })
    }
}

/// The lengths of a sequence of records.
pub open spec fn lengths_model(rs: Seq<RecordModel>) -> Seq<int> {
    rs.map(|i: int, r: RecordModel| r.seq.len() as int)
}

/// The output stream: each surviving record in the textual format, each
/// followed by a line break.
pub open spec fn render_spec(rs: Seq<RecordModel>) -> Seq<u8>
    decreases rs.len(),
{
    if rs.len() == 0 {
        Seq::<u8>::empty()
    } else {
        render_spec(rs.drop_last()) + format_spec(rs.last()) + seq![10u8]
    }
}

/// What a whole run returns for given input bytes: the filtered records
/// written out, or the error. Malformed input fails the run; input without
/// records is a distinct fatal error; otherwise the records whose length
/// lies within the two-sigma bounds of the length distribution of the whole
/// input, and whose sequence holds no ambiguous base, are written out in
/// their original order.
pub open spec fn run_spec(bytes: Seq<u8>) -> Result<Seq<u8>, FilterError> {
    match parse_fasta_spec(bytes) {
        None => Err(FilterError::ParseError),
        Some(rs) => if rs.len() == 0 {
            Err(FilterError::EmptyInput)
        } else {
            Ok(
                render_spec(
                    filter_recs(
                        rs.len() as int,
                        sum_of(lengths_model(rs)),
                        sum_sq_of(lengths_model(rs)),
                        rs,
                    ),
                ),
            )
        },
    }
}

/// The length of each record's sequence, in input order.
pub fn get_read_lengths(records: &Vec<SequenceRecord>) -> (lengths: Vec<usize>)
    ensures
        lengths@.len() == records@.len(),
        forall|i: int| 0 <= i < records@.len() ==> lengths@[i] == records@[i].seq@.len(),
{
    let mut lengths: Vec<usize> = Vec::new();
    let mut i: usize = 0;
    while i < records.len()
        invariant
            0 <= i <= records@.len(),
            lengths@.len() == i,
            forall|j: int| 0 <= j < i ==> lengths@[j] == records@[j].seq@.len(),
        decreases records@.len() - i,
    {
        lengths.push(records[i].seq.len());
        i = i + 1;
    }
    lengths
}

/// Decides whether one record is kept: within the two-sigma length bounds
/// and free of ambiguous bases.
pub fn seq_is_good(rec: &SequenceRecord, len_stats: &ReadLengthStats) -> (r: bool)
    requires
        len_stats.wf(),
        rec.seq@.len() < LENGTH_LIMIT,
    ensures
        r == record_passes(
            len_stats.count as int,
            len_stats.sum as int,
            len_stats.sum_sq as int,
            rec@,
        ),
{
    len_stats.length_within_bounds(rec.seq.len()) && !has_ambiguous_bases(&rec.seq)
}

/// Keeps exactly the records that pass the inclusion predicate, in their
/// original order.
#[verifier::loop_isolation(false)]
pub fn filter_records(len_stats: &ReadLengthStats, records: &Vec<SequenceRecord>) -> (out: Vec<
    SequenceRecord,
>)
    requires
        len_stats.wf(),
        forall|i: int| 0 <= i < records@.len() ==> #[trigger] records@[i].seq@.len() < LENGTH_LIMIT,
    ensures
        views_of(out@) == filter_recs(
            len_stats.count as int,
            len_stats.sum as int,
            len_stats.sum_sq as int,
            views_of(records@),
        ),
{
    let ghost n = len_stats.count as int;
    let ghost s = len_stats.sum as int;
    let ghost q = len_stats.sum_sq as int;
    let ghost vs = views_of(records@);
    let mut out: Vec<SequenceRecord> = Vec::new();
    let mut i: usize = 0;
    proof {
        assert(vs.take(0) =~= Seq::<RecordModel>::empty());
        assert(views_of(out@) =~= Seq::<RecordModel>::empty());
    }
    while i < records.len()
        invariant
            0 <= i <= records@.len(),
            views_of(out@) == filter_recs(n, s, q, vs.take(i as int)),
        decreases records@.len() - i,
    {
        let ghost out0 = out@;
        proof {
            assert(vs.take(i + 1).drop_last() =~= vs.take(i as int));
            assert(vs.take(i + 1).last() == records@[i as int]@);
        }
        if seq_is_good(&records[i], len_stats) {
            let kept = clone_record(&records[i]);
            out.push(kept);
            proof {
                assert(views_of(out@) =~= views_of(out0) + seq![records@[i as int]@]);
            }
        } else {
            proof {
                assert(views_of(out0) + Seq::<RecordModel>::empty() =~= views_of(out0));
            }
        }
        i = i + 1;
    }
    proof {
        assert(vs.take(records@.len() as int) =~= vs);
    }
    out
}

/// Writes the records out, one textual record after the other, each ended
/// by a line break.
#[verifier::loop_isolation(false)]
pub fn render_records(records: &Vec<SequenceRecord>) -> (out: Vec<u8>)
    ensures
        out@ == render_spec(views_of(records@)),
{
    let ghost vs = views_of(records@);
    let mut out: Vec<u8> = Vec::new();
    let mut i: usize = 0;
    proof {
        assert(vs.take(0) =~= Seq::<RecordModel>::empty());
        assert(out@ =~= Seq::<u8>::empty());
    }
    while i < records.len()
        invariant
            0 <= i <= records@.len(),
            out@ == render_spec(vs.take(i as int)),
        decreases records@.len() - i,
    {
        let ghost out0 = out@;
        proof {
            assert(vs.take(i + 1).drop_last() =~= vs.take(i as int));
            assert(vs.take(i + 1).last() == records@[i as int]@);
        }
        let formatted = format_record(&records[i]);
        append_bytes(&mut out, &formatted);
        out.push(10);
        proof {
            assert(out@ =~= render_spec(vs.take(i as int)) + format_spec(records@[i as int]@)
                + seq![10u8]);
        }
        i = i + 1;
    }
    proof {
        assert(vs.take(records@.len() as int) =~= vs);
    }
    out
}

/// One whole run over the input bytes: reads every record, computes the
/// length statistics of the full input, then keeps and writes out exactly
/// the records whose length lies within the two-sigma bounds and whose
/// sequence holds no ambiguous base, in their original order. Fails on
/// malformed input, and distinctly on input without any record.
pub fn run(input: &Vec<u8>) -> (res: Result<Vec<u8>, FilterError>)
    requires
        input@.len() < LENGTH_LIMIT,
    ensures
        match res {
            Ok(out) => run_spec(input@) == Ok::<Seq<u8>, FilterError>(out@),
            Err(e) => run_spec(input@) == Err::<Seq<u8>, FilterError>(e),
        },
{
    let records = match parse_fasta(input) {
        Ok(records) => records,
        Err(e) => {
            return Err(e);
        },
    };
    if records.len() == 0 {
        return Err(FilterError::EmptyInput);
    }
    let ghost rs = views_of(records@);
    proof {
        lemma_split_from_counts(Seq::<u8>::empty(), input@);
        lemma_parse_from_bounds(None, lines_of(input@));
        assert(rs == parse_fasta_spec(input@)->Some_0);
        assert(rs.len() <= lines_of(input@).len());
        assert(lines_of(input@).len() <= input@.len());
        assert forall|k: int| 0 <= k < records@.len() implies (
        #[trigger] records@[k].seq@.len()) < LENGTH_LIMIT by {
            assert(rs[k] == records@[k]@);
            assert(rs[k].seq.len() <= 0 + total_len(lines_of(input@)));
            assert(total_len(lines_of(input@)) <= input@.len());
        }
    }
    let lengths = get_read_lengths(&records);
    proof {
        assert(forall|i: int| 0 <= i < lengths@.len() ==> #[trigger] lengths@[i] < LENGTH_LIMIT);
    }
    let stats = ReadLengthStats::get_read_length_stats(&lengths);
    proof {
        assert(lengths@.map(|i: int, v: usize| v as int) =~= lengths_model(rs));
        assert(stats.count as int == rs.len() as int);
        assert(stats.sum as int == sum_of(lengths_model(rs)));
        assert(stats.sum_sq as int == sum_sq_of(lengths_model(rs)));
    }
    let kept = filter_records(&stats, &records);
    let out = render_records(&kept);
    Ok(out)
}

/// The output stream decomposes at its first record.
proof fn lemma_render_cons(r: RecordModel, rest: Seq<RecordModel>)
    ensures
        render_spec(seq![r] + rest) == format_spec(r) + seq![10u8] + render_spec(rest),
    decreases rest.len(),
{
    let s = seq![r] + rest;
    if rest.len() == 0 {
        assert(s.len() == 1);
        assert(s.drop_last() =~= Seq::<RecordModel>::empty());
        assert(s.last() == r);
        assert(render_spec(s.drop_last()) == Seq::<u8>::empty());
        assert(render_spec(rest) == Seq::<u8>::empty());
        assert(render_spec(s) == render_spec(s.drop_last()) + format_spec(s.last()) + seq![10u8]);
        assert(render_spec(s) =~= format_spec(r) + seq![10u8] + render_spec(rest));
    } else {
        lemma_render_cons(r, rest.drop_last());
        assert(s.drop_last() =~= seq![r] + rest.drop_last());
        assert(s.last() == rest.last());
        assert(render_spec(s) == render_spec(s.drop_last()) + format_spec(s.last()) + seq![10u8]);
        assert(render_spec(s.drop_last()) == format_spec(r) + seq![10u8] + render_spec(
            rest.drop_last(),
        ));
        assert(render_spec(rest) == render_spec(rest.drop_last()) + format_spec(rest.last())
            + seq![10u8]);
        assert((format_spec(r) + seq![10u8] + render_spec(rest.drop_last())) + format_spec(
            rest.last(),
        ) + seq![10u8] =~= format_spec(r) + seq![10u8] + (render_spec(rest.drop_last())
            + format_spec(rest.last()) + seq![10u8]));
        assert(render_spec(s) =~= format_spec(r) + seq![10u8] + render_spec(rest));
    }
}

/// Format fidelity of the whole output stream: what a run writes out, read
/// back as input, parses to exactly the records that were kept, in order.
pub proof fn lemma_output_round_trip(rs: Seq<RecordModel>)
    requires
        records_wf(rs),
    ensures
        parse_fasta_spec(render_spec(rs)) == Some(rs),
    decreases rs.len(),
{
    if rs.len() == 0 {
        assert(lines_of(Seq::<u8>::empty()) =~= Seq::<Seq<u8>>::empty());
        assert(rs =~= Seq::<RecordModel>::empty());
    } else {
        let r = rs[0];
        let rest = rs.skip(1);
        assert(wf_record(r));
        assert forall|k: int| 0 <= k < rest.len() implies wf_record(#[trigger] rest[k]) by {
            assert(rest[k] == rs[k + 1]);
        }
        lemma_output_round_trip(rest);
        assert(rs =~= seq![r] + rest);
        lemma_render_cons(r, rest);
        assert(render_spec(rs) == format_spec(r) + seq![10u8] + render_spec(rest));
        lemma_lines_of_record(r, render_spec(rest));
        let lines = lines_of(render_spec(rs));
        let lrest = lines_of(render_spec(rest));
        assert(lines == seq![header_of(r), r.seq] + lrest);
        if rest.len() == 0 {
            assert(lrest =~= Seq::<Seq<u8>>::empty());
        } else {
            assert(rest =~= seq![rest[0]] + rest.skip(1));
            lemma_render_cons(rest[0], rest.skip(1));
            lemma_lines_of_record(rest[0], render_spec(rest.skip(1)));
            lemma_parse_header_of(rest[0]);
            assert(lrest[0] == header_of(rest[0]));
            assert(is_header_line(lrest[0]));
        }
        lemma_parse_header_of(r);
        let started = RecordModel { id: r.id, desc: r.desc, seq: Seq::<u8>::empty() };
        assert(lines[0] == header_of(r));
        assert(lines.skip(1) =~= seq![r.seq] + lrest);
        assert((seq![r.seq] + lrest)[0] == r.seq);
        assert(!is_header_line(r.seq));
        let finished = append_seq(started, r.seq);
        assert(finished.seq =~= r.seq);
        assert(finished =~= r);
        assert((seq![r.seq] + lrest).skip(1) =~= lrest);
        lemma_parse_from_cons(finished, lrest);
        assert(parse_from(None, lrest) == Some(rest));
        assert(parse_from(Some(finished), lrest) == Some(seq![finished] + rest));
        assert(parse_from(Some(started), lines.skip(1)) == Some(seq![finished] + rest));
        assert(parse_from(None, lines) == Some(seq![finished] + rest));
        assert(seq![finished] + rest =~= rs);
    }
}

/// Filtering well-formed records leaves well-formed records.
proof fn lemma_filter_recs_wf(n: int, s: int, q: int, rs: Seq<RecordModel>)
    requires
        records_wf(rs),
    ensures
        records_wf(filter_recs(n, s, q, rs)),
    decreases rs.len(),
{
    if rs.len() != 0 {
        let t = rs.drop_last();
        assert forall|k: int| 0 <= k < t.len() implies wf_record(#[trigger] t[k]) by {
            assert(t[k] == rs[k]);
        }
        lemma_filter_recs_wf(n, s, q, t);
        let ft = filter_recs(n, s, q, t);
        let out = filter_recs(n, s, q, rs);
        assert(wf_record(rs[rs.len() - 1]));
        assert forall|k: int| 0 <= k < out.len() implies wf_record(#[trigger] out[k]) by {
            if k < ft.len() {
                assert(out[k] == ft[k]);
            } else {
                assert(out[k] == rs.last());
            }
        }
    }
}

/// The full circle: when a run succeeds, the bytes it writes out, fed back
/// in as input, parse to exactly the records the run kept — none lost, none
/// added, none changed, in the same order.
pub proof fn lemma_run_output_parses_back(bytes: Seq<u8>)
    requires
        run_spec(bytes) is Ok,
    ensures
        ({
            let rs = parse_fasta_spec(bytes)->Some_0;
            let kept = filter_recs(
                rs.len() as int,
                sum_of(lengths_model(rs)),
                sum_sq_of(lengths_model(rs)),
                rs,
            );
            parse_fasta_spec(run_spec(bytes)->Ok_0) == Some(kept)
        }),
{
    let rs = parse_fasta_spec(bytes)->Some_0;
    let kept = filter_recs(
        rs.len() as int,
        sum_of(lengths_model(rs)),
        sum_sq_of(lengths_model(rs)),
        rs,
    );
    crate::parse::lemma_parsed_records_wf(bytes);
    lemma_filter_recs_wf(
        rs.len() as int,
        sum_of(lengths_model(rs)),
        sum_sq_of(lengths_model(rs)),
        rs,
    );
    lemma_output_round_trip(kept);
}

/// A record holding an ambiguous base anywhere in its sequence is excluded,
/// whatever its length and whatever the statistics.
pub proof fn lemma_ambiguous_excluded(n: int, s: int, q: int, r: RecordModel)
    requires
        has_ambiguous(r.seq),
    ensures
        !record_passes(n, s, q, r),
{
}

/// Against statistics of zero variance (every length equal to `k`), a record
/// is kept exactly when its length is k and its sequence holds no ambiguous
/// base.
pub proof fn lemma_zero_variance_record(stats: ReadLengthStats, k: int, r: RecordModel)
    requires
        stats.wf(),
        forall|i: int| 0 <= i < stats.lengths@.len() ==> stats.lengths@[i] == k,
    ensures
        record_passes(stats.count as int, stats.sum as int, stats.sum_sq as int, r) <==> (
        r.seq.len() == k && !has_ambiguous(r.seq)),
{
    lemma_zero_variance(stats, k);
    assert(stats.accepts(r.seq.len() as int) <==> r.seq.len() as int == k);
}

} // verus!
