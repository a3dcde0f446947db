use vstd::prelude::*;

mod error;
mod parse;
mod pipeline;
mod record;
mod stats;

pub use error::FilterError;
pub use parse::lemma_parsed_records_wf;
pub use parse::lemma_round_trip;
pub use parse::lines_of;
pub use parse::parse_fasta;
pub use parse::parse_fasta_spec;
pub use pipeline::filter_records;
pub use pipeline::filter_recs;
pub use pipeline::get_read_lengths;
pub use pipeline::lemma_ambiguous_excluded;
pub use pipeline::lemma_output_round_trip;
pub use pipeline::lemma_run_output_parses_back;
pub use pipeline::lemma_zero_variance_record;
pub use pipeline::lengths_model;
pub use pipeline::record_passes;
pub use pipeline::render_records;
pub use pipeline::render_spec;
pub use pipeline::run;
pub use pipeline::run_spec;
pub use pipeline::seq_is_good;
pub use record::RecordModel;
pub use record::SequenceRecord;
pub use record::format_record;
pub use record::format_spec;
pub use record::has_ambiguous;
pub use record::has_ambiguous_bases;
pub use record::records_wf;
pub use record::views_of;
pub use record::wf_record;
pub use stats::LENGTH_LIMIT;
pub use stats::ReadLengthStats;
pub use stats::length_accepted;
pub use stats::lemma_bounds_contain_mean;
pub use stats::lemma_cauchy_schwarz;
pub use stats::lemma_sum_bounds;
pub use stats::lemma_zero_variance;
pub use stats::sum_of;
pub use stats::sum_sq_of;

verus! {

/// The parsed command line: the one positional argument is the path to the
/// input sequence file.
pub struct CliArgs {
    pub infile: String,
}

} // verus!
