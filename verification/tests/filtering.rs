use filter_454::FilterError;
use filter_454::ReadLengthStats;
use filter_454::SequenceRecord;
use filter_454::has_ambiguous_bases;
use filter_454::parse_fasta;
use filter_454::run;
use filter_454::seq_is_good;

fn record(id: &[u8], desc: Option<&[u8]>, seq: &[u8]) -> SequenceRecord {
    SequenceRecord {
        id: id.to_vec(),
        desc: desc.map(|d| d.to_vec()),
        seq: seq.to_vec(),
    }
}

fn stats_of(lengths: &[usize]) -> ReadLengthStats {
    ReadLengthStats::get_read_length_stats(&lengths.to_vec())
}

#[test]
fn ambiguous_base_detection() {
    assert!(!has_ambiguous_bases(&b"ACGTACGT".to_vec()));
    assert!(has_ambiguous_bases(&b"ACGTNACGT".to_vec()));
    assert!(has_ambiguous_bases(&b"acgtnacgt".to_vec()));
    assert!(has_ambiguous_bases(&b"N".to_vec()));
    assert!(!has_ambiguous_bases(&b"".to_vec()));
}

#[test]
fn stats_exact_aggregates() {
    let stats = stats_of(&[10, 10, 100]);
    assert_eq!(stats.count, 3);
    assert_eq!(stats.sum, 120);
    assert_eq!(stats.sum_sq, 10200);
}

#[test]
fn population_standard_deviation_convention() {
    // mean 40; population sd sqrt(1800) = 42.43, not the sample sd 51.96.
    let stats = stats_of(&[10, 10, 100]);
    let n = stats.count as f64;
    let mean = stats.sum as f64 / n;
    let disc = (stats.count as f64) * (stats.sum_sq as f64) - (stats.sum as f64) * (stats.sum as f64);
    let sd = disc.sqrt() / n;
    assert!((mean - 40.0).abs() < 1e-9);
    assert!((sd - 42.426406871192853).abs() < 1e-9);
    let min_allowed = mean - 2.0 * sd;
    let max_allowed = mean + 2.0 * sd;
    assert!((min_allowed - (-44.852813742385706)).abs() < 1e-9);
    assert!((max_allowed - 124.85281374238571).abs() < 1e-9);
}

#[test]
fn mean_always_within_bounds() {
    // Lengths [10, 20]: mean 15 lies within [5, 25].
    let stats = stats_of(&[10, 20]);
    let within = record(b"m", None, &vec![b'A'; 15]);
    assert!(seq_is_good(&within, &stats));
}

#[test]
fn bounds_are_inclusive_on_both_ends() {
    // Lengths [10, 20]: mean 15, sd 5, bounds exactly [5, 25].
    let stats = stats_of(&[10, 20]);
    assert!(seq_is_good(&record(b"a", None, &vec![b'A'; 5]), &stats));
    assert!(seq_is_good(&record(b"b", None, &vec![b'A'; 25]), &stats));
    assert!(!seq_is_good(&record(b"c", None, &vec![b'A'; 4]), &stats));
    assert!(!seq_is_good(&record(b"d", None, &vec![b'A'; 26]), &stats));
}

#[test]
fn zero_variance_keeps_only_exact_length() {
    let stats = stats_of(&[50, 50]);
    assert_eq!(stats.count * (stats.sum_sq as usize), (stats.sum * stats.sum) as usize);
    assert!(seq_is_good(&record(b"a", None, &vec![b'A'; 50]), &stats));
    assert!(!seq_is_good(&record(b"b", None, &vec![b'A'; 49]), &stats));
    assert!(!seq_is_good(&record(b"c", None, &vec![b'A'; 51]), &stats));
}

#[test]
fn ambiguous_record_excluded_regardless_of_length() {
    // Length 50 is squarely within the bounds, yet one N excludes the record.
    let stats = stats_of(&[50, 50]);
    let mut seq = vec![b'A'; 50];
    seq[25] = b'N';
    assert!(!seq_is_good(&record(b"a", None, &seq), &stats));
    let mut lower = vec![b'A'; 50];
    lower[0] = b'n';
    assert!(!seq_is_good(&record(b"b", None, &lower), &stats));
}

#[test]
fn three_records_all_pass() {
    // Lengths [10, 10, 100], no ambiguous bases: bounds roughly
    // [-44.85, 124.85], so all three records come out, in input order.
    let mut input = Vec::new();
    input.extend_from_slice(b">r1 first\nACGTACGTAC\n>r2\nTGCATGCATG\n>r3 third\n");
    input.extend_from_slice(&vec![b'G'; 100]);
    input.extend_from_slice(b"\n");
    let out = run(&input).unwrap();
    assert_eq!(out, input);
}

#[test]
fn record_with_ambiguous_base_is_dropped() {
    // Lengths [50, 50]: mean 50, sd 0, bounds [50, 50]; the record with the
    // N is dropped, the clean one is emitted.
    let clean = vec![b'A'; 50];
    let mut dirty = vec![b'C'; 50];
    dirty[10] = b'N';
    let mut input = Vec::new();
    input.extend_from_slice(b">keep\n");
    input.extend_from_slice(&clean);
    input.extend_from_slice(b"\n>drop\n");
    input.extend_from_slice(&dirty);
    input.extend_from_slice(b"\n");
    let mut expected = Vec::new();
    expected.extend_from_slice(b">keep\n");
    expected.extend_from_slice(&clean);
    expected.extend_from_slice(b"\n");
    assert_eq!(run(&input).unwrap(), expected);
}

#[test]
fn surviving_records_keep_their_order() {
    // Lengths [20, 1, 20, 1, 20]: mean 12.4, sd 9.3, bounds [-6.2, 31.0];
    // every length passes, but two records hold an N, so exactly the clean
    // three come out in their original order.
    let input = b">a\nAAAAAAAAAAAAAAAAAAAA\n>b\nN\n>c\nCCCCCCCCCCCCCCCCCCCC\n>d\nn\n>e\nGGGGGGGGGGGGGGGGGGGG\n".to_vec();
    let expected = b">a\nAAAAAAAAAAAAAAAAAAAA\n>c\nCCCCCCCCCCCCCCCCCCCC\n>e\nGGGGGGGGGGGGGGGGGGGG\n".to_vec();
    assert_eq!(run(&input).unwrap(), expected);
}

#[test]
fn empty_input_is_a_distinct_error() {
    let out = run(&Vec::new());
    assert_eq!(out, Err(FilterError::EmptyInput));
}

#[test]
fn zero_surviving_records_is_not_an_error() {
    // Both records hold an N: the run succeeds with empty output.
    let input = b">a\nNN\n>b\nAN\n".to_vec();
    assert_eq!(run(&input).unwrap(), Vec::<u8>::new());
}

#[test]
fn run_output_reparses_to_the_kept_records() {
    // Lengths [4, 4, 4]: sd 0, every length passes; the N record is dropped.
    let input = b">a\nAAAA\n>b first\nNNNN\n>c\nCCCC\n".to_vec();
    let out = run(&input).unwrap();
    let records = parse_fasta(&out).unwrap();
    assert_eq!(records.len(), 2);
    assert_eq!(records[0].id, b"a".to_vec());
    assert_eq!(records[0].seq, b"AAAA".to_vec());
    assert_eq!(records[1].id, b"c".to_vec());
    assert_eq!(records[1].seq, b"CCCC".to_vec());
}

#[test]
fn malformed_input_is_a_parse_error() {
    let input = b"ACGT\n>a\nACGT\n".to_vec();
    assert_eq!(run(&input), Err(FilterError::ParseError));
}
