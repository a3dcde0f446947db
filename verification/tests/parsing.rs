use filter_454::FilterError;
use filter_454::SequenceRecord;
use filter_454::format_record;
use filter_454::parse_fasta;

fn record(id: &[u8], desc: Option<&[u8]>, seq: &[u8]) -> SequenceRecord {
    SequenceRecord {
        id: id.to_vec(),
        desc: desc.map(|d| d.to_vec()),
        seq: seq.to_vec(),
    }
}

#[test]
fn parses_identifier_description_and_sequence() {
    let input = b">read1 a longer description\nACGTACGT\n".to_vec();
    let recs = parse_fasta(&input).unwrap();
    assert_eq!(recs.len(), 1);
    assert_eq!(recs[0].id, b"read1".to_vec());
    assert_eq!(recs[0].desc, Some(b"a longer description".to_vec()));
    assert_eq!(recs[0].seq, b"ACGTACGT".to_vec());
}

#[test]
fn parses_header_without_description() {
    let input = b">read1\nACGT\n".to_vec();
    let recs = parse_fasta(&input).unwrap();
    assert_eq!(recs.len(), 1);
    assert_eq!(recs[0].id, b"read1".to_vec());
    assert_eq!(recs[0].desc, None);
    assert_eq!(recs[0].seq, b"ACGT".to_vec());
}

#[test]
fn concatenates_wrapped_sequence_lines() {
    let input = b">r\nACGT\nTTTT\nGG\n>s\nAA\n".to_vec();
    let recs = parse_fasta(&input).unwrap();
    assert_eq!(recs.len(), 2);
    assert_eq!(recs[0].seq, b"ACGTTTTTGG".to_vec());
    assert_eq!(recs[1].seq, b"AA".to_vec());
}

#[test]
fn final_line_without_newline_still_counts() {
    let input = b">r\nACGT".to_vec();
    let recs = parse_fasta(&input).unwrap();
    assert_eq!(recs.len(), 1);
    assert_eq!(recs[0].seq, b"ACGT".to_vec());
}

#[test]
fn empty_input_yields_no_records() {
    let recs = parse_fasta(&Vec::new()).unwrap();
    assert_eq!(recs.len(), 0);
}

#[test]
fn sequence_before_first_header_is_malformed() {
    let input = b"ACGT\n>r\nACGT\n".to_vec();
    assert_eq!(parse_fasta(&input).unwrap_err(), FilterError::ParseError);
}

#[test]
fn header_without_identifier_is_malformed() {
    let input = b">\nACGT\n".to_vec();
    assert_eq!(parse_fasta(&input).unwrap_err(), FilterError::ParseError);
    let spaced = b"> description only\nACGT\n".to_vec();
    assert_eq!(parse_fasta(&spaced).unwrap_err(), FilterError::ParseError);
}

#[test]
fn formats_record_without_description() {
    let r = record(b"r1", None, b"ACGT");
    assert_eq!(format_record(&r), b">r1\nACGT".to_vec());
}

#[test]
fn formats_record_with_description() {
    let r = record(b"r1", Some(b"desc here"), b"ACGT");
    assert_eq!(format_record(&r), b">r1 desc here\nACGT".to_vec());
}

#[test]
fn round_trip_preserves_every_part() {
    let originals = vec![
        record(b"plain", None, b"ACGTACGT"),
        record(b"described", Some(b"some words here"), b"TTTT"),
        record(b"emptydesc", Some(b""), b"GG"),
        record(b"emptyseq", None, b""),
    ];
    for original in originals {
        let mut text = format_record(&original);
        text.push(b'\n');
        let reparsed = parse_fasta(&text).unwrap();
        assert_eq!(reparsed.len(), 1);
        assert_eq!(reparsed[0].id, original.id);
        assert_eq!(reparsed[0].desc, original.desc);
        assert_eq!(reparsed[0].seq, original.seq);
    }
}
