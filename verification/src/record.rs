use vstd::prelude::*;

verus! {

/// One sequence entry from the input: an identifier, an optional free-text
/// description, and the sequence of residue symbols, all as raw bytes.
#[derive(Debug)]
pub struct SequenceRecord {
    pub id: Vec<u8>,
    pub desc: Option<Vec<u8>>,
    pub seq: Vec<u8>,
}

/// The mathematical model of a record: the same three parts as sequences of bytes.
#[verifier::ext_equal]
pub ghost struct RecordModel {
    pub id: Seq<u8>,
    pub desc: Option<Seq<u8>>,
    pub seq: Seq<u8>,
}

impl View for SequenceRecord {
    type V = RecordModel;

    open spec fn view(&self) -> RecordModel {
        RecordModel {
            id: self.id@,
            desc: match self.desc {
                Some(d) => Some(d@),
                None => None,
            },
            seq: self.seq@,
        }
    }
}

/// The models of a sequence of records.
pub open spec fn views_of(rs: Seq<SequenceRecord>) -> Seq<RecordModel> {
    rs.map(|i: int, r: SequenceRecord| r@)
}

/// A record that the textual format can carry faithfully: the identifier is a
/// non-empty token without spaces or line breaks, the description and the
/// sequence contain no line breaks, and the sequence does not begin with the
/// header marker. Every record produced by the parser has this shape, and
/// every record of this shape survives a round trip through the format.
pub open spec fn wf_record(r: RecordModel) -> bool {
    &&& r.id.len() > 0
    &&& forall|i: int| 0 <= i < r.id.len() ==> #[trigger] r.id[i] != 32 && r.id[i] != 10
    &&& match r.desc {
        Some(d) => forall|i: int| 0 <= i < d.len() ==> #[trigger] d[i] != 10,
        None => true,
    }
    &&& forall|i: int| 0 <= i < r.seq.len() ==> #[trigger] r.seq[i] != 10
    &&& (r.seq.len() == 0 || r.seq[0] != 62)
}

/// Record sequences that the parser can produce: every record well formed.
pub open spec fn records_wf(rs: Seq<RecordModel>) -> bool {
    forall|k: int| 0 <= k < rs.len() ==> wf_record(#[trigger] rs[k])
}

/// The header line of a record's textual form: the marker, the identifier,
/// and, after a space, the description when there is one.
pub open spec fn header_of(r: RecordModel) -> Seq<u8> {
    seq![62u8] + r.id + (match r.desc {
        Some(d) => seq![32u8] + d,
        None => Seq::<u8>::empty(),
    })
}

/// The textual form of one record: its header line, a line break, and the
/// whole sequence on a single line (no wrapping).
pub open spec fn format_spec(r: RecordModel) -> Seq<u8> {
    header_of(r) + seq![10u8] + r.seq
}

/// The ambiguous-base symbols: the letter N in either case.
pub open spec fn is_ambiguous_byte(b: u8) -> bool {
    b == 78 || b == 110
}

/// Whether a sequence contains an ambiguous base anywhere.
pub open spec fn has_ambiguous(s: Seq<u8>) -> bool {
    exists|i: int| 0 <= i < s.len() && is_ambiguous_byte(s[i])
}

/// Appends all bytes of `src` to `dst`.
pub fn append_bytes(dst: &mut Vec<u8>, src: &Vec<u8>) -> (r: ())
    ensures
        final(dst)@ == old(dst)@ + src@,
{
    let mut i: usize = 0;
    while i < src.len()
        invariant
            0 <= i <= src@.len(),
            dst@ == old(dst)@ + src@.take(i as int),
        decreases src@.len() - i,
    {
        let b = src[i];
        dst.push(b);
        proof {
            assert(old(dst)@ + src@.take(i as int) + seq![src@[i as int]] =~= old(dst)@
                + src@.take(i + 1));
        }
        i = i + 1;
    }
    proof {
        assert(src@.take(src@.len() as int) =~= src@);
    }
}

/// Copies the bytes of `v` between `from` and `to`.
pub fn subvec(v: &Vec<u8>, from: usize, to: usize) -> (out: Vec<u8>)
    requires
        from <= to <= v@.len(),
    ensures
        out@ == v@.subrange(from as int, to as int),
{
    let mut out: Vec<u8> = Vec::new();
    let mut i: usize = from;
    while i < to
        invariant
            from <= i <= to <= v@.len(),
            out@ == v@.subrange(from as int, i as int),
        decreases to - i,
    {
        let b = v[i];
        out.push(b);
        proof {
            assert(v@.subrange(from as int, i as int) + seq![v@[i as int]] =~= v@.subrange(
                from as int,
                i + 1,
            ));
        }
        i = i + 1;
    }
    out
}

/// Copies a byte vector.
pub fn clone_bytes(v: &Vec<u8>) -> (out: Vec<u8>)
    ensures
        out@ == v@,
{
    let out = subvec(v, 0, v.len());
    proof {
        assert(v@.subrange(0, v@.len() as int) =~= v@);
    }
    out
}

/// Copies a record.
pub fn clone_record(r: &SequenceRecord) -> (out: SequenceRecord)
    ensures
        out@ == r@,
{
    let id = clone_bytes(&r.id);
    let desc = match &r.desc {
        Some(d) => Some(clone_bytes(d)),
        None => None,
    };
    let seq = clone_bytes(&r.seq);
    let out = SequenceRecord { id, desc, seq };
    proof {
        assert(out@ =~= r@);
    }
    out
}

/// Writes one record in the textual format: the marker and the identifier,
/// the description after a space when there is one, a line break, and the
/// sequence as one unwrapped line.
pub fn format_record(rec: &SequenceRecord) -> (out: Vec<u8>)
    ensures
        out@ == format_spec(rec@),
{
    let mut out: Vec<u8> = Vec::new();
    out.push(62);
    append_bytes(&mut out, &rec.id);
    match &rec.desc {
        Some(d) => {
            out.push(32);
            append_bytes(&mut out, d);
        },
        None => {},
    }
    out.push(10);
    append_bytes(&mut out, &rec.seq);
    proof {
        assert(out@ =~= format_spec(rec@));
    }
    out
}

/// Scans a sequence for an ambiguous base (the letter N, upper or lower case).
pub fn has_ambiguous_bases(seq: &Vec<u8>) -> (r: bool)
    ensures
        r == has_ambiguous(seq@),
{
    let mut i: usize = 0;
    while i < seq.len()
        invariant
            0 <= i <= seq@.len(),
            forall|j: int| 0 <= j < i ==> !is_ambiguous_byte(seq@[j]),
        decreases seq@.len() - i,
    {
        let b = seq[i];
        if b == 78 || b == 110 {
            assert(is_ambiguous_byte(seq@[i as int]));
            return true;
        }
        i = i + 1;
    }
    false
}

} // verus!
