use noodles::fastq;
use vstd::prelude::*;

verus! {

/// Byte of `@`, which opens a FASTQ record.
pub const AT_SIGN: u8 = 64;

/// Byte of `+`, the separator line.
pub const PLUS_SIGN: u8 = 43;

/// Byte of a space, between a name and a description.
pub const SPACE: u8 = 32;

/// Byte of a line feed.
pub const NEWLINE: u8 = 10;

/// The four lines of a FASTQ record: `@name` (with ` description` where there
/// is one), the bases, `+`, and the quality scores.
pub open spec fn fastq_text(name: Seq<u8>, description: Seq<u8>, sequence: Seq<u8>, quality_scores: Seq<u8>) -> Seq<u8> {
    seq![AT_SIGN] + name + (if description.len() == 0 {
        Seq::empty()
    } else {
        seq![SPACE] + description
    }) + seq![NEWLINE] + sequence + seq![NEWLINE, PLUS_SIGN, NEWLINE] + quality_scores + seq![NEWLINE]
}

/// Appends the four lines of a FASTQ record with no description.
pub fn append_fastq_record(out: &mut Vec<u8>, name: &[u8], sequence: &[u8], quality_scores: &[u8])
    ensures
        final(out)@ == old(out)@ + fastq_text(name@, Seq::empty(), sequence@, quality_scores@),
{
    out.push(AT_SIGN);
    out.extend_from_slice(name);
    out.push(NEWLINE);
    out.extend_from_slice(sequence);
    out.push(NEWLINE);
    out.push(PLUS_SIGN);
    out.push(NEWLINE);
    out.extend_from_slice(quality_scores);
    out.push(NEWLINE);
    assert(out@ =~= old(out)@ + fastq_text(name@, Seq::empty(), sequence@, quality_scores@));
}

/// Relies on noodles' `fastq::Writer::write_record`, which writes `@`, the
/// name, a space and the description where it is not empty, a line feed, the
/// bases, a line feed, `+` and a line feed, the quality scores and a line
/// feed. Writing into a `Vec` does not fail.
#[verifier::external_body]
pub(crate) fn fastq_record_bytes(name: &[u8], description: &[u8], sequence: &[u8], quality_scores: &[u8]) -> (r: Vec<u8>)
    ensures
        r@ == fastq_text(name@, description@, sequence@, quality_scores@),
{
    let record = fastq::Record::new(
        fastq::record::Definition::new(name, description),
        sequence,
        quality_scores,
    );
    let mut writer = fastq::Writer::new(Vec::new());
    let _written = writer.write_record(&record);
    writer.get_ref().clone()
}

} // verus!
