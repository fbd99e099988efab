use vstd::prelude::*;

use crate::block_writer::{submitted_side, BlockWriteError, LocalBlockPairWriter};
use crate::fastq::{append_fastq_record, fastq_text, AT_SIGN, NEWLINE};
use crate::record::{
    complement_base, has_flag, name_of, reverse_complement_of, AlignedRead, FLAG_FIRST_SEGMENT, FLAG_LAST_SEGMENT,
    FLAG_REVERSE_COMPLEMENTED,
};

verus! {

/// Combined size of the two side buffers above which they are handed to the
/// writer (16 MiB).
pub const BLOCK_THRESHOLD: usize = 16777216;

pub open spec fn is_first(r: AlignedRead) -> bool {
    has_flag(r.flags, FLAG_FIRST_SEGMENT)
}

pub open spec fn is_last(r: AlignedRead) -> bool {
    has_flag(r.flags, FLAG_LAST_SEGMENT)
}

/// A pair that can be written: each record is a first or a last segment, the
/// two are opposite, and the first segment has a name.
pub open spec fn mate_pair_ok(p: (AlignedRead, AlignedRead)) -> bool {
    &&& is_first(p.0) || is_last(p.0)
    &&& is_first(p.1) || is_last(p.1)
    &&& is_first(p.0) == !is_first(p.1)
    &&& is_last(p.0) == !is_last(p.1)
    &&& ordered(p).0.name.is_some()
}

/// The pair with its first segment first.
pub open spec fn ordered(p: (AlignedRead, AlignedRead)) -> (AlignedRead, AlignedRead) {
    if is_first(p.0) {
        p
    } else {
        (p.1, p.0)
    }
}

/// The bases of a record on the forward strand.
pub open spec fn forward_bases(r: AlignedRead) -> Seq<u8> {
    if has_flag(r.flags, FLAG_REVERSE_COMPLEMENTED) {
        reverse_complement_of(r.sequence@)
    } else {
        r.sequence@
    }
}

/// The quality scores of a record on the forward strand.
pub open spec fn forward_qualities(r: AlignedRead) -> Seq<u8> {
    if has_flag(r.flags, FLAG_REVERSE_COMPLEMENTED) {
        r.quality_scores@.reverse()
    } else {
        r.quality_scores@
    }
}

/// The name that both FASTQ records of a pair carry: the first segment's.
pub open spec fn pair_name(p: (AlignedRead, AlignedRead)) -> Seq<u8> {
    name_of(ordered(p).0)
}

/// The FASTQ record that a pair gives on side 0 (first segment) or side 1
/// (last segment).
pub open spec fn side_record(p: (AlignedRead, AlignedRead), side: int) -> Seq<u8> {
    let r = if side == 0 {
        ordered(p).0
    } else {
        ordered(p).1
    };
    fastq_text(pair_name(p), Seq::empty(), forward_bases(r), forward_qualities(r))
}

/// The FASTQ text of one side for a sequence of pairs, in order.
pub open spec fn fastq_side(pairs: Seq<(AlignedRead, AlignedRead)>, side: int) -> Seq<u8>
    decreases pairs.len(),
{
    if pairs.len() == 0 {
        Seq::empty()
    } else {
        fastq_side(pairs.drop_last(), side) + side_record(pairs.last(), side)
    }
}

/// Writes mate pairs as FASTQ into two side buffers and hands both buffers to
/// the pair writer as one block pair once they grow past the threshold.
pub struct ReadParFormatter {
    buffers: (Vec<u8>, Vec<u8>),
    writers: LocalBlockPairWriter,
    pairs: Ghost<Seq<(AlignedRead, AlignedRead)>>,
}

impl ReadParFormatter {
    /// The pairs written so far.
    pub closed spec fn pairs(&self) -> Seq<(AlignedRead, AlignedRead)> {
        self.pairs@
    }

    /// The block pairs handed to the writer so far.
    pub closed spec fn submitted(&self) -> Seq<(Seq<u8>, Seq<u8>)> {
        self.writers.submitted()
    }

    /// The bytes waiting in the side buffers.
    pub closed spec fn pending(&self) -> (Seq<u8>, Seq<u8>) {
        (self.buffers.0@, self.buffers.1@)
    }

    /// Every byte of a side is either handed to the writer or waiting, in the
    /// order of the pairs.
    pub closed spec fn wf(&self) -> bool {
        &&& self.writers.wf()
        &&& submitted_side(self.writers.submitted(), 0) + self.buffers.0@ == fastq_side(self.pairs@, 0)
        &&& submitted_side(self.writers.submitted(), 1) + self.buffers.1@ == fastq_side(self.pairs@, 1)
    }

    pub fn new(writers: LocalBlockPairWriter) -> (f: ReadParFormatter)
        requires
            writers.wf(),
            writers.submitted() == Seq::<(Seq<u8>, Seq<u8>)>::empty(),
        ensures
            f.wf(),
            f.pairs() == Seq::<(AlignedRead, AlignedRead)>::empty(),
            f.pending() == (Seq::<u8>::empty(), Seq::<u8>::empty()),
            f.submitted() == writers.submitted(),
    {
        let f = ReadParFormatter {
            buffers: (Vec::new(), Vec::new()),
            writers,
            pairs: Ghost(Seq::empty()),
        };
        proof {
            assert(Seq::<u8>::empty() + f.buffers.0@ =~= Seq::<u8>::empty());
            assert(Seq::<u8>::empty() + f.buffers.1@ =~= Seq::<u8>::empty());
        }
        f
    }

    /// Appends the pair's two FASTQ records, one to each side, the first
    /// segment on side 0, both under the first segment's name, each on the
    /// forward strand; then hands both buffers over if together they exceed
    /// the threshold.
    pub fn write(&mut self, pair: (AlignedRead, AlignedRead)) -> (r: Result<(), BlockWriteError>)
        requires
            old(self).wf(),
            mate_pair_ok(pair),
        ensures
            final(self).wf(),
            final(self).pairs() == old(self).pairs().push(pair),
            ({
                let grown = (old(self).pending().0 + side_record(pair, 0), old(self).pending().1 + side_record(pair, 1));
                if grown.0.len() + grown.1.len() <= BLOCK_THRESHOLD {
                    &&& r is Ok
                    &&& final(self).submitted() == old(self).submitted()
                    &&& final(self).pending() == grown
                } else {
                    &&& r is Ok ==> final(self).submitted() == old(self).submitted().push(grown)
                        && final(self).pending() == (Seq::<u8>::empty(), Seq::<u8>::empty())
                    &&& r is Err ==> final(self).submitted() == old(self).submitted()
                        && final(self).pending() == grown
                }
            }),
    {
        let ghost p = pair;
        let (mut r1, mut r2) = if pair.0.is_first_segment() {
            pair
        } else {
            (pair.1, pair.0)
        };
        if r1.is_reverse_complemented() {
            r1.reverse_complement();
        }
        if r2.is_reverse_complemented() {
            r2.reverse_complement();
        }
        let ghost b0 = self.buffers.0@;
        let ghost b1 = self.buffers.1@;
        match &r1.name {
            Some(name) => {
                append_fastq_record(&mut self.buffers.0, name.as_slice(), r1.sequence.as_slice(), r1.quality_scores.as_slice());
                append_fastq_record(&mut self.buffers.1, name.as_slice(), r2.sequence.as_slice(), r2.quality_scores.as_slice());
            },
            None => {},
        }
        proof {
            let np = self.pairs@.push(p);
            assert(np.drop_last() =~= self.pairs@);
            assert(b0 + side_record(p, 0) == self.buffers.0@);
            assert(b1 + side_record(p, 1) == self.buffers.1@);
            let s0 = submitted_side(self.writers.submitted(), 0);
            let s1 = submitted_side(self.writers.submitted(), 1);
            assert(s0 + (b0 + side_record(p, 0)) =~= (s0 + b0) + side_record(p, 0));
            assert(s1 + (b1 + side_record(p, 1)) =~= (s1 + b1) + side_record(p, 1));
            self.pairs = Ghost(np);
        }
        if self.buffers.0.len() > BLOCK_THRESHOLD || self.buffers.1.len() > BLOCK_THRESHOLD - self.buffers.0.len() {
            self.hand_over()
        } else {
            Ok(())
        }
    }

    /// Hands any bytes still waiting to the writer, both sides as one block
    /// pair.
    pub fn flush(&mut self) -> (r: Result<(), BlockWriteError>)
        requires
            old(self).wf(),
        ensures
            final(self).wf(),
            final(self).pairs() == old(self).pairs(),
            old(self).pending().0.len() + old(self).pending().1.len() == 0 ==> r is Ok
                && final(self).submitted() == old(self).submitted()
                && final(self).pending() == old(self).pending(),
            old(self).pending().0.len() + old(self).pending().1.len() > 0 ==> {
                &&& r is Ok ==> final(self).submitted() == old(self).submitted().push(old(self).pending())
                &&& r is Err ==> final(self).submitted() == old(self).submitted()
                    && final(self).pending() == old(self).pending()
            },
            r is Ok ==> final(self).pending() == (Seq::<u8>::empty(), Seq::<u8>::empty()),
            r is Ok ==> submitted_side(final(self).submitted(), 0) == fastq_side(final(self).pairs(), 0),
            r is Ok ==> submitted_side(final(self).submitted(), 1) == fastq_side(final(self).pairs(), 1),
    {
        if self.buffers.0.len() > 0 || self.buffers.1.len() > 0 {
            self.hand_over()
        } else {
            proof {
                assert(self.buffers.0@ =~= Seq::<u8>::empty());
                assert(self.buffers.1@ =~= Seq::<u8>::empty());
                assert(submitted_side(self.writers.submitted(), 0) + self.buffers.0@ =~= submitted_side(self.writers.submitted(), 0));
                assert(submitted_side(self.writers.submitted(), 1) + self.buffers.1@ =~= submitted_side(self.writers.submitted(), 1));
            }
            Ok(())
        }
    }

    /// Sends both buffers as one block pair and empties them.
    fn hand_over(&mut self) -> (r: Result<(), BlockWriteError>)
        requires
            old(self).wf(),
        ensures
            final(self).wf(),
            final(self).pairs() == old(self).pairs(),
            r is Ok ==> final(self).pending() == (Seq::<u8>::empty(), Seq::<u8>::empty())
                && final(self).submitted() == old(self).submitted().push(old(self).pending()),
            r is Err ==> final(self).pending() == old(self).pending()
                && final(self).submitted() == old(self).submitted(),
    {
        let ghost log = self.writers.submitted();
        let res = self.writers.write((self.buffers.0.as_slice(), self.buffers.1.as_slice()));
        match res {
            Ok(()) => {
                proof {
                    let nl = log.push((self.buffers.0@, self.buffers.1@));
                    assert(nl.drop_last() =~= log);
                }
                self.buffers.0.clear();
                self.buffers.1.clear();
                proof {
                    assert(self.buffers.0@ =~= Seq::<u8>::empty());
                    assert(self.buffers.1@ =~= Seq::<u8>::empty());
                    assert(submitted_side(self.writers.submitted(), 0) + self.buffers.0@ =~= submitted_side(self.writers.submitted(), 0));
                    assert(submitted_side(self.writers.submitted(), 1) + self.buffers.1@ =~= submitted_side(self.writers.submitted(), 1));
                }
                Ok(())
            },
            Err(e) => Err(e),
        }
    }
}

/// What a formatter has handed over, followed by what it holds, is the FASTQ
/// text of the pairs written, on each side.
pub proof fn lemma_formatter_sides(f: &ReadParFormatter)
    requires
        f.wf(),
    ensures
        submitted_side(f.submitted(), 0) + f.pending().0 == fastq_side(f.pairs(), 0),
        submitted_side(f.submitted(), 1) + f.pending().1 == fastq_side(f.pairs(), 1),
{
}

/// Number of line feeds in a byte string.
pub open spec fn line_count(s: Seq<u8>) -> nat {
    s.filter(|b: u8| b == NEWLINE).len()
}

pub open spec fn single_line(s: Seq<u8>) -> bool {
    forall|i: int| 0 <= i < s.len() ==> #[trigger] s[i] != NEWLINE
}

/// A pair whose name, bases and quality scores hold no line feed.
pub open spec fn pair_fields_single_line(p: (AlignedRead, AlignedRead)) -> bool {
    &&& single_line(pair_name(p))
    &&& single_line(p.0.sequence@) && single_line(p.0.quality_scores@)
    &&& single_line(p.1.sequence@) && single_line(p.1.quality_scores@)
}

proof fn lemma_single_line_count(s: Seq<u8>)
    requires
        single_line(s),
    ensures
        line_count(s) == 0,
{
    let pred = |b: u8| b == NEWLINE;
    assert(s.all(|x: u8| !pred(x)));
    s.lemma_all_neg_filter_empty(pred);
}

proof fn lemma_newline_count()
    ensures
        line_count(seq![NEWLINE]) == 1,
        line_count(seq![AT_SIGN]) == 0,
        line_count(seq![NEWLINE, 43u8, NEWLINE]) == 2,
{
    reveal_with_fuel(Seq::filter, 4);
    assert(seq![NEWLINE].drop_last() =~= Seq::<u8>::empty());
    assert(seq![AT_SIGN].drop_last() =~= Seq::<u8>::empty());
    assert(seq![NEWLINE, 43u8, NEWLINE].drop_last() =~= seq![NEWLINE, 43u8]);
    assert(seq![NEWLINE, 43u8].drop_last() =~= seq![NEWLINE]);
}

proof fn lemma_forward_single_line(r: AlignedRead)
    requires
        single_line(r.sequence@),
        single_line(r.quality_scores@),
    ensures
        single_line(forward_bases(r)),
        single_line(forward_qualities(r)),
{
    if has_flag(r.flags, FLAG_REVERSE_COMPLEMENTED) {
        let q = r.quality_scores@;
        assert forall|i: int| 0 <= i < q.reverse().len() implies #[trigger] q.reverse()[i] != NEWLINE by {
            assert(q.reverse()[i] == q[q.len() - 1 - i]);
        }
        assert forall|i: int| 0 <= i < forward_bases(r).len() implies #[trigger] forward_bases(r)[i] != NEWLINE by {
            let b = r.sequence@[r.sequence@.len() - 1 - i];
            assert(forward_bases(r)[i] == complement_base(b));
        }
    }
}

/// Each pair gives one FASTQ record of four lines on each side.
proof fn lemma_side_record_lines(p: (AlignedRead, AlignedRead), side: int)
    requires
        pair_fields_single_line(p),
    ensures
        line_count(side_record(p, side)) == 4,
{
    broadcast use Seq::filter_distributes_over_add;

    let r = if side == 0 {
        ordered(p).0
    } else {
        ordered(p).1
    };
    lemma_forward_single_line(r);
    lemma_single_line_count(pair_name(p));
    lemma_single_line_count(forward_bases(r));
    lemma_single_line_count(forward_qualities(r));
    lemma_single_line_count(Seq::empty());
    lemma_newline_count();
}

/// Both output files hold four lines per pair written, so they have the same
/// number of lines, a multiple of four.
pub proof fn lemma_sides_line_counts(pairs: Seq<(AlignedRead, AlignedRead)>, side: int)
    requires
        forall|i: int| 0 <= i < pairs.len() ==> pair_fields_single_line(#[trigger] pairs[i]),
    ensures
        line_count(fastq_side(pairs, side)) == 4 * pairs.len(),
    decreases pairs.len(),
{
    broadcast use Seq::filter_distributes_over_add;

    if pairs.len() > 0 {
        lemma_sides_line_counts(pairs.drop_last(), side);
        lemma_side_record_lines(pairs.last(), side);
    }
}

/// The records that a pair gives on the two sides open with the same name
/// line, so record `i` of one file is the mate of record `i` of the other.
pub proof fn lemma_side_records_share_name(p: (AlignedRead, AlignedRead))
    ensures
        side_record(p, 0).take(pair_name(p).len() as int + 2) == seq![AT_SIGN] + pair_name(p) + seq![NEWLINE],
        side_record(p, 1).take(pair_name(p).len() as int + 2) == seq![AT_SIGN] + pair_name(p) + seq![NEWLINE],
{
    let n = pair_name(p);
    assert(side_record(p, 0).take(n.len() as int + 2) =~= seq![AT_SIGN] + n + seq![NEWLINE]);
    assert(side_record(p, 1).take(n.len() as int + 2) =~= seq![AT_SIGN] + n + seq![NEWLINE]);
}

} // verus!
