use vstd::multiset::Multiset;
use vstd::prelude::*;

use crate::block_writer::{submitted_side, BlockWriteError, LocalBlockPairWriter};
use crate::formatter::{fastq_side, lemma_formatter_sides, mate_pair_ok, ReadParFormatter};
use crate::pairer::{
    flag_count, histogram_total, lemma_histogram_counts_records, pair_step, pairing_run, Pairer, Remainder,
    FLAG_WORDS,
};
use crate::record::AlignedRead;
use crate::shuffler::{offer_step, option_seq, Shuffler};

verus! {

/// Number of pairs the reservoir holds.
pub const RESERVOIR_CAPACITY: usize = 65536;

/// Seed of every worker's generator, so that a run can be repeated.
pub const SHUFFLE_SEED: u64 = 19;

/// Why a worker stopped.
#[derive(Debug, PartialEq, Eq, Structural)]
pub enum ExtractError {
    /// Two records shared a name but were not one first and one last segment.
    MalformedPair,
    /// The pair writer's receiving side has gone.
    WriterClosed,
}

/// Whether a pair can be written as FASTQ.
pub fn is_mate_pair(p: &(AlignedRead, AlignedRead)) -> (r: bool)
    ensures
        r == mate_pair_ok(*p),
{
    let f0 = p.0.is_first_segment();
    let l0 = p.0.is_last_segment();
    let f1 = p.1.is_first_segment();
    let l1 = p.1.is_last_segment();
    let named = if f0 {
        p.0.name.is_some()
    } else {
        p.1.name.is_some()
    };
    (f0 || l0) && (f1 || l1) && f0 == !f1 && l0 == !l1 && named
}

fn writer_error(e: BlockWriteError) -> (r: ExtractError)
    ensures
        r == ExtractError::WriterClosed,
{
    match e {
        BlockWriteError::WriterClosed => ExtractError::WriterClosed,
    }
}

/// Every pair can be written: one first and one last segment, named.
pub open spec fn all_mate_pairs(pairs: Seq<(AlignedRead, AlignedRead)>) -> bool {
    forall|i: int| 0 <= i < pairs.len() ==> mate_pair_ok(#[trigger] pairs[i])
}

/// One worker's pipeline: records are paired, the pairs pass through the
/// reservoir, and what leaves it is written as FASTQ.
pub struct Extractor {
    pairer: Pairer,
    shuffler: Shuffler<(AlignedRead, AlignedRead)>,
    formatter: ReadParFormatter,
    rejected: Ghost<Seq<(AlignedRead, AlignedRead)>>,
}

impl Extractor {
    /// The records read so far.
    pub closed spec fn consumed(&self) -> Seq<AlignedRead> {
        self.pairer.consumed()
    }

    /// The pairs written as FASTQ so far.
    pub closed spec fn written(&self) -> Seq<(AlignedRead, AlignedRead)> {
        self.formatter.pairs()
    }

    /// The pairs waiting in the reservoir.
    pub closed spec fn held(&self) -> Seq<(AlignedRead, AlignedRead)> {
        self.shuffler.held()
    }

    /// The pairs that left the reservoir but could not be written.
    pub closed spec fn rejected(&self) -> Seq<(AlignedRead, AlignedRead)> {
        self.rejected@
    }

    /// The block pairs handed to the writer so far.
    pub closed spec fn submitted(&self) -> Seq<(Seq<u8>, Seq<u8>)> {
        self.formatter.submitted()
    }

    pub closed spec fn wf(&self) -> bool {
        &&& self.pairer.wf()
        &&& self.shuffler.wf()
        &&& self.shuffler.capacity() == RESERVOIR_CAPACITY
        &&& self.formatter.wf()
        &&& self.formatter.pairs().to_multiset().add(self.shuffler.held().to_multiset()).add(
            self.rejected@.to_multiset(),
        ) == self.pairer.emitted().to_multiset()
        &&& forall|i: int| 0 <= i < self.rejected@.len() ==> !mate_pair_ok(#[trigger] self.rejected@[i])
    }

    /// A worker that writes through `writers`, with a reservoir of 65,536
    /// pairs and its generator seeded with 19.
    pub fn new(writers: LocalBlockPairWriter) -> (e: Extractor)
        requires
            writers.wf(),
            writers.submitted() == Seq::<(Seq<u8>, Seq<u8>)>::empty(),
        ensures
            e.wf(),
            e.consumed() == Seq::<AlignedRead>::empty(),
            e.written() == Seq::<(AlignedRead, AlignedRead)>::empty(),
            e.held() == Seq::<(AlignedRead, AlignedRead)>::empty(),
            e.rejected() == Seq::<(AlignedRead, AlignedRead)>::empty(),
            e.submitted() == Seq::<(Seq<u8>, Seq<u8>)>::empty(),
    {
        let e = Extractor {
            pairer: Pairer::new(),
            shuffler: Shuffler::new(RESERVOIR_CAPACITY, SHUFFLE_SEED),
            formatter: ReadParFormatter::new(writers),
            rejected: Ghost(Seq::empty()),
        };
        proof {
            broadcast use vstd::seq_lib::group_to_multiset_ensures;

            assert(Seq::<(AlignedRead, AlignedRead)>::empty().to_multiset() =~= Multiset::empty());
            assert(Multiset::<(AlignedRead, AlignedRead)>::empty().add(Multiset::empty()).add(Multiset::empty())
                =~= Multiset::empty());
        }
        e
    }

    /// Number of records read so far.
    pub fn records_seen(&self) -> (n: usize)
        requires
            self.wf(),
        ensures
            n == self.consumed().len(),
    {
        self.pairer.records_seen()
    }

    /// Reads one record; a pair that it completes enters the reservoir, and the
    /// pair that this pushes out is written. A pair that is not one first and
    /// one last segment is refused.
    pub fn feed(&mut self, rec: AlignedRead) -> (r: Result<(), ExtractError>)
        requires
            old(self).wf(),
            old(self).consumed().len() < usize::MAX,
        ensures
            final(self).wf(),
            final(self).consumed() == old(self).consumed().push(rec),
            pair_step(pairing_run(old(self).consumed()).0, rec).1 is None ==> {
                &&& r is Ok
                &&& final(self).written() == old(self).written()
                &&& final(self).held() == old(self).held()
                &&& final(self).submitted() == old(self).submitted()
            },
            pair_step(pairing_run(old(self).consumed()).0, rec).1 is Some && old(self).held().len()
                < RESERVOIR_CAPACITY ==> {
                &&& r is Ok
                &&& final(self).written() == old(self).written()
                &&& final(self).held() == old(self).held().push(pair_step(pairing_run(old(self).consumed()).0, rec).1->Some_0)
                &&& final(self).submitted() == old(self).submitted()
            },
            r is Ok ==> final(self).rejected() == old(self).rejected(),
            r == Err::<(), ExtractError>(ExtractError::WriterClosed) ==> final(self).rejected() == old(self).rejected(),
            all_mate_pairs(pairing_run(final(self).consumed()).1) ==> r != Err::<(), ExtractError>(ExtractError::MalformedPair),
    {
        broadcast use vstd::seq_lib::group_to_multiset_ensures, vstd::multiset::group_multiset_axioms;

        proof {
            lemma_histogram_counts_records(&self.pairer);
        }
        let ghost emitted0 = self.pairer.emitted();
        let out = self.pairer.accept(rec);
        proof {
            lemma_histogram_counts_records(&self.pairer);
        }
        match out {
            None => {
                assert(self.formatter.pairs().to_multiset().add(self.shuffler.held().to_multiset()).add(
                    self.rejected@.to_multiset(),
                ) =~= self.pairer.emitted().to_multiset());
                Ok(())
            },
            Some(pair) => {
                let ghost held0 = self.shuffler.held();
                let leaving = self.shuffler.offer(pair);
                proof {
                    vstd::seq_lib::to_multiset_build(emitted0, pair);
                }
                match leaving {
                    None => {
                        assert(option_seq::<(AlignedRead, AlignedRead)>(None).to_multiset() =~= Multiset::empty());
                        assert(self.formatter.pairs().to_multiset().add(self.shuffler.held().to_multiset()).add(
                            self.rejected@.to_multiset(),
                        ) =~= self.pairer.emitted().to_multiset());
                        proof {
                            assert(self.shuffler.held() =~= held0.push(pair));
                        }
                        Ok(())
                    },
                    Some(p) => {
                        proof {
                            lemma_single_multiset(p);
                            if held0.len() < RESERVOIR_CAPACITY {
                                let j = choose|j: int| 0 <= j < RESERVOIR_CAPACITY && (self.shuffler.held(), leaving) == offer_step(held0, RESERVOIR_CAPACITY as nat, pair, j);
                                assert(false);
                            }
                        }
                        if !is_mate_pair(&p) {
                            proof {
                                let rj = self.rejected@.push(p);
                                vstd::seq_lib::to_multiset_build(self.rejected@, p);
                                assert(self.formatter.pairs().to_multiset().add(self.shuffler.held().to_multiset()).add(
                                    rj.to_multiset(),
                                ) =~= self.pairer.emitted().to_multiset());
                                self.rejected = Ghost(rj);
                                lemma_rejected_breaks(self);
                            }
                            return Err(ExtractError::MalformedPair);
                        }
                        let ghost pairs0 = self.formatter.pairs();
                        let res = self.formatter.write(p);
                        proof {
                            vstd::seq_lib::to_multiset_build(pairs0, p);
                            assert(self.formatter.pairs().to_multiset().add(self.shuffler.held().to_multiset()).add(
                                self.rejected@.to_multiset(),
                            ) =~= self.pairer.emitted().to_multiset());
                        }
                        match res {
                            Ok(()) => Ok(()),
                            Err(e) => Err(writer_error(e)),
                        }
                    },
                }
            },
        }
    }

    /// Ends the input: empties the reservoir into the formatter, hands the
    /// last bytes to the writer, and returns the records left without a mate
    /// with the flag histogram.
    pub fn finish(&mut self) -> (r: Result<Remainder, ExtractError>)
        requires
            old(self).wf(),
        ensures
            pairing_run(old(self).consumed()).1.len() == 0 ==> r is Ok,
            all_mate_pairs(pairing_run(old(self).consumed()).1) ==> r != Err::<Remainder, ExtractError>(ExtractError::MalformedPair),
            r is Err ==> final(self).wf() && final(self).consumed() == old(self).consumed(),
            r matches Ok(rem) ==> {
                &&& rem.tail@ == pairing_run(old(self).consumed()).0
                &&& rem.flags@.len() == FLAG_WORDS
                &&& histogram_total(rem.flags@) == old(self).consumed().len()
                &&& forall|f: int| 0 <= f < FLAG_WORDS ==> #[trigger] rem.flags@[f] == flag_count(old(self).consumed(), f)
                &&& final(self).written().to_multiset().add(old(self).rejected().to_multiset())
                    == pairing_run(old(self).consumed()).1.to_multiset()
                &&& submitted_side(final(self).submitted(), 0) == fastq_side(final(self).written(), 0)
                &&& submitted_side(final(self).submitted(), 1) == fastq_side(final(self).written(), 1)
            },
    {
        broadcast use vstd::seq_lib::group_to_multiset_ensures, vstd::multiset::group_multiset_axioms;

        proof {
            lemma_histogram_counts_records(&self.pairer);
        }
        loop
            invariant
                self.wf(),
                self.pairer == old(self).pairer,
                self.rejected == old(self).rejected,
                self.pairer.emitted() == pairing_run(old(self).consumed()).1,
            ensures
                self.wf(),
                self.pairer == old(self).pairer,
                self.rejected == old(self).rejected,
                self.pairer.emitted() == pairing_run(old(self).consumed()).1,
                self.shuffler.held().len() == 0,
            decreases self.shuffler.held().len(),
        {
            let ghost held0 = self.shuffler.held();
            match self.shuffler.drain() {
                None => {
                    break;
                },
                Some(p) => {
                    proof {
                        lemma_single_multiset(p);
                        assert(held0.to_multiset().count(p) > 0);
                        assert(self.pairer.emitted().to_multiset().count(p) > 0);
                        vstd::seq_lib::to_multiset_contains(self.pairer.emitted(), p);
                        assert(self.pairer.emitted().contains(p));
                        assert(self.pairer.emitted().len() > 0);
                    }
                    if !is_mate_pair(&p) {
                        proof {
                            let rj = self.rejected@.push(p);
                            vstd::seq_lib::to_multiset_build(self.rejected@, p);
                            assert(self.formatter.pairs().to_multiset().add(self.shuffler.held().to_multiset()).add(
                                rj.to_multiset(),
                            ) =~= self.pairer.emitted().to_multiset());
                            self.rejected = Ghost(rj);
                            lemma_rejected_breaks(self);
                        }
                        return Err(ExtractError::MalformedPair);
                    }
                    let ghost pairs0 = self.formatter.pairs();
                    let res = self.formatter.write(p);
                    proof {
                        vstd::seq_lib::to_multiset_build(pairs0, p);
                        assert(self.formatter.pairs().to_multiset().add(self.shuffler.held().to_multiset()).add(
                            self.rejected@.to_multiset(),
                        ) =~= self.pairer.emitted().to_multiset());
                    }
                    match res {
                        Ok(()) => {},
                        Err(e) => {
                            return Err(writer_error(e));
                        },
                    }
                },
            }
        }
        proof {
            assert(self.shuffler.held() =~= Seq::<(AlignedRead, AlignedRead)>::empty());
            if self.pairer.emitted().len() == 0 {
                lemma_empty_parts(self.formatter.pairs(), self.rejected@, self.shuffler.held(), self.pairer.emitted());
                assert(self.formatter.pairs() =~= Seq::<(AlignedRead, AlignedRead)>::empty());
                assert(fastq_side(self.formatter.pairs(), 0) =~= Seq::<u8>::empty());
                assert(fastq_side(self.formatter.pairs(), 1) =~= Seq::<u8>::empty());
                lemma_formatter_sides(&self.formatter);
                assert(self.formatter.pending().0.len() == 0);
                assert(self.formatter.pending().1.len() == 0);
            }
        }
        match self.formatter.flush() {
            Ok(()) => {},
            Err(e) => {
                return Err(writer_error(e));
            },
        }
        let mut pairer = Pairer::new();
        std::mem::swap(&mut pairer, &mut self.pairer);
        proof {
            lemma_histogram_counts_records(&pairer);
            assert(self.shuffler.held().to_multiset() =~= Multiset::empty());
            assert(self.formatter.pairs().to_multiset().add(Multiset::empty()) =~= self.formatter.pairs().to_multiset());
        }
        Ok(pairer.remainder())
    }
}

/// A pair that was refused shows that some pair made was not one first and
/// one last segment.
proof fn lemma_rejected_breaks(e: &Extractor)
    requires
        e.wf(),
        e.rejected@.len() > 0,
    ensures
        !all_mate_pairs(e.pairer.emitted()),
        !all_mate_pairs(pairing_run(e.pairer.consumed()).1),
{
    broadcast use vstd::seq_lib::group_to_multiset_ensures, vstd::multiset::group_multiset_axioms;

    lemma_histogram_counts_records(&e.pairer);
    let p = e.rejected@[0];
    assert(e.rejected@.to_multiset().count(p) > 0);
    assert(e.pairer.emitted().to_multiset().count(p) > 0);
    assert(e.pairer.emitted().contains(p));
    let i = choose|i: int| 0 <= i < e.pairer.emitted().len() && e.pairer.emitted()[i] == p;
    assert(!mate_pair_ok(e.pairer.emitted()[i]));
}

/// Parts that add up to nothing are empty.
proof fn lemma_empty_parts<A>(a: Seq<A>, b: Seq<A>, c: Seq<A>, total: Seq<A>)
    requires
        a.to_multiset().add(c.to_multiset()).add(b.to_multiset()) == total.to_multiset(),
        total.len() == 0,
    ensures
        a.len() == 0,
        b.len() == 0,
{
    broadcast use vstd::seq_lib::group_to_multiset_ensures, vstd::multiset::group_multiset_axioms;

    assert(total =~= Seq::<A>::empty());
    assert(total.to_multiset() =~= Multiset::empty());
    if a.len() > 0 {
        assert(a.to_multiset().count(a[0]) > 0);
        assert(total.to_multiset().count(a[0]) > 0);
    }
    if b.len() > 0 {
        assert(b.to_multiset().count(b[0]) > 0);
        assert(total.to_multiset().count(b[0]) > 0);
    }
}

proof fn lemma_single_multiset<U>(p: U)
    ensures
        option_seq(Some(p)).to_multiset() == Multiset::<U>::empty().insert(p),
{
    broadcast use vstd::seq_lib::group_to_multiset_ensures;

    assert(option_seq(Some(p)) =~= Seq::<U>::empty().push(p));
    assert(Seq::<U>::empty().to_multiset() =~= Multiset::empty());
}

/// The waiting records of the remainders, one remainder after another.
pub open spec fn tails_of(remainders: Seq<Remainder>) -> Seq<AlignedRead>
    decreases remainders.len(),
{
    if remainders.len() == 0 {
        Seq::empty()
    } else {
        tails_of(remainders.drop_last()) + remainders.last().tail@
    }
}

/// The records of all remainders, one remainder after another: the input of
/// the pass that pairs mates found by different workers.
pub fn orphan_records(remainders: Vec<Remainder>) -> (r: Vec<AlignedRead>)
    ensures
        r@ == tails_of(remainders@),
{
    let ghost all = remainders@;
    let count = remainders.len();
    let mut rest = remainders;
    let ghost n = count as nat;
    // `rest` is emptied from the back; the tails are then taken front first.
    let mut tails: Vec<Vec<AlignedRead>> = Vec::new();
    while rest.len() > 0
        invariant
            rest@.len() + tails@.len() == n,
            n == all.len(),
            n <= usize::MAX,
            forall|k: int| 0 <= k < rest@.len() ==> #[trigger] rest@[k] == all[k],
            forall|k: int| 0 <= k < tails@.len() ==> #[trigger] tails@[k]@ == all[n - 1 - k].tail@,
        decreases rest@.len(),
    {
        let rem = rest.pop().unwrap();
        tails.push(rem.tail);
    }
    let mut out: Vec<AlignedRead> = Vec::new();
    let mut taken: usize = 0;
    while tails.len() > 0
        invariant
            tails@.len() + taken == n,
            n == all.len(),
            n <= usize::MAX,
            forall|k: int| 0 <= k < tails@.len() ==> #[trigger] tails@[k]@ == all[n - 1 - k].tail@,
            out@ == tails_of(all.subrange(0, taken as int)),
        decreases tails@.len(),
    {
        let mut tail = tails.pop().unwrap();
        proof {
            let next = all.subrange(0, taken + 1);
            assert(next.drop_last() =~= all.subrange(0, taken as int));
            assert(tail@ == all[taken as int].tail@);
        }
        out.append(&mut tail);
        taken = taken + 1;
    }
    proof {
        assert(all.subrange(0, taken as int) =~= all);
    }
    out
}

} // verus!
