use vstd::prelude::*;

use crate::pairer::histogram_total;

verus! {

/// Number of flag bits shown in the flag table.
pub const FLAG_COLUMNS: usize = 12;

/// Sum of a sequence of counts.
pub open spec fn count_sum(xs: Seq<usize>) -> int
    decreases xs.len(),
{
    if xs.len() == 0 {
        0
    } else {
        count_sum(xs.drop_last()) + xs.last()
    }
}

proof fn lemma_count_sum_monotone(xs: Seq<usize>, i: int)
    requires
        0 <= i <= xs.len(),
    ensures
        count_sum(xs.subrange(0, i)) <= count_sum(xs),
    decreases xs.len() - i,
{
    if i < xs.len() {
        lemma_count_sum_monotone(xs, i + 1);
        assert(xs.subrange(0, i + 1).drop_last() =~= xs.subrange(0, i));
    } else {
        assert(xs.subrange(0, i) =~= xs);
    }
}

/// The total of the counts.
pub fn sum(xs: &[usize]) -> (total: u64)
    requires
        count_sum(xs@) <= u64::MAX,
    ensures
        total == count_sum(xs@),
{
    let mut total: u64 = 0;
    let mut i: usize = 0;
    while i < xs.len()
        invariant
            i <= xs@.len(),
            total == count_sum(xs@.subrange(0, i as int)),
            count_sum(xs@) <= u64::MAX,
        decreases xs@.len() - i,
    {
        proof {
            assert(xs@.subrange(0, i + 1).drop_last() =~= xs@.subrange(0, i as int));
            lemma_count_sum_monotone(xs@, i + 1);
        }
        total = total + xs[i] as u64;
        i = i + 1;
    }
    proof {
        assert(xs@.subrange(0, i as int) =~= xs@);
    }
    total
}

/// Adds a worker's flag histogram into the running one, entry by entry; an
/// entry that would pass the largest `usize` stays at it.
pub fn merge_flags(total: &mut Vec<usize>, other: &Vec<usize>)
    requires
        old(total)@.len() == other@.len(),
    ensures
        final(total)@.len() == old(total)@.len(),
        forall|f: int|
            0 <= f < old(total)@.len() ==> #[trigger] final(total)@[f] == if old(total)@[f] + other@[f] <= usize::MAX {
                (old(total)@[f] + other@[f]) as usize
            } else {
                usize::MAX
            },
{
    let mut i: usize = 0;
    while i < total.len()
        invariant
            i <= total@.len(),
            total@.len() == old(total)@.len(),
            total@.len() == other@.len(),
            forall|f: int|
                0 <= f < i ==> #[trigger] total@[f] == if old(total)@[f] + other@[f] <= usize::MAX {
                    (old(total)@[f] + other@[f]) as usize
                } else {
                    usize::MAX
                },
            forall|f: int| i <= f < total@.len() ==> #[trigger] total@[f] == old(total)@[f],
        decreases total@.len() - i,
    {
        let a = total[i];
        let b = other[i];
        let merged = if a <= usize::MAX - b { a + b } else { usize::MAX };
        total.set(i, merged);
        i = i + 1;
    }
}

/// Merged histograms count as many records as the two together, when no
/// entry reaches the largest `usize`.
pub proof fn lemma_merged_total(a: Seq<usize>, b: Seq<usize>, merged: Seq<usize>)
    requires
        a.len() == b.len(),
        merged.len() == a.len(),
        forall|f: int| 0 <= f < a.len() ==> #[trigger] merged[f] == a[f] + b[f],
    ensures
        histogram_total(merged) == histogram_total(a) + histogram_total(b),
    decreases a.len(),
{
    if a.len() > 0 {
        lemma_merged_total(a.drop_last(), b.drop_last(), merged.drop_last());
    }
}

/// The twelve lowest bits of a flags word, lowest first, as shown in the flag
/// table.
pub fn flag_columns(word: usize) -> (r: Vec<usize>)
    ensures
        r@.len() == FLAG_COLUMNS,
        forall|k: int| 0 <= k < FLAG_COLUMNS ==> #[trigger] r@[k] == (word >> (k as usize)) & 1,
{
    let mut r: Vec<usize> = Vec::new();
    let mut k: usize = 0;
    while k < FLAG_COLUMNS
        invariant
            k <= FLAG_COLUMNS,
            r@.len() == k,
            forall|j: int| 0 <= j < k ==> #[trigger] r@[j] == (word >> (j as usize)) & 1,
        decreases FLAG_COLUMNS - k,
    {
        r.push((word >> k) & 1);
        k = k + 1;
    }
    r
}

} // verus!
