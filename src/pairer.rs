use std::collections::HashMap;
use vstd::multiset::Multiset;
use vstd::prelude::*;

use crate::record::{is_pair_candidate, name_of, AlignedRead};

verus! {

/// Number of distinct flag words, and so the length of a flag histogram.
pub const FLAG_WORDS: usize = 65536;

/// Start value of the FNV-1a name hash.
pub const FNV_OFFSET: u64 = 14695981039346656037;

/// Multiplier of the FNV-1a name hash.
pub const FNV_PRIME: u64 = 1099511628211;

/// FNV-1a hash of a name, used to find waiting records by name.
pub open spec fn name_hash(name: Seq<u8>) -> u64
    decreases name.len(),
{
    if name.len() == 0 {
        FNV_OFFSET
    } else {
        (((name_hash(name.drop_last()) ^ (name.last() as u64)) as nat * FNV_PRIME as nat)
            % 0x1_0000_0000_0000_0000nat) as u64
    }
}

/// Index of the last record among the first `i` of `cache` that is named
/// `name`, or -1.
pub open spec fn last_named_below(cache: Seq<AlignedRead>, name: Seq<u8>, i: int) -> int
    decreases i,
{
    if i <= 0 {
        -1
    } else if name_of(cache[i - 1]) == name {
        i - 1
    } else {
        last_named_below(cache, name, i - 1)
    }
}

pub open spec fn index_of_name(cache: Seq<AlignedRead>, name: Seq<u8>) -> int {
    last_named_below(cache, name, cache.len() as int)
}

/// `s` without its element at `k`, the last element taking its place.
pub open spec fn swap_removed<A>(s: Seq<A>, k: int) -> Seq<A> {
    s.update(k, s.last()).drop_last()
}

/// One step of pairing: what becomes of the waiting records, and which pair
/// (earlier record first) comes out, when `r` is read.
pub open spec fn pair_step(cache: Seq<AlignedRead>, r: AlignedRead) -> (Seq<AlignedRead>, Option<(AlignedRead, AlignedRead)>) {
    if !is_pair_candidate(r) {
        (cache, None)
    } else {
        let k = index_of_name(cache, name_of(r));
        if k < 0 {
            (cache.push(r), None)
        } else {
            (swap_removed(cache, k), Some((cache[k], r)))
        }
    }
}

/// The waiting records and the pairs produced after reading `input` from the start.
pub open spec fn pairing_run(input: Seq<AlignedRead>) -> (Seq<AlignedRead>, Seq<(AlignedRead, AlignedRead)>)
    decreases input.len(),
{
    if input.len() == 0 {
        (Seq::empty(), Seq::empty())
    } else {
        let (cache, pairs) = pairing_run(input.drop_last());
        let (next, out) = pair_step(cache, input.last());
        match out {
            Some(p) => (next, pairs.push(p)),
            None => (next, pairs),
        }
    }
}

/// The records of `input` that take part in pairing, in order.
pub open spec fn candidates(input: Seq<AlignedRead>) -> Seq<AlignedRead> {
    input.filter(|r: AlignedRead| is_pair_candidate(r))
}

/// Both records of each pair, in order.
pub open spec fn pair_members(pairs: Seq<(AlignedRead, AlignedRead)>) -> Seq<AlignedRead>
    decreases pairs.len(),
{
    if pairs.len() == 0 {
        Seq::empty()
    } else {
        pair_members(pairs.drop_last()).push(pairs.last().0).push(pairs.last().1)
    }
}

pub open spec fn names_distinct(cache: Seq<AlignedRead>) -> bool {
    forall|i: int, j: int|
        0 <= i < cache.len() && 0 <= j < cache.len() && i != j ==> name_of(cache[i]) != name_of(
            cache[j],
        )
}

pub open spec fn all_candidates(cache: Seq<AlignedRead>) -> bool {
    forall|i: int| 0 <= i < cache.len() ==> is_pair_candidate(#[trigger] cache[i])
}

/// Sum of the counters of a histogram.
pub open spec fn histogram_total(h: Seq<usize>) -> int
    decreases h.len(),
{
    if h.len() == 0 {
        0
    } else {
        histogram_total(h.drop_last()) + h.last()
    }
}

/// Number of records of `input` whose flags word is `f`.
pub open spec fn flag_count(input: Seq<AlignedRead>, f: int) -> nat {
    input.filter(|r: AlignedRead| r.flags == f).len()
}

/// What a finished pairing leaves: the records whose mate never came, and the
/// histogram of the flags words of every record read.
pub struct Remainder {
    pub tail: Vec<AlignedRead>,
    pub flags: Vec<usize>,
}

/// Turns a stream of alignment records into mate pairs. Records wait by name
/// until their mate is read.
pub struct Pairer {
    cache: Vec<AlignedRead>,
    index: HashMap<u64, Vec<usize>>,
    flags: Vec<usize>,
    seen: usize,
    consumed: Ghost<Seq<AlignedRead>>,
    emitted: Ghost<Seq<(AlignedRead, AlignedRead)>>,
}

impl Pairer {
    /// The records read so far.
    pub closed spec fn consumed(&self) -> Seq<AlignedRead> {
        self.consumed@
    }

    /// The pairs handed out so far.
    pub closed spec fn emitted(&self) -> Seq<(AlignedRead, AlignedRead)> {
        self.emitted@
    }

    /// The records waiting for their mate.
    pub closed spec fn orphans(&self) -> Seq<AlignedRead> {
        self.cache@
    }

    /// The flag histogram.
    pub closed spec fn histogram(&self) -> Seq<usize> {
        self.flags@
    }

    pub closed spec fn wf(&self) -> bool {
        &&& pairing_run(self.consumed@) == (self.cache@, self.emitted@)
        &&& self.flags@.len() == FLAG_WORDS
        &&& forall|f: int| 0 <= f < FLAG_WORDS ==> #[trigger] self.flags@[f] == flag_count(self.consumed@, f)
        &&& histogram_total(self.flags@) == self.consumed@.len()
        &&& self.seen == self.consumed@.len()
        &&& names_distinct(self.cache@)
        &&& all_candidates(self.cache@)
        &&& index_complete(self.cache@, self.index@)
        &&& index_sound(self.cache@, self.index@)
    }

    pub fn new() -> (p: Pairer)
        ensures
            p.wf(),
            p.consumed() == Seq::<AlignedRead>::empty(),
            p.emitted() == Seq::<(AlignedRead, AlignedRead)>::empty(),
            p.orphans() == Seq::<AlignedRead>::empty(),
            p.histogram().len() == FLAG_WORDS,
            forall|f: int| 0 <= f < FLAG_WORDS ==> #[trigger] p.histogram()[f] == 0,
    {
        let mut flags: Vec<usize> = Vec::new();
        while flags.len() < FLAG_WORDS
            invariant
                flags@.len() <= FLAG_WORDS,
                forall|f: int| 0 <= f < flags@.len() ==> #[trigger] flags@[f] == 0,
                histogram_total(flags@) == 0,
            decreases FLAG_WORDS - flags.len(),
        {
            proof {
                assert(flags@.push(0).drop_last() =~= flags@);
            }
            flags.push(0);
        }
        let p = Pairer {
            cache: Vec::new(),
            index: HashMap::new(),
            flags,
            seen: 0,
            consumed: Ghost(Seq::empty()),
            emitted: Ghost(Seq::empty()),
        };
        proof {
            reveal(index_complete);
            reveal(index_sound);
            assert forall|f: int| 0 <= f < FLAG_WORDS implies #[trigger] p.flags@[f] == flag_count(
                p.consumed@,
                f,
            ) by {
                reveal(Seq::filter);
            }
        }
        p
    }

    /// Number of records read so far.
    pub fn records_seen(&self) -> (n: usize)
        requires
            self.wf(),
        ensures
            n == self.consumed().len(),
    {
        self.seen
    }

    /// Reads one record: counts its flags word, then, where it takes part in
    /// pairing, either hands out the pair that it completes (the waiting mate
    /// first) or keeps it waiting.
    pub fn accept(&mut self, rec: AlignedRead) -> (out: Option<(AlignedRead, AlignedRead)>)
        requires
            old(self).wf(),
            old(self).consumed().len() < usize::MAX,
        ensures
            final(self).wf(),
            final(self).consumed() == old(self).consumed().push(rec),
            (final(self).orphans(), out) == pair_step(old(self).orphans(), rec),
            final(self).emitted() == match out {
                Some(p) => old(self).emitted().push(p),
                None => old(self).emitted(),
            },
            final(self).histogram() == old(self).histogram().update(
                rec.flags as int,
                (old(self).histogram()[rec.flags as int] + 1) as usize,
            ),
    {
        let ghost old_consumed = self.consumed@;
        let f = rec.flags as usize;
        proof {
            lemma_entry_le_total(self.flags@, f as int);
        }
        let count = self.flags[f];
        self.flags.set(f, count + 1);
        self.seen = self.seen + 1;
        proof {
            let h0 = old(self).flags@;
            lemma_total_update(h0, f as int);
            let c = old_consumed.push(rec);
            assert(c.drop_last() =~= old_consumed);
            assert forall|g: int| 0 <= g < FLAG_WORDS implies #[trigger] self.flags@[g] == flag_count(
                c,
                g,
            ) by {
                lemma_filter_push(old_consumed, rec, |r: AlignedRead| r.flags == g);
            }
            self.consumed = Ghost(c);
        }
        let ghost cache0 = self.cache@;
        if !rec.is_pair_candidate() {
            return None;
        }
        let h = record_name_hash(&rec);
        let found = match &rec.name {
            Some(name) => self.find_name(name, h),
            None => None,
        };
        proof {
            lemma_last_named(cache0, name_of(rec), cache0.len() as int);
            lemma_step_keeps_orphans_apart(cache0, rec);
            match found {
                Some(k) => lemma_unique_name_index(cache0, k as int),
                None => {},
            }
        }
        match found {
            None => {
                self.add_waiting(rec, h);
                None
            },
            Some(k) => {
                let mate = self.take_waiting(k, h);
                proof {
                    self.emitted = Ghost(self.emitted@.push((mate, rec)));
                }
                Some((mate, rec))
            },
        }
    }

    /// Keeps `rec`, whose name hashes to `h`, waiting.
    fn add_waiting(&mut self, rec: AlignedRead, h: u64)
        requires
            h == name_hash(name_of(rec)),
            index_complete(old(self).cache@, old(self).index@),
            index_sound(old(self).cache@, old(self).index@),
        ensures
            final(self).cache@ == old(self).cache@.push(rec),
            index_complete(final(self).cache@, final(self).index@),
            index_sound(final(self).cache@, final(self).index@),
            final(self).flags == old(self).flags,
            final(self).seen == old(self).seen,
            final(self).consumed == old(self).consumed,
            final(self).emitted == old(self).emitted,
    {
        let ghost cache0 = self.cache@;
        proof {
            reveal(index_complete);
            reveal(index_sound);
        }
        self.add_to_bucket(h, self.cache.len());
        self.cache.push(rec);
        proof {
            assert forall|k: usize| k < self.cache@.len() implies #[trigger] self.index@.contains_key(
                name_hash(name_of(self.cache@[k as int])),
            ) && self.index@[name_hash(name_of(self.cache@[k as int]))]@.contains(k) by {
                if k < cache0.len() {
                    assert(self.cache@[k as int] == cache0[k as int]);
                    assert(old(self).index@.contains_key(name_hash(name_of(cache0[k as int]))));
                }
            }
            assert forall|key: u64, p: usize|
                self.index@.contains_key(key) && #[trigger] self.index@[key]@.contains(p) implies p
                < self.cache@.len() && name_hash(name_of(self.cache@[p as int])) == key by {
                if p < cache0.len() {
                    assert(self.cache@[p as int] == cache0[p as int]);
                }
                if key != h || p != cache0.len() {
                    assert(old(self).index@.contains_key(key) && old(self).index@[key]@.contains(p));
                }
            }
        }
    }

    /// Takes the waiting record at `k`, whose name hashes to `h`, out; the
    /// last waiting record takes its place.
    fn take_waiting(&mut self, k: usize, h: u64) -> (mate: AlignedRead)
        requires
            k < old(self).cache@.len(),
            h == name_hash(name_of(old(self).cache@[k as int])),
            index_complete(old(self).cache@, old(self).index@),
            index_sound(old(self).cache@, old(self).index@),
        ensures
            final(self).cache@ == swap_removed(old(self).cache@, k as int),
            mate == old(self).cache@[k as int],
            index_complete(final(self).cache@, final(self).index@),
            index_sound(final(self).cache@, final(self).index@),
            final(self).flags == old(self).flags,
            final(self).seen == old(self).seen,
            final(self).consumed == old(self).consumed,
            final(self).emitted == old(self).emitted,
    {
        let ghost cache0 = self.cache@;
        let ghost idx0 = self.index@;
        proof {
            reveal(index_complete);
            reveal(index_sound);
        }
        let last = self.cache.len() - 1;
        self.drop_from_bucket(h, k);
        let ghost idx1 = self.index@;
        let ghost hl = name_hash(name_of(cache0[last as int]));
        if k != last {
            let hl_exec = record_name_hash(&self.cache[last]);
            self.move_in_bucket(hl_exec, last, k);
        }
        let mate = self.cache.swap_remove(k);
        proof {
            let c1 = self.cache@;
            assert(c1 =~= swap_removed(cache0, k as int));
            assert forall|q: usize| q < c1.len() implies #[trigger] self.index@.contains_key(
                name_hash(name_of(c1[q as int])),
            ) && self.index@[name_hash(name_of(c1[q as int]))]@.contains(q) by {
                if q == k {
                    assert(c1[q as int] == cache0[last as int]);
                    assert(idx0.contains_key(name_hash(name_of(cache0[last as int]))));
                    assert(idx1.contains_key(hl) && idx1[hl]@.contains(last));
                } else {
                    assert(c1[q as int] == cache0[q as int]);
                    let hq = name_hash(name_of(cache0[q as int]));
                    assert(idx0.contains_key(name_hash(name_of(cache0[q as int]))));
                    assert(idx1.contains_key(hq) && idx1[hq]@.contains(q));
                }
            }
            assert forall|key: u64, p: usize|
                self.index@.contains_key(key) && #[trigger] self.index@[key]@.contains(p) implies p
                < c1.len() && name_hash(name_of(c1[p as int])) == key by {
                if k != last && key == hl && p == k {
                    assert(c1[p as int] == cache0[last as int]);
                } else {
                    assert(idx1.contains_key(key) && idx1[key]@.contains(p));
                    assert(idx0.contains_key(key) && idx0[key]@.contains(p));
                    assert(p != k);
                    assert(p != last);
                    assert(c1[p as int] == cache0[p as int]);
                }
            }
        }
        mate
    }

    /// Position of the waiting record named `name`, whose hash is `h`.
    fn find_name(&self, name: &Vec<u8>, h: u64) -> (r: Option<usize>)
        requires
            index_complete(self.cache@, self.index@),
            index_sound(self.cache@, self.index@),
            h == name_hash(name@),
        ensures
            match r {
                Some(k) => k < self.cache@.len() && name_of(self.cache@[k as int]) == name@,
                None => forall|k: int| 0 <= k < self.cache@.len() ==> name_of(#[trigger] self.cache@[k]) != name@,
            },
    {
        broadcast use vstd::std_specs::hash::axiom_u64_obeys_hash_table_key_model,
            vstd::std_specs::hash::axiom_random_state_builds_valid_hashers,
            vstd::std_specs::hash::axiom_maps_deref_key_to_value,
            vstd::std_specs::hash::axiom_contains_deref_key,
            vstd::std_specs::hash::axiom_deref_key_removed;

        let n = self.cache.len();
        assert(n == self.cache@.len());
        match self.index.get(&h) {
            None => {
                proof {
                    lemma_absent_name(self.cache@, self.index@, name@, h);
                }
                None
            },
            Some(bucket) => {
                proof {
                    lemma_bucket_in_range(self.cache@, self.index@, h);
                }
                let r = scan_bucket(&self.cache, bucket, name);
                proof {
                    if r.is_none() {
                        lemma_absent_name(self.cache@, self.index@, name@, h);
                    }
                }
                r
            },
        }
    }

    /// Adds position `p`, beyond the waiting records, to the bucket of `h`.
    fn add_to_bucket(&mut self, h: u64, p: usize)
        requires
            p == old(self).cache@.len(),
        ensures
            final(self).cache == old(self).cache,
            final(self).flags == old(self).flags,
            final(self).seen == old(self).seen,
            final(self).consumed == old(self).consumed,
            final(self).emitted == old(self).emitted,
            final(self).index@ == old(self).index@.insert(h, final(self).index@[h]),
            forall|x: usize| #[trigger] final(self).index@[h]@.contains(x) <==> (x == p || (old(self).index@.contains_key(h) && old(self).index@[h]@.contains(x))),
    {
        broadcast use vstd::std_specs::hash::axiom_u64_obeys_hash_table_key_model,
            vstd::std_specs::hash::axiom_random_state_builds_valid_hashers,
            vstd::std_specs::hash::axiom_maps_deref_key_to_value,
            vstd::std_specs::hash::axiom_contains_deref_key,
            vstd::std_specs::hash::axiom_deref_key_removed;

        let mut bucket = match self.index.remove(&h) {
            Some(b) => b,
            None => Vec::new(),
        };
        let ghost b0 = bucket@;
        bucket.push(p);
        proof {
            assert forall|x: usize| #[trigger] bucket@.contains(x) <==> (x == p || b0.contains(x)) by {
                if b0.contains(x) {
                    let i = choose|i: int| 0 <= i < b0.len() && b0[i] == x;
                    assert(bucket@[i] == x);
                }
                if bucket@.contains(x) && x != p {
                    let i = choose|i: int| 0 <= i < bucket@.len() && bucket@[i] == x;
                    assert(b0[i] == x);
                }
                if x == p {
                    assert(bucket@[b0.len() as int] == p);
                }
            }
        }
        self.index.insert(h, bucket);
        proof {
            assert(self.index@ =~= old(self).index@.insert(h, self.index@[h]));
        }
    }

    /// Takes position `k` out of the bucket of `h`.
    fn drop_from_bucket(&mut self, h: u64, k: usize)
        ensures
            final(self).cache == old(self).cache,
            final(self).flags == old(self).flags,
            final(self).seen == old(self).seen,
            final(self).consumed == old(self).consumed,
            final(self).emitted == old(self).emitted,
            forall|key: u64| key != h ==> (#[trigger] final(self).index@.contains_key(key) <==> old(self).index@.contains_key(key)),
            forall|key: u64| key != h && old(self).index@.contains_key(key) ==> #[trigger] final(self).index@[key] == old(self).index@[key],
            final(self).index@.contains_key(h),
            forall|x: usize| #[trigger] final(self).index@[h]@.contains(x) <==> (x != k && old(self).index@.contains_key(h) && old(self).index@[h]@.contains(x)),
    {
        broadcast use vstd::std_specs::hash::axiom_u64_obeys_hash_table_key_model,
            vstd::std_specs::hash::axiom_random_state_builds_valid_hashers,
            vstd::std_specs::hash::axiom_maps_deref_key_to_value,
            vstd::std_specs::hash::axiom_contains_deref_key,
            vstd::std_specs::hash::axiom_deref_key_removed;

        let bucket = match self.index.remove(&h) {
            Some(b) => b,
            None => Vec::new(),
        };
        let ghost b0 = bucket@;
        let mut kept: Vec<usize> = Vec::new();
        let mut j: usize = 0;
        while j < bucket.len()
            invariant
                j <= bucket@.len(),
                b0 == bucket@,
                forall|x: usize| #[trigger] kept@.contains(x) <==> (x != k && exists|i: int| 0 <= i < j && b0[i] == x),
            decreases bucket@.len() - j,
        {
            let x = bucket[j];
            let ghost kept0 = kept@;
            if x != k {
                kept.push(x);
            }
            proof {
                assert forall|y: usize| #[trigger] kept@.contains(y) <==> (y != k && exists|i: int| 0 <= i < j + 1 && b0[i] == y) by {
                    if kept@.contains(y) {
                        let i = choose|i: int| 0 <= i < kept@.len() && kept@[i] == y;
                        if i < kept0.len() {
                            assert(kept0[i] == y);
                            assert(kept0.contains(y));
                        }
                    }
                    if y != k && exists|i: int| 0 <= i < j + 1 && b0[i] == y {
                        let i = choose|i: int| 0 <= i < j + 1 && b0[i] == y;
                        if i < j {
                            assert(kept0.contains(y));
                            let m = choose|m: int| 0 <= m < kept0.len() && kept0[m] == y;
                            assert(kept@[m] == y);
                        } else {
                            assert(kept@[kept@.len() - 1] == y);
                        }
                    }
                }
            }
            j = j + 1;
        }
        proof {
            assert forall|x: usize| #[trigger] kept@.contains(x) <==> (x != k && old(self).index@.contains_key(h) && old(self).index@[h]@.contains(x)) by {
                if exists|i: int| 0 <= i < j && b0[i] == x {
                    let i = choose|i: int| 0 <= i < j && b0[i] == x;
                    assert(b0.contains(x));
                }
                if old(self).index@.contains_key(h) && old(self).index@[h]@.contains(x) {
                    let i = choose|i: int| 0 <= i < b0.len() && b0[i] == x;
                }
            }
        }
        self.index.insert(h, kept);
    }

    /// Renames position `from` to `to` in the bucket of `h`.
    fn move_in_bucket(&mut self, h: u64, from: usize, to: usize)
        ensures
            final(self).cache == old(self).cache,
            final(self).flags == old(self).flags,
            final(self).seen == old(self).seen,
            final(self).consumed == old(self).consumed,
            final(self).emitted == old(self).emitted,
            forall|key: u64| key != h ==> (#[trigger] final(self).index@.contains_key(key) <==> old(self).index@.contains_key(key)),
            forall|key: u64| key != h && old(self).index@.contains_key(key) ==> #[trigger] final(self).index@[key] == old(self).index@[key],
            final(self).index@.contains_key(h),
            forall|x: usize| #[trigger] final(self).index@[h]@.contains(x) <==> (old(self).index@.contains_key(h) && ((x != from && old(self).index@[h]@.contains(x)) || (x == to && old(self).index@[h]@.contains(from)))),
    {
        broadcast use vstd::std_specs::hash::axiom_u64_obeys_hash_table_key_model,
            vstd::std_specs::hash::axiom_random_state_builds_valid_hashers,
            vstd::std_specs::hash::axiom_maps_deref_key_to_value,
            vstd::std_specs::hash::axiom_contains_deref_key,
            vstd::std_specs::hash::axiom_deref_key_removed;

        let mut bucket = match self.index.remove(&h) {
            Some(b) => b,
            None => Vec::new(),
        };
        let ghost b0 = bucket@;
        let mut j: usize = 0;
        while j < bucket.len()
            invariant
                j <= bucket@.len(),
                bucket@.len() == b0.len(),
                forall|i: int| 0 <= i < j ==> #[trigger] bucket@[i] == if b0[i] == from { to } else { b0[i] },
                forall|i: int| j <= i < bucket@.len() ==> #[trigger] bucket@[i] == b0[i],
            decreases bucket@.len() - j,
        {
            if bucket[j] == from {
                bucket.set(j, to);
            }
            j = j + 1;
        }
        proof {
            assert forall|x: usize| #[trigger] bucket@.contains(x) <==> (old(self).index@.contains_key(h) && ((x != from && old(self).index@[h]@.contains(x)) || (x == to && old(self).index@[h]@.contains(from)))) by {
                if bucket@.contains(x) {
                    let i = choose|i: int| 0 <= i < bucket@.len() && bucket@[i] == x;
                    assert(b0.contains(b0[i]));
                }
                if old(self).index@.contains_key(h) && x != from && old(self).index@[h]@.contains(x) {
                    let i = choose|i: int| 0 <= i < b0.len() && b0[i] == x;
                    assert(bucket@[i] == x);
                }
                if old(self).index@.contains_key(h) && x == to && old(self).index@[h]@.contains(from) {
                    let i = choose|i: int| 0 <= i < b0.len() && b0[i] == from;
                    assert(bucket@[i] == x);
                }
            }
        }
        self.index.insert(h, bucket);
    }

    /// Ends the pairing: the records still waiting and the flag histogram.
    pub fn remainder(self) -> (r: Remainder)
        requires
            self.wf(),
        ensures
            r.tail@ == self.orphans(),
            r.flags@ == self.histogram(),
            r.flags@.len() == FLAG_WORDS,
    {
        Remainder { tail: self.cache, flags: self.flags }
    }
}

/// Whether two byte strings are equal.
pub fn bytes_equal(a: &[u8], b: &[u8]) -> (r: bool)
    ensures
        r == (a@ == b@),
{
    if a.len() != b.len() {
        return false;
    }
    let mut i: usize = 0;
    while i < a.len()
        invariant
            a@.len() == b@.len(),
            i <= a@.len(),
            forall|k: int| 0 <= k < i ==> a@[k] == b@[k],
        decreases a@.len() - i,
    {
        if a[i] != b[i] {
            return false;
        }
        i = i + 1;
    }
    assert(a@ =~= b@);
    true
}

/// A position listed in `bucket` that holds a record named `name`.
fn scan_bucket(cache: &Vec<AlignedRead>, bucket: &Vec<usize>, name: &Vec<u8>) -> (r: Option<usize>)
    requires
        forall|p: usize| #[trigger] bucket@.contains(p) ==> p < cache@.len(),
    ensures
        match r {
            Some(k) => k < cache@.len() && name_of(cache@[k as int]) == name@,
            None => forall|p: usize| #[trigger] bucket@.contains(p) ==> name_of(cache@[p as int]) != name@,
        },
{
    let mut j: usize = 0;
    while j < bucket.len()
        invariant
            j <= bucket@.len(),
            forall|p: usize| #[trigger] bucket@.contains(p) ==> p < cache@.len(),
            forall|i: int| 0 <= i < j ==> name_of(cache@[#[trigger] bucket@[i] as int]) != name@,
        decreases bucket@.len() - j,
    {
        let p = bucket[j];
        assert(bucket@.contains(p));
        let same = match &cache[p].name {
            Some(n) => bytes_equal(n.as_slice(), name.as_slice()),
            None => name.len() == 0,
        };
        proof {
            if same && cache@[p as int].name.is_none() {
                assert(name@ =~= Seq::<u8>::empty());
            }
        }
        if same {
            return Some(p);
        }
        j = j + 1;
    }
    assert forall|p: usize| #[trigger] bucket@.contains(p) implies name_of(cache@[p as int]) != name@ by {
        let i = choose|i: int| 0 <= i < bucket@.len() && bucket@[i] == p;
        assert(name_of(cache@[bucket@[i] as int]) != name@);
    }
    None
}

/// FNV-1a hash of a name.
pub fn hash_name(name: &[u8]) -> (h: u64)
    ensures
        h == name_hash(name@),
{
    let mut h: u64 = FNV_OFFSET;
    let mut i: usize = 0;
    while i < name.len()
        invariant
            i <= name@.len(),
            h == name_hash(name@.subrange(0, i as int)),
        decreases name@.len() - i,
    {
        proof {
            let next = name@.subrange(0, i + 1);
            assert(next.drop_last() =~= name@.subrange(0, i as int));
        }
        h = (h ^ (name[i] as u64)).wrapping_mul(FNV_PRIME);
        i = i + 1;
    }
    proof {
        assert(name@.subrange(0, i as int) =~= name@);
    }
    h
}

fn record_name_hash(r: &AlignedRead) -> (h: u64)
    ensures
        h == name_hash(name_of(*r)),
{
    match &r.name {
        Some(n) => hash_name(n.as_slice()),
        None => {
            let empty: Vec<u8> = Vec::new();
            proof {
                assert(empty@ =~= Seq::<u8>::empty());
            }
            hash_name(empty.as_slice())
        },
    }
}

/// Every waiting record is listed in the bucket of its name's hash.
#[verifier::opaque]
pub open spec fn index_complete(cache: Seq<AlignedRead>, index: Map<u64, Vec<usize>>) -> bool {
    forall|k: usize|
        k < cache.len() ==> #[trigger] index.contains_key(name_hash(name_of(cache[k as int])))
            && index[name_hash(name_of(cache[k as int]))]@.contains(k)
}

/// Every position listed in a bucket holds a waiting record whose name has
/// that bucket's hash.
#[verifier::opaque]
pub open spec fn index_sound(cache: Seq<AlignedRead>, index: Map<u64, Vec<usize>>) -> bool {
    forall|key: u64, p: usize|
        index.contains_key(key) && #[trigger] index[key]@.contains(p) ==> p < cache.len() && name_hash(
            name_of(cache[p as int]),
        ) == key
}

proof fn lemma_absent_name(cache: Seq<AlignedRead>, index: Map<u64, Vec<usize>>, name: Seq<u8>, h: u64)
    requires
        cache.len() <= usize::MAX,
        index_complete(cache, index),
        h == name_hash(name),
        index.contains_key(h) ==> forall|p: usize| #[trigger] index[h]@.contains(p) ==> name_of(cache[p as int]) != name,
    ensures
        forall|k: int| 0 <= k < cache.len() ==> name_of(#[trigger] cache[k]) != name,
{
    reveal(index_complete);
    assert forall|k: int| 0 <= k < cache.len() implies name_of(#[trigger] cache[k]) != name by {
        let ku = k as usize;
        assert(ku as int == k);
        if name_of(cache[k]) == name {
            assert(index.contains_key(name_hash(name_of(cache[ku as int]))));
            assert(index[h]@.contains(ku));
        }
    }
}

proof fn lemma_bucket_in_range(cache: Seq<AlignedRead>, index: Map<u64, Vec<usize>>, h: u64)
    requires
        index_sound(cache, index),
        index.contains_key(h),
    ensures
        forall|p: usize| #[trigger] index[h]@.contains(p) ==> p < cache.len(),
{
    reveal(index_sound);
}

/// Among records apart by name, the one found by name is the one the
/// pairing model picks.
proof fn lemma_unique_name_index(cache: Seq<AlignedRead>, k: int)
    requires
        names_distinct(cache),
        0 <= k < cache.len(),
    ensures
        index_of_name(cache, name_of(cache[k])) == k,
{
    lemma_last_named(cache, name_of(cache[k]), cache.len() as int);
}

proof fn lemma_last_named(cache: Seq<AlignedRead>, name: Seq<u8>, i: int)
    requires
        0 <= i <= cache.len(),
    ensures
        last_named_below(cache, name, i) == -1 ==> forall|k: int|
            0 <= k < i ==> name_of(#[trigger] cache[k]) != name,
        last_named_below(cache, name, i) != -1 ==> {
            let k = last_named_below(cache, name, i);
            0 <= k < i && name_of(cache[k]) == name
        },
    decreases i,
{
    if i > 0 {
        lemma_last_named(cache, name, i - 1);
    }
}

proof fn lemma_filter_push(s: Seq<AlignedRead>, x: AlignedRead, p: spec_fn(AlignedRead) -> bool)
    ensures
        s.push(x).filter(p) == if p(x) { s.filter(p).push(x) } else { s.filter(p) },
{
    reveal(Seq::filter);
    assert(s.push(x).drop_last() =~= s);
}

proof fn lemma_entry_le_total(h: Seq<usize>, i: int)
    requires
        0 <= i < h.len(),
    ensures
        h[i] <= histogram_total(h),
    decreases h.len(),
{
    lemma_total_nonneg(h.drop_last());
    if i < h.len() - 1 {
        lemma_entry_le_total(h.drop_last(), i);
    }
}

proof fn lemma_total_nonneg(h: Seq<usize>)
    ensures
        histogram_total(h) >= 0,
    decreases h.len(),
{
    if h.len() > 0 {
        lemma_total_nonneg(h.drop_last());
    }
}

proof fn lemma_total_update(h: Seq<usize>, i: int)
    requires
        0 <= i < h.len(),
        h[i] < usize::MAX,
    ensures
        histogram_total(h.update(i, (h[i] + 1) as usize)) == histogram_total(h) + 1,
    decreases h.len(),
{
    let u = h.update(i, (h[i] + 1) as usize);
    if i == h.len() - 1 {
        assert(u.drop_last() =~= h.drop_last());
    } else {
        assert(u.drop_last() =~= h.drop_last().update(i, (h[i] + 1) as usize));
        lemma_total_update(h.drop_last(), i);
    }
}

/// One step keeps the waiting records primary, segmented, named, and apart
/// by name.
proof fn lemma_step_keeps_orphans_apart(cache: Seq<AlignedRead>, r: AlignedRead)
    requires
        names_distinct(cache),
        all_candidates(cache),
    ensures
        names_distinct(pair_step(cache, r).0),
        all_candidates(pair_step(cache, r).0),
        match pair_step(cache, r).1 {
            Some(p) => is_pair_candidate(p.0) && is_pair_candidate(p.1) && name_of(p.0) == name_of(p.1),
            None => true,
        },
{
    lemma_last_named(cache, name_of(r), cache.len() as int);
    if is_pair_candidate(r) {
        let k = index_of_name(cache, name_of(r));
        let next = pair_step(cache, r).0;
        if k < 0 {
            assert forall|i: int, j: int|
                0 <= i < next.len() && 0 <= j < next.len() && i != j implies name_of(next[i])
                != name_of(next[j]) by {
                if i < cache.len() && j < cache.len() {
                } else if i == cache.len() {
                    assert(next[j] == cache[j]);
                } else {
                    assert(next[i] == cache[i]);
                }
            }
            assert forall|i: int| 0 <= i < next.len() implies is_pair_candidate(#[trigger] next[i]) by {
                if i < cache.len() {
                    assert(next[i] == cache[i]);
                }
            }
        } else {
            assert forall|i: int, j: int|
                0 <= i < next.len() && 0 <= j < next.len() && i != j implies name_of(next[i])
                != name_of(next[j]) by {
                let last = cache.len() - 1;
                let i0 = if i == k { last } else { i };
                let j0 = if j == k { last } else { j };
                assert(next[i] == cache[i0]);
                assert(next[j] == cache[j0]);
            }
            assert forall|i: int| 0 <= i < next.len() implies is_pair_candidate(#[trigger] next[i]) by {
                let i0 = if i == k { cache.len() - 1 } else { i };
                assert(next[i] == cache[i0]);
            }
        }
    }
}

proof fn lemma_swap_removed_multiset<A>(s: Seq<A>, k: int)
    requires
        0 <= k < s.len(),
    ensures
        s.to_multiset() == swap_removed(s, k).to_multiset().insert(s[k]),
{
    broadcast use vstd::seq_lib::group_to_multiset_ensures, vstd::multiset::group_multiset_axioms;

    let x = s.last();
    let t = s.update(k, x);
    let d = t.drop_last();
    assert(d.push(x) =~= t);
    vstd::seq_lib::to_multiset_build(d, x);
    vstd::seq_lib::to_multiset_update(s, k, x);
    assert(s.to_multiset().count(s[k]) > 0);
    assert forall|v: A| #[trigger] s.to_multiset().count(v) == d.to_multiset().insert(s[k]).count(v) by {
        assert(t.to_multiset().count(v) == d.to_multiset().insert(x).count(v));
        assert(t.to_multiset().count(v) == s.to_multiset().insert(x).remove(s[k]).count(v));
    }
    assert(s.to_multiset() =~= swap_removed(s, k).to_multiset().insert(s[k]));
}

/// Everything that a pairing run keeps true, by induction over its input.
proof fn lemma_run_facts(input: Seq<AlignedRead>)
    ensures
        ({
            let (orphans, pairs) = pairing_run(input);
            &&& names_distinct(orphans)
            &&& all_candidates(orphans)
            &&& forall|i: int|
                0 <= i < pairs.len() ==> is_pair_candidate(#[trigger] pairs[i].0)
                    && is_pair_candidate(pairs[i].1) && name_of(pairs[i].0) == name_of(pairs[i].1)
            &&& candidates(input).to_multiset() == orphans.to_multiset().add(
                pair_members(pairs).to_multiset(),
            )
            &&& orphans.len() + 2 * pairs.len() == candidates(input).len()
        }),
    decreases input.len(),
{
    broadcast use vstd::seq_lib::group_to_multiset_ensures;

    if input.len() == 0 {
        reveal(Seq::filter);
        assert(pair_members(Seq::<(AlignedRead, AlignedRead)>::empty()) =~= Seq::empty());
        assert(Seq::<AlignedRead>::empty().to_multiset() =~= Multiset::empty());
    } else {
        let prefix = input.drop_last();
        let x = input.last();
        lemma_run_facts(prefix);
        let (cache, pairs) = pairing_run(prefix);
        lemma_step_keeps_orphans_apart(cache, x);
        lemma_last_named(cache, name_of(x), cache.len() as int);
        assert(prefix.push(x) =~= input);
        lemma_filter_push(prefix, x, |r: AlignedRead| is_pair_candidate(r));
        let (next, out) = pair_step(cache, x);
        match out {
            Some(p) => {
                let k = index_of_name(cache, name_of(x));
                let np = pairs.push(p);
                assert(np.drop_last() =~= pairs);
                assert(pair_members(np) == pair_members(pairs).push(cache[k]).push(x));
                lemma_swap_removed_multiset(cache, k);
                assert(candidates(input).to_multiset() =~= next.to_multiset().add(
                    pair_members(np).to_multiset(),
                ));
                assert forall|i: int| 0 <= i < np.len() implies is_pair_candidate(
                    #[trigger] np[i].0,
                ) && is_pair_candidate(np[i].1) && name_of(np[i].0) == name_of(np[i].1) by {
                    if i < pairs.len() {
                        assert(np[i] == pairs[i]);
                    }
                }
            },
            None => {
                if is_pair_candidate(x) {
                    assert(candidates(input).to_multiset() =~= next.to_multiset().add(
                        pair_members(pairs).to_multiset(),
                    ));
                }
            },
        }
    }
}

/// Every record that takes part in pairing comes out exactly once: either in
/// one pair, or among the waiting records at the end. Both records of a pair
/// share a name, and no two waiting records do, so a record whose mate was
/// read is never left waiting.
pub proof fn lemma_pairing_partitions(input: Seq<AlignedRead>)
    ensures
        candidates(input).to_multiset() == pairing_run(input).0.to_multiset().add(
            pair_members(pairing_run(input).1).to_multiset(),
        ),
        names_distinct(pairing_run(input).0),
        forall|i: int|
            0 <= i < pairing_run(input).1.len() ==> name_of(#[trigger] pairing_run(input).1[i].0)
                == name_of(pairing_run(input).1[i].1),
{
    lemma_run_facts(input);
}

/// Waiting records plus twice the pairs make up every primary, segmented,
/// named record of the input.
pub proof fn lemma_pairing_counts(input: Seq<AlignedRead>)
    ensures
        pairing_run(input).0.len() + 2 * pairing_run(input).1.len() == candidates(input).len(),
{
    lemma_run_facts(input);
}

/// The flag histogram counts every record read, whatever its flags.
pub proof fn lemma_histogram_counts_records(p: &Pairer)
    requires
        p.wf(),
    ensures
        histogram_total(p.histogram()) == p.consumed().len(),
        p.histogram().len() == FLAG_WORDS,
        forall|f: int| 0 <= f < FLAG_WORDS ==> #[trigger] p.histogram()[f] == flag_count(p.consumed(), f),
        p.orphans() == pairing_run(p.consumed()).0,
        p.emitted() == pairing_run(p.consumed()).1,
{
}

/// The waiting records that each worker leaves, one worker after another.
pub open spec fn worker_tails(inputs: Seq<Seq<AlignedRead>>) -> Seq<AlignedRead>
    decreases inputs.len(),
{
    if inputs.len() == 0 {
        Seq::empty()
    } else {
        worker_tails(inputs.drop_last()) + pairing_run(inputs.last()).0
    }
}

/// The records of the pairs that the workers hand out, one worker after another.
pub open spec fn worker_members(inputs: Seq<Seq<AlignedRead>>) -> Seq<AlignedRead>
    decreases inputs.len(),
{
    if inputs.len() == 0 {
        Seq::empty()
    } else {
        worker_members(inputs.drop_last()) + pair_members(pairing_run(inputs.last()).1)
    }
}

/// The records of all workers' inputs that take part in pairing.
pub open spec fn worker_candidates(inputs: Seq<Seq<AlignedRead>>) -> Seq<AlignedRead>
    decreases inputs.len(),
{
    if inputs.len() == 0 {
        Seq::empty()
    } else {
        worker_candidates(inputs.drop_last()) + candidates(inputs.last())
    }
}

proof fn lemma_workers_partition(inputs: Seq<Seq<AlignedRead>>)
    ensures
        worker_candidates(inputs).to_multiset() == worker_tails(inputs).to_multiset().add(
            worker_members(inputs).to_multiset(),
        ),
        all_candidates(worker_tails(inputs)),
    decreases inputs.len(),
{
    broadcast use vstd::seq_lib::group_to_multiset_ensures, vstd::multiset::group_multiset_axioms;

    if inputs.len() == 0 {
        assert(Seq::<AlignedRead>::empty().to_multiset() =~= Multiset::empty());
        assert(Multiset::<AlignedRead>::empty().add(Multiset::empty()) =~= Multiset::empty());
    } else {
        let init = inputs.drop_last();
        let last = inputs.last();
        lemma_workers_partition(init);
        lemma_run_facts(last);
        vstd::seq_lib::lemma_multiset_commutative(worker_candidates(init), candidates(last));
        vstd::seq_lib::lemma_multiset_commutative(worker_tails(init), pairing_run(last).0);
        vstd::seq_lib::lemma_multiset_commutative(worker_members(init), pair_members(pairing_run(last).1));
        assert(worker_candidates(inputs).to_multiset() =~= worker_tails(inputs).to_multiset().add(
            worker_members(inputs).to_multiset(),
        ));
        let t = worker_tails(inputs);
        assert forall|i: int| 0 <= i < t.len() implies is_pair_candidate(#[trigger] t[i]) by {
            let n = worker_tails(init).len();
            if i < n {
                assert(t[i] == worker_tails(init)[i]);
            } else {
                assert(t[i] == pairing_run(last).0[i - n]);
            }
        }
    }
}

proof fn lemma_candidates_of_candidates(s: Seq<AlignedRead>)
    requires
        all_candidates(s),
    ensures
        candidates(s) == s,
    decreases s.len(),
{
    reveal(Seq::filter);
    if s.len() > 0 {
        let init = s.drop_last();
        assert forall|i: int| 0 <= i < init.len() implies is_pair_candidate(#[trigger] init[i]) by {
            assert(init[i] == s[i]);
        }
        lemma_candidates_of_candidates(init);
        assert(init.push(s.last()) =~= s);
    }
}

/// Workers each pair their own records; then the records they leave waiting
/// are paired once more, together. Every record that takes part in pairing
/// then comes out exactly once: in a worker's pair, in a pair of that last
/// pass, or among the records still waiting at its end, no two of which share
/// a name. So a record whose mate was read by any worker is paired.
pub proof fn lemma_rescue_partitions(inputs: Seq<Seq<AlignedRead>>)
    ensures
        worker_candidates(inputs).to_multiset() == pairing_run(worker_tails(inputs)).0.to_multiset().add(
            pair_members(pairing_run(worker_tails(inputs)).1).to_multiset(),
        ).add(worker_members(inputs).to_multiset()),
        names_distinct(pairing_run(worker_tails(inputs)).0),
{
    lemma_workers_partition(inputs);
    lemma_candidates_of_candidates(worker_tails(inputs));
    lemma_run_facts(worker_tails(inputs));
}

} // verus!
