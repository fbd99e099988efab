use rand::rngs::StdRng;
use rand::Rng;
use rand::SeedableRng;
use vstd::multiset::Multiset;
use vstd::prelude::*;

verus! {

#[verifier::external_type_specification]
#[verifier::external_body]
pub struct ExStdRng(StdRng);

/// Relies on rand's `SeedableRng::seed_from_u64` for `StdRng`: a generator
/// built from the seed alone.
#[verifier::external_body]
fn seeded_generator(seed: u64) -> (r: StdRng) {
    StdRng::seed_from_u64(seed)
}

/// Relies on rand's `Rng::gen_range` over `0..n`: a value below `n` (it
/// panics on an empty range, which `requires` leaves out).
#[verifier::external_body]
fn draw_below(rng: &mut StdRng, n: usize) -> (r: usize)
    requires
        n > 0,
    ensures
        r < n,
{
    rng.gen_range(0..n)
}

/// An item offered to a reservoir of capacity `cap` holding `buf`: it is kept
/// while there is room; otherwise it takes the place of the item at `j`, which
/// leaves.
pub open spec fn offer_step<U>(buf: Seq<U>, cap: nat, item: U, j: int) -> (Seq<U>, Option<U>) {
    if buf.len() < cap {
        (buf.push(item), None)
    } else if 0 <= j < buf.len() {
        (buf.update(j, item), Some(buf[j]))
    } else {
        (buf, Some(item))
    }
}

/// One step of emptying the reservoir: the last item is taken off; where more
/// than one item is left it changes places with the one at `j`.
pub open spec fn drain_step<U>(buf: Seq<U>, j: int) -> (Seq<U>, Option<U>) {
    if buf.len() == 0 {
        (buf, None)
    } else {
        let y = buf.last();
        let rest = buf.drop_last();
        if rest.len() > 1 && 0 <= j < rest.len() {
            (rest.update(j, y), Some(rest[j]))
        } else {
            (rest, Some(y))
        }
    }
}

pub open spec fn option_seq<U>(o: Option<U>) -> Seq<U> {
    match o {
        Some(x) => seq![x],
        None => Seq::empty(),
    }
}

/// The reservoir and the items handed out after offering `input`, with the
/// `k`-th offer drawing `draws[k]`.
pub open spec fn shuffle_feed<U>(buf: Seq<U>, cap: nat, input: Seq<U>, draws: Seq<int>) -> (Seq<U>, Seq<U>)
    decreases input.len(),
{
    if input.len() == 0 {
        (buf, Seq::empty())
    } else {
        let (b1, o1) = offer_step(buf, cap, input[0], draws[0]);
        let (b2, o2) = shuffle_feed(b1, cap, input.drop_first(), draws.drop_first());
        (b2, option_seq(o1) + o2)
    }
}

/// The items handed out while emptying the reservoir, with the `k`-th step
/// drawing `draws[k]`.
pub open spec fn shuffle_drain<U>(buf: Seq<U>, draws: Seq<int>) -> Seq<U>
    decreases buf.len(),
{
    if buf.len() == 0 {
        Seq::empty()
    } else {
        let (b1, o1) = drain_step(buf, draws[0]);
        option_seq(o1) + shuffle_drain(b1, draws.drop_first())
    }
}

/// What a reservoir of capacity `cap` hands out for `input`, given its draws.
pub open spec fn shuffled<U>(cap: nat, input: Seq<U>, feed_draws: Seq<int>, drain_draws: Seq<int>) -> Seq<U> {
    let (buf, out) = shuffle_feed(Seq::empty(), cap, input, feed_draws);
    out + shuffle_drain(buf, drain_draws)
}

/// Bounded reservoir that hands items out in an order decorrelated from the
/// order in which they came, with draws from a seeded generator.
pub struct Shuffler<U> {
    n: usize,
    buffer: Vec<U>,
    rng: StdRng,
}

impl<U> Shuffler<U> {
    pub closed spec fn capacity(&self) -> nat {
        self.n as nat
    }

    /// The items held, in reservoir order.
    pub closed spec fn held(&self) -> Seq<U> {
        self.buffer@
    }

    pub closed spec fn wf(&self) -> bool {
        &&& self.n > 0
        &&& self.buffer@.len() <= self.n
    }

    /// An empty reservoir of `buffer_size` items whose generator is seeded
    /// with `seed`.
    pub fn new(buffer_size: usize, seed: u64) -> (s: Shuffler<U>)
        requires
            buffer_size > 0,
        ensures
            s.wf(),
            s.capacity() == buffer_size,
            s.held() == Seq::<U>::empty(),
    {
        Shuffler { n: buffer_size, buffer: Vec::new(), rng: seeded_generator(seed) }
    }

    /// Number of items held.
    pub fn len(&self) -> (r: usize)
        ensures
            r == self.held().len(),
    {
        self.buffer.len()
    }

    /// Offers an item, with `j` as the draw: kept while there is room, else
    /// exchanged for the item at `j`, which is handed out.
    pub fn offer_at(&mut self, item: U, j: usize) -> (out: Option<U>)
        requires
            old(self).wf(),
            old(self).held().len() == old(self).capacity() ==> j < old(self).held().len(),
        ensures
            final(self).wf(),
            final(self).capacity() == old(self).capacity(),
            (final(self).held(), out) == offer_step(old(self).held(), old(self).capacity(), item, j as int),
    {
        if self.buffer.len() < self.n {
            self.buffer.push(item);
            None
        } else {
            let mut item = item;
            std::mem::swap(&mut item, &mut self.buffer[j]);
            Some(item)
        }
    }

    /// Offers an item, drawing the exchanged position from the generator.
    pub fn offer(&mut self, item: U) -> (out: Option<U>)
        requires
            old(self).wf(),
        ensures
            final(self).wf(),
            final(self).capacity() == old(self).capacity(),
            exists|j: int|
                0 <= j < old(self).capacity() && (final(self).held(), out) == offer_step(
                    old(self).held(),
                    old(self).capacity(),
                    item,
                    j,
                ),
            final(self).held().to_multiset().add(option_seq(out).to_multiset())
                == old(self).held().to_multiset().insert(item),
    {
        let ghost before = self.buffer@;
        let j = if self.buffer.len() < self.n {
            0
        } else {
            draw_below(&mut self.rng, self.buffer.len())
        };
        let out = self.offer_at(item, j);
        proof {
            lemma_offer_conserves(before, self.n as nat, item, j as int);
            assert(0 <= j < self.n);
            assert((self.held(), out) == offer_step(old(self).held(), old(self).capacity(), item, j as int));
        }
        out
    }

    /// Takes the next item out of the reservoir once the input has ended, with
    /// `j` as the draw; `None` once it is empty.
    pub fn drain_at(&mut self, j: usize) -> (out: Option<U>)
        requires
            old(self).wf(),
            old(self).held().len() > 2 ==> j < old(self).held().len() - 1,
        ensures
            final(self).wf(),
            final(self).capacity() == old(self).capacity(),
            (final(self).held(), out) == drain_step(old(self).held(), j as int),
    {
        match self.buffer.pop() {
            None => None,
            Some(y) => {
                if self.buffer.len() > 1 {
                    let mut y = y;
                    std::mem::swap(&mut y, &mut self.buffer[j]);
                    Some(y)
                } else {
                    Some(y)
                }
            },
        }
    }

    /// Takes the next item out of the reservoir once the input has ended,
    /// drawing from the generator; `None` once it is empty.
    pub fn drain(&mut self) -> (out: Option<U>)
        requires
            old(self).wf(),
        ensures
            final(self).wf(),
            final(self).capacity() == old(self).capacity(),
            exists|j: int|
                (old(self).held().len() > 2 ==> 0 <= j < old(self).held().len() - 1) && (final(self).held(), out)
                    == drain_step(old(self).held(), j),
            final(self).held().to_multiset().add(option_seq(out).to_multiset())
                == old(self).held().to_multiset(),
            out.is_none() <==> old(self).held().len() == 0,
    {
        let ghost before = self.buffer@;
        let j = if self.buffer.len() > 2 {
            draw_below(&mut self.rng, self.buffer.len() - 1)
        } else {
            0
        };
        let out = self.drain_at(j);
        proof {
            lemma_drain_conserves(before, j as int);
            assert((self.held(), out) == drain_step(old(self).held(), j as int));
        }
        out
    }
}

proof fn lemma_offer_conserves<U>(buf: Seq<U>, cap: nat, item: U, j: int)
    ensures
        ({
            let (b, o) = offer_step(buf, cap, item, j);
            b.to_multiset().add(option_seq(o).to_multiset()) == buf.to_multiset().insert(item)
        }),
{
    broadcast use vstd::seq_lib::group_to_multiset_ensures;

    let (b, o) = offer_step(buf, cap, item, j);
    if buf.len() < cap {
        assert(b.to_multiset().add(option_seq(o).to_multiset()) =~= buf.to_multiset().insert(item));
    } else if 0 <= j < buf.len() {
        vstd::seq_lib::to_multiset_update(buf, j, item);
        assert(option_seq(o) =~= Seq::empty().push(buf[j]));
        assert(b.to_multiset().add(option_seq(o).to_multiset()) =~= buf.to_multiset().insert(item));
    } else {
        assert(option_seq(o) =~= Seq::empty().push(item));
        assert(b.to_multiset().add(option_seq(o).to_multiset()) =~= buf.to_multiset().insert(item));
    }
}

proof fn lemma_drain_conserves<U>(buf: Seq<U>, j: int)
    ensures
        ({
            let (b, o) = drain_step(buf, j);
            b.to_multiset().add(option_seq(o).to_multiset()) == buf.to_multiset()
        }),
{
    broadcast use vstd::seq_lib::group_to_multiset_ensures;

    let (b, o) = drain_step(buf, j);
    if buf.len() == 0 {
        assert(b.to_multiset().add(option_seq(o).to_multiset()) =~= buf.to_multiset());
    } else {
        let y = buf.last();
        let rest = buf.drop_last();
        assert(rest.push(y) =~= buf);
        if rest.len() > 1 && 0 <= j < rest.len() {
            vstd::seq_lib::to_multiset_update(rest, j, y);
            assert(option_seq(o) =~= Seq::empty().push(rest[j]));
        } else {
            assert(option_seq(o) =~= Seq::empty().push(y));
        }
        assert(b.to_multiset().add(option_seq(o).to_multiset()) =~= buf.to_multiset());
    }
}

proof fn lemma_feed_conserves<U>(buf: Seq<U>, cap: nat, input: Seq<U>, draws: Seq<int>)
    ensures
        ({
            let (b, o) = shuffle_feed(buf, cap, input, draws);
            b.to_multiset().add(o.to_multiset()) == buf.to_multiset().add(input.to_multiset())
        }),
    decreases input.len(),
{
    broadcast use vstd::seq_lib::group_to_multiset_ensures, vstd::multiset::group_multiset_axioms;

    if input.len() == 0 {
        assert(input.to_multiset() =~= Multiset::empty());
        assert(Seq::<U>::empty().to_multiset() =~= Multiset::empty());
    } else {
        let (b1, o1) = offer_step(buf, cap, input[0], draws[0]);
        lemma_offer_conserves(buf, cap, input[0], draws[0]);
        lemma_feed_conserves(b1, cap, input.drop_first(), draws.drop_first());
        let (b2, o2) = shuffle_feed(b1, cap, input.drop_first(), draws.drop_first());
        vstd::seq_lib::lemma_multiset_commutative(option_seq(o1), o2);
        let head = option_seq(o1);
        vstd::seq_lib::lemma_multiset_commutative(seq![input[0]], input.drop_first());
        assert(seq![input[0]] + input.drop_first() =~= input);
        assert(seq![input[0]].to_multiset() =~= Multiset::empty().insert(input[0]));
        assert(b1.to_multiset().add(head.to_multiset()) == buf.to_multiset().insert(input[0]));
        assert(b2.to_multiset().add(o2.to_multiset()) == b1.to_multiset().add(
            input.drop_first().to_multiset(),
        ));
        assert(input.to_multiset() == input.drop_first().to_multiset().insert(input[0]));
        assert forall|v: U|
            #[trigger] b2.to_multiset().add((head + o2).to_multiset()).count(v) == buf.to_multiset().add(
                input.to_multiset(),
            ).count(v) by {
            assert(b2.to_multiset().add(o2.to_multiset()).count(v) == b1.to_multiset().add(
                input.drop_first().to_multiset(),
            ).count(v));
            assert(b1.to_multiset().add(head.to_multiset()).count(v) == buf.to_multiset().insert(
                input[0],
            ).count(v));
        }
        assert(b2.to_multiset().add((head + o2).to_multiset()) =~= buf.to_multiset().add(
            input.to_multiset(),
        ));
    }
}

proof fn lemma_drain_all_conserves<U>(buf: Seq<U>, draws: Seq<int>)
    ensures
        shuffle_drain(buf, draws).to_multiset() == buf.to_multiset(),
    decreases buf.len(),
{
    broadcast use vstd::seq_lib::group_to_multiset_ensures;

    if buf.len() == 0 {
        assert(buf.to_multiset() =~= Multiset::empty());
        assert(Seq::<U>::empty().to_multiset() =~= Multiset::empty());
    } else {
        let (b1, o1) = drain_step(buf, draws[0]);
        lemma_drain_conserves(buf, draws[0]);
        lemma_drain_all_conserves(b1, draws.drop_first());
        vstd::seq_lib::lemma_multiset_commutative(option_seq(o1), shuffle_drain(b1, draws.drop_first()));
        assert(shuffle_drain(buf, draws).to_multiset() =~= buf.to_multiset());
    }
}

/// Whatever the draws, a reservoir hands out exactly the items it was given,
/// each as many times as it was given.
pub proof fn lemma_shuffle_is_permutation<U>(cap: nat, input: Seq<U>, feed_draws: Seq<int>, drain_draws: Seq<int>)
    ensures
        shuffled(cap, input, feed_draws, drain_draws).to_multiset() == input.to_multiset(),
{
    broadcast use vstd::seq_lib::group_to_multiset_ensures;

    let (buf, out) = shuffle_feed(Seq::<U>::empty(), cap, input, feed_draws);
    lemma_feed_conserves(Seq::<U>::empty(), cap, input, feed_draws);
    lemma_drain_all_conserves(buf, drain_draws);
    vstd::seq_lib::lemma_multiset_commutative(out, shuffle_drain(buf, drain_draws));
    assert(Seq::<U>::empty().to_multiset() =~= Multiset::empty());
    assert(buf.to_multiset().add(out.to_multiset()) == Multiset::<U>::empty().add(input.to_multiset()));
    assert(Multiset::<U>::empty().add(input.to_multiset()) =~= input.to_multiset());
    assert(shuffled(cap, input, feed_draws, drain_draws).to_multiset() =~= input.to_multiset());
}

} // verus!
