use sha2::digest::FixedOutput;
use sha2::Digest;
use sha2::Sha256;
use vstd::prelude::*;
use vstd::relations::{sorted_by, total_ordering};

use crate::fastq::{fastq_record_bytes, fastq_text};
use crate::pairer::bytes_equal;

verus! {

/// Number of bytes of a SHA-256 digest, and of the accumulator.
pub const DIGEST_LEN: usize = 32;

/// Number of records the sketch keeps.
pub const SKETCH_SIZE: usize = 1000;

/// The SHA-256 digest of `data`, as sha2 computes it.
pub uninterp spec fn sha256_of(data: Seq<u8>) -> Seq<u8>;

/// Relies on sha2's `Sha256`: fed `data` and finalised, it gives the digest,
/// 32 bytes long.
#[verifier::external_body]
fn sha256(data: &[u8]) -> (r: Vec<u8>)
    ensures
        r@ == sha256_of(data@),
        r@.len() == DIGEST_LEN,
{
    let mut hasher: Sha256 = Sha256::new();
    hasher.update(data);
    Vec::from_iter(hasher.finalize_fixed())
}

/// Relies on std's `String::from_utf8`: ASCII bytes are valid UTF-8, each
/// byte standing for the character of the same code.
#[verifier::external_body]
fn ascii_to_string(bytes: Vec<u8>) -> (r: String)
    requires
        forall|i: int| 0 <= i < bytes@.len() ==> #[trigger] bytes@[i] < 128,
    ensures
        r@ == bytes@.map_values(|b: u8| b as char),
{
    String::from_utf8(bytes).unwrap_or_default()
}

/// The ASCII code of a hexadecimal digit below 16, lower case.
pub open spec fn hex_digit(n: u8) -> u8 {
    if n < 10 {
        (48 + n) as u8
    } else {
        (87 + n) as u8
    }
}

/// Two lower-case hexadecimal digits per byte, high half first.
pub open spec fn hex_bytes(xs: Seq<u8>) -> Seq<u8> {
    Seq::new(
        2 * xs.len(),
        |i: int|
            if i % 2 == 0 {
                hex_digit(xs[i / 2] >> 4)
            } else {
                hex_digit(xs[i / 2] & 15)
            },
    )
}

/// Writes bytes as lower-case hexadecimal, two digits per byte.
pub fn hexy(xs: &[u8]) -> (r: String)
    ensures
        r@ == hex_bytes(xs@).map_values(|b: u8| b as char),
{
    let mut out: Vec<u8> = Vec::new();
    let mut i: usize = 0;
    while i < xs.len()
        invariant
            i <= xs@.len(),
            out@ == hex_bytes(xs@.subrange(0, i as int)),
            forall|k: int| 0 <= k < out@.len() ==> #[trigger] out@[k] < 128,
        decreases xs@.len() - i,
    {
        let x = xs[i];
        let high = x >> 4;
        let low = x & 15;
        assert(high < 16) by (bit_vector)
            requires
                high == x >> 4,
        ;
        assert(low < 16) by (bit_vector)
            requires
                low == x & 15,
        ;
        let h = if high < 10 { 48 + high } else { 87 + high };
        let l = if low < 10 { 48 + low } else { 87 + low };
        out.push(h);
        out.push(l);
        proof {
            let next = xs@.subrange(0, i + 1);
            assert(next[i as int] == x);
            assert(out@ =~= hex_bytes(next));
        }
        i = i + 1;
    }
    proof {
        assert(xs@.subrange(0, i as int) =~= xs@);
    }
    ascii_to_string(out)
}

/// Bytewise exclusive or of two 32-byte strings.
pub open spec fn xor_bytes(a: Seq<u8>, b: Seq<u8>) -> Seq<u8> {
    Seq::new(DIGEST_LEN as nat, |i: int| a[i] ^ b[i])
}

/// The accumulator after the given pair texts: the exclusive or of their
/// digests, starting from 32 zero bytes.
pub open spec fn xor_digests(texts: Seq<Seq<u8>>) -> Seq<u8>
    decreases texts.len(),
{
    if texts.len() == 0 {
        Seq::new(DIGEST_LEN as nat, |i: int| 0u8)
    } else {
        xor_bytes(xor_digests(texts.drop_last()), sha256_of(texts.last()))
    }
}

/// Lexicographic order on byte strings, a proper prefix first.
pub open spec fn lex_le(a: Seq<u8>, b: Seq<u8>) -> bool
    decreases a.len(),
{
    if a.len() == 0 {
        true
    } else if b.len() == 0 {
        false
    } else if a[0] != b[0] {
        a[0] < b[0]
    } else {
        lex_le(a.drop_first(), b.drop_first())
    }
}

/// Order of pair texts in the sketch: by digest, then by text.
pub open spec fn text_le(t: Seq<u8>, u: Seq<u8>) -> bool {
    if sha256_of(t) != sha256_of(u) {
        lex_le(sha256_of(t), sha256_of(u))
    } else {
        lex_le(t, u)
    }
}

pub open spec fn sketch_order() -> spec_fn(Seq<u8>, Seq<u8>) -> bool {
    |t: Seq<u8>, u: Seq<u8>| text_le(t, u)
}

/// How many texts the sketch keeps out of `n`.
pub open spec fn sketch_len(n: nat) -> nat {
    if n < SKETCH_SIZE {
        n
    } else {
        SKETCH_SIZE as nat
    }
}

/// The texts with the smallest digests (ties broken by the text), at most
/// 1000 of them, smallest first.
pub open spec fn smallest_texts(texts: Seq<Seq<u8>>) -> Seq<Seq<u8>> {
    texts.sort_by(sketch_order()).take(sketch_len(texts.len()) as int)
}

/// Whether `a` comes no later than `b` in lexicographic order.
pub fn bytes_le(a: &[u8], b: &[u8]) -> (r: bool)
    ensures
        r == lex_le(a@, b@),
{
    let mut i: usize = 0;
    assert(a@.skip(0) =~= a@);
    assert(b@.skip(0) =~= b@);
    while i < a.len() && i < b.len()
        invariant
            i <= a@.len() && i <= b@.len(),
            lex_le(a@, b@) == lex_le(a@.skip(i as int), b@.skip(i as int)),
        decreases a@.len() - i,
    {
        if a[i] != b[i] {
            return a[i] < b[i];
        }
        proof {
            assert(a@.skip(i as int).drop_first() =~= a@.skip(i + 1));
            assert(b@.skip(i as int).drop_first() =~= b@.skip(i + 1));
        }
        i = i + 1;
    }
    i == a.len()
}

/// A FASTQ record as read: name, description, bases and quality scores, as
/// bytes.
pub struct FastqRecord {
    pub name: Vec<u8>,
    pub description: Vec<u8>,
    pub sequence: Vec<u8>,
    pub quality_scores: Vec<u8>,
}

pub open spec fn record_text(r: FastqRecord) -> Seq<u8> {
    fastq_text(r.name@, r.description@, r.sequence@, r.quality_scores@)
}

/// The text that a pair of FASTQ records is digested as: both records, the
/// first file's first.
pub open spec fn pair_text(lhs: FastqRecord, rhs: FastqRecord) -> Seq<u8> {
    record_text(lhs) + record_text(rhs)
}

/// Encodes a pair of records as FASTQ, one after the other.
pub fn encode_pair(lhs: &FastqRecord, rhs: &FastqRecord) -> (r: Vec<u8>)
    ensures
        r@ == pair_text(*lhs, *rhs),
{
    let mut out = fastq_record_bytes(lhs.name.as_slice(), lhs.description.as_slice(), lhs.sequence.as_slice(), lhs.quality_scores.as_slice());
    let mut second = fastq_record_bytes(rhs.name.as_slice(), rhs.description.as_slice(), rhs.sequence.as_slice(), rhs.quality_scores.as_slice());
    out.append(&mut second);
    out
}

/// Why a pair of records was refused.
#[derive(Debug, PartialEq, Eq, Structural)]
pub enum ChecksumError {
    /// The two records have different names.
    MismatchedNames,
}

/// A digested pair: its SHA-256 digest and its text.
pub struct HashAndText {
    pub hash: Vec<u8>,
    pub text: Vec<u8>,
}

/// Order-independent digest over FASTQ pairs: the exclusive or of the
/// SHA-256 digests of the pairs' texts, with a sketch of the pairs whose
/// digests are smallest.
pub struct OrderFreeDigest {
    accumulator: Vec<u8>,
    pairs: usize,
    sketch: Vec<HashAndText>,
    texts: Ghost<Seq<Seq<u8>>>,
}

impl OrderFreeDigest {
    /// The texts of the pairs taken so far.
    pub closed spec fn texts(&self) -> Seq<Seq<u8>> {
        self.texts@
    }

    /// The texts kept in the sketch, smallest first.
    pub closed spec fn sketch(&self) -> Seq<Seq<u8>> {
        entry_texts(self.sketch@)
    }

    pub closed spec fn wf(&self) -> bool {
        &&& self.accumulator@ == xor_digests(self.texts@)
        &&& self.pairs == self.texts@.len()
        &&& self.sketch() == smallest_texts(self.texts@)
        &&& hashes_match(self.sketch@)
    }

    pub fn new() -> (d: OrderFreeDigest)
        ensures
            d.wf(),
            d.texts() == Seq::<Seq<u8>>::empty(),
    {
        let mut accumulator: Vec<u8> = Vec::new();
        while accumulator.len() < DIGEST_LEN
            invariant
                accumulator@.len() <= DIGEST_LEN,
                forall|k: int| 0 <= k < accumulator@.len() ==> #[trigger] accumulator@[k] == 0,
            decreases DIGEST_LEN - accumulator.len(),
        {
            accumulator.push(0);
        }
        let d = OrderFreeDigest {
            accumulator,
            pairs: 0,
            sketch: Vec::new(),
            texts: Ghost(Seq::empty()),
        };
        assert(d.accumulator@ =~= xor_digests(Seq::empty()));
        assert(d.sketch() =~= smallest_texts(d.texts@));
        d
    }

    /// Number of pairs taken.
    pub fn pair_count(&self) -> (n: usize)
        requires
            self.wf(),
        ensures
            n == self.texts().len(),
    {
        self.pairs
    }

    /// The accumulated digest, 32 bytes.
    pub fn digest(&self) -> (r: &Vec<u8>)
        requires
            self.wf(),
        ensures
            r@ == xor_digests(self.texts()),
    {
        &self.accumulator
    }

    /// Takes a pair of records, one from each file. Records with different
    /// names are refused and change nothing.
    pub fn add_pair(&mut self, lhs: &FastqRecord, rhs: &FastqRecord) -> (r: Result<(), ChecksumError>)
        requires
            old(self).wf(),
            old(self).texts().len() < usize::MAX,
        ensures
            final(self).wf(),
            lhs.name@ != rhs.name@ ==> r == Err::<(), ChecksumError>(ChecksumError::MismatchedNames)
                && final(self).texts() == old(self).texts(),
            lhs.name@ == rhs.name@ ==> r is Ok && final(self).texts() == old(self).texts().push(
                pair_text(*lhs, *rhs),
            ),
    {
        if !bytes_equal(lhs.name.as_slice(), rhs.name.as_slice()) {
            return Err(ChecksumError::MismatchedNames);
        }
        let text = encode_pair(lhs, rhs);
        let hash = sha256(text.as_slice());
        let ghost acc0 = self.accumulator@;
        let mut i: usize = 0;
        while i < DIGEST_LEN
            invariant
                i <= DIGEST_LEN,
                hash@.len() == DIGEST_LEN,
                hash@ == sha256_of(text@),
                acc0.len() == DIGEST_LEN,
                acc0 == xor_digests(self.texts@),
                self.texts == old(self).texts,
                self.pairs == old(self).pairs,
                self.sketch == old(self).sketch,
                old(self).wf(),
                self.accumulator@.len() == DIGEST_LEN,
                forall|k: int| 0 <= k < i ==> #[trigger] self.accumulator@[k] == acc0[k] ^ hash@[k],
                forall|k: int| i <= k < DIGEST_LEN ==> #[trigger] self.accumulator@[k] == acc0[k],
            decreases DIGEST_LEN - i,
        {
            let a = self.accumulator[i];
            self.accumulator.set(i, a ^ hash[i]);
            i = i + 1;
        }
        let ghost texts0 = self.texts@;
        proof {
            let nt = self.texts@.push(text@);
            assert(nt.drop_last() =~= self.texts@);
            assert(self.accumulator@ =~= xor_digests(nt));
            self.texts = Ghost(nt);
        }
        self.pairs = self.pairs + 1;
        keep_in_sketch(&mut self.sketch, HashAndText { hash, text }, Ghost(texts0));
        Ok(())
    }

    /// The texts of the sketch, largest digest first: the last 1000 (or fewer)
    /// of all pair texts ordered by digest, in reverse.
    pub fn sketch_descending(&self) -> (r: Vec<Vec<u8>>)
        requires
            self.wf(),
        ensures
            r@.len() == smallest_texts(self.texts()).len(),
            forall|i: int|
                0 <= i < r@.len() ==> #[trigger] r@[i]@ == smallest_texts(self.texts())[r@.len() - 1 - i],
    {
        let mut out: Vec<Vec<u8>> = Vec::new();
        let mut i: usize = self.sketch.len();
        while i > 0
            invariant
                i <= self.sketch@.len(),
                out@.len() == self.sketch@.len() - i,
                forall|k: int| 0 <= k < out@.len() ==> #[trigger] out@[k]@ == self.sketch@[self.sketch@.len() - 1 - k].text@,
            decreases i,
        {
            let mut copy: Vec<u8> = Vec::new();
            copy.extend_from_slice(self.sketch[i - 1].text.as_slice());
            proof {
                assert(copy@ =~= self.sketch@[i - 1].text@);
            }
            out.push(copy);
            i = i - 1;
        }
        proof {
            assert forall|k: int| 0 <= k < out@.len() implies #[trigger] out@[k]@ == self.sketch()[out@.len() - 1 - k] by {
                assert(self.sketch()[out@.len() - 1 - k] == self.sketch@[out@.len() - 1 - k].text@);
            }
        }
        out
    }
}

pub open spec fn entry_texts(entries: Seq<HashAndText>) -> Seq<Seq<u8>> {
    entries.map_values(|e: HashAndText| e.text@)
}

pub open spec fn hashes_match(entries: Seq<HashAndText>) -> bool {
    forall|i: int| 0 <= i < entries.len() ==> #[trigger] entries[i].hash@ == sha256_of(entries[i].text@)
}

/// Puts an entry into the sketch in order, then drops the largest while more
/// than 1000 are kept.
fn keep_in_sketch(sketch: &mut Vec<HashAndText>, entry: HashAndText, Ghost(texts): Ghost<Seq<Seq<u8>>>)
    requires
        entry_texts(old(sketch)@) == smallest_texts(texts),
        hashes_match(old(sketch)@),
        entry.hash@ == sha256_of(entry.text@),
    ensures
        entry_texts(final(sketch)@) == smallest_texts(texts.push(entry.text@)),
        hashes_match(final(sketch)@),
{
    let ghost k0 = entry_texts(sketch@);
    let ghost t = entry.text@;
    let mut pos: usize = sketch.len();
    loop
        invariant
            pos <= sketch@.len(),
            sketch@ == old(sketch)@,
            hashes_match(sketch@),
            entry.hash@ == sha256_of(entry.text@),
            k0 == entry_texts(sketch@),
            t == entry.text@,
            forall|i: int| pos <= i < k0.len() ==> !text_le(#[trigger] k0[i], t),
        ensures
            pos <= sketch@.len(),
            sketch@ == old(sketch)@,
            forall|i: int| pos <= i < k0.len() ==> !text_le(#[trigger] k0[i], t),
            pos == 0 || text_le(k0[pos - 1], t),
        decreases pos,
    {
        if pos == 0 {
            break;
        }
        assert(k0[pos - 1] == sketch@[pos - 1].text@);
        if entry_le(&sketch[pos - 1], &entry) {
            break;
        }
        pos = pos - 1;
    }
    proof {
        lemma_sketch_step(texts, t, pos as int);
    }
    let ghost k1 = k0.insert(pos as int, t);
    sketch.insert(pos, entry);
    assert(entry_texts(sketch@) =~= k1);
    if sketch.len() > SKETCH_SIZE {
        sketch.pop();
        assert(entry_texts(sketch@) =~= k1.take(SKETCH_SIZE as int));
    }
    proof {
        let n = sketch@;
        assert forall|i: int| 0 <= i < n.len() implies #[trigger] n[i].hash@ == sha256_of(n[i].text@) by {
            if i < pos {
                assert(n[i] == old(sketch)@[i]);
            } else if i > pos {
                assert(n[i] == old(sketch)@[i - 1]);
            }
        }
    }
}

/// Whether entry `a` comes no later than entry `b` in the sketch's order.
fn entry_le(a: &HashAndText, b: &HashAndText) -> (r: bool)
    requires
        a.hash@ == sha256_of(a.text@),
        b.hash@ == sha256_of(b.text@),
    ensures
        r == text_le(a.text@, b.text@),
{
    if bytes_equal(a.hash.as_slice(), b.hash.as_slice()) {
        bytes_le(a.text.as_slice(), b.text.as_slice())
    } else {
        bytes_le(a.hash.as_slice(), b.hash.as_slice())
    }
}

proof fn lemma_xor_swap(a: u8, b: u8, c: u8)
    ensures
        (a ^ b) ^ c == (a ^ c) ^ b,
{
    assert((a ^ b) ^ c == (a ^ c) ^ b) by (bit_vector);
}

/// The digest of one text can be taken out of the fold wherever it stands.
proof fn lemma_xor_digests_remove(texts: Seq<Seq<u8>>, k: int)
    requires
        0 <= k < texts.len(),
    ensures
        xor_digests(texts) == xor_bytes(xor_digests(texts.remove(k)), sha256_of(texts[k])),
    decreases texts.len(),
{
    if k == texts.len() - 1 {
        assert(texts.remove(k) =~= texts.drop_last());
    } else {
        let init = texts.drop_last();
        lemma_xor_digests_remove(init, k);
        assert(init.remove(k) =~= texts.remove(k).drop_last());
        assert(texts.remove(k).last() == texts.last());
        let inner = xor_digests(init.remove(k));
        let hk = sha256_of(texts[k]);
        let hl = sha256_of(texts.last());
        assert forall|i: int| 0 <= i < DIGEST_LEN implies #[trigger] xor_digests(texts)[i] == xor_bytes(
            xor_digests(texts.remove(k)),
            hk,
        )[i] by {
            lemma_xor_swap(inner[i], hk[i], hl[i]);
        }
        assert(xor_digests(texts) =~= xor_bytes(xor_digests(texts.remove(k)), hk));
    }
}

/// The digest does not depend on the order of the pairs: any reordering of
/// the same pair texts gives the same 32 bytes.
pub proof fn lemma_digest_order_free(a: Seq<Seq<u8>>, b: Seq<Seq<u8>>)
    requires
        a.to_multiset() == b.to_multiset(),
    ensures
        xor_digests(a) == xor_digests(b),
    decreases a.len(),
{
    broadcast use vstd::seq_lib::group_to_multiset_ensures;

    if a.len() == 0 {
        if b.len() > 0 {
            assert(b.to_multiset().count(b[0]) > 0);
        }
        assert(b =~= a);
    } else {
        let x = a.last();
        assert(a.drop_last().push(x) =~= a);
        assert(a.to_multiset().count(x) > 0);
        assert(b.contains(x));
        let k = choose|k: int| 0 <= k < b.len() && b[k] == x;
        vstd::seq_lib::to_multiset_remove(b, k);
        assert(a.drop_last().to_multiset() =~= b.remove(k).to_multiset());
        lemma_digest_order_free(a.drop_last(), b.remove(k));
        lemma_xor_digests_remove(b, k);
    }
}

proof fn lemma_lex_reflexive(a: Seq<u8>)
    ensures
        lex_le(a, a),
    decreases a.len(),
{
    if a.len() > 0 {
        lemma_lex_reflexive(a.drop_first());
    }
}

proof fn lemma_lex_total(a: Seq<u8>, b: Seq<u8>)
    ensures
        lex_le(a, b) || lex_le(b, a),
    decreases a.len(),
{
    if a.len() > 0 && b.len() > 0 && a[0] == b[0] {
        lemma_lex_total(a.drop_first(), b.drop_first());
    }
}

proof fn lemma_lex_antisymmetric(a: Seq<u8>, b: Seq<u8>)
    requires
        lex_le(a, b),
        lex_le(b, a),
    ensures
        a == b,
    decreases a.len(),
{
    if a.len() > 0 && b.len() > 0 {
        lemma_lex_antisymmetric(a.drop_first(), b.drop_first());
        assert forall|i: int| 0 <= i < a.len() implies a[i] == b[i] by {
            if i > 0 {
                assert(a[i] == a.drop_first()[i - 1]);
                assert(b[i] == b.drop_first()[i - 1]);
            }
        }
    }
    assert(a =~= b);
}

proof fn lemma_lex_transitive(a: Seq<u8>, b: Seq<u8>, c: Seq<u8>)
    requires
        lex_le(a, b),
        lex_le(b, c),
    ensures
        lex_le(a, c),
    decreases a.len(),
{
    if a.len() > 0 && b.len() > 0 && c.len() > 0 && a[0] == b[0] && b[0] == c[0] {
        lemma_lex_transitive(a.drop_first(), b.drop_first(), c.drop_first());
    }
}

/// Digest first, then text, is a total order on pair texts.
proof fn lemma_sketch_order_total()
    ensures
        total_ordering(sketch_order()),
{
    let r = sketch_order();
    assert forall|x: Seq<u8>| #[trigger] r(x, x) by {
        lemma_lex_reflexive(x);
    }
    assert forall|x: Seq<u8>, y: Seq<u8>| #[trigger] r(x, y) || #[trigger] r(y, x) by {
        lemma_lex_total(sha256_of(x), sha256_of(y));
        lemma_lex_total(x, y);
    }
    assert forall|x: Seq<u8>, y: Seq<u8>| #[trigger] r(x, y) && #[trigger] r(y, x) implies x == y by {
        if sha256_of(x) != sha256_of(y) {
            lemma_lex_antisymmetric(sha256_of(x), sha256_of(y));
        } else {
            lemma_lex_antisymmetric(x, y);
        }
    }
    assert forall|x: Seq<u8>, y: Seq<u8>, z: Seq<u8>| #[trigger] r(x, y) && #[trigger] r(y, z) implies r(x, z) by {
        let (hx, hy, hz) = (sha256_of(x), sha256_of(y), sha256_of(z));
        if hx == hy && hy == hz {
            lemma_lex_transitive(x, y, z);
        } else if hx != hy && hy != hz {
            lemma_lex_transitive(hx, hy, hz);
            if hx == hz {
                lemma_lex_antisymmetric(hx, hy);
            }
        }
    }
}

/// First position from `i` on whose text comes after `t`, or the length.
spec fn first_after(s: Seq<Seq<u8>>, t: Seq<u8>, i: int) -> int
    decreases s.len() - i,
{
    if i >= s.len() {
        s.len() as int
    } else if !text_le(s[i], t) {
        i
    } else {
        first_after(s, t, i + 1)
    }
}

proof fn lemma_first_after(s: Seq<Seq<u8>>, t: Seq<u8>, i: int)
    requires
        0 <= i <= s.len(),
    ensures
        i <= first_after(s, t, i) <= s.len(),
        forall|k: int| i <= k < first_after(s, t, i) ==> text_le(#[trigger] s[k], t),
        first_after(s, t, i) < s.len() ==> !text_le(s[first_after(s, t, i)], t),
    decreases s.len() - i,
{
    if i < s.len() && text_le(s[i], t) {
        lemma_first_after(s, t, i + 1);
    }
}

/// Taking one more text into the sketch: the sorted texts gain it at the
/// position found by scanning the sketch, or beyond the sketch.
proof fn lemma_sketch_step(texts: Seq<Seq<u8>>, t: Seq<u8>, pos: int)
    requires
        0 <= pos <= smallest_texts(texts).len(),
        forall|i: int| pos <= i < smallest_texts(texts).len() ==> !text_le(#[trigger] smallest_texts(texts)[i], t),
        pos == 0 || text_le(smallest_texts(texts)[pos - 1], t),
    ensures
        smallest_texts(texts).len() <= SKETCH_SIZE,
        ({
            let k1 = smallest_texts(texts).insert(pos, t);
            smallest_texts(texts.push(t)) == if k1.len() > SKETCH_SIZE {
                k1.take(SKETCH_SIZE as int)
            } else {
                k1
            }
        }),
{
    broadcast use vstd::seq_lib::group_to_multiset_ensures;

    let r = sketch_order();
    lemma_sketch_order_total();
    let s = texts.sort_by(r);
    texts.lemma_sort_by_ensures(r);
    let l = sketch_len(texts.len()) as int;
    let k = smallest_texts(texts);
    assert(s.len() == texts.len()) by {
        vstd::seq_lib::to_multiset_len(s);
        vstd::seq_lib::to_multiset_len(texts);
    }
    assert(k == s.take(l));
    lemma_first_after(s, t, l);
    let q = if pos < l { pos } else { first_after(s, t, l) };
    let x = s.insert(q, t);
    assert(sorted_by(x, r)) by {
        assert forall|i: int, j: int| 0 <= i < j < x.len() implies #[trigger] r(x[i], x[j]) by {
            if j < q {
                assert(x[i] == s[i] && x[j] == s[j]);
            } else if i > q {
                assert(x[i] == s[i - 1] && x[j] == s[j - 1]);
            } else if i < q && j > q {
                assert(x[i] == s[i] && x[j] == s[j - 1]);
            } else if j == q {
                assert(x[j] == t && x[i] == s[i]);
                if i < pos {
                    assert(s[pos - 1] == k[pos - 1]);
                    assert(r(s[pos - 1], t));
                    if i < pos - 1 {
                        assert(r(s[i], s[pos - 1]));
                    }
                } else {
                    assert(l <= i);
                    assert(text_le(s[i], t));
                    assert(r(s[i], t));
                }
            } else {
                assert(i == q && x[i] == t && x[j] == s[j - 1]);
                if q < l {
                    assert(s[q] == k[q]);
                }
                assert(!text_le(s[q], t));
                assert(r(s[q], t) || r(t, s[q]));
                assert(r(t, s[q]));
                if j - 1 > q {
                    assert(r(s[q], s[j - 1]));
                }
            }
        }
    }
    let s2 = texts.push(t).sort_by(r);
    texts.push(t).lemma_sort_by_ensures(r);
    vstd::seq_lib::to_multiset_insert(s, q, t);
    assert(x.to_multiset() == texts.push(t).to_multiset());
    vstd::seq_lib::lemma_sorted_unique(x, s2, r);
    let k1 = k.insert(pos, t);
    if pos < l {
        assert(k1 =~= x.take(l + 1));
    } else if l == SKETCH_SIZE {
        assert(k1.take(SKETCH_SIZE as int) =~= x.take(SKETCH_SIZE as int));
    } else {
        assert(k1 =~= x);
    }
}

/// The sketch is the same whatever the order of the pairs: the 1000 (or
/// fewer) texts with the smallest digests, ties broken by the text, smallest
/// first.
pub proof fn lemma_sketch_order_free(a: Seq<Seq<u8>>, b: Seq<Seq<u8>>)
    requires
        a.to_multiset() == b.to_multiset(),
    ensures
        smallest_texts(a) == smallest_texts(b),
{
    broadcast use vstd::seq_lib::group_to_multiset_ensures;

    lemma_sketch_order_total();
    a.lemma_sort_by_ensures(sketch_order());
    b.lemma_sort_by_ensures(sketch_order());
    vstd::seq_lib::lemma_sorted_unique(a.sort_by(sketch_order()), b.sort_by(sketch_order()), sketch_order());
    vstd::seq_lib::to_multiset_len(a);
    vstd::seq_lib::to_multiset_len(b);
}

/// Two digests that took the same pairs in any order agree: the same 32
/// bytes, and the same sketch in the same order.
pub proof fn lemma_checksum_order_free(d1: &OrderFreeDigest, d2: &OrderFreeDigest)
    requires
        d1.wf(),
        d2.wf(),
        d1.texts().to_multiset() == d2.texts().to_multiset(),
    ensures
        xor_digests(d1.texts()) == xor_digests(d2.texts()),
        d1.sketch() == d2.sketch(),
{
    lemma_digest_order_free(d1.texts(), d2.texts());
    lemma_sketch_order_free(d1.texts(), d2.texts());
}

/// What the digest keeps, stated over the pair texts taken so far.
pub proof fn lemma_digest_state(d: &OrderFreeDigest)
    requires
        d.wf(),
    ensures
        d.sketch() == smallest_texts(d.texts()),
{
}

} // verus!
