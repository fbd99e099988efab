use vstd::prelude::*;

verus! {

/// Flag bit: the template has more than one segment.
pub const FLAG_SEGMENTED: u16 = 0x1;

/// Flag bit: the sequence is stored reverse-complemented.
pub const FLAG_REVERSE_COMPLEMENTED: u16 = 0x10;

/// Flag bit: first segment of the template.
pub const FLAG_FIRST_SEGMENT: u16 = 0x40;

/// Flag bit: last segment of the template.
pub const FLAG_LAST_SEGMENT: u16 = 0x80;

/// Flag bit: secondary alignment.
pub const FLAG_SECONDARY: u16 = 0x100;

/// Flag bit: supplementary alignment.
pub const FLAG_SUPPLEMENTARY: u16 = 0x800;

pub open spec fn has_flag(flags: u16, bit: u16) -> bool {
    flags & bit != 0
}

/// The parts of an alignment record that the pipeline reads: its name, its
/// flags word, its bases as ASCII letters (`=` for a base equal to the
/// reference) and its quality scores as printable ASCII.
#[derive(Clone, Debug)]
pub struct AlignedRead {
    pub name: Option<Vec<u8>>,
    pub flags: u16,
    pub sequence: Vec<u8>,
    pub quality_scores: Vec<u8>,
}

/// A record takes part in pairing when it is a primary, segmented alignment
/// with a name.
pub open spec fn is_pair_candidate(r: AlignedRead) -> bool {
    &&& has_flag(r.flags, FLAG_SEGMENTED)
    &&& !has_flag(r.flags, FLAG_SECONDARY)
    &&& !has_flag(r.flags, FLAG_SUPPLEMENTARY)
    &&& r.name.is_some()
}

/// The name of a record, empty where it has none.
pub open spec fn name_of(r: AlignedRead) -> Seq<u8> {
    match r.name {
        Some(n) => n@,
        None => Seq::empty(),
    }
}

impl AlignedRead {
    pub fn is_segmented(&self) -> (r: bool)
        ensures
            r == has_flag(self.flags, FLAG_SEGMENTED),
    {
        self.flags & FLAG_SEGMENTED != 0
    }

    pub fn is_first_segment(&self) -> (r: bool)
        ensures
            r == has_flag(self.flags, FLAG_FIRST_SEGMENT),
    {
        self.flags & FLAG_FIRST_SEGMENT != 0
    }

    pub fn is_last_segment(&self) -> (r: bool)
        ensures
            r == has_flag(self.flags, FLAG_LAST_SEGMENT),
    {
        self.flags & FLAG_LAST_SEGMENT != 0
    }

    pub fn is_secondary(&self) -> (r: bool)
        ensures
            r == has_flag(self.flags, FLAG_SECONDARY),
    {
        self.flags & FLAG_SECONDARY != 0
    }

    pub fn is_supplementary(&self) -> (r: bool)
        ensures
            r == has_flag(self.flags, FLAG_SUPPLEMENTARY),
    {
        self.flags & FLAG_SUPPLEMENTARY != 0
    }

    pub fn is_reverse_complemented(&self) -> (r: bool)
        ensures
            r == has_flag(self.flags, FLAG_REVERSE_COMPLEMENTED),
    {
        self.flags & FLAG_REVERSE_COMPLEMENTED != 0
    }

    /// Whether the record takes part in pairing.
    pub fn is_pair_candidate(&self) -> (r: bool)
        ensures
            r == is_pair_candidate(*self),
    {
        self.is_segmented() && !self.is_secondary() && !self.is_supplementary()
            && self.name.is_some()
    }

    /// Puts the record on the forward strand: the bases are reversed and each
    /// replaced by its IUPAC complement, the quality scores are reversed. The
    /// flags are left as they are.
    pub fn reverse_complement(&mut self)
        ensures
            final(self).sequence@ == reverse_complement_of(old(self).sequence@),
            final(self).quality_scores@ == old(self).quality_scores@.reverse(),
            final(self).name == old(self).name,
            final(self).flags == old(self).flags,
    {
        let ghost seq0 = self.sequence@;
        let n = self.sequence.len();
        let mut i: usize = 0;
        let mut j: usize = n;
        while i + 1 < j
            invariant
                i <= j <= n,
                i + j == n,
                self.sequence@.len() == n,
                seq0.len() == n,
                seq0 == old(self).sequence@,
                self.name == old(self).name,
                self.flags == old(self).flags,
                self.quality_scores == old(self).quality_scores,
                forall|k: int| 0 <= k < i ==> self.sequence@[k] == complement_base(seq0[n - 1 - k]),
                forall|k: int| j <= k < n ==> self.sequence@[k] == complement_base(seq0[n - 1 - k]),
                forall|k: int| i <= k < j ==> self.sequence@[k] == seq0[k],
            decreases j - i,
        {
            let a = self.sequence[i];
            let b = self.sequence[j - 1];
            self.sequence.set(i, complement(b));
            self.sequence.set(j - 1, complement(a));
            i = i + 1;
            j = j - 1;
        }
        if i < j {
            let a = self.sequence[i];
            self.sequence.set(i, complement(a));
        }
        assert(self.sequence@ =~= reverse_complement_of(seq0));
        reverse_bytes(&mut self.quality_scores);
    }
}

/// The IUPAC complement of a base letter, as ASCII codes (`=` 61, `A` 65, `C` 67,
/// `G` 71, `T` 84, ...); a letter outside the table becomes `N` (78).
pub open spec fn complement_base(b: u8) -> u8 {
    if b == 61 { 61 }
    else if b == 65 { 84 }
    else if b == 67 { 71 }
    else if b == 77 { 75 }
    else if b == 71 { 67 }
    else if b == 82 { 89 }
    else if b == 83 { 83 }
    else if b == 86 { 66 }
    else if b == 84 { 65 }
    else if b == 87 { 87 }
    else if b == 89 { 82 }
    else if b == 72 { 68 }
    else if b == 75 { 77 }
    else if b == 68 { 72 }
    else if b == 66 { 86 }
    else { 78 }
}

/// The letters of the IUPAC table, `=` included.
pub open spec fn is_iupac_base(b: u8) -> bool {
    b == 65 || b == 67 || b == 71 || b == 84 || b == 77 || b == 82
        || b == 83 || b == 86 || b == 87 || b == 89 || b == 72 || b == 75
        || b == 68 || b == 66 || b == 61 || b == 78
}

pub open spec fn reverse_complement_of(s: Seq<u8>) -> Seq<u8> {
    Seq::new(s.len(), |k: int| complement_base(s[s.len() - 1 - k]))
}

/// The IUPAC complement of one base letter.
pub fn complement(b: u8) -> (r: u8)
    ensures
        r == complement_base(b),
{
    match b {
        61 => 61,
        65 => 84,
        67 => 71,
        77 => 75,
        71 => 67,
        82 => 89,
        83 => 83,
        86 => 66,
        84 => 65,
        87 => 87,
        89 => 82,
        72 => 68,
        75 => 77,
        68 => 72,
        66 => 86,
        _ => 78,
    }
}

/// Reverses a byte vector in place.
pub fn reverse_bytes(v: &mut Vec<u8>)
    ensures
        final(v)@ == old(v)@.reverse(),
{
    let ghost v0 = v@;
    let n = v.len();
    let mut i: usize = 0;
    let mut j: usize = n;
    while i + 1 < j
        invariant
            i <= j <= n,
            i + j == n,
            v@.len() == n,
            v0.len() == n,
            forall|k: int| 0 <= k < i ==> v@[k] == v0[n - 1 - k],
            forall|k: int| j <= k < n ==> v@[k] == v0[n - 1 - k],
            forall|k: int| i <= k < j ==> v@[k] == v0[k],
        decreases j - i,
    {
        let a = v[i];
        let b = v[j - 1];
        v.set(i, b);
        v.set(j - 1, a);
        i = i + 1;
        j = j - 1;
    }
    assert(v@ =~= v0.reverse());
}

/// The complement table is its own inverse on the letters it lists.
pub proof fn lemma_complement_involutive(b: u8)
    requires
        is_iupac_base(b),
    ensures
        complement_base(complement_base(b)) == b,
{
}

/// Reverse-complementing twice gives back the bases, and reversing twice the
/// quality scores, when every base is a letter of the IUPAC table.
pub proof fn lemma_reverse_complement_involutive(bases: Seq<u8>, qualities: Seq<u8>)
    requires
        forall|k: int| 0 <= k < bases.len() ==> is_iupac_base(#[trigger] bases[k]),
    ensures
        reverse_complement_of(reverse_complement_of(bases)) == bases,
        qualities.reverse().reverse() == qualities,
{
    let once = reverse_complement_of(bases);
    assert forall|k: int| 0 <= k < bases.len() implies
        reverse_complement_of(once)[k] == bases[k] by {
        lemma_complement_involutive(bases[k]);
    }
    assert(reverse_complement_of(once) =~= bases);
    assert(qualities.reverse().reverse() =~= qualities);
}

} // verus!
