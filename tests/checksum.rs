use mazab::checksum::{bytes_le, encode_pair, hexy, ChecksumError, FastqRecord, OrderFreeDigest};
use mazab::options::make_compression;
use mazab::options::CompressionError;
use mazab::tally::{flag_columns, merge_flags, sum};

fn rec(name: &str, seq: &str) -> FastqRecord {
    FastqRecord {
        name: name.as_bytes().to_vec(),
        description: Vec::new(),
        sequence: seq.as_bytes().to_vec(),
        quality_scores: vec![b'I'; seq.len()],
    }
}

fn digest_of(pairs: &[(&str, &str, &str)]) -> (Vec<u8>, Vec<Vec<u8>>) {
    let mut d = OrderFreeDigest::new();
    for (n, s1, s2) in pairs {
        d.add_pair(&rec(n, s1), &rec(n, s2)).unwrap();
    }
    (d.digest().clone(), d.sketch_descending())
}

#[test]
fn hexy_writes_two_digits_per_byte() {
    assert_eq!(hexy(&[0x00, 0x1f, 0xa0, 0xff]), "001fa0ff");
    assert_eq!(hexy(&[]), "");
}

#[test]
fn digest_ignores_pair_order() {
    let a = ("A", "ACGT", "TTTT");
    let b = ("B", "GGGG", "CCCA");
    let c = ("C", "NNNA", "ACAC");
    let (d1, s1) = digest_of(&[a, b, c]);
    let (d2, s2) = digest_of(&[c, a, b]);
    assert_eq!(d1.len(), 32);
    assert_eq!(d1, d2);
    assert_eq!(s1, s2);
    assert_eq!(s1.len(), 3);
    let (d3, _) = digest_of(&[b, a]);
    assert_eq!(
        hexy(&d3),
        "487540cc20b28e12b83ca8f7c449c0d1976b52a891dbd22a281a0741011d603b"
    );
    assert_ne!(d1, d3);
}

#[test]
fn empty_digest_is_zero() {
    let d = OrderFreeDigest::new();
    assert_eq!(d.digest().clone(), vec![0u8; 32]);
    assert_eq!(d.pair_count(), 0);
}

#[test]
fn single_pair_digest_is_its_sha256() {
    let (d, s) = digest_of(&[("r0", "ACGT", "NDLS")]);
    let text = b"@r0\nACGT\n+\nIIII\n@r0\nNDLS\n+\nIIII\n".to_vec();
    assert_eq!(s, vec![text]);
    assert_eq!(
        hexy(&d),
        "5a2bd8bdf699494997649f4e217ab0895b09ac376284dcc9647c6a8093732fcd"
    );
}

#[test]
fn mismatched_names_are_refused() {
    let mut d = OrderFreeDigest::new();
    assert_eq!(d.add_pair(&rec("a", "A"), &rec("b", "A")), Err(ChecksumError::MismatchedNames));
    assert_eq!(d.pair_count(), 0);
    assert_eq!(d.digest().clone(), vec![0u8; 32]);
}

#[test]
fn pair_text_includes_description() {
    let mut l = rec("r", "AC");
    l.description = b"x y".to_vec();
    let r = rec("r", "GT");
    assert_eq!(encode_pair(&l, &r), b"@r x y\nAC\n+\nII\n@r\nGT\n+\nII\n".to_vec());
}

#[test]
fn sketch_keeps_a_thousand_smallest_in_descending_order() {
    let mut d = OrderFreeDigest::new();
    for i in 0..1100 {
        let n = format!("p{}", i);
        d.add_pair(&rec(&n, "A"), &rec(&n, "C")).unwrap();
    }
    let s = d.sketch_descending();
    assert_eq!(s.len(), 1000);
    assert_eq!(d.pair_count(), 1100);
    let mut d2 = OrderFreeDigest::new();
    for i in (0..1100).rev() {
        let n = format!("p{}", i);
        d2.add_pair(&rec(&n, "A"), &rec(&n, "C")).unwrap();
    }
    assert_eq!(d2.sketch_descending(), s);
    assert_eq!(d2.digest(), d.digest());
}

#[test]
fn lexicographic_order() {
    assert!(bytes_le(b"ab", b"abc"));
    assert!(!bytes_le(b"abc", b"ab"));
    assert!(bytes_le(b"ab", b"ab"));
    assert!(bytes_le(b"aa", b"b"));
}

#[test]
fn compression_specifiers() {
    assert_eq!(make_compression("fast"), Ok(1));
    assert_eq!(make_compression("default"), Ok(6));
    assert_eq!(make_compression("best"), Ok(9));
    assert_eq!(make_compression("0"), Ok(0));
    assert_eq!(make_compression("7"), Ok(7));
    assert_eq!(make_compression("+3"), Ok(3));
    assert_eq!(make_compression("10"), Err(CompressionError::LevelTooHigh));
    assert_eq!(make_compression("abc"), Err(CompressionError::InvalidSpecifier));
    assert_eq!(make_compression(""), Err(CompressionError::InvalidSpecifier));
    assert_eq!(make_compression("99999999999"), Err(CompressionError::InvalidSpecifier));
}

#[test]
fn sum_of_counts() {
    assert_eq!(sum(&[1, 2, 3]), 6);
    assert_eq!(sum(&[]), 0);
}

#[test]
fn merge_adds_entrywise() {
    let mut a = vec![1usize, 2, usize::MAX];
    merge_flags(&mut a, &vec![3, 0, 1]);
    assert_eq!(a, vec![4, 2, usize::MAX]);
}

#[test]
fn flag_columns_are_bits() {
    assert_eq!(flag_columns(99), vec![1, 1, 0, 0, 0, 1, 1, 0, 0, 0, 0, 0]);
    assert_eq!(flag_columns(0x800)[11], 1);
}
