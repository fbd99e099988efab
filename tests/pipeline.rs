use std::sync::mpsc::{sync_channel, Receiver};

use mazab::block_writer::{encode_block, make_block_pair, DataBlock, LocalBlockPairWriter};
use mazab::extractor::{orphan_records, ExtractError, Extractor};
use mazab::formatter::ReadParFormatter;
use mazab::pairer::{hash_name, Pairer, Remainder};
use mazab::record::{
    complement, reverse_bytes, AlignedRead, FLAG_FIRST_SEGMENT, FLAG_LAST_SEGMENT,
    FLAG_REVERSE_COMPLEMENTED, FLAG_SECONDARY, FLAG_SEGMENTED, FLAG_SUPPLEMENTARY,
};
use mazab::shuffler::Shuffler;

fn read(name: Option<&str>, flags: u16, seq: &str, qual: &str) -> AlignedRead {
    AlignedRead {
        name: name.map(|n| n.as_bytes().to_vec()),
        flags,
        sequence: seq.as_bytes().to_vec(),
        quality_scores: qual.as_bytes().to_vec(),
    }
}

const R1: u16 = FLAG_SEGMENTED | FLAG_FIRST_SEGMENT;
const R2: u16 = FLAG_SEGMENTED | FLAG_LAST_SEGMENT;

fn channel() -> (LocalBlockPairWriter, Receiver<(DataBlock, DataBlock)>) {
    let (tx, rx) = sync_channel(64);
    (LocalBlockPairWriter::new(None, "chr1", tx), rx)
}

fn drain(rx: &Receiver<(DataBlock, DataBlock)>) -> (Vec<u8>, Vec<u8>) {
    let mut a = Vec::new();
    let mut b = Vec::new();
    while let Ok((x, y)) = rx.try_recv() {
        assert_eq!(x.side, 1);
        assert_eq!(y.side, 2);
        a.extend_from_slice(&x.data);
        b.extend_from_slice(&y.data);
    }
    (a, b)
}

fn run(records: Vec<AlignedRead>) -> (Remainder, Vec<u8>, Vec<u8>) {
    let (w, rx) = channel();
    let mut ex = Extractor::new(w);
    for r in records {
        ex.feed(r).unwrap();
    }
    let rem = ex.finish().unwrap();
    let (a, b) = drain(&rx);
    (rem, a, b)
}

#[test]
fn complement_table_is_self_inverse() {
    for b in "ACGTMRSVWYHKDBN=".bytes() {
        assert_eq!(complement(complement(b)), b);
    }
    assert_eq!(complement(b'A'), b'T');
    assert_eq!(complement(b'M'), b'K');
    assert_eq!(complement(b'x'), b'N');
}

#[test]
fn reverse_complement_example() {
    let mut r = read(Some("r"), R1 | FLAG_REVERSE_COMPLEMENTED, "ACGTN", "!\"#$%");
    r.reverse_complement();
    assert_eq!(r.sequence, b"NACGT".to_vec());
    assert_eq!(r.quality_scores, b"%$#\"!".to_vec());
    assert_eq!(r.flags, R1 | FLAG_REVERSE_COMPLEMENTED);
}

#[test]
fn reverse_complement_twice_is_identity() {
    let mut r = read(Some("r"), R1, "AACGTRYKMSWBDHVN=", "ABCDEFGHIJKLMNOPQ");
    let orig = r.clone();
    r.reverse_complement();
    assert_ne!(r.sequence, orig.sequence);
    r.reverse_complement();
    assert_eq!(r.sequence, orig.sequence);
    assert_eq!(r.quality_scores, orig.quality_scores);
    let mut v = vec![1u8, 2, 3];
    reverse_bytes(&mut v);
    assert_eq!(v, vec![3, 2, 1]);
}

#[test]
fn pairer_pairs_mates_earlier_first() {
    let mut p = Pairer::new();
    assert!(p.accept(read(Some("r1"), R2, "AC", "II")).is_none());
    let pair = p.accept(read(Some("r1"), R1, "GT", "JJ")).unwrap();
    assert_eq!(pair.0.flags, R2);
    assert_eq!(pair.1.flags, R1);
    let rem = p.remainder();
    assert!(rem.tail.is_empty());
    assert_eq!(rem.flags[R1 as usize], 1);
    assert_eq!(rem.flags[R2 as usize], 1);
}

#[test]
fn pairer_skips_unqualified_but_counts_them() {
    let mut p = Pairer::new();
    assert!(p.accept(read(None, R1, "A", "I")).is_none());
    assert!(p.accept(read(Some("s"), R1 | FLAG_SECONDARY, "A", "I")).is_none());
    assert!(p.accept(read(Some("s"), R2 | FLAG_SUPPLEMENTARY, "A", "I")).is_none());
    assert!(p.accept(read(Some("u"), FLAG_FIRST_SEGMENT, "A", "I")).is_none());
    assert_eq!(p.records_seen(), 4);
    let rem = p.remainder();
    assert!(rem.tail.is_empty());
    assert_eq!(rem.flags.iter().sum::<usize>(), 4);
    assert_eq!(rem.flags.len(), 65536);
}

#[test]
fn orphans_plus_twice_pairs_is_candidates() {
    let mut p = Pairer::new();
    let names = ["a", "b", "a", "c", "d", "b", "e", "e"];
    let mut pairs = 0;
    for (i, n) in names.iter().enumerate() {
        let flags = if i % 2 == 0 { R1 } else { R2 };
        if p.accept(read(Some(n), flags, "A", "I")).is_some() {
            pairs += 1;
        }
    }
    let rem = p.remainder();
    assert_eq!(pairs, 3);
    assert_eq!(rem.tail.len(), 2);
    assert_eq!(rem.tail.len() + 2 * pairs, names.len());
}

#[test]
fn shuffler_is_deterministic_and_a_permutation() {
    let run_once = || {
        let mut s: Shuffler<u32> = Shuffler::new(8, 19);
        let mut out = Vec::new();
        for i in 0..100u32 {
            if let Some(x) = s.offer(i) {
                out.push(x);
            }
        }
        while let Some(x) = s.drain() {
            out.push(x);
        }
        out
    };
    let a = run_once();
    let b = run_once();
    assert_eq!(a, b);
    let mut sorted = a.clone();
    sorted.sort();
    assert_eq!(sorted, (0..100u32).collect::<Vec<_>>());
    assert_ne!(a, (0..100u32).collect::<Vec<_>>());
}

#[test]
fn shuffler_steps_with_given_draws() {
    let mut s: Shuffler<u32> = Shuffler::new(2, 19);
    assert_eq!(s.offer_at(1, 0), None);
    assert_eq!(s.offer_at(2, 0), None);
    assert_eq!(s.offer_at(3, 1), Some(2));
    assert_eq!(s.len(), 2);
    assert_eq!(s.drain_at(0), Some(3));
    assert_eq!(s.drain_at(0), Some(1));
    assert_eq!(s.drain_at(0), None);
}

#[test]
fn empty_input_gives_empty_output() {
    let (rem, a, b) = run(vec![]);
    assert!(rem.tail.is_empty());
    assert!(rem.flags.iter().all(|&c| c == 0));
    assert!(a.is_empty());
    assert!(b.is_empty());
}

#[test]
fn one_pair_same_reference() {
    let (rem, a, b) = run(vec![
        read(Some("r1"), R1, "ACGT", "IIII"),
        read(Some("r1"), R2, "TTGG", "JJJJ"),
    ]);
    assert!(rem.tail.is_empty());
    assert_eq!(a, b"@r1\nACGT\n+\nIIII\n".to_vec());
    assert_eq!(b, b"@r1\nTTGG\n+\nJJJJ\n".to_vec());
}

#[test]
fn pair_is_ordered_by_segment() {
    let (_, a, b) = run(vec![
        read(Some("r1"), R2, "TTGG", "JJJJ"),
        read(Some("r1"), R1, "ACGT", "IIII"),
    ]);
    assert_eq!(a, b"@r1\nACGT\n+\nIIII\n".to_vec());
    assert_eq!(b, b"@r1\nTTGG\n+\nJJJJ\n".to_vec());
}

#[test]
fn mates_on_different_references_are_rescued() {
    let (rem_a, a1, _) = run(vec![read(Some("r1"), R1, "ACGT", "IIII")]);
    let (rem_b, b1, _) = run(vec![read(Some("r1"), R2, "TTGG", "JJJJ")]);
    assert!(a1.is_empty() && b1.is_empty());
    assert_eq!(rem_a.tail.len(), 1);
    assert_eq!(rem_b.tail.len(), 1);
    let orphans = orphan_records(vec![rem_a, rem_b]);
    assert_eq!(orphans.len(), 2);
    let (rem, a, b) = run(orphans);
    assert!(rem.tail.is_empty());
    assert_eq!(a, b"@r1\nACGT\n+\nIIII\n".to_vec());
    assert_eq!(b, b"@r1\nTTGG\n+\nJJJJ\n".to_vec());
}

#[test]
fn nameless_segmented_record_is_skipped() {
    let (rem, a, b) = run(vec![read(None, R1, "ACGT", "IIII")]);
    assert!(rem.tail.is_empty());
    assert_eq!(rem.flags[R1 as usize], 1);
    assert!(a.is_empty() && b.is_empty());
}

#[test]
fn reverse_complemented_record_is_written_forward() {
    let (_, a, b) = run(vec![
        read(Some("q"), R1 | FLAG_REVERSE_COMPLEMENTED, "ACGTN", "!\"#$%"),
        read(Some("q"), R2, "GG", "II"),
    ]);
    assert_eq!(a, b"@q\nNACGT\n+\n%$#\"!\n".to_vec());
    assert_eq!(b, b"@q\nGG\n+\nII\n".to_vec());
}

#[test]
fn sides_stay_mate_aligned() {
    let mut recs = Vec::new();
    for i in 0..50 {
        recs.push(read(Some(&format!("n{}", i)), R1, "AC", "II"));
    }
    for i in (0..50).rev() {
        recs.push(read(Some(&format!("n{}", i)), R2, "GT", "JJ"));
    }
    recs.push(read(Some("lonely"), R1, "A", "I"));
    let (rem, a, b) = run(recs);
    assert_eq!(rem.tail.len(), 1);
    let la: Vec<&[u8]> = a.split(|&c| c == b'\n').filter(|l| !l.is_empty()).collect();
    let lb: Vec<&[u8]> = b.split(|&c| c == b'\n').filter(|l| !l.is_empty()).collect();
    assert_eq!(la.len(), 200);
    assert_eq!(lb.len(), 200);
    for i in 0..50 {
        assert_eq!(la[4 * i], lb[4 * i]);
        assert_eq!(la[4 * i + 1], b"AC");
        assert_eq!(lb[4 * i + 1], b"GT");
    }
}

#[test]
fn malformed_pair_is_refused() {
    let (w, _rx) = channel();
    let mut ex = Extractor::new(w);
    ex.feed(read(Some("x"), R1, "A", "I")).unwrap();
    ex.feed(read(Some("x"), R1, "A", "I")).unwrap();
    assert_eq!(ex.finish().err(), Some(ExtractError::MalformedPair));
}

#[test]
fn closed_writer_is_reported() {
    let (w, rx) = channel();
    drop(rx);
    let mut ex = Extractor::new(w);
    ex.feed(read(Some("x"), R1, "A", "I")).unwrap();
    ex.feed(read(Some("x"), R2, "A", "I")).unwrap();
    assert_eq!(ex.finish().err(), Some(ExtractError::WriterClosed));
}

#[test]
fn uncompressed_blocks_keep_each_side() {
    let id = String::from("chr2");
    let (x, y) = make_block_pair(None, &id, 3, (b"left", b"right"));
    assert_eq!(x.data, b"left".to_vec());
    assert_eq!(y.data, b"right".to_vec());
    assert_eq!((x.side, y.side), (1, 2));
    assert_eq!(x.block_number, 3);
    assert_eq!(y.source_id, "chr2");
}

#[test]
fn compressed_block_is_gzip() {
    let data = b"@r\nACGT\n+\nIIII\n".repeat(100);
    let z = encode_block(Some(6), &data);
    assert_eq!(&z[..2], &[0x1f, 0x8b]);
    assert_ne!(z, data);
    assert!(z.len() < data.len());
}

#[test]
fn name_hash_is_fnv1a() {
    assert_eq!(hash_name(b""), 0xcbf29ce484222325);
    assert_eq!(hash_name(b"a"), 0xaf63dc4c8601ec8c);
}

#[test]
fn many_waiting_records_pair_correctly() {
    let mut p = Pairer::new();
    let n = 500;
    for i in 0..n {
        assert!(p.accept(read(Some(&format!("q{}", i)), R1, "A", "I")).is_none());
    }
    let mut seen = Vec::new();
    for i in (0..n).filter(|i| i % 3 != 0) {
        let name = format!("q{}", i);
        let pair = p.accept(read(Some(&name), R2, "C", "J")).unwrap();
        assert_eq!(pair.0.name, Some(name.as_bytes().to_vec()));
        assert_eq!(pair.0.flags, R1);
        seen.push(i);
    }
    let rem = p.remainder();
    assert_eq!(seen.len() + rem.tail.len(), n);
    let mut left: Vec<Vec<u8>> = rem.tail.iter().map(|r| r.name.clone().unwrap()).collect();
    left.sort();
    let mut expected: Vec<Vec<u8>> = (0..n).filter(|i| i % 3 == 0).map(|i| format!("q{}", i).into_bytes()).collect();
    expected.sort();
    assert_eq!(left, expected);
}

#[test]
fn formatter_flush_sends_buffers_once() {
    let (w, rx) = channel();
    let mut f = ReadParFormatter::new(w);
    assert!(f.flush().is_ok());
    assert!(rx.try_recv().is_err());
    f.write((
        read(Some("r1"), R1 | FLAG_REVERSE_COMPLEMENTED, "ACGTN", "!\"#$%"),
        read(Some("r1"), R2, "GG", "II"),
    ))
    .unwrap();
    assert!(rx.try_recv().is_err());
    assert!(f.flush().is_ok());
    let (x, y) = rx.try_recv().unwrap();
    assert_eq!(x.data, b"@r1\nNACGT\n+\n%$#\"!\n".to_vec());
    assert_eq!(y.data, b"@r1\nGG\n+\nII\n".to_vec());
    assert!(f.flush().is_ok());
    assert!(rx.try_recv().is_err());
}

#[test]
fn formatter_order_of_pair_does_not_matter() {
    let (w1, rx1) = channel();
    let (w2, rx2) = channel();
    let mut f1 = ReadParFormatter::new(w1);
    let mut f2 = ReadParFormatter::new(w2);
    let a = read(Some("z"), R1, "AC", "II");
    let b = read(Some("z"), R2, "GT", "JJ");
    f1.write((a.clone(), b.clone())).unwrap();
    f2.write((b, a)).unwrap();
    f1.flush().unwrap();
    f2.flush().unwrap();
    let (x1, y1) = rx1.try_recv().unwrap();
    let (x2, y2) = rx2.try_recv().unwrap();
    assert_eq!(x1.data, x2.data);
    assert_eq!(y1.data, y2.data);
}
