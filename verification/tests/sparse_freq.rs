use carrotson::lcg::LCG;
use carrotson::sparse::freq::Freq;
use carrotson::wire::{ReadError, Reader};

fn table(pairs: &[(u8, u32)]) -> Freq {
    let mut bytes = vec![pairs.len() as u8];
    for (x, p) in pairs {
        bytes.push(*x);
        bytes.extend_from_slice(&p.to_le_bytes());
    }
    Freq::read_from(&mut Reader::new(bytes)).unwrap()
}

#[test]
fn new_table_is_empty() {
    let freq = Freq::new();
    assert!(freq.entries().is_empty());
    assert_eq!(freq.branching(), 0);
}

#[test]
fn push_appends_in_order_of_first_sight() {
    let mut freq = Freq::new();
    freq.push(b'b');
    freq.push(b'a');
    freq.push(b'b');
    freq.push(b'c');
    freq.push(b'b');
    assert_eq!(freq.entries(), &vec![(b'b', 3), (b'a', 1), (b'c', 1)]);
    assert_eq!(freq.branching(), 3);
}

#[test]
fn push_counts_the_first_pair_of_a_byte() {
    let mut freq = table(&[(1, 5), (2, 6), (1, 7)]);
    freq.push(1);
    assert_eq!(freq.entries(), &vec![(1, 6), (2, 6), (1, 7)]);
}

#[test]
fn try_push_stops_at_a_full_counter() {
    let mut freq = table(&[(9, u32::MAX - 1), (8, 1)]);
    assert!(freq.try_push(9));
    assert_eq!(freq.entries(), &vec![(9, u32::MAX), (8, 1)]);
    assert!(!freq.try_push(9));
    assert_eq!(freq.entries(), &vec![(9, u32::MAX), (8, 1)]);
    assert!(freq.try_push(8));
    assert!(freq.try_push(7));
    assert_eq!(freq.entries(), &vec![(9, u32::MAX), (8, 2), (7, 1)]);
}

#[test]
fn branching_counts_distinct_bytes_with_observations() {
    assert_eq!(table(&[(1, 1), (2, 0), (1, 4), (3, 9)]).branching(), 2);
    assert_eq!(table(&[(5, 0), (5, 0)]).branching(), 0);
    let mut freq = Freq::new();
    for x in 0..=255u8 {
        freq.push(x);
        freq.push(x);
    }
    assert_eq!(freq.branching(), 256);
}

#[test]
fn random_on_empty_table_gives_nothing_and_draws_nothing() {
    let mut lcg = LCG::new(1);
    assert_eq!(Freq::new().random(&mut lcg), None);
    assert_eq!(table(&[(1, 0), (2, 0)]).random(&mut lcg), None);
    assert_eq!(lcg.random_u32(), 1817669548);
}

#[test]
fn random_draws_once() {
    let mut lcg = LCG::new(1);
    assert_eq!(table(&[(4, 1)]).random(&mut lcg), Some(4));
    assert_eq!(lcg.random_u32(), 2187888307);
}

#[test]
fn random_with_one_continuation_is_certain() {
    let freq = table(&[(b'z', 3)]);
    for seed in 0..500 {
        assert_eq!(freq.random(&mut LCG::new(seed)), Some(b'z'));
    }
}

#[test]
fn random_picks_the_first_pair_past_the_index() {
    let freq = table(&[(b'a', 2), (b'b', 1), (b'c', 3)]);
    assert_eq!(freq.random(&mut LCG::new(214)), Some(b'a'));
    assert_eq!(freq.random(&mut LCG::new(107)), Some(b'a'));
    assert_eq!(freq.random(&mut LCG::new(20)), Some(b'b'));
    assert_eq!(freq.random(&mut LCG::new(2)), Some(b'c'));
    assert_eq!(freq.random(&mut LCG::new(0)), Some(b'c'));
    assert_eq!(freq.random(&mut LCG::new(304)), Some(b'c'));
}

#[test]
fn random_skips_pairs_without_observations() {
    let freq = table(&[(b'a', 0), (b'b', 1), (b'c', 0)]);
    for seed in 0..100 {
        assert_eq!(freq.random(&mut LCG::new(seed)), Some(b'b'));
    }
}

#[test]
fn random_with_a_total_beyond_32_bits() {
    let freq = table(&[(1, u32::MAX), (2, u32::MAX), (3, u32::MAX)]);
    for seed in 0..100 {
        assert_eq!(freq.random(&mut LCG::new(seed)), Some(1));
    }
}

#[test]
fn write_to_layout() {
    let mut freq = Freq::new();
    freq.push(b'a');
    freq.push(b'b');
    freq.push(b'a');
    let mut w = vec![0xee];
    freq.write_to(&mut w);
    assert_eq!(w, vec![0xee, 2, b'a', 2, 0, 0, 0, b'b', 1, 0, 0, 0]);
}

#[test]
fn write_to_of_empty_table() {
    let mut w = Vec::new();
    Freq::new().write_to(&mut w);
    assert_eq!(w, vec![0]);
}

#[test]
fn write_to_keeps_only_the_low_byte_of_the_pair_count() {
    let mut freq = Freq::new();
    for x in 0..=255u8 {
        freq.push(x);
    }
    let mut w = Vec::new();
    freq.write_to(&mut w);
    assert_eq!(w.len(), 1 + 5 * 256);
    assert_eq!(w[0], 0);
    assert_eq!(&w[1..6], &[0, 1, 0, 0, 0]);
}

#[test]
fn read_from_layout() {
    let mut r = Reader::new(vec![2, 7, 0x10, 0x20, 0x30, 0x40, 9, 1, 0, 0, 0, 0xbb]);
    let freq = Freq::read_from(&mut r).unwrap();
    assert_eq!(freq.entries(), &vec![(7, 0x4030_2010), (9, 1)]);
    assert_eq!(r.remaining(), 1);
}

#[test]
fn read_from_truncated_input_fails() {
    for len in 0..11 {
        let bytes = vec![2, 7, 1, 0, 0, 0, 9, 1, 0, 0, 0];
        let mut r = Reader::new(bytes[..len].to_vec());
        match Freq::read_from(&mut r) {
            Err(e) => assert_eq!(e, ReadError::UnexpectedEof),
            Ok(_) => panic!("a table cut at {len} bytes was read"),
        }
        assert_eq!(r.remaining(), 0);
    }
}

#[test]
fn table_round_trip() {
    let mut freq = Freq::new();
    for x in b"mississippi" {
        freq.push(*x);
    }
    let mut w = Vec::new();
    freq.write_to(&mut w);
    w.extend_from_slice(b"tail");
    let mut r = Reader::new(w);
    let back = Freq::read_from(&mut r).unwrap();
    assert_eq!(back.entries(), freq.entries());
    assert_eq!(back.entries(), &vec![(b'm', 1), (b'i', 4), (b's', 4), (b'p', 2)]);
    assert_eq!(r.remaining(), 4);
}
