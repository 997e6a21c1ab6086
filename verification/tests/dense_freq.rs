use carrotson::dense::freq::Freq;
use carrotson::lcg::LCG;
use carrotson::wire::Reader;

fn table(counters: &[(u8, u16)]) -> Freq {
    let mut bytes = vec![0u8; 512];
    for (x, n) in counters {
        bytes[2 * *x as usize..2 * *x as usize + 2].copy_from_slice(&n.to_le_bytes());
    }
    Freq::read_from(&mut Reader::new(bytes))
}

fn counters(freq: &Freq) -> Vec<u16> {
    (0..=255u8).map(|x| freq.count(x)).collect()
}

#[test]
fn new_dense_table_is_blank() {
    let freq = Freq::new();
    assert_eq!(counters(&freq), vec![0; 256]);
    assert_eq!(freq.branching(), 0);
}

#[test]
fn dense_push_counts() {
    let mut freq = Freq::new();
    freq.push(0);
    freq.push(255);
    freq.push(255);
    freq.push(b'a');
    assert_eq!(freq.count(0), 1);
    assert_eq!(freq.count(255), 2);
    assert_eq!(freq.count(b'a'), 1);
    assert_eq!(freq.count(b'b'), 0);
    assert_eq!(freq.branching(), 3);
}

#[test]
fn pushing_one_byte_65536_times_saturates() {
    let mut freq = Freq::new();
    for _ in 0..65536 {
        freq.push(b'q');
    }
    for x in 0..=255u8 {
        assert_eq!(freq.count(x), if x == b'q' { 65535 } else { 0 });
    }
    assert_eq!(freq.branching(), 1);
}

#[test]
fn counter_reaches_its_maximum_without_aging() {
    let mut freq = Freq::new();
    freq.push(b'r');
    for _ in 0..65535 {
        freq.push(b'q');
    }
    assert_eq!(freq.count(b'q'), 65535);
    assert_eq!(freq.count(b'r'), 1);
}

#[test]
fn full_counter_ages_the_others() {
    let mut freq = table(&[(1, 65535), (2, 2), (3, 1), (4, 65535)]);
    freq.push(1);
    assert_eq!(freq.count(1), 65535);
    assert_eq!(freq.count(2), 1);
    assert_eq!(freq.count(3), 0);
    assert_eq!(freq.count(4), 65534);
    assert_eq!(freq.count(5), 0);
    freq.push(1);
    assert_eq!(freq.count(1), 65535);
    assert_eq!(freq.count(2), 0);
    assert_eq!(freq.count(3), 0);
    assert_eq!(freq.count(4), 65533);
    freq.push(4);
    assert_eq!(freq.count(4), 65534);
    assert_eq!(freq.count(1), 65535);
}

#[test]
fn dense_branching_counts_counters_above_zero() {
    assert_eq!(table(&[(0, 1), (9, 65535), (255, 7)]).branching(), 3);
    let all: Vec<(u8, u16)> = (0..=255u8).map(|x| (x, 1)).collect();
    assert_eq!(table(&all).branching(), 256);
}

#[test]
fn dense_random_on_blank_table_gives_nothing_and_draws_nothing() {
    let mut lcg = LCG::new(1);
    assert_eq!(Freq::new().random(&mut lcg), None);
    assert_eq!(lcg.random_u32(), 1817669548);
}

#[test]
fn dense_random_draws_once() {
    let mut lcg = LCG::new(1);
    assert_eq!(table(&[(4, 1)]).random(&mut lcg), Some(4));
    assert_eq!(lcg.random_u32(), 2187888307);
}

#[test]
fn dense_random_with_one_continuation_is_certain() {
    let freq = table(&[(b'z', 3)]);
    for seed in 0..500 {
        assert_eq!(freq.random(&mut LCG::new(seed)), Some(b'z'));
    }
}

#[test]
fn dense_random_scans_in_ascending_byte_order() {
    let freq = table(&[(255, 3), (10, 2), (200, 1)]);
    assert_eq!(freq.random(&mut LCG::new(214)), Some(10));
    assert_eq!(freq.random(&mut LCG::new(107)), Some(10));
    assert_eq!(freq.random(&mut LCG::new(20)), Some(200));
    assert_eq!(freq.random(&mut LCG::new(2)), Some(255));
    assert_eq!(freq.random(&mut LCG::new(0)), Some(255));
    assert_eq!(freq.random(&mut LCG::new(304)), Some(255));
}

#[test]
fn dense_random_with_every_counter_full() {
    let all: Vec<(u8, u16)> = (0..=255u8).map(|x| (x, 65535)).collect();
    let freq = table(&all);
    let draw = LCG::new(1).random_u32();
    let index = draw % (256 * 65535);
    assert_eq!(freq.random(&mut LCG::new(1)), Some((index / 65535) as u8));
}

#[test]
fn dense_write_to_layout() {
    let mut freq = Freq::new();
    freq.push(0);
    freq.push(b'a');
    freq.push(b'a');
    let mut w = vec![0xee];
    freq.write_to(&mut w);
    assert_eq!(w.len(), 513);
    let mut expected = vec![0u8; 513];
    expected[0] = 0xee;
    expected[1] = 1;
    expected[1 + 2 * 97] = 2;
    assert_eq!(w, expected);
}

#[test]
fn dense_write_to_is_little_endian() {
    let mut w = Vec::new();
    table(&[(3, 0x1234), (255, 65535)]).write_to(&mut w);
    assert_eq!(&w[6..8], &[0x34, 0x12]);
    assert_eq!(&w[510..512], &[0xff, 0xff]);
}

#[test]
fn dense_read_from_layout() {
    let mut bytes = vec![0u8; 512];
    bytes[0] = 5;
    bytes[3] = 1;
    bytes[511] = 0x80;
    bytes.extend_from_slice(b"rest");
    let mut r = Reader::new(bytes);
    let freq = Freq::read_from(&mut r);
    assert_eq!(freq.count(0), 5);
    assert_eq!(freq.count(1), 0x100);
    assert_eq!(freq.count(255), 0x8000);
    assert_eq!(r.remaining(), 4);
}

#[test]
fn dense_read_from_short_input_fills_up_with_zeros() {
    let mut r = Reader::new(vec![1, 0, 2, 0, 3]);
    let freq = Freq::read_from(&mut r);
    assert_eq!(freq.count(0), 1);
    assert_eq!(freq.count(1), 2);
    assert_eq!(freq.count(2), 3);
    for x in 3..=255u8 {
        assert_eq!(freq.count(x), 0);
    }
    assert_eq!(r.remaining(), 0);
}

#[test]
fn dense_read_from_empty_input_is_blank() {
    let mut r = Reader::new(Vec::new());
    assert_eq!(counters(&Freq::read_from(&mut r)), vec![0; 256]);
    assert_eq!(r.remaining(), 0);
}

#[test]
fn dense_table_round_trip() {
    let mut freq = Freq::new();
    for x in b"mississippi" {
        freq.push(*x);
    }
    let mut w = Vec::new();
    freq.write_to(&mut w);
    let back = Freq::read_from(&mut Reader::new(w));
    assert_eq!(counters(&back), counters(&freq));
    assert_eq!(back.count(b's'), 4);
}
