use carrotson::lcg::LCG;
use carrotson::sparse::model::{generate, Model};
use carrotson::wire::{ReadError, Reader};

const TEXT: &[u8] = b"the quick brown fox jumps over the lazy dog. the quick red fox naps.";

fn trained(bytes: &[u8]) -> Model {
    let mut model = Model::new();
    model.train(bytes.to_vec());
    model
}

fn entries(model: &Model, context: u64) -> Vec<(u8, u32)> {
    model.get(context).unwrap().entries().clone()
}

fn observations(model: &Model) -> u64 {
    let mut sum = 0u64;
    for context in model.contexts() {
        for (_, count) in model.get(context).unwrap().entries() {
            sum += *count as u64;
        }
    }
    sum
}

fn same_contents(a: &Model, b: &Model) -> bool {
    let mut left = a.contexts();
    let mut right = b.contexts();
    left.sort();
    right.sort();
    left == right && left.iter().all(|c| entries(a, *c) == entries(b, *c))
}

fn record(context: u64, pairs: &[(u8, u32)]) -> Vec<u8> {
    let mut bytes = context.to_le_bytes().to_vec();
    bytes.push(pairs.len() as u8);
    for (x, p) in pairs {
        bytes.push(*x);
        bytes.extend_from_slice(&p.to_le_bytes());
    }
    bytes
}

fn file(records: &[Vec<u8>]) -> Vec<u8> {
    let mut bytes = (records.len() as u64).to_le_bytes().to_vec();
    for r in records {
        bytes.extend_from_slice(r);
    }
    bytes
}

#[test]
fn new_model_has_no_contexts() {
    let model = Model::new();
    assert_eq!(model.len(), 0);
    assert!(model.contexts().is_empty());
    assert!(model.get(0).is_none());
}

#[test]
fn push_creates_the_table_of_a_new_context() {
    let mut model = Model::new();
    model.push(5, b'x');
    model.push(5, b'y');
    model.push(5, b'x');
    model.push(6, b'x');
    assert_eq!(model.len(), 2);
    assert_eq!(entries(&model, 5), vec![(b'x', 2), (b'y', 1)]);
    assert_eq!(entries(&model, 6), vec![(b'x', 1)]);
}

#[test]
fn train_on_ababab() {
    let model = trained(b"ababab");
    assert_eq!(model.len(), 6);
    assert_eq!(entries(&model, 0), vec![(b'a', 1)]);
    assert_eq!(entries(&model, 0x61), vec![(b'b', 1)]);
    assert_eq!(entries(&model, 0x6162), vec![(b'a', 1)]);
    assert_eq!(entries(&model, 0x61_6261), vec![(b'b', 1)]);
    assert_eq!(entries(&model, 0x6162_6162), vec![(b'a', 1)]);
    assert_eq!(entries(&model, 0x61_6261_6261), vec![(b'b', 1)]);
}

#[test]
fn single_continuation_is_sampled_whatever_is_drawn() {
    let model = trained(b"ababab");
    for seed in 0..200 {
        assert_eq!(model.random(0, &mut LCG::new(seed)), Some(b'a'));
        assert_eq!(model.random(0x61, &mut LCG::new(seed)), Some(b'b'));
    }
}

#[test]
fn training_records_one_observation_per_byte() {
    for text in [&b""[..], b"a", b"ababab", TEXT, &[0u8; 300][..]] {
        assert_eq!(observations(&trained(text)), text.len() as u64);
    }
}

#[test]
fn training_twice_adds_up() {
    let mut model = trained(b"aaaaaaaaaaaa");
    assert_eq!(entries(&model, 0x6161_6161_6161_6161), vec![(b'a', 4)]);
    model.train(b"aaaaaaaaab".to_vec());
    assert_eq!(entries(&model, 0x6161_6161_6161_6161), vec![(b'a', 5), (b'b', 1)]);
    assert_eq!(entries(&model, 0), vec![(b'a', 2)]);
    assert_eq!(observations(&model), 22);
}

#[test]
fn train_on_empty_input_changes_nothing() {
    let mut model = trained(b"abc");
    model.train(Vec::new());
    assert!(same_contents(&model, &trained(b"abc")));
}

#[test]
fn try_train_trains_where_everything_fits() {
    let mut model = Model::new();
    assert_eq!(model.try_train(TEXT.to_vec()), None);
    assert!(same_contents(&model, &trained(TEXT)));
}

#[test]
fn try_train_stops_at_a_full_counter() {
    let bytes = file(&[record(0x62, &[(b'a', u32::MAX)])]);
    let mut model = Model::read_from(&mut Reader::new(bytes)).unwrap();
    assert_eq!(model.try_train(b"bab".to_vec()), Some(1));
    assert_eq!(model.len(), 2);
    assert_eq!(entries(&model, 0), vec![(b'b', 1)]);
    assert_eq!(entries(&model, 0x62), vec![(b'a', u32::MAX)]);
}

#[test]
fn try_push_says_whether_it_recorded() {
    let bytes = file(&[record(1, &[(b'a', u32::MAX)])]);
    let mut model = Model::read_from(&mut Reader::new(bytes)).unwrap();
    assert!(!model.try_push(1, b'a'));
    assert_eq!(entries(&model, 1), vec![(b'a', u32::MAX)]);
    assert!(model.try_push(1, b'b'));
    assert!(model.try_push(2, b'a'));
    assert_eq!(entries(&model, 1), vec![(b'a', u32::MAX), (b'b', 1)]);
    assert_eq!(entries(&model, 2), vec![(b'a', 1)]);
}

#[test]
fn random_on_unknown_context_gives_nothing_and_draws_nothing() {
    let model = trained(b"ab");
    let mut lcg = LCG::new(1);
    assert_eq!(model.random(12345, &mut lcg), None);
    assert_eq!(lcg.random_u32(), 1817669548);
}

#[test]
fn random_on_known_context_draws_once() {
    let model = trained(b"ab");
    let mut lcg = LCG::new(1);
    assert_eq!(model.random(0, &mut lcg), Some(b'a'));
    assert_eq!(lcg.random_u32(), 2187888307);
}

#[test]
fn generate_from_empty_model_gives_nothing() {
    let model = Model::new();
    for limit in [0usize, 1, 1024, usize::MAX] {
        let mut lcg = LCG::new(1);
        assert!(generate(&model, &mut lcg, limit).is_empty());
        assert_eq!(lcg.random_u32(), 1817669548);
    }
}

#[test]
fn generate_reproduces_with_the_seed() {
    let model = trained(TEXT);
    let mut lcg = LCG::new(1);
    assert_eq!(
        generate(&model, &mut lcg, 40),
        b"the quick brown fox jumps over the lazy ".to_vec()
    );
    assert_eq!(lcg.random_u32(), 2739174344);
}

#[test]
fn generate_ends_early_at_a_dead_end() {
    let model = trained(TEXT);
    let mut lcg = LCG::new(42);
    assert_eq!(generate(&model, &mut lcg, 40), b"the quick red fox naps.".to_vec());
    assert_eq!(lcg.random_u32(), 1480095791);
}

#[test]
fn generate_is_the_same_on_every_run() {
    let model = trained(b"abracadabra abracadabra");
    let first = generate(&model, &mut LCG::new(5), 30);
    assert_eq!(first, b"abracadabra abracadabra abraca".to_vec());
    let mut lcg = LCG::new(5);
    assert_eq!(generate(&model, &mut lcg, 30), first);
    assert_eq!(lcg.random_u32(), 4245270579);
}

#[test]
fn generate_respects_the_limit() {
    let model = trained(b"aaaaaaaaaaaa");
    for limit in [0usize, 1, 7, 8, 9, 20, 1000] {
        let out = generate(&model, &mut LCG::new(3), limit);
        assert_eq!(out, vec![b'a'; limit]);
    }
}

#[test]
fn generate_draws_once_more_when_it_meets_the_limit() {
    let model = trained(b"aaaaaaaaaaaa");
    let mut lcg = LCG::new(3);
    generate(&model, &mut lcg, 20);
    assert_eq!(lcg.random_u32(), 1892328573);
    let mut lcg = LCG::new(9);
    assert!(generate(&model, &mut lcg, 0).is_empty());
    assert_eq!(lcg.random_u32(), 3311750083);
}

#[test]
fn write_to_layout_of_one_context() {
    let mut w = vec![0x77];
    trained(b"a").write_to(&mut w);
    assert_eq!(
        w,
        vec![0x77, 1, 0, 0, 0, 0, 0, 0, 0, 0, 0, 0, 0, 0, 0, 0, 0, 1, b'a', 1, 0, 0, 0]
    );
}

#[test]
fn write_to_of_empty_model() {
    let mut w = Vec::new();
    Model::new().write_to(&mut w);
    assert_eq!(w, vec![0; 8]);
}

#[test]
fn write_to_writes_every_context_once() {
    let model = trained(TEXT);
    let mut w = Vec::new();
    model.write_to(&mut w);
    assert_eq!(&w[..8], &(model.len() as u64).to_le_bytes());
    let mut size = 8;
    for context in model.contexts() {
        size += 8 + 1 + 5 * entries(&model, context).len();
    }
    assert_eq!(w.len(), size);
}

#[test]
fn model_read_from_layout() {
    let mut bytes = file(&[
        record(0x0102, &[(b'x', 3), (b'y', 0x0100_0000)]),
        record(7, &[]),
    ]);
    bytes.extend_from_slice(b"rest");
    let mut r = Reader::new(bytes);
    let model = Model::read_from(&mut r).unwrap();
    assert_eq!(model.len(), 2);
    assert_eq!(entries(&model, 0x0102), vec![(b'x', 3), (b'y', 0x0100_0000)]);
    assert_eq!(entries(&model, 7), vec![]);
    assert_eq!(r.remaining(), 4);
}

#[test]
fn read_from_keeps_the_later_table_of_a_context() {
    let bytes = file(&[record(1, &[(b'x', 3)]), record(1, &[(b'y', 4)])]);
    let model = Model::read_from(&mut Reader::new(bytes)).unwrap();
    assert_eq!(model.len(), 1);
    assert_eq!(entries(&model, 1), vec![(b'y', 4)]);
}

#[test]
fn model_read_from_truncated_input_fails() {
    let mut w = Vec::new();
    trained(b"abcab").write_to(&mut w);
    for len in 0..w.len() {
        let mut r = Reader::new(w[..len].to_vec());
        match Model::read_from(&mut r) {
            Err(e) => assert_eq!(e, ReadError::UnexpectedEof),
            Ok(_) => panic!("a model cut at {len} bytes was read"),
        }
        assert_eq!(r.remaining(), 0);
    }
    assert!(Model::read_from(&mut Reader::new(w)).is_ok());
}

#[test]
fn read_from_with_a_count_beyond_the_records_fails() {
    let mut bytes = file(&[record(1, &[(b'x', 3)])]);
    bytes[..8].copy_from_slice(&u64::MAX.to_le_bytes());
    assert_eq!(
        Model::read_from(&mut Reader::new(bytes)).err(),
        Some(ReadError::UnexpectedEof)
    );
}

#[test]
fn model_round_trip() {
    for text in [&b"a"[..], b"ababab", TEXT] {
        let model = trained(text);
        let mut w = Vec::new();
        model.write_to(&mut w);
        let mut r = Reader::new(w);
        let back = Model::read_from(&mut r).unwrap();
        assert_eq!(r.remaining(), 0);
        assert!(same_contents(&model, &back));
        assert_eq!(
            generate(&back, &mut LCG::new(1), 64),
            generate(&model, &mut LCG::new(1), 64)
        );
    }
}

#[test]
fn empty_model_round_trip() {
    let mut w = Vec::new();
    Model::new().write_to(&mut w);
    let back = Model::read_from(&mut Reader::new(w)).unwrap();
    assert_eq!(back.len(), 0);
}

#[test]
fn table_with_every_byte_does_not_read_back() {
    let mut model = Model::new();
    for x in 0..=255u8 {
        model.push(0, x);
    }
    let mut w = Vec::new();
    model.write_to(&mut w);
    let mut r = Reader::new(w);
    let back = Model::read_from(&mut r).unwrap();
    assert_eq!(entries(&back, 0), vec![]);
    assert_eq!(r.remaining(), 5 * 256);
}

#[test]
fn contexts_lists_each_context_once() {
    let model = trained(b"ababab");
    let mut contexts = model.contexts();
    contexts.sort();
    assert_eq!(
        contexts,
        vec![0, 0x61, 0x6162, 0x61_6261, 0x6162_6162, 0x61_6261_6261]
    );
}
