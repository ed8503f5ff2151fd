use multimarkov::known::StateSet;
use multimarkov::row::Row;
use multimarkov::sampling::{ROLL_RANGE, ROLL_SHIFT};
use multimarkov::state::{duplicate_states, place, Placement, State};
use multimarkov::table::TransitionTable;
use multimarkov::training::ONE;
use multimarkov::MultiMarkov;
use multimarkov::source::Generator;
use rand::rngs::{SmallRng, StdRng};
use rand::{RngCore, SeedableRng};

/// A generator that yields the given values in turn, and zero after them.
struct Scripted {
    values: Vec<u64>,
    at: usize,
}

impl Scripted {
    fn new(values: Vec<u64>) -> Self {
        Scripted { values, at: 0 }
    }
}

impl Generator for Scripted {
    fn next_bits(&mut self) -> u64 {
        let v = if self.at < self.values.len() { self.values[self.at] } else { 0 };
        self.at += 1;
        v
    }
}

fn corpus() -> Vec<Vec<char>> {
    vec![
        vec!['a', 'c', 'e'],
        vec!['f', 'o', 'o', 'b', 'a', 'r'],
        vec!['b', 'a', 'z'],
    ]
}

fn model(order: i32, prior: u64) -> MultiMarkov<char, SmallRng> {
    MultiMarkov::<char, SmallRng>::builder(SmallRng::seed_from_u64(11))
        .with_order(order)
        .with_prior(prior)
        .train(corpus())
        .build()
}

/// The bits whose roll is `roll`.
fn bits_of(roll: u64) -> u64 {
    roll << ROLL_SHIFT
}

#[test]
fn a_roll_is_the_53_high_bits() {
    assert_eq!(ROLL_RANGE, 1u64 << 53);
    assert_eq!(ROLL_SHIFT, 11);
    assert_eq!(u64::MAX >> ROLL_SHIFT, ROLL_RANGE - 1);
}

#[test]
fn backoff_takes_the_longest_suffix_that_has_a_row() {
    let m = model(2, 0);
    // "ob" has a row of its own, in which 'a' was seen once
    let row = m.best_model(&vec!['f', 'o', 'b']).unwrap();
    assert_eq!(row.get(&'a'), Some(ONE));
    assert_eq!(row.total(), ONE as u128);
    // "xb" has none: back off to "b", in which 'a' was seen twice
    let row = m.best_model(&vec!['f', 'x', 'b']).unwrap();
    assert_eq!(row.get(&'a'), Some(2 * ONE));
    // a sequence of one state
    let row = m.best_model(&vec!['b']).unwrap();
    assert_eq!(row.get(&'a'), Some(2 * ONE));
    // with order 1 the longer context is never looked up
    let one = model(1, 0);
    let row = one.best_model(&vec!['f', 'o', 'b']).unwrap();
    assert_eq!(row.get(&'a'), Some(2 * ONE));
    // with order 3 the longest of three wins
    let three = model(3, 0);
    let row = three.best_model(&vec!['f', 'o', 'o']).unwrap();
    assert_eq!(row.len(), 1);
    assert_eq!(row.get(&'b'), Some(ONE));
    let row = three.best_model(&vec!['x', 'o', 'o']).unwrap();
    assert_eq!(row.len(), 1);
    let row = three.best_model(&vec!['x', 'x', 'o']).unwrap();
    assert_eq!(row.len(), 2);
}

#[test]
fn there_is_no_model_where_the_last_state_was_never_followed() {
    for m in [model(2, 0), model(2, 15_000), model(3, 5_000)] {
        assert!(m.best_model(&vec![]).is_none());
        assert!(m.best_model(&vec!['z']).is_none());
        assert!(m.best_model(&vec!['b', 'a', 'z']).is_none());
        assert!(m.best_model(&vec!['q']).is_none());
        assert!(m.best_model(&vec!['a', 'q']).is_none());
        assert!(m.best_model(&vec!['q', 'a']).is_some());
        assert_eq!(m.next_for(&vec![], 0), None);
        assert_eq!(m.next_for(&vec!['z'], 12345), None);
        assert_eq!(m.next_for(&vec!['a', 'e'], u64::MAX), None);
    }
}

#[test]
fn the_roll_walks_the_row_in_the_order_of_the_states() {
    let m = model(2, 0);
    // behind 'a': c, r and z, once each
    let seq = vec!['a'];
    assert_eq!(m.next_for(&seq, 0), Some('c'));
    assert_eq!(m.next_for(&seq, bits_of(1)), Some('c'));
    assert_eq!(m.next_for(&seq, bits_of(ROLL_RANGE / 2)), Some('r'));
    assert_eq!(m.next_for(&seq, u64::MAX), Some('z'));
    assert_eq!(m.next_for(&seq, bits_of(ROLL_RANGE - 1)), Some('z'));
    // the thirds of the range
    let third = ROLL_RANGE / 3;
    assert_eq!(third, 3_002_399_751_580_330);
    assert_eq!(m.next_for(&seq, bits_of(third)), Some('c'));
    assert_eq!(m.next_for(&seq, bits_of(third + 1)), Some('r'));
    assert_eq!(m.next_for(&seq, bits_of(2 * third + 1)), Some('r'));
    assert_eq!(m.next_for(&seq, bits_of(2 * third + 2)), Some('z'));
    // the low bits do not count
    assert_eq!(m.next_for(&seq, bits_of(third) + 2047), Some('c'));
    assert_eq!(m.next_for(&seq, bits_of(third + 1) + 2047), Some('r'));
}

#[test]
fn a_roll_on_a_boundary_falls_to_the_earlier_state() {
    let m = model(2, 0);
    // behind 'o': b and o, once each
    let seq = vec!['o'];
    assert_eq!(m.next_for(&seq, bits_of(ROLL_RANGE / 2 - 1)), Some('b'));
    assert_eq!(m.next_for(&seq, bits_of(ROLL_RANGE / 2)), Some('b'));
    assert_eq!(m.next_for(&seq, bits_of(ROLL_RANGE / 2 + 1)), Some('o'));
    // a row of one entry takes every roll
    let seq = vec!['b'];
    for bits in [0, 1, bits_of(ROLL_RANGE / 2), u64::MAX] {
        assert_eq!(m.next_for(&seq, bits), Some('a'));
    }
}

#[test]
fn smoothed_entries_take_their_small_share_of_the_rolls() {
    let prior = 15_000;
    let m = model(2, prior);
    // behind 'a': a b c e f o r z with weights p p 1 p p p 1 1, in that order
    let seq = vec!['a'];
    let total = (3 * ONE + 5 * prior) as u128;
    assert_eq!(m.best_model(&seq).unwrap().total(), total);
    let range = ROLL_RANGE as u128;
    // the greatest roll that still falls within a cumulative weight
    let last_within = |cumulative: u64| ((range * cumulative as u128) / total) as u64;
    let bounds = [
        ('a', prior),
        ('b', 2 * prior),
        ('c', 2 * prior + ONE),
        ('e', 3 * prior + ONE),
        ('f', 4 * prior + ONE),
        ('o', 5 * prior + ONE),
        ('r', 5 * prior + 2 * ONE),
    ];
    let order = ['a', 'b', 'c', 'e', 'f', 'o', 'r', 'z'];
    for (k, (state, cumulative)) in bounds.iter().enumerate() {
        let edge = last_within(*cumulative);
        assert_eq!(m.next_for(&seq, bits_of(edge)), Some(*state));
        assert_eq!(m.next_for(&seq, bits_of(edge + 1)), Some(order[k + 1]));
    }
    assert_eq!(m.next_for(&seq, 0), Some('a'));
    assert_eq!(m.next_for(&seq, u64::MAX), Some('z'));
}

#[test]
fn frequencies_follow_the_weights() {
    let prior = 200_000;
    let m = model(1, prior);
    let seq = vec!['a'];
    let draws: u64 = 40_000;
    let mut counts = std::collections::BTreeMap::new();
    for k in 0..draws {
        let roll = ((ROLL_RANGE as u128 * k as u128) / draws as u128) as u64;
        let s = m.next_for(&seq, bits_of(roll)).unwrap();
        *counts.entry(s).or_insert(0u64) += 1;
    }
    let total = (3 * ONE + 5 * prior) as f64;
    for s in ['a', 'b', 'c', 'e', 'f', 'o', 'r', 'z'] {
        let w = m.best_model(&seq).unwrap().get(&s).unwrap() as f64;
        let seen = *counts.get(&s).unwrap() as f64 / draws as f64;
        assert!((seen - w / total).abs() <= 2.0 / draws as f64);
    }
}

#[test]
fn frequencies_of_random_draws_follow_the_weights() {
    let mut m = MultiMarkov::<char, SmallRng>::builder(SmallRng::seed_from_u64(99))
        .with_order(1)
        .without_prior()
        .train(vec![vec!['s', 'x'], vec!['s', 'x'], vec!['s', 'x'], vec!['s', 'y']])
        .build();
    let draws = 20_000;
    let mut x = 0;
    for _ in 0..draws {
        match m.random_next(&vec!['s']) {
            Some('x') => x += 1,
            Some('y') => {}
            other => panic!("drew {:?}", other),
        }
    }
    let seen = x as f64 / draws as f64;
    assert!((seen - 0.75).abs() < 0.02);
}

#[test]
fn random_next_draws_once_where_there_is_a_model_and_not_at_all_where_there_is_none() {
    let third = ROLL_RANGE / 3;
    let script = vec![0, bits_of(third + 1), u64::MAX, bits_of(third), bits_of(2 * third + 2)];
    let mut m = MultiMarkov::<char, Scripted>::builder(Scripted::new(script.clone()))
        .with_order(2)
        .without_prior()
        .train(corpus())
        .build();
    let reference = model(2, 0);
    let a = vec!['a'];
    assert_eq!(m.rng().at, 0);
    assert_eq!(m.random_next(&a), Some('c'));
    assert_eq!(m.rng().at, 1);
    assert_eq!(m.random_next(&a), Some('r'));
    assert_eq!(m.random_next(&a), Some('z'));
    assert_eq!(m.random_next(&a), Some('c'));
    assert_eq!(m.rng().at, 4);
    // no model: nothing is drawn
    assert_eq!(m.random_next(&vec!['z']), None);
    assert_eq!(m.random_next(&vec![]), None);
    assert_eq!(m.random_next(&vec!['a', 'q']), None);
    assert_eq!(m.rng().at, 4);
    assert_eq!(m.random_next(&a), Some('z'));
    assert_eq!(m.rng().at, 5);
    // each draw is what the bits of the script stand for
    let drawn = [Some('c'), Some('r'), Some('z'), Some('c'), Some('z')];
    for (bits, state) in script.iter().zip(drawn) {
        assert_eq!(reference.next_for(&a, *bits), state);
    }
    // the table is as it was
    assert_eq!(m.markov_chain().len(), 10);
    assert_eq!(m.markov_chain().get(&['a']).unwrap().len(), 3);
    assert_eq!(m.order(), 2);
}

#[test]
fn a_draw_takes_the_next_64_bits_of_the_generator() {
    // the same seed in a generator of its own gives the bits that the model draws with
    let mut small = MultiMarkov::<char, SmallRng>::builder(SmallRng::seed_from_u64(31))
        .with_order(2)
        .with_prior(15_000)
        .train(corpus())
        .build();
    let mut twin = SmallRng::seed_from_u64(31);
    let mut standard = MultiMarkov::<char, StdRng>::builder(StdRng::seed_from_u64(31))
        .with_order(2)
        .with_prior(15_000)
        .train(corpus())
        .build();
    let mut standard_twin = StdRng::seed_from_u64(31);
    let seq = vec!['a'];
    let mut seen = std::collections::BTreeSet::new();
    for _ in 0..300 {
        let bits = twin.next_u64();
        let drawn = small.random_next(&seq);
        assert_eq!(drawn, small.next_for(&seq, bits));
        seen.insert(drawn);
        let bits = standard_twin.next_u64();
        assert_eq!(standard.random_next(&seq), standard.next_for(&seq, bits));
    }
    // the draws are not all the same
    assert!(seen.len() >= 3);
    assert_eq!(small.rng().clone().next_u64(), twin.next_u64());
    assert_eq!(standard.rng().clone().next_u64(), standard_twin.next_u64());
}

#[test]
fn the_same_seed_gives_the_same_sequence() {
    let build = || {
        MultiMarkov::<char, SmallRng>::builder(SmallRng::seed_from_u64(2024))
            .with_order(2)
            .with_prior(20_000)
            .train(corpus())
            .build()
    };
    let mut first = build();
    let mut second = build();
    let mut one = vec!['f'];
    let mut two = vec!['f'];
    for _ in 0..200 {
        match (first.random_next(&one), second.random_next(&two)) {
            (Some(a), Some(b)) => {
                assert_eq!(a, b);
                one.push(a);
                two.push(b);
            }
            (None, None) => {
                one = vec!['f'];
                two = vec!['f'];
            }
            _ => panic!("one model found a state and the other none"),
        }
    }
}

#[test]
fn the_order_of_the_training_sequences_does_not_change_a_draw() {
    let forward = model(2, 15_000);
    let mut reversed_corpus = corpus();
    reversed_corpus.reverse();
    let backward = MultiMarkov::<char, SmallRng>::builder(SmallRng::seed_from_u64(5))
        .with_order(2)
        .with_prior(15_000)
        .train(reversed_corpus)
        .build();
    for seq in [vec!['a'], vec!['o'], vec!['f', 'o'], vec!['x', 'b'], vec!['z']] {
        for k in 0..500u64 {
            let bits = k.wrapping_mul(0x9E37_79B9_7F4A_7C15);
            assert_eq!(forward.next_for(&seq, bits), backward.next_for(&seq, bits));
        }
    }
}

#[test]
fn strings_are_walked_in_the_order_of_their_bytes() {
    let names = ["b", "ab", "a", "é", "B", "aé", ""];
    let mut row: Row<String> = Row::new();
    for n in names {
        row.add(&String::from(n), ONE);
    }
    let sorted: Vec<String> = (0..row.len()).map(|i| row.state_at(i).clone()).collect();
    let mut expected: Vec<String> = names.iter().map(|n| String::from(*n)).collect();
    expected.sort();
    assert_eq!(sorted, expected);
    assert_eq!(sorted, vec!["", "B", "a", "ab", "aé", "b", "é"]);
    let s = |t: &str| String::from(t);
    assert!(s("a").before(&s("ab")));
    assert!(!s("ab").before(&s("a")));
    assert!(!s("a").before(&s("a")));
    assert!(s("Z").before(&s("a")));
    assert!(s("z").before(&s("é")));
    assert!(s("a").same(&s("a")));
    assert!(!s("a").same(&s("b")));
    assert_eq!(s("née").duplicate(), "née");
}

#[test]
fn a_model_of_strings_draws_strings() {
    let words = |ws: &[&str]| -> Vec<String> { ws.iter().map(|w| String::from(*w)).collect() };
    let m = MultiMarkov::<String, SmallRng>::builder(SmallRng::seed_from_u64(1))
        .with_order(2)
        .without_prior()
        .train(vec![
            words(&["the", "cat", "sat"]),
            words(&["the", "dog", "sat"]),
            words(&["the", "cat", "ran"]),
        ])
        .build();
    let the = words(&["the"]);
    // behind "the": cat twice, dog once
    assert_eq!(m.next_for(&the, 0), Some(String::from("cat")));
    assert_eq!(m.next_for(&the, bits_of(2 * (ROLL_RANGE / 3))), Some(String::from("cat")));
    assert_eq!(m.next_for(&the, bits_of(2 * (ROLL_RANGE / 3) + 2)), Some(String::from("dog")));
    assert_eq!(m.next_for(&the, u64::MAX), Some(String::from("dog")));
    // behind "the cat": ran and sat
    let the_cat = words(&["the", "cat"]);
    assert_eq!(m.next_for(&the_cat, 0), Some(String::from("ran")));
    assert_eq!(m.next_for(&the_cat, u64::MAX), Some(String::from("sat")));
    assert_eq!(m.next_for(&words(&["sat"]), 0), None);
}

#[test]
fn integers_are_states_too() {
    let m = MultiMarkov::<u32, SmallRng>::builder(SmallRng::seed_from_u64(1))
        .with_order(1)
        .without_prior()
        .train(vec![vec![7, 300, 2], vec![7, 1]])
        .build();
    assert_eq!(m.next_for(&vec![7], 0), Some(1));
    assert_eq!(m.next_for(&vec![7], u64::MAX), Some(300));
    assert_eq!(m.next_for(&vec![300], 5), Some(2));
    assert!(3u8.before(&4u8) && !4u8.before(&4u8) && 4u8.same(&4u8));
    assert!(3u64.before(&4u64) && !4u64.before(&3u64) && !4u64.same(&3u64));
    assert_eq!(9u64.duplicate(), 9);
    assert!('a'.before(&'b') && !'b'.before(&'a') && 'q'.same(&'q'));
    assert_eq!('é'.duplicate(), 'é');
}

#[test]
fn a_row_keeps_its_states_in_order_and_once() {
    let mut row: Row<char> = Row::new();
    assert!(row.is_empty());
    assert_eq!(row.len(), 0);
    assert_eq!(row.total(), 0);
    assert_eq!(row.pick(0), None);
    assert_eq!(row.get(&'a'), None);
    row.add(&'m', 5);
    row.add(&'c', 7);
    row.add(&'x', 1);
    row.add(&'m', 2);
    assert_eq!(row.len(), 3);
    assert!(!row.is_empty());
    assert_eq!((*row.state_at(0), row.weight_at(0)), ('c', 7));
    assert_eq!((*row.state_at(1), row.weight_at(1)), ('m', 7));
    assert_eq!((*row.state_at(2), row.weight_at(2)), ('x', 1));
    assert_eq!(row.get(&'m'), Some(7));
    assert!(row.contains_key(&'x'));
    assert!(!row.contains_key(&'d'));
    assert_eq!(row.total(), 15);
    row.or_insert(&'m', 100);
    row.or_insert(&'a', 3);
    assert_eq!(row.get(&'m'), Some(7));
    assert_eq!(row.get(&'a'), Some(3));
    assert_eq!(*row.state_at(0), 'a');
    assert_eq!(row.total(), 18);
    // cumulative weights 3, 10, 17, 18 of 18
    let edge = |cumulative: u128| ((ROLL_RANGE as u128 * cumulative) / 18) as u64;
    assert_eq!(row.pick(0), Some(0));
    assert_eq!(row.pick(edge(3)), Some(0));
    assert_eq!(row.pick(edge(3) + 1), Some(1));
    assert_eq!(row.pick(edge(10)), Some(1));
    assert_eq!(row.pick(edge(10) + 1), Some(2));
    assert_eq!(row.pick(edge(17)), Some(2));
    assert_eq!(row.pick(edge(17) + 1), Some(3));
    assert_eq!(row.pick(ROLL_RANGE - 1), Some(3));
}

#[test]
fn a_row_of_the_greatest_weights_is_still_sampled_exactly() {
    let mut row: Row<u8> = Row::new();
    row.add(&1, u64::MAX);
    row.add(&2, u64::MAX);
    row.add(&3, u64::MAX);
    row.add(&4, u64::MAX);
    assert_eq!(row.total(), 4 * (u64::MAX as u128));
    let quarter = ROLL_RANGE / 4;
    assert_eq!(row.pick(0), Some(0));
    assert_eq!(row.pick(quarter), Some(0));
    assert_eq!(row.pick(quarter + 1), Some(1));
    assert_eq!(row.pick(2 * quarter), Some(1));
    assert_eq!(row.pick(2 * quarter + 1), Some(2));
    assert_eq!(row.pick(3 * quarter), Some(2));
    assert_eq!(row.pick(3 * quarter + 1), Some(3));
    assert_eq!(row.pick(ROLL_RANGE - 1), Some(3));
}

#[test]
fn smoothing_a_row_leaves_what_it_held() {
    let mut known: StateSet<char> = StateSet::new();
    assert!(known.insert(&'b'));
    assert!(known.insert(&'a'));
    assert!(!known.insert(&'b'));
    assert!(known.insert(&'c'));
    assert_eq!(known.len(), 3);
    assert_eq!(*known.state_at(0), 'b');
    assert_eq!(*known.state_at(1), 'a');
    let mut row: Row<char> = Row::new();
    row.add(&'b', 9);
    row.add(&'q', 4);
    row.smooth(&known, 2);
    assert_eq!(row.len(), 4);
    assert_eq!(row.get(&'a'), Some(2));
    assert_eq!(row.get(&'b'), Some(9));
    assert_eq!(row.get(&'c'), Some(2));
    assert_eq!(row.get(&'q'), Some(4));
}

#[test]
fn a_table_has_one_row_for_each_context() {
    let mut table: TransitionTable<char> = TransitionTable::new();
    assert!(table.is_empty());
    assert!(table.get(&['a']).is_none());
    table.record(&['a'], &'b', ONE);
    table.record(&['a', 'b'], &'c', ONE);
    table.record(&['a'], &'b', ONE);
    table.record(&['a'], &'c', 3);
    assert_eq!(table.len(), 2);
    assert!(table.contains_key(&['a']));
    assert!(table.contains_key(&['a', 'b']));
    assert!(!table.contains_key(&['b']));
    assert!(!table.contains_key(&[]));
    assert_eq!(table.get(&['a']).unwrap().get(&'b'), Some(2 * ONE));
    assert_eq!(table.get(&['a']).unwrap().get(&'c'), Some(3));
    assert_eq!(table.get(&['a', 'b']).unwrap().get(&'c'), Some(ONE));
    let mut known: StateSet<char> = StateSet::new();
    known.insert(&'z');
    table.smooth(&known, 8);
    assert_eq!(table.len(), 2);
    assert_eq!(table.get(&['a']).unwrap().get(&'z'), Some(8));
    assert_eq!(table.get(&['a', 'b']).unwrap().get(&'z'), Some(8));
    assert_eq!(table.get(&['a']).unwrap().get(&'b'), Some(2 * ONE));
}

#[test]
fn sequences_are_placed_and_copied_state_by_state() {
    assert_eq!(place::<char>(&[], &[]), Placement::Same);
    assert_eq!(place(&['a', 'b'], &['a', 'b']), Placement::Same);
    assert_eq!(place(&['a'], &['a', 'b']), Placement::Before);
    assert_eq!(place(&['a', 'b'], &['a']), Placement::After);
    assert_eq!(place(&['a', 'b'], &['a', 'c']), Placement::Before);
    assert_eq!(place(&['a', 'c'], &['a', 'b']), Placement::After);
    assert_eq!(place(&['b'], &['a', 'z', 'z']), Placement::After);
    assert_eq!(place(&[], &['a']), Placement::Before);
    assert_eq!(place(&[2u32, 10], &[10u32]), Placement::Before);
    assert_eq!(duplicate_states(&['x', 'y', 'z']), vec!['x', 'y', 'z']);
    assert_eq!(duplicate_states::<u8>(&[]), Vec::<u8>::new());
    let words = [String::from("one"), String::from("two")];
    assert_eq!(duplicate_states(&words), vec!["one", "two"]);
}

#[test]
fn a_table_finds_each_of_many_contexts() {
    let mut table: TransitionTable<u32> = TransitionTable::new();
    // contexts of one to three states, recorded in a scattered order
    let mut k: u32 = 1;
    for _ in 0..500 {
        k = (k * 73 + 11) % 1009;
        let context: Vec<u32> = (0..(1 + k % 3)).map(|j| (k + j * 7) % 50).collect();
        table.record(&context, &(k % 5), ONE);
    }
    let mut k: u32 = 1;
    let mut total: u128 = 0;
    for _ in 0..500 {
        k = (k * 73 + 11) % 1009;
        let context: Vec<u32> = (0..(1 + k % 3)).map(|j| (k + j * 7) % 50).collect();
        let row = table.get(&context).unwrap();
        assert!(row.get(&(k % 5)).unwrap() >= ONE);
        assert!(table.contains_key(&context));
    }
    assert!(!table.contains_key(&[50]));
    assert!(!table.contains_key(&[0, 50]));
    // every recorded observation is in exactly one row
    for a in 0..50u32 {
        for context in [vec![a], vec![a, (a + 7) % 50], vec![a, (a + 7) % 50, (a + 14) % 50]] {
            if let Some(row) = table.get(&context) {
                total += row.total();
            }
        }
    }
    assert_eq!(total, 500 * ONE as u128);
}
