use multimarkov::builder::{TrainError, TrainingSummary, DEFAULT_ORDER, DEFAULT_PRIOR};
use multimarkov::training::{CAPACITY, ONE};
use multimarkov::{MultiMarkov, MultiMarkovBuilder};
use rand::rngs::SmallRng;
use rand::SeedableRng;

fn corpus() -> Vec<Vec<char>> {
    vec![
        vec!['a', 'c', 'e'],
        vec!['f', 'o', 'o', 'b', 'a', 'r'],
        vec!['b', 'a', 'z'],
    ]
}

fn builder(order: i32) -> MultiMarkovBuilder<char, SmallRng> {
    MultiMarkov::<char, SmallRng>::builder(SmallRng::seed_from_u64(7)).with_order(order)
}

fn weight_of(b: &MultiMarkovBuilder<char, SmallRng>, context: &[char], next: char) -> Option<u64> {
    match b.markov_chain().get(context) {
        Some(row) => row.get(&next),
        None => None,
    }
}

#[test]
fn a_new_builder_has_the_defaults_and_has_learned_nothing() {
    let b = MultiMarkovBuilder::<char, SmallRng>::new(SmallRng::seed_from_u64(1));
    assert_eq!(b.order(), 3);
    assert_eq!(b.order(), DEFAULT_ORDER);
    assert_eq!(b.prior(), Some(5_000));
    assert_eq!(b.prior(), Some(DEFAULT_PRIOR));
    assert_eq!(MultiMarkov::<char, SmallRng>::DEFAULT_ORDER, 3);
    assert_eq!(MultiMarkov::<char, SmallRng>::DEFAULT_PRIOR, 5_000);
    assert_eq!(b.observations(), 0);
    assert!(b.markov_chain().is_empty());
    assert_eq!(b.markov_chain().len(), 0);
    assert!(b.known_states().is_empty());
    assert_eq!(b.summary(), TrainingSummary { trained: 0, skipped: 0 });
}

#[test]
fn the_order_is_set_before_training() {
    // a builder that was only shown sequences too short to train on has observed nothing
    let b = builder(2).train(vec![vec!['a'], vec![]]);
    assert_eq!(b.observations(), 0);
    let b = b.with_order(4);
    assert_eq!(b.order(), 4);
    let b = b.train(corpus());
    assert!(b.observations() > 0);
    assert_eq!(b.order(), 4);
    assert!(b.markov_chain().contains_key(&['f', 'o', 'o', 'b']));
}

#[test]
fn configuration_is_set_as_given() {
    let b = builder(5).with_prior(42);
    assert_eq!(b.order(), 5);
    assert_eq!(b.prior(), Some(42));
    let b = b.with_prior(0);
    assert_eq!(b.prior(), None);
    let b = b.with_prior(ONE).without_prior();
    assert_eq!(b.prior(), None);
    assert_eq!(b.order(), 5);
}

#[test]
fn each_transition_weighs_one_per_time_it_was_seen() {
    let b = builder(2).train(corpus());
    assert_eq!(weight_of(&b, &['b'], 'a'), Some(2 * ONE));
    assert_eq!(weight_of(&b, &['a'], 'c'), Some(ONE));
    assert_eq!(weight_of(&b, &['a'], 'r'), Some(ONE));
    assert_eq!(weight_of(&b, &['a'], 'z'), Some(ONE));
    assert_eq!(weight_of(&b, &['a'], 'b'), None);
    assert_eq!(weight_of(&b, &['o'], 'o'), Some(ONE));
    assert_eq!(weight_of(&b, &['o'], 'b'), Some(ONE));
    assert_eq!(weight_of(&b, &['f', 'o'], 'o'), Some(ONE));
    assert_eq!(weight_of(&b, &['o', 'o'], 'b'), Some(ONE));
    assert_eq!(weight_of(&b, &['b', 'a'], 'r'), Some(ONE));
    assert_eq!(weight_of(&b, &['b', 'a'], 'z'), Some(ONE));
    assert_eq!(weight_of(&b, &['a', 'c'], 'e'), Some(ONE));
    // the rows: a, c, f, o, b and ac, fo, oo, ob, ba
    assert_eq!(b.markov_chain().len(), 10);
    assert_eq!(b.markov_chain().get(&['a']).unwrap().len(), 3);
    assert_eq!(b.markov_chain().get(&['a']).unwrap().total(), 3 * ONE as u128);
    // one transition for each state but the first of each sequence
    assert_eq!(b.observations(), 2 + 5 + 2);
}

#[test]
fn a_context_is_never_longer_than_the_order() {
    let one = builder(1).train(corpus());
    assert!(one.markov_chain().contains_key(&['a']));
    assert!(!one.markov_chain().contains_key(&['a', 'c']));
    assert_eq!(one.markov_chain().len(), 5);
    let two = builder(2).train(corpus());
    assert!(two.markov_chain().contains_key(&['f', 'o']));
    assert!(!two.markov_chain().contains_key(&['f', 'o', 'o']));
    let three = builder(3).train(corpus());
    assert_eq!(weight_of(&three, &['f', 'o', 'o'], 'b'), Some(ONE));
    assert_eq!(weight_of(&three, &['o', 'b', 'a'], 'r'), Some(ONE));
    assert!(!three.markov_chain().contains_key(&['f', 'o', 'o', 'b']));
    // a context cannot reach back before the start of its sequence
    assert!(!three.markov_chain().contains_key(&['e', 'f']));
    assert!(!three.markov_chain().contains_key(&['r', 'b']));
}

#[test]
fn training_again_adds_to_what_was_learned() {
    let b = builder(2).train(corpus()).train(corpus());
    assert_eq!(weight_of(&b, &['b'], 'a'), Some(4 * ONE));
    assert_eq!(weight_of(&b, &['a'], 'c'), Some(2 * ONE));
    assert_eq!(weight_of(&b, &['a', 'c'], 'e'), Some(2 * ONE));
    assert_eq!(b.markov_chain().len(), 10);
    assert_eq!(b.known_states().len(), 8);
    assert_eq!(b.observations(), 18);
    let c = b.train(vec![vec!['a', 'b']]);
    assert_eq!(weight_of(&c, &['a'], 'b'), Some(ONE));
    assert_eq!(weight_of(&c, &['b'], 'a'), Some(4 * ONE));
    assert_eq!(c.summary(), TrainingSummary { trained: 1, skipped: 0 });
}

#[test]
fn a_state_repeated_in_a_sequence_is_counted_each_time() {
    let b = builder(2).train(vec![vec!['a', 'a', 'a', 'a']]);
    assert_eq!(weight_of(&b, &['a'], 'a'), Some(3 * ONE));
    assert_eq!(weight_of(&b, &['a', 'a'], 'a'), Some(2 * ONE));
    assert_eq!(b.markov_chain().len(), 2);
    assert_eq!(b.known_states().len(), 1);
}

#[test]
fn every_state_of_a_trained_sequence_is_known() {
    let b = builder(2).train(corpus());
    assert_eq!(b.known_states().len(), 8);
    for s in ['a', 'c', 'e', 'f', 'o', 'b', 'r', 'z'] {
        assert!(b.known_states().contains(&s));
    }
    assert!(!b.known_states().contains(&'x'));
    // 'f' is only ever first, 'z' only ever last
    assert!(b.markov_chain().contains_key(&['f']));
    assert!(!b.markov_chain().contains_key(&['z']));
    assert!(!b.markov_chain().contains_key(&['e']));
    assert!(!b.markov_chain().contains_key(&['r']));
}

#[test]
fn short_sequences_are_skipped_and_counted() {
    let b = builder(2).train(vec![vec!['a'], vec![], vec!['q']]);
    assert_eq!(b.summary(), TrainingSummary { trained: 0, skipped: 3 });
    assert!(b.markov_chain().is_empty());
    assert!(b.known_states().is_empty());
    assert!(!b.known_states().contains(&'a'));
    assert_eq!(b.observations(), 0);

    let mixed = builder(2).train(vec![
        vec!['a'],
        vec!['a', 'c', 'e'],
        vec![],
        vec!['f', 'o', 'o', 'b', 'a', 'r'],
        vec!['b', 'a', 'z'],
    ]);
    assert_eq!(mixed.summary(), TrainingSummary { trained: 3, skipped: 2 });
    let plain = builder(2).train(corpus());
    assert_eq!(plain.summary(), TrainingSummary { trained: 3, skipped: 0 });
    assert_eq!(mixed.markov_chain().len(), plain.markov_chain().len());
    assert_eq!(mixed.known_states().len(), plain.known_states().len());
    assert_eq!(weight_of(&mixed, &['b'], 'a'), weight_of(&plain, &['b'], 'a'));
    assert_eq!(mixed.observations(), plain.observations());
}

#[test]
fn the_summary_is_of_the_last_call() {
    let b = builder(2).train(vec![vec!['a'], vec!['a', 'b']]);
    assert_eq!(b.summary(), TrainingSummary { trained: 1, skipped: 1 });
    let b = b.train(vec![]);
    assert_eq!(b.summary(), TrainingSummary { trained: 0, skipped: 0 });
    assert_eq!(weight_of(&b, &['a'], 'b'), Some(ONE));
}

#[test]
fn train_sequence_refuses_a_sequence_without_a_transition() {
    let mut b = builder(2);
    assert_eq!(b.train_sequence(&[]), Err(TrainError::TooShort));
    assert_eq!(b.train_sequence(&['a']), Err(TrainError::TooShort));
    assert!(b.markov_chain().is_empty());
    assert!(b.known_states().is_empty());
    assert_eq!(
        TrainError::TooShort.message(),
        "sequence was too short, must contain at least two states"
    );
    assert_eq!(b.train_sequence(&['a', 'b']), Ok(()));
    assert_eq!(weight_of(&b, &['a'], 'b'), Some(ONE));
    assert_eq!(b.markov_chain().len(), 1);
    assert!(b.known_states().contains(&'a'));
    assert!(b.known_states().contains(&'b'));
    assert_eq!(b.observations(), 1);
}

#[test]
fn room_is_measured_in_transitions() {
    let b = builder(2).train(corpus());
    assert!(b.has_room_for(0));
    assert!(b.has_room_for(1));
    assert!(b.has_room_for(1_000));
    assert!(b.has_room_for((CAPACITY - 9 + 1) as usize));
    assert!(!b.has_room_for((CAPACITY - 9 + 2) as usize));
    assert!(b.can_train(&corpus()));
    assert!(b.can_train(&vec![]));
    assert_eq!(CAPACITY, u64::MAX / ONE);
}

#[test]
fn smoothing_gives_every_row_an_entry_for_every_known_state() {
    let prior = 15_000;
    let trained = builder(2).train(corpus());
    let model = builder(2).train(corpus()).with_prior(prior).build();
    let contexts: Vec<Vec<char>> = vec![
        vec!['a'], vec!['c'], vec!['f'], vec!['o'], vec!['b'],
        vec!['a', 'c'], vec!['f', 'o'], vec!['o', 'o'], vec!['o', 'b'], vec!['b', 'a'],
    ];
    assert_eq!(model.markov_chain().len(), contexts.len());
    for context in &contexts {
        let row = model.markov_chain().get(context).unwrap();
        assert_eq!(row.len(), 8);
        for s in ['a', 'c', 'e', 'f', 'o', 'b', 'r', 'z'] {
            let before = weight_of(&trained, context, s);
            match before {
                Some(w) => assert_eq!(row.get(&s), Some(w)),
                None => assert_eq!(row.get(&s), Some(prior)),
            }
        }
        assert!(!row.contains_key(&'x'));
    }
    // smoothing makes no row: 'z' still has none
    assert!(!model.markov_chain().contains_key(&['z']));
    assert_eq!(model.known_states().len(), 8);
    assert_eq!(model.order(), 2);
}

#[test]
fn without_a_prior_the_model_holds_what_was_observed() {
    for model in [
        builder(2).train(corpus()).without_prior().build(),
        builder(2).train(corpus()).with_prior(0).build(),
    ] {
        assert_eq!(model.markov_chain().len(), 10);
        let row = model.markov_chain().get(&['a']).unwrap();
        assert_eq!(row.len(), 3);
        assert_eq!(row.get(&'c'), Some(ONE));
        assert_eq!(row.get(&'b'), None);
        assert_eq!(model.markov_chain().get(&['b']).unwrap().len(), 1);
        assert_eq!(model.markov_chain().get(&['b']).unwrap().get(&'a'), Some(2 * ONE));
    }
}

#[test]
fn the_default_prior_is_used_where_none_is_given() {
    let model = MultiMarkov::<char, SmallRng>::builder(SmallRng::seed_from_u64(3))
        .train(corpus())
        .build();
    assert_eq!(model.order(), 3);
    assert_eq!(model.markov_chain().get(&['a']).unwrap().get(&'b'), Some(5_000));
    assert_eq!(model.markov_chain().get(&['f', 'o', 'o']).unwrap().get(&'b'), Some(ONE));
    assert_eq!(model.markov_chain().get(&['f', 'o', 'o']).unwrap().get(&'z'), Some(5_000));
}

#[test]
fn concrete_scenario_weights_and_priors() {
    let trained = builder(2).without_prior().train(corpus());
    assert_eq!(weight_of(&trained, &['b'], 'a').unwrap() as f64 / ONE as f64, 2.0);
    assert_eq!(weight_of(&trained, &['a'], 'c').unwrap() as f64 / ONE as f64, 1.0);
    assert_eq!(weight_of(&trained, &['a'], 'b'), None);
    let unsmoothed = trained.build();
    assert!(!unsmoothed.markov_chain().get(&['a']).unwrap().contains_key(&'b'));

    let model = builder(2).train(corpus()).with_prior(15_000).build();
    let w = model.markov_chain().get(&['a']).unwrap().get(&'b').unwrap();
    assert_eq!(w as f64 / ONE as f64, 0.015);
    assert!(model.known_states().contains(&'z'));
    assert!(!model.markov_chain().contains_key(&['z']));
}
