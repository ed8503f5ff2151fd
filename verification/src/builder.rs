use vstd::prelude::*;
use vstd::slice::slice_subrange;
use crate::known::StateSet;
use crate::model::MultiMarkov;
use crate::state::{views, State};
use crate::table::{smoothed, weight_in, TransitionTable};
use crate::training::{
    after_corpus, after_sequence, follows_at, lemma_follows_bound, lemma_load_prefix,
    lemma_observed, lemma_plus_nothing, lemma_plus_same, lemma_plus_step, lemma_plus_weight,
    lemma_symbols_step, load, occurrences, plus, symbols_from, tally, usable, Learned, CAPACITY,
    ONE,
};

verus! {

/// The order of a builder that was given none.
pub const DEFAULT_ORDER: i32 = 3;

/// The prior of a builder that was given none: five thousandths of an observation.
pub const DEFAULT_PRIOR: u64 = 5_000;

/// Why a sequence was not trained on.
#[derive(Debug, Clone, Copy, PartialEq, Eq)]
pub enum TrainError {
    /// The sequence has fewer than two states, so it holds no transition.
    TooShort,
}

impl TrainError {
    /// The error in words.
    pub fn message(&self) -> (text: String)
        ensures
            text@ == "sequence was too short, must contain at least two states"@,
    {
        "sequence was too short, must contain at least two states".to_owned()
    }
}

/// How one call of `train` went.
#[derive(Debug, Clone, Copy, PartialEq, Eq)]
pub struct TrainingSummary {
    /// The number of sequences that were trained on.
    pub trained: usize,
    /// The number of sequences that were skipped as too short.
    pub skipped: usize,
}

/// The symbols of each sequence of a corpus.
pub open spec fn corpus_views<T: View>(corpus: Seq<Vec<T>>) -> Seq<Seq<T::V>> {
    Seq::new(corpus.len(), |i: int| views(corpus[i]@))
}

/// The table that a model is built with: smoothed with the prior where one
/// is set, and as it was learned where none is.
pub open spec fn finished<V>(
    table: Map<Seq<V>, Map<V, nat>>,
    known: Set<V>,
    prior: Option<u64>,
) -> Map<Seq<V>, Map<V, nat>> {
    match prior {
        Some(p) => smoothed(table, known, p as nat),
        None => table,
    }
}

/// Accumulates the transitions of training sequences, to be built into a model.
pub struct MultiMarkovBuilder<T, R> {
    markov_chain: TransitionTable<T>,
    known_states: StateSet<T>,
    order: i32,
    prior: Option<u64>,
    rng: R,
    observed: u64,
    summary: TrainingSummary,
}

impl<T: State, R> MultiMarkovBuilder<T, R> {
    /// What the builder has learned so far.
    pub open spec fn learned(&self) -> Learned<T::V> {
        Learned {
            table: self.spec_markov_chain()@,
            known: self.spec_known_states()@,
            observed: self.spec_observations() as nat,
        }
    }

    /// The transition table as it stands, before any smoothing.
    pub closed spec fn spec_markov_chain(&self) -> &TransitionTable<T> {
        &self.markov_chain
    }

    /// The set of the states seen so far.
    pub closed spec fn spec_known_states(&self) -> &StateSet<T> {
        &self.known_states
    }

    /// The greatest number of states that make a context.
    pub closed spec fn spec_order(&self) -> i32 {
        self.order
    }

    /// The weight that smoothing will give, if smoothing is on.
    pub closed spec fn spec_prior(&self) -> Option<u64> {
        self.prior
    }

    /// The generator that the model will draw from.
    pub closed spec fn spec_rng(&self) -> &R {
        &self.rng
    }

    /// How the last call of `train` went.
    pub closed spec fn spec_summary(&self) -> TrainingSummary {
        self.summary
    }

    /// The number of transitions observed so far.
    pub closed spec fn spec_observations(&self) -> u64 {
        self.observed
    }

    /// The table and the set are well formed, the order is positive, a prior
    /// that is set is above zero, and no weight is more than `ONE` for each
    /// transition observed, which keeps every weight within `u64`.
    pub open spec fn wf(&self) -> bool {
        &&& self.spec_markov_chain().wf()
        &&& self.spec_known_states().wf()
        &&& self.spec_order() > 0
        &&& self.spec_prior() matches Some(p) ==> p > 0
        &&& self.spec_observations() <= CAPACITY
        &&& forall|c: Seq<T::V>, s: T::V| #[trigger]
            weight_in(self.spec_markov_chain()@, c, s) <= ONE * self.spec_observations()
    }

    /// Whether this is a builder as `new` makes it: well formed, with
    /// nothing learned, the default order and prior, and `rng` to draw from.
    pub open spec fn is_fresh(&self, rng: R) -> bool {
        &&& self.wf()
        &&& self.learned() == (Learned::<T::V> {
            table: Map::empty(),
            known: Set::empty(),
            observed: 0,
        })
        &&& self.spec_order() == DEFAULT_ORDER
        &&& self.spec_prior() == Some(DEFAULT_PRIOR)
        &&& *self.spec_rng() == rng
        &&& self.spec_summary() == (TrainingSummary { trained: 0, skipped: 0 })
    }

    /// A builder that has learned nothing, with the default order and prior.
    pub fn new(rng: R) -> (builder: Self)
        ensures
            builder.is_fresh(rng),
    {
        MultiMarkovBuilder {
            markov_chain: TransitionTable::new(),
            known_states: StateSet::new(),
            order: DEFAULT_ORDER,
            prior: Some(DEFAULT_PRIOR),
            rng,
            observed: 0,
            summary: TrainingSummary { trained: 0, skipped: 0 },
        }
    }

    /// Sets the order: the greatest number of states that make a context. The
    /// order is set before any transition is observed, and stays.
    pub fn with_order(self, order: i32) -> (builder: Self)
        requires
            self.wf(),
            order > 0,
            self.learned().observed == 0,
        ensures
            builder.wf(),
            builder.spec_order() == order,
            builder.learned() == self.learned(),
            builder.spec_prior() == self.spec_prior(),
            builder.spec_rng() == self.spec_rng(),
            builder.spec_summary() == self.spec_summary(),
    {
        MultiMarkovBuilder {
            markov_chain: self.markov_chain,
            known_states: self.known_states,
            order,
            prior: self.prior,
            rng: self.rng,
            observed: self.observed,
            summary: self.summary,
        }
    }

    /// Sets the weight that smoothing gives to a transition that was not
    /// observed, in millionths of an observation. Zero turns smoothing off.
    pub fn with_prior(self, prior: u64) -> (builder: Self)
        requires
            self.wf(),
        ensures
            builder.wf(),
            builder.spec_prior() == if prior == 0 {
                None
            } else {
                Some(prior)
            },
            builder.learned() == self.learned(),
            builder.spec_order() == self.spec_order(),
            builder.spec_rng() == self.spec_rng(),
            builder.spec_summary() == self.spec_summary(),
    {
        MultiMarkovBuilder {
            markov_chain: self.markov_chain,
            known_states: self.known_states,
            order: self.order,
            prior: if prior == 0 {
                None
            } else {
                Some(prior)
            },
            rng: self.rng,
            observed: self.observed,
            summary: self.summary,
        }
    }

    /// Turns smoothing off: the model will hold observed transitions only.
    pub fn without_prior(self) -> (builder: Self)
        requires
            self.wf(),
        ensures
            builder.wf(),
            builder.spec_prior() == None::<u64>,
            builder.learned() == self.learned(),
            builder.spec_order() == self.spec_order(),
            builder.spec_rng() == self.spec_rng(),
            builder.spec_summary() == self.spec_summary(),
    {
        MultiMarkovBuilder {
            markov_chain: self.markov_chain,
            known_states: self.known_states,
            order: self.order,
            prior: None,
            rng: self.rng,
            observed: self.observed,
            summary: self.summary,
        }
    }

    /// The transition table as it stands, before any smoothing.
    #[verifier::when_used_as_spec(spec_markov_chain)]
    pub fn markov_chain(&self) -> (table: &TransitionTable<T>)
        ensures
            table == self.spec_markov_chain(),
    {
        &self.markov_chain
    }

    /// The set of the states seen so far.
    #[verifier::when_used_as_spec(spec_known_states)]
    pub fn known_states(&self) -> (known: &StateSet<T>)
        ensures
            known == self.spec_known_states(),
    {
        &self.known_states
    }

    /// The greatest number of states that make a context.
    #[verifier::when_used_as_spec(spec_order)]
    pub fn order(&self) -> (order: i32)
        ensures
            order == self.spec_order(),
    {
        self.order
    }

    /// The weight that smoothing will give, if smoothing is on.
    #[verifier::when_used_as_spec(spec_prior)]
    pub fn prior(&self) -> (prior: Option<u64>)
        ensures
            prior == self.spec_prior(),
    {
        self.prior
    }

    /// How the last call of `train` went.
    #[verifier::when_used_as_spec(spec_summary)]
    pub fn summary(&self) -> (summary: TrainingSummary)
        ensures
            summary == self.spec_summary(),
    {
        self.summary
    }

    /// The number of transitions observed so far.
    #[verifier::when_used_as_spec(spec_observations)]
    pub fn observations(&self) -> (n: u64)
        ensures
            n == self.spec_observations(),
    {
        self.observed
    }

    /// Whether the builder has room for a sequence of `len` states.
    pub fn has_room_for(&self, len: usize) -> (b: bool)
        requires
            self.wf(),
        ensures
            b == (len < 2 || self.learned().observed + len - 1 <= CAPACITY),
    {
        len < 2 || (len - 1) as u64 <= CAPACITY - self.observed
    }

    /// Whether the builder has room for every sequence of `sequences`.
    pub fn can_train(&self, sequences: &Vec<Vec<T>>) -> (b: bool)
        requires
            self.wf(),
        ensures
            b == (self.learned().observed + load(corpus_views(sequences@)) <= CAPACITY),
    {
        let ghost corpus = corpus_views(sequences@);
        let n = sequences.len();
        let mut room: u64 = CAPACITY - self.observed;
        let mut k: usize = 0;
        proof {
            assert(corpus.take(0) =~= Seq::<Seq<T::V>>::empty());
        }
        while k < n
            invariant
                n == sequences@.len(),
                corpus == corpus_views(sequences@),
                k <= n,
                self.observed <= CAPACITY,
                room == CAPACITY - self.observed - load(corpus.take(k as int)),
            decreases n - k,
        {
            let len = sequences[k].len();
            proof {
                assert(corpus.take(k + 1).drop_last() =~= corpus.take(k as int));
                assert(corpus.take(k + 1).last().len() == len);
                lemma_load_prefix(corpus, k + 1);
            }
            if len >= 2 {
                if (len - 1) as u64 > room {
                    return false;
                }
                room = room - (len - 1) as u64;
            }
            k = k + 1;
        }
        proof {
            assert(corpus.take(n as int) =~= corpus);
        }
        true
    }

    /// Learns the transitions of one sequence: for each state but the first,
    /// one observation behind each context of one state up to as many as the
    /// order and the position allow. A sequence of fewer than two states is
    /// refused and changes nothing.
    pub fn train_sequence(&mut self, sequence: &[T]) -> (r: Result<(), TrainError>)
        requires
            old(self).wf(),
            sequence@.len() >= 2 ==> old(self).learned().observed + sequence@.len() - 1
                <= CAPACITY,
        ensures
            final(self).wf(),
            r is Err <==> sequence@.len() < 2,
            r is Err ==> r == Err::<(), TrainError>(TrainError::TooShort),
            final(self).learned() == after_sequence(
                old(self).learned(),
                views(sequence@),
                old(self).spec_order() as int,
            ),
            final(self).spec_order() == old(self).spec_order(),
            final(self).spec_prior() == old(self).spec_prior(),
            final(self).spec_rng() == old(self).spec_rng(),
            final(self).spec_summary() == old(self).spec_summary(),
    {
        let n = sequence.len();
        if n < 2 {
            return Err(TrainError::TooShort);
        }
        let ghost seq = views(sequence@);
        let ghost order = self.order as int;
        let ghost start = self.markov_chain@;
        let ghost known = self.known_states@;
        let ghost seen = self.observed as int;
        let mut i: usize = n - 1;
        proof {
            lemma_plus_nothing(start, |c: Seq<T::V>, s: T::V| tally(seq, order, c, s, i as int, 0));
            assert(self.known_states@ =~= known.union(symbols_from(seq, i + 1)));
        }
        while i >= 1
            invariant
                n == sequence@.len(),
                n >= 2,
                seq == views(sequence@),
                i <= n - 1,
                order == self.order,
                order > 0,
                seen == old(self).observed,
                seen + n - 1 <= CAPACITY,
                start == old(self).markov_chain@,
                forall|c: Seq<T::V>, s: T::V| #[trigger] weight_in(start, c, s) <= ONE * seen,
                self.markov_chain.wf(),
                self.known_states.wf(),
                self.markov_chain@ == plus(
                    start,
                    |c: Seq<T::V>, s: T::V| tally(seq, order, c, s, i as int, 0),
                ),
                self.known_states@ == known.union(symbols_from(seq, i + 1)),
                self.order == old(self).order,
                self.prior == old(self).prior,
                self.rng == old(self).rng,
                self.observed == old(self).observed,
                self.summary == old(self).summary,
            decreases i,
        {
            self.known_states.insert(&sequence[i]);
            proof {
                lemma_symbols_step(seq, i as int);
                assert(self.known_states@ =~= known.union(symbols_from(seq, i as int)));
            }
            let top: usize = if (self.order as usize) < i {
                self.order as usize
            } else {
                i
            };
            let mut l: usize = 1;
            while l <= top
                invariant
                    n == sequence@.len(),
                    seq == views(sequence@),
                    1 <= i <= n - 1,
                    1 <= l <= top + 1,
                    top <= i,
                    top <= order,
                    top == order || top == i,
                    order == self.order,
                    seen + n - 1 <= CAPACITY,
                    forall|c: Seq<T::V>, s: T::V| #[trigger] weight_in(start, c, s) <= ONE * seen,
                    self.markov_chain.wf(),
                    self.markov_chain@ == plus(
                        start,
                        |c: Seq<T::V>, s: T::V| tally(seq, order, c, s, i as int, l - 1),
                    ),
                    self.known_states.wf(),
                    self.known_states@ == known.union(symbols_from(seq, i as int)),
                    self.order == old(self).order,
                    self.prior == old(self).prior,
                    self.rng == old(self).rng,
                    self.observed == old(self).observed,
                    self.summary == old(self).summary,
                decreases top + 1 - l,
            {
                let context = slice_subrange(sequence, i - l, i);
                let ghost c0 = views(context@);
                let ghost s0 = sequence@[i as int]@;
                let ghost f = |c: Seq<T::V>, s: T::V| tally(seq, order, c, s, i as int, l - 1);
                let ghost g = |c: Seq<T::V>, s: T::V| tally(seq, order, c, s, i as int, l as int);
                proof {
                    assert(c0 =~= seq.subrange(i - l, i as int));
                    assert(s0 == seq[i as int]);
                    lemma_plus_weight(start, f, c0, s0);
                    lemma_follows_bound(seq, c0, s0, i + 1);
                    assert(f(c0, s0) <= n - i - 1);
                    assert(weight_in(start, c0, s0) <= ONE * seen);
                    assert(ONE * f(c0, s0) <= ONE * (n - i - 1)) by (nonlinear_arith)
                        requires
                            f(c0, s0) <= n - i - 1,
                    ;
                    assert(ONE * seen + ONE * (n - i - 1) + ONE <= ONE * CAPACITY)
                        by (nonlinear_arith)
                        requires
                            seen + n - 1 <= CAPACITY,
                            i >= 1,
                    ;
                    assert forall|c: Seq<T::V>, s: T::V|
                        #[trigger] g(c, s) == f(c, s) + if c == c0 && s == s0 {
                            1nat
                        } else {
                            0nat
                        } by {
                        if c.len() == l && follows_at(seq, c, s, i as int) {
                            assert(c == c0);
                        }
                        if c == c0 && s == s0 {
                            assert(follows_at(seq, c, s, i as int));
                        }
                    }
                    lemma_plus_step(start, f, g, c0, s0);
                }
                self.markov_chain.record(context, &sequence[i], ONE);
                l = l + 1;
            }
            proof {
                let f = |c: Seq<T::V>, s: T::V| tally(seq, order, c, s, i as int, top as int);
                let g = |c: Seq<T::V>, s: T::V| tally(seq, order, c, s, i - 1, 0);
                assert forall|c: Seq<T::V>, s: T::V| #[trigger] f(c, s) == g(c, s) by {
                }
                lemma_plus_same(start, f, g);
            }
            i = i - 1;
        }
        self.known_states.insert(&sequence[0]);
        self.observed = self.observed + (n - 1) as u64;
        proof {
            lemma_symbols_step(seq, 0);
            assert(self.known_states@ =~= known.union(symbols_from(seq, 0)));
            let f = |c: Seq<T::V>, s: T::V| tally(seq, order, c, s, 0, 0);
            let g = |c: Seq<T::V>, s: T::V| occurrences(seq, order, c, s);
            assert forall|c: Seq<T::V>, s: T::V| #[trigger] f(c, s) == g(c, s) by {
            }
            lemma_plus_same(start, f, g);
            assert forall|c: Seq<T::V>, s: T::V| #[trigger]
                weight_in(self.markov_chain@, c, s) <= ONE * self.observed by {
                lemma_plus_weight(start, g, c, s);
                lemma_follows_bound(seq, c, s, 0);
                assert(weight_in(start, c, s) <= ONE * seen);
                assert(ONE * g(c, s) + ONE * seen <= ONE * (seen + n - 1)) by (nonlinear_arith)
                    requires
                        g(c, s) <= n - 1,
                ;
            }
        }
        Ok(())
    }

    /// Learns the transitions of each sequence in turn, skipping those of
    /// fewer than two states, and keeps a summary of how many were trained on
    /// and how many skipped.
    pub fn train(self, sequences: Vec<Vec<T>>) -> (builder: Self)
        requires
            self.wf(),
            self.learned().observed + load(corpus_views(sequences@)) <= CAPACITY,
        ensures
            builder.wf(),
            builder.learned() == after_corpus(
                self.learned(),
                corpus_views(sequences@),
                self.spec_order() as int,
            ),
            builder.spec_summary().trained == usable(corpus_views(sequences@)),
            builder.spec_summary().skipped == sequences@.len() - usable(corpus_views(sequences@)),
            builder.spec_order() == self.spec_order(),
            builder.spec_prior() == self.spec_prior(),
            builder.spec_rng() == self.spec_rng(),
    {
        let ghost corpus = corpus_views(sequences@);
        let ghost order = self.order as int;
        let ghost before = self.learned();
        let mut builder = self;
        let mut trained: usize = 0;
        let mut skipped: usize = 0;
        let n = sequences.len();
        let mut k: usize = 0;
        proof {
            assert(corpus.take(0) =~= Seq::<Seq<T::V>>::empty());
        }
        while k < n
            invariant
                n == sequences@.len(),
                corpus == corpus_views(sequences@),
                k <= n,
                builder.wf(),
                order == self.order,
                before == self.learned(),
                before.observed + load(corpus) <= CAPACITY,
                builder.learned() == after_corpus(before, corpus.take(k as int), order),
                trained == usable(corpus.take(k as int)),
                trained + skipped == k,
                builder.order == self.order,
                builder.prior == self.prior,
                builder.rng == self.rng,
            decreases n - k,
        {
            proof {
                assert(corpus.take(k + 1).drop_last() =~= corpus.take(k as int));
                assert(corpus.take(k + 1).last() == views(sequences@[k as int]@));
                lemma_load_prefix(corpus, k + 1);
                lemma_observed(before, corpus.take(k as int), order);
            }
            match builder.train_sequence(sequences[k].as_slice()) {
                Ok(()) => {
                    trained = trained + 1;
                },
                Err(_) => {
                    skipped = skipped + 1;
                },
            }
            k = k + 1;
        }
        proof {
            assert(corpus.take(n as int) =~= corpus);
        }
        builder.summary = TrainingSummary { trained, skipped };
        builder
    }

    /// Smooths the table with the prior, where one is set.
    fn add_priors(&mut self)
        requires
            old(self).wf(),
        ensures
            final(self).markov_chain.wf(),
            final(self).markov_chain@ == finished(
                old(self).markov_chain@,
                old(self).known_states@,
                old(self).prior,
            ),
            final(self).known_states == old(self).known_states,
            final(self).order == old(self).order,
            final(self).rng == old(self).rng,
    {
        match self.prior {
            Some(p) => {
                self.markov_chain.smooth(&self.known_states, p);
            },
            None => {},
        }
    }

    /// Smooths the table with the prior, where one is set, and hands the
    /// table, the known states, the order and the generator to a model.
    pub fn build(self) -> (model: MultiMarkov<T, R>)
        requires
            self.wf(),
        ensures
            model.wf(),
            model.spec_markov_chain()@ == finished(
                self.learned().table,
                self.learned().known,
                self.spec_prior(),
            ),
            model.spec_known_states()@ == self.learned().known,
            model.spec_order() == self.spec_order(),
            model.spec_rng() == self.spec_rng(),
    {
        let mut builder = self;
        builder.add_priors();
        MultiMarkov::assemble(
            builder.markov_chain,
            builder.known_states,
            builder.order,
            builder.rng,
        )
    }
}

} // verus!
