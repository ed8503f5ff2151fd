use vstd::prelude::*;
use vstd::slice::slice_subrange;
use crate::builder::{MultiMarkovBuilder, DEFAULT_ORDER, DEFAULT_PRIOR};
use crate::known::StateSet;
use crate::row::{in_order, Row};
use crate::sampling::{lemma_selects_unique, selected, ROLL_SHIFT};
use crate::source::Generator;
use crate::state::{views, State};
use crate::table::TransitionTable;

verus! {

/// The last `l` states of `seq`.
pub open spec fn suffix<V>(seq: Seq<V>, l: int) -> Seq<V> {
    seq.subrange(seq.len() - l, seq.len() as int)
}

/// Whether `l` is a context length that a model of the given order may use for `seq`.
pub open spec fn usable_length<V>(order: int, seq: Seq<V>, l: int) -> bool {
    1 <= l <= order && l <= seq.len()
}

/// Whether `l` is the length of the longest suffix of `seq` that has a row:
/// the context that back-off settles on.
pub open spec fn is_best<V>(
    table: Map<Seq<V>, Map<V, nat>>,
    order: int,
    seq: Seq<V>,
    l: int,
) -> bool {
    &&& usable_length(order, seq, l)
    &&& table.dom().contains(suffix(seq, l))
    &&& forall|k: int|
        l < k && usable_length(order, seq, k) ==> !table.dom().contains(#[trigger] suffix(seq, k))
}

/// Whether no suffix of `seq` that the model may use has a row.
pub open spec fn no_model<V>(table: Map<Seq<V>, Map<V, nat>>, order: int, seq: Seq<V>) -> bool {
    forall|k: int| usable_length(order, seq, k) ==> !table.dom().contains(#[trigger] suffix(seq, k))
}

/// The length of the context that back-off settles on.
pub open spec fn best_length<V>(table: Map<Seq<V>, Map<V, nat>>, order: int, seq: Seq<V>) -> int {
    choose|l: int| is_best(table, order, seq, l)
}

/// The roll that 64 random bits stand for: their 53 high bits.
pub open spec fn roll_of(bits: u64) -> nat {
    (bits >> ROLL_SHIFT) as nat
}

/// The state that follows `seq` when the generator yields `bits`: the entry
/// that the roll falls to in the row of the longest suffix that has one, and
/// none where no suffix has a row.
pub open spec fn next_state<T: State>(
    table: Map<Seq<T::V>, Map<T::V, nat>>,
    order: int,
    seq: Seq<T::V>,
    bits: u64,
) -> Option<T::V> {
    if no_model(table, order, seq) {
        None
    } else {
        let es = in_order::<T>(table[suffix(seq, best_length(table, order, seq))]);
        Some(es[selected(es, roll_of(bits))].0)
    }
}

/// The symbol of a state that may be absent.
pub open spec fn state_view<T: View>(state: Option<T>) -> Option<T::V> {
    match state {
        Some(s) => Some(s@),
        None => None,
    }
}

/// At most one length is the best.
pub proof fn lemma_best_unique<V>(
    table: Map<Seq<V>, Map<V, nat>>,
    order: int,
    seq: Seq<V>,
    a: int,
    b: int,
)
    requires
        is_best(table, order, seq, a),
        is_best(table, order, seq, b),
    ensures
        a == b,
{
    if a < b {
        assert(!table.dom().contains(suffix(seq, b)));
    }
    if b < a {
        assert(!table.dom().contains(suffix(seq, a)));
    }
}

/// A trained chain: draws a state to follow a sequence, from the row of the
/// longest suffix of the sequence that was seen in training.
pub struct MultiMarkov<T, R> {
    markov_chain: TransitionTable<T>,
    known_states: StateSet<T>,
    order: i32,
    rng: R,
}

impl<T: State, R> MultiMarkov<T, R> {
    /// The order of a chain whose builder was given none.
    pub const DEFAULT_ORDER: i32 = DEFAULT_ORDER;

    /// The prior of a chain whose builder was given none: five thousandths
    /// of an observation.
    pub const DEFAULT_PRIOR: u64 = DEFAULT_PRIOR;

    /// The transition table.
    pub closed spec fn spec_markov_chain(&self) -> &TransitionTable<T> {
        &self.markov_chain
    }

    /// The set of the states seen in training.
    pub closed spec fn spec_known_states(&self) -> &StateSet<T> {
        &self.known_states
    }

    /// The greatest number of states that make a context.
    pub closed spec fn spec_order(&self) -> i32 {
        self.order
    }

    /// The generator that the model draws from.
    pub closed spec fn spec_rng(&self) -> &R {
        &self.rng
    }

    /// The table and the set are well formed, and the order is positive.
    pub open spec fn wf(&self) -> bool {
        &&& self.spec_markov_chain().wf()
        &&& self.spec_known_states().wf()
        &&& self.spec_order() > 0
    }

    /// A builder to train a chain with, drawing from `rng`.
    pub fn builder(rng: R) -> (builder: MultiMarkovBuilder<T, R>)
        ensures
            builder.is_fresh(rng),
    {
        MultiMarkovBuilder::new(rng)
    }

    /// A model of the given parts.
    pub(crate) fn assemble(
        markov_chain: TransitionTable<T>,
        known_states: StateSet<T>,
        order: i32,
        rng: R,
    ) -> (model: Self)
        requires
            markov_chain.wf(),
            known_states.wf(),
            order > 0,
        ensures
            model.wf(),
            *model.spec_markov_chain() == markov_chain,
            *model.spec_known_states() == known_states,
            model.spec_order() == order,
            *model.spec_rng() == rng,
    {
        MultiMarkov { markov_chain, known_states, order, rng }
    }

    /// The transition table.
    #[verifier::when_used_as_spec(spec_markov_chain)]
    pub fn markov_chain(&self) -> (table: &TransitionTable<T>)
        ensures
            table == self.spec_markov_chain(),
    {
        &self.markov_chain
    }

    /// The set of the states seen in training.
    #[verifier::when_used_as_spec(spec_known_states)]
    pub fn known_states(&self) -> (known: &StateSet<T>)
        ensures
            known == self.spec_known_states(),
    {
        &self.known_states
    }

    /// The greatest number of states that make a context.
    #[verifier::when_used_as_spec(spec_order)]
    pub fn order(&self) -> (order: i32)
        ensures
            order == self.spec_order(),
    {
        self.order
    }

    /// The generator that the model draws from.
    #[verifier::when_used_as_spec(spec_rng)]
    pub fn rng(&self) -> (rng: &R)
        ensures
            rng == self.spec_rng(),
    {
        &self.rng
    }

    /// The row of the longest suffix of `current_sequence` that has one in
    /// `table`, among the suffixes of at most `order` states; none where none has.
    fn best_row<'a>(
        table: &'a TransitionTable<T>,
        order: i32,
        current_sequence: &Vec<T>,
    ) -> (row: Option<&'a Row<T>>)
        requires
            table.wf(),
            order > 0,
        ensures
            row is None <==> no_model(table@, order as int, views(current_sequence@)),
            row is Some ==> {
                let seq = views(current_sequence@);
                let l = best_length(table@, order as int, seq);
                &&& is_best(table@, order as int, seq, l)
                &&& row->0@ == table@[suffix(seq, l)]
                &&& row->0.wf()
                &&& row->0.entries().len() > 0
            },
    {
        let n = current_sequence.len();
        let ghost seq = views(current_sequence@);
        let mut l: usize = if (order as usize) < n {
            order as usize
        } else {
            n
        };
        while l >= 1
            invariant
                n == current_sequence@.len(),
                seq == views(current_sequence@),
                table.wf(),
                l <= n,
                l <= order,
                forall|k: int|
                    l < k && usable_length(order as int, seq, k) ==> !table@.dom().contains(
                        #[trigger] suffix(seq, k),
                    ),
            decreases l,
        {
            let context = slice_subrange(current_sequence.as_slice(), n - l, n);
            proof {
                assert(views(context@) =~= suffix(seq, l as int));
            }
            match table.get(context) {
                Some(row) => {
                    proof {
                        assert(is_best(table@, order as int, seq, l as int));
                        lemma_best_unique(
                            table@,
                            order as int,
                            seq,
                            l as int,
                            best_length(table@, order as int, seq),
                        );
                    }
                    return Some(row);
                },
                None => {},
            }
            l = l - 1;
        }
        proof {
            if exists|b: int| is_best(table@, order as int, seq, b) {
                let b = choose|b: int| is_best(table@, order as int, seq, b);
                assert(!table@.dom().contains(suffix(seq, b)));
            }
        }
        None
    }

    /// The state of `row` that the roll of `bits` falls to.
    fn draw(row: &Row<T>, bits: u64) -> (next: Option<T>)
        requires
            row.wf(),
            row.entries().len() > 0,
        ensures
            next is Some,
            next->0@ == in_order::<T>(row@)[selected(in_order::<T>(row@), roll_of(bits))].0,
    {
        let roll = bits >> ROLL_SHIFT;
        assert(bits >> 11 < 0x20_0000_0000_0000) by (bit_vector);
        match row.pick(roll) {
            Some(i) => {
                proof {
                    row.lemma_in_order();
                    let es = row.entries();
                    lemma_selects_unique(es, roll as nat, i as int, selected(es, roll as nat));
                }
                Some(row.state_at(i).duplicate())
            },
            None => None,
        }
    }

    /// The row of the longest suffix of the sequence that has one, among the
    /// suffixes of at most as many states as the order; none where none has.
    pub fn best_model(&self, current_sequence: &Vec<T>) -> (row: Option<&Row<T>>)
        requires
            self.wf(),
        ensures
            row is None <==> no_model(
                self.spec_markov_chain()@,
                self.spec_order() as int,
                views(current_sequence@),
            ),
            row is Some ==> {
                let table = self.spec_markov_chain()@;
                let seq = views(current_sequence@);
                let l = best_length(table, self.spec_order() as int, seq);
                &&& is_best(table, self.spec_order() as int, seq, l)
                &&& row->0@ == table[suffix(seq, l)]
                &&& row->0.wf()
                &&& row->0.entries().len() > 0
            },
    {
        Self::best_row(&self.markov_chain, self.order, current_sequence)
    }

    /// The state that follows the sequence when the generator yields `bits`.
    pub fn next_for(&self, current_sequence: &Vec<T>, bits: u64) -> (next: Option<T>)
        requires
            self.wf(),
        ensures
            state_view(next) == next_state::<T>(
                self.spec_markov_chain()@,
                self.spec_order() as int,
                views(current_sequence@),
                bits,
            ),
    {
        match Self::best_row(&self.markov_chain, self.order, current_sequence) {
            Some(row) => Self::draw(row, bits),
            None => None,
        }
    }
}

impl<T: State, R: Generator> MultiMarkov<T, R> {
    /// Draws a state to follow the sequence. Where no suffix of the sequence
    /// has a row there is no state to draw, and the generator is left as it
    /// was. Otherwise 64 bits are taken from the generator, once, and the
    /// result is the state that follows for them. The table, the known
    /// states and the order stay as they are.
    pub fn random_next(&mut self, current_sequence: &Vec<T>) -> (next: Option<T>)
        requires
            old(self).wf(),
        ensures
            final(self).wf(),
            final(self).spec_markov_chain() == old(self).spec_markov_chain(),
            final(self).spec_known_states() == old(self).spec_known_states(),
            final(self).spec_order() == old(self).spec_order(),
            no_model(
                old(self).spec_markov_chain()@,
                old(self).spec_order() as int,
                views(current_sequence@),
            ) ==> next is None && final(self).spec_rng() == old(self).spec_rng(),
            exists|bits: u64|
                state_view(next) == #[trigger] next_state::<T>(
                    old(self).spec_markov_chain()@,
                    old(self).spec_order() as int,
                    views(current_sequence@),
                    bits,
                ),
    {
        let row = match Self::best_row(&self.markov_chain, self.order, current_sequence) {
            Some(row) => row,
            None => {
                assert(state_view(None::<T>) == next_state::<T>(
                    self.spec_markov_chain()@,
                    self.spec_order() as int,
                    views(current_sequence@),
                    0,
                ));
                return None;
            },
        };
        let bits = self.rng.next_bits();
        let next = Self::draw(row, bits);
        assert(state_view(next) == next_state::<T>(
            old(self).spec_markov_chain()@,
            old(self).spec_order() as int,
            views(current_sequence@),
            bits,
        ));
        next
    }
}

} // verus!
