use vstd::prelude::*;
use vstd::arithmetic::div_mod::{lemma_fundamental_div_mod, lemma_mod_bound};
use vstd::set_lib::{lemma_int_range, set_int_range};
use crate::sampling::{
    lemma_prefix_monotone, lemma_selects_some, lemma_selects_unique, prefix_weight, selected,
    selects, total_weight, ROLL_RANGE,
};
use crate::builder::finished;
use crate::model::{
    best_length, is_best, lemma_best_unique, next_state, no_model, suffix, usable_length,
};
use crate::state::State;
use crate::table::{sound, weight_in};
use crate::training::{
    after_corpus, after_sequence, lemma_follows_bound, lemma_follows_counted,
    lemma_follows_witness, lemma_plus_weight, occurrences, plus, usable, Learned, ONE,
};

verus! {

/// How often training on `corpus` with the given order observes the
/// transition from `c` to `s`, over all its sequences.
pub open spec fn corpus_occurrences<V>(corpus: Seq<Seq<V>>, order: int, c: Seq<V>, s: V) -> nat
    decreases corpus.len(),
{
    if corpus.len() == 0 {
        0
    } else {
        corpus_occurrences(corpus.drop_last(), order, c, s) + occurrences(
            corpus.last(),
            order,
            c,
            s,
        )
    }
}

/// Among the lengths from `l` up to `top`, where the suffix of length `l` has
/// a row, one is the greatest whose suffix has a row.
proof fn lemma_best_between<V>(
    table: Map<Seq<V>, Map<V, nat>>,
    order: int,
    seq: Seq<V>,
    l: int,
    top: int,
) -> (b: int)
    requires
        usable_length(order, seq, l),
        table.dom().contains(suffix(seq, l)),
        l <= top,
        forall|k: int|
            top < k && usable_length(order, seq, k) ==> !table.dom().contains(
                #[trigger] suffix(seq, k),
            ),
    ensures
        l <= b,
        is_best(table, order, seq, b),
    decreases top - l,
{
    if usable_length(order, seq, top) && table.dom().contains(suffix(seq, top)) {
        top
    } else if top == l {
        l
    } else {
        lemma_best_between(table, order, seq, l, top - 1)
    }
}

/// Back-off takes the longest match. Where the suffix of `l` states may be
/// used and has a row, back-off finds a model, and the context it settles on
/// has at least `l` states: no shorter suffix is ever taken instead.
pub proof fn backoff_takes_longest<V>(
    table: Map<Seq<V>, Map<V, nat>>,
    order: int,
    seq: Seq<V>,
    l: int,
)
    requires
        usable_length(order, seq, l),
        table.dom().contains(suffix(seq, l)),
    ensures
        !no_model(table, order, seq),
        is_best(table, order, seq, best_length(table, order, seq)),
        l <= best_length(table, order, seq),
{
    let top = if order < seq.len() {
        order
    } else {
        seq.len() as int
    };
    let b = lemma_best_between(table, order, seq, l, top);
    lemma_best_unique(table, order, seq, b, best_length(table, order, seq));
}

/// After training on one sequence, the weight of every transition is what
/// it was before, with `ONE` added for each position of the sequence at which
/// the state stands right behind the context, for contexts of at most `order`
/// states. A sequence of fewer than two states has no such position.
pub proof fn sequence_count_fidelity<V>(
    before: Learned<V>,
    seq: Seq<V>,
    order: int,
    c: Seq<V>,
    s: V,
)
    ensures
        weight_in(after_sequence(before, seq, order).table, c, s) == weight_in(before.table, c, s)
            + ONE * occurrences(seq, order, c, s),
        seq.len() < 2 ==> occurrences(seq, order, c, s) == 0,
{
    if seq.len() < 2 {
        lemma_follows_bound(seq, c, s, 0);
    } else {
        lemma_plus_weight(before.table, |c: Seq<V>, s: V| occurrences(seq, order, c, s), c, s);
    }
}

/// Adding observations to a table in which every row has an entry and every
/// entry a weight above zero gives such a table.
proof fn lemma_plus_sound<V>(m: Map<Seq<V>, Map<V, nat>>, count: spec_fn(Seq<V>, V) -> nat)
    requires
        sound(m),
    ensures
        sound(plus(m, count)),
{
    let p = plus(m, count);
    assert forall|c: Seq<V>| #[trigger] p.dom().contains(c) implies {
        &&& exists|s: V| p[c].dom().contains(s)
        &&& forall|s: V| p[c].dom().contains(s) ==> #[trigger] p[c][s] > 0
    } by {
        if m.dom().contains(c) {
            let s = choose|s: V| m[c].dom().contains(s);
            assert(p[c].dom().contains(s));
        } else {
            let s = choose|s: V| #[trigger] count(c, s) > 0;
            assert(p[c].dom().contains(s));
        }
        assert forall|s: V| p[c].dom().contains(s) implies #[trigger] p[c][s] > 0 by {
            if m.dom().contains(c) && m[c].dom().contains(s) {
                assert(m[c][s] > 0);
            } else {
                assert(count(c, s) > 0);
                assert(ONE * count(c, s) > 0) by (nonlinear_arith)
                    requires
                        count(c, s) > 0,
                ;
            }
        }
    }
}

/// An entry is there exactly for what was seen. Training keeps every row
/// with an entry and every weight above zero, so after training a transition
/// has an entry exactly when its weight is above zero.
pub proof fn an_entry_is_a_weight_above_zero<V>(
    before: Learned<V>,
    corpus: Seq<Seq<V>>,
    order: int,
    c: Seq<V>,
    s: V,
)
    requires
        sound(before.table),
    ensures
        sound(after_corpus(before, corpus, order).table),
        ({
            let table = after_corpus(before, corpus, order).table;
            table.dom().contains(c) && table[c].dom().contains(s) <==> weight_in(table, c, s) > 0
        }),
    decreases corpus.len(),
{
    if corpus.len() > 0 {
        let seq = corpus.last();
        an_entry_is_a_weight_above_zero(before, corpus.drop_last(), order, c, s);
        let mid = after_corpus(before, corpus.drop_last(), order).table;
        if seq.len() >= 2 {
            lemma_plus_sound(mid, |c: Seq<V>, s: V| occurrences(seq, order, c, s));
        }
    }
    let table = after_corpus(before, corpus, order).table;
    if table.dom().contains(c) && table[c].dom().contains(s) {
        assert(table[c][s] > 0);
    }
}

/// Weights count what was seen. After training on a corpus, the weight of
/// every transition is what it was before, with `ONE` added for each time the
/// state stands right behind the context in a sequence of the corpus, for
/// contexts of at most `order` states.
pub proof fn count_fidelity<V>(
    before: Learned<V>,
    corpus: Seq<Seq<V>>,
    order: int,
    c: Seq<V>,
    s: V,
)
    ensures
        weight_in(after_corpus(before, corpus, order).table, c, s) == weight_in(before.table, c, s)
            + ONE * corpus_occurrences(corpus, order, c, s),
    decreases corpus.len(),
{
    if corpus.len() > 0 {
        let rest = corpus.drop_last();
        let seq = corpus.last();
        count_fidelity(before, rest, order, c, s);
        let mid = after_corpus(before, rest, order);
        if seq.len() < 2 {
            lemma_follows_bound(seq, c, s, 0);
        } else {
            lemma_plus_weight(mid.table, |c: Seq<V>, s: V| occurrences(seq, order, c, s), c, s);
        }
        assert(ONE * (corpus_occurrences(rest, order, c, s) + occurrences(seq, order, c, s)) == ONE
            * corpus_occurrences(rest, order, c, s) + ONE * occurrences(seq, order, c, s))
            by (nonlinear_arith);
    }
}

/// Smoothing fills the rows. After smoothing with a prior, the table has
/// the rows it had; each row has an entry for every known state and for every
/// state it had one for; an entry that was there keeps its weight, and a new
/// one has exactly the prior.
pub proof fn smoothing_complete<V>(
    table: Map<Seq<V>, Map<V, nat>>,
    known: Set<V>,
    prior: u64,
    c: Seq<V>,
    s: V,
)
    ensures
        finished(table, known, Some(prior)).dom() == table.dom(),
        table.dom().contains(c) ==> {
            let row = finished(table, known, Some(prior))[c];
            &&& row.dom().contains(s) <==> known.contains(s) || table[c].dom().contains(s)
            &&& table[c].dom().contains(s) ==> row[s] == table[c][s]
            &&& known.contains(s) && !table[c].dom().contains(s) ==> row[s] == prior
        },
{
    assert(finished(table, known, Some(prior)).dom() =~= table.dom());
}

/// Without a prior the table is built as it was learned: no entry is added.
pub proof fn no_prior_adds_nothing<V>(table: Map<Seq<V>, Map<V, nat>>, known: Set<V>)
    ensures
        finished(table, known, None) == table,
{
}

/// A sequence of fewer than two states changes nothing that was learned, and
/// a corpus with such a sequence added teaches what the corpus teaches and
/// has as many usable sequences.
pub proof fn short_sequence_is_skipped<V>(
    before: Learned<V>,
    corpus: Seq<Seq<V>>,
    seq: Seq<V>,
    order: int,
)
    requires
        seq.len() < 2,
    ensures
        after_sequence(before, seq, order) == before,
        after_corpus(before, corpus.push(seq), order) == after_corpus(before, corpus, order),
        usable(corpus.push(seq)) == usable(corpus),
{
    assert(corpus.push(seq).drop_last() =~= corpus);
}

/// What is learned of transitions and of states does not depend on how
/// many transitions had been observed before.
proof fn lemma_learned_alike<V>(
    first: Learned<V>,
    second: Learned<V>,
    corpus: Seq<Seq<V>>,
    order: int,
)
    requires
        first.table == second.table,
        first.known == second.known,
    ensures
        after_corpus(first, corpus, order).table == after_corpus(second, corpus, order).table,
        after_corpus(first, corpus, order).known == after_corpus(second, corpus, order).known,
    decreases corpus.len(),
{
    if corpus.len() > 0 {
        lemma_learned_alike(first, second, corpus.drop_last(), order);
    }
}

/// What is drawn depends on nothing but the table, the order,
/// the sequence and the bits that the generator yields. So two models built
/// with the same order and prior, after the same corpus, from builders that
/// held the same table and the same known states, give the same state for
/// the same sequence and the same bits.
pub proof fn same_training_same_draw<T: State>(
    first: Learned<T::V>,
    second: Learned<T::V>,
    corpus: Seq<Seq<T::V>>,
    order: int,
    prior: Option<u64>,
    seq: Seq<T::V>,
    bits: u64,
)
    requires
        first.table == second.table,
        first.known == second.known,
    ensures
        ({
            let a = after_corpus(first, corpus, order);
            let b = after_corpus(second, corpus, order);
            next_state::<T>(finished(a.table, a.known, prior), order, seq, bits) == next_state::<T>(
                finished(b.table, b.known, prior),
                order,
                seq,
                bits,
            )
        }),
{
    lemma_learned_alike(first, second, corpus, order);
}

/// Every context of two or more states that has a row has one for the
/// context without its first state.
pub open spec fn suffix_closed<V>(table: Map<Seq<V>, Map<V, nat>>) -> bool {
    forall|c: Seq<V>| #[trigger]
        table.dom().contains(c) && c.len() >= 2 ==> table.dom().contains(c.drop_first())
}

/// Training keeps a table closed under shortening a context from the front:
/// what stands behind a context stands behind each of its suffixes.
pub proof fn training_keeps_suffixes<V>(before: Learned<V>, corpus: Seq<Seq<V>>, order: int)
    requires
        suffix_closed(before.table),
    ensures
        suffix_closed(after_corpus(before, corpus, order).table),
    decreases corpus.len(),
{
    if corpus.len() > 0 {
        let seq = corpus.last();
        training_keeps_suffixes(before, corpus.drop_last(), order);
        let mid = after_corpus(before, corpus.drop_last(), order).table;
        let end = after_corpus(before, corpus, order).table;
        if seq.len() >= 2 {
            let count = |c: Seq<V>, s: V| occurrences(seq, order, c, s);
            assert forall|c: Seq<V>| #[trigger]
                end.dom().contains(c) && c.len() >= 2 implies end.dom().contains(
                c.drop_first(),
            ) by {
                if !mid.dom().contains(c) {
                    let s = choose|s: V| #[trigger] count(c, s) > 0;
                    let i = lemma_follows_witness(seq, c, s, 0);
                    let d = c.drop_first();
                    assert(seq.subrange(i - d.len(), i) =~= d);
                    lemma_follows_counted(seq, d, s, 0, i);
                    assert(count(d, s) > 0);
                }
            }
        }
    }
}

/// Smoothing adds no row and removes none, so it keeps a table closed under
/// shortening a context from the front.
pub proof fn smoothing_keeps_suffixes<V>(
    table: Map<Seq<V>, Map<V, nat>>,
    known: Set<V>,
    prior: Option<u64>,
)
    requires
        suffix_closed(table),
    ensures
        suffix_closed(finished(table, known, prior)),
{
    let end = finished(table, known, prior);
    assert(end.dom() =~= table.dom());
    assert forall|c: Seq<V>| #[trigger]
        end.dom().contains(c) && c.len() >= 2 implies end.dom().contains(c.drop_first()) by {
        assert(table.dom().contains(c));
    }
}

/// In a table closed under shortening, a suffix of `seq` that has a row
/// means that the last state of `seq` has one.
proof fn lemma_last_state_has_row<V>(table: Map<Seq<V>, Map<V, nat>>, seq: Seq<V>, k: int)
    requires
        suffix_closed(table),
        1 <= k <= seq.len(),
        table.dom().contains(suffix(seq, k)),
    ensures
        table.dom().contains(suffix(seq, 1)),
    decreases k,
{
    if k > 1 {
        assert(suffix(seq, k).drop_first() =~= suffix(seq, k - 1));
        lemma_last_state_has_row(table, seq, k - 1);
    }
}

/// Dead ends. In a table that training made, back-off finds no model for a
/// sequence exactly when the last state of the sequence has no row: when it
/// was never seen with a state behind it.
pub proof fn no_model_means_last_state_unseen<V>(
    table: Map<Seq<V>, Map<V, nat>>,
    order: int,
    seq: Seq<V>,
)
    requires
        suffix_closed(table),
        order >= 1,
        seq.len() >= 1,
    ensures
        no_model(table, order, seq) <==> !table.dom().contains(suffix(seq, 1)),
{
    if !table.dom().contains(suffix(seq, 1)) {
        assert forall|k: int| usable_length(order, seq, k) implies !table.dom().contains(
            #[trigger] suffix(seq, k),
        ) by {
            if table.dom().contains(suffix(seq, k)) {
                lemma_last_state_has_row(table, seq, k);
            }
        }
    } else {
        assert(usable_length(order, seq, 1));
    }
}

/// Every roll falls to one entry. In a row that has an entry, a roll below
/// `ROLL_RANGE` falls to exactly one position, so a draw always yields a
/// state and the same roll always the same one.
pub proof fn every_roll_selects_one<V>(es: Seq<(V, nat)>, roll: nat, i: int)
    requires
        es.len() > 0,
        roll < ROLL_RANGE,
    ensures
        selects(es, roll, selected(es, roll)),
        selects(es, roll, i) ==> i == selected(es, roll),
{
    let k = lemma_selects_some(es, roll, 0);
    if selects(es, roll, i) {
        lemma_selects_unique(es, roll, i, selected(es, roll));
    }
}

/// The rolls that fall to the entry at position `i`.
pub open spec fn rolls_selecting<V>(es: Seq<(V, nat)>, i: int) -> Set<int> {
    Set::new(|m: int| 0 <= m < ROLL_RANGE && selects(es, m as nat, i))
}

/// A multiple of `w` is at most `x` exactly when the factor is at most `x / w`.
proof fn lemma_floor(x: int, w: int, m: int)
    requires
        w > 0,
        x >= 0,
    ensures
        m * w <= x <==> m <= x / w,
        (x / w) * w <= x < (x / w) * w + w,
{
    lemma_fundamental_div_mod(x, w);
    lemma_mod_bound(x, w);
    let q = x / w;
    assert(w * q == q * w) by (nonlinear_arith);
    if m <= q {
        assert(m * w <= q * w) by (nonlinear_arith)
            requires
                m <= q,
                w > 0,
        ;
    } else {
        assert(m * w >= q * w + w) by (nonlinear_arith)
            requires
                m >= q + 1,
                w > 0,
        ;
    }
}

/// Sampling follows the weights. Of the `ROLL_RANGE` rolls, the number that
/// fall to an entry is its share of the total weight, to within one roll:
/// the chance of an entry differs from weight over total by at most one
/// part in `ROLL_RANGE`.
pub proof fn selection_follows_weights<V>(es: Seq<(V, nat)>, i: int)
    requires
        0 <= i < es.len(),
        total_weight(es) > 0,
    ensures
        rolls_selecting(es, i).finite(),
        ROLL_RANGE * es[i].1 - total_weight(es) <= rolls_selecting(es, i).len() * total_weight(es)
            <= ROLL_RANGE * es[i].1 + total_weight(es),
{
    let range = ROLL_RANGE as int;
    let total = total_weight(es) as int;
    let lo = prefix_weight(es, i) as int;
    let hi = prefix_weight(es, i + 1) as int;
    let weight = es[i].1 as int;
    lemma_prefix_monotone(es, i + 1, es.len() as int);
    assert(hi == lo + weight);
    assert(range * hi == range * lo + range * weight) by (nonlinear_arith)
        requires
            hi == lo + weight,
    ;
    assert(0 <= range * lo && 0 <= range * hi <= range * total) by (nonlinear_arith)
        requires
            0 <= lo,
            0 <= hi <= total,
            range > 0,
    ;
    let a = (range * lo) / total;
    let b = (range * hi) / total;
    lemma_floor(range * lo, total, a);
    lemma_floor(range * hi, total, b);
    lemma_floor(range * hi, total, range);
    lemma_floor(range * lo, total, 0);
    lemma_floor(range * hi, total, 0);
    assert(0 * total == 0) by (nonlinear_arith);
    let upper = if b + 1 <= range {
        b + 1
    } else {
        range
    };
    let lower = if i == 0 {
        0
    } else {
        a + 1
    };
    lemma_floor(range * hi, total, a);
    assert(range * lo <= range * hi) by (nonlinear_arith)
        requires
            lo <= hi,
            range > 0,
    ;
    assert(a <= b);
    assert(b <= range) by (nonlinear_arith)
        requires
            b * total <= range * hi,
            range * hi <= range * total,
            total > 0,
    ;
    let rolls = rolls_selecting(es, i);
    assert forall|m: int| #[trigger] rolls.contains(m) <==> set_int_range(lower, upper).contains(
        m,
    ) by {
        lemma_floor(range * lo, total, m);
        lemma_floor(range * hi, total, m);
        if 0 <= m < range {
            assert((m as nat) * total_weight(es) == m * total);
        }
    }
    assert(rolls =~= set_int_range(lower, upper));
    assert((b + 1) * total == b * total + total) by (nonlinear_arith);
    assert((a + 1) * total == a * total + total) by (nonlinear_arith);
    if upper == range && b + 1 > range {
        assert(hi == total) by (nonlinear_arith)
            requires
                range * total <= range * hi,
                hi <= total,
                range > 0,
        ;
    }
    if lower <= upper {
        lemma_int_range(lower, upper);
        let count = upper - lower;
        assert(count * total == upper * total - lower * total) by (nonlinear_arith)
            requires
                count == upper - lower,
        ;
    } else {
        assert(rolls =~= Set::<int>::empty());
        assert(rolls.len() * total == 0) by (nonlinear_arith)
            requires
                rolls.len() == 0,
        ;
        assert(a >= range);
        lemma_floor(range * lo, total, range);
        assert(lo >= total) by (nonlinear_arith)
            requires
                range * total <= range * lo,
                range > 0,
        ;
    }
}

} // verus!
