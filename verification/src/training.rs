use vstd::prelude::*;
use crate::table::{row_in, weight_in};

verus! {

/// The weight that one observed transition adds. Weights are counted in
/// millionths of an observation, so that a prior can be a fraction of one.
pub const ONE: u64 = 1_000_000;

/// The number of transitions that a builder can observe before a weight could
/// leave `u64`.
pub const CAPACITY: u64 = 18_446_744_073_709;

/// Whether, at position `i` of `seq`, the state `s` stands right behind the context `c`.
pub open spec fn follows_at<V>(seq: Seq<V>, c: Seq<V>, s: V, i: int) -> bool {
    &&& 1 <= c.len() <= i < seq.len()
    &&& seq.subrange(i - c.len(), i) == c
    &&& seq[i] == s
}

/// The number of positions of `seq`, from `from` on, at which `s` stands right behind `c`.
pub open spec fn follows_from<V>(seq: Seq<V>, c: Seq<V>, s: V, from: int) -> nat
    decreases seq.len() - from,
{
    if from >= seq.len() {
        0
    } else {
        follows_from(seq, c, s, from + 1) + if follows_at(seq, c, s, from) {
            1nat
        } else {
            0nat
        }
    }
}

/// How often training on `seq` with the given order observes the transition
/// from `c` to `s`: the number of times `s` stands right behind `c` in `seq`,
/// for a context of at most `order` states.
pub open spec fn occurrences<V>(seq: Seq<V>, order: int, c: Seq<V>, s: V) -> nat {
    if c.len() <= order {
        follows_from(seq, c, s, 0)
    } else {
        0
    }
}

/// The states of `seq` from position `from` on.
pub open spec fn symbols_from<V>(seq: Seq<V>, from: int) -> Set<V> {
    Set::new(|v: V| exists|k: int| 0 <= from <= k < seq.len() && #[trigger] seq[k] == v)
}

/// The table `m` with `count(c, s)` more observations of each transition from `c` to `s`.
pub open spec fn plus<V>(m: Map<Seq<V>, Map<V, nat>>, count: spec_fn(Seq<V>, V) -> nat) -> Map<
    Seq<V>,
    Map<V, nat>,
> {
    Map::new(
        |c: Seq<V>| m.dom().contains(c) || exists|s: V| #[trigger] count(c, s) > 0,
        |c: Seq<V>|
            Map::new(
                |s: V| row_in(m, c).dom().contains(s) || count(c, s) > 0,
                |s: V| (weight_in(m, c, s) + ONE * count(c, s)) as nat,
            ),
    )
}

/// What a builder has learned: the transition table, the known states, and
/// the number of transitions it has observed.
#[verifier::reject_recursive_types(V)]
pub ghost struct Learned<V> {
    pub table: Map<Seq<V>, Map<V, nat>>,
    pub known: Set<V>,
    pub observed: nat,
}

/// What is learned after one more training sequence. A sequence of fewer
/// than two states changes nothing.
pub open spec fn after_sequence<V>(before: Learned<V>, seq: Seq<V>, order: int) -> Learned<V> {
    if seq.len() < 2 {
        before
    } else {
        Learned {
            table: plus(before.table, |c: Seq<V>, s: V| occurrences(seq, order, c, s)),
            known: before.known.union(symbols_from(seq, 0)),
            observed: (before.observed + seq.len() - 1) as nat,
        }
    }
}

/// What is learned after each sequence of `corpus` in turn.
pub open spec fn after_corpus<V>(before: Learned<V>, corpus: Seq<Seq<V>>, order: int) -> Learned<V>
    decreases corpus.len(),
{
    if corpus.len() == 0 {
        before
    } else {
        after_sequence(after_corpus(before, corpus.drop_last(), order), corpus.last(), order)
    }
}

/// The number of sequences of `corpus` that are long enough to train on.
pub open spec fn usable<V>(corpus: Seq<Seq<V>>) -> nat
    decreases corpus.len(),
{
    if corpus.len() == 0 {
        0
    } else {
        usable(corpus.drop_last()) + if corpus.last().len() >= 2 {
            1nat
        } else {
            0nat
        }
    }
}

/// The number of transitions that training on `corpus` observes.
pub open spec fn load<V>(corpus: Seq<Seq<V>>) -> nat
    decreases corpus.len(),
{
    if corpus.len() == 0 {
        0
    } else {
        load(corpus.drop_last()) + if corpus.last().len() >= 2 {
            (corpus.last().len() - 1) as nat
        } else {
            0nat
        }
    }
}

/// The observations counted while a sequence is being scanned from its end:
/// every position behind `i`, and position `i` for the contexts of at most `l` states.
pub open spec fn tally<V>(seq: Seq<V>, order: int, c: Seq<V>, s: V, i: int, l: int) -> nat {
    let behind = if c.len() <= order {
        follows_from(seq, c, s, i + 1)
    } else {
        0
    };
    let here = if c.len() <= l && follows_at(seq, c, s, i) {
        1nat
    } else {
        0nat
    };
    behind + here
}

/// No more positions can match than there are.
pub proof fn lemma_follows_bound<V>(seq: Seq<V>, c: Seq<V>, s: V, from: int)
    requires
        0 <= from,
    ensures
        follows_from(seq, c, s, from) <= if from <= seq.len() {
            seq.len() - from
        } else {
            0
        },
        from == 0 && seq.len() > 0 ==> follows_from(seq, c, s, from) <= seq.len() - 1,
    decreases seq.len() - from,
{
    if from < seq.len() {
        lemma_follows_bound(seq, c, s, from + 1);
    }
}

/// The weight of a transition after more observations is its weight before
/// with `ONE` added for each of them.
pub proof fn lemma_plus_weight<V>(
    m: Map<Seq<V>, Map<V, nat>>,
    count: spec_fn(Seq<V>, V) -> nat,
    c: Seq<V>,
    s: V,
)
    ensures
        weight_in(plus(m, count), c, s) == weight_in(m, c, s) + ONE * count(c, s),
{
    let p = plus(m, count);
    if p.dom().contains(c) {
        if !p[c].dom().contains(s) {
            assert(count(c, s) == 0);
        }
    } else {
        assert(count(c, s) == 0);
    }
}

/// Adding no observation leaves the table as it is, where every row has an entry.
pub proof fn lemma_plus_nothing<V>(m: Map<Seq<V>, Map<V, nat>>, count: spec_fn(Seq<V>, V) -> nat)
    requires
        forall|c: Seq<V>, s: V| #[trigger] count(c, s) == 0,
    ensures
        plus(m, count) == m,
{
    let p = plus(m, count);
    assert forall|c: Seq<V>| #[trigger] p.dom().contains(c) <==> m.dom().contains(c) by {
        if p.dom().contains(c) && !m.dom().contains(c) {
            let s = choose|s: V| #[trigger] count(c, s) > 0;
            assert(count(c, s) == 0);
        }
    }
    assert forall|c: Seq<V>| p.dom().contains(c) implies #[trigger] p[c] =~= m[c] by {
        assert forall|s: V| #[trigger] p[c].dom().contains(s) <==> m[c].dom().contains(s) by {
            assert(count(c, s) == 0);
        }
        assert forall|s: V| p[c].dom().contains(s) implies #[trigger] p[c][s] == m[c][s] by {
            assert(count(c, s) == 0);
        }
    }
    assert(p =~= m);
}

/// Two counts that agree everywhere add the same observations.
pub proof fn lemma_plus_same<V>(
    m: Map<Seq<V>, Map<V, nat>>,
    f: spec_fn(Seq<V>, V) -> nat,
    g: spec_fn(Seq<V>, V) -> nat,
)
    requires
        forall|c: Seq<V>, s: V| #[trigger] f(c, s) == g(c, s),
    ensures
        plus(m, f) == plus(m, g),
{
    let p = plus(m, f);
    let q = plus(m, g);
    assert forall|c: Seq<V>| #[trigger] p.dom().contains(c) <==> q.dom().contains(c) by {
        if exists|s: V| #[trigger] f(c, s) > 0 {
            let s = choose|s: V| #[trigger] f(c, s) > 0;
            assert(g(c, s) > 0);
        }
        if exists|s: V| #[trigger] g(c, s) > 0 {
            let s = choose|s: V| #[trigger] g(c, s) > 0;
            assert(f(c, s) == g(c, s));
        }
    }
    assert forall|c: Seq<V>| p.dom().contains(c) implies #[trigger] p[c] =~= q[c] by {
        assert forall|s: V| #[trigger] p[c].dom().contains(s) <==> q[c].dom().contains(s) by {
            assert(f(c, s) == g(c, s));
        }
        assert forall|s: V| p[c].dom().contains(s) implies #[trigger] p[c][s] == q[c][s] by {
            assert(f(c, s) == g(c, s));
        }
    }
    assert(p =~= q);
}

/// Recording one more observation of the transition from `c0` to `s0` in a
/// table that holds the observations counted by `f` gives the table that
/// holds those counted by `g`, where `g` counts that one more.
pub proof fn lemma_plus_step<V>(
    m: Map<Seq<V>, Map<V, nat>>,
    f: spec_fn(Seq<V>, V) -> nat,
    g: spec_fn(Seq<V>, V) -> nat,
    c0: Seq<V>,
    s0: V,
)
    requires
        forall|c: Seq<V>, s: V|
            #[trigger] g(c, s) == f(c, s) + if c == c0 && s == s0 {
                1nat
            } else {
                0nat
            },
    ensures
        plus(m, f).insert(
            c0,
            row_in(plus(m, f), c0).insert(s0, (weight_in(plus(m, f), c0, s0) + ONE) as nat),
        ) == plus(m, g),
{
    let cur = plus(m, f);
    let next = cur.insert(c0, row_in(cur, c0).insert(s0, (weight_in(cur, c0, s0) + ONE) as nat));
    let want = plus(m, g);
    lemma_plus_weight(m, f, c0, s0);
    assert(g(c0, s0) == f(c0, s0) + 1);
    assert forall|c: Seq<V>| #[trigger] next.dom().contains(c) <==> want.dom().contains(c) by {
        if c != c0 {
            if exists|s: V| #[trigger] f(c, s) > 0 {
                let s = choose|s: V| #[trigger] f(c, s) > 0;
                assert(g(c, s) == f(c, s));
            }
            if exists|s: V| #[trigger] g(c, s) > 0 {
                let s = choose|s: V| #[trigger] g(c, s) > 0;
                assert(g(c, s) == f(c, s));
            }
        }
    }
    assert forall|c: Seq<V>| next.dom().contains(c) implies #[trigger] next[c] =~= want[c] by {
        assert forall|s: V| #[trigger] next[c].dom().contains(s) <==> want[c].dom().contains(
            s,
        ) by {
            assert(g(c, s) == f(c, s) + if c == c0 && s == s0 {
                1nat
            } else {
                0nat
            });
        }
        assert forall|s: V| next[c].dom().contains(s) implies #[trigger] next[c][s]
            == want[c][s] by {
            assert(g(c, s) == f(c, s) + if c == c0 && s == s0 {
                1nat
            } else {
                0nat
            });
            lemma_plus_weight(m, f, c, s);
            assert(ONE * (f(c, s) + 1) == ONE * f(c, s) + ONE) by (nonlinear_arith);
        }
    }
    assert(next =~= want);
}

/// Training on the first sequences of a corpus observes no more than training on all of it.
pub proof fn lemma_load_prefix<V>(corpus: Seq<Seq<V>>, k: int)
    requires
        0 <= k <= corpus.len(),
    ensures
        load(corpus.take(k)) <= load(corpus),
    decreases corpus.len() - k,
{
    if k == corpus.len() {
        assert(corpus.take(k) =~= corpus);
    } else {
        lemma_load_prefix(corpus, k + 1);
        assert(corpus.take(k + 1).drop_last() =~= corpus.take(k));
    }
}

/// The transitions observed after a corpus are those observed before and those of the corpus.
pub proof fn lemma_observed<V>(before: Learned<V>, corpus: Seq<Seq<V>>, order: int)
    ensures
        after_corpus(before, corpus, order).observed == before.observed + load(corpus),
    decreases corpus.len(),
{
    if corpus.len() > 0 {
        lemma_observed(before, corpus.drop_last(), order);
    }
}

/// Where the count from `from` on is above zero, the state stands behind the
/// context at some position from `from` on.
pub proof fn lemma_follows_witness<V>(seq: Seq<V>, c: Seq<V>, s: V, from: int) -> (i: int)
    requires
        0 <= from,
        follows_from(seq, c, s, from) > 0,
    ensures
        from <= i,
        follows_at(seq, c, s, i),
    decreases seq.len() - from,
{
    if follows_at(seq, c, s, from) {
        from
    } else {
        lemma_follows_witness(seq, c, s, from + 1)
    }
}

/// Where the state stands behind the context at a position, the count from
/// any earlier position on is above zero.
pub proof fn lemma_follows_counted<V>(seq: Seq<V>, c: Seq<V>, s: V, from: int, i: int)
    requires
        0 <= from <= i,
        follows_at(seq, c, s, i),
    ensures
        follows_from(seq, c, s, from) > 0,
    decreases i - from,
{
    if from < i {
        lemma_follows_counted(seq, c, s, from + 1, i);
    }
}

/// The states from position `i` on are the state at `i` and those behind it.
pub proof fn lemma_symbols_step<V>(seq: Seq<V>, i: int)
    requires
        0 <= i < seq.len(),
    ensures
        symbols_from(seq, i) == symbols_from(seq, i + 1).insert(seq[i]),
{
    let a = symbols_from(seq, i);
    let b = symbols_from(seq, i + 1).insert(seq[i]);
    assert forall|v: V| #[trigger] a.contains(v) <==> b.contains(v) by {
        if a.contains(v) {
            let k = choose|k: int| 0 <= i <= k < seq.len() && #[trigger] seq[k] == v;
            if k > i {
                assert(symbols_from(seq, i + 1).contains(v));
            }
        }
        if symbols_from(seq, i + 1).contains(v) {
            let k = choose|k: int| 0 <= i + 1 <= k < seq.len() && #[trigger] seq[k] == v;
            assert(seq[k] == v);
        }
        if v == seq[i] {
            assert(seq[i] == v);
        }
    }
    assert(a =~= b);
}

} // verus!
