use vstd::prelude::*;
use crate::keyed::{
    distinct_keys, has_key, index_of, lemma_to_map_at, lemma_to_map_empty, lemma_to_map_insert,
    lemma_to_map_update, to_map,
};
use crate::known::StateSet;
use crate::row::{smoothed_row, Row};
use crate::state::{
    duplicate_states, lemma_sequence_irreflexive, lemma_sequence_transitive, place,
    sequence_precedes, views, Placement, State,
};

verus! {

/// The weight of the transition from the context `c` to the state `s`; zero
/// where the table has no row for `c` or the row no entry for `s`.
pub open spec fn weight_in<V>(m: Map<Seq<V>, Map<V, nat>>, c: Seq<V>, s: V) -> nat {
    if m.dom().contains(c) && m[c].dom().contains(s) {
        m[c][s]
    } else {
        0
    }
}

/// The row of the context `c`; empty where the table has none.
pub open spec fn row_in<V>(m: Map<Seq<V>, Map<V, nat>>, c: Seq<V>) -> Map<V, nat> {
    if m.dom().contains(c) {
        m[c]
    } else {
        Map::empty()
    }
}

/// Every row has an entry, and every entry a weight above zero.
pub open spec fn sound<V>(m: Map<Seq<V>, Map<V, nat>>) -> bool {
    forall|c: Seq<V>| #[trigger]
        m.dom().contains(c) ==> {
            &&& exists|s: V| m[c].dom().contains(s)
            &&& forall|s: V| m[c].dom().contains(s) ==> #[trigger] m[c][s] > 0
        }
}

/// A table after smoothing: the same contexts, each row smoothed.
pub open spec fn smoothed<V>(m: Map<Seq<V>, Map<V, nat>>, known: Set<V>, p: nat) -> Map<
    Seq<V>,
    Map<V, nat>,
> {
    Map::new(|c: Seq<V>| m.dom().contains(c), |c: Seq<V>| smoothed_row(m[c], known, p))
}

/// Contexts strictly ascending in the lexicographic order of sequences of states.
pub open spec fn ascending_contexts<T: State>(es: Seq<(Seq<T::V>, Map<T::V, nat>)>) -> bool {
    forall|i: int, j: int|
        0 <= i < j < es.len() ==> sequence_precedes::<T>(
            (#[trigger] es[i]).0,
            (#[trigger] es[j]).0,
            0,
        )
}

/// Ascending contexts are distinct.
pub proof fn lemma_ascending_contexts_distinct<T: State>(es: Seq<(Seq<T::V>, Map<T::V, nat>)>)
    requires
        ascending_contexts::<T>(es),
    ensures
        distinct_keys(es),
{
    assert forall|i: int, j: int| 0 <= i < j < es.len() implies (#[trigger] es[i]).0 != (
    #[trigger] es[j]).0 by {
        lemma_sequence_irreflexive::<T>(es[i].0, 0);
    }
}

/// The transition table: for each context that was seen with a following
/// state, the row of the states that followed it.
pub struct TransitionTable<T> {
    rows: Vec<(Vec<T>, Row<T>)>,
}

impl<T: State> View for TransitionTable<T> {
    type V = Map<Seq<T::V>, Map<T::V, nat>>;

    open spec fn view(&self) -> Map<Seq<T::V>, Map<T::V, nat>> {
        to_map(self.rows())
    }
}

impl<T: State> TransitionTable<T> {
    /// The table's pairs of context and row, in the order of the contexts.
    pub closed spec fn rows(&self) -> Seq<(Seq<T::V>, Map<T::V, nat>)> {
        Seq::new(self.rows@.len(), |i: int| (views(self.rows@[i].0@), self.rows@[i].1@))
    }

    /// Each context has one row, and each row is well formed and has an entry.
    pub closed spec fn wf(&self) -> bool {
        &&& ascending_contexts::<T>(self.rows())
        &&& forall|i: int|
            0 <= i < self.rows@.len() ==> (#[trigger] self.rows@[i]).1.wf()
                && self.rows@[i].1.entries().len() > 0
    }

    /// What well-formedness means for the table as a map.
    pub proof fn lemma_sound(&self)
        requires
            self.wf(),
        ensures
            sound(self@),
    {
        let m = self@;
        lemma_ascending_contexts_distinct::<T>(self.rows());
        assert forall|c: Seq<T::V>| #[trigger] m.dom().contains(c) implies {
            &&& exists|s: T::V| m[c].dom().contains(s)
            &&& forall|s: T::V| m[c].dom().contains(s) ==> #[trigger] m[c][s] > 0
        } by {
            let i = index_of(self.rows(), c);
            lemma_to_map_at(self.rows(), i);
            self.rows@[i].1.lemma_sound();
        }
    }

    /// A table without rows.
    pub fn new() -> (table: Self)
        ensures
            table.wf(),
            table@ == Map::<Seq<T::V>, Map<T::V, nat>>::empty(),
    {
        let table = TransitionTable { rows: Vec::new() };
        proof {
            lemma_to_map_empty(table.rows());
        }
        table
    }

    /// The number of contexts that have a row.
    pub fn len(&self) -> (n: usize)
        ensures
            n == self.rows().len(),
    {
        self.rows.len()
    }

    /// Whether the table has no row.
    pub fn is_empty(&self) -> (b: bool)
        ensures
            b == (self.rows().len() == 0),
    {
        self.rows.len() == 0
    }

    /// The first position whose context does not come before `context`, and
    /// whether `context` stands there.
    fn locate(&self, context: &[T]) -> (r: (usize, bool))
        requires
            self.wf(),
        ensures
            r.0 <= self.rows().len(),
            forall|j: int|
                0 <= j < r.0 ==> sequence_precedes::<T>(
                    (#[trigger] self.rows()[j]).0,
                    views(context@),
                    0,
                ),
            r.1 ==> r.0 < self.rows().len() && self.rows()[r.0 as int].0 == views(context@),
            !r.1 ==> !has_key(self.rows(), views(context@)),
            !r.1 ==> forall|j: int|
                r.0 <= j < self.rows().len() ==> sequence_precedes::<T>(
                    views(context@),
                    (#[trigger] self.rows()[j]).0,
                    0,
                ),
    {
        let ghost c = views(context@);
        let ghost es = self.rows();
        let n = self.rows.len();
        let mut lo: usize = 0;
        let mut hi: usize = n;
        while lo < hi
            invariant
                n == self.rows@.len(),
                es == self.rows(),
                c == views(context@),
                lo <= hi <= n,
                self.wf(),
                forall|j: int| 0 <= j < lo ==> sequence_precedes::<T>((#[trigger] es[j]).0, c, 0),
                forall|j: int| hi <= j < n ==> sequence_precedes::<T>(c, (#[trigger] es[j]).0, 0),
            decreases hi - lo,
        {
            let mid = lo + (hi - lo) / 2;
            let ghost here = es[mid as int].0;
            match place(self.rows[mid].0.as_slice(), context) {
                Placement::Before => {
                    proof {
                        assert forall|j: int| 0 <= j < mid + 1 implies sequence_precedes::<T>(
                            (#[trigger] es[j]).0,
                            c,
                            0,
                        ) by {
                            if j < mid {
                                lemma_sequence_transitive::<T>(es[j].0, here, c, 0);
                            }
                        }
                    }
                    lo = mid + 1;
                },
                Placement::Same => {
                    return (mid, true);
                },
                Placement::After => {
                    proof {
                        assert forall|j: int| mid <= j < n implies sequence_precedes::<T>(
                            c,
                            (#[trigger] es[j]).0,
                            0,
                        ) by {
                            if j > mid {
                                lemma_sequence_transitive::<T>(c, here, es[j].0, 0);
                            }
                        }
                    }
                    hi = mid;
                },
            }
        }
        proof {
            assert forall|j: int| 0 <= j < n implies (#[trigger] es[j]).0 != c by {
                lemma_sequence_irreflexive::<T>(c, 0);
            }
        }
        (lo, false)
    }

    /// The position of the row of `context`, if it has one.
    fn find(&self, context: &[T]) -> (r: Option<usize>)
        requires
            self.wf(),
        ensures
            r is Some <==> self@.dom().contains(views(context@)),
            r is Some ==> r->0 < self.rows().len() && self.rows()[r->0 as int].0 == views(
                context@,
            ),
            r is Some ==> self@[views(context@)] == self.rows()[r->0 as int].1,
    {
        let (i, found) = self.locate(context);
        if found {
            proof {
                lemma_ascending_contexts_distinct::<T>(self.rows());
                lemma_to_map_at(self.rows(), i as int);
            }
            Some(i)
        } else {
            None
        }
    }

    /// Whether `context` has a row.
    pub fn contains_key(&self, context: &[T]) -> (b: bool)
        requires
            self.wf(),
        ensures
            b == self@.dom().contains(views(context@)),
    {
        self.find(context).is_some()
    }

    /// The row of `context`, if it has one.
    pub fn get(&self, context: &[T]) -> (r: Option<&Row<T>>)
        requires
            self.wf(),
        ensures
            r is Some <==> self@.dom().contains(views(context@)),
            r is Some ==> r->0@ == self@[views(context@)] && r->0.wf() && r->0.entries().len()
                > 0,
    {
        match self.find(context) {
            Some(i) => Some(&self.rows[i].1),
            None => None,
        }
    }

    /// Adds `amount` to the weight of the transition from `context` to `next`,
    /// with a new row or a new entry where there was none.
    pub fn record(&mut self, context: &[T], next: &T, amount: u64)
        requires
            old(self).wf(),
            amount > 0,
            weight_in(old(self)@, views(context@), next@) + amount <= u64::MAX,
        ensures
            final(self).wf(),
            final(self)@ == old(self)@.insert(
                views(context@),
                row_in(old(self)@, views(context@)).insert(
                    next@,
                    (weight_in(old(self)@, views(context@), next@) + amount) as nat,
                ),
            ),
    {
        let ghost c = views(context@);
        let (i, found) = self.locate(context);
        proof {
            lemma_ascending_contexts_distinct::<T>(self.rows());
        }
        if found {
            proof {
                lemma_to_map_at(self.rows(), i as int);
            }
            self.rows[i].1.add(next, amount);
            proof {
                let es = old(self).rows();
                let row = self.rows@[i as int].1;
                lemma_to_map_update(es, i as int, row@);
                assert(self.rows() =~= es.update(i as int, (c, row@)));
                row.lemma_holds(next@);
                assert forall|a: int, b: int| 0 <= a < b < self.rows().len() implies
                    sequence_precedes::<T>(
                    (#[trigger] self.rows()[a]).0,
                    (#[trigger] self.rows()[b]).0,
                    0,
                ) by {
                    assert(self.rows()[a].0 == es[a].0 && self.rows()[b].0 == es[b].0);
                }
            }
        } else {
            let mut row: Row<T> = Row::new();
            row.add(next, amount);
            let key = duplicate_states(context);
            self.rows.insert(i, (key, row));
            proof {
                let es = old(self).rows();
                let fs = self.rows();
                lemma_to_map_insert(es, i as int, c, row@);
                assert(fs =~= es.insert(i as int, (c, row@)));
                row.lemma_holds(next@);
                assert forall|a: int, b: int| 0 <= a < b < fs.len() implies sequence_precedes::<T>(
                    (#[trigger] fs[a]).0,
                    (#[trigger] fs[b]).0,
                    0,
                ) by {
                    let x = if a < i { a } else { a - 1 };
                    let y = if b < i { b } else { b - 1 };
                    if a == i {
                        assert(fs[b] == es[y]);
                    } else if b == i {
                        assert(fs[a] == es[x]);
                    } else {
                        assert(fs[a] == es[x] && fs[b] == es[y]);
                    }
                }
                assert forall|k: int| 0 <= k < self.rows@.len() implies (
                #[trigger] self.rows@[k]).1.wf() && self.rows@[k].1.entries().len() > 0 by {
                    if k < i {
                        assert(self.rows@[k] == old(self).rows@[k]);
                    } else if k > i {
                        assert(self.rows@[k] == old(self).rows@[k - 1]);
                    }
                }
            }
        }
    }

    /// Smooths every row: each state of `known` that a row has no entry for
    /// gets one of weight `p` there.
    pub fn smooth(&mut self, known: &StateSet<T>, p: u64)
        requires
            old(self).wf(),
            p > 0,
        ensures
            final(self).wf(),
            final(self)@ == smoothed(old(self)@, known@, p as nat),
    {
        let n = self.rows.len();
        let mut i: usize = 0;
        while i < n
            invariant
                n == self.rows@.len(),
                n == old(self).rows@.len(),
                i <= n,
                p > 0,
                self.wf(),
                old(self).wf(),
                forall|k: int| 0 <= k < n ==> (#[trigger] self.rows()[k]).0 == old(self).rows()[k].0,
                forall|k: int|
                    0 <= k < i ==> (#[trigger] self.rows()[k]).1 == smoothed_row(
                        old(self).rows()[k].1,
                        known@,
                        p as nat,
                    ),
                forall|k: int| i <= k < n ==> (#[trigger] self.rows()[k]).1 == old(self).rows()[k].1,
            decreases n - i,
        {
            let ghost before = self.rows();
            self.rows[i].1.smooth(known, p);
            proof {
                let row = self.rows@[i as int].1;
                assert(self.rows() =~= before.update(i as int, (before[i as int].0, row@)));
                assert(row.entries().len() > 0) by {
                    old(self).rows@[i as int].1.lemma_sound();
                    let s = choose|s: T::V| old(self).rows@[i as int].1@.dom().contains(s);
                    assert(row@.dom().contains(s));
                    row.lemma_holds(s);
                }
                assert(ascending_contexts::<T>(self.rows())) by {
                    assert forall|a: int, b: int| 0 <= a < b < self.rows().len() implies
                        sequence_precedes::<T>(
                        (#[trigger] self.rows()[a]).0,
                        (#[trigger] self.rows()[b]).0,
                        0,
                    ) by {
                        assert(self.rows()[a].0 == old(self).rows()[a].0);
                        assert(self.rows()[b].0 == old(self).rows()[b].0);
                    }
                }
            }
            i = i + 1;
        }
        proof {
            let es = old(self).rows();
            let fs = self.rows();
            let want = smoothed(old(self)@, known@, p as nat);
            lemma_ascending_contexts_distinct::<T>(es);
            lemma_ascending_contexts_distinct::<T>(fs);
            assert forall|c: Seq<T::V>| #[trigger] has_key(fs, c) <==> has_key(es, c) by {
                if has_key(fs, c) {
                    let k = index_of(fs, c);
                    assert(es[k].0 == c);
                }
                if has_key(es, c) {
                    let k = index_of(es, c);
                    assert(fs[k].0 == c);
                }
            }
            assert forall|c: Seq<T::V>| has_key(fs, c) implies #[trigger] self@[c] == want[c] by {
                let k = index_of(fs, c);
                lemma_to_map_at(fs, k);
                assert(es[k].0 == c);
                lemma_to_map_at(es, k);
            }
            assert(self@ =~= want);
        }
    }
}

} // verus!
