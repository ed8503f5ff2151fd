use vstd::prelude::*;
use crate::keyed::{
    distinct_keys, has_key, index_of, lemma_to_map_at, lemma_to_map_empty, lemma_to_map_insert,
    lemma_to_map_update, to_map,
};
use crate::known::{among, StateSet};
use crate::state::State;

verus! {

/// Keys strictly ascending in the order of the states.
pub open spec fn ascending<T: State>(es: Seq<(T::V, nat)>) -> bool {
    forall|i: int, j: int|
        0 <= i < j < es.len() ==> T::precedes((#[trigger] es[i]).0, (#[trigger] es[j]).0)
}

/// Every weight is above zero.
pub open spec fn positive<V>(es: Seq<(V, nat)>) -> bool {
    forall|i: int| 0 <= i < es.len() ==> (#[trigger] es[i]).1 > 0
}

/// Ascending keys are distinct.
pub proof fn lemma_ascending_distinct<T: State>(es: Seq<(T::V, nat)>)
    requires
        ascending::<T>(es),
    ensures
        distinct_keys(es),
{
    assert forall|i: int, j: int| 0 <= i < j < es.len() implies (#[trigger] es[i]).0 != (
    #[trigger] es[j]).0 by {
        T::order_laws(es[i].0, es[j].0, es[j].0);
    }
}

/// Two ascending sequences that stand for the same map are the same sequence:
/// the order of the states fixes the order of a row's entries.
pub proof fn lemma_order_determined<T: State>(a: Seq<(T::V, nat)>, b: Seq<(T::V, nat)>)
    requires
        ascending::<T>(a),
        ascending::<T>(b),
        to_map(a) == to_map(b),
    ensures
        a == b,
    decreases a.len(),
{
    lemma_ascending_distinct::<T>(a);
    lemma_ascending_distinct::<T>(b);
    if a.len() == 0 {
        if b.len() > 0 {
            lemma_to_map_at(b, 0);
            assert(to_map(a).dom().contains(b[0].0));
        }
        assert(a =~= b);
    } else {
        lemma_to_map_at(a, 0);
        assert(to_map(b).dom().contains(a[0].0));
        let j = index_of(b, a[0].0);
        lemma_to_map_at(b, 0);
        assert(to_map(a).dom().contains(b[0].0));
        let k = index_of(a, b[0].0);
        if j > 0 {
            assert(T::precedes(b[0].0, b[j].0));
            if k > 0 {
                assert(T::precedes(a[0].0, a[k].0));
                T::order_laws(a[0].0, b[0].0, a[0].0);
            }
            T::order_laws(a[0].0, a[0].0, a[0].0);
        }
        assert(a[0].0 == b[0].0);
        assert(a[0].1 == b[0].1);
        let x = a.drop_first();
        let y = b.drop_first();
        assert(ascending::<T>(x)) by {
            assert forall|i: int, j: int| 0 <= i < j < x.len() implies T::precedes(
                (#[trigger] x[i]).0,
                (#[trigger] x[j]).0,
            ) by {
                assert(x[i] == a[i + 1] && x[j] == a[j + 1]);
            }
        }
        assert(ascending::<T>(y)) by {
            assert forall|i: int, j: int| 0 <= i < j < y.len() implies T::precedes(
                (#[trigger] y[i]).0,
                (#[trigger] y[j]).0,
            ) by {
                assert(y[i] == b[i + 1] && y[j] == b[j + 1]);
            }
        }
        lemma_ascending_distinct::<T>(x);
        lemma_ascending_distinct::<T>(y);
        assert(!has_key(x, a[0].0)) by {
            if has_key(x, a[0].0) {
                let i = index_of(x, a[0].0);
                assert(x[i] == a[i + 1]);
            }
        }
        assert(!has_key(y, b[0].0)) by {
            if has_key(y, b[0].0) {
                let i = index_of(y, b[0].0);
                assert(y[i] == b[i + 1]);
            }
        }
        lemma_to_map_insert(x, 0, a[0].0, a[0].1);
        lemma_to_map_insert(y, 0, b[0].0, b[0].1);
        assert(x.insert(0, a[0]) =~= a);
        assert(y.insert(0, b[0]) =~= b);
        assert(to_map(x) =~= to_map(a).remove(a[0].0));
        assert(to_map(y) =~= to_map(b).remove(b[0].0));
        lemma_order_determined::<T>(x, y);
        assert(a =~= b);
    }
}

/// The entries of a row in the order of the states.
pub open spec fn in_order<T: State>(row: Map<T::V, nat>) -> Seq<(T::V, nat)> {
    choose|es: Seq<(T::V, nat)>| ascending::<T>(es) && to_map(es) == row
}

/// A row after smoothing: every known state that had no entry has one of
/// weight `p`, and the entries that were there are as they were.
pub open spec fn smoothed_row<V>(row: Map<V, nat>, known: Set<V>, p: nat) -> Map<V, nat> {
    Map::new(
        |s: V| row.dom().contains(s) || known.contains(s),
        |s: V|
            if row.dom().contains(s) {
                row[s]
            } else {
                p
            },
    )
}

/// The weights with which the states that followed one context were seen:
/// a finite map from state to weight, enumerated in the order of the states.
pub struct Row<T> {
    entries: Vec<(T, u64)>,
}

impl<T: State> View for Row<T> {
    type V = Map<T::V, nat>;

    open spec fn view(&self) -> Map<T::V, nat> {
        to_map(self.entries())
    }
}

impl<T: State> Row<T> {
    /// The row's pairs of state and weight, in the order of the states.
    pub closed spec fn entries(&self) -> Seq<(T::V, nat)> {
        Seq::new(self.entries@.len(), |i: int| (self.entries@[i].0@, self.entries@[i].1 as nat))
    }

    /// Ascending by state, each state once, every weight positive and within `u64`.
    pub open spec fn wf(&self) -> bool {
        &&& ascending::<T>(self.entries())
        &&& positive(self.entries())
        &&& forall|i: int|
            0 <= i < self.entries().len() ==> (#[trigger] self.entries()[i]).1 <= u64::MAX
    }

    /// The weight of `k` in this row; zero where the row has no entry for it.
    pub open spec fn weight(&self, k: T::V) -> nat {
        if self@.dom().contains(k) {
            self@[k]
        } else {
            0
        }
    }

    /// In a well-formed row every entry has a weight above zero.
    pub proof fn lemma_sound(&self)
        requires
            self.wf(),
        ensures
            forall|s: T::V| self@.dom().contains(s) ==> #[trigger] self@[s] > 0,
            self.entries().len() > 0 ==> exists|s: T::V| self@.dom().contains(s),
    {
        lemma_ascending_distinct::<T>(self.entries());
        assert forall|s: T::V| self@.dom().contains(s) implies #[trigger] self@[s] > 0 by {
            let i = index_of(self.entries(), s);
            lemma_to_map_at(self.entries(), i);
        }
        if self.entries().len() > 0 {
            lemma_to_map_at(self.entries(), 0);
            assert(self@.dom().contains(self.entries()[0].0));
        }
    }

    /// The entries of a well-formed row are those of its map, in the order of the states.
    pub proof fn lemma_in_order(&self)
        requires
            self.wf(),
        ensures
            self.entries() == in_order::<T>(self@),
    {
        let es = in_order::<T>(self@);
        assert(ascending::<T>(self.entries()) && to_map(self.entries()) == self@);
        lemma_order_determined::<T>(self.entries(), es);
    }

    /// A row that holds a key has an entry.
    pub proof fn lemma_holds(&self, s: T::V)
        requires
            self@.dom().contains(s),
        ensures
            self.entries().len() > 0,
    {
        let i = index_of(self.entries(), s);
    }

    /// A row without entries.
    pub fn new() -> (row: Self)
        ensures
            row.wf(),
            row.entries().len() == 0,
            row@ == Map::<T::V, nat>::empty(),
    {
        let row = Row { entries: Vec::new() };
        proof {
            lemma_to_map_empty(row.entries());
        }
        row
    }

    /// The number of states that have an entry.
    pub fn len(&self) -> (n: usize)
        ensures
            n == self.entries().len(),
    {
        self.entries.len()
    }

    /// Whether the row has no entry.
    pub fn is_empty(&self) -> (b: bool)
        ensures
            b == (self.entries().len() == 0),
    {
        self.entries.len() == 0
    }

    /// The state of the entry at position `i` in the order of the states.
    pub fn state_at(&self, i: usize) -> (s: &T)
        requires
            i < self.entries().len(),
        ensures
            s@ == self.entries()[i as int].0,
    {
        &self.entries[i].0
    }

    /// The weight of the entry at position `i` in the order of the states.
    pub fn weight_at(&self, i: usize) -> (w: u64)
        requires
            i < self.entries().len(),
        ensures
            w == self.entries()[i as int].1,
    {
        self.entries[i].1
    }

    /// The first position whose state does not come before `s`, and whether `s` stands there.
    fn locate(&self, s: &T) -> (r: (usize, bool))
        requires
            self.wf(),
        ensures
            r.0 <= self.entries().len(),
            forall|j: int| 0 <= j < r.0 ==> T::precedes((#[trigger] self.entries()[j]).0, s@),
            r.1 ==> r.0 < self.entries().len() && self.entries()[r.0 as int].0 == s@,
            !r.1 ==> !has_key(self.entries(), s@),
            !r.1 ==> forall|j: int|
                r.0 <= j < self.entries().len() ==> T::precedes(
                    s@,
                    (#[trigger] self.entries()[j]).0,
                ),
    {
        let ghost es = self.entries();
        let n = self.entries.len();
        let mut lo: usize = 0;
        let mut hi: usize = n;
        while lo < hi
            invariant
                n == self.entries@.len(),
                es == self.entries(),
                lo <= hi <= n,
                self.wf(),
                forall|j: int| 0 <= j < lo ==> T::precedes((#[trigger] es[j]).0, s@),
                forall|j: int| hi <= j < n ==> T::precedes(s@, (#[trigger] es[j]).0),
            decreases hi - lo,
        {
            let mid = lo + (hi - lo) / 2;
            let ghost here = es[mid as int].0;
            if self.entries[mid].0.before(s) {
                proof {
                    assert forall|j: int| 0 <= j < mid + 1 implies T::precedes(
                        (#[trigger] es[j]).0,
                        s@,
                    ) by {
                        if j < mid {
                            T::order_laws(es[j].0, here, s@);
                        }
                    }
                }
                lo = mid + 1;
            } else if s.before(&self.entries[mid].0) {
                proof {
                    assert forall|j: int| mid <= j < n implies T::precedes(
                        s@,
                        (#[trigger] es[j]).0,
                    ) by {
                        if j > mid {
                            T::order_laws(s@, here, es[j].0);
                        }
                    }
                }
                hi = mid;
            } else {
                proof {
                    T::order_laws(here, s@, s@);
                }
                return (mid, true);
            }
        }
        proof {
            assert forall|j: int| 0 <= j < n implies (#[trigger] es[j]).0 != s@ by {
                T::order_laws(s@, s@, s@);
            }
        }
        (lo, false)
    }

    /// Whether the row has an entry for `s`.
    pub fn contains_key(&self, s: &T) -> (b: bool)
        requires
            self.wf(),
        ensures
            b == self@.dom().contains(s@),
    {
        let (_, found) = self.locate(s);
        found
    }

    /// The weight that the row holds for `s`, if it has an entry for it.
    pub fn get(&self, s: &T) -> (w: Option<u64>)
        requires
            self.wf(),
        ensures
            w is Some <==> self@.dom().contains(s@),
            w is Some ==> w->0 == self@[s@],
            w is Some ==> w->0 > 0,
    {
        let (i, found) = self.locate(s);
        if found {
            proof {
                lemma_ascending_distinct::<T>(self.entries());
                lemma_to_map_at(self.entries(), i as int);
            }
            Some(self.entries[i].1)
        } else {
            None
        }
    }

    /// Adds `amount` to the weight of `s`, with a new entry where the row had none.
    pub fn add(&mut self, s: &T, amount: u64)
        requires
            old(self).wf(),
            amount > 0,
            old(self).weight(s@) + amount <= u64::MAX,
        ensures
            final(self).wf(),
            final(self)@ == old(self)@.insert(s@, (old(self).weight(s@) + amount) as nat),
    {
        let (i, found) = self.locate(s);
        proof {
            lemma_ascending_distinct::<T>(self.entries());
        }
        if found {
            proof {
                lemma_to_map_at(self.entries(), i as int);
            }
            let w = self.entries[i].1;
            self.entries[i].1 = w + amount;
            proof {
                let es = old(self).entries();
                lemma_to_map_update(es, i as int, (w + amount) as nat);
                assert(self.entries() =~= es.update(
                    i as int,
                    (es[i as int].0, (w + amount) as nat),
                ));
            }
        } else {
            self.entries.insert(i, (s.duplicate(), amount));
            proof {
                let es = old(self).entries();
                lemma_to_map_insert(es, i as int, s@, amount as nat);
                assert(self.entries() =~= es.insert(i as int, (s@, amount as nat)));
            }
        }
    }

    /// Gives `s` the weight `w` where the row has no entry for it, and changes
    /// nothing where it has.
    pub fn or_insert(&mut self, s: &T, w: u64)
        requires
            old(self).wf(),
            w > 0,
        ensures
            final(self).wf(),
            old(self)@.dom().contains(s@) ==> final(self)@ == old(self)@,
            !old(self)@.dom().contains(s@) ==> final(self)@ == old(self)@.insert(s@, w as nat),
    {
        let (i, found) = self.locate(s);
        if !found {
            self.entries.insert(i, (s.duplicate(), w));
            proof {
                let es = old(self).entries();
                lemma_ascending_distinct::<T>(es);
                lemma_to_map_insert(es, i as int, s@, w as nat);
                assert(self.entries() =~= es.insert(i as int, (s@, w as nat)));
            }
        } else {
            assert(self.entries() =~= old(self).entries());
        }
    }

    /// Gives every state of `known` that has no entry one of weight `p`.
    pub fn smooth(&mut self, known: &StateSet<T>, p: u64)
        requires
            old(self).wf(),
            p > 0,
        ensures
            final(self).wf(),
            final(self)@ == smoothed_row(old(self)@, known@, p as nat),
    {
        let n = known.len();
        let mut i: usize = 0;
        assert(self@ =~= smoothed_row(old(self)@, among(known.elements(), 0), p as nat));
        while i < n
            invariant
                n == known.elements().len(),
                i <= n,
                p > 0,
                self.wf(),
                self@ == smoothed_row(old(self)@, among(known.elements(), i as int), p as nat),
            decreases n - i,
        {
            let s = known.state_at(i);
            self.or_insert(s, p);
            proof {
                let es = known.elements();
                let now = among(es, i + 1);
                let then = among(es, i as int);
                assert(es[i as int] == s@);
                assert forall|v: T::V| #[trigger] now.contains(v) <==> (then.contains(v) || v
                    == s@) by {
                    if now.contains(v) {
                        let k = choose|k: int|
                            0 <= k < i + 1 && k < es.len() && #[trigger] es[k] == v;
                        if k < i {
                            assert(then.contains(v));
                        }
                    }
                    if then.contains(v) {
                        let k = choose|k: int|
                            0 <= k < i && k < es.len() && #[trigger] es[k] == v;
                        assert(es[k] == v);
                    }
                }
                assert(self@ =~= smoothed_row(old(self)@, now, p as nat));
            }
            i = i + 1;
        }
    }
}

} // verus!
