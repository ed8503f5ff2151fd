use vstd::prelude::*;
use crate::state::{views, State};

verus! {

/// The values among the first `n` of `es`.
pub open spec fn among<V>(es: Seq<V>, n: int) -> Set<V> {
    Set::new(|v: V| exists|k: int| 0 <= k < n && k < es.len() && #[trigger] es[k] == v)
}

/// The set of every state that was seen in training, each held once.
pub struct StateSet<T> {
    items: Vec<T>,
}

impl<T: State> View for StateSet<T> {
    type V = Set<T::V>;

    open spec fn view(&self) -> Set<T::V> {
        among(self.elements(), self.elements().len() as int)
    }
}

impl<T: State> StateSet<T> {
    /// The states of the set, in the order in which they were first seen.
    pub closed spec fn elements(&self) -> Seq<T::V> {
        views(self.items@)
    }

    /// No state is held twice.
    pub open spec fn wf(&self) -> bool {
        forall|i: int, j: int|
            0 <= i < j < self.elements().len() ==> #[trigger] self.elements()[i]
                != #[trigger] self.elements()[j]
    }

    /// The empty set.
    pub fn new() -> (set: Self)
        ensures
            set.wf(),
            set.elements().len() == 0,
            set@ == Set::<T::V>::empty(),
    {
        let set = StateSet { items: Vec::new() };
        assert(set@ =~= Set::<T::V>::empty());
        set
    }

    /// The number of states in the set.
    pub fn len(&self) -> (n: usize)
        ensures
            n == self.elements().len(),
    {
        self.items.len()
    }

    /// Whether the set holds no state.
    pub fn is_empty(&self) -> (b: bool)
        ensures
            b == (self.elements().len() == 0),
    {
        self.items.len() == 0
    }

    /// The state at position `i`, in the order in which the states were first seen.
    pub fn state_at(&self, i: usize) -> (s: &T)
        requires
            i < self.elements().len(),
        ensures
            s@ == self.elements()[i as int],
    {
        &self.items[i]
    }

    /// Whether `s` is in the set.
    pub fn contains(&self, s: &T) -> (b: bool)
        ensures
            b == self@.contains(s@),
    {
        let n = self.items.len();
        let mut i: usize = 0;
        while i < n
            invariant
                n == self.items@.len(),
                n == self.elements().len(),
                i <= n,
                forall|k: int| 0 <= k < i ==> #[trigger] self.elements()[k] != s@,
            decreases n - i,
        {
            if self.items[i].same(s) {
                assert(self.elements()[i as int] == s@);
                return true;
            }
            i = i + 1;
        }
        false
    }

    /// Puts `s` into the set; true where it was not in it before.
    pub fn insert(&mut self, s: &T) -> (fresh: bool)
        requires
            old(self).wf(),
        ensures
            final(self).wf(),
            final(self)@ == old(self)@.insert(s@),
            fresh == !old(self)@.contains(s@),
    {
        if self.contains(s) {
            assert(self@ =~= old(self)@.insert(s@));
            false
        } else {
            self.items.push(s.duplicate());
            proof {
                let es = old(self).elements();
                assert(self.elements() =~= es.push(s@));
                assert forall|v: T::V| #[trigger]
                    self@.contains(v) <==> old(self)@.insert(s@).contains(v) by {
                    if self@.contains(v) {
                        let k = choose|k: int|
                            0 <= k < self.elements().len() && #[trigger] self.elements()[k] == v;
                        if k < es.len() {
                            assert(es[k] == v);
                        }
                    }
                    if old(self)@.contains(v) {
                        let k = choose|k: int| 0 <= k < es.len() && #[trigger] es[k] == v;
                        assert(self.elements()[k] == v);
                    }
                    if v == s@ {
                        assert(self.elements()[es.len() as int] == v);
                    }
                }
                assert(self@ =~= old(self)@.insert(s@));
            }
            true
        }
    }
}

} // verus!
