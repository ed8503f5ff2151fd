use vstd::prelude::*;

verus! {

/// A symbol the chain can be trained on.
///
/// Two states are the same symbol exactly when their views are equal, and
/// `precedes` is a strict total order on views. Rows are walked in that
/// order, which is what makes sampling reproducible.
pub trait State: View + Sized {
    /// The strict order in which the candidates of a row are enumerated.
    spec fn precedes(a: Self::V, b: Self::V) -> bool;

    /// `precedes` is irreflexive, transitive and total.
    proof fn order_laws(a: Self::V, b: Self::V, c: Self::V)
        ensures
            !Self::precedes(a, a),
            Self::precedes(a, b) && Self::precedes(b, c) ==> Self::precedes(a, c),
            a == b || Self::precedes(a, b) || Self::precedes(b, a),
    ;

    /// Whether two values stand for the same symbol.
    fn same(&self, other: &Self) -> (r: bool)
        ensures
            r == (self@ == other@),
    ;

    /// Whether `self` comes strictly before `other`.
    fn before(&self, other: &Self) -> (r: bool)
        ensures
            r == Self::precedes(self@, other@),
    ;

    /// A copy that stands for the same symbol.
    fn duplicate(&self) -> (r: Self)
        ensures
            r@ == self@,
    ;
}

impl State for char {
    open spec fn precedes(a: char, b: char) -> bool {
        a < b
    }

    proof fn order_laws(a: char, b: char, c: char) {
    }

    fn same(&self, other: &Self) -> (r: bool) {
        *self == *other
    }

    fn before(&self, other: &Self) -> (r: bool) {
        *self < *other
    }

    fn duplicate(&self) -> (r: Self) {
        *self
    }
}

impl State for u8 {
    open spec fn precedes(a: u8, b: u8) -> bool {
        a < b
    }

    proof fn order_laws(a: u8, b: u8, c: u8) {
    }

    fn same(&self, other: &Self) -> (r: bool) {
        *self == *other
    }

    fn before(&self, other: &Self) -> (r: bool) {
        *self < *other
    }

    fn duplicate(&self) -> (r: Self) {
        *self
    }
}

impl State for u32 {
    open spec fn precedes(a: u32, b: u32) -> bool {
        a < b
    }

    proof fn order_laws(a: u32, b: u32, c: u32) {
    }

    fn same(&self, other: &Self) -> (r: bool) {
        *self == *other
    }

    fn before(&self, other: &Self) -> (r: bool) {
        *self < *other
    }

    fn duplicate(&self) -> (r: Self) {
        *self
    }
}

impl State for u64 {
    open spec fn precedes(a: u64, b: u64) -> bool {
        a < b
    }

    proof fn order_laws(a: u64, b: u64, c: u64) {
    }

    fn same(&self, other: &Self) -> (r: bool) {
        *self == *other
    }

    fn before(&self, other: &Self) -> (r: bool) {
        *self < *other
    }

    fn duplicate(&self) -> (r: Self) {
        *self
    }
}

/// The symbols that a sequence of states stands for.
pub open spec fn views<T: View>(s: Seq<T>) -> Seq<T::V> {
    Seq::new(s.len(), |i: int| s[i]@)
}

/// Whether `x` comes before `y` in the lexicographic order of sequences of
/// states, where the two are known to agree before position `i`: at the first
/// position where they differ `x` has the earlier state, or `x` ends first.
pub open spec fn sequence_precedes<T: State>(x: Seq<T::V>, y: Seq<T::V>, i: int) -> bool
    decreases x.len() - i,
{
    if i >= y.len() {
        false
    } else if i >= x.len() {
        true
    } else if x[i] != y[i] {
        T::precedes(x[i], y[i])
    } else {
        sequence_precedes::<T>(x, y, i + 1)
    }
}

/// No sequence comes before itself.
pub proof fn lemma_sequence_irreflexive<T: State>(x: Seq<T::V>, i: int)
    requires
        0 <= i,
    ensures
        !sequence_precedes::<T>(x, x, i),
    decreases x.len() - i,
{
    if i < x.len() {
        lemma_sequence_irreflexive::<T>(x, i + 1);
    }
}

/// What comes before a sequence that comes before a third comes before the third.
pub proof fn lemma_sequence_transitive<T: State>(
    x: Seq<T::V>,
    y: Seq<T::V>,
    z: Seq<T::V>,
    i: int,
)
    requires
        0 <= i,
        sequence_precedes::<T>(x, y, i),
        sequence_precedes::<T>(y, z, i),
    ensures
        sequence_precedes::<T>(x, z, i),
    decreases x.len() - i,
{
    if i < x.len() && i < y.len() && i < z.len() {
        T::order_laws(x[i], y[i], z[i]);
        T::order_laws(x[i], x[i], x[i]);
        if x[i] == y[i] && y[i] == z[i] {
            lemma_sequence_transitive::<T>(x, y, z, i + 1);
        }
    }
}

/// Of two sequences that agree before position `i`, one comes before the
/// other unless they are the same.
pub proof fn lemma_sequence_total<T: State>(x: Seq<T::V>, y: Seq<T::V>, i: int)
    requires
        0 <= i <= x.len(),
        i <= y.len(),
        forall|k: int| 0 <= k < i ==> x[k] == y[k],
    ensures
        x == y || sequence_precedes::<T>(x, y, i) || sequence_precedes::<T>(y, x, i),
    decreases x.len() - i,
{
    if i < x.len() && i < y.len() {
        T::order_laws(x[i], y[i], y[i]);
        if x[i] == y[i] {
            lemma_sequence_total::<T>(x, y, i + 1);
        }
    } else if i == x.len() && i == y.len() {
        assert(x =~= y);
    }
}

/// Where one of two sequences of states stands to the other.
#[derive(Debug, Clone, Copy, PartialEq, Eq)]
pub enum Placement {
    /// The first comes before the second.
    Before,
    /// The two stand for the same symbols in the same order.
    Same,
    /// The first comes after the second.
    After,
}

/// Where `a` stands to `b` in the lexicographic order of sequences of states.
pub fn place<T: State>(a: &[T], b: &[T]) -> (r: Placement)
    ensures
        r == Placement::Before <==> sequence_precedes::<T>(views(a@), views(b@), 0),
        r == Placement::Same <==> views(a@) == views(b@),
        r == Placement::After <==> sequence_precedes::<T>(views(b@), views(a@), 0),
{
    let ghost x = views(a@);
    let ghost y = views(b@);
    let mut i: usize = 0;
    loop
        invariant
            x == views(a@),
            y == views(b@),
            i <= a@.len(),
            i <= b@.len(),
            forall|k: int| 0 <= k < i ==> x[k] == y[k],
            sequence_precedes::<T>(x, y, 0) == sequence_precedes::<T>(x, y, i as int),
            sequence_precedes::<T>(y, x, 0) == sequence_precedes::<T>(y, x, i as int),
        decreases a@.len() - i,
    {
        if i >= a.len() {
            if i >= b.len() {
                proof {
                    assert(x =~= y);
                    lemma_sequence_irreflexive::<T>(x, 0);
                }
                return Placement::Same;
            }
            return Placement::Before;
        }
        if i >= b.len() {
            return Placement::After;
        }
        proof {
            T::order_laws(x[i as int], y[i as int], x[i as int]);
            T::order_laws(x[i as int], x[i as int], x[i as int]);
        }
        if a[i].before(&b[i]) {
            return Placement::Before;
        }
        if b[i].before(&a[i]) {
            return Placement::After;
        }
        i = i + 1;
    }
}

/// A copy of a sequence of states, state by state.
pub fn duplicate_states<T: State>(a: &[T]) -> (r: Vec<T>)
    ensures
        views(r@) == views(a@),
{
    let n = a.len();
    let mut out: Vec<T> = Vec::new();
    let mut i: usize = 0;
    while i < n
        invariant
            n == a@.len(),
            i <= n,
            out@.len() == i,
            forall|k: int| 0 <= k < i ==> (#[trigger] out@[k])@ == a@[k]@,
        decreases n - i,
    {
        out.push(a[i].duplicate());
        i = i + 1;
    }
    assert(views(out@) =~= views(a@));
    out
}

} // verus!
