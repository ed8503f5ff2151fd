use vstd::prelude::*;
use crate::row::Row;
use crate::state::State;

verus! {

/// A roll is the numerator of a fraction over `ROLL_RANGE`: the roll `m` stands
/// for the point `m / ROLL_RANGE` of the half-open unit interval.
pub const ROLL_RANGE: u64 = 0x20_0000_0000_0000;

/// The number of low bits dropped from 64 random bits to make a roll.
pub const ROLL_SHIFT: u64 = 11;

/// The sum of the weights of the first `n` entries.
pub open spec fn prefix_weight<V>(es: Seq<(V, nat)>, n: int) -> nat
    decreases n,
{
    if n <= 0 {
        0
    } else {
        prefix_weight(es, n - 1) + es[n - 1].1
    }
}

/// The sum of all weights.
pub open spec fn total_weight<V>(es: Seq<(V, nat)>) -> nat {
    prefix_weight(es, es.len() as int)
}

/// Whether the roll falls to the entry at position `i`.
///
/// The entries split the total weight into consecutive intervals, one per
/// entry and as long as its weight. The roll marks the point
/// `roll / ROLL_RANGE` of the total; entry `i` is selected when that point lies
/// above the weights before it and not above them with its own weight added.
/// The first entry also takes the point zero.
pub open spec fn selects<V>(es: Seq<(V, nat)>, roll: nat, i: int) -> bool {
    &&& 0 <= i < es.len()
    &&& roll * total_weight(es) <= ROLL_RANGE * prefix_weight(es, i + 1)
    &&& (i == 0 || roll * total_weight(es) > ROLL_RANGE * prefix_weight(es, i))
}

/// The position that the roll falls to.
pub open spec fn selected<V>(es: Seq<(V, nat)>, roll: nat) -> int {
    choose|i: int| selects(es, roll, i)
}

/// Cumulative weights never decrease.
pub proof fn lemma_prefix_monotone<V>(es: Seq<(V, nat)>, a: int, b: int)
    requires
        a <= b,
    ensures
        prefix_weight(es, a) <= prefix_weight(es, b),
    decreases b - a,
{
    if a < b {
        lemma_prefix_monotone(es, a, b - 1);
        if b <= 0 {
            assert(prefix_weight(es, b) == 0);
            assert(prefix_weight(es, a) == 0);
        }
    }
}

/// A roll falls to at most one entry.
pub proof fn lemma_selects_unique<V>(es: Seq<(V, nat)>, roll: nat, i: int, j: int)
    requires
        selects(es, roll, i),
        selects(es, roll, j),
    ensures
        i == j,
{
    let x = roll * total_weight(es);
    if i < j {
        lemma_prefix_monotone(es, i + 1, j);
        assert(ROLL_RANGE * prefix_weight(es, i + 1) <= ROLL_RANGE * prefix_weight(es, j))
            by (nonlinear_arith)
            requires
                prefix_weight(es, i + 1) <= prefix_weight(es, j),
        ;
    }
    if j < i {
        lemma_prefix_monotone(es, j + 1, i);
        assert(ROLL_RANGE * prefix_weight(es, j + 1) <= ROLL_RANGE * prefix_weight(es, i))
            by (nonlinear_arith)
            requires
                prefix_weight(es, j + 1) <= prefix_weight(es, i),
        ;
    }
}

/// Every roll below `ROLL_RANGE` falls to an entry of a row that has one:
/// to one at or behind position `k`, where the roll lies above the weights before `k`.
pub proof fn lemma_selects_some<V>(es: Seq<(V, nat)>, roll: nat, k: int) -> (i: int)
    requires
        roll < ROLL_RANGE,
        0 <= k < es.len(),
        k == 0 || roll * total_weight(es) > ROLL_RANGE * prefix_weight(es, k),
    ensures
        k <= i,
        selects(es, roll, i),
    decreases es.len() - k,
{
    let total = total_weight(es);
    if roll * total <= ROLL_RANGE * prefix_weight(es, k + 1) {
        k
    } else if k + 1 == es.len() {
        assert(roll * total <= ROLL_RANGE * total) by (nonlinear_arith)
            requires
                roll < ROLL_RANGE,
                0 <= total,
        ;
        k
    } else {
        lemma_selects_some(es, roll, k + 1)
    }
}

/// The least whole number of weight units that is not below the rolled point:
/// `threshold` is at most `p` exactly when the point is.
proof fn lemma_threshold(t: int, x: int, p: int)
    requires
        (t - 1) * ROLL_RANGE < x <= t * ROLL_RANGE,
    ensures
        t <= p <==> x <= ROLL_RANGE * p,
{
    if t <= p {
        assert(t * ROLL_RANGE <= ROLL_RANGE * p) by (nonlinear_arith)
            requires
                t <= p,
        ;
    } else {
        assert((t - 1) * ROLL_RANGE >= ROLL_RANGE * p) by (nonlinear_arith)
            requires
                t - 1 >= p,
        ;
    }
}

/// Rounds `roll * total / ROLL_RANGE` up to a whole number, without leaving `u128`.
fn threshold(roll: u64, total: u128) -> (t: u128)
    requires
        roll < ROLL_RANGE,
    ensures
        (t - 1) * ROLL_RANGE < roll * total <= t * ROLL_RANGE,
        t <= total,
{
    let range: u128 = ROLL_RANGE as u128;
    let m: u128 = roll as u128;
    let q: u128 = total / range;
    let rest: u128 = total % range;
    assert(total == q * range + rest && rest < range && q * range <= total) by (nonlinear_arith)
        requires
            q == total / range,
            rest == total % range,
            range > 0,
    ;
    assert(m * q <= q * range - q && m * rest <= rest * range - rest && m * rest <= range * range)
        by (nonlinear_arith)
        requires
            m < range,
            rest < range,
            0 <= q,
            0 <= rest,
    ;
    let whole: u128 = m * q;
    let part_up: u128 = (m * rest + (range - 1)) / range;
    assert((part_up - 1) * range < m * rest <= part_up * range && part_up <= rest)
        by (nonlinear_arith)
        requires
            part_up == (m * rest + (range - 1)) / (range as int),
            range > 0,
            m * rest <= rest * range - rest,
            0 <= m * rest,
    ;
    assert(m * total == whole * range + m * rest) by (nonlinear_arith)
        requires
            total == q * range + rest,
            whole == m * q,
    ;
    assert((whole + part_up - 1) * range == whole * range + (part_up - 1) * range && (whole
        + part_up) * range == whole * range + part_up * range) by (nonlinear_arith);
    whole + part_up
}

impl<T: State> Row<T> {
    /// The sum of the row's weights.
    pub fn total(&self) -> (w: u128)
        ensures
            w == total_weight(self.entries()),
    {
        let n = self.len();
        let mut sum: u128 = 0;
        let mut i: usize = 0;
        while i < n
            invariant
                n == self.entries().len(),
                i <= n,
                sum == prefix_weight(self.entries(), i as int),
                sum <= i * u64::MAX,
            decreases n - i,
        {
            let w = self.weight_at(i);
            assert((i + 1) * u64::MAX <= u128::MAX) by (nonlinear_arith)
                requires
                    i < u64::MAX,
            ;
            assert((i + 1) * u64::MAX == i * u64::MAX + u64::MAX) by (nonlinear_arith);
            sum = sum + w as u128;
            i = i + 1;
        }
        sum
    }

    /// The position of the entry that the roll falls to, walking the entries
    /// in the order of the states; none only for a row without entries.
    pub fn pick(&self, roll: u64) -> (r: Option<usize>)
        requires
            roll < ROLL_RANGE,
        ensures
            self.entries().len() == 0 ==> r is None,
            self.entries().len() > 0 ==> r is Some && selects(
                self.entries(),
                roll as nat,
                r->0 as int,
            ),
    {
        let n = self.len();
        let total = self.total();
        let t = threshold(roll, total);
        let ghost x: int = roll * total;
        let mut rest: u128 = t;
        let mut i: usize = 0;
        while i < n
            invariant
                n == self.entries().len(),
                i <= n,
                total == total_weight(self.entries()),
                x == roll * total,
                (t - 1) * ROLL_RANGE < x <= t * ROLL_RANGE,
                t <= total,
                rest + prefix_weight(self.entries(), i as int) == t,
                i == 0 || prefix_weight(self.entries(), i as int) < t,
            decreases n - i,
        {
            let w = self.weight_at(i);
            if rest > w as u128 {
                rest = rest - w as u128;
                i = i + 1;
            } else {
                proof {
                    let es = self.entries();
                    lemma_threshold(t as int, x, prefix_weight(es, i + 1) as int);
                    lemma_threshold(t as int, x, prefix_weight(es, i as int) as int);
                }
                return Some(i);
            }
        }
        None
    }
}

} // verus!
