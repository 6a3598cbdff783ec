//! One price level: the estimated individual orders resting at a price,
//! oldest first, and the rule by which a new aggregate quantity is assigned
//! to them.

use vstd::prelude::*;
use crate::amount::{Amount, MAX_UNITS};

verus! {

/// Sum of a sequence of quantities.
pub open spec fn seq_sum(s: Seq<int>) -> int
    decreases s.len(),
{
    if s.len() == 0 {
        0
    } else {
        seq_sum(s.drop_last()) + s.last()
    }
}

/// `i` is the position of the rightmost element of `s` that equals `x`.
pub open spec fn is_rightmost(s: Seq<int>, x: int, i: int) -> bool {
    &&& 0 <= i < s.len()
    &&& s[i] == x
    &&& forall|j: int| i < j < s.len() ==> s[j] != x
}

/// `i` is the position of the first among the largest elements of `s`.
pub open spec fn is_first_largest(s: Seq<int>, i: int) -> bool {
    &&& 0 <= i < s.len()
    &&& forall|j: int| 0 <= j < s.len() ==> s[j] <= s[i]
    &&& forall|j: int| 0 <= j < i ==> s[j] < s[i]
}

/// Position of the rightmost element of `s` that equals `x`.
pub open spec fn rightmost(s: Seq<int>, x: int) -> int {
    choose|i: int| is_rightmost(s, x, i)
}

/// Position of the first among the largest elements of `s`.
pub open spec fn first_largest(s: Seq<int>) -> int {
    choose|i: int| is_first_largest(s, i)
}

/// The orders at a level after its aggregate quantity became `total`.
///
/// A level that grew has a new order of the difference at its end. A level
/// that shrank by `delta` loses its rightmost order of exactly `delta`; where
/// it has none, its largest order leaves and what is left of that order joins
/// the end.
pub open spec fn reprice(s: Seq<int>, total: int) -> Seq<int> {
    let old_total = seq_sum(s);
    if total > old_total {
        s.push(total - old_total)
    } else if total == old_total || s.len() == 0 {
        s
    } else {
        let delta = old_total - total;
        if s.contains(delta) {
            s.remove(rightmost(s, delta))
        } else {
            let i = first_largest(s);
            s.remove(i).push(s[i] - delta)
        }
    }
}

/// The orders of a well-formed level: at least one, each within bounds, with
/// a positive sum within bounds.
pub open spec fn orders_ok(s: Seq<int>) -> bool {
    &&& s.len() > 0
    &&& 0 < seq_sum(s) <= MAX_UNITS
    &&& forall|i: int| 0 <= i < s.len() ==> -MAX_UNITS < #[trigger] s[i] <= MAX_UNITS
}

/// One order sums to itself.
pub proof fn lemma_sum_single(x: int)
    ensures
        seq_sum(seq![x]) == x,
{
    assert(seq![x].drop_last() =~= Seq::<int>::empty());
    assert(seq_sum(Seq::<int>::empty()) == 0);
}

/// An order more at the end adds its quantity to the sum.
pub proof fn lemma_sum_push(s: Seq<int>, x: int)
    ensures
        seq_sum(s.push(x)) == seq_sum(s) + x,
{
    assert(s.push(x).drop_last() =~= s);
}

/// An order less takes its quantity from the sum.
pub proof fn lemma_sum_remove(s: Seq<int>, i: int)
    requires
        0 <= i < s.len(),
    ensures
        seq_sum(s.remove(i)) == seq_sum(s) - s[i],
    decreases s.len(),
{
    if i == s.len() - 1 {
        assert(s.remove(i) =~= s.drop_last());
    } else {
        lemma_sum_remove(s.drop_last(), i);
        assert(s.remove(i).drop_last() =~= s.drop_last().remove(i));
        assert(s.remove(i).last() == s.last());
    }
}

/// A sequence whose elements are all at most `bound` sums to at most
/// `len * bound`.
pub proof fn lemma_sum_bound(s: Seq<int>, bound: int)
    requires
        forall|j: int| 0 <= j < s.len() ==> s[j] <= bound,
    ensures
        seq_sum(s) <= s.len() * bound,
    decreases s.len(),
{
    if s.len() > 0 {
        lemma_sum_bound(s.drop_last(), bound);
        assert(s.drop_last().len() * bound + bound == s.len() * bound) by (nonlinear_arith)
            requires
                s.drop_last().len() + 1 == s.len(),
        ;
    }
}

/// Only one position is that of the rightmost match.
pub proof fn lemma_rightmost_unique(s: Seq<int>, x: int, i: int)
    requires
        is_rightmost(s, x, i),
    ensures
        rightmost(s, x) == i,
{
    let r = rightmost(s, x);
    assert(is_rightmost(s, x, r));
    if r < i {
        assert(s[i] != x);
    } else if i < r {
        assert(s[r] != x);
    }
}

/// Only one position is that of the first among the largest.
pub proof fn lemma_first_largest_unique(s: Seq<int>, i: int)
    requires
        is_first_largest(s, i),
    ensures
        first_largest(s) == i,
{
    let r = first_largest(s);
    assert(is_first_largest(s, r));
    if r < i {
        assert(s[r] < s[i]);
        assert(s[i] <= s[r]);
    } else if i < r {
        assert(s[i] < s[r]);
        assert(s[r] <= s[i]);
    }
}

/// A sequence that holds `x` has a rightmost element equal to `x`.
proof fn lemma_rightmost_exists(s: Seq<int>, x: int)
    requires
        s.contains(x),
    ensures
        is_rightmost(s, x, rightmost(s, x)),
    decreases s.len(),
{
    if s.last() == x {
        assert(is_rightmost(s, x, s.len() - 1));
    } else {
        let k = choose|k: int| 0 <= k < s.len() && s[k] == x;
        assert(s.drop_last()[k] == x);
        lemma_rightmost_exists(s.drop_last(), x);
        let r = rightmost(s.drop_last(), x);
        assert(is_rightmost(s, x, r)) by {
            assert forall|j: int| r < j < s.len() implies s[j] != x by {
                if j < s.len() - 1 {
                    assert(s.drop_last()[j] != x);
                }
            }
        }
    }
}

/// A sequence that is not empty has a first among its largest elements.
proof fn lemma_first_largest_exists(s: Seq<int>)
    requires
        s.len() > 0,
    ensures
        is_first_largest(s, first_largest(s)),
    decreases s.len(),
{
    if s.len() == 1 {
        assert(is_first_largest(s, 0));
    } else {
        let t = s.drop_last();
        lemma_first_largest_exists(t);
        let r = first_largest(t);
        if s.last() > t[r] {
            assert(is_first_largest(s, s.len() - 1)) by {
                assert forall|j: int| 0 <= j < s.len() - 1 implies s[j] < s.last() by {
                    assert(t[j] <= t[r]);
                }
            }
        } else {
            assert(is_first_largest(s, r)) by {
                assert forall|j: int| 0 <= j < s.len() implies s[j] <= s[r] by {
                    if j < s.len() - 1 {
                        assert(t[j] <= t[r]);
                    }
                }
                assert forall|j: int| 0 <= j < r implies s[j] < s[r] by {
                    assert(t[j] < t[r]);
                }
            }
        }
    }
}

/// After a level took a new aggregate quantity, its orders sum to that
/// quantity.
pub proof fn lemma_reprice_sum(s: Seq<int>, total: int)
    requires
        s.len() > 0 || total >= 0,
    ensures
        seq_sum(reprice(s, total)) == total,
{
    let old_total = seq_sum(s);
    if total > old_total {
        lemma_sum_push(s, total - old_total);
    } else if total == old_total || s.len() == 0 {
    } else {
        let delta = old_total - total;
        if s.contains(delta) {
            lemma_rightmost_exists(s, delta);
            lemma_sum_remove(s, rightmost(s, delta));
        } else {
            lemma_first_largest_exists(s);
            let i = first_largest(s);
            lemma_sum_remove(s, i);
            lemma_sum_push(s.remove(i), s[i] - delta);
        }
    }
}

/// A well-formed level that takes a positive aggregate quantity within bounds
/// stays well formed: it keeps at least one order.
pub proof fn lemma_reprice_ok(s: Seq<int>, total: int)
    requires
        orders_ok(s),
        0 < total <= MAX_UNITS,
    ensures
        orders_ok(reprice(s, total)),
{
    lemma_reprice_sum(s, total);
    let old_total = seq_sum(s);
    let r = reprice(s, total);
    if total > old_total {
        assert forall|i: int| 0 <= i < r.len() implies -MAX_UNITS < #[trigger] r[i] <= MAX_UNITS by {
            if i < s.len() {
                assert(r[i] == s[i]);
            }
        }
    } else if total == old_total {
    } else {
        let delta = old_total - total;
        if s.contains(delta) {
            let k = rightmost(s, delta);
            lemma_rightmost_exists(s, delta);
            s.remove_ensures(k);
            if s.len() == 1 {
                assert(s =~= seq![s[0]]);
                lemma_sum_single(s[0]);
            }
            assert forall|i: int| 0 <= i < r.len() implies -MAX_UNITS < #[trigger] r[i] <= MAX_UNITS by {
                if i < k {
                    assert(r[i] == s[i]);
                } else {
                    assert(r[i] == s[i + 1]);
                }
            }
        } else {
            lemma_first_largest_exists(s);
            let k = first_largest(s);
            s.remove_ensures(k);
            if s[k] <= 0 {
                lemma_sum_bound(s, 0);
                assert(s.len() * 0 == 0);
            }
            assert forall|i: int| 0 <= i < r.len() implies -MAX_UNITS < #[trigger] r[i] <= MAX_UNITS by {
                if i < k {
                    assert(r[i] == s[i]);
                } else if i < r.len() - 1 {
                    assert(r[i] == s[i + 1]);
                }
            }
        }
    }
}

/// The quantities of a vector of units.
pub open spec fn ints(s: Seq<i128>) -> Seq<int> {
    s.map_values(|x: i128| x as int)
}

/// The individual orders estimated to rest at one price, oldest first.
#[derive(Debug)]
pub struct Level {
    orders: Vec<i128>,
    total: i128,
}

impl Level {
    /// The orders of the level, oldest first, in units.
    pub closed spec fn view(&self) -> Seq<int> {
        ints(self.orders@)
    }

    /// The level has at least one order, its orders are within bounds, and
    /// the aggregate that it keeps is their sum.
    #[verifier::type_invariant]
    pub closed spec fn wf(&self) -> bool {
        &&& orders_ok(ints(self.orders@))
        &&& self.total as int == seq_sum(ints(self.orders@))
    }

    /// A level that holds one order of `qty`.
    pub fn single(qty: Amount) -> (r: Level)
        requires
            qty@ > 0,
        ensures
            r@ == seq![qty@],
            r.wf(),
    {
        let q: i128 = qty.units();
        let mut orders: Vec<i128> = Vec::new();
        orders.push(q);
        proof {
            let s = ints(orders@);
            assert(s =~= seq![q as int]);
            lemma_sum_single(q as int);
        }
        Level { orders, total: q }
    }

    /// The aggregate quantity of the level: the sum of its orders.
    pub fn total(&self) -> (r: Amount)
        ensures
            r@ == seq_sum(self@),
            r@ > 0,
    {
        proof {
            use_type_invariant(self);
        }
        match Amount::from_units(self.total) {
            Some(a) => a,
            None => Amount::zero(),
        }
    }

    /// The number of orders at the level.
    pub fn len(&self) -> (r: usize)
        ensures
            r == self@.len(),
            r > 0,
    {
        proof {
            use_type_invariant(self);
        }
        self.orders.len()
    }

    /// The order at position `i`, counted from the oldest.
    pub fn order(&self, i: usize) -> (r: Amount)
        requires
            i < self@.len(),
        ensures
            r@ == self@[i as int],
    {
        proof {
            use_type_invariant(self);
            assert(self@[i as int] == self.orders@[i as int]);
        }
        match Amount::from_units(self.orders[i]) {
            Some(a) => a,
            None => Amount::zero(),
        }
    }

    /// The level after its aggregate quantity became `total`.
    pub fn repriced(self, total: Amount) -> (r: Level)
        requires
            total@ > 0,
        ensures
            r@ == reprice(self@, total@),
            r.wf(),
    {
        let new_total: i128 = total.units();
        proof {
            use_type_invariant(&self);
            lemma_reprice_ok(self@, total@);
            lemma_reprice_sum(self@, total@);
        }
        let old_total: i128 = self.total;
        let mut orders: Vec<i128> = self.orders;
        let ghost before = ints(orders@);
        if new_total > old_total {
            orders.push(new_total - old_total);
            proof {
                assert(ints(orders@) =~= before.push(new_total - old_total));
            }
        } else if new_total < old_total {
            let delta: i128 = old_total - new_total;
            match find_rightmost(&orders, delta) {
                Some(k) => {
                    orders.remove(k);
                    proof {
                        assert(before.contains(delta as int));
                        lemma_rightmost_unique(before, delta as int, k as int);
                        assert(ints(orders@) =~= before.remove(k as int));
                    }
                },
                None => {
                    let k: usize = find_first_largest(&orders);
                    let largest: i128 = orders[k];
                    proof {
                        lemma_first_largest_unique(before, k as int);
                        if largest <= 0 {
                            lemma_sum_bound(before, 0);
                            assert(before.len() * 0 == 0);
                        }
                    }
                    orders.remove(k);
                    orders.push(largest - delta);
                    proof {
                        assert(ints(orders@) =~= before.remove(k as int).push(largest - delta));
                    }
                },
            }
        }
        Level { orders, total: new_total }
    }
}

/// Position of the rightmost of `orders` that equals `x`.
fn find_rightmost(orders: &Vec<i128>, x: i128) -> (r: Option<usize>)
    ensures
        r matches Some(k) ==> is_rightmost(ints(orders@), x as int, k as int),
        r is None ==> !ints(orders@).contains(x as int),
{
    let mut i: usize = orders.len();
    while i > 0
        invariant
            i <= orders.len(),
            forall|j: int| i <= j < orders.len() ==> orders@[j] != x,
        decreases i,
    {
        i = i - 1;
        if orders[i] == x {
            return Some(i);
        }
    }
    None
}

/// Position of the first among the largest of `orders`.
fn find_first_largest(orders: &Vec<i128>) -> (r: usize)
    requires
        orders.len() > 0,
    ensures
        is_first_largest(ints(orders@), r as int),
{
    let mut best: usize = 0;
    let mut i: usize = 1;
    while i < orders.len()
        invariant
            0 <= best < i <= orders.len(),
            forall|j: int| 0 <= j < i ==> orders@[j] <= orders@[best as int],
            forall|j: int| 0 <= j < best ==> orders@[j] < orders@[best as int],
        decreases orders.len() - i,
    {
        if orders[i] > orders[best] {
            best = i;
        }
        i = i + 1;
    }
    best
}

} // verus!
