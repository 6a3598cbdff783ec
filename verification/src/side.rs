//! One side of the book: the levels of the bids or of the asks, keyed by
//! price and walked in price order.

use vstd::prelude::*;
use vstd::std_specs::iter::IteratorSpec;
use vstd::std_specs::cmp::OrdSpec;
use std::collections::BTreeMap;
use crate::amount::{Amount, in_range};
use crate::level::{Level, orders_ok, reprice, seq_sum, lemma_reprice_ok, lemma_sum_single};

verus! {

/// The book after one row of an update: a zero quantity removes the price, a
/// positive one becomes the aggregate quantity at the price, and a negative
/// one is not a quantity and changes nothing.
pub open spec fn apply_row(m: Map<int, Seq<int>>, price: int, qty: int) -> Map<int, Seq<int>> {
    if qty == 0 {
        m.remove(price)
    } else if qty < 0 {
        m
    } else if m.contains_key(price) {
        m.insert(price, reprice(m[price], qty))
    } else {
        m.insert(price, seq![qty])
    }
}

/// The book after the rows of an update, taken in their order.
pub open spec fn apply_rows(m: Map<int, Seq<int>>, rows: Seq<(int, int)>) -> Map<int, Seq<int>>
    decreases rows.len(),
{
    if rows.len() == 0 {
        m
    } else {
        apply_row(apply_rows(m, rows.drop_last()), rows.last().0, rows.last().1)
    }
}

/// The book after one row of a snapshot: a positive quantity makes the level
/// one order of that quantity, any other row is left out.
pub open spec fn load_row(m: Map<int, Seq<int>>, price: int, qty: int) -> Map<int, Seq<int>> {
    if qty > 0 {
        m.insert(price, seq![qty])
    } else {
        m
    }
}

/// The side that the rows of a snapshot describe.
pub open spec fn load_rows(rows: Seq<(int, int)>) -> Map<int, Seq<int>>
    decreases rows.len(),
{
    if rows.len() == 0 {
        Map::empty()
    } else {
        load_row(load_rows(rows.drop_last()), rows.last().0, rows.last().1)
    }
}

/// The rows of an event as pairs of units: price, then quantity.
pub open spec fn rows_view(rows: Seq<(Amount, Amount)>) -> Seq<(int, int)> {
    rows.map_values(|r: (Amount, Amount)| (r.0@, r.1@))
}

/// Every level of the side is well formed and stands at a price in range.
pub open spec fn side_ok(m: Map<int, Seq<int>>) -> bool {
    forall|p: int| #[trigger] m.contains_key(p) ==> in_range(p) && orders_ok(m[p])
}

/// Strictly ascending.
pub open spec fn ascending(s: Seq<int>) -> bool {
    forall|i: int, j: int| 0 <= i < j < s.len() ==> s[i] < s[j]
}

/// The prices at which a level stands, ascending.
pub open spec fn sorted_prices(m: Map<int, Seq<int>>) -> Seq<int> {
    choose|s: Seq<int>| ascending(s) && s.to_set() == m.dom()
}

/// Two ascending sequences of the same elements are the same sequence.
pub proof fn lemma_ascending_unique(a: Seq<int>, b: Seq<int>)
    requires
        ascending(a),
        ascending(b),
        a.to_set() == b.to_set(),
    ensures
        a == b,
    decreases a.len(),
{
    if a.len() == 0 {
        if b.len() > 0 {
            assert(b.to_set().contains(b[0]));
            assert(a.to_set().contains(b[0]));
        }
        assert(a =~= b);
    } else {
        assert(a.to_set().contains(a.last()));
        assert(b.to_set().contains(a.last()));
        let j = choose|j: int| 0 <= j < b.len() && b[j] == a.last();
        assert(b.to_set().contains(b.last()));
        assert(a.to_set().contains(b.last()));
        let i = choose|i: int| 0 <= i < a.len() && a[i] == b.last();
        assert(a.last() == b.last());
        let a0 = a.drop_last();
        let b0 = b.drop_last();
        assert forall|x: int| a0.to_set().contains(x) <==> b0.to_set().contains(x) by {
            if a0.to_set().contains(x) {
                let k = choose|k: int| 0 <= k < a0.len() && a0[k] == x;
                assert(a[k] == x);
                assert(x < a.last());
                assert(a.to_set().contains(x));
                assert(b.to_set().contains(x));
                let l = choose|l: int| 0 <= l < b.len() && b[l] == x;
                assert(l < b.len() - 1);
                assert(b0[l] == x);
            }
            if b0.to_set().contains(x) {
                let k = choose|k: int| 0 <= k < b0.len() && b0[k] == x;
                assert(b[k] == x);
                assert(x < b.last());
                assert(b.to_set().contains(x));
                assert(a.to_set().contains(x));
                let l = choose|l: int| 0 <= l < a.len() && a[l] == x;
                assert(l < a.len() - 1);
                assert(a0[l] == x);
            }
        }
        assert(a0.to_set() =~= b0.to_set());
        lemma_ascending_unique(a0, b0);
        assert(a =~= a0.push(a.last()));
        assert(b =~= b0.push(b.last()));
    }
}

/// The units of a vector of amounts.
pub open spec fn units_of(s: Seq<Amount>) -> Seq<int> {
    s.map_values(|a: Amount| a@)
}

/// A row of an update leaves a well-formed side well formed.
pub proof fn lemma_apply_row_ok(m: Map<int, Seq<int>>, price: int, qty: int)
    requires
        side_ok(m),
        in_range(price),
        in_range(qty),
    ensures
        side_ok(apply_row(m, price, qty)),
{
    let r = apply_row(m, price, qty);
    if qty > 0 {
        if m.contains_key(price) {
            lemma_reprice_ok(m[price], qty);
        } else {
            lemma_sum_single(qty);
        }
    }
    assert forall|p: int| #[trigger] r.contains_key(p) implies in_range(p) && orders_ok(r[p]) by {
        if p != price {
            assert(m.contains_key(p));
        }
    }
}

/// A row of a snapshot leaves a well-formed side well formed.
pub proof fn lemma_load_row_ok(m: Map<int, Seq<int>>, price: int, qty: int)
    requires
        side_ok(m),
        in_range(price),
        in_range(qty),
    ensures
        side_ok(load_row(m, price, qty)),
{
    let r = load_row(m, price, qty);
    if qty > 0 {
        lemma_sum_single(qty);
    }
    assert forall|p: int| #[trigger] r.contains_key(p) implies in_range(p) && orders_ok(r[p]) by {
        if p != price {
            assert(m.contains_key(p));
        }
    }
}

/// `i` is the last row of `rows` that reports a quantity for `price`.
pub open spec fn is_last_report(rows: Seq<(int, int)>, price: int, i: int) -> bool {
    &&& 0 <= i < rows.len()
    &&& rows[i].0 == price
    &&& rows[i].1 >= 0
    &&& forall|j: int| i < j < rows.len() ==> !(rows[j].0 == price && rows[j].1 >= 0)
}

/// `i` is the last row of `rows` that gives `price` a positive quantity.
pub open spec fn is_last_positive(rows: Seq<(int, int)>, price: int, i: int) -> bool {
    &&& 0 <= i < rows.len()
    &&& rows[i].0 == price
    &&& rows[i].1 > 0
    &&& forall|j: int| i < j < rows.len() ==> !(rows[j].0 == price && rows[j].1 > 0)
}

/// After an update, the last quantity that its rows report for a price
/// decides the level there: a zero leaves no level at the price, a positive
/// quantity leaves a level whose orders sum to it.
pub proof fn lemma_last_report_decides(
    m: Map<int, Seq<int>>,
    rows: Seq<(int, int)>,
    price: int,
    i: int,
)
    requires
        is_last_report(rows, price, i),
    ensures
        rows[i].1 == 0 ==> !apply_rows(m, rows).contains_key(price),
        rows[i].1 > 0 ==> apply_rows(m, rows).contains_key(price) && seq_sum(
            apply_rows(m, rows)[price],
        ) == rows[i].1,
    decreases rows.len(),
{
    let before = apply_rows(m, rows.drop_last());
    let last = rows.last();
    if i == rows.len() - 1 {
        if last.1 > 0 {
            if before.contains_key(price) {
                crate::level::lemma_reprice_sum(before[price], last.1);
            } else {
                lemma_sum_single(last.1);
            }
        }
    } else {
        assert(is_last_report(rows.drop_last(), price, i)) by {
            assert forall|j: int| i < j < rows.drop_last().len() implies !(rows.drop_last()[j].0
                == price && rows.drop_last()[j].1 >= 0) by {
                assert(rows.drop_last()[j] == rows[j]);
            }
        }
        lemma_last_report_decides(m, rows.drop_last(), price, i);
        assert(!(last.0 == price && last.1 >= 0));
    }
}

/// An update leaves every price alone for which its rows report no quantity.
pub proof fn lemma_unreported_price_keeps_level(
    m: Map<int, Seq<int>>,
    rows: Seq<(int, int)>,
    price: int,
)
    requires
        forall|j: int| 0 <= j < rows.len() ==> !(rows[j].0 == price && rows[j].1 >= 0),
    ensures
        apply_rows(m, rows).contains_key(price) == m.contains_key(price),
        m.contains_key(price) ==> apply_rows(m, rows)[price] == m[price],
    decreases rows.len(),
{
    if rows.len() > 0 {
        assert forall|j: int| 0 <= j < rows.drop_last().len() implies !(rows.drop_last()[j].0
            == price && rows.drop_last()[j].1 >= 0) by {
            assert(rows.drop_last()[j] == rows[j]);
        }
        lemma_unreported_price_keeps_level(m, rows.drop_last(), price);
        assert(!(rows.last().0 == price && rows.last().1 >= 0));
    }
}

/// An update whose rows all carry a zero quantity removes the prices that it
/// names and leaves the others as they were: where it names every price of
/// the side, the side is empty afterwards.
pub proof fn lemma_zero_rows_remove_prices(m: Map<int, Seq<int>>, rows: Seq<(int, int)>, price: int)
    requires
        forall|j: int| 0 <= j < rows.len() ==> (#[trigger] rows[j]).1 == 0,
    ensures
        apply_rows(m, rows).contains_key(price) <==> m.contains_key(price) && forall|j: int|
            0 <= j < rows.len() ==> (#[trigger] rows[j]).0 != price,
        apply_rows(m, rows).contains_key(price) ==> apply_rows(m, rows)[price] == m[price],
    decreases rows.len(),
{
    if rows.len() > 0 {
        let front = rows.drop_last();
        assert forall|j: int| 0 <= j < front.len() implies (#[trigger] front[j]).1 == 0 by {
            assert(front[j] == rows[j]);
        }
        lemma_zero_rows_remove_prices(m, front, price);
        assert(rows.last() == rows[rows.len() - 1]);
        if apply_rows(m, rows).contains_key(price) {
            assert forall|j: int| 0 <= j < rows.len() implies (#[trigger] rows[j]).0 != price by {
                if j < front.len() {
                    assert(front[j] == rows[j]);
                }
            }
        }
        if m.contains_key(price) && forall|j: int|
            0 <= j < rows.len() ==> (#[trigger] rows[j]).0 != price {
            assert forall|j: int| 0 <= j < front.len() implies (#[trigger] front[j]).0 != price by {
                assert(front[j] == rows[j]);
            }
        }
    }
}

/// A snapshot whose rows are within range leaves a well-formed side.
pub proof fn lemma_load_rows_ok(rows: Seq<(int, int)>)
    requires
        forall|j: int| 0 <= j < rows.len() ==> in_range(rows[j].0) && in_range(rows[j].1),
    ensures
        side_ok(load_rows(rows)),
    decreases rows.len(),
{
    if rows.len() > 0 {
        assert forall|j: int| 0 <= j < rows.drop_last().len() implies in_range(
            rows.drop_last()[j].0,
        ) && in_range(rows.drop_last()[j].1) by {
            assert(rows.drop_last()[j] == rows[j]);
        }
        lemma_load_rows_ok(rows.drop_last());
        lemma_load_row_ok(load_rows(rows.drop_last()), rows.last().0, rows.last().1);
    }
}

/// An update whose rows are within range leaves a well-formed side well
/// formed: no price is left with an empty sequence of orders.
pub proof fn lemma_apply_rows_ok(m: Map<int, Seq<int>>, rows: Seq<(int, int)>)
    requires
        side_ok(m),
        forall|j: int| 0 <= j < rows.len() ==> in_range(rows[j].0) && in_range(rows[j].1),
    ensures
        side_ok(apply_rows(m, rows)),
    decreases rows.len(),
{
    if rows.len() > 0 {
        assert forall|j: int| 0 <= j < rows.drop_last().len() implies in_range(
            rows.drop_last()[j].0,
        ) && in_range(rows.drop_last()[j].1) by {
            assert(rows.drop_last()[j] == rows[j]);
        }
        lemma_apply_rows_ok(m, rows.drop_last());
        lemma_apply_row_ok(apply_rows(m, rows.drop_last()), rows.last().0, rows.last().1);
    }
}

/// A snapshot leaves a level at exactly the prices to which one of its rows
/// gives a positive quantity, and the level is one order of the last such
/// quantity.
pub proof fn lemma_snapshot_levels(rows: Seq<(int, int)>, price: int)
    ensures
        load_rows(rows).contains_key(price) <==> exists|i: int| is_last_positive(rows, price, i),
        forall|i: int|
            is_last_positive(rows, price, i) ==> load_rows(rows)[price] == seq![rows[i].1],
    decreases rows.len(),
{
    if rows.len() > 0 {
        let front = rows.drop_last();
        let last = rows.last();
        lemma_snapshot_levels(front, price);
        if last.0 == price && last.1 > 0 {
            assert(is_last_positive(rows, price, rows.len() - 1));
            assert forall|i: int| is_last_positive(rows, price, i) implies load_rows(rows)[price]
                == seq![rows[i].1] by {
                if i < rows.len() - 1 {
                    assert(rows[rows.len() - 1].0 == price);
                }
            }
        } else {
            assert forall|i: int| is_last_positive(rows, price, i) implies is_last_positive(
                front,
                price,
                i,
            ) by {
                assert forall|j: int| i < j < front.len() implies !(front[j].0 == price
                    && front[j].1 > 0) by {
                    assert(front[j] == rows[j]);
                }
            }
            assert forall|i: int| is_last_positive(front, price, i) implies is_last_positive(
                rows,
                price,
                i,
            ) by {
                assert forall|j: int| i < j < rows.len() implies !(rows[j].0 == price && rows[j].1
                    > 0) by {
                    if j < front.len() {
                        assert(front[j] == rows[j]);
                    }
                }
            }
            if load_rows(rows).contains_key(price) {
                let i = choose|i: int| is_last_positive(front, price, i);
                assert(is_last_positive(rows, price, i));
            }
        }
    } else {
        assert(!load_rows(rows).contains_key(price));
    }
}

/// Integer keys are ordered as the integers are.
proof fn lemma_integer_keys()
    ensures
        vstd::laws_cmp::obeys_cmp::<i128>(),
{
    broadcast use vstd::laws_cmp::group_laws_cmp;
}

/// The keys of the map, ascending.
fn sorted_keys(m: &BTreeMap<i128, Level>) -> (r: Vec<i128>)
    ensures
        r@.to_set() == m@.dom(),
        forall|i: int, j: int| 0 <= i < j < r.len() ==> r[i] < r[j],
{
    broadcast use vstd::std_specs::btree::group_btree_axioms;
    broadcast use vstd::laws_cmp::group_laws_cmp;
    let mut out: Vec<i128> = Vec::new();
    let ghost ks = m.keys().remaining();
    for k in it: m.keys()
        invariant
            ks == it.seq(),
            out.len() == it.index(),
            forall|i: int| 0 <= i < out.len() ==> out[i] == *it.seq()[i],
    {
        out.push(*k);
    }
    proof {
        assert(out@ =~= ks.unref());
        assert(vstd::laws_cmp::obeys_cmp::<i128>());
        assert(vstd::laws_cmp::obeys_cmp::<&i128>());
        assert(vstd::std_specs::btree::increasing_seq(ks));
        assert forall|i: int, j: int| 0 <= i < j < out.len() implies out[i] < out[j] by {
            assert(OrdSpec::cmp_spec(&ks[i], &ks[j]) is Less);
        }
    }
    out
}

/// One side of the book.
#[derive(Debug)]
pub struct Side {
    levels: BTreeMap<i128, Level>,
}

impl Side {
    /// The levels of the side: for each price that is present, in units, its
    /// orders, oldest first.
    pub closed spec fn view(&self) -> Map<int, Seq<int>> {
        levels_view(self.levels@)
    }

    /// Every level of the side is well formed and stands at a price in range.
    #[verifier::type_invariant]
    pub closed spec fn wf(&self) -> bool {
        levels_ok(self.levels@)
    }

    /// A side without levels.
    pub fn new() -> (r: Side)
        ensures
            r@ == Map::<int, Seq<int>>::empty(),
    {
        let r = Side { levels: BTreeMap::new() };
        assert(r@ =~= Map::<int, Seq<int>>::empty());
        r
    }

    /// Applies one row of an update.
    pub fn apply_row(&mut self, price: Amount, qty: Amount)
        ensures
            final(self)@ == apply_row(old(self)@, price@, qty@),
            side_ok(final(self)@),
    {
        let mut levels = self.take_levels();
        apply_row_to(&mut levels, price, qty);
        *self = Side { levels };
        proof {
            assert(self@ =~= levels_view(levels@));
        }
    }

    /// Applies the rows of an update in their order.
    pub fn apply_rows(&mut self, rows: &Vec<(Amount, Amount)>)
        ensures
            final(self)@ == apply_rows(old(self)@, rows_view(rows@)),
            side_ok(final(self)@),
    {
        let mut levels = self.take_levels();
        let ghost start = levels_view(levels@);
        let ghost all = rows_view(rows@);
        let mut i: usize = 0;
        while i < rows.len()
            invariant
                i <= rows.len(),
                all == rows_view(rows@),
                levels_ok(levels@),
                side_ok(levels_view(levels@)),
                levels_view(levels@) == apply_rows(start, all.take(i as int)),
            decreases rows.len() - i,
        {
            let row = rows[i];
            apply_row_to(&mut levels, row.0, row.1);
            proof {
                assert(all.take(i + 1).drop_last() =~= all.take(i as int));
                assert(all.take(i + 1).last() == (row.0@, row.1@));
            }
            i = i + 1;
        }
        proof {
            assert(all.take(rows.len() as int) =~= all);
        }
        *self = Side { levels };
        proof {
            assert(self@ =~= levels_view(levels@));
        }
    }

    /// The side that the rows of a snapshot describe: one order per row with
    /// a positive quantity, a later row for a price replacing an earlier one.
    pub fn from_rows(rows: &Vec<(Amount, Amount)>) -> (r: Side)
        ensures
            r@ == load_rows(rows_view(rows@)),
            side_ok(r@),
    {
        broadcast use vstd::std_specs::btree::group_btree_axioms;
        proof {
            lemma_integer_keys();
        }
        let mut levels: BTreeMap<i128, Level> = BTreeMap::new();
        let ghost all = rows_view(rows@);
        let mut i: usize = 0;
        proof {
            assert(levels_view(levels@) =~= Map::<int, Seq<int>>::empty());
        }
        while i < rows.len()
            invariant
                i <= rows.len(),
                all == rows_view(rows@),
                levels_ok(levels@),
                levels_view(levels@) == load_rows(all.take(i as int)),
            decreases rows.len() - i,
        {
            let row = rows[i];
            let p: i128 = row.0.units();
            let q: i128 = row.1.units();
            let ghost before = levels_view(levels@);
            let ghost levels_before = levels@;
            if q > 0 {
                let level = Level::single(row.1);
                proof {
                    lemma_sum_single(q as int);
                }
                levels.insert(p, level);
                proof {
                    assert(levels@ == levels_before.insert(p, level));
                    assert(levels_view(levels@) =~= before.insert(p as int, seq![q as int]));
                }
            }
            proof {
                assert(all.take(i + 1).drop_last() =~= all.take(i as int));
                assert(all.take(i + 1).last() == (row.0@, row.1@));
            }
            i = i + 1;
        }
        proof {
            assert(all.take(rows.len() as int) =~= all);
            lemma_levels_ok(levels@);
        }
        let r = Side { levels };
        proof {
            assert(r@ =~= levels_view(levels@));
        }
        r
    }

    /// Every level that the side holds is well formed: it has at least one
    /// order, and its orders sum to a positive quantity. This does nothing
    /// when it runs; it hands the fact to the caller's proof.
    pub fn ensure_ok(&self)
        ensures
            side_ok(self@),
    {
        proof {
            use_type_invariant(self);
            lemma_levels_ok(self.levels@);
        }
    }

    /// Whether the side has no level.
    pub fn is_empty(&self) -> (r: bool)
        ensures
            r == (self@.dom() =~= Set::<int>::empty()),
    {
        broadcast use vstd::std_specs::btree::group_btree_axioms;
        let r = self.levels.is_empty();
        proof {
            if r {
                assert(self@.dom() =~= Set::<int>::empty());
            } else {
                let k = choose|k: i128| self.levels@.contains_key(k);
                assert(self.levels@.dom().contains(k));
                assert(self@.contains_key(k as int));
            }
        }
        r
    }

    /// Whether a level stands at `price`.
    pub fn contains(&self, price: Amount) -> (r: bool)
        ensures
            r == self@.contains_key(price@),
    {
        broadcast use vstd::std_specs::btree::group_btree_axioms;
        proof {
            lemma_integer_keys();
        }
        let p: i128 = price.units();
        self.levels.contains_key(&p)
    }

    /// The orders at `price`, oldest first, where a level stands there.
    pub fn orders_at(&self, price: Amount) -> (r: Option<Vec<Amount>>)
        ensures
            r is Some == self@.contains_key(price@),
            r matches Some(v) ==> units_of(v@) == self@[price@],
    {
        broadcast use vstd::std_specs::btree::group_btree_axioms;
        proof {
            lemma_integer_keys();
        }
        let p: i128 = price.units();
        match self.levels.get(&p) {
            Some(level) => Some(level_orders(level)),
            None => None,
        }
    }

    /// The aggregate quantity at `price`, where a level stands there.
    pub fn total_at(&self, price: Amount) -> (r: Option<Amount>)
        ensures
            r is Some == self@.contains_key(price@),
            r matches Some(t) ==> t@ == seq_sum(self@[price@]),
    {
        broadcast use vstd::std_specs::btree::group_btree_axioms;
        proof {
            lemma_integer_keys();
        }
        let p: i128 = price.units();
        match self.levels.get(&p) {
            Some(level) => Some(level.total()),
            None => None,
        }
    }

    /// The prices at which a level stands, ascending.
    pub fn prices(&self) -> (r: Vec<Amount>)
        ensures
            units_of(r@) == sorted_prices(self@),
            ascending(units_of(r@)),
            units_of(r@).to_set() == self@.dom(),
    {
        proof {
            use_type_invariant(self);
        }
        let keys = sorted_keys(&self.levels);
        let mut out: Vec<Amount> = Vec::new();
        let mut i: usize = 0;
        while i < keys.len()
            invariant
                i <= keys.len(),
                out.len() == i,
                levels_ok(self.levels@),
                keys@.to_set() == self.levels@.dom(),
                forall|a: int, b: int| 0 <= a < b < keys.len() ==> keys[a] < keys[b],
                forall|j: int| 0 <= j < i ==> out[j]@ == keys[j],
            decreases keys.len() - i,
        {
            proof {
                assert(keys@.to_set().contains(keys[i as int]));
                assert(self.levels@.contains_key(keys[i as int]));
            }
            match Amount::from_units(keys[i]) {
                Some(a) => out.push(a),
                None => out.push(Amount::zero()),
            }
            i = i + 1;
        }
        proof {
            let u = units_of(out@);
            assert forall|p: int| u.to_set().contains(p) <==> self@.dom().contains(p) by {
                if u.to_set().contains(p) {
                    let j = choose|j: int| 0 <= j < u.len() && u[j] == p;
                    assert(keys@.to_set().contains(keys[j]));
                }
                if self@.dom().contains(p) {
                    assert(keys@.to_set().contains(p as i128));
                    let j = choose|j: int| 0 <= j < keys.len() && keys[j] == p as i128;
                    assert(u[j] == p);
                }
            }
            assert(u.to_set() =~= self@.dom());
            assert forall|a: int, b: int| 0 <= a < b < u.len() implies u[a] < u[b] by {
                assert(keys[a] < keys[b]);
            }
            lemma_ascending_unique(u, sorted_prices(self@));
        }
        out
    }

    /// The lowest price at which a level stands: the best of the asks.
    pub fn lowest(&self) -> (r: Option<Amount>)
        ensures
            r is None <==> self@.dom() =~= Set::<int>::empty(),
            r matches Some(p) ==> self@.contains_key(p@) && forall|q: int|
                self@.contains_key(q) ==> p@ <= q,
    {
        let prices = self.prices();
        if prices.len() == 0 {
            proof {
                assert(self@.dom() =~= Set::<int>::empty());
            }
            return None;
        }
        let p = prices[0];
        proof {
            let u = units_of(prices@);
            assert(u[0] == p@);
            assert(u.to_set().contains(u[0]));
            assert forall|q: int| self@.contains_key(q) implies p@ <= q by {
                assert(u.to_set().contains(q));
                let j = choose|j: int| 0 <= j < u.len() && u[j] == q;
                assert(u[0] <= u[j]);
            }
        }
        Some(p)
    }

    /// The highest price at which a level stands: the best of the bids.
    pub fn highest(&self) -> (r: Option<Amount>)
        ensures
            r is None <==> self@.dom() =~= Set::<int>::empty(),
            r matches Some(p) ==> self@.contains_key(p@) && forall|q: int|
                self@.contains_key(q) ==> q <= p@,
    {
        let prices = self.prices();
        if prices.len() == 0 {
            proof {
                assert(self@.dom() =~= Set::<int>::empty());
            }
            return None;
        }
        let last: usize = prices.len() - 1;
        let p = prices[last];
        proof {
            let u = units_of(prices@);
            assert(u[last as int] == p@);
            assert(u.to_set().contains(u[last as int]));
            assert forall|q: int| self@.contains_key(q) implies q <= p@ by {
                assert(u.to_set().contains(q));
                let j = choose|j: int| 0 <= j < u.len() && u[j] == q;
                assert(u[j] <= u[last as int]);
            }
        }
        Some(p)
    }

    /// Moves the levels out and leaves the side empty.
    fn take_levels(&mut self) -> (levels: BTreeMap<i128, Level>)
        ensures
            levels == old(self).levels,
            levels_ok(levels@),
            levels_view(levels@) == old(self)@,
            side_ok(old(self)@),
    {
        proof {
            use_type_invariant(&*self);
            assert(self@ =~= levels_view(self.levels@));
        }
        let mut owned = Side { levels: BTreeMap::new() };
        std::mem::swap(self, &mut owned);
        owned.levels
    }
}

/// The levels of a map from prices to levels.
pub closed spec fn levels_view(levels: Map<i128, Level>) -> Map<int, Seq<int>> {
    Map::new(
        |p: int| i128::MIN <= p <= i128::MAX && levels.contains_key(p as i128),
        |p: int| levels[p as i128]@,
    )
}

/// Every level of the map is well formed and stands at a price in range.
pub closed spec fn levels_ok(levels: Map<i128, Level>) -> bool {
    forall|k: i128| #[trigger]
        levels.contains_key(k) ==> in_range(k as int) && levels[k].wf() && orders_ok(levels[k]@)
}

/// Well-formed levels make a well-formed side.
proof fn lemma_levels_ok(levels: Map<i128, Level>)
    requires
        levels_ok(levels),
    ensures
        side_ok(levels_view(levels)),
{
    let m = levels_view(levels);
    assert forall|p: int| #[trigger] m.contains_key(p) implies in_range(p) && orders_ok(m[p]) by {
        assert(levels.contains_key(p as i128));
    }
}

/// The orders of a level as amounts.
fn level_orders(level: &Level) -> (r: Vec<Amount>)
    ensures
        units_of(r@) == level@,
{
    let n: usize = level.len();
    let mut out: Vec<Amount> = Vec::new();
    let mut i: usize = 0;
    while i < n
        invariant
            i <= n,
            n == level@.len(),
            out.len() == i,
            forall|j: int| 0 <= j < i ==> out[j]@ == level@[j],
        decreases n - i,
    {
        out.push(level.order(i));
        i = i + 1;
    }
    proof {
        assert(units_of(out@) =~= level@);
    }
    out
}

/// Applies one row of an update to the levels.
fn apply_row_to(levels: &mut BTreeMap<i128, Level>, price: Amount, qty: Amount)
    requires
        levels_ok(old(levels)@),
    ensures
        levels_ok(final(levels)@),
        levels_view(final(levels)@) == apply_row(levels_view(old(levels)@), price@, qty@),
        side_ok(levels_view(final(levels)@)),
{
    broadcast use vstd::std_specs::btree::group_btree_axioms;
    proof {
        lemma_integer_keys();
    }
    let p: i128 = price.units();
    let q: i128 = qty.units();
    let ghost levels_before = levels@;
    let ghost before = levels_view(levels@);
    if q == 0 {
        levels.remove(&p);
        proof {
            assert(levels@ == levels_before.remove(p));
            assert(levels_view(levels@) =~= before.remove(p as int));
        }
    } else if q > 0 {
        match levels.remove(&p) {
            Some(level) => {
                let next = level.repriced(qty);
                proof {
                    lemma_reprice_ok(level@, q as int);
                }
                levels.insert(p, next);
                proof {
                    assert(levels@ == levels_before.remove(p).insert(p, next));
                    assert(levels_view(levels@) =~= before.insert(
                        p as int,
                        reprice(before[p as int], q as int),
                    ));
                }
            },
            None => {
                let next = Level::single(qty);
                proof {
                    lemma_sum_single(q as int);
                }
                levels.insert(p, next);
                proof {
                    assert(levels@ == levels_before.remove(p).insert(p, next));
                    assert(levels_view(levels@) =~= before.insert(p as int, seq![q as int]));
                }
            },
        }
    }
    proof {
        lemma_levels_ok(levels@);
    }
}

} // verus!
