//! Clustering of the estimated orders of one side by their size.
//!
//! The orders are laid out in the order in which the side is walked, their
//! sizes are rescaled to the span between the smallest and the largest, and
//! a mini-batch k-means over that one axis gives each order a label. Labels
//! are numbered by the size of their centroid, so that a redraw keeps them.

use vstd::prelude::*;
use rand::Rng;
use crate::amount::Amount;
use crate::centroids::{
    LIMIT, bounded, closest, closest_centroid, draws, initial_centroids, initialize_centroids,
    lemma_rank_in_range, lemma_rank_orders_centroids, normalize, normalized, rank, rank_of,
    step_centroids, trained, vals,
};
use crate::side::{Side, rows_view, sorted_prices, units_of};

verus! {

/// The positive ones among the orders of a level, in their order.
pub open spec fn positive(s: Seq<int>) -> Seq<int>
    decreases s.len(),
{
    if s.len() == 0 {
        Seq::empty()
    } else if s.last() > 0 {
        positive(s.drop_last()).push(s.last())
    } else {
        positive(s.drop_last())
    }
}

/// The positive orders at the given prices, each with its price: price by
/// price, and at each price oldest first.
pub open spec fn flat_orders(m: Map<int, Seq<int>>, prices: Seq<int>) -> Seq<(int, int)>
    decreases prices.len(),
{
    if prices.len() == 0 {
        Seq::empty()
    } else {
        let p = prices.last();
        flat_orders(m, prices.drop_last()) + positive(m[p]).map_values(|q: int| (p, q))
    }
}

/// The positive orders of a side, each with its price, as the side is
/// walked: by ascending price, and at each price oldest first.
pub open spec fn book_orders(m: Map<int, Seq<int>>) -> Seq<(int, int)> {
    flat_orders(m, sorted_prices(m))
}

/// The orders at one price, each with the label of its cluster.
#[derive(Debug)]
pub struct ClusteredLevel {
    pub price: Amount,
    /// Size and label of each positive order, oldest first.
    pub orders: Vec<(Amount, usize)>,
}

/// A level with labels as plain values: the price, then size and label of
/// each order.
impl View for ClusteredLevel {
    type V = (int, Seq<(int, int)>);

    open spec fn view(&self) -> (int, Seq<(int, int)>) {
        (self.price@, self.orders@.map_values(|o: (Amount, usize)| (o.0@, o.1 as int)))
    }
}

/// The levels of a vector as plain values.
pub open spec fn levels_view(levels: Seq<ClusteredLevel>) -> Seq<(int, Seq<(int, int)>)> {
    levels.map_values(|l: ClusteredLevel| l@)
}

/// The level at position `i` of the walk with its labels: the positive
/// orders at that price take the labels that follow those of the prices
/// before it.
pub open spec fn clustered_level(
    m: Map<int, Seq<int>>,
    prices: Seq<int>,
    labels: Seq<int>,
    i: int,
) -> (int, Seq<(int, int)>) {
    let orders = positive(m[prices[i]]);
    let offset = flat_orders(m, prices.take(i)).len();
    (prices[i], Seq::new(orders.len(), |j: int| (orders[j], labels[offset + j])))
}

/// The side with the labels given back to its orders: one level for each
/// price, ascending.
pub open spec fn clustered(m: Map<int, Seq<int>>, labels: Seq<int>) -> Seq<
    (int, Seq<(int, int)>),
> {
    let prices = sorted_prices(m);
    Seq::new(prices.len(), |i: int| clustered_level(m, prices, labels, i))
}

/// One more order at the end of a level is one more positive order, or none.
pub proof fn lemma_positive_push(s: Seq<int>, q: int)
    ensures
        positive(s.push(q)) == if q > 0 {
            positive(s).push(q)
        } else {
            positive(s)
        },
{
    assert(s.push(q).drop_last() =~= s);
}

/// One more price in the walk adds the positive orders at that price.
pub proof fn lemma_flat_orders_step(m: Map<int, Seq<int>>, prices: Seq<int>, i: int)
    requires
        0 <= i < prices.len(),
    ensures
        flat_orders(m, prices.take(i + 1)) == flat_orders(m, prices.take(i)) + positive(
            m[prices[i]],
        ).map_values(|q: int| (prices[i], q)),
{
    assert(prices.take(i + 1).drop_last() =~= prices.take(i));
    assert(prices.take(i + 1).last() == prices[i]);
}

/// The orders of a prefix of the walk are a prefix of the orders of the
/// whole walk.
pub proof fn lemma_flat_orders_grow(m: Map<int, Seq<int>>, prices: Seq<int>, i: int)
    requires
        0 <= i <= prices.len(),
    ensures
        flat_orders(m, prices.take(i)).len() <= flat_orders(m, prices).len(),
    decreases prices.len() - i,
{
    if i < prices.len() {
        lemma_flat_orders_step(m, prices, i);
        lemma_flat_orders_grow(m, prices, i + 1);
    } else {
        assert(prices.take(i) =~= prices);
    }
}

/// The labels as numbers.
pub open spec fn label_values(labels: Seq<usize>) -> Seq<int> {
    labels.map_values(|l: usize| l as int)
}

/// The positive orders of a side, each with its price, as the side is
/// walked.
pub fn flatten(order_book: &Side) -> (r: Vec<(Amount, Amount)>)
    ensures
        rows_view(r@) == book_orders(order_book@),
{
    let prices = order_book.prices();
    let ghost m = order_book@;
    let ghost ps = units_of(prices@);
    let mut out: Vec<(Amount, Amount)> = Vec::new();
    let mut i: usize = 0;
    proof {
        assert(rows_view(out@) =~= flat_orders(m, ps.take(0)));
    }
    while i < prices.len()
        invariant
            i <= prices.len(),
            m == order_book@,
            ps == units_of(prices@),
            ps.to_set() == m.dom(),
            rows_view(out@) == flat_orders(m, ps.take(i as int)),
        decreases prices.len() - i,
    {
        let price = prices[i];
        proof {
            assert(ps[i as int] == price@);
            assert(ps.to_set().contains(ps[i as int]));
            lemma_flat_orders_step(m, ps, i as int);
        }
        let orders = match order_book.orders_at(price) {
            Some(v) => v,
            None => Vec::new(),
        };
        let ghost level = units_of(orders@);
        let ghost before = rows_view(out@);
        let mut j: usize = 0;
        proof {
            assert(level.take(0) =~= Seq::<int>::empty());
            assert(rows_view(out@) =~= before + positive(level.take(0)).map_values(
                |q: int| (price@, q),
            ));
        }
        while j < orders.len()
            invariant
                j <= orders.len(),
                level == units_of(orders@),
                rows_view(out@) == before + positive(level.take(j as int)).map_values(
                    |q: int| (price@, q),
                ),
            decreases orders.len() - j,
        {
            let qty = orders[j];
            proof {
                assert(level.take(j + 1) =~= level.take(j as int).push(qty@));
                lemma_positive_push(level.take(j as int), qty@);
            }
            let ghost seen = rows_view(out@);
            if qty.is_positive() {
                out.push((price, qty));
                proof {
                    assert(rows_view(out@) =~= seen.push((price@, qty@)));
                    assert(rows_view(out@) =~= before + positive(level.take(j + 1)).map_values(
                        |q: int| (price@, q),
                    ));
                }
            }
            j = j + 1;
        }
        proof {
            assert(level.take(orders.len() as int) =~= level);
        }
        i = i + 1;
    }
    proof {
        assert(ps.take(prices.len() as int) =~= ps);
    }
    out
}

/// Gives the labels back to the orders of a side: the level at each price,
/// ascending, with every positive order beside its label. The labels are
/// those of the orders as the side is walked.
pub fn build_clustered_orders(order_book: &Side, labels: &Vec<usize>) -> (r: Vec<ClusteredLevel>)
    requires
        labels.len() >= book_orders(order_book@).len(),
    ensures
        levels_view(r@) == clustered(order_book@, label_values(labels@)),
{
    let prices = order_book.prices();
    let ghost m = order_book@;
    let ghost ps = units_of(prices@);
    let ghost ls = label_values(labels@);
    let mut out: Vec<ClusteredLevel> = Vec::new();
    let mut idx: usize = 0;
    let mut i: usize = 0;
    proof {
        assert(flat_orders(m, ps.take(0)).len() == 0);
    }
    while i < prices.len()
        invariant
            i <= prices.len(),
            m == order_book@,
            ps == units_of(prices@),
            ps == sorted_prices(m),
            ps.to_set() == m.dom(),
            labels.len() >= flat_orders(m, ps).len(),
            idx == flat_orders(m, ps.take(i as int)).len(),
            out.len() == i,
            ls == label_values(labels@),
            forall|k: int| 0 <= k < i ==> (#[trigger] out[k])@ == clustered_level(m, ps, ls, k),
        decreases prices.len() - i,
    {
        let price = prices[i];
        proof {
            assert(ps[i as int] == price@);
            assert(ps.to_set().contains(ps[i as int]));
            lemma_flat_orders_step(m, ps, i as int);
            lemma_flat_orders_grow(m, ps, i + 1);
        }
        let orders = match order_book.orders_at(price) {
            Some(v) => v,
            None => Vec::new(),
        };
        let ghost level = units_of(orders@);
        let ghost offset = idx as int;
        let mut entry: Vec<(Amount, usize)> = Vec::new();
        let mut j: usize = 0;
        proof {
            assert(level.take(0) =~= Seq::<int>::empty());
        }
        while j < orders.len()
            invariant
                j <= orders.len(),
                level == units_of(orders@),
                offset + positive(level).len() <= labels.len(),
                positive(level.take(j as int)).len() <= positive(level).len(),
                idx == offset + positive(level.take(j as int)).len(),
                entry.len() == positive(level.take(j as int)).len(),
                forall|k: int|
                    0 <= k < entry.len() ==> (#[trigger] entry[k]).0@ == positive(
                        level.take(j as int),
                    )[k] && entry[k].1 == labels[offset + k],
            decreases orders.len() - j,
        {
            let qty = orders[j];
            proof {
                assert(level.take(j + 1) =~= level.take(j as int).push(qty@));
                lemma_positive_push(level.take(j as int), qty@);
                lemma_positive_prefix(level, j + 1);
            }
            if qty.is_positive() {
                entry.push((qty, labels[idx]));
                idx = idx + 1;
            }
            j = j + 1;
        }
        proof {
            assert(level.take(orders.len() as int) =~= level);
        }
        let made = ClusteredLevel { price, orders: entry };
        proof {
            assert(made@.1 =~= clustered_level(m, ps, ls, i as int).1);
        }
        out.push(made);
        i = i + 1;
    }
    proof {
        assert(levels_view(out@) =~= clustered(m, ls));
    }
    out
}

/// A prefix of a level holds no more positive orders than the level.
pub proof fn lemma_positive_prefix(s: Seq<int>, n: int)
    requires
        0 <= n <= s.len(),
    ensures
        positive(s.take(n)).len() <= positive(s).len(),
    decreases s.len() - n,
{
    if n < s.len() {
        assert(s.take(n + 1) =~= s.take(n).push(s[n]));
        lemma_positive_push(s.take(n), s[n]);
        lemma_positive_prefix(s, n + 1);
    } else {
        assert(s.take(n) =~= s);
    }
}

/// The sizes of the orders.
pub open spec fn sizes_of(orders: Seq<(int, int)>) -> Seq<int> {
    orders.map_values(|o: (int, int)| o.1)
}

/// The points that a side gives the clusterer: the sizes of its positive
/// orders, as the side is walked, rescaled to their span.
pub open spec fn points_of(m: Map<int, Seq<int>>) -> Seq<int> {
    normalized(sizes_of(book_orders(m)))
}

/// The centroids with which a fit starts: those carried over from the fit
/// before, where there are as many as clusters, else evenly spaced picks
/// from the points.
pub open spec fn starting(carried: Seq<int>, points: Seq<int>, k: int) -> Seq<int> {
    if carried.len() == 0 || carried.len() != k {
        initial_centroids(points, k)
    } else {
        carried
    }
}

/// The label of a point: the place, by ascending value, of the centroid
/// nearest to it.
pub open spec fn label_of(centroids: Seq<int>, p: int) -> int {
    rank(centroids, closest(centroids, p))
}

/// The label of each point.
pub open spec fn labels_of(centroids: Seq<int>, points: Seq<int>) -> Seq<int> {
    points.map_values(|p: int| label_of(centroids, p))
}

/// The clusterer as plain values.
pub struct KMeansView {
    pub num_clusters: usize,
    pub batch_size: usize,
    pub max_iter: usize,
    pub centroids: Seq<int>,
}

/// A clusterer that carries no centroids.
pub open spec fn fresh(num_clusters: usize, batch_size: usize, max_iter: usize) -> KMeansView {
    KMeansView { num_clusters, batch_size, max_iter, centroids: Seq::empty() }
}

/// The centroids after a fit of the side with the given mini-batches. A side
/// without positive orders leaves them as they are.
pub open spec fn fitted_centroids(s: KMeansView, m: Map<int, Seq<int>>, batches: Seq<Seq<int>>) -> Seq<
    int,
> {
    let points = points_of(m);
    if points.len() == 0 {
        s.centroids
    } else {
        trained(starting(s.centroids, points, s.num_clusters as int), points, batches)
    }
}

/// The labels that a fit of the side with the given mini-batches gives: one
/// for each positive order, as the side is walked.
pub open spec fn fitted_labels(s: KMeansView, m: Map<int, Seq<int>>, batches: Seq<Seq<int>>) -> Seq<
    int,
> {
    labels_of(fitted_centroids(s, m, batches), points_of(m))
}

/// Whether the mini-batches are such as a fit draws them: as many as
/// iterations, each of the batch size or of the number of points where that
/// is less, and each draw the position of a point.
pub open spec fn drawn_for(batches: Seq<Seq<int>>, s: KMeansView, n: int) -> bool {
    &&& batches.len() == s.max_iter
    &&& forall|t: int|
        0 <= t < batches.len() ==> (#[trigger] batches[t]).len() == if s.batch_size <= n {
            s.batch_size as int
        } else {
            n
        }
    &&& forall|t: int, j: int|
        0 <= t < batches.len() && 0 <= j < batches[t].len() ==> 0 <= #[trigger] batches[t][j] < n
}

/// The mini-batches as numbers.
pub open spec fn batches_view(batches: Seq<Vec<usize>>) -> Seq<Seq<int>> {
    batches.map_values(|b: Vec<usize>| draws(b@))
}

/// Every label is below the number of centroids.
pub proof fn lemma_labels_in_range(centroids: Seq<int>, points: Seq<int>, i: int)
    requires
        centroids.len() > 0,
        0 <= i < points.len(),
    ensures
        0 <= labels_of(centroids, points)[i] < centroids.len(),
{
    lemma_rank_in_range(centroids, closest(centroids, points[i]));
}

/// Of two points, the one with the smaller label has the centroid of no
/// larger value: labels number the clusters by ascending centroid.
pub proof fn lemma_labels_follow_centroids(centroids: Seq<int>, points: Seq<int>, i: int, j: int)
    requires
        centroids.len() > 0,
        0 <= i < points.len(),
        0 <= j < points.len(),
        labels_of(centroids, points)[i] <= labels_of(centroids, points)[j],
    ensures
        centroids[closest(centroids, points[i])] <= centroids[closest(centroids, points[j])],
{
    let a = closest(centroids, points[i]);
    let b = closest(centroids, points[j]);
    crate::centroids::lemma_closest_exists(centroids, points[i]);
    crate::centroids::lemma_closest_exists(centroids, points[j]);
    lemma_rank_orders_centroids(centroids, a, b);
}

/// A fit without iterations that starts from carried centroids hands them
/// on: a second such fit of the same side gives the same labels.
pub proof fn lemma_refit_without_batches(s: KMeansView, m: Map<int, Seq<int>>)
    requires
        points_of(m).len() > 0,
        s.num_clusters > 0,
    ensures
        ({
            let none = Seq::<Seq<int>>::empty();
            let once = KMeansView { centroids: fitted_centroids(s, m, none), ..s };
            fitted_labels(once, m, none) == fitted_labels(s, m, none)
        }),
{
    let none = Seq::<Seq<int>>::empty();
    let points = points_of(m);
    let first = fitted_centroids(s, m, none);
    assert(first == starting(s.centroids, points, s.num_clusters as int));
    assert(first.len() == s.num_clusters);
}

/// Draws a position below `n` with `rand::Rng::random_range` on the
/// generator of the thread, `rand::rng()`. Which position comes back is
/// open; it is below `n`.
#[verifier::external_body]
fn random_index(n: usize) -> (r: usize)
    requires
        n > 0,
    ensures
        r < n,
{
    rand::rng().random_range(0..n)
}

/// Draws a mini-batch of `size` positions below `n`, with replacement.
fn draw_batch(size: usize, n: usize) -> (r: Vec<usize>)
    requires
        n > 0,
    ensures
        r.len() == size,
        forall|j: int| 0 <= j < r.len() ==> 0 <= #[trigger] draws(r@)[j] < n,
{
    let mut out: Vec<usize> = Vec::new();
    let mut j: usize = 0;
    while j < size
        invariant
            j <= size,
            n > 0,
            out.len() == j,
            forall|t: int| 0 <= t < j ==> #[trigger] out[t] < n,
        decreases size - j,
    {
        out.push(random_index(n));
        j = j + 1;
    }
    out
}

/// A mini-batch k-means over the sizes of the orders of one side. It keeps
/// its centroids from one fit to the next.
#[derive(Debug)]
pub struct MiniBatchKMeans {
    num_clusters: usize,
    batch_size: usize,
    max_iter: usize,
    centroids: Vec<u128>,
}

impl View for MiniBatchKMeans {
    type V = KMeansView;

    closed spec fn view(&self) -> KMeansView {
        KMeansView {
            num_clusters: self.num_clusters,
            batch_size: self.batch_size,
            max_iter: self.max_iter,
            centroids: vals(self.centroids@),
        }
    }
}

impl MiniBatchKMeans {
    /// The carried centroids are within bounds.
    #[verifier::type_invariant]
    pub closed spec fn wf(&self) -> bool {
        bounded(vals(self.centroids@))
    }

    /// A clusterer that carries no centroids yet.
    pub fn new(num_clusters: usize, batch_size: usize, max_iter: usize) -> (r: Self)
        ensures
            r@ == fresh(num_clusters, batch_size, max_iter),
    {
        let r = Self { num_clusters, batch_size, max_iter, centroids: Vec::new() };
        assert(r@.centroids =~= Seq::<int>::empty());
        r
    }

    /// The centroids that the last fit left, in the order in which they are
    /// held; none before the first fit.
    pub fn centroids(&self) -> (r: Vec<u128>)
        ensures
            vals(r@) == self@.centroids,
            bounded(vals(r@)),
    {
        proof {
            use_type_invariant(self);
        }
        let mut out: Vec<u128> = Vec::new();
        let mut j: usize = 0;
        while j < self.centroids.len()
            invariant
                j <= self.centroids.len(),
                out.len() == j,
                forall|t: int| 0 <= t < j ==> #[trigger] out[t] == self.centroids[t],
            decreases self.centroids.len() - j,
        {
            out.push(self.centroids[j]);
            j = j + 1;
        }
        proof {
            assert(vals(out@) =~= vals(self.centroids@));
        }
        out
    }

    /// The points of the side and the centroids with which a fit of it
    /// starts.
    fn prepare(&self, order_book: &Side) -> (r: (Vec<u128>, Vec<u128>))
        ensures
            vals(r.0@) == points_of(order_book@),
            bounded(vals(r.0@)),
            bounded(vals(r.1@)),
            r.0.len() > 0 ==> vals(r.1@) == starting(
                self@.centroids,
                points_of(order_book@),
                self@.num_clusters as int,
            ),
    {
        proof {
            use_type_invariant(self);
        }
        let orders = flatten(order_book);
        let ghost sizes = sizes_of(book_orders(order_book@));
        let mut raw: Vec<u128> = Vec::new();
        let mut i: usize = 0;
        while i < orders.len()
            invariant
                i <= orders.len(),
                rows_view(orders@) == book_orders(order_book@),
                sizes == sizes_of(book_orders(order_book@)),
                raw.len() == i,
                forall|j: int| 0 <= j < i ==> #[trigger] raw[j] as int == sizes[j],
                forall|j: int| 0 <= j < i ==> 0 <= #[trigger] raw[j] <= LIMIT,
            decreases orders.len() - i,
        {
            let q: i128 = orders[i].1.units();
            proof {
                assert(rows_view(orders@)[i as int] == (orders[i as int].0@, orders[i as int].1@));
                assert(sizes[i as int] == q);
            }
            if q > 0 {
                raw.push(q as u128);
            } else {
                raw.push(0);
            }
            proof {
                lemma_book_orders_positive(order_book@, sorted_prices(order_book@), i as int);
            }
            i = i + 1;
        }
        proof {
            assert(vals(raw@) =~= sizes);
        }
        let points = normalize(&raw);
        let mut centroids: Vec<u128> = Vec::new();
        if points.len() > 0 {
            if self.centroids.len() == 0 || self.centroids.len() != self.num_clusters {
                centroids = initialize_centroids(&points, self.num_clusters);
            } else {
                centroids = self.centroids();
            }
        }
        (points, centroids)
    }

    /// The label of each point under the centroids.
    fn assign_labels(centroids: &Vec<u128>, points: &Vec<u128>) -> (r: Vec<usize>)
        ensures
            label_values(r@) == labels_of(vals(centroids@), vals(points@)),
            r.len() == points.len(),
            centroids.len() > 0 ==> forall|i: int| 0 <= i < r.len() ==> #[trigger] r[i] < centroids.len(),
    {
        let mut labels: Vec<usize> = Vec::new();
        let mut i: usize = 0;
        while i < points.len()
            invariant
                i <= points.len(),
                labels.len() == i,
                forall|j: int|
                    0 <= j < i ==> #[trigger] labels[j] as int == label_of(
                        vals(centroids@),
                        vals(points@)[j],
                    ),
                centroids.len() > 0 ==> forall|j: int|
                    0 <= j < i ==> #[trigger] labels[j] < centroids.len(),
            decreases points.len() - i,
        {
            let p: u128 = points[i];
            assert(vals(points@)[i as int] == p);
            let near: usize = closest_centroid(centroids, p);
            labels.push(rank_of(centroids, near));
            i = i + 1;
        }
        proof {
            assert(label_values(labels@) =~= labels_of(vals(centroids@), vals(points@)));
        }
        labels
    }

    /// Fits the clusterer to the side with mini-batches that the caller
    /// gives, each a vector of positions of points, and hands back the label
    /// of each positive order, as the side is walked. A position that names
    /// no point is passed over.
    pub fn fit_with_batches(&mut self, order_book: &Side, batches: &Vec<Vec<usize>>) -> (labels:
        Vec<usize>)
        ensures
            final(self)@ == (KMeansView {
                centroids: fitted_centroids(old(self)@, order_book@, batches_view(batches@)),
                ..old(self)@
            }),
            label_values(labels@) == fitted_labels(
                old(self)@,
                order_book@,
                batches_view(batches@),
            ),
            labels.len() == book_orders(order_book@).len(),
            old(self)@.num_clusters > 0 ==> forall|i: int|
                0 <= i < labels.len() ==> #[trigger] labels[i] < old(self)@.num_clusters,
    {
        let (points, start) = self.prepare(order_book);
        if points.len() == 0 {
            proof {
                assert(label_values(Seq::<usize>::empty()) =~= labels_of(
                    self@.centroids,
                    points_of(order_book@),
                ));
            }
            return Vec::new();
        }
        let ghost ps = vals(points@);
        let ghost all = batches_view(batches@);
        let mut centroids = start;
        let mut t: usize = 0;
        proof {
            assert(all.take(0) =~= Seq::<Seq<int>>::empty());
            lemma_start_len(old(self)@.centroids, ps, old(self)@.num_clusters as int);
        }
        while t < batches.len()
            invariant
                t <= batches.len(),
                ps == vals(points@),
                all == batches_view(batches@),
                bounded(ps),
                bounded(vals(centroids@)),
                centroids.len() == old(self)@.num_clusters,
                vals(centroids@) == trained(vals(start@), ps, all.take(t as int)),
            decreases batches.len() - t,
        {
            proof {
                assert(all.take(t + 1).drop_last() =~= all.take(t as int));
                assert(all.take(t + 1).last() == draws(batches[t as int]@));
            }
            centroids = step_centroids(&centroids, &points, &batches[t]);
            t = t + 1;
        }
        proof {
            assert(all.take(batches.len() as int) =~= all);
        }
        let labels = Self::assign_labels(&centroids, &points);
        self.centroids = centroids;
        labels
    }

    /// Fits the clusterer to the side and hands back the label of each
    /// positive order, as the side is walked. The mini-batches are drawn at
    /// random: the labels are those that [`Self::fit_with_batches`] gives
    /// for the batches that were drawn.
    pub fn fit(&mut self, order_book: &Side) -> (labels: Vec<usize>)
        ensures
            exists|batches: Seq<Seq<int>>|
                {
                    &&& drawn_for(batches, old(self)@, points_of(order_book@).len() as int)
                    &&& #[trigger] fitted_centroids(old(self)@, order_book@, batches)
                        == final(self)@.centroids
                    &&& label_values(labels@) == fitted_labels(old(self)@, order_book@, batches)
                },
            final(self)@.num_clusters == old(self)@.num_clusters,
            final(self)@.batch_size == old(self)@.batch_size,
            final(self)@.max_iter == old(self)@.max_iter,
            labels.len() == book_orders(order_book@).len(),
            old(self)@.num_clusters > 0 ==> forall|i: int|
                0 <= i < labels.len() ==> #[trigger] labels[i] < old(self)@.num_clusters,
    {
        let (points, start) = self.prepare(order_book);
        let ghost ps = vals(points@);
        let n: usize = points.len();
        let size: usize = if self.batch_size <= n {
            self.batch_size
        } else {
            n
        };
        let mut centroids = start;
        let ghost mut drawn: Seq<Seq<int>> = Seq::empty();
        let mut t: usize = 0;
        proof {
            if n > 0 {
                lemma_start_len(old(self)@.centroids, ps, old(self)@.num_clusters as int);
            }
        }
        while t < self.max_iter
            invariant
                t <= self.max_iter,
                self@ == old(self)@,
                n == points.len(),
                ps == vals(points@),
                bounded(ps),
                bounded(vals(centroids@)),
                size == if self@.batch_size <= n {
                    self@.batch_size
                } else {
                    n
                },
                n > 0 ==> centroids.len() == old(self)@.num_clusters,
                drawn.len() == t,
                forall|a: int| 0 <= a < drawn.len() ==> (#[trigger] drawn[a]).len() == size,
                forall|a: int, j: int|
                    0 <= a < drawn.len() && 0 <= j < drawn[a].len() ==> 0 <= #[trigger] drawn[a][j]
                        < n,
                n > 0 ==> vals(centroids@) == trained(vals(start@), ps, drawn),
            decreases self.max_iter - t,
        {
            if n > 0 {
                let batch = draw_batch(size, n);
                let ghost before = drawn;
                proof {
                    drawn = drawn.push(draws(batch@));
                    assert(drawn.drop_last() =~= before);
                }
                centroids = step_centroids(&centroids, &points, &batch);
            } else {
                proof {
                    drawn = drawn.push(Seq::empty());
                }
            }
            t = t + 1;
        }
        if n == 0 {
            proof {
                assert(label_values(Seq::<usize>::empty()) =~= labels_of(
                    self@.centroids,
                    points_of(order_book@),
                ));
                assert(drawn_for(drawn, old(self)@, 0));
                assert(fitted_centroids(old(self)@, order_book@, drawn) == self@.centroids);
            }
            return Vec::new();
        }
        let labels = Self::assign_labels(&centroids, &points);
        self.centroids = centroids;
        proof {
            assert(drawn_for(drawn, old(self)@, n as int));
            assert(fitted_centroids(old(self)@, order_book@, drawn) == self@.centroids);
        }
        labels
    }
}

/// The centroids with which a fit starts are as many as clusters.
proof fn lemma_start_len(carried: Seq<int>, points: Seq<int>, k: int)
    requires
        k >= 0,
    ensures
        starting(carried, points, k).len() == k,
{
}

/// Every order of the walk is positive.
proof fn lemma_book_orders_positive(m: Map<int, Seq<int>>, prices: Seq<int>, i: int)
    requires
        0 <= i < flat_orders(m, prices).len(),
    ensures
        flat_orders(m, prices)[i].1 > 0,
    decreases prices.len(),
{
    if prices.len() > 0 {
        let front = flat_orders(m, prices.drop_last());
        if i < front.len() {
            lemma_book_orders_positive(m, prices.drop_last(), i);
        } else {
            lemma_positive_all(m[prices.last()], i - front.len());
        }
    }
}

/// The positive orders of a level are positive.
proof fn lemma_positive_all(s: Seq<int>, i: int)
    requires
        0 <= i < positive(s).len(),
    ensures
        positive(s)[i] > 0,
    decreases s.len(),
{
    if s.len() > 0 {
        if i < positive(s.drop_last()).len() {
            lemma_positive_all(s.drop_last(), i);
        }
    }
}

/// Clusters the orders of a side with a clusterer made for the call and
/// gives each order its label.
pub fn cluster_order_book(
    order_book: &Side,
    num_classes: usize,
    batch_size: usize,
    max_iter: usize,
) -> (r: Vec<ClusteredLevel>)
    ensures
        exists|batches: Seq<Seq<int>>|
            {
                &&& drawn_for(
                    batches,
                    fresh(num_classes, batch_size, max_iter),
                    points_of(order_book@).len() as int,
                )
                &&& levels_view(r@) == clustered(
                    order_book@,
                    #[trigger] fitted_labels(
                        fresh(num_classes, batch_size, max_iter),
                        order_book@,
                        batches,
                    ),
                )
            },
{
    let mut kmeans = MiniBatchKMeans::new(num_classes, batch_size, max_iter);
    let labels = kmeans.fit(order_book);
    build_clustered_orders(order_book, &labels)
}

} // verus!
