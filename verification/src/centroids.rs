//! The arithmetic of one-dimensional k-means on whole numbers: the nearest
//! centroid of a point, the step that a mini-batch makes the centroids take,
//! and the numbering of the centroids by their value.

use vstd::prelude::*;
use vstd::arithmetic::div_mod::{lemma_fundamental_div_mod, lemma_fundamental_div_mod_converse};
use vstd::arithmetic::power2::{lemma2_to64, lemma_pow2_unfold, pow2};
use vstd::relations::{sorted_by, total_ordering};
use vstd::seq_lib::lemma_sorted_unique;

verus! {

/// Largest value of a point or a centroid: `10^36`.
pub const LIMIT: u128 = 1_000_000_000_000_000_000_000_000_000_000_000_000;

/// The values of a vector of points or centroids.
pub open spec fn vals(s: Seq<u128>) -> Seq<int> {
    s.map_values(|x: u128| x as int)
}

/// Every value lies between zero and [`LIMIT`].
pub open spec fn bounded(s: Seq<int>) -> bool {
    forall|i: int| 0 <= i < s.len() ==> 0 <= #[trigger] s[i] <= LIMIT
}

/// Distance between two values.
pub open spec fn dist(a: int, b: int) -> int {
    if a >= b {
        a - b
    } else {
        b - a
    }
}

/// `i` is the first among the centroids that are nearest to `p`.
pub open spec fn is_closest(centroids: Seq<int>, p: int, i: int) -> bool {
    &&& 0 <= i < centroids.len()
    &&& forall|j: int| 0 <= j < centroids.len() ==> dist(centroids[i], p) <= dist(centroids[j], p)
    &&& forall|j: int| 0 <= j < i ==> dist(centroids[i], p) < dist(centroids[j], p)
}

/// The first among the centroids that are nearest to `p`; zero where there
/// is no centroid.
pub open spec fn closest(centroids: Seq<int>, p: int) -> int {
    if centroids.len() == 0 {
        0
    } else {
        choose|i: int| is_closest(centroids, p, i)
    }
}

/// Only one centroid is the first among the nearest.
pub proof fn lemma_closest_unique(centroids: Seq<int>, p: int, i: int)
    requires
        is_closest(centroids, p, i),
    ensures
        closest(centroids, p) == i,
{
    let r = closest(centroids, p);
    assert(is_closest(centroids, p, r));
    if r < i {
        assert(dist(centroids[i], p) < dist(centroids[r], p));
    } else if i < r {
        assert(dist(centroids[r], p) < dist(centroids[i], p));
    }
}

/// Where there are centroids, one of them is the first among the nearest.
pub proof fn lemma_closest_exists(centroids: Seq<int>, p: int)
    requires
        centroids.len() > 0,
    ensures
        is_closest(centroids, p, closest(centroids, p)),
    decreases centroids.len(),
{
    if centroids.len() == 1 {
        assert(is_closest(centroids, p, 0));
    } else {
        let front = centroids.drop_last();
        lemma_closest_exists(front, p);
        let r = closest(front, p);
        let last = centroids.len() - 1;
        if dist(centroids[last], p) < dist(front[r], p) {
            assert(is_closest(centroids, p, last)) by {
                assert forall|j: int| 0 <= j < centroids.len() implies dist(centroids[last], p)
                    <= dist(centroids[j], p) by {
                    if j < last {
                        assert(dist(front[r], p) <= dist(front[j], p));
                    }
                }
                assert forall|j: int| 0 <= j < last implies dist(centroids[last], p) < dist(
                    centroids[j],
                    p,
                ) by {
                    assert(dist(front[r], p) <= dist(front[j], p));
                }
            }
        } else {
            assert(is_closest(centroids, p, r)) by {
                assert forall|j: int| 0 <= j < centroids.len() implies dist(centroids[r], p)
                    <= dist(centroids[j], p) by {
                    if j < last {
                        assert(dist(front[r], p) <= dist(front[j], p));
                    }
                }
                assert forall|j: int| 0 <= j < r implies dist(centroids[r], p) < dist(
                    centroids[j],
                    p,
                ) by {
                    assert(dist(front[r], p) < dist(front[j], p));
                }
            }
        }
    }
}

/// The first among the centroids that are nearest to `p`.
pub fn closest_centroid(centroids: &Vec<u128>, p: u128) -> (r: usize)
    ensures
        r == closest(vals(centroids@), p as int),
        centroids.len() > 0 ==> r < centroids.len(),
{
    if centroids.len() == 0 {
        return 0;
    }
    let mut best: usize = 0;
    let mut best_dist: u128 = distance(centroids[0], p);
    let mut i: usize = 1;
    while i < centroids.len()
        invariant
            0 <= best < i <= centroids.len(),
            best_dist == dist(centroids@[best as int] as int, p as int),
            forall|j: int| 0 <= j < i ==> best_dist <= dist(centroids@[j] as int, p as int),
            forall|j: int| 0 <= j < best ==> best_dist < dist(centroids@[j] as int, p as int),
        decreases centroids.len() - i,
    {
        let d: u128 = distance(centroids[i], p);
        if d < best_dist {
            best = i;
            best_dist = d;
        }
        i = i + 1;
    }
    proof {
        lemma_closest_unique(vals(centroids@), p as int, best as int);
    }
    best
}

/// Distance between two values.
pub fn distance(a: u128, b: u128) -> (r: u128)
    ensures
        r == dist(a as int, b as int),
{
    if a >= b {
        a - b
    } else {
        b - a
    }
}

/// A centroid after it took a step of one `n`-th of the way towards `mean`.
pub open spec fn moved(c: int, mean: int, n: int) -> int {
    if mean >= c {
        c + (mean - c) / n
    } else {
        c - (c - mean) / n
    }
}

/// Whether `idx` names a point and centroid `i` is the nearest to it.
pub open spec fn joins(centroids: Seq<int>, points: Seq<int>, idx: int, i: int) -> bool {
    0 <= idx < points.len() && closest(centroids, points[idx]) == i
}

/// The number of draws of a batch whose point is nearest to centroid `i`.
pub open spec fn batch_count(centroids: Seq<int>, points: Seq<int>, batch: Seq<int>, i: int) -> int
    decreases batch.len(),
{
    if batch.len() == 0 {
        0
    } else if joins(centroids, points, batch.last(), i) {
        batch_count(centroids, points, batch.drop_last(), i) + 1
    } else {
        batch_count(centroids, points, batch.drop_last(), i)
    }
}

/// The sum of the points of a batch that are nearest to centroid `i`, each
/// counted as often as it was drawn.
pub open spec fn batch_sum(centroids: Seq<int>, points: Seq<int>, batch: Seq<int>, i: int) -> int
    decreases batch.len(),
{
    if batch.len() == 0 {
        0
    } else if joins(centroids, points, batch.last(), i) {
        batch_sum(centroids, points, batch.drop_last(), i) + points[batch.last()]
    } else {
        batch_sum(centroids, points, batch.drop_last(), i)
    }
}

/// Centroid `i` after one mini-batch: where `n > 0` draws of the batch are
/// nearest to it, it takes a step of one `n`-th of the way towards the mean
/// of those draws; else it stays.
pub open spec fn stepped_at(centroids: Seq<int>, points: Seq<int>, batch: Seq<int>, i: int) -> int {
    let n = batch_count(centroids, points, batch, i);
    if n > 0 {
        moved(centroids[i], batch_sum(centroids, points, batch, i) / n, n)
    } else {
        centroids[i]
    }
}

/// The centroids after one mini-batch.
pub open spec fn stepped(centroids: Seq<int>, points: Seq<int>, batch: Seq<int>) -> Seq<int> {
    Seq::new(centroids.len(), |i: int| stepped_at(centroids, points, batch, i))
}

/// The centroids after the mini-batches, one after the other.
pub open spec fn trained(centroids: Seq<int>, points: Seq<int>, batches: Seq<Seq<int>>) -> Seq<int>
    decreases batches.len(),
{
    if batches.len() == 0 {
        centroids
    } else {
        stepped(trained(centroids, points, batches.drop_last()), points, batches.last())
    }
}

/// The draws of a batch as numbers.
pub open spec fn draws(batch: Seq<usize>) -> Seq<int> {
    batch.map_values(|x: usize| x as int)
}

/// A batch has no more draws for a centroid than it has draws, and their
/// points sum to no more than as many times the largest value.
proof fn lemma_batch_stats(centroids: Seq<int>, points: Seq<int>, batch: Seq<int>, i: int)
    requires
        bounded(points),
    ensures
        0 <= batch_count(centroids, points, batch, i) <= batch.len(),
        0 <= batch_sum(centroids, points, batch, i) <= batch_count(centroids, points, batch, i)
            * LIMIT,
    decreases batch.len(),
{
    if batch.len() > 0 {
        lemma_batch_stats(centroids, points, batch.drop_last(), i);
        let c = batch_count(centroids, points, batch.drop_last(), i);
        assert((c + 1) * LIMIT == c * LIMIT + LIMIT) by (nonlinear_arith);
    }
}

/// The beginning of a batch has no more draws for a centroid than the batch.
proof fn lemma_batch_count_prefix(
    centroids: Seq<int>,
    points: Seq<int>,
    batch: Seq<int>,
    i: int,
    n: int,
)
    requires
        0 <= n <= batch.len(),
    ensures
        batch_count(centroids, points, batch.take(n), i) <= batch_count(centroids, points, batch, i),
    decreases batch.len() - n,
{
    if n < batch.len() {
        assert(batch.take(n + 1).drop_last() =~= batch.take(n));
        lemma_batch_count_prefix(centroids, points, batch, i, n + 1);
    } else {
        assert(batch.take(n) =~= batch);
    }
}

/// A step towards a mean stays between the centroid and the mean.
pub proof fn lemma_moved_between(c: int, mean: int, n: int)
    requires
        n > 0,
    ensures
        mean >= c ==> c <= moved(c, mean, n) <= mean,
        mean < c ==> mean <= moved(c, mean, n) <= c,
{
    let d = if mean >= c {
        mean - c
    } else {
        c - mean
    };
    lemma_fundamental_div_mod(d, n);
    assert(0 <= d / n <= d) by (nonlinear_arith)
        requires
            d >= 0,
            n > 0,
            d == n * (d / n) + d % n,
            0 <= d % n < n,
    ;
}

/// The nearest centroid of the point that a draw names; none for a draw
/// that names no point.
pub open spec fn nearest(centroids: Seq<int>, points: Seq<int>, idx: int) -> Option<int> {
    if 0 <= idx < points.len() {
        Some(closest(centroids, points[idx]))
    } else {
        None
    }
}

/// The nearest centroid of each draw of a batch.
fn assign_batch(centroids: &Vec<u128>, points: &Vec<u128>, batch: &Vec<usize>) -> (r: Vec<
    Option<usize>,
>)
    ensures
        r.len() == batch.len(),
        forall|j: int|
            0 <= j < batch.len() ==> recorded(#[trigger] r[j]) == nearest(
                vals(centroids@),
                vals(points@),
                batch[j] as int,
            ),
{
    let mut out: Vec<Option<usize>> = Vec::new();
    let mut j: usize = 0;
    while j < batch.len()
        invariant
            j <= batch.len(),
            out.len() == j,
            forall|t: int|
                0 <= t < j ==> recorded(#[trigger] out[t]) == nearest(
                    vals(centroids@),
                    vals(points@),
                    batch[t] as int,
                ),
        decreases batch.len() - j,
    {
        let idx: usize = batch[j];
        if idx < points.len() {
            let near: usize = closest_centroid(centroids, points[idx]);
            assert(vals(points@)[idx as int] == points@[idx as int]);
            out.push(Some(near));
        } else {
            out.push(None);
        }
        j = j + 1;
    }
    out
}

/// A recorded centroid as a number.
pub open spec fn recorded(a: Option<usize>) -> Option<int> {
    match a {
        Some(i) => Some(i as int),
        None => None,
    }
}

/// The number of draws of which centroid `i` is the nearest.
fn count_members(
    centroids: &Vec<u128>,
    points: &Vec<u128>,
    batch: &Vec<usize>,
    assigned: &Vec<Option<usize>>,
    i: usize,
) -> (n: usize)
    requires
        assigned.len() == batch.len(),
        forall|j: int|
            0 <= j < batch.len() ==> recorded(#[trigger] assigned[j]) == nearest(
                vals(centroids@),
                vals(points@),
                batch[j] as int,
            ),
    ensures
        n == batch_count(vals(centroids@), vals(points@), draws(batch@), i as int),
{
    let ghost cs = vals(centroids@);
    let ghost ps = vals(points@);
    let ghost b = draws(batch@);
    let mut n: usize = 0;
    let mut j: usize = 0;
    while j < assigned.len()
        invariant
            j <= assigned.len(),
            assigned.len() == batch.len(),
            cs == vals(centroids@),
            ps == vals(points@),
            b == draws(batch@),
            n == batch_count(cs, ps, b.take(j as int), i as int),
            n <= j,
            forall|t: int|
                0 <= t < batch.len() ==> recorded(#[trigger] assigned[t]) == nearest(
                    cs,
                    ps,
                    batch[t] as int,
                ),
        decreases assigned.len() - j,
    {
        proof {
            assert(b.take(j + 1).drop_last() =~= b.take(j as int));
            assert(b.take(j + 1).last() == b[j as int]);
            assert(recorded(assigned[j as int]) == nearest(cs, ps, batch[j as int] as int));
        }
        let member: bool = match assigned[j] {
            Some(a) => a == i,
            None => false,
        };
        if member {
            n = n + 1;
        }
        j = j + 1;
    }
    proof {
        assert(b.take(assigned.len() as int) =~= b);
    }
    n
}

/// The mean, rounded down, of the points of which centroid `i` is the
/// nearest, each counted as often as it was drawn.
fn mean_of_members(
    centroids: &Vec<u128>,
    points: &Vec<u128>,
    batch: &Vec<usize>,
    assigned: &Vec<Option<usize>>,
    i: usize,
    n: usize,
) -> (mean: u128)
    requires
        bounded(vals(points@)),
        assigned.len() == batch.len(),
        forall|j: int|
            0 <= j < batch.len() ==> recorded(#[trigger] assigned[j]) == nearest(
                vals(centroids@),
                vals(points@),
                batch[j] as int,
            ),
        n > 0,
        n == batch_count(vals(centroids@), vals(points@), draws(batch@), i as int),
    ensures
        mean as int == batch_sum(vals(centroids@), vals(points@), draws(batch@), i as int) / (
        n as int),
        mean <= LIMIT,
{
    let ghost cs = vals(centroids@);
    let ghost ps = vals(points@);
    let ghost b = draws(batch@);
    let size: u128 = n as u128;
    let mut quot: u128 = 0;
    let mut rem: u128 = 0;
    let mut j: usize = 0;
    while j < assigned.len()
        invariant
            j <= assigned.len(),
            assigned.len() == batch.len(),
            cs == vals(centroids@),
            ps == vals(points@),
            b == draws(batch@),
            bounded(ps),
            size == n,
            n > 0,
            n == batch_count(cs, ps, b, i as int),
            quot * size + rem == batch_sum(cs, ps, b.take(j as int), i as int),
            rem < size,
            quot <= LIMIT,
            forall|t: int|
                0 <= t < batch.len() ==> recorded(#[trigger] assigned[t]) == nearest(
                    cs,
                    ps,
                    batch[t] as int,
                ),
        decreases assigned.len() - j,
    {
        proof {
            assert(b.take(j + 1).drop_last() =~= b.take(j as int));
            assert(b.take(j + 1).last() == b[j as int]);
            assert(recorded(assigned[j as int]) == nearest(cs, ps, batch[j as int] as int));
            lemma_batch_stats(cs, ps, b.take(j + 1), i as int);
            lemma_batch_count_prefix(cs, ps, b, i as int, j + 1);
        }
        let member: bool = match assigned[j] {
            Some(a) => a == i,
            None => false,
        };
        if member {
            let p: u128 = points[batch[j]];
            assert(ps[batch[j as int] as int] == p);
            let ghost before_sum = quot * size + rem;
            let ghost q0 = quot as int;
            let ghost r0 = rem as int;
            proof {
                lemma_fundamental_div_mod(p as int, size as int);
            }
            let q1: u128 = p / size;
            let r1: u128 = p % size;
            assert(q1 <= LIMIT) by (nonlinear_arith)
                requires
                    p as int == size * q1 + r1,
                    r1 >= 0,
                    size >= 1,
                    p <= LIMIT,
                    q1 >= 0,
            ;
            quot = quot + q1;
            rem = rem + r1;
            if rem >= size {
                rem = rem - size;
                quot = quot + 1;
            }
            proof {
                let total = batch_sum(cs, ps, b.take(j + 1), i as int);
                let cnt = batch_count(cs, ps, b.take(j + 1), i as int);
                assert(total == before_sum + p);
                assert(quot * size + rem == before_sum + q1 * size + r1) by (nonlinear_arith)
                    requires
                        before_sum == q0 * size + r0,
                        (quot == q0 + q1 && rem == r0 + r1) || (quot == q0 + q1 + 1 && rem == r0
                            + r1 - size),
                ;
                assert(quot * size + rem == total) by (nonlinear_arith)
                    requires
                        total == before_sum + p,
                        p as int == size * q1 + r1,
                        quot * size + rem == before_sum + q1 * size + r1,
                ;
                assert(quot <= LIMIT) by (nonlinear_arith)
                    requires
                        quot * size + rem == total,
                        total <= cnt * LIMIT,
                        cnt <= size,
                        rem >= 0,
                        size >= 1,
                        quot >= 0,
                ;
            }
        }
        j = j + 1;
    }
    proof {
        assert(b.take(assigned.len() as int) =~= b);
        let total = batch_sum(cs, ps, b, i as int);
        assert(total == size * quot + rem) by (nonlinear_arith)
            requires
                quot * size + rem == total,
        ;
        lemma_fundamental_div_mod_converse(total, size as int, quot as int, rem as int);
    }
    quot
}

/// The centroids after one mini-batch.
pub fn step_centroids(centroids: &Vec<u128>, points: &Vec<u128>, batch: &Vec<usize>) -> (r: Vec<
    u128,
>)
    requires
        bounded(vals(centroids@)),
        bounded(vals(points@)),
    ensures
        vals(r@) == stepped(vals(centroids@), vals(points@), draws(batch@)),
        r.len() == centroids.len(),
        bounded(vals(r@)),
{
    let assigned = assign_batch(centroids, points, batch);
    let ghost cs = vals(centroids@);
    let ghost ps = vals(points@);
    let ghost b = draws(batch@);
    let mut out: Vec<u128> = Vec::new();
    let mut i: usize = 0;
    while i < centroids.len()
        invariant
            i <= centroids.len(),
            cs == vals(centroids@),
            ps == vals(points@),
            b == draws(batch@),
            bounded(cs),
            bounded(ps),
            assigned.len() == batch.len(),
            forall|j: int|
                0 <= j < batch.len() ==> recorded(#[trigger] assigned[j]) == nearest(
                    cs,
                    ps,
                    batch[j] as int,
                ),
            out.len() == i,
            forall|t: int| 0 <= t < i ==> #[trigger] out[t] as int == stepped_at(cs, ps, b, t),
            forall|t: int| 0 <= t < i ==> 0 <= #[trigger] out[t] <= LIMIT,
        decreases centroids.len() - i,
    {
        let n: usize = count_members(centroids, points, batch, &assigned, i);
        let c: u128 = centroids[i];
        assert(cs[i as int] == c);
        if n > 0 {
            let mean: u128 = mean_of_members(centroids, points, batch, &assigned, i, n);
            proof {
                lemma_moved_between(c as int, mean as int, n as int);
            }
            let next: u128 = if mean >= c {
                c + (mean - c) / (n as u128)
            } else {
                c - (c - mean) / (n as u128)
            };
            out.push(next);
        } else {
            out.push(c);
        }
        i = i + 1;
    }
    proof {
        assert(vals(out@) =~= stepped(cs, ps, b));
    }
    out
}

/// The value that stands for one after rescaling: `2^32`.
pub const ONE: u128 = 4_294_967_296;

/// The sizes rescaled to the span between the smallest and the largest of
/// them: the smallest becomes zero, the largest [`ONE`]. Sizes that are all
/// equal are left as they are.
pub open spec fn normalized(sizes: Seq<int>) -> Seq<int> {
    let lo = sizes.min();
    let hi = sizes.max();
    if hi > lo {
        sizes.map_values(|q: int| (q - lo) * ONE / (hi - lo))
    } else {
        sizes
    }
}

/// The centroids with which a fit starts where it carries none over: `k`
/// evenly spaced picks from the points in ascending order.
pub open spec fn initial_centroids(points: Seq<int>, k: int) -> Seq<int> {
    let sorted = points.sort();
    let gaps = if k >= 2 {
        k - 1
    } else {
        1
    };
    let step = (points.len() - 1) / gaps;
    Seq::new(k as nat, |i: int| sorted[i * step])
}

/// `d * 2^32 / range`, rounded down.
fn scale_to_span(d: u128, range: u128) -> (r: u128)
    requires
        0 < range <= LIMIT,
        d <= range,
    ensures
        r as int == d * ONE / (range as int),
        r <= ONE,
{
    let mut acc: u128 = if d == range {
        1
    } else {
        0
    };
    let mut rem: u128 = if d == range {
        0
    } else {
        d
    };
    let mut i: u32 = 0;
    proof {
        lemma2_to64();
    }
    while i < 32
        invariant
            i <= 32,
            0 < range <= LIMIT,
            d <= range,
            acc * range + rem == d * pow2(i as nat),
            rem < range,
            acc <= pow2(i as nat),
            pow2(i as nat) <= ONE,
            pow2(32) == ONE,
        decreases 32 - i,
    {
        let ghost w = pow2(i as nat) as int;
        let ghost a0 = acc as int;
        let ghost r0 = rem as int;
        proof {
            lemma_pow2_unfold((i + 1) as nat);
            lemma_pow2_grows((i + 1) as nat);
            vstd::arithmetic::power2::lemma_pow2_pos(i as nat);
        }
        rem = rem * 2;
        acc = acc * 2;
        if rem >= range {
            rem = rem - range;
            acc = acc + 1;
        }
        i = i + 1;
        proof {
            assert(acc * range + rem == d * (2 * w)) by (nonlinear_arith)
                requires
                    a0 * range + r0 == d * w,
                    (acc == 2 * a0 && rem == 2 * r0) || (acc == 2 * a0 + 1 && rem == 2 * r0
                        - range),
            ;
            assert(acc <= 2 * w) by (nonlinear_arith)
                requires
                    acc * range + rem == d * (2 * w),
                    d <= range,
                    rem >= 0,
                    range > 0,
                    w > 0,
                    acc >= 0,
            ;
        }
    }
    proof {
        assert(d * ONE == range * acc + rem) by (nonlinear_arith)
            requires
                acc * range + rem == d * ONE,
        ;
        lemma_fundamental_div_mod_converse(d * ONE, range as int, acc as int, rem as int);
    }
    acc
}

/// A power of two with an exponent up to 32 is at most `2^32`.
proof fn lemma_pow2_grows(e: nat)
    requires
        e <= 32,
    ensures
        pow2(e) <= pow2(32),
    decreases 32 - e,
{
    if e < 32 {
        lemma_pow2_unfold(e + 1);
        lemma_pow2_grows(e + 1);
    }
}

/// The smallest and the largest of the sizes.
fn span(sizes: &Vec<u128>) -> (r: (u128, u128))
    requires
        sizes.len() > 0,
    ensures
        r.0 as int == vals(sizes@).min(),
        r.1 as int == vals(sizes@).max(),
{
    let ghost s = vals(sizes@);
    let mut lo: u128 = sizes[0];
    let mut hi: u128 = sizes[0];
    let mut i: usize = 1;
    assert(s[0] == sizes@[0]);
    while i < sizes.len()
        invariant
            1 <= i <= sizes.len(),
            s == vals(sizes@),
            exists|a: int| 0 <= a < i && s[a] == lo,
            exists|b: int| 0 <= b < i && s[b] == hi,
            forall|j: int| 0 <= j < i ==> lo <= #[trigger] s[j] <= hi,
        decreases sizes.len() - i,
    {
        let x: u128 = sizes[i];
        assert(s[i as int] == x);
        if x < lo {
            lo = x;
        }
        if x > hi {
            hi = x;
        }
        i = i + 1;
    }
    proof {
        s.min_ensures();
        s.max_ensures();
        let a = choose|a: int| 0 <= a < s.len() && s[a] == lo;
        let b = choose|b: int| 0 <= b < s.len() && s[b] == hi;
        assert(s.contains(s[a]));
        assert(s.contains(s[b]));
    }
    (lo, hi)
}

/// The sizes rescaled to the span between the smallest and the largest.
pub fn normalize(sizes: &Vec<u128>) -> (r: Vec<u128>)
    requires
        bounded(vals(sizes@)),
    ensures
        vals(r@) == normalized(vals(sizes@)),
        r.len() == sizes.len(),
        bounded(vals(r@)),
{
    let ghost s = vals(sizes@);
    let mut out: Vec<u128> = Vec::new();
    if sizes.len() == 0 {
        assert(vals(out@) =~= normalized(s));
        return out;
    }
    let (lo, hi) = span(sizes);
    proof {
        s.min_ensures();
        s.max_ensures();
        let j = choose|j: int| 0 <= j < s.len() && s[j] == s.max();
        assert(0 <= s[j] <= LIMIT);
    }
    let mut i: usize = 0;
    while i < sizes.len()
        invariant
            i <= sizes.len(),
            s == vals(sizes@),
            bounded(s),
            hi <= LIMIT,
            lo as int == s.min(),
            hi as int == s.max(),
            forall|j: int| 0 <= j < s.len() ==> lo <= #[trigger] s[j] <= hi,
            out.len() == i,
            forall|j: int| 0 <= j < i ==> #[trigger] out[j] as int == normalized(s)[j],
            forall|j: int| 0 <= j < i ==> 0 <= #[trigger] out[j] <= LIMIT,
        decreases sizes.len() - i,
    {
        let q: u128 = sizes[i];
        assert(s[i as int] == q);
        if hi > lo {
            assert(s[sizes.len() - 1] <= hi);
            out.push(scale_to_span(q - lo, hi - lo));
        } else {
            out.push(q);
        }
        i = i + 1;
    }
    proof {
        assert(vals(out@) =~= normalized(s));
    }
    out
}

/// Ascending order on the values.
pub open spec fn leq() -> spec_fn(int, int) -> bool {
    |x: int, y: int| x <= y
}

/// Inserting a value adds it to what a sequence holds.
proof fn lemma_insert_multiset(s: Seq<int>, pos: int, x: int)
    requires
        0 <= pos <= s.len(),
    ensures
        s.insert(pos, x).to_multiset() == s.to_multiset().insert(x),
{
    broadcast use vstd::seq_lib::group_to_multiset_ensures;
    broadcast use vstd::multiset::group_multiset_axioms;

    let t = s.insert(pos, x);
    assert(t.remove(pos) =~= s);
    assert(t[pos] == x);
    assert(t.remove(pos).to_multiset() =~= t.to_multiset().remove(x));
    assert(t.to_multiset().count(x) > 0);
    assert(t.to_multiset() =~= s.to_multiset().insert(x));
}

/// The values in ascending order.
pub fn sort_values(values: &Vec<u128>) -> (r: Vec<u128>)
    ensures
        vals(r@) == vals(values@).sort(),
        r.len() == values.len(),
{
    let ghost v = vals(values@);
    let mut out: Vec<u128> = Vec::new();
    let mut i: usize = 0;
    proof {
        assert(v.take(0) =~= Seq::<int>::empty());
        assert(vals(out@) =~= Seq::<int>::empty());
    }
    while i < values.len()
        invariant
            i <= values.len(),
            v == vals(values@),
            out.len() == i,
            forall|a: int, b: int| 0 <= a < b < out.len() ==> out[a] <= out[b],
            vals(out@).to_multiset() == v.take(i as int).to_multiset(),
        decreases values.len() - i,
    {
        let x: u128 = values[i];
        let mut pos: usize = 0;
        while pos < out.len() && out[pos] <= x
            invariant
                pos <= out.len(),
                forall|a: int| 0 <= a < pos ==> out[a] <= x,
            decreases out.len() - pos,
        {
            pos = pos + 1;
        }
        let ghost before = vals(out@);
        out.insert(pos, x);
        proof {
            broadcast use vstd::seq_lib::group_to_multiset_ensures;

            assert(vals(out@) =~= before.insert(pos as int, x as int));
            lemma_insert_multiset(before, pos as int, x as int);
            assert(v.take(i + 1) =~= v.take(i as int).push(x as int));
        }
        i = i + 1;
    }
    proof {
        let r = vals(out@);
        assert(v.take(values.len() as int) =~= v);
        v.lemma_sort_by_ensures(leq());
        lemma_leq_total();
        assert(sorted_by(r, leq()));
        assert(v.sort() == v.sort_by(leq())) by {
            lemma_sort_is_sort_by(v);
        }
        lemma_sorted_unique(r, v.sort_by(leq()), leq());
        assert(out.len() == values.len()) by {
            broadcast use vstd::seq_lib::group_to_multiset_ensures;

        }
    }
    out
}

/// The ascending order is total.
proof fn lemma_leq_total()
    ensures
        total_ordering(leq()),
{
    let f = leq();
    assert(vstd::relations::reflexive(f));
    assert(vstd::relations::antisymmetric(f));
    assert(vstd::relations::transitive(f));
    assert(vstd::relations::strongly_connected(f));
}

/// The ascending sort of the library is the sort by [`leq`].
proof fn lemma_sort_is_sort_by(v: Seq<int>)
    ensures
        v.sort() == v.sort_by(leq()),
{
    v.lemma_sort_ensures();
    v.lemma_sort_by_ensures(leq());
    lemma_leq_total();
    assert(sorted_by(v.sort(), leq()));
    lemma_sorted_unique(v.sort(), v.sort_by(leq()), leq());
}

/// The centroids with which a fit starts where it carries none over.
pub fn initialize_centroids(points: &Vec<u128>, k: usize) -> (r: Vec<u128>)
    requires
        points.len() > 0,
        bounded(vals(points@)),
    ensures
        vals(r@) == initial_centroids(vals(points@), k as int),
        r.len() == k,
        bounded(vals(r@)),
{
    let sorted = sort_values(points);
    let ghost p = vals(points@);
    let gaps: usize = if k >= 2 {
        k - 1
    } else {
        1
    };
    let step: usize = (sorted.len() - 1) / gaps;
    proof {
        lemma_fundamental_div_mod((sorted.len() - 1) as int, gaps as int);
        lemma_sorted_bounded(p);
    }
    let mut out: Vec<u128> = Vec::new();
    let mut i: usize = 0;
    while i < k
        invariant
            i <= k,
            p == vals(points@),
            sorted.len() == points.len(),
            points.len() > 0,
            vals(sorted@) == p.sort(),
            bounded(p.sort()),
            gaps == if k >= 2 {
                k - 1
            } else {
                1
            },
            step == (points.len() - 1) / (gaps as int),
            gaps * step <= points.len() - 1,
            out.len() == i,
            forall|j: int| 0 <= j < i ==> #[trigger] out[j] as int == p.sort()[j * step],
            forall|j: int| 0 <= j < i ==> 0 <= #[trigger] out[j] <= LIMIT,
        decreases k - i,
    {
        proof {
            assert(i * step <= gaps * step) by (nonlinear_arith)
                requires
                    i <= gaps,
                    step >= 0,
            ;
        }
        let at: usize = i * step;
        let c: u128 = sorted[at];
        assert(vals(sorted@)[at as int] == c);
        out.push(c);
        i = i + 1;
    }
    proof {
        assert(vals(out@) =~= initial_centroids(p, k as int));
    }
    out
}

/// Putting bounded values in order leaves them bounded.
proof fn lemma_sorted_bounded(p: Seq<int>)
    requires
        bounded(p),
    ensures
        bounded(p.sort()),
{
    broadcast use vstd::seq_lib::group_to_multiset_ensures;

    p.lemma_sort_ensures();
    let s = p.sort();
    assert forall|i: int| 0 <= i < s.len() implies 0 <= #[trigger] s[i] <= LIMIT by {
        assert(s.contains(s[i]));
        assert(s.to_multiset().count(s[i]) > 0);
        assert(p.to_multiset().count(s[i]) > 0);
        assert(p.contains(s[i]));
        let j = choose|j: int| 0 <= j < p.len() && p[j] == s[i];
        assert(0 <= p[j] <= LIMIT);
    }
}

/// Whether centroid `j` comes before centroid `i` when the centroids are
/// put in ascending order of their value, equal ones in the order of their
/// positions.
pub open spec fn before(centroids: Seq<int>, j: int, i: int) -> bool {
    centroids[j] < centroids[i] || (centroids[j] == centroids[i] && j < i)
}

/// The number of centroids among the first `n` that come before
/// centroid `i`.
pub open spec fn count_before(centroids: Seq<int>, i: int, n: int) -> int
    decreases n,
{
    if n <= 0 {
        0
    } else if before(centroids, n - 1, i) {
        count_before(centroids, i, n - 1) + 1
    } else {
        count_before(centroids, i, n - 1)
    }
}

/// The label of centroid `i`: its place when the centroids are put in
/// ascending order of their value. A position that holds no centroid has
/// label zero.
pub open spec fn rank(centroids: Seq<int>, i: int) -> int {
    if 0 <= i < centroids.len() {
        count_before(centroids, i, centroids.len() as int)
    } else {
        0
    }
}

/// Among the first `n` centroids at most `n` come before a given one, and
/// fewer where it is one of them.
proof fn lemma_count_before_bounds(centroids: Seq<int>, i: int, n: int)
    requires
        0 <= n <= centroids.len(),
        0 <= i < centroids.len(),
    ensures
        0 <= count_before(centroids, i, n) <= n,
        i < n ==> count_before(centroids, i, n) < n,
    decreases n,
{
    if n > 0 {
        lemma_count_before_bounds(centroids, i, n - 1);
    }
}

/// Whatever comes before `a` comes before `b` too, where `a` comes before
/// `b`.
proof fn lemma_count_before_grows(centroids: Seq<int>, a: int, b: int, n: int)
    requires
        0 <= n <= centroids.len(),
        0 <= a < centroids.len(),
        0 <= b < centroids.len(),
        before(centroids, a, b),
    ensures
        count_before(centroids, a, n) <= count_before(centroids, b, n),
        a < n ==> count_before(centroids, a, n) < count_before(centroids, b, n),
    decreases n,
{
    if n > 0 {
        lemma_count_before_grows(centroids, a, b, n - 1);
    }
}

/// Every label is below the number of centroids.
pub proof fn lemma_rank_in_range(centroids: Seq<int>, i: int)
    requires
        centroids.len() > 0,
    ensures
        0 <= rank(centroids, i) < centroids.len(),
{
    if 0 <= i < centroids.len() {
        lemma_count_before_bounds(centroids, i, centroids.len() as int);
    }
}

/// A centroid with a smaller label has no larger value: the centroids, taken
/// by their labels, do not decrease.
pub proof fn lemma_rank_orders_centroids(centroids: Seq<int>, a: int, b: int)
    requires
        0 <= a < centroids.len(),
        0 <= b < centroids.len(),
        rank(centroids, a) <= rank(centroids, b),
    ensures
        centroids[a] <= centroids[b],
{
    if centroids[a] > centroids[b] {
        lemma_count_before_grows(centroids, b, a, centroids.len() as int);
    }
}

/// No two centroids share a label.
pub proof fn lemma_rank_distinct(centroids: Seq<int>, a: int, b: int)
    requires
        0 <= a < centroids.len(),
        0 <= b < centroids.len(),
        a != b,
    ensures
        rank(centroids, a) != rank(centroids, b),
{
    if before(centroids, a, b) {
        lemma_count_before_grows(centroids, a, b, centroids.len() as int);
    } else {
        assert(before(centroids, b, a));
        lemma_count_before_grows(centroids, b, a, centroids.len() as int);
    }
}

/// The label of centroid `i`.
pub fn rank_of(centroids: &Vec<u128>, i: usize) -> (r: usize)
    ensures
        r == rank(vals(centroids@), i as int),
        centroids.len() > 0 ==> r < centroids.len(),
{
    if i >= centroids.len() {
        proof {
            if centroids.len() > 0 {
                lemma_rank_in_range(vals(centroids@), i as int);
            }
        }
        return 0;
    }
    let ghost cs = vals(centroids@);
    let mut count: usize = 0;
    let mut j: usize = 0;
    while j < centroids.len()
        invariant
            j <= centroids.len(),
            i < centroids.len(),
            cs == vals(centroids@),
            count == count_before(cs, i as int, j as int),
            count <= j,
        decreases centroids.len() - j,
    {
        if centroids[j] < centroids[i] || (centroids[j] == centroids[i] && j < i) {
            count = count + 1;
        }
        j = j + 1;
    }
    proof {
        lemma_rank_in_range(cs, i as int);
    }
    count
}

} // verus!
