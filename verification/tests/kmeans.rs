use multi_exchange_l3_est::amount::Amount;
use multi_exchange_l3_est::centroids::{
    closest_centroid, distance, initialize_centroids, normalize, rank_of, sort_values,
    step_centroids, LIMIT, ONE,
};
use multi_exchange_l3_est::kmeans::{
    build_clustered_orders, cluster_order_book, flatten, ClusteredLevel, MiniBatchKMeans,
};
use multi_exchange_l3_est::side::Side;

const UNIT: i128 = 1_000_000_000_000_000_000;

fn amt(whole: i128) -> Amount {
    Amount::from_units(whole * UNIT).unwrap()
}

/// A side with one order of each size, at prices 1, 2, 3, ...
fn side_of(sizes: &[i128]) -> Side {
    let rows: Vec<(Amount, Amount)> =
        sizes.iter().enumerate().map(|(i, &q)| (amt(i as i128 + 1), amt(q))).collect();
    Side::from_rows(&rows)
}

fn levels(levels: &[ClusteredLevel]) -> Vec<(i128, Vec<(i128, usize)>)> {
    levels
        .iter()
        .map(|l| {
            (l.price.units() / UNIT, l.orders.iter().map(|o| (o.0.units() / UNIT, o.1)).collect())
        })
        .collect()
}

#[test]
fn three_groups_get_three_labels_by_size() {
    let side = side_of(&[1, 1, 1, 10, 10, 10, 100, 100, 100]);
    let mut kmeans = MiniBatchKMeans::new(3, 9, 50);
    assert_eq!(kmeans.fit(&side), vec![0, 0, 0, 1, 1, 1, 2, 2, 2]);
    assert_eq!(kmeans.fit(&side), vec![0, 0, 0, 1, 1, 1, 2, 2, 2]);
}

#[test]
fn labels_follow_size_whatever_the_order_of_the_walk() {
    let side = side_of(&[100, 1, 10, 1, 100, 10, 10, 1, 100]);
    let mut kmeans = MiniBatchKMeans::new(3, 9, 50);
    assert_eq!(kmeans.fit(&side), vec![2, 0, 1, 0, 2, 1, 1, 0, 2]);
}

#[test]
fn an_empty_side_gives_no_labels() {
    let mut kmeans = MiniBatchKMeans::new(3, 9, 50);
    assert!(kmeans.fit(&Side::new()).is_empty());
    assert!(kmeans.centroids().is_empty());
    assert!(kmeans.fit_with_batches(&Side::new(), &vec![vec![0, 1]]).is_empty());
    assert!(cluster_order_book(&Side::new(), 3, 9, 50).is_empty());
}

#[test]
fn fewer_points_than_clusters_still_get_labels_in_range() {
    let side = side_of(&[5, 9]);
    let mut kmeans = MiniBatchKMeans::new(10, 32, 64);
    let labels = kmeans.fit(&side);
    assert_eq!(labels.len(), 2);
    assert!(labels.iter().all(|&l| l < 10));
    assert!(labels[0] <= labels[1]);
    assert_eq!(kmeans.centroids().len(), 10);
}

#[test]
fn equal_sizes_share_the_first_label() {
    let side = side_of(&[7, 7, 7]);
    let mut kmeans = MiniBatchKMeans::new(4, 8, 16);
    assert_eq!(kmeans.fit(&side), vec![0, 0, 0]);
    let seven = 7 * UNIT as u128;
    assert_eq!(kmeans.centroids(), vec![seven, seven, seven, seven]);
}

#[test]
fn no_clusters_give_label_zero() {
    let side = side_of(&[1, 2, 3]);
    let mut kmeans = MiniBatchKMeans::new(0, 8, 16);
    assert_eq!(kmeans.fit(&side), vec![0, 0, 0]);
    assert!(kmeans.centroids().is_empty());
}

#[test]
fn labels_are_below_the_number_of_clusters() {
    let side = side_of(&[3, 1, 4, 1, 5, 9, 2, 6, 5, 3, 5, 8, 9, 7, 9]);
    for k in 1..6usize {
        let mut kmeans = MiniBatchKMeans::new(k, 4, 20);
        let labels = kmeans.fit(&side);
        assert_eq!(labels.len(), 15);
        assert!(labels.iter().all(|&l| l < k));
        assert_eq!(kmeans.centroids().len(), k);
    }
}

#[test]
fn centroids_taken_by_label_do_not_decrease() {
    let sizes = [3, 1, 4, 1, 5, 9, 2, 6, 5, 3, 5, 8, 9, 7, 9];
    let side = side_of(&sizes);
    let mut kmeans = MiniBatchKMeans::new(4, 5, 30);
    let labels = kmeans.fit(&side);
    let centroids = kmeans.centroids();
    let mut by_label: Vec<Option<u128>> = vec![None; 4];
    for (i, c) in centroids.iter().enumerate() {
        by_label[rank_of(&centroids, i)] = Some(*c);
    }
    let values: Vec<u128> = by_label.into_iter().map(|c| c.unwrap()).collect();
    assert!(values.windows(2).all(|w| w[0] <= w[1]));
    for i in 0..sizes.len() {
        for j in 0..sizes.len() {
            if labels[i] < labels[j] {
                assert!(values[labels[i]] <= values[labels[j]]);
            }
        }
    }
}

#[test]
fn a_fit_without_iterations_starts_from_evenly_spaced_picks() {
    let side = side_of(&[9, 1, 5, 3, 7]);
    let mut kmeans = MiniBatchKMeans::new(3, 4, 0);
    let labels = kmeans.fit(&side);
    assert_eq!(kmeans.centroids(), vec![0, ONE / 2, ONE]);
    // A point half way between two centroids goes to the first of them.
    assert_eq!(labels, vec![2, 0, 1, 0, 1]);
    assert_eq!(kmeans.fit(&side), labels);
    assert_eq!(kmeans.centroids(), vec![0, ONE / 2, ONE]);
}

#[test]
fn a_fit_with_given_batches_is_exact() {
    let side = side_of(&[1, 2, 9]);
    let mut kmeans = MiniBatchKMeans::new(2, 3, 1);
    let labels = kmeans.fit_with_batches(&side, &vec![vec![0, 1, 2, 1, 7]]);
    // Points 0, ONE/8, ONE; picks 0 and ONE. The first centroid sees the
    // draws 0, 1, 1: mean ONE/12, a third of the way is ONE/36. The second
    // sees one draw of ONE and stays. The draw 7 names no point.
    assert_eq!(kmeans.centroids(), vec![(ONE / 8 * 2) / 3 / 3, ONE]);
    assert_eq!(labels, vec![0, 0, 1]);
}

#[test]
fn carried_centroids_are_used_again() {
    let side = side_of(&[1, 2, 9]);
    let mut kmeans = MiniBatchKMeans::new(2, 3, 1);
    kmeans.fit_with_batches(&side, &vec![vec![2, 2]]);
    assert_eq!(kmeans.centroids(), vec![0, ONE]);
    kmeans.fit_with_batches(&side, &vec![vec![1], vec![1]]);
    assert_eq!(kmeans.centroids(), vec![ONE / 8, ONE]);
}

#[test]
fn flatten_walks_prices_and_then_orders() {
    let mut side = Side::new();
    side.apply_row(amt(101), amt(3));
    side.apply_row(amt(100), amt(5));
    side.apply_row(amt(100), amt(7));
    side.apply_row(amt(100), amt(1));
    let flat: Vec<(i128, i128)> =
        flatten(&side).iter().map(|o| (o.0.units() / UNIT, o.1.units() / UNIT)).collect();
    assert_eq!(flat, vec![(100, 2), (101, 3)]);
    let mut kmeans = MiniBatchKMeans::new(2, 4, 4);
    assert_eq!(kmeans.fit(&side).len(), 2);
}

#[test]
fn labels_go_back_to_their_orders() {
    let mut side = Side::new();
    side.apply_row(amt(101), amt(3));
    side.apply_row(amt(100), amt(5));
    side.apply_row(amt(100), amt(7));
    side.apply_row(amt(102), amt(4));
    side.apply_row(amt(102), amt(9));
    side.apply_row(amt(102), amt(10));
    let built = build_clustered_orders(&side, &vec![4, 3, 2, 1, 0, 9, 9]);
    assert_eq!(
        levels(&built),
        vec![
            (100, vec![(5, 4), (2, 3)]),
            (101, vec![(3, 2)]),
            (102, vec![(4, 1), (5, 0), (1, 9)]),
        ]
    );
}

#[test]
fn a_level_without_positive_orders_keeps_its_place() {
    let mut side = Side::new();
    side.apply_row(amt(100), amt(5));
    side.apply_row(amt(100), amt(7));
    side.apply_row(amt(100), amt(1));
    side.apply_row(amt(99), amt(6));
    let built = build_clustered_orders(&side, &vec![1, 0]);
    assert_eq!(levels(&built), vec![(99, vec![(6, 1)]), (100, vec![(2, 0)])]);
}

#[test]
fn cluster_order_book_labels_every_order() {
    let side = side_of(&[1, 1, 1, 10, 10, 10, 100, 100, 100]);
    let built = cluster_order_book(&side, 3, 9, 50);
    let expected: Vec<(i128, Vec<(i128, usize)>)> = [1, 1, 1, 10, 10, 10, 100, 100, 100]
        .iter()
        .enumerate()
        .map(|(i, &q)| (i as i128 + 1, vec![(q, if q == 1 { 0 } else if q == 10 { 1 } else { 2 })]))
        .collect();
    assert_eq!(levels(&built), expected);
}

#[test]
fn the_nearest_centroid_is_the_first_of_the_nearest() {
    assert_eq!(closest_centroid(&vec![10, 20, 30], 14), 0);
    assert_eq!(closest_centroid(&vec![10, 20, 30], 15), 0);
    assert_eq!(closest_centroid(&vec![10, 20, 30], 16), 1);
    assert_eq!(closest_centroid(&vec![30, 20, 20], 19), 1);
    assert_eq!(closest_centroid(&vec![], 19), 0);
    assert_eq!(distance(3, 10), 7);
    assert_eq!(distance(10, 3), 7);
}

#[test]
fn ranks_number_the_centroids_by_value_and_then_by_place() {
    let centroids = vec![50, 10, 50, 0];
    assert_eq!(rank_of(&centroids, 0), 2);
    assert_eq!(rank_of(&centroids, 1), 1);
    assert_eq!(rank_of(&centroids, 2), 3);
    assert_eq!(rank_of(&centroids, 3), 0);
    assert_eq!(rank_of(&centroids, 4), 0);
}

#[test]
fn sizes_are_rescaled_to_their_span() {
    assert_eq!(normalize(&vec![10, 20, 30, 15]), vec![0, ONE / 2, ONE, ONE / 4]);
    assert_eq!(normalize(&vec![1, 2, 4]), vec![0, 1_431_655_765, ONE]);
    assert_eq!(normalize(&vec![7, 7]), vec![7, 7]);
    assert_eq!(normalize(&vec![LIMIT]), vec![LIMIT]);
    assert_eq!(normalize(&vec![0, LIMIT, LIMIT / 2]), vec![0, ONE, ONE / 2]);
    assert!(normalize(&vec![]).is_empty());
}

#[test]
fn values_are_sorted_ascending() {
    assert_eq!(sort_values(&vec![5, 1, 4, 1, 3]), vec![1, 1, 3, 4, 5]);
    assert!(sort_values(&vec![]).is_empty());
}

#[test]
fn initial_centroids_are_evenly_spaced_picks() {
    let points = vec![8, 0, 6, 2, 4, 1, 7, 3, 5];
    assert_eq!(initialize_centroids(&points, 3), vec![0, 4, 8]);
    assert_eq!(initialize_centroids(&points, 1), vec![0]);
    assert_eq!(initialize_centroids(&points, 2), vec![0, 8]);
    assert_eq!(initialize_centroids(&points, 4), vec![0, 2, 4, 6]);
    assert_eq!(initialize_centroids(&vec![3, 9], 5), vec![3, 3, 3, 3, 3]);
    assert!(initialize_centroids(&points, 0).is_empty());
}

#[test]
fn a_batch_moves_each_centroid_towards_the_mean_of_its_draws() {
    let points = vec![0, 10, 100, 110];
    // Draws 1, 1, 0 go to the first centroid: mean 6, a third of the way
    // from 3 is 4. Draw 3 goes to the second: mean 110, all the way.
    assert_eq!(step_centroids(&vec![3, 90], &points, &vec![1, 1, 0, 3]), vec![4, 110]);
    assert_eq!(step_centroids(&vec![3, 90], &points, &vec![]), vec![3, 90]);
    assert_eq!(step_centroids(&vec![3, 90], &points, &vec![4, 9]), vec![3, 90]);
    assert_eq!(step_centroids(&vec![20, 90], &points, &vec![0, 1]), vec![13, 90]);
}
