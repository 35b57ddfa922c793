use lara::clustering::cluster::Cluster;
use lara::clustering::kmeans::{InitAlgorithm, KMeans};
use lara::distance::squared_distance;

fn five_points() -> Vec<Vec<i32>> {
    vec![
        vec![0, 1000],
        vec![-1000, 1000],
        vec![-2000, 0],
        vec![667, 1200],
        vec![700, 3000],
    ]
}

fn six_rows() -> Vec<Vec<i32>> {
    vec![
        vec![230, 1200, 9300, 230, 1200, 9300],
        vec![-3200, 1800, 2399, -3200, 1800, 2398],
        vec![-1000, 2330, 220, -100000, 9000, 19100],
        vec![235, -1200, 9300, -230, 11200, 99300],
        vec![-3200, 10800, 239900, 3200, 1700, 2000],
        vec![-1000, 2959200, 220, -102000, 9000, 19100],
    ]
}

#[test]
fn squared_distance_sums_squared_differences() {
    assert_eq!(squared_distance(&vec![1, 2], &vec![4, 6]), 25);
    assert_eq!(squared_distance(&vec![], &vec![]), 0);
    assert_eq!(
        squared_distance(&vec![i32::MIN], &vec![i32::MAX]),
        (u32::MAX as u128) * (u32::MAX as u128)
    );
}

#[test]
fn new_takes_requested_number_of_centroids() {
    let xs = six_rows();
    let clf = KMeans::new(&xs, 100, 4, InitAlgorithm::Random);
    assert_eq!(clf.get_centroids().len(), 4);
}

#[test]
fn new_draws_distinct_rows_of_the_data() {
    let xs = six_rows();
    let clf = KMeans::new(&xs, 100, 6, InitAlgorithm::Random);
    let cs = clf.get_centroids();
    assert_eq!(cs.len(), 6);
    for (i, c) in cs.iter().enumerate() {
        assert!(xs.contains(c));
        for d in cs.iter().skip(i + 1) {
            assert_ne!(c, d);
        }
    }
}

#[test]
fn new_single_centroid_is_a_row() {
    let xs = vec![vec![1, 1], vec![2, 2], vec![3, 3]];
    for _ in 0..20 {
        let clf = KMeans::new(&xs, 5, 1, InitAlgorithm::Random);
        assert_eq!(clf.get_centroids().len(), 1);
        assert!(xs.contains(&clf.get_centroids()[0]));
    }
}

#[test]
fn centroid_count_is_capped_by_row_count() {
    let xs = vec![vec![1, 2], vec![3, 4]];
    let mut clf = KMeans::new(&xs, 10, 5, InitAlgorithm::Random);
    assert_eq!(clf.get_centroids().len(), 2);
    clf.fit(&xs);
    assert_eq!(clf.get_centroids().len(), 2);
}

#[test]
fn zero_clusters_label_everything_zero() {
    let xs = five_points();
    let mut clf = KMeans::new(&xs, 3, 0, InitAlgorithm::Random);
    assert_eq!(clf.get_centroids().len(), 0);
    clf.fit(&xs);
    assert_eq!(clf.predict(&xs), vec![0, 0, 0, 0, 0]);
}

#[test]
fn fit_separates_the_two_groups() {
    let xs = five_points();
    let mut clf = KMeans::from_indexes(&xs, 2, &vec![0, 2]);
    clf.fit(&xs);
    assert_eq!(clf.get_centroids(), &vec![vec![91, 1550], vec![-2000, 0]]);
    let a = clf.predict(&vec![vec![0, 1111]])[0];
    let b = clf.predict(&vec![vec![4, 1121]])[0];
    let c = clf.predict(&vec![vec![-2000, -1000]])[0];
    assert_eq!(a, b);
    assert_ne!(a, c);
}

#[test]
fn predict_is_repeatable() {
    let xs = five_points();
    let mut clf = KMeans::from_indexes(&xs, 4, &vec![1, 4]);
    clf.fit(&xs);
    assert_eq!(clf.predict(&xs), clf.predict(&xs));
}

#[test]
fn ties_go_to_the_lower_index() {
    let xs = vec![vec![0, 0], vec![2, 0]];
    let clf = KMeans::from_indexes(&xs, 1, &vec![0, 1]);
    assert_eq!(clf.predict(&vec![vec![1, 0], vec![1, 5], vec![1, -7]]), vec![0, 0, 0]);
    let swapped = KMeans::from_indexes(&xs, 1, &vec![1, 0]);
    assert_eq!(swapped.predict(&vec![vec![1, 0], vec![1, 5]]), vec![0, 0]);
    assert_eq!(swapped.predict(&vec![vec![0, 0], vec![2, 0]]), vec![1, 0]);
}

#[test]
fn zero_budget_leaves_centroids() {
    let xs = five_points();
    let mut clf = KMeans::from_indexes(&xs, 0, &vec![0, 1]);
    clf.fit(&xs);
    assert_eq!(clf.get_centroids(), &vec![vec![0, 1000], vec![-1000, 1000]]);
}

#[test]
fn one_round_budget_stops_after_one_round() {
    let xs = vec![vec![0], vec![10], vec![11], vec![30]];
    let mut clf = KMeans::from_indexes(&xs, 1, &vec![0, 1]);
    clf.fit(&xs);
    // Labels 0,1,1,1 give centroids 0 and floor(51 / 3) = 17.
    assert_eq!(clf.get_centroids(), &vec![vec![0], vec![17]]);
    let mut more = KMeans::from_indexes(&xs, 10, &vec![0, 1]);
    more.fit(&xs);
    // With centroids 0 and 17 the labels stay 0,1,1,1, so the fit stops there.
    assert_eq!(more.get_centroids(), &vec![vec![0], vec![17]]);
}

#[test]
fn empty_cluster_keeps_its_centroid() {
    let xs = vec![vec![0, 0], vec![1, 1], vec![50, 50]];
    let mut clf = KMeans::from_indexes(&xs, 3, &vec![0, 0, 2]);
    clf.fit(&xs);
    assert_eq!(clf.get_centroids(), &vec![vec![0, 0], vec![0, 0], vec![50, 50]]);
}

#[test]
fn means_round_down() {
    let xs = vec![vec![-1, 3], vec![-2, 4]];
    let mut clf = KMeans::from_indexes(&xs, 1, &vec![0]);
    clf.fit(&xs);
    assert_eq!(clf.get_centroids(), &vec![vec![-2, 3]]);
}

#[test]
fn extreme_values_do_not_overflow() {
    let xs = vec![vec![i32::MIN, i32::MAX], vec![i32::MIN, i32::MAX], vec![i32::MAX, i32::MIN]];
    let mut clf = KMeans::from_indexes(&xs, 5, &vec![0, 2]);
    clf.fit(&xs);
    assert_eq!(clf.get_centroids(), &vec![vec![i32::MIN, i32::MAX], vec![i32::MAX, i32::MIN]]);
    assert_eq!(clf.predict(&xs), vec![0, 0, 1]);
}
