use lara::supervised::knn::KNearestNeighbors;
use lara::supervised::supervised::{DimensionMismatch, Supervised};

#[test]
fn knn_predicts_one_label_per_row() {
    let xs = vec![vec![0, 0], vec![1, 0], vec![10, 10], vec![11, 10]];
    let ys = vec![3, 3, 7, 7];
    let mut clf = KNearestNeighbors::new(1);
    assert_eq!(clf.fit(&xs, &ys), Ok(()));
    let q = vec![vec![0, 1], vec![10, 11], vec![12, 9]];
    let r = clf.predict(&q);
    assert_eq!(r.len(), 3);
    assert_eq!(r, vec![3, 7, 7]);
    for l in r {
        assert!(ys.contains(&l));
    }
}

#[test]
fn knn_majority_of_three() {
    let xs = vec![vec![0], vec![1], vec![2], vec![100]];
    let ys = vec![5, 2, 5, 2];
    let mut clf = KNearestNeighbors::new(3);
    clf.fit(&xs, &ys).unwrap();
    assert_eq!(clf.predict(&vec![vec![1]]), vec![5]);
    assert_eq!(clf.predict(&vec![vec![99]]), vec![2]);
}

#[test]
fn knn_vote_tie_goes_to_smallest_label() {
    let xs = vec![vec![0], vec![1]];
    let ys = vec![9, 4];
    let mut clf = KNearestNeighbors::new(2);
    clf.fit(&xs, &ys).unwrap();
    assert_eq!(clf.predict(&vec![vec![0]]), vec![4]);
}

#[test]
fn knn_more_neighbours_than_rows_uses_all() {
    let xs = vec![vec![0], vec![1], vec![50]];
    let ys = vec![1, 2, 2];
    let mut clf = KNearestNeighbors::new(10);
    clf.fit(&xs, &ys).unwrap();
    assert_eq!(clf.predict(&vec![vec![0], vec![-5]]), vec![2, 2]);
}

#[test]
fn knn_equal_distances_keep_earlier_rows() {
    let xs = vec![vec![1], vec![-1], vec![1]];
    let ys = vec![6, 8, 8];
    let mut clf = KNearestNeighbors::new(1);
    clf.fit(&xs, &ys).unwrap();
    assert_eq!(clf.predict(&vec![vec![0]]), vec![6]);
}

#[test]
fn knn_fit_rejects_count_mismatch() {
    let mut clf = KNearestNeighbors::new(1);
    clf.fit(&vec![vec![0], vec![1]], &vec![1, 2]).unwrap();
    let err = clf.fit(&vec![vec![0], vec![1], vec![2]], &vec![1]);
    assert_eq!(err, Err(DimensionMismatch { rows: 3, labels: 1 }));
    assert_eq!(clf.predict(&vec![vec![1]]), vec![2]);
}

#[test]
fn knn_refit_replaces_training_data() {
    let mut clf = KNearestNeighbors::new(1);
    clf.fit(&vec![vec![0]], &vec![1]).unwrap();
    clf.fit(&vec![vec![0]], &vec![2]).unwrap();
    assert_eq!(clf.predict(&vec![vec![0]]), vec![2]);
}
