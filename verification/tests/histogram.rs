use lenhist::aggregate::aggregate;
use lenhist::histogram::Histogram;
use lenhist::series::series_points;

#[test]
fn empty_record_set_gives_empty_histogram() {
    let h = aggregate(&Vec::new());
    assert_eq!(h.total_count(), 0);
    assert_eq!(h.count_of(0), 0);
    assert_eq!(h.count_of(50), 0);
    assert_eq!(h.pairs().len(), 0);
}

#[test]
fn new_histogram_is_empty() {
    let h = Histogram::new();
    assert_eq!(h.total_count(), 0);
    assert_eq!(h.count_of(7), 0);
}

#[test]
fn record_increments_one_length() {
    let mut h = Histogram::new();
    h.record(12);
    h.record(12);
    h.record(3);
    assert_eq!(h.count_of(12), 2);
    assert_eq!(h.count_of(3), 1);
    assert_eq!(h.count_of(4), 0);
    assert_eq!(h.total_count(), 3);
}

#[test]
fn three_records() {
    let lengths: Vec<usize> = vec![10, 10, 20];
    let h = aggregate(&lengths);
    assert_eq!(h.count_of(10), 2);
    assert_eq!(h.count_of(20), 1);
    assert_eq!(h.count_of(15), 0);
    assert_eq!(h.total_count(), 3);
    assert_eq!(h.pairs().len(), 2);
}

#[test]
fn three_records_serialized() {
    let lengths: Vec<usize> = vec![10, 10, 20];
    let h = aggregate(&lengths);
    let mut m = serde_json::Map::new();
    for (len, count) in h.pairs() {
        m.insert(len.to_string(), serde_json::Value::from(count as u64));
    }
    let text = serde_json::Value::Object(m).to_string();
    assert_eq!(text, "{\"10\":2,\"20\":1}");
}

#[test]
fn hundred_records_of_length_fifty() {
    let lengths: Vec<usize> = vec![50; 100];
    let h = aggregate(&lengths);
    assert_eq!(h.count_of(50), 100);
    assert_eq!(h.total_count(), 100);
    assert_eq!(h.pairs().len(), 1);
}

#[test]
fn merge_adds_matching_counts() {
    let mut a = aggregate(&vec![10, 10, 20]);
    let b = aggregate(&vec![10, 30]);
    a.merge(&b);
    assert_eq!(a.count_of(10), 3);
    assert_eq!(a.count_of(20), 1);
    assert_eq!(a.count_of(30), 1);
    assert_eq!(a.total_count(), 5);
}

#[test]
fn same_counts_compares_mappings() {
    let a = aggregate(&vec![10, 10, 20]);
    let b = aggregate(&vec![20, 10, 10]);
    let c = aggregate(&vec![10, 20, 20]);
    assert!(a.same_counts(&b));
    assert!(b.same_counts(&a));
    assert!(!a.same_counts(&c));
    assert!(!c.same_counts(&a));
}

#[test]
fn max_len_and_series() {
    let h = aggregate(&vec![10, 10, 20]);
    assert_eq!(h.max_len(), 20);
    let pts = series_points(&h);
    assert_eq!(pts.len(), 21);
    assert_eq!(pts[0], (0, 0));
    assert_eq!(pts[10], (10, 2));
    assert_eq!(pts[15], (15, 0));
    assert_eq!(pts[20], (20, 1));
}

#[test]
fn series_of_empty_histogram() {
    let h = Histogram::new();
    assert_eq!(h.max_len(), 0);
    let pts = series_points(&h);
    assert_eq!(pts, vec![(0, 0)]);
}
