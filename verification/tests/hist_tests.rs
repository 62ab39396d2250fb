use tenths_agg::hist::Histogram;

fn hist_of(tenths: &[i32]) -> Histogram {
    let mut h = Histogram::new();
    for t in tenths {
        h.bump((t + 999) as usize);
    }
    h
}

#[test]
fn median_of_odd_count() {
    // values 1.0, 2.0, 3.0: median 2.0
    let h = hist_of(&[10, 20, 30]);
    let (mn, md, mx) = h.stats();
    assert_eq!((mn, md, mx), (10, 20, 30));
}

#[test]
fn median_of_even_count_averages() {
    // values 1.0, 2.0, 3.0, 4.0: median 2.5
    let h = hist_of(&[10, 20, 30, 40]);
    let (mn, md, mx) = h.stats();
    assert_eq!((mn, md, mx), (10, 25, 40));
}

#[test]
fn median_of_even_count_rounds_up() {
    // values 0.0, 0.1: exact average 0.05 rounds up to 0.1
    let h = hist_of(&[0, 1]);
    let (mn, md, mx) = h.stats();
    assert_eq!((mn, md, mx), (0, 1, 1));
}

#[test]
fn median_spanning_two_buckets() {
    // values 2.0, 2.0, 7.0, 9.0: middle elements 2.0 and 7.0 average to 4.5
    let h = hist_of(&[20, 20, 70, 90]);
    let (mn, md, mx) = h.stats();
    assert_eq!((mn, md, mx), (20, 45, 90));
}

#[test]
fn median_within_one_bucket() {
    // values 2.0, 2.0, 2.0, 9.0: both middle elements in the 2.0 bucket
    let h = hist_of(&[20, 20, 20, 90]);
    let (mn, md, mx) = h.stats();
    assert_eq!((mn, md, mx), (20, 20, 90));
}

#[test]
fn stats_of_single_record() {
    let h = hist_of(&[-55]);
    let (mn, md, mx) = h.stats();
    assert_eq!((mn, md, mx), (-55, -55, -55));
}

#[test]
fn stats_across_signs() {
    // values -5.5, 0.0, 5.5
    let h = hist_of(&[-55, 0, 55]);
    let (mn, md, mx) = h.stats();
    assert_eq!((mn, md, mx), (-55, 0, 55));
}

#[test]
fn add_is_bucketwise() {
    let mut a = hist_of(&[10, 20]);
    let b = hist_of(&[20, 30]);
    a.add(&b);
    let (mn, md, mx) = a.stats();
    // values 1.0, 2.0, 2.0, 3.0: median 2.0
    assert_eq!((mn, md, mx), (10, 20, 30));
    assert_eq!(a.total(), 4);
}
