use ovh_parsing::metrics::ExperimentResults;
use ovh_parsing::aggregate::aggregate_by_time;
use ovh_parsing::aggregate::aggregate_ecmp_diff;
use ovh_parsing::aggregate::histogram_counts;
use ovh_parsing::stats::OvhNodeFilter;

fn result_at(ts: i64, diffs: Vec<u64>) -> ExperimentResults {
    let mut r = ExperimentResults::default();
    r.timestamp = ts;
    r.ecmp_diffs = diffs;
    r
}

const JAN_15_2021: i64 = 1610668800;
const JAN_16_2021: i64 = 1610755200;
const FEB_10_2021: i64 = 1612915200;
const MAR_01_2021: i64 = 1614556800;

#[test]
fn test_same_month_one_bucket() {
    let data = vec![result_at(JAN_15_2021, vec![1]), result_at(JAN_16_2021, vec![2])];
    let buckets = aggregate_by_time(&data);
    assert_eq!(buckets.len(), 1);
    assert_eq!(buckets[0].members, vec![0, 1]);
    assert_eq!(
        (buckets[0].month_start.year, buckets[0].month_start.month, buckets[0].month_start.day),
        (2021, 1, 15)
    );
}

#[test]
fn test_adjacent_months_two_buckets() {
    let data = vec![result_at(JAN_15_2021, vec![]), result_at(FEB_10_2021, vec![])];
    let buckets = aggregate_by_time(&data);
    assert_eq!(buckets.len(), 2);
    assert_eq!(buckets[0].members, vec![0]);
    assert_eq!(buckets[1].members, vec![1]);
    assert_eq!(
        (buckets[1].month_start.year, buckets[1].month_start.month, buckets[1].month_start.day),
        (2021, 2, 10)
    );
}

#[test]
fn test_gap_month_gets_empty_bucket() {
    // data in January and March only: exactly three buckets come out,
    // the middle one empty, anchored at the first of February
    let data = vec![
        result_at(JAN_15_2021, vec![1]),
        result_at(JAN_16_2021, vec![2]),
        result_at(MAR_01_2021, vec![3]),
    ];
    let buckets = aggregate_by_time(&data);
    assert_eq!(buckets.len(), 3);
    assert_eq!(buckets[0].members, vec![0, 1]);
    assert!(buckets[1].members.is_empty());
    assert_eq!(buckets[2].members, vec![2]);
    assert_eq!(
        (buckets[1].month_start.year, buckets[1].month_start.month, buckets[1].month_start.day),
        (2021, 2, 1)
    );
    assert_eq!(
        (buckets[2].month_start.year, buckets[2].month_start.month, buckets[2].month_start.day),
        (2021, 3, 1)
    );
}

#[test]
fn test_year_wrap_gap() {
    // 2020-12-15 .. 2021-02-01: December, an empty January, February
    let dec = 1607990400;
    let feb = 1612137600;
    let data = vec![result_at(dec, vec![]), result_at(feb, vec![])];
    let buckets = aggregate_by_time(&data);
    assert_eq!(buckets.len(), 3);
    assert_eq!(
        (buckets[0].month_start.year, buckets[0].month_start.month),
        (2020, 12)
    );
    assert!(buckets[1].members.is_empty());
    assert_eq!(
        (buckets[1].month_start.year, buckets[1].month_start.month, buckets[1].month_start.day),
        (2021, 1, 1)
    );
    assert_eq!(
        (buckets[2].month_start.year, buckets[2].month_start.month),
        (2021, 2)
    );
}

#[test]
fn test_aggregate_ecmp_diff_concatenates_members() {
    let data = vec![
        result_at(JAN_15_2021, vec![1, 2]),
        result_at(JAN_16_2021, vec![3]),
        result_at(MAR_01_2021, vec![4]),
    ];
    let buckets = aggregate_by_time(&data);
    let per_bucket = aggregate_ecmp_diff(&buckets, &data, OvhNodeFilter::All);
    assert_eq!(per_bucket.len(), 3);
    assert_eq!(per_bucket[0], vec![1, 2, 3]);
    assert_eq!(per_bucket[1], Vec::<u64>::new());
    assert_eq!(per_bucket[2], vec![4]);
}

#[test]
fn test_histogram_counts_half_open_ranges() {
    let values = vec![0, 1, 2, 5, 7, 99, 100];
    let ranges = vec![0, 1, 2, 3, 4, 5, 6, 7, 100];
    let counts = histogram_counts(&values, &ranges);
    assert_eq!(counts, vec![1, 1, 1, 0, 0, 1, 0, 2]);
}

#[test]
fn test_histogram_empty_values() {
    let counts = histogram_counts(&Vec::new(), &vec![0, 1, 2]);
    assert_eq!(counts, vec![0, 0]);
}
