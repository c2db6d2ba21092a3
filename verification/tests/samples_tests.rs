use lib::samples::{checked_x_range, mark_coverage, missing_ranges, sort_samples, sorted_unique_samples, summarize_status_samples};
use lib::shard::{parse_sample_rows, SampleFault, SampleRowError};
use lib::P;

#[test]
fn sort_orders_by_x_then_value() {
    let v = vec![(5u32, 2u32), (1, 9), (5, 1), (3, 3), (1, 4)];
    let out = sort_samples(&v);
    assert_eq!(out, vec![(1, 4), (1, 9), (3, 3), (5, 1), (5, 2)]);
    assert!(sort_samples(&[]).is_empty());
}

#[test]
fn unique_samples_merge_duplicate_rows() {
    let samples = vec![(3u32, 30u32), (1, 10), (3, 30), (2, 20)];
    let (xs, ys) = sorted_unique_samples(samples).expect("no conflict");
    assert_eq!(xs, vec![1, 2, 3]);
    assert_eq!(ys, vec![10, 20, 30]);
}

#[test]
fn unique_samples_refuse_conflicting_rows() {
    let samples = vec![(3u32, 30u32), (1, 10), (3, 31)];
    assert!(sorted_unique_samples(samples).is_none());
}

#[test]
fn status_summary_counts_duplicates_conflicts_and_zeros() {
    let samples = vec![(4u32, 0u32), (2, 7), (2, 7), (4, 5), (9, 0), (9, 0), (9, 0)];
    let (xs, duplicates, conflicts, zeros) = summarize_status_samples(samples);
    assert_eq!(xs, vec![2, 4, 9]);
    assert_eq!(duplicates, 4);
    assert_eq!(conflicts, 1);
    assert_eq!(zeros, 2);
}

#[test]
fn missing_ranges_reports_maximal_gaps() {
    let covered = [true, false, false, true, false, true, true, false];
    let (missing, ranges) = missing_ranges(&covered, 10);
    assert_eq!(missing, 4);
    assert_eq!(ranges, vec![(2, 2), (5, 1), (8, 1)]);
    let (missing, ranges) = missing_ranges(&covered, 2);
    assert_eq!(missing, 4);
    assert_eq!(ranges, vec![(2, 2), (5, 1)]);
    let (missing, ranges) = missing_ranges(&covered, 1);
    assert_eq!(missing, 4);
    assert_eq!(ranges, vec![(2, 2)]);
    let (missing, ranges) = missing_ranges(&[true, true], 3);
    assert_eq!(missing, 0);
    assert!(ranges.is_empty());
}

#[test]
fn checked_x_range_edges() {
    assert_eq!(checked_x_range(5, 3), Some(vec![5, 6, 7]));
    assert_eq!(checked_x_range(5, 0), Some(vec![5]));
    assert_eq!(checked_x_range(0, 3), None);
    assert_eq!(checked_x_range(P - 2, 2), Some(vec![P - 2, P - 1]));
    assert_eq!(checked_x_range(P - 2, 3), None);
}

#[test]
fn coverage_marks_grid_points_and_counts_the_rest() {
    let (covered, off) = mark_coverage(&[2, 5, 0, 2, 9], 5);
    assert_eq!(covered, vec![false, true, false, false, true]);
    assert_eq!(off, 2);
}

fn chars(s: &str) -> Vec<char> {
    s.chars().collect()
}

#[test]
fn sample_rows_are_parsed_in_order() {
    let text = "# seed=1\nx,resultant\n  1,10  \n\n2,+20\r\n3,0\n";
    assert_eq!(parse_sample_rows(&chars(text)), Ok(vec![(1u32, 10u32), (2, 20), (3, 0)]));
    assert_eq!(parse_sample_rows(&chars("")), Ok(vec![]));
}

#[test]
fn sample_row_faults_carry_their_line() {
    assert_eq!(
        parse_sample_rows(&chars("x,resultant\n1,2\n7\n")),
        Err(SampleRowError { fault: SampleFault::NoComma, line: 3 })
    );
    assert_eq!(
        parse_sample_rows(&chars("a,2\n")),
        Err(SampleRowError { fault: SampleFault::BadX, line: 1 })
    );
    assert_eq!(
        parse_sample_rows(&chars("1, 2\n")),
        Err(SampleRowError { fault: SampleFault::BadResultant, line: 1 })
    );
    assert_eq!(
        parse_sample_rows(&chars("1,4294967296\n")),
        Err(SampleRowError { fault: SampleFault::BadResultant, line: 1 })
    );
}
