//! Tests of the text formats: path names, thresholds, BED and grouping
//! tables, and the histogram's tab-separated round trip.

use panacus::graph::PathSegment;
use panacus::hist::Hist;
use panacus::io::{parse_bed, parse_coverage_threshold_file, parse_groups};
use panacus::util::{
    parse_threshold_cli,
    validate_grouping_options,
    CountError,
    CountType,
    RequireThreshold,
    Threshold,
};

#[test]
fn path_segment_full_form() {
    let ps = PathSegment::from_bytes(&b"HG00733#1#chr1:5-10".to_vec()).unwrap();
    assert_eq!(ps.sample, b"HG00733".to_vec());
    assert_eq!(ps.haplotype, Some(b"1".to_vec()));
    assert_eq!(ps.seqid, Some(b"chr1".to_vec()));
    assert_eq!(ps.start, Some(5));
    assert_eq!(ps.end, Some(10));
}

#[test]
fn path_segment_short_forms() {
    let ps = PathSegment::from_bytes(&b"p1".to_vec()).unwrap();
    assert_eq!(ps.sample, b"p1".to_vec());
    assert_eq!(ps.haplotype, None);
    assert_eq!(ps.start, None);
    let ps2 = PathSegment::from_bytes(&b"s#h".to_vec()).unwrap();
    assert_eq!(ps2.sample, b"s".to_vec());
    assert_eq!(ps2.haplotype, Some(b"h".to_vec()));
    assert_eq!(ps2.seqid, None);
}

#[test]
fn path_segment_bad_coordinates() {
    assert!(PathSegment::from_bytes(&b"p:5-x".to_vec()).is_none());
    assert!(PathSegment::from_bytes(&b"p:5".to_vec()).is_none());
    assert!(PathSegment::from_bytes(&b"a#b#c#d".to_vec()).is_none());
}

#[test]
fn thresholds_absolute_and_relative() {
    let ts = parse_threshold_cli(&b"1,2,10".to_vec(), RequireThreshold::Absolute).unwrap();
    assert_eq!(ts, vec![Threshold::Absolute(1), Threshold::Absolute(2), Threshold::Absolute(10)]);
    let ts = parse_threshold_cli(&b"0.2, 0.5".to_vec(), RequireThreshold::Relative).unwrap();
    assert_eq!(ts, vec![Threshold::Relative(2, 10), Threshold::Relative(5, 10)]);
    let ts = parse_threshold_cli(&b"2,0.75".to_vec(), RequireThreshold::Either).unwrap();
    assert_eq!(ts, vec![Threshold::Absolute(2), Threshold::Relative(75, 100)]);
}

#[test]
fn thresholds_out_of_range_rejected() {
    assert_eq!(
        parse_threshold_cli(&b"1.5".to_vec(), RequireThreshold::Relative).unwrap_err(),
        CountError::InvalidInput
    );
    assert_eq!(
        parse_threshold_cli(&b"abc".to_vec(), RequireThreshold::Either).unwrap_err(),
        CountError::InvalidInput
    );
    assert_eq!(
        parse_threshold_cli(&b"0.5".to_vec(), RequireThreshold::Absolute).unwrap_err(),
        CountError::InvalidInput
    );
}

#[test]
fn relative_threshold_resolves_by_rounding_up() {
    let t = Threshold::Relative(1, 2);
    assert_eq!(t.to_absolute(3), 2);
    assert_eq!(t.to_absolute(4), 2);
    assert_eq!(Threshold::Relative(0, 1).to_absolute(7), 0);
    assert_eq!(Threshold::Relative(1, 1).to_absolute(7), 7);
    assert_eq!(Threshold::Absolute(5).to_absolute(7), 5);
}

#[test]
fn grouping_option_conflict() {
    assert!(validate_grouping_options(true, false, false).is_ok());
    assert!(validate_grouping_options(false, false, false).is_ok());
    assert_eq!(
        validate_grouping_options(true, true, false).unwrap_err(),
        CountError::InvalidInput
    );
    assert_eq!(
        validate_grouping_options(false, true, true).unwrap_err(),
        CountError::InvalidInput
    );
}

#[test]
fn bed_three_and_twelve_columns() {
    let data = b"# a comment\ntrack name=x\np1\t5\t15\np2\t0\t100\tn\t0\t+\t0\t0\t0\t2\t4,6\t0,50\n"
        .to_vec();
    let segs = parse_bed(&data).unwrap();
    assert_eq!(segs.len(), 3);
    assert_eq!(segs[0].sample, b"p1".to_vec());
    assert_eq!(segs[0].start, Some(5));
    assert_eq!(segs[0].end, Some(15));
    // blocks are relative to the row's start
    assert_eq!(segs[1].sample, b"p2".to_vec());
    assert_eq!(segs[1].start, Some(0));
    assert_eq!(segs[1].end, Some(4));
    assert_eq!(segs[2].start, Some(50));
    assert_eq!(segs[2].end, Some(56));
}

#[test]
fn bed_one_column_keeps_name_coordinates() {
    let segs = parse_bed(&b"p1:5-15\n".to_vec()).unwrap();
    assert_eq!(segs.len(), 1);
    assert_eq!(segs[0].start, Some(5));
    assert_eq!(segs[0].end, Some(15));
}

#[test]
fn bed_two_columns_rejected() {
    assert_eq!(
        parse_bed(&b"p1\t5\n".to_vec()).unwrap_err(),
        CountError::FormatError(1)
    );
}

#[test]
fn groups_table_rejects_duplicates() {
    let rows = parse_groups(&b"p1\tg1\np2\tg2\n".to_vec()).unwrap();
    assert_eq!(rows.len(), 2);
    assert_eq!(rows[0].1, b"g1".to_vec());
    assert_eq!(
        parse_groups(&b"p1\tg1\np1\tg2\n".to_vec()).unwrap_err(),
        CountError::InvalidInput
    );
}

#[test]
fn coverage_threshold_table() {
    let rows = parse_coverage_threshold_file(&b"core\t0.95\nshell\t2\n7\n".to_vec()).unwrap();
    assert_eq!(rows[0].0, b"core".to_vec());
    assert_eq!(rows[0].1, Threshold::Relative(95, 100));
    assert_eq!(rows[1].1, Threshold::Absolute(2));
    assert_eq!(rows[2].0, b"7".to_vec());
    assert_eq!(rows[2].1, Threshold::Absolute(7));
}

#[test]
fn histogram_tsv_round_trip() {
    let h = Hist { count_type: CountType::Node, coverage: vec![0, 2, 1] };
    let text = h.to_tsv();
    assert_eq!(text, b"coverage\tnode\n0\t0\n1\t2\n2\t1\n".to_vec());
    let back = Hist::from_tsv(&text).unwrap();
    assert_eq!(back.count_type, CountType::Node);
    assert_eq!(back.coverage, h.coverage);
}

#[test]
fn histogram_tsv_rejects_bad_header() {
    assert_eq!(
        Hist::from_tsv(&b"cov\tnode\n0\t0\n".to_vec()).unwrap_err(),
        CountError::FormatError(1)
    );
    assert_eq!(
        Hist::from_tsv(&b"coverage\tnode\n1\t0\n".to_vec()).unwrap_err(),
        CountError::FormatError(2)
    );
}
