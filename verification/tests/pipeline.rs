//! End-to-end tests of the counting pipeline: first pass, grouping, second
//! pass, abacus and histogram.

use panacus::abacus::{AbacusByTotal, GroupMode, Grouping, ItemTable};
use panacus::graph::PathSegment;
use panacus::hist::Hist;
use panacus::io::{parse_gfa_nodecount, parse_graph_marginals};
use panacus::util::{CountType, SIZE_T};

fn toy_gfa() -> Vec<u8> {
    b"S\ta\tA\nS\tb\tA\nS\tc\tA\nP\tp1\ta+,b+\t*\nP\tp2\tb+,c+\t*\n".to_vec()
}

#[test]
fn two_path_toy_histogram() {
    let data = toy_gfa();
    let graph = parse_graph_marginals(&data, false).unwrap();
    assert_eq!(graph.node_names.len(), 3);
    assert_eq!(graph.path_segments.len(), 2);
    let file: Vec<(PathSegment, Vec<u8>)> = Vec::new();
    let grouping = Grouping::assign(&graph.path_segments, GroupMode::PerPath, &file).unwrap();
    assert_eq!(grouping.labels.len(), 2);
    let ab = AbacusByTotal::from_gfa(&data, &graph, None, &grouping).unwrap();
    // a and c sit in one group each, b in both
    assert_eq!(ab.countable, vec![1u16, 2u16, 1u16]);
    let hist = Hist::from_abacus(&ab, CountType::Node);
    assert_eq!(hist.coverage, vec![0usize, 2, 1]);
}

#[test]
fn subset_excludes_unlisted_paths() {
    let data = toy_gfa();
    let graph = parse_graph_marginals(&data, false).unwrap();
    let file: Vec<(PathSegment, Vec<u8>)> = Vec::new();
    let grouping = Grouping::assign(&graph.path_segments, GroupMode::PerPath, &file).unwrap();
    // subset that names only p1, whole
    let subset = vec![PathSegment::new(b"p1".to_vec(), None, None, None, None)];
    let ab = AbacusByTotal::from_gfa(&data, &graph, Some(&subset), &grouping).unwrap();
    // only p1's nodes a and b are counted; c is uncovered
    assert_eq!(ab.countable, vec![1u16, 1u16, 0u16]);
    let hist = Hist::from_abacus(&ab, CountType::Node);
    assert_eq!(hist.coverage, vec![1usize, 2, 0]);
}

#[test]
fn subset_union_of_all_paths_equals_no_subset() {
    let data = toy_gfa();
    let graph = parse_graph_marginals(&data, false).unwrap();
    let file: Vec<(PathSegment, Vec<u8>)> = Vec::new();
    let grouping = Grouping::assign(&graph.path_segments, GroupMode::PerPath, &file).unwrap();
    let subset = vec![
        PathSegment::new(b"p1".to_vec(), None, None, None, None),
        PathSegment::new(b"p2".to_vec(), None, None, None, None),
    ];
    let with_subset = AbacusByTotal::from_gfa(&data, &graph, Some(&subset), &grouping).unwrap();
    let without = AbacusByTotal::from_gfa(&data, &graph, None, &grouping).unwrap();
    assert_eq!(with_subset.countable, without.countable);
}

#[test]
fn group_reordering_keeps_histogram() {
    // the same paths grouped by a file, in two different label orders
    let data = toy_gfa();
    let graph = parse_graph_marginals(&data, false).unwrap();
    let file_a = vec![
        (PathSegment::new(b"p1".to_vec(), None, None, None, None), b"x".to_vec()),
        (PathSegment::new(b"p2".to_vec(), None, None, None, None), b"y".to_vec()),
    ];
    let file_b = vec![
        (PathSegment::new(b"p2".to_vec(), None, None, None, None), b"y".to_vec()),
        (PathSegment::new(b"p1".to_vec(), None, None, None, None), b"x".to_vec()),
    ];
    let ga = Grouping::assign(&graph.path_segments, GroupMode::ByFile, &file_a).unwrap();
    let gb = Grouping::assign(&graph.path_segments, GroupMode::ByFile, &file_b).unwrap();
    let ha = Hist::from_abacus(
        &AbacusByTotal::from_gfa(&data, &graph, None, &ga).unwrap(),
        CountType::Node,
    );
    let hb = Hist::from_abacus(
        &AbacusByTotal::from_gfa(&data, &graph, None, &gb).unwrap(),
        CountType::Node,
    );
    assert_eq!(ha.coverage, hb.coverage);
}

#[test]
fn item_table_prefix_sums_total_the_deposits() {
    let data = toy_gfa();
    let graph = parse_graph_marginals(&data, false).unwrap();
    let table: ItemTable = parse_gfa_nodecount(&data, &graph, None).unwrap();
    let paths = graph.path_segments.len();
    let mut total = 0usize;
    for s in 0..SIZE_T {
        assert_eq!(table.id_prefsum[s].len(), paths + 1);
        assert_eq!(table.id_prefsum[s][paths], table.items[s].len());
        total += table.items[s].len();
    }
    // p1 deposits a and b, p2 deposits b and c
    assert_eq!(total, 4);
}

#[test]
fn walks_count_like_paths() {
    let data =
        b"S\ta\tA\nS\tb\tA\nS\tc\tA\nW\ts1\t1\tchr\t0\t2\t>a>b\nW\ts2\t1\tchr\t0\t2\t>b>c\n"
            .to_vec();
    let graph = parse_graph_marginals(&data, false).unwrap();
    assert_eq!(graph.path_segments.len(), 2);
    let file: Vec<(PathSegment, Vec<u8>)> = Vec::new();
    let grouping = Grouping::assign(&graph.path_segments, GroupMode::BySample, &file).unwrap();
    assert_eq!(grouping.labels, vec![b"s1".to_vec(), b"s2".to_vec()]);
    let ab = AbacusByTotal::from_gfa(&data, &graph, None, &grouping).unwrap();
    assert_eq!(ab.countable, vec![1u16, 2u16, 1u16]);
}

#[test]
fn edges_are_indexed_on_request() {
    let data = b"S\ta\tA\nS\tb\tA\nL\ta\t+\tb\t+\t0M\nP\tp1\ta+,b+\t*\n".to_vec();
    let graph = parse_graph_marginals(&data, true).unwrap();
    assert_eq!(graph.edge_keys.len(), 1);
    assert_eq!(graph.edge_keys[0], b">a>b".to_vec());
    assert_eq!(graph.edge_id(&b">a>b".to_vec()), Some(0));
    assert_eq!(graph.edge_id(&b">a<b".to_vec()), None);
    let off = parse_graph_marginals(&data, false).unwrap();
    assert_eq!(off.edge_keys.len(), 0);
}

#[test]
fn histogram_conserves_the_item_total() {
    let data = toy_gfa();
    let graph = parse_graph_marginals(&data, false).unwrap();
    let file: Vec<(PathSegment, Vec<u8>)> = Vec::new();
    let grouping = Grouping::assign(&graph.path_segments, GroupMode::PerPath, &file).unwrap();
    let ab = AbacusByTotal::from_gfa(&data, &graph, None, &grouping).unwrap();
    let hist = Hist::from_abacus(&ab, CountType::Node);
    let total: usize = hist.coverage.iter().sum();
    assert_eq!(total, graph.node_names.len());
}

#[test]
fn group_ceiling_is_enforced() {
    let data = toy_gfa();
    let graph = parse_graph_marginals(&data, false).unwrap();
    let mut labels: Vec<Vec<u8>> = Vec::new();
    for i in 0..65535usize {
        labels.push(format!("g{}", i).into_bytes());
    }
    let grouping = Grouping { labels, assignment: vec![0, 1] };
    let r = AbacusByTotal::from_gfa(&data, &graph, None, &grouping);
    assert_eq!(r.unwrap_err(), panacus::util::CountError::Unsupported);
}

#[test]
fn pipeline_histogram_survives_its_tsv_form() {
    let data = toy_gfa();
    let graph = parse_graph_marginals(&data, false).unwrap();
    let file: Vec<(PathSegment, Vec<u8>)> = Vec::new();
    let grouping = Grouping::assign(&graph.path_segments, GroupMode::PerPath, &file).unwrap();
    let ab = AbacusByTotal::from_gfa(&data, &graph, None, &grouping).unwrap();
    let hist = Hist::from_abacus(&ab, CountType::Node);
    let back = Hist::from_tsv(&hist.to_tsv()).unwrap();
    assert_eq!(back.count_type, hist.count_type);
    assert_eq!(back.coverage, hist.coverage);
}

#[test]
fn ordered_growth_counts_prefix_coverage() {
    // three items, covered by groups {0}, {0,1} and {2} in the given order
    let rows: Vec<Vec<u32>> = vec![vec![0], vec![0, 1], vec![2]];
    let g = panacus::growth::calc_ordered_growth(&rows, 3, 1);
    assert_eq!(g, vec![2, 2, 3]);
    let g2 = panacus::growth::calc_ordered_growth(&rows, 3, 2);
    assert_eq!(g2, vec![0, 1, 1]);
    // never falls as the prefix grows
    for m in 1..g.len() {
        assert!(g[m - 1] <= g[m]);
    }
}

#[test]
fn empty_graph_has_no_paths() {
    let data = b"S\ta\tACGT\nS\tb\tT\n".to_vec();
    let graph = parse_graph_marginals(&data, false).unwrap();
    assert_eq!(graph.path_segments.len(), 0);
    assert_eq!(graph.node_names.len(), 2);
    assert_eq!(graph.node_len, vec![4u32, 1u32]);
}

#[test]
fn unknown_node_in_body_is_a_format_error() {
    let data = b"S\ta\tA\nP\tp1\ta+,zz+\t*\n".to_vec();
    let graph = parse_graph_marginals(&data, false).unwrap();
    let r = parse_gfa_nodecount(&data, &graph, None);
    assert_eq!(r.unwrap_err(), panacus::util::CountError::FormatError(2));
}

#[test]
fn duplicate_segment_names_keep_first_id() {
    let data = b"S\ta\tACGT\nS\ta\tTT\nS\tb\tG\n".to_vec();
    let graph = parse_graph_marginals(&data, false).unwrap();
    assert_eq!(graph.node_names.len(), 2);
    assert_eq!(graph.node_len, vec![4u32, 1u32]);
}

#[test]
fn empty_segment_sequence_is_rejected() {
    let data = b"S\ta\t\nP\tp\ta+\t*\n".to_vec();
    let r = parse_graph_marginals(&data, false);
    assert_eq!(r.unwrap_err(), panacus::util::CountError::FormatError(1));
}
