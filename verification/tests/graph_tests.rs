use std::collections::BTreeMap;

use utillib::dict_of_edges_from_lines;
use utillib::m_sparse;
use utillib::max_node;
use utillib::out_degrees;
use utillib::r_vec_support;
use utillib::EdgeMatrix;

fn edges_of(entries: &[(usize, &[usize])]) -> EdgeMatrix {
    let mut edges: EdgeMatrix = BTreeMap::new();
    for &(from, tos) in entries {
        edges.insert(from, tos.to_vec());
    }
    edges
}

#[test]
fn test_out_degree_counts_duplicates() {
    let edges = edges_of(&[(0, &[1, 1]), (2, &[0, 1, 3])]);
    let out_deg = out_degrees(&edges);
    assert_eq!(2, out_deg[&0]);
    assert_eq!(3, out_deg[&2]);
    assert_eq!(2, out_deg.len());
    assert!(!out_deg.contains_key(&1));
}

#[test]
fn test_max_node_empty_collection() {
    let edges: EdgeMatrix = BTreeMap::new();
    assert_eq!(0, max_node(&edges));
}

#[test]
fn test_max_node_from_destination() {
    let edges = edges_of(&[(0, &[1, 914842]), (3, &[2])]);
    assert_eq!(914842, max_node(&edges));
}

#[test]
fn test_max_node_from_source() {
    let edges = edges_of(&[(5, &[3])]);
    assert_eq!(5, max_node(&edges));
}

#[test]
fn test_dict_of_edges_skips_header_lines() {
    let lines: Vec<String> = vec![
        "# comment".to_string(),
        "# another".to_string(),
        "0 1".to_string(),
        "0 2".to_string(),
        "1 0".to_string(),
        "0 1".to_string(),
    ];
    let edges = dict_of_edges_from_lines(&lines, 2);
    assert_eq!(2, edges.len());
    assert_eq!(vec![1, 2, 1], edges[&0]);
    assert_eq!(vec![0], edges[&1]);
}

#[test]
fn test_dict_of_edges_skip_past_end() {
    let lines: Vec<String> = vec!["0 1".to_string()];
    let edges = dict_of_edges_from_lines(&lines, 5);
    assert!(edges.is_empty());
}

#[test]
fn test_m_sparse_entries() {
    let edges = edges_of(&[(0, &[1, 2]), (3, &[1])]);
    let out_deg = out_degrees(&edges);
    let m = m_sparse(&edges, &out_deg);
    assert_eq!(2, m[&1][&0]);
    assert_eq!(2, m[&2][&0]);
    assert_eq!(1, m[&1][&3]);
    assert_eq!(2, m.len());
    assert!(!m.contains_key(&0));
}

#[test]
fn test_m_sparse_duplicate_edges_overwrite() {
    // a source with two parallel edges to one destination keeps a single
    // entry, while its out-degree still counts both records
    let edges = edges_of(&[(0, &[1, 1])]);
    let out_deg = out_degrees(&edges);
    let m = m_sparse(&edges, &out_deg);
    assert_eq!(1, m.len());
    assert_eq!(1, m[&1].len());
    assert_eq!(2, m[&1][&0]);
}

#[test]
fn test_r_vec_support_empty_matrix() {
    let edges: EdgeMatrix = BTreeMap::new();
    let out_deg = out_degrees(&edges);
    let m = m_sparse(&edges, &out_deg);
    let sup = r_vec_support(max_node(&edges), &m);
    assert_eq!(1, sup.len());
    assert!(!sup[0]);
}

#[test]
fn test_r_vec_support_destination_keys_only() {
    // node 0 appears only as a source, so its entry stays outside the support
    let edges = edges_of(&[(0, &[1, 2])]);
    let out_deg = out_degrees(&edges);
    let m = m_sparse(&edges, &out_deg);
    let sup = r_vec_support(max_node(&edges), &m);
    assert_eq!(vec![false, true, true], sup);
}
