use metapartition::codec::parse_ints;
use metapartition::errors::ErrorKind;
use metapartition::hypergraph::HyperGraph;
use metapartition::metapartitioner::mirror_correct;
use metapartition::metapartitioner::Metapartitioner;
use metapartition::metapartitioner::Partitioner;

fn lines(texts: &[&str]) -> Vec<Vec<u8>> {
    texts.iter().map(|t| t.as_bytes().to_vec()).collect()
}

#[test]
fn parse_ints_reads_signed_values() {
    let v = parse_ints(&b"12 -3 +4".to_vec()).unwrap();
    assert_eq!(v, vec![12, -3, 4]);
    let empty = parse_ints(&b"   ".to_vec()).unwrap();
    assert!(empty.is_empty());
}

#[test]
fn parse_ints_handles_i32_range() {
    assert_eq!(parse_ints(&b"2147483647".to_vec()).unwrap(), vec![2147483647]);
    assert_eq!(parse_ints(&b"-2147483648".to_vec()).unwrap(), vec![-2147483648]);
    assert_eq!(
        parse_ints(&b"2147483648".to_vec()).unwrap_err(),
        ErrorKind::ParseError
    );
    assert_eq!(parse_ints(&b"12a".to_vec()).unwrap_err(), ErrorKind::ParseError);
    assert_eq!(parse_ints(&b"-".to_vec()).unwrap_err(), ErrorKind::ParseError);
}

#[test]
fn sample_graph_shape() {
    let g = HyperGraph::hm_sample();
    assert_eq!(g.vtxwt, vec![1, 1, 1, 1, 1, 1, 1]);
    assert_eq!(g.hewt, vec![1, 1, 1, 1]);
    assert_eq!(g.part, vec![-1, -1, -1, -1, -1, -1, -1]);
    assert_eq!(g.eind, vec![0, 2, 6, 9, 12]);
    assert_eq!(g.eptr, vec![0, 2, 0, 1, 3, 4, 3, 4, 6, 2, 5, 6]);
}

#[test]
fn incidence_lists_of_sample() {
    let g = HyperGraph::hm_sample();
    let rows = g.vertex_edge_container();
    assert_eq!(rows[0], vec![0, 1]);
    assert_eq!(rows[1], vec![1]);
    assert_eq!(rows[2], vec![0, 3]);
    assert_eq!(rows[3], vec![1, 2]);
    assert_eq!(rows[4], vec![1, 2]);
    assert_eq!(rows[5], vec![3]);
    assert_eq!(rows[6], vec![2, 3]);
}

#[test]
fn bfs_sample_distances() {
    let g = HyperGraph::hm_sample();
    let d = g.bfs(&vec![0], 100);
    assert_eq!(d, vec![0, 1, 1, 1, 1, 2, 2]);
    // every vertex is reachable within two hops of vertex 0
    assert!(d.iter().all(|&x| x <= 2));
}

#[test]
fn bfs_zero_iff_source() {
    let g = HyperGraph::hm_sample();
    let d = g.bfs(&vec![2, 5], 100);
    for v in 0..7 {
        assert_eq!(d[v] == 0, v == 2 || v == 5);
    }
}

#[test]
fn bfs_budget_stops_expansion() {
    let g = HyperGraph::hm_sample();
    let d = g.bfs(&vec![0], 0);
    // vertices one hop out still drain from the queue, further ones stay
    // at the sentinel 2 * 7
    assert_eq!(d, vec![0, 1, 1, 1, 1, 14, 14]);
}

#[test]
fn bfs_distances_form_valid_labeling() {
    let g = HyperGraph::hm_sample();
    let d = g.bfs(&vec![0], 100);
    // co-members of any hyperedge are at most one hop apart
    for e in 0..g.eind.len() - 1 {
        for i in g.eind[e] as usize..g.eind[e + 1] as usize {
            for j in g.eind[e] as usize..g.eind[e + 1] as usize {
                let a = d[g.eptr[i] as usize] as i64;
                let b = d[g.eptr[j] as usize] as i64;
                assert!((a - b).abs() <= 1);
            }
        }
    }
}

#[test]
fn dijkstra_unit_costs_match_bfs() {
    let g = HyperGraph::hm_sample();
    let db = g.bfs(&vec![0], 100);
    let dd = g.dijkstra(&vec![0], &vec![1, 1, 1, 1]);
    assert_eq!(db, dd);
}

#[test]
fn dijkstra_member_count_costs() {
    let g = HyperGraph::hm_sample();
    let mut edgelength = Vec::new();
    for e in 0..g.eind.len() - 1 {
        edgelength.push((g.eind[e + 1] - g.eind[e]) as usize);
    }
    assert_eq!(edgelength, vec![2, 4, 3, 3]);
    let d = g.dijkstra(&vec![0], &edgelength);
    assert_eq!(d, vec![0, 4, 2, 4, 4, 5, 5]);
}

#[test]
fn dijkstra_unreachable_is_sentinel() {
    let g = HyperGraph {
        vtxwt: vec![1, 1, 1],
        hewt: vec![1],
        part: vec![-1, -1, -1],
        eind: vec![0, 2],
        eptr: vec![0, 1],
    };
    let d = g.dijkstra(&vec![0], &vec![3]);
    assert_eq!(d, vec![0, 3, 6]);
}

#[test]
fn fix_sets_listed_vertices() {
    let mut g = HyperGraph::hm_sample();
    g.fix(&vec![1, 3], 1).unwrap();
    assert_eq!(g.part, vec![-1, 1, -1, 1, -1, -1, -1]);
}

#[test]
fn fix_rejects_out_of_range() {
    let mut g = HyperGraph::hm_sample();
    let before = g.part.clone();
    assert_eq!(g.fix(&vec![1, 7], 0).unwrap_err(), ErrorKind::IndexOutOfRange);
    assert_eq!(g.part, before);
}

#[test]
fn bias_even_target_is_noop() {
    let mut g = HyperGraph::hm_sample();
    g.bias(1, 2);
    assert_eq!(g.vtxwt, vec![1, 1, 1, 1, 1, 1, 1]);
    assert_eq!(g.part, vec![-1, -1, -1, -1, -1, -1, -1]);
}

#[test]
fn bias_appends_anchor_when_none_fixed() {
    let mut g = HyperGraph::hm_sample();
    // shrink bin 0's share: no vertex is fixed to bin 1 yet
    g.bias(1, 4);
    assert_eq!(g.vtxwt, vec![1, 1, 1, 1, 1, 1, 1, 1]);
    assert_eq!(g.part, vec![-1, -1, -1, -1, -1, -1, -1, 1]);
}

#[test]
fn bias_strengthens_existing_anchor() {
    let mut g = HyperGraph::hm_sample();
    g.fix(&vec![2, 4], 1).unwrap();
    g.bias(1, 4);
    // the last vertex fixed to bin 1 gains one unit of weight
    assert_eq!(g.vtxwt, vec![1, 1, 1, 1, 2, 1, 1]);
    let mut g2 = HyperGraph::hm_sample();
    g2.fix(&vec![3], 0).unwrap();
    g2.bias(3, 4);
    assert_eq!(g2.vtxwt, vec![1, 1, 1, 2, 1, 1, 1]);
}

#[test]
fn evaluate_cut_of_sample_split() {
    let g = HyperGraph::hm_sample();
    let mp = Metapartitioner::new();
    let part = vec![0, 0, 1, 1, 1, 1, 1];
    let (bins, cut) = mp.evaluate(&g, &part);
    assert_eq!(bins, vec![2, 5]);
    assert_eq!(cut, 2);
}

#[test]
fn evaluate_bin_totals_are_additive() {
    let g = HyperGraph {
        vtxwt: vec![3, 1, 4, 1, 5],
        hewt: vec![],
        part: vec![-1; 5],
        eind: vec![],
        eptr: vec![],
    };
    let mp = Metapartitioner::new();
    let (bins, cut) = mp.evaluate(&g, &vec![0, 1, 1, 0, 1]);
    assert_eq!(bins, vec![4, 10]);
    assert_eq!(bins[0] + bins[1], 3 + 1 + 4 + 1 + 5);
    assert_eq!(cut, 0);
}

#[test]
fn partition_dumb_balances_weights() {
    let mut mp = Metapartitioner::new();
    mp.partitioner_type = Partitioner::D;
    let g = HyperGraph {
        vtxwt: vec![5, 4, 3, 2, 1],
        hewt: vec![],
        part: vec![-1; 5],
        eind: vec![],
        eptr: vec![],
    };
    let (part, bins, cut) = mp.partition_dumb(&g).unwrap();
    assert_eq!(part, vec![0, 1, 1, 0, 0]);
    assert_eq!(bins, vec![8, 7]);
    assert_eq!(cut, 0);
    // greedy balance: the gap stays within the largest single weight
    assert!((bins[0] - bins[1]).abs() <= 5);
}

#[test]
fn partition_dumb_respects_fixed_vertices() {
    let mut g = HyperGraph::hm_sample();
    g.fix(&vec![0], 1).unwrap();
    let mp = Metapartitioner::new();
    let (part, _bins, _cut) = mp.partition_dumb(&g).unwrap();
    assert_eq!(part[0], 1);
    assert!(part.iter().all(|&b| b == 0 || b == 1));
}

#[test]
fn partition_dumb_rejects_other_k() {
    let mut mp = Metapartitioner::new();
    mp.k = 3;
    let g = HyperGraph::hm_sample();
    assert_eq!(
        mp.partition_dumb(&g).unwrap_err(),
        ErrorKind::PreconditionViolation
    );
}

#[test]
fn partition_dumb_rejects_bad_fixed_value() {
    let mut g = HyperGraph::hm_sample();
    g.part[3] = 7;
    let mp = Metapartitioner::new();
    assert_eq!(
        mp.partition_dumb(&g).unwrap_err(),
        ErrorKind::PreconditionViolation
    );
}

#[test]
fn hg_partition_dispatches_to_heuristic() {
    let mut mp = Metapartitioner::new();
    mp.partitioner_type = Partitioner::D;
    let g = HyperGraph::hm_sample();
    let (part, bins, _cut) = mp.hg_partition(&g).unwrap();
    assert_eq!(part.len(), 7);
    assert_eq!(bins[0] + bins[1], 7);
}

#[test]
fn hg_partition_reports_missing_backend() {
    let mp = Metapartitioner::new();
    // the default backend is KaHyPar, which is not linked in
    assert_eq!(mp.hg_partition(&HyperGraph::hm_sample()).unwrap_err(),
        ErrorKind::BackendUnavailable);
}

#[test]
fn backend_availability_and_names() {
    assert!(Metapartitioner::available(&Partitioner::D));
    assert!(!Metapartitioner::available(&Partitioner::K));
    assert!(!Metapartitioner::available(&Partitioner::H));
    assert!(!Metapartitioner::available(&Partitioner::MT));
    assert_eq!(Metapartitioner::name(&Partitioner::K), "KaHyPar");
    assert_eq!(Metapartitioner::name(&Partitioner::MT), "mt-KaHyPar");
    assert_eq!(Metapartitioner::name(&Partitioner::H), "hMetis");
    assert_eq!(Metapartitioner::name(&Partitioner::D), "dumb");
    assert_eq!(Metapartitioner::name(&Partitioner::X), "Unknown");
}

#[test]
fn default_configuration() {
    let mp = Metapartitioner::new();
    assert_eq!(mp.num_starts, 1);
    assert_eq!(mp.k, 2);
    assert!(matches!(mp.partitioner_type, Partitioner::K));
    assert_eq!(mp.seed, 8675309);
    assert_eq!(mp.imbalance_ppm, 10000);
}

#[test]
fn mirror_correction_fires_on_flipped_anchor() {
    let raw = vec![1, 0, 1];
    let fixed = vec![-1, -1, 0];
    assert_eq!(mirror_correct(&raw, &fixed), vec![0, 1, 0]);
}

#[test]
fn mirror_correction_passes_matching_anchor() {
    let raw = vec![1, 0, 1];
    let fixed = vec![-1, -1, 1];
    assert_eq!(mirror_correct(&raw, &fixed), vec![1, 0, 1]);
    let unfixed = vec![-1, -1, -1];
    assert_eq!(mirror_correct(&raw, &unfixed), vec![1, 0, 1]);
}

#[test]
fn error_labels() {
    assert_eq!(ErrorKind::ParseError.label(), "parse error");
    assert_eq!(ErrorKind::IndexOutOfRange.label(), "index out of range");
    assert_eq!(ErrorKind::BackendUnavailable.label(), "backend unavailable");
    assert_eq!(ErrorKind::PreconditionViolation.label(), "precondition violation");
}

#[test]
fn load_unweighted_sample_text() {
    let text = lines(&["4 7", "1 3", "1 2 4 5", "4 5 7", "3 6 7"]);
    let g = HyperGraph::load_from_lines(&text, None).unwrap();
    let sample = HyperGraph::hm_sample();
    assert_eq!(g.vtxwt, sample.vtxwt);
    assert_eq!(g.hewt, sample.hewt);
    assert_eq!(g.part, sample.part);
    assert_eq!(g.eind, sample.eind);
    assert_eq!(g.eptr, sample.eptr);
}

#[test]
fn load_weighted_modes() {
    let text = lines(&["2 3 11", "1 2 5", "2 3 9", "10", "20", "30"]);
    let g = HyperGraph::load_from_lines(&text, None).unwrap();
    assert_eq!(g.hewt, vec![5, 9]);
    assert_eq!(g.vtxwt, vec![10, 20, 30]);
    assert_eq!(g.eind, vec![0, 2, 4]);
    assert_eq!(g.eptr, vec![0, 1, 1, 2]);
}

#[test]
fn load_applies_fixed_file() {
    let text = lines(&["1 3", "1 2 3"]);
    let fixed = lines(&["-1", "1", "0"]);
    let g = HyperGraph::load_from_lines(&text, Some(&fixed)).unwrap();
    assert_eq!(g.part, vec![-1, 1, 0]);
}

#[test]
fn load_rejects_malformed_input() {
    // a token that is not an integer
    let bad_token = lines(&["1 2", "1 x"]);
    assert_eq!(
        HyperGraph::load_from_lines(&bad_token, None).unwrap_err(),
        ErrorKind::ParseError
    );
    // fewer hyperedge lines than the header declares
    let short = lines(&["2 3", "1 2"]);
    assert_eq!(
        HyperGraph::load_from_lines(&short, None).unwrap_err(),
        ErrorKind::ParseError
    );
    // a vertex id outside 1..=num_vertices
    let bad_id = lines(&["1 3", "1 4"]);
    assert_eq!(
        HyperGraph::load_from_lines(&bad_id, None).unwrap_err(),
        ErrorKind::ParseError
    );
    let zero_id = lines(&["1 3", "0 2"]);
    assert_eq!(
        HyperGraph::load_from_lines(&zero_id, None).unwrap_err(),
        ErrorKind::ParseError
    );
    // an edge weight below one under an edge-weighted mode
    let bad_weight = lines(&["1 3 1", "1 2 0"]);
    assert_eq!(
        HyperGraph::load_from_lines(&bad_weight, None).unwrap_err(),
        ErrorKind::ParseError
    );
    // a header that is not two or three integers
    let bad_header = lines(&["4"]);
    assert_eq!(
        HyperGraph::load_from_lines(&bad_header, None).unwrap_err(),
        ErrorKind::ParseError
    );
    // a fixed-vertex file with too few lines
    let text = lines(&["1 2", "1 2"]);
    let fixed = lines(&["0"]);
    assert_eq!(
        HyperGraph::load_from_lines(&text, Some(&fixed)).unwrap_err(),
        ErrorKind::ParseError
    );
}

#[test]
fn save_emits_one_based_ids() {
    let g = HyperGraph::hm_sample();
    let out = g.save_to_lines(0);
    let texts: Vec<String> = out
        .iter()
        .map(|l| String::from_utf8(l.clone()).unwrap())
        .collect();
    assert_eq!(texts, vec!["4 7", "1 3", "1 2 4 5", "4 5 7", "3 6 7"]);
}

#[test]
fn save_then_load_restores_unweighted_graph() {
    let g = HyperGraph::hm_sample();
    let out = g.save_to_lines(0);
    let g2 = HyperGraph::load_from_lines(&out, None).unwrap();
    assert_eq!(g2.vtxwt, g.vtxwt);
    assert_eq!(g2.hewt, g.hewt);
    assert_eq!(g2.eind, g.eind);
    assert_eq!(g2.eptr, g.eptr);
    assert_eq!(g2.part, vec![-1; 7]);
}

#[test]
fn save_then_load_restores_weighted_graph() {
    let g = HyperGraph {
        vtxwt: vec![10, 20, 30],
        hewt: vec![5, 9],
        part: vec![0, -1, 1],
        eind: vec![0, 2, 4],
        eptr: vec![0, 1, 1, 2],
    };
    let out = g.save_to_lines(11);
    let g2 = HyperGraph::load_from_lines(&out, None).unwrap();
    assert_eq!(g2.vtxwt, g.vtxwt);
    assert_eq!(g2.hewt, g.hewt);
    assert_eq!(g2.eind, g.eind);
    assert_eq!(g2.eptr, g.eptr);
    // the partition side channel is not part of the format
    assert_eq!(g2.part, vec![-1, -1, -1]);
}

#[test]
fn load_accepts_empty_hyperedge_line() {
    let text = lines(&["1 2", ""]);
    let g = HyperGraph::load_from_lines(&text, None).unwrap();
    assert_eq!(g.eind, vec![0, 0]);
    assert!(g.eptr.is_empty());
    assert_eq!(g.hewt, vec![1]);
}

#[test]
fn load_ignores_extra_tokens_on_weight_lines() {
    let text = lines(&["1 2 10", "1 2", "7 99", "8"]);
    let g = HyperGraph::load_from_lines(&text, None).unwrap();
    assert_eq!(g.vtxwt, vec![7, 8]);
}

#[test]
fn empty_graph_construction() {
    let g = HyperGraph::new();
    assert!(g.vtxwt.is_empty());
    assert!(g.hewt.is_empty());
    assert!(g.part.is_empty());
    assert!(g.eind.is_empty());
    assert!(g.eptr.is_empty());
}
