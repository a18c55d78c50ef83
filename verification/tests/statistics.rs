use ovh_parsing::model::Link;
use ovh_parsing::model::Peer;
use ovh_parsing::model::Router;
use ovh_parsing::model::OvhData;
use ovh_parsing::stats::OvhNodeFilter;

fn link(label: &str, load: u64) -> Link {
    Link { label: label.to_string(), load }
}

fn peer(name: &str, loads: &[u64]) -> Peer {
    Peer {
        name: name.to_string(),
        links: loads.iter().enumerate().map(|(i, &l)| link(&format!("{}", i + 1), l)).collect(),
    }
}

fn router(name: &str, peers: Vec<Peer>) -> Router {
    Router { name: name.to_string(), peers }
}

#[test]
fn test_imbalance_sample_and_noise() {
    // one peer-group with loads {90, 10} yields exactly one sample of 80
    let data = OvhData {
        timestamp: 5,
        data: vec![router("a", vec![peer("b", &[90, 10])])],
    };
    assert_eq!(data.get_ecmp_imbalance(OvhNodeFilter::All), vec![80]);

    // a group with loads {0, 1} is all noise and yields no sample
    let noisy = OvhData {
        timestamp: 5,
        data: vec![router("a", vec![peer("b", &[0, 1])])],
    };
    assert_eq!(noisy.get_ecmp_imbalance(OvhNodeFilter::All), Vec::<u64>::new());
}

#[test]
fn test_imbalance_needs_two_post_filter_links() {
    // two links, but one is noise: no sample
    let data = OvhData {
        timestamp: 5,
        data: vec![router("a", vec![peer("b", &[50, 1])])],
    };
    assert_eq!(data.get_ecmp_imbalance(OvhNodeFilter::All), Vec::<u64>::new());
    // three links with one noisy: spread of the two remaining
    let data2 = OvhData {
        timestamp: 5,
        data: vec![router("a", vec![peer("b", &[50, 1, 44])])],
    };
    assert_eq!(data2.get_ecmp_imbalance(OvhNodeFilter::All), vec![6]);
}

#[test]
fn test_imbalance_internal_filter_excludes_upper_case_peers() {
    let data = OvhData {
        timestamp: 5,
        data: vec![
            router("gra-g1", vec![peer("AMS-IX", &[90, 10]), peer("gra-g2", &[40, 20])]),
            router("DE-CIX", vec![peer("gra-g1", &[80, 20])]),
        ],
    };
    // all: both routers and every group count
    let mut all = data.get_ecmp_imbalance(OvhNodeFilter::All);
    all.sort();
    assert_eq!(all, vec![20, 60, 80]);
    // internal: internal routers only, and only their lower-case peers
    assert_eq!(data.get_ecmp_imbalance(OvhNodeFilter::Ovh), vec![20]);
    // external: external routers, all their groups
    assert_eq!(data.get_ecmp_imbalance(OvhNodeFilter::External), vec![60]);
}

#[test]
fn test_node_count_partition() {
    let data = OvhData {
        timestamp: 5,
        data: vec![
            router("gra-g1", vec![]),
            router("AMS-IX", vec![]),
            router("rbx-1", vec![]),
            router("DE-CIX", vec![]),
        ],
    };
    let all = data.get_nb_nodes(OvhNodeFilter::All);
    let int = data.get_nb_nodes(OvhNodeFilter::Ovh);
    let ext = data.get_nb_nodes(OvhNodeFilter::External);
    assert_eq!(int + ext, all);
    assert_eq!(int, 2);
    assert_eq!(ext, 2);
}

#[test]
fn test_closed_graph_link_count_doubles() {
    // a closed internal graph: each edge is recorded from both endpoints,
    // so twice the link count gives back the raw record total
    let data = OvhData {
        timestamp: 5,
        data: vec![
            router("a", vec![peer("b", &[30]), peer("c", &[25, 26])]),
            router("b", vec![peer("a", &[10]), peer("d", &[1])]),
            router("c", vec![peer("a", &[50, 51]), peer("d", &[75, 72])]),
            router("d", vec![peer("b", &[50]), peer("c", &[2, 3])]),
        ],
    };
    let raw: usize = data.data.iter().map(|r| r.peers.iter().map(|p| p.links.len()).sum::<usize>()).sum();
    assert_eq!(raw, 12);
    assert_eq!(data.get_nb_links(OvhNodeFilter::All) * 2, raw as u64);
}

#[test]
fn test_external_links_counted_once() {
    // one internal router peering with one external network over 2 links:
    // the external side does not record the edge back
    let data = OvhData {
        timestamp: 5,
        data: vec![
            router("gra-g1", vec![peer("AMS-IX", &[10, 20]), peer("rbx-1", &[5])]),
            router("rbx-1", vec![peer("gra-g1", &[5])]),
        ],
    };
    assert_eq!(data.get_nb_links(OvhNodeFilter::All), 2);
    assert_eq!(data.get_nb_links(OvhNodeFilter::External), 0);
    // internal filter drops the external peer entries before halving
    assert_eq!(data.get_nb_links(OvhNodeFilter::Ovh), 1);
}

#[test]
fn test_nb_ecmp_links_group_sizes() {
    let data = OvhData {
        timestamp: 5,
        data: vec![
            router("a", vec![peer("b", &[0, 1]), peer("c", &[25, 26, 27]), peer("d", &[9])]),
        ],
    };
    // raw sizes, no load filtering: groups of 2 and 3 qualify
    let mut sizes = data.get_nb_ecmp_links(OvhNodeFilter::All);
    sizes.sort();
    assert_eq!(sizes, vec![2, 3]);
}

#[test]
fn test_link_loads_excludes_noise() {
    let data = OvhData {
        timestamp: 5,
        data: vec![router("a", vec![peer("b", &[0, 1, 2, 90])])],
    };
    let mut loads = data.get_link_loads(OvhNodeFilter::All);
    loads.sort();
    assert_eq!(loads, vec![2, 90]);
}

#[test]
fn test_link_loads_internal_filter_keeps_external_peers() {
    // under the internal filter the load metric reads the external-named
    // relations of the selected routers
    let data = OvhData {
        timestamp: 5,
        data: vec![
            router("gra-g1", vec![peer("AMS-IX", &[30]), peer("gra-g2", &[40])]),
        ],
    };
    assert_eq!(data.get_link_loads(OvhNodeFilter::Ovh), vec![30]);
    let mut all = data.get_link_loads(OvhNodeFilter::All);
    all.sort();
    assert_eq!(all, vec![30, 40]);
}

#[test]
fn test_compute_metrics_fields() {
    let data = OvhData {
        timestamp: 77,
        data: vec![
            router("gra-g1", vec![peer("AMS-IX", &[90, 10]), peer("rbx-1", &[5])]),
            router("rbx-1", vec![peer("gra-g1", &[5])]),
        ],
    };
    assert!(data.fits_check());
    let m = data.compute_metrics();
    assert_eq!(m.timestamp, 77);
    assert_eq!(m.nb_nodes, 2);
    assert_eq!(m.nb_nodes_ovh, 2);
    assert_eq!(m.nb_nodes_external, 0);
    assert_eq!(m.nb_links, 2);
    assert_eq!(m.nb_links_external, 0);
    assert_eq!(m.nb_links_ovh, 2);
    assert_eq!(m.ecmp_diffs, vec![80]);
    assert_eq!(m.loads, vec![90, 10, 5, 5]);
    assert_eq!(m.nb_ecmp_links, vec![2]);
}

#[test]
fn test_default_results_are_zero() {
    let d = ovh_parsing::metrics::ExperimentResults::default();
    assert_eq!(d.timestamp, 0);
    assert_eq!(d.nb_nodes, 0);
    assert_eq!(d.nb_links, 0);
    assert!(d.ecmp_diffs.is_empty());
    assert!(d.loads.is_empty());
    assert!(d.nb_ecmp_links.is_empty());
}

#[test]
fn test_result_field_selection() {
    let mut d = ovh_parsing::metrics::ExperimentResults::default();
    d.nb_nodes = 10;
    d.nb_nodes_ovh = 7;
    d.nb_nodes_external = 3;
    d.nb_links = 20;
    d.nb_links_ovh = 15;
    d.nb_links_external = 5;
    d.ecmp_diffs = vec![1];
    d.ecmp_diffs_ovh = vec![2];
    d.ecmp_diffs_external = vec![3];
    assert_eq!(d.nb_nodes_of(OvhNodeFilter::All), 10);
    assert_eq!(d.nb_nodes_of(OvhNodeFilter::Ovh), 7);
    assert_eq!(d.nb_nodes_of(OvhNodeFilter::External), 3);
    assert_eq!(d.nb_links_of(OvhNodeFilter::All), 20);
    assert_eq!(d.nb_links_of(OvhNodeFilter::Ovh), 15);
    assert_eq!(d.nb_links_of(OvhNodeFilter::External), 5);
    assert_eq!(d.ecmp_diffs_of(OvhNodeFilter::All), &vec![1]);
    assert_eq!(d.ecmp_diffs_of(OvhNodeFilter::Ovh), &vec![2]);
    assert_eq!(d.ecmp_diffs_of(OvhNodeFilter::External), &vec![3]);
}
