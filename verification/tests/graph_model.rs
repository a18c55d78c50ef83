use ovh_parsing::model::Link;
use ovh_parsing::model::Peer;
use ovh_parsing::model::Router;
use ovh_parsing::model::OvhData;
use ovh_parsing::classify::is_peer_from_name;
use ovh_parsing::stats::OvhNodeFilter;

fn link(label: &str, load: u64) -> Link {
    Link { label: label.to_string(), load }
}

fn peer(name: &str, loads: &[u64]) -> Peer {
    Peer {
        name: name.to_string(),
        links: loads.iter().enumerate().map(|(i, &l)| link(&format!("{}", i + 1), l)).collect(),
    }
}

fn router(name: &str, peers: Vec<Peer>) -> Router {
    Router { name: name.to_string(), peers }
}

/// The 4-node square: a-b (1 link), a-c (2 links), b-d (1 link),
/// c-d (2 links), each edge recorded from both endpoints.
fn square_graph() -> OvhData {
    OvhData {
        timestamp: 1,
        data: vec![
            router("a", vec![peer("b", &[30]), peer("c", &[25, 26])]),
            router("b", vec![peer("a", &[10]), peer("d", &[1])]),
            router("c", vec![peer("a", &[50, 51]), peer("d", &[75, 72])]),
            router("d", vec![peer("b", &[50]), peer("c", &[2, 3])]),
        ],
    }
}

#[test]
fn test_compute_nb_links() {
    let square = square_graph();
    assert_eq!(square.get_nb_links(OvhNodeFilter::All), 6);
}

#[test]
fn test_square_node_and_link_counts() {
    let square = square_graph();
    assert_eq!(square.get_nb_nodes(OvhNodeFilter::All), 4);
    assert_eq!(square.get_nb_nodes(OvhNodeFilter::Ovh), 4);
    assert_eq!(square.get_nb_nodes(OvhNodeFilter::External), 0);
    assert_eq!(square.get_nb_links(OvhNodeFilter::All), 6);
    assert_eq!(square.get_nb_links(OvhNodeFilter::Ovh), 6);
    assert_eq!(square.get_nb_links(OvhNodeFilter::External), 0);
}

#[test]
fn test_classification_by_name() {
    assert!(is_peer_from_name("AMS-IX"));
    assert!(!is_peer_from_name("paris1"));
    // only the part before the first '#' decides
    assert!(is_peer_from_name("ABC#lowercase"));
    assert!(!is_peer_from_name("Abc#UPPER"));
    // digits and punctuation are unchanged by upper-casing
    assert!(is_peer_from_name("123"));
}

#[test]
fn test_router_is_external_and_has_external() {
    let internal = router("gra-g1", vec![peer("PEER1", &[10]), peer("gra-g2", &[20])]);
    assert!(!internal.is_external());
    assert!(internal.has_external());
    let isolated = router("rbx-1", vec![peer("rbx-2", &[5])]);
    assert!(!isolated.has_external());
    let external = router("DE-CIX", vec![]);
    assert!(external.is_external());
}

#[test]
fn test_get_external_links() {
    let r = router("gra-g1", vec![peer("PEER1", &[10, 20]), peer("gra-g2", &[30])]);
    let groups = r.get_external_links().expect("internal router yields groups");
    assert_eq!(groups.len(), 1);
    assert_eq!(groups[0].len(), 2);
    assert_eq!(groups[0][0].load, 10);
    assert_eq!(groups[0][1].load, 20);

    let ext = router("DE-CIX", vec![peer("gra-g1", &[10])]);
    assert!(ext.get_external_links().is_none());
}

#[test]
fn test_router_get_nb_links_and_loads_with() {
    let r = router("a", vec![peer("b", &[30]), peer("c", &[25, 26])]);
    assert_eq!(r.get_nb_links(), 3);
    assert_eq!(r.get_links_load_with("c"), Some(vec![25, 26]));
    assert_eq!(r.get_links_load_with("z"), None);
}

#[test]
fn test_router_selections() {
    let data = OvhData {
        timestamp: 9,
        data: vec![
            router("gra-g1", vec![peer("AMS-IX", &[10])]),
            router("AMS-IX", vec![peer("gra-g1", &[10])]),
            router("rbx-1", vec![peer("gra-g1", &[4])]),
        ],
    };
    let ext = data.get_peering_routers();
    assert_eq!(ext.len(), 1);
    assert_eq!(ext[0].name, "AMS-IX");
    let int = data.get_internal_routers();
    assert_eq!(int.len(), 2);
    assert_eq!(int[0].name, "gra-g1");
    assert_eq!(int[1].name, "rbx-1");
    let border = data.get_border_routers();
    assert_eq!(border.len(), 1);
    assert_eq!(border[0].name, "gra-g1");
    assert_eq!(data.get_router_links_load_with("gra-g1", "AMS-IX"), Some(vec![10]));
    assert_eq!(data.get_router_links_load_with("gra-g1", "none"), None);
    assert_eq!(data.get_router_links_load_with("none", "AMS-IX"), None);
    assert_eq!(data.node_degrees(), vec![1, 1, 1]);
}

#[test]
fn test_ecmp_links_sum_and_count() {
    let data = OvhData {
        timestamp: 3,
        data: vec![
            router("a", vec![peer("b", &[30, 40, 0]), peer("c", &[5])]),
            router("b", vec![peer("a", &[30, 40, 1]), peer("c", &[9, 8])]),
        ],
    };
    let all = data.get_internal_routers();
    // groups with at least two above-noise links: a-b {30,40}, b-a {30,40},
    // b-c {9,8}: sizes 2 + 2 + 2, three groups
    let (sum, count) = ovh_parsing::model::ecmp_links_sum_and_count(&all);
    assert_eq!(sum, 6);
    assert_eq!(count, 3);
}
