use ovh_parsing::model::Link;
use ovh_parsing::model::Peer;
use ovh_parsing::model::Router;
use ovh_parsing::model::OvhData;
use ovh_parsing::merge::merge_snapshots;
use ovh_parsing::merge::try_and_connect_network;
use ovh_parsing::stats::OvhNodeFilter;

fn link(label: &str, load: u64) -> Link {
    Link { label: label.to_string(), load }
}

fn peer(name: &str, loads: &[u64]) -> Peer {
    Peer {
        name: name.to_string(),
        links: loads.iter().enumerate().map(|(i, &l)| link(&format!("{}", i + 1), l)).collect(),
    }
}

fn router(name: &str, peers: Vec<Peer>) -> Router {
    Router { name: name.to_string(), peers }
}

fn small_region() -> OvhData {
    OvhData {
        timestamp: 100,
        data: vec![
            router("gra-g1", vec![peer("rbx-1", &[10, 20])]),
            router("rbx-1", vec![peer("gra-g1", &[10, 20])]),
        ],
    }
}

#[test]
fn test_merge_adopts_new_routers() {
    let acc = small_region();
    let next = OvhData {
        timestamp: 100,
        data: vec![router("sbg-1", vec![peer("gra-g1", &[5])])],
    };
    let merged = merge_snapshots(acc, next);
    assert_eq!(merged.timestamp, 100);
    assert_eq!(merged.data.len(), 3);
    assert_eq!(merged.data[2].name, "sbg-1");
    assert_eq!(merged.get_router_links_load_with("sbg-1", "gra-g1"), Some(vec![5]));
}

#[test]
fn test_merge_larger_side_wins_outright() {
    let acc = OvhData {
        timestamp: 100,
        data: vec![router("gra-g1", vec![peer("rbx-1", &[10])])],
    };
    let next = OvhData {
        timestamp: 100,
        data: vec![router("gra-g1", vec![peer("rbx-1", &[30, 40])])],
    };
    let merged = merge_snapshots(acc, next);
    assert_eq!(merged.data.len(), 1);
    // the richer enumeration replaces the sparser one wholesale
    assert_eq!(merged.get_router_links_load_with("gra-g1", "rbx-1"), Some(vec![30, 40]));
}

#[test]
fn test_merge_tie_keeps_first_seen_side() {
    let acc = OvhData {
        timestamp: 100,
        data: vec![router("gra-g1", vec![peer("rbx-1", &[10, 20])])],
    };
    let next = OvhData {
        timestamp: 100,
        data: vec![router("gra-g1", vec![peer("rbx-1", &[77, 88])])],
    };
    let merged = merge_snapshots(acc, next);
    assert_eq!(merged.get_router_links_load_with("gra-g1", "rbx-1"), Some(vec![10, 20]));
}

#[test]
fn test_merge_adopts_new_peer_relation() {
    let acc = OvhData {
        timestamp: 100,
        data: vec![router("gra-g1", vec![peer("rbx-1", &[10])])],
    };
    let next = OvhData {
        timestamp: 100,
        data: vec![router("gra-g1", vec![peer("sbg-1", &[9, 9])])],
    };
    let merged = merge_snapshots(acc, next);
    assert_eq!(merged.get_router_links_load_with("gra-g1", "rbx-1"), Some(vec![10]));
    assert_eq!(merged.get_router_links_load_with("gra-g1", "sbg-1"), Some(vec![9, 9]));
}

#[test]
fn test_merge_with_itself_changes_nothing() {
    let a = small_region();
    let b = small_region();
    let merged = merge_snapshots(a, b);
    assert_eq!(merged.data.len(), 2);
    assert_eq!(merged.get_nb_nodes(OvhNodeFilter::All), 2);
    assert_eq!(merged.get_nb_links(OvhNodeFilter::All), 2);
    assert_eq!(merged.get_router_links_load_with("gra-g1", "rbx-1"), Some(vec![10, 20]));
    assert_eq!(merged.get_router_links_load_with("rbx-1", "gra-g1"), Some(vec![10, 20]));
}

#[test]
fn test_merge_associative_for_disjoint_regions() {
    let a = || OvhData { timestamp: 1, data: vec![router("a1", vec![peer("b1", &[1])])] };
    let b = || OvhData { timestamp: 1, data: vec![router("b1", vec![peer("a1", &[1])])] };
    let c = || OvhData { timestamp: 1, data: vec![router("c1", vec![peer("c2", &[2, 3])])] };

    let left = merge_snapshots(merge_snapshots(a(), b()), c());
    let right = merge_snapshots(a(), merge_snapshots(b(), c()));
    assert_eq!(left.data.len(), right.data.len());
    for (x, y) in left.data.iter().zip(right.data.iter()) {
        assert_eq!(x.name, y.name);
        assert_eq!(x.peers.len(), y.peers.len());
        for (p, q) in x.peers.iter().zip(y.peers.iter()) {
            assert_eq!(p.name, q.name);
            let pl: Vec<u64> = p.links.iter().map(|l| l.load).collect();
            let ql: Vec<u64> = q.links.iter().map(|l| l.load).collect();
            assert_eq!(pl, ql);
        }
    }
}

#[test]
fn test_try_and_connect_network() {
    let europe = small_region();
    let america = OvhData {
        timestamp: 100,
        data: vec![router("bhs-1", vec![peer("gra-g1", &[3])])],
    };
    let asia = OvhData {
        timestamp: 100,
        data: vec![router("sgp-1", vec![])],
    };
    let world = OvhData {
        timestamp: 100,
        data: vec![router("gra-g1", vec![peer("rbx-1", &[10, 20, 30])])],
    };
    let total = try_and_connect_network(europe, america, asia, world).expect("merge succeeds");
    assert_eq!(total.timestamp, 100);
    assert_eq!(total.get_nb_nodes(OvhNodeFilter::All), 4);
    // the world capture enumerates one more parallel link: it wins
    assert_eq!(total.get_router_links_load_with("gra-g1", "rbx-1"), Some(vec![10, 20, 30]));
    assert_eq!(total.get_router_links_load_with("rbx-1", "gra-g1"), Some(vec![10, 20]));
}
