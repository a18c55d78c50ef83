use ovh_parsing::parse::RawLink;
use ovh_parsing::parse::RawGroup;
use ovh_parsing::parse::RawRouter;
use ovh_parsing::parse::ParseError;
use ovh_parsing::parse::parse_snapshot;
use ovh_parsing::stats::OvhNodeFilter;

fn raw_link(label: &str, load: u64, peer: &str) -> RawLink {
    RawLink { label: Some(label.to_string()), load: Some(load), peer: Some(peer.to_string()) }
}

#[test]
fn test_parse_groups_links_by_peer() {
    // links naming the same peer are appended in order, across interface
    // groups, reconstructing the ECMP group
    let doc = vec![RawRouter {
        name: "a".to_string(),
        groups: vec![
            RawGroup {
                name: "eth0".to_string(),
                links: vec![raw_link("l1", 30, "b"), raw_link("l2", 40, "b")],
            },
            RawGroup {
                name: "eth1".to_string(),
                links: vec![raw_link("l3", 50, "b"), raw_link("l4", 9, "c")],
            },
        ],
    }];
    let snap = parse_snapshot(&doc, 123).expect("well-formed document");
    assert_eq!(snap.timestamp, 123);
    assert_eq!(snap.data.len(), 1);
    let r = &snap.data[0];
    assert_eq!(r.name, "a");
    assert_eq!(r.peers.len(), 2);
    assert_eq!(r.get_links_load_with("b"), Some(vec![30, 40, 50]));
    assert_eq!(r.get_links_load_with("c"), Some(vec![9]));
    assert_eq!(r.peers[0].links[0].label, "l1");
}

#[test]
fn test_parse_missing_load_fails_whole_file() {
    let doc = vec![
        RawRouter {
            name: "a".to_string(),
            groups: vec![RawGroup {
                name: "g".to_string(),
                links: vec![raw_link("ok", 10, "b")],
            }],
        },
        RawRouter {
            name: "b".to_string(),
            groups: vec![RawGroup {
                name: "g".to_string(),
                links: vec![RawLink {
                    label: Some("bad".to_string()),
                    load: None,
                    peer: Some("a".to_string()),
                }],
            }],
        },
    ];
    assert!(matches!(parse_snapshot(&doc, 1), Err(ParseError::MissingLoad)));
}

#[test]
fn test_parse_missing_peer_fails_whole_file() {
    let doc = vec![RawRouter {
        name: "a".to_string(),
        groups: vec![RawGroup {
            name: "g".to_string(),
            links: vec![RawLink {
                label: Some("x".to_string()),
                load: Some(10),
                peer: None,
            }],
        }],
    }];
    assert!(matches!(parse_snapshot(&doc, 1), Err(ParseError::MissingPeer)));
}

#[test]
fn test_parse_missing_label_fails_whole_file() {
    let doc = vec![RawRouter {
        name: "a".to_string(),
        groups: vec![RawGroup {
            name: "g".to_string(),
            links: vec![RawLink {
                label: None,
                load: Some(10),
                peer: Some("b".to_string()),
            }],
        }],
    }];
    assert!(matches!(parse_snapshot(&doc, 1), Err(ParseError::MissingLabel)));
}

#[test]
fn test_parse_first_defect_wins() {
    // the first malformed field of the first malformed record decides
    let doc = vec![RawRouter {
        name: "a".to_string(),
        groups: vec![RawGroup {
            name: "g".to_string(),
            links: vec![
                RawLink { label: None, load: None, peer: None },
                RawLink { label: Some("x".to_string()), load: None, peer: None },
            ],
        }],
    }];
    assert!(matches!(parse_snapshot(&doc, 1), Err(ParseError::MissingLabel)));
}

#[test]
fn test_parse_duplicate_router_replaces_in_place() {
    let doc = vec![
        RawRouter {
            name: "a".to_string(),
            groups: vec![RawGroup {
                name: "g".to_string(),
                links: vec![raw_link("old", 5, "b")],
            }],
        },
        RawRouter {
            name: "z".to_string(),
            groups: vec![],
        },
        RawRouter {
            name: "a".to_string(),
            groups: vec![RawGroup {
                name: "g".to_string(),
                links: vec![raw_link("new", 7, "c"), raw_link("new2", 8, "c")],
            }],
        },
    ];
    let snap = parse_snapshot(&doc, 1).expect("well-formed document");
    assert_eq!(snap.data.len(), 2);
    assert_eq!(snap.data[0].name, "a");
    assert_eq!(snap.data[1].name, "z");
    assert_eq!(snap.data[0].get_links_load_with("b"), None);
    assert_eq!(snap.data[0].get_links_load_with("c"), Some(vec![7, 8]));
}

#[test]
fn test_parsed_snapshot_feeds_statistics() {
    let doc = vec![
        RawRouter {
            name: "gra-g1".to_string(),
            groups: vec![RawGroup {
                name: "g".to_string(),
                links: vec![raw_link("x", 90, "AMS-IX"), raw_link("y", 10, "AMS-IX")],
            }],
        },
    ];
    let snap = parse_snapshot(&doc, 1).expect("well-formed document");
    assert_eq!(snap.get_ecmp_imbalance(OvhNodeFilter::All), vec![80]);
    assert_eq!(snap.get_nb_links(OvhNodeFilter::All), 1);
}
