//! Building a snapshot from a plain pre-decoded document.
//!
//! A document is one record per router; each router maps interface groups to
//! link records carrying a label, a load and a peer name, any of which the
//! source document may have omitted or mistyped.  All links naming the same
//! peer are appended into that peer's sequence, preserving multiplicity: this
//! is how ECMP groups are reconstructed.  One malformed record fails the
//! whole document; no partial snapshot is ever produced.

use vstd::prelude::*;
use crate::model::Link;
use crate::model::LinkV;
use crate::model::Peer;
use crate::model::PeerV;
use crate::model::Router;
use crate::model::RouterV;
use crate::model::OvhData;
use crate::model::find_peer;
use crate::model::find_router;
use crate::model::find_peer_index;
use crate::model::find_router_index;
use crate::model::lemma_find_peer;
use crate::model::lemma_find_router;
use crate::model::wf_peers;
use crate::model::wf_routers;

verus! {

/// One link record as found in the document; fields the document lacked
/// (or carried with the wrong type) are `None`.
#[derive(Debug)]
pub struct RawLink {
    pub label: Option<String>,
    pub load: Option<u64>,
    pub peer: Option<String>,
}

#[verifier::ext_equal]
pub struct RawLinkV {
    pub label: Option<Seq<char>>,
    pub load: Option<u64>,
    pub peer: Option<Seq<char>>,
}

impl View for RawLink {
    type V = RawLinkV;

    open spec fn view(&self) -> RawLinkV {
        RawLinkV {
            label: match self.label {
                Some(ref s) => Some(s@),
                None => None,
            },
            load: self.load,
            peer: match self.peer {
                Some(ref s) => Some(s@),
                None => None,
            },
        }
    }
}

/// One interface group of a router: a name and its link records.
#[derive(Debug)]
pub struct RawGroup {
    pub name: String,
    pub links: Vec<RawLink>,
}

#[verifier::ext_equal]
pub struct RawGroupV {
    pub name: Seq<char>,
    pub links: Seq<RawLinkV>,
}

impl View for RawGroup {
    type V = RawGroupV;

    open spec fn view(&self) -> RawGroupV {
        RawGroupV { name: self.name@, links: self.links@.map_values(|l: RawLink| l@) }
    }
}

/// One router record of the document.
#[derive(Debug)]
pub struct RawRouter {
    pub name: String,
    pub groups: Vec<RawGroup>,
}

#[verifier::ext_equal]
pub struct RawRouterV {
    pub name: Seq<char>,
    pub groups: Seq<RawGroupV>,
}

impl View for RawRouter {
    type V = RawRouterV;

    open spec fn view(&self) -> RawRouterV {
        RawRouterV { name: self.name@, groups: self.groups@.map_values(|g: RawGroup| g@) }
    }
}

/// Why a document was rejected.  `DocumentDecode` is for a document that
/// could not be decoded at all, before any record was seen.
#[derive(Debug, PartialEq, Eq, Clone, Copy)]
pub enum ParseError {
    DocumentDecode,
    MissingLabel,
    MissingLoad,
    MissingPeer,
}

/// The defect of one link record, fields checked in document order.
pub open spec fn link_error(l: RawLinkV) -> Option<ParseError> {
    if l.label is None {
        Some(ParseError::MissingLabel)
    } else if l.load is None {
        Some(ParseError::MissingLoad)
    } else if l.peer is None {
        Some(ParseError::MissingPeer)
    } else {
        None
    }
}

/// First defect of a link sequence, in order.
pub open spec fn links_first_error(ls: Seq<RawLinkV>) -> Option<ParseError>
    decreases ls.len(),
{
    if ls.len() == 0 {
        None
    } else if link_error(ls[0]) is Some {
        link_error(ls[0])
    } else {
        links_first_error(ls.drop_first())
    }
}

/// First defect over a router's groups, in order.
pub open spec fn groups_first_error(gs: Seq<RawGroupV>) -> Option<ParseError>
    decreases gs.len(),
{
    if gs.len() == 0 {
        None
    } else if links_first_error(gs[0].links) is Some {
        links_first_error(gs[0].links)
    } else {
        groups_first_error(gs.drop_first())
    }
}

/// First defect of the whole document, in scan order.
pub open spec fn doc_first_error(doc: Seq<RawRouterV>) -> Option<ParseError>
    decreases doc.len(),
{
    if doc.len() == 0 {
        None
    } else if groups_first_error(doc[0].groups) is Some {
        groups_first_error(doc[0].groups)
    } else {
        doc_first_error(doc.drop_first())
    }
}

pub proof fn lemma_links_first_error_skip(ls: Seq<RawLinkV>, i: int)
    requires
        0 <= i <= ls.len(),
        links_first_error(ls.take(i)) is None,
    ensures
        links_first_error(ls) == links_first_error(ls.skip(i)),
    decreases i,
{
    if i == 0 {
        assert(ls.skip(0) =~= ls);
    } else {
        assert(ls.take(i)[0] == ls[0]);
        assert(ls.take(i).drop_first() =~= ls.drop_first().take(i - 1));
        lemma_links_first_error_skip(ls.drop_first(), i - 1);
        assert(ls.drop_first().skip(i - 1) =~= ls.skip(i));
    }
}

pub proof fn lemma_groups_first_error_skip(gs: Seq<RawGroupV>, i: int)
    requires
        0 <= i <= gs.len(),
        groups_first_error(gs.take(i)) is None,
    ensures
        groups_first_error(gs) == groups_first_error(gs.skip(i)),
    decreases i,
{
    if i == 0 {
        assert(gs.skip(0) =~= gs);
    } else {
        assert(gs.take(i)[0] == gs[0]);
        assert(gs.take(i).drop_first() =~= gs.drop_first().take(i - 1));
        lemma_groups_first_error_skip(gs.drop_first(), i - 1);
        assert(gs.drop_first().skip(i - 1) =~= gs.skip(i));
    }
}

pub proof fn lemma_doc_first_error_skip(doc: Seq<RawRouterV>, i: int)
    requires
        0 <= i <= doc.len(),
        doc_first_error(doc.take(i)) is None,
    ensures
        doc_first_error(doc) == doc_first_error(doc.skip(i)),
    decreases i,
{
    if i == 0 {
        assert(doc.skip(0) =~= doc);
    } else {
        assert(doc.take(i)[0] == doc[0]);
        assert(doc.take(i).drop_first() =~= doc.drop_first().take(i - 1));
        lemma_doc_first_error_skip(doc.drop_first(), i - 1);
        assert(doc.drop_first().skip(i - 1) =~= doc.skip(i));
    }
}

/// Appending one well-formed link record: the link joins the existing
/// entry of its peer, or opens a new entry at the end.
pub open spec fn add_link(peers: Seq<PeerV>, peer_name: Seq<char>, link: LinkV) -> Seq<PeerV> {
    let i = find_peer(peers, peer_name);
    if i == -1 {
        peers.push(PeerV { name: peer_name, links: seq![link] })
    } else {
        peers.update(i, PeerV { name: peers[i].name, links: peers[i].links.push(link) })
    }
}

/// Folding a link-record sequence into peer entries; a malformed record
/// changes nothing (the builder never reaches one).
pub open spec fn links_into_peers(peers: Seq<PeerV>, ls: Seq<RawLinkV>) -> Seq<PeerV>
    decreases ls.len(),
{
    if ls.len() == 0 {
        peers
    } else {
        let prev = links_into_peers(peers, ls.drop_last());
        let l = ls.last();
        match l.label {
            None => prev,
            Some(label) => match l.load {
                None => prev,
                Some(load) => match l.peer {
                    None => prev,
                    Some(peer) => add_link(prev, peer, LinkV { label: label, load: load }),
                },
            },
        }
    }
}

/// Folding all groups of one router, in order.
pub open spec fn groups_into_peers(peers: Seq<PeerV>, gs: Seq<RawGroupV>) -> Seq<PeerV>
    decreases gs.len(),
{
    if gs.len() == 0 {
        peers
    } else {
        links_into_peers(groups_into_peers(peers, gs.drop_last()), gs.last().links)
    }
}

/// The router a well-formed record builds.
pub open spec fn router_from_raw(rr: RawRouterV) -> RouterV {
    RouterV { name: rr.name, peers: groups_into_peers(Seq::empty(), rr.groups) }
}

/// A later record for an already-present router name replaces it in place.
pub open spec fn insert_router(rs: Seq<RouterV>, r: RouterV) -> Seq<RouterV> {
    let i = find_router(rs, r.name);
    if i == -1 {
        rs.push(r)
    } else {
        rs.update(i, r)
    }
}

/// The router sequence a well-formed document builds, in scan order.
pub open spec fn routers_from_doc(doc: Seq<RawRouterV>) -> Seq<RouterV>
    decreases doc.len(),
{
    if doc.len() == 0 {
        Seq::empty()
    } else {
        insert_router(routers_from_doc(doc.drop_last()), router_from_raw(doc.last()))
    }
}

pub proof fn lemma_add_link_wf(peers: Seq<PeerV>, peer_name: Seq<char>, link: LinkV)
    requires
        wf_peers(peers),
    ensures
        wf_peers(add_link(peers, peer_name, link)),
{
    lemma_find_peer(peers, peer_name);
    let i = find_peer(peers, peer_name);
    let out = add_link(peers, peer_name, link);
    if i == -1 {
        assert forall|a: int, b: int| 0 <= a < b < out.len() implies out[a].name != out[b].name by {
            if b < peers.len() {
            } else {
                assert(out[b].name == peer_name);
                assert(peers[a].name != peer_name);
            }
        }
    } else {
        assert forall|a: int, b: int| 0 <= a < b < out.len() implies out[a].name != out[b].name by {
            assert(out[a].name == peers[a].name);
            assert(out[b].name == peers[b].name);
        }
    }
}

pub proof fn lemma_insert_router_wf(rs: Seq<RouterV>, r: RouterV)
    requires
        wf_routers(rs),
        wf_peers(r.peers),
    ensures
        wf_routers(insert_router(rs, r)),
{
    lemma_find_router(rs, r.name);
    let i = find_router(rs, r.name);
    let out = insert_router(rs, r);
    if i == -1 {
        assert forall|a: int, b: int| 0 <= a < b < out.len() implies out[a].name != out[b].name by {
            if b < rs.len() {
            } else {
                assert(out[b].name == r.name);
                assert(rs[a].name != r.name);
            }
        }
        assert forall|a: int| 0 <= a < out.len() implies wf_peers(#[trigger] out[a].peers) by {
            if a < rs.len() {
                assert(wf_peers(rs[a].peers));
            }
        }
    } else {
        assert forall|a: int, b: int| 0 <= a < b < out.len() implies out[a].name != out[b].name by {
            assert(rs[a].name != rs[b].name);
            if a == i {
                assert(out[a].name == r.name && r.name == rs[i].name);
            }
            if b == i {
                assert(out[b].name == r.name && r.name == rs[i].name);
            }
        }
        assert forall|a: int| 0 <= a < out.len() implies wf_peers(#[trigger] out[a].peers) by {
            if a != i {
                assert(wf_peers(rs[a].peers));
            }
        }
    }
}

/// Builds the snapshot a document describes, or reports the document's
/// first defect; a defective document yields no snapshot at all.
pub fn parse_snapshot(doc: &Vec<RawRouter>, timestamp: i64) -> (r: Result<OvhData, ParseError>)
    ensures
        r is Ok <==> doc_first_error(doc@.map_values(|x: RawRouter| x@)) is None,
        r matches Err(e) ==> Some(e) == doc_first_error(doc@.map_values(|x: RawRouter| x@)),
        r matches Ok(s) ==> s@.timestamp == timestamp
            && s@.routers == routers_from_doc(doc@.map_values(|x: RawRouter| x@))
            && wf_routers(s@.routers),
{
    let ghost dv = doc@.map_values(|x: RawRouter| x@);
    let mut routers: Vec<Router> = Vec::new();
    let n = doc.len();
    let mut i: usize = 0;
    while i < n
        invariant
            0 <= i <= n,
            n == doc.len(),
            dv == doc@.map_values(|x: RawRouter| x@),
            doc_first_error(dv.take(i as int)) is None,
            routers@.map_values(|x: Router| x@) == routers_from_doc(dv.take(i as int)),
            wf_routers(routers@.map_values(|x: Router| x@)),
        decreases n - i,
    {
        let rr = &doc[i];
        let ghost gv = rr@.groups;
        proof {
            assert(dv[i as int] == rr@);
        }
        let mut peers: Vec<Peer> = Vec::new();
        let gm = rr.groups.len();
        let mut j: usize = 0;
        while j < gm
            invariant
                0 <= j <= gm,
                gm == rr.groups.len(),
                gv == rr@.groups,
                dv == doc@.map_values(|x: RawRouter| x@),
                0 <= i < dv.len(),
                n == doc.len(),
                dv[i as int] == rr@,
                doc_first_error(dv.take(i as int)) is None,
                routers@.map_values(|x: Router| x@) == routers_from_doc(dv.take(i as int)),
                wf_routers(routers@.map_values(|x: Router| x@)),
                groups_first_error(gv.take(j as int)) is None,
                peers@.map_values(|p: Peer| p@) == groups_into_peers(Seq::empty(), gv.take(j as int)),
                wf_peers(peers@.map_values(|p: Peer| p@)),
            decreases gm - j,
        {
            let g = &rr.groups[j];
            let ghost lv = g@.links;
            proof {
                assert(gv[j as int] == g@);
            }
            let lm = g.links.len();
            let mut t: usize = 0;
            while t < lm
                invariant
                    0 <= t <= lm,
                    lm == g.links.len(),
                    lv == g@.links,
                    gv == rr@.groups,
                    dv == doc@.map_values(|x: RawRouter| x@),
                    0 <= i < dv.len(),
                    0 <= j < gv.len(),
                    n == doc.len(),
                    dv[i as int] == rr@,
                    gv[j as int] == g@,
                    doc_first_error(dv.take(i as int)) is None,
                    routers@.map_values(|x: Router| x@) == routers_from_doc(dv.take(i as int)),
                    wf_routers(routers@.map_values(|x: Router| x@)),
                    groups_first_error(gv.take(j as int)) is None,
                    links_first_error(lv.take(t as int)) is None,
                    peers@.map_values(|p: Peer| p@) == links_into_peers(
                        groups_into_peers(Seq::empty(), gv.take(j as int)),
                        lv.take(t as int),
                    ),
                    wf_peers(peers@.map_values(|p: Peer| p@)),
                decreases lm - t,
            {
                let l = &g.links[t];
                proof {
                    assert(lv[t as int] == l@);
                }
                if l.label.is_none() || l.load.is_none() || l.peer.is_none() {
                    let e = if l.label.is_none() {
                        ParseError::MissingLabel
                    } else if l.load.is_none() {
                        ParseError::MissingLoad
                    } else {
                        ParseError::MissingPeer
                    };
                    proof {
                        assert(link_error(lv[t as int]) == Some(e));
                        lemma_links_first_error_skip(lv, t as int);
                        assert(lv.skip(t as int)[0] == lv[t as int]);
                        assert(links_first_error(lv) == Some(e));
                        lemma_groups_first_error_skip(gv, j as int);
                        assert(gv.skip(j as int)[0] == gv[j as int]);
                        assert(groups_first_error(gv) == Some(e));
                        lemma_doc_first_error_skip(dv, i as int);
                        assert(dv.skip(i as int)[0] == dv[i as int]);
                        assert(doc_first_error(dv) == Some(e));
                    }
                    return Err(e);
                }
                let label = match &l.label {
                    Some(s) => s.clone(),
                    None => String::new(),
                };
                let load = match l.load {
                    Some(v) => v,
                    None => 0,
                };
                let peer_name = match &l.peer {
                    Some(s) => s.clone(),
                    None => String::new(),
                };
                let link = Link { label, load };
                let ghost base = peers@.map_values(|p: Peer| p@);
                let ghost linkv = link@;
                let ghost pnv = peer_name@;
                match find_peer_index(&peers, peer_name.as_str()) {
                    Some(pi) => {
                        proof {
                            lemma_find_peer(base, pnv);
                        }
                        let mut pe = peers.remove(pi);
                        pe.links.push(link);
                        peers.insert(pi, pe);
                        proof {
                            assert(peers@.map_values(|p: Peer| p@) =~~= base.update(
                                pi as int,
                                PeerV { name: base[pi as int].name, links: base[pi as int].links.push(linkv) },
                            ));
                            assert(peers@.map_values(|p: Peer| p@) == add_link(base, pnv, linkv));
                        }
                    },
                    None => {
                        let mut first_links: Vec<Link> = Vec::new();
                        first_links.push(link);
                        proof {
                            assert(first_links@.map_values(|x: Link| x@) =~= seq![linkv]);
                        }
                        peers.push(Peer { name: peer_name, links: first_links });
                        proof {
                            assert(peers@.map_values(|p: Peer| p@) =~~= base.push(
                                PeerV { name: pnv, links: seq![linkv] },
                            ));
                            assert(peers@.map_values(|p: Peer| p@) == add_link(base, pnv, linkv));
                        }
                    },
                }
                proof {
                    lemma_add_link_wf(base, pnv, linkv);
                    assert(lv.take(t + 1).drop_last() =~= lv.take(t as int));
                    assert(lv.take(t + 1).last() == lv[t as int]);
                    // the prefix stays clean
                    assert(link_error(lv[t as int]) is None);
                    assert(lv.take(t + 1).take(t as int) =~= lv.take(t as int));
                    lemma_links_first_error_skip(lv.take(t + 1), t as int);
                    assert(lv.take(t + 1).skip(t as int) =~= seq![lv[t as int]]);
                    assert(seq![lv[t as int]].drop_first() =~= Seq::<RawLinkV>::empty());
                    assert(links_first_error(Seq::<RawLinkV>::empty()) is None);
                    assert(links_first_error(seq![lv[t as int]]) is None);
                    assert(links_first_error(lv.take(t + 1)) is None);
                }
                t += 1;
            }
            proof {
                assert(lv.take(lm as int) =~= lv);
                assert(links_first_error(lv) is None);
                assert(gv.take(j + 1).drop_last() =~= gv.take(j as int));
                assert(gv.take(j + 1).last() == gv[j as int]);
                assert(gv.take(j + 1).take(j as int) =~= gv.take(j as int));
                lemma_groups_first_error_skip(gv.take(j + 1), j as int);
                assert(gv.take(j + 1).skip(j as int) =~= seq![gv[j as int]]);
                assert(seq![gv[j as int]].drop_first() =~= Seq::<RawGroupV>::empty());
                assert(groups_first_error(Seq::<RawGroupV>::empty()) is None);
                assert(groups_first_error(seq![gv[j as int]]) is None);
                assert(groups_first_error(gv.take(j + 1)) is None);
            }
            j += 1;
        }
        let router = Router { name: rr.name.clone(), peers };
        let ghost rbase = routers@.map_values(|x: Router| x@);
        proof {
            assert(gv.take(gm as int) =~= gv);
            assert(router@ == router_from_raw(dv[i as int]));
        }
        match find_router_index(&routers, rr.name.as_str()) {
            Some(ri) => {
                proof {
                    lemma_find_router(rbase, rr.name@);
                }
                routers.remove(ri);
                routers.insert(ri, router);
                proof {
                    assert(routers@.map_values(|x: Router| x@) =~= rbase.update(
                        ri as int,
                        router_from_raw(dv[i as int]),
                    ));
                    assert(routers@.map_values(|x: Router| x@)
                        == insert_router(rbase, router_from_raw(dv[i as int])));
                }
            },
            None => {
                routers.push(router);
                proof {
                    assert(routers@.map_values(|x: Router| x@) =~= rbase.push(
                        router_from_raw(dv[i as int]),
                    ));
                    assert(routers@.map_values(|x: Router| x@)
                        == insert_router(rbase, router_from_raw(dv[i as int])));
                }
            },
        }
        proof {
            lemma_insert_router_wf(rbase, router_from_raw(dv[i as int]));
            assert(groups_first_error(gv) is None);
            assert(dv.take(i + 1).drop_last() =~= dv.take(i as int));
            assert(dv.take(i + 1).last() == dv[i as int]);
            assert(dv.take(i + 1).take(i as int) =~= dv.take(i as int));
            lemma_doc_first_error_skip(dv.take(i + 1), i as int);
            assert(dv.take(i + 1).skip(i as int) =~= seq![dv[i as int]]);
            assert(seq![dv[i as int]].drop_first() =~= Seq::<RawRouterV>::empty());
            assert(doc_first_error(Seq::<RawRouterV>::empty()) is None);
            assert(doc_first_error(seq![dv[i as int]]) is None);
            assert(doc_first_error(dv.take(i + 1)) is None);
        }
        i += 1;
    }
    proof {
        assert(dv.take(n as int) =~= dv);
    }
    Ok(OvhData { timestamp, data: routers })
}

} // verus!
