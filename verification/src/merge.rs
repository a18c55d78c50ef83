//! Combining several snapshots captured at the same instant (for example
//! one per region) into one graph.
//!
//! Routers are combined by name; a router already present is kept and only
//! its peer relations are merged.  For one peer relation present on both
//! sides, the side with strictly more links wins outright; ties keep the
//! first-seen side.  A relation absent from the accumulator is adopted
//! wholesale, transferring ownership.

use vstd::prelude::*;
use crate::model::Peer;
use crate::model::PeerV;
use crate::model::Router;
use crate::model::RouterV;
use crate::model::OvhData;
use crate::model::find_peer;
use crate::model::find_router;
use crate::model::find_peer_index;
use crate::model::find_router_index;
use crate::model::lemma_find_peer;
use crate::model::lemma_find_router;
use crate::model::wf_peers;
use crate::model::wf_routers;

verus! {

/// One incoming peer relation merged into an accumulator: adopt it when
/// absent, replace when it has strictly more links, keep the existing
/// entry otherwise.
pub open spec fn merge_peer(acc: Seq<PeerV>, p: PeerV) -> Seq<PeerV> {
    let i = find_peer(acc, p.name);
    if i == -1 {
        acc.push(p)
    } else if acc[i].links.len() < p.links.len() {
        acc.update(i, p)
    } else {
        acc
    }
}

/// All incoming peer relations merged in order.
pub open spec fn merge_peers(acc: Seq<PeerV>, ps: Seq<PeerV>) -> Seq<PeerV>
    decreases ps.len(),
{
    if ps.len() == 0 {
        acc
    } else {
        merge_peer(merge_peers(acc, ps.drop_last()), ps.last())
    }
}

/// One incoming router merged into an accumulator: adopted when its name
/// is new, otherwise the existing router keeps its place and only its
/// peer relations are merged.
pub open spec fn merge_router(acc: Seq<RouterV>, r: RouterV) -> Seq<RouterV> {
    let i = find_router(acc, r.name);
    if i == -1 {
        acc.push(r)
    } else {
        acc.update(i, RouterV { name: acc[i].name, peers: merge_peers(acc[i].peers, r.peers) })
    }
}

/// All routers of one snapshot merged in order.
pub open spec fn merge_routers(acc: Seq<RouterV>, rs: Seq<RouterV>) -> Seq<RouterV>
    decreases rs.len(),
{
    if rs.len() == 0 {
        acc
    } else {
        merge_router(merge_routers(acc, rs.drop_last()), rs.last())
    }
}

/// No name occurs on both sides.
pub open spec fn routers_disjoint(a: Seq<RouterV>, b: Seq<RouterV>) -> bool {
    forall|i: int, j: int| 0 <= i < a.len() && 0 <= j < b.len() ==> a[i].name != b[j].name
}

/// Pairwise distinct router names.
pub open spec fn distinct_names(rs: Seq<RouterV>) -> bool {
    forall|i: int, j: int| 0 <= i < j < rs.len() ==> rs[i].name != rs[j].name
}

/// Merging a snapshot whose router names are all new appends its routers
/// unchanged, in order.
pub proof fn lemma_merge_disjoint_append(a: Seq<RouterV>, b: Seq<RouterV>)
    requires
        routers_disjoint(a, b),
        distinct_names(b),
    ensures
        merge_routers(a, b) == a + b,
    decreases b.len(),
{
    if b.len() == 0 {
        assert(merge_routers(a, b) == a);
        assert(a + b =~= a);
    } else {
        assert(routers_disjoint(a, b.drop_last())) by {
            assert(forall|j: int| 0 <= j < b.len() - 1 ==> b.drop_last()[j] == b[j]);
        }
        assert(distinct_names(b.drop_last())) by {
            assert(forall|j: int| 0 <= j < b.len() - 1 ==> b.drop_last()[j] == b[j]);
        }
        lemma_merge_disjoint_append(a, b.drop_last());
        let acc = a + b.drop_last();
        let r = b.last();
        lemma_find_router(acc, r.name);
        assert(forall|j: int| 0 <= j < acc.len() ==> #[trigger] acc[j].name != r.name) by {
            assert(forall|j: int| 0 <= j < a.len() ==> acc[j] == a[j]);
            assert(forall|j: int| a.len() <= j < acc.len() ==> acc[j] == b.drop_last()[j - a.len()]);
        }
        assert(find_router(acc, r.name) == -1);
        assert(merge_routers(a, b) == acc.push(r));
        assert(acc.push(r) =~= a + b);
    }
}

/// Merge is associative in adoption order for snapshots over pairwise
/// disjoint router sets: folding three such snapshots gives the same graph
/// whichever pair is merged first.
pub proof fn lemma_merge_assoc_disjoint(a: Seq<RouterV>, b: Seq<RouterV>, c: Seq<RouterV>)
    requires
        distinct_names(a),
        distinct_names(b),
        distinct_names(c),
        routers_disjoint(a, b),
        routers_disjoint(b, c),
        routers_disjoint(a, c),
    ensures
        merge_routers(merge_routers(a, b), c) == merge_routers(a, merge_routers(b, c)),
{
    lemma_merge_disjoint_append(a, b);
    lemma_merge_disjoint_append(b, c);
    assert(routers_disjoint(a + b, c)) by {
        assert(forall|i: int| 0 <= i < a.len() ==> (a + b)[i] == a[i]);
        assert(forall|i: int| a.len() <= i < a.len() + b.len() ==> (a + b)[i] == b[i - a.len()]);
    }
    lemma_merge_disjoint_append(a + b, c);
    assert(distinct_names(b + c)) by {
        assert(forall|i: int| 0 <= i < b.len() ==> (b + c)[i] == b[i]);
        assert(forall|i: int| b.len() <= i < b.len() + c.len() ==> (b + c)[i] == c[i - b.len()]);
    }
    assert(routers_disjoint(a, b + c)) by {
        assert(forall|i: int| 0 <= i < b.len() ==> (b + c)[i] == b[i]);
        assert(forall|i: int| b.len() <= i < b.len() + c.len() ==> (b + c)[i] == c[i - b.len()]);
    }
    lemma_merge_disjoint_append(a, b + c);
    assert((a + b) + c =~= a + (b + c));
}

/// Merging peer relations that are all already present with identical
/// content changes nothing: ties keep the existing side.
pub proof fn lemma_merge_peers_absorb(acc: Seq<PeerV>, bs: Seq<PeerV>)
    requires
        forall|k: int| 0 <= k < bs.len() ==> {
            let i = find_peer(acc, (#[trigger] bs[k]).name);
            0 <= i < acc.len() && acc[i] == bs[k]
        },
    ensures
        merge_peers(acc, bs) == acc,
    decreases bs.len(),
{
    if bs.len() > 0 {
        assert(forall|k: int| 0 <= k < bs.len() - 1 ==> bs.drop_last()[k] == bs[k]);
        lemma_merge_peers_absorb(acc, bs.drop_last());
        let p = bs.last();
        assert(p == bs[bs.len() - 1]);
        let i = find_peer(acc, p.name);
        assert(0 <= i < acc.len() && acc[i] == p);
        assert(!(acc[i].links.len() < p.links.len()));
        assert(merge_peer(acc, p) == acc);
    }
}

/// Merging routers that are all already present with identical content
/// changes nothing.
pub proof fn lemma_merge_routers_absorb(acc: Seq<RouterV>, bs: Seq<RouterV>)
    requires
        forall|k: int| 0 <= k < bs.len() ==> {
            let i = find_router(acc, (#[trigger] bs[k]).name);
            0 <= i < acc.len() && acc[i] == bs[k]
        },
        forall|k: int| 0 <= k < bs.len() ==> wf_peers((#[trigger] bs[k]).peers),
    ensures
        merge_routers(acc, bs) == acc,
    decreases bs.len(),
{
    if bs.len() > 0 {
        assert(forall|k: int| 0 <= k < bs.len() - 1 ==> bs.drop_last()[k] == bs[k]);
        lemma_merge_routers_absorb(acc, bs.drop_last());
        let r = bs.last();
        assert(r == bs[bs.len() - 1]);
        let i = find_router(acc, r.name);
        assert(0 <= i < acc.len() && acc[i] == r);
        assert(wf_peers(r.peers));
        assert forall|k: int| 0 <= k < r.peers.len() implies {
            let q = find_peer(acc[i].peers, (#[trigger] r.peers[k]).name);
            0 <= q < acc[i].peers.len() && acc[i].peers[q] == r.peers[k]
        } by {
            assert(acc[i].peers == r.peers);
            lemma_find_peer(r.peers, r.peers[k].name);
            let q = find_peer(r.peers, r.peers[k].name);
            assert(r.peers[k].name == r.peers[k].name);
            assert(q != -1);
            if q < k {
                assert(r.peers[q].name != r.peers[k].name);
            }
            if q > k {
                assert(r.peers[k].name != r.peers[k].name);
            }
        }
        lemma_merge_peers_absorb(acc[i].peers, r.peers);
        assert(merge_router(acc, r) == acc.update(i, RouterV { name: acc[i].name, peers: acc[i].peers }));
        assert(acc.update(i, RouterV { name: acc[i].name, peers: acc[i].peers }) =~~= acc);
    }
}

/// Merging a well-formed snapshot with itself gives it back unchanged.
pub proof fn lemma_merge_idempotent(rs: Seq<RouterV>)
    requires
        wf_routers(rs),
    ensures
        merge_routers(rs, rs) == rs,
{
    assert forall|k: int| 0 <= k < rs.len() implies {
        let i = find_router(rs, (#[trigger] rs[k]).name);
        0 <= i < rs.len() && rs[i] == rs[k]
    } by {
        lemma_find_router(rs, rs[k].name);
        let i = find_router(rs, rs[k].name);
        assert(rs[k].name == rs[k].name);
        assert(i != -1);
        if i < k {
            assert(rs[i].name != rs[k].name);
        }
        if i > k {
            assert(rs[k].name != rs[i].name);
        }
    }
    assert(forall|k: int| 0 <= k < rs.len() ==> wf_peers((#[trigger] rs[k]).peers));
    lemma_merge_routers_absorb(rs, rs);
}

/// Merges one incoming peer relation, per the larger-side-wins rule.
fn merge_peer_into(peers: &mut Vec<Peer>, p: Peer)
    ensures
        final(peers)@.map_values(|x: Peer| x@) == merge_peer(old(peers)@.map_values(|x: Peer| x@), p@),
{
    let ghost base = peers@.map_values(|x: Peer| x@);
    let ghost pv = p@;
    match find_peer_index(peers, p.name.as_str()) {
        None => {
            peers.push(p);
            proof {
                assert(peers@.map_values(|x: Peer| x@) =~~= base.push(pv));
            }
        },
        Some(pi) => {
            proof {
                lemma_find_peer(base, pv.name);
            }
            if peers[pi].links.len() < p.links.len() {
                peers.remove(pi);
                peers.insert(pi, p);
                proof {
                    assert(peers@.map_values(|x: Peer| x@) =~~= base.update(pi as int, pv));
                }
            }
        },
    }
}

/// Merges one incoming router: a new name is adopted whole, a known name
/// keeps its place and merges peer relations.
fn merge_router_into(routers: &mut Vec<Router>, r: Router)
    ensures
        final(routers)@.map_values(|x: Router| x@)
            == merge_router(old(routers)@.map_values(|x: Router| x@), r@),
{
    let ghost base = routers@.map_values(|x: Router| x@);
    let ghost rv = r@;
    match find_router_index(routers, r.name.as_str()) {
        None => {
            routers.push(r);
            proof {
                assert(routers@.map_values(|x: Router| x@) =~~= base.push(rv));
            }
        },
        Some(ri) => {
            proof {
                lemma_find_router(base, rv.name);
            }
            let mut existing = routers.remove(ri);
            let ghost ep0 = existing@.peers;
            let Router { name: _, peers: mut incoming } = r;
            let ghost mut gi: int = 0;
            while incoming.len() > 0
                invariant
                    0 <= gi <= rv.peers.len(),
                    incoming@.map_values(|x: Peer| x@) =~= rv.peers.skip(gi),
                    existing@.peers == merge_peers(ep0, rv.peers.take(gi)),
                    existing@.name == base[ri as int].name,
                    0 <= ri < base.len(),
                decreases incoming.len(),
            {
                let ghost pre = incoming@.map_values(|x: Peer| x@);
                let p = incoming.remove(0);
                proof {
                    assert(pre.len() > 0);
                    assert(gi < rv.peers.len());
                    assert(pre[0] == p@);
                    assert(rv.peers.skip(gi)[0] == rv.peers[gi]);
                    assert(incoming@.map_values(|x: Peer| x@) =~= pre.drop_first());
                    assert(pre.drop_first() =~= rv.peers.skip(gi + 1));
                }
                merge_peer_into(&mut existing.peers, p);
                proof {
                    assert(rv.peers.take(gi + 1).drop_last() =~= rv.peers.take(gi));
                    assert(rv.peers.take(gi + 1).last() == rv.peers[gi]);
                    gi = gi + 1;
                }
            }
            proof {
                assert(rv.peers.skip(gi).len() == 0);
                assert(gi == rv.peers.len());
                assert(rv.peers.take(gi) =~= rv.peers);
            }
            routers.insert(ri, existing);
            proof {
                assert(routers@.map_values(|x: Router| x@) =~~= base.update(
                    ri as int,
                    RouterV { name: base[ri as int].name, peers: merge_peers(ep0, rv.peers) },
                ));
            }
        },
    }
}

/// Folds one more snapshot into the accumulator; the accumulator's
/// timestamp is kept and the incoming routers are merged in order.
pub fn merge_snapshots(acc: OvhData, next: OvhData) -> (r: OvhData)
    ensures
        r@.timestamp == acc@.timestamp,
        r@.routers == merge_routers(acc@.routers, next@.routers),
{
    let ghost av = acc@.routers;
    let ghost nv = next@.routers;
    let timestamp = acc.timestamp;
    let mut routers = acc.data;
    let mut incoming = next.data;
    let ghost mut gi: int = 0;
    while incoming.len() > 0
        invariant
            0 <= gi <= nv.len(),
            incoming@.map_values(|x: Router| x@) =~= nv.skip(gi),
            routers@.map_values(|x: Router| x@) == merge_routers(av, nv.take(gi)),
        decreases incoming.len(),
    {
        let ghost pre = incoming@.map_values(|x: Router| x@);
        let r = incoming.remove(0);
        proof {
            assert(pre.len() > 0);
            assert(gi < nv.len());
            assert(pre[0] == r@);
            assert(nv.skip(gi)[0] == nv[gi]);
            assert(incoming@.map_values(|x: Router| x@) =~= pre.drop_first());
            assert(pre.drop_first() =~= nv.skip(gi + 1));
        }
        merge_router_into(&mut routers, r);
        proof {
            assert(nv.take(gi + 1).drop_last() =~= nv.take(gi));
            assert(nv.take(gi + 1).last() == nv[gi]);
            gi = gi + 1;
        }
    }
    proof {
        assert(nv.skip(gi).len() == 0);
        assert(gi == nv.len());
        assert(nv.take(gi) =~= nv);
    }
    OvhData { timestamp, data: routers }
}

/// Combines four regional snapshots of one instant into a single graph,
/// adopting routers in the given order and keeping the first snapshot's
/// timestamp.
pub fn try_and_connect_network(
    europe: OvhData,
    america: OvhData,
    asia: OvhData,
    world_data: OvhData,
) -> (r: Option<OvhData>)
    ensures
        r matches Some(t) && t@.timestamp == europe@.timestamp
            && t@.routers == merge_routers(
                merge_routers(
                    merge_routers(
                        merge_routers(Seq::empty(), europe@.routers),
                        america@.routers,
                    ),
                    asia@.routers,
                ),
                world_data@.routers,
            ),
{
    let start = OvhData { timestamp: europe.timestamp, data: Vec::new() };
    proof {
        assert(start@.routers =~= Seq::<RouterV>::empty());
    }
    let total = merge_snapshots(start, europe);
    let total = merge_snapshots(total, america);
    let total = merge_snapshots(total, asia);
    let total = merge_snapshots(total, world_data);
    Some(total)
}

} // verus!
