//! In-memory representation of one topology snapshot: routers, their named
//! peers, and the parallel (ECMP) links toward each peer.
//!
//! Peer entries and routers are kept in vectors; name uniqueness is a
//! well-formedness invariant rather than a property of the container.

use vstd::prelude::*;
use crate::classify::spec_is_external;
use crate::classify::is_peer_from_name;

verus! {

/// One physical or logical path between a router and a named peer.
/// Several links toward the same peer form an ECMP group.
#[derive(Debug)]
pub struct Link {
    pub label: String,
    /// Traffic load on the link, as a percentage of its capacity.
    pub load: u64,
}

#[verifier::ext_equal]
pub struct LinkV {
    pub label: Seq<char>,
    pub load: u64,
}

impl View for Link {
    type V = LinkV;

    open spec fn view(&self) -> LinkV {
        LinkV { label: self.label@, load: self.load }
    }
}

/// One peer relation of a router: the peer's name and the ordered ECMP
/// links toward it.
#[derive(Debug)]
pub struct Peer {
    pub name: String,
    pub links: Vec<Link>,
}

#[verifier::ext_equal]
pub struct PeerV {
    pub name: Seq<char>,
    pub links: Seq<LinkV>,
}

impl View for Peer {
    type V = PeerV;

    open spec fn view(&self) -> PeerV {
        PeerV { name: self.name@, links: self.links@.map_values(|l: Link| l@) }
    }
}

/// A router and all of its peer relations.
#[derive(Debug)]
pub struct Router {
    pub name: String,
    pub peers: Vec<Peer>,
}

#[verifier::ext_equal]
pub struct RouterV {
    pub name: Seq<char>,
    pub peers: Seq<PeerV>,
}

impl View for Router {
    type V = RouterV;

    open spec fn view(&self) -> RouterV {
        RouterV { name: self.name@, peers: self.peers@.map_values(|p: Peer| p@) }
    }
}

/// One timestamped snapshot of the whole topology.
#[derive(Debug)]
pub struct OvhData {
    /// Unix timestamp (seconds) of the capture instant.
    pub timestamp: i64,
    pub data: Vec<Router>,
}

#[verifier::ext_equal]
pub struct OvhDataV {
    pub timestamp: i64,
    pub routers: Seq<RouterV>,
}

impl View for OvhData {
    type V = OvhDataV;

    open spec fn view(&self) -> OvhDataV {
        OvhDataV { timestamp: self.timestamp, routers: self.data@.map_values(|r: Router| r@) }
    }
}

/// Index of the first peer entry named `name`, or `-1` when there is none.
pub open spec fn find_peer(ps: Seq<PeerV>, name: Seq<char>) -> int
    decreases ps.len(),
{
    if ps.len() == 0 {
        -1
    } else if ps[0].name == name {
        0
    } else {
        let r = find_peer(ps.drop_first(), name);
        if r == -1 {
            -1
        } else {
            1 + r
        }
    }
}

pub proof fn lemma_find_peer(ps: Seq<PeerV>, name: Seq<char>)
    ensures
        find_peer(ps, name) == -1 <==> (forall|j: int| 0 <= j < ps.len() ==> ps[j].name != name),
        find_peer(ps, name) != -1 ==> 0 <= find_peer(ps, name) < ps.len()
            && ps[find_peer(ps, name)].name == name
            && (forall|j: int| 0 <= j < find_peer(ps, name) ==> ps[j].name != name),
    decreases ps.len(),
{
    if ps.len() == 0 {
    } else if ps[0].name == name {
    } else {
        lemma_find_peer(ps.drop_first(), name);
        let r = find_peer(ps.drop_first(), name);
        if r == -1 {
            assert forall|j: int| 0 <= j < ps.len() implies ps[j].name != name by {
                if j > 0 {
                    assert(ps.drop_first()[j - 1].name != name);
                }
            }
        } else {
            assert(ps.drop_first()[r].name == name);
            assert forall|j: int| 0 <= j < find_peer(ps, name) implies ps[j].name != name by {
                if j > 0 {
                    assert(ps.drop_first()[j - 1].name != name);
                }
            }
        }
    }
}

/// Index of the first router named `name`, or `-1` when there is none.
pub open spec fn find_router(rs: Seq<RouterV>, name: Seq<char>) -> int
    decreases rs.len(),
{
    if rs.len() == 0 {
        -1
    } else if rs[0].name == name {
        0
    } else {
        let r = find_router(rs.drop_first(), name);
        if r == -1 {
            -1
        } else {
            1 + r
        }
    }
}

pub proof fn lemma_find_router(rs: Seq<RouterV>, name: Seq<char>)
    ensures
        find_router(rs, name) == -1 <==> (forall|j: int| 0 <= j < rs.len() ==> rs[j].name != name),
        find_router(rs, name) != -1 ==> 0 <= find_router(rs, name) < rs.len()
            && rs[find_router(rs, name)].name == name
            && (forall|j: int| 0 <= j < find_router(rs, name) ==> rs[j].name != name),
    decreases rs.len(),
{
    if rs.len() == 0 {
    } else if rs[0].name == name {
    } else {
        lemma_find_router(rs.drop_first(), name);
        let r = find_router(rs.drop_first(), name);
        if r == -1 {
            assert forall|j: int| 0 <= j < rs.len() implies rs[j].name != name by {
                if j > 0 {
                    assert(rs.drop_first()[j - 1].name != name);
                }
            }
        } else {
            assert(rs.drop_first()[r].name == name);
            assert forall|j: int| 0 <= j < find_router(rs, name) implies rs[j].name != name by {
                if j > 0 {
                    assert(rs.drop_first()[j - 1].name != name);
                }
            }
        }
    }
}

/// Peer names are pairwise distinct.
pub open spec fn wf_peers(ps: Seq<PeerV>) -> bool {
    forall|i: int, j: int| 0 <= i < j < ps.len() ==> ps[i].name != ps[j].name
}

/// Router names are pairwise distinct and each router's peers are.
pub open spec fn wf_routers(rs: Seq<RouterV>) -> bool {
    &&& forall|i: int, j: int| 0 <= i < j < rs.len() ==> rs[i].name != rs[j].name
    &&& forall|i: int| 0 <= i < rs.len() ==> wf_peers(#[trigger] rs[i].peers)
}

/// Total number of links of a peer sequence, every peer counted.
pub open spec fn peers_link_count(ps: Seq<PeerV>) -> int
    decreases ps.len(),
{
    if ps.len() == 0 {
        0
    } else {
        peers_link_count(ps.drop_last()) + ps.last().links.len()
    }
}

pub proof fn lemma_peers_link_count_nonneg(ps: Seq<PeerV>)
    ensures
        peers_link_count(ps) >= 0,
    decreases ps.len(),
{
    if ps.len() > 0 {
        lemma_peers_link_count_nonneg(ps.drop_last());
    }
}

/// A prefix never counts more links than the whole sequence.
pub proof fn lemma_peers_link_count_take_le(ps: Seq<PeerV>, i: int)
    requires
        0 <= i <= ps.len(),
    ensures
        peers_link_count(ps.take(i)) <= peers_link_count(ps),
    decreases ps.len(),
{
    if i == ps.len() {
        assert(ps.take(i) =~= ps);
    } else {
        assert(ps.take(i) =~= ps.drop_last().take(i));
        lemma_peers_link_count_take_le(ps.drop_last(), i);
        assert(ps.last().links.len() >= 0);
    }
}

/// The links of the external-named peers of a router, in peer order.
pub open spec fn external_groups(ps: Seq<PeerV>) -> Seq<Seq<LinkV>>
    decreases ps.len(),
{
    if ps.len() == 0 {
        Seq::empty()
    } else {
        external_groups(ps.drop_last())
            + if spec_is_external(ps.last().name) {
                seq![ps.last().links]
            } else {
                Seq::empty()
            }
    }
}

impl Router {
    /// True when the router's own name follows the external naming
    /// convention.
    pub fn is_external(&self) -> (r: bool)
        ensures
            r == spec_is_external(self@.name),
    {
        is_peer_from_name(self.name.as_str())
    }

    /// True when at least one peer name follows the external naming
    /// convention.
    pub fn has_external(&self) -> (r: bool)
        ensures
            r == exists|i: int|
                0 <= i < self@.peers.len() && spec_is_external(#[trigger] self@.peers[i].name),
    {
        let n = self.peers.len();
        let mut i: usize = 0;
        while i < n
            invariant
                0 <= i <= n,
                n == self.peers.len(),
                forall|j: int| 0 <= j < i ==> !spec_is_external(#[trigger] self@.peers[j].name),
            decreases n - i,
        {
            let p = &self.peers[i];
            if is_peer_from_name(p.name.as_str()) {
                assert(spec_is_external(self@.peers[i as int].name));
                return true;
            }
            i += 1;
        }
        false
    }

    /// For an internal router, the link groups toward its external-named
    /// peers; `None` for an external router.
    pub fn get_external_links<'a>(&'a self) -> (r: Option<Vec<&'a Vec<Link>>>)
        ensures
            r is None <==> spec_is_external(self@.name),
            r matches Some(v) ==> v@.map_values(|e: &Vec<Link>| e@.map_values(|l: Link| l@))
                == external_groups(self@.peers),
    {
        if self.is_external() {
            return None;
        }
        let n = self.peers.len();
        let mut out: Vec<&'a Vec<Link>> = Vec::new();
        let mut i: usize = 0;
        while i < n
            invariant
                0 <= i <= n,
                n == self.peers.len(),
                out@.map_values(|e: &Vec<Link>| e@.map_values(|l: Link| l@))
                    == external_groups(self@.peers.take(i as int)),
            decreases n - i,
        {
            let p = &self.peers[i];
            let ghost pre = out@;
            if is_peer_from_name(p.name.as_str()) {
                out.push(&p.links);
                proof {
                    assert(pre.push(&p.links).map_values(|e: &Vec<Link>| e@.map_values(|l: Link| l@))
                        =~= pre.map_values(|e: &Vec<Link>| e@.map_values(|l: Link| l@))
                            + seq![p.links@.map_values(|l: Link| l@)]);
                }
            }
            proof {
                assert(self@.peers.take(i + 1).drop_last() =~= self@.peers.take(i as int));
                assert(self@.peers.take(i + 1).last() == self@.peers[i as int]);
                assert(self@.peers[i as int] == p@);
            }
            i += 1;
        }
        proof {
            assert(self@.peers.take(n as int) =~= self@.peers);
        }
        Some(out)
    }

    /// Total number of links over all peer entries of this router.
    pub fn get_nb_links(&self) -> (r: u64)
        requires
            peers_link_count(self@.peers) <= u64::MAX,
        ensures
            r as int == peers_link_count(self@.peers),
    {
        let n = self.peers.len();
        let mut total: u64 = 0;
        let mut i: usize = 0;
        while i < n
            invariant
                0 <= i <= n,
                n == self.peers.len(),
                peers_link_count(self@.peers) <= u64::MAX,
                total as int == peers_link_count(self@.peers.take(i as int)),
            decreases n - i,
        {
            let p = &self.peers[i];
            proof {
                assert(self@.peers.take(i + 1).drop_last() =~= self@.peers.take(i as int));
                assert(self@.peers.take(i + 1).last() == self@.peers[i as int]);
                assert(self@.peers[i as int].links.len() == p.links@.map_values(|l: Link| l@).len());
                lemma_peers_link_count_take_le(self@.peers, i + 1);
                lemma_peers_link_count_nonneg(self@.peers.take(i as int));
            }
            total = total + (p.links.len() as u64);
            i += 1;
        }
        proof {
            assert(self@.peers.take(n as int) =~= self@.peers);
        }
        total
    }

    /// The load values of the links toward peer `other`, in link order, or
    /// `None` when there is no such peer entry.
    pub fn get_links_load_with(&self, other: &str) -> (r: Option<Vec<u64>>)
        ensures
            r is None <==> find_peer(self@.peers, other@) == -1,
            r matches Some(v) ==> find_peer(self@.peers, other@) >= 0
                && v@ == self@.peers[find_peer(self@.peers, other@)].links
                    .map_values(|l: LinkV| l.load),
    {
        let idx = find_peer_index(&self.peers, other);
        match idx {
            None => None,
            Some(i) => {
                proof {
                    lemma_find_peer(self@.peers, other@);
                }
                let p = &self.peers[i];
                let m = p.links.len();
                let mut out: Vec<u64> = Vec::new();
                let mut k: usize = 0;
                while k < m
                    invariant
                        0 <= k <= m,
                        m == p.links.len(),
                        out@ == p@.links.map_values(|l: LinkV| l.load).take(k as int),
                    decreases m - k,
                {
                    out.push(p.links[k].load);
                    proof {
                        let full = p@.links.map_values(|l: LinkV| l.load);
                        assert(full.take(k + 1) =~= full.take(k as int).push(full[k as int]));
                    }
                    k += 1;
                }
                proof {
                    let full = p@.links.map_values(|l: LinkV| l.load);
                    assert(full.take(m as int) =~= full);
                    assert(self@.peers[i as int] == p@);
                }
                Some(out)
            },
        }
    }
}

/// True when at least one peer name of the router follows the external
/// naming convention.
pub open spec fn router_has_external(r: RouterV) -> bool {
    exists|i: int| 0 <= i < r.peers.len() && spec_is_external(#[trigger] r.peers[i].name)
}

/// The routers whose external classification equals `want`, in order.
pub open spec fn routers_where_external(rs: Seq<RouterV>, want: bool) -> Seq<RouterV>
    decreases rs.len(),
{
    if rs.len() == 0 {
        Seq::empty()
    } else {
        routers_where_external(rs.drop_last(), want)
            + if spec_is_external(rs.last().name) == want {
                seq![rs.last()]
            } else {
                Seq::empty()
            }
    }
}

/// The routers that peer with at least one external network, in order.
pub open spec fn border_routers_of(rs: Seq<RouterV>) -> Seq<RouterV>
    decreases rs.len(),
{
    if rs.len() == 0 {
        Seq::empty()
    } else {
        border_routers_of(rs.drop_last())
            + if router_has_external(rs.last()) {
                seq![rs.last()]
            } else {
                Seq::empty()
            }
    }
}

/// Number of above-noise links (load above one) of a link group.
pub open spec fn filtered_group_size(links: Seq<LinkV>) -> int
    decreases links.len(),
{
    if links.len() == 0 {
        0
    } else {
        filtered_group_size(links.drop_last()) + if links.last().load > 1 {
            1int
        } else {
            0int
        }
    }
}

/// Sum over a router's ECMP groups (at least two above-noise links) of
/// their above-noise sizes.
pub open spec fn peers_ecmp_sum(ps: Seq<PeerV>) -> int
    decreases ps.len(),
{
    if ps.len() == 0 {
        0
    } else {
        peers_ecmp_sum(ps.drop_last()) + if filtered_group_size(ps.last().links) > 1 {
            filtered_group_size(ps.last().links)
        } else {
            0int
        }
    }
}

/// Number of a router's ECMP groups with at least two above-noise links.
pub open spec fn peers_ecmp_count(ps: Seq<PeerV>) -> int
    decreases ps.len(),
{
    if ps.len() == 0 {
        0
    } else {
        peers_ecmp_count(ps.drop_last()) + if filtered_group_size(ps.last().links) > 1 {
            1int
        } else {
            0int
        }
    }
}

/// Sum of `peers_ecmp_sum` over a router selection.
pub open spec fn routers_ecmp_sum(rs: Seq<RouterV>) -> int
    decreases rs.len(),
{
    if rs.len() == 0 {
        0
    } else {
        routers_ecmp_sum(rs.drop_last()) + peers_ecmp_sum(rs.last().peers)
    }
}

/// Sum of `peers_ecmp_count` over a router selection.
pub open spec fn routers_ecmp_count(rs: Seq<RouterV>) -> int
    decreases rs.len(),
{
    if rs.len() == 0 {
        0
    } else {
        routers_ecmp_count(rs.drop_last()) + peers_ecmp_count(rs.last().peers)
    }
}

impl OvhData {
    /// The external (peering) routers of the snapshot, in order.
    pub fn get_peering_routers<'a>(&'a self) -> (r: Vec<&'a Router>)
        ensures
            r@.map_values(|x: &Router| x@) == routers_where_external(self@.routers, true),
    {
        self.routers_matching(true)
    }

    /// The internal (operator-owned) routers of the snapshot, in order.
    pub fn get_internal_routers<'a>(&'a self) -> (r: Vec<&'a Router>)
        ensures
            r@.map_values(|x: &Router| x@) == routers_where_external(self@.routers, false),
    {
        self.routers_matching(false)
    }

    fn routers_matching<'a>(&'a self, want: bool) -> (r: Vec<&'a Router>)
        ensures
            r@.map_values(|x: &Router| x@) == routers_where_external(self@.routers, want),
    {
        let ghost rs = self@.routers;
        let mut out: Vec<&'a Router> = Vec::new();
        let n = self.data.len();
        let mut i: usize = 0;
        while i < n
            invariant
                0 <= i <= n,
                n == self.data.len(),
                rs == self@.routers,
                out@.map_values(|x: &Router| x@) == routers_where_external(rs.take(i as int), want),
            decreases n - i,
        {
            let r = &self.data[i];
            proof {
                assert(rs.take(i + 1).drop_last() =~= rs.take(i as int));
                assert(rs.take(i + 1).last() == rs[i as int]);
                assert(rs[i as int] == r@);
            }
            let ghost pre = out@;
            if r.is_external() == want {
                out.push(r);
                proof {
                    assert(out@.map_values(|x: &Router| x@) =~~= pre.map_values(|x: &Router| x@)
                        + seq![r@]);
                }
            } else {
                proof {
                    assert(routers_where_external(rs.take(i as int), want) + Seq::<RouterV>::empty()
                        =~= routers_where_external(rs.take(i as int), want));
                }
            }
            i += 1;
        }
        proof {
            assert(rs.take(n as int) =~= rs);
        }
        out
    }

    /// The routers with at least one external-named peer, in order.
    pub fn get_border_routers<'a>(&'a self) -> (r: Vec<&'a Router>)
        ensures
            r@.map_values(|x: &Router| x@) == border_routers_of(self@.routers),
    {
        let ghost rs = self@.routers;
        let mut out: Vec<&'a Router> = Vec::new();
        let n = self.data.len();
        let mut i: usize = 0;
        while i < n
            invariant
                0 <= i <= n,
                n == self.data.len(),
                rs == self@.routers,
                out@.map_values(|x: &Router| x@) == border_routers_of(rs.take(i as int)),
            decreases n - i,
        {
            let r = &self.data[i];
            proof {
                assert(rs.take(i + 1).drop_last() =~= rs.take(i as int));
                assert(rs.take(i + 1).last() == rs[i as int]);
                assert(rs[i as int] == r@);
            }
            let ghost pre = out@;
            if r.has_external() {
                out.push(r);
                proof {
                    assert(out@.map_values(|x: &Router| x@) =~~= pre.map_values(|x: &Router| x@)
                        + seq![r@]);
                }
            } else {
                proof {
                    assert(border_routers_of(rs.take(i as int)) + Seq::<RouterV>::empty()
                        =~= border_routers_of(rs.take(i as int)));
                }
            }
            i += 1;
        }
        proof {
            assert(rs.take(n as int) =~= rs);
        }
        out
    }

    /// The load values of the links between the named router and peer, or
    /// `None` when either side of the relation is absent.
    pub fn get_router_links_load_with(&self, router_name: &str, peer_name: &str) -> (r: Option<
        Vec<u64>,
    >)
        ensures
            ({
                let ri = find_router(self@.routers, router_name@);
                &&& r is None <==> (ri == -1 || find_peer(self@.routers[ri].peers, peer_name@)
                    == -1)
                &&& r matches Some(v) ==> ri >= 0 && {
                    let pi = find_peer(self@.routers[ri].peers, peer_name@);
                    pi >= 0 && v@ == self@.routers[ri].peers[pi].links.map_values(
                        |l: LinkV| l.load,
                    )
                }
            }),
    {
        let idx = find_router_index(&self.data, router_name);
        match idx {
            None => None,
            Some(i) => {
                proof {
                    lemma_find_router(self@.routers, router_name@);
                    assert(self@.routers[i as int] == self.data@[i as int]@);
                }
                self.data[i].get_links_load_with(peer_name)
            },
        }
    }

    /// The number of peer entries of each router, in router order.
    pub fn node_degrees(&self) -> (r: Vec<usize>)
        ensures
            r@.len() == self@.routers.len(),
            forall|q: int| 0 <= q < r@.len() ==> (#[trigger] r@[q]) as int
                == self@.routers[q].peers.len(),
    {
        let mut out: Vec<usize> = Vec::new();
        let n = self.data.len();
        let mut i: usize = 0;
        while i < n
            invariant
                0 <= i <= n,
                n == self.data.len(),
                out@.len() == i,
                forall|q: int| 0 <= q < i ==> (#[trigger] out@[q]) as int
                    == self@.routers[q].peers.len(),
            decreases n - i,
        {
            let r = &self.data[i];
            proof {
                assert(self@.routers[i as int] == r@);
            }
            out.push(r.peers.len());
            i += 1;
        }
        out
    }
}

pub proof fn lemma_peers_ecmp_nonneg(ps: Seq<PeerV>)
    ensures
        0 <= peers_ecmp_count(ps) <= peers_ecmp_sum(ps),
    decreases ps.len(),
{
    if ps.len() > 0 {
        lemma_peers_ecmp_nonneg(ps.drop_last());
    }
}

pub proof fn lemma_routers_ecmp_nonneg(rs: Seq<RouterV>)
    ensures
        0 <= routers_ecmp_count(rs) <= routers_ecmp_sum(rs),
    decreases rs.len(),
{
    if rs.len() > 0 {
        lemma_routers_ecmp_nonneg(rs.drop_last());
        lemma_peers_ecmp_nonneg(rs.last().peers);
    }
}

pub proof fn lemma_routers_ecmp_sum_take_le(rs: Seq<RouterV>, i: int)
    requires
        0 <= i <= rs.len(),
    ensures
        routers_ecmp_sum(rs.take(i)) <= routers_ecmp_sum(rs),
    decreases rs.len(),
{
    if i == rs.len() {
        assert(rs.take(i) =~= rs);
    } else {
        assert(rs.take(i) =~= rs.drop_last().take(i));
        lemma_routers_ecmp_sum_take_le(rs.drop_last(), i);
        lemma_peers_ecmp_nonneg(rs.last().peers);
    }
}

/// Sum of sizes, and number, of the ECMP groups with at least two
/// above-noise links over a router selection; the two operands of the
/// mean links-per-group ratio.
pub fn ecmp_links_sum_and_count(data: &Vec<&Router>) -> (r: (u64, u64))
    requires
        routers_ecmp_sum(data@.map_values(|x: &Router| x@)) <= u64::MAX,
    ensures
        r.0 as int == routers_ecmp_sum(data@.map_values(|x: &Router| x@)),
        r.1 as int == routers_ecmp_count(data@.map_values(|x: &Router| x@)),
{
    let ghost rs = data@.map_values(|x: &Router| x@);
    let mut total: u64 = 0;
    let mut count: u64 = 0;
    let n = data.len();
    let mut i: usize = 0;
    while i < n
        invariant
            0 <= i <= n,
            n == data.len(),
            rs == data@.map_values(|x: &Router| x@),
            routers_ecmp_sum(rs) <= u64::MAX,
            total as int == routers_ecmp_sum(rs.take(i as int)),
            count as int == routers_ecmp_count(rs.take(i as int)),
            count <= total,
        decreases n - i,
    {
        let r = data[i];
        proof {
            assert(rs.take(i + 1).drop_last() =~= rs.take(i as int));
            assert(rs.take(i + 1).last() == rs[i as int]);
            assert(rs[i as int] == r@);
        }
        let ghost ps = r@.peers;
        let m = r.peers.len();
        let mut k: usize = 0;
        while k < m
            invariant
                0 <= k <= m,
                m == r.peers.len(),
                ps == r@.peers,
                rs == data@.map_values(|x: &Router| x@),
                0 <= i < rs.len(),
                rs[i as int] == r@,
                routers_ecmp_sum(rs) <= u64::MAX,
                total as int == routers_ecmp_sum(rs.take(i as int)) + peers_ecmp_sum(
                    ps.take(k as int),
                ),
                count as int == routers_ecmp_count(rs.take(i as int)) + peers_ecmp_count(
                    ps.take(k as int),
                ),
                count <= total,
            decreases m - k,
        {
            let p = &r.peers[k];
            proof {
                assert(ps.take(k + 1).drop_last() =~= ps.take(k as int));
                assert(ps.take(k + 1).last() == ps[k as int]);
                assert(ps[k as int] == p@);
            }
            // size of the above-noise part of this group
            let ghost links = p@.links;
            let lm = p.links.len();
            let mut gsize: u64 = 0;
            let mut t: usize = 0;
            while t < lm
                invariant
                    0 <= t <= lm,
                    lm == p.links.len(),
                    links == p@.links,
                    gsize as int == filtered_group_size(links.take(t as int)),
                    gsize <= t,
                decreases lm - t,
            {
                proof {
                    assert(links.take(t + 1).drop_last() =~= links.take(t as int));
                    assert(links.take(t + 1).last() == links[t as int]);
                    assert(links[t as int] == p.links[t as int]@);
                }
                let l = &p.links[t];
                if l.load > 1 {
                    gsize = gsize + 1;
                }
                t += 1;
            }
            proof {
                assert(links.take(lm as int) =~= links);
            }
            if gsize > 1 {
                proof {
                    lemma_routers_ecmp_sum_take_le(rs, i + 1);
                    assert(rs.take(i + 1).drop_last() =~= rs.take(i as int));
                    assert(rs.take(i + 1).last() == rs[i as int]);
                    lemma_peers_ecmp_take_le(ps, k + 1);
                    lemma_peers_ecmp_nonneg(ps.take(k as int));
                    lemma_routers_ecmp_nonneg(rs.take(i as int));
                }
                total = total + gsize;
                count = count + 1;
            }
            k += 1;
        }
        proof {
            assert(ps.take(m as int) =~= ps);
            assert(rs.take(i + 1).drop_last() =~= rs.take(i as int));
            assert(rs.take(i + 1).last() == rs[i as int]);
        }
        i += 1;
    }
    proof {
        assert(rs.take(n as int) =~= rs);
    }
    (total, count)
}

pub proof fn lemma_peers_ecmp_take_le(ps: Seq<PeerV>, k: int)
    requires
        0 <= k <= ps.len(),
    ensures
        peers_ecmp_sum(ps.take(k)) <= peers_ecmp_sum(ps),
    decreases ps.len(),
{
    if k == ps.len() {
        assert(ps.take(k) =~= ps);
    } else {
        assert(ps.take(k) =~= ps.drop_last().take(k));
        lemma_peers_ecmp_take_le(ps.drop_last(), k);
        let g = filtered_group_size(ps.last().links);
        assert(g >= 0) by {
            lemma_filtered_group_size_nonneg(ps.last().links);
        }
    }
}

pub proof fn lemma_filtered_group_size_nonneg(links: Seq<LinkV>)
    ensures
        0 <= filtered_group_size(links) <= links.len(),
    decreases links.len(),
{
    if links.len() > 0 {
        lemma_filtered_group_size_nonneg(links.drop_last());
    }
}

/// Finds the index of the peer entry named `name`, matching `find_peer`.
pub fn find_peer_index(peers: &Vec<Peer>, name: &str) -> (r: Option<usize>)
    ensures
        r is None <==> find_peer(peers@.map_values(|p: Peer| p@), name@) == -1,
        r matches Some(i) ==> i as int == find_peer(peers@.map_values(|p: Peer| p@), name@),
{
    let ghost ps = peers@.map_values(|p: Peer| p@);
    proof {
        lemma_find_peer(ps, name@);
    }
    let owned = name.to_owned();
    let n = peers.len();
    let mut i: usize = 0;
    while i < n
        invariant
            0 <= i <= n,
            n == peers.len(),
            ps == peers@.map_values(|p: Peer| p@),
            owned@ == name@,
            forall|j: int| 0 <= j < i ==> ps[j].name != name@,
        decreases n - i,
    {
        if peers[i].name == owned {
            proof {
                lemma_find_peer(ps, name@);
                let f = find_peer(ps, name@);
                assert(ps[i as int].name == name@);
                if f == -1 {
                    assert(false);
                } else if f < i as int {
                    assert(ps[f].name != name@);
                } else if f > i as int {
                    assert(ps[i as int].name != name@);
                }
            }
            return Some(i);
        }
        i += 1;
    }
    proof {
        lemma_find_peer(ps, name@);
        let f = find_peer(ps, name@);
        if f != -1 {
            assert(ps[f].name != name@);
        }
    }
    None
}

/// Finds the index of the router named `name`, matching `find_router`.
pub fn find_router_index(routers: &Vec<Router>, name: &str) -> (r: Option<usize>)
    ensures
        r is None <==> find_router(routers@.map_values(|x: Router| x@), name@) == -1,
        r matches Some(i) ==> i as int == find_router(routers@.map_values(|x: Router| x@), name@),
{
    let ghost rs = routers@.map_values(|x: Router| x@);
    proof {
        lemma_find_router(rs, name@);
    }
    let owned = name.to_owned();
    let n = routers.len();
    let mut i: usize = 0;
    while i < n
        invariant
            0 <= i <= n,
            n == routers.len(),
            rs == routers@.map_values(|x: Router| x@),
            owned@ == name@,
            forall|j: int| 0 <= j < i ==> rs[j].name != name@,
        decreases n - i,
    {
        if routers[i].name == owned {
            proof {
                lemma_find_router(rs, name@);
                let f = find_router(rs, name@);
                assert(rs[i as int].name == name@);
                if f == -1 {
                    assert(false);
                } else if f < i as int {
                    assert(rs[f].name != name@);
                } else if f > i as int {
                    assert(rs[i as int].name != name@);
                }
            }
            return Some(i);
        }
        i += 1;
    }
    proof {
        lemma_find_router(rs, name@);
        let f = find_router(rs, name@);
        if f != -1 {
            assert(rs[f].name != name@);
        }
    }
    None
}

} // verus!
