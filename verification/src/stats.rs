//! Per-snapshot statistics: node counts, link counts, ECMP group sizes,
//! ECMP load imbalance and individual link loads, each restricted by a
//! node-class filter.

use vstd::prelude::*;
use crate::model::OvhData;
use crate::model::OvhDataV;
use crate::model::RouterV;
use crate::model::PeerV;
use crate::model::LinkV;
use crate::classify::spec_is_external;
use crate::classify::all_upper;
use crate::classify::is_peer_from_name;
use crate::classify::name_is_all_upper;

verus! {

/// Restriction of a metric to a class of routers: every router, the
/// internal (operator-owned) ones, or the external (peering) ones.
#[derive(Clone, Copy, Debug)]
pub enum OvhNodeFilter {
    All,
    Ovh,
    External,
}

/// Whether a router belongs to the class selected by the filter.
pub open spec fn router_passes(r: RouterV, f: OvhNodeFilter) -> bool {
    match f {
        OvhNodeFilter::All => true,
        OvhNodeFilter::Ovh => !spec_is_external(r.name),
        OvhNodeFilter::External => spec_is_external(r.name),
    }
}

/// Peer entries counted for link totals and group sizes: the internal
/// filter keeps internal-to-internal relations only.
pub open spec fn peer_counted_links(p: PeerV, f: OvhNodeFilter) -> bool {
    match f {
        OvhNodeFilter::Ovh => !spec_is_external(p.name),
        _ => true,
    }
}

/// Peer entries counted for the imbalance metric: the internal filter
/// excludes peers whose whole name is upper-case (not just the `#`-prefix).
pub open spec fn peer_counted_imbalance(p: PeerV, f: OvhNodeFilter) -> bool {
    match f {
        OvhNodeFilter::Ovh => !all_upper(p.name),
        _ => true,
    }
}

/// Peer entries counted for the link-load metric under the internal
/// filter: the external-named relations of the selected routers.
pub open spec fn peer_counted_loads(p: PeerV, f: OvhNodeFilter) -> bool {
    match f {
        OvhNodeFilter::Ovh => spec_is_external(p.name),
        _ => true,
    }
}

/// Number of routers of the snapshot passing the filter.
pub open spec fn node_count(rs: Seq<RouterV>, f: OvhNodeFilter) -> int
    decreases rs.len(),
{
    if rs.len() == 0 {
        0
    } else {
        node_count(rs.drop_last(), f) + if router_passes(rs.last(), f) {
            1int
        } else {
            0int
        }
    }
}

/// Links of one router counted under the filter's peer rule.
pub open spec fn peers_link_sum(ps: Seq<PeerV>, f: OvhNodeFilter) -> int
    decreases ps.len(),
{
    if ps.len() == 0 {
        0
    } else {
        peers_link_sum(ps.drop_last(), f) + if peer_counted_links(ps.last(), f) {
            ps.last().links.len() as int
        } else {
            0int
        }
    }
}

/// Raw link total over the routers passing the filter, each endpoint's
/// record counted separately.
pub open spec fn raw_link_sum(rs: Seq<RouterV>, f: OvhNodeFilter) -> int
    decreases rs.len(),
{
    if rs.len() == 0 {
        0
    } else {
        raw_link_sum(rs.drop_last(), f) + if router_passes(rs.last(), f) {
            peers_link_sum(rs.last().peers, f)
        } else {
            0int
        }
    }
}

/// Internal-to-internal edges appear in two routers' records, peering
/// edges toward an external side in one.
pub open spec fn link_divisor(f: OvhNodeFilter) -> int {
    match f {
        OvhNodeFilter::External => 1,
        _ => 2,
    }
}

/// The link count of the snapshot under the filter.
pub open spec fn spec_nb_links(s: OvhDataV, f: OvhNodeFilter) -> int {
    raw_link_sum(s.routers, f) / link_divisor(f)
}

/// The loads above the noise threshold (load of at most one percent is
/// treated as an idle or control-traffic-only link), in link order.
pub open spec fn loads_over(links: Seq<LinkV>) -> Seq<u64>
    decreases links.len(),
{
    if links.len() == 0 {
        Seq::empty()
    } else {
        loads_over(links.drop_last()) + if links.last().load > 1 {
            seq![links.last().load]
        } else {
            Seq::empty()
        }
    }
}

/// Largest element of a load sequence (`0` for an empty one).
pub open spec fn seq_max(s: Seq<u64>) -> u64
    decreases s.len(),
{
    if s.len() == 0 {
        0u64
    } else if s.len() == 1 {
        s[0]
    } else if s.last() > seq_max(s.drop_last()) {
        s.last()
    } else {
        seq_max(s.drop_last())
    }
}

/// Smallest element of a load sequence (`0` for an empty one).
pub open spec fn seq_min(s: Seq<u64>) -> u64
    decreases s.len(),
{
    if s.len() == 0 {
        0u64
    } else if s.len() == 1 {
        s[0]
    } else if s.last() < seq_min(s.drop_last()) {
        s.last()
    } else {
        seq_min(s.drop_last())
    }
}

pub proof fn lemma_seq_minmax(s: Seq<u64>)
    ensures
        forall|i: int| 0 <= i < s.len() ==> seq_min(s) <= #[trigger] s[i] <= seq_max(s),
        s.len() > 0 ==> seq_min(s) <= seq_max(s),
    decreases s.len(),
{
    if s.len() <= 1 {
    } else {
        lemma_seq_minmax(s.drop_last());
        assert forall|i: int| 0 <= i < s.len() implies seq_min(s) <= #[trigger] s[i] <= seq_max(s) by {
            if i < s.len() - 1 {
                assert(s.drop_last()[i] == s[i]);
            }
        }
    }
}

/// The imbalance samples of one ECMP group: one spread value when at
/// least two links stay after noise filtering, nothing otherwise.
pub open spec fn group_imbalance(links: Seq<LinkV>) -> Seq<u64> {
    let ls = loads_over(links);
    if ls.len() >= 2 {
        seq![(seq_max(ls) - seq_min(ls)) as u64]
    } else {
        Seq::empty()
    }
}

pub open spec fn peers_imbalance(ps: Seq<PeerV>, f: OvhNodeFilter) -> Seq<u64>
    decreases ps.len(),
{
    if ps.len() == 0 {
        Seq::empty()
    } else {
        peers_imbalance(ps.drop_last(), f) + if peer_counted_imbalance(ps.last(), f) {
            group_imbalance(ps.last().links)
        } else {
            Seq::empty()
        }
    }
}

/// All imbalance samples of the snapshot under the filter, in router and
/// peer order.
pub open spec fn routers_imbalance(rs: Seq<RouterV>, f: OvhNodeFilter) -> Seq<u64>
    decreases rs.len(),
{
    if rs.len() == 0 {
        Seq::empty()
    } else {
        routers_imbalance(rs.drop_last(), f) + if router_passes(rs.last(), f) {
            peers_imbalance(rs.last().peers, f)
        } else {
            Seq::empty()
        }
    }
}

pub open spec fn peers_group_sizes(ps: Seq<PeerV>, f: OvhNodeFilter) -> Seq<u64>
    decreases ps.len(),
{
    if ps.len() == 0 {
        Seq::empty()
    } else {
        peers_group_sizes(ps.drop_last(), f) + if peer_counted_links(ps.last(), f)
            && ps.last().links.len() > 1 {
            seq![ps.last().links.len() as u64]
        } else {
            Seq::empty()
        }
    }
}

/// The sizes of all multi-link (ECMP) groups of the snapshot under the
/// filter, in router and peer order.
pub open spec fn routers_group_sizes(rs: Seq<RouterV>, f: OvhNodeFilter) -> Seq<u64>
    decreases rs.len(),
{
    if rs.len() == 0 {
        Seq::empty()
    } else {
        routers_group_sizes(rs.drop_last(), f) + if router_passes(rs.last(), f) {
            peers_group_sizes(rs.last().peers, f)
        } else {
            Seq::empty()
        }
    }
}

pub open spec fn peers_loads(ps: Seq<PeerV>, f: OvhNodeFilter) -> Seq<u64>
    decreases ps.len(),
{
    if ps.len() == 0 {
        Seq::empty()
    } else {
        peers_loads(ps.drop_last(), f) + if peer_counted_loads(ps.last(), f) {
            loads_over(ps.last().links)
        } else {
            Seq::empty()
        }
    }
}

/// All above-noise link loads of the snapshot under the filter, in
/// router, peer and link order.
pub open spec fn routers_loads(rs: Seq<RouterV>, f: OvhNodeFilter) -> Seq<u64>
    decreases rs.len(),
{
    if rs.len() == 0 {
        Seq::empty()
    } else {
        routers_loads(rs.drop_last(), f) + if router_passes(rs.last(), f) {
            peers_loads(rs.last().peers, f)
        } else {
            Seq::empty()
        }
    }
}

pub proof fn lemma_node_count_bounds(rs: Seq<RouterV>, f: OvhNodeFilter)
    ensures
        0 <= node_count(rs, f) <= rs.len(),
    decreases rs.len(),
{
    if rs.len() > 0 {
        lemma_node_count_bounds(rs.drop_last(), f);
    }
}

pub proof fn lemma_peers_link_sum_nonneg(ps: Seq<PeerV>, f: OvhNodeFilter)
    ensures
        0 <= peers_link_sum(ps, f),
    decreases ps.len(),
{
    if ps.len() > 0 {
        lemma_peers_link_sum_nonneg(ps.drop_last(), f);
    }
}

pub proof fn lemma_raw_link_sum_nonneg(rs: Seq<RouterV>, f: OvhNodeFilter)
    ensures
        0 <= raw_link_sum(rs, f),
    decreases rs.len(),
{
    if rs.len() > 0 {
        lemma_raw_link_sum_nonneg(rs.drop_last(), f);
        lemma_peers_link_sum_nonneg(rs.last().peers, f);
    }
}

/// Under any filter a router's counted links are at most all of its links.
pub proof fn lemma_peers_link_sum_le_all(ps: Seq<PeerV>, f: OvhNodeFilter)
    ensures
        peers_link_sum(ps, f) <= peers_link_sum(ps, OvhNodeFilter::All),
    decreases ps.len(),
{
    if ps.len() > 0 {
        lemma_peers_link_sum_le_all(ps.drop_last(), f);
    }
}

/// Under any filter the raw link total is at most the unfiltered one.
pub proof fn lemma_raw_link_sum_le_all(rs: Seq<RouterV>, f: OvhNodeFilter)
    ensures
        raw_link_sum(rs, f) <= raw_link_sum(rs, OvhNodeFilter::All),
    decreases rs.len(),
{
    if rs.len() > 0 {
        lemma_raw_link_sum_le_all(rs.drop_last(), f);
        lemma_peers_link_sum_le_all(rs.last().peers, f);
        lemma_peers_link_sum_nonneg(rs.last().peers, f);
    }
}

pub proof fn lemma_raw_link_sum_take_le(rs: Seq<RouterV>, f: OvhNodeFilter, i: int)
    requires
        0 <= i <= rs.len(),
    ensures
        raw_link_sum(rs.take(i), f) <= raw_link_sum(rs, f),
    decreases rs.len(),
{
    if i == rs.len() {
        assert(rs.take(i) =~= rs);
    } else {
        assert(rs.take(i) =~= rs.drop_last().take(i));
        lemma_raw_link_sum_take_le(rs.drop_last(), f, i);
        if router_passes(rs.last(), f) {
            lemma_peers_link_sum_nonneg(rs.last().peers, f);
        }
    }
}

/// Internal and external routers partition the snapshot: their node
/// counts always add up to the unfiltered count.
pub proof fn lemma_node_count_partition(rs: Seq<RouterV>)
    ensures
        node_count(rs, OvhNodeFilter::Ovh) + node_count(rs, OvhNodeFilter::External)
            == node_count(rs, OvhNodeFilter::All),
    decreases rs.len(),
{
    if rs.len() > 0 {
        lemma_node_count_partition(rs.drop_last());
    }
}

/// In a closed internal graph whose reciprocal link records balance to an
/// even raw total, the unfiltered link count doubles back exactly to the
/// raw sum of all per-peer link sequence lengths.
pub proof fn lemma_link_count_all_closed(s: OvhDataV)
    ensures
        ((forall|i: int| 0 <= i < s.routers.len()
            ==> !spec_is_external(#[trigger] s.routers[i].name)
                && forall|j: int| 0 <= j < s.routers[i].peers.len()
                    ==> !spec_is_external(#[trigger] s.routers[i].peers[j].name))
            && raw_link_sum(s.routers, OvhNodeFilter::All) % 2 == 0)
            ==> spec_nb_links(s, OvhNodeFilter::All) * 2
                == raw_link_sum(s.routers, OvhNodeFilter::All),
{
    let raw = raw_link_sum(s.routers, OvhNodeFilter::All);
    assert(raw == 2 * (raw / 2) + raw % 2);
}

/// A peer group with at most one above-noise link contributes no
/// imbalance sample.
pub proof fn lemma_imbalance_noise_filtered(links: Seq<LinkV>)
    ensures
        loads_over(links).len() <= 1 ==> group_imbalance(links) == Seq::<u64>::empty(),
{
}

/// An emitted imbalance sample is exactly the spread of the group's
/// above-noise loads, and the spread never goes below zero.
pub proof fn lemma_imbalance_sample(links: Seq<LinkV>)
    ensures
        group_imbalance(links).len() <= 1,
        group_imbalance(links).len() == 1 ==> {
            let ls = loads_over(links);
            ls.len() >= 2
                && seq_min(ls) <= seq_max(ls)
                && group_imbalance(links)[0] == seq_max(ls) - seq_min(ls)
                && group_imbalance(links)[0] >= 0
        },
{
    let ls = loads_over(links);
    if ls.len() >= 2 {
        lemma_seq_minmax(ls);
    }
}

/// Whether a router belongs to the class selected by the filter.
fn router_passes_exec(r: &crate::model::Router, f: OvhNodeFilter) -> (b: bool)
    ensures
        b == router_passes(r@, f),
{
    match f {
        OvhNodeFilter::All => true,
        OvhNodeFilter::Ovh => !is_peer_from_name(r.name.as_str()),
        OvhNodeFilter::External => is_peer_from_name(r.name.as_str()),
    }
}

impl OvhData {
    /// Number of routers passing the filter.
    pub fn get_nb_nodes(&self, ovh_nodes: OvhNodeFilter) -> (r: usize)
        ensures
            r as int == node_count(self@.routers, ovh_nodes),
    {
        let n = self.data.len();
        let mut count: usize = 0;
        let mut i: usize = 0;
        while i < n
            invariant
                0 <= i <= n,
                n == self.data.len(),
                count as int == node_count(self@.routers.take(i as int), ovh_nodes),
                count <= i,
            decreases n - i,
        {
            let r = &self.data[i];
            proof {
                assert(self@.routers.take(i + 1).drop_last() =~= self@.routers.take(i as int));
                assert(self@.routers.take(i + 1).last() == self@.routers[i as int]);
                assert(self@.routers[i as int] == r@);
            }
            if router_passes_exec(r, ovh_nodes) {
                count = count + 1;
            }
            i += 1;
        }
        proof {
            assert(self@.routers.take(n as int) =~= self@.routers);
        }
        count
    }

    /// Link count under the filter: the raw per-record total of the
    /// selected routers and peer relations, divided by two except for the
    /// external filter, whose peering edges are recorded once.
    pub fn get_nb_links(&self, ovh_nodes: OvhNodeFilter) -> (r: u64)
        requires
            raw_link_sum(self@.routers, OvhNodeFilter::All) <= u64::MAX,
        ensures
            r as int == spec_nb_links(self@, ovh_nodes),
    {
        let ghost rs = self@.routers;
        let n = self.data.len();
        let mut total: u64 = 0;
        let mut i: usize = 0;
        while i < n
            invariant
                0 <= i <= n,
                n == self.data.len(),
                rs == self@.routers,
                raw_link_sum(rs, OvhNodeFilter::All) <= u64::MAX,
                total as int == raw_link_sum(rs.take(i as int), ovh_nodes),
            decreases n - i,
        {
            let r = &self.data[i];
            proof {
                assert(rs.take(i + 1).drop_last() =~= rs.take(i as int));
                assert(rs.take(i + 1).last() == rs[i as int]);
                assert(rs[i as int] == r@);
            }
            if router_passes_exec(r, ovh_nodes) {
                let ghost ps = r@.peers;
                let m = r.peers.len();
                let mut k: usize = 0;
                while k < m
                    invariant
                        0 <= k <= m,
                        m == r.peers.len(),
                        ps == r@.peers,
                        rs == self@.routers,
                        0 <= i < rs.len(),
                        rs[i as int] == r@,
                        router_passes(r@, ovh_nodes),
                        raw_link_sum(rs, OvhNodeFilter::All) <= u64::MAX,
                        total as int == raw_link_sum(rs.take(i as int), ovh_nodes)
                            + peers_link_sum(ps.take(k as int), ovh_nodes),
                    decreases m - k,
                {
                    let p = &r.peers[k];
                    proof {
                        assert(ps.take(k + 1).drop_last() =~= ps.take(k as int));
                        assert(ps.take(k + 1).last() == ps[k as int]);
                        assert(ps[k as int] == p@);
                        assert(p@.links.len() == p.links@.len());
                        // the running total stays within the unfiltered total
                        lemma_raw_link_sum_take_le(rs, ovh_nodes, i + 1);
                        lemma_raw_link_sum_le_all(rs, ovh_nodes);
                        assert(rs.take(i + 1).drop_last() =~= rs.take(i as int));
                        assert(rs.take(i + 1).last() == rs[i as int]);
                        lemma_peers_link_sum_le_all(ps, ovh_nodes);
                        lemma_peers_link_sum_nonneg(ps, ovh_nodes);
                        lemma_raw_link_sum_nonneg(rs.take(i as int), ovh_nodes);
                        lemma_peers_take_le(ps, ovh_nodes, k + 1);
                    }
                    let counted = match ovh_nodes {
                        OvhNodeFilter::Ovh => !is_peer_from_name(p.name.as_str()),
                        _ => true,
                    };
                    if counted {
                        total = total + (p.links.len() as u64);
                    }
                    k += 1;
                }
                proof {
                    assert(ps.take(m as int) =~= ps);
                    assert(rs.take(i + 1).drop_last() =~= rs.take(i as int));
                    assert(rs.take(i + 1).last() == rs[i as int]);
                }
            } else {
                proof {
                    assert(rs.take(i + 1).drop_last() =~= rs.take(i as int));
                    assert(rs.take(i + 1).last() == rs[i as int]);
                }
            }
            i += 1;
        }
        proof {
            assert(rs.take(n as int) =~= rs);
            lemma_raw_link_sum_nonneg(rs, ovh_nodes);
        }
        match ovh_nodes {
            OvhNodeFilter::External => total,
            _ => total / 2,
        }
    }
}

/// Smallest and largest element of a non-empty load vector.
fn min_max_loads(v: &Vec<u64>) -> (r: (u64, u64))
    requires
        v@.len() > 0,
    ensures
        r.0 == seq_min(v@),
        r.1 == seq_max(v@),
{
    let mut mn = v[0];
    let mut mx = v[0];
    proof {
        assert(v@.take(1) =~= seq![v@[0]]);
    }
    let n = v.len();
    let mut j: usize = 1;
    while j < n
        invariant
            1 <= j <= n,
            n == v@.len(),
            mn == seq_min(v@.take(j as int)),
            mx == seq_max(v@.take(j as int)),
        decreases n - j,
    {
        proof {
            assert(v@.take(j + 1).drop_last() =~= v@.take(j as int));
            assert(v@.take(j + 1).last() == v@[j as int]);
        }
        let x = v[j];
        if x < mn {
            mn = x;
        }
        if x > mx {
            mx = x;
        }
        j += 1;
    }
    proof {
        assert(v@.take(n as int) =~= v@);
    }
    (mn, mx)
}

impl OvhData {
    /// The imbalance samples of the snapshot: for every selected router
    /// and counted peer group, the spread of the above-noise loads when
    /// at least two such links remain.
    pub fn get_ecmp_imbalance(&self, ovh_nodes: OvhNodeFilter) -> (r: Vec<u64>)
        ensures
            r@ == routers_imbalance(self@.routers, ovh_nodes),
    {
        let ghost rs = self@.routers;
        let mut out: Vec<u64> = Vec::new();
        let n = self.data.len();
        let mut i: usize = 0;
        while i < n
            invariant
                0 <= i <= n,
                n == self.data.len(),
                rs == self@.routers,
                out@ == routers_imbalance(rs.take(i as int), ovh_nodes),
            decreases n - i,
        {
            let r = &self.data[i];
            proof {
                assert(rs.take(i + 1).drop_last() =~= rs.take(i as int));
                assert(rs.take(i + 1).last() == rs[i as int]);
                assert(rs[i as int] == r@);
            }
            if router_passes_exec(r, ovh_nodes) {
                let ghost ps = r@.peers;
                let m = r.peers.len();
                let mut k: usize = 0;
                while k < m
                    invariant
                        0 <= k <= m,
                        m == r.peers.len(),
                        ps == r@.peers,
                        rs == self@.routers,
                        0 <= i < rs.len(),
                        rs[i as int] == r@,
                        router_passes(r@, ovh_nodes),
                        out@ == routers_imbalance(rs.take(i as int), ovh_nodes)
                            + peers_imbalance(ps.take(k as int), ovh_nodes),
                    decreases m - k,
                {
                    let p = &r.peers[k];
                    proof {
                        assert(ps.take(k + 1).drop_last() =~= ps.take(k as int));
                        assert(ps.take(k + 1).last() == ps[k as int]);
                        assert(ps[k as int] == p@);
                    }
                    let counted = match ovh_nodes {
                        OvhNodeFilter::Ovh => !name_is_all_upper(p.name.as_str()),
                        _ => true,
                    };
                    if counted {
                        let ghost links = p@.links;
                        let lm = p.links.len();
                        let mut fl: Vec<u64> = Vec::new();
                        let mut t: usize = 0;
                        while t < lm
                            invariant
                                0 <= t <= lm,
                                lm == p.links.len(),
                                links == p@.links,
                                fl@ == loads_over(links.take(t as int)),
                            decreases lm - t,
                        {
                            proof {
                                assert(links.take(t + 1).drop_last() =~= links.take(t as int));
                                assert(links.take(t + 1).last() == links[t as int]);
                                assert(links[t as int] == p.links[t as int]@);
                            }
                            let l = &p.links[t];
                            if l.load > 1 {
                                let ghost pre = fl@;
                                fl.push(l.load);
                                proof {
                                    assert(pre.push(l.load) =~= pre + seq![l.load]);
                                }
                            } else {
                                proof {
                                    assert(loads_over(links.take(t as int)) + Seq::<u64>::empty()
                                        =~= loads_over(links.take(t as int)));
                                }
                            }
                            t += 1;
                        }
                        proof {
                            assert(links.take(lm as int) =~= links);
                        }
                        if fl.len() > 1 {
                            let mnmx = min_max_loads(&fl);
                            proof {
                                lemma_seq_minmax(fl@);
                            }
                            let ghost pre = out@;
                            out.push(mnmx.1 - mnmx.0);
                            proof {
                                assert(group_imbalance(p@.links)
                                    == seq![(seq_max(fl@) - seq_min(fl@)) as u64]);
                                assert(pre.push((mnmx.1 - mnmx.0) as u64)
                                    =~= pre + group_imbalance(p@.links));
                            }
                        } else {
                            proof {
                                assert(group_imbalance(p@.links) == Seq::<u64>::empty());
                                assert(out@ + Seq::<u64>::empty() =~= out@);
                            }
                        }
                    } else {
                        proof {
                            assert(out@ + Seq::<u64>::empty() =~= out@);
                        }
                    }
                    k += 1;
                }
                proof {
                    assert(ps.take(m as int) =~= ps);
                    assert(rs.take(i + 1).drop_last() =~= rs.take(i as int));
                    assert(rs.take(i + 1).last() == rs[i as int]);
                }
            } else {
                proof {
                    assert(out@ + Seq::<u64>::empty() =~= out@);
                }
            }
            i += 1;
        }
        proof {
            assert(rs.take(n as int) =~= rs);
        }
        out
    }

    /// The sizes of all raw multi-link peer groups of the selected
    /// routers, with no load filtering.
    pub fn get_nb_ecmp_links(&self, ovh_nodes: OvhNodeFilter) -> (r: Vec<u64>)
        ensures
            r@ == routers_group_sizes(self@.routers, ovh_nodes),
    {
        let ghost rs = self@.routers;
        let mut out: Vec<u64> = Vec::new();
        let n = self.data.len();
        let mut i: usize = 0;
        while i < n
            invariant
                0 <= i <= n,
                n == self.data.len(),
                rs == self@.routers,
                out@ == routers_group_sizes(rs.take(i as int), ovh_nodes),
            decreases n - i,
        {
            let r = &self.data[i];
            proof {
                assert(rs.take(i + 1).drop_last() =~= rs.take(i as int));
                assert(rs.take(i + 1).last() == rs[i as int]);
                assert(rs[i as int] == r@);
            }
            if router_passes_exec(r, ovh_nodes) {
                let ghost ps = r@.peers;
                let m = r.peers.len();
                let mut k: usize = 0;
                while k < m
                    invariant
                        0 <= k <= m,
                        m == r.peers.len(),
                        ps == r@.peers,
                        rs == self@.routers,
                        0 <= i < rs.len(),
                        rs[i as int] == r@,
                        router_passes(r@, ovh_nodes),
                        out@ == routers_group_sizes(rs.take(i as int), ovh_nodes)
                            + peers_group_sizes(ps.take(k as int), ovh_nodes),
                    decreases m - k,
                {
                    let p = &r.peers[k];
                    proof {
                        assert(ps.take(k + 1).drop_last() =~= ps.take(k as int));
                        assert(ps.take(k + 1).last() == ps[k as int]);
                        assert(ps[k as int] == p@);
                        assert(p@.links.len() == p.links@.len());
                    }
                    let counted = match ovh_nodes {
                        OvhNodeFilter::Ovh => !is_peer_from_name(p.name.as_str()),
                        _ => true,
                    };
                    if counted && p.links.len() > 1 {
                        let ghost pre = out@;
                        out.push(p.links.len() as u64);
                        proof {
                            assert(pre.push(p.links.len() as u64)
                                =~= pre + seq![p@.links.len() as u64]);
                        }
                    } else {
                        proof {
                            assert(out@ + Seq::<u64>::empty() =~= out@);
                        }
                    }
                    k += 1;
                }
                proof {
                    assert(ps.take(m as int) =~= ps);
                    assert(rs.take(i + 1).drop_last() =~= rs.take(i as int));
                    assert(rs.take(i + 1).last() == rs[i as int]);
                }
            } else {
                proof {
                    assert(out@ + Seq::<u64>::empty() =~= out@);
                }
            }
            i += 1;
        }
        proof {
            assert(rs.take(n as int) =~= rs);
        }
        out
    }

    /// Every above-noise link load of the counted peer groups of the
    /// selected routers, one entry per link.
    pub fn get_link_loads(&self, ovh_nodes: OvhNodeFilter) -> (r: Vec<u64>)
        ensures
            r@ == routers_loads(self@.routers, ovh_nodes),
    {
        let ghost rs = self@.routers;
        let mut out: Vec<u64> = Vec::new();
        let n = self.data.len();
        let mut i: usize = 0;
        while i < n
            invariant
                0 <= i <= n,
                n == self.data.len(),
                rs == self@.routers,
                out@ == routers_loads(rs.take(i as int), ovh_nodes),
            decreases n - i,
        {
            let r = &self.data[i];
            proof {
                assert(rs.take(i + 1).drop_last() =~= rs.take(i as int));
                assert(rs.take(i + 1).last() == rs[i as int]);
                assert(rs[i as int] == r@);
            }
            if router_passes_exec(r, ovh_nodes) {
                let ghost ps = r@.peers;
                let m = r.peers.len();
                let mut k: usize = 0;
                while k < m
                    invariant
                        0 <= k <= m,
                        m == r.peers.len(),
                        ps == r@.peers,
                        rs == self@.routers,
                        0 <= i < rs.len(),
                        rs[i as int] == r@,
                        router_passes(r@, ovh_nodes),
                        out@ == routers_loads(rs.take(i as int), ovh_nodes)
                            + peers_loads(ps.take(k as int), ovh_nodes),
                    decreases m - k,
                {
                    let p = &r.peers[k];
                    proof {
                        assert(ps.take(k + 1).drop_last() =~= ps.take(k as int));
                        assert(ps.take(k + 1).last() == ps[k as int]);
                        assert(ps[k as int] == p@);
                    }
                    let counted = match ovh_nodes {
                        OvhNodeFilter::Ovh => is_peer_from_name(p.name.as_str()),
                        _ => true,
                    };
                    if counted {
                        let ghost links = p@.links;
                        let ghost base = out@;
                        let lm = p.links.len();
                        let mut t: usize = 0;
                        while t < lm
                            invariant
                                0 <= t <= lm,
                                lm == p.links.len(),
                                links == p@.links,
                                out@ == base + loads_over(links.take(t as int)),
                            decreases lm - t,
                        {
                            proof {
                                assert(links.take(t + 1).drop_last() =~= links.take(t as int));
                                assert(links.take(t + 1).last() == links[t as int]);
                                assert(links[t as int] == p.links[t as int]@);
                            }
                            let l = &p.links[t];
                            if l.load > 1 {
                                let ghost pre = out@;
                                out.push(l.load);
                                proof {
                                    assert(pre.push(l.load)
                                        =~= base + (loads_over(links.take(t as int)) + seq![l.load]));
                                }
                            } else {
                                proof {
                                    assert(loads_over(links.take(t as int)) + Seq::<u64>::empty()
                                        =~= loads_over(links.take(t as int)));
                                }
                            }
                            t += 1;
                        }
                        proof {
                            assert(links.take(lm as int) =~= links);
                        }
                    } else {
                        proof {
                            assert(out@ + Seq::<u64>::empty() =~= out@);
                        }
                    }
                    k += 1;
                }
                proof {
                    assert(ps.take(m as int) =~= ps);
                    assert(rs.take(i + 1).drop_last() =~= rs.take(i as int));
                    assert(rs.take(i + 1).last() == rs[i as int]);
                }
            } else {
                proof {
                    assert(out@ + Seq::<u64>::empty() =~= out@);
                }
            }
            i += 1;
        }
        proof {
            assert(rs.take(n as int) =~= rs);
        }
        out
    }
}

/// A prefix of a router's peers never counts more links than all of them.
pub proof fn lemma_peers_take_le(ps: Seq<PeerV>, f: OvhNodeFilter, k: int)
    requires
        0 <= k <= ps.len(),
    ensures
        peers_link_sum(ps.take(k), f) <= peers_link_sum(ps, f),
    decreases ps.len(),
{
    if k == ps.len() {
        assert(ps.take(k) =~= ps);
    } else {
        assert(ps.take(k) =~= ps.drop_last().take(k));
        lemma_peers_take_le(ps.drop_last(), f, k);
    }
}

} // verus!
