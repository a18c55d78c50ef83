//! The per-snapshot summary record and the pipeline helpers around it:
//! computing all metrics of one snapshot, and restoring chronological
//! order over collected results.

use vstd::prelude::*;
use vstd::multiset::Multiset;
use crate::model::OvhData;
use crate::stats::OvhNodeFilter;
use crate::stats::node_count;
use crate::stats::raw_link_sum;
use crate::stats::spec_nb_links;
use crate::stats::routers_imbalance;
use crate::stats::routers_group_sizes;
use crate::stats::routers_loads;
use crate::stats::lemma_node_count_bounds;
use crate::stats::lemma_raw_link_sum_nonneg;
use crate::stats::lemma_raw_link_sum_le_all;
use crate::stats::lemma_raw_link_sum_take_le;
use crate::stats::lemma_peers_link_sum_nonneg;
use crate::stats::lemma_peers_take_le;
use crate::stats::peers_link_sum;

verus! {

/// The computed summary of one snapshot: node and link counts and the
/// ECMP statistics vectors, each for the three filters.  Created once per
/// snapshot and immutable afterwards.
#[derive(Debug)]
pub struct ExperimentResults {
    pub timestamp: i64,
    pub nb_nodes: i64,
    pub nb_nodes_ovh: i64,
    pub nb_nodes_external: i64,
    pub nb_links: i64,
    pub nb_links_ovh: i64,
    pub nb_links_external: i64,
    pub ecmp_diffs: Vec<u64>,
    pub ecmp_diffs_ovh: Vec<u64>,
    pub ecmp_diffs_external: Vec<u64>,
    pub loads: Vec<u64>,
    pub loads_ovh: Vec<u64>,
    pub loads_external: Vec<u64>,
    pub nb_ecmp_links: Vec<u64>,
    pub nb_ecmp_links_ovh: Vec<u64>,
    pub nb_ecmp_links_external: Vec<u64>,
}

#[verifier::ext_equal]
pub struct ExperimentResultsV {
    pub timestamp: i64,
    pub nb_nodes: i64,
    pub nb_nodes_ovh: i64,
    pub nb_nodes_external: i64,
    pub nb_links: i64,
    pub nb_links_ovh: i64,
    pub nb_links_external: i64,
    pub ecmp_diffs: Seq<u64>,
    pub ecmp_diffs_ovh: Seq<u64>,
    pub ecmp_diffs_external: Seq<u64>,
    pub loads: Seq<u64>,
    pub loads_ovh: Seq<u64>,
    pub loads_external: Seq<u64>,
    pub nb_ecmp_links: Seq<u64>,
    pub nb_ecmp_links_ovh: Seq<u64>,
    pub nb_ecmp_links_external: Seq<u64>,
}

impl View for ExperimentResults {
    type V = ExperimentResultsV;

    open spec fn view(&self) -> ExperimentResultsV {
        ExperimentResultsV {
            timestamp: self.timestamp,
            nb_nodes: self.nb_nodes,
            nb_nodes_ovh: self.nb_nodes_ovh,
            nb_nodes_external: self.nb_nodes_external,
            nb_links: self.nb_links,
            nb_links_ovh: self.nb_links_ovh,
            nb_links_external: self.nb_links_external,
            ecmp_diffs: self.ecmp_diffs@,
            ecmp_diffs_ovh: self.ecmp_diffs_ovh@,
            ecmp_diffs_external: self.ecmp_diffs_external@,
            loads: self.loads@,
            loads_ovh: self.loads_ovh@,
            loads_external: self.loads_external@,
            nb_ecmp_links: self.nb_ecmp_links@,
            nb_ecmp_links_ovh: self.nb_ecmp_links_ovh@,
            nb_ecmp_links_external: self.nb_ecmp_links_external@,
        }
    }
}

impl Default for ExperimentResults {
    /// The all-zero summary at the epoch.
    fn default() -> (r: ExperimentResults)
        ensures
            r@.timestamp == 0,
            r@.nb_nodes == 0 && r@.nb_nodes_ovh == 0 && r@.nb_nodes_external == 0,
            r@.nb_links == 0 && r@.nb_links_ovh == 0 && r@.nb_links_external == 0,
            r@.ecmp_diffs.len() == 0 && r@.ecmp_diffs_ovh.len() == 0
                && r@.ecmp_diffs_external.len() == 0,
            r@.loads.len() == 0 && r@.loads_ovh.len() == 0 && r@.loads_external.len() == 0,
            r@.nb_ecmp_links.len() == 0 && r@.nb_ecmp_links_ovh.len() == 0
                && r@.nb_ecmp_links_external.len() == 0,
    {
        ExperimentResults {
            timestamp: 0,
            nb_nodes: 0,
            nb_nodes_ovh: 0,
            nb_nodes_external: 0,
            nb_links: 0,
            nb_links_ovh: 0,
            nb_links_external: 0,
            ecmp_diffs: Vec::new(),
            ecmp_diffs_ovh: Vec::new(),
            ecmp_diffs_external: Vec::new(),
            loads: Vec::new(),
            loads_ovh: Vec::new(),
            loads_external: Vec::new(),
            nb_ecmp_links: Vec::new(),
            nb_ecmp_links_ovh: Vec::new(),
            nb_ecmp_links_external: Vec::new(),
        }
    }
}

impl ExperimentResults {
    /// The node count the filter selects.
    pub fn nb_nodes_of(&self, ovh_nodes: OvhNodeFilter) -> (r: i64)
        ensures
            r == match ovh_nodes {
                OvhNodeFilter::Ovh => self@.nb_nodes_ovh,
                OvhNodeFilter::External => self@.nb_nodes_external,
                OvhNodeFilter::All => self@.nb_nodes,
            },
    {
        match ovh_nodes {
            OvhNodeFilter::Ovh => self.nb_nodes_ovh,
            OvhNodeFilter::External => self.nb_nodes_external,
            OvhNodeFilter::All => self.nb_nodes,
        }
    }

    /// The link count the filter selects.
    pub fn nb_links_of(&self, ovh_nodes: OvhNodeFilter) -> (r: i64)
        ensures
            r == match ovh_nodes {
                OvhNodeFilter::Ovh => self@.nb_links_ovh,
                OvhNodeFilter::External => self@.nb_links_external,
                OvhNodeFilter::All => self@.nb_links,
            },
    {
        match ovh_nodes {
            OvhNodeFilter::Ovh => self.nb_links_ovh,
            OvhNodeFilter::External => self.nb_links_external,
            OvhNodeFilter::All => self.nb_links,
        }
    }

    /// The imbalance samples the filter selects.
    pub fn ecmp_diffs_of(&self, ovh_nodes: OvhNodeFilter) -> (r: &Vec<u64>)
        ensures
            r@ == match ovh_nodes {
                OvhNodeFilter::Ovh => self@.ecmp_diffs_ovh,
                OvhNodeFilter::External => self@.ecmp_diffs_external,
                OvhNodeFilter::All => self@.ecmp_diffs,
            },
    {
        match ovh_nodes {
            OvhNodeFilter::Ovh => &self.ecmp_diffs_ovh,
            OvhNodeFilter::External => &self.ecmp_diffs_external,
            OvhNodeFilter::All => &self.ecmp_diffs,
        }
    }

    /// The link-load samples the filter selects.
    pub fn loads_of(&self, ovh_nodes: OvhNodeFilter) -> (r: &Vec<u64>)
        ensures
            r@ == match ovh_nodes {
                OvhNodeFilter::Ovh => self@.loads_ovh,
                OvhNodeFilter::External => self@.loads_external,
                OvhNodeFilter::All => self@.loads,
            },
    {
        match ovh_nodes {
            OvhNodeFilter::Ovh => &self.loads_ovh,
            OvhNodeFilter::External => &self.loads_external,
            OvhNodeFilter::All => &self.loads,
        }
    }

    /// The ECMP group sizes the filter selects.
    pub fn nb_ecmp_links_of(&self, ovh_nodes: OvhNodeFilter) -> (r: &Vec<u64>)
        ensures
            r@ == match ovh_nodes {
                OvhNodeFilter::Ovh => self@.nb_ecmp_links_ovh,
                OvhNodeFilter::External => self@.nb_ecmp_links_external,
                OvhNodeFilter::All => self@.nb_ecmp_links,
            },
    {
        match ovh_nodes {
            OvhNodeFilter::Ovh => &self.nb_ecmp_links_ovh,
            OvhNodeFilter::External => &self.nb_ecmp_links_external,
            OvhNodeFilter::All => &self.nb_ecmp_links,
        }
    }
}

/// The snapshot's sizes stay in the range the metric computation needs.
pub open spec fn fits(s: crate::model::OvhDataV) -> bool {
    &&& raw_link_sum(s.routers, OvhNodeFilter::All) <= i64::MAX
    &&& s.routers.len() <= i64::MAX
}

impl OvhData {
    /// Decides `fits` at run time, so that a caller holding an arbitrary
    /// snapshot can test the precondition of `compute_metrics`.
    pub fn fits_check(&self) -> (b: bool)
        ensures
            b == fits(self@),
    {
        let ghost rs = self@.routers;
        if !((self.data.len() as u64) <= 0x7fff_ffff_ffff_ffffu64) {
            return false;
        }
        let mut total: u128 = 0;
        let n = self.data.len();
        let mut i: usize = 0;
        while i < n
            invariant
                0 <= i <= n,
                n == self.data.len(),
                rs == self@.routers,
                total as int == raw_link_sum(rs.take(i as int), OvhNodeFilter::All),
                total <= i64::MAX,
            decreases n - i,
        {
            let r = &self.data[i];
            proof {
                assert(rs.take(i + 1).drop_last() =~= rs.take(i as int));
                assert(rs.take(i + 1).last() == rs[i as int]);
                assert(rs[i as int] == r@);
            }
            let ghost ps = r@.peers;
            let m = r.peers.len();
            let mut k: usize = 0;
            while k < m
                invariant
                    0 <= k <= m,
                    m == r.peers.len(),
                    ps == r@.peers,
                    rs == self@.routers,
                    0 <= i < rs.len(),
                    rs[i as int] == r@,
                    total as int == raw_link_sum(rs.take(i as int), OvhNodeFilter::All)
                        + peers_link_sum(ps.take(k as int), OvhNodeFilter::All),
                    raw_link_sum(rs.take(i as int), OvhNodeFilter::All) >= 0,
                    peers_link_sum(ps.take(k as int), OvhNodeFilter::All) >= 0,
                    total <= 0x7fff_ffff_ffff_ffffu128,
                decreases m - k,
            {
                let p = &r.peers[k];
                proof {
                    assert(ps.take(k + 1).drop_last() =~= ps.take(k as int));
                    assert(ps.take(k + 1).last() == ps[k as int]);
                    assert(ps[k as int] == p@);
                    assert(p@.links.len() == p.links@.len());
                    lemma_raw_link_sum_nonneg(rs.take(i as int), OvhNodeFilter::All);
                    lemma_peers_link_sum_nonneg(ps.take(k + 1), OvhNodeFilter::All);
                    lemma_peers_link_sum_nonneg(ps.take(k as int), OvhNodeFilter::All);
                }
                total = total + (p.links.len() as u128);
                if total > 0x7fff_ffff_ffff_ffffu128 {
                    proof {
                        // the partial sum already exceeds the bound, so the
                        // whole sum does too
                        lemma_peers_take_le(ps, OvhNodeFilter::All, k + 1);
                        lemma_raw_link_sum_take_le(rs, OvhNodeFilter::All, i + 1);
                        assert(rs.take(i + 1).drop_last() =~= rs.take(i as int));
                        assert(rs.take(i + 1).last() == rs[i as int]);
                        lemma_peers_link_sum_nonneg(ps, OvhNodeFilter::All);
                    }
                    return false;
                }
                k += 1;
            }
            proof {
                assert(ps.take(m as int) =~= ps);
                assert(rs.take(i + 1).drop_last() =~= rs.take(i as int));
                assert(rs.take(i + 1).last() == rs[i as int]);
            }
            i += 1;
        }
        proof {
            assert(rs.take(n as int) =~= rs);
        }
        true
    }

    /// Packages every metric of this snapshot, for all three filters,
    /// into one summary record.  The internal link count is derived as
    /// the unfiltered count minus the external one, matching the export
    /// convention of the collection pipeline.
    pub fn compute_metrics(&self) -> (r: ExperimentResults)
        requires
            fits(self@),
        ensures
            r@.timestamp == self@.timestamp,
            r@.nb_nodes == node_count(self@.routers, OvhNodeFilter::All),
            r@.nb_nodes_ovh == node_count(self@.routers, OvhNodeFilter::Ovh),
            r@.nb_nodes_external == node_count(self@.routers, OvhNodeFilter::External),
            r@.nb_links == spec_nb_links(self@, OvhNodeFilter::All),
            r@.nb_links_external == spec_nb_links(self@, OvhNodeFilter::External),
            r@.nb_links_ovh == spec_nb_links(self@, OvhNodeFilter::All) - spec_nb_links(
                self@,
                OvhNodeFilter::External,
            ),
            r@.ecmp_diffs == routers_imbalance(self@.routers, OvhNodeFilter::All),
            r@.ecmp_diffs_ovh == routers_imbalance(self@.routers, OvhNodeFilter::Ovh),
            r@.ecmp_diffs_external == routers_imbalance(self@.routers, OvhNodeFilter::External),
            r@.loads == routers_loads(self@.routers, OvhNodeFilter::All),
            r@.loads_ovh == routers_loads(self@.routers, OvhNodeFilter::Ovh),
            r@.loads_external == routers_loads(self@.routers, OvhNodeFilter::External),
            r@.nb_ecmp_links == routers_group_sizes(self@.routers, OvhNodeFilter::All),
            r@.nb_ecmp_links_ovh == routers_group_sizes(self@.routers, OvhNodeFilter::Ovh),
            r@.nb_ecmp_links_external == routers_group_sizes(
                self@.routers,
                OvhNodeFilter::External,
            ),
    {
        proof {
            lemma_node_count_bounds(self@.routers, OvhNodeFilter::All);
            lemma_node_count_bounds(self@.routers, OvhNodeFilter::Ovh);
            lemma_node_count_bounds(self@.routers, OvhNodeFilter::External);
            lemma_raw_link_sum_nonneg(self@.routers, OvhNodeFilter::All);
            lemma_raw_link_sum_nonneg(self@.routers, OvhNodeFilter::External);
            lemma_raw_link_sum_le_all(self@.routers, OvhNodeFilter::External);
            vstd::arithmetic::div_mod::lemma_div_is_ordered(
                raw_link_sum(self@.routers, OvhNodeFilter::All),
                i64::MAX as int,
                2,
            );
        }
        let nb_nodes = self.get_nb_nodes(OvhNodeFilter::All) as i64;
        let nb_nodes_ovh = self.get_nb_nodes(OvhNodeFilter::Ovh) as i64;
        let nb_nodes_external = self.get_nb_nodes(OvhNodeFilter::External) as i64;
        let nb_links = self.get_nb_links(OvhNodeFilter::All) as i64;
        let nb_links_external = self.get_nb_links(OvhNodeFilter::External) as i64;
        let nb_links_ovh = nb_links - nb_links_external;
        let ecmp_diffs = self.get_ecmp_imbalance(OvhNodeFilter::All);
        let ecmp_diffs_ovh = self.get_ecmp_imbalance(OvhNodeFilter::Ovh);
        let ecmp_diffs_external = self.get_ecmp_imbalance(OvhNodeFilter::External);
        let loads = self.get_link_loads(OvhNodeFilter::All);
        let loads_ovh = self.get_link_loads(OvhNodeFilter::Ovh);
        let loads_external = self.get_link_loads(OvhNodeFilter::External);
        let nb_ecmp_links = self.get_nb_ecmp_links(OvhNodeFilter::All);
        let nb_ecmp_links_ovh = self.get_nb_ecmp_links(OvhNodeFilter::Ovh);
        let nb_ecmp_links_external = self.get_nb_ecmp_links(OvhNodeFilter::External);
        ExperimentResults {
            timestamp: self.timestamp,
            nb_nodes,
            nb_nodes_ovh,
            nb_nodes_external,
            nb_links,
            nb_links_ovh,
            nb_links_external,
            ecmp_diffs,
            ecmp_diffs_ovh,
            ecmp_diffs_external,
            loads,
            loads_ovh,
            loads_external,
            nb_ecmp_links,
            nb_ecmp_links_ovh,
            nb_ecmp_links_external,
        }
    }
}

/// Nondecreasing by timestamp.
pub open spec fn results_sorted(s: Seq<ExperimentResultsV>) -> bool {
    forall|i: int, j: int| 0 <= i <= j < s.len() ==> s[i].timestamp <= s[j].timestamp
}

/// Sorts collected summaries by timestamp; completion order of the
/// workers carries no meaning, so the collector restores chronological
/// order here.  The output is a permutation of the input.
pub fn sort_results(results: Vec<ExperimentResults>) -> (r: Vec<ExperimentResults>)
    ensures
        results_sorted(r@.map_values(|x: ExperimentResults| x@)),
        r@.map_values(|x: ExperimentResults| x@).to_multiset() == results@.map_values(
            |x: ExperimentResults| x@,
        ).to_multiset(),
{
    broadcast use vstd::seq_lib::group_to_multiset_ensures;

    let ghost orig = results@.map_values(|x: ExperimentResults| x@);
    let mut rest = results;
    let mut out: Vec<ExperimentResults> = Vec::new();
    while rest.len() > 0
        invariant
            out@.map_values(|x: ExperimentResults| x@).to_multiset().add(
                rest@.map_values(|x: ExperimentResults| x@).to_multiset(),
            ) =~= orig.to_multiset(),
            results_sorted(out@.map_values(|x: ExperimentResults| x@)),
            forall|a: int, b: int|
                0 <= a < out@.len() && 0 <= b < rest@.len() ==> (#[trigger] out@[a])@.timestamp
                    <= (#[trigger] rest@[b])@.timestamp,
        decreases rest.len(),
    {
        let ghost rv = rest@.map_values(|x: ExperimentResults| x@);
        let ghost ov = out@.map_values(|x: ExperimentResults| x@);
        let n = rest.len();
        let mut mi: usize = 0;
        let mut k: usize = 1;
        while k < n
            invariant
                0 <= mi < k <= n,
                n == rest.len(),
                rv == rest@.map_values(|x: ExperimentResults| x@),
                forall|j: int| 0 <= j < k ==> rv[mi as int].timestamp <= rv[j].timestamp,
            decreases n - k,
        {
            if rest[k].timestamp < rest[mi].timestamp {
                mi = k;
            }
            k += 1;
        }
        let x = rest.remove(mi);
        out.push(x);
        proof {
            rv.to_multiset_ensures();
            ov.to_multiset_ensures();
            assert(rv[mi as int] == x@);
            assert(rv.contains(x@));
            assert(rest@.map_values(|x: ExperimentResults| x@) =~= rv.remove(mi as int));
            assert(out@.map_values(|x: ExperimentResults| x@) =~= ov.push(x@));
            vstd::seq_lib::to_multiset_remove(rv, mi as int);
            vstd::seq_lib::to_multiset_build(ov, x@);
            assert(rv.to_multiset().count(x@) > 0);
            assert(ov.to_multiset().insert(x@).add(rv.to_multiset().remove(x@)) =~= ov.to_multiset()
                .add(rv.to_multiset()));
            assert forall|a: int, b: int|
                0 <= a < out@.len() && 0 <= b < rest@.len() implies (#[trigger] out@[a])@.timestamp
                <= (#[trigger] rest@[b])@.timestamp by {
                assert(out@[a]@ == ov.push(x@)[a]);
                assert(rest@[b]@ == rv.remove(mi as int)[b]);
                let rr = rv.remove(mi as int);
                assert(rr[b] == if b < mi as int {
                    rv[b]
                } else {
                    rv[b + 1]
                });
                if a < ov.len() {
                    assert(ov[a] == out@[a]@);
                } else {
                    assert(ov.push(x@)[a] == x@);
                }
            }
        }
    }
    proof {
        assert(rest@.map_values(|x: ExperimentResults| x@).to_multiset() =~= Multiset::empty());
        assert(out@.map_values(|x: ExperimentResults| x@).to_multiset().add(
            Multiset::<ExperimentResultsV>::empty(),
        ) =~= out@.map_values(|x: ExperimentResults| x@).to_multiset());
    }
    out
}

} // verus!
