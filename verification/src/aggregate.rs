//! Grouping a chronological sequence of snapshot summaries into
//! calendar-month buckets, with an explicit empty bucket for every month
//! inside a data gap.
//!
//! Buckets hold indices into the summary sequence, so no summary is ever
//! copied.  The anchor of a bucket with members is the date of its first
//! member; the anchor of a gap bucket is the first day of its month.

use vstd::prelude::*;
use crate::calendar::Date;
use crate::calendar::date_of_timestamp;
use crate::calendar::day_number_of_timestamp;
use crate::calendar::days_from_civil;
use crate::calendar::spec_civil_from_days;
use crate::calendar::spec_day_number;
use crate::calendar::spec_days_from_civil;
use crate::calendar::spec_next_month;
use crate::calendar::lemma_civil_ranges;
use crate::calendar::lemma_days_bounds;
use crate::calendar::lemma_days_next_month;
use crate::metrics::ExperimentResults;
use crate::metrics::ExperimentResultsV;
use crate::stats::OvhNodeFilter;

verus! {

/// One calendar month of the output: its anchor date and the indices of
/// the summaries that fall into it, in input order.
#[derive(Debug)]
pub struct MonthBucket {
    pub month_start: Date,
    pub members: Vec<usize>,
}

#[verifier::ext_equal]
pub struct MonthBucketV {
    pub month_start: Date,
    pub members: Seq<usize>,
}

impl View for MonthBucket {
    type V = MonthBucketV;

    open spec fn view(&self) -> MonthBucketV {
        MonthBucketV { month_start: self.month_start, members: self.members@ }
    }
}

/// The civil date of one summary's timestamp.
pub open spec fn date_of_result(x: ExperimentResultsV) -> (int, int, int) {
    spec_civil_from_days(spec_day_number(x.timestamp as int))
}

/// The date lies in the month of the civil triple.
pub open spec fn same_month(d: Date, c: (int, int, int)) -> bool {
    d.year as int == c.0 && d.month as int == c.1
}

/// The date is exactly the civil triple.
pub open spec fn date_matches(d: Date, c: (int, int, int)) -> bool {
    d.year as int == c.0 && d.month as int == c.1 && d.day as int == c.2
}

/// All member indices of the buckets, in output order.
pub open spec fn flatten_members(bs: Seq<MonthBucketV>) -> Seq<usize>
    decreases bs.len(),
{
    if bs.len() == 0 {
        Seq::empty()
    } else {
        flatten_members(bs.drop_last()) + bs.last().members
    }
}

/// The sequence `0, 1, .., n - 1`.
pub open spec fn index_seq(n: int) -> Seq<usize> {
    Seq::new(n as nat, |q: int| q as usize)
}

/// A bucket's members all lie in its month, and its anchor is the exact
/// date of its first member.
pub open spec fn bucket_ok(b: MonthBucketV, data: Seq<ExperimentResultsV>) -> bool {
    &&& forall|j: int| 0 <= j < b.members.len() ==> (#[trigger] b.members[j]) < data.len()
        && same_month(b.month_start, date_of_result(data[b.members[j] as int]))
    &&& b.members.len() > 0 ==> date_matches(
        b.month_start,
        date_of_result(data[b.members[0] as int]),
    )
}

/// Every bucket is well-formed, and every empty (gap) bucket sits right
/// after its predecessor, anchored at the first day of the next month.
pub open spec fn buckets_ok(bs: Seq<MonthBucketV>, data: Seq<ExperimentResultsV>) -> bool {
    &&& forall|k: int| 0 <= k < bs.len() ==> bucket_ok(#[trigger] bs[k], data)
    &&& forall|k: int| 0 <= k < bs.len() && (#[trigger] bs[k]).members.len() == 0 ==> k >= 1
        && bs[k].month_start.day == 1
        && (bs[k].month_start.year as int, bs[k].month_start.month as int) == spec_next_month(
            bs[k - 1].month_start.year as int,
            bs[k - 1].month_start.month as int,
        )
}

/// Day number of a summary's timestamp.
pub open spec fn day_of_result(x: ExperimentResultsV) -> int {
    spec_day_number(x.timestamp as int)
}

/// Two consecutive buckets that both hold data start within 33 days of
/// each other: a wider gap always shows as interposed empty month
/// buckets between them.
pub open spec fn buckets_gap_ok(bs: Seq<MonthBucketV>, data: Seq<ExperimentResultsV>) -> bool {
    forall|k: int|
        1 <= k < bs.len() && (#[trigger] bs[k]).members.len() > 0 && bs[k - 1].members.len() > 0
            ==> day_of_result(data[bs[k].members[0] as int]) - day_of_result(
            data[bs[k - 1].members[0] as int],
        ) < 33
}

proof fn lemma_flatten_members_push(bs: Seq<MonthBucketV>, b: MonthBucketV)
    ensures
        flatten_members(bs.push(b)) == flatten_members(bs) + b.members,
{
    assert(bs.push(b).drop_last() =~= bs);
    assert(bs.push(b).last() == b);
}

/// Groups a non-empty, timestamp-sorted summary sequence into month
/// buckets: members are assigned in order, a new bucket opens on a month
/// change, and a month inside a data gap gets an empty bucket of its own.
#[verifier::rlimit(100)]
pub fn aggregate_by_time(all_data: &Vec<ExperimentResults>) -> (r: Vec<MonthBucket>)
    requires
        all_data@.len() > 0,
        forall|q: int| 0 <= q < all_data@.len() ==> 0 <= (#[trigger] all_data@[q])@.timestamp
            <= crate::TS_MAX,
        forall|a: int, b: int| 0 <= a <= b < all_data@.len() ==> (#[trigger] all_data@[a])@.timestamp
            <= (#[trigger] all_data@[b])@.timestamp,
    ensures
        r@.len() >= 1,
        flatten_members(r@.map_values(|b: MonthBucket| b@)) == index_seq(all_data@.len() as int),
        buckets_ok(
            r@.map_values(|b: MonthBucket| b@),
            all_data@.map_values(|x: ExperimentResults| x@),
        ),
        buckets_gap_ok(
            r@.map_values(|b: MonthBucket| b@),
            all_data@.map_values(|x: ExperimentResults| x@),
        ),
        r@[r@.len() - 1]@.members.len() > 0,
{
    let ghost dv = all_data@.map_values(|x: ExperimentResults| x@);
    let n = all_data.len();
    let ts0 = all_data[0].timestamp;
    proof {
        assert(dv[0] == all_data@[0]@);
    }
    let mut anchor = date_of_timestamp(ts0);
    let mut anchor_days = day_number_of_timestamp(ts0);
    proof {
        lemma_civil_ranges(spec_day_number(ts0 as int));
    }
    let mut cur: Vec<usize> = Vec::new();
    let mut out: Vec<MonthBucket> = Vec::new();
    let mut i: usize = 0;
    while i < n
        invariant
            0 < n == all_data.len(),
            0 <= i <= n,
            dv == all_data@.map_values(|x: ExperimentResults| x@),
            forall|q: int| 0 <= q < dv.len() ==> 0 <= (#[trigger] dv[q]).timestamp <= crate::TS_MAX,
            flatten_members(out@.map_values(|b: MonthBucket| b@)) + cur@ == index_seq(i as int),
            buckets_ok(out@.map_values(|b: MonthBucket| b@), dv),
            buckets_gap_ok(out@.map_values(|b: MonthBucket| b@), dv),
            forall|j: int| 0 <= j < cur@.len() ==> (#[trigger] cur@[j]) < dv.len()
                && same_month(anchor, date_of_result(dv[cur@[j] as int])),
            cur@.len() > 0 ==> date_matches(anchor, date_of_result(dv[cur@[0] as int]))
                && anchor_days as int == day_of_result(dv[cur@[0] as int]),
            cur@.len() == 0 ==> i == 0 && out@.len() == 0
                && date_matches(anchor, date_of_result(dv[0]))
                && anchor_days as int == day_of_result(dv[0]),
            cur@.len() > 0 && out@.len() > 0 && out@[out@.len() - 1]@.members.len() > 0
                ==> day_of_result(dv[cur@[0] as int]) - day_of_result(
                dv[out@[out@.len() - 1]@.members[0] as int],
            ) < 33,
            i > 0 ==> cur@.len() > 0,
            1 <= anchor.year <= 220000,
            1 <= anchor.month <= 220000,
            -719468 <= anchor_days <= 200000000,
        decreases n - i,
    {
        let x = &all_data[i];
        proof {
            assert(dv[i as int] == x@);
        }
        let ts = x.timestamp;
        let d = date_of_timestamp(ts);
        let z = day_number_of_timestamp(ts);
        proof {
            lemma_civil_ranges(spec_day_number(ts as int));
        }
        if d.year == anchor.year && d.month == anchor.month {
            let ghost curv = cur@;
            cur.push(i);
            proof {
                assert(index_seq(i + 1) =~= index_seq(i as int).push(i as usize));
                assert(flatten_members(out@.map_values(|b: MonthBucket| b@)) + curv.push(i as usize)
                    =~= (flatten_members(out@.map_values(|b: MonthBucket| b@)) + curv).push(
                    i as usize,
                ));
                assert(same_month(anchor, date_of_result(dv[i as int])));
                if curv.len() == 0 {
                    assert(cur@[0] == i as usize);
                    assert(i == 0);
                } else {
                    assert(cur@[0] == curv[0]);
                }
            }
            i += 1;
        } else {
            proof {
                // an empty accumulating bucket only exists before the very
                // first summary is placed, whose month matches the anchor
                if cur@.len() == 0 {
                    assert(i == 0);
                    assert(date_matches(anchor, date_of_result(dv[0])));
                    assert(false);
                }
            }
            let ghost outv = out@.map_values(|b: MonthBucket| b@);
            let ghost curv = cur@;
            let closing = MonthBucket { month_start: anchor, members: cur };
            out.push(closing);
            cur = Vec::new();
            let ghost outv1 = out@.map_values(|b: MonthBucket| b@);
            proof {
                let pushed = MonthBucketV { month_start: anchor, members: curv };
                assert(outv1 =~~= outv.push(pushed));
                lemma_flatten_members_push(outv, pushed);
                assert(flatten_members(outv1) + cur@ =~= index_seq(i as int));
                assert forall|k: int| 0 <= k < outv1.len() implies bucket_ok(
                    #[trigger] outv1[k],
                    dv,
                ) by {
                    if k < outv.len() {
                        assert(outv1[k] == outv[k]);
                    } else {
                        assert(outv1[k] == pushed);
                    }
                }
                assert forall|k: int|
                    0 <= k < outv1.len() && (#[trigger] outv1[k]).members.len() == 0 implies k >= 1
                    && outv1[k].month_start.day == 1
                    && (outv1[k].month_start.year as int, outv1[k].month_start.month as int)
                        == spec_next_month(
                        outv1[k - 1].month_start.year as int,
                        outv1[k - 1].month_start.month as int,
                    ) by {
                    assert(outv1[k] == outv[k]);
                    if k >= 1 {
                        assert(outv1[k - 1] == outv[k - 1]);
                    }
                }
                assert forall|k: int|
                    1 <= k < outv1.len() && (#[trigger] outv1[k]).members.len() > 0
                    && outv1[k - 1].members.len() > 0 implies day_of_result(
                    dv[outv1[k].members[0] as int],
                ) - day_of_result(dv[outv1[k - 1].members[0] as int]) < 33 by {
                    if k < outv.len() {
                        assert(outv1[k] == outv[k]);
                        assert(outv1[k - 1] == outv[k - 1]);
                    } else {
                        assert(outv1[k] == pushed);
                        assert(outv1[k - 1] == outv[outv.len() - 1]);
                        assert(pushed.members[0] == curv[0]);
                    }
                }
            }
            if z - anchor_days < 33 {
                // the next month has data at once: open its bucket seeded
                // with this summary
                anchor = d;
                anchor_days = z;
                cur.push(i);
                proof {
                    assert(cur@ =~= Seq::<usize>::empty().push(i as usize));
                    assert(flatten_members(outv1) + cur@ =~= index_seq(i + 1));
                    assert(date_matches(anchor, date_of_result(dv[i as int])));
                    assert(anchor_days as int == day_of_result(dv[i as int]));
                    // the data follows its predecessor bucket closely
                    assert(out@[out@.len() - 1]@.members == curv);
                    assert(day_of_result(dv[i as int]) - day_of_result(dv[curv[0] as int]) < 33);
                }
                i += 1;
            } else {
                // a true gap: one empty bucket for each skipped month
                let ghost prev_anchor = anchor;
                let stepped = if anchor.month == 12 {
                    Date { year: anchor.year + 1, month: 1, day: 1 }
                } else {
                    Date { year: anchor.year, month: anchor.month + 1, day: 1 }
                };
                anchor = stepped;
                anchor_days = days_from_civil(anchor.year, anchor.month, 1);
                proof {
                    lemma_days_bounds(anchor.year as int, anchor.month as int, 1);
                }
                let ghost outv2 = out@.map_values(|b: MonthBucket| b@);
                out.push(MonthBucket { month_start: anchor, members: Vec::new() });
                proof {
                    let pushed = MonthBucketV { month_start: anchor, members: Seq::empty() };
                    assert(out@.map_values(|b: MonthBucket| b@) =~~= outv2.push(pushed));
                    lemma_flatten_members_push(outv2, pushed);
                    assert(flatten_members(outv2.push(pushed)) =~= flatten_members(outv2));
                    assert(outv2[outv2.len() - 1].month_start == prev_anchor);
                    assert forall|k: int| 0 <= k < outv2.push(pushed).len() implies bucket_ok(
                        #[trigger] outv2.push(pushed)[k],
                        dv,
                    ) by {
                        if k < outv2.len() {
                            assert(outv2.push(pushed)[k] == outv2[k]);
                        }
                    }
                    assert forall|k: int|
                        0 <= k < outv2.push(pushed).len()
                        && (#[trigger] outv2.push(pushed)[k]).members.len() == 0 implies k >= 1
                        && outv2.push(pushed)[k].month_start.day == 1
                        && (outv2.push(pushed)[k].month_start.year as int, outv2.push(
                        pushed,
                    )[k].month_start.month as int) == spec_next_month(
                        outv2.push(pushed)[k - 1].month_start.year as int,
                        outv2.push(pushed)[k - 1].month_start.month as int,
                    ) by {
                        if k < outv2.len() {
                            assert(outv2.push(pushed)[k] == outv2[k]);
                            if k >= 1 {
                                assert(outv2.push(pushed)[k - 1] == outv2[k - 1]);
                            }
                        } else {
                            assert(outv2.push(pushed)[k - 1] == outv2[k - 1]);
                        }
                    }
                    assert forall|k: int|
                        1 <= k < outv2.push(pushed).len()
                        && (#[trigger] outv2.push(pushed)[k]).members.len() > 0
                        && outv2.push(pushed)[k - 1].members.len() > 0 implies day_of_result(
                        dv[outv2.push(pushed)[k].members[0] as int],
                    ) - day_of_result(dv[outv2.push(pushed)[k - 1].members[0] as int]) < 33 by {
                        assert(pushed.members.len() == 0);
                        assert(k < outv2.len());
                        assert(outv2.push(pushed)[k] == outv2[k]);
                        assert(outv2.push(pushed)[k - 1] == outv2[k - 1]);
                    }
                }
                let ghost mut fuel: int = 200000;
                while z - anchor_days >= 33
                    invariant
                        0 <= fuel,
                        28 * fuel >= z - anchor_days - 32,
                        anchor.day == 1,
                        anchor_days as int == spec_days_from_civil(
                            anchor.year as int,
                            anchor.month as int,
                            1,
                        ),
                        1 <= anchor.year <= 13000 + (200000 - fuel),
                        1 <= anchor.month <= 7000 + (200000 - fuel),
                        -719468 <= anchor_days <= 200000000,
                        0 <= z <= 2932896,
                        out@.len() > 0,
                        out@[out@.len() - 1]@.month_start == anchor,
                        out@[out@.len() - 1]@.members.len() == 0,
                        flatten_members(out@.map_values(|b: MonthBucket| b@)) == index_seq(i as int),
                        buckets_ok(out@.map_values(|b: MonthBucket| b@), dv),
                        buckets_gap_ok(out@.map_values(|b: MonthBucket| b@), dv),
                    decreases fuel,
                {
                    proof {
                        assert(28 * fuel >= 1);
                        assert(fuel >= 1);
                        lemma_days_next_month(anchor.year as int, anchor.month as int);
                    }
                    let ghost prev2 = anchor;
                    let stepped2 = if anchor.month == 12 {
                        Date { year: anchor.year + 1, month: 1, day: 1 }
                    } else {
                        Date { year: anchor.year, month: anchor.month + 1, day: 1 }
                    };
                    anchor = stepped2;
                    anchor_days = days_from_civil(anchor.year, anchor.month, 1);
                    proof {
                        lemma_days_bounds(anchor.year as int, anchor.month as int, 1);
                    }
                    let ghost outv3 = out@.map_values(|b: MonthBucket| b@);
                    out.push(MonthBucket { month_start: anchor, members: Vec::new() });
                    proof {
                        let pushed = MonthBucketV { month_start: anchor, members: Seq::empty() };
                        assert(out@.map_values(|b: MonthBucket| b@) =~~= outv3.push(pushed));
                        lemma_flatten_members_push(outv3, pushed);
                        assert(flatten_members(outv3.push(pushed)) =~= flatten_members(outv3));
                        assert(outv3[outv3.len() - 1].month_start == prev2);
                        assert forall|k: int| 0 <= k < outv3.push(pushed).len() implies bucket_ok(
                            #[trigger] outv3.push(pushed)[k],
                            dv,
                        ) by {
                            if k < outv3.len() {
                                assert(outv3.push(pushed)[k] == outv3[k]);
                            }
                        }
                        assert forall|k: int|
                            0 <= k < outv3.push(pushed).len()
                            && (#[trigger] outv3.push(pushed)[k]).members.len() == 0 implies k >= 1
                            && outv3.push(pushed)[k].month_start.day == 1
                            && (outv3.push(pushed)[k].month_start.year as int, outv3.push(
                            pushed,
                        )[k].month_start.month as int) == spec_next_month(
                            outv3.push(pushed)[k - 1].month_start.year as int,
                            outv3.push(pushed)[k - 1].month_start.month as int,
                        ) by {
                            if k < outv3.len() {
                                assert(outv3.push(pushed)[k] == outv3[k]);
                                if k >= 1 {
                                    assert(outv3.push(pushed)[k - 1] == outv3[k - 1]);
                                }
                            } else {
                                assert(outv3.push(pushed)[k - 1] == outv3[k - 1]);
                            }
                        }
                        assert forall|k: int|
                            1 <= k < outv3.push(pushed).len()
                            && (#[trigger] outv3.push(pushed)[k]).members.len() > 0
                            && outv3.push(pushed)[k - 1].members.len() > 0 implies day_of_result(
                            dv[outv3.push(pushed)[k].members[0] as int],
                        ) - day_of_result(dv[outv3.push(pushed)[k - 1].members[0] as int]) < 33 by {
                            assert(pushed.members.len() == 0);
                            assert(k < outv3.len());
                            assert(outv3.push(pushed)[k] == outv3[k]);
                            assert(outv3.push(pushed)[k - 1] == outv3[k - 1]);
                        }
                        fuel = fuel - 1;
                    }
                }
                // the pending summary now opens its own bucket
                anchor = d;
                anchor_days = z;
                cur.push(i);
                proof {
                    assert(cur@ =~= Seq::<usize>::empty().push(i as usize));
                    assert(flatten_members(out@.map_values(|b: MonthBucket| b@)) + cur@
                        =~= index_seq(i + 1));
                    assert(date_matches(anchor, date_of_result(dv[i as int])));
                    assert(anchor_days as int == day_of_result(dv[i as int]));
                    // the pending bucket follows an empty gap bucket
                    assert(out@[out@.len() - 1]@.members.len() == 0);
                }
                i += 1;
            }
        }
    }
    proof {
        assert(cur@.len() > 0);
    }
    let ghost outf = out@.map_values(|b: MonthBucket| b@);
    let ghost curf = cur@;
    let flush = MonthBucket { month_start: anchor, members: cur };
    out.push(flush);
    proof {
        let pushed = out@.last()@;
        assert(out@.map_values(|b: MonthBucket| b@) =~~= outf.push(pushed));
        lemma_flatten_members_push(outf, pushed);
        assert(flatten_members(outf.push(pushed)) =~= flatten_members(outf) + pushed.members);
        assert(flatten_members(outf.push(pushed)) =~= index_seq(n as int));
        assert forall|k: int| 0 <= k < outf.push(pushed).len() implies bucket_ok(
            #[trigger] outf.push(pushed)[k],
            dv,
        ) by {
            if k < outf.len() {
                assert(outf.push(pushed)[k] == outf[k]);
            }
        }
        assert forall|k: int|
            0 <= k < outf.push(pushed).len()
            && (#[trigger] outf.push(pushed)[k]).members.len() == 0 implies k >= 1
            && outf.push(pushed)[k].month_start.day == 1
            && (outf.push(pushed)[k].month_start.year as int, outf.push(
            pushed,
        )[k].month_start.month as int) == spec_next_month(
            outf.push(pushed)[k - 1].month_start.year as int,
            outf.push(pushed)[k - 1].month_start.month as int,
        ) by {
            assert(outf.push(pushed)[k] == outf[k]);
            if k >= 1 {
                assert(outf.push(pushed)[k - 1] == outf[k - 1]);
            }
        }
        assert forall|k: int|
            1 <= k < outf.push(pushed).len() && (#[trigger] outf.push(pushed)[k]).members.len() > 0
            && outf.push(pushed)[k - 1].members.len() > 0 implies day_of_result(
            dv[outf.push(pushed)[k].members[0] as int],
        ) - day_of_result(dv[outf.push(pushed)[k - 1].members[0] as int]) < 33 by {
            if k < outf.len() {
                assert(outf.push(pushed)[k] == outf[k]);
                assert(outf.push(pushed)[k - 1] == outf[k - 1]);
            } else {
                assert(outf.push(pushed)[k] == pushed);
                assert(outf.push(pushed)[k - 1] == outf[outf.len() - 1]);
                assert(pushed.members == curf);
            }
        }
    }
    out
}

/// The imbalance samples the filter selects from one summary.
pub open spec fn select_diffs(x: ExperimentResultsV, f: OvhNodeFilter) -> Seq<u64> {
    match f {
        OvhNodeFilter::Ovh => x.ecmp_diffs_ovh,
        OvhNodeFilter::External => x.ecmp_diffs_external,
        OvhNodeFilter::All => x.ecmp_diffs,
    }
}

/// All selected imbalance samples of one bucket's members, concatenated
/// in member order.
pub open spec fn bucket_diffs(
    members: Seq<usize>,
    results: Seq<ExperimentResultsV>,
    f: OvhNodeFilter,
) -> Seq<u64>
    decreases members.len(),
{
    if members.len() == 0 {
        Seq::empty()
    } else {
        bucket_diffs(members.drop_last(), results, f) + select_diffs(
            results[members.last() as int],
            f,
        )
    }
}

/// For each bucket, the concatenation of its members' imbalance samples
/// under the filter.
pub fn aggregate_ecmp_diff(
    aggr: &Vec<MonthBucket>,
    results: &Vec<ExperimentResults>,
    ovh_nodes: OvhNodeFilter,
) -> (r: Vec<Vec<u64>>)
    requires
        forall|k: int, j: int|
            0 <= k < aggr@.len() && 0 <= j < (#[trigger] aggr@[k])@.members.len()
                ==> (#[trigger] aggr@[k]@.members[j]) < results@.len(),
    ensures
        r@.len() == aggr@.len(),
        forall|k: int| 0 <= k < r@.len() ==> (#[trigger] r@[k])@ == bucket_diffs(
            aggr@[k]@.members,
            results@.map_values(|x: ExperimentResults| x@),
            ovh_nodes,
        ),
{
    let ghost rv = results@.map_values(|x: ExperimentResults| x@);
    let mut out: Vec<Vec<u64>> = Vec::new();
    let nk = aggr.len();
    let mut k: usize = 0;
    while k < nk
        invariant
            0 <= k <= nk,
            nk == aggr.len(),
            rv == results@.map_values(|x: ExperimentResults| x@),
            forall|a: int, j: int|
                0 <= a < aggr@.len() && 0 <= j < (#[trigger] aggr@[a])@.members.len()
                    ==> (#[trigger] aggr@[a]@.members[j]) < results@.len(),
            out@.len() == k,
            forall|a: int| 0 <= a < k ==> (#[trigger] out@[a])@ == bucket_diffs(
                aggr@[a]@.members,
                rv,
                ovh_nodes,
            ),
        decreases nk - k,
    {
        let b = &aggr[k];
        let ghost ms = b@.members;
        let mut acc: Vec<u64> = Vec::new();
        let mj = b.members.len();
        let mut j: usize = 0;
        while j < mj
            invariant
                0 <= j <= mj,
                mj == b.members.len(),
                ms == b@.members,
                rv == results@.map_values(|x: ExperimentResults| x@),
                0 <= k < aggr@.len(),
                aggr@[k as int]@.members == ms,
                forall|a: int, t: int|
                    0 <= a < aggr@.len() && 0 <= t < (#[trigger] aggr@[a])@.members.len()
                        ==> (#[trigger] aggr@[a]@.members[t]) < results@.len(),
                acc@ == bucket_diffs(ms.take(j as int), rv, ovh_nodes),
            decreases mj - j,
        {
            let idx = b.members[j];
            proof {
                assert(aggr@[k as int]@.members[j as int] == idx);
                assert(idx < results@.len());
            }
            let src = results[idx].ecmp_diffs_of(ovh_nodes);
            let ghost base = acc@;
            let nt = src.len();
            let mut t: usize = 0;
            while t < nt
                invariant
                    0 <= t <= nt,
                    nt == src.len(),
                    acc@ == base + src@.take(t as int),
                decreases nt - t,
            {
                let v = src[t];
                acc.push(v);
                proof {
                    assert(base + src@.take(t + 1) =~= (base + src@.take(t as int)).push(
                        src@[t as int],
                    ));
                }
                t += 1;
            }
            proof {
                assert(src@.take(nt as int) =~= src@);
                assert(ms.take(j + 1).drop_last() =~= ms.take(j as int));
                assert(ms.take(j + 1).last() == ms[j as int]);
                assert(rv[idx as int] == results@[idx as int]@);
                assert(src@ == select_diffs(rv[ms[j as int] as int], ovh_nodes));
            }
            j += 1;
        }
        proof {
            assert(ms.take(mj as int) =~= ms);
        }
        out.push(acc);
        k += 1;
    }
    out
}

/// How many values fall in the half-open range `[lo, hi)`.
pub open spec fn count_in_range(vs: Seq<u64>, lo: u64, hi: u64) -> int
    decreases vs.len(),
{
    if vs.len() == 0 {
        0
    } else {
        count_in_range(vs.drop_last(), lo, hi) + if lo <= vs.last() < hi {
            1int
        } else {
            0int
        }
    }
}

proof fn lemma_count_in_range_bound(vs: Seq<u64>, lo: u64, hi: u64)
    ensures
        0 <= count_in_range(vs, lo, hi) <= vs.len(),
    decreases vs.len(),
{
    if vs.len() > 0 {
        lemma_count_in_range_bound(vs.drop_last(), lo, hi);
    }
}

/// For each adjacent boundary pair, how many values fall in the
/// half-open range between them.
pub fn histogram_counts(values: &Vec<u64>, ranges: &Vec<u64>) -> (r: Vec<u64>)
    requires
        ranges@.len() >= 1,
    ensures
        r@.len() == ranges@.len() - 1,
        forall|q: int| 0 <= q < r@.len() ==> (#[trigger] r@[q]) as int == count_in_range(
            values@,
            ranges@[q],
            ranges@[q + 1],
        ),
{
    let mut out: Vec<u64> = Vec::new();
    let nb = ranges.len() - 1;
    let mut q: usize = 0;
    while q < nb
        invariant
            0 <= q <= nb,
            nb == ranges@.len() - 1,
            out@.len() == q,
            forall|a: int| 0 <= a < q ==> (#[trigger] out@[a]) as int == count_in_range(
                values@,
                ranges@[a],
                ranges@[a + 1],
            ),
        decreases nb - q,
    {
        let lo = ranges[q];
        let hi = ranges[q + 1];
        let mut count: u64 = 0;
        let nv = values.len();
        let mut t: usize = 0;
        while t < nv
            invariant
                0 <= t <= nv,
                nv == values@.len(),
                count as int == count_in_range(values@.take(t as int), lo, hi),
                count <= t,
            decreases nv - t,
        {
            proof {
                assert(values@.take(t + 1).drop_last() =~= values@.take(t as int));
                assert(values@.take(t + 1).last() == values@[t as int]);
                lemma_count_in_range_bound(values@.take(t as int), lo, hi);
            }
            let v = values[t];
            if lo <= v && v < hi {
                count = count + 1;
            }
            t += 1;
        }
        proof {
            assert(values@.take(nv as int) =~= values@);
        }
        out.push(count);
        q += 1;
    }
    out
}

/// Unix timestamp of midnight starting the bucket's anchor date.
pub fn bucket_timestamp(d: &Date) -> (r: i64)
    requires
        1 <= d.year <= 300000,
        1 <= d.month <= 300000,
        1 <= d.day <= 31,
    ensures
        r as int == spec_days_from_civil(d.year as int, d.month as int, d.day as int) * 86400,
{
    let z = days_from_civil(d.year, d.month, d.day);
    proof {
        lemma_days_bounds(d.year as int, d.month as int, d.day as int);
    }
    z * 86400
}

} // verus!
