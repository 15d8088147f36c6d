//! Laws of a whole scan.
//!
//! A scan is: partition the port range over the pool, probe every assigned
//! port, publish the open ones into the shared sink, and sort what the sink
//! gathered.  The statements here tie the pieces together: whatever order
//! the sink receives the workers' reports in, the final result lists exactly
//! the ports whose probe succeeded, each of them once, strictly ascending.

use vstd::prelude::*;

verus! {

use vstd::multiset::Multiset;
use crate::partition::{
    is_worker_partition, lemma_plan_covers, lemma_worker_partition_membership,
    lemma_worker_partition_no_duplicates, scannable_port,
};
use crate::report::{
    lemma_reported_ports_membership, lemma_reported_ports_no_duplicates, reported_ports, sorted,
    strictly_sorted,
};

/// Everything the sink gathers: the workers' published ports, counted
/// together.  The sink has no order; a multiset is all that can be said of
/// its contents.
pub open spec fn collected_reports(plan: Seq<Seq<u16>>, outcomes: Seq<Seq<bool>>) -> Multiset<u16>
    decreases plan.len(),
{
    if plan.len() == 0 || outcomes.len() != plan.len() {
        Multiset::empty()
    } else {
        collected_reports(plan.drop_last(), outcomes.drop_last()).add(
            reported_ports(plan.last(), outcomes.last()).to_multiset(),
        )
    }
}

/// Some worker probed port `p` with success.
pub open spec fn port_found_open(plan: Seq<Seq<u16>>, outcomes: Seq<Seq<bool>>, p: u16) -> bool {
    exists|i: int, k: int|
        0 <= i < plan.len() && 0 <= k < plan[i].len() && (#[trigger] outcomes[i][k])
            && plan[i][k] == p
}

/// What the first `j` workers publish together: each port at most once, and
/// exactly the ports they probed with success.
proof fn lemma_collected_reports_prefix(
    plan: Seq<Seq<u16>>,
    outcomes: Seq<Seq<bool>>,
    worker_count: int,
    j: int,
)
    requires
        1 <= worker_count <= 1024,
        plan.len() == worker_count,
        outcomes.len() == worker_count,
        forall|i: int| 0 <= i < plan.len()
            ==> is_worker_partition(#[trigger] plan[i], i, worker_count),
        forall|i: int| 0 <= i < plan.len() ==> (#[trigger] outcomes[i]).len() == plan[i].len(),
        0 <= j <= worker_count,
    ensures
        forall|p: u16|
            #[trigger] collected_reports(plan.take(j), outcomes.take(j)).count(p) <= 1,
        forall|p: u16|
            #[trigger] collected_reports(plan.take(j), outcomes.take(j)).count(p) > 0
                <==> exists|i: int, k: int|
                    0 <= i < j && 0 <= k < plan[i].len() && (#[trigger] outcomes[i][k])
                        && plan[i][k] == p,
    decreases j,
{
    if j == 0 {
        assert(plan.take(0) =~= Seq::<Seq<u16>>::empty());
        assert(outcomes.take(0) =~= Seq::<Seq<bool>>::empty());
    } else {
        lemma_collected_reports_prefix(plan, outcomes, worker_count, j - 1);
        let w = j - 1;
        assert(plan.take(j).drop_last() =~= plan.take(w));
        assert(outcomes.take(j).drop_last() =~= outcomes.take(w));
        assert(plan.take(j).last() == plan[w]);
        assert(outcomes.take(j).last() == outcomes[w]);
        let prev = collected_reports(plan.take(w), outcomes.take(w));
        let fresh = reported_ports(plan[w], outcomes[w]).to_multiset();
        assert(collected_reports(plan.take(j), outcomes.take(j)) == prev.add(fresh));
        lemma_worker_partition_no_duplicates(plan[w], w, worker_count);
        lemma_reported_ports_no_duplicates(plan[w], outcomes[w]);
        lemma_reported_ports_membership(plan[w], outcomes[w]);
        reported_ports(plan[w], outcomes[w]).lemma_multiset_has_no_duplicates();
        assert forall|p: u16|
            #[trigger] collected_reports(plan.take(j), outcomes.take(j)).count(p) <= 1 by {
            vstd::seq_lib::to_multiset_contains(reported_ports(plan[w], outcomes[w]), p);
            assert(fresh.count(p) <= 1);
            if prev.count(p) > 0 && fresh.count(p) > 0 {
                // p came both from an earlier worker and from worker w: both
                // would hold it in their partitions, which are disjoint.
                let (i0, k0) = choose|i0: int, k0: int|
                    0 <= i0 < w && 0 <= k0 < plan[i0].len() && (#[trigger] outcomes[i0][k0])
                        && plan[i0][k0] == p;
                assert(reported_ports(plan[w], outcomes[w]).contains(p));
                assert(plan[i0].contains(p));
                let kw = choose|kw: int|
                    0 <= kw < plan[w].len() && plan[w][kw] == p && #[trigger] outcomes[w][kw];
                assert(plan[w].contains(p));
                lemma_worker_partition_membership(plan[i0], i0, worker_count);
                lemma_worker_partition_membership(plan[w], w, worker_count);
                assert(false);
            }
        }
        assert forall|p: u16|
            #[trigger] collected_reports(plan.take(j), outcomes.take(j)).count(p) > 0
                <==> exists|i: int, k: int|
                    0 <= i < j && 0 <= k < plan[i].len() && (#[trigger] outcomes[i][k])
                        && plan[i][k] == p by {
            vstd::seq_lib::to_multiset_contains(reported_ports(plan[w], outcomes[w]), p);
            if prev.count(p) > 0 {
                let (i0, k0) = choose|i0: int, k0: int|
                    0 <= i0 < w && 0 <= k0 < plan[i0].len() && (#[trigger] outcomes[i0][k0])
                        && plan[i0][k0] == p;
                assert(0 <= i0 < j && 0 <= k0 < plan[i0].len() && outcomes[i0][k0]
                    && plan[i0][k0] == p);
            }
            if fresh.count(p) > 0 {
                assert(reported_ports(plan[w], outcomes[w]).contains(p));
                let kw = choose|kw: int|
                    0 <= kw < plan[w].len() && plan[w][kw] == p && #[trigger] outcomes[w][kw];
                assert(0 <= w < j && 0 <= kw < plan[w].len() && outcomes[w][kw]
                    && plan[w][kw] == p);
            }
            if exists|i: int, k: int|
                0 <= i < j && 0 <= k < plan[i].len() && (#[trigger] outcomes[i][k])
                    && plan[i][k] == p {
                let (i0, k0) = choose|i0: int, k0: int|
                    0 <= i0 < j && 0 <= k0 < plan[i0].len() && (#[trigger] outcomes[i0][k0])
                        && plan[i0][k0] == p;
                if i0 < w {
                    assert(prev.count(p) > 0);
                } else {
                    assert(reported_ports(plan[w], outcomes[w]).contains(p));
                    assert(fresh.count(p) > 0);
                }
            }
        }
    }
}

/// The sink holds each open port once: no worker reports a port twice, and
/// no two workers share a port.
pub proof fn lemma_collected_reports_exact(
    plan: Seq<Seq<u16>>,
    outcomes: Seq<Seq<bool>>,
    worker_count: int,
)
    requires
        1 <= worker_count <= 1024,
        plan.len() == worker_count,
        outcomes.len() == worker_count,
        forall|i: int| 0 <= i < plan.len()
            ==> is_worker_partition(#[trigger] plan[i], i, worker_count),
        forall|i: int| 0 <= i < plan.len() ==> (#[trigger] outcomes[i]).len() == plan[i].len(),
    ensures
        forall|p: u16| #[trigger] collected_reports(plan, outcomes).count(p) <= 1,
        forall|p: u16|
            #[trigger] collected_reports(plan, outcomes).count(p) > 0 <==> port_found_open(
                plan,
                outcomes,
                p,
            ),
{
    lemma_collected_reports_prefix(plan, outcomes, worker_count, worker_count);
    assert(plan.take(worker_count) =~= plan);
    assert(outcomes.take(worker_count) =~= outcomes);
}

/// The whole scan, end to end: however the sink interleaved the workers'
/// reports, the sorted result lists exactly the ports found open — each
/// once, strictly ascending.
pub proof fn lemma_scan_result_exact(
    plan: Seq<Seq<u16>>,
    outcomes: Seq<Seq<bool>>,
    worker_count: int,
    reports: Seq<u16>,
    result: Seq<u16>,
)
    requires
        1 <= worker_count <= 1024,
        plan.len() == worker_count,
        outcomes.len() == worker_count,
        forall|i: int| 0 <= i < plan.len()
            ==> is_worker_partition(#[trigger] plan[i], i, worker_count),
        forall|i: int| 0 <= i < plan.len() ==> (#[trigger] outcomes[i]).len() == plan[i].len(),
        reports.to_multiset() == collected_reports(plan, outcomes),
        sorted(result),
        result.to_multiset() == reports.to_multiset(),
    ensures
        strictly_sorted(result),
        result.no_duplicates(),
        forall|p: u16| #[trigger] result.contains(p) <==> port_found_open(plan, outcomes, p),
        forall|p: u16| #[trigger] result.contains(p) ==> scannable_port(p),
{
    lemma_collected_reports_exact(plan, outcomes, worker_count);
    assert forall|p: u16| reports.to_multiset().contains(p)
        implies reports.to_multiset().count(p) == 1 by {
        assert(reports.to_multiset().count(p) <= 1);
    }
    reports.lemma_multiset_has_no_duplicates_conv();
    crate::report::lemma_scan_result_strictly_ascending(reports, result);
    assert forall|p: u16| #[trigger] result.contains(p) <==> port_found_open(plan, outcomes, p) by {
        vstd::seq_lib::to_multiset_contains(result, p);
    }
    assert forall|p: u16| #[trigger] result.contains(p) implies scannable_port(p) by {
        let (i, k) = choose|i: int, k: int|
            0 <= i < plan.len() && 0 <= k < plan[i].len() && (#[trigger] outcomes[i][k])
                && plan[i][k] == p;
        assert(plan[i].contains(p));
        lemma_worker_partition_membership(plan[i], i, worker_count);
    }
}

/// Determinism against a fixed network: when each probe outcome agrees with
/// a fixed set of reachable ports, the result is exactly the reachable part
/// of `1..=65535`, strictly ascending.
pub proof fn lemma_scan_result_deterministic(
    plan: Seq<Seq<u16>>,
    outcomes: Seq<Seq<bool>>,
    worker_count: int,
    reports: Seq<u16>,
    result: Seq<u16>,
    reachable: Set<u16>,
)
    requires
        1 <= worker_count <= 1024,
        plan.len() == worker_count,
        outcomes.len() == worker_count,
        forall|i: int| 0 <= i < plan.len()
            ==> is_worker_partition(#[trigger] plan[i], i, worker_count),
        forall|i: int| 0 <= i < plan.len() ==> (#[trigger] outcomes[i]).len() == plan[i].len(),
        forall|i: int, k: int|
            0 <= i < plan.len() && 0 <= k < plan[i].len()
                ==> ((#[trigger] outcomes[i][k]) <==> reachable.contains(plan[i][k])),
        reports.to_multiset() == collected_reports(plan, outcomes),
        sorted(result),
        result.to_multiset() == reports.to_multiset(),
    ensures
        strictly_sorted(result),
        forall|p: u16|
            #[trigger] result.contains(p) <==> (scannable_port(p) && reachable.contains(p)),
{
    lemma_scan_result_exact(plan, outcomes, worker_count, reports, result);
    lemma_plan_covers(plan, worker_count);
    assert forall|p: u16|
        #[trigger] result.contains(p) <==> (scannable_port(p) && reachable.contains(p)) by {
        if port_found_open(plan, outcomes, p) {
            let (i, k) = choose|i: int, k: int|
                0 <= i < plan.len() && 0 <= k < plan[i].len() && (#[trigger] outcomes[i][k])
                    && plan[i][k] == p;
            assert(plan[i].contains(p));
            lemma_worker_partition_membership(plan[i], i, worker_count);
            assert(scannable_port(p) && reachable.contains(p));
        }
        if scannable_port(p) && reachable.contains(p) {
            let i = choose|i: int| 0 <= i < plan.len() && #[trigger] plan[i].contains(p);
            let k = choose|k: int| 0 <= k < plan[i].len() && plan[i][k] == p;
            assert(outcomes[i][k]);
            assert(port_found_open(plan, outcomes, p));
        }
    }
}

} // verus!
