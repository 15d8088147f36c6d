//! Strided partitioning of the port range across workers.
//!
//! With `W` workers (0-indexed), worker `i` probes the ports
//! `i+1, i+1+W, i+1+2W, ...` up to 65535.  Every port in `1..=65535` belongs
//! to exactly one worker, the assignment is a pure function of `W` and `i`,
//! and the workers' shares differ in size by at most one port.

use vstd::prelude::*;

verus! {

use vstd::arithmetic::div_mod::{
    lemma_fundamental_div_mod,
    lemma_fundamental_div_mod_converse_div,
    lemma_fundamental_div_mod_converse_mod,
    lemma_div_is_ordered,
};

/// `p` is one of the ports the scan covers.
pub open spec fn scannable_port(p: u16) -> bool {
    1 <= p <= 65535
}

/// Port `port` belongs to worker `worker_index` of a pool of `worker_count`:
/// it is in range and lies on the worker's stride.
pub open spec fn assigned_to_worker(port: int, worker_index: int, worker_count: int) -> bool {
    &&& 1 <= port <= 65535
    &&& (port - 1) % worker_count == worker_index
}

/// How many ports worker `worker_index` receives.
pub open spec fn worker_port_count(worker_index: int, worker_count: int) -> int {
    (65534 - worker_index) / worker_count + 1
}

/// `s` is exactly the stride sequence of worker `worker_index`: its full
/// assigned ports, in the order the worker visits them.
pub open spec fn is_worker_partition(s: Seq<u16>, worker_index: int, worker_count: int) -> bool {
    &&& s.len() == worker_port_count(worker_index, worker_count)
    &&& forall|k: int| 0 <= k < s.len() ==> s[k] as int == worker_index + 1 + k * worker_count
}

/// The ports assigned to one worker, in probing order.
pub fn worker_ports(worker_index: u16, worker_count: u16) -> (r: Vec<u16>)
    requires
        1 <= worker_count <= 1024,
        worker_index < worker_count,
    ensures
        is_worker_partition(r@, worker_index as int, worker_count as int),
{
    let mut ports: Vec<u16> = Vec::new();
    let mut next: u32 = worker_index as u32 + 1;
    proof {
        assert(0 * worker_count as int == 0) by (nonlinear_arith);
    }
    while next <= crate::MAX_PORT_NO as u32
        invariant
            1 <= worker_count <= 1024,
            worker_index < worker_count,
            next == worker_index + 1 + ports@.len() * worker_count,
            next <= 65535 + worker_count,
            forall|k: int| 0 <= k < ports@.len()
                ==> ports@[k] as int == worker_index + 1 + k * worker_count,
        decreases 65535 + worker_count - next,
    {
        ports.push(next as u16);
        next = next + worker_count as u32;
        proof {
            let n = ports@.len() as int;
            assert(n * worker_count as int == (n - 1) * worker_count as int + worker_count as int)
                by (nonlinear_arith);
        }
    }
    proof {
        let i = worker_index as int;
        let w = worker_count as int;
        let n = ports@.len() as int;
        // The loop ran at least once, so n >= 1; the exit condition and the
        // bound on `next` pin n - 1 as the quotient (65534 - i) / w.
        assert(n >= 1);
        assert(i + 1 + n * w > 65535);
        assert(i + 1 + n * w <= 65535 + w);
        let x = 65534 - i;
        let r = x - (n - 1) * w;
        assert(n * w == (n - 1) * w + w) by (nonlinear_arith);
        assert(0 <= r < w);
        assert(x == (n - 1) * w + r);
        lemma_fundamental_div_mod_converse_div(x, w, n - 1, r);
        assert(n - 1 == x / w);
    }
    ports
}

/// The whole scan plan: one stride sequence per worker, worker 0 first.
pub fn all_worker_ports(worker_count: u16) -> (r: Vec<Vec<u16>>)
    requires
        1 <= worker_count <= 1024,
    ensures
        r@.len() == worker_count as int,
        forall|i: int| 0 <= i < r@.len()
            ==> is_worker_partition(#[trigger] r@[i]@, i, worker_count as int),
{
    let mut plan: Vec<Vec<u16>> = Vec::new();
    let mut i: u16 = 0;
    while i < worker_count
        invariant
            1 <= worker_count <= 1024,
            i <= worker_count,
            plan@.len() == i as int,
            forall|j: int| 0 <= j < plan@.len()
                ==> is_worker_partition(#[trigger] plan@[j]@, j, worker_count as int),
        decreases worker_count - i,
    {
        let ports = worker_ports(i, worker_count);
        plan.push(ports);
        i = i + 1;
    }
    plan
}

/// A worker visits each of its ports once: the stride sequence is strictly
/// increasing and holds no duplicates.
pub proof fn lemma_worker_partition_no_duplicates(s: Seq<u16>, worker_index: int, worker_count: int)
    requires
        1 <= worker_count,
        is_worker_partition(s, worker_index, worker_count),
    ensures
        forall|a: int, b: int| 0 <= a < b < s.len() ==> s[a] < s[b],
        s.no_duplicates(),
{
    assert forall|a: int, b: int| 0 <= a < b < s.len() implies s[a] < s[b] by {
        assert(a * worker_count < b * worker_count) by (nonlinear_arith)
            requires a < b && worker_count >= 1;
    }
}

/// Coverage of the whole plan: every port in `1..=65535` stands in exactly
/// one worker's sequence.
pub proof fn lemma_plan_covers(plan: Seq<Seq<u16>>, worker_count: int)
    requires
        1 <= worker_count <= 1024,
        plan.len() == worker_count,
        forall|i: int| 0 <= i < plan.len()
            ==> is_worker_partition(#[trigger] plan[i], i, worker_count),
    ensures
        forall|p: u16| #[trigger] scannable_port(p)
            ==> exists|i: int| 0 <= i < plan.len() && #[trigger] plan[i].contains(p),
        forall|p: u16, i: int, j: int|
            0 <= i < plan.len() && 0 <= j < plan.len() && #[trigger] plan[i].contains(p)
                && #[trigger] plan[j].contains(p) ==> i == j,
{
    lemma_partition_coverage(worker_count);
    assert forall|p: u16| scannable_port(p)
        implies exists|i: int| 0 <= i < plan.len() && #[trigger] plan[i].contains(p) by {
        let i = (p - 1) % worker_count;
        lemma_worker_partition_membership(plan[i], i, worker_count);
        assert(plan[i].contains(p));
    }
    assert forall|p: u16, i: int, j: int|
        0 <= i < plan.len() && 0 <= j < plan.len() && #[trigger] plan[i].contains(p)
            && #[trigger] plan[j].contains(p) implies i == j by {
        lemma_worker_partition_membership(plan[i], i, worker_count);
        lemma_worker_partition_membership(plan[j], j, worker_count);
        assert(assigned_to_worker(p as int, i, worker_count));
        assert(assigned_to_worker(p as int, j, worker_count));
    }
}

/// Coverage: every port in `1..=65535` is assigned to exactly one worker,
/// namely worker `(port - 1) % worker_count`.
pub proof fn lemma_partition_coverage(worker_count: int)
    requires
        1 <= worker_count <= 1024,
    ensures
        forall|p: int| 1 <= p <= 65535
            ==> 0 <= #[trigger] ((p - 1) % worker_count) < worker_count
                && assigned_to_worker(p, (p - 1) % worker_count, worker_count),
        forall|p: int, i: int, j: int|
            assigned_to_worker(p, i, worker_count) && assigned_to_worker(p, j, worker_count)
                ==> i == j,
{
    assert forall|p: int| 1 <= p <= 65535
        implies 0 <= #[trigger] ((p - 1) % worker_count) < worker_count
            && assigned_to_worker(p, (p - 1) % worker_count, worker_count) by {
        lemma_fundamental_div_mod(p - 1, worker_count);
    }
}

/// The stride sequence of worker `worker_index` holds exactly the ports
/// assigned to that worker.
pub proof fn lemma_worker_partition_membership(s: Seq<u16>, worker_index: int, worker_count: int)
    requires
        1 <= worker_count <= 1024,
        0 <= worker_index < worker_count,
        is_worker_partition(s, worker_index, worker_count),
    ensures
        forall|p: u16|
            assigned_to_worker(p as int, worker_index, worker_count) <==> s.contains(p),
{
    let i = worker_index;
    let w = worker_count;
    let n = s.len() as int;
    assert forall|p: u16| assigned_to_worker(p as int, i, w) implies s.contains(p) by {
        let q = (p - 1) / w;
        lemma_fundamental_div_mod(p - 1, w);
        assert(p as int == i + 1 + q * w);
        assert(q >= 0) by {
            if q < 0 {
                assert(q * w <= q) by (nonlinear_arith)
                    requires q < 0 && w >= 1;
            }
        }
        // p <= 65535 forces q to lie within the partition's length.
        assert(q * w <= 65534 - i);
        lemma_div_is_ordered(q * w, 65534 - i, w);
        lemma_fundamental_div_mod_converse_div(q * w, w, q, 0);
        assert(q <= (65534 - i) / w);
        assert(0 <= q < n);
        assert(s[q] as int == i + 1 + q * w);
        assert(s[q] == p);
    }
    assert forall|p: u16| s.contains(p) implies assigned_to_worker(p as int, i, w) by {
        let k = choose|k: int| 0 <= k < s.len() && s[k] == p;
        assert(p as int == i + 1 + k * w);
        assert(k * w >= 0) by (nonlinear_arith)
            requires k >= 0 && w >= 1;
        // k <= n - 1 = (65534 - i) / w, so k * w <= 65534 - i and p <= 65535.
        assert(k <= (65534 - i) / w);
        lemma_fundamental_div_mod(65534 - i, w);
        assert(k * w <= ((65534 - i) / w) * w) by (nonlinear_arith)
            requires k <= (65534 - i) / w && w >= 1;
        assert(((65534 - i) / w) * w <= 65534 - i);
        assert(1 <= p as int <= 65535);
        lemma_fundamental_div_mod_converse_mod(p - 1, w, k, i);
    }
}

/// Partitioning is deterministic: any two stride sequences for the same
/// worker of the same pool are equal.
pub proof fn lemma_partition_deterministic(
    a: Seq<u16>,
    b: Seq<u16>,
    worker_index: int,
    worker_count: int,
)
    requires
        is_worker_partition(a, worker_index, worker_count),
        is_worker_partition(b, worker_index, worker_count),
    ensures
        a == b,
{
    assert(a =~= b);
}

/// Load balance: the shares of any two workers of one pool differ in size by
/// at most one port.
pub proof fn lemma_partition_balanced(worker_count: int, i: int, j: int)
    requires
        1 <= worker_count <= 1024,
        0 <= i <= j < worker_count,
    ensures
        worker_port_count(j, worker_count) <= worker_port_count(i, worker_count)
            <= worker_port_count(j, worker_count) + 1,
{
    let w = worker_count;
    lemma_div_is_ordered(65534 - j, 65534 - i, w);
    // 65534 - i exceeds 65534 - j by less than w, so the quotients differ by
    // at most one.
    lemma_fundamental_div_mod(65534 - j, w);
    let q = (65534 - j) / w;
    let r = (65534 - j) % w;
    assert(65534 - j == q * w + r);
    let d = 65534 - i;
    assert(d <= q * w + r + w);
    if (65534 - i) / w > q + 1 {
        lemma_fundamental_div_mod(d, w);
        let q2 = d / w;
        let r2 = d % w;
        assert(d == q2 * w + r2);
        assert(q2 >= q + 2);
        assert(q2 * w >= (q + 2) * w) by (nonlinear_arith)
            requires q2 >= q + 2 && w >= 1;
        assert((q + 2) * w == q * w + 2 * w) by (nonlinear_arith);
        assert(d >= q * w + 2 * w);
        assert(r + w < 2 * w);
        assert(false);
    }
}

/// `W = 1` assigns the whole range to the single worker: its sequence is
/// `1, 2, ..., 65535`.
pub proof fn lemma_single_worker_full_range(s: Seq<u16>)
    requires
        is_worker_partition(s, 0, 1),
    ensures
        s.len() == 65535,
        forall|k: int| 0 <= k < s.len() ==> s[k] as int == k + 1,
{
    assert(worker_port_count(0, 1) == 65535);
}

/// `W = 1024` gives no worker more than 64 ports.
pub proof fn lemma_max_pool_share_bound(worker_index: int)
    requires
        0 <= worker_index < 1024,
    ensures
        worker_port_count(worker_index, 1024) <= 64,
{
    lemma_div_is_ordered(65534 - worker_index, 65534, 1024);
    assert(65534int / 1024 == 63);
}

} // verus!
