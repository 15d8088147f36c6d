//! Finalizing the scan report.
//!
//! Workers publish the ports they found open in arrival order, which carries
//! no meaning.  Once every worker has finished, the coordinator sorts the
//! collected ports ascending; that sorted sequence is the scan result.  The
//! sort loses nothing and invents nothing: the result holds exactly the
//! reported ports.  Because the partitioning visits every port once, the
//! collected reports hold no duplicates, and the result is then strictly
//! ascending.

use vstd::prelude::*;

verus! {

use vstd::multiset::Multiset;
use vstd::seq_lib::group_to_multiset_ensures;
use crate::config::{all_decimal_digits, decimal_value, is_decimal_digit};

/// `s` is sorted in ascending order (duplicates allowed).
pub open spec fn sorted(s: Seq<u16>) -> bool {
    forall|a: int, b: int| 0 <= a <= b < s.len() ==> s[a] <= s[b]
}

/// `s` is sorted strictly ascending: no duplicates at all.
pub open spec fn strictly_sorted(s: Seq<u16>) -> bool {
    forall|a: int, b: int| 0 <= a < b < s.len() ==> s[a] < s[b]
}

/// Sort the collected open-port reports ascending.  The result is a
/// permutation of the input: it holds exactly the reported ports, each as
/// often as it was reported.
pub fn finalize_scan_result(reports: &Vec<u16>) -> (r: Vec<u16>)
    ensures
        sorted(r@),
        r@.to_multiset() == reports@.to_multiset(),
        forall|p: u16| r@.contains(p) <==> reports@.contains(p),
        r@.len() == reports@.len(),
{
    broadcast use group_to_multiset_ensures;

    let mut out: Vec<u16> = Vec::new();
    let mut idx: usize = 0;
    proof {
        assert(reports@.take(0) =~= Seq::<u16>::empty());
        assert(Seq::<u16>::empty().to_multiset() =~= Multiset::<u16>::empty());
    }
    while idx < reports.len()
        invariant
            idx <= reports@.len(),
            sorted(out@),
            out@.to_multiset() == reports@.take(idx as int).to_multiset(),
        decreases reports@.len() - idx,
    {
        let x = reports[idx];
        let mut pos: usize = 0;
        while pos < out.len() && out[pos] <= x
            invariant
                pos <= out@.len(),
                forall|k: int| 0 <= k < pos ==> out@[k] <= x,
            decreases out@.len() - pos,
        {
            pos = pos + 1;
        }
        let ghost prev = out@;
        out.insert(pos, x);
        proof {
            prev.insert_ensures(pos as int, x);
            assert(out@ == prev.insert(pos as int, x));
            assert forall|a: int, b: int| 0 <= a <= b < out@.len()
                implies out@[a] <= out@[b] by {
                if a < pos && b == pos {
                    assert(out@[a] == prev[a] && out@[b] == x);
                } else if a == pos && b > pos {
                    assert(out@[a] == x && out@[b] == prev[b - 1]);
                    assert(!(b - 1 < pos));
                    assert(prev[pos as int] > x);
                } else if a < pos && b > pos {
                    assert(out@[a] == prev[a] && out@[b] == prev[b - 1]);
                }
            }
            vstd::seq_lib::to_multiset_insert(prev, pos as int, x);
            assert(out@.to_multiset() == prev.to_multiset().insert(x));
            assert(reports@.take(idx + 1) =~= reports@.take(idx as int).push(x));
            vstd::seq_lib::to_multiset_build(reports@.take(idx as int), x);
        }
        idx = idx + 1;
    }
    proof {
        assert(reports@.take(reports@.len() as int) =~= reports@);
        vstd::seq_lib::to_multiset_len(out@);
        vstd::seq_lib::to_multiset_len(reports@);
        assert forall|p: u16| out@.contains(p) <==> reports@.contains(p) by {
            assert(out@.contains(p) <==> out@.to_multiset().count(p) > 0);
            assert(reports@.contains(p) <==> reports@.to_multiset().count(p) > 0);
        }
    }
    out
}

/// The ports a worker publishes: those of its assigned sequence whose probe
/// succeeded, in visiting order.
pub open spec fn reported_ports(assigned: Seq<u16>, probe_ok: Seq<bool>) -> Seq<u16>
    decreases assigned.len(),
{
    if assigned.len() == 0 {
        Seq::empty()
    } else if probe_ok.len() != assigned.len() {
        Seq::empty()
    } else {
        reported_ports(assigned.drop_last(), probe_ok.drop_last()) + (if probe_ok.last() {
            seq![assigned.last()]
        } else {
            Seq::empty()
        })
    }
}

/// A worker's publish step: keep the assigned ports whose probe succeeded.
/// `probe_ok[k]` is the outcome of probing `assigned[k]`.
pub fn open_ports_of(assigned: &Vec<u16>, probe_ok: &Vec<bool>) -> (r: Vec<u16>)
    requires
        assigned@.len() == probe_ok@.len(),
    ensures
        r@ == reported_ports(assigned@, probe_ok@),
{
    let mut out: Vec<u16> = Vec::new();
    let mut k: usize = 0;
    proof {
        assert(reported_ports(assigned@.take(0), probe_ok@.take(0)) =~= Seq::<u16>::empty());
    }
    while k < assigned.len()
        invariant
            assigned@.len() == probe_ok@.len(),
            0 <= k <= assigned@.len(),
            out@ == reported_ports(assigned@.take(k as int), probe_ok@.take(k as int)),
        decreases assigned@.len() - k,
    {
        proof {
            assert(assigned@.take(k + 1).drop_last() =~= assigned@.take(k as int));
            assert(probe_ok@.take(k + 1).drop_last() =~= probe_ok@.take(k as int));
            assert(assigned@.take(k + 1).last() == assigned@[k as int]);
            assert(probe_ok@.take(k + 1).last() == probe_ok@[k as int]);
        }
        if probe_ok[k] {
            out.push(assigned[k]);
            proof {
                assert(out@ =~= reported_ports(assigned@.take(k + 1), probe_ok@.take(k + 1)));
            }
        } else {
            proof {
                assert(out@ =~= reported_ports(assigned@.take(k + 1), probe_ok@.take(k + 1)));
            }
        }
        k = k + 1;
    }
    proof {
        assert(assigned@.take(assigned@.len() as int) =~= assigned@);
        assert(probe_ok@.take(probe_ok@.len() as int) =~= probe_ok@);
    }
    out
}

/// A worker publishes a port exactly when it was assigned the port and the
/// probe of it succeeded.
pub proof fn lemma_reported_ports_membership(assigned: Seq<u16>, probe_ok: Seq<bool>)
    requires
        assigned.len() == probe_ok.len(),
    ensures
        forall|p: u16| #[trigger] reported_ports(assigned, probe_ok).contains(p)
            <==> exists|k: int| 0 <= k < assigned.len() && assigned[k] == p && #[trigger] probe_ok[k],
    decreases assigned.len(),
{
    if assigned.len() > 0 {
        let s = assigned.drop_last();
        let o = probe_ok.drop_last();
        lemma_reported_ports_membership(s, o);
        let r = reported_ports(assigned, probe_ok);
        let r0 = reported_ports(s, o);
        assert forall|p: u16| #[trigger] r.contains(p)
            implies exists|k: int| 0 <= k < assigned.len() && assigned[k] == p
                && #[trigger] probe_ok[k] by {
            let j = choose|j: int| 0 <= j < r.len() && r[j] == p;
            if j < r0.len() {
                assert(r0[j] == p);
                assert(r0.contains(p));
                let k = choose|k: int| 0 <= k < s.len() && s[k] == p && #[trigger] o[k];
                assert(assigned[k] == p && probe_ok[k]);
            } else {
                assert(probe_ok.last());
                assert(r[j] == assigned.last());
                assert(assigned[assigned.len() - 1] == p && probe_ok[assigned.len() - 1]);
            }
        }
        assert forall|p: u16|
            exists|k: int| 0 <= k < assigned.len() && assigned[k] == p && #[trigger] probe_ok[k]
            implies #[trigger] r.contains(p) by {
            let k = choose|k: int| 0 <= k < assigned.len() && assigned[k] == p
                && #[trigger] probe_ok[k];
            if k < assigned.len() - 1 {
                assert(s[k] == p && o[k]);
                assert(r0.contains(p));
                let j = choose|j: int| 0 <= j < r0.len() && r0[j] == p;
                assert(r[j] == p);
            } else {
                assert(probe_ok.last());
                assert(r[r.len() - 1] == p);
            }
        }
    }
}

/// A worker that visits each of its ports once reports each open port once.
pub proof fn lemma_reported_ports_no_duplicates(assigned: Seq<u16>, probe_ok: Seq<bool>)
    requires
        assigned.len() == probe_ok.len(),
        assigned.no_duplicates(),
    ensures
        reported_ports(assigned, probe_ok).no_duplicates(),
    decreases assigned.len(),
{
    if assigned.len() > 0 {
        let s = assigned.drop_last();
        let o = probe_ok.drop_last();
        lemma_reported_ports_no_duplicates(s, o);
        lemma_reported_ports_membership(s, o);
        let r = reported_ports(assigned, probe_ok);
        let r0 = reported_ports(s, o);
        assert forall|i: int, j: int| 0 <= i < j < r.len() implies r[i] != r[j] by {
            if j < r0.len() {
                assert(r0[i] == r[i] && r0[j] == r[j]);
            } else {
                assert(probe_ok.last());
                assert(r[j] == assigned.last());
                assert(r0[i] == r[i]);
                assert(r0.contains(r0[i]));
                let k = choose|k: int| 0 <= k < s.len() && s[k] == r0[i] && #[trigger] o[k];
                assert(assigned[k] == r0[i]);
                assert(assigned[k] != assigned[assigned.len() - 1]);
            }
        }
    }
}

/// The decimal numeral of `n`, most significant digit first, no sign and no
/// leading zero.
pub open spec fn decimal_digits_of(n: int) -> Seq<u8>
    recommends
        n >= 0,
    decreases n,
{
    if n <= 9 {
        seq![(48 + n) as u8]
    } else {
        decimal_digits_of(n / 10).push((48 + n % 10) as u8)
    }
}

/// The bytes of `" is opened"`, the tail of each report line.
pub open spec fn opened_suffix() -> Seq<u8> {
    seq![32u8, 105u8, 115u8, 32u8, 111u8, 112u8, 101u8, 110u8, 101u8, 100u8]
}

/// Rendering a number and parsing the numeral back are inverses: the report
/// line shows the very port that was found open.
pub proof fn lemma_decimal_round_trip(n: int)
    requires
        0 <= n,
    ensures
        decimal_digits_of(n).len() >= 1,
        all_decimal_digits(decimal_digits_of(n)),
        decimal_value(decimal_digits_of(n)) == n,
    decreases n,
{
    if n <= 9 {
        let s = decimal_digits_of(n);
        assert(s.len() == 1);
        assert(is_decimal_digit(s[0]));
        assert(s.last() == (48 + n) as u8);
        assert(s.drop_last() =~= Seq::<u8>::empty());
        assert(decimal_value(Seq::<u8>::empty()) == 0);
        assert(decimal_value(s) == decimal_value(s.drop_last()) * 10 + (s.last() - 48));
        assert(decimal_value(s) == n);
    } else {
        lemma_decimal_round_trip(n / 10);
        let s = decimal_digits_of(n);
        let s0 = decimal_digits_of(n / 10);
        assert(s.drop_last() =~= s0);
        assert(s.last() == (48 + n % 10) as u8);
        assert forall|k: int| 0 <= k < s.len() implies is_decimal_digit(#[trigger] s[k]) by {
            if k < s.len() - 1 {
                assert(s[k] == s0[k]);
            }
        }
        assert(decimal_value(s) == decimal_value(s0) * 10 + n % 10);
        vstd::arithmetic::div_mod::lemma_fundamental_div_mod(n, 10);
    }
}

/// Render `n` as its decimal numeral.
pub fn decimal_digits(n: u16) -> (r: Vec<u8>)
    ensures
        r@ == decimal_digits_of(n as int),
{
    let mut rev: Vec<u8> = Vec::new();
    let mut m: u16 = n;
    while m > 9
        invariant
            decimal_digits_of(n as int) =~= decimal_digits_of(m as int) + rev@.reverse(),
        decreases m,
    {
        let ghost before = rev@;
        rev.push(48 + (m % 10) as u8);
        proof {
            assert(rev@.reverse() =~= seq![(48 + (m as int) % 10) as u8] + before.reverse());
            assert(decimal_digits_of(m as int) =~= decimal_digits_of(m as int / 10) + seq![
                (48 + (m as int) % 10) as u8,
            ]);
            assert(decimal_digits_of(m as int / 10) + rev@.reverse() =~= decimal_digits_of(
                m as int,
            ) + before.reverse());
        }
        m = m / 10;
    }
    rev.push(48 + m as u8);
    proof {
        assert(decimal_digits_of(m as int) =~= seq![(48 + m as int) as u8]);
        assert(rev@.reverse() =~= decimal_digits_of(n as int));
    }
    let mut out: Vec<u8> = Vec::new();
    let mut k: usize = rev.len();
    while k > 0
        invariant
            k <= rev@.len(),
            out@ =~= rev@.subrange(k as int, rev@.len() as int).reverse(),
        decreases k,
    {
        k = k - 1;
        let ghost before = out@;
        out.push(rev[k]);
        proof {
            assert(out@ =~= rev@.subrange(k as int, rev@.len() as int).reverse());
        }
    }
    proof {
        assert(rev@.subrange(0, rev@.len() as int) =~= rev@);
    }
    out
}

/// One line of the final report: the port's numeral followed by
/// `" is opened"`.
pub fn port_report_line(port: u16) -> (r: Vec<u8>)
    ensures
        r@ == decimal_digits_of(port as int) + opened_suffix(),
{
    let mut line = decimal_digits(port);
    line.push(32);
    line.push(105);
    line.push(115);
    line.push(32);
    line.push(111);
    line.push(112);
    line.push(101);
    line.push(110);
    line.push(101);
    line.push(100);
    proof {
        assert(line@ =~= decimal_digits_of(port as int) + opened_suffix());
    }
    line
}

/// Ordering law: a sorted permutation of duplicate-free reports is strictly
/// ascending and itself duplicate-free — the scan result never lists a port
/// twice.
pub proof fn lemma_scan_result_strictly_ascending(reports: Seq<u16>, result: Seq<u16>)
    requires
        reports.no_duplicates(),
        sorted(result),
        result.to_multiset() == reports.to_multiset(),
    ensures
        strictly_sorted(result),
        result.no_duplicates(),
{
    reports.lemma_multiset_has_no_duplicates();
    result.lemma_multiset_has_no_duplicates_conv();
    assert forall|a: int, b: int| 0 <= a < b < result.len() implies result[a] < result[b] by {
        assert(result[a] <= result[b]);
        assert(result[a] != result[b]);
    }
}

/// Subset law: finalization invents no port.  If every reported port was
/// confirmed reachable, so is every port of the result.
pub proof fn lemma_scan_result_subset(reports: Seq<u16>, result: Seq<u16>, reachable: Set<u16>)
    requires
        forall|k: int| 0 <= k < reports.len() ==> reachable.contains(reports[k]),
        result.to_multiset() == reports.to_multiset(),
    ensures
        forall|k: int| 0 <= k < result.len() ==> reachable.contains(result[k]),
{
    broadcast use group_to_multiset_ensures;

    assert forall|k: int| 0 <= k < result.len() implies reachable.contains(result[k]) by {
        let p = result[k];
        assert(result.contains(p));
        assert(result.to_multiset().count(p) > 0);
        assert(reports.contains(p));
        let j = choose|j: int| 0 <= j < reports.len() && reports[j] == p;
        assert(reachable.contains(reports[j]));
    }
}

} // verus!
