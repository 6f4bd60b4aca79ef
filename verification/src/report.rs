//! The report of a scan: the host's address and the ports found listening.

use vstd::prelude::*;
use crate::ports::first_occurrences;
use crate::ports::lemma_first_occurrences_distinct;
use crate::ports::lemma_first_occurrences_members;
use crate::probe::ProbeOutcome;
use crate::scan::Completion;
use crate::scan::ScanModel;
use crate::scan::first_report;
use crate::scan::lemma_run_hears_first_reports;

verus! {

/// Each element is smaller than the one after it.
pub open spec fn strictly_ascending(s: Seq<u16>) -> bool {
    forall|i: int, j: int| 0 <= i < j < s.len() ==> s[i] < s[j]
}

/// Whether some outcome reports `port` as listening.
pub open spec fn reported_listening(outcomes: Seq<ProbeOutcome>, port: u16) -> bool {
    exists|i: int| 0 <= i < outcomes.len() && outcomes[i].port == port && outcomes[i].listening
}

/// A strictly ascending sequence holds no value twice.
pub proof fn lemma_ascending_is_distinct(s: Seq<u16>)
    requires
        strictly_ascending(s),
    ensures
        s.no_duplicates(),
{
    assert forall|i: int, j: int| 0 <= i < s.len() && 0 <= j < s.len() && i != j implies s[i]
        != s[j] by {
        if i < j {
            assert(s[i] < s[j]);
        } else {
            assert(s[j] < s[i]);
        }
    }
}

/// A sequence in which each element is smaller than its successor is strictly ascending.
pub proof fn lemma_ascending_by_neighbours(s: Seq<u16>)
    requires
        forall|k: int| 0 < k < s.len() ==> s[k - 1] < #[trigger] s[k],
    ensures
        strictly_ascending(s),
    decreases s.len(),
{
    if s.len() > 1 {
        let front = s.drop_last();
        assert forall|k: int| 0 < k < front.len() implies front[k - 1] < #[trigger] front[k] by {
            assert(s[k - 1] < s[k]);
        }
        lemma_ascending_by_neighbours(front);
        assert forall|i: int, j: int| 0 <= i < j < s.len() implies s[i] < s[j] by {
            if j < s.len() - 1 {
                assert(front[i] < front[j]);
            } else {
                assert(s[j - 1] < s[j]);
                if i < j - 1 {
                    assert(front[i] < front[j - 1]);
                }
            }
        }
    }
}

/// A strictly ascending sequence is fixed by the values it holds.
pub proof fn lemma_ascending_by_members(a: Seq<u16>, b: Seq<u16>)
    requires
        strictly_ascending(a),
        strictly_ascending(b),
        forall|p: u16| a.contains(p) <==> b.contains(p),
    ensures
        a == b,
    decreases a.len(),
{
    if a.len() == 0 {
        if b.len() > 0 {
            assert(b.contains(b[0]));
        }
    } else {
        // The greatest value of one is the greatest value of the other.
        let top = a.last();
        assert(a.contains(top));
        assert(b.contains(top));
        let at = choose|i: int| 0 <= i < b.len() && b[i] == top;
        if at < b.len() - 1 {
            assert(b.contains(b.last()));
            assert(a.contains(b.last()));
        }
        let a_front = a.drop_last();
        let b_front = b.drop_last();
        assert forall|p: u16| a_front.contains(p) <==> b_front.contains(p) by {
            if a_front.contains(p) {
                let i = choose|i: int| 0 <= i < a_front.len() && a_front[i] == p;
                assert(a[i] == p);
                assert(a.contains(p));
                assert(b.contains(p));
                let k = choose|k: int| 0 <= k < b.len() && b[k] == p;
                assert(b_front[k] == p);
            }
            if b_front.contains(p) {
                let i = choose|i: int| 0 <= i < b_front.len() && b_front[i] == p;
                assert(b[i] == p);
                assert(b.contains(p));
                assert(a.contains(p));
                let k = choose|k: int| 0 <= k < a.len() && a[k] == p;
                assert(a_front[k] == p);
            }
        }
        lemma_ascending_by_members(a_front, b_front);
        assert(a == a_front.push(top));
        assert(b == b_front.push(top));
    }
}

/// Puts `port` at its place in a strictly ascending vector, unless it is there already.
fn insert_ascending(ports: &mut Vec<u16>, port: u16)
    requires
        strictly_ascending(old(ports)@),
    ensures
        strictly_ascending(final(ports)@),
        forall|p: u16| final(ports)@.contains(p) <==> old(ports)@.contains(p) || p == port,
        old(ports)@.contains(port) ==> final(ports)@ == old(ports)@,
{
    let mut at: usize = 0;
    while at < ports.len() && ports[at] < port
        invariant
            at <= ports.len(),
            ports@ == old(ports)@,
            forall|k: int| 0 <= k < at ==> ports@[k] < port,
        decreases ports.len() - at,
    {
        at += 1;
    }
    if at < ports.len() && ports[at] == port {
        assert(ports@.contains(port));
        return ;
    }
    proof {
        if old(ports)@.contains(port) {
            let k = choose|k: int| 0 <= k < old(ports)@.len() && old(ports)@[k] == port;
            assert(false);
        }
    }
    ports.insert(at, port);
    proof {
        let before = old(ports)@;
        let after = ports@;
        assert forall|p: u16| after.contains(p) <==> before.contains(p) || p == port by {
            if before.contains(p) {
                let k = choose|k: int| 0 <= k < before.len() && before[k] == p;
                if k < at {
                    assert(after[k] == p);
                } else {
                    assert(after[k + 1] == p);
                }
            }
            if p == port {
                assert(after[at as int] == p);
            }
            if after.contains(p) {
                let k = choose|k: int| 0 <= k < after.len() && after[k] == p;
                if k < at {
                    assert(before[k] == p);
                } else if k > at {
                    assert(before[k - 1] == p);
                }
            }
        }
    }
}

/// The ports that the outcomes report as listening, in ascending order and
/// each of them once.
pub fn active_ports(outcomes: &Vec<ProbeOutcome>) -> (active: Vec<u16>)
    ensures
        strictly_ascending(active@),
        active@.no_duplicates(),
        forall|p: u16| active@.contains(p) <==> reported_listening(outcomes@, p),
{
    let mut active: Vec<u16> = Vec::new();
    let mut i: usize = 0;
    while i < outcomes.len()
        invariant
            i <= outcomes.len(),
            strictly_ascending(active@),
            forall|p: u16| active@.contains(p) <==> reported_listening(outcomes@.take(i as int), p),
        decreases outcomes.len() - i,
    {
        let outcome = outcomes[i];
        let ghost seen = outcomes@.take(i as int);
        let ghost next = outcomes@.take(i + 1);
        let ghost before = active@;
        if outcome.listening {
            insert_ascending(&mut active, outcome.port);
        }
        proof {
            assert forall|p: u16| active@.contains(p) <==> reported_listening(next, p) by {
                assert(before.contains(p) <==> reported_listening(seen, p));
                if reported_listening(seen, p) {
                    let k = choose|k: int|
                        0 <= k < seen.len() && seen[k].port == p && seen[k].listening;
                    assert(next[k].port == p && next[k].listening);
                }
                if outcome.listening && p == outcome.port {
                    assert(next[i as int].port == p && next[i as int].listening);
                }
                if reported_listening(next, p) {
                    let k = choose|k: int|
                        0 <= k < next.len() && next[k].port == p && next[k].listening;
                    if k < i {
                        assert(seen[k].port == p && seen[k].listening);
                    }
                }
            }
        }
        i += 1;
    }
    proof {
        assert(outcomes@.take(i as int) == outcomes@);
        lemma_ascending_is_distinct(active@);
    }
    active
}

/// What a paired client needs in order to find a development server on this
/// host: the host's address in the local network, if it could be resolved, and
/// the ports on which something listens.
#[derive(Debug, PartialEq, Eq)]
pub struct LocalInfo {
    pub ip: Option<String>,
    pub active_ports: Vec<u16>,
}

impl LocalInfo {
    /// The active ports are strictly ascending, and so free of duplicates.
    pub open spec fn wf(&self) -> bool {
        strictly_ascending(self.active_ports@)
    }

    /// The report for the outcomes of a scan and for what the lookup of the
    /// host's address gave. A lookup that failed leaves the address absent,
    /// whatever the failure was; it never fails the report.
    pub fn assemble<E>(lookup: Result<String, E>, outcomes: &Vec<ProbeOutcome>) -> (info: LocalInfo)
        ensures
            lookup matches Ok(address) ==> info.ip == Some(address),
            lookup is Err ==> info.ip is None,
            info.wf(),
            info.active_ports@.no_duplicates(),
            forall|p: u16| info.active_ports@.contains(p) <==> reported_listening(outcomes@, p),
    {
        let ip = match lookup {
            Ok(address) => Some(address),
            Err(_) => None,
        };
        LocalInfo { ip, active_ports: active_ports(outcomes) }
    }

    /// Whether the active ports are strictly ascending.
    pub fn is_well_formed(&self) -> (ok: bool)
        ensures
            ok == self.wf(),
    {
        let mut i: usize = 1;
        while i < self.active_ports.len()
            invariant
                1 <= i,
                forall|k: int|
                    0 < k < i && k < self.active_ports@.len() ==> self.active_ports@[k - 1]
                        < #[trigger] self.active_ports@[k],
            decreases self.active_ports.len() - i,
        {
            if self.active_ports[i - 1] >= self.active_ports[i] {
                return false;
            }
            i += 1;
        }
        proof {
            lemma_ascending_by_neighbours(self.active_ports@);
        }
        true
    }
}

/// Every active port of a report was asked for: whatever the probes deliver,
/// and in whatever order, a port that the scan reports as listening is one of
/// the default ports or one of the caller's extra ports.
pub proof fn lemma_active_ports_are_candidates(
    defaults: Seq<u16>,
    extra_ports: Seq<u16>,
    completions: Seq<Completion>,
)
    ensures
        forall|p: u16|
            reported_listening(
                ScanModel::start(first_occurrences(defaults + extra_ports)).run(
                    completions,
                ).outcomes(),
                p,
            ) ==> defaults.contains(p) || extra_ports.contains(p),
{
    let all = defaults + extra_ports;
    let ports = first_occurrences(all);
    let scan = ScanModel::start(ports).run(completions);
    lemma_first_occurrences_distinct(all);
    lemma_first_occurrences_members(all);
    lemma_run_hears_first_reports(ports, completions);
    assert forall|p: u16| reported_listening(scan.outcomes(), p) implies defaults.contains(p)
        || extra_ports.contains(p) by {
        let i = choose|i: int|
            0 <= i < scan.outcomes().len() && scan.outcomes()[i].port == p
                && scan.outcomes()[i].listening;
        assert(ports[i] == p);
        assert(ports.contains(p));
        assert(all.contains(p));
        let k = choose|k: int| 0 <= k < all.len() && all[k] == p;
        if k < defaults.len() {
            assert(defaults[k] == p);
        } else {
            assert(extra_ports[k - defaults.len()] == p);
        }
    }
}

/// A port is active exactly if it is under scan and the first probe that
/// finished for it found it listening.
pub proof fn lemma_active_ports_by_first_report(
    ports: Seq<u16>,
    completions: Seq<Completion>,
    port: u16,
)
    requires
        ports.no_duplicates(),
    ensures
        reported_listening(ScanModel::start(ports).run(completions).outcomes(), port) <==> (
        ports.contains(port) && first_report(completions, port) == Some(true)),
{
    let scan = ScanModel::start(ports).run(completions);
    lemma_run_hears_first_reports(ports, completions);
    if ports.contains(port) && first_report(completions, port) == Some(true) {
        let i = choose|i: int| 0 <= i < ports.len() && ports[i] == port;
        assert(scan.outcomes()[i].port == port && scan.outcomes()[i].listening);
    }
    if reported_listening(scan.outcomes(), port) {
        let i = choose|i: int|
            0 <= i < scan.outcomes().len() && scan.outcomes()[i].port == port
                && scan.outcomes()[i].listening;
        assert(ports[i] == port);
    }
}

/// Two scans that find the same ports listening end in the same active ports,
/// however their outcomes are ordered.
pub proof fn lemma_same_findings_same_ports(
    first: Seq<ProbeOutcome>,
    second: Seq<ProbeOutcome>,
    first_active: Seq<u16>,
    second_active: Seq<u16>,
)
    requires
        forall|p: u16| reported_listening(first, p) <==> reported_listening(second, p),
        strictly_ascending(first_active),
        strictly_ascending(second_active),
        forall|p: u16| first_active.contains(p) <==> reported_listening(first, p),
        forall|p: u16| second_active.contains(p) <==> reported_listening(second, p),
    ensures
        first_active == second_active,
{
    assert forall|p: u16| first_active.contains(p) <==> second_active.contains(p) by {
        assert(first_active.contains(p) <==> reported_listening(first, p));
        assert(second_active.contains(p) <==> reported_listening(second, p));
    }
    lemma_ascending_by_members(first_active, second_active);
}

} // verus!
