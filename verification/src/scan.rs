//! The bookkeeping of one scan: which ports were handed out to probes, and
//! what has been heard back from them so far.
//!
//! The probes themselves run elsewhere, concurrently and in no particular
//! order. Whoever runs them starts one probe per port of [`Scan::ports`],
//! hands every completion to [`Scan::on_completion`] as it arrives, and asks
//! for the outcomes once the scan is complete.

use vstd::prelude::*;
use crate::ports::PortSet;
use crate::probe::ProbeOutcome;

verus! {

/// How one probe task ended.
#[derive(Clone, Copy, Debug, PartialEq, Eq)]
pub enum Completion {
    /// The probe ran to its end and delivers its finding.
    Finished(ProbeOutcome),
    /// The probe task broke off without a finding.
    Faulted,
}

/// What the coordinator does next.
#[derive(Clone, Copy, Debug, PartialEq, Eq)]
pub enum ScanStatus {
    /// Some probes have not ended yet: keep waiting for completions.
    Waiting,
    /// Every probe has ended: the outcomes can be taken.
    Complete,
}

/// The state of a scan as a mathematical value.
pub struct ScanModel {
    /// The ports under scan.
    pub ports: Seq<u16>,
    /// For each port, at the same index, the finding that was heard for it, if any.
    pub heard: Seq<Option<bool>>,
    /// How many probes have not ended yet.
    pub outstanding: nat,
}

impl ScanModel {
    /// A scan holds one slot per port, and no port twice.
    pub open spec fn wf(self) -> bool {
        &&& self.ports.no_duplicates()
        &&& self.heard.len() == self.ports.len()
        &&& self.outstanding <= self.ports.len()
    }

    /// The scan of `ports` before any probe has ended.
    pub open spec fn start(ports: Seq<u16>) -> ScanModel {
        ScanModel {
            ports,
            heard: Seq::new(ports.len(), |i: int| None::<bool>),
            outstanding: ports.len(),
        }
    }

    /// The findings after one more has come in for `port`: it fills the slot of
    /// that port if the slot was still empty, and changes nothing otherwise.
    pub open spec fn note(self, port: u16, listening: bool) -> Seq<Option<bool>> {
        Seq::new(
            self.heard.len(),
            |i: int|
                if self.ports[i] == port && self.heard[i] is None {
                    Some(listening)
                } else {
                    self.heard[i]
                },
        )
    }

    /// The scan after one more probe has ended.
    ///
    /// A finding is noted for its port if the port is under scan and nothing
    /// has been heard for it yet, and is ignored otherwise. A probe that broke
    /// off leaves no finding. Either way one probe less is outstanding.
    pub open spec fn step(self, completion: Completion) -> ScanModel {
        ScanModel {
            ports: self.ports,
            heard: match completion {
                Completion::Finished(outcome) => self.note(outcome.port, outcome.listening),
                Completion::Faulted => self.heard,
            },
            outstanding: if self.outstanding > 0 {
                (self.outstanding - 1) as nat
            } else {
                0
            },
        }
    }

    /// The scan after the probes have ended in the order of `completions`.
    pub open spec fn run(self, completions: Seq<Completion>) -> ScanModel
        decreases completions.len(),
    {
        if completions.len() == 0 {
            self
        } else {
            self.run(completions.drop_last()).step(completions.last())
        }
    }

    /// Whether every probe has ended.
    pub open spec fn complete(self) -> bool {
        self.outstanding == 0
    }

    /// One outcome per port, in the order of the ports. A port counts as
    /// listening only if a probe found it so.
    pub open spec fn outcomes(self) -> Seq<ProbeOutcome> {
        Seq::new(
            self.ports.len(),
            |i: int| ProbeOutcome { port: self.ports[i], listening: self.heard[i] == Some(true) },
        )
    }
}

/// The finding of the first probe in `completions` that finished for `port`.
pub open spec fn first_report(completions: Seq<Completion>, port: u16) -> Option<bool>
    decreases completions.len(),
{
    if completions.len() == 0 {
        None
    } else {
        match first_report(completions.drop_last(), port) {
            Some(listening) => Some(listening),
            None => match completions.last() {
                Completion::Finished(outcome) if outcome.port == port => Some(outcome.listening),
                _ => None,
            },
        }
    }
}

/// The port that a completion reports on, if it carries a finding.
pub open spec fn reported_port(completion: Completion) -> Option<u16> {
    match completion {
        Completion::Finished(outcome) => Some(outcome.port),
        Completion::Faulted => None,
    }
}

/// No two probes in `completions` finished for the same port.
pub open spec fn one_report_per_port(completions: Seq<Completion>) -> bool {
    forall|i: int, j: int|
        0 <= i < j < completions.len() && reported_port(#[trigger] completions[i]) is Some
            ==> reported_port(completions[i]) != reported_port(#[trigger] completions[j])
}

/// A step keeps a scan well formed.
pub proof fn lemma_step_wf(scan: ScanModel, completion: Completion)
    requires
        scan.wf(),
    ensures
        scan.step(completion).wf(),
        scan.step(completion).ports == scan.ports,
{
}

/// What a scan has heard after any run of completions: for each port the first
/// finding that was reported for it. One probe less is outstanding for every
/// completion, whatever it carried.
pub proof fn lemma_run_hears_first_reports(ports: Seq<u16>, completions: Seq<Completion>)
    requires
        ports.no_duplicates(),
    ensures
        ScanModel::start(ports).run(completions).wf(),
        ScanModel::start(ports).run(completions).ports == ports,
        forall|i: int|
            0 <= i < ports.len() ==> ScanModel::start(ports).run(completions).heard[i]
                == first_report(completions, ports[i]),
        completions.len() >= ports.len() ==> ScanModel::start(ports).run(completions).outstanding
            == 0,
        completions.len() < ports.len() ==> ScanModel::start(ports).run(completions).outstanding
            == ports.len() - completions.len(),
    decreases completions.len(),
{
    if completions.len() > 0 {
        let before = ScanModel::start(ports).run(completions.drop_last());
        let last = completions.last();
        lemma_run_hears_first_reports(ports, completions.drop_last());
        lemma_step_wf(before, last);
        let after = before.step(last);
        assert forall|i: int| 0 <= i < ports.len() implies after.heard[i] == first_report(
            completions,
            ports[i],
        ) by {
            assert(before.heard[i] == first_report(completions.drop_last(), ports[i]));
        }
    }
}

/// Where each port reports at most once, the first report for a port is the
/// only one: it is `Some(l)` exactly if a probe finished for the port with `l`.
pub proof fn lemma_first_report_by_membership(completions: Seq<Completion>, port: u16)
    requires
        one_report_per_port(completions),
    ensures
        forall|listening: bool|
            first_report(completions, port) == Some(listening) <==> completions.contains(
                Completion::Finished(ProbeOutcome { port, listening }),
            ),
    decreases completions.len(),
{
    if completions.len() > 0 {
        let front = completions.drop_last();
        let last = completions.last();
        assert(one_report_per_port(front)) by {
            assert forall|i: int, j: int|
                0 <= i < j < front.len() && reported_port(
                    #[trigger] front[i],
                ) is Some implies reported_port(front[i]) != reported_port(
                #[trigger] front[j],
            ) by {
                assert(front[i] == completions[i] && front[j] == completions[j]);
            }
        }
        lemma_first_report_by_membership(front, port);
        assert forall|listening: bool|
            first_report(completions, port) == Some(listening) <==> completions.contains(
                Completion::Finished(ProbeOutcome { port, listening }),
            ) by {
            let c = Completion::Finished(ProbeOutcome { port, listening });
            if completions.contains(c) {
                let i = choose|i: int| 0 <= i < completions.len() && completions[i] == c;
                if i < front.len() {
                    assert(front[i] == c);
                    assert(front.contains(c));
                } else {
                    assert(last == c);
                    if let Some(other) = first_report(front, port) {
                        let d = Completion::Finished(ProbeOutcome { port, listening: other });
                        assert(front.contains(d));
                        let j = choose|j: int| 0 <= j < front.len() && front[j] == d;
                        assert(completions[j] == d);
                    }
                }
            }
            if first_report(completions, port) == Some(listening) {
                if first_report(front, port) == Some(listening) {
                    assert(front.contains(c));
                    let i = choose|i: int| 0 <= i < front.len() && front[i] == c;
                    assert(completions[i] == c);
                } else {
                    assert(completions[completions.len() - 1] == c);
                }
            }
        }
    }
}

/// The order in which the probes end does not matter: two runs over the same
/// ports that deliver the same completions, each port reporting at most once,
/// yield the same outcomes.
pub proof fn lemma_completion_order_is_irrelevant(
    ports: Seq<u16>,
    first: Seq<Completion>,
    second: Seq<Completion>,
)
    requires
        ports.no_duplicates(),
        one_report_per_port(first),
        one_report_per_port(second),
        forall|c: Completion| first.contains(c) <==> second.contains(c),
    ensures
        ScanModel::start(ports).run(first).outcomes() == ScanModel::start(ports).run(
            second,
        ).outcomes(),
{
    lemma_run_hears_first_reports(ports, first);
    lemma_run_hears_first_reports(ports, second);
    let a = ScanModel::start(ports).run(first);
    let b = ScanModel::start(ports).run(second);
    assert forall|i: int| 0 <= i < ports.len() implies a.heard[i] == b.heard[i] by {
        lemma_first_report_by_membership(first, ports[i]);
        lemma_first_report_by_membership(second, ports[i]);
        match a.heard[i] {
            Some(listening) => {
                let c = Completion::Finished(ProbeOutcome { port: ports[i], listening });
                assert(first.contains(c));
                assert(second.contains(c));
            },
            None => {
                if let Some(listening) = b.heard[i] {
                    let c = Completion::Finished(ProbeOutcome { port: ports[i], listening });
                    assert(second.contains(c));
                    assert(first.contains(c));
                }
            },
        }
    }
    assert(a.outcomes() =~= b.outcomes());
}

/// One scan in progress.
pub struct Scan {
    ports: Vec<u16>,
    heard: Vec<Option<bool>>,
    outstanding: usize,
}

impl Scan {
    #[verifier::type_invariant]
    spec fn consistent(self) -> bool {
        &&& self.ports@.no_duplicates()
        &&& self.heard@.len() == self.ports@.len()
        &&& self.outstanding <= self.ports@.len()
    }

    /// The state of the scan.
    pub closed spec fn view(&self) -> ScanModel {
        ScanModel {
            ports: self.ports@,
            heard: self.heard@,
            outstanding: self.outstanding as nat,
        }
    }

    /// Begins a scan of the ports of `set`: one probe is to be started for
    /// each of them.
    pub fn start(set: &PortSet) -> (scan: Scan)
        ensures
            scan@ == ScanModel::start(set@),
            scan@.wf(),
    {
        let source = set.ports();
        let mut ports: Vec<u16> = Vec::new();
        let mut heard: Vec<Option<bool>> = Vec::new();
        let mut i: usize = 0;
        while i < source.len()
            invariant
                i <= source.len(),
                ports@ == source@.take(i as int),
                heard@ == Seq::new(i as nat, |k: int| None::<bool>),
            decreases source.len() - i,
        {
            ports.push(source[i]);
            heard.push(None);
            i += 1;
        }
        assert(source@.take(i as int) == source@);
        Scan { ports, heard, outstanding: i }
    }

    /// The ports under scan, in order.
    pub fn ports(&self) -> (ports: &Vec<u16>)
        ensures
            ports@ == self@.ports,
            ports@.no_duplicates(),
    {
        proof {
            use_type_invariant(self);
        }
        &self.ports
    }

    /// How many probes have not ended yet.
    pub fn outstanding(&self) -> (n: usize)
        ensures
            n == self@.outstanding,
    {
        self.outstanding
    }

    /// Whether every probe has ended.
    pub fn is_complete(&self) -> (done: bool)
        ensures
            done == self@.complete(),
    {
        self.outstanding == 0
    }

    /// Takes note that one more probe has ended, and says whether to keep waiting.
    pub fn on_completion(&mut self, completion: Completion) -> (status: ScanStatus)
        ensures
            final(self)@ == old(self)@.step(completion),
            final(self)@.wf(),
            (status is Complete) == final(self)@.complete(),
    {
        proof {
            use_type_invariant(&*self);
        }
        if self.outstanding > 0 {
            self.outstanding = self.outstanding - 1;
        }
        if let Completion::Finished(outcome) = completion {
            let mut i: usize = 0;
            while i < self.ports.len()
                invariant
                    i <= self.ports.len(),
                    self.ports@ == old(self).ports@,
                    self.heard@ == old(self).heard@,
                    self.heard@.len() == self.ports@.len(),
                    self.ports@.no_duplicates(),
                    self.outstanding <= self.ports@.len(),
                    self.outstanding == old(self)@.step(completion).outstanding,
                    completion == Completion::Finished(outcome),
                    forall|k: int| 0 <= k < i ==> self.ports@[k] != outcome.port,
                decreases self.ports.len() - i,
            {
                if self.ports[i] == outcome.port {
                    if self.heard[i].is_none() {
                        self.heard[i] = Some(outcome.listening);
                    }
                    assert(self.heard@ == old(self)@.note(outcome.port, outcome.listening));
                    return if self.outstanding == 0 {
                        ScanStatus::Complete
                    } else {
                        ScanStatus::Waiting
                    };
                }
                i += 1;
            }
            assert(self.heard@ == old(self)@.note(outcome.port, outcome.listening));
        }
        if self.outstanding == 0 {
            ScanStatus::Complete
        } else {
            ScanStatus::Waiting
        }
    }

    /// The outcomes of the scan, one per port, once every probe has ended.
    /// Before that there is no partial result.
    pub fn finish(&self) -> (outcomes: Option<Vec<ProbeOutcome>>)
        ensures
            (outcomes is Some) == self@.complete(),
            outcomes matches Some(list) ==> list@ == self@.outcomes(),
    {
        proof {
            use_type_invariant(self);
        }
        if self.outstanding != 0 {
            return None;
        }
        let mut list: Vec<ProbeOutcome> = Vec::new();
        let mut i: usize = 0;
        while i < self.ports.len()
            invariant
                i <= self.ports.len(),
                self.heard@.len() == self.ports@.len(),
                list@ == self@.outcomes().take(i as int),
            decreases self.ports.len() - i,
        {
            let listening = match self.heard[i] {
                Some(found) => found,
                None => false,
            };
            list.push(ProbeOutcome { port: self.ports[i], listening });
            assert(list@ == self@.outcomes().take(i + 1));
            i += 1;
        }
        assert(self@.outcomes().take(i as int) == self@.outcomes());
        Some(list)
    }
}

} // verus!
