//! The liveness prober and signal sender: the sole source of truth for
//! process death, implemented by delivering signals (or the no-op existence
//! check) to process ids.

use vstd::prelude::*;

use crate::state::{alist_map, alist_unique, lemma_alist_dom, lemma_alist_index, lemma_alist_push,
    alist_find, PID_LIMIT};

verus! {

/// Outcome of probing a process id for liveness.
#[derive(Clone, Copy, Debug, PartialEq, Eq, Structural)]
pub enum Liveness {
    /// The process exists and is signalable.
    Alive,
    /// The kernel reported that no such process exists.
    Dead,
    /// The probe failed for some other reason (for example, permissions).
    Failed,
}

/// The two escalation signals.
#[derive(Clone, Copy, Debug, PartialEq, Eq, Structural)]
pub enum SigKind {
    /// SIGTERM: tell the process to exit.
    Term,
    /// SIGKILL: end the process.
    Kill,
}

/// Relies on `nix::sys::signal::kill`: delivers the chosen signal to the
/// process id (or, for `None`, performs only the existence check). The call
/// returns `Ok(())` on delivery, `Err(Errno::ESRCH)` when no such process
/// exists, and another errno on any other failure; those three outcomes are
/// mapped to `Ok(true)`, `Ok(false)` and `Err` with the errno's rendering.
/// The outcome depends on the state of the system, so nothing is promised
/// of it. The pid bound keeps the cast below from producing a negative
/// value, which the kernel would read as a process-group id.
#[verifier::external_body]
fn send_signal_raw(pid: u32, sig: Option<SigKind>) -> (r: Result<bool, String>)
    requires
        pid <= PID_LIMIT,
{
    let signal = match sig {
        None => None,
        Some(SigKind::Term) => Some(nix::sys::signal::Signal::SIGTERM),
        Some(SigKind::Kill) => Some(nix::sys::signal::Signal::SIGKILL),
    };
    match nix::sys::signal::kill(nix::unistd::Pid::from_raw(pid as i32), signal) {
        Ok(()) => Ok(true),
        Err(nix::errno::Errno::ESRCH) => Ok(false),
        Err(e) => Err(format!("kill {} failed: {:?}", pid, e)),
    }
}

/// Send `sig` to `pid`, or probe its existence when `sig` is `None`:
/// `Ok(true)` means delivered (or alive), `Ok(false)` means no such
/// process, and `Err` is any other failure. The outcome depends on what is
/// running at the moment of the call, so no particular one is promised.
pub fn kill(pid: u32, sig: Option<SigKind>) -> (r: Result<bool, String>)
    requires
        pid <= PID_LIMIT,
{
    send_signal_raw(pid, sig)
}

/// Is the process still alive? `Ok(true)`/`Ok(false)` when the kernel gave
/// a definite answer, `Err` when the probe itself failed.
pub fn is_alive(pid: u32) -> (r: Result<bool, String>)
    requires
        pid <= PID_LIMIT,
{
    kill(pid, None)
}

/// Probe `pid` and fold the three-way outcome into a `Liveness` verdict.
pub fn probe_liveness(pid: u32) -> Liveness
    requires
        pid <= PID_LIMIT,
{
    match is_alive(pid) {
        Ok(true) => Liveness::Alive,
        Ok(false) => Liveness::Dead,
        Err(_) => Liveness::Failed,
    }
}

/// One poll's liveness verdicts, one per probed process id. Probing is done
/// once per cycle, before reconciliation, so that the reconciler itself is
/// a pure function of its inputs.
pub struct LivenessTable {
    pub entries: Vec<(u32, Liveness)>,
}

impl View for LivenessTable {
    type V = Map<u32, Liveness>;

    open spec fn view(&self) -> Map<u32, Liveness> {
        alist_map(self.entries@)
    }
}

impl LivenessTable {
    pub open spec fn wf(&self) -> bool {
        alist_unique(self.entries@)
    }

    pub fn new() -> (r: LivenessTable)
        ensures
            r.wf(),
            r@ =~= Map::<u32, Liveness>::empty(),
    {
        LivenessTable { entries: Vec::new() }
    }

    pub fn contains(&self, pid: u32) -> (r: bool)
        ensures
            r == self@.contains_key(pid),
    {
        proof {
            lemma_alist_dom(self.entries@);
        }
        alist_find(&self.entries, pid).is_some()
    }

    /// The verdict recorded for `pid`, if one was.
    pub fn verdict(&self, pid: u32) -> (r: Option<Liveness>)
        requires
            self.wf(),
        ensures
            r == if self@.contains_key(pid) {
                Some(self@[pid])
            } else {
                None::<Liveness>
            },
    {
        proof {
            lemma_alist_dom(self.entries@);
        }
        match alist_find(&self.entries, pid) {
            Some(i) => {
                proof {
                    lemma_alist_index(self.entries@, i as int);
                }
                Some(self.entries[i].1)
            },
            None => None,
        }
    }

    /// Record a verdict for a pid that has none yet.
    pub fn add(&mut self, pid: u32, verdict: Liveness)
        requires
            old(self).wf(),
            !old(self)@.contains_key(pid),
        ensures
            final(self).wf(),
            final(self)@ == old(self)@.insert(pid, verdict),
    {
        proof {
            lemma_alist_dom(self.entries@);
            lemma_alist_push(self.entries@, pid, verdict);
        }
        self.entries.push((pid, verdict));
    }

    /// Probe every pid in `pids` that has no verdict yet, and record what
    /// came back. Earlier verdicts are kept unchanged.
    pub fn probe_all(&mut self, pids: &Vec<u32>)
        requires
            old(self).wf(),
            forall|i: int| 0 <= i < pids@.len() ==> (#[trigger] pids@[i]) <= PID_LIMIT,
        ensures
            final(self).wf(),
            forall|p: u32|
                #[trigger] old(self)@.contains_key(p) ==> final(self)@.contains_key(p)
                    && final(self)@[p] == old(self)@[p],
            forall|i: int|
                0 <= i < pids@.len() ==> final(self)@.contains_key(#[trigger] pids@[i]),
    {
        let mut i: usize = 0;
        while i < pids.len()
            invariant
                self.wf(),
                i <= pids@.len(),
                forall|j: int| 0 <= j < pids@.len() ==> (#[trigger] pids@[j]) <= PID_LIMIT,
                forall|p: u32|
                    #[trigger] old(self)@.contains_key(p) ==> self@.contains_key(p) && self@[p]
                        == old(self)@[p],
                forall|j: int| 0 <= j < i ==> self@.contains_key(#[trigger] pids@[j]),
            decreases pids@.len() - i,
        {
            let pid = pids[i];
            if !self.contains(pid) {
                let v = probe_liveness(pid);
                self.add(pid, v);
            }
            i += 1;
        }
    }
}

} // verus!
