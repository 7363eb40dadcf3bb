//! The escalation controller: turns the startup policy or an interactive
//! command into the concrete list of shutdown actions — polite close
//! requests and terminate/kill signals — and delivers the signals.

use vstd::prelude::*;

use crate::pattern::{any_match, pattern_views, any_apply, Config};
use crate::probe::{kill, SigKind};
use crate::state::{TrackedState, WindowInfo, XWindow, PID_LIMIT};

verus! {

/// One shutdown action decided by the escalation controller. Close
/// requests are delivered by the windowing layer; signals by the prober.
#[derive(Clone, Copy, Debug, PartialEq, Eq, Structural)]
pub enum Action {
    /// Ask the window to close politely.
    AskClose(XWindow),
    /// Send the signal to the process id.
    Signal(u32, SigKind),
}

/// An operator command, or what stands in for one.
#[derive(Clone, Copy, Debug, PartialEq, Eq, Structural)]
pub enum Command {
    /// Ask every tracked window to close.
    Ask,
    /// Send terminate to every tracked and orphaned pid.
    Tell,
    /// Send kill to every tracked and orphaned pid.
    Kill,
    /// End the loop now.
    Quit,
    /// An unrecognized byte; reported back, otherwise a no-op.
    Unsupported(u8),
    /// No input arrived this cycle.
    Idle,
}

/// What arrived on the input channel during one cycle's wait.
#[derive(Clone, Copy, Debug, PartialEq, Eq, Structural)]
pub enum InputEvent {
    /// One byte of operator input.
    Byte(u8),
    /// The wait timed out with no input.
    TimedOut,
    /// The input source has gone away; treated as a quit.
    Disconnected,
}

/// The command each input event stands for: `a`/`d` ask, `t` tell, `k`
/// kill, `q` or end-of-input quit; any other byte is unsupported.
pub open spec fn spec_interpret(e: InputEvent) -> Command {
    match e {
        InputEvent::Byte(b) => {
            if b == 97 || b == 100 {
                Command::Ask
            } else if b == 116 {
                Command::Tell
            } else if b == 107 {
                Command::Kill
            } else if b == 113 {
                Command::Quit
            } else {
                Command::Unsupported(b)
            }
        },
        InputEvent::TimedOut => Command::Idle,
        InputEvent::Disconnected => Command::Quit,
    }
}

/// Decode one cycle's input event into the command it stands for.
pub fn interpret_input(e: InputEvent) -> (c: Command)
    ensures
        c == spec_interpret(e),
{
    match e {
        InputEvent::Byte(b) => {
            if b == 97 || b == 100 {
                Command::Ask
            } else if b == 116 {
                Command::Tell
            } else if b == 107 {
                Command::Kill
            } else if b == 113 {
                Command::Quit
            } else {
                Command::Unsupported(b)
            }
        },
        InputEvent::TimedOut => Command::Idle,
        InputEvent::Disconnected => Command::Quit,
    }
}

// ---------------------------------------------------------------------------
// Startup policy
// ---------------------------------------------------------------------------

/// Close requests for every window whose class matches the pattern list,
/// in tracking order.
pub open spec fn ask_phase(ws: Seq<(u32, WindowInfo)>, pats: Seq<Seq<char>>) -> Seq<Action>
    decreases ws.len(),
{
    if ws.len() == 0 {
        Seq::empty()
    } else {
        ask_phase(ws.drop_last(), pats) + (if any_match(pats, ws.last().1.class@) {
            seq![Action::AskClose(XWindow(ws.last().0))]
        } else {
            Seq::empty()
        })
    }
}

pub open spec fn signal_pids(pids: Seq<u32>, sig: SigKind) -> Seq<Action> {
    pids.map_values(|p: u32| Action::Signal(p, sig))
}

/// Signals to every pid of every window whose class matches the pattern
/// list, in tracking order.
pub open spec fn signal_phase(
    ws: Seq<(u32, WindowInfo)>,
    pats: Seq<Seq<char>>,
    sig: SigKind,
) -> Seq<Action>
    decreases ws.len(),
{
    if ws.len() == 0 {
        Seq::empty()
    } else {
        signal_phase(ws.drop_last(), pats, sig) + (if any_match(pats, ws.last().1.class@) {
            signal_pids(ws.last().1.pids@, sig)
        } else {
            Seq::empty()
        })
    }
}

/// The whole startup plan: the three lists are applied independently per
/// window, always in the order ask, then tell, then kill.
pub open spec fn startup_plan(
    ws: Seq<(u32, WindowInfo)>,
    ask: Seq<Seq<char>>,
    tell: Seq<Seq<char>>,
    kill_pats: Seq<Seq<char>>,
) -> Seq<Action> {
    ask_phase(ws, ask) + signal_phase(ws, tell, SigKind::Term) + signal_phase(
        ws,
        kill_pats,
        SigKind::Kill,
    )
}

fn push_all(dst: &mut Vec<Action>, src: &Vec<Action>)
    ensures
        final(dst)@ == old(dst)@ + src@,
{
    let mut i: usize = 0;
    while i < src.len()
        invariant
            i <= src@.len(),
            dst@ == old(dst)@ + src@.take(i as int),
        decreases src@.len() - i,
    {
        let ghost pre = dst@;
        dst.push(src[i]);
        proof {
            assert(src@.take(i as int + 1) =~= src@.take(i as int).push(src@[i as int]));
            assert(dst@ =~= old(dst)@ + src@.take(i as int + 1));
        }
        i += 1;
    }
    proof {
        assert(src@.take(src@.len() as int) =~= src@);
        assert(dst@ =~= old(dst)@ + src@);
    }
}

fn build_ask_phase(state: &TrackedState, pats: &Vec<crate::pattern::Pattern>) -> (acts: Vec<
    Action,
>)
    ensures
        acts@ == ask_phase(state.windows@, pattern_views(pats@)),
{
    let mut acts: Vec<Action> = Vec::new();
    let mut i: usize = 0;
    proof {
        assert(state.windows@.take(0) =~= Seq::<(u32, WindowInfo)>::empty());
        assert(acts@ =~= ask_phase(state.windows@.take(0), pattern_views(pats@)));
    }
    while i < state.windows.len()
        invariant
            i <= state.windows@.len(),
            acts@ == ask_phase(state.windows@.take(i as int), pattern_views(pats@)),
        decreases state.windows@.len() - i,
    {
        let ghost pre = state.windows@.take(i as int);
        let ghost post = state.windows@.take(i as int + 1);
        proof {
            assert(post.drop_last() =~= pre);
            assert(post.last() == state.windows@[i as int]);
        }
        if any_apply(state.windows[i].1.class.as_str(), pats) {
            let ghost apre = acts@;
            acts.push(Action::AskClose(XWindow(state.windows[i].0)));
            proof {
                assert(acts@ =~= apre + seq![
                    Action::AskClose(XWindow(state.windows@[i as int].0)),
                ]);
            }
        } else {
            proof {
                assert(acts@ =~= acts@ + Seq::<Action>::empty());
            }
        }
        i += 1;
    }
    proof {
        assert(state.windows@.take(state.windows@.len() as int) =~= state.windows@);
    }
    acts
}

fn build_signal_phase(
    state: &TrackedState,
    pats: &Vec<crate::pattern::Pattern>,
    sig: SigKind,
) -> (acts: Vec<Action>)
    ensures
        acts@ == signal_phase(state.windows@, pattern_views(pats@), sig),
{
    let mut acts: Vec<Action> = Vec::new();
    let mut i: usize = 0;
    proof {
        assert(state.windows@.take(0) =~= Seq::<(u32, WindowInfo)>::empty());
        assert(acts@ =~= signal_phase(state.windows@.take(0), pattern_views(pats@), sig));
    }
    while i < state.windows.len()
        invariant
            i <= state.windows@.len(),
            acts@ == signal_phase(state.windows@.take(i as int), pattern_views(pats@), sig),
        decreases state.windows@.len() - i,
    {
        let ghost pre = state.windows@.take(i as int);
        let ghost post = state.windows@.take(i as int + 1);
        proof {
            assert(post.drop_last() =~= pre);
            assert(post.last() == state.windows@[i as int]);
        }
        if any_apply(state.windows[i].1.class.as_str(), pats) {
            let mut j: usize = 0;
            let ghost base = acts@;
            proof {
                assert(state.windows@[i as int].1.pids@.take(0) =~= Seq::<u32>::empty());
                assert(signal_pids(state.windows@[i as int].1.pids@.take(0), sig) =~= Seq::<
                    Action,
                >::empty());
                assert(acts@ =~= base + signal_pids(
                    state.windows@[i as int].1.pids@.take(0),
                    sig,
                ));
            }
            while j < state.windows[i].1.pids.len()
                invariant
                    0 <= i < state.windows@.len(),
                    j <= state.windows@[i as int].1.pids@.len(),
                    acts@ == base + signal_pids(
                        state.windows@[i as int].1.pids@.take(j as int),
                        sig,
                    ),
                decreases state.windows@[i as int].1.pids@.len() - j,
            {
                let p = state.windows[i].1.pids[j];
                let ghost apre = acts@;
                acts.push(Action::Signal(p, sig));
                proof {
                    assert(state.windows@[i as int].1.pids@.take(j as int + 1)
                        =~= state.windows@[i as int].1.pids@.take(j as int).push(
                        state.windows@[i as int].1.pids@[j as int],
                    ));
                    assert(signal_pids(state.windows@[i as int].1.pids@.take(j as int + 1), sig)
                        =~= signal_pids(
                        state.windows@[i as int].1.pids@.take(j as int),
                        sig,
                    ).push(Action::Signal(state.windows@[i as int].1.pids@[j as int], sig)));
                    assert(acts@ =~= base + signal_pids(
                        state.windows@[i as int].1.pids@.take(j as int + 1),
                        sig,
                    ));
                }
                j += 1;
            }
            proof {
                assert(state.windows@[i as int].1.pids@.take(
                    state.windows@[i as int].1.pids@.len() as int,
                ) =~= state.windows@[i as int].1.pids@);
                assert(acts@ =~= signal_phase(post, pattern_views(pats@), sig));
            }
        } else {
            proof {
                assert(acts@ =~= acts@ + Seq::<Action>::empty());
            }
        }
        i += 1;
    }
    proof {
        assert(state.windows@.take(state.windows@.len() as int) =~= state.windows@);
    }
    acts
}

/// Apply the startup policy to the windows present at startup: a polite
/// close request for every window matching the ask list, then a terminate
/// signal for every pid of every window matching the tell list, then a
/// kill signal for every pid of every window matching the kill list. The
/// three lists are tested independently, so one window may receive several
/// actions.
pub fn startup_actions(state: &TrackedState, config: &Config) -> (acts: Vec<Action>)
    ensures
        acts@ == startup_plan(
            state.windows@,
            pattern_views(config.on_start_ask@),
            pattern_views(config.on_start_tell@),
            pattern_views(config.on_start_kill@),
        ),
{
    let mut acts = build_ask_phase(state, &config.on_start_ask);
    let tell = build_signal_phase(state, &config.on_start_tell, SigKind::Term);
    let kl = build_signal_phase(state, &config.on_start_kill, SigKind::Kill);
    push_all(&mut acts, &tell);
    push_all(&mut acts, &kl);
    proof {
        assert(acts@ =~= startup_plan(
            state.windows@,
            pattern_views(config.on_start_ask@),
            pattern_views(config.on_start_tell@),
            pattern_views(config.on_start_kill@),
        ));
    }
    acts
}

// ---------------------------------------------------------------------------
// Interactive commands
// ---------------------------------------------------------------------------

/// Close requests for every tracked window, in tracking order.
pub open spec fn ask_all_plan(ws: Seq<(u32, WindowInfo)>) -> Seq<Action> {
    ws.map_values(|e: (u32, WindowInfo)| Action::AskClose(XWindow(e.0)))
}

/// Signals to every pid of every tracked window, in tracking order.
pub open spec fn signal_all_windows(ws: Seq<(u32, WindowInfo)>, sig: SigKind) -> Seq<Action>
    decreases ws.len(),
{
    if ws.len() == 0 {
        Seq::empty()
    } else {
        signal_all_windows(ws.drop_last(), sig) + signal_pids(ws.last().1.pids@, sig)
    }
}

/// Signals to every orphaned pid, in map order.
pub open spec fn signal_orphans(orphans: Seq<(u32, WindowInfo)>, sig: SigKind) -> Seq<Action> {
    orphans.map_values(|e: (u32, WindowInfo)| Action::Signal(e.0, sig))
}

/// What a global interactive command does: ask sends a close request to
/// every tracked window; tell and kill signal every tracked and orphaned
/// pid; everything else does nothing.
pub open spec fn command_plan(
    ws: Seq<(u32, WindowInfo)>,
    orphans: Seq<(u32, WindowInfo)>,
    cmd: Command,
) -> Seq<Action> {
    match cmd {
        Command::Ask => ask_all_plan(ws),
        Command::Tell => signal_all_windows(ws, SigKind::Term) + signal_orphans(
            orphans,
            SigKind::Term,
        ),
        Command::Kill => signal_all_windows(ws, SigKind::Kill) + signal_orphans(
            orphans,
            SigKind::Kill,
        ),
        _ => Seq::empty(),
    }
}

/// The actions a global command performs on the current state. The state
/// itself is untouched: membership only changes when a later poll confirms
/// a death.
pub fn command_actions(state: &TrackedState, cmd: Command) -> (acts: Vec<Action>)
    ensures
        acts@ == command_plan(state.windows@, state.orphans@, cmd),
{
    let mut acts: Vec<Action> = Vec::new();
    match cmd {
        Command::Ask => {
            let mut i: usize = 0;
            proof {
                assert(acts@ =~= ask_all_plan(state.windows@.take(0)));
            }
            while i < state.windows.len()
                invariant
                    i <= state.windows@.len(),
                    acts@ == ask_all_plan(state.windows@.take(i as int)),
                decreases state.windows@.len() - i,
            {
                let ghost apre = acts@;
                acts.push(Action::AskClose(XWindow(state.windows[i].0)));
                proof {
                    assert(state.windows@.take(i as int + 1) =~= state.windows@.take(
                        i as int,
                    ).push(state.windows@[i as int]));
                    assert(ask_all_plan(state.windows@.take(i as int + 1)) =~= ask_all_plan(
                        state.windows@.take(i as int),
                    ).push(Action::AskClose(XWindow(state.windows@[i as int].0))));
                }
                i += 1;
            }
            proof {
                assert(state.windows@.take(state.windows@.len() as int) =~= state.windows@);
            }
        },
        Command::Tell => {
            acts = signal_everything(state, SigKind::Term);
        },
        Command::Kill => {
            acts = signal_everything(state, SigKind::Kill);
        },
        _ => {},
    }
    acts
}

fn signal_everything(state: &TrackedState, sig: SigKind) -> (acts: Vec<Action>)
    ensures
        acts@ == signal_all_windows(state.windows@, sig) + signal_orphans(state.orphans@, sig),
{
    let mut acts: Vec<Action> = Vec::new();
    let mut i: usize = 0;
    proof {
        assert(state.windows@.take(0) =~= Seq::<(u32, WindowInfo)>::empty());
        assert(acts@ =~= signal_all_windows(state.windows@.take(0), sig));
    }
    while i < state.windows.len()
        invariant
            i <= state.windows@.len(),
            acts@ == signal_all_windows(state.windows@.take(i as int), sig),
        decreases state.windows@.len() - i,
    {
        let ghost pre = state.windows@.take(i as int);
        let ghost post = state.windows@.take(i as int + 1);
        let ghost base = acts@;
        proof {
            assert(post.drop_last() =~= pre);
            assert(post.last() == state.windows@[i as int]);
            assert(state.windows@[i as int].1.pids@.take(0) =~= Seq::<u32>::empty());
            assert(signal_pids(state.windows@[i as int].1.pids@.take(0), sig) =~= Seq::<
                Action,
            >::empty());
            assert(acts@ =~= base + signal_pids(state.windows@[i as int].1.pids@.take(0), sig));
        }
        let mut j: usize = 0;
        while j < state.windows[i].1.pids.len()
            invariant
                0 <= i < state.windows@.len(),
                j <= state.windows@[i as int].1.pids@.len(),
                acts@ == base + signal_pids(state.windows@[i as int].1.pids@.take(j as int), sig),
            decreases state.windows@[i as int].1.pids@.len() - j,
        {
            let p = state.windows[i].1.pids[j];
            acts.push(Action::Signal(p, sig));
            proof {
                assert(state.windows@[i as int].1.pids@.take(j as int + 1) =~= state.windows@[
                    i as int
                ].1.pids@.take(j as int).push(state.windows@[i as int].1.pids@[j as int]));
                assert(signal_pids(state.windows@[i as int].1.pids@.take(j as int + 1), sig)
                    =~= signal_pids(state.windows@[i as int].1.pids@.take(j as int), sig).push(
                    Action::Signal(state.windows@[i as int].1.pids@[j as int], sig),
                ));
                assert(acts@ =~= base + signal_pids(
                    state.windows@[i as int].1.pids@.take(j as int + 1),
                    sig,
                ));
            }
            j += 1;
        }
        proof {
            assert(state.windows@[i as int].1.pids@.take(
                state.windows@[i as int].1.pids@.len() as int,
            ) =~= state.windows@[i as int].1.pids@);
            assert(acts@ =~= signal_all_windows(post, sig));
        }
        i += 1;
    }
    proof {
        assert(state.windows@.take(state.windows@.len() as int) =~= state.windows@);
    }
    let mut i: usize = 0;
    let ghost wbase = acts@;
    proof {
        assert(signal_orphans(state.orphans@.take(0), sig) =~= Seq::<Action>::empty());
        assert(acts@ =~= wbase + signal_orphans(state.orphans@.take(0), sig));
    }
    while i < state.orphans.len()
        invariant
            i <= state.orphans@.len(),
            acts@ == wbase + signal_orphans(state.orphans@.take(i as int), sig),
        decreases state.orphans@.len() - i,
    {
        let p = state.orphans[i].0;
        acts.push(Action::Signal(p, sig));
        proof {
            assert(state.orphans@.take(i as int + 1) =~= state.orphans@.take(i as int).push(
                state.orphans@[i as int],
            ));
            assert(signal_orphans(state.orphans@.take(i as int + 1), sig) =~= signal_orphans(
                state.orphans@.take(i as int),
                sig,
            ).push(Action::Signal(state.orphans@[i as int].0, sig)));
            assert(acts@ =~= wbase + signal_orphans(state.orphans@.take(i as int + 1), sig));
        }
        i += 1;
    }
    proof {
        assert(state.orphans@.take(state.orphans@.len() as int) =~= state.orphans@);
    }
    acts
}

proof fn lemma_signal_all_windows_bounded(ws: Seq<(u32, WindowInfo)>, sig: SigKind)
    requires
        forall|i: int| 0 <= i < ws.len() ==> (#[trigger] ws[i]).1.wf(),
    ensures
        forall|k: int|
            0 <= k < signal_all_windows(ws, sig).len() ==> ((#[trigger] signal_all_windows(
                ws,
                sig,
            )[k]) matches Action::Signal(p, s) ==> p <= PID_LIMIT),
    decreases ws.len(),
{
    if ws.len() > 0 {
        assert forall|i: int| 0 <= i < ws.drop_last().len() implies (
        #[trigger] ws.drop_last()[i]).1.wf() by {
            assert(ws.drop_last()[i] == ws[i]);
        }
        lemma_signal_all_windows_bounded(ws.drop_last(), sig);
        let rec = signal_all_windows(ws.drop_last(), sig);
        let tail = signal_pids(ws.last().1.pids@, sig);
        assert forall|k: int|
            0 <= k < signal_all_windows(ws, sig).len() implies ((#[trigger] signal_all_windows(
            ws,
            sig,
        )[k]) matches Action::Signal(p, s) ==> p <= PID_LIMIT) by {
            if k < rec.len() {
                assert(signal_all_windows(ws, sig)[k] == rec[k]);
            } else {
                assert(signal_all_windows(ws, sig)[k] == tail[k - rec.len()]);
                assert(tail[k - rec.len()] == Action::Signal(
                    ws.last().1.pids@[k - rec.len()],
                    sig,
                ));
                assert(ws[ws.len() - 1].1.wf());
            }
        }
    }
}

/// Every signal action the interactive plans produce targets a pid small
/// enough for the signal interface.
proof fn lemma_command_plan_bounded(state: &TrackedState, cmd: Command)
    requires
        state.wf(),
    ensures
        forall|k: int|
            0 <= k < command_plan(state.windows@, state.orphans@, cmd).len() ==> ((
            #[trigger] command_plan(state.windows@, state.orphans@, cmd)[k]) matches
                Action::Signal(p, s) ==> p <= PID_LIMIT),
{
    let plan = command_plan(state.windows@, state.orphans@, cmd);
    if cmd is Tell || cmd is Kill {
        let sig = if cmd is Tell {
            SigKind::Term
        } else {
            SigKind::Kill
        };
        lemma_signal_all_windows_bounded(state.windows@, sig);
        let wpart = signal_all_windows(state.windows@, sig);
        let opart = signal_orphans(state.orphans@, sig);
        assert forall|k: int|
            0 <= k < plan.len() implies ((#[trigger] plan[k]) matches Action::Signal(p, s)
            ==> p <= PID_LIMIT) by {
            if k < wpart.len() {
                assert(plan[k] == wpart[k]);
            } else {
                assert(plan[k] == opart[k - wpart.len()]);
                assert(opart[k - wpart.len()] == Action::Signal(
                    state.orphans@[k - wpart.len()].0,
                    sig,
                ));
            }
        }
    } else if cmd is Ask {
        assert forall|k: int|
            0 <= k < plan.len() implies ((#[trigger] plan[k]) matches Action::Signal(p, s)
            ==> p <= PID_LIMIT) by {
            assert(plan[k] == Action::AskClose(XWindow(state.windows@[k].0)));
        }
    }
}

/// The global command a signal stands for: terminate is the tell command,
/// kill the kill command.
pub open spec fn sig_command(sig: SigKind) -> Command {
    match sig {
        SigKind::Term => Command::Tell,
        SigKind::Kill => Command::Kill,
    }
}

/// Deliver `sig` to every pid in the tracked state and in the orphan map,
/// as the interactive tell and kill commands do. Returns whether any
/// signal found a live process, or the first hard delivery error. What
/// each delivery returns depends on what is running at that moment, so
/// only the set of targets is pinned (by `command_plan`); beyond that,
/// with no targets at all nothing is sent and `Ok(false)` comes back, and
/// `Ok(true)` can only come back when there was a target. The state itself
/// is untouched.
pub fn kill_all(state: &TrackedState, sig: SigKind) -> (r: Result<bool, String>)
    requires
        state.wf(),
    ensures
        command_plan(state.windows@, state.orphans@, sig_command(sig)).len() == 0 ==> r == Ok::<
            bool,
            String,
        >(false),
        (r matches Ok(b) && b) ==> command_plan(
            state.windows@,
            state.orphans@,
            sig_command(sig),
        ).len() > 0,
{
    let cmd = match sig {
        SigKind::Term => Command::Tell,
        SigKind::Kill => Command::Kill,
    };
    let acts = command_actions(state, cmd);
    proof {
        lemma_command_plan_bounded(state, cmd);
        assert(cmd == sig_command(sig));
    }
    let mut did_anything = false;
    let mut i: usize = 0;
    while i < acts.len()
        invariant
            i <= acts@.len(),
            acts@ == command_plan(state.windows@, state.orphans@, sig_command(sig)),
            forall|k: int|
                0 <= k < acts@.len() ==> ((#[trigger] acts@[k]) matches Action::Signal(p, s)
                    ==> p <= PID_LIMIT),
            did_anything ==> acts@.len() > 0,
        decreases acts@.len() - i,
    {
        match acts[i] {
            Action::Signal(p, s) => {
                match kill(p, Some(s)) {
                    Ok(v) => {
                        did_anything = did_anything || v;
                    },
                    Err(e) => {
                        return Err(e);
                    },
                }
            },
            Action::AskClose(_) => {},
        }
        i += 1;
    }
    Ok(did_anything)
}

// ---------------------------------------------------------------------------
// Laws of the startup policy
// ---------------------------------------------------------------------------

proof fn lemma_ask_phase_elems(ws: Seq<(u32, WindowInfo)>, pats: Seq<Seq<char>>)
    ensures
        forall|k: int|
            0 <= k < ask_phase(ws, pats).len() ==> (#[trigger] ask_phase(ws, pats)[k])
                is AskClose,
    decreases ws.len(),
{
    if ws.len() > 0 {
        lemma_ask_phase_elems(ws.drop_last(), pats);
        let rec = ask_phase(ws.drop_last(), pats);
        assert forall|k: int|
            0 <= k < ask_phase(ws, pats).len() implies (#[trigger] ask_phase(ws, pats)[k])
            is AskClose by {
            if k < rec.len() {
                assert(ask_phase(ws, pats)[k] == rec[k]);
            } else {
                assert(ask_phase(ws, pats)[k] == Action::AskClose(XWindow(ws.last().0)));
            }
        }
    }
}

proof fn lemma_signal_phase_elems(ws: Seq<(u32, WindowInfo)>, pats: Seq<Seq<char>>, sig: SigKind)
    ensures
        forall|k: int|
            0 <= k < signal_phase(ws, pats, sig).len() ==> ((#[trigger] signal_phase(
                ws,
                pats,
                sig,
            )[k]) matches Action::Signal(p, s) && s == sig),
    decreases ws.len(),
{
    if ws.len() > 0 {
        lemma_signal_phase_elems(ws.drop_last(), pats, sig);
        let rec = signal_phase(ws.drop_last(), pats, sig);
        assert forall|k: int|
            0 <= k < signal_phase(ws, pats, sig).len() implies ((#[trigger] signal_phase(
            ws,
            pats,
            sig,
        )[k]) matches Action::Signal(p, s) && s == sig) by {
            if k < rec.len() {
                assert(signal_phase(ws, pats, sig)[k] == rec[k]);
            } else {
                let tail = signal_pids(ws.last().1.pids@, sig);
                assert(signal_phase(ws, pats, sig)[k] == tail[k - rec.len()]);
                assert(tail[k - rec.len()] == Action::Signal(
                    ws.last().1.pids@[k - rec.len()],
                    sig,
                ));
            }
        }
    }
}

proof fn lemma_ask_phase_contains(ws: Seq<(u32, WindowInfo)>, pats: Seq<Seq<char>>, i: int)
    requires
        0 <= i < ws.len(),
        any_match(pats, ws[i].1.class@),
    ensures
        exists|k: int|
            0 <= k < ask_phase(ws, pats).len() && (#[trigger] ask_phase(ws, pats)[k])
                == Action::AskClose(XWindow(ws[i].0)),
    decreases ws.len(),
{
    let plan = ask_phase(ws, pats);
    if i == ws.len() - 1 {
        assert(plan[plan.len() - 1] == Action::AskClose(XWindow(ws[i].0)));
    } else {
        assert(ws.drop_last()[i] == ws[i]);
        lemma_ask_phase_contains(ws.drop_last(), pats, i);
        let rec = ask_phase(ws.drop_last(), pats);
        let k = choose|k: int|
            0 <= k < rec.len() && (#[trigger] rec[k]) == Action::AskClose(XWindow(ws[i].0));
        assert(plan[k] == rec[k]);
    }
}

proof fn lemma_signal_phase_contains(
    ws: Seq<(u32, WindowInfo)>,
    pats: Seq<Seq<char>>,
    sig: SigKind,
    i: int,
    p: u32,
)
    requires
        0 <= i < ws.len(),
        any_match(pats, ws[i].1.class@),
        ws[i].1.pids@.contains(p),
    ensures
        exists|k: int|
            0 <= k < signal_phase(ws, pats, sig).len() && (#[trigger] signal_phase(
                ws,
                pats,
                sig,
            )[k]) == Action::Signal(p, sig),
    decreases ws.len(),
{
    let plan = signal_phase(ws, pats, sig);
    if i == ws.len() - 1 {
        let rec = signal_phase(ws.drop_last(), pats, sig);
        let tail = signal_pids(ws.last().1.pids@, sig);
        let m = choose|m: int| 0 <= m < ws[i].1.pids@.len() && ws[i].1.pids@[m] == p;
        assert(tail[m] == Action::Signal(p, sig));
        assert(plan[rec.len() + m] == tail[m]);
    } else {
        assert(ws.drop_last()[i] == ws[i]);
        lemma_signal_phase_contains(ws.drop_last(), pats, sig, i, p);
        let rec = signal_phase(ws.drop_last(), pats, sig);
        let k = choose|k: int|
            0 <= k < rec.len() && (#[trigger] rec[k]) == Action::Signal(p, sig);
        assert(plan[k] == rec[k]);
    }
}

/// Startup policy independence: a window whose class matches both the ask
/// and the kill lists receives both a close request and, for each of its
/// pids, a kill signal, and in the plan every close request comes before
/// every kill signal — the phases run ask, then tell, then kill,
/// regardless of how the lists were given.
pub proof fn lemma_startup_policy_independence(
    ws: Seq<(u32, WindowInfo)>,
    ask: Seq<Seq<char>>,
    tell: Seq<Seq<char>>,
    kill_pats: Seq<Seq<char>>,
    i: int,
    p: u32,
)
    requires
        0 <= i < ws.len(),
        any_match(ask, ws[i].1.class@),
        any_match(kill_pats, ws[i].1.class@),
        ws[i].1.pids@.contains(p),
    ensures
        exists|k: int|
            0 <= k < startup_plan(ws, ask, tell, kill_pats).len() && (#[trigger] startup_plan(
                ws,
                ask,
                tell,
                kill_pats,
            )[k]) == Action::AskClose(XWindow(ws[i].0)),
        exists|k: int|
            0 <= k < startup_plan(ws, ask, tell, kill_pats).len() && (#[trigger] startup_plan(
                ws,
                ask,
                tell,
                kill_pats,
            )[k]) == Action::Signal(p, SigKind::Kill),
        forall|a: int, b: int|
            0 <= a < startup_plan(ws, ask, tell, kill_pats).len() && 0 <= b < startup_plan(
                ws,
                ask,
                tell,
                kill_pats,
            ).len() && (#[trigger] startup_plan(ws, ask, tell, kill_pats)[a]) is AskClose && ((
            #[trigger] startup_plan(ws, ask, tell, kill_pats)[b]) matches Action::Signal(
                q,
                s,
            ) && s == SigKind::Kill) ==> a < b,
{
    let plan = startup_plan(ws, ask, tell, kill_pats);
    let ap = ask_phase(ws, ask);
    let tp = signal_phase(ws, tell, SigKind::Term);
    let kp = signal_phase(ws, kill_pats, SigKind::Kill);
    lemma_ask_phase_elems(ws, ask);
    lemma_signal_phase_elems(ws, tell, SigKind::Term);
    lemma_signal_phase_elems(ws, kill_pats, SigKind::Kill);
    lemma_ask_phase_contains(ws, ask, i);
    let ka = choose|k: int|
        0 <= k < ap.len() && (#[trigger] ap[k]) == Action::AskClose(XWindow(ws[i].0));
    assert(plan[ka] == ap[ka]);
    lemma_signal_phase_contains(ws, kill_pats, SigKind::Kill, i, p);
    let kk = choose|k: int|
        0 <= k < kp.len() && (#[trigger] kp[k]) == Action::Signal(p, SigKind::Kill);
    assert(plan[ap.len() + tp.len() + kk] == kp[kk]);
    assert forall|a: int, b: int|
        0 <= a < plan.len() && 0 <= b < plan.len() && (#[trigger] plan[a]) is AskClose && ((
        #[trigger] plan[b]) matches Action::Signal(q, s) && s == SigKind::Kill) implies a < b by {
        if a >= ap.len() {
            if a < ap.len() + tp.len() {
                assert(plan[a] == tp[a - ap.len()]);
            } else {
                assert(plan[a] == kp[a - ap.len() - tp.len()]);
            }
            assert(false);
        }
        if b < ap.len() {
            assert(plan[b] == ap[b]);
            assert(false);
        }
        if b < ap.len() + tp.len() {
            assert(plan[b] == tp[b - ap.len()]);
            assert(false);
        }
    }
}

} // verus!
