use kill_desktop::escalate::{
    command_actions, interpret_input, kill_all, startup_actions, Action, Command, InputEvent,
};
use kill_desktop::driver::{cycle_control, LoopControl};
use kill_desktop::pattern::Config;
use kill_desktop::probe::SigKind;
use kill_desktop::state::{TrackedState, WindowInfo, XWindow};

fn info(class: &str, title: &str, pids: &[u32]) -> WindowInfo {
    WindowInfo {
        pids: pids.to_vec(),
        supports_delete: true,
        class: class.to_string(),
        title: title.to_string(),
    }
}

#[test]
fn startup_policy_lists_are_independent_and_ordered() {
    // The window's class matches both the ask and the kill lists: it gets
    // a close request and a kill signal, ask before kill.
    let config = Config::from_lists(
        &Vec::new(),
        &vec!["^Editor$".to_string()],
        &Vec::new(),
        &vec!["^Edit".to_string()],
    )
    .unwrap();
    let state = TrackedState {
        windows: vec![(1, info("Editor", "draft", &[100]))],
        orphans: vec![],
    };
    let acts = startup_actions(&state, &config);
    let ask_at = acts.iter().position(|a| *a == Action::AskClose(XWindow(1))).unwrap();
    let kill_at = acts.iter().position(|a| *a == Action::Signal(100, SigKind::Kill)).unwrap();
    assert!(ask_at < kill_at);
    assert_eq!(2, acts.len());
}

#[test]
fn startup_policy_phases_run_ask_tell_kill() {
    let config = Config::from_lists(
        &Vec::new(),
        &vec!["Editor".to_string()],
        &vec!["Editor".to_string()],
        &vec!["Editor".to_string()],
    )
    .unwrap();
    let state = TrackedState {
        windows: vec![(1, info("Editor", "draft", &[100]))],
        orphans: vec![],
    };
    let acts = startup_actions(&state, &config);
    assert_eq!(
        vec![
            Action::AskClose(XWindow(1)),
            Action::Signal(100, SigKind::Term),
            Action::Signal(100, SigKind::Kill),
        ],
        acts
    );
}

#[test]
fn startup_policy_skips_non_matching_windows() {
    let config = Config::from_lists(
        &Vec::new(),
        &vec!["^Editor$".to_string()],
        &Vec::new(),
        &Vec::new(),
    )
    .unwrap();
    let state = TrackedState {
        windows: vec![(1, info("Browser", "tabs", &[100])), (2, info("Editor", "x", &[200]))],
        orphans: vec![],
    };
    let acts = startup_actions(&state, &config);
    assert_eq!(vec![Action::AskClose(XWindow(2))], acts);
}

#[test]
fn tell_signals_every_tracked_and_orphaned_pid() {
    // Operator sends `t` with tracked {A: 100, B: 200} and orphan {300}:
    // terminate goes to 100, 200 and 300, and the state is untouched.
    let state = TrackedState {
        windows: vec![(1, info("Editor", "a", &[100])), (2, info("Editor", "b", &[200]))],
        orphans: vec![(300, info("Browser", "tabs", &[300]))],
    };
    let acts = command_actions(&state, Command::Tell);
    assert_eq!(
        vec![
            Action::Signal(100, SigKind::Term),
            Action::Signal(200, SigKind::Term),
            Action::Signal(300, SigKind::Term),
        ],
        acts
    );
    // Planning a command does not change tracked-state membership.
    assert_eq!(2, state.windows.len());
    assert_eq!(1, state.orphans.len());
}

#[test]
fn ask_targets_every_tracked_window() {
    let state = TrackedState {
        windows: vec![(1, info("Editor", "a", &[100])), (2, info("Player", "b", &[]))],
        orphans: vec![(300, info("Browser", "tabs", &[300]))],
    };
    let acts = command_actions(&state, Command::Ask);
    assert_eq!(vec![Action::AskClose(XWindow(1)), Action::AskClose(XWindow(2))], acts);
}

#[test]
fn kill_command_uses_kill_signal() {
    let state = TrackedState {
        windows: vec![(1, info("Editor", "a", &[100]))],
        orphans: vec![],
    };
    let acts = command_actions(&state, Command::Kill);
    assert_eq!(vec![Action::Signal(100, SigKind::Kill)], acts);
}

#[test]
fn unknown_commands_plan_nothing() {
    let state = TrackedState {
        windows: vec![(1, info("Editor", "a", &[100]))],
        orphans: vec![],
    };
    assert!(command_actions(&state, Command::Idle).is_empty());
    assert!(command_actions(&state, Command::Unsupported(120)).is_empty());
    assert!(command_actions(&state, Command::Quit).is_empty());
}

#[test]
fn kill_all_with_no_targets_sends_nothing() {
    // With nothing tracked and nothing orphaned, the plan is empty, no
    // signal is delivered, and the call reports that nothing was done.
    let empty = TrackedState { windows: vec![], orphans: vec![] };
    assert_eq!(Ok(false), kill_all(&empty, SigKind::Term));
    assert_eq!(Ok(false), kill_all(&empty, SigKind::Kill));
    // A tracked window without pids gives an empty plan too.
    let pidless = TrackedState {
        windows: vec![(1, info("Editor", "draft", &[]))],
        orphans: vec![],
    };
    assert_eq!(Ok(false), kill_all(&pidless, SigKind::Term));
}

#[test]
fn input_bytes_decode_to_commands() {
    assert_eq!(Command::Ask, interpret_input(InputEvent::Byte(b'a')));
    assert_eq!(Command::Ask, interpret_input(InputEvent::Byte(b'd')));
    assert_eq!(Command::Tell, interpret_input(InputEvent::Byte(b't')));
    assert_eq!(Command::Kill, interpret_input(InputEvent::Byte(b'k')));
    assert_eq!(Command::Quit, interpret_input(InputEvent::Byte(b'q')));
    assert_eq!(Command::Unsupported(b'x'), interpret_input(InputEvent::Byte(b'x')));
    assert_eq!(Command::Idle, interpret_input(InputEvent::TimedOut));
    assert_eq!(Command::Quit, interpret_input(InputEvent::Disconnected));
}

#[test]
fn loop_exits_exactly_when_empty_or_quit() {
    let empty = TrackedState { windows: vec![], orphans: vec![] };
    let busy = TrackedState {
        windows: vec![(1, info("Editor", "a", &[100]))],
        orphans: vec![],
    };
    let orphans_only = TrackedState {
        windows: vec![],
        orphans: vec![(300, info("Browser", "t", &[300]))],
    };
    assert_eq!(LoopControl::ExitEmpty, cycle_control(&empty, Command::Idle));
    assert_eq!(LoopControl::ExitEmpty, cycle_control(&empty, Command::Quit));
    assert_eq!(LoopControl::Continue, cycle_control(&busy, Command::Idle));
    assert_eq!(LoopControl::Continue, cycle_control(&orphans_only, Command::Tell));
    assert_eq!(LoopControl::ExitQuit, cycle_control(&busy, Command::Quit));
    assert_eq!(LoopControl::ExitQuit, cycle_control(&orphans_only, Command::Quit));
}
