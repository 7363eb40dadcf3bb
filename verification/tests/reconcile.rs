use kill_desktop::pattern::Config;
use kill_desktop::probe::{Liveness, LivenessTable};
use kill_desktop::reconcile::{reconcile_live, reconcile_step, RawWindow};
use kill_desktop::state::{Hatred, TrackedState, WindowInfo, XWindow, PID_LIMIT};

fn empty_config() -> Config {
    Config {
        ignore: Vec::new(),
        on_start_ask: Vec::new(),
        on_start_tell: Vec::new(),
        on_start_kill: Vec::new(),
    }
}

fn info(class: &str, title: &str, pids: &[u32]) -> WindowInfo {
    WindowInfo {
        pids: pids.to_vec(),
        supports_delete: true,
        class: class.to_string(),
        title: title.to_string(),
    }
}

fn raw(window: u32, class: &str, title: &str, pids: &[u32]) -> RawWindow {
    RawWindow {
        window: XWindow(window),
        class: Some(class.to_string()),
        pids: pids.to_vec(),
        title: title.to_string(),
        supports_delete: true,
    }
}

fn table(entries: &[(u32, Liveness)]) -> LivenessTable {
    LivenessTable { entries: entries.to_vec() }
}

fn window_ids(state: &TrackedState) -> Vec<u32> {
    state.windows.iter().map(|e| e.0).collect()
}

fn orphan_pids(state: &TrackedState) -> Vec<u32> {
    state.orphans.iter().map(|e| e.0).collect()
}

#[test]
fn vanished_window_with_live_pid_becomes_orphan() {
    // Tracked: window A (class "Editor", pid 100) and window B (class
    // "Editor", pid 200, title "notes"). The new snapshot omits A and keeps
    // B with title "draft".
    let state = TrackedState {
        windows: vec![(1, info("Editor", "", &[100])), (2, info("Editor", "notes", &[200]))],
        orphans: vec![],
    };
    let mut hatred = Hatred { blacklisted_windows: vec![], blacklisted_pids: vec![] };
    let config = empty_config();
    let snapshot = vec![raw(2, "Editor", "draft", &[200])];
    let verdicts = table(&[(100, Liveness::Alive), (200, Liveness::Alive)]);
    let (next, changed) = reconcile_step(state, &mut hatred, &config, &snapshot, &verdicts);
    assert!(changed);
    assert_eq!(vec![2], window_ids(&next));
    assert_eq!("draft", next.windows[0].1.title);
    assert_eq!(vec![100], orphan_pids(&next));
    assert_eq!("Editor", next.orphans[0].1.class);
}

#[test]
fn vanished_window_with_dead_pid_leaves_no_orphan() {
    let state = TrackedState {
        windows: vec![(1, info("Editor", "", &[100])), (2, info("Editor", "notes", &[200]))],
        orphans: vec![],
    };
    let mut hatred = Hatred { blacklisted_windows: vec![], blacklisted_pids: vec![] };
    let config = empty_config();
    let snapshot = vec![raw(2, "Editor", "draft", &[200])];
    let verdicts = table(&[(100, Liveness::Dead), (200, Liveness::Alive)]);
    let (next, changed) = reconcile_step(state, &mut hatred, &config, &snapshot, &verdicts);
    assert!(changed);
    assert_eq!(vec![2], window_ids(&next));
    assert!(next.orphans.is_empty());
}

#[test]
fn same_snapshot_twice_is_idempotent() {
    let state = TrackedState {
        windows: vec![(1, info("Editor", "draft", &[100]))],
        orphans: vec![(300, info("Browser", "tabs", &[300]))],
    };
    let mut hatred = Hatred { blacklisted_windows: vec![], blacklisted_pids: vec![] };
    let config = empty_config();
    let snapshot = vec![raw(1, "Editor", "draft", &[100]), raw(7, "Player", "song", &[42])];
    let verdicts =
        table(&[(100, Liveness::Alive), (300, Liveness::Alive), (42, Liveness::Alive)]);
    let (mid, first_changed) = reconcile_step(state, &mut hatred, &config, &snapshot, &verdicts);
    assert!(first_changed);
    let mid_windows: Vec<(u32, Vec<u32>, String, String)> = mid
        .windows
        .iter()
        .map(|e| (e.0, e.1.pids.clone(), e.1.class.clone(), e.1.title.clone()))
        .collect();
    let mid_orphans: Vec<u32> = orphan_pids(&mid);
    let (next, changed) = reconcile_step(mid, &mut hatred, &config, &snapshot, &verdicts);
    assert!(!changed);
    let next_windows: Vec<(u32, Vec<u32>, String, String)> = next
        .windows
        .iter()
        .map(|e| (e.0, e.1.pids.clone(), e.1.class.clone(), e.1.title.clone()))
        .collect();
    assert_eq!(mid_windows, next_windows);
    assert_eq!(mid_orphans, orphan_pids(&next));
    assert!(hatred.blacklisted_windows.is_empty());
    assert!(hatred.blacklisted_pids.is_empty());
}

#[test]
fn suppressed_window_is_not_readmitted() {
    let state = TrackedState { windows: vec![], orphans: vec![] };
    let mut hatred = Hatred { blacklisted_windows: vec![], blacklisted_pids: vec![] };
    let config = empty_config();
    // First poll: the window's class read failed, so it is suppressed.
    let snapshot1 = vec![RawWindow {
        window: XWindow(5),
        class: None,
        pids: vec![500],
        title: String::new(),
        supports_delete: false,
    }];
    let verdicts = table(&[(500, Liveness::Alive)]);
    let (next, changed) = reconcile_step(state, &mut hatred, &config, &snapshot1, &verdicts);
    assert!(!changed);
    assert!(next.windows.is_empty());
    assert_eq!(vec![5], hatred.blacklisted_windows.iter().map(|e| e.0).collect::<Vec<u32>>());
    assert_eq!("read class failed", hatred.blacklisted_windows[0].1);
    // Later polls report the window normally; it stays suppressed.
    let snapshot2 = vec![raw(5, "Editor", "draft", &[500])];
    let (last, changed2) = reconcile_step(next, &mut hatred, &config, &snapshot2, &verdicts);
    assert!(!changed2);
    assert!(last.windows.is_empty());
}

#[test]
fn dead_and_erroring_pids_are_suppressed() {
    let state = TrackedState { windows: vec![], orphans: vec![] };
    let mut hatred = Hatred { blacklisted_windows: vec![], blacklisted_pids: vec![] };
    let config = empty_config();
    let snapshot = vec![raw(1, "Editor", "draft", &[100, 101, 102])];
    let verdicts =
        table(&[(100, Liveness::Alive), (101, Liveness::Dead), (102, Liveness::Failed)]);
    let (next, changed) = reconcile_step(state, &mut hatred, &config, &snapshot, &verdicts);
    assert!(changed);
    assert_eq!(vec![1], window_ids(&next));
    assert_eq!(vec![100], next.windows[0].1.pids);
    let suppressed: Vec<(u32, String)> = hatred.blacklisted_pids.clone();
    assert_eq!(2, suppressed.len());
    assert_eq!((101, "reported nonexistent pid".to_string()), suppressed[0]);
    assert_eq!((102, "reported erroring pid".to_string()), suppressed[1]);
    // A suppressed pid is not admitted again, even once it reports alive.
    let verdicts2 = table(&[(100, Liveness::Alive), (101, Liveness::Alive), (102, Liveness::Alive)]);
    let (last, _) = reconcile_step(next, &mut hatred, &config, &snapshot, &verdicts2);
    assert_eq!(vec![100], last.windows[0].1.pids);
}

#[test]
fn ignored_class_is_skipped_without_suppression() {
    let state = TrackedState { windows: vec![], orphans: vec![] };
    let mut hatred = Hatred { blacklisted_windows: vec![], blacklisted_pids: vec![] };
    let config = Config::from_lists(
        &vec!["^Panel$".to_string()],
        &Vec::new(),
        &Vec::new(),
        &Vec::new(),
    )
    .unwrap();
    let snapshot = vec![raw(1, "Panel", "bar", &[100]), raw(2, "Editor", "draft", &[200])];
    let verdicts = table(&[(100, Liveness::Alive), (200, Liveness::Alive)]);
    let (next, changed) = reconcile_step(state, &mut hatred, &config, &snapshot, &verdicts);
    assert!(changed);
    assert_eq!(vec![2], window_ids(&next));
    assert!(hatred.blacklisted_windows.is_empty());
}

#[test]
fn pid_growth_alone_is_quiet() {
    // A pid joining an already-tracked window is bookkeeping, not a
    // meaningful change.
    let state = TrackedState {
        windows: vec![(1, info("Editor", "draft", &[100]))],
        orphans: vec![],
    };
    let mut hatred = Hatred { blacklisted_windows: vec![], blacklisted_pids: vec![] };
    let config = empty_config();
    let snapshot = vec![raw(1, "Editor", "draft", &[100, 104])];
    let verdicts = table(&[(100, Liveness::Alive), (104, Liveness::Alive)]);
    let (next, changed) = reconcile_step(state, &mut hatred, &config, &snapshot, &verdicts);
    assert!(!changed);
    assert_eq!(vec![100, 104], next.windows[0].1.pids);
}

#[test]
fn class_rename_is_quiet_but_title_change_is_not() {
    let state = TrackedState {
        windows: vec![(1, info("Editor", "draft", &[100]))],
        orphans: vec![],
    };
    let mut hatred = Hatred { blacklisted_windows: vec![], blacklisted_pids: vec![] };
    let config = empty_config();
    let verdicts = table(&[(100, Liveness::Alive)]);
    let snapshot = vec![raw(1, "EditorNG", "draft", &[100])];
    let (next, changed) = reconcile_step(state, &mut hatred, &config, &snapshot, &verdicts);
    assert!(!changed);
    assert_eq!("EditorNG", next.windows[0].1.class);
    let snapshot2 = vec![raw(1, "EditorNG", "final", &[100])];
    let (last, changed2) = reconcile_step(next, &mut hatred, &config, &snapshot2, &verdicts);
    assert!(changed2);
    assert_eq!("final", last.windows[0].1.title);
}

#[test]
fn orphan_death_is_meaningful_and_final() {
    let state = TrackedState {
        windows: vec![],
        orphans: vec![(300, info("Browser", "tabs", &[300]))],
    };
    let mut hatred = Hatred { blacklisted_windows: vec![], blacklisted_pids: vec![] };
    let config = empty_config();
    let snapshot: Vec<RawWindow> = vec![];
    let verdicts = table(&[(300, Liveness::Dead)]);
    let (next, changed) = reconcile_step(state, &mut hatred, &config, &snapshot, &verdicts);
    assert!(changed);
    assert!(next.orphans.is_empty());
    assert!(next.windows.is_empty());
}

#[test]
fn suppressed_pid_of_vanished_window_is_not_migrated() {
    // Pid 5 was suppressed in an earlier cycle but still sits in a tracked
    // window's pid set. When that window vanishes, the pid must stay out
    // of the orphan map for good — whatever its probe says.
    let state = TrackedState {
        windows: vec![(1, info("Editor", "draft", &[5]))],
        orphans: vec![],
    };
    let mut hatred = Hatred {
        blacklisted_windows: vec![],
        blacklisted_pids: vec![(5, "reported erroring pid".to_string())],
    };
    let config = empty_config();
    let snapshot: Vec<RawWindow> = vec![];
    for verdict in [Liveness::Alive, Liveness::Dead, Liveness::Failed] {
        let dup = TrackedState {
            windows: state.windows.iter().map(|e| (e.0, info("Editor", "draft", &[5]))).collect(),
            orphans: vec![],
        };
        let verdicts = table(&[(5, verdict)]);
        let (next, changed) = reconcile_step(dup, &mut hatred, &config, &snapshot, &verdicts);
        assert!(changed); // the window vanished
        assert!(next.windows.is_empty());
        assert!(next.orphans.is_empty());
    }
}

#[test]
fn erroring_pid_of_vanished_window_is_not_migrated() {
    // A vanished window's pid migrates only when its probe said alive;
    // a dead or erroring probe leaves it behind.
    let state = TrackedState {
        windows: vec![(1, info("Editor", "draft", &[100]))],
        orphans: vec![],
    };
    let mut hatred = Hatred { blacklisted_windows: vec![], blacklisted_pids: vec![] };
    let config = empty_config();
    let snapshot: Vec<RawWindow> = vec![];
    let verdicts = table(&[(100, Liveness::Failed)]);
    let (next, changed) = reconcile_step(state, &mut hatred, &config, &snapshot, &verdicts);
    assert!(changed);
    assert!(next.windows.is_empty());
    assert!(next.orphans.is_empty());
    // The pid is left behind, not newly suppressed: migration records no
    // failure of its own.
    assert!(hatred.blacklisted_pids.is_empty());
}

#[test]
fn dead_pid_removed_as_orphan_does_not_come_back() {
    let state = TrackedState {
        windows: vec![(1, info("Editor", "draft", &[100]))],
        orphans: vec![(100, info("Editor", "old", &[]))],
    };
    let mut hatred = Hatred { blacklisted_windows: vec![], blacklisted_pids: vec![] };
    let config = empty_config();
    // First cycle: the window is still open (this read reports no pid);
    // the orphan's probe says dead, so it is removed.
    let snapshot1 = vec![raw(1, "Editor", "draft", &[])];
    let verdicts1 = table(&[(100, Liveness::Dead)]);
    let (mid, changed1) = reconcile_step(state, &mut hatred, &config, &snapshot1, &verdicts1);
    assert!(changed1);
    assert!(mid.orphans.is_empty());
    // The window's stale pid set still names the dead pid.
    assert_eq!(vec![100], mid.windows[0].1.pids);
    // Second cycle: the window vanishes and the pid's probe errors; the
    // removed orphan must not come back.
    let snapshot2: Vec<RawWindow> = vec![];
    let verdicts2 = table(&[(100, Liveness::Failed)]);
    let (last, changed2) = reconcile_step(mid, &mut hatred, &config, &snapshot2, &verdicts2);
    assert!(changed2);
    assert!(last.windows.is_empty());
    assert!(last.orphans.is_empty());
}

#[test]
fn live_reconcile_probes_real_processes() {
    // The largest permissible pids are effectively never allocated, so the
    // real probe reports them gone: the orphan is dropped and the reported
    // pid is suppressed as nonexistent.
    let state = TrackedState {
        windows: vec![],
        orphans: vec![(PID_LIMIT, info("Browser", "tabs", &[]))],
    };
    let mut hatred = Hatred { blacklisted_windows: vec![], blacklisted_pids: vec![] };
    let config = empty_config();
    let snapshot = vec![raw(1, "Editor", "draft", &[PID_LIMIT - 1])];
    let (next, changed) = reconcile_live(state, &mut hatred, &config, &snapshot);
    assert!(changed);
    assert!(next.orphans.is_empty());
    assert_eq!(vec![1], window_ids(&next));
    assert!(next.windows[0].1.pids.is_empty());
    assert_eq!(
        vec![PID_LIMIT - 1],
        hatred.blacklisted_pids.iter().map(|e| e.0).collect::<Vec<u32>>()
    );
}

#[test]
fn orphan_probe_error_keeps_the_orphan() {
    let state = TrackedState {
        windows: vec![],
        orphans: vec![(300, info("Browser", "tabs", &[300]))],
    };
    let mut hatred = Hatred { blacklisted_windows: vec![], blacklisted_pids: vec![] };
    let config = empty_config();
    let snapshot: Vec<RawWindow> = vec![];
    let verdicts = table(&[(300, Liveness::Failed)]);
    let (next, changed) = reconcile_step(state, &mut hatred, &config, &snapshot, &verdicts);
    assert!(!changed);
    assert_eq!(vec![300], orphan_pids(&next));
}
