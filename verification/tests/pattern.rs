use kill_desktop::pattern::{any_apply, compile_list, Config, Pattern};
use kill_desktop::probe::{is_alive, probe_liveness, Liveness};
use kill_desktop::state::{Hatred, XWindow, PID_LIMIT};
use kill_desktop::strings::property_string;

#[test]
fn patterns_match_somewhere_in_the_class() {
    let pats = compile_list(&vec!["^Edit".to_string(), "ayer$".to_string()]).unwrap();
    assert!(any_apply("Editor", &pats));
    assert!(any_apply("MediaPlayer", &pats));
    assert!(!any_apply("editor", &pats));
    assert!(!any_apply("Browser", &pats));
    assert!(!any_apply("Editor", &Vec::new()));
}

#[test]
fn invalid_pattern_is_rejected() {
    assert!(Pattern::new("foo(").is_err());
    assert!(Pattern::new("foo").is_ok());
    assert!(compile_list(&vec!["ok".to_string(), "(".to_string()]).is_err());
    assert!(Config::from_lists(
        &Vec::new(),
        &vec!["[".to_string()],
        &Vec::new(),
        &Vec::new(),
    )
    .is_err());
}

#[test]
fn suppression_is_permanent_bookkeeping() {
    let mut hatred = Hatred { blacklisted_windows: vec![], blacklisted_pids: vec![] };
    assert!(!hatred.is_window_suppressed(XWindow(4)));
    hatred.suppress_window(XWindow(4), "read class failed".to_string());
    assert!(hatred.is_window_suppressed(XWindow(4)));
    assert!(!hatred.is_window_suppressed(XWindow(5)));
    hatred.suppress_pid(99, "reported nonexistent pid".to_string());
    hatred.suppress_pid(99, "another reason".to_string());
    assert!(hatred.is_pid_suppressed(99));
    // The first reason stands; a second suppression changes nothing.
    assert_eq!(1, hatred.blacklisted_pids.len());
    assert_eq!("reported nonexistent pid", hatred.blacklisted_pids[0].1);
}

#[test]
fn liveness_probe_reports_a_missing_process_dead() {
    // The largest permissible pid is effectively never allocated.
    assert_eq!(Ok(false), is_alive(PID_LIMIT));
    assert_eq!(Liveness::Dead, probe_liveness(PID_LIMIT));
}

#[test]
fn property_bytes_are_cut_at_the_first_nul() {
    assert_eq!("AB", property_string(&vec![65, 66, 0, 67, 68]));
    assert_eq!("ABCD", property_string(&vec![65, 66, 67, 68]));
    assert_eq!("", property_string(&vec![0, 65]));
    assert_eq!("", property_string(&Vec::new()));
    // Invalid UTF-8 decodes with the replacement character.
    assert_eq!("A\u{FFFD}", property_string(&vec![65, 0xFF]));
}
