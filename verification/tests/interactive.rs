use zhistory::entry::parse_entry;
use zhistory::session::{Session, StepOutcome};
use zhistory::window::{build_window, TimeMode};

fn sample_session() -> Session {
    let lines: Vec<String> = vec![
        String::from(": 1000:0;ls -la"),
        String::from(": 2000:0;git status"),
        String::from(": 3000:0;echo hi"),
    ];
    let w = build_window(lines, TimeMode::AllTime, &None, 10, 0);
    Session::new(w)
}

#[test]
fn quit_tokens_terminate_without_selection() {
    for input in ["q", "Q", "exit", "quit", "QUIT", "  q  "] {
        let mut s = sample_session();
        let out = s.step(input);
        assert!(matches!(out, StepOutcome::Quit), "input {:?}", input);
        assert!(s.is_done());
    }
}

#[test]
fn selection_in_range_yields_command() {
    let mut s = sample_session();
    let out = s.step("0");
    match out {
        StepOutcome::Selected(cmd) => assert_eq!(cmd, "echo hi"),
        _ => panic!("expected a selection"),
    }
    assert!(s.is_done());
}

#[test]
fn selection_of_plain_line_yields_full_text() {
    let w = vec![parse_entry(String::from("cargo test"))];
    let mut s = Session::new(w);
    match s.step("0") {
        StepOutcome::Selected(cmd) => assert_eq!(cmd, "cargo test"),
        _ => panic!("expected a selection"),
    }
}

#[test]
fn selection_one_past_end_reports_and_keeps_set() {
    let mut s = sample_session();
    let len = s.entries().len();
    let out = s.step("3");
    assert!(matches!(out, StepOutcome::OutOfRange(3)));
    assert!(!s.is_done());
    assert_eq!(s.entries().len(), len);
    match s.step("1") {
        StepOutcome::Selected(cmd) => assert_eq!(cmd, "git status"),
        _ => panic!("expected a selection after the error"),
    }
}

#[test]
fn negative_selection_is_out_of_range() {
    let mut s = sample_session();
    let out = s.step("-1");
    assert!(matches!(out, StepOutcome::OutOfRange(-1)));
    assert!(!s.is_done());
    assert_eq!(s.entries().len(), 3);
}

#[test]
fn query_narrows_the_visible_set() {
    let mut s = sample_session();
    let out = s.step("git");
    assert!(matches!(out, StepOutcome::Refined));
    assert!(!s.is_done());
    assert_eq!(s.entries().len(), 1);
    assert_eq!(s.entries()[0].raw_text, ": 2000:0;git status");
}

#[test]
fn refinement_never_readds_removed_entries() {
    let mut s = sample_session();
    s.step("git");
    let narrowed: Vec<String> = s.entries().iter().map(|e| e.raw_text.clone()).collect();
    s.step("git status");
    let again: Vec<String> = s.entries().iter().map(|e| e.raw_text.clone()).collect();
    assert_eq!(narrowed, again);
}

#[test]
fn indices_renumber_after_refinement() {
    let mut s = sample_session();
    s.step("echo git");
    assert_eq!(s.entries().len(), 2);
    match s.step("1") {
        StepOutcome::Selected(cmd) => assert_eq!(cmd, "git status"),
        _ => panic!("expected a selection"),
    }
}

#[test]
fn unmatched_query_empties_the_set() {
    let mut s = sample_session();
    let out = s.step("nothing matches this");
    assert!(matches!(out, StepOutcome::Refined));
    assert_eq!(s.entries().len(), 0);
    assert!(matches!(s.step("0"), StepOutcome::OutOfRange(0)));
}
