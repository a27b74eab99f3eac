use oden::bridge::{Bridge, CallState, Outcome};
use oden::ops::{ErrorKind, NativeError, OpKind};

#[test]
fn identifiers_are_fresh_and_sequential() {
    let mut b = Bridge::new();
    assert_eq!(b.issue(OpKind::WriteFile), 0);
    assert_eq!(b.issue(OpKind::ReadFile), 1);
    assert_eq!(b.issue(OpKind::Sleep), 2);
    assert_eq!(b.calls.len(), 3);
    assert_eq!(b.calls[0].state, CallState::Issued);
}

#[test]
fn completions_land_out_of_issue_order() {
    let mut b = Bridge::new();
    let first = b.issue(OpKind::ReadFile);
    let second = b.issue(OpKind::ReadFile);
    assert!(b.start(first));
    assert!(b.start(second));
    // The later call finishes first; each continuation still gets its own.
    assert!(b.try_resolve(second, Outcome::Text("beta".to_string())));
    assert!(b.try_resolve(first, Outcome::Text("alpha".to_string())));
    assert_eq!(b.deliver(first), Some(Outcome::Text("alpha".to_string())));
    assert_eq!(b.deliver(second), Some(Outcome::Text("beta".to_string())));
    assert_eq!(b.calls.len(), 0);
}

#[test]
fn a_call_is_never_resolved_twice() {
    let mut b = Bridge::new();
    let id = b.issue(OpKind::Sleep);
    assert!(b.start(id));
    assert!(b.try_resolve(id, Outcome::Unit));
    assert!(!b.try_resolve(id, Outcome::Text("again".to_string())));
    assert_eq!(b.deliver(id), Some(Outcome::Unit));
    assert_eq!(b.deliver(id), None);
}

#[test]
fn a_call_must_run_before_it_settles() {
    let mut b = Bridge::new();
    let id = b.issue(OpKind::DeleteFile);
    assert!(!b.try_resolve(id, Outcome::Unit));
    assert_eq!(b.deliver(id), None);
    assert!(b.start(id));
    assert!(!b.start(id));
    assert_eq!(b.deliver(id), None);
}

#[test]
fn a_failure_settles_in_the_failed_state() {
    let mut b = Bridge::new();
    let id = b.issue(OpKind::ReadFile);
    assert!(b.start(id));
    let failure = Outcome::Failure(NativeError { op: OpKind::ReadFile, kind: ErrorKind::IoError });
    assert!(b.try_resolve(id, failure.clone()));
    assert_eq!(b.calls[0].state, CallState::Failed);
    assert_eq!(b.deliver(id), Some(failure));
}

#[test]
fn unknown_identifiers_change_nothing() {
    let mut b = Bridge::new();
    let id = b.issue(OpKind::WriteFile);
    assert!(!b.start(id + 7));
    assert!(!b.try_resolve(id + 7, Outcome::Unit));
    assert_eq!(b.deliver(id + 7), None);
    assert_eq!(b.calls.len(), 1);
}
