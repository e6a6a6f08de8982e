use unrepl::session::{
    session_id_exists, Phase, Session, SessionError, SessionEvent, SessionResolver, SessionStep,
};

fn strings(v: &[&str]) -> Vec<String> {
    v.iter().map(|s| s.to_string()).collect()
}

fn cached() -> Session {
    Session::new("127.0.0.1:7888".to_string(), "old".to_string(), strings(&["eval"]))
}

#[test]
fn listed_session_is_reused_without_creation() {
    let r = SessionResolver::new("127.0.0.1:7888".to_string());
    let (r, step) = r.step(SessionEvent::Loaded(Some(cached()))).unwrap();
    assert!(matches!(step, SessionStep::ListSessions));
    let (r, step) = r.step(SessionEvent::Listed(strings(&["x", "old"]))).unwrap();
    match step {
        SessionStep::Use(s) => {
            assert_eq!(s.session(), "old");
            assert_eq!(s.ops, strings(&["eval"]));
        }
        other => panic!("unexpected {:?}", other),
    }
    assert!(matches!(r.phase, Phase::Finished));
}

#[test]
fn stale_session_is_replaced_and_stored() {
    let r = SessionResolver::new("127.0.0.1:7888".to_string());
    let (r, _) = r.step(SessionEvent::Loaded(Some(cached()))).unwrap();
    let (r, step) = r.step(SessionEvent::Listed(strings(&["x"]))).unwrap();
    assert!(matches!(step, SessionStep::CreateSession));
    let (r, step) = r.step(SessionEvent::Created("new".to_string())).unwrap();
    assert!(matches!(step, SessionStep::DescribeServer));
    let (r, step) = r.step(SessionEvent::Described(strings(&["info"]))).unwrap();
    assert!(matches!(step, SessionStep::Persist));
    let pending = r.pending().unwrap();
    assert_eq!(pending.addr, "127.0.0.1:7888");
    assert_eq!(pending.id(), "new");
    let (_, step) = r.step(SessionEvent::Persisted).unwrap();
    match step {
        SessionStep::Use(s) => {
            assert_eq!(s.id(), "new");
            assert!(s.is_op_available("info"));
        }
        other => panic!("unexpected {:?}", other),
    }
}

#[test]
fn no_stored_session_creates_one() {
    let r = SessionResolver::new("a".to_string());
    let (_, step) = r.step(SessionEvent::Loaded(None)).unwrap();
    assert!(matches!(step, SessionStep::CreateSession));
}

#[test]
fn persist_failure_reports_the_created_identifier() {
    let r = SessionResolver::new("a".to_string());
    let (r, _) = r.step(SessionEvent::Loaded(None)).unwrap();
    let (r, _) = r.step(SessionEvent::Created("leaked".to_string())).unwrap();
    let (r, _) = r.step(SessionEvent::Described(vec![])).unwrap();
    match r.step(SessionEvent::PersistFailed) {
        Err(SessionError::PersistFailed(id)) => assert_eq!(id, "leaked"),
        other => panic!("unexpected {:?}", other),
    }
}

#[test]
fn out_of_order_event_is_refused() {
    let r = SessionResolver::new("a".to_string());
    assert!(matches!(r.step(SessionEvent::Persisted), Err(SessionError::OutOfOrder)));
}

#[test]
fn session_listing_lookup() {
    assert!(session_id_exists(&strings(&["a", "b"]), &"b".to_string()));
    assert!(!session_id_exists(&strings(&["a", "b"]), &"c".to_string()));
    assert!(!session_id_exists(&vec![], &"a".to_string()));
    assert!(!cached().is_op_available("info"));
}
