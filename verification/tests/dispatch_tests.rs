use archerdndsys::dispatch::{
    is_success_status, plan_call, prepare, retry_pending, DispatchError, Gate, LogRun, Prepared,
    StepAction,
};
use archerdndsys::identity::IdentityMap;
use archerdndsys::record::{Method, Op};

fn op(method: Method, endpoint: &str, payload: Option<&str>) -> Op {
    Op { method, endpoint: endpoint.to_string(), payload: payload.map(|p| p.to_string()) }
}

#[test]
fn gate_admits_at_most_its_limit() {
    let mut gate = Gate::new(6);
    for _ in 0..6 {
        assert!(gate.try_acquire());
    }
    assert_eq!(gate.active(), 6);
    assert!(!gate.try_acquire());
    assert_eq!(gate.active(), 6);
    gate.release();
    assert!(gate.try_acquire());
    assert!(!gate.try_acquire());
}

#[test]
fn plan_call_rejects_get() {
    let r = plan_call(&op(Method::Get, "/a", None));
    assert!(matches!(r, Err(DispatchError::UnsupportedMethod)));
}

#[test]
fn plan_call_uses_empty_payload_when_none() {
    let req = plan_call(&op(Method::Delete, "/a", None)).unwrap();
    assert_eq!(req.method, Method::Delete);
    assert_eq!(req.endpoint, "/a");
    assert_eq!(req.payload, "");
}

#[test]
fn plan_call_carries_the_payload() {
    let req = plan_call(&op(Method::Put, "/a", Some("{x}"))).unwrap();
    assert_eq!(req.payload, "{x}");
}

#[test]
fn success_status_is_exactly_2xx() {
    assert!(!is_success_status(199));
    assert!(is_success_status(200));
    assert!(is_success_status(299));
    assert!(!is_success_status(300));
    assert!(!is_success_status(404));
}

#[test]
fn prepare_rewrites_when_everything_resolves() {
    let mut map = IdentityMap::new();
    map.record("17".to_string(), "S9".to_string()).unwrap();
    match prepare(&map, &op(Method::Put, "/items/17", Some("{x}"))) {
        Prepared::Ready { op: ready } => {
            assert_eq!(ready.endpoint, "/items/S9");
            assert_eq!(ready.method, Method::Put);
            assert_eq!(ready.payload.as_deref(), Some("{x}"));
        }
        _ => panic!("expected a ready operation"),
    }
}

#[test]
fn prepare_blocks_on_unbound_references() {
    let map = IdentityMap::new();
    match prepare(&map, &op(Method::Put, "/items/17", Some("{x}"))) {
        Prepared::Blocked { op: held, unresolved } => {
            assert_eq!(held.endpoint, "/items/17");
            assert_eq!(unresolved, vec!["17".to_string()]);
        }
        _ => panic!("expected a blocked operation"),
    }
}

#[test]
fn a_failed_call_does_not_stop_the_log() {
    let map = IdentityMap::new();
    let ops = vec![op(Method::Post, "/a", Some("{1}")), op(Method::Post, "/b", Some("{2}"))];
    let mut run = LogRun::new(ops);
    let first = run.next(&map);
    match first {
        StepAction::Call { request } => {
            assert_eq!(request.endpoint, "/a");
            run.note_outcome(request.endpoint.clone(), false);
        }
        _ => panic!("expected a call"),
    }
    match run.next(&map) {
        StepAction::Call { request } => assert_eq!(request.endpoint, "/b"),
        _ => panic!("the second call must still be attempted"),
    }
    assert_eq!(run.reports.len(), 1);
    assert!(!run.reports[0].ok);
}

#[test]
fn unresolved_operations_are_deferred_not_failed() {
    let map = IdentityMap::new();
    let mut run = LogRun::new(vec![op(Method::Put, "/items/7", Some("{x}"))]);
    match run.next(&map) {
        StepAction::Deferred => {}
        _ => panic!("expected a deferral"),
    }
    assert_eq!(run.pending.len(), 1);
    assert!(matches!(run.next(&map), StepAction::Done));
}

#[test]
fn pending_operations_dispatch_once_the_dependency_resolves() {
    let mut map = IdentityMap::new();
    let pending = vec![op(Method::Put, "/items/7", Some("{x}"))];
    let (ready, still) = retry_pending(&map, &pending);
    assert!(ready.is_empty());
    assert_eq!(still.len(), 1);
    assert_eq!(still[0].endpoint, "/items/7");

    map.record("7".to_string(), "S9".to_string()).unwrap();
    let (ready, still) = retry_pending(&map, &pending);
    assert_eq!(ready.len(), 1);
    assert_eq!(ready[0].endpoint, "/items/S9");
    assert!(still.is_empty());
}

#[test]
fn empty_log_is_done_at_once() {
    let map = IdentityMap::new();
    let mut run = LogRun::new(Vec::new());
    assert!(matches!(run.next(&map), StepAction::Done));
    assert!(run.pending.is_empty());
    assert!(run.reports.is_empty());
}
