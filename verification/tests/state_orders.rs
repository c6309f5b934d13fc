use sozu_master::messages::{Application, Backend, Certificate, HttpFront, Order};
use sozu_master::state::ConfigState;

fn app(id: &str) -> Application {
    Application { app_id: id.to_string(), sticky_session: false }
}

fn front(id: &str, host: &str, path: &str) -> HttpFront {
    HttpFront { app_id: id.to_string(), hostname: host.to_string(), path_begin: path.to_string() }
}

fn backend(id: &str, ip: &str, port: u16) -> Backend {
    Backend { app_id: id.to_string(), ip_address: ip.to_string(), port }
}

fn sample_state() -> ConfigState {
    let mut s = ConfigState::new();
    s.handle_order(&Order::AddApplication(app("app")));
    s.handle_order(&Order::AddApplication(app("other")));
    s.handle_order(&Order::AddHttpFront(front("app", "ex.com", "/")));
    s.handle_order(&Order::AddHttpsFront(front("app", "ex.com", "/tls")));
    s.handle_order(&Order::AddBackend(backend("app", "10.0.0.1", 8080)));
    s.handle_order(&Order::AddCertificate(Certificate {
        fingerprint: "ab12".to_string(),
        certificate: "PEM".to_string(),
    }));
    s
}

#[test]
fn generate_orders_replays_the_state() {
    let s = sample_state();
    let orders = s.generate_orders();
    assert_eq!(orders.len(), 6);
    let mut fresh = ConfigState::new();
    for o in &orders {
        fresh.handle_order(o);
    }
    assert!(fresh.same_state(&s));
}

#[test]
fn diff_turns_one_state_into_the_other() {
    let s = sample_state();
    let mut t = ConfigState::new();
    t.handle_order(&Order::AddApplication(app("app")));
    t.handle_order(&Order::AddHttpFront(front("app", "ex.com", "/v2")));
    t.handle_order(&Order::AddBackend(backend("app", "10.0.0.2", 8080)));
    let mut patched = sample_state();
    for o in &s.diff(&t) {
        patched.handle_order(o);
    }
    assert!(patched.same_state(&t));
}

#[test]
fn diff_of_equal_states_is_empty() {
    let s = sample_state();
    let t = sample_state();
    assert_eq!(s.diff(&t).len(), 0);
    assert!(s.same_state(&t));
}

#[test]
fn additions_and_removals_are_idempotent() {
    let once_add = {
        let mut s = sample_state();
        s.handle_order(&Order::AddBackend(backend("app", "10.0.0.9", 9000)));
        s
    };
    let twice_add = {
        let mut s = sample_state();
        s.handle_order(&Order::AddBackend(backend("app", "10.0.0.9", 9000)));
        s.handle_order(&Order::AddBackend(backend("app", "10.0.0.9", 9000)));
        s
    };
    assert!(once_add.same_state(&twice_add));

    let once_rm = {
        let mut s = sample_state();
        s.handle_order(&Order::RemoveApplication("other".to_string()));
        s
    };
    let twice_rm = {
        let mut s = sample_state();
        s.handle_order(&Order::RemoveApplication("other".to_string()));
        s.handle_order(&Order::RemoveApplication("other".to_string()));
        s
    };
    assert!(once_rm.same_state(&twice_rm));
}

#[test]
fn adding_an_existing_entity_is_a_no_op() {
    let s = sample_state();
    let mut t = sample_state();
    t.handle_order(&Order::AddApplication(Application {
        app_id: "app".to_string(),
        sticky_session: true,
    }));
    // the id is already taken: the differing payload is ignored
    assert!(s.same_state(&t));
}

#[test]
fn removing_an_absent_entity_is_a_no_op() {
    let s = sample_state();
    let mut t = sample_state();
    t.handle_order(&Order::RemoveCertificate("nope".to_string()));
    t.handle_order(&Order::RemoveHttpFront(front("app", "nowhere.com", "/")));
    assert!(s.same_state(&t));
}

#[test]
fn queries_leave_the_state_alone() {
    let s = sample_state();
    let mut t = sample_state();
    t.handle_order(&Order::Status);
    t.handle_order(&Order::Metrics);
    assert!(s.same_state(&t));
}
