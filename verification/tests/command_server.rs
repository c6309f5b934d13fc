use sozu_master::messages::{Application, ConfigMessageStatus, HttpFront, Order,
    OrderMessageAnswer, RunState};
use sozu_master::server::{AnswerData, CommandServer, ConfigCommand, ConfigMessage, FrontToken,
    SideAction};
use sozu_master::state::ConfigState;

fn app(id: &str) -> Application {
    Application { app_id: id.to_string(), sticky_session: false }
}

fn front(id: &str, host: &str, path: &str) -> HttpFront {
    HttpFront { app_id: id.to_string(), hostname: host.to_string(), path_begin: path.to_string() }
}

fn msg(id: &str, data: ConfigCommand) -> ConfigMessage {
    ConfigMessage::new(id.to_string(), data, None)
}

fn answer(status: &str, id: &str, message: &str) -> OrderMessageAnswer {
    let st = match status {
        "ok" => ConfigMessageStatus::Okay,
        "processing" => ConfigMessageStatus::Processing,
        _ => ConfigMessageStatus::Error,
    };
    OrderMessageAnswer { id: id.to_string(), status: st, message: message.to_string() }
}

/// A server with one connected admin client and `n` running workers.
fn server_with_workers(n: usize) -> (CommandServer, FrontToken) {
    let mut server = CommandServer::new(3, ConfigState::new(), 10000, 20000);
    let token = server.add_client().expect("client accepted");
    for k in 0..n {
        let launch = msg(&format!("launch-{}", k), ConfigCommand::LaunchWorker("w".to_string()));
        server.launch_worker(&"w".to_string(), token, &launch, Some((100 + k as i32, 10 + k as i32)));
    }
    (server, token)
}

fn outbox_len(server: &CommandServer, token: FrontToken) -> usize {
    server.conns[token.0].as_ref().unwrap().outbox.len()
}

#[test]
fn add_http_front_fans_out_to_both_workers() {
    let (mut server, token) = server_with_workers(2);
    let sent_before: Vec<usize> = server.proxies.iter().map(|w| w.outbox.len()).collect();
    let out_before = outbox_len(&server, token);
    let order = Order::AddHttpFront(front("app", "ex.com", "/"));
    let m = msg("r1", ConfigCommand::ProxyConfiguration(order));
    let acts = server.handle_client_message(token, &m);
    assert!(acts.is_empty());
    let tokens: Vec<u32> = server.proxies.iter().map(|w| w.token).collect();
    for (j, w) in server.proxies.iter().enumerate() {
        assert_eq!(w.outbox.len(), sent_before[j] + 1);
        let frame = w.outbox.last().unwrap();
        assert_eq!(frame.id, "r1");
    }
    // no terminal reply yet
    assert_eq!(outbox_len(&server, token), out_before);
    server.handle_worker_answer(tokens[0], &answer("ok", "r1", ""));
    assert_eq!(outbox_len(&server, token), out_before);
    server.handle_worker_answer(tokens[1], &answer("ok", "r1", ""));
    assert_eq!(outbox_len(&server, token), out_before + 1);
    let reply = server.conns[token.0].as_ref().unwrap().outbox.last().unwrap().clone();
    assert_eq!(reply.id, "r1");
    assert!(matches!(reply.status, ConfigMessageStatus::Okay));
}

#[test]
fn exactly_one_terminal_reply_per_request() {
    let (mut server, token) = server_with_workers(2);
    let tokens: Vec<u32> = server.proxies.iter().map(|w| w.token).collect();
    let m = msg("r9", ConfigCommand::ProxyConfiguration(Order::AddApplication(app("a"))));
    server.handle_client_message(token, &m);
    let before = outbox_len(&server, token);
    server.handle_worker_answer(tokens[0], &answer("ok", "r9", ""));
    server.handle_worker_answer(tokens[1], &answer("ok", "r9", ""));
    // late or duplicated answers change nothing
    server.handle_worker_answer(tokens[0], &answer("ok", "r9", ""));
    server.handle_worker_answer(tokens[1], &answer("error", "r9", "too late"));
    let outbox = &server.conns[token.0].as_ref().unwrap().outbox;
    let terminals = outbox.iter().filter(|a| {
        a.id == "r9" && !matches!(a.status, ConfigMessageStatus::Processing)
    }).count();
    assert_eq!(outbox.len(), before + 1);
    assert_eq!(terminals, 1);
}

#[test]
fn partial_worker_failure_reports_the_worker() {
    let (mut server, token) = server_with_workers(2);
    let tokens: Vec<u32> = server.proxies.iter().map(|w| w.token).collect();
    let worker_b_id = server.proxies[1].id;
    let m = msg("r2", ConfigCommand::ProxyConfiguration(Order::AddApplication(app("a"))));
    server.handle_client_message(token, &m);
    server.handle_worker_answer(tokens[0], &answer("ok", "r2", ""));
    server.handle_worker_answer(tokens[1], &answer("error", "r2", "refused"));
    let reply = server.conns[token.0].as_ref().unwrap().outbox.last().unwrap().clone();
    assert_eq!(reply.id, "r2");
    assert!(matches!(reply.status, ConfigMessageStatus::Error));
    assert!(reply.message.contains(&format!("worker {}", worker_b_id)));
    assert!(reply.message.contains("refused"));
}

#[test]
fn soft_stop_moves_workers_to_stopping_then_reports_ok() {
    let (mut server, token) = server_with_workers(2);
    let tokens: Vec<u32> = server.proxies.iter().map(|w| w.token).collect();
    let m = msg("stop-1", ConfigCommand::ProxyConfiguration(Order::SoftStop));
    server.handle_client_message(token, &m);
    for w in &server.proxies {
        assert!(matches!(w.run_state, RunState::Stopping));
    }
    server.handle_worker_answer(tokens[0], &answer("ok", "stop-1", ""));
    server.handle_worker_answer(tokens[1], &answer("ok", "stop-1", ""));
    let reply = server.conns[token.0].as_ref().unwrap().outbox.last().unwrap().clone();
    assert_eq!(reply.id, "stop-1");
    assert!(matches!(reply.status, ConfigMessageStatus::Okay));
}

#[test]
fn no_worker_yields_an_error_answer() {
    let mut server = CommandServer::new(3, ConfigState::new(), 10000, 20000);
    let token = server.add_client().unwrap();
    let m = msg("r0", ConfigCommand::ProxyConfiguration(Order::AddApplication(app("a"))));
    server.handle_client_message(token, &m);
    let reply = server.conns[token.0].as_ref().unwrap().outbox.last().unwrap().clone();
    assert_eq!(reply.id, "r0");
    assert!(matches!(reply.status, ConfigMessageStatus::Error));
}

#[test]
fn save_then_load_reproduces_the_state() {
    let mut server = CommandServer::new(3, ConfigState::new(), 10000, 20000);
    server.state.handle_order(&Order::AddApplication(app("app")));
    server.state.handle_order(&Order::AddHttpFront(front("app", "ex.com", "/")));
    let token = server.add_client().unwrap();
    let m = msg("s1", ConfigCommand::SaveState("state.json".to_string()));
    let acts = server.handle_client_message(token, &m);
    assert_eq!(acts.len(), 1);
    let frames = match acts.into_iter().next().unwrap() {
        SideAction::SaveFile { path, frames } => {
            assert_eq!(path, "state.json");
            frames
        },
        _ => panic!("expected a save action"),
    };
    for (n, f) in frames.iter().enumerate() {
        assert_eq!(f.id, format!("SAVE-{}", n));
    }
    let mut fresh = CommandServer::new(4, ConfigState::new(), 10000, 20000);
    fresh.load_state(&frames);
    assert!(fresh.state.same_state(&server.state));
}

#[test]
fn load_state_fans_the_difference_out() {
    let (mut server, _token) = server_with_workers(1);
    let mut target = CommandServer::new(5, ConfigState::new(), 10000, 20000);
    target.state.handle_order(&Order::AddApplication(app("app")));
    target.state.handle_order(&Order::AddHttpFront(front("app", "ex.com", "/")));
    let frames = target.save_state();
    let sent_before = server.proxies[0].outbox.len();
    let diff = server.load_state(&frames);
    assert_eq!(diff.len(), 2);
    assert!(server.state.same_state(&target.state));
    let w = &server.proxies[0];
    assert_eq!(w.outbox.len(), sent_before + 2);
    assert_eq!(w.outbox[sent_before].id, "LOAD-STATE-0");
    assert_eq!(w.outbox[sent_before + 1].id, "LOAD-STATE-1");
}

#[test]
fn launch_worker_replays_five_orders() {
    let (mut server, token) = server_with_workers(1);
    server.state.handle_order(&Order::AddApplication(app("a1")));
    server.state.handle_order(&Order::AddApplication(app("a2")));
    server.state.handle_order(&Order::AddHttpFront(front("a1", "ex.com", "/")));
    server.state.handle_order(&Order::AddHttpsFront(front("a1", "ex.com", "/tls")));
    server.state.handle_order(&Order::AddBackend(sozu_master::messages::Backend {
        app_id: "a1".to_string(),
        ip_address: "10.0.0.1".to_string(),
        port: 80,
    }));
    let launch = msg("l1", ConfigCommand::LaunchWorker("w".to_string()));
    server.launch_worker(&"w".to_string(), token, &launch, Some((200, 20)));
    let w = server.proxies.last().unwrap();
    assert_eq!(w.outbox.len(), 5);
    for (n, frame) in w.outbox.iter().enumerate() {
        assert_eq!(frame.id, format!("LAUNCH-CONF-{}", n));
    }
    assert!(matches!(w.run_state, RunState::Running));
}

#[test]
fn launch_worker_failure_reports_an_error() {
    let mut server = CommandServer::new(3, ConfigState::new(), 10000, 20000);
    let token = server.add_client().unwrap();
    let launch = msg("l2", ConfigCommand::LaunchWorker("w".to_string()));
    server.launch_worker(&"w".to_string(), token, &launch, None);
    let reply = server.conns[token.0].as_ref().unwrap().outbox.last().unwrap().clone();
    assert_eq!(reply.id, "l2");
    assert!(matches!(reply.status, ConfigMessageStatus::Error));
    assert_eq!(reply.message, "failed creating worker");
}

#[test]
fn upgrade_carries_the_registry_to_the_successor() {
    let (mut server, token) = server_with_workers(3);
    server.state.handle_order(&Order::AddApplication(app("app")));
    let m = msg("u1", ConfigCommand::UpgradeMaster);
    let acts = server.handle_client_message(token, &m);
    let reply = server.conns[token.0].as_ref().unwrap().outbox.last().unwrap().clone();
    assert!(matches!(reply.status, ConfigMessageStatus::Processing));
    let data = match acts.into_iter().next().unwrap() {
        SideAction::Upgrade { data } => data,
        _ => panic!("expected an upgrade action"),
    };
    let successor = CommandServer::from_upgrade_data(data);
    assert_eq!(successor.proxies.len(), 3);
    for (old_w, new_w) in server.proxies.iter().zip(successor.proxies.iter()) {
        assert_eq!(old_w.id, new_w.id);
        assert_eq!(old_w.pid, new_w.pid);
        assert_eq!(old_w.fd, new_w.fd);
        assert_eq!(old_w.token, new_w.token);
    }
    assert!(successor.state.same_state(&server.state));
    // a reconnected client can enumerate the same workers
    let mut successor = successor;
    let t2 = successor.add_client().unwrap();
    let lw = msg("lw", ConfigCommand::ListWorkers);
    successor.handle_client_message(t2, &lw);
    let reply = successor.conns[t2.0].as_ref().unwrap().outbox.last().unwrap().clone();
    match &reply.data {
        Some(AnswerData::Workers(ws)) => {
            assert_eq!(ws.len(), 3);
            for (w, info) in server.proxies.iter().zip(ws.iter()) {
                assert_eq!(w.id, info.id);
                assert_eq!(w.pid, info.pid);
            }
        },
        _ => panic!("expected a worker list"),
    }
}

#[test]
fn upgrade_result_drives_the_shutdown_decision() {
    let (mut server, token) = server_with_workers(1);
    server.upgrade_result(token, &"u2".to_string(), false);
    assert!(!server.must_stop);
    let reply = server.conns[token.0].as_ref().unwrap().outbox.last().unwrap().clone();
    assert!(matches!(reply.status, ConfigMessageStatus::Error));
    server.upgrade_result(token, &"u3".to_string(), true);
    assert!(server.must_stop);
    let reply = server.conns[token.0].as_ref().unwrap().outbox.last().unwrap().clone();
    assert!(matches!(reply.status, ConfigMessageStatus::Okay));
}

#[test]
fn dump_state_returns_the_configuration() {
    let (mut server, token) = server_with_workers(0);
    server.state.handle_order(&Order::AddApplication(app("app")));
    let m = msg("d1", ConfigCommand::DumpState);
    server.handle_client_message(token, &m);
    let reply = server.conns[token.0].as_ref().unwrap().outbox.last().unwrap().clone();
    assert!(matches!(reply.status, ConfigMessageStatus::Okay));
    match &reply.data {
        Some(AnswerData::State(st)) => assert!(st.same_state(&server.state)),
        _ => panic!("expected the dumped state"),
    }
}

#[test]
fn session_cap_accepts_128_and_refuses_the_129th() {
    let mut server = CommandServer::new(3, ConfigState::new(), 10000, 20000);
    for _ in 0..128 {
        assert!(server.add_client().is_some());
    }
    assert!(server.add_client().is_none());
    // freeing one slot lets a new client in
    server.remove_client(FrontToken(17));
    let t = server.add_client().unwrap();
    assert_eq!(t.0, 17);
}

#[test]
fn a_dying_worker_retires_its_fanout_as_errors() {
    let (mut server, token) = server_with_workers(2);
    let tokens: Vec<u32> = server.proxies.iter().map(|w| w.token).collect();
    let m = msg("r5", ConfigCommand::ProxyConfiguration(Order::AddApplication(app("a"))));
    server.handle_client_message(token, &m);
    server.handle_worker_answer(tokens[0], &answer("ok", "r5", ""));
    server.remove_worker(tokens[1]);
    assert_eq!(server.proxies.len(), 1);
    let reply = server.conns[token.0].as_ref().unwrap().outbox.last().unwrap().clone();
    assert_eq!(reply.id, "r5");
    assert!(matches!(reply.status, ConfigMessageStatus::Error));
}

#[test]
fn metrics_aggregates_like_any_fanout() {
    let (mut server, token) = server_with_workers(2);
    let tokens: Vec<u32> = server.proxies.iter().map(|w| w.token).collect();
    let m = msg("m1", ConfigCommand::Metrics);
    server.handle_client_message(token, &m);
    for w in &server.proxies {
        assert_eq!(w.outbox.last().unwrap().id, "m1");
    }
    server.handle_worker_answer(tokens[0], &answer("ok", "m1", ""));
    server.handle_worker_answer(tokens[1], &answer("ok", "m1", ""));
    let reply = server.conns[token.0].as_ref().unwrap().outbox.last().unwrap().clone();
    assert_eq!(reply.id, "m1");
    assert!(matches!(reply.status, ConfigMessageStatus::Okay));
}

#[test]
fn an_error_reply_makes_the_final_answer_error_whatever_the_order() {
    let (mut server, token) = server_with_workers(2);
    let tokens: Vec<u32> = server.proxies.iter().map(|w| w.token).collect();
    let m = msg("r7", ConfigCommand::ProxyConfiguration(Order::AddApplication(app("a"))));
    server.handle_client_message(token, &m);
    // the error arrives first, the ok last: still Error
    server.handle_worker_answer(tokens[0], &answer("error", "r7", "broken"));
    server.handle_worker_answer(tokens[1], &answer("ok", "r7", ""));
    let reply = server.conns[token.0].as_ref().unwrap().outbox.last().unwrap();
    assert_eq!(reply.id, "r7");
    assert!(matches!(reply.status, ConfigMessageStatus::Error));
    assert!(reply.message.contains("broken"));
}

#[test]
fn static_configuration_reaches_state_and_workers() {
    let (mut server, _token) = server_with_workers(1);
    let frames = vec![
        msg("CONF-0", ConfigCommand::ProxyConfiguration(Order::AddApplication(app("app")))),
        msg("CONF-1", ConfigCommand::ProxyConfiguration(Order::AddHttpFront(front("app", "ex.com", "/")))),
        msg("CONF-2", ConfigCommand::ListWorkers),
    ];
    let sent_before = server.proxies[0].outbox.len();
    let sent = server.load_static_application_configuration(&frames);
    assert_eq!(sent.len(), 2);
    let mut expected = ConfigState::new();
    expected.handle_order(&Order::AddApplication(app("app")));
    expected.handle_order(&Order::AddHttpFront(front("app", "ex.com", "/")));
    assert!(server.state.same_state(&expected));
    let w = &server.proxies[0];
    assert_eq!(w.outbox.len(), sent_before + 2);
    assert_eq!(w.outbox[sent_before].id, "CONF-0");
    assert_eq!(w.outbox[sent_before + 1].id, "CONF-1");
}

#[test]
fn upgrade_data_validates_before_reconstruction() {
    let (mut server, token) = server_with_workers(2);
    let m = msg("u5", ConfigCommand::UpgradeMaster);
    let acts = server.handle_client_message(token, &m);
    let mut data = match acts.into_iter().next().unwrap() {
        SideAction::Upgrade { data } => data,
        _ => panic!("expected an upgrade action"),
    };
    assert!(data.validate());
    assert_eq!(data.buffer_size, 10000);
    assert_eq!(data.max_buffer_size, 20000);
    // corrupting the handoff record is caught
    data.workers[0].token = data.workers[1].token;
    assert!(!data.validate());
}
