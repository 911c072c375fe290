use conflux::federation::lines::find_value;
use conflux::federation::period::Period;
use conflux::federation::process::{
    tail, LogText, ProcessError, ProcessParticipant, ProcessPlan, ProcessSummary,
};
use conflux::federation::report::{
    health_request, is_healthy, ClientProgress, FederationError,
};
use conflux::federation::spawn::Spawn;
use conflux::federation::supervisor::{
    Action, AddressPoll, ClientPoll, Event, HealthPoll, StartFailure, Supervisor,
};
use conflux::federation::tasks::{
    await_server, conclude, node_listener_name, ClientEnd, Collection, ComponentEnd, Drain,
    Federation, FederationConfig, FederationSummary, NodeTemplate, StartupEvent, StartupVerdict,
};
use conflux::node::startup_guard::ClientAppKind;

fn text(s: &str) -> String {
    s.to_string()
}

#[test]
fn a_recipe_is_what_an_operator_types() {
    let spawn = Spawn::new("cflux")
        .arg("node")
        .flag("--server", "http://127.0.0.1:1")
        .env("RUST_LOG", "info")
        .env("A", "b");
    assert_eq!(
        spawn.recipe(),
        "RUST_LOG=info A=b cflux node --server http://127.0.0.1:1"
    );
    assert_eq!(spawn.duplicate().recipe(), spawn.recipe());
    assert_eq!(Spawn::new("x").recipe(), "x");
}

#[test]
fn an_address_is_read_from_the_first_line_that_names_it() {
    let file = "grpc=127.0.0.1:4000\r\nhttp=127.0.0.1:4001\nhttp=later\n";
    assert_eq!(find_value(file, "grpc"), Some(text("127.0.0.1:4000")));
    assert_eq!(find_value(file, "http"), Some(text("127.0.0.1:4001")));
    assert_eq!(find_value(file, "local"), None);
    assert_eq!(find_value("", "grpc"), None);
    assert_eq!(find_value("x grpc=1", "grpc"), None);
    assert_eq!(find_value("grpc=", "grpc"), Some(text("")));
}

#[test]
fn a_tail_quotes_the_last_lines() {
    let log = LogText::Text(text("one\ntwo\r\nthree\nfour"));
    assert_eq!(
        tail("a.log", &log, 2),
        "  --- a.log ---\n  three\n  four\n"
    );
    assert_eq!(
        tail("a.log", &log, 9),
        "  --- a.log ---\n  one\n  two\n  three\n  four\n"
    );
    assert_eq!(
        tail("a.log", &LogText::Text(String::new()), 25),
        "  (a.log is empty)"
    );
    assert_eq!(tail("a.log", &LogText::Missing, 25), "  (no log at a.log)");
    assert_eq!(
        tail("a.log", &LogText::NotText, 25),
        "  (log at a.log is not text)"
    );
}

#[test]
fn lines_end_as_they_do_in_the_standard_library() {
    for sample in [
        "",
        "\n",
        "\n\n",
        "a",
        "a\n",
        "a\nb",
        "a\r\nb\r",
        "a\r",
        "\r\n",
        "ü\nß\n\nx\r\n\ry",
    ] {
        let expected: String = sample.lines().map(|l| format!("  {l}\n")).collect();
        let got = tail("p", &LogText::Text(text(sample)), 1000);
        if expected.is_empty() {
            assert_eq!(got, "  (p is empty)", "{sample:?}");
        } else {
            assert_eq!(got, format!("  --- p ---\n{expected}"), "{sample:?}");
        }
    }
}

fn participant(i: usize) -> ProcessParticipant {
    ProcessParticipant {
        client_id: format!("silo-{i}"),
        node: Spawn::new("cflux").arg("node"),
        client: Spawn::new("python").arg("train.py"),
    }
}

fn begin(n: usize) -> (Supervisor, Action) {
    let plan = ProcessPlan {
        server: Spawn::new("cflux").arg("server"),
        participants: (0..n).map(participant).collect(),
        rounds: 3,
        startup_timeout: Period::from_secs(30),
        run_timeout: Period::from_millis(1_500),
    };
    let files = (0..n).map(|i| format!("/logs/node-{i}.addr")).collect();
    Supervisor::begin(plan, text("/logs/server.addr"), files)
}

fn address(addr: &str) -> Event {
    Event::Address(AddressPoll {
        contents: Some(format!("local={addr}\n")),
        address: Some(text(addr)),
        exited: None,
        late: false,
        log: String::new(),
    })
}

fn nothing_yet(late: bool, exited: Option<&str>, contents: Option<&str>) -> Event {
    Event::Address(AddressPoll {
        contents: contents.map(text),
        address: None,
        exited: exited.map(text),
        late,
        log: text("the log"),
    })
}

fn health(answered: bool, late: bool, exited: Option<&str>) -> Event {
    Event::Health(HealthPoll {
        answered,
        exited: exited.map(text),
        late,
        log: text("the log"),
    })
}

fn exited(code: i32) -> ClientPoll {
    ClientPoll::Exited {
        success: code == 0,
        code: Some(code),
        status: format!("exit status: {code}"),
        log: text("the log"),
    }
}

fn label_of(action: &Action) -> String {
    match action {
        Action::Start { label, .. } => label.clone(),
        other => panic!("expected a start, got {other:?}"),
    }
}

fn failure(action: Action) -> ProcessError {
    match action {
        Action::Fail(error) => error,
        other => panic!("expected a failure, got {other:?}"),
    }
}

fn summary(action: Action) -> ProcessSummary {
    match action {
        Action::Finish(summary) => summary,
        other => panic!("expected the end, got {other:?}"),
    }
}

fn up_to_waiting(n: usize) -> Supervisor {
    let (mut run, action) = begin(n);
    assert_eq!(label_of(&action), "server");
    assert!(matches!(
        run.step(Event::Started),
        Action::AwaitAddress { key: "grpc", .. }
    ));
    assert!(matches!(
        run.step(address("127.0.0.1:1")),
        Action::AwaitAddress { key: "http", .. }
    ));
    assert!(matches!(
        run.step(address("127.0.0.1:2")),
        Action::AwaitHealth { .. }
    ));
    let mut action = run.step(health(true, false, None));
    for i in 0..n {
        assert_eq!(label_of(&action), format!("node-{i}"));
        assert!(matches!(
            run.step(Event::Started),
            Action::AwaitAddress { key: "local", .. }
        ));
        action = run.step(address(&format!("127.0.0.1:{}", 10 + i)));
    }
    for i in 0..n {
        assert_eq!(label_of(&action), format!("client-{i}"));
        action = run.step(Event::Started);
    }
    assert!(matches!(action, Action::AwaitClients));
    run
}

#[test]
fn a_whole_run_ends_with_the_deployment_recipe() {
    let mut run = up_to_waiting(2);
    assert!(matches!(
        run.step(Event::Clients(vec![ClientPoll::Running, exited(0)], false)),
        Action::Again { millis: 50 }
    ));
    let done = summary(run.step(Event::Clients(vec![exited(0), ClientPoll::Running], true)));

    assert_eq!(done.server_grpc_addr, "127.0.0.1:1");
    assert_eq!(done.server_http_addr, "127.0.0.1:2");
    let clients: Vec<(usize, &str, Option<i32>)> = done
        .clients
        .iter()
        .map(|c| (c.index, c.client_id.as_str(), c.exit_code))
        .collect();
    assert_eq!(
        clients,
        vec![(0, "silo-0", Some(0)), (1, "silo-1", Some(0))]
    );
    assert_eq!(
        done.recipe,
        vec![
            "cflux server --addr-file /logs/server.addr --grpc-addr 127.0.0.1:0 --http-addr 127.0.0.1:0",
            "cflux node --addr-file /logs/node-0.addr --server http://127.0.0.1:1 --client-id silo-0 --local-addr 127.0.0.1:0",
            "cflux node --addr-file /logs/node-1.addr --server http://127.0.0.1:1 --client-id silo-1 --local-addr 127.0.0.1:0",
            "python train.py --address http://127.0.0.1:10 --client-id silo-0 --rounds 3",
            "python train.py --address http://127.0.0.1:11 --client-id silo-1 --rounds 3",
        ]
    );
}

#[test]
fn a_run_without_participants_is_complete_at_once() {
    let mut run = up_to_waiting(0);
    let done = summary(run.step(Event::Clients(Vec::new(), true)));
    assert!(done.clients.is_empty());
    assert_eq!(done.recipe.len(), 1);
}

#[test]
fn a_run_out_of_time_names_who_is_still_going() {
    let mut run = up_to_waiting(3);
    let error = failure(run.step(Event::Clients(
        vec![ClientPoll::Running, exited(0), ClientPoll::Running],
        true,
    )));
    assert_eq!(
        error.message(),
        "the federation did not finish within 1.5s: 2 of 3 client(s) were still running — silo-0, silo-2"
    );
}

#[test]
fn the_first_client_that_fails_ends_the_run() {
    let mut run = up_to_waiting(3);
    let error = failure(run.step(Event::Clients(
        vec![ClientPoll::Running, exited(2), exited(1)],
        false,
    )));
    assert_eq!(
        error.message(),
        "client 1 (silo-1) failed with exit status: 2\nthe log"
    );
}

#[test]
fn each_failure_to_start_is_told_apart() {
    let message = |events: Vec<Event>| {
        let (mut run, mut action) = begin(1);
        for event in events {
            action = run.step(event);
        }
        failure(action).message()
    };

    assert_eq!(
        message(vec![Event::NotStarted(StartFailure::Spawn {
            source: text("not found")
        })]),
        "could not start server (cflux): not found"
    );
    assert_eq!(
        message(vec![Event::NotStarted(StartFailure::Log {
            path: text("/logs/server.log"),
            source: text("denied")
        })]),
        "could not open /logs/server.log: denied"
    );
    assert_eq!(
        message(vec![
            Event::Started,
            nothing_yet(false, Some("exit status: 1"), None)
        ]),
        "server exited during startup with exit status: 1\nthe log"
    );
    assert_eq!(
        message(vec![Event::Started, nothing_yet(true, None, None)]),
        "server did not report an address within 30s\nthe log"
    );
    assert_eq!(
        message(vec![Event::Started, nothing_yet(true, None, Some("gr\npc"))]),
        "server wrote \"gr\\npc\" to its address file, which has no grpc= line"
    );
    assert_eq!(
        message(vec![
            Event::Started,
            nothing_yet(false, None, Some("")),
            nothing_yet(false, None, Some("grpc=soon")),
            address("127.0.0.1:1"),
            address("127.0.0.1:2"),
            health(false, false, None),
            health(false, true, None),
        ]),
        "server did not report an address within 30s\nthe log"
    );
    assert_eq!(
        message(vec![
            Event::Started,
            address("127.0.0.1:1"),
            address("127.0.0.1:2"),
            health(false, true, Some("signal: 9")),
        ]),
        "server exited during startup with signal: 9\nthe log"
    );
    assert_eq!(
        message(vec![
            Event::Started,
            address("127.0.0.1:1"),
            address("127.0.0.1:2"),
            health(true, false, None),
            Event::NotStarted(StartFailure::Spawn {
                source: text("no")
            }),
        ]),
        "could not start node-0 (cflux): no"
    );
}

fn layout(nodes: usize) -> Federation {
    let config = FederationConfig {
        nodes,
        ..FederationConfig::default()
    };
    Federation::lay_out(
        &config,
        text("127.0.0.1:1"),
        text("127.0.0.1:2"),
        (0..nodes).map(|i| format!("127.0.0.1:{}", 10 + i)).collect(),
    )
}

#[test]
fn a_node_and_its_client_share_an_identity() {
    let federation = layout(12);
    for i in 0..12 {
        let node = federation.node_config(&NodeTemplate::default(), i);
        let client = federation.client_config(i, 4);
        assert_eq!(node.client_id, format!("client-{i}"));
        assert_eq!(node.client_id, client.client_id);
        assert_eq!(federation.client_id(i), client.client_id);
        assert_eq!(client.address, format!("http://{}", node.local_addr));
        assert_eq!(client.address, federation.node_urls()[i]);
        assert_eq!(node.server_addr, "http://127.0.0.1:1");
        assert_eq!(client.rounds, 4);
        assert_eq!(client.poll_interval, Period::from_millis(5));
        assert_eq!(node.auth_token, "node-auth-token");
    }
    assert_eq!(federation.server_grpc_addr(), "127.0.0.1:1");
    assert_eq!(federation.server_grpc_url(), "http://127.0.0.1:1");
    assert_eq!(federation.server_http_addr(), "127.0.0.1:2");
    assert_eq!(federation.node_addrs().len(), 12);
    assert_eq!(federation.shutdown_grace(), Period::from_secs(2));
    assert_eq!(node_listener_name(3), "node 3");
}

#[test]
fn the_default_configuration_is_the_documented_one() {
    let config = FederationConfig::default();
    assert_eq!(config.nodes, 2);
    assert_eq!(config.rounds, 1);
    assert_eq!(config.client_id_prefix, "client");
    assert_eq!(config.startup_timeout, Period::from_secs(30));
    assert_eq!(config.timeout, Period::from_secs(300));
    assert_eq!(config.node.client_app_kind, ClientAppKind::Real);

    let mut stubbed = FederationConfig::default();
    stubbed.node.client_app_kind = ClientAppKind::Stub;
    assert_eq!(
        stubbed.with_real_clients().node.client_app_kind,
        ClientAppKind::Real
    );
}

#[test]
fn a_stall_names_every_client_that_had_not_finished() {
    let federation = layout(3);
    let unfinished = federation.unfinished(&[false, true, false], &[1, 2, 2], 2);
    let error = FederationError::Stalled {
        timeout: Period::from_secs(300),
        total: 3,
        unfinished,
    };
    assert_eq!(
        error.message(),
        "the federation did not finish within 300s: 2 of 3 client(s) were still running — client-0 attempted 1/2 round(s); client-2 attempted 2/2 round(s)"
    );
    let one = ClientProgress {
        index: 0,
        client_id: text("a"),
        rounds_attempted: 1,
        rounds_requested: 2,
    };
    assert_eq!(one.text(), "a attempted 1/2 round(s)");

    let timeout = Period { secs: 9, nanos: 0 };
    let settle = |collected| {
        federation.settle(collected, &[false, true, false], &[1, 2, 2], timeout, 3, 2)
    };
    match settle(None) {
        Err(FederationError::Stalled {
            timeout: Period { secs: 9, nanos: 0 },
            total: 3,
            unfinished,
        }) => {
            let indices: Vec<usize> = unfinished.iter().map(|p| p.index).collect();
            assert_eq!(indices, vec![0, 2]);
        }
        other => panic!("expected a stall, got {other:?}"),
    }
    let failed = FederationError::Server { source: text("no") };
    assert_eq!(
        settle(Some(Err(failed))).unwrap_err().message(),
        "the server failed: no"
    );
    let summary = settle(Some(Ok(Vec::new()))).unwrap();
    assert_eq!(summary.clients.len(), 0);
    assert_eq!(summary.server_grpc_addr, federation.server_grpc_addr());
    assert_eq!(summary.server_http_addr, federation.server_http_addr());
}

#[test]
fn the_start_of_the_server_has_three_ends() {
    let timeout = Period::from_secs(30);
    let verdict = |event: StartupEvent| await_server(event, "127.0.0.1:2", timeout);
    let failed = |event: StartupEvent| match verdict(event) {
        StartupVerdict::Failed { error, cancel } => (error.message(), cancel),
        other => panic!("expected a failure, got {other:?}"),
    };

    assert!(matches!(
        verdict(StartupEvent::Health(true)),
        StartupVerdict::Serving
    ));
    assert!(matches!(
        verdict(StartupEvent::Health(false)),
        StartupVerdict::Again(25)
    ));
    let late = "the server did not answer /health on 127.0.0.1:2 within 30s, and did not exit with an error either — it is bound but not serving";
    assert_eq!(failed(StartupEvent::Deadline), (text(late), true));
    assert_eq!(
        failed(StartupEvent::Ended(Some(ComponentEnd::Server(None)))),
        (text(late), false)
    );
    assert_eq!(failed(StartupEvent::Ended(None)), (text(late), false));
    assert_eq!(
        failed(StartupEvent::Ended(Some(ComponentEnd::Server(Some(text(
            "unknown aggregator"
        )))))),
        (text("the server failed: unknown aggregator"), false)
    );
    assert_eq!(
        failed(StartupEvent::Ended(Some(ComponentEnd::Panicked {
            source: text("boom")
        }))),
        (text("the server task panicked: boom"), false)
    );
    assert_eq!(
        failed(StartupEvent::Ended(Some(ComponentEnd::Node {
            index: 1,
            client_id: text("client-1"),
            error: Some(text("no")),
        }))),
        (text("node 1 (client-1) failed: no"), false)
    );
}

#[test]
fn a_shutdown_reports_the_first_failure() {
    let node = |index: usize, error: Option<&str>| ComponentEnd::Node {
        index,
        client_id: format!("client-{index}"),
        error: error.map(text),
    };
    let mut drain = Drain::new();
    drain.take(ComponentEnd::Server(None));
    drain.take(ComponentEnd::Cancelled { source: text("c") });
    drain.take(node(1, Some("first")));
    drain.take(node(0, Some("second")));
    assert_eq!(
        drain.result().unwrap_err().message(),
        "node 1 (client-1) failed: first"
    );

    let mut drain = Drain::new();
    drain.take(ComponentEnd::Panicked { source: text("p") });
    assert_eq!(
        drain.result().unwrap_err().message(),
        "the federation task panicked: p"
    );
    let mut drain = Drain::new();
    drain.take(node(0, None));
    assert!(drain.result().is_ok());
}

#[test]
fn outcomes_come_in_the_order_of_their_indices() {
    let mut collection = Collection::new();
    for index in [2, 0, 1] {
        collection
            .take(ClientEnd::Completed {
                index,
                client_id: format!("client-{index}"),
                rounds: index + 1,
            })
            .unwrap();
    }
    let outcomes = collection.into_outcomes();
    let indices: Vec<usize> = outcomes.iter().map(|o| o.index).collect();
    assert_eq!(indices, vec![0, 1, 2]);
    assert_eq!(outcomes[2].rounds_completed, 3);

    let mut collection = Collection::new();
    let error = collection
        .take(ClientEnd::Failed {
            index: 1,
            client_id: text("client-1"),
            source: text("no"),
        })
        .unwrap_err();
    assert_eq!(error.message(), "client 1 (client-1) failed: no");
    let error = collection
        .take(ClientEnd::Panicked { source: text("no") })
        .unwrap_err();
    assert_eq!(error.message(), "the a client task panicked: no");
}

#[test]
fn the_error_of_the_run_outranks_that_of_the_shutdown() {
    let summary = || FederationSummary {
        clients: Vec::new(),
        server_grpc_addr: text("g"),
        server_http_addr: text("h"),
    };
    let error = |source: &str| FederationError::Server {
        source: text(source),
    };
    assert!(conclude(Ok(summary()), Ok(())).is_ok());
    assert_eq!(
        conclude(Ok(summary()), Err(error("late"))).unwrap_err().message(),
        "the server failed: late"
    );
    assert_eq!(
        conclude(Err(error("run")), Err(error("late"))).unwrap_err().message(),
        "the server failed: run"
    );
}

#[test]
fn the_health_of_a_server_is_asked_and_read() {
    assert_eq!(
        health_request("127.0.0.1:2"),
        "GET /health HTTP/1.1\r\nHost: 127.0.0.1:2\r\nConnection: close\r\n\r\n"
    );
    assert!(is_healthy("HTTP/1.1 200 OK\r\n\r\n"));
    assert!(!is_healthy("HTTP/1.1 503 Service Unavailable\r\n\r\n"));
    assert!(!is_healthy("HTTP/1.1 2"));
}

#[test]
fn the_errors_of_listeners_name_them() {
    let bind = FederationError::Bind {
        what: node_listener_name(3),
        source: text("no"),
    };
    assert_eq!(
        bind.message(),
        "cannot bind a loopback listener for the node 3: no"
    );
    let addr = FederationError::ListenerAddr {
        what: text("server's admin API"),
        source: text("no"),
    };
    assert_eq!(
        addr.message(),
        "the server's admin API listener would not report its own address: no"
    );
}

#[test]
fn a_span_is_shown_as_the_standard_library_shows_it() {
    for (secs, nanos) in [(0, 0), (1, 500_000_000), (0, 5_000_000), (300, 0), (7, 1)] {
        assert_eq!(
            Period { secs, nanos }.text(),
            format!("{:?}", std::time::Duration::new(secs, nanos))
        );
    }
    assert_eq!(
        Period::from_millis(1_500),
        Period { secs: 1, nanos: 500_000_000 }
    );
}
