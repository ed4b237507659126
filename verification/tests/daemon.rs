//! The daemon: where it lives, what it says, and what it decides.

use ripindex::daemon::actor::{
    group_bytes, next_id, to_unix_ms, MergeEnd, MergeRun, MergeStep, MergeWork, RootActor, Seen,
};
use ripindex::daemon::client::{
    handshake, Attempt, Autostart, Exchange, Progress, Received, Reply, RequestIds, Start,
    RETRY_MS, START_MS,
};
use ripindex::daemon::config::{
    Config, ConfigFile, GovernorConfig, MergeConfig, RootConfig,
};
use ripindex::daemon::paths::{
    config_file, join_on, lock_file, log_file, pipe_name, rotated_log_file, runtime_dir,
    socket_path, state_dir, strip_verbatim, Environment, Platform,
};
use ripindex::daemon::protocol::{
    malformed, parse_client_line, to_line, ClientMessage, Method, ServerMessage, DEFAULT_LIMIT,
    PROTOCOL_VERSION,
};
use ripindex::daemon::run::{
    install_hint, launchd_plist, must_rotate, systemd_unit, IdleWatch, System, LOG_ROTATE_BYTES,
};
use ripindex::daemon::server::{
    fetch_limit, named_roots, page, parse_query, total_matches, Asked, HitKey, Incoming, Registry,
    Session, Stage, Task, Turn,
};
use ripindex::daemon::transport::{
    before_bind, is_not_running, tries_again, BeforeBind, ErrorKind, ERROR_FILE_NOT_FOUND,
    ERROR_PIPE_BUSY,
};
use ripindex::format::manifest::SegmentEntry;
use ripindex::store::governor::{Governor, POWER_BACKOFF_MS};
use ripindex::store::merge_plan::MergePolicy;
use ripindex::store::segment::Moment;
use ripindex::store::watcher::WatchConfig;

// Paths.

fn environment(platform: Platform) -> Environment {
    Environment {
        platform,
        test_runtime_dir: None,
        test_state_dir: None,
        test_socket_path: None,
        test_pipe_name: None,
        xdg_runtime_dir: Some("/run/user/7".to_string()),
        xdg_state_home: None,
        home: Some("/home/me".to_string()),
        local_app_data: Some(r"C:\Local".to_string()),
        user_name: Some("Jane Doe-1".to_string()),
        temp_dir: "/tmp".to_string(),
    }
}

#[test]
fn paths_are_stable_and_nested_under_ripindex() {
    for platform in [Platform::Unix, Platform::Windows, Platform::Other] {
        let env = environment(platform);
        assert!(runtime_dir(&env).ends_with("ripindex") || runtime_dir(&env).ends_with("run"));
        assert!(state_dir(&env).contains("ripindex"));
        assert!(lock_file(&env).ends_with("daemon.lock"));
        assert!(log_file(&env).ends_with("daemon.log"));
        assert!(config_file(&env).ends_with("config.toml"));
    }
    let env = environment(Platform::Unix);
    assert_eq!(runtime_dir(&env), "/run/user/7/ripindex");
    assert_eq!(state_dir(&env), "/home/me/.local/state/ripindex");
    assert_eq!(rotated_log_file(&env), "/home/me/.local/state/ripindex/daemon.log.1");
    assert_eq!(socket_path(&env), "/run/user/7/ripindex/daemon.sock");
    assert_eq!(runtime_dir(&environment(Platform::Windows)), r"C:\Local\ripindex\run");
}

#[test]
fn settings_for_tests_take_their_place() {
    let env = Environment {
        test_runtime_dir: Some("/t/run".to_string()),
        test_state_dir: Some("/t/state".to_string()),
        test_socket_path: Some("/t/s".to_string()),
        test_pipe_name: Some("p".to_string()),
        ..environment(Platform::Unix)
    };
    assert_eq!(runtime_dir(&env), "/t/run");
    assert_eq!(state_dir(&env), "/t/state");
    assert_eq!((socket_path(&env), pipe_name(&env)), ("/t/s".to_string(), "p".to_string()));
    // A variable that is set to nothing is not set.
    let env = Environment { test_runtime_dir: Some(String::new()), ..environment(Platform::Unix) };
    assert_eq!(runtime_dir(&env), "/run/user/7/ripindex");
}

#[test]
fn verbatim_prefix_is_stripped_for_display_and_clients() {
    // The form that canonical paths have on Windows...
    assert_eq!(strip_verbatim(r"\\?\C:\code\proj", Platform::Windows), r"C:\code\proj");
    // ...including the UNC spelling, which must stay a UNC path.
    assert_eq!(strip_verbatim(r"\\?\UNC\srv\share\x", Platform::Windows), r"\\srv\share\x");
    // Anything already plain is untouched.
    assert_eq!(strip_verbatim(r"C:\code\proj", Platform::Windows), r"C:\code\proj");
    assert_eq!(strip_verbatim(r"\\?\C:\code", Platform::Unix), r"\\?\C:\code");
}

#[test]
fn pipe_name_is_well_formed_and_stable() {
    let env = environment(Platform::Windows);
    let a = pipe_name(&env);
    let b = pipe_name(&env);
    assert_eq!(a, b);
    assert!(a.starts_with(r"\\.\pipe\ripindex-"));
    assert!(!a[r"\\.\pipe\ripindex-".len()..].contains(' '));
}

#[test]
fn names_are_joined_by_platform() {
    assert_eq!(join_on("/a", "b", Platform::Unix), "/a/b");
    assert_eq!(join_on("/a/", "b", Platform::Unix), "/a/b");
    assert_eq!(join_on(r"C:\a", "b", Platform::Windows), r"C:\a\b");
    assert_eq!(join_on("C:", "b", Platform::Windows), "C:b");
}

// Transport.

#[test]
fn not_running_classification() {
    for platform in [Platform::Unix, Platform::Windows] {
        assert!(is_not_running(ErrorKind::NotFound, None, platform));
        assert!(is_not_running(ErrorKind::ConnectionRefused, None, platform));
        assert!(!is_not_running(ErrorKind::PermissionDenied, None, platform));
    }
    assert!(is_not_running(ErrorKind::Other, Some(ERROR_FILE_NOT_FOUND), Platform::Windows));
    assert!(!is_not_running(ErrorKind::Other, Some(ERROR_FILE_NOT_FOUND), Platform::Unix));
}

#[test]
fn a_stale_socket_is_removed_and_a_live_one_refused() {
    assert_eq!(before_bind(false, false), BeforeBind::Bind);
    assert_eq!(before_bind(true, false), BeforeBind::Remove);
    assert_eq!(before_bind(true, true), BeforeBind::Refuse);
    assert!(tries_again(Some(ERROR_PIPE_BUSY), 1, 2));
    assert!(!tries_again(Some(ERROR_PIPE_BUSY), 2, 2) && !tries_again(None, 1, 2));
}

// Running.

#[test]
fn unit_files_are_well_formed_enough() {
    let s = systemd_unit("/usr/bin/ripindex");
    assert!(s.contains("ExecStart=/usr/bin/ripindex daemon"));
    let p = launchd_plist("/usr/local/bin/ripindex");
    assert!(p.contains("<string>daemon</string>"));
}

#[test]
fn hints_hold_the_unit_for_the_system() {
    assert!(install_hint("rx", System::Linux).contains(&systemd_unit("rx")));
    assert!(install_hint("rx", System::MacOs).contains(&launchd_plist("rx")));
    assert!(install_hint("rx", System::Windows).contains("schtasks"));
    assert!(!install_hint("rx", System::Other).contains("rx"));
}

#[test]
fn logs_rotate_at_ten_mebibytes() {
    assert_eq!(LOG_ROTATE_BYTES, 10 * 1024 * 1024);
    assert!(!must_rotate(LOG_ROTATE_BYTES));
    assert!(must_rotate(LOG_ROTATE_BYTES + 1));
}

#[test]
fn the_daemon_ends_only_after_a_whole_idle_stretch() {
    let mut w = IdleWatch::new(10_000);
    assert!(!w.look(true, 0));
    assert!(!w.look(true, 9_999));
    assert!(!w.look(false, 10_000)); // a connection: the stretch starts anew
    assert!(!w.look(true, 10_001));
    assert!(!w.look(true, 20_000));
    assert!(w.look(true, 20_001));
    assert_eq!(IdleWatch::new(0).poll_ms(), 1000);
    assert_eq!(IdleWatch::new(u64::MAX).poll_ms(), 30_000);
}

// The protocol.

#[test]
fn malformed_json_has_no_id() {
    let text = parse_client_line("{not json at all").unwrap();
    let why = serde_json::from_str::<serde_json::Value>(&text).unwrap_err().to_string();
    let (id, msg) = malformed(&text, &why);
    assert_eq!(id, None);
    assert!(msg.contains("malformed"));
}

#[test]
fn malformed_params_still_recovers_the_id() {
    // Valid JSON, valid envelope shape, but `params` doesn't match `query`'s schema.
    let line =
        r#"{"type":"request","id":42,"method":"query","params":{"limit":"not a number"}}"#;
    let text = parse_client_line(line).unwrap();
    let (id, _) = malformed(&text, "invalid type");
    assert_eq!(id, Some(42));
}

#[test]
fn empty_and_whitespace_lines_are_rejected() {
    assert!(parse_client_line("").is_err());
    assert!(parse_client_line("   \r\n").is_err());
}

#[test]
fn a_line_gives_back_its_message() {
    let line = to_line(r#"{"a":1}"#);
    assert_eq!(line, "{\"a\":1}\n");
    assert_eq!(parse_client_line(&line), Ok(r#"{"a":1}"#.to_string()));
    assert_eq!(DEFAULT_LIMIT, 20);
    match ServerMessage::error(Some(5), "no such root") {
        ServerMessage::Error { id: Some(5), message } => assert_eq!(message, "no such root"),
        other => panic!("{other:?}"),
    }
    match ServerMessage::result(4, "{}") {
        ServerMessage::Result { id: 4, value } => assert_eq!(value, "{}"),
        other => panic!("{other:?}"),
    }
}

// Settings.

#[test]
fn missing_file_is_the_default() {
    let cfg = Config::load(ConfigFile::Missing).unwrap();
    assert_eq!(cfg, Config::default());
}

#[test]
fn merge_config_converts_to_a_policy() {
    let mc = MergeConfig::default();
    let policy: MergePolicy = mc.into();
    assert_eq!(policy, MergePolicy::default());
}

#[test]
fn settings_are_taken_as_they_are_read() {
    let cfg = Config { idle_timeout_secs: 99, ..Config::default() };
    assert_eq!(Config::load(ConfigFile::Holds(cfg)).unwrap().idle_timeout_secs, 99);
    assert_eq!(Config::load(ConfigFile::Unreadable("bad".to_string())), Err("bad".to_string()));
    let d = Config::default();
    assert_eq!(d.watch_config(), WatchConfig::default());
    assert_eq!(d.idle_timeout_ms(), Some(d.idle_timeout_secs * 1000));
    assert_eq!(Config { idle_timeout_secs: 0, ..Config::default() }.idle_timeout_ms(), None);
    assert_eq!(RootConfig::default().max_file_size_bytes, None);
    assert_eq!(GovernorConfig::default(), d.governor);
}

// Sessions.

fn hello() -> Incoming {
    Incoming::Message(ClientMessage::Hello { protocol: PROTOCOL_VERSION })
}

fn request(id: u64, method: Method) -> Incoming {
    Incoming::Message(ClientMessage::Request { id, method })
}

#[test]
fn a_session_greets_serves_and_ends() {
    let mut s = Session::new(77);
    assert!(matches!(
        s.hear(hello()),
        Turn::Send(ServerMessage::HelloOk { protocol: PROTOCOL_VERSION, pid: 77 })
    ));
    assert!(matches!(
        s.hear(request(1, Method::Status)),
        Turn::Serve { id: 1, method: Method::Status }
    ));
    // What is not understood is answered, and the connection goes on.
    match s.hear(Incoming::Refused { id: Some(9), message: "malformed".to_string() }) {
        Turn::Send(ServerMessage::Error { id: Some(9), message }) => {
            assert_eq!(message, "malformed")
        }
        other => panic!("{other:?}"),
    }
    assert!(matches!(s.hear(hello()), Turn::Send(ServerMessage::Error { id: None, .. })));
    assert!(matches!(
        s.hear(request(2, Method::Shutdown)),
        Turn::ShutDown(ServerMessage::Result { id: 2, .. })
    ));
    assert_eq!(s.stage, Stage::Over);
    assert!(matches!(s.hear(request(3, Method::Status)), Turn::Close));
}

#[test]
fn nothing_is_served_before_a_hello() {
    let mut s = Session::new(1);
    assert!(matches!(
        s.hear(request(1, Method::ListRoots)),
        Turn::Dismiss(ServerMessage::Error { id: None, .. })
    ));
    assert!(matches!(s.hear(hello()), Turn::Close));

    let mut s = Session::new(1);
    match s.hear(Incoming::Message(ClientMessage::Hello { protocol: 9 })) {
        Turn::Dismiss(ServerMessage::Error { id: None, message }) => {
            assert_eq!(message, "protocol mismatch: server=1, client=9")
        }
        other => panic!("{other:?}"),
    }
    assert!(matches!(Session::new(1).hear(Incoming::Closed), Turn::Close));
}

// Roots and requests.

fn asked(name: &str) -> Asked {
    Asked { given: name.to_string(), key: name.to_string() }
}

#[test]
fn roots_are_kept_by_name() {
    let mut r = Registry::new(&Config::default());
    assert_eq!(r.add_root("/b"), (0, true));
    assert_eq!(r.add_root("/a"), (1, true));
    assert_eq!(r.add_root("/b"), (0, false));
    assert_eq!(r.list_roots(), vec!["/b", "/a"]);
    assert_eq!((r.get("/a"), r.get("/c")), (Some(1), None));
    assert_eq!(r.targets(&None), Ok(vec![0, 1]));
    assert_eq!(r.targets(&Some(vec![asked("/a")])), Ok(vec![1]));
    assert_eq!(
        r.targets(&Some(vec![asked("/a"), asked("/x")])),
        Err("no such root: /x".to_string())
    );
    assert_eq!(r.remove_root("/b"), Some(0));
    assert_eq!(r.remove_root("/b"), None);
    assert_eq!(r.list_roots(), vec!["/a"]);
}

#[test]
fn roots_are_kept_as_configured() {
    let config = Config {
        governor: GovernorConfig { bytes_per_sec: 7, cpu_ppm: 250_000 },
        merge: MergeConfig { tier_size: 9, ..MergeConfig::default() },
        watch_debounce_ms: 20,
        periodic_reconcile_secs: 3,
        ..Config::default()
    };
    let mut r = Registry::new(&config);
    r.add_root("/a");
    r.connected();
    r.remove_root("/a");
    r.disconnected();
    let u = r.upkeep();
    assert_eq!(u.merge, config.merge);
    assert_eq!(u.governor, config.governor);
    assert_eq!(u.watch, WatchConfig { debounce_ms: 20, periodic_reconcile_ms: 3000 });
    let long = Config { periodic_reconcile_secs: u64::MAX, ..Config::default() };
    assert_eq!(Registry::new(&long).upkeep().watch.periodic_reconcile_ms, u64::MAX);
}

#[test]
fn connections_are_counted() {
    let mut r = Registry::new(&Config::default());
    assert!(r.is_idle());
    r.connected();
    r.connected();
    r.disconnected();
    assert_eq!(r.connection_count(), 1);
    assert!(!r.is_idle());
    r.disconnected();
    assert!(r.is_idle());
}

#[test]
fn requests_become_tasks() {
    let mut r = Registry::new(&Config::default());
    r.add_root("/a");
    r.add_root("/b");
    let query = |q: &str, roots: Option<Vec<String>>| Method::Query {
        roots,
        query: q.to_string(),
        limit: 5,
        offset: 2,
        snippet: false,
    };
    match r.dispatch(1, query("x y", None), None) {
        Task::Search { places, limit: 5, offset: 2, snippet: false, .. } => {
            assert_eq!(places, vec![0, 1])
        }
        _ => panic!("a query is a search"),
    }
    assert!(matches!(
        r.dispatch(2, query("-x", None), None),
        Task::Refuse(ServerMessage::Error { id: Some(2), .. })
    ));
    assert!(matches!(
        r.dispatch(3, query("x", Some(vec!["/z".to_string()])), Some(vec![asked("/z")])),
        Task::Refuse(ServerMessage::Error { id: Some(3), .. })
    ));
    match r.dispatch(4, Method::Merge { root: Some("/b".to_string()) }, Some(vec![asked("/b")])) {
        Task::Merge { places } => assert_eq!(places, vec![1]),
        _ => panic!("a merge of one root"),
    }
    assert!(matches!(r.dispatch(5, Method::ListRoots, None), Task::ListRoots));
    assert!(matches!(r.dispatch(6, Method::Shutdown, None), Task::ShutDown));
    assert_eq!(
        named_roots(&Method::Reconcile { root: Some("/q".to_string()), subtree: None }),
        Some(vec!["/q".to_string()])
    );
    assert_eq!(named_roots(&Method::Status), None);
    assert!(parse_query("a OR b").is_ok());
    assert!(parse_query("(").is_err());
}

#[test]
fn pages_are_cut_from_the_best() {
    let keys = [HitKey { key: 3 }, HitKey { key: 9 }, HitKey { key: 3 }, HitKey { key: 5 }];
    assert_eq!(page(&keys, 0, 2), vec![1, 3]);
    assert_eq!(page(&keys, 2, 2), vec![0, 2]); // ties keep their order
    assert_eq!(page(&keys, 4, 2), Vec::<usize>::new());
    assert_eq!(total_matches(&[2, 3]), 5);
    assert_eq!(fetch_limit(2, 3), 5);
    assert_eq!(fetch_limit(usize::MAX, 3), usize::MAX);
}

// The client.

#[test]
fn a_handshake_needs_the_same_version() {
    let ok = |protocol| Received::Message(ServerMessage::HelloOk { protocol, pid: 1 });
    assert_eq!(handshake(&ok(PROTOCOL_VERSION), ""), Ok(()));
    assert!(handshake(&ok(2), "").unwrap_err().contains("the daemon speaks 2"));
    assert_eq!(
        handshake(&Received::Message(ServerMessage::error(None, "go away")), ""),
        Err("go away".to_string())
    );
    assert_eq!(
        handshake(&Received::Closed, "None"),
        Err("unexpected handshake reply: None".to_string())
    );
}

fn hit(id: u64, path: &str) -> Received {
    Received::Message(ServerMessage::Hit {
        id,
        root: "/r".to_string(),
        path: path.to_string(),
        score: 0,
        line_no: None,
        snippet: None,
    })
}

#[test]
fn replies_to_other_requests_are_passed_over() {
    let mut ids = RequestIds::new();
    assert_eq!((ids.take(), ids.take()), (1, 2));
    let mut e = Exchange::new(2);
    assert!(matches!(e.take(hit(2, "a")), Progress::More));
    assert!(matches!(e.take(hit(1, "x")), Progress::More));
    let done = |id| Received::Message(ServerMessage::Done { id, total: 9, elapsed_us: 4 });
    assert!(matches!(e.take(done(1)), Progress::More));
    assert!(matches!(e.take(hit(2, "b")), Progress::More));
    match e.take(done(2)) {
        Progress::Replied(Reply::Query { hits, total: 9, elapsed_us: 4 }) => {
            let paths: Vec<&str> = hits.iter().map(|h| h.path.as_str()).collect();
            assert_eq!(paths, vec!["a", "b"]);
        }
        other => panic!("{other:?}"),
    }
    assert!(matches!(Exchange::new(1).take(Received::Closed), Progress::Failed(_)));
    assert!(matches!(
        Exchange::new(1).take(Received::Message(ServerMessage::error(Some(1), "no"))),
        Progress::Replied(Reply::Error(_))
    ));
}

#[test]
fn a_client_starts_one_daemon_and_waits_for_it() {
    let mut a = Autostart::Trying;
    let failed = Attempt::Failed { not_running: true };
    assert_eq!(a.attempt(failed, 100), Start::Spawn);
    assert_eq!(a.attempt(failed, 100), Start::Wait(RETRY_MS));
    assert_eq!(a.attempt(failed, 100 + START_MS), Start::GiveUp);
    assert_eq!(a.attempt(Attempt::Connected, 100), Start::Use);
    let mut a = Autostart::Trying;
    assert_eq!(a.attempt(Attempt::Failed { not_running: false }, 0), Start::GiveUp);
}

// Roots at work.

fn at(secs: u64) -> Moment {
    Moment { before_epoch: false, secs, nanos: 5_000_000 }
}

#[test]
fn status_reports_docs_and_generation() {
    let mut a = RootActor::new();
    let seen = Seen { generation: 3, docs: 10, docs_indexed: 9, segments: 2, on_disk_bytes: 77 };
    let s = a.status("/r", &seen);
    assert_eq!((s.docs, s.docs_indexed, s.generation, s.segments), (10, 9, 3, 2));
    assert_eq!((s.root.as_str(), s.on_disk_bytes, s.watcher_healthy), ("/r", 77, true));
    assert!(s.last_reconcile_ms.is_none() && s.last_merge_result.is_none() && !s.merge_running);

    let o = a.reconciled(2, Ok(seen), 12, at(8)).unwrap();
    assert!(o.changed && o.generation == 3 && o.docs == 10 && o.elapsed_ms == 12);
    assert!(!a.reconciled(3, Ok(seen), 1, at(9)).unwrap().changed);
    assert_eq!(a.status("/r", &seen).last_reconcile_unix_ms, Some(9005));
    assert_eq!(a.reconciled(3, Err("locked".to_string()), 1, at(9)).unwrap_err(), "locked");
    assert_eq!(a.status("/r", &seen).last_reconcile_error, Some("locked".to_string()));
    a.set_watcher_healthy(false);
    assert!(!a.status("/r", &seen).watcher_healthy);
}

#[test]
fn one_merge_runs_at_a_time() {
    let mut a = RootActor::new();
    let seen = Seen { generation: 1, docs: 0, docs_indexed: 0, segments: 0, on_disk_bytes: 0 };
    assert!(a.start_merge().started);
    let second = a.start_merge();
    assert!(!second.started && second.reason.is_some());
    a.finish_merge(MergeEnd::Merged(2), at(1));
    let s = a.status("/r", &seen);
    assert_eq!(s.last_merge_result, Some("merged 2 group(s)".to_string()));
    assert_eq!(s.last_merge_unix_ms, Some(1005));
    assert!(a.start_merge().started);
    a.finish_merge(MergeEnd::Failed("disk".to_string()), at(1));
    assert_eq!(a.status("/r", &seen).last_merge_result, Some("error: disk".to_string()));
    assert_eq!(to_unix_ms(Moment { before_epoch: true, secs: 4, nanos: 0 }), 0);
    let mut ids = 5;
    assert_eq!((next_id(&mut ids), next_id(&mut ids)), (5, 6));
}

#[test]
fn a_merge_is_held_back_and_committed_once() {
    // Half the time is work.
    let governor = Governor::new(1_000_000, 500_000, 0);
    let (mut run, mut work) = MergeRun::new(governor, vec![10, 20]);
    assert!(matches!(work, MergeWork::Look));
    let look = |on_battery| MergeStep::Looked { on_battery, memory_pressure: false, now_ms: 0 };
    work = run.step(look(true));
    assert!(matches!(work, MergeWork::Wait(POWER_BACKOFF_MS)));
    assert!(matches!(run.step(MergeStep::Waited), MergeWork::Prepare(0)));
    assert!(matches!(run.step(MergeStep::Prepared { spent_ms: 40 }), MergeWork::Wait(40)));
    assert!(matches!(run.step(MergeStep::Waited), MergeWork::Look));
    assert!(matches!(run.step(look(false)), MergeWork::Prepare(1)));
    assert!(matches!(run.step(MergeStep::Prepared { spent_ms: 0 }), MergeWork::Commit));

    let (mut run, _) = MergeRun::new(governor, vec![10]);
    run.step(look(false));
    match run.step(MergeStep::Failed("bad".to_string())) {
        MergeWork::Discard(why) => assert_eq!(why, "bad"),
        other => panic!("{other:?}"),
    }
    assert!(matches!(MergeRun::new(governor, vec![]).1, MergeWork::Commit));
}

#[test]
fn a_group_counts_the_bytes_of_its_segments() {
    let seg = |segment_id, idx_len| SegmentEntry { segment_id, idx_len, ..Default::default() };
    let segments = [seg(4, 100), seg(5, 20), seg(6, 3)];
    assert_eq!(group_bytes(&segments, &[4, 6, 99]), 103);
}
