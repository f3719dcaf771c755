use std::sync::Arc;

use lightwatch::api::{
    self, session_list, snapshot, snapshot_view, stream_message, summary, Rate, Resolution,
    SnapshotView, StreamMessage,
};
use lightwatch::dist::Dist;
use lightwatch::proto::{Event, Frame, FunctionId, Hello, PathId, Register, TypeId};
use lightwatch::registry::Registry;
use lightwatch::server::{
    self, bundle_path, list_processes, list_sessions, mime_for, port_from, relayed,
    requested_view, served, session_feeds, tagged, Received, Refused, Relayed, Served, Tagged,
    DEFAULT_PORT, PLACEHOLDER,
};
use lightwatch::session::{find, pair_sessions, Feed, CENSUS_SOURCE, SAME_RUN_TOLERANCE_MS};
use lightwatch::store::{ProcessId, ProcessState, Update};

fn process_with_traffic() -> ProcessState {
    let hello = Hello::new("demo", "test", 4242, 1_700_000_000_000);
    let mut process = ProcessState::new(ProcessId::of_hello(&hello), &hello);
    process.greet(&hello);
    process.apply_frame(&Frame {
        seq: 0,
        t_ns: 0,
        registers: vec![
            Register::Function {
                id: FunctionId(1),
                name: "decode".into(),
                module: Some("demo".into()),
                location: None,
            },
            Register::Function {
                id: FunctionId(2),
                name: "resize".into(),
                module: None,
                location: None,
            },
            Register::Type { id: TypeId(1), name: "Thumbnail".into(), location: None },
        ],
        events: vec![],
    });
    for window in 1..=10u64 {
        process.apply_frame(&Frame {
            seq: window,
            t_ns: window * 100_000_000,
            registers: vec![],
            events: vec![
                Event::Calls {
                    func: FunctionId(1),
                    count: 4,
                    ns: Dist::Raw { v: vec![1_000_000; 4] },
                },
                Event::Edge { from: FunctionId(1), to: FunctionId(2), count: 4 },
                Event::Census {
                    ty: TypeId(1),
                    live: window,
                    bytes: window * 100,
                    sizes: Dist::empty(),
                },
            ],
        });
    }
    process
}

/// A rate as the interface shows it.
fn per_sec(rate: Rate) -> f64 {
    rate.total as f64 / (rate.covered_ns as f64 / 1_000_000_000.0)
}

#[test]
fn the_snapshot_names_every_field_the_web_client_reads() {
    let taken = snapshot(&process_with_traffic(), 1_700_000_001_000);

    assert_eq!(taken.taken_unix_ms, 1_700_000_001_000);
    assert_eq!(taken.rate_window_ms, 1_000);
    assert_eq!(taken.fine_window_ms, 100);
    let process = &taken.process;
    assert_eq!(process.id, "4242-1700000000000-test");
    assert_eq!(process.app, "demo");
    assert_eq!(process.pid, 4242);
    assert_eq!(process.source, "test");
    assert_eq!(process.started_unix_ms, 1_700_000_000_000);
    assert_eq!(process.ended_unix_ms, None);
    assert!(process.connected);
    assert_eq!(process.window_ms, 100);
    assert_eq!(process.counts.frames, 11);
    assert_eq!(process.counts.events, 30);
    let function = &taken.functions[0];
    assert_eq!(function.id, 1);
    assert_eq!(function.name, "decode");
    assert_eq!(function.calls_total, 40);
    assert_eq!(function.ns_total, 40_000_000);
    assert_eq!(per_sec(function.calls_per_sec), 40.0);
    assert_eq!(per_sec(function.ns_per_sec), 40_000_000.0);
    assert_eq!(function.ns_buckets.len(), 1);
    let census = taken.types[0].census.as_ref().unwrap();
    assert_eq!((census.live, census.bytes, census.at_t_ns), (10, 1_000, 1_000_000_000));
    assert!(census.size_buckets.is_empty());
    let edge = &taken.edges[0];
    assert_eq!((edge.from, edge.to, edge.calls_total), (1, 2, 40));
    let window = taken.windows.iter().find(|w| w.index == 3).unwrap();
    assert_eq!((window.start_t_ns, window.end_t_ns), (300_000_000, 400_000_000));
    assert_eq!(window.calls[0].calls, 4);
    assert_eq!(window.edges[0].calls, 4);
    assert_eq!(window.census[0].live, 3);
}

#[test]
fn the_snapshot_reports_a_census_as_the_latest_reading_and_calls_as_a_running_total() {
    let snapshot = snapshot(&process_with_traffic(), 1_700_000_001_000);

    let decode = snapshot.functions.iter().find(|f| f.id == 1).expect("decode is listed");
    assert_eq!(decode.calls_total, 40, "ten windows of four calls accumulate");
    assert_eq!(decode.ns_total, 40_000_000);

    let thumbnail = snapshot.types.iter().find(|t| t.id == 1).expect("Thumbnail is listed");
    let census = thumbnail.census.as_ref().expect("a reading arrived");
    assert_eq!(census.live, 10, "the last reading, not 1 + 2 + ... + 10");
    assert_eq!(census.bytes, 1_000);
}

#[test]
fn the_rate_is_averaged_over_the_documented_window() {
    let snapshot = snapshot(&process_with_traffic(), 1_700_000_001_000);
    let decode = snapshot.functions.iter().find(|f| f.id == 1).expect("decode is listed");
    assert_eq!(snapshot.rate_window_ms, 1_000);
    assert_eq!(
        per_sec(decode.calls_per_sec),
        40.0,
        "four calls per 100ms window is forty a second"
    );
}

#[test]
fn a_bucket_carries_the_value_range_so_a_client_need_not_port_the_bucketing() {
    let snapshot = snapshot(&process_with_traffic(), 1_700_000_001_000);
    let decode = snapshot.functions.iter().find(|f| f.id == 1).expect("decode is listed");
    let bucket = decode.ns_buckets.first().expect("durations were recorded");
    assert!(
        bucket.lo <= 1_000_000 && 1_000_000 <= bucket.hi,
        "the sample is inside its own range"
    );
    assert_eq!(bucket.count, 40);
}

#[test]
fn a_view_chooses_the_ring_and_how_much_of_it() {
    let process = process_with_traffic();
    let fine = snapshot_view(
        &process,
        1,
        SnapshotView { resolution: Resolution::Fine, limit: 2 },
    );
    assert_eq!(fine.resolution, "fine");
    assert_eq!(fine.resolution_ms, 100);
    let shown: Vec<u64> = fine.windows.iter().map(|w| w.index).collect();
    assert_eq!(shown, vec![9, 10]);
    let coarse = snapshot_view(
        &process,
        1,
        SnapshotView { resolution: Resolution::Coarse, limit: 10 },
    );
    assert_eq!(coarse.resolution, "coarse");
    assert_eq!(coarse.resolution_ms, 1_000);
    let shown: Vec<u64> = coarse.windows.iter().map(|w| w.index).collect();
    assert_eq!(shown, vec![0, 1]);
    assert_eq!(coarse.windows[0].calls[0].calls, 36);
    assert_eq!(summary(&process).last_t_ns, 1_000_000_000);
}

#[test]
fn self_time_is_read_off_the_tree() {
    let hello = Hello::new("demo", "test", 1, 1);
    let mut process = ProcessState::new(ProcessId::of_hello(&hello), &hello);
    let function = |id: u32, name: &str| Register::Function {
        id: FunctionId(id),
        name: name.into(),
        module: None,
        location: None,
    };
    process.apply_frame(&Frame {
        seq: 0,
        t_ns: 0,
        registers: vec![
            function(1, "outer"),
            function(2, "inner"),
            Register::Path { id: PathId(1), parent: PathId(0), func: FunctionId(1) },
            Register::Path { id: PathId(2), parent: PathId(1), func: FunctionId(2) },
            Register::Path { id: PathId(3), parent: PathId(0), func: FunctionId(2) },
        ],
        events: vec![
            Event::Stack { path: PathId(1), count: 1, self_ns: 100 },
            Event::Stack { path: PathId(2), count: 2, self_ns: 30 },
            Event::Stack { path: PathId(3), count: 1, self_ns: 4 },
        ],
    });
    let taken = snapshot(&process, 1);
    assert_eq!(taken.functions[0].self_ns_total, 100);
    assert_eq!(taken.functions[1].self_ns_total, 34, "two contexts of one function add up");
    assert_eq!(taken.paths.len(), 3);
    assert_eq!((taken.paths[1].parent, taken.paths[1].func), (1, 2));
    assert_eq!(taken.windows[0].stacks.len(), 3);
}

#[test]
fn the_placeholder_names_every_route_the_daemon_serves() {
    for route in [
        "/api/processes",
        "/api/processes/{id}/snapshot",
        "/api/processes/{id}/stream",
        "/api/sessions",
        "/api/sessions/{id}/stream",
    ] {
        assert!(PLACEHOLDER.contains(route), "the placeholder does not mention {route}");
    }
}

#[test]
fn a_resolution_nobody_recognises_is_refused_rather_than_quietly_narrowed() {
    assert_eq!(Resolution::parse("fine"), Some(Resolution::Fine));
    assert_eq!(Resolution::parse("coarse"), Some(Resolution::Coarse));

    // Answering these with the fine view would hand back a minute of
    // history to a client that asked for a quarter of an hour, and
    // nothing in the response would say so.
    for raw in ["FINE", "1s", "", "fine "] {
        assert_eq!(Resolution::parse(raw), None, "`{raw}` is not a resolution");
    }
    assert_eq!(Resolution::Fine.as_str(), "fine");
    assert_eq!(Resolution::Coarse.as_str(), "coarse");
}

#[test]
fn a_bundle_file_is_served_with_a_type_a_browser_will_execute() {
    assert_eq!(mime_for("assets/app.js"), "text/javascript; charset=utf-8");
    assert_eq!(mime_for("index.html"), "text/html; charset=utf-8");
}

#[test]
fn every_kind_of_file_has_its_type() {
    for (path, kind) in [
        ("a.mjs", "text/javascript; charset=utf-8"),
        ("a.css", "text/css; charset=utf-8"),
        ("a.json", "application/json"),
        ("a.js.map", "application/json"),
        ("a.svg", "image/svg+xml"),
        ("a.png", "image/png"),
        ("a.webp", "image/webp"),
        ("a.woff2", "font/woff2"),
        ("a", "application/octet-stream"),
        ("a.html.exe", "application/octet-stream"),
    ] {
        assert_eq!(mime_for(path), kind, "{path}");
    }
}

#[test]
fn an_unknown_path_falls_back_to_the_index_then_the_placeholder() {
    assert_eq!(bundle_path("/"), "index.html");
    assert_eq!(bundle_path("//assets/app.js"), "assets/app.js");
    assert_eq!(served(true, true), Served::File);
    assert_eq!(served(false, true), Served::Index);
    assert_eq!(served(false, false), Served::Placeholder);
}

#[test]
fn the_port_is_the_one_asked_for_or_the_usual_one() {
    assert_eq!(port_from(None), DEFAULT_PORT);
    assert_eq!(port_from(Some("8080")), 8080);
    assert_eq!(port_from(Some("70000")), DEFAULT_PORT);
    assert_eq!(port_from(Some("http")), DEFAULT_PORT);
}

#[test]
fn a_request_for_a_view_is_read_or_refused() {
    let view = requested_view(None, None).unwrap();
    assert_eq!(view.resolution, Resolution::Fine);
    let view = requested_view(Some("coarse"), Some(3)).unwrap();
    assert_eq!((view.resolution, view.limit), (Resolution::Coarse, 3));
    assert!(requested_view(Some("1s"), None).is_none());
}

#[test]
fn a_snapshot_is_taken_of_the_process_asked_for() {
    let registry = registry_with(&[("demo", PROBE, 7, 1_000), ("other", PROBE, 8, 1_000)]);
    let id = ProcessId::of(7, 1_000, PROBE);
    let taken = server::snapshot(&registry, id.as_str(), Some("coarse"), Some(3), 55)
        .expect("the process is there");
    assert_eq!(taken.process.app, "demo");
    assert_eq!(taken.resolution, "coarse");
    assert_eq!(taken.taken_unix_ms, 55);
    assert_eq!(
        server::snapshot(&registry, id.as_str(), Some("1s"), None, 55).err(),
        Some(Refused::BadRequest)
    );
    assert_eq!(
        server::snapshot(&registry, "nobody", None, None, 55).err(),
        Some(Refused::NotFound)
    );
    assert_eq!(
        server::snapshot(&registry, "nobody", Some("1s"), None, 55).err(),
        Some(Refused::BadRequest)
    );
    let listed: Vec<String> =
        list_sessions(&registry).sessions.iter().map(|s| s.app.clone()).collect();
    assert_eq!(listed, vec!["demo", "other"]);
}

const PROBE: &str = CENSUS_SOURCE;
const BRIDGE: &str = "lightwatch-hotpath";

fn registry_with(emitters: &[(&str, &str, u32, u64)]) -> Registry {
    let mut registry = Registry::new();
    for (app, source, pid, started) in emitters {
        registry.connect(&Hello::new(app, source, *pid, *started));
    }
    registry
}

#[test]
fn the_two_emitters_watching_one_pid_become_one_session() {
    let registry = registry_with(&[
        ("lightphotos", PROBE, 64376, 1_790_000_000_000),
        ("lightphotos", BRIDGE, 64376, 1_790_000_000_137),
    ]);

    let sessions = pair_sessions(&registry);
    assert_eq!(sessions.len(), 1, "one program is one session, not two");
    let session = &sessions[0];
    assert_eq!(session.pid, 64376);
    assert_eq!(session.cpu.as_ref().map(|m| m.source.as_str()), Some(BRIDGE));
    assert_eq!(session.memory.as_ref().map(|m| m.source.as_str()), Some(PROBE));
    assert!(session.superseded.is_empty());
}

#[test]
fn a_restarted_bridge_supersedes_its_own_abandoned_entry_instead_of_forking_the_session() {
    // The bridge estimates start as `now - elapsed`, and that estimate
    // drifts between runs, so the same live target gets a second entry.
    let mut registry = registry_with(&[
        ("lightphotos", PROBE, 64376, 1_790_000_000_000),
        ("lightphotos", BRIDGE, 64376, 1_790_000_000_137),
    ]);
    registry.disconnect(&ProcessId::of(64376, 1_790_000_000_137, BRIDGE));
    registry.connect(&Hello::new("lightphotos", BRIDGE, 64376, 1_790_000_000_152));

    let sessions = pair_sessions(&registry);
    assert_eq!(sessions.len(), 1, "a second bridge run is not a second session");
    let session = &sessions[0];
    let cpu = session.cpu.as_ref().expect("a cpu feed");
    assert_eq!(cpu.started_unix_ms, 1_790_000_000_152, "the connected entry wins");
    assert!(cpu.connected);
    assert_eq!(
        session.superseded.iter().map(|m| m.started_unix_ms).collect::<Vec<_>>(),
        vec![1_790_000_000_137],
        "the entry that lost is reported, not dropped"
    );
}

#[test]
fn between_two_connected_entries_of_one_feed_the_newest_speaks() {
    let registry = registry_with(&[
        ("lightphotos", BRIDGE, 64376, 1_790_000_000_137),
        ("lightphotos", BRIDGE, 64376, 1_790_000_000_152),
    ]);
    let sessions = pair_sessions(&registry);
    let cpu = sessions[0].cpu.as_ref().expect("a cpu feed");
    assert_eq!(cpu.started_unix_ms, 1_790_000_000_152);
    assert_eq!(sessions[0].superseded.len(), 1);
}

#[test]
fn a_pid_the_os_handed_out_again_is_a_different_session() {
    let registry = registry_with(&[
        ("lightphotos", PROBE, 64376, 1_790_000_000_000),
        ("lightphotos", PROBE, 64376, 1_790_000_060_000),
    ]);
    let sessions = pair_sessions(&registry);
    assert_eq!(sessions.len(), 2, "a minute apart is not one run");
    assert_ne!(sessions[0].id, sessions[1].id);
    assert!(sessions[0].superseded.is_empty());
}

#[test]
fn two_programs_sharing_a_pid_across_machines_do_not_pair() {
    let registry = registry_with(&[
        ("lightphotos", PROBE, 64376, 1_790_000_000_000),
        ("demo", BRIDGE, 64376, 1_790_000_000_100),
    ]);
    let sessions = pair_sessions(&registry);
    assert_eq!(sessions.len(), 2);
    assert!(sessions.iter().all(|s| s.cpu.is_none() || s.memory.is_none()));
}

#[test]
fn a_target_with_only_one_emitter_is_still_a_session() {
    let registry = registry_with(&[("lightphotos", PROBE, 64376, 1_790_000_000_000)]);
    let sessions = pair_sessions(&registry);
    assert_eq!(sessions.len(), 1);
    assert!(sessions[0].cpu.is_none(), "half a picture is what there is");
    assert!(sessions[0].memory.is_some());
}

#[test]
fn a_session_id_survives_an_app_name_that_would_break_a_url() {
    let registry = registry_with(&[("my app/v2", PROBE, 7, 1_790_000_000_000)]);
    let sessions = pair_sessions(&registry);
    assert_eq!(sessions[0].id, "my_app_v2-7-1790000000000");
    assert_eq!(sessions[0].app, "my app/v2", "the real name is still reported");
    assert_eq!(find(&registry, &sessions[0].id), Some(sessions[0].clone()));
}

#[test]
fn runs_are_told_apart_by_the_time_between_their_starts() {
    let start = 1_790_000_000_000;
    let near = registry_with(&[
        ("demo", PROBE, 7, start),
        ("demo", BRIDGE, 7, start + SAME_RUN_TOLERANCE_MS),
    ]);
    assert_eq!(pair_sessions(&near).len(), 1);
    let far = registry_with(&[
        ("demo", PROBE, 7, start),
        ("demo", BRIDGE, 7, start + SAME_RUN_TOLERANCE_MS + 1),
    ]);
    assert_eq!(pair_sessions(&far).len(), 2);
    assert!(find(&far, "demo-8-1790000000000").is_none());
}

#[test]
fn a_session_speaks_for_every_member_it_has() {
    let mut registry = registry_with(&[
        ("demo", PROBE, 7, 1_000),
        ("demo", BRIDGE, 7, 1_001),
        ("demo", BRIDGE, 7, 1_002),
    ]);
    let sessions = pair_sessions(&registry);
    assert_eq!(sessions[0].members().len(), 2, "one for each feed");
    assert!(sessions[0].is_connected());
    let list = session_list(&sessions);
    assert_eq!(list.sessions[0].cpu.as_ref().unwrap().feed, "cpu");
    assert_eq!(list.sessions[0].memory.as_ref().unwrap().feed, "memory");
    assert_eq!(list.sessions[0].superseded.len(), 1);
    for started in [1_000, 1_001, 1_002] {
        let source = if started == 1_000 { PROBE } else { BRIDGE };
        registry.disconnect_at(&ProcessId::of(7, started, source), 5_000);
    }
    assert!(!pair_sessions(&registry)[0].is_connected());
    assert_eq!(Feed::of(PROBE), Feed::Memory);
    assert_eq!(Feed::of(BRIDGE).as_str(), "cpu");
}

#[test]
fn every_process_is_in_exactly_one_session() {
    let registry = registry_with(&[
        ("demo", PROBE, 7, 1_000),
        ("demo", BRIDGE, 7, 1_001),
        ("demo", BRIDGE, 7, 1_002),
        ("demo", BRIDGE, 7, 90_000),
        ("other", BRIDGE, 7, 1_000),
        ("other", PROBE, 9, 1_000),
    ]);
    let mut reported: Vec<String> = Vec::new();
    for session in pair_sessions(&registry) {
        let members = session.cpu.iter().chain(&session.memory).chain(&session.superseded);
        reported.extend(members.map(|m| m.process_id.as_str().to_string()));
    }
    reported.sort();
    let mut seen: Vec<String> =
        registry.all().iter().map(|p| p.id.as_str().to_string()).collect();
    seen.sort();
    assert_eq!(reported, seen);
}

#[test]
fn the_newest_process_is_listed_first() {
    let registry = registry_with(&[
        ("old", PROBE, 1, 1_000),
        ("new", PROBE, 2, 3_000),
        ("middle", PROBE, 3, 2_000),
    ]);
    let listed: Vec<String> =
        list_processes(&registry).processes.iter().map(|p| p.app.clone()).collect();
    assert_eq!(listed, vec!["new", "middle", "old"]);
    let sessions: Vec<String> = pair_sessions(&registry).iter().map(|s| s.app.clone()).collect();
    assert_eq!(sessions, vec!["new", "middle", "old"]);
}

#[test]
fn a_session_stream_carries_both_feeds_each_message_tagged() {
    let registry = registry_with(&[
        ("demo", PROBE, 7, 1_000),
        ("demo", BRIDGE, 7, 1_001),
    ]);
    let feeds = session_feeds(&registry, "demo-7-1000").expect("the session is there");
    assert_eq!(feeds.session_id, "demo-7-1000");
    let cpu = feeds.cpu.expect("a cpu feed");
    assert_eq!(cpu, ProcessId::of(7, 1_001, BRIDGE));
    assert_eq!(feeds.memory, Some(ProcessId::of(7, 1_000, PROBE)));
    assert!(session_feeds(&registry, "demo-7-1001").is_none());

    let ended = Received::Update(Arc::new(Update::ProcessEnded { ended_unix_ms: 9 }));
    match tagged("demo-7-1000", Feed::Cpu, &cpu, &ended) {
        Tagged::Send(message) => {
            assert_eq!(message.session_id, "demo-7-1000");
            assert_eq!(message.feed, "cpu");
            assert!(matches!(
                message.message,
                StreamMessage::ProcessEnded { ended_unix_ms: 9, .. }
            ));
        }
        other => panic!("expected a message, got {other:?}"),
    }
    assert!(matches!(
        relayed(&cpu, &ended),
        Relayed::Send(StreamMessage::ProcessEnded { ended_unix_ms: 9, process_id })
            if process_id == cpu.as_str()
    ));
    assert!(matches!(relayed(&cpu, &Received::Lagged(3)), Relayed::Skip));
    assert!(matches!(relayed(&cpu, &Received::Closed), Relayed::Stop));
    assert!(matches!(tagged("s", Feed::Cpu, &cpu, &Received::Lagged(3)), Tagged::Skip));
    assert!(matches!(tagged("s", Feed::Cpu, &cpu, &Received::Closed), Tagged::Stop));
}

#[test]
fn a_closed_window_is_relayed_with_its_process() {
    let mut process = process_with_traffic();
    let update = process
        .apply_frame(&Frame { seq: 11, t_ns: 1_100_000_000, registers: vec![], events: vec![] })
        .expect("the tenth window closed");
    match stream_message(&process.id, &update) {
        StreamMessage::Window { process_id, window } => {
            assert_eq!(process_id, "4242-1700000000000-test");
            assert_eq!(window.index, 10);
            assert_eq!(window.calls[0].ns, 4_000_000);
        }
        other => panic!("expected a window, got {other:?}"),
    }
    let shown = api::window(process.fine.get(2).unwrap());
    assert_eq!(shown.index, 2);
}
