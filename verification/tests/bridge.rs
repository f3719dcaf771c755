use std::time::Duration;

use lightwatch::bridge::{
    app_name, greeting, link, next_backoff, process_start_at, process_start_unix_ms, Link, Log,
    Report, Stream, MAX_BACKOFF_MS,
};
use lightwatch::clock::{as_unix_ms, now_unix_ms};
use lightwatch::dist::{bucket_of, Dist};
use lightwatch::measure::{
    expand_track, measure, measure_all, measure_in_place, probe_crate, track, FieldShape,
    FunctionShape, ItemShape, Measured, MeasureMeta, Member, Refusal, StructShape, TrackMeta,
    CENSUS_FIELD,
};
use lightwatch::proto::{Event, Frame, FunctionId, Location, Register, SCHEMA_VERSION};
use lightwatch::store::{ProcessId, ProcessState};
use lightwatch::source::{body_of, PollError, Target, Trouble, FUNCTIONS_PATH, STATUS_PATH};
use serde_json::Value;

const T0: &str = r#"{
  "profiling_mode": "timing",
  "time_elapsed": "97.12 s",
  "total_elapsed_ns": 97120000000,
  "description": "Function execution time metrics.",
  "caller_name": "lightphotos::main",
  "percentiles": [95.0],
  "data": [
    {"id": 15, "name": "lightphotos::thumbnail::get_or_make", "calls": 16, "sampled_calls": 16,
     "avg": "2.80 ms", "p95": "5.75 ms", "total": "44.72 ms", "percent_total": "0.05%",
     "location": {"file": "src/thumbnail.rs", "line": 407, "column": 12}},
    {"id": 7, "name": "lightphotos::app::request_working_thumbs", "calls": 805,
     "sampled_calls": 805, "avg": "5.49 µs", "p95": "9.10 µs", "total": "4.42 ms",
     "percent_total": "0.00%",
     "location": {"file": "src/app.rs", "line": 1210, "column": 8}},
    {"id": 6, "name": "lightphotos::app::working_thumb_keys", "calls": 805,
     "sampled_calls": 805, "avg": "1.04 µs", "p95": "2.00 µs", "total": "837.20 µs",
     "percent_total": "0.00%"}
  ],
  "total_count": 17,
  "included_count": 3
}"#;

const T1: &str = r#"{
  "profiling_mode": "timing",
  "time_elapsed": "100.12 s",
  "total_elapsed_ns": 100120000000,
  "description": "Function execution time metrics.",
  "caller_name": "lightphotos::main",
  "percentiles": [95.0],
  "data": [
    {"id": 15, "name": "lightphotos::thumbnail::get_or_make", "calls": 16, "sampled_calls": 16,
     "avg": "2.80 ms", "p95": "5.75 ms", "total": "44.72 ms", "percent_total": "0.04%",
     "location": {"file": "src/thumbnail.rs", "line": 407, "column": 12}},
    {"id": 7, "name": "lightphotos::app::request_working_thumbs", "calls": 808,
     "sampled_calls": 808, "avg": "5.54 µs", "p95": "9.10 µs", "total": "4.48 ms",
     "percent_total": "0.00%",
     "location": {"file": "src/app.rs", "line": 1210, "column": 8}},
    {"id": 6, "name": "lightphotos::app::working_thumb_keys", "calls": 808,
     "sampled_calls": 808, "avg": "1.04 µs", "p95": "2.00 µs", "total": "840.31 µs",
     "percent_total": "0.00%"}
  ],
  "total_count": 17,
  "included_count": 3
}"#;

fn target() -> Target {
    Target::new("127.0.0.1", 6770, Duration::from_millis(2000))
}

fn reply(head: &str, body: &str) -> Vec<u8> {
    format!("{head}\r\nContent-Length: {}\r\n\r\n{body}", body.len()).into_bytes()
}

fn report(json: &str) -> Report {
    target()
        .functions_timing(Ok(reply("HTTP/1.1 200 OK", json)))
        .expect("fixture is a hotpath report")
}

/// Reparses a fixture through `serde_json::Value` so a test can state the
/// one thing it changes instead of carrying a second copy of the capture.
fn edited(json: &str, edit: impl FnOnce(&mut Vec<Value>)) -> Report {
    let mut value: Value = serde_json::from_str(json).expect("fixture is json");
    let rows = value["data"].as_array_mut().expect("data is an array");
    let mut owned = std::mem::take(rows);
    edit(&mut owned);
    *rows = owned;
    report(&value.to_string())
}

fn row_of(rows: &mut [Value], id: u64) -> &mut Value {
    rows.iter_mut()
        .find(|r| r["id"].as_u64() == Some(id))
        .expect("fixture has that id")
}

fn calls_of(frame: &Frame) -> Vec<(u32, u64)> {
    let mut seen: Vec<(u32, u64)> = frame
        .events
        .iter()
        .map(|e| match e {
            Event::Calls { func, count, .. } => (func.0, *count),
            other => panic!("the bridge cannot derive {other:?} from hotpath"),
        })
        .collect();
    seen.sort_unstable();
    seen
}

fn durations_of(frame: &Frame, id: u32) -> Option<Dist> {
    frame.events.iter().find_map(|e| match e {
        Event::Calls { func, ns, .. } if func.0 == id => Some(ns.clone()),
        _ => None,
    })
}

fn primed() -> (Stream, Frame) {
    let mut stream = Stream::new(4384);
    let frame = stream.absorb(&report(T0));
    (stream, frame)
}

#[test]
fn the_real_three_second_gap_yields_exactly_the_calls_that_happened() {
    let (mut stream, _) = primed();
    let frame = stream.absorb(&report(T1));
    assert_eq!(calls_of(&frame), vec![(6, 3), (7, 3)]);
}

#[test]
fn the_windows_duration_is_the_mean_the_totals_imply() {
    let (mut stream, _) = primed();
    let frame = stream.absorb(&report(T1));
    // request_working_thumbs: 4.42 ms -> 4.48 ms over 3 calls.
    let expected = Dist::Buckets { b: vec![(bucket_of(60_000 / 3), 3)] };
    let found = durations_of(&frame, 7).expect("id 7 reported calls");
    assert_eq!(found, expected);
    assert_eq!(found.count(), 3, "the distribution must cover every call");
}

#[test]
fn a_first_report_registers_every_function_and_charges_it_nothing() {
    let (_, frame) = primed();
    assert_eq!(frame.registers.len(), report(T0).data.len());
    assert!(
        frame.events.is_empty(),
        "counters at attach cover the whole process, not this window"
    );
}

#[test]
fn no_event_ever_names_a_function_that_was_not_registered_first() {
    let mut stream = Stream::new(4384);
    let mut known = std::collections::HashSet::new();
    for frame in [stream.absorb(&report(T0)), stream.absorb(&report(T1))] {
        for register in &frame.registers {
            let Register::Function { id, .. } = register else {
                panic!("the bridge registers functions only")
            };
            assert!(known.insert(id.0), "id {} registered twice", id.0);
        }
        for (id, _) in calls_of(&frame) {
            assert!(known.contains(&id), "id {id} referenced before registration");
        }
    }
}

#[test]
fn a_function_truncated_out_of_the_list_is_not_reported_as_idle_or_as_new() {
    let (mut stream, _) = primed();
    let truncated = edited(T1, |rows| rows.retain(|r| r["id"].as_u64() != Some(7)));
    let frame = stream.absorb(&truncated);
    assert_eq!(
        calls_of(&frame),
        vec![(6, 3)],
        "an absent row must produce no event of any size"
    );

    let returning = edited(T1, |rows| {
        let row = row_of(rows, 7);
        row["calls"] = Value::from(810);
        row["total"] = Value::from("4.50 ms");
    });
    let frame = stream.absorb(&returning);
    assert_eq!(
        calls_of(&frame),
        vec![(7, 5)],
        "a returning function is diffed against its retained reading, not against zero"
    );
    assert!(
        frame.registers.is_empty(),
        "a returning function must not be registered a second time"
    );
}

#[test]
fn a_restart_is_refused_rather_than_differenced_across() {
    let (stream, _) = primed();
    let t0 = report(T0);
    assert!(stream.same_run(4384, t0.total_elapsed_ns));
    assert!(
        !stream.same_run(4384, 1_000_000),
        "an elapsed time that moved backwards is a new process"
    );
    assert!(
        !stream.same_run(9999, t0.total_elapsed_ns + 1),
        "a changed pid is a new process"
    );
}

#[test]
fn a_restarted_target_starts_from_zero_instead_of_spiking() {
    let (_, _) = primed();
    let restarted = edited(T0, |rows| {
        for row in rows.iter_mut() {
            row["calls"] = Value::from(1);
        }
    });
    let mut fresh = Stream::new(9999);
    let frame = fresh.absorb(&restarted);
    assert!(frame.events.is_empty(), "a new run primes, it does not spike");
    assert_eq!(frame.seq, 0, "a new run restarts the sequence");
    assert_eq!(frame.registers.len(), restarted.data.len());
}

#[test]
fn a_window_too_short_to_move_the_formatted_total_reports_no_duration() {
    let (mut stream, _) = primed();
    let unmoved = edited(T1, |rows| {
        let row = row_of(rows, 7);
        row["total"] = Value::from("4.42 ms");
    });
    let frame = stream.absorb(&unmoved);
    let ns = durations_of(&frame, 7).expect("the calls still happened");
    assert!(
        ns.is_empty(),
        "a duration the source rounded away must not be reported as zero, got {ns:?}"
    );
}

#[test]
fn a_counter_that_moves_backwards_within_a_run_emits_nothing() {
    let (mut stream, _) = primed();
    let backwards = edited(T1, |rows| {
        row_of(rows, 7)["calls"] = Value::from(2);
    });
    let frame = stream.absorb(&backwards);
    assert_eq!(calls_of(&frame), vec![(6, 3)]);
}

#[test]
fn a_registration_carries_the_source_location_the_interface_links_to() {
    let (_, frame) = primed();
    let found = frame
        .registers
        .iter()
        .find(|r| matches!(r, Register::Function { id, .. } if id.0 == 15))
        .expect("id 15 is registered");
    assert_eq!(
        found,
        &Register::Function {
            id: FunctionId(15),
            name: "thumbnail::get_or_make".into(),
            module: Some("lightphotos".into()),
            location: Some(Location {
                file: "src/thumbnail.rs".into(),
                line: 407,
                column: Some(12),
            }),
        }
    );
}

#[test]
fn the_app_is_named_after_the_crate_that_owns_main() {
    assert_eq!(app_name("lightphotos::main"), "lightphotos");
    assert_eq!(app_name("main"), "main");
}

#[test]
fn a_name_splits_at_its_first_pair_of_colons() {
    assert_eq!(app_name("a:b::c::d"), "a:b");
    assert_eq!(app_name("::main"), "");
    assert_eq!(app_name("a:::b"), "a");
    assert_eq!(app_name(""), "");
    let (_, frame) = primed();
    assert!(matches!(
        &frame.registers[2],
        Register::Function { name, module: Some(module), location: None, .. }
            if name == "app::working_thumb_keys" && module == "lightphotos"
    ));
}

#[test]
fn a_report_heard_twice_tells_nothing_the_second_time() {
    let (mut stream, _) = primed();
    stream.absorb(&report(T1));
    let again = stream.absorb(&report(T1));
    assert!(again.events.is_empty());
    assert!(again.registers.is_empty());
    assert_eq!(again.seq, 2);
    assert_eq!(again.t_ns, 100_120_000_000);
}

#[test]
fn a_total_that_is_no_duration_counts_as_none() {
    let (mut stream, _) = primed();
    let odd = edited(T1, |rows| row_of(rows, 7)["total"] = Value::from("a while"));
    let frame = stream.absorb(&odd);
    assert_eq!(calls_of(&frame), vec![(6, 3), (7, 3)]);
    assert!(durations_of(&frame, 7).unwrap().is_empty(), "a total that fell has not risen");
}

#[test]
fn measured_totals_may_be_given_outright() {
    let mut stream = Stream::new(1);
    let first = report(T0);
    stream.absorb_measured(&first, &vec![Some(10), None, Some(1_000)]);
    let second = report(T1);
    let frame = stream.absorb_measured(&second, &vec![Some(10), Some(90), Some(4_000)]);
    assert_eq!(
        durations_of(&frame, 7),
        Some(Dist::Buckets { b: vec![(30, 3)] }),
        "ninety more over three calls"
    );
    assert_eq!(
        durations_of(&frame, 6),
        Some(Dist::Buckets { b: vec![(bucket_of(1_000), 3)] })
    );
}

#[test]
fn a_daemon_understands_everything_the_bridge_says() {
    let first = report(T0);
    let hello = greeting(&first, 4384, 100, 1_700_000_000_000);
    let mut process = ProcessState::new(ProcessId::of_hello(&hello), &hello);
    let mut stream = Stream::new(4384);
    process.apply_frame(&stream.absorb(&first));
    process.apply_frame(&stream.absorb(&report(T1)));
    assert_eq!(process.counts.unknown_id, 0);
    assert_eq!(process.counts.missed_frames, 0);
    assert_eq!(process.functions.len(), 3);
    assert_eq!(process.functions[&7].calls.get(), 3, "what happened while it was watched");
    assert_eq!(process.functions[&15].name, "thumbnail::get_or_make");
}

#[test]
fn windows_add_up_to_the_difference_between_readings() {
    let mut stream = Stream::new(1);
    let mut told = 0;
    for calls in [100u64, 103, 103, 120, 121] {
        let reading = edited(T0, |rows| row_of(rows, 7)["calls"] = Value::from(calls));
        let frame = stream.absorb(&reading);
        told += calls_of(&frame).iter().filter(|(id, _)| *id == 7).map(|(_, n)| n).sum::<u64>();
    }
    assert_eq!(told, 21);
}

#[test]
fn a_normal_reply_yields_its_body() {
    let raw = reply("HTTP/1.1 200 OK\r\nContent-Type: application/json", r#"{"a":1}"#);
    assert_eq!(body_of(&raw).expect("a 200 has a body"), br#"{"a":1}"#);
}

#[test]
fn a_profiler_that_is_not_ready_yet_is_an_error_not_an_empty_report() {
    let raw = reply("HTTP/1.1 503 Service Unavailable", r#"{"error":"not ready"}"#);
    assert!(matches!(body_of(&raw), Err(PollError::Status(503))));
}

#[test]
fn a_target_that_died_mid_reply_is_survived() {
    for raw in [
        b"".as_slice(),
        b"HTTP/1.1 200 OK\r\nContent-Len".as_slice(),
        b"\0\0\0\0\r\n\r\nbody".as_slice(),
        b"garbage".as_slice(),
    ] {
        assert!(body_of(raw).is_err(), "{raw:?} must not be read as a report");
    }
}

#[test]
fn a_body_that_is_not_a_report_is_an_error_rather_than_a_panic() {
    let raw = reply("HTTP/1.1 200 OK", "not json at all");
    body_of(&raw).expect("the reply itself was well formed");
    assert!(matches!(target().functions_timing(Ok(raw)), Err(PollError::Body(_))));
}

#[test]
fn an_empty_two_hundred_does_not_deserialize_into_an_empty_report() {
    let raw = reply("HTTP/1.1 200 OK", "");
    body_of(&raw).expect("an empty body is still a body");
    assert!(
        target().functions_timing(Ok(raw)).is_err(),
        "an empty body must not become a report with no functions"
    );
}

#[test]
fn every_way_a_reply_goes_wrong_has_its_error() {
    let truncated = b"HTTP/1.1 200 OK\r\n".as_slice();
    assert_eq!(body_of(truncated), Err(PollError::Truncated));
    for raw in [
        b"SPDY/3 200 OK\r\n\r\n".as_slice(),
        b"HTTP/1.1\r\n\r\n".as_slice(),
        b"HTTP/1.1 ok\r\n\r\n".as_slice(),
        b"HTTP/1.1 70000\r\n\r\n".as_slice(),
        b"HTTP/1.1  200\r\n\r\n".as_slice(),
        b"HTTP/1.1 200 \xff\r\n\r\n".as_slice(),
    ] {
        assert_eq!(body_of(raw), Err(PollError::NotHttp), "{raw:?}");
    }
    assert_eq!(body_of(b"HTTP/1.1 +200\r\n\r\nx\r\n\r\ny"), Ok(b"x\r\n\r\ny".to_vec()));
    assert_eq!(body_of(b"HTTP/ 404\r\n\r\n"), Err(PollError::Status(404)));
}

#[test]
fn a_status_names_the_process() {
    let raw = reply("HTTP/1.1 200 OK", r#"{"uptime":"97.12 s","pid":4384}"#);
    assert_eq!(target().status(Ok(raw)).expect("a status").pid, 4384);
    let wrong = reply("HTTP/1.1 200 OK", r#"{"uptime":"97.12 s"}"#);
    assert!(matches!(target().status(Ok(wrong)), Err(PollError::Body(_))));
    let away = PollError::Unreachable("connection refused".to_string());
    assert_eq!(
        target().status(Err(away)),
        Err(PollError::Unreachable("connection refused".to_string()))
    );
}

#[test]
fn a_target_is_asked_plainly() {
    let target = target();
    assert_eq!(target.address(), "127.0.0.1:6770");
    assert_eq!(target.clone().timeout(), Duration::from_millis(2000));
    assert_eq!(
        target.request(FUNCTIONS_PATH),
        "GET /functions_timing HTTP/1.1\r\nHost: 127.0.0.1:6770\r\nConnection: close\r\n\r\n"
    );
    assert!(target.request(STATUS_PATH).starts_with("GET /profiler_status HTTP/1.1\r\n"));
}

#[test]
fn trouble_says_what_it_is() {
    let why = || "why".to_string();
    for (error, said) in [
        (PollError::Unreachable(why()), "target unreachable: why"),
        (PollError::Io(why()), "target connection failed: why"),
        (PollError::Status(503), "target answered HTTP 503"),
        (PollError::Truncated, "target closed the connection mid-reply"),
        (PollError::NotHttp, "target replied with something that is not HTTP"),
        (PollError::Body(why()), "target reply did not parse: why"),
    ] {
        assert_eq!(error.message(), said);
        assert_eq!(Trouble::Target(error).message(), said);
    }
    assert_eq!(Trouble::Daemon(why()).message(), "daemon socket unavailable: why");
}

#[test]
fn a_target_is_announced_by_its_crate_and_its_start() {
    let hello = greeting(&report(T0), 4384, 250, process_start_at(1_700_000_097_120, 97_120_000_000));
    assert_eq!(hello.app, "lightphotos");
    assert_eq!(hello.source, "lightwatch-hotpath");
    assert_eq!(hello.pid, 4384);
    assert_eq!(hello.started_unix_ms, 1_700_000_000_000);
    assert_eq!(hello.window_ms, 250);
    assert_eq!(hello.schema, SCHEMA_VERSION);
    assert_eq!(process_start_at(5, 97_120_000_000), 0);
    let now = now_unix_ms();
    assert!(process_start_unix_ms(0) >= now);
    assert!(process_start_unix_ms(1_000_000_000) < now + 60_000);
    assert_eq!(as_unix_ms(None), 0);
    assert_eq!(as_unix_ms(Some(1 << 64)), 0);
    assert_eq!(as_unix_ms(Some(1_700_000_000_000)), 1_700_000_000_000);
}

#[test]
fn a_stream_is_kept_only_while_the_target_runs_on() {
    assert_eq!(link(&None, 1, 1), Link::Unopened);
    let (stream, _) = primed();
    let open = Some(stream);
    assert_eq!(link(&open, 4384, 97_120_000_000), Link::Continues);
    assert_eq!(link(&open, 4384, 97_119_999_999), Link::Restarted);
    assert_eq!(link(&open, 4385, 98_000_000_000), Link::Restarted);
}

#[test]
fn retries_slow_down_and_the_log_repeats_nothing() {
    assert_eq!(next_backoff(100), 200);
    assert_eq!(next_backoff(2_499), 4_998);
    assert_eq!(next_backoff(2_500), MAX_BACKOFF_MS);
    assert_eq!(next_backoff(u64::MAX), MAX_BACKOFF_MS);

    let mut log = Log::new();
    assert!(!log.recovered(), "there was nothing to recover from");
    assert!(log.trouble("down"));
    assert!(!log.trouble("down"));
    assert!(log.trouble("still down"));
    assert!(log.recovered());
    assert!(!log.recovered());
    assert!(log.trouble("down"));
}

fn function(ident: &str) -> FunctionShape {
    FunctionShape {
        ident: ident.to_string(),
        is_async: false,
        is_const: false,
        attributes: vec![],
    }
}

#[test]
fn a_function_is_measured_under_its_own_name_or_a_given_one() {
    let decode = function("decode");
    assert_eq!(measure(&vec![], &decode, true), Ok(Measured::Site("decode".to_string())));
    let named = vec![
        MeasureMeta::Name("first".to_string()),
        MeasureMeta::Name("second".to_string()),
    ];
    assert_eq!(measure(&named, &decode, true), Ok(Measured::Site("second".to_string())));
    assert_eq!(measure(&vec![], &decode, false), Ok(Measured::AsWritten));
    assert_eq!(measure(&vec![MeasureMeta::Skip], &decode, true), Ok(Measured::AsWritten));
}

#[test]
fn what_cannot_be_measured_is_refused_unless_it_is_skipped() {
    let waiting = FunctionShape { is_async: true, is_const: true, ..function("wait") };
    assert_eq!(measure(&vec![], &waiting, true), Err(Refusal::AsyncFunction));
    assert_eq!(measure(&vec![], &waiting, false), Err(Refusal::AsyncFunction));
    let fixed = FunctionShape { is_const: true, ..function("fixed") };
    assert_eq!(measure(&vec![], &fixed, true), Err(Refusal::ConstFunction));
    assert_eq!(measure(&vec![MeasureMeta::Skip], &waiting, true), Ok(Measured::AsWritten));
    let misled = vec![MeasureMeta::Skip, MeasureMeta::Unknown];
    assert_eq!(measure(&misled, &waiting, true), Err(Refusal::MeasureOption));
    assert!(Refusal::AsyncFunction.message().starts_with("lightwatch cannot measure an `async fn`"));
    assert_eq!(Refusal::MeasureOption.message(), "expected `name = \"...\"` or `skip`");
}

#[test]
fn a_module_is_measured_as_far_as_it_can_be() {
    let members = || {
        vec![
            Member::Function(function("plain")),
            Member::Other,
            Member::Function(FunctionShape { is_async: true, ..function("wait") }),
            Member::Function(FunctionShape { is_const: true, ..function("fixed") }),
            Member::Function(FunctionShape {
                attributes: vec!["inline".to_string(), "measure".to_string()],
                ..function("already")
            }),
            Member::Function(FunctionShape {
                attributes: vec!["inline".to_string()],
                ..function("other")
            }),
        ]
    };
    assert_eq!(measure_all(true, &ItemShape::Module(Some(members()))), Ok(vec![0, 5]));
    assert_eq!(measure_all(true, &ItemShape::Block(members())), Ok(vec![0, 5]));
    assert_eq!(measure_all(true, &ItemShape::Module(None)), Err(Refusal::NoBody));
    assert_eq!(measure_all(true, &ItemShape::Other), Err(Refusal::NoFunctions));
    assert_eq!(measure_all(false, &ItemShape::Other), Err(Refusal::MeasureAllOption));
    let measured = FunctionShape { attributes: vec!["measure".to_string()], ..function("f") };
    assert!(!measure_in_place(&measured), "measuring twice adds nothing");
}

fn image() -> StructShape {
    let field = |visibility: &str, name: &str, ty: &str| FieldShape {
        visibility: visibility.to_string(),
        name: name.to_string(),
        ty: ty.to_string(),
    };
    StructShape {
        ident: "Image".to_string(),
        is_generic: false,
        fields: Some(vec![
            field("pub", "width", "u32"),
            field("pub", "height", "u32"),
            field("", "pixels", "Vec<u8>"),
        ]),
    }
}

#[test]
fn a_tracked_struct_is_built_from_its_own_fields_by_name() {
    let plan = track(&vec![], &image()).expect("a plain struct can be tracked");
    assert_eq!(plan.slot_name, "Image");
    assert_eq!(plan.members[..3], image().fields.unwrap()[..]);
    assert_eq!(plan.members.len(), 4);
    let census = &plan.members[3];
    assert_eq!((census.visibility.as_str(), census.name.as_str()), ("", CENSUS_FIELD));
    assert_eq!(census.ty, "Census<Image>");
    assert_eq!(plan.fields_ident, "ImageFields");
    assert_eq!(plan.fields_doc, "Every field of [`Image`] except the census one.");
    assert_eq!(Some(plan.companion), image().fields);
    assert_eq!(plan.carried, vec!["width", "height", "pixels"]);
    assert!(plan.measures_itself);
    let plan = track(&vec![TrackMeta::ManualMeasured], &image()).unwrap();
    assert!(!plan.measures_itself);
    assert_eq!(expand_track(&image(), true), Ok(plan));
}

#[test]
fn what_cannot_be_tracked_is_refused() {
    let generic = StructShape { is_generic: true, fields: None, ..image() };
    assert_eq!(track(&vec![], &generic), Err(Refusal::GenericStruct));
    let tuple = StructShape { fields: None, ..image() };
    assert_eq!(track(&vec![], &tuple), Err(Refusal::UnnamedFields));
    assert_eq!(track(&vec![TrackMeta::Unknown], &generic), Err(Refusal::TrackOption));
    for refusal in [
        Refusal::GenericStruct,
        Refusal::UnnamedFields,
        Refusal::ConstFunction,
        Refusal::NoBody,
        Refusal::NoFunctions,
    ] {
        assert!(!refusal.message().is_empty());
    }
    assert_eq!(Refusal::TrackOption.message(), "expected `manual_measured`");
    assert_eq!(Refusal::MeasureAllOption.message(), "`measure_all` takes no arguments");
}

#[test]
fn generated_code_finds_the_probe_by_the_name_it_goes_by() {
    assert_eq!(probe_crate(None), "::lightwatch_probe");
    assert_eq!(probe_crate(Some("lightwatch")), "::lightwatch");
}
