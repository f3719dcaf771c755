use lightwatch::dist::Dist;
use lightwatch::proto::{
    Event, Frame, FunctionId, Hello, PathId, Register, TypeId, SCHEMA_VERSION,
};
use lightwatch::quantity::{times, Absolute, Cumulative};
use lightwatch::registry::Registry;
use lightwatch::ring::{CensusReading, Ring, COARSE_CAPACITY, FINE_CAPACITY};
use lightwatch::store::{ProcessId, ProcessState, Update};

#[test]
fn a_cumulative_grows_by_the_deltas_folded_into_it() {
    let mut total = Cumulative::zero();
    total.accumulate(3);
    total.accumulate(4);
    assert_eq!(total.get(), 7);
}

#[test]
fn a_cumulative_saturates_rather_than_panicking_on_a_hostile_delta() {
    let mut total = Cumulative::zero();
    total.accumulate(u64::MAX);
    total.accumulate(u64::MAX);
    assert_eq!(total.get(), u64::MAX);
}

#[test]
fn a_later_reading_replaces_an_earlier_one_instead_of_joining_it() {
    let mut live = Absolute::reading(3);
    assert_eq!(live.get(), 3);
    live = Absolute::reading(5);
    assert_eq!(live.get(), 5, "an absolute offers no way to combine two readings");
}

#[test]
fn totals_roll_up_in_any_order() {
    let (mut left, mut right) = (Cumulative::zero(), Cumulative::zero());
    left.accumulate(3);
    right.accumulate(u64::MAX - 1);
    let mut other = right;
    left.absorb(right);
    let mut three = Cumulative::zero();
    three.accumulate(3);
    other.absorb(three);
    assert_eq!(left.get(), u64::MAX);
    assert_eq!(other.get(), left.get());
    assert_eq!(Cumulative::default().get(), 0);
    assert_eq!(times(6, 7), 42);
    assert_eq!(times(u64::MAX, 2), u64::MAX);
}

fn func(id: u32) -> FunctionId {
    FunctionId(id)
}

#[test]
fn a_window_holds_the_frames_that_fall_inside_its_span() {
    let mut ring = Ring::new(100, 4);
    ring.window_for(0).unwrap().add_calls(func(1), 2, 20);
    ring.window_for(50).unwrap().add_calls(func(1), 3, 30);
    assert_eq!(ring.len(), 1);
    assert_eq!(ring.get(0).unwrap().calls[&1].calls.get(), 5);
}

#[test]
fn the_ring_evicts_the_oldest_window_once_it_is_full() {
    let mut ring = Ring::new(100, 3);
    for window in 0..5u64 {
        ring.window_for(window * 100).unwrap().add_calls(func(1), window, 0);
    }
    assert_eq!(ring.len(), 3);
    assert_eq!(ring.oldest_index(), Some(2));
    assert_eq!(ring.newest_index(), Some(4));
    assert!(ring.get(0).is_none(), "the oldest window must be gone, not merged");
    assert!(ring.get(1).is_none());
    assert_eq!(ring.get(2).unwrap().calls[&1].calls.get(), 2);
}

#[test]
fn an_idle_stretch_materializes_as_empty_windows_rather_than_a_hidden_jump() {
    let mut ring = Ring::new(100, 10);
    ring.window_for(0).unwrap().add_calls(func(1), 1, 0);
    ring.window_for(400).unwrap().add_calls(func(1), 1, 0);
    assert_eq!(ring.len(), 5);
    assert!(ring.get(2).unwrap().is_empty());
}

#[test]
fn an_idle_stretch_longer_than_the_ring_restarts_it_instead_of_materializing_the_gap() {
    let mut ring = Ring::new(100, 4);
    ring.window_for(0).unwrap().add_calls(func(1), 1, 0);
    ring.window_for(10_000).unwrap().add_calls(func(1), 1, 0);
    assert_eq!(ring.len(), 1);
    assert_eq!(ring.newest_index(), Some(100));
}

#[test]
fn a_frame_older_than_the_ring_has_nowhere_to_land() {
    let mut ring = Ring::new(100, 2);
    for window in 0..4u64 {
        ring.window_for(window * 100);
    }
    assert!(ring.window_for(0).is_none());
    assert!(ring.window_for(200).is_some());
}

fn reading(live: u64, bytes: u64, at_t_ns: u64) -> CensusReading {
    CensusReading {
        live: Absolute::reading(live),
        bytes: Absolute::reading(bytes),
        size_buckets: vec![],
        at_t_ns,
    }
}

#[test]
fn a_census_in_a_window_keeps_the_latest_reading_not_the_sum() {
    let mut ring = Ring::new(1000, 4);
    let window = ring.window_for(0).unwrap();
    window.record_census(TypeId(1), reading(3, 300, 100));
    window.record_census(TypeId(1), reading(5, 500, 200));
    assert_eq!(window.census[&1].live.get(), 5);
    assert_eq!(window.census[&1].bytes.get(), 500);
}

#[test]
fn a_census_that_arrives_out_of_order_does_not_undo_a_newer_one() {
    let mut ring = Ring::new(1000, 4);
    let window = ring.window_for(0).unwrap();
    window.record_census(TypeId(1), reading(5, 500, 200));
    window.record_census(TypeId(1), reading(3, 300, 100));
    assert_eq!(window.census[&1].live.get(), 5);
}

#[test]
fn a_ring_lists_its_windows_oldest_first() {
    let mut ring = Ring::new(100, 10);
    assert!(ring.is_empty());
    assert_eq!(ring.newest_index(), None);
    assert_eq!(ring.oldest_index(), None);
    for window in 3..7u64 {
        ring.window_for(window * 100 + 1).unwrap().add_edge(func(1), func(2), window);
    }
    let all: Vec<u64> = ring.iter().iter().map(|w| w.index).collect();
    assert_eq!(all, vec![3, 4, 5, 6]);
    let recent: Vec<u64> = ring.most_recent(2).iter().map(|w| w.index).collect();
    assert_eq!(recent, vec![5, 6]);
    assert_eq!(ring.most_recent(100).len(), 4);
    assert_eq!(ring.index_of(350), 3);
    let window = ring.get(4).unwrap();
    assert_eq!((window.start_t_ns(), window.end_t_ns()), (400, 500));
    assert_eq!(window.edges[&(1, 2)].get(), 4);
    assert_eq!((ring.resolution_ns(), ring.capacity()), (100, 10));
    assert_eq!(Ring::fine().capacity(), FINE_CAPACITY);
    assert_eq!(Ring::coarse().capacity(), COARSE_CAPACITY);
    assert_eq!(Ring::coarse().resolution_ns(), 10 * Ring::fine().resolution_ns());
}

fn hello() -> Hello {
    Hello::new("demo", "test", 4242, 1_700_000_000_000)
}

fn registered_frame() -> Frame {
    Frame {
        seq: 0,
        t_ns: 0,
        registers: vec![
            Register::Function {
                id: FunctionId(1),
                name: "decode".into(),
                module: Some("demo".into()),
                location: None,
            },
            Register::Function {
                id: FunctionId(2),
                name: "resize".into(),
                module: None,
                location: None,
            },
            Register::Type { id: TypeId(1), name: "Thumbnail".into(), location: None },
        ],
        events: vec![],
    }
}

fn census_frame(seq: u64, t_ns: u64, live: u64, bytes: u64) -> Frame {
    Frame {
        seq,
        t_ns,
        registers: vec![],
        events: vec![Event::Census {
            ty: TypeId(1),
            live,
            bytes,
            sizes: Dist::Raw { v: vec![bytes / live.max(1); live as usize] },
        }],
    }
}

fn calls_frame(seq: u64, t_ns: u64, count: u64) -> Frame {
    Frame {
        seq,
        t_ns,
        registers: vec![],
        events: vec![
            Event::Calls {
                func: FunctionId(1),
                count,
                ns: Dist::Raw { v: vec![1_000; count as usize] },
            },
            Event::Edge { from: FunctionId(1), to: FunctionId(2), count },
        ],
    }
}

fn connected() -> ProcessState {
    let mut process = ProcessState::new(ProcessId::of_hello(&hello()), &hello());
    process.greet(&hello());
    process.apply_frame(&registered_frame());
    process
}

#[test]
fn a_census_reading_replaces_the_previous_one_instead_of_accumulating() {
    let mut process = connected();
    process.apply_frame(&census_frame(1, 100_000_000, 3, 300));
    process.apply_frame(&census_frame(2, 200_000_000, 5, 500));
    process.apply_frame(&census_frame(3, 300_000_000, 2, 200));

    let latest = process.types[&1].latest.as_ref().expect("a census was recorded");
    assert_eq!(latest.live.get(), 2, "live objects is the last reading, not 3 + 5 + 2");
    assert_eq!(latest.bytes.get(), 200, "footprint is the last reading, not 300 + 500 + 200");

    let per_window: Vec<u64> = process
        .fine
        .iter()
        .iter()
        .filter_map(|w| w.census.get(&1))
        .map(|c| c.live.get())
        .collect();
    assert_eq!(per_window, vec![3, 5, 2], "each window keeps its own reading");
}

#[test]
fn call_and_edge_deltas_accumulate_across_windows() {
    let mut process = connected();
    process.apply_frame(&calls_frame(1, 100_000_000, 4));
    process.apply_frame(&calls_frame(2, 200_000_000, 6));
    process.apply_frame(&calls_frame(3, 300_000_000, 10));

    assert_eq!(process.functions[&1].calls.get(), 20);
    assert_eq!(process.functions[&1].ns_total.get(), 20_000);
    assert_eq!(process.edges[&(1, 2)].get(), 20);

    let window = process.fine.get(2).expect("the second window is retained");
    assert_eq!(window.calls[&1].calls.get(), 6, "a window holds its own delta only");
}

#[test]
fn two_frames_inside_one_window_accumulate_into_that_window() {
    let mut process = connected();
    process.apply_frame(&calls_frame(1, 10_000_000, 4));
    process.apply_frame(&calls_frame(2, 50_000_000, 6));
    assert_eq!(process.fine.len(), 1);
    assert_eq!(process.fine.get(0).unwrap().calls[&1].calls.get(), 10);
}

#[test]
fn an_event_naming_an_unregistered_id_is_counted_and_dropped() {
    let mut process = connected();
    process.apply_frame(&Frame {
        seq: 1,
        t_ns: 100_000_000,
        registers: vec![],
        events: vec![
            Event::Calls { func: FunctionId(99), count: 5, ns: Dist::empty() },
            Event::Edge { from: FunctionId(1), to: FunctionId(98), count: 5 },
            Event::Census { ty: TypeId(97), live: 1, bytes: 1, sizes: Dist::empty() },
        ],
    });

    assert_eq!(process.counts.unknown_id, 3);
    assert_eq!(process.counts.events, 3);
    assert!(!process.functions.contains_key(&99), "an unknown id is never invented");
    assert!(process.edges.is_empty());
    assert!(
        process.fine.get(1).map_or(true, |w| w.is_empty()),
        "a dropped event reaches no window"
    );
}

#[test]
fn a_gap_in_the_sequence_is_reported_as_frames_the_emitter_dropped() {
    let mut process = connected();
    process.apply_frame(&calls_frame(1, 100_000_000, 1));
    process.apply_frame(&calls_frame(5, 500_000_000, 1));
    assert_eq!(process.counts.missed_frames, 3);
}

#[test]
fn the_coarse_ring_rolls_ten_fine_windows_into_one() {
    let mut process = connected();
    for window in 1..=12u64 {
        process.apply_frame(&calls_frame(window, window * 100_000_000, 2));
    }
    assert_eq!(process.coarse.get(0).unwrap().calls[&1].calls.get(), 18);
    assert_eq!(process.coarse.get(1).unwrap().calls[&1].calls.get(), 6);
}

#[test]
fn a_process_that_disconnects_stays_inspectable_and_is_marked_ended() {
    let mut registry = Registry::new();
    let id = registry.connect(&hello());
    let state = registry.get_mut(&id).unwrap();
    state.apply_frame(&registered_frame());
    state.apply_frame(&calls_frame(1, 100_000_000, 7));
    registry.disconnect(&ProcessId::of(4242, 1_700_000_000_000, "test"));

    let process = registry
        .get(&ProcessId::of(4242, 1_700_000_000_000, "test"))
        .expect("still listed");
    assert!(process.ended_unix_ms.is_some());
    assert!(!process.is_connected());
    assert_eq!(process.functions[&1].calls.get(), 7, "its last state survives");
}

#[test]
fn a_process_that_reconnects_resumes_its_own_history() {
    let mut registry = Registry::new();
    let id = registry.connect(&hello());
    let state = registry.get_mut(&id).unwrap();
    state.apply_frame(&registered_frame());
    state.apply_frame(&calls_frame(1, 100_000_000, 7));
    registry.disconnect(&ProcessId::of(4242, 1_700_000_000_000, "test"));

    let again = registry.connect(&hello());
    assert_eq!(registry.len(), 1, "a reconnect is not a second process");
    let process = registry.get(&again).unwrap();
    assert!(process.ended_unix_ms.is_none());
    assert_eq!(process.functions[&1].calls.get(), 7);
}

#[test]
fn two_emitters_that_agree_on_the_start_millisecond_still_get_a_history_each() {
    // The probe reads the clock at the top of `main` and a bridge outside the
    // target estimates the same instant, so both announce one start.
    let mut registry = Registry::new();
    let started = 1_790_021_787_941;
    let probe_id =
        registry.connect(&Hello::new("lightphotos", "lightwatch-probe", 69185, started));
    let bridge_id =
        registry.connect(&Hello::new("lightphotos", "lightwatch-hotpath", 69185, started));
    assert_eq!(registry.len(), 2, "one OS process watched twice is two streams");
    assert_ne!(probe_id, bridge_id, "and they must not share a state");

    let type_only = Frame {
        seq: 399,
        t_ns: 0,
        registers: vec![Register::Type {
            id: TypeId(1),
            name: "DecodedImage".into(),
            location: None,
        }],
        events: vec![],
    };
    let functions_only = Frame {
        seq: 0,
        t_ns: 0,
        registers: vec![
            Register::Function {
                id: FunctionId(1),
                name: "working_thumb_keys".into(),
                module: None,
                location: None,
            },
            Register::Function {
                id: FunctionId(2),
                name: "sync".into(),
                module: None,
                location: None,
            },
        ],
        events: vec![],
    };
    registry.get_mut(&probe_id).unwrap().apply_frame(&type_only);
    registry.get_mut(&bridge_id).unwrap().apply_frame(&functions_only);

    // The probe has been emitting since the program started and is deep
    // into its own sequence; the bridge attached later and starts at zero.
    for step in 1..=5u64 {
        let t_ns = step * 100_000_000;
        registry
            .get_mut(&probe_id)
            .unwrap()
            .apply_frame(&census_frame(399 + step, t_ns, 21, 15_024_107));
        registry.get_mut(&bridge_id).unwrap().apply_frame(&calls_frame(step, t_ns, 125));
    }

    let probe = registry.get(&probe_id).unwrap();
    let bridge = registry.get(&bridge_id).unwrap();
    assert_eq!(probe.source, "lightwatch-probe", "neither hello overwrites the other's");
    assert_eq!(bridge.source, "lightwatch-hotpath");
    assert_eq!(
        probe.counts.missed_frames, 0,
        "seq 400 is not a gap in a sequence that starts at 0"
    );
    assert_eq!(bridge.counts.missed_frames, 0);
    assert_eq!(
        bridge.functions[&1].calls.get(),
        625,
        "the bridge's own calls, not two emitters' frames folded together"
    );
    assert_eq!(probe.types[&1].latest.as_ref().expect("a census").live.get(), 21);
    assert!(probe.functions.is_empty(), "the probe registered no function and holds none");
    assert!(bridge.types.is_empty(), "the bridge registered no type and holds none");
}

#[test]
fn a_recycled_pid_is_a_different_process() {
    let mut registry = Registry::new();
    registry.connect(&Hello::new("demo", "test", 4242, 1_700_000_000_000));
    registry.connect(&Hello::new("demo", "test", 4242, 1_700_000_009_999));
    assert_eq!(registry.len(), 2);
}

#[test]
fn a_bucketed_duration_lands_within_the_bound_the_protocol_promises() {
    let mut process = connected();
    let exact: u64 = [5_000_000u64; 8].iter().sum();
    process.apply_frame(&Frame {
        seq: 1,
        t_ns: 100_000_000,
        registers: vec![],
        events: vec![Event::Calls {
            func: FunctionId(1),
            count: 8,
            ns: Dist::Buckets { b: Dist::Raw { v: vec![5_000_000; 8] }.to_buckets() },
        }],
    });
    let estimated = process.functions[&1].ns_total.get();
    let error = estimated.abs_diff(exact) as f64 / exact as f64;
    assert!(error <= 0.0625, "estimate {estimated} strayed {error} from {exact}");
}

#[test]
fn a_closed_window_is_pushed_to_a_subscriber_once_it_can_no_longer_change() {
    let mut process = connected();
    let mut pushed: Vec<Update> = Vec::new();
    pushed.extend(process.apply_frame(&calls_frame(1, 100_000_000, 3)));
    pushed.extend(process.apply_frame(&calls_frame(2, 200_000_000, 4)));
    assert_eq!(pushed.len(), 1, "the window still open is not pushed");
    match &pushed[0] {
        Update::WindowClosed(window) => {
            assert_eq!(window.index, 1);
            assert_eq!(window.calls[&1].calls.get(), 3);
        }
        other => panic!("expected a closed window, got {other:?}"),
    }
}

#[test]
fn the_schema_the_daemon_speaks_is_the_one_the_protocol_declares() {
    assert_eq!(hello().schema, SCHEMA_VERSION);
}

#[test]
fn a_process_is_addressed_by_its_emitter_as_well_as_its_pid() {
    let id = ProcessId::of(4242, 1_700_000_000_000, "test");
    assert_eq!(id.as_str(), "4242-1700000000000-test");
    assert_eq!(ProcessId::from_text("4242-1700000000000-test"), id);
    assert_eq!(ProcessId::of_hello(&hello()), id);
    assert_ne!(ProcessId::of(4242, 1_700_000_000_000, "other"), id);
}

/// A tree of three contexts: 1 calls 2 calls 1.
fn tree_frame() -> Frame {
    let mut frame = registered_frame();
    frame.registers.push(Register::Path { id: PathId(1), parent: PathId(0), func: FunctionId(1) });
    frame.registers.push(Register::Path { id: PathId(2), parent: PathId(1), func: FunctionId(2) });
    frame.registers.push(Register::Path { id: PathId(3), parent: PathId(2), func: FunctionId(1) });
    frame
}

fn stack_frame(seq: u64, t_ns: u64, path: u32, count: u64, self_ns: u64) -> Frame {
    Frame {
        seq,
        t_ns,
        registers: vec![],
        events: vec![Event::Stack { path: PathId(path), count, self_ns }],
    }
}

#[test]
fn a_stack_counts_towards_its_context_and_the_edge_into_it() {
    let mut process = ProcessState::new(ProcessId::of_hello(&hello()), &hello());
    process.apply_frame_at(&tree_frame(), 5);
    process.apply_frame_at(&stack_frame(1, 100_000_000, 1, 2, 70), 6);
    process.apply_frame_at(&stack_frame(2, 200_000_000, 2, 6, 900), 7);
    process.apply_frame_at(&stack_frame(3, 300_000_000, 2, 1, 100), 8);
    assert_eq!(process.paths[&2].calls.get(), 7);
    assert_eq!(process.paths[&2].self_ns.get(), 1_000);
    assert_eq!(process.paths[&1].self_ns.get(), 70);
    assert_eq!(process.edges[&(1, 2)].get(), 7, "an edge is read off the tree");
    assert_eq!(process.edges.len(), 1, "a root context has no caller");
    assert_eq!(process.last_frame_unix_ms, Some(8));
    assert_eq!(process.last_seq, Some(3));
    assert_eq!(process.last_t_ns, 300_000_000);
}

#[test]
fn an_edge_event_is_not_counted_twice_beside_a_tree() {
    let mut process = ProcessState::new(ProcessId::of_hello(&hello()), &hello());
    process.apply_frame(&tree_frame());
    let mut frame = stack_frame(1, 100_000_000, 2, 5, 10);
    frame.events.push(Event::Edge { from: FunctionId(1), to: FunctionId(2), count: 5 });
    process.apply_frame(&frame);
    assert_eq!(process.edges[&(1, 2)].get(), 5);
}

#[test]
fn a_context_of_an_unknown_function_is_refused() {
    let mut process = connected();
    process.apply_frame(&Frame {
        seq: 1,
        t_ns: 1,
        registers: vec![
            Register::Path { id: PathId(1), parent: PathId(0), func: FunctionId(9) },
            Register::Path { id: PathId(2), parent: PathId(7), func: FunctionId(1) },
        ],
        events: vec![Event::Stack { path: PathId(1), count: 1, self_ns: 1 }],
    });
    assert!(process.paths.is_empty());
    assert_eq!(process.counts.unknown_id, 3);
}

#[test]
fn registering_a_function_again_keeps_its_history() {
    let mut process = connected();
    process.apply_frame(&calls_frame(1, 100_000_000, 4));
    process.apply_frame(&registered_frame());
    assert_eq!(process.functions[&1].calls.get(), 4);
    assert_eq!(process.functions[&1].name, "decode");
}

#[test]
fn a_frame_too_old_for_the_ring_still_counts_towards_the_totals() {
    let mut process = connected();
    process.apply_frame(&calls_frame(1, 600 * 100_000_000, 1));
    process.apply_frame(&calls_frame(2, 1_300 * 100_000_000, 1));
    process.apply_frame(&calls_frame(3, 0, 5));
    assert_eq!(process.functions[&1].calls.get(), 7);
    assert_eq!(process.counts.late_frames, 1);
}

#[test]
fn a_late_frame_counts_as_late_whatever_it_carries() {
    let mut process = connected();
    process.apply_frame(&calls_frame(0, 500_000_000, 1));
    let empty = |seq: u64, t_ns: u64| Frame { seq, t_ns, registers: vec![], events: vec![] };
    process.apply_frame(&empty(1, 0));
    assert_eq!(process.counts.late_frames, 1);
    assert_eq!((process.fine.len(), process.coarse.len()), (1, 1), "the axis stays as it was");
    process.apply_frame(&empty(2, 500_000_001));
    assert_eq!(process.counts.late_frames, 1);
    assert!(process.fine.predates(499_999_999));
    assert!(!process.fine.predates(500_000_000));
}

#[test]
fn totals_are_the_sum_of_the_windows_of_either_ring() {
    let mut process = connected();
    let mut frame = registered_frame();
    frame.registers.push(Register::Path { id: PathId(1), parent: PathId(0), func: FunctionId(1) });
    frame.registers.push(Register::Path { id: PathId(2), parent: PathId(1), func: FunctionId(2) });
    process.apply_frame(&frame);
    for (seq, t_ns) in [(1, 100_000_000), (2, 1_950_000_000), (3, 1_960_000_000)] {
        process.apply_frame(&Frame {
            seq,
            t_ns,
            registers: vec![],
            events: vec![
                Event::Calls {
                    func: FunctionId(1),
                    count: seq,
                    ns: Dist::Raw { v: vec![7; seq as usize] },
                },
                Event::Stack { path: PathId(2), count: 2 * seq, self_ns: 5 },
                Event::Census { ty: TypeId(1), live: seq, bytes: 9, sizes: Dist::empty() },
            ],
        });
    }
    for ring in [&process.fine, &process.coarse] {
        let windows = ring.iter();
        let calls = windows.iter().filter_map(|w| w.calls.get(&1)).map(|d| d.calls.get());
        assert_eq!(calls.sum::<u64>(), process.functions[&1].calls.get());
        let ns = windows.iter().filter_map(|w| w.calls.get(&1)).map(|d| d.ns.get());
        assert_eq!(ns.sum::<u64>(), process.functions[&1].ns_total.get());
        let edges = windows.iter().filter_map(|w| w.edges.get(&(1, 2))).map(|c| c.get());
        assert_eq!(edges.sum::<u64>(), process.edges[&(1, 2)].get());
        let self_ns = windows.iter().filter_map(|w| w.stacks.get(&2)).map(|d| d.self_ns.get());
        assert_eq!(self_ns.sum::<u64>(), process.paths[&2].self_ns.get());
    }
    assert_eq!(process.functions[&1].calls.get(), 6);
    assert_eq!(process.functions[&1].ns_total.get(), 42);
    assert_eq!(process.edges[&(1, 2)].get(), 12);
    assert_eq!(process.types[&1].latest.as_ref().unwrap().live.get(), 3, "read, not summed");
}

#[test]
fn an_empty_window_closes_without_a_word() {
    let mut process = connected();
    let quiet = |seq: u64, t_ns: u64| Frame { seq, t_ns, registers: vec![], events: vec![] };
    assert!(process.apply_frame(&quiet(1, 100_000_000)).is_none());
    assert!(process.apply_frame(&quiet(2, 200_000_000)).is_none());
}

#[test]
fn a_pushed_window_no_longer_changes() {
    let mut process = connected();
    process.apply_frame(&calls_frame(1, 100_000_000, 3));
    let pushed = process.apply_frame(&calls_frame(2, 200_000_000, 4)).expect("one closed");
    for step in 3..20u64 {
        process.apply_frame(&calls_frame(step, step * 100_000_000, step));
    }
    let Update::WindowClosed(pushed) = pushed else { panic!("expected a window") };
    let held = process.fine.get(1).expect("still held");
    assert_eq!(held.calls[&1].calls.get(), pushed.calls[&1].calls.get());
    assert_eq!(held.calls[&1].ns.get(), pushed.calls[&1].ns.get());
    assert_eq!(held.edges[&(1, 2)].get(), pushed.edges[&(1, 2)].get());
}

#[test]
fn malformed_lines_are_counted() {
    let mut process = connected();
    process.note_malformed_line();
    process.note_malformed_line();
    assert_eq!(process.counts.malformed_lines, 2);
}

#[test]
fn the_last_connection_to_close_ends_the_process() {
    let mut registry = Registry::new();
    let id = registry.connect(&hello());
    registry.connect(&hello());
    assert!(registry.disconnect_at(&id, 9).is_empty(), "one stream is still open");
    assert!(registry.get(&id).unwrap().is_connected());
    let said = registry.disconnect_at(&id, 10);
    assert!(matches!(said.last(), Some(Update::ProcessEnded { ended_unix_ms: 10 })));
    assert_eq!(registry.get(&id).unwrap().ended_unix_ms, Some(10));
    assert!(registry.disconnect_at(&ProcessId::from_text("nobody"), 11).is_empty());
}

#[test]
fn the_open_window_is_pushed_when_its_process_ends() {
    let mut registry = Registry::new();
    let id = registry.connect(&hello());
    let process = registry.get_mut(&id).unwrap();
    process.apply_frame(&registered_frame());
    process.apply_frame(&calls_frame(1, 100_000_000, 3));
    let said = registry.disconnect_at(&id, 10);
    assert_eq!(said.len(), 2);
    assert!(matches!(&said[0], Update::WindowClosed(window) if window.index == 1));
    assert!(matches!(said[1], Update::ProcessEnded { ended_unix_ms: 10 }));
}

#[test]
fn a_registry_lists_every_process_it_has_seen() {
    let mut registry = Registry::new();
    assert!(registry.is_empty());
    registry.connect(&Hello::new("b", "test", 2, 20));
    registry.connect(&Hello::new("a", "test", 1, 10));
    assert_eq!(registry.len(), 2);
    assert_eq!(registry.all().len(), 2);
    assert!(registry.get(&ProcessId::of(1, 10, "test")).is_some());
    assert!(registry.get(&ProcessId::of(1, 11, "test")).is_none());
    assert!(Registry::default().is_empty());
}
