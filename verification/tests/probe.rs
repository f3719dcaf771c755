use std::collections::BTreeMap;

use lightwatch::accum::{drain, Accum, Samples, StackStat};
use lightwatch::calls::ThreadState;
use lightwatch::census::{bytes_from_buckets, TypeSlot};
use lightwatch::dist::{bucket_of, bucket_range, Dist, MAX_RAW_SAMPLES};
use lightwatch::emit::{window_ms_from, Emitter, SOURCE};
use lightwatch::paths::{max_paths_from, PathTable, DEFAULT_MAX_PATHS};
use lightwatch::proto::{Event, FunctionId, PathId, Register, TypeId, DEFAULT_WINDOW_MS};
use lightwatch::registry::Registry;
use lightwatch::symbols::{Site, Symbols, MAX_REGISTERS_PER_FRAME};
use lightwatch::testing;

#[test]
fn raw_samples_fold_to_buckets_at_the_protocol_cap() {
    let mut samples = Samples::default();
    for value in 0..MAX_RAW_SAMPLES as u64 {
        samples.add(value);
    }
    assert!(matches!(samples, Samples::Raw(_)), "still raw at the cap");
    samples.add(1);
    let Dist::Buckets { b } = samples.into_dist() else {
        panic!("one sample past the cap must fold to buckets")
    };
    assert_eq!(
        b.iter().map(|(_, count)| *count as u64).sum::<u64>(),
        MAX_RAW_SAMPLES as u64 + 1,
        "folding must not lose a sample"
    );
}

#[test]
fn buckets_come_out_sorted_so_the_wire_shape_is_stable() {
    let mut samples = Samples::Buckets(BTreeMap::new());
    for value in [900u64, 4, 44_720_000, 17] {
        samples.add(value);
    }
    let Dist::Buckets { b } = samples.into_dist() else { panic!("expected buckets") };
    let mut sorted = b.clone();
    sorted.sort_unstable_by_key(|(index, _)| *index);
    assert_eq!(b, sorted);
}

#[test]
fn absorbing_a_bucketed_accumulator_keeps_every_sample() {
    let mut left = Samples::Buckets(BTreeMap::new());
    left.add(100);
    let mut right = Samples::Buckets(BTreeMap::new());
    right.add(100);
    right.add(200);
    left.absorb(right);
    assert_eq!(left.into_dist().count(), 3);
}

#[test]
fn raw_samples_stay_raw_while_they_fit() {
    let mut left = Samples::default();
    left.add(3);
    let mut right = Samples::default();
    right.add(4);
    left.absorb(right);
    assert_eq!(left.into_dist(), Dist::Raw { v: vec![3, 4] });

    let mut full = Samples::default();
    for value in 0..MAX_RAW_SAMPLES as u64 {
        full.add(value);
    }
    let mut more = Samples::default();
    more.add(5);
    full.absorb(more);
    assert!(matches!(full, Samples::Buckets(_)));
    assert_eq!(full.into_dist().count(), MAX_RAW_SAMPLES as u64 + 1);

    let mut five = Samples::default();
    five.add(5);
    five.add(5);
    assert_eq!(five.into_buckets(), BTreeMap::from([(5, 2)]));
}

#[test]
fn accumulators_merge_by_adding() {
    let mut accum = Accum::default();
    accum.add_edge((1, 2));
    accum.add_call(1, 10);
    accum.add_share(4, StackStat { count: 1, self_ns: 7 });
    let mut other = Accum::default();
    other.add_edge((1, 2));
    other.add_edge((2, 1));
    other.add_call(1, 20);
    other.add_share(4, StackStat { count: 2, self_ns: 3 });
    accum.absorb(other);
    assert_eq!(accum.edges, BTreeMap::from([((1, 2), 2), ((2, 1), 1)]));
    assert_eq!(accum.calls[&1].count, 2);
    assert_eq!(accum.stacks[&4], StackStat { count: 3, self_ns: 10 });
}

#[test]
fn a_context_is_interned_once_and_numbered_above_its_parent() {
    let mut table = PathTable::new();
    assert_eq!(table.intern_path(0, 5, 10), 1);
    assert_eq!(table.intern_path(1, 6, 10), 2);
    assert_eq!(table.intern_path(0, 5, 10), 1, "the same context keeps its id");
    assert_eq!(table.intern_path(2, 5, 10), 3);
    assert_eq!(table.len(), 3);
    assert_eq!(table.path_nodes(), vec![(1, 0, 5), (2, 1, 6), (3, 2, 5)]);
    assert_eq!(table.node(1), (1, 6));
}

#[test]
fn a_full_table_charges_the_caller_instead_of_growing() {
    let mut table = PathTable::new();
    assert_eq!(table.intern_path(0, 1, 1), 1);
    assert_eq!(table.intern_path(1, 2, 1), 0, "a context past the cap is refused");
    assert_eq!(table.len(), 1);
    assert_eq!(table.overflowed(), 1);

    let mut p = program();
    let (outer, inner) = (p.outer, p.inner);
    p.symbols.open(&mut p.thread, outer, 1, 0);
    p.symbols.open(&mut p.thread, inner, 1, 10);
    p.close(40);
    p.close(100);
    assert_eq!(testing::paths_overflowed(&p.symbols), 1);
    let stacks = testing::stacks(&p.accum, &p.symbols);
    assert_eq!(stacks.len(), 1, "its time is its caller's");
    assert_eq!(stacks[0].self_ns, 100);
    assert_eq!(testing::call_count(&p.accum, &p.symbols, "inner"), 1, "its calls are its own");
}

#[test]
fn limits_come_from_the_environment_where_they_are_numbers() {
    assert_eq!(max_paths_from(None), DEFAULT_MAX_PATHS);
    assert_eq!(max_paths_from(Some("12")), 12);
    assert_eq!(max_paths_from(Some("0")), DEFAULT_MAX_PATHS);
    assert_eq!(max_paths_from(Some("many")), DEFAULT_MAX_PATHS);
    assert_eq!(window_ms_from(Some("250")), 250);
    assert_eq!(window_ms_from(Some("+250")), 250);
    assert_eq!(window_ms_from(Some("0")), DEFAULT_WINDOW_MS);
    assert_eq!(window_ms_from(Some("4294967296")), DEFAULT_WINDOW_MS);
    assert_eq!(window_ms_from(None), DEFAULT_WINDOW_MS);
}

/// Two functions, `outer` and `inner`, and a thread to run them on.
struct Program {
    symbols: Symbols,
    thread: ThreadState,
    accum: Accum,
    outer: FunctionId,
    inner: FunctionId,
}

fn program() -> Program {
    let mut symbols = Symbols::new();
    let mut outer = Site::new("outer", "demo", "src/demo.rs", 3);
    let mut inner = Site::new("inner", "demo", "src/demo.rs", 9);
    let outer = symbols.intern_function(&mut outer);
    let inner = symbols.intern_function(&mut inner);
    Program { symbols, thread: ThreadState::new(), accum: Accum::default(), outer, inner }
}

impl Program {
    fn open(&mut self, func: FunctionId, now: u64) {
        self.symbols.open(&mut self.thread, func, DEFAULT_MAX_PATHS, now);
    }

    fn close(&mut self, now: u64) {
        self.thread.close(&mut self.accum, now);
    }
}

#[test]
fn self_time_leaves_out_the_callees() {
    let mut p = program();
    let (outer, inner) = (p.outer, p.inner);
    p.open(outer, 0);
    p.open(inner, 10);
    assert_eq!(testing::open_activations(&p.thread), 2);
    p.close(40);
    p.open(inner, 50);
    p.close(60);
    p.close(100);
    assert_eq!(testing::open_activations(&p.thread), 0);
    assert_eq!(testing::self_ns(&p.accum, &p.symbols, "outer"), 60);
    assert_eq!(testing::self_ns(&p.accum, &p.symbols, "demo::inner"), 40);
    assert_eq!(testing::call_count(&p.accum, &p.symbols, "inner"), 2);
    assert_eq!(testing::call_durations(&p.accum, &p.symbols, "inner"), vec![30, 10]);
    assert_eq!(testing::call_durations(&p.accum, &p.symbols, "outer"), vec![100]);
    assert_eq!(
        testing::edges(&p.accum, &p.symbols),
        vec![("outer".to_string(), "inner".to_string())]
    );
    assert_eq!(testing::edge_counts(&p.accum, &p.symbols)[0].count, 2);
    let stacks = testing::stacks(&p.accum, &p.symbols);
    assert_eq!(stacks.len(), 2);
    assert_eq!(stacks[0].chain, vec!["outer".to_string()]);
    assert_eq!(stacks[1].chain, vec!["outer".to_string(), "inner".to_string()]);
    assert_eq!((stacks[1].calls, stacks[1].self_ns), (2, 40));
    assert_eq!(testing::path_count(&p.symbols), 2);
    assert_eq!(testing::deepest_chain(&p.symbols), 2);
    assert_eq!(testing::paths_overflowed(&p.symbols), 0);
}

#[test]
fn a_recursion_is_one_call_and_one_context_however_deep() {
    let mut p = program();
    let outer = p.outer;
    p.open(outer, 0);
    p.open(outer, 10);
    p.open(outer, 20);
    p.close(30);
    p.close(40);
    p.close(100);
    assert_eq!(testing::call_count(&p.accum, &p.symbols, "outer"), 1);
    assert_eq!(testing::call_durations(&p.accum, &p.symbols, "outer"), vec![100]);
    assert_eq!(testing::self_ns(&p.accum, &p.symbols, "outer"), 100);
    assert_eq!(testing::path_count(&p.symbols), 2, "itself, and itself below itself");
    assert_eq!(testing::deepest_chain(&p.symbols), 2);
    let edges = testing::edge_counts(&p.accum, &p.symbols);
    assert_eq!(edges.len(), 1);
    assert_eq!((edges[0].from.as_str(), edges[0].count), ("outer", 1), "one edge to itself");
}

#[test]
fn a_mutual_recursion_keeps_its_edges() {
    let mut p = program();
    let (outer, inner) = (p.outer, p.inner);
    p.open(outer, 0);
    p.open(inner, 1);
    p.open(outer, 2);
    p.close(3);
    p.close(4);
    p.close(5);
    assert_eq!(testing::call_count(&p.accum, &p.symbols, "outer"), 1);
    assert_eq!(testing::call_count(&p.accum, &p.symbols, "inner"), 1);
    assert_eq!(testing::self_ns(&p.accum, &p.symbols, "outer")
        + testing::self_ns(&p.accum, &p.symbols, "inner"), 5);
}

#[test]
fn closing_more_than_was_opened_does_nothing() {
    let mut p = program();
    p.close(5);
    assert_eq!(testing::open_activations(&p.thread), 0);
    assert!(p.accum.calls.is_empty());
}

#[test]
fn a_site_enters_by_itself_and_its_guard_leaves() {
    let mut symbols = Symbols::new();
    let mut thread = ThreadState::new();
    let mut accum = Accum::default();
    let mut site = Site::new("decode", "demo", "src/demo.rs", 3);
    assert_eq!(site.interned_id(), None);
    let guard = site.enter(&mut symbols, &mut thread, DEFAULT_MAX_PATHS, 5);
    assert_eq!(site.interned_id(), Some(FunctionId(1)));
    guard.close(&mut thread, &mut accum, 9);
    let guard = site.enter(&mut symbols, &mut thread, DEFAULT_MAX_PATHS, 10);
    guard.close(&mut thread, &mut accum, 11);
    assert_eq!(testing::call_durations(&accum, &symbols, "decode"), vec![4, 1]);
    assert_eq!(site.qualified(), "demo::decode");
    assert_eq!(symbols.function_id_by_name("demo::decode"), Some(FunctionId(1)));
    assert_eq!(symbols.function_id_by_name("encode"), None);
    assert_eq!(symbols.function_name(1), Some("decode"));
    assert_eq!(symbols.function_name(2), None);
}

#[test]
fn a_dropped_value_leaves_no_trace() {
    let mut slot = TypeSlot::new("Thumbnail", "src/thumbnail.rs", 4);
    let small = slot.constructed(16);
    let large = slot.constructed(1_000_000);
    let twin = slot.constructed(16);
    assert_eq!(slot.live(), 3);
    assert_eq!(slot.size_buckets(), vec![(16, 2), (bucket_of(1_000_000), 1)]);
    slot.dropped(large);
    slot.dropped(twin);
    assert_eq!(slot.size_buckets(), vec![(16, 1)]);
    assert_eq!(bytes_from_buckets(&slot.size_buckets()), 16);
    slot.dropped(small);
    assert_eq!(slot.live(), 0);
    assert!(slot.size_buckets().is_empty());
    assert_eq!((slot.name(), slot.file(), slot.line()), ("Thumbnail", "src/thumbnail.rs", 4));
}

#[test]
fn the_census_is_read_by_name() {
    let mut symbols = Symbols::new();
    let ty = symbols.intern_type(TypeSlot::new("Thumbnail", "src/thumbnail.rs", 4));
    assert_eq!(ty, TypeId(1));
    let bucket = symbols.constructed(ty, 20);
    symbols.constructed(ty, 20);
    assert_eq!(testing::live(&symbols, "Thumbnail"), 2);
    assert_eq!(testing::size_buckets(&symbols, "Thumbnail"), vec![(20, 2)]);
    assert_eq!(testing::bytes(&symbols, "Thumbnail"), 40);
    symbols.dropped(ty, bucket);
    assert_eq!(testing::live(&symbols, "Thumbnail"), 1);
    assert_eq!(testing::live(&symbols, "Nothing"), 0);
    assert_eq!(symbols.type_place_by_name("Thumbnail"), Some(0));
    assert_eq!(symbols.type_count(), 1);
}

#[test]
fn a_frame_names_what_is_new_and_reports_what_was_measured() {
    let mut p = program();
    let (outer, inner) = (p.outer, p.inner);
    let ty = p.symbols.intern_type(TypeSlot::new("Thumbnail", "src/thumbnail.rs", 4));
    p.symbols.constructed(ty, 20);
    p.open(outer, 0);
    p.open(inner, 10);
    p.close(40);
    p.close(100);

    let mut emitter = Emitter::new("demo", 7, 1_000, 50);
    assert_eq!(emitter.hello.source, SOURCE);
    assert_eq!(emitter.hello.window_ms, 50);
    emitter.greeted();
    let accum = std::mem::take(&mut p.accum);
    let first = emitter.frame(accum, &p.symbols, 100);
    assert_eq!(first.frame.seq, 0);
    assert_eq!(first.frame.t_ns, 100);
    assert_eq!(first.frame.registers.len(), 5);
    assert!(matches!(
        &first.frame.registers[0],
        Register::Function { id: FunctionId(1), name, module: Some(module), .. }
            if name == "outer" && module == "demo"
    ));
    assert!(matches!(first.frame.registers[2], Register::Type { id: TypeId(1), .. }));
    assert_eq!(
        first.frame.registers[4],
        Register::Path { id: PathId(2), parent: PathId(1), func: FunctionId(2) }
    );
    assert_eq!(
        first.frame.events,
        vec![
            Event::Calls { func: FunctionId(1), count: 1, ns: Dist::Raw { v: vec![100] } },
            Event::Calls { func: FunctionId(2), count: 1, ns: Dist::Raw { v: vec![30] } },
            Event::Edge { from: FunctionId(1), to: FunctionId(2), count: 1 },
            Event::Stack { path: PathId(1), count: 1, self_ns: 70 },
            Event::Stack { path: PathId(2), count: 1, self_ns: 30 },
            Event::Census {
                ty: TypeId(1),
                live: 1,
                bytes: 20,
                sizes: Dist::Buckets { b: vec![(20, 1)] },
            },
        ]
    );
    emitter.sent(&first, true);
    let second = emitter.frame(Accum::default(), &p.symbols, 200);
    assert_eq!(second.frame.seq, 1);
    assert!(second.frame.registers.is_empty(), "names never repeat on the wire");
    assert_eq!(second.frame.events.len(), 1, "a census is read every window");
    emitter.sent(&second, false);
    assert!(!emitter.connected);
    emitter.greeted();
    let third = emitter.frame(Accum::default(), &p.symbols, 300);
    assert_eq!(third.frame.seq, 1, "a frame nobody got is not counted");
    assert_eq!(third.frame.registers.len(), 5, "a new listener hears every name again");
}

#[test]
fn contexts_are_spread_over_frames() {
    let mut symbols = Symbols::new();
    let mut site = Site::new("node", "demo", "src/demo.rs", 1);
    let func = symbols.intern_function(&mut site);
    for parent in 0..MAX_REGISTERS_PER_FRAME as u32 + 10 {
        symbols.intern_path(parent, func, DEFAULT_MAX_PATHS);
    }
    let (registers, functions, types, paths) = symbols.registers_since(0, 0, 0);
    assert_eq!((functions, types), (1, 0));
    assert_eq!(registers.len(), MAX_REGISTERS_PER_FRAME);
    let (rest, _, _, all) = symbols.registers_since(functions, types, paths);
    assert_eq!(all, MAX_REGISTERS_PER_FRAME + 10);
    assert_eq!(registers.len() - 1 + rest.len(), all);
}

#[test]
fn no_frame_carries_more_names_than_it_may() {
    let mut symbols = Symbols::new();
    for line in 0..3_000u32 {
        let mut site = Site::new("node", "demo", "src/demo.rs", line);
        symbols.intern_function(&mut site);
    }
    symbols.intern_type(TypeSlot::new("Image", "src/image.rs", 3));
    symbols.intern_path(0, FunctionId(3_000), DEFAULT_MAX_PATHS);

    let (first, functions, types, paths) = symbols.registers_since(0, 0, 0);
    assert_eq!(first.len(), MAX_REGISTERS_PER_FRAME);
    assert_eq!((functions, types, paths), (MAX_REGISTERS_PER_FRAME, 0, 0));
    assert!(matches!(first[2_047], Register::Function { id: FunctionId(2_048), .. }));

    let (second, functions, types, paths) = symbols.registers_since(functions, types, paths);
    assert_eq!((functions, types, paths), (3_000, 1, 1));
    assert_eq!(second.len(), 3_000 - MAX_REGISTERS_PER_FRAME + 2);
    assert!(matches!(second[0], Register::Function { id: FunctionId(2_049), .. }));
    assert!(matches!(second[952], Register::Type { id: TypeId(1), .. }));
    assert!(matches!(second[953], Register::Path { id: PathId(1), .. }));
    assert!(symbols.registers_since(functions, types, paths).0.is_empty());

    let mut emitter = Emitter::new("demo", 7, 1_000, 100);
    let out = emitter.tick(true, Accum::default(), &symbols, 100).expect("someone listens");
    assert_eq!(out.frame.registers.len(), MAX_REGISTERS_PER_FRAME);
    assert_eq!((out.functions_sent, out.types_sent, out.paths_sent), (2_048, 0, 0));
    emitter.sent(&out, true);
    let out = emitter.tick(false, Accum::default(), &symbols, 200).expect("someone listens");
    assert_eq!(out.frame.registers.len(), 954);
    assert_eq!((out.functions_sent, out.types_sent, out.paths_sent), (3_000, 1, 1));
}

#[test]
fn durations_go_out_as_they_were_measured() {
    let mut accum = Accum::default();
    for elapsed in [1_000_003, 77, 1_000_001] {
        accum.add_call(4, elapsed);
    }
    let mut emitter = Emitter::new("demo", 7, 1_000, 100);
    let out = emitter.tick(true, accum, &Symbols::new(), 100).expect("someone listens");
    assert_eq!(
        out.frame.events,
        vec![Event::Calls {
            func: FunctionId(4),
            count: 3,
            ns: Dist::Raw { v: vec![1_000_003, 77, 1_000_001] },
        }]
    );
}

#[test]
fn a_function_has_a_duration_for_every_call() {
    let mut machine = Machine::new(&["work"], DEFAULT_MAX_PATHS);
    let mut one = worker();
    for _ in 0..MAX_RAW_SAMPLES {
        machine.call(&mut one, &["work"]);
    }
    let read = testing::call_durations(&one.accum, &machine.symbols, "work");
    assert_eq!(read, vec![1_000_000; MAX_RAW_SAMPLES], "exact while they are few");
    let mut other = worker();
    machine.call(&mut other, &["work", "work", "work"]);
    one.accum.absorb(other.accum);
    let read = testing::call_durations(&one.accum, &machine.symbols, "work");
    assert_eq!(read.len() as u64, testing::call_count(&one.accum, &machine.symbols, "work"));
    assert_eq!(read.len(), MAX_RAW_SAMPLES + 1);
    assert_eq!(read[0], bucket_range(bucket_of(1_000_000)).0);
    assert_eq!(read[MAX_RAW_SAMPLES], bucket_range(bucket_of(3_000_000)).0);
    assert!(read.windows(2).all(|pair| pair[0] <= pair[1]));
    assert!(testing::call_durations(&one.accum, &machine.symbols, "idle").is_empty());
}

#[test]
fn durations_of_several_threads_are_read_back_one_after_the_other() {
    let mut machine = Machine::new(&["work", "rest"], DEFAULT_MAX_PATHS);
    let mut threads: Vec<Accum> = Vec::new();
    for depth in [1, 3, 2] {
        let mut one = worker();
        machine.call(&mut one, &["work", "rest", "rest"][..depth]);
        machine.call(&mut one, &["rest"]);
        threads.push(one.accum);
    }
    threads.push(Accum::default());
    let merged = drain(&mut threads);
    let read = |name| testing::call_durations(&merged, &machine.symbols, name);
    assert_eq!(read("work"), vec![1_000_000, 3_000_000, 2_000_000]);
    assert_eq!(read("rest"), vec![1_000_000, 2_000_000, 1_000_000, 1_000_000, 1_000_000]);
    assert!(read("idle").is_empty());

    let mut halves = vec![Accum::default(), Accum::default()];
    for elapsed in 0..MAX_RAW_SAMPLES as u64 {
        halves[(elapsed % 2) as usize].add_call(1, 5_000 - elapsed);
    }
    halves[1].add_call(1, 7);
    let merged = drain(&mut halves);
    let mut lows: Vec<u64> = (0..MAX_RAW_SAMPLES as u64)
        .map(|elapsed| bucket_range(bucket_of(5_000 - elapsed)).0)
        .collect();
    lows.push(7);
    lows.sort_unstable();
    let read = testing::call_durations(&merged, &machine.symbols, "work");
    assert_eq!(read, lows, "past the cap each is the least of its bucket, ascending");
}

#[test]
fn self_time_is_the_sum_over_the_chains_that_end_in_a_name() {
    let names = ["root", "left", "right", "leaf"];
    let mut machine = Machine::new(&names, DEFAULT_MAX_PATHS);
    let mut worker = worker();
    machine.call(&mut worker, &["root", "left", "leaf"]);
    machine.call(&mut worker, &["root", "right", "leaf"]);
    machine.call(&mut worker, &["leaf", "leaf"]);
    let stacks = testing::stacks(&worker.accum, &machine.symbols);
    let mut whole = 0;
    for name in names {
        let over_chains: u64 = stacks
            .iter()
            .filter(|stack| stack.chain.last().unwrap() == name)
            .map(|stack| stack.self_ns)
            .sum();
        assert_eq!(testing::self_ns(&worker.accum, &machine.symbols, name), over_chains);
        whole += over_chains;
    }
    assert_eq!(testing::self_ns(&worker.accum, &machine.symbols, "leaf"), 4_000_000);
    assert_eq!(whole, stacks.iter().map(|stack| stack.self_ns).sum::<u64>());
    assert_eq!(whole, 8_000_000);
    assert_eq!(testing::self_ns(&worker.accum, &machine.symbols, "idle"), 0);
}

#[test]
fn a_daemon_understands_everything_an_emitter_says() {
    let mut p = program();
    let (outer, inner) = (p.outer, p.inner);
    let mut emitter = Emitter::new("demo", 7, 1_000, 100);
    let mut registry = Registry::new();
    let id = registry.connect(&emitter.hello);
    emitter.greeted();
    for window in 1..=3u64 {
        let start = window * 100_000_000;
        p.open(outer, start);
        p.open(inner, start + 10);
        p.close(start + 40);
        p.close(start + 100);
        let accum = std::mem::take(&mut p.accum);
        let outgoing = emitter.frame(accum, &p.symbols, start + 100);
        registry.get_mut(&id).unwrap().apply_frame(&outgoing.frame);
        emitter.sent(&outgoing, true);
    }
    let process = registry.get(&id).unwrap();
    assert_eq!(process.counts.unknown_id, 0);
    assert_eq!(process.counts.missed_frames, 0);
    assert_eq!(process.functions[&1].calls.get(), 3);
    assert_eq!(process.functions[&1].ns_total.get(), 300);
    assert_eq!(process.paths[&2].self_ns.get(), 90);
    assert_eq!(process.edges[&(1, 2)].get(), 3);
}

/// A program of any functions, run by hand on a clock that ticks by itself.
struct Machine {
    symbols: Symbols,
    sites: Vec<Site>,
    max: usize,
    now: u64,
}

/// One thread of a [`Machine`].
struct Worker {
    thread: ThreadState,
    accum: Accum,
}

fn worker() -> Worker {
    Worker { thread: ThreadState::new(), accum: Accum::default() }
}

impl Machine {
    fn new(names: &[&'static str], max: usize) -> Machine {
        let sites = names.iter().map(|name| Site::new(name, "demo", "src/lib.rs", 1)).collect();
        Machine { symbols: Symbols::new(), sites, max, now: 0 }
    }

    /// Calls the chain of functions by name, a millisecond in each.
    fn call(&mut self, worker: &mut Worker, chain: &[&str]) {
        let Some((name, rest)) = chain.split_first() else { return };
        let at = self.sites.iter().position(|site| site.name == *name).expect("a known function");
        let mut site = self.sites[at];
        let guard = site.enter(&mut self.symbols, &mut worker.thread, self.max, self.now);
        self.sites[at] = site;
        self.now += 1_000_000;
        self.call(worker, rest);
        guard.close(&mut worker.thread, &mut worker.accum, self.now);
    }
}

fn chain(names: &[&str]) -> Vec<String> {
    names.iter().map(|name| name.to_string()).collect()
}

#[test]
fn recursion_does_not_deepen_the_call_tree() {
    let mut machine = Machine::new(&["descend"], DEFAULT_MAX_PATHS);
    let mut worker = worker();
    machine.call(&mut worker, &["descend"; 3]);
    let after_shallow = testing::path_count(&machine.symbols);
    machine.call(&mut worker, &["descend"; 9]);
    machine.call(&mut worker, &["descend"; 65]);
    let after_deep = testing::path_count(&machine.symbols);
    assert_eq!(after_shallow, after_deep);
    assert_eq!(after_deep, 2);
    assert_eq!(testing::deepest_chain(&machine.symbols), 2);
    assert_eq!(testing::paths_overflowed(&machine.symbols), 0);
    assert_eq!(testing::call_count(&worker.accum, &machine.symbols, "descend"), 3);
    let edges = testing::edge_counts(&worker.accum, &machine.symbols);
    assert_eq!(edges[0].count, 3, "one self-edge for each outermost entry");
}

#[test]
fn every_level_of_a_recursive_call_is_timed_once_and_only_once() {
    let mut machine = Machine::new(&["descend"], DEFAULT_MAX_PATHS);
    let mut worker = worker();
    machine.call(&mut worker, &["descend"; 5]);
    let stacks = testing::stacks(&worker.accum, &machine.symbols);
    assert_eq!(stacks[0].chain, chain(&["descend"]));
    assert_eq!(stacks[0].self_ns, 1_000_000);
    assert_eq!(stacks[1].chain, chain(&["descend", "descend"]));
    assert_eq!(stacks[1].self_ns, 4_000_000);
    assert_eq!(
        testing::call_durations(&worker.accum, &machine.symbols, "descend"),
        vec![5_000_000]
    );
}

#[test]
fn the_same_function_under_two_callers_is_two_contexts() {
    let mut machine = Machine::new(&["a", "b", "c", "pipeline", "decode"], DEFAULT_MAX_PATHS);
    let mut worker = worker();
    machine.call(&mut worker, &["a", "b", "c"]);
    machine.call(&mut worker, &["pipeline", "decode", "c"]);
    let stacks = testing::stacks(&worker.accum, &machine.symbols);
    let reaching_c: Vec<&Vec<String>> = stacks
        .iter()
        .map(|stack| &stack.chain)
        .filter(|chain| chain.last().map(String::as_str) == Some("c"))
        .collect();
    assert_eq!(
        reaching_c,
        vec![&chain(&["a", "b", "c"]), &chain(&["pipeline", "decode", "c"])]
    );
    assert_eq!(
        testing::edges(&worker.accum, &machine.symbols),
        vec![
            ("a".to_string(), "b".to_string()),
            ("b".to_string(), "c".to_string()),
            ("decode".to_string(), "c".to_string()),
            ("pipeline".to_string(), "decode".to_string()),
        ]
    );
}

#[test]
fn two_threads_running_the_same_chain_share_its_contexts() {
    let mut machine = Machine::new(&["a", "b", "c"], DEFAULT_MAX_PATHS);
    let (mut first, mut second) = (worker(), worker());
    machine.call(&mut first, &["a", "b", "c"]);
    machine.call(&mut second, &["a", "b", "c"]);
    assert_eq!(testing::path_count(&machine.symbols), 3);
    let mut threads = vec![first.accum, second.accum];
    let merged = drain(&mut threads);
    let stacks = testing::stacks(&merged, &machine.symbols);
    assert_eq!(stacks[2].chain, chain(&["a", "b", "c"]));
    assert_eq!(stacks[2].calls, 2, "both threads' work lands on the one shared context");
    assert!(threads.iter().all(|accum| accum.stacks.is_empty()), "nothing is reported twice");
    assert!(drain(&mut threads).calls.is_empty());
}

#[test]
fn a_full_context_table_grows_shallower_rather_than_without_bound() {
    let mut machine = Machine::new(&["pipeline", "decode", "c", "encode"], 2);
    let mut worker = worker();
    machine.call(&mut worker, &["pipeline", "decode", "c", "encode"]);
    assert_eq!(testing::path_count(&machine.symbols), 2, "the ceiling holds");
    assert_eq!(testing::paths_overflowed(&machine.symbols), 2);
    let over_the_tree: u64 = testing::stacks(&worker.accum, &machine.symbols)
        .iter()
        .map(|stack| stack.self_ns)
        .sum();
    assert_eq!(
        vec![over_the_tree],
        testing::call_durations(&worker.accum, &machine.symbols, "pipeline"),
        "a truncated tree still accounts for every nanosecond the call took"
    );
}

#[test]
fn replacing_one_instance_with_another_leaves_the_footprint_where_it_was() {
    let mut symbols = Symbols::new();
    let ty = symbols.intern_type(TypeSlot::new("Thumbnail", "src/lib.rs", 1));
    let first = symbols.constructed(ty, 65_560);
    let one_alive = testing::bytes(&symbols, "Thumbnail");
    let second = symbols.constructed(ty, 65_560);
    assert_eq!(testing::live(&symbols, "Thumbnail"), 2);
    assert_eq!(testing::bytes(&symbols, "Thumbnail"), one_alive * 2);
    symbols.dropped(ty, first);
    assert_eq!(testing::live(&symbols, "Thumbnail"), 1);
    assert_eq!(testing::bytes(&symbols, "Thumbnail"), one_alive);
    symbols.dropped(ty, second);
    assert_eq!(testing::bytes(&symbols, "Thumbnail"), 0);
    assert!(testing::size_buckets(&symbols, "Thumbnail").is_empty());
}

#[test]
fn a_window_is_thrown_away_while_nobody_listens() {
    let symbols = Symbols::new();
    let mut emitter = Emitter::new("demo", 7, 1_000, 100);
    assert!(emitter.tick(false, Accum::default(), &symbols, 100).is_none());
    assert!(!emitter.connected);
    let out = emitter.tick(true, Accum::default(), &symbols, 200).expect("a frame is due");
    assert_eq!((out.frame.seq, out.frame.t_ns), (0, 200));
    emitter.sent(&out, true);
    let out = emitter.tick(false, Accum::default(), &symbols, 300).expect("still connected");
    assert_eq!(out.frame.seq, 1);
    emitter.sent(&out, false);
    assert!(emitter.tick(false, Accum::default(), &symbols, 400).is_none());
}
