use lightwatch::dist::Dist;
use lightwatch::ingest::{
    handle_connection, handshake, is_blank, spell, Heard, LineRead, LineReader, Outcome, Spelling,
    MAX_LINE_BYTES,
};
use lightwatch::proto::{Event, Frame, FunctionId, Hello, Register, SCHEMA_VERSION};
use lightwatch::registry::Registry;
use lightwatch::store::{ProcessId, Update};

fn hello() -> Heard {
    Heard::Hello(Hello::new("demo", "test", 4242, 1_700_000_000_000))
}

fn register() -> Heard {
    Heard::Frame(Frame {
        seq: 0,
        t_ns: 0,
        registers: vec![Register::Function {
            id: FunctionId(1),
            name: "decode".into(),
            module: None,
            location: None,
        }],
        events: vec![],
    })
}

fn calls(seq: u64, t_ns: u64, count: u64) -> Heard {
    Heard::Frame(Frame {
        seq,
        t_ns,
        registers: vec![],
        events: vec![Event::Calls {
            func: FunctionId(1),
            count,
            ns: Dist::Raw { v: vec![1_000; count as usize] },
        }],
    })
}

fn feed(heard: Vec<Heard>) -> (Registry, Outcome) {
    let mut registry = Registry::new();
    let (_, outcome) = handle_connection(&mut registry, &heard, 1_700_000_001_000);
    (registry, outcome)
}

fn demo_id() -> ProcessId {
    ProcessId::of(4242, 1_700_000_000_000, "test")
}

#[test]
fn a_malformed_line_is_counted_and_skipped_without_killing_the_connection() {
    let (registry, outcome) = feed(vec![
        hello(),
        register(),
        Heard::Garbled,
        calls(1, 100_000_000, 3),
        Heard::Garbled,
        calls(2, 200_000_000, 4),
        Heard::Eof,
    ]);

    assert_eq!(outcome, Outcome::Ended { process: demo_id(), frames: 3, skipped: 2 });
    let process = registry.get(&demo_id()).expect("the process was registered");
    assert_eq!(process.counts.malformed_lines, 2);
    assert_eq!(
        process.functions[&1].calls.get(),
        7,
        "the frames on either side of the bad lines both landed"
    );
}

#[test]
fn a_schema_mismatch_is_refused_and_registers_nothing() {
    let mut bad = Hello::new("demo", "test", 4242, 1);
    bad.schema = 99;
    let (registry, outcome) = feed(vec![Heard::Hello(bad), register(), Heard::Eof]);

    assert_eq!(outcome, Outcome::SchemaMismatch { got: 99, expected: SCHEMA_VERSION });
    assert!(registry.is_empty(), "a refused stream leaves no process behind");
}

#[test]
fn a_stream_that_opens_with_a_frame_is_refused() {
    let (registry, outcome) = feed(vec![register(), Heard::Eof]);
    assert_eq!(outcome, Outcome::HandshakeNotHello);
    assert!(registry.is_empty());
}

#[test]
fn a_handshake_that_does_not_parse_is_refused() {
    let (registry, outcome) = feed(vec![Heard::Garbled, Heard::Eof]);
    assert_eq!(outcome, Outcome::HandshakeMalformed);
    assert!(registry.is_empty());
}

#[test]
fn a_client_that_never_sends_a_newline_is_cut_off_rather_than_buffered_forever() {
    let mut reader = LineReader::new();
    let chunk = vec![b'x'; 1 << 20];
    let mut line = None;
    let mut sent = 0;
    while line.is_none() && sent <= MAX_LINE_BYTES {
        let (used, read) = reader.take(&chunk);
        assert_eq!(used, chunk.len());
        sent += used;
        line = read;
    }
    assert_eq!(line, Some(LineRead::TooLong));
    assert!(sent <= MAX_LINE_BYTES + chunk.len());

    let (_, outcome) = feed(vec![hello(), Heard::TooLong]);
    assert_eq!(outcome, Outcome::LineTooLong);
}

#[test]
fn an_unknown_id_arriving_over_the_wire_is_counted_and_dropped() {
    let unknown = Heard::Frame(Frame {
        seq: 1,
        t_ns: 100_000_000,
        registers: vec![],
        events: vec![Event::Calls { func: FunctionId(77), count: 9, ns: Dist::empty() }],
    });
    let (registry, _) = feed(vec![hello(), register(), unknown, Heard::Eof]);

    let process = registry.get(&demo_id()).expect("the process was registered");
    assert_eq!(process.counts.unknown_id, 1);
    assert_eq!(process.counts.malformed_lines, 0, "an unknown id is not a malformed line");
    assert!(!process.functions.contains_key(&77));
}

#[test]
fn a_closed_stream_leaves_the_process_visible_and_ended() {
    let (registry, _) = feed(vec![hello(), register(), calls(1, 100_000_000, 5), Heard::Eof]);
    let process = registry.get(&demo_id()).expect("still listed after the stream closed");
    assert!(process.ended_unix_ms.is_some());
    assert_eq!(process.functions[&1].calls.get(), 5);
}

#[test]
fn two_streams_from_different_processes_are_kept_apart() {
    let mut registry = Registry::new();
    let other_hello = Heard::Hello(Hello::new("other", "test", 99, 1_700_000_000_001));
    let mut first = handshake(&mut registry, &hello()).expect("a good hello");
    let mut second = handshake(&mut registry, &other_hello).expect("another good hello");

    let now = 1_700_000_001_000;
    for heard in [register(), calls(1, 100_000_000, 5)] {
        assert!(first.hear(&mut registry, &heard, now).1.is_none());
    }
    for heard in [register(), calls(1, 100_000_000, 2)] {
        assert!(second.hear(&mut registry, &heard, now).1.is_none());
    }
    let (_, a) = first.hear(&mut registry, &Heard::Eof, now);
    let (_, b) = second.hear(&mut registry, &Heard::Eof, now);
    assert!(matches!(a, Some(Outcome::Ended { .. })));
    assert!(matches!(b, Some(Outcome::Ended { .. })));
    assert_eq!(registry.len(), 2);
    assert_eq!(registry.get(&demo_id()).unwrap().functions[&1].calls.get(), 5);
    assert_eq!(
        registry
            .get(&ProcessId::of(99, 1_700_000_000_001, "test"))
            .unwrap()
            .functions[&1]
            .calls
            .get(),
        2
    );
}

#[test]
fn a_stream_that_says_nothing_is_empty() {
    let (registry, outcome) = feed(vec![]);
    assert_eq!(outcome, Outcome::Empty);
    assert!(registry.is_empty());
    let (_, outcome) = feed(vec![Heard::Eof]);
    assert_eq!(outcome, Outcome::Empty);
    let (_, outcome) = feed(vec![Heard::Failed]);
    assert_eq!(outcome, Outcome::ReadFailed);
    let (_, outcome) = feed(vec![Heard::TooLong]);
    assert_eq!(outcome, Outcome::LineTooLong);
}

#[test]
fn a_read_that_fails_ends_the_process_too() {
    let (registry, outcome) = feed(vec![hello(), register(), Heard::Failed]);
    assert_eq!(outcome, Outcome::ReadFailed);
    assert!(!registry.get(&demo_id()).unwrap().is_connected());
}

#[test]
fn a_line_that_is_not_text_is_malformed() {
    assert_eq!(spell(&b"{\"app\":\"d\xc3\xa9mo\"}".to_vec(), true), Spelling::Text(
        "{\"app\":\"d\u{e9}mo\"}".to_string()
    ));
    assert_eq!(spell(&b"{\"app\":\"d\xe9mo\"}".to_vec(), true), Spelling::Garbled);
    assert_eq!(spell(&vec![0x80], false), Spelling::Garbled);
    assert_eq!(spell(&b" \t".to_vec(), false), Spelling::Blank);
    assert_eq!(spell(&b" \t".to_vec(), true), Spelling::Text(" \t".to_string()));
}

#[test]
fn a_blank_line_is_passed_over() {
    let (registry, outcome) = feed(vec![hello(), Heard::Blank, register(), Heard::Eof]);
    assert_eq!(outcome, Outcome::Ended { process: demo_id(), frames: 1, skipped: 0 });
    assert_eq!(registry.get(&demo_id()).unwrap().counts.malformed_lines, 0);
    assert!(is_blank("  \t\r"));
    assert!(is_blank(""));
    assert!(!is_blank(" x "));
}

#[test]
fn what_was_still_open_is_told_when_the_stream_ends() {
    let mut registry = Registry::new();
    let heard = vec![hello(), register(), calls(1, 100_000_000, 5), Heard::Eof];
    let (updates, _) = handle_connection(&mut registry, &heard, 77);
    assert!(matches!(&updates[0], Update::WindowClosed(window) if window.index == 1));
    assert!(matches!(updates[1], Update::ProcessEnded { ended_unix_ms: 77 }));
    assert_eq!(updates.len(), 2);
}

/// Every line of a stream that comes in chunks of `size` bytes.
fn lines(stream: &[u8], size: usize) -> Vec<LineRead> {
    let mut read = Vec::new();
    let mut rest = stream;
    let mut reader = LineReader::new();
    loop {
        reader.start();
        let line = loop {
            if rest.is_empty() {
                break reader.end();
            }
            let (used, line) = reader.take(&rest[..size.min(rest.len())]);
            rest = &rest[used..];
            if let Some(line) = line {
                break line;
            }
        };
        if line == LineRead::Eof {
            return read;
        }
        read.push(line);
    }
}

#[test]
fn a_line_reads_the_same_however_the_stream_is_cut() {
    let stream = b"first\n\nthird and longer\nlast";
    let whole = lines(stream, stream.len());
    assert_eq!(
        whole,
        vec![
            LineRead::Line(b"first".to_vec()),
            LineRead::Line(b"".to_vec()),
            LineRead::Line(b"third and longer".to_vec()),
            LineRead::Line(b"last".to_vec()),
        ]
    );
    for size in 1..stream.len() {
        assert_eq!(lines(stream, size), whole, "cut into {size}");
    }
}
