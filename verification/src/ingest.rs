//! The system boundary. Everything past this module trusts its types.
//!
//! One accepted connection is one process stream: newline-delimited JSON, one
//! [`crate::proto::Message`] per line, `Hello` first. The handshake is strict,
//! because a stream whose first line is not a hello has no process to attribute
//! anything to. After it, a bad line is counted and skipped, so one corrupted
//! frame does not cost a UI the rest of a run.
use vstd::prelude::*;

use crate::proto;
use crate::proto::{Frame, Hello};
use crate::registry;
use crate::registry::Registry;
use crate::store;
use crate::store::{ProcessId, ProcessModel, Update, UpdateModel};
use crate::text;

verus! {

/// A line longer than this is a client that will never send a newline. The
/// daemon stops reading rather than growing a buffer on its behalf.
pub const MAX_LINE_BYTES: usize = 4_194_304;

/// The byte that ends a line.
pub const NEWLINE: u8 = 10;

/// What reading one line came to.
#[derive(Debug, PartialEq, Eq)]
pub enum LineRead {
    /// The bytes of the line, without its newline.
    Line(Vec<u8>),
    Eof,
    TooLong,
}

/// What a [`LineRead`] says.
#[verifier::ext_equal]
pub enum LineModel {
    Line(Seq<u8>),
    Eof,
    TooLong,
}

impl View for LineRead {
    type V = LineModel;

    open spec fn view(&self) -> LineModel {
        match *self {
            LineRead::Line(bytes) => LineModel::Line(bytes@),
            LineRead::Eof => LineModel::Eof,
            LineRead::TooLong => LineModel::TooLong,
        }
    }
}

/// Where the first newline stands, or the end where there is none.
pub open spec fn line_end(s: Seq<u8>) -> int
    decreases s.len(),
{
    if s.len() == 0 || s[0] == NEWLINE {
        0
    } else {
        1 + line_end(s.skip(1))
    }
}

/// A line as it is handed on, once all of it is at hand.
pub open spec fn finished(line: Seq<u8>) -> LineModel {
    if line.len() > MAX_LINE_BYTES {
        LineModel::TooLong
    } else {
        LineModel::Line(line)
    }
}

/// The next line of a stream, seen whole.
pub open spec fn next_line(stream: Seq<u8>) -> LineModel {
    let line = stream.take(line_end(stream));
    if stream.len() == 0 {
        LineModel::Eof
    } else {
        finished(line)
    }
}

/// Reads one line however its bytes come in, refusing to buffer more than
/// [`MAX_LINE_BYTES`].
#[derive(Debug)]
pub struct LineReader {
    buffer: Vec<u8>,
}

impl View for LineReader {
    type V = Seq<u8>;

    closed spec fn view(&self) -> Seq<u8> {
        self.buffer@
    }
}

/// What a chunk of the stream does to a line in progress: how much of it is
/// used up, what is then buffered, and what the line came to if it ended.
pub open spec fn advance(buffer: Seq<u8>, chunk: Seq<u8>) -> (int, Seq<u8>, Option<LineModel>) {
    let end = line_end(chunk);
    let grown = buffer + chunk.take(end);
    if end < chunk.len() {
        (end + 1, grown, Some(finished(grown)))
    } else if grown.len() > MAX_LINE_BYTES {
        (end, grown, Some(LineModel::TooLong))
    } else {
        (end, grown, None)
    }
}

/// What a line in progress comes to when the stream ends.
pub open spec fn at_end(buffer: Seq<u8>) -> LineModel {
    if buffer.len() == 0 {
        LineModel::Eof
    } else {
        LineModel::Line(buffer)
    }
}

/// What a line in progress comes to, given the chunks the rest of the stream
/// arrives in.
pub open spec fn reading(buffer: Seq<u8>, chunks: Seq<Seq<u8>>) -> LineModel
    decreases chunks.len(),
{
    if chunks.len() == 0 {
        at_end(buffer)
    } else {
        let (_, grown, line) = advance(buffer, chunks[0]);
        match line {
            Some(line) => line,
            None => reading(grown, chunks.skip(1)),
        }
    }
}

pub(crate) proof fn lemma_line_end(s: Seq<u8>)
    ensures
        0 <= line_end(s) <= s.len(),
        line_end(s) < s.len() ==> s[line_end(s)] == NEWLINE,
        forall|i: int| 0 <= i < line_end(s) ==> #[trigger] s[i] != NEWLINE,
    decreases s.len(),
{
    if s.len() > 0 && s[0] != NEWLINE {
        lemma_line_end(s.skip(1));
        assert forall|i: int| 0 <= i < line_end(s) implies #[trigger] s[i] != NEWLINE by {
            if i > 0 {
                assert(s[i] == s.skip(1)[i - 1]);
            }
        }
    }
}

/// The first newline is where it is.
pub(crate) proof fn lemma_line_end_is(s: Seq<u8>, n: int)
    requires
        0 <= n <= s.len(),
        n < s.len() ==> s[n] == NEWLINE,
        forall|i: int| 0 <= i < n ==> #[trigger] s[i] != NEWLINE,
    ensures
        line_end(s) == n,
{
    lemma_line_end(s);
    if line_end(s) < n {
        assert(s[line_end(s)] != NEWLINE);
    }
}

/// A line reads the same however the stream is cut into chunks: what comes out
/// depends on the bytes alone.
pub proof fn lemma_chunking_does_not_matter(buffer: Seq<u8>, chunks: Seq<Seq<u8>>)
    requires
        buffer.len() <= MAX_LINE_BYTES,
        !buffer.contains(NEWLINE),
    ensures
        reading(buffer, chunks) == next_line(buffer + chunks.flatten()),
    decreases chunks.len(),
{
    let whole = buffer + chunks.flatten();
    if chunks.len() == 0 {
        assert(whole =~= buffer);
        assert forall|i: int| 0 <= i < buffer.len() implies #[trigger] buffer[i] != NEWLINE by {
            assert(buffer.contains(buffer[i]));
        }
        lemma_line_end_is(buffer, buffer.len() as int);
        assert(buffer.take(buffer.len() as int) =~= buffer);
    } else {
        let chunk = chunks[0];
        let rest = chunks.skip(1).flatten();
        assert(chunks.drop_first() =~= chunks.skip(1));
        assert(chunks.flatten() =~= chunk + rest);
        assert(whole =~= buffer + chunk + rest);
        lemma_line_end(chunk);
        let end = line_end(chunk);
        let grown = buffer + chunk.take(end);
        assert forall|i: int| 0 <= i < grown.len() implies #[trigger] grown[i] != NEWLINE by {
            if i < buffer.len() {
                assert(buffer.contains(buffer[i]));
            } else {
                assert(grown[i] == chunk[i - buffer.len()]);
            }
        }
        if end < chunk.len() {
            assert forall|i: int| 0 <= i < grown.len() implies #[trigger] whole[i] != NEWLINE by {
                assert(whole[i] == grown[i]);
            }
            assert(whole[grown.len() as int] == chunk[end]);
            lemma_line_end_is(whole, grown.len() as int);
            assert(whole.take(grown.len() as int) =~= grown);
        } else if grown.len() > MAX_LINE_BYTES {
            lemma_line_end(whole);
            let cut = line_end(whole);
            if cut < grown.len() {
                assert(whole[cut] == grown[cut]);
            }
        } else {
            assert(!grown.contains(NEWLINE));
            lemma_chunking_does_not_matter(grown, chunks.skip(1));
            assert(whole =~= grown + rest);
        }
    }
}

impl LineReader {
    pub fn new() -> (r: Self)
        ensures
            r@ == Seq::<u8>::empty(),
    {
        LineReader { buffer: Vec::new() }
    }

    /// Begins the next line.
    pub fn start(&mut self)
        ensures
            final(self)@ == Seq::<u8>::empty(),
    {
        self.buffer.clear();
    }

    /// Takes in what is available of the stream. Gives back how much of it was
    /// used, and the line where it ended.
    pub fn take(&mut self, available: &[u8]) -> (r: (usize, Option<LineRead>))
        requires
            old(self)@.len() <= MAX_LINE_BYTES,
        ensures
            ({
                let (used, grown, line) = advance(old(self)@, available@);
                &&& r.0 == used
                &&& final(self)@ == grown
                &&& match r.1 {
                    Some(l) => line == Some(l@),
                    None => line is None,
                }
            }),
    {
        let len: usize = available.len();
        let mut end: usize = 0;
        let ghost before = self.buffer@;
        proof {
            lemma_line_end(available@);
            assert(available@.take(0) =~= Seq::<u8>::empty());
            assert(before + available@.take(0) =~= before);
        }
        while end < len && available[end] != NEWLINE
            invariant
                len == available@.len(),
                end <= line_end(available@) <= len,
                line_end(available@) < len ==> available@[line_end(available@)] == NEWLINE,
                forall|i: int|
                    0 <= i < line_end(available@) ==> #[trigger] available@[i] != NEWLINE,
                self.buffer@ == before + available@.take(end as int),
            decreases len - end,
        {
            self.buffer.push(available[end]);
            proof {
                assert(available@.take(end + 1) =~= available@.take(end as int).push(
                    available@[end as int],
                ));
                assert(self.buffer@ =~= before + available@.take(end + 1));
            }
            end = end + 1;
        }
        proof {
            assert(end == line_end(available@));
        }
        if end < len {
            if self.buffer.len() > MAX_LINE_BYTES {
                return (end + 1, Some(LineRead::TooLong));
            }
            return (end + 1, Some(LineRead::Line(self.copy())));
        }
        if self.buffer.len() > MAX_LINE_BYTES {
            return (end, Some(LineRead::TooLong));
        }
        (end, None)
    }

    /// The stream has ended.
    pub fn end(&self) -> (r: LineRead)
        ensures
            r@ == at_end(self@),
    {
        if self.buffer.len() == 0 {
            LineRead::Eof
        } else {
            LineRead::Line(self.copy())
        }
    }

    fn copy(&self) -> (r: Vec<u8>)
        ensures
            r@ == self@,
    {
        let copy = self.buffer.clone();
        proof {
            assert(copy@ =~= self.buffer@);
        }
        copy
    }
}

/// White space, as text is trimmed of it.
pub open spec fn is_space(c: char) -> bool {
    let n = c as u32;
    ||| 0x09 <= n <= 0x0d
    ||| n == 0x20
    ||| n == 0x85
    ||| n == 0xa0
    ||| n == 0x1680
    ||| 0x2000 <= n <= 0x200a
    ||| n == 0x2028
    ||| n == 0x2029
    ||| n == 0x202f
    ||| n == 0x205f
    ||| n == 0x3000
}

/// A line with nothing on it.
pub open spec fn blank(line: Seq<char>) -> bool {
    forall|i: int| 0 <= i < line.len() ==> is_space(#[trigger] line[i])
}

pub fn is_blank(line: &str) -> (r: bool)
    ensures
        r == blank(line@),
{
    let chars = text::chars_of(line);
    for n in 0..chars.len()
        invariant
            chars@ == line@,
            forall|i: int| 0 <= i < n ==> is_space(#[trigger] chars@[i]),
    {
        let c: u32 = chars[n] as u32;
        let space = (0x09 <= c && c <= 0x0d) || c == 0x20 || c == 0x85 || c == 0xa0 || c == 0x1680
            || (0x2000 <= c && c <= 0x200a) || c == 0x2028 || c == 0x2029 || c == 0x202f || c
            == 0x205f || c == 0x3000;
        if !space {
            proof {
                assert(!is_space(chars@[n as int]));
            }
            return false;
        }
    }
    true
}

/// What the bytes of a line spell.
#[derive(Debug, PartialEq, Eq)]
pub enum Spelling {
    /// Nothing, which only counts for nothing once the stream is open.
    Blank,
    /// Bytes that are not text.
    Garbled,
    Text(String),
}

/// Reads the bytes of a line as text. A line that is not UTF-8 comes back as one
/// that will not parse, so it takes the path of any malformed line rather than
/// one of its own.
pub fn spell(line: &Vec<u8>, opening: bool) -> (r: Spelling)
    ensures
        r is Garbled <==> !vstd::utf8::valid_utf8(line@),
        r is Blank <==> vstd::utf8::valid_utf8(line@) && !opening && blank(
            vstd::utf8::decode_utf8(line@),
        ),
        r matches Spelling::Text(said) ==> said@ == vstd::utf8::decode_utf8(line@),
{
    match text::decoded(line.as_slice()) {
        Some(said) => if !opening && is_blank(said) {
            Spelling::Blank
        } else {
            Spelling::Text(said.to_owned())
        },
        None => Spelling::Garbled,
    }
}

/// Why a connection ended.
#[derive(Debug, PartialEq, Eq)]
pub enum Outcome {
    /// Closed before sending anything.
    Empty,
    /// The first line parsed, but was not a hello.
    HandshakeNotHello,
    /// The first line did not parse.
    HandshakeMalformed,
    /// The client speaks a protocol version this daemon does not.
    SchemaMismatch { got: u32, expected: u32 },
    LineTooLong,
    ReadFailed,
    /// The stream ran to its end. `frames` counts the frames accepted on this
    /// connection, `skipped` the lines that were not usable frames.
    Ended { process: ProcessId, frames: u64, skipped: u64 },
}

/// What an [`Outcome`] says.
pub enum OutcomeModel {
    Empty,
    HandshakeNotHello,
    HandshakeMalformed,
    SchemaMismatch { got: u32, expected: u32 },
    LineTooLong,
    ReadFailed,
    Ended { process: Seq<char>, frames: u64, skipped: u64 },
}

impl View for Outcome {
    type V = OutcomeModel;

    open spec fn view(&self) -> OutcomeModel {
        match *self {
            Outcome::Empty => OutcomeModel::Empty,
            Outcome::HandshakeNotHello => OutcomeModel::HandshakeNotHello,
            Outcome::HandshakeMalformed => OutcomeModel::HandshakeMalformed,
            Outcome::SchemaMismatch { got, expected } => OutcomeModel::SchemaMismatch {
                got,
                expected,
            },
            Outcome::LineTooLong => OutcomeModel::LineTooLong,
            Outcome::ReadFailed => OutcomeModel::ReadFailed,
            Outcome::Ended { process, frames, skipped } => OutcomeModel::Ended {
                process: process@,
                frames,
                skipped,
            },
        }
    }
}

/// What one read of a connection came to, once the line is decoded.
#[derive(Debug)]
pub enum Heard {
    Hello(Hello),
    Frame(Frame),
    /// A line that did not parse.
    Garbled,
    /// A line with nothing on it.
    Blank,
    Eof,
    TooLong,
    Failed,
}

/// Why a stream that opens this way is turned away, if it is.
pub open spec fn refusal(first: Heard) -> Option<OutcomeModel> {
    match first {
        Heard::Hello(hello) => if hello.schema == proto::SCHEMA_VERSION {
            None
        } else {
            Some(
                OutcomeModel::SchemaMismatch {
                    got: hello.schema,
                    expected: proto::SCHEMA_VERSION,
                },
            )
        },
        Heard::Frame(_) => Some(OutcomeModel::HandshakeNotHello),
        Heard::Garbled => Some(OutcomeModel::HandshakeMalformed),
        Heard::Blank => Some(OutcomeModel::HandshakeMalformed),
        Heard::Eof => Some(OutcomeModel::Empty),
        Heard::TooLong => Some(OutcomeModel::LineTooLong),
        Heard::Failed => Some(OutcomeModel::ReadFailed),
    }
}

/// One stream that has been let in.
#[derive(Debug)]
pub struct Stream {
    pub process: ProcessId,
    pub frames: u64,
    pub skipped: u64,
}

/// Lets a stream in, or says why not. One that is refused leaves no process
/// behind.
pub fn handshake(registry: &mut Registry, first: &Heard) -> (r: Result<Stream, Outcome>)
    requires
        registry::sound(old(registry)@),
    ensures
        registry::sound(final(registry)@),
        match r {
            Ok(stream) => *first matches Heard::Hello(hello) && refusal(*first) is None
                && registry::admitted(old(registry)@, final(registry)@, hello) && stream.process@
                == registry::announced(hello) && registry::listed(
                final(registry)@,
                stream.process@,
            ) && stream.frames == 0 && stream.skipped == 0,
            Err(outcome) => refusal(*first) == Some(outcome@) && final(registry)@ == old(
                registry,
            )@,
        },
{
    match first {
        Heard::Hello(hello) => {
            if hello.schema != proto::SCHEMA_VERSION {
                return Err(
                    Outcome::SchemaMismatch {
                        got: hello.schema,
                        expected: proto::SCHEMA_VERSION,
                    },
                );
            }
            let process = registry.connect(hello);
            Ok(Stream { process, frames: 0, skipped: 0 })
        },
        Heard::Frame(_) => Err(Outcome::HandshakeNotHello),
        Heard::Garbled => Err(Outcome::HandshakeMalformed),
        Heard::Blank => Err(Outcome::HandshakeMalformed),
        Heard::Eof => Err(Outcome::Empty),
        Heard::TooLong => Err(Outcome::LineTooLong),
        Heard::Failed => Err(Outcome::ReadFailed),
    }
}

/// What is heard puts an end to the connection.
pub open spec fn ends(h: Heard) -> bool {
    h is Eof || h is TooLong || h is Failed
}

/// The registry once a process has been heard.
pub open spec fn heeding(all: Seq<ProcessModel>, id: Seq<char>, h: Heard, now: u64) -> Seq<
    ProcessModel,
> {
    let i = registry::seat(all, id);
    match h {
        Heard::Frame(frame) => all.update(i, all[i].receiving(frame, now)),
        Heard::Hello(_) => all.update(i, all[i].noting_malformed()),
        Heard::Garbled => all.update(i, all[i].noting_malformed()),
        Heard::Blank => all,
        _ => all.update(i, all[i].parting(now)),
    }
}

/// What watchers of the process are told.
pub open spec fn telling(all: Seq<ProcessModel>, id: Seq<char>, h: Heard, now: u64) -> Seq<
    UpdateModel,
> {
    let p = all[registry::seat(all, id)];
    match h {
        Heard::Frame(frame) => match p.closing(frame.t_ns) {
            Some(w) => seq![UpdateModel::WindowClosed(w)],
            None => Seq::empty(),
        },
        Heard::Hello(_) => Seq::empty(),
        Heard::Garbled => Seq::empty(),
        Heard::Blank => Seq::empty(),
        _ => p.farewell(now),
    }
}

/// Frames accepted so far, with what is heard counted in.
pub open spec fn frames_after(frames: u64, h: Heard) -> u64 {
    if h is Frame {
        crate::quantity::capped(frames, 1)
    } else {
        frames
    }
}

/// Lines skipped so far, with what is heard counted in.
pub open spec fn skipped_after(skipped: u64, h: Heard) -> u64 {
    if h is Hello || h is Garbled {
        crate::quantity::capped(skipped, 1)
    } else {
        skipped
    }
}

/// How the connection ended, if it did.
pub open spec fn ending(id: Seq<char>, frames: u64, skipped: u64, h: Heard) -> Option<OutcomeModel> {
    match h {
        Heard::Eof => Some(OutcomeModel::Ended { process: id, frames, skipped }),
        Heard::TooLong => Some(OutcomeModel::LineTooLong),
        Heard::Failed => Some(OutcomeModel::ReadFailed),
        _ => None,
    }
}

/// Changing one process, but not its name, keeps the registry sound.
proof fn lemma_a_changed_process_stays_seated(
    all: Seq<ProcessModel>,
    id: Seq<char>,
    p: ProcessModel,
)
    requires
        registry::sound(all),
        registry::listed(all, id),
        p.id == id,
        p.wf(),
    ensures
        registry::sound(all.update(registry::seat(all, id), p)),
        registry::listed(all.update(registry::seat(all, id), p), id),
{
    let i = registry::seat(all, id);
    let after = all.update(i, p);
    assert(registry::goes_by(all, i, id));
    assert forall|a: int, b: int| 0 <= a < b < after.len() implies text::precedes(
        (#[trigger] after[a]).id,
        (#[trigger] after[b]).id,
    ) by {
        assert(text::precedes(all[a].id, all[b].id));
    }
    assert(registry::goes_by(after, i, id));
}

impl Stream {
    /// Heeds what was heard next. Gives back what watchers of the process are
    /// told, and how the connection ended if it did.
    pub fn hear(&mut self, registry: &mut Registry, heard: &Heard, now_unix_ms: u64) -> (r: (
        Vec<Update>,
        Option<Outcome>,
    ))
        requires
            registry::sound(old(registry)@),
            registry::listed(old(registry)@, old(self).process@),
        ensures
            registry::sound(final(registry)@),
            registry::listed(final(registry)@, old(self).process@),
            final(self).process@ == old(self).process@,
            final(self).frames == frames_after(old(self).frames, *heard),
            final(self).skipped == skipped_after(old(self).skipped, *heard),
            final(registry)@ == heeding(
                old(registry)@,
                old(self).process@,
                *heard,
                now_unix_ms,
            ),
            store::saying(r.0@) == telling(
                old(registry)@,
                old(self).process@,
                *heard,
                now_unix_ms,
            ),
            match r.1 {
                Some(outcome) => ending(
                    old(self).process@,
                    old(self).frames,
                    old(self).skipped,
                    *heard,
                ) == Some(outcome@),
                None => !ends(*heard),
            },
    {
        let ghost all = registry@;
        let ghost id = self.process@;
        let ghost i = registry::seat(all, id);
        let ghost p = all[i];
        let mut told: Vec<Update> = Vec::new();
        proof {
            assert(registry::goes_by(all, i, id));
            assert(store::saying(told@) =~= Seq::<UpdateModel>::empty());
            assert forall|k: int| registry::goes_by(all, k, id) implies k == i by {
                registry::lemma_an_id_names_one_process(all, k, i, id);
            }
        }
        match heard {
            Heard::Frame(frame) => {
                self.frames = self.frames.saturating_add(1);
                if let Some(process) = registry.get_mut(&self.process) {
                    if let Some(update) = process.apply_frame_at(frame, now_unix_ms) {
                        told.push(update);
                        proof {
                            assert(store::saying(told@) =~= seq![update@]);
                        }
                    }
                }
                proof {
                    store::lemma_receiving_keeps_the_identity(p, *frame, now_unix_ms);
                    store::lemma_receiving_keeps_the_process_sound(p, *frame, now_unix_ms);
                    lemma_a_changed_process_stays_seated(
                        all,
                        id,
                        p.receiving(*frame, now_unix_ms),
                    );
                }
                (told, None)
            },
            Heard::Hello(_) => {
                self.skip(registry);
                (told, None)
            },
            Heard::Garbled => {
                self.skip(registry);
                (told, None)
            },
            Heard::Blank => (told, None),
            Heard::Eof => {
                let updates = registry.disconnect_at(&self.process, now_unix_ms);
                proof {
                    lemma_a_changed_process_stays_seated(all, id, p.parting(now_unix_ms));
                }
                (
                    updates,
                    Some(
                        Outcome::Ended {
                            process: self.process.clone(),
                            frames: self.frames,
                            skipped: self.skipped,
                        },
                    ),
                )
            },
            Heard::TooLong => {
                let updates = registry.disconnect_at(&self.process, now_unix_ms);
                proof {
                    lemma_a_changed_process_stays_seated(all, id, p.parting(now_unix_ms));
                }
                (updates, Some(Outcome::LineTooLong))
            },
            Heard::Failed => {
                let updates = registry.disconnect_at(&self.process, now_unix_ms);
                proof {
                    lemma_a_changed_process_stays_seated(all, id, p.parting(now_unix_ms));
                }
                (updates, Some(Outcome::ReadFailed))
            },
        }
    }

    /// Counts a line that is no usable frame.
    fn skip(&mut self, registry: &mut Registry)
        requires
            registry::sound(old(registry)@),
            registry::listed(old(registry)@, old(self).process@),
        ensures
            registry::sound(final(registry)@),
            registry::listed(final(registry)@, old(self).process@),
            final(self).process@ == old(self).process@,
            final(self).frames == old(self).frames,
            final(self).skipped == crate::quantity::capped(old(self).skipped, 1),
            final(registry)@ == heeding(old(registry)@, old(self).process@, Heard::Garbled, 0),
    {
        let ghost all = registry@;
        let ghost id = self.process@;
        let ghost i = registry::seat(all, id);
        proof {
            assert(registry::goes_by(all, i, id));
            assert forall|k: int| registry::goes_by(all, k, id) implies k == i by {
                registry::lemma_an_id_names_one_process(all, k, i, id);
            }
            lemma_a_changed_process_stays_seated(all, id, all[i].noting_malformed());
        }
        self.skipped = self.skipped.saturating_add(1);
        if let Some(process) = registry.get_mut(&self.process) {
            process.note_malformed_line();
        }
    }
}

/// The registry, the outcome and what watchers were told, once a stream that
/// was let in has been heard out. A stream that says nothing further has ended.
#[verifier::opaque]
pub open spec fn conversation(
    all: Seq<ProcessModel>,
    id: Seq<char>,
    frames: u64,
    skipped: u64,
    heard: Seq<Heard>,
    now: u64,
) -> (Seq<ProcessModel>, OutcomeModel, Seq<UpdateModel>)
    decreases heard.len(),
{
    let h = if heard.len() == 0 {
        Heard::Eof
    } else {
        heard[0]
    };
    let after = heeding(all, id, h, now);
    let told = telling(all, id, h, now);
    match ending(id, frames, skipped, h) {
        Some(outcome) => (after, outcome, told),
        None => {
            let (last, outcome, later) = conversation(
                after,
                id,
                frames_after(frames, h),
                skipped_after(skipped, h),
                heard.skip(1),
                now,
            );
            (last, outcome, told + later)
        },
    }
}

/// A conversation that does not end with its first line goes on with the rest.
proof fn lemma_conversation_goes_on(
    all: Seq<ProcessModel>,
    id: Seq<char>,
    frames: u64,
    skipped: u64,
    heard: Seq<Heard>,
    now: u64,
)
    requires
        heard.len() > 0,
        !ends(heard[0]),
    ensures
        ({
            let left = conversation(
                heeding(all, id, heard[0], now),
                id,
                frames_after(frames, heard[0]),
                skipped_after(skipped, heard[0]),
                heard.skip(1),
                now,
            );
            conversation(all, id, frames, skipped, heard, now) == (
                left.0,
                left.1,
                telling(all, id, heard[0], now) + left.2,
            )
        }),
{
    reveal(conversation);
}

/// A conversation ends where its first line ends it.
proof fn lemma_conversation_ends(
    all: Seq<ProcessModel>,
    id: Seq<char>,
    frames: u64,
    skipped: u64,
    heard: Seq<Heard>,
    now: u64,
)
    requires
        heard.len() > 0 ==> ends(heard[0]),
    ensures
        ({
            let h = if heard.len() == 0 {
                Heard::Eof
            } else {
                heard[0]
            };
            conversation(all, id, frames, skipped, heard, now) == (
                heeding(all, id, h, now),
                ending(id, frames, skipped, h).unwrap(),
                telling(all, id, h, now),
            )
        }),
{
    reveal(conversation);
}

impl Stream {
    /// Hears the rest of a connection out.
    fn hear_out(&mut self, registry: &mut Registry, heard: &Vec<Heard>, now_unix_ms: u64) -> (r: (
        Vec<Update>,
        Outcome,
    ))
        requires
            registry::sound(old(registry)@),
            registry::listed(old(registry)@, old(self).process@),
            heard@.len() > 0,
        ensures
            registry::sound(final(registry)@),
            (final(registry)@, r.1@, store::saying(r.0@)) == conversation(
                old(registry)@,
                old(self).process@,
                old(self).frames,
                old(self).skipped,
                heard@.skip(1),
                now_unix_ms,
            ),
    {
        let mut told: Vec<Update> = Vec::new();
        let ghost id = self.process@;
        let ghost rest = heard@.skip(1);
        let ghost whole = conversation(
            registry@,
            id,
            self.frames,
            self.skipped,
            rest,
            now_unix_ms,
        );
        let mut n: usize = 1;
        proof {
            assert(rest.skip(0) =~= rest);
            assert(store::saying(told@) + whole.2 =~= whole.2);
        }
        while n < heard.len()
            invariant
                1 <= n <= heard@.len(),
                registry::sound(registry@),
                registry::listed(registry@, id),
                self.process@ == id,
                rest == heard@.skip(1),
                whole == conversation(
                    old(registry)@,
                    old(self).process@,
                    old(self).frames,
                    old(self).skipped,
                    rest,
                    now_unix_ms,
                ),
                ({
                    let left = conversation(
                        registry@,
                        id,
                        self.frames,
                        self.skipped,
                        rest.skip(n - 1),
                        now_unix_ms,
                    );
                    whole == (left.0, left.1, store::saying(told@) + left.2)
                }),
            ensures
                n == heard@.len(),
            decreases heard@.len() - n,
        {
            let ghost before = store::saying(told@);
            let ghost (all, frames, skipped) = (registry@, self.frames, self.skipped);
            let ghost ahead = rest.skip(n - 1);
            proof {
                assert(ahead[0] == heard@[n as int]);
                assert(ahead.skip(1) =~= rest.skip(n as int));
            }
            let (mut updates, outcome) = self.hear(registry, &heard[n], now_unix_ms);
            let ghost news = store::saying(updates@);
            told.append(&mut updates);
            proof {
                assert(store::saying(told@) =~= before + news);
            }
            if let Some(outcome) = outcome {
                proof {
                    lemma_conversation_ends(all, id, frames, skipped, ahead, now_unix_ms);
                }
                return (told, outcome);
            }
            proof {
                lemma_conversation_goes_on(all, id, frames, skipped, ahead, now_unix_ms);
                let left = conversation(
                    registry@,
                    id,
                    self.frames,
                    self.skipped,
                    rest.skip(n as int),
                    now_unix_ms,
                );
                assert((before + news) + left.2 =~= before + (news + left.2));
            }
            n = n + 1;
        }
        let ghost before = store::saying(told@);
        proof {
            lemma_conversation_ends(
                registry@,
                id,
                self.frames,
                self.skipped,
                rest.skip(n - 1),
                now_unix_ms,
            );
        }
        let (mut updates, outcome) = self.hear(registry, &Heard::Eof, now_unix_ms);
        let ghost news = store::saying(updates@);
        told.append(&mut updates);
        proof {
            assert(store::saying(told@) =~= before + news);
        }
        match outcome {
            Some(outcome) => (told, outcome),
            None => (told, Outcome::Empty),
        }
    }
}

/// The stream was let in, and then heard out.
pub open spec fn heard_out(
    before: Seq<ProcessModel>,
    hello: Hello,
    heard: Seq<Heard>,
    now: u64,
    end: (Seq<ProcessModel>, OutcomeModel, Seq<UpdateModel>),
) -> bool {
    exists|admitted: Seq<ProcessModel>| #[trigger]
        registry::admitted(before, admitted, hello) && end == conversation(
            admitted,
            registry::announced(hello),
            0,
            0,
            heard,
            now,
        )
}

/// Hears a whole connection out: the handshake, then every line until it ends.
/// What was not heard after the end makes no difference.
pub fn handle_connection(registry: &mut Registry, heard: &Vec<Heard>, now_unix_ms: u64) -> (r: (
    Vec<Update>,
    Outcome,
))
    requires
        registry::sound(old(registry)@),
    ensures
        registry::sound(final(registry)@),
        ({
            let first = if heard@.len() == 0 {
                Heard::Eof
            } else {
                heard@[0]
            };
            match refusal(first) {
                Some(outcome) => r.1@ == outcome && final(registry)@ == old(registry)@
                    && r.0@.len() == 0,
                None => first matches Heard::Hello(hello) && heard_out(
                    old(registry)@,
                    hello,
                    heard@.skip(1),
                    now_unix_ms,
                    (final(registry)@, r.1@, store::saying(r.0@)),
                ),
            }
        }),
{
    if heard.len() == 0 {
        return (Vec::new(), Outcome::Empty);
    }
    match handshake(registry, &heard[0]) {
        Ok(admitted) => {
            let mut stream = admitted;
            let ghost all = registry@;
            let r = stream.hear_out(registry, heard, now_unix_ms);
            proof {
                let hello = heard@[0]->Hello_0;
                assert(registry::admitted(old(registry)@, all, hello));
                assert(heard_out(
                    old(registry)@,
                    hello,
                    heard@.skip(1),
                    now_unix_ms,
                    (registry@, r.1@, store::saying(r.0@)),
                ));
            }
            r
        },
        Err(outcome) => (Vec::new(), outcome),
    }
}

/// Frames among what is heard.
pub open spec fn frames_in(heard: Seq<Heard>) -> nat
    decreases heard.len(),
{
    if heard.len() == 0 {
        0
    } else {
        frames_in(heard.skip(1)) + if heard[0] is Frame {
            1nat
        } else {
            0
        }
    }
}

/// Lines among what is heard that are not usable frames.
pub open spec fn skips_in(heard: Seq<Heard>) -> nat
    decreases heard.len(),
{
    if heard.len() == 0 {
        0
    } else {
        skips_in(heard.skip(1)) + if heard[0] is Hello || heard[0] is Garbled {
            1nat
        } else {
            0
        }
    }
}

/// A bad line does not cost the rest of a run: a stream that runs to its end
/// reports every frame on either side of the lines it skipped.
pub proof fn lemma_bad_lines_do_not_end_a_stream(
    all: Seq<ProcessModel>,
    id: Seq<char>,
    frames: u64,
    skipped: u64,
    heard: Seq<Heard>,
    now: u64,
)
    requires
        forall|i: int| 0 <= i < heard.len() ==> !ends(#[trigger] heard[i]),
        frames + frames_in(heard) <= u64::MAX,
        skipped + skips_in(heard) <= u64::MAX,
    ensures
        conversation(all, id, frames, skipped, heard, now).1 == (OutcomeModel::Ended {
            process: id,
            frames: (frames + frames_in(heard)) as u64,
            skipped: (skipped + skips_in(heard)) as u64,
        }),
    decreases heard.len(),
{
    reveal(conversation);
    if heard.len() > 0 {
        let h = heard[0];
        assert(!ends(h));
        assert forall|i: int| 0 <= i < heard.skip(1).len() implies !ends(
            #[trigger] heard.skip(1)[i],
        ) by {
            assert(heard.skip(1)[i] == heard[i + 1]);
        }
        lemma_bad_lines_do_not_end_a_stream(
            heeding(all, id, h, now),
            id,
            frames_after(frames, h),
            skipped_after(skipped, h),
            heard.skip(1),
            now,
        );
    }
}

/// Two streams are kept apart: hearing one changes no other process.
pub proof fn lemma_hearing_leaves_the_others(
    all: Seq<ProcessModel>,
    id: Seq<char>,
    h: Heard,
    now: u64,
    j: int,
)
    requires
        registry::listed(all, id),
        0 <= j < all.len(),
        all[j].id != id,
    ensures
        heeding(all, id, h, now)[j] == all[j],
        heeding(all, id, h, now).len() == all.len(),
{
    assert(registry::goes_by(all, registry::seat(all, id), id));
}

} // verus!
