//! What the daemon and its tools answer, told from what they were asked.
use vstd::prelude::*;
use vstd::string::*;

use crate::api::Resolution;
use crate::ingest;
use crate::ingest::{Heard, LineModel, OutcomeModel};
use crate::measure;
use crate::measure::{ItemShape, MeasureMeta, Member, Refusal, StructShape, TrackPlan};
use crate::registry;
use crate::server;
use crate::socket;
use crate::sorting;
use crate::source;
use crate::source::PollModel;
use crate::store::{Counts, ProcessModel, UpdateModel};
use crate::session::MemberModel;
use crate::text;

verus! {

/// Only a hello of the protocol's own version opens a stream. Anything else is
/// turned away, and told for what.
pub proof fn lemma_who_is_let_in(first: Heard)
    ensures
        ingest::refusal(first) is None <==> first is Hello && first->Hello_0.schema == 2,
        first is Hello && first->Hello_0.schema != 2 ==> ingest::refusal(first) == Some(
            OutcomeModel::SchemaMismatch { got: first->Hello_0.schema, expected: 2 },
        ),
        first is Frame ==> ingest::refusal(first) == Some(OutcomeModel::HandshakeNotHello),
        first is Garbled || first is Blank ==> ingest::refusal(first) == Some(
            OutcomeModel::HandshakeMalformed,
        ),
        first is Eof ==> ingest::refusal(first) == Some(OutcomeModel::Empty),
        first is TooLong ==> ingest::refusal(first) == Some(OutcomeModel::LineTooLong),
        first is Failed ==> ingest::refusal(first) == Some(OutcomeModel::ReadFailed),
{
}

/// What is heard on a stream reaches the process it is of, and no other. A frame
/// is received; a line that is no frame is counted as malformed and changes
/// nothing else; a blank one changes nothing; the end of a stream closes one
/// connection.
pub proof fn lemma_what_is_heard_reaches_its_process(
    all: Seq<ProcessModel>,
    id: Seq<char>,
    h: Heard,
    now: u64,
    i: int,
)
    requires
        registry::sound(all),
        0 <= i < all.len(),
    ensures
        registry::listed(all, id) ==> ingest::heeding(all, id, h, now).len() == all.len(),
        registry::listed(all, id) && all[i].id != id ==> ingest::heeding(all, id, h, now)[i]
            == all[i],
        all[i].id == id ==> {
            let after = ingest::heeding(all, id, h, now)[i];
            let told = ingest::telling(all, id, h, now);
            match h {
                Heard::Frame(frame) => {
                    &&& after == all[i].receiving(frame, now)
                    &&& all[i].closing(frame.t_ns) is None ==> told.len() == 0
                    &&& all[i].closing(frame.t_ns) matches Some(w) ==> told == seq![
                        UpdateModel::WindowClosed(w),
                    ]
                },
                Heard::Blank => after == all[i] && told.len() == 0,
                Heard::Hello(_) | Heard::Garbled => {
                    &&& told.len() == 0
                    &&& after == (ProcessModel {
                        counts: Counts {
                            malformed_lines: after.counts.malformed_lines,
                            ..all[i].counts
                        },
                        ..all[i]
                    })
                    &&& all[i].counts.malformed_lines < u64::MAX ==> after.counts.malformed_lines
                        == all[i].counts.malformed_lines + 1
                },
                _ => after == all[i].parting(now) && told == all[i].farewell(now),
            }
        },
{
    if all[i].id == id {
        assert(registry::goes_by(all, i, id));
    }
    if registry::listed(all, id) {
        let k = registry::seat(all, id);
        assert(registry::goes_by(all, k, id));
        if all[i].id == id {
            registry::lemma_an_id_names_one_process(all, i, k, id);
        }
    }
}

/// A stream counts the frames it accepted and the lines it skipped, and ends at
/// the end of the line, at a line too long and at a failed read, and nowhere
/// else.
pub proof fn lemma_a_stream_counts_and_ends(
    id: Seq<char>,
    frames: u64,
    skipped: u64,
    h: Heard,
)
    ensures
        frames < u64::MAX ==> ingest::frames_after(frames, h) == frames + if h is Frame {
            1int
        } else {
            0
        },
        skipped < u64::MAX ==> ingest::skipped_after(skipped, h) == skipped + if h is Hello
            || h is Garbled {
            1int
        } else {
            0
        },
        ingest::ending(id, frames, skipped, h) is Some <==> h is Eof || h is TooLong || h is Failed,
        h is Eof ==> ingest::ending(id, frames, skipped, h) == Some(
            OutcomeModel::Ended { process: id, frames, skipped },
        ),
        h is TooLong ==> ingest::ending(id, frames, skipped, h) == Some(OutcomeModel::LineTooLong),
        h is Failed ==> ingest::ending(id, frames, skipped, h) == Some(OutcomeModel::ReadFailed),
        ingest::ends(h) <==> h is Eof || h is TooLong || h is Failed,
{
}

/// A process once it has been told everything on a stream, up to its end.
pub open spec fn listened(p: ProcessModel, heard: Seq<Heard>, now: u64) -> ProcessModel
    decreases heard.len(),
{
    if heard.len() == 0 {
        p
    } else {
        let next = match heard[0] {
            Heard::Frame(frame) => p.receiving(frame, now),
            Heard::Hello(_) | Heard::Garbled => ProcessModel {
                counts: Counts {
                    malformed_lines: if p.counts.malformed_lines < u64::MAX {
                        (p.counts.malformed_lines + 1) as u64
                    } else {
                        u64::MAX
                    },
                    ..p.counts
                },
                ..p
            },
            _ => p,
        };
        listened(next, heard.skip(1), now)
    }
}

/// A conversation reaches the end of the stream in order: the process it is of
/// has heard every line and then lost a connection, and no other has changed.
pub proof fn lemma_a_conversation_is_heard_in_order(
    all: Seq<ProcessModel>,
    id: Seq<char>,
    frames: u64,
    skipped: u64,
    heard: Seq<Heard>,
    now: u64,
    i: int,
)
    requires
        registry::sound(all),
        registry::listed(all, id),
        0 <= i < all.len(),
        forall|n: int|
            0 <= n < heard.len() ==> !(#[trigger] heard[n] is Eof || heard[n] is TooLong
                || heard[n] is Failed),
    ensures
        ({
            let after = ingest::conversation(all, id, frames, skipped, heard, now).0;
            &&& after.len() == all.len()
            &&& all[i].id != id ==> after[i] == all[i]
            &&& all[i].id == id ==> after[i] == listened(all[i], heard, now).parting(now)
        }),
    decreases heard.len(),
{
    reveal(ingest::conversation);
    let h = if heard.len() == 0 {
        Heard::Eof
    } else {
        heard[0]
    };
    lemma_what_is_heard_reaches_its_process(all, id, h, now, i);
    if heard.len() > 0 {
        assert(!(heard[0] is Eof || heard[0] is TooLong || heard[0] is Failed));
        let next = ingest::heeding(all, id, h, now);
        let k = registry::seat(all, id);
        assert(registry::goes_by(all, k, id));
        lemma_what_is_heard_reaches_its_process(all, id, h, now, k);
        assert(next[k].id == id && next[k].wf()) by {
            if let Heard::Frame(frame) = h {
                crate::store::lemma_receiving_keeps_the_process_sound(all[k], frame, now);
                crate::store::lemma_receiving_keeps_the_identity(all[k], frame, now);
            }
        }
        assert(registry::goes_by(next, k, id));
        assert forall|a: int| 0 <= a < next.len() implies (#[trigger] next[a]).wf() && next[a].id
            == all[a].id by {
            lemma_what_is_heard_reaches_its_process(all, id, h, now, a);
            if a != k {
                if all[a].id == id {
                    assert(registry::goes_by(all, a, id));
                    registry::lemma_an_id_names_one_process(all, a, k, id);
                }
            }
        }
        assert(registry::sound(next)) by {
            assert forall|a: int, b: int| 0 <= a < b < next.len() implies text::precedes(
                (#[trigger] next[a]).id,
                (#[trigger] next[b]).id,
            ) by {
                assert(text::precedes(all[a].id, all[b].id));
            }
        }
        let rest = heard.skip(1);
        assert forall|n: int| 0 <= n < rest.len() implies !(#[trigger] rest[n] is Eof
            || rest[n] is TooLong || rest[n] is Failed) by {
            assert(rest[n] == heard[n + 1]);
        }
        lemma_a_conversation_is_heard_in_order(
            next,
            id,
            ingest::frames_after(frames, h),
            ingest::skipped_after(skipped, h),
            rest,
            now,
            i,
        );
        if all[i].id == id {
            assert(next[i] == listened(all[i], heard.take(1), now)) by {
                assert(heard.take(1)[0] == heard[0]);
                assert(heard.take(1).skip(1) =~= Seq::<Heard>::empty());
                assert(listened(next[i], Seq::<Heard>::empty(), now) == next[i]);
            }
        }
    }
}

/// A line is what stands before the first newline, or all there is where there
/// is none, up to four mebibytes of it.
pub proof fn lemma_a_line_ends_at_the_first_newline(stream: Seq<u8>)
    ensures
        match ingest::next_line(stream) {
            LineModel::Eof => stream.len() == 0,
            LineModel::Line(line) => {
                &&& stream.len() > 0
                &&& line.len() <= 4_194_304
                &&& line == stream.take(line.len() as int)
                &&& forall|i: int| 0 <= i < line.len() ==> #[trigger] line[i] != 10
                &&& line.len() == stream.len() || stream[line.len() as int] == 10
            },
            LineModel::TooLong => stream.len() > 4_194_304 && forall|i: int|
                0 <= i <= 4_194_304 ==> #[trigger] stream[i] != 10,
        },
{
    ingest::lemma_line_end(stream);
    let line = stream.take(ingest::line_end(stream));
    assert forall|i: int| 0 <= i < line.len() implies #[trigger] line[i] != 10 by {
        assert(line[i] == stream[i]);
    }
    assert(line =~= stream.take(line.len() as int));
}

/// A chunk is used up to its first newline and that newline with it, or whole
/// where it has none; what was used of it, without the newline, is what the line
/// grows by; and the line is done at the newline, or as soon as it is too long.
pub proof fn lemma_a_chunk_is_used_up_to_its_newline(buffer: Seq<u8>, chunk: Seq<u8>, n: int)
    requires
        0 <= n <= chunk.len(),
        forall|i: int| 0 <= i < n ==> #[trigger] chunk[i] != 10,
        n < chunk.len() ==> chunk[n] == 10,
    ensures
        ({
            let (used, grown, line) = ingest::advance(buffer, chunk);
            &&& grown == buffer + chunk.take(n)
            &&& n < chunk.len() ==> used == n + 1 && line is Some
            &&& n == chunk.len() ==> used == n && (line is Some <==> grown.len() > 4_194_304)
            &&& line is Some ==> line == Some(
                if grown.len() > 4_194_304 {
                    LineModel::TooLong
                } else {
                    LineModel::Line(grown)
                },
            )
        }),
{
    ingest::lemma_line_end_is(chunk, n);
}

/// What is left at the end of a stream is its last line, unless nothing is.
pub proof fn lemma_what_is_left_is_the_last_line(buffer: Seq<u8>)
    ensures
        buffer.len() == 0 ==> ingest::at_end(buffer) == LineModel::Eof,
        buffer.len() > 0 ==> ingest::at_end(buffer) == LineModel::Line(buffer),
{
}

/// What counts as nothing on a line.
pub proof fn lemma_what_is_white_space(c: char)
    ensures
        ingest::is_space(c) <==> c == ' ' || c == '\t' || c == '\n' || c == '\r' || c as u32 == 11
            || c as u32 == 12 || c as u32 == 133 || c as u32 == 160 || c as u32 == 5760 || (8192
            <= c as u32 <= 8202) || c as u32 == 8232 || c as u32 == 8233 || c as u32 == 8239
            || c as u32 == 8287 || c as u32 == 12288,
{
}

/// Processes are listed newest first, and by id between two that started
/// together.
pub proof fn lemma_processes_are_listed_newest_first(all: Seq<ProcessModel>, i: int, j: int)
    requires
        0 <= i < j < server::listing(all).len(),
    ensures
        server::listing(all)[i].started_unix_ms >= server::listing(all)[j].started_unix_ms,
        server::listing(all)[i].started_unix_ms == server::listing(all)[j].started_unix_ms
            ==> server::listing(all)[i].id == server::listing(all)[j].id || text::precedes(
            server::listing(all)[i].id,
            server::listing(all)[j].id,
        ),
        server::listing(all).to_multiset() == all.to_multiset(),
{
    server::lemma_the_newest_process_is_listed_first(all);
    let list = server::listing(all);
    assert((|a: ProcessModel, b: ProcessModel| server::newer_process(a, b))(list[i], list[j]));
}

/// A client that names no resolution gets the fine one, one that names it gets
/// what it names, and one that names another is turned away. Without a limit
/// everything is shown.
pub proof fn lemma_what_a_client_asks_for(resolution: Option<Seq<char>>, limit: Option<usize>)
    ensures
        ({
            let view = server::asked(resolution, limit);
            &&& view is None <==> resolution is Some && resolution.unwrap() != "fine"@
                && resolution.unwrap() != "coarse"@
            &&& view is Some ==> {
                &&& view.unwrap().limit == if limit is Some {
                    limit.unwrap()
                } else {
                    usize::MAX
                }
                &&& resolution is None || resolution.unwrap() == "fine"@
                    ==> view.unwrap().resolution == Resolution::Fine
                &&& resolution is Some && resolution.unwrap() == "coarse"@
                    ==> view.unwrap().resolution == Resolution::Coarse
            }
        }),
{
    reveal_strlit("fine");
    reveal_strlit("coarse");
    assert("fine"@ != "coarse"@) by {
        assert("fine"@.len() == 4 && "coarse"@.len() == 6);
    }
}

/// Half a session is carried where it has an entry whose process is known, and
/// then that process is.
pub proof fn lemma_a_feed_is_that_of_its_entry(all: Seq<ProcessModel>, m: Option<MemberModel>)
    ensures
        server::subscribed(all, m) is Some <==> m is Some && exists|i: int|
            0 <= i < all.len() && (#[trigger] all[i]).id == m.unwrap().process_id,
        server::subscribed(all, m) is Some ==> server::subscribed(all, m).unwrap()
            == m.unwrap().process_id,
{
    if let Some(m) = m {
        if exists|i: int| 0 <= i < all.len() && (#[trigger] all[i]).id == m.process_id {
            let i = choose|i: int| 0 <= i < all.len() && (#[trigger] all[i]).id == m.process_id;
            assert(registry::goes_by(all, i, m.process_id));
        }
        if registry::listed(all, m.process_id) {
            let i = choose|i: int| registry::goes_by(all, i, m.process_id);
            assert(all[i].id == m.process_id);
        }
    }
}

/// What is left of a text without the characters it begins with: the text is so
/// many of them and then the rest, and the rest does not begin with one.
pub proof fn lemma_leading_characters_go(s: Seq<char>, c: char)
    ensures
        ({
            let rest = text::without_leading(s, c);
            &&& rest.len() <= s.len()
            &&& rest == s.skip(s.len() - rest.len())
            &&& forall|i: int| 0 <= i < s.len() - rest.len() ==> #[trigger] s[i] == c
            &&& rest.len() > 0 ==> rest[0] != c
        }),
    decreases s.len(),
{
    if s.len() > 0 && s[0] == c {
        let tail = s.skip(1);
        lemma_leading_characters_go(tail, c);
        let rest = text::without_leading(tail, c);
        assert(rest =~= s.skip(s.len() - rest.len()));
        assert forall|i: int| 0 <= i < s.len() - rest.len() implies #[trigger] s[i] == c by {
            if i > 0 {
                assert(tail[i - 1] == s[i]);
            }
        }
    } else {
        assert(s.skip(0) =~= s);
    }
}

/// A request names the file its path does below the root, and the entry page
/// where it names none.
pub proof fn lemma_a_request_names_a_file(requested: Seq<char>)
    ensures
        (forall|i: int| 0 <= i < requested.len() ==> #[trigger] requested[i] == '/')
            ==> server::bundle_file(requested) == "index.html"@,
        !(forall|i: int| 0 <= i < requested.len() ==> #[trigger] requested[i] == '/') ==> exists|k: int|
            0 <= k < requested.len() && server::bundle_file(requested) == #[trigger] requested.skip(
                k,
            ) && requested[k] != '/' && forall|i: int|
                0 <= i < k ==> #[trigger] requested[i] == '/',
{
    lemma_leading_characters_go(requested, '/');
    let rest = text::without_leading(requested, '/');
    let k = requested.len() - rest.len();
    if rest.len() > 0 {
        assert(rest[0] == requested[k]);
        assert(server::bundle_file(requested) == requested.skip(k));
    }
}

/// What follows the last of a character: nothing in it is the character, and the
/// text ends in it, right after the character where there is one.
pub proof fn lemma_what_follows_the_last(s: Seq<char>, c: char)
    ensures
        ({
            let tail = text::after_last(s, c);
            let cut = s.len() - tail.len();
            &&& 0 <= cut
            &&& tail == s.skip(cut)
            &&& forall|i: int| 0 <= i < tail.len() ==> #[trigger] tail[i] != c
            &&& cut > 0 ==> s[cut - 1] == c
        }),
{
    lemma_last_place_is_last(s, c);
    match text::last_place(s, c) {
        Some(i) => {
            let tail = s.skip(i + 1);
            assert(tail =~= s.skip(s.len() - tail.len()));
            assert forall|k: int| 0 <= k < tail.len() implies #[trigger] tail[k] != c by {
                assert(tail[k] == s[i + 1 + k]);
            }
        },
        None => {
            assert(s.skip(0) =~= s);
        },
    }
}

proof fn lemma_last_place_is_last(s: Seq<char>, c: char)
    ensures
        match text::last_place(s, c) {
            Some(i) => 0 <= i < s.len() && s[i] == c && forall|k: int|
                i < k < s.len() ==> #[trigger] s[k] != c,
            None => forall|k: int| 0 <= k < s.len() ==> #[trigger] s[k] != c,
        },
    decreases s.len(),
{
    if s.len() > 0 && s.last() != c {
        let front = s.drop_last();
        lemma_last_place_is_last(front, c);
        match text::last_place(front, c) {
            Some(i) => {
                assert forall|k: int| i < k < s.len() implies #[trigger] s[k] != c by {
                    if k < front.len() {
                        assert(front[k] == s[k]);
                    }
                }
            },
            None => {
                assert forall|k: int| 0 <= k < s.len() implies #[trigger] s[k] != c by {
                    if k < front.len() {
                        assert(front[k] == s[k]);
                    }
                }
            },
        }
    }
}

/// A file name is of a socket where it ends in `.sock` and has something before
/// that.
pub proof fn lemma_which_names_are_sockets(name: Seq<char>)
    ensures
        socket::names_a_socket(name) <==> name.len() > 5 && name.skip(name.len() - 5)
            == ".sock"@,
{
    lemma_last_place_is_last(name, '.');
    reveal_strlit("sock");
    reveal_strlit(".sock");
    assert(".sock"@ =~= seq!['.'] + "sock"@);
    if let Some(i) = text::last_place(name, '.') {
        if name.skip(i + 1) == "sock"@ {
            assert(name.skip(i + 1).len() == name.len() - i - 1);
            assert(i == name.len() - 5);
            assert(name.skip(i) =~= seq!['.'] + name.skip(i + 1));
        }
    }
    if name.len() > 5 && name.skip(name.len() - 5) == ".sock"@ {
        let cut = name.len() - 5;
        let tail = name.skip(cut);
        assert(name[cut] == tail[0]);
        assert forall|k: int| cut < k < name.len() implies #[trigger] name[k] != '.' by {
            assert(name[k] == tail[k - cut]);
        }
        let i = text::last_place(name, '.').unwrap();
        assert(i == cut) by {
            if i > cut {
                assert(name[i] != '.');
            } else if i < cut {
                assert(name[cut] != '.');
            }
        }
        assert(name.skip(i + 1) =~= "sock"@) by {
            assert forall|k: int| 0 <= k < 4 implies name.skip(i + 1)[k] == "sock"@[k] by {
                assert(tail[k + 1] == ".sock"@[k + 1]);
            }
        }
    }
}

proof fn lemma_other_sockets(names: Seq<Seq<char>>, name: Seq<char>)
    ensures
        socket::other_sockets(names).contains(name) <==> names.contains(name)
            && socket::names_a_socket(name) && name != "lightwatch.sock"@,
    decreases names.len(),
{
    if names.len() > 0 {
        let front = names.drop_last();
        let last = names.last();
        lemma_other_sockets(front, name);
        assert(names.contains(name) <==> front.contains(name) || last == name) by {
            if front.contains(name) {
                let k = choose|k: int| 0 <= k < front.len() && front[k] == name;
                assert(names[k] == name);
            }
            assert(names[names.len() - 1] == last);
            if names.contains(name) && last != name {
                let k = choose|k: int| 0 <= k < names.len() && names[k] == name;
                assert(front[k] == name);
            }
        }
        let before = socket::other_sockets(front);
        let now = socket::other_sockets(names);
        if now != before {
            assert(now == before.push(last));
            assert(now[before.len() as int] == last);
            if before.contains(name) {
                let k = choose|k: int| 0 <= k < before.len() && before[k] == name;
                assert(now[k] == name);
            }
            if now.contains(name) && name != last {
                let k = choose|k: int| 0 <= k < now.len() && now[k] == name;
                assert(before[k] == name);
            }
        }
    }
}

/// The conventional socket is tried first, whether or not it was seen, and after
/// it every other file that is a socket, in the order of their names.
pub proof fn lemma_which_sockets_are_tried(names: Seq<Seq<char>>)
    ensures
        ({
            let tried = socket::names_to_try(names);
            &&& tried.len() > 0 && tried[0] == "lightwatch.sock"@
            &&& forall|name: Seq<char>|
                name != "lightwatch.sock"@ ==> (#[trigger] tried.contains(name)
                    <==> names.contains(name) && name.len() > 5 && name.skip(name.len() - 5)
                    == ".sock"@)
            &&& forall|i: int, j: int|
                0 < i < j < tried.len() ==> (#[trigger] tried[i]) == (#[trigger] tried[j])
                    || text::precedes(tried[i], tried[j])
        }),
{
    let leq = |a: Seq<char>, b: Seq<char>| socket::no_later(a, b);
    assert forall|a: Seq<char>, b: Seq<char>| #[trigger] leq(a, b) || leq(b, a) by {
        text::lemma_precedes_total(a, b);
    }
    assert forall|a: Seq<char>, b: Seq<char>, c: Seq<char>| #[trigger]
        leq(a, b) && #[trigger] leq(b, c) implies leq(a, c) by {
        if a != b && b != c {
            text::lemma_precedes_transitive(a, b, c);
        }
    }
    let others = socket::other_sockets(names);
    let listed = sorting::sorted(others, leq);
    sorting::lemma_sorting_is_stable(others, leq);
    others.to_multiset_ensures();
    listed.to_multiset_ensures();
    let tried = socket::names_to_try(names);
    assert(tried == seq![socket::SOCKET_FILE@] + listed);
    assert forall|name: Seq<char>| name != "lightwatch.sock"@ implies (#[trigger] tried.contains(
        name,
    ) <==> names.contains(name) && name.len() > 5 && name.skip(name.len() - 5) == ".sock"@) by {
        lemma_other_sockets(names, name);
        lemma_which_names_are_sockets(name);
        assert(others.to_multiset().count(name) == listed.to_multiset().count(name));
        assert(others.contains(name) <==> others.to_multiset().count(name) > 0);
        assert(listed.contains(name) <==> listed.to_multiset().count(name) > 0);
        if tried.contains(name) {
            let k = choose|k: int| 0 <= k < tried.len() && tried[k] == name;
            assert(k > 0);
            assert(listed[k - 1] == name);
        }
        if listed.contains(name) {
            let k = choose|k: int| 0 <= k < listed.len() && listed[k] == name;
            assert(tried[k + 1] == name);
        }
    }
    assert forall|i: int, j: int| 0 < i < j < tried.len() implies (#[trigger] tried[i]) == (
    #[trigger] tried[j]) || text::precedes(tried[i], tried[j]) by {
        assert(tried[i] == listed[i - 1] && tried[j] == listed[j - 1]);
        assert(leq(listed[i - 1], listed[j - 1]));
    }
}

/// A carriage return and a newline, twice, stand at the place.
pub open spec fn head_ends_at(raw: Seq<u8>, i: int) -> bool {
    &&& 0 <= i <= raw.len() - 4
    &&& raw[i] == 13
    &&& raw[i + 1] == 10
    &&& raw[i + 2] == 13
    &&& raw[i + 3] == 10
}

proof fn lemma_head_end_is_first(raw: Seq<u8>, from: int)
    requires
        0 <= from,
    ensures
        match source::head_end(raw, from) {
            Some(end) => from <= end && head_ends_at(raw, end) && forall|i: int|
                from <= i < end ==> !#[trigger] head_ends_at(raw, i),
            None => forall|i: int| from <= i ==> !#[trigger] head_ends_at(raw, i),
        },
    decreases raw.len() - from,
{
    if from + 4 <= raw.len() && !source::blank_line_at(raw, from) {
        lemma_head_end_is_first(raw, from + 1);
    }
}

/// The body of a reply is all that follows the first blank line, and only where
/// the first line of the head says `200`. A head without an end is cut short; one
/// whose first line is no status line is not HTTP; any other code is passed on.
pub proof fn lemma_a_body_follows_its_head(raw: Seq<u8>)
    ensures
        match source::reply_body(raw) {
            Ok(body) => exists|end: int|
                #[trigger] head_ends_at(raw, end) && body == raw.skip(end + 4) && forall|i: int|
                    0 <= i < end ==> !#[trigger] head_ends_at(raw, i),
            Err(PollModel::Truncated) => forall|i: int| 0 <= i ==> !#[trigger] head_ends_at(raw, i),
            Err(PollModel::Status(code)) => code != 200 && exists|end: int|
                #[trigger] head_ends_at(raw, end),
            Err(PollModel::NotHttp) => exists|end: int| #[trigger] head_ends_at(raw, end),
            Err(_) => false,
        },
{
    lemma_head_end_is_first(raw, 0);
}

/// A status line is a version that begins with `HTTP/`, a space, a code, and
/// perhaps a space and more.
pub proof fn lemma_a_status_line_holds_its_code(line: Seq<char>)
    ensures
        source::status_code(line) matches Some(code) ==> exists|version: Seq<char>,
            digits: Seq<char>|
            #![trigger version + seq![' '] + digits]
            {
                let start = version + seq![' '] + digits;
                &&& "HTTP/"@.is_prefix_of(version)
                &&& !version.contains(' ')
                &&& !digits.contains(' ')
                &&& text::number_up_to(digits, u16::MAX as u64) == Some(code as u64)
                &&& start.len() <= line.len()
                &&& line.take(start.len() as int) == start
                &&& line.len() == start.len() || line[start.len() as int] == ' '
            },
{
    if let Some(code) = source::status_code(line) {
        let version = source::before_first(line, ' ');
        let rest = source::after_first(line, ' ').unwrap();
        let digits = source::before_first(rest, ' ');
        line.index_of_first_ensures(' ');
        rest.index_of_first_ensures(' ');
        let start = version + seq![' '] + digits;
        assert(line.take(start.len() as int) =~= start);
        assert(!version.contains(' ')) by {
            if version.contains(' ') {
                let k = choose|k: int| 0 <= k < version.len() && version[k] == ' ';
                assert(line[k] == ' ');
            }
        }
        assert(!digits.contains(' ')) by {
            if digits.contains(' ') {
                let k = choose|k: int| 0 <= k < digits.len() && digits[k] == ' ';
                assert(rest[k] == ' ');
                assert(rest.contains(rest[k]));
            }
        }
        if digits.len() < rest.len() {
            assert(rest[digits.len() as int] == ' ');
            assert(line[start.len() as int] == rest[digits.len() as int]);
        }
        assert(text::number_up_to(digits, u16::MAX as u64) == Some(code as u64));
    }
}

/// A number written out reads back as itself.
pub proof fn lemma_a_number_reads_back(n: nat)
    ensures
        text::number(text::decimal(n)) == Some(n),
        n <= u64::MAX ==> forall|max: u64|
            #[trigger] text::number_up_to(text::decimal(n), max) == if n <= max {
                Some(n as u64)
            } else {
                None
            },
    decreases n,
{
    text::lemma_decimal_holds_digits(n);
    let d = text::decimal(n);
    if n >= 10 {
        lemma_a_number_reads_back(n / 10);
        assert(d.drop_last() =~= text::decimal(n / 10));
        assert(d.last() == text::digit(n % 10));
    } else {
        assert(d.drop_last() =~= Seq::<char>::empty());
        assert(text::number(d.drop_last()) == Some(0nat));
    }
    assert(d[0] != '+');
}

/// Only digits make a number, perhaps behind a plus sign, and never none.
pub proof fn lemma_only_digits_make_a_number(s: Seq<char>, max: u64)
    ensures
        text::number_up_to(s, max) is Some ==> {
            let digits = if s.len() > 0 && s[0] == '+' {
                s.skip(1)
            } else {
                s
            };
            digits.len() > 0 && forall|i: int|
                0 <= i < digits.len() ==> '0' <= #[trigger] digits[i] <= '9'
        },
        text::number_up_to(s, max) matches Some(n) ==> n <= max,
{
    let digits = if s.len() > 0 && s[0] == '+' {
        s.skip(1)
    } else {
        s
    };
    lemma_a_number_is_digits(digits);
}

proof fn lemma_a_number_is_digits(s: Seq<char>)
    ensures
        text::number(s) is Some ==> forall|i: int|
            0 <= i < s.len() ==> '0' <= #[trigger] s[i] <= '9',
    decreases s.len(),
{
    if s.len() > 0 {
        lemma_a_number_is_digits(s.drop_last());
        if text::number(s) is Some {
            assert forall|i: int| 0 <= i < s.len() implies '0' <= #[trigger] s[i] <= '9' by {
                if i < s.len() - 1 {
                    assert(s.drop_last()[i] == s[i]);
                }
            }
        }
    }
}

/// Text is ordered as in a dictionary: by the first place where two differ, and
/// the shorter first where one begins the other.
pub proof fn lemma_text_is_ordered_as_in_a_dictionary(a: Seq<char>, b: Seq<char>, k: int)
    requires
        0 <= k <= a.len(),
        k <= b.len(),
        forall|i: int| 0 <= i < k ==> #[trigger] a[i] == b[i],
    ensures
        k == a.len() && k < b.len() ==> text::precedes(a, b),
        k == b.len() ==> !text::precedes(a, b),
        k < a.len() && k < b.len() && a[k] != b[k] ==> (text::precedes(a, b) <==> a[k] < b[k]),
    decreases k,
{
    if k > 0 {
        let (x, y) = (a.skip(1), b.skip(1));
        assert forall|i: int| 0 <= i < k - 1 implies #[trigger] x[i] == y[i] by {
            assert(a[i + 1] == b[i + 1]);
        }
        lemma_text_is_ordered_as_in_a_dictionary(x, y, k - 1);
        assert(a[0] == b[0]);
    }
}

/// A reply without a body holds neither a status nor a report, and says why; one
/// with a body holds what the body reads as.
pub proof fn lemma_a_reply_holds_what_its_body_reads_as(raw: Seq<u8>)
    ensures
        match source::reply_body(raw) {
            Err(e) => source::status_in(raw) == Err::<u32, PollModel>(e) && source::report_in(raw)
                == Err::<crate::bridge::ReportModel, PollModel>(e),
            Ok(body) => {
                &&& source::parsed_status(body) matches Ok(pid) ==> source::status_in(raw) == Ok::<
                    u32,
                    PollModel,
                >(pid)
                &&& source::parsed_status(body) matches Err(why) ==> source::status_in(raw)
                    == Err::<u32, PollModel>(PollModel::Body(why))
                &&& source::parsed_report(body, usize::BITS) matches Ok(r) ==> source::report_in(
                    raw,
                ) == Ok::<crate::bridge::ReportModel, PollModel>(r)
                &&& source::parsed_report(body, usize::BITS) matches Err(why)
                    ==> source::report_in(raw) == Err::<crate::bridge::ReportModel, PollModel>(
                    PollModel::Body(why),
                )
            },
        },
{
}

/// A file's media type goes by its extension, and one that is not known is
/// bytes.
pub proof fn lemma_a_media_type_goes_by_the_extension(extension: Seq<char>)
    ensures
        ({
            let said = server::media_type(extension);
            &&& extension == "html"@ ==> said == "text/html; charset=utf-8"@
            &&& extension == "js"@ ==> said == "text/javascript; charset=utf-8"@
            &&& extension == "mjs"@ ==> said == "text/javascript; charset=utf-8"@
            &&& extension == "css"@ ==> said == "text/css; charset=utf-8"@
            &&& extension == "json"@ ==> said == "application/json"@
            &&& extension == "map"@ ==> said == "application/json"@
            &&& extension == "svg"@ ==> said == "image/svg+xml"@
            &&& extension == "png"@ ==> said == "image/png"@
            &&& extension == "webp"@ ==> said == "image/webp"@
            &&& extension == "woff2"@ ==> said == "font/woff2"@
            &&& extension != "html"@ && extension != "js"@ && extension != "mjs"@ && extension
                != "css"@ && extension != "json"@ && extension != "map"@ && extension != "svg"@
                && extension != "png"@ && extension != "webp"@ && extension != "woff2"@ ==> said
                == "application/octet-stream"@
        }),
{
    reveal_strlit("html");
    reveal_strlit("js");
    reveal_strlit("mjs");
    reveal_strlit("css");
    reveal_strlit("json");
    reveal_strlit("map");
    reveal_strlit("svg");
    reveal_strlit("png");
    reveal_strlit("webp");
    reveal_strlit("woff2");
    assert(extension == "html"@ ==> extension[0] == 'h');
    assert(extension == "js"@ ==> extension.len() == 2 && extension[0] == 'j');
    assert(extension == "mjs"@ ==> extension[0] == 'm' && extension[1] == 'j');
    assert(extension == "css"@ ==> extension[0] == 'c');
    assert(extension == "json"@ ==> extension.len() == 4 && extension[0] == 'j');
    assert(extension == "map"@ ==> extension[0] == 'm' && extension[1] == 'a');
    assert(extension == "svg"@ ==> extension[0] == 's');
    assert(extension == "png"@ ==> extension[0] == 'p');
    assert(extension == "webp"@ ==> extension[0] == 'w' && extension[1] == 'e');
    assert(extension == "woff2"@ ==> extension[0] == 'w' && extension[1] == 'o');
}

/// An option that is not known anywhere misleads, and `skip` anywhere skips.
pub proof fn lemma_options_count_wherever_they_stand(
    options: Seq<MeasureMeta>,
    tracking: Seq<measure::TrackMeta>,
    i: int,
)
    ensures
        0 <= i < options.len() && options[i] is Unknown ==> measure::measure_misled(options),
        0 <= i < options.len() && options[i] is Skip ==> measure::skips(options),
        0 <= i < tracking.len() && tracking[i] is Unknown ==> measure::track_misled(tracking),
        (forall|k: int| 0 <= k < options.len() ==> !(#[trigger] options[k] is Unknown))
            ==> !measure::measure_misled(options),
        (forall|k: int| 0 <= k < options.len() ==> !(#[trigger] options[k] is Skip))
            ==> !measure::skips(options),
        (forall|k: int| 0 <= k < tracking.len() ==> !(#[trigger] tracking[k] is Unknown))
            ==> !measure::track_misled(tracking),
{
}

/// The name given last is the name.
pub proof fn lemma_the_last_name_given_counts(options: Seq<MeasureMeta>)
    ensures
        match measure::name_given(options) {
            Some(name) => exists|i: int|
                0 <= i < options.len() && #[trigger] options[i] is Name && options[i]->Name_0@
                    == name && forall|k: int|
                    i < k < options.len() ==> !(#[trigger] options[k] is Name),
            None => forall|k: int| 0 <= k < options.len() ==> !(#[trigger] options[k] is Name),
        },
    decreases options.len(),
{
    if options.len() > 0 {
        let front = options.drop_last();
        let last = options.len() - 1;
        lemma_the_last_name_given_counts(front);
        assert(options[last] == options.last());
        if !(options.last() is Name) {
            match measure::name_given(front) {
                Some(name) => {
                    let i = choose|i: int|
                        0 <= i < front.len() && #[trigger] front[i] is Name && front[i]->Name_0@
                            == name && forall|k: int|
                            i < k < front.len() ==> !(#[trigger] front[k] is Name);
                    assert(options[i] is Name);
                    assert forall|k: int| i < k < options.len() implies !(
                    #[trigger] options[k] is Name) by {
                        if k < front.len() {
                            assert(front[k] == options[k]);
                        }
                    }
                },
                None => {
                    assert forall|k: int| 0 <= k < options.len() implies !(
                    #[trigger] options[k] is Name) by {
                        if k < front.len() {
                            assert(front[k] == options[k]);
                        }
                    }
                },
            }
        }
    }
}

/// A function of a module gains `#[measure]` where it is neither async nor const
/// and does not carry it yet; nothing else does; and the places are in order.
pub proof fn lemma_which_members_are_measured(members: Seq<Member>, place: usize)
    requires
        members.len() <= usize::MAX,
    ensures
        measure::gaining(members).contains(place) <==> place < members.len()
            && members[place as int] is Function && !members[place as int]->Function_0.is_async
            && !members[place as int]->Function_0.is_const && forall|i: int|
            0 <= i < members[place as int]->Function_0.attributes@.len() ==> (
            #[trigger] members[place as int]->Function_0.attributes@[i])@ != "measure"@,
{
    measure::lemma_every_function_that_can_be_is_measured(members, place);
}

/// `#[measure_all]` takes no options and goes on a module with a body or an
/// `impl` block; elsewhere it is refused, and told for what.
pub proof fn lemma_where_all_can_be_measured(bare: bool, item: ItemShape)
    ensures
        ({
            let r = measure::measured_everywhere(bare, item);
            &&& !bare ==> r == Err::<Seq<usize>, Refusal>(Refusal::MeasureAllOption)
            &&& bare && item is Other ==> r == Err::<Seq<usize>, Refusal>(Refusal::NoFunctions)
            &&& bare && item is Block ==> r == Ok::<Seq<usize>, Refusal>(
                measure::gaining(item->Block_0@),
            )
            &&& bare && item is Module && item->Module_0 is None ==> r == Err::<
                Seq<usize>,
                Refusal,
            >(Refusal::NoBody)
            &&& bare && item is Module && item->Module_0 is Some ==> r == Ok::<
                Seq<usize>,
                Refusal,
            >(measure::gaining(item->Module_0.unwrap()@))
        }),
{
}

/// A tracked struct keeps its fields as they were declared, in their order, and
/// gains one more; its companion has the author's fields alone; and the
/// constructor carries each of them over by its own name.
pub proof fn lemma_a_tracked_struct_keeps_its_fields(
    p: TrackPlan,
    item: StructShape,
    manual_measured: bool,
    i: int,
)
    requires
        measure::tracks(p, item, manual_measured),
    ensures
        item.fields is Some,
        ({
            let declared = item.fields.unwrap()@;
            &&& p.companion@.len() == declared.len()
            &&& p.carried@.len() == declared.len()
            &&& p.members@.len() == declared.len() + 1
            &&& 0 <= i < declared.len() ==> p.companion@[i] == declared[i] && p.members@[i]
                == declared[i] && p.carried@[i]@ == declared[i].name@
            &&& p.members@[declared.len() as int].name@ == "__lightwatch_census"@
            &&& p.members@[declared.len() as int].ty@ == "Census<"@ + item.ident@ + ">"@
            &&& p.slot_name@ == item.ident@
            &&& p.fields_ident@ == item.ident@ + "Fields"@
            &&& p.measures_itself <==> !manual_measured
        }),
{
}

} // verus!
