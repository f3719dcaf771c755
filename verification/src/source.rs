//! Reading hotpath's HTTP server.
//!
//! Two endpoints and a fixed shape of reply make a dependency-free client the
//! honest choice here. hotpath answers on loopback, always HTTP/1.1 with a
//! `Content-Length`, and it honours `Connection: close`, so "read to end of
//! stream" is the whole framing problem.
//!
//! Every way this can fail is a variant of [`PollError`] and none of them
//! panic. A target that is not running yet, is shutting down, or is still
//! starting its profiler worker (hotpath answers `503` until then) all reach
//! the caller as something to retry.
use std::time::Duration;

use vstd::prelude::*;
use vstd::slice::slice_subrange;
use vstd::string::*;
use vstd::utf8::*;

use crate::bridge::{EntryLocation, FunctionEntry, Report, ReportModel};
use crate::text;

verus! {

/// Refuses a reply large enough to be a bug rather than a report, in bytes.
pub const MAX_BODY: u64 = 8388608;

/// Where the target says which process it is.
pub const STATUS_PATH: &'static str = "/profiler_status";

/// Where the target lists its functions.
pub const FUNCTIONS_PATH: &'static str = "/functions_timing";

/// Why a poll brought nothing.
#[derive(Debug, PartialEq, Eq)]
pub enum PollError {
    /// No connection, and why.
    Unreachable(String),
    /// The connection failed, and how.
    Io(String),
    /// The target answered, but not with a report.
    Status(u16),
    Truncated,
    NotHttp,
    /// The reply did not parse, and why.
    Body(String),
}

/// Why a poll brought nothing.
#[verifier::ext_equal]
pub ghost enum PollModel {
    Unreachable(Seq<char>),
    Io(Seq<char>),
    Status(u16),
    Truncated,
    NotHttp,
    Body(Seq<char>),
}

impl View for PollError {
    type V = PollModel;

    open spec fn view(&self) -> PollModel {
        match self {
            PollError::Unreachable(why) => PollModel::Unreachable(why@),
            PollError::Io(why) => PollModel::Io(why@),
            PollError::Status(code) => PollModel::Status(*code),
            PollError::Truncated => PollModel::Truncated,
            PollError::NotHttp => PollModel::NotHttp,
            PollError::Body(why) => PollModel::Body(why@),
        }
    }
}

impl PollModel {
    /// What a log says of it.
    pub open spec fn message(self) -> Seq<char> {
        match self {
            PollModel::Unreachable(why) => "target unreachable: "@ + why,
            PollModel::Io(why) => "target connection failed: "@ + why,
            PollModel::Status(code) => "target answered HTTP "@ + text::decimal(code as nat),
            PollModel::Truncated => "target closed the connection mid-reply"@,
            PollModel::NotHttp => "target replied with something that is not HTTP"@,
            PollModel::Body(why) => "target reply did not parse: "@ + why,
        }
    }
}

impl PollError {
    /// What a log says of it.
    pub fn message(&self) -> (r: String)
        ensures
            r@ == self@.message(),
    {
        match self {
            PollError::Unreachable(why) => "target unreachable: ".to_owned().concat(why.as_str()),
            PollError::Io(why) => "target connection failed: ".to_owned().concat(why.as_str()),
            PollError::Status(code) => {
                let mut said = "target answered HTTP ".to_owned();
                text::push_decimal(&mut said, *code as u64);
                said
            },
            PollError::Truncated => "target closed the connection mid-reply".to_owned(),
            PollError::NotHttp => "target replied with something that is not HTTP".to_owned(),
            PollError::Body(why) => "target reply did not parse: ".to_owned().concat(why.as_str()),
        }
    }
}

/// What stands between the bridge and its next frame.
#[derive(Debug, PartialEq, Eq)]
pub enum Trouble {
    Target(PollError),
    /// The daemon cannot be reached, and why.
    Daemon(String),
}

impl Trouble {
    /// What a log says of it.
    pub fn message(&self) -> (r: String)
        ensures
            r@ == match self {
                Trouble::Target(e) => e@.message(),
                Trouble::Daemon(why) => "daemon socket unavailable: "@ + why@,
            },
    {
        match self {
            Trouble::Target(e) => e.message(),
            Trouble::Daemon(why) => "daemon socket unavailable: ".to_owned().concat(why.as_str()),
        }
    }
}

/// Which process the target is.
#[derive(Debug, Clone, Copy, PartialEq, Eq, Structural)]
pub struct ProfilerStatus {
    pub pid: u32,
}

/// The process that a body names, or why it names none, as JSON reads it.
pub uninterp spec fn parsed_status(body: Seq<u8>) -> Result<u32, Seq<char>>;

/// `serde_json::from_slice` at `hotpath::json::JsonProfilerStatus` reads a
/// body as a status, of which the pid is kept, or says in words why it cannot.
/// Either depends on the body alone, and an empty body is no status. What a
/// body must hold to be one is left unsaid: that takes the whole of JSON.
#[verifier::external_body]
fn read_status(body: &[u8]) -> (r: Result<ProfilerStatus, String>)
    ensures
        match r {
            Ok(status) => parsed_status(body@) == Ok::<u32, Seq<char>>(status.pid),
            Err(why) => parsed_status(body@) == Err::<u32, Seq<char>>(why@),
        },
        body@.len() == 0 ==> r is Err,
{
    serde_json::from_slice::<hotpath::json::JsonProfilerStatus>(body)
        .map(|status| ProfilerStatus { pid: status.pid })
        .map_err(|e| e.to_string())
}

/// The report that a body holds, or why it holds none, as JSON reads it on a
/// machine with words of so many bits.
pub uninterp spec fn parsed_report(body: Seq<u8>, word: u32) -> Result<ReportModel, Seq<char>>;

/// `serde_json::from_slice` at `hotpath::json::JsonFunctionsList` reads a body
/// as a report, of which the fields of [`Report`] are kept, or says in words why
/// it cannot. Either depends on the body and on how large a count the machine
/// can hold, and an empty body is no report. What a body must hold to be one is
/// left unsaid: that takes the whole of JSON.
#[verifier::external_body]
fn read_report(body: &[u8]) -> (r: Result<Report, String>)
    ensures
        match r {
            Ok(report) => parsed_report(body@, usize::BITS) == Ok::<ReportModel, Seq<char>>(
                report@,
            ),
            Err(why) => parsed_report(body@, usize::BITS) == Err::<ReportModel, Seq<char>>(why@),
        },
        body@.len() == 0 ==> r is Err,
{
    let list = serde_json::from_slice::<hotpath::json::JsonFunctionsList>(body)
        .map_err(|e| e.to_string())?;
    let data = list.data.into_iter().map(|e| FunctionEntry {
        id: e.id,
        name: e.name,
        calls: e.calls,
        total: e.total,
        location: e.location.map(|l| EntryLocation { file: l.file, line: l.line, column: l.column }),
    });
    Ok(Report {
        total_elapsed_ns: list.total_elapsed_ns,
        caller_name: list.caller_name,
        data: data.collect(),
    })
}

/// A blank line starts at the place: the head of a reply ends there.
pub open spec fn blank_line_at(raw: Seq<u8>, i: int) -> bool {
    raw[i] == 13 && raw[i + 1] == 10 && raw[i + 2] == 13 && raw[i + 3] == 10
}

/// Where the head of a reply ends, no earlier than `from`.
pub open spec fn head_end(raw: Seq<u8>, from: int) -> Option<int>
    decreases raw.len() - from,
{
    if from + 4 > raw.len() {
        None
    } else if blank_line_at(raw, from) {
        Some(from)
    } else {
        head_end(raw, from + 1)
    }
}

/// What precedes the first `t`, or all of it.
pub open spec fn before_first<T>(s: Seq<T>, t: T) -> Seq<T> {
    match s.index_of_first(t) {
        Some(i) => s.take(i),
        None => s,
    }
}

/// What follows the first `t`, where there is one.
pub open spec fn after_first<T>(s: Seq<T>, t: T) -> Option<Seq<T>> {
    match s.index_of_first(t) {
        Some(i) => Some(s.skip(i + 1)),
        None => None,
    }
}

/// The code of a status line, where it is one: the version, a space, the code,
/// and perhaps a space and more.
pub open spec fn status_code(line: Seq<char>) -> Option<u16> {
    if !"HTTP/"@.is_prefix_of(before_first(line, ' ')) {
        None
    } else {
        match after_first(line, ' ') {
            Some(rest) => match text::number_up_to(before_first(rest, ' '), u16::MAX as u64) {
                Some(code) => Some(code as u16),
                None => None,
            },
            None => None,
        }
    }
}

/// The body of a `200`, or why there is none.
pub open spec fn reply_body(raw: Seq<u8>) -> Result<Seq<u8>, PollModel> {
    match head_end(raw, 0) {
        None => Err(PollModel::Truncated),
        Some(end) => {
            let line = before_first(raw.take(end), 13);
            if !valid_utf8(line) {
                Err(PollModel::NotHttp)
            } else {
                match status_code(decode_utf8(line)) {
                    None => Err(PollModel::NotHttp),
                    Some(code) => if code == 200 {
                        Ok(raw.skip(end + 4))
                    } else {
                        Err(PollModel::Status(code))
                    },
                }
            }
        },
    }
}

fn find_head_end(raw: &[u8]) -> (r: Option<usize>)
    ensures
        match r {
            Some(end) => head_end(raw@, 0) == Some(end as int) && end + 4 <= raw@.len(),
            None => head_end(raw@, 0) is None,
        },
{
    let mut n: usize = 0;
    while raw.len() >= 4 && n <= raw.len() - 4
        invariant
            n <= raw@.len(),
            head_end(raw@, 0) == head_end(raw@, n as int),
        decreases raw@.len() - n,
    {
        if raw[n] == 13 && raw[n + 1] == 10 && raw[n + 2] == 13 && raw[n + 3] == 10 {
            return Some(n);
        }
        n = n + 1;
    }
    None
}

fn line_length(head: &[u8]) -> (r: usize)
    ensures
        r <= head@.len(),
        head@.take(r as int) == before_first(head@, 13),
{
    let mut n: usize = 0;
    while n < head.len() && head[n] != 13
        invariant
            n <= head@.len(),
            forall|i: int| 0 <= i < n ==> head@[i] != 13,
        decreases head@.len() - n,
    {
        n = n + 1;
    }
    proof {
        head@.index_of_first_ensures(13);
        assert(head@.take(n as int) =~= before_first(head@, 13));
    }
    n
}

/// What precedes and what follows the first space.
fn at_space<'a>(s: &'a str) -> (r: (&'a str, Option<&'a str>))
    ensures
        r.0@ == before_first(s@, ' '),
        match r.1 {
            Some(rest) => after_first(s@, ' ') == Some(rest@),
            None => after_first(s@, ' ') is None,
        },
{
    let chars = text::chars_of(s);
    let len: usize = chars.len();
    let mut n: usize = 0;
    while n < len && chars[n] != ' '
        invariant
            n <= len == chars@.len(),
            chars@ == s@,
            forall|i: int| 0 <= i < n ==> s@[i] != ' ',
        decreases len - n,
    {
        n = n + 1;
    }
    proof {
        s@.index_of_first_ensures(' ');
    }
    if n == len {
        return (s, None);
    }
    let (before, after) = (s.substring_char(0, n), s.substring_char(n + 1, len));
    proof {
        assert(before@ =~= s@.take(n as int));
        assert(after@ =~= s@.skip(n + 1));
    }
    (before, Some(after))
}

/// Whether a text begins with another.
fn begins_with(s: &str, start: &str) -> (r: bool)
    ensures
        r == start@.is_prefix_of(s@),
{
    let (chars, wanted) = (text::chars_of(s), text::chars_of(start));
    if wanted.len() > chars.len() {
        return false;
    }
    let mut n: usize = 0;
    while n < wanted.len()
        invariant
            n <= wanted@.len() <= chars@.len(),
            chars@ == s@,
            wanted@ == start@,
            forall|i: int| 0 <= i < n ==> chars@[i] == wanted@[i],
        decreases wanted@.len() - n,
    {
        if chars[n] != wanted[n] {
            proof {
                assert(s@.subrange(0, start@.len() as int)[n as int] != start@[n as int]);
            }
            return false;
        }
        n = n + 1;
    }
    proof {
        assert(s@.subrange(0, start@.len() as int) =~= start@);
    }
    true
}

fn code_of(line: &str) -> (r: Option<u16>)
    ensures
        r == status_code(line@),
{
    let (version, rest) = at_space(line);
    if !begins_with(version, "HTTP/") {
        return None;
    }
    match rest {
        Some(rest) => match text::parse_up_to(at_space(rest).0, u16::MAX as u64) {
            Some(code) => Some(code as u16),
            None => None,
        },
        None => None,
    }
}

/// The body of a `200`, or why there isn't one.
pub fn body_of(raw: &[u8]) -> (r: Result<Vec<u8>, PollError>)
    ensures
        match r {
            Ok(body) => reply_body(raw@) == Ok::<Seq<u8>, PollModel>(body@),
            Err(e) => reply_body(raw@) == Err::<Seq<u8>, PollModel>(e@),
        },
{
    let len: usize = raw.len();
    let end: usize = match find_head_end(raw) {
        Some(end) => end,
        None => return Err(PollError::Truncated),
    };
    let head = slice_subrange(raw, 0, end);
    let line = slice_subrange(head, 0, line_length(head));
    proof {
        assert(head@ =~= raw@.take(end as int));
        assert(line@ =~= before_first(raw@.take(end as int), 13));
    }
    let line = match text::decoded(line) {
        Some(line) => line,
        None => return Err(PollError::NotHttp),
    };
    match code_of(line) {
        None => Err(PollError::NotHttp),
        Some(code) => {
            if code != 200 {
                return Err(PollError::Status(code));
            }
            let mut body: Vec<u8> = Vec::new();
            body.extend_from_slice(slice_subrange(raw, end + 4, len));
            proof {
                assert(body@ =~= raw@.skip(end + 4));
            }
            Ok(body)
        },
    }
}

/// A profiled process's metrics server.
#[derive(Debug)]
pub struct Target {
    host: String,
    port: u16,
    timeout: Duration,
}

/// A profiled process's metrics server.
#[verifier::ext_equal]
pub ghost struct TargetModel {
    pub host: Seq<char>,
    pub port: u16,
    pub timeout: Duration,
}

impl View for Target {
    type V = TargetModel;

    closed spec fn view(&self) -> TargetModel {
        TargetModel { host: self.host@, port: self.port, timeout: self.timeout }
    }
}

impl Clone for Target {
    fn clone(&self) -> (r: Self)
        ensures
            r@ == self@,
    {
        Target { host: self.host.clone(), port: self.port, timeout: self.timeout }
    }
}

impl TargetModel {
    /// The host and the port, as a connection names them.
    pub open spec fn address(self) -> Seq<char> {
        self.host.push(':') + text::decimal(self.port as nat)
    }

    /// What is sent to read a page.
    pub open spec fn request(self, path: Seq<char>) -> Seq<char> {
        "GET "@ + path + " HTTP/1.1\r\nHost: "@ + self.address()
            + "\r\nConnection: close\r\n\r\n"@
    }
}

/// What follows the head does not move where it ends.
proof fn lemma_head_end_stays(raw: Seq<u8>, more: Seq<u8>, from: int)
    requires
        0 <= from,
        head_end(raw, from) is Some,
    ensures
        head_end(raw + more, from) == head_end(raw, from),
        from <= head_end(raw, from).unwrap() <= raw.len() - 4,
        blank_line_at(raw, head_end(raw, from).unwrap()),
    decreases raw.len() - from,
{
    let all = raw + more;
    assert forall|i: int| 0 <= i < raw.len() implies all[i] == raw[i] by {}
    if !blank_line_at(raw, from) {
        lemma_head_end_stays(raw, more, from + 1);
    }
}

/// A head cut short has no end.
proof fn lemma_head_end_cut(raw: Seq<u8>, n: int, from: int)
    requires
        0 <= from,
        0 <= n <= raw.len(),
        match head_end(raw, from) {
            Some(end) => n < end + 4,
            None => true,
        },
    ensures
        head_end(raw.take(n), from) is None,
    decreases raw.len() - from,
{
    if from + 4 <= n {
        assert forall|i: int| 0 <= i < n implies raw.take(n)[i] == raw[i] by {}
        lemma_head_end_cut(raw, n, from + 1);
    }
}

/// A reply is read to its end whatever its body holds: a head that ends in its
/// first blank line and answers `200` gives exactly what follows it.
pub proof fn lemma_a_whole_reply_gives_its_body(head: Seq<u8>, body: Seq<u8>)
    requires
        head_end(head, 0) == Some(head.len() - 4),
        reply_body(head) is Ok,
    ensures
        reply_body(head + body) == Ok::<Seq<u8>, PollModel>(body),
{
    lemma_head_end_stays(head, body, 0);
    let end = head.len() - 4;
    assert((head + body).take(end) =~= head.take(end));
    assert((head + body).skip(end + 4) =~= body);
}

/// A reply that stops short of the end of its head is never read as a report.
pub proof fn lemma_a_reply_cut_in_its_head_is_truncated(raw: Seq<u8>, n: int)
    requires
        0 <= n <= raw.len(),
        match head_end(raw, 0) {
            Some(end) => n < end + 4,
            None => true,
        },
    ensures
        reply_body(raw.take(n)) == Err::<Seq<u8>, PollModel>(PollModel::Truncated),
{
    lemma_head_end_cut(raw, n, 0);
}

/// The status a reply holds, or why it holds none.
pub open spec fn status_in(raw: Seq<u8>) -> Result<u32, PollModel> {
    match reply_body(raw) {
        Ok(body) => match parsed_status(body) {
            Ok(pid) => Ok(pid),
            Err(why) => Err(PollModel::Body(why)),
        },
        Err(e) => Err(e),
    }
}

/// The report a reply holds, or why it holds none.
pub open spec fn report_in(raw: Seq<u8>) -> Result<ReportModel, PollModel> {
    match reply_body(raw) {
        Ok(body) => match parsed_report(body, usize::BITS) {
            Ok(report) => Ok(report),
            Err(why) => Err(PollModel::Body(why)),
        },
        Err(e) => Err(e),
    }
}

impl Target {
    pub fn new(host: &str, port: u16, timeout: Duration) -> (r: Self)
        ensures
            r@ == (TargetModel { host: host@, port, timeout }),
    {
        Target { host: host.to_owned(), port, timeout }
    }

    /// How long to wait on the target before giving up on one poll.
    pub fn timeout(&self) -> (r: Duration)
        ensures
            r == self@.timeout,
    {
        self.timeout
    }

    /// The status in what the target sent back for [`STATUS_PATH`], where the
    /// exchange brought anything.
    pub fn status(&self, reply: Result<Vec<u8>, PollError>) -> (r: Result<
        ProfilerStatus,
        PollError,
    >)
        ensures
            match (reply, r) {
                (Err(e), Err(said)) => said == e,
                (Err(_), Ok(_)) => false,
                (Ok(raw), Ok(status)) => status_in(raw@) == Ok::<u32, PollModel>(status.pid)
                    && reply_body(raw@) != Ok::<Seq<u8>, PollModel>(Seq::empty()),
                (Ok(raw), Err(e)) => status_in(raw@) == Err::<u32, PollModel>(e@),
            },
    {
        let raw = match reply {
            Ok(raw) => raw,
            Err(e) => return Err(e),
        };
        match body_of(raw.as_slice()) {
            Ok(body) => match read_status(body.as_slice()) {
                Ok(status) => Ok(status),
                Err(why) => Err(PollError::Body(why)),
            },
            Err(e) => Err(e),
        }
    }

    /// The report in what the target sent back for [`FUNCTIONS_PATH`], where the
    /// exchange brought anything.
    pub fn functions_timing(&self, reply: Result<Vec<u8>, PollError>) -> (r: Result<
        Report,
        PollError,
    >)
        ensures
            match (reply, r) {
                (Err(e), Err(said)) => said == e,
                (Err(_), Ok(_)) => false,
                (Ok(raw), Ok(report)) => report_in(raw@) == Ok::<ReportModel, PollModel>(report@)
                    && reply_body(raw@) != Ok::<Seq<u8>, PollModel>(Seq::empty()),
                (Ok(raw), Err(e)) => report_in(raw@) == Err::<ReportModel, PollModel>(e@),
            },
    {
        let raw = match reply {
            Ok(raw) => raw,
            Err(e) => return Err(e),
        };
        match body_of(raw.as_slice()) {
            Ok(body) => match read_report(body.as_slice()) {
                Ok(report) => Ok(report),
                Err(why) => Err(PollError::Body(why)),
            },
            Err(e) => Err(e),
        }
    }

    pub fn address(&self) -> (r: String)
        ensures
            r@ == self@.address(),
    {
        let mut address = self.host.clone();
        address.push(':');
        text::push_decimal(&mut address, self.port as u64);
        address
    }

    /// What to send to read a page.
    pub fn request(&self, path: &str) -> (r: String)
        ensures
            r@ == self@.request(path@),
    {
        let mut request = "GET ".to_owned();
        request.append(path);
        request.append(" HTTP/1.1\r\nHost: ");
        request.append(self.address().as_str());
        request.append("\r\nConnection: close\r\n\r\n");
        request
    }
}

} // verus!
