//! The lightwatch wire protocol.
//!
//! A profiled process opens a socket, sends one [`Message::Hello`], then a
//! [`Message::Frame`] per window until it exits. Frames carry aggregate deltas,
//! never individual hits, so the cost of being observed stays flat as the
//! program gets busier.
//!
//! The encoding is one JSON object per line. Which socket the lines travel over
//! is part of the contract as well, so [`crate::socket`] carries the rule every
//! participant finds it by.
use vstd::prelude::*;

use crate::dist::Dist;

verus! {

/// Bumped when a frame's meaning changes. The daemon refuses a mismatch rather
/// than guessing at a field it does not recognize.
pub const SCHEMA_VERSION: u32 = 2;

/// Default window length. An emitter may choose its own and declare it in
/// [`Hello::window_ms`].
pub const DEFAULT_WINDOW_MS: u32 = 100;

/// Identifies a function within one process. Interned by the emitter, never
/// reused.
#[derive(Debug, Clone, Copy, PartialEq, Eq, PartialOrd, Ord, Hash, Structural)]
pub struct FunctionId(pub u32);

/// Identifies a tracked type within one process.
#[derive(Debug, Clone, Copy, PartialEq, Eq, PartialOrd, Ord, Hash, Structural)]
pub struct TypeId(pub u32);

/// Identifies one calling context: a node in this process's call tree, meaning
/// a function reached by one particular chain of callers. `PathId(0)` is the
/// root, which is not a function and is never registered.
#[derive(Debug, Clone, Copy, PartialEq, Eq, PartialOrd, Ord, Hash, Structural)]
pub struct PathId(pub u32);

/// Where a symbol was declared. Paths are relative to the emitter's root.
#[derive(Debug, PartialEq, Eq)]
pub struct Location {
    pub file: String,
    pub line: u32,
    pub column: Option<u32>,
}

impl Clone for Location {
    fn clone(&self) -> (r: Self)
        ensures
            r == *self,
    {
        Location { file: self.file.clone(), line: self.line, column: self.column }
    }
}

/// The same text again, where there is any.
pub fn copy_text(text: &Option<String>) -> (r: Option<String>)
    ensures
        r == *text,
{
    match text {
        Some(t) => Some(t.clone()),
        None => None,
    }
}

/// The same place again, where there is one.
pub fn copy_location(location: &Option<Location>) -> (r: Option<Location>)
    ensures
        r == *location,
{
    match location {
        Some(l) => Some(l.clone()),
        None => None,
    }
}

/// Binds an id to a name. Sent once, the first time the id appears, so names
/// never repeat on the wire and a steady-state frame is only integers.
#[derive(Debug, PartialEq, Eq)]
pub enum Register {
    Function { id: FunctionId, name: String, module: Option<String>, location: Option<Location> },
    Type { id: TypeId, name: String, location: Option<Location> },
    /// One node of the call tree: `func`, reached through `parent`. A
    /// `parent` of [`PathId(0)`](PathId) means `func` was the outermost
    /// measured frame on its thread.
    ///
    /// Parent-linked rather than carrying the whole frame list, so every
    /// prefix is sent exactly once however many leaves grow out of it. A
    /// node's `id` is therefore always greater than its `parent`: an emitter
    /// cannot name a context without already holding the one it hangs off.
    ///
    /// The tree is process-wide, not per-thread. Two threads running the same
    /// chain of calls share a node and their times merge, which is what a
    /// flame graph wants and is also why a path can never answer *which
    /// thread*.
    Path { id: PathId, parent: PathId, func: FunctionId },
}

impl Clone for Register {
    fn clone(&self) -> (r: Self)
        ensures
            r == *self,
    {
        match self {
            Register::Function { id, name, module, location } => Register::Function {
                id: *id,
                name: name.clone(),
                module: copy_text(module),
                location: copy_location(location),
            },
            Register::Type { id, name, location } => Register::Type {
                id: *id,
                name: name.clone(),
                location: copy_location(location),
            },
            Register::Path { id, parent, func } => Register::Path {
                id: *id,
                parent: *parent,
                func: *func,
            },
        }
    }
}

/// What happened during one window.
///
/// `Calls`, `Edge` and `Stack` are deltas and accumulate across windows.
/// `Census` is an absolute reading at window close and replaces the previous
/// one. Mixing the two up is the easiest bug to write against this protocol,
/// so the daemon's store keeps them in separate types.
#[derive(Debug, Clone, PartialEq, Eq)]
pub enum Event {
    /// Delta. `count` calls of `func` closed during the window, with their
    /// wall durations in nanoseconds.
    Calls { func: FunctionId, count: u64, ns: Dist },
    /// Delta. `from` called `to` this many times during the window. Only edges
    /// where both ends are instrumented are visible, so an uninstrumented frame
    /// between two measured functions collapses into a direct edge.
    Edge { from: FunctionId, to: FunctionId, count: u64 },
    /// Delta. `count` activations of this calling context closed during the
    /// window, having spent `self_ns` nanoseconds *outside* any measured
    /// callee.
    ///
    /// Self time, not inclusive time: a caller's own `self_ns` excludes what
    /// its measured callees spent, so summing a subtree gives that subtree's
    /// inclusive time and no nanosecond is counted twice.
    ///
    /// `count` counts activations that *opened* this context. For a recursive
    /// function that is one per outermost entry, not one per level, matching
    /// [`Event::Calls`].
    Stack { path: PathId, count: u64, self_ns: u64 },
    /// Absolute. Live instances of `ty` at window close, their total footprint
    /// in bytes, and the sizes of those live instances.
    Census { ty: TypeId, live: u64, bytes: u64, sizes: Dist },
}

/// One window's worth of observation.
#[derive(Debug, Clone, PartialEq, Eq)]
pub struct Frame {
    /// Increments by one per frame. A gap means the emitter dropped a window.
    pub seq: u64,
    /// Monotonic nanoseconds since process start, at window close.
    pub t_ns: u64,
    pub registers: Vec<Register>,
    pub events: Vec<Event>,
}

/// The first message on a connection.
#[derive(Debug, PartialEq, Eq)]
pub struct Hello {
    pub schema: u32,
    /// What to call this process in the UI.
    pub app: String,
    pub pid: u32,
    /// Wall clock at process start, so a recycled pid is still distinguishable.
    pub started_unix_ms: u64,
    pub window_ms: u32,
    /// Which emitter produced the stream, for diagnosing a bad feed.
    pub source: String,
}

impl Clone for Hello {
    fn clone(&self) -> (r: Self)
        ensures
            r == *self,
    {
        Hello {
            schema: self.schema,
            app: self.app.clone(),
            pid: self.pid,
            started_unix_ms: self.started_unix_ms,
            window_ms: self.window_ms,
            source: self.source.clone(),
        }
    }
}

impl Hello {
    /// A greeting in the schema this build speaks, with the default window.
    pub fn new(app: &str, source: &str, pid: u32, started_unix_ms: u64) -> (r: Self)
        ensures
            r.schema == SCHEMA_VERSION,
            r.app@ == app@,
            r.pid == pid,
            r.started_unix_ms == started_unix_ms,
            r.window_ms == DEFAULT_WINDOW_MS,
            r.source@ == source@,
    {
        Hello {
            schema: SCHEMA_VERSION,
            app: app.to_owned(),
            pid,
            started_unix_ms,
            window_ms: DEFAULT_WINDOW_MS,
            source: source.to_owned(),
        }
    }
}

#[derive(Debug, Clone, PartialEq, Eq)]
pub enum Message {
    Hello(Hello),
    Frame(Frame),
}

} // verus!
