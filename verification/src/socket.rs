//! Where a daemon and its emitters meet.
//!
//! The rendezvous is as much of the contract as the frames are: a stream
//! nobody can find carries nothing. The rule is only useful while the binder
//! and the connectors agree on it, so both take it from here.
use vstd::prelude::*;
use vstd::string::*;

use crate::sorting;
use crate::sorting::Order;
use crate::text;

verus! {

/// The socket the daemon listens on inside its socket directory.
pub const SOCKET_FILE: &'static str = "lightwatch.sock";

/// The directory the sockets live in, below whichever place is chosen.
pub const SOCKET_DIRECTORY: &'static str = "lightwatch";

/// A directory to look for the socket in.
#[derive(Debug, Clone, PartialEq, Eq)]
pub enum SocketDir<P> {
    /// The directory itself.
    At(P),
    /// [`SOCKET_DIRECTORY`] below it.
    Under(P),
}

/// `$LIGHTWATCH_SOCK_DIR`, else `$TMPDIR/lightwatch` on macOS, else
/// `$XDG_RUNTIME_DIR/lightwatch`, else `lightwatch` under the platform's
/// temporary directory.
///
/// Takes the environment as arguments so the rule is testable without mutating
/// a process-wide variable.
pub fn resolve_socket_dir<P>(
    explicit: Option<P>,
    tmpdir: Option<P>,
    xdg_runtime: Option<P>,
    on_macos: bool,
    temp_dir: P,
) -> (r: SocketDir<P>)
    ensures
        r == match explicit {
            Some(explicit) => SocketDir::At(explicit),
            None => match (on_macos, tmpdir, xdg_runtime) {
                (true, Some(tmpdir), _) => SocketDir::Under(tmpdir),
                (_, _, Some(runtime)) => SocketDir::Under(runtime),
                _ => SocketDir::Under(temp_dir),
            },
        },
{
    if let Some(explicit) = explicit {
        return SocketDir::At(explicit);
    }
    if on_macos {
        if let Some(tmpdir) = tmpdir {
            return SocketDir::Under(tmpdir);
        }
    }
    match xdg_runtime {
        Some(runtime) => SocketDir::Under(runtime),
        None => SocketDir::Under(temp_dir),
    }
}

/// Where the probe looks: as [`resolve_socket_dir`], but nowhere at all where
/// the environment names no place. It will not guess at a temporary directory
/// for a daemon that may not exist.
pub fn probe_socket_dir<P>(
    sock_dir: Option<P>,
    tmpdir: Option<P>,
    xdg_runtime_dir: Option<P>,
    is_macos: bool,
) -> (r: Option<SocketDir<P>>)
    ensures
        r == match sock_dir {
            Some(dir) => Some(SocketDir::At(dir)),
            None => match (is_macos, tmpdir, xdg_runtime_dir) {
                (true, Some(tmp), _) => Some(SocketDir::Under(tmp)),
                (_, _, Some(runtime)) => Some(SocketDir::Under(runtime)),
                _ => None,
            },
        },
{
    if let Some(dir) = sock_dir {
        return Some(SocketDir::At(dir));
    }
    if is_macos {
        if let Some(tmp) = tmpdir {
            return Some(SocketDir::Under(tmp));
        }
    }
    match xdg_runtime_dir {
        Some(runtime) => Some(SocketDir::Under(runtime)),
        None => None,
    }
}

/// What to do about the daemon's own socket once binding it was tried.
#[derive(Debug, Clone, Copy, PartialEq, Eq, Structural)]
pub enum Claim {
    /// Go by what binding it came to.
    Stands,
    /// Another daemon is listening: leave it its socket.
    Refused,
    /// Nobody is: take the file away and bind again.
    Reclaimed,
}

/// A socket file outlives a daemon that crashed, so one already in use is only
/// reclaimed when nothing answers on it. That keeps a second daemon from
/// stealing a running one's socket and silently splitting the feed.
pub fn claim(in_use: bool, answered: bool) -> (r: Claim)
    ensures
        r == if !in_use {
            Claim::Stands
        } else if answered {
            Claim::Refused
        } else {
            Claim::Reclaimed
        },
{
    if !in_use {
        Claim::Stands
    } else if answered {
        Claim::Refused
    } else {
        Claim::Reclaimed
    }
}

/// A socket to try.
#[derive(Debug, PartialEq, Eq)]
pub enum Candidate {
    /// The path itself.
    Path(String),
    /// A name inside the socket directory.
    Named(String),
}

/// What a [`Candidate`] says.
pub enum CandidateModel {
    Path(Seq<char>),
    Named(Seq<char>),
}

impl View for Candidate {
    type V = CandidateModel;

    open spec fn view(&self) -> CandidateModel {
        match *self {
            Candidate::Path(path) => CandidateModel::Path(path@),
            Candidate::Named(name) => CandidateModel::Named(name@),
        }
    }
}

/// A file name with the extension of a socket.
pub open spec fn names_a_socket(name: Seq<char>) -> bool {
    match text::last_place(name, '.') {
        Some(i) => i > 0 && name.skip(i + 1) == "sock"@,
        None => false,
    }
}

/// The sockets among some file names, other than the conventional one.
pub open spec fn other_sockets(names: Seq<Seq<char>>) -> Seq<Seq<char>>
    decreases names.len(),
{
    if names.len() == 0 {
        Seq::empty()
    } else {
        let before = other_sockets(names.drop_last());
        if names_a_socket(names.last()) && names.last() != SOCKET_FILE@ {
            before.push(names.last())
        } else {
            before
        }
    }
}

/// The order names are tried in.
pub open spec fn no_later(a: Seq<char>, b: Seq<char>) -> bool {
    a == b || text::precedes(a, b)
}

/// The sockets to try in a directory: the conventional one first, so that it is
/// found without looking, and the others after it in the order of their names,
/// so that a daemon listening under another name is still found.
pub open spec fn names_to_try(names: Seq<Seq<char>>) -> Seq<Seq<char>> {
    seq![SOCKET_FILE@] + sorting::sorted(
        other_sockets(names),
        |a: Seq<char>, b: Seq<char>| no_later(a, b),
    )
}

/// The texts of a list.
pub open spec fn texts(names: Seq<String>) -> Seq<Seq<char>> {
    names.map_values(|s: String| s@)
}

struct ByName;

impl Order<String> for ByName {
    closed spec fn leq(a: String, b: String) -> bool {
        no_later(a@, b@)
    }

    proof fn lemma_total(a: String, b: String) {
        text::lemma_precedes_total(a@, b@);
    }

    proof fn lemma_transitive(a: String, b: String, c: String) {
        if a@ != b@ && b@ != c@ {
            text::lemma_precedes_transitive(a@, b@, c@);
        }
    }

    fn may_precede(a: &String, b: &String) -> (r: bool) {
        text::same(a.as_str(), b.as_str()) || text::sorts_before(a.as_str(), b.as_str())
    }
}

fn is_socket_name(name: &str) -> (r: bool)
    ensures
        r == names_a_socket(name@),
{
    let extension = text::tail_after(name, '.');
    let whole: usize = name.unicode_len();
    let tail: usize = extension.unicode_len();
    proof {
        text::lemma_last_place(name@, '.');
    }
    tail < whole && whole - tail > 1 && text::same(extension, "sock")
}

/// Where the probe looks for a daemon, in order: the one socket named exactly,
/// where one is; otherwise those in the socket directory, where there is one,
/// given the names of the files in it.
pub fn candidate_sockets(has_dir: bool, explicit: Option<&str>, entries: &Vec<String>) -> (r: Vec<
    Candidate,
>)
    ensures
        r@.map_values(|c: Candidate| c@) == match explicit {
            Some(path) => seq![CandidateModel::Path(path@)],
            None => if has_dir {
                names_to_try(texts(entries@)).map_values(
                    |n: Seq<char>| CandidateModel::Named(n),
                )
            } else {
                Seq::empty()
            },
        },
{
    let mut candidates: Vec<Candidate> = Vec::new();
    if let Some(path) = explicit {
        candidates.push(Candidate::Path(path.to_owned()));
        proof {
            assert(candidates@.map_values(|c: Candidate| c@) =~= seq![CandidateModel::Path(path@)]);
        }
        return candidates;
    }
    if !has_dir {
        proof {
            assert(candidates@.map_values(|c: Candidate| c@) =~= Seq::<CandidateModel>::empty());
        }
        return candidates;
    }
    let ghost all = texts(entries@);
    let mut others: Vec<String> = Vec::new();
    proof {
        assert(texts(others@) =~= other_sockets(all.take(0)));
    }
    for n in 0..entries.len()
        invariant
            all == texts(entries@),
            texts(others@) == other_sockets(all.take(n as int)),
    {
        let ghost before = texts(others@);
        let name = &entries[n];
        proof {
            assert(all.take(n + 1).drop_last() =~= all.take(n as int));
            assert(all.take(n + 1).last() == name@);
        }
        if is_socket_name(name.as_str()) && !text::same(name.as_str(), SOCKET_FILE) {
            others.push(name.clone());
            proof {
                assert(texts(others@) =~= before.push(name@));
            }
        }
    }
    proof {
        assert(all.take(all.len() as int) =~= all);
        sorting::lemma_sorting_commutes_with_reading(
            others@,
            |s: String| s@,
            sorting::order_of::<String, ByName>(),
            |a: Seq<char>, b: Seq<char>| no_later(a, b),
        );
    }
    let names = sorting::stable_sort::<String, ByName>(others);
    let ghost goal = names_to_try(all);
    candidates.push(Candidate::Named(SOCKET_FILE.to_owned()));
    for n in 0..names.len()
        invariant
            goal == seq![SOCKET_FILE@] + texts(names@),
            candidates@.len() == n + 1,
            forall|i: int|
                0 <= i < n + 1 ==> (#[trigger] candidates@[i])@ == CandidateModel::Named(goal[i]),
    {
        candidates.push(Candidate::Named(names[n].clone()));
    }
    proof {
        assert(candidates@.map_values(|c: Candidate| c@) =~= goal.map_values(
            |n: Seq<char>| CandidateModel::Named(n),
        ));
    }
    candidates
}

} // verus!
