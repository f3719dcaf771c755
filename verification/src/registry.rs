//! Every process the daemon has seen since it started.
use vstd::prelude::*;

use crate::clock;
use crate::proto::Hello;
use crate::store;
use crate::store::{ProcessId, ProcessModel, ProcessState, Update, UpdateModel};
use crate::text;

verus! {

/// The processes, sorted by id. Ids are distinct, so each process has one
/// history.
#[derive(Debug)]
pub struct Registry {
    processes: Vec<ProcessState>,
}

impl View for Registry {
    type V = Seq<ProcessModel>;

    closed spec fn view(&self) -> Seq<ProcessModel> {
        self.processes@.map_values(|p: ProcessState| p@)
    }
}

/// Every process is sound, and they stand in the order of their ids.
pub open spec fn sound(all: Seq<ProcessModel>) -> bool {
    &&& forall|i: int| 0 <= i < all.len() ==> (#[trigger] all[i]).wf()
    &&& forall|i: int, j: int|
        0 <= i < j < all.len() ==> text::precedes((#[trigger] all[i]).id, (#[trigger] all[j]).id)
}

/// The process at `i` goes by `id`.
pub open spec fn goes_by(all: Seq<ProcessModel>, i: int, id: Seq<char>) -> bool {
    0 <= i < all.len() && all[i].id == id
}

/// Some process goes by `id`.
pub open spec fn listed(all: Seq<ProcessModel>, id: Seq<char>) -> bool {
    exists|i: int| goes_by(all, i, id)
}

/// Where the process that goes by `id` stands.
pub open spec fn seat(all: Seq<ProcessModel>, id: Seq<char>) -> int {
    choose|i: int| goes_by(all, i, id)
}

/// The id a greeting announces.
pub open spec fn announced(hello: Hello) -> Seq<char> {
    store::process_id(hello.pid, hello.started_unix_ms, hello.source@)
}

/// No id is held twice.
pub proof fn lemma_an_id_names_one_process(
    all: Seq<ProcessModel>,
    i: int,
    j: int,
    id: Seq<char>,
)
    requires
        sound(all),
        goes_by(all, i, id),
        goes_by(all, j, id),
    ensures
        i == j,
{
    text::lemma_precedes_irreflexive(id);
    if i < j {
        assert(text::precedes(all[i].id, all[j].id));
    } else if j < i {
        assert(text::precedes(all[j].id, all[i].id));
    }
}

/// `after` is `before` once a connection has been admitted: a process that
/// reconnects resumes the state it left behind, and a new one is added.
pub open spec fn admitted(before: Seq<ProcessModel>, after: Seq<ProcessModel>, hello: Hello) -> bool {
    let id = announced(hello);
    if listed(before, id) {
        exists|i: int|
            #[trigger] goes_by(before, i, id) && after == before.update(
                i,
                before[i].greeting(hello),
            )
    } else {
        exists|k: int|
            0 <= k <= before.len() && after == #[trigger] before.insert(
                k,
                ProcessModel::fresh(id, hello).greeting(hello),
            )
    }
}

/// `after` is `before` once a connection of `id` has closed at `now`.
pub open spec fn released(
    before: Seq<ProcessModel>,
    after: Seq<ProcessModel>,
    id: Seq<char>,
    now: u64,
    told: Seq<UpdateModel>,
) -> bool {
    if listed(before, id) {
        exists|i: int|
            #[trigger] goes_by(before, i, id) && after == before.update(i, before[i].parting(now))
                && told == before[i].farewell(now)
    } else {
        after == before && told == Seq::<UpdateModel>::empty()
    }
}

/// A connection changes no process but its own, and forgets none.
pub proof fn lemma_admitting_leaves_the_others(
    before: Seq<ProcessModel>,
    after: Seq<ProcessModel>,
    hello: Hello,
    i: int,
)
    requires
        admitted(before, after, hello),
        0 <= i < before.len(),
        before[i].id != announced(hello),
    ensures
        exists|j: int| 0 <= j < after.len() && #[trigger] after[j] == before[i],
        after.len() == if listed(before, announced(hello)) {
            before.len()
        } else {
            before.len() + 1
        },
{
    let id = announced(hello);
    if listed(before, id) {
        let k = choose|k: int|
            #[trigger] goes_by(before, k, id) && after == before.update(
                k,
                before[k].greeting(hello),
            );
        assert(after[i] == before[i]);
    } else {
        let k = choose|k: int|
            0 <= k <= before.len() && after == #[trigger] before.insert(
                k,
                ProcessModel::fresh(id, hello).greeting(hello),
            );
        if i < k {
            assert(after[i] == before[i]);
        } else {
            assert(after[i + 1] == before[i]);
        }
    }
}

/// A process that closes its only connection and opens another resumes its own
/// history: what it counted, named and recorded is all still there, and it is
/// no longer ended.
pub proof fn lemma_reconnecting_resumes_the_history(p: ProcessModel, hello: Hello, now: u64)
    requires
        p.live_connections == 1,
    ensures
        ({
            let back = p.parting(now).greeting(hello);
            &&& back.id == p.id
            &&& back.ledger == p.ledger
            &&& back.counts == p.counts
            &&& back.fine == p.fine
            &&& back.coarse == p.coarse
            &&& back.last_seq == p.last_seq
            &&& back.last_t_ns == p.last_t_ns
            &&& back.ended_unix_ms is None
            &&& back.live_connections == 1
        }),
{
}

/// A process whose last connection closes stays inspectable: it is marked
/// ended, and nothing it reported is lost.
pub proof fn lemma_ending_keeps_the_history(p: ProcessModel, now: u64)
    requires
        p.live_connections <= 1,
    ensures
        p.parting(now).ended_unix_ms == Some(now),
        p.parting(now).live_connections == 0,
        p.parting(now).ledger == p.ledger,
        p.parting(now).counts == p.counts,
        p.parting(now).fine == p.fine,
        p.parting(now).coarse == p.coarse,
{
}

impl Registry {
    pub fn new() -> (r: Self)
        ensures
            r@ == Seq::<ProcessModel>::empty(),
            sound(r@),
    {
        let r = Registry { processes: Vec::new() };
        proof {
            assert(r@ =~= Seq::<ProcessModel>::empty());
        }
        r
    }

    /// Where a process named `id` stands, or would stand, and whether it does.
    fn slot(&self, id: &str) -> (r: (usize, bool))
        requires
            sound(self@),
        ensures
            r.0 <= self@.len(),
            r.1 ==> goes_by(self@, r.0 as int, id@),
            !r.1 ==> !listed(self@, id@),
            forall|i: int| 0 <= i < r.0 ==> text::precedes((#[trigger] self@[i]).id, id@),
            !r.1 ==> forall|i: int|
                r.0 <= i < self@.len() ==> text::precedes(id@, (#[trigger] self@[i]).id),
    {
        let len: usize = self.processes.len();
        let mut k: usize = 0;
        while k < len && text::sorts_before(self.processes[k].id.as_str(), id)
            invariant
                len == self@.len(),
                len == self.processes@.len(),
                k <= len,
                forall|i: int| 0 <= i < k ==> text::precedes((#[trigger] self@[i]).id, id@),
            decreases len - k,
        {
            proof {
                assert(self@[k as int] == self.processes@[k as int]@);
            }
            k = k + 1;
        }
        let found = k < len && text::same(self.processes[k].id.as_str(), id);
        proof {
            assert(k < len ==> self@[k as int] == self.processes@[k as int]@);
            if !found {
                assert forall|i: int| k <= i < self@.len() implies text::precedes(
                    id@,
                    (#[trigger] self@[i]).id,
                ) by {
                    text::lemma_precedes_total(id@, self@[k as int].id);
                    if i > k {
                        assert(text::precedes(self@[k as int].id, self@[i].id));
                        text::lemma_precedes_transitive(id@, self@[k as int].id, self@[i].id);
                    }
                }
                assert forall|i: int| !goes_by(self@, i, id@) by {
                    text::lemma_precedes_irreflexive(id@);
                }
            }
        }
        (k, found)
    }

    /// Admits a connection. A process that reconnects resumes the state it
    /// left behind rather than starting a second, half-empty history.
    pub fn connect(&mut self, hello: &Hello) -> (r: ProcessId)
        requires
            sound(old(self)@),
        ensures
            r@ == announced(*hello),
            admitted(old(self)@, final(self)@, *hello),
            listed(final(self)@, r@),
            sound(final(self)@),
    {
        let ghost before = self@;
        let id = ProcessId::of_hello(hello);
        let (k, found) = self.slot(id.as_str());
        if found {
            self.processes[k].greet(hello);
            proof {
                assert(goes_by(before, k as int, id@));
                assert(self@ =~= before.update(k as int, before[k as int].greeting(*hello)));
            }
        } else {
            let mut process = ProcessState::new(id.clone(), hello);
            process.greet(hello);
            let ghost new = process@;
            self.processes.insert(k, process);
            proof {
                assert(self@ =~= before.insert(k as int, new));
                assert forall|i: int, j: int| 0 <= i < j < self@.len() implies text::precedes(
                    (#[trigger] self@[i]).id,
                    (#[trigger] self@[j]).id,
                ) by {
                    if i < k {
                        assert(self@[i] == before[i]);
                    } else if i > k {
                        assert(self@[i] == before[i - 1]);
                    }
                    if j < k {
                        assert(self@[j] == before[j]);
                    } else if j > k {
                        assert(self@[j] == before[j - 1]);
                    }
                }
                assert forall|i: int| 0 <= i < self@.len() implies (#[trigger] self@[i]).wf() by {
                    if i < k {
                        assert(self@[i] == before[i]);
                    } else if i > k {
                        assert(self@[i] == before[i - 1]);
                    }
                }
            }
        }
        proof {
            assert(goes_by(self@, k as int, id@));
        }
        id
    }

    /// Closes one connection of a process at `now_unix_ms`, and says what its
    /// watchers are told.
    pub fn disconnect_at(&mut self, id: &ProcessId, now_unix_ms: u64) -> (r: Vec<Update>)
        requires
            sound(old(self)@),
        ensures
            released(
                old(self)@,
                final(self)@,
                id@,
                now_unix_ms,
                store::saying(r@),
            ),
            sound(final(self)@),
    {
        let ghost before = self@;
        let (k, found) = self.slot(id.as_str());
        if !found {
            let none: Vec<Update> = Vec::new();
            proof {
                assert(store::saying(none@) =~= Seq::<UpdateModel>::empty());
            }
            return none;
        }
        let told = self.processes[k].part(now_unix_ms);
        proof {
            assert(goes_by(before, k as int, id@));
            assert(self@ =~= before.update(k as int, before[k as int].parting(now_unix_ms)));
        }
        told
    }

    /// Closes one connection of a process, now.
    pub fn disconnect(&mut self, id: &ProcessId) -> (r: Vec<Update>)
        requires
            sound(old(self)@),
        ensures
            exists|now: u64| #[trigger]
                released(old(self)@, final(self)@, id@, now, store::saying(r@)),
            sound(final(self)@),
    {
        let now: u64 = clock::now_unix_ms();
        self.disconnect_at(id, now)
    }

    pub fn get(&self, id: &ProcessId) -> (r: Option<&ProcessState>)
        requires
            sound(self@),
        ensures
            r is Some <==> listed(self@, id@),
            r matches Some(p) ==> p@.id == id@ && self@.contains(p@),
    {
        let (k, found) = self.slot(id.as_str());
        if found {
            proof {
                assert(self@[k as int] == self.processes@[k as int]@);
            }
            Some(&self.processes[k])
        } else {
            None
        }
    }

    /// The process behind an id, to fold frames into.
    pub fn get_mut(&mut self, id: &ProcessId) -> (r: Option<&mut ProcessState>)
        requires
            sound(old(self)@),
        ensures
            r is Some <==> listed(old(self)@, id@),
            r is None ==> final(self)@ == old(self)@,
            r matches Some(p) ==> exists|i: int| #[trigger]
                goes_by(old(self)@, i, id@) && p@ == old(self)@[i] && final(self)@ == old(
                    self,
                )@.update(i, final(p)@),
    {
        let ghost before = self@;
        let (k, found) = self.slot(id.as_str());
        if found {
            let p = &mut self.processes[k];
            proof {
                assert(goes_by(before, k as int, id@));
            }
            Some(p)
        } else {
            None
        }
    }

    /// Every process, in the order of their ids.
    pub fn all(&self) -> (r: Vec<&ProcessState>)
        ensures
            r@.len() == self@.len(),
            forall|i: int| 0 <= i < r@.len() ==> (#[trigger] r@[i])@ == self@[i],
    {
        let mut all: Vec<&ProcessState> = Vec::new();
        for n in 0..self.processes.len()
            invariant
                all@.len() == n,
                forall|i: int| 0 <= i < n ==> *#[trigger] all@[i] == self.processes@[i],
        {
            all.push(&self.processes[n]);
        }
        all
    }

    pub fn len(&self) -> (r: usize)
        ensures
            r == self@.len(),
    {
        self.processes.len()
    }

    pub fn is_empty(&self) -> (r: bool)
        ensures
            r == (self@.len() == 0),
    {
        self.processes.len() == 0
    }
}

impl Default for Registry {
    fn default() -> (r: Self)
        ensures
            r@ == Seq::<ProcessModel>::empty(),
            sound(r@),
    {
        Registry::new()
    }
}

} // verus!
