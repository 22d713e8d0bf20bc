//! The keepers: electing a leader among them, following it by heartbeat,
//! and the leader's round over the backends (liveness, migration, clocks).

use crate::migration::{join_result, leave_result, node_join, node_leave, MigrationTask};
use crate::ring::{
    bin_hash, is_first_live, live_flags, live_view, name_hash, next_live, no_live, succ,
    StatusTableEntry,
};
use vstd::prelude::*;

verus! {

/// A keeper's view of its peers and of the backends it watches.
pub struct Keeper {
    pub keepers: Vec<String>,
    pub backs: Vec<String>,
}

/// What a keeper believes about leadership.
#[derive(Clone, Copy, Debug, PartialEq, Eq, Structural)]
pub enum KeeperRole {
    Unknown,
    Following(i64),
    Leading,
}

/// What a keeper learned since its last step.
#[derive(Clone, Copy, Debug, PartialEq, Eq, Structural)]
pub enum KeeperEvent {
    /// The keeper has just started.
    Started,
    /// The leader reported by the peers; zero or less when none reported one.
    LeaderReported(i64),
    /// The outcome of an election: the least index among reachable keepers.
    Elected(Option<i64>),
    HeartbeatOk,
    HeartbeatFailed,
    /// The leader finished one round over the backends.
    RoundDone,
}

/// What a keeper does next.
#[derive(Clone, Copy, Debug, PartialEq, Eq, Structural)]
pub enum KeeperAction {
    /// Ask every peer which leader it believes in.
    CheckLeader,
    /// Ask every reachable peer for its index and elect the least.
    SelectLeader,
    /// Heartbeat the given leader, after the heartbeat interval.
    Heartbeat(i64),
    /// Run one leader round over the backends.
    LeadRound,
}

/// A keeper's own index, its belief about leadership, and the number of
/// elections it has seen.
#[derive(Clone, Copy, Debug, PartialEq, Eq, Structural)]
pub struct KeeperState {
    pub this: i64,
    pub role: KeeperRole,
    pub term: u64,
}

/// What a change of one backend's liveness calls for.
#[derive(Clone, Debug)]
pub enum LivenessChange {
    Unchanged,
    Joined(Option<MigrationTask>),
    Left(Vec<MigrationTask>),
}

/// The first positive leader id among the replies, or -1.
pub open spec fn first_positive(s: Seq<Option<i64>>) -> i64
    decreases s.len(),
{
    if s.len() == 0 {
        -1i64
    } else {
        match s[0] {
            Some(v) => if v > 0 {
                v
            } else {
                first_positive(s.subrange(1, s.len() as int))
            },
            None => first_positive(s.subrange(1, s.len() as int)),
        }
    }
}

/// `m` is the least index among the replies.
pub open spec fn is_min_reply(s: Seq<Option<i64>>, m: i64) -> bool {
    &&& exists|i: int| 0 <= i < s.len() && s[i] == Some(m)
    &&& forall|i: int|
        0 <= i < s.len() ==> match #[trigger] s[i] {
            Some(v) => m <= v,
            None => true,
        }
}

pub open spec fn no_reply(s: Seq<Option<i64>>) -> bool {
    forall|i: int| 0 <= i < s.len() ==> (#[trigger] s[i]) is None
}

pub open spec fn next_term(t: u64) -> u64 {
    if t < u64::MAX {
        (t + 1) as u64
    } else {
        t
    }
}

/// What a keeper in state `s` does when nothing changes its belief.
pub open spec fn resume(s: KeeperState) -> KeeperAction {
    match s.role {
        KeeperRole::Unknown => KeeperAction::SelectLeader,
        KeeperRole::Following(l) => KeeperAction::Heartbeat(l),
        KeeperRole::Leading => KeeperAction::LeadRound,
    }
}

pub open spec fn with_role(s: KeeperState, role: KeeperRole) -> KeeperState {
    KeeperState { this: s.this, role, term: s.term }
}

/// Believe in `leader`: lead when it is this keeper, follow it otherwise.
pub open spec fn adopt(s: KeeperState, leader: i64, term: u64) -> (KeeperState, KeeperAction) {
    if leader == s.this {
        (KeeperState { this: s.this, role: KeeperRole::Leading, term }, KeeperAction::LeadRound)
    } else {
        (
            KeeperState { this: s.this, role: KeeperRole::Following(leader), term },
            KeeperAction::Heartbeat(leader),
        )
    }
}

/// One step of a keeper.
pub open spec fn spec_step(s: KeeperState, e: KeeperEvent) -> (KeeperState, KeeperAction) {
    match e {
        KeeperEvent::Started => (with_role(s, KeeperRole::Unknown), KeeperAction::CheckLeader),
        KeeperEvent::LeaderReported(id) => if id <= 0 {
            (with_role(s, KeeperRole::Unknown), KeeperAction::SelectLeader)
        } else {
            adopt(s, id, s.term)
        },
        KeeperEvent::Elected(None) => (
            with_role(s, KeeperRole::Unknown),
            KeeperAction::SelectLeader,
        ),
        KeeperEvent::Elected(Some(id)) => adopt(s, id, next_term(s.term)),
        KeeperEvent::HeartbeatFailed => match s.role {
            KeeperRole::Following(_) => (
                with_role(s, KeeperRole::Unknown),
                KeeperAction::SelectLeader,
            ),
            _ => (s, resume(s)),
        },
        KeeperEvent::HeartbeatOk => (s, resume(s)),
        KeeperEvent::RoundDone => (s, resume(s)),
    }
}

impl Keeper {
    /// The leader that the peers report: the first positive id among their
    /// replies (`None` for a peer that could not be asked), or -1.
    pub fn check_leader(&self, replies: &Vec<Option<i64>>) -> (r: i64)
        ensures
            r == first_positive(replies@),
    {
        let mut i: usize = 0;
        proof {
            assert(replies@.subrange(0, replies.len() as int) =~= replies@);
        }
        while i < replies.len()
            invariant
                i <= replies.len(),
                first_positive(replies@) == first_positive(replies@.subrange(i as int, replies.len() as int)),
            decreases replies.len() - i,
        {
            proof {
                let rest = replies@.subrange(i as int, replies.len() as int);
                assert(rest.subrange(1, rest.len() as int) =~= replies@.subrange(i + 1, replies.len() as int));
            }
            match replies[i] {
                Some(v) => {
                    if v > 0 {
                        return v;
                    }
                },
                None => {},
            }
            i = i + 1;
        }
        -1
    }

    /// The elected leader: the least index among the replies of reachable
    /// keepers (`None` for a keeper that could not be asked); `None` when
    /// no keeper replied.
    pub fn select_leader(&self, indices: &Vec<Option<i64>>) -> (r: Option<i64>)
        ensures
            r is None <==> no_reply(indices@),
            r matches Some(m) ==> is_min_reply(indices@, m),
    {
        let mut best: Option<i64> = None;
        let mut i: usize = 0;
        while i < indices.len()
            invariant
                i <= indices.len(),
                best is None <==> no_reply(indices@.subrange(0, i as int)),
                best matches Some(m) ==> is_min_reply(indices@.subrange(0, i as int), m),
            decreases indices.len() - i,
        {
            let ghost done = indices@.subrange(0, i as int);
            let ghost more = indices@.subrange(0, i + 1);
            proof {
                assert(more =~= done.push(indices@[i as int]));
            }
            match indices[i] {
                Some(v) => {
                    let keep = match best {
                        Some(m) => m <= v,
                        None => false,
                    };
                    if !keep {
                        proof {
                            if let Some(m) = best {
                                assert forall|j: int| 0 <= j < more.len() implies match #[trigger] more[j] {
                                    Some(w) => v <= w,
                                    None => true,
                                } by {
                                    if j < i {
                                        assert(more[j] == done[j]);
                                    }
                                }
                            } else {
                                assert forall|j: int| 0 <= j < more.len() implies match #[trigger] more[j] {
                                    Some(w) => v <= w,
                                    None => true,
                                } by {
                                    if j < i {
                                        assert(more[j] == done[j]);
                                        assert(done[j] is None);
                                    }
                                }
                            }
                            assert(more[i as int] == Some(v));
                        }
                        best = Some(v);
                    } else {
                        proof {
                            let m = best->0;
                            let k = choose|k: int| 0 <= k < done.len() && done[k] == Some(m);
                            assert(more[k] == Some(m));
                            assert forall|j: int| 0 <= j < more.len() implies match #[trigger] more[j] {
                                Some(w) => m <= w,
                                None => true,
                            } by {
                                if j < i {
                                    assert(more[j] == done[j]);
                                }
                            }
                        }
                    }
                    proof {
                        assert(!no_reply(more)) by {
                            assert(more[i as int] is Some);
                        }
                    }
                },
                None => {
                    proof {
                        if no_reply(done) {
                            assert forall|j: int| 0 <= j < more.len() implies (#[trigger] more[j]) is None by {
                                if j < i {
                                    assert(more[j] == done[j]);
                                }
                            }
                        }
                        if no_reply(more) {
                            assert forall|j: int| 0 <= j < done.len() implies (#[trigger] done[j]) is None by {
                                assert(more[j] == done[j]);
                            }
                        }
                        if let Some(m) = best {
                            let k = choose|k: int| 0 <= k < done.len() && done[k] == Some(m);
                            assert(more[k] == Some(m));
                            assert forall|j: int| 0 <= j < more.len() implies match #[trigger] more[j] {
                                Some(w) => m <= w,
                                None => true,
                            } by {
                                if j < i {
                                    assert(more[j] == done[j]);
                                }
                            }
                        }
                    }
                },
            }
            i = i + 1;
        }
        proof {
            assert(indices@.subrange(0, indices.len() as int) =~= indices@);
        }
        best
    }
}

impl KeeperState {
    /// A keeper that has just started, and what it does first.
    pub fn new(this: i64) -> (r: (KeeperState, KeeperAction))
        ensures
            r == spec_step(KeeperState { this, role: KeeperRole::Unknown, term: 0 }, KeeperEvent::Started),
    {
        let s = KeeperState { this, role: KeeperRole::Unknown, term: 0 };
        s.step(KeeperEvent::Started)
    }

    /// The keeper's next state and action on event `e`.
    pub fn step(self, e: KeeperEvent) -> (r: (KeeperState, KeeperAction))
        ensures
            r == spec_step(self, e),
    {
        let unknown = KeeperState { this: self.this, role: KeeperRole::Unknown, term: self.term };
        let resumed = match self.role {
            KeeperRole::Unknown => KeeperAction::SelectLeader,
            KeeperRole::Following(l) => KeeperAction::Heartbeat(l),
            KeeperRole::Leading => KeeperAction::LeadRound,
        };
        match e {
            KeeperEvent::Started => (unknown, KeeperAction::CheckLeader),
            KeeperEvent::LeaderReported(id) => {
                if id <= 0 {
                    (unknown, KeeperAction::SelectLeader)
                } else {
                    self.adopt(id, self.term)
                }
            },
            KeeperEvent::Elected(None) => (unknown, KeeperAction::SelectLeader),
            KeeperEvent::Elected(Some(id)) => {
                let term = if self.term < u64::MAX {
                    self.term + 1
                } else {
                    self.term
                };
                self.adopt(id, term)
            },
            KeeperEvent::HeartbeatFailed => match self.role {
                KeeperRole::Following(_) => (unknown, KeeperAction::SelectLeader),
                _ => (self, resumed),
            },
            KeeperEvent::HeartbeatOk => (self, resumed),
            KeeperEvent::RoundDone => (self, resumed),
        }
    }

    fn adopt(self, leader: i64, term: u64) -> (r: (KeeperState, KeeperAction))
        ensures
            r == adopt(self, leader, term),
    {
        if leader == self.this {
            (KeeperState { this: self.this, role: KeeperRole::Leading, term }, KeeperAction::LeadRound)
        } else {
            (
                KeeperState { this: self.this, role: KeeperRole::Following(leader), term },
                KeeperAction::Heartbeat(leader),
            )
        }
    }
}

/// With a single keeper reachable, the election picks it, and it leads.
pub proof fn lemma_lone_keeper_leads(s: KeeperState, indices: Seq<Option<i64>>, k: int, m: i64)
    requires
        0 <= k < indices.len(),
        indices[k] == Some(s.this),
        forall|j: int| 0 <= j < indices.len() && j != k ==> (#[trigger] indices[j]) is None,
        is_min_reply(indices, m),
    ensures
        m == s.this,
        spec_step(s, KeeperEvent::Elected(Some(m))).0.role == KeeperRole::Leading,
        spec_step(s, KeeperEvent::Elected(Some(m))).1 == KeeperAction::LeadRound,
{
    let i = choose|i: int| 0 <= i < indices.len() && indices[i] == Some(m);
    if i != k {
        assert(indices[i] is None);
    }
}

/// A follower whose leader stops answering calls an election at its next
/// heartbeat, and after it believes in the least reachable index: it leads
/// if that index is its own and follows it otherwise, in a later term.
pub proof fn lemma_failover(s: KeeperState, leader: i64, indices: Seq<Option<i64>>, m: i64)
    requires
        s.role == KeeperRole::Following(leader),
        s.term < u64::MAX,
        is_min_reply(indices, m),
    ensures
        spec_step(s, KeeperEvent::HeartbeatFailed).1 == KeeperAction::SelectLeader,
        ({
            let s1 = spec_step(s, KeeperEvent::HeartbeatFailed).0;
            let s2 = spec_step(s1, KeeperEvent::Elected(Some(m))).0;
            &&& s2.term > s.term
            &&& m == s.this ==> s2.role == KeeperRole::Leading
            &&& m != s.this ==> s2.role == KeeperRole::Following(m)
        }),
{
}

/// Records the outcome of probing backend `i` in the leader's table, and
/// says what migration that calls for: a backend that comes back is seeded
/// by `node_join`, one that is lost is covered for by `node_leave`; both
/// are planned on the table as it was before the change.
pub fn apply_probe(table: Vec<StatusTableEntry>, i: usize, reachable: bool) -> (r: (Vec<StatusTableEntry>, LivenessChange))
    requires
        i < table.len(),
    ensures
        r.0@ == table@.update(i as int, StatusTableEntry { addr: table@[i as int].addr, status: reachable }),
        match r.1 {
            LivenessChange::Unchanged => table@[i as int].status == reachable,
            LivenessChange::Joined(t) => !table@[i as int].status && reachable && join_result(
                live_view(table@),
                i as int,
                t,
            ),
            LivenessChange::Left(ts) => table@[i as int].status && !reachable && leave_result(
                live_view(table@),
                i as int,
                ts@,
            ),
        },
{
    let was = table[i].status;
    let change = if was == reachable {
        LivenessChange::Unchanged
    } else if reachable {
        LivenessChange::Joined(node_join(i, &table))
    } else {
        LivenessChange::Left(node_leave(i, &table))
    };
    let entry = StatusTableEntry { addr: table[i].addr.clone(), status: reachable };
    let mut t = table;
    t.set(i, entry);
    (t, change)
}

/// The cluster clock after a round: the largest of the current clock and
/// every reading.
pub fn next_cluster_clock(current: u64, readings: &Vec<u64>) -> (r: u64)
    ensures
        r >= current,
        forall|j: int| 0 <= j < readings.len() ==> r >= #[trigger] readings@[j],
        r == current || exists|j: int| 0 <= j < readings.len() && readings@[j] == r,
{
    let mut best = current;
    let mut i: usize = 0;
    while i < readings.len()
        invariant
            i <= readings.len(),
            best >= current,
            forall|j: int| 0 <= j < i ==> best >= #[trigger] readings@[j],
            best == current || exists|j: int| 0 <= j < i && readings@[j] == best,
        decreases readings.len() - i,
    {
        if readings[i] > best {
            best = readings[i];
        }
        i = i + 1;
    }
    best
}

/// The table a starting keeper goes on from: the one a keeper stored
/// before, when it covers the same backends as the fresh scan, else the scan.
pub fn adopt_status_table(stored: Option<Vec<StatusTableEntry>>, scanned: Vec<StatusTableEntry>) -> (r: Vec<StatusTableEntry>)
    ensures
        r == match stored {
            Some(t) => if t.len() == scanned.len() {
                t
            } else {
                scanned
            },
            None => scanned,
        },
{
    match stored {
        Some(t) => {
            if t.len() == scanned.len() {
                t
            } else {
                scanned
            }
        },
        None => scanned,
    }
}

/// The ring position that the status table hashes to: the hash of
/// "BackendStatus" modulo the ring size.
pub fn status_home(n: usize) -> (r: usize)
    requires
        n > 0,
    ensures
        r == name_hash("BackendStatus"@) as int % n as int,
        r < n,
{
    (bin_hash("BackendStatus") % (n as u64)) as usize
}

/// Where the status table is written, starting from ring position
/// `backend`: the first live backend at or after it, and the next live one
/// after that (the same one when it is the only live backend).
pub fn write_twice_targets(backend: usize, table: &Vec<StatusTableEntry>) -> (r: Option<(usize, usize)>)
    requires
        backend < table.len(),
    ensures
        r is None <==> no_live(live_view(table@)),
        r matches Some((p, q)) ==> is_first_live(live_view(table@), backend as int, p as int, true)
            && is_first_live(live_view(table@), succ(p as int, table@.len() as int), q as int, true),
{
    let n = table.len();
    let live = live_flags(table);
    match next_live(&live, backend, true) {
        None => None,
        Some(p) => {
            let after = if p + 1 >= n {
                0
            } else {
                p + 1
            };
            match next_live(&live, after, true) {
                None => None,
                Some(q) => Some((p, q)),
            }
        },
    }
}

} // verus!
