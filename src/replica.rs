//! What a bin's storage decides when it reads from and writes to its two
//! replicas: whose value to trust, how to merge two lists, and how to keep
//! the two clocks together.

use crate::colon::{bin_key_seq, key_part, lemma_bin_key_injective, split_bin_key};
use crate::order::{lemma_str_lt_total, lemma_str_lt_transitive, str_less, str_lt};
use vstd::prelude::*;

verus! {

/// One entry of a stored list: the value and the clock it was appended at.
#[derive(Clone, Debug)]
pub struct LogEntry {
    pub message: String,
    pub clock: u64,
}

impl View for LogEntry {
    type V = (u64, Seq<char>);

    open spec fn view(&self) -> (u64, Seq<char>) {
        (self.clock, self.message@)
    }
}

/// Entries order by clock, then by value.
pub open spec fn log_lt(a: (u64, Seq<char>), b: (u64, Seq<char>)) -> bool {
    a.0 < b.0 || (a.0 == b.0 && str_lt(a.1, b.1))
}

pub open spec fn log_views(s: Seq<LogEntry>) -> Seq<(u64, Seq<char>)> {
    s.map_values(|e: LogEntry| e@)
}

pub open spec fn str_views(s: Seq<String>) -> Seq<Seq<char>> {
    s.map_values(|x: String| x@)
}

/// The values of a list's entries, in order.
pub open spec fn messages_of(s: Seq<LogEntry>) -> Seq<Seq<char>> {
    s.map_values(|e: LogEntry| e.message@)
}

/// Each entry sorts strictly before the next.
pub open spec fn log_sorted(s: Seq<(u64, Seq<char>)>) -> bool {
    forall|i: int| 0 <= i && i + 1 < s.len() ==> log_lt(#[trigger] s[i], s[i + 1])
}

/// `merged` is the sorted list of the distinct entries of both replicas.
pub open spec fn is_log_merge(primary: Seq<LogEntry>, backup: Seq<LogEntry>, merged: Seq<LogEntry>) -> bool {
    &&& log_sorted(log_views(merged))
    &&& forall|x: (u64, Seq<char>)|
        log_views(merged).contains(x) <==> (log_views(primary).contains(x) || log_views(
            backup,
        ).contains(x))
}

pub open spec fn no_duplicates(s: Seq<Seq<char>>) -> bool {
    forall|i: int, j: int| 0 <= i < j < s.len() ==> s[i] != s[j]
}

/// What a clock call on both replicas settles on.
#[derive(Clone, Copy, Debug, PartialEq, Eq)]
pub struct ClockMerge {
    /// The clock returned to the caller: the larger of the two readings.
    pub value: u64,
    /// The value to push to the primary, when it read lower.
    pub push_primary: Option<u64>,
    /// The value to push to the backup, when it read lower.
    pub push_backup: Option<u64>,
}

pub open spec fn spec_merge_clock(primary: u64, backup: u64) -> ClockMerge {
    if primary > backup {
        ClockMerge { value: primary, push_primary: None, push_backup: Some(primary) }
    } else if primary < backup {
        ClockMerge { value: backup, push_primary: Some(backup), push_backup: None }
    } else {
        ClockMerge { value: primary, push_primary: None, push_backup: None }
    }
}

/// A backend's clock call asked for at least `at_least` on a clock that
/// stood at `before`: it replied `reply`, no lower than either, and left
/// its clock at `after`, no lower than the reply.
pub open spec fn clock_call(before: int, at_least: int, reply: int, after: int) -> bool {
    reply >= before && reply >= at_least && after >= reply
}

/// What a replica's clock stands at after the merge: where a value was
/// pushed to it, the push was a clock call of its own.
pub open spec fn after_push(stood: int, push: Option<u64>, now: int) -> bool {
    match push {
        Some(v) => exists|reply: int| clock_call(stood, v as int, reply, now),
        None => now >= stood,
    }
}

/// The value of a call that succeeded, or none.
pub open spec fn ok_of<T, E>(r: Result<T, E>) -> Option<T> {
    match r {
        Ok(v) => Some(v),
        Err(_) => None,
    }
}

/// Combines one call on each replica: it fails, with the primary's error,
/// only when both failed; otherwise each replica's answer is kept where it
/// came.
pub fn either_replica<T, E>(primary: Result<T, E>, backup: Result<T, E>) -> (r: Result<(Option<T>, Option<T>), E>)
    ensures
        primary is Err && backup is Err ==> r == Err::<(Option<T>, Option<T>), E>(primary->Err_0),
        !(primary is Err && backup is Err) ==> r == Ok::<(Option<T>, Option<T>), E>((ok_of(primary), ok_of(backup))),
{
    match primary {
        Err(e) => match backup {
            Err(_) => Err(e),
            Ok(b) => Ok((None, Some(b))),
        },
        Ok(p) => match backup {
            Err(_) => Ok((Some(p), None)),
            Ok(b) => Ok((Some(p), Some(b))),
        },
    }
}

/// Merges the clocks read from both replicas: the larger one wins and is
/// pushed to the replica that read lower.
pub fn merge_clock(primary: u64, backup: u64) -> (r: ClockMerge)
    ensures
        r == spec_merge_clock(primary, backup),
{
    if primary > backup {
        ClockMerge { value: primary, push_primary: None, push_backup: Some(primary) }
    } else if primary < backup {
        ClockMerge { value: backup, push_primary: Some(backup), push_backup: None }
    } else {
        ClockMerge { value: primary, push_primary: None, push_backup: None }
    }
}

/// The clock a new list entry is tagged with: the larger of the two replicas'.
pub fn append_clock(primary: u64, backup: u64) -> (r: u64)
    ensures
        r == if primary > backup {
            primary
        } else {
            backup
        },
{
    if primary > backup {
        primary
    } else {
        backup
    }
}

/// The answer of the replica whose clock reads higher, the backup's on a tie.
pub open spec fn newer<A>(primary: A, backup: A, primary_clock: u64, backup_clock: u64) -> A {
    if primary_clock > backup_clock {
        primary
    } else {
        backup
    }
}

/// The value a read returns: the one from the replica whose clock reads
/// higher, the backup's on a tie.
pub fn pick_newer(primary: Option<String>, backup: Option<String>, primary_clock: u64, backup_clock: u64) -> (r: Option<String>)
    ensures
        r == newer(primary, backup, primary_clock, backup_clock),
{
    if primary_clock > backup_clock {
        primary
    } else {
        backup
    }
}

/// A write to both replicas succeeds when at least one of them took it.
pub fn write_succeeded(primary_ok: bool, backup_ok: bool) -> (r: bool)
    ensures
        r == (primary_ok || backup_ok),
{
    primary_ok || backup_ok
}

impl LogEntry {
    /// A new entry for `message`, tagged with the larger replica clock.
    pub fn tagged(message: &str, primary_clock: u64, backup_clock: u64) -> (r: LogEntry)
        ensures
            r.message@ == message@,
            r.clock == if primary_clock > backup_clock {
                primary_clock
            } else {
                backup_clock
            },
    {
        LogEntry { message: message.to_owned(), clock: append_clock(primary_clock, backup_clock) }
    }

    fn copy(&self) -> (r: LogEntry)
        ensures
            r@ == self@,
    {
        LogEntry { message: self.message.clone(), clock: self.clock }
    }

    fn less(&self, other: &LogEntry) -> (r: bool)
        ensures
            r == log_lt(self@, other@),
    {
        self.clock < other.clock || (self.clock == other.clock && str_less(
            self.message.as_str(),
            other.message.as_str(),
        ))
    }
}

pub proof fn lemma_log_lt_total(a: (u64, Seq<char>), b: (u64, Seq<char>))
    ensures
        a != b ==> (log_lt(a, b) || log_lt(b, a)),
        !(log_lt(a, b) && log_lt(b, a)),
{
    lemma_str_lt_total(a.1, b.1);
}

pub proof fn lemma_log_lt_transitive(a: (u64, Seq<char>), b: (u64, Seq<char>), c: (u64, Seq<char>))
    requires
        log_lt(a, b),
        log_lt(b, c),
    ensures
        log_lt(a, c),
{
    if a.0 == b.0 && b.0 == c.0 {
        lemma_str_lt_transitive(a.1, b.1, c.1);
    }
}

/// In a sorted list every entry sorts before every later one.
pub proof fn lemma_log_sorted_pairwise(s: Seq<(u64, Seq<char>)>, i: int, j: int)
    requires
        log_sorted(s),
        0 <= i < j < s.len(),
    ensures
        log_lt(s[i], s[j]),
    decreases j - i,
{
    if j > i + 1 {
        lemma_log_sorted_pairwise(s, i, j - 1);
        assert(log_lt(s[j - 1], s[j]));
        lemma_log_lt_transitive(s[i], s[j - 1], s[j]);
    }
}

/// Inserts `e` into a sorted list, unless an equal entry is already there.
fn insert_sorted(r: &mut Vec<LogEntry>, e: LogEntry)
    requires
        log_sorted(log_views(old(r)@)),
    ensures
        log_sorted(log_views(final(r)@)),
        forall|x: (u64, Seq<char>)|
            log_views(final(r)@).contains(x) <==> (log_views(old(r)@).contains(x) || x == e@),
{
    let ghost before = log_views(r@);
    let mut p: usize = 0;
    let mut scanning = true;
    while scanning && p < r.len()
        invariant
            p <= r.len(),
            r@ == old(r)@,
            before == log_views(r@),
            p > 0 ==> log_lt(before[p - 1], e@),
            !scanning ==> p < r.len() && !log_lt(before[p as int], e@),
        decreases r.len() - p + if scanning { 1int } else { 0int },
    {
        if r[p].less(&e) {
            p = p + 1;
        } else {
            scanning = false;
        }
    }
    if p < r.len() && r[p].clock == e.clock && r[p].message == e.message {
        proof {
            assert(before[p as int] == e@);
            assert forall|x: (u64, Seq<char>)|
                log_views(r@).contains(x) <==> (before.contains(x) || x == e@) by {
                if x == e@ {
                    assert(before[p as int] == x);
                }
            }
        }
        return;
    }
    proof {
        if p < r.len() {
            lemma_log_lt_total(before[p as int], e@);
            assert(before[p as int] != e@);
            assert(log_lt(e@, before[p as int]));
        }
    }
    let ghost ev = e@;
    r.insert(p, e);
    proof {
        let after = log_views(r@);
        assert(after =~= before.insert(p as int, ev));
        assert forall|i: int| 0 <= i && i + 1 < after.len() implies log_lt(
            #[trigger] after[i],
            after[i + 1],
        ) by {
            if i + 1 < p {
                assert(log_lt(before[i], before[i + 1]));
            } else if i + 1 == p {
                assert(after[i] == before[i] && after[i + 1] == ev);
            } else if i == p {
                assert(after[i] == ev && after[i + 1] == before[i]);
            } else {
                assert(log_lt(before[i - 1], before[i]));
            }
        }
        assert forall|x: (u64, Seq<char>)| after.contains(x) <==> (before.contains(x) || x == ev) by {
            if after.contains(x) {
                let k = choose|k: int| 0 <= k < after.len() && after[k] == x;
                if k < p {
                    assert(before[k] == x);
                } else if k > p {
                    assert(before[k - 1] == x);
                }
            }
            if before.contains(x) {
                let k = choose|k: int| 0 <= k < before.len() && before[k] == x;
                if k < p {
                    assert(after[k] == x);
                } else {
                    assert(after[k + 1] == x);
                }
            }
            if x == ev {
                assert(after[p as int] == x);
            }
        }
    }
}

/// Inserts every entry of `src` into the sorted list `r`.
fn insert_all(dst: Vec<LogEntry>, src: &Vec<LogEntry>) -> (r: Vec<LogEntry>)
    requires
        log_sorted(log_views(dst@)),
    ensures
        log_sorted(log_views(r@)),
        forall|x: (u64, Seq<char>)|
            log_views(r@).contains(x) <==> (log_views(dst@).contains(x) || log_views(
                src@,
            ).contains(x)),
{
    let mut r = dst;
    let ghost start = log_views(r@);
    let mut i: usize = 0;
    while i < src.len()
        invariant
            i <= src.len(),
            start == log_views(dst@),
            log_sorted(log_views(r@)),
            forall|x: (u64, Seq<char>)|
                log_views(r@).contains(x) <==> (start.contains(x) || log_views(
                    src@.subrange(0, i as int),
                ).contains(x)),
        decreases src.len() - i,
    {
        let e = src[i].copy();
        let ghost prev = log_views(r@);
        insert_sorted(&mut r, e);
        proof {
            let done = log_views(src@.subrange(0, i as int));
            let now = log_views(src@.subrange(0, i + 1));
            assert(now =~= done.push(src@[i as int]@));
            assert forall|x: (u64, Seq<char>)| now.contains(x) <==> (done.contains(x) || x
                == src@[i as int]@) by {
                if now.contains(x) {
                    let k = choose|k: int| 0 <= k < now.len() && now[k] == x;
                    if k < i {
                        assert(done[k] == x);
                    }
                }
                if done.contains(x) {
                    let k = choose|k: int| 0 <= k < done.len() && done[k] == x;
                    assert(now[k] == x);
                }
                if x == src@[i as int]@ {
                    assert(now[i as int] == x);
                }
            }
            assert forall|x: (u64, Seq<char>)|
                log_views(r@).contains(x) <==> (start.contains(x) || now.contains(x)) by {
                assert(log_views(r@).contains(x) <==> (prev.contains(x) || x == src@[i as int]@));
            }
        }
        i = i + 1;
    }
    proof {
        assert(src@.subrange(0, src.len() as int) =~= src@);
    }
    r
}

/// The entries of both replicas' lists, each once, sorted by clock and
/// then by value.
pub fn merge_log(primary: &Vec<LogEntry>, backup: &Vec<LogEntry>) -> (r: Vec<LogEntry>)
    ensures
        is_log_merge(primary@, backup@, r@),
{
    let r0: Vec<LogEntry> = Vec::new();
    proof {
        assert(log_views(r0@) =~= Seq::<(u64, Seq<char>)>::empty());
    }
    let ghost empty = log_views(r0@);
    let r1 = insert_all(r0, primary);
    let ghost mid = log_views(r1@);
    let r = insert_all(r1, backup);
    proof {
        assert forall|x: (u64, Seq<char>)|
            log_views(r@).contains(x) <==> (log_views(primary@).contains(x) || log_views(
                backup@,
            ).contains(x)) by {
            assert(!empty.contains(x));
            assert(mid.contains(x) <==> (empty.contains(x) || log_views(primary@).contains(x)));
            assert(log_views(r@).contains(x) <==> (mid.contains(x) || log_views(backup@).contains(x)));
        }
    }
    r
}

/// The values of a list's entries, in order.
pub fn log_messages(entries: &Vec<LogEntry>) -> (r: Vec<String>)
    ensures
        str_views(r@) == messages_of(entries@),
{
    let mut r: Vec<String> = Vec::new();
    let mut i: usize = 0;
    while i < entries.len()
        invariant
            i <= entries.len(),
            str_views(r@) == messages_of(entries@).subrange(
                0,
                i as int,
            ),
        decreases entries.len() - i,
    {
        let ghost before = r@;
        let m = entries[i].message.clone();
        r.push(m);
        proof {
            assert(r@ == before.push(m));
            assert(str_views(r@) =~= str_views(before).push(m@));
            assert(messages_of(entries@).subrange(0, i + 1) =~= messages_of(entries@).subrange(0, i as int).push(entries@[i as int].message@));
        }
        i = i + 1;
        proof {
            assert(str_views(r@) =~= messages_of(entries@).subrange(
                0,
                i as int,
            ));
        }
    }
    proof {
        assert(str_views(r@) =~= messages_of(entries@));
    }
    r
}

/// Whether `x` is among the strings of `r`.
pub fn contains_str(r: &Vec<String>, x: &String) -> (b: bool)
    ensures
        b == str_views(r@).contains(x@),
{
    let mut i: usize = 0;
    while i < r.len()
        invariant
            i <= r.len(),
            forall|j: int| 0 <= j < i ==> r@[j]@ != x@,
        decreases r.len() - i,
    {
        if r[i] == *x {
            proof {
                assert(str_views(r@)[i as int] == x@);
            }
            return true;
        }
        i = i + 1;
    }
    proof {
        if str_views(r@).contains(x@) {
            let k = choose|k: int| 0 <= k < r.len() && str_views(r@)[k] == x@;
            assert(r@[k]@ == x@);
        }
    }
    false
}

/// `x` is the key, within its bin, of one of the stored keys `ks`.
pub open spec fn key_of_some(ks: Seq<String>, x: Seq<char>) -> bool {
    exists|i: int| 0 <= i < ks.len() && key_part(#[trigger] ks[i]@) == x
}

/// Adds to `r` the key within its bin of each stored key of `src`, unless
/// already there.
fn add_keys(dst: Vec<String>, src: &Vec<String>) -> (r: Vec<String>)
    requires
        no_duplicates(str_views(dst@)),
    ensures
        no_duplicates(str_views(r@)),
        forall|x: Seq<char>|
            #[trigger] str_views(r@).contains(x) <==> (str_views(dst@).contains(x) || key_of_some(
                src@,
                x,
            )),
{
    let mut r = dst;
    let ghost start = str_views(r@);
    let mut i: usize = 0;
    while i < src.len()
        invariant
            i <= src.len(),
            start == str_views(dst@),
            no_duplicates(str_views(r@)),
            forall|x: Seq<char>|
                str_views(r@).contains(x) <==> (start.contains(x) || key_of_some(
                    src@.subrange(0, i as int),
                    x,
                )),
        decreases src.len() - i,
    {
        let ghost old_r = str_views(r@);
        proof {
            assert forall|x: Seq<char>| old_r.contains(x) <==> (start.contains(x) || key_of_some(src@.subrange(0, i as int), x)) by {}
        }
        let (_name, key) = split_bin_key(src[i].as_str());
        let ghost kv = key@;
        if !contains_str(&r, &key) {
            r.push(key);
            proof {
                assert(str_views(r@) =~= old_r.push(kv));
                assert forall|a: int, b: int| 0 <= a < b < str_views(r@).len() implies str_views(
                    r@,
                )[a] != str_views(r@)[b] by {
                    if b == old_r.len() {
                        assert(old_r[a] == str_views(r@)[a]);
                    } else {
                        assert(old_r[a] == str_views(r@)[a] && old_r[b] == str_views(r@)[b]);
                    }
                }
            }
        }
        proof {
            let now = str_views(r@);
            let done = src@.subrange(0, i as int);
            let more = src@.subrange(0, i + 1);
            assert forall|x: Seq<char>| now.contains(x) <==> (old_r.contains(x) || x == kv) by {
                if now.contains(x) && !old_r.contains(x) {
                    let m = choose|m: int| 0 <= m < now.len() && now[m] == x;
                    if m < old_r.len() {
                        assert(old_r[m] == x);
                    }
                }
                if old_r.contains(x) {
                    let m = choose|m: int| 0 <= m < old_r.len() && old_r[m] == x;
                    assert(now[m] == x);
                }
                if x == kv && !old_r.contains(x) {
                    assert(now[now.len() - 1] == x);
                }
            }
            assert forall|x: Seq<char>| key_of_some(more, x) <==> (key_of_some(done, x) || x
                == kv) by {
                if key_of_some(more, x) {
                    let j = choose|j: int| 0 <= j < more.len() && key_part(#[trigger] more[j]@) == x;
                    if j < i {
                        assert(done[j] == more[j]);
                    }
                }
                if key_of_some(done, x) {
                    let j = choose|j: int| 0 <= j < done.len() && key_part(#[trigger] done[j]@) == x;
                    assert(more[j] == done[j]);
                }
                if x == kv {
                    assert(more[i as int] == src@[i as int]);
                }
            }
            assert forall|x: Seq<char>| now.contains(x) <==> (start.contains(x) || key_of_some(more, x)) by {
                assert(now.contains(x) <==> (old_r.contains(x) || x == kv));
                assert(old_r.contains(x) <==> (start.contains(x) || key_of_some(done, x)));
                assert(key_of_some(more, x) <==> (key_of_some(done, x) || x == kv));
            }
        }
        i = i + 1;
    }
    proof {
        assert(src@.subrange(0, src.len() as int) =~= src@);
    }
    r
}

/// The keys, within the bin, of the stored keys of both replicas, each once.
pub fn merge_keys(primary: &Vec<String>, backup: &Vec<String>) -> (r: Vec<String>)
    ensures
        no_duplicates(str_views(r@)),
        forall|x: Seq<char>|
            str_views(r@).contains(x) <==> (key_of_some(primary@, x) || key_of_some(backup@, x)),
{
    let r0: Vec<String> = Vec::new();
    let ghost empty = str_views(r0@);
    proof {
        assert(empty =~= Seq::<Seq<char>>::empty());
    }
    let r1 = add_keys(r0, primary);
    let ghost mid = str_views(r1@);
    let r = add_keys(r1, backup);
    proof {
        assert forall|x: Seq<char>|
            str_views(r@).contains(x) <==> (key_of_some(primary@, x) || key_of_some(backup@, x)) by {
            assert(!empty.contains(x));
            assert(mid.contains(x) <==> (empty.contains(x) || key_of_some(primary@, x)));
            assert(str_views(r@).contains(x) <==> (mid.contains(x) || key_of_some(backup@, x)));
        }
    }
    r
}

/// Positions, in order, of the entries among the first `n` of `s` whose
/// value is `v`.
pub open spec fn matching_upto(s: Seq<LogEntry>, v: Seq<char>, n: int) -> Seq<usize>
    decreases n,
{
    if n <= 0 {
        Seq::empty()
    } else if s[n - 1].message@ == v {
        matching_upto(s, v, n - 1).push((n - 1) as usize)
    } else {
        matching_upto(s, v, n - 1)
    }
}

/// Positions, in order, of the entries of `s` whose value is `v`.
pub open spec fn matching(s: Seq<LogEntry>, v: Seq<char>) -> Seq<usize> {
    matching_upto(s, v, s.len() as int)
}

/// Positions, in order, of the entries of `entries` whose value is `value`.
pub fn matching_entries(entries: &Vec<LogEntry>, value: &str) -> (r: Vec<usize>)
    ensures
        r@ == matching(entries@, value@),
{
    let target = value.to_owned();
    let mut r: Vec<usize> = Vec::new();
    let mut i: usize = 0;
    while i < entries.len()
        invariant
            i <= entries.len(),
            target@ == value@,
            r@ == matching_upto(entries@, value@, i as int),
        decreases entries.len() - i,
    {
        if entries[i].message == target {
            r.push(i);
        }
        i = i + 1;
    }
    r
}

/// What removing `value` from a list takes on each replica: the positions
/// of its entries on the primary and on the backup. The primary's count is
/// the one reported.
pub fn removal_plan(primary: &Vec<LogEntry>, backup: &Vec<LogEntry>, value: &str) -> (r: (Vec<usize>, Vec<usize>))
    ensures
        r.0@ == matching(primary@, value@),
        r.1@ == matching(backup@, value@),
{
    (matching_entries(primary, value), matching_entries(backup, value))
}

/// A write to one bin's key leaves every other bin's keys as they were on
/// a replica, and the written key reads back the written value.
pub proof fn lemma_store_isolation(
    store: Map<Seq<char>, Seq<char>>,
    n1: Seq<char>,
    k1: Seq<char>,
    v: Seq<char>,
    n2: Seq<char>,
    k2: Seq<char>,
)
    requires
        n1 != n2 || k1 != k2,
    ensures
        store.insert(bin_key_seq(n1, k1), v)[bin_key_seq(n1, k1)] == v,
        store.insert(bin_key_seq(n1, k1), v).contains_key(bin_key_seq(n2, k2)) == store.contains_key(
            bin_key_seq(n2, k2),
        ),
        store.insert(bin_key_seq(n1, k1), v)[bin_key_seq(n2, k2)] == store[bin_key_seq(n2, k2)],
{
    if bin_key_seq(n1, k1) == bin_key_seq(n2, k2) {
        lemma_bin_key_injective(n1, k1, n2, k2);
    }
}

/// Once both replicas hold the value last written to a key, a read returns
/// that value whatever the two clocks read: a converged key never reverts
/// to an older value.
pub proof fn lemma_converged_read(value: Option<String>, primary_clock: u64, backup_clock: u64)
    ensures
        newer(value, value, primary_clock, backup_clock) == value,
{
}

/// A list entry that either replica holds is read back, exactly once.
pub proof fn lemma_appended_visible(
    primary: Seq<LogEntry>,
    backup: Seq<LogEntry>,
    merged: Seq<LogEntry>,
    e: (u64, Seq<char>),
)
    requires
        is_log_merge(primary, backup, merged),
        log_views(primary).contains(e) || log_views(backup).contains(e),
    ensures
        exists|k: int| 0 <= k < merged.len() && merged[k]@ == e,
        forall|i: int, j: int| 0 <= i < j < merged.len() ==> merged[i]@ != merged[j]@,
{
    let v = log_views(merged);
    assert(v.contains(e));
    let k = choose|k: int| 0 <= k < v.len() && v[k] == e;
    assert(merged[k]@ == e);
    assert forall|i: int, j: int| 0 <= i < j < merged.len() implies merged[i]@ != merged[j]@ by {
        lemma_log_sorted_pairwise(v, i, j);
        lemma_log_lt_total(v[i], v[j]);
        assert(v[i] == merged[i]@ && v[j] == merged[j]@);
    }
}

/// Clock readings through a bin never go back: a second clock call returns
/// at least what the first returned, and each returns at least what it was
/// asked for, provided each backend's clock call honours its own contract.
pub proof fn lemma_clock_monotone(
    at_least1: u64,
    p0: int,
    b0: int,
    p_reply1: u64,
    b_reply1: u64,
    p1: int,
    b1: int,
    p2: int,
    b2: int,
    at_least2: u64,
    p_reply2: u64,
    b_reply2: u64,
    p3: int,
    b3: int,
)
    requires
        clock_call(p0, at_least1 as int, p_reply1 as int, p1),
        clock_call(b0, at_least1 as int, b_reply1 as int, b1),
        after_push(p1, spec_merge_clock(p_reply1, b_reply1).push_primary, p2),
        after_push(b1, spec_merge_clock(p_reply1, b_reply1).push_backup, b2),
        clock_call(p2, at_least2 as int, p_reply2 as int, p3),
        clock_call(b2, at_least2 as int, b_reply2 as int, b3),
    ensures
        spec_merge_clock(p_reply1, b_reply1).value >= at_least1,
        spec_merge_clock(p_reply2, b_reply2).value >= at_least2,
        spec_merge_clock(p_reply2, b_reply2).value >= spec_merge_clock(p_reply1, b_reply1).value,
        p2 >= spec_merge_clock(p_reply1, b_reply1).value,
        b2 >= spec_merge_clock(p_reply1, b_reply1).value,
{
}

} // verus!
