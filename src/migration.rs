//! Data migration on a backend joining or leaving the ring: which arcs of
//! the ring are copied, from where, to where, and which stored keys fall in
//! an arc.

use crate::colon::{bin_part, split_bin_key};
use crate::ring::{
    bin_hash, bwd_dist, fwd_dist, is_first_live, live_flags, live_view, name_hash, next_live, pred, succ,
    StatusTableEntry,
};
use vstd::prelude::*;

verus! {

/// Copy every key whose ring position lies in the arc
/// `(arc_start, arc_end]` from backend `source` to backend `dest`.
#[derive(Clone, Copy, Debug, PartialEq, Eq)]
pub struct MigrationTask {
    pub arc_start: usize,
    pub arc_end: usize,
    pub source: usize,
    pub dest: usize,
}

/// `h` lies in the ring arc `(s, e]`; an arc with `s == e` is the whole ring.
pub open spec fn in_arc(h: int, s: int, e: int) -> bool {
    if s < e {
        s < h && h <= e
    } else if s > e {
        h > s || h <= e
    } else {
        true
    }
}

/// What `node_join` returns for `curr` joining a ring whose flags were `before`.
pub open spec fn join_result(before: Seq<bool>, curr: int, r: Option<MigrationTask>) -> bool {
    &&& (r is None <==> alone(before, curr))
    &&& (r matches Some(t) ==> is_join_task(before, curr, t))
}

/// What `node_leave` returns for `curr` leaving a ring whose flags were `before`.
pub open spec fn leave_result(before: Seq<bool>, curr: int, r: Seq<MigrationTask>) -> bool {
    &&& alone(before, curr) ==> r.len() == 0
    &&& !alone(before, curr) ==> exists|pp: int, p: int, nx: int, nn: int|
        leave_neighbours(before, curr, pp, p, nx, nn) && r == #[trigger] leave_tasks(pp, p, nx, nn)
}

/// The liveness flags with position `i` set to `b`.
pub open spec fn with_status(live: Seq<bool>, i: int, b: bool) -> Seq<bool> {
    live.update(i, b)
}

/// Ring position of a stored key: the hash of its bin name modulo `n`.
pub open spec fn key_position(k: Seq<char>, n: int) -> int {
    name_hash(bin_part(k)) as int % n
}

/// The task that seeds `curr`, joining a ring whose flags were `before`:
/// after the join `curr` is primary for `(prev, curr]` and backup for
/// `(prev_prev, prev]`, all of which its live successor `next` held.
pub open spec fn is_join_task(before: Seq<bool>, curr: int, t: MigrationTask) -> bool {
    let after = with_status(before, curr, true);
    let n = before.len() as int;
    &&& t.dest == curr
    &&& t.arc_end == curr
    &&& t.source != curr
    &&& is_first_live(after, succ(curr, n), t.source as int, true)
    &&& exists|prev: int|
        is_first_live(after, pred(curr, n), prev, false) && #[trigger] is_first_live(
            after,
            pred(prev, n),
            t.arc_start as int,
            false,
        )
}

/// No live position but `curr`.
pub open spec fn alone(live: Seq<bool>, curr: int) -> bool {
    forall|j: int| 0 <= j < live.len() && j != curr ==> !#[trigger] live[j]
}

/// The live neighbours of `curr` once it has left a ring whose flags were
/// `before`.
pub open spec fn leave_neighbours(
    before: Seq<bool>,
    curr: int,
    prev_prev: int,
    prev: int,
    next: int,
    next_next: int,
) -> bool {
    let after = with_status(before, curr, false);
    let n = before.len() as int;
    &&& is_first_live(after, pred(curr, n), prev, false)
    &&& is_first_live(after, pred(prev, n), prev_prev, false)
    &&& is_first_live(after, succ(curr, n), next, true)
    &&& is_first_live(after, succ(next, n), next_next, true)
}

/// The tasks that restore two copies of every key after `curr` leaves: the
/// arc `(prev, next]` goes from `next` to `next_next`, its new backup, and
/// `(prev_prev, prev]` from `prev` to `next`, its new backup. A task whose
/// source is its destination is left out.
pub open spec fn leave_tasks(prev_prev: int, prev: int, next: int, next_next: int) -> Seq<MigrationTask> {
    let t1 = MigrationTask {
        arc_start: prev as usize,
        arc_end: next as usize,
        source: next as usize,
        dest: next_next as usize,
    };
    let t2 = MigrationTask {
        arc_start: prev_prev as usize,
        arc_end: prev as usize,
        source: prev as usize,
        dest: next as usize,
    };
    let first = if next != next_next {
        seq![t1]
    } else {
        Seq::empty()
    };
    if prev != next {
        first.push(t2)
    } else {
        first
    }
}

/// Whether position `h` lies in the arc `(s, e]`.
pub fn in_arc_exec(h: usize, s: usize, e: usize) -> (r: bool)
    ensures
        r == in_arc(h as int, s as int, e as int),
{
    if s < e {
        s < h && h <= e
    } else if s > e {
        h > s || h <= e
    } else {
        true
    }
}

fn ring_succ(i: usize, n: usize) -> (r: usize)
    requires
        i < n,
    ensures
        r == succ(i as int, n as int),
        r < n,
{
    if i + 1 >= n {
        0
    } else {
        i + 1
    }
}

fn ring_pred(i: usize, n: usize) -> (r: usize)
    requires
        i < n,
    ensures
        r == pred(i as int, n as int),
        r < n,
{
    if i == 0 {
        n - 1
    } else {
        i - 1
    }
}

/// The flags of `table` with position `i` set to `b`.
fn flags_with(table: &Vec<StatusTableEntry>, i: usize, b: bool) -> (r: Vec<bool>)
    requires
        i < table.len(),
    ensures
        r@ == with_status(live_view(table@), i as int, b),
{
    let mut r = live_flags(table);
    r.set(i, b);
    r
}

/// The migration that seeds backend `curr` as it joins the ring: `None`
/// when no other backend is live, as there is nothing to copy.
pub fn node_join(curr: usize, table: &Vec<StatusTableEntry>) -> (r: Option<MigrationTask>)
    requires
        curr < table.len(),
    ensures
        join_result(live_view(table@), curr as int, r),
{
    let ghost before = live_view(table@);
    let n = table.len();
    let live = flags_with(table, curr, true);
    let ghost after = live@;
    assert(after[curr as int]);
    let next = match next_live(&live, ring_succ(curr, n), true) {
        Some(x) => x,
        None => {
            return None;
        },
    };
    if next == curr {
        proof {
            assert forall|j: int| 0 <= j < n && j != curr implies !#[trigger] before[j] by {
                if before[j] {
                    assert(after[j]);
                }
            }
        }
        return None;
    }
    proof {
        assert(before[next as int]);
    }
    let prev = match next_live(&live, ring_pred(curr, n), false) {
        Some(x) => x,
        None => {
            return None;
        },
    };
    let prev_prev = match next_live(&live, ring_pred(prev, n), false) {
        Some(x) => x,
        None => {
            return None;
        },
    };
    let t = MigrationTask { arc_start: prev_prev, arc_end: curr, source: next, dest: curr };
    proof {
        assert(is_first_live(after, pred(curr as int, n as int), prev as int, false)
            && is_first_live(after, pred(prev as int, n as int), t.arc_start as int, false));
    }
    Some(t)
}

/// The migrations that restore two copies of every key once backend `curr`
/// has left the ring; none when no other backend is live.
pub fn node_leave(curr: usize, table: &Vec<StatusTableEntry>) -> (r: Vec<MigrationTask>)
    requires
        curr < table.len(),
    ensures
        leave_result(live_view(table@), curr as int, r@),
{
    let ghost before = live_view(table@);
    let n = table.len();
    let live = flags_with(table, curr, false);
    let ghost after = live@;
    let mut r: Vec<MigrationTask> = Vec::new();
    let next = match next_live(&live, ring_succ(curr, n), true) {
        Some(x) => x,
        None => {
            proof {
                assert forall|j: int| 0 <= j < n && j != curr implies !#[trigger] before[j] by {
                    assert(!after[j]);
                }
            }
            return r;
        },
    };
    proof {
        assert(next != curr);
        assert(before[next as int]);
    }
    let prev = match next_live(&live, ring_pred(curr, n), false) {
        Some(x) => x,
        None => {
            return r;
        },
    };
    let prev_prev = match next_live(&live, ring_pred(prev, n), false) {
        Some(x) => x,
        None => {
            return r;
        },
    };
    let next_next = match next_live(&live, ring_succ(next, n), true) {
        Some(x) => x,
        None => {
            return r;
        },
    };
    if next != next_next {
        r.push(MigrationTask { arc_start: prev, arc_end: next, source: next, dest: next_next });
    }
    if prev != next {
        r.push(MigrationTask { arc_start: prev_prev, arc_end: prev, source: prev, dest: next });
    }
    proof {
        assert(leave_neighbours(before, curr as int, prev_prev as int, prev as int, next as int, next_next as int));
        assert(r@ =~= leave_tasks(prev_prev as int, prev as int, next as int, next_next as int));
    }
    r
}

/// The ring position of a stored key on a ring of `n` backends.
pub fn key_position_exec(k: &str, n: usize) -> (r: usize)
    requires
        n > 0,
    ensures
        r == key_position(k@, n as int),
        r < n,
{
    let (name, _key) = split_bin_key(k);
    let h = bin_hash(name.as_str());
    (h % (n as u64)) as usize
}

/// The stored keys, out of `keys`, that `task` copies on a ring of
/// `ring_len` backends, in their original order.
pub fn data_migration(keys: &Vec<String>, task: &MigrationTask, ring_len: usize) -> (r: Vec<String>)
    requires
        ring_len > 0,
    ensures
        r@ == keys@.filter(
            |k: String| in_arc(key_position(k@, ring_len as int), task.arc_start as int, task.arc_end as int),
        ),
{
    let ghost pick = |k: String|
        in_arc(key_position(k@, ring_len as int), task.arc_start as int, task.arc_end as int);
    let mut r: Vec<String> = Vec::new();
    let mut i: usize = 0;
    while i < keys.len()
        invariant
            i <= keys.len(),
            ring_len > 0,
            pick == (|k: String|
                in_arc(key_position(k@, ring_len as int), task.arc_start as int, task.arc_end as int)),
            r@ == keys@.subrange(0, i as int).filter(pick),
        decreases keys.len() - i,
    {
        let pos = key_position_exec(keys[i].as_str(), ring_len);
        proof {
            assert(keys@.subrange(0, i + 1) =~= keys@.subrange(0, i as int).push(keys@[i as int]));
            keys@.subrange(0, i as int).lemma_filter_push(keys@[i as int], pick);
        }
        if in_arc_exec(pos, task.arc_start, task.arc_end) {
            r.push(keys[i].clone());
        }
        i = i + 1;
    }
    proof {
        assert(keys@.subrange(0, keys.len() as int) =~= keys@);
    }
    r
}

/// Positions owned by `c` lie in the arc that ends at `c` and starts at its
/// live predecessor.
pub proof fn lemma_owned_in_arc(live: Seq<bool>, h: int, c: int, p: int)
    requires
        0 <= h < live.len(),
        is_first_live(live, h, c, true),
        is_first_live(live, pred(c, live.len() as int), p, false),
        p != c,
    ensures
        in_arc(h, p, c),
{
    let n = live.len() as int;
    assert(live[p]);
    assert(fwd_dist(h, c, n) <= fwd_dist(h, p, n));
    if !in_arc(h, p, c) {
        // h lies strictly between c and p going forward, or is p itself:
        // then walking back from c meets h's predecessor range before p.
        assert(live[c]);
        assert(bwd_dist(pred(c, n), p, n) <= bwd_dist(pred(c, n), c, n));
    }
}

/// Once the owner `c` of `h` is gone, the next live position after `c`
/// owns `h`.
pub proof fn lemma_owner_removed(live: Seq<bool>, h: int, c: int, x: int)
    requires
        0 <= h < live.len(),
        is_first_live(live, h, c, true),
        is_first_live(live, succ(c, live.len() as int), x, true),
        x != c,
    ensures
        is_first_live(with_status(live, c, false), h, x, true),
{
    let n = live.len() as int;
    let gone = with_status(live, c, false);
    assert forall|j: int| 0 <= j < n && #[trigger] gone[j] implies fwd_dist(h, x, n) <= fwd_dist(
        h,
        j,
        n,
    ) by {
        assert(live[j]);
        assert(j != c);
        assert(fwd_dist(h, c, n) <= fwd_dist(h, j, n));
        assert(fwd_dist(succ(c, n), x, n) <= fwd_dist(succ(c, n), j, n));
    }
}

/// A join loses nothing: every position whose new primary is the joining
/// backend lies in the copied arc, and the task's source was its primary
/// before the join.
pub proof fn lemma_join_complete(before: Seq<bool>, curr: int, t: MigrationTask, h: int)
    requires
        0 <= curr < before.len(),
        is_join_task(before, curr, t),
        0 <= h < before.len(),
        is_first_live(with_status(before, curr, true), h, curr, true),
    ensures
        in_arc(h, t.arc_start as int, t.arc_end as int),
        is_first_live(with_status(before, curr, false), h, t.source as int, true),
{
    let n = before.len() as int;
    let after = with_status(before, curr, true);
    let prev = choose|prev: int|
        is_first_live(after, pred(curr, n), prev, false) && #[trigger] is_first_live(
            after,
            pred(prev, n),
            t.arc_start as int,
            false,
        );
    assert(after[t.source as int]);
    assert(prev != curr) by {
        assert(bwd_dist(pred(curr, n), prev, n) <= bwd_dist(pred(curr, n), t.source as int, n));
    }
    lemma_owned_in_arc(after, h, curr, prev);
    let pp = t.arc_start as int;
    if pp != curr {
        assert(after[pp]);
        assert(after[curr]);
        assert(bwd_dist(pred(prev, n), pp, n) <= bwd_dist(pred(prev, n), curr, n));
        assert(bwd_dist(pred(curr, n), prev, n) <= bwd_dist(pred(curr, n), pp, n));
    }
    lemma_owner_removed(after, h, curr, t.source as int);
    assert(with_status(after, curr, false) =~= with_status(before, curr, false));
}

/// The live position just before `c` is the one whose live successor is `c`.
pub proof fn lemma_pred_of_succ(live: Seq<bool>, p: int, c: int)
    requires
        0 <= p < live.len(),
        live[p],
        is_first_live(live, succ(p, live.len() as int), c, true),
        p != c,
    ensures
        is_first_live(live, pred(c, live.len() as int), p, false),
{
    let n = live.len() as int;
    assert forall|j: int| 0 <= j < n && #[trigger] live[j] implies bwd_dist(pred(c, n), p, n)
        <= bwd_dist(pred(c, n), j, n) by {
        assert(fwd_dist(succ(p, n), c, n) <= fwd_dist(succ(p, n), j, n));
    }
}

/// Another position going dark does not change who is reached first.
pub proof fn lemma_first_live_kept(live: Seq<bool>, h: int, p: int, c: int)
    requires
        0 <= c < live.len(),
        is_first_live(live, h, p, true),
        c != p,
    ensures
        is_first_live(with_status(live, c, false), h, p, true),
{
    let gone = with_status(live, c, false);
    assert forall|j: int| 0 <= j < live.len() && #[trigger] gone[j] implies live[j] by {}
}

/// A join loses nothing the joining backend backs up: every position whose
/// new backup is the joining backend lies in the copied arc, and before the
/// join the task's source was its backup, behind the same primary.
pub proof fn lemma_join_complete_backup(before: Seq<bool>, curr: int, t: MigrationTask, h: int, p: int)
    requires
        0 <= curr < before.len(),
        is_join_task(before, curr, t),
        0 <= h < before.len(),
        p != curr,
        is_first_live(with_status(before, curr, true), h, p, true),
        is_first_live(with_status(before, curr, true), succ(p, before.len() as int), curr, true),
    ensures
        in_arc(h, t.arc_start as int, t.arc_end as int),
        is_first_live(with_status(before, curr, false), h, p, true),
        is_first_live(with_status(before, curr, false), succ(p, before.len() as int), t.source as int, true),
{
    let n = before.len() as int;
    let after = with_status(before, curr, true);
    let prev = choose|prev: int|
        is_first_live(after, pred(curr, n), prev, false) && #[trigger] is_first_live(
            after,
            pred(prev, n),
            t.arc_start as int,
            false,
        );
    lemma_pred_of_succ(after, p, curr);
    assert(p == prev) by {
        assert(after[p] && after[prev]);
    }
    let pp = t.arc_start as int;
    assert(after[curr]);
    assert(pp != prev) by {
        assert(bwd_dist(pred(prev, n), pp, n) <= bwd_dist(pred(prev, n), curr, n));
    }
    lemma_owned_in_arc(after, h, prev, pp);
    if pp != curr {
        assert(after[pp]);
        assert(bwd_dist(pred(curr, n), prev, n) <= bwd_dist(pred(curr, n), pp, n));
    }
    lemma_first_live_kept(after, h, p, curr);
    lemma_owner_removed(after, succ(p, n), curr, t.source as int);
    assert(with_status(after, curr, false) =~= with_status(before, curr, false));
}

/// A leave loses nothing the departed backend held as primary: the new
/// primary is its live successor, which held the position as backup, and
/// the first task copies the position from there to the new backup.
pub proof fn lemma_leave_complete(
    before: Seq<bool>,
    curr: int,
    pp: int,
    p: int,
    nx: int,
    nn: int,
    h: int,
)
    requires
        0 <= curr < before.len(),
        leave_neighbours(before, curr, pp, p, nx, nn),
        0 <= h < before.len(),
        is_first_live(before, h, curr, true),
        nx != nn,
    ensures
        is_first_live(before, succ(curr, before.len() as int), nx, true),
        is_first_live(with_status(before, curr, false), h, nx, true),
        in_arc(h, p, nx),
        leave_tasks(pp, p, nx, nn)[0] == (MigrationTask {
            arc_start: p as usize,
            arc_end: nx as usize,
            source: nx as usize,
            dest: nn as usize,
        }),
        is_first_live(with_status(before, curr, false), succ(nx, before.len() as int), nn, true),
{
    let n = before.len() as int;
    let after = with_status(before, curr, false);
    assert(after[nx]);
    assert(nx != curr);
    assert forall|j: int| 0 <= j < n && #[trigger] before[j] implies fwd_dist(succ(curr, n), nx, n)
        <= fwd_dist(succ(curr, n), j, n) by {
        if j != curr {
            assert(after[j]);
        }
    }
    lemma_owner_removed(before, h, curr, nx);
    if !in_arc(h, p, nx) {
        assert(after[p]);
        assert(fwd_dist(h, curr, n) <= fwd_dist(h, p, n) || !before[p]);
        assert(bwd_dist(pred(curr, n), p, n) <= bwd_dist(pred(curr, n), pred(curr, n), n) || !after[pred(curr, n)]);
    }
}

/// A leave loses nothing the departed backend backed up: such a position
/// keeps its primary, the departed backend's live predecessor, and the
/// second task copies it from there to the new backup.
pub proof fn lemma_leave_complete_backup(
    before: Seq<bool>,
    curr: int,
    pp: int,
    p: int,
    nx: int,
    nn: int,
    h: int,
    q: int,
)
    requires
        0 <= curr < before.len(),
        leave_neighbours(before, curr, pp, p, nx, nn),
        0 <= h < before.len(),
        q != curr,
        is_first_live(before, h, q, true),
        is_first_live(before, succ(q, before.len() as int), curr, true),
        p != nx,
    ensures
        q == p,
        in_arc(h, pp, p),
        is_first_live(with_status(before, curr, false), h, p, true),
        is_first_live(with_status(before, curr, false), succ(p, before.len() as int), nx, true),
        leave_tasks(pp, p, nx, nn).last() == (MigrationTask {
            arc_start: pp as usize,
            arc_end: p as usize,
            source: p as usize,
            dest: nx as usize,
        }),
{
    let n = before.len() as int;
    let after = with_status(before, curr, false);
    lemma_pred_of_succ(before, q, curr);
    assert(q == p) by {
        assert(after[q] && after[p]);
        assert(before[p]);
    }
    lemma_first_live_kept(before, h, q, curr);
    assert(after[nx]);
    assert(nx != curr);
    assert(pp != p) by {
        assert(bwd_dist(pred(p, n), pp, n) <= bwd_dist(pred(p, n), nx, n));
    }
    lemma_owned_in_arc(after, h, p, pp);
    assert forall|j: int| 0 <= j < n && #[trigger] before[j] implies fwd_dist(succ(curr, n), nx, n)
        <= fwd_dist(succ(curr, n), j, n) by {
        if j != curr {
            assert(after[j]);
        }
    }
    lemma_owner_removed(before, succ(p, n), curr, nx);
}

/// A leave loses no key: every position that the departed backend held,
/// as primary or as backup, has as new primary a backend that held it
/// before. That is its old primary when the departed backend was its backup,
/// and the departed backend's live successor, its old backup, otherwise.
pub proof fn lemma_leave_keeps_keys(before: Seq<bool>, curr: int, nx: int, h: int, q: int)
    requires
        0 <= curr < before.len(),
        0 <= h < before.len(),
        is_first_live(before, h, q, true),
        q == curr || is_first_live(before, succ(q, before.len() as int), curr, true),
        is_first_live(before, succ(curr, before.len() as int), nx, true),
        nx != curr,
    ensures
        q != curr ==> is_first_live(with_status(before, curr, false), h, q, true),
        q == curr ==> is_first_live(with_status(before, curr, false), h, nx, true),
{
    if q != curr {
        lemma_first_live_kept(before, h, q, curr);
    } else {
        lemma_owner_removed(before, h, curr, nx);
    }
}

} // verus!
