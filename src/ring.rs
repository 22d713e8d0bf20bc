//! The hash ring: backends in a fixed order, a liveness flag for each, and
//! the walk to the nearest live backend in either direction.

use vstd::prelude::*;
use vstd::std_specs::hash::DefaultHasherAdditionalSpecFns;
use vstd::utf8::encode_utf8;
use std::collections::hash_map::DefaultHasher;
use std::hash::Hasher;

verus! {

/// One backend of the ring and whether it was last seen reachable.
#[derive(Clone, Debug)]
pub struct StatusTableEntry {
    pub addr: String,
    pub status: bool,
}

/// Where a bin lives: a primary backend and, when a second backend is live,
/// a backup.
#[derive(Clone, Copy, Debug, PartialEq, Eq)]
pub struct Placement {
    pub primary: usize,
    pub backup: Option<usize>,
}

/// The liveness flags of a table, in ring order.
pub open spec fn live_view(t: Seq<StatusTableEntry>) -> Seq<bool> {
    Seq::new(t.len(), |i: int| t[i].status)
}

/// Steps forward from `from` to `i` on a ring of `n` positions.
pub open spec fn fwd_dist(from: int, i: int, n: int) -> int {
    if i >= from {
        i - from
    } else {
        i - from + n
    }
}

/// Steps backward from `from` to `i` on a ring of `n` positions.
pub open spec fn bwd_dist(from: int, i: int, n: int) -> int {
    if i <= from {
        from - i
    } else {
        from - i + n
    }
}

pub open spec fn ring_dist(from: int, i: int, n: int, forward: bool) -> int {
    if forward {
        fwd_dist(from, i, n)
    } else {
        bwd_dist(from, i, n)
    }
}

/// `i` is the live position reached first when walking from `from`
/// (inclusive) in the given direction.
pub open spec fn is_first_live(live: Seq<bool>, from: int, i: int, forward: bool) -> bool {
    &&& 0 <= i < live.len()
    &&& live[i]
    &&& forall|j: int|
        0 <= j < live.len() && #[trigger] live[j] ==> ring_dist(from, i, live.len() as int, forward)
            <= ring_dist(from, j, live.len() as int, forward)
}

pub open spec fn no_live(live: Seq<bool>) -> bool {
    forall|j: int| 0 <= j < live.len() ==> !#[trigger] live[j]
}

/// The position after `i` on a ring of `n`.
pub open spec fn succ(i: int, n: int) -> int {
    if i + 1 >= n {
        0
    } else {
        i + 1
    }
}

/// The position before `i` on a ring of `n`.
pub open spec fn pred(i: int, n: int) -> int {
    if i <= 0 {
        n - 1
    } else {
        i - 1
    }
}

/// `b` is the backup that goes with primary `p`: the next live position
/// after `p`, or none when `p` is the only live one.
pub open spec fn is_backup_of(live: Seq<bool>, p: int, b: Option<usize>) -> bool {
    match b {
        None => forall|j: int| 0 <= j < live.len() && #[trigger] live[j] ==> j == p,
        Some(x) => x != p && is_first_live(live, succ(p, live.len() as int), x as int, true),
    }
}

/// The placement of a bin whose hash is `h`.
pub open spec fn is_placement(live: Seq<bool>, h: int, pl: Placement) -> bool {
    &&& is_first_live(live, h % (live.len() as int), pl.primary as int, true)
    &&& is_backup_of(live, pl.primary as int, pl.backup)
}

/// The ring hash of a name: the default hasher fed the name's UTF-8 bytes once.
pub open spec fn name_hash(name: Seq<char>) -> u64 {
    DefaultHasher::spec_finish(seq![encode_utf8(name)])
}

/// The liveness flags of `table`.
pub fn live_flags(table: &Vec<StatusTableEntry>) -> (r: Vec<bool>)
    ensures
        r@ == live_view(table@),
{
    let mut r: Vec<bool> = Vec::new();
    let mut i: usize = 0;
    while i < table.len()
        invariant
            i <= table.len(),
            r@ == live_view(table@).subrange(0, i as int),
        decreases table.len() - i,
    {
        r.push(table[i].status);
        i = i + 1;
        proof {
            assert(r@ =~= live_view(table@).subrange(0, i as int));
        }
    }
    proof {
        assert(r@ =~= live_view(table@));
    }
    r
}

/// Walks the ring from `from` (inclusive) in the given direction to the
/// first live position; `None` when no position is live.
pub fn next_live(live: &Vec<bool>, from: usize, forward: bool) -> (r: Option<usize>)
    requires
        from < live.len(),
    ensures
        match r {
            Some(i) => is_first_live(live@, from as int, i as int, forward),
            None => no_live(live@),
        },
{
    let n = live.len();
    let mut k: usize = 0;
    while k < n
        invariant
            n == live.len(),
            from < n,
            k <= n,
            forall|j: int|
                0 <= j < n && ring_dist(from as int, j, n as int, forward) < k ==> !#[trigger] live@[j],
        decreases n - k,
    {
        let idx: usize = if forward {
            if k < n - from {
                from + k
            } else {
                k - (n - from)
            }
        } else {
            if k <= from {
                from - k
            } else {
                n - (k - from)
            }
        };
        assert(ring_dist(from as int, idx as int, n as int, forward) == k);
        if live[idx] {
            return Some(idx);
        }
        k = k + 1;
    }
    None
}

/// The hash of a name, fixed across processes: the default hasher fed the
/// name's bytes.
pub fn bin_hash(name: &str) -> (r: u64)
    ensures
        r == name_hash(name@),
{
    let mut hasher = DefaultHasher::new();
    hasher.write(name.as_bytes());
    proof {
        assert(hasher@ =~= seq![encode_utf8(name@)]);
    }
    hasher.finish()
}

/// Places a bin with hash `h`: the first live backend at or after
/// `h mod n`, then the next live one after it as backup.
pub fn resolve(h: u64, live: &Vec<bool>) -> (r: Option<Placement>)
    requires
        live.len() > 0,
    ensures
        match r {
            Some(pl) => is_placement(live@, h as int, pl),
            None => no_live(live@),
        },
{
    let n = live.len();
    let start = (h % (n as u64)) as usize;
    match next_live(live, start, true) {
        None => None,
        Some(p) => {
            let after = if p + 1 >= n {
                0
            } else {
                p + 1
            };
            match next_live(live, after, true) {
                None => None,
                Some(b) => {
                    if b == p {
                        proof {
                            assert forall|j: int| 0 <= j < live.len() && #[trigger] live@[j] implies j == p by {
                                if j != p {
                                    assert(fwd_dist(after as int, b as int, n as int) <= fwd_dist(after as int, j, n as int));
                                }
                            }
                        }
                        Some(Placement { primary: p, backup: None })
                    } else {
                        Some(Placement { primary: p, backup: Some(b) })
                    }
                },
            }
        },
    }
}

} // verus!
