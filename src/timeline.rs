//! Ordering of posts ("tribs") and of user names for display: sorted,
//! each once, and cut to the most recent or the first few.

use crate::front::{MAX_TRIB_FETCH, MIN_LIST_USER};
use crate::order::{lemma_str_lt_total, lemma_str_lt_transitive, str_less, str_lt};
use crate::replica::str_views;
use vstd::prelude::*;

verus! {

/// A post: who wrote it, what it says, the wall-clock second and the
/// logical clock it was written at.
#[derive(Clone, Debug)]
pub struct Trib {
    pub user: String,
    pub message: String,
    pub time: u64,
    pub clock: u64,
}

impl View for Trib {
    type V = (u64, u64, Seq<char>, Seq<char>);

    open spec fn view(&self) -> (u64, u64, Seq<char>, Seq<char>) {
        (self.clock, self.time, self.user@, self.message@)
    }
}

/// Posts order by logical clock, then wall-clock time, then user, then text.
pub open spec fn trib_lt(a: (u64, u64, Seq<char>, Seq<char>), b: (u64, u64, Seq<char>, Seq<char>)) -> bool {
    a.0 < b.0 || (a.0 == b.0 && (a.1 < b.1 || (a.1 == b.1 && (str_lt(a.2, b.2) || (a.2 == b.2
        && str_lt(a.3, b.3))))))
}

pub open spec fn trib_views(s: Seq<Trib>) -> Seq<(u64, u64, Seq<char>, Seq<char>)> {
    s.map_values(|t: Trib| t@)
}

/// No post sorts before the one ahead of it.
pub open spec fn trib_sorted(s: Seq<(u64, u64, Seq<char>, Seq<char>)>) -> bool {
    forall|i: int| 1 <= i < s.len() ==> !trib_lt(#[trigger] s[i], s[i - 1])
}

/// `sorted` holds the posts of `tribs`, duplicates included, in order.
pub open spec fn is_trib_order(tribs: Seq<Trib>, sorted: Seq<Trib>) -> bool {
    &&& trib_sorted(trib_views(sorted))
    &&& trib_views(sorted).to_multiset() == trib_views(tribs).to_multiset()
}

pub open spec fn names_sorted(s: Seq<Seq<char>>) -> bool {
    forall|i: int| 0 <= i && i + 1 < s.len() ==> str_lt(#[trigger] s[i], s[i + 1])
}

/// `sorted` holds the distinct names of `names`, in order.
pub open spec fn is_name_order(names: Seq<String>, sorted: Seq<Seq<char>>) -> bool {
    &&& names_sorted(sorted)
    &&& forall|x: Seq<char>| #[trigger] sorted.contains(x) <==> str_views(names).contains(x)
}

/// The last `k` elements of `s`, or all of them when it has fewer.
pub open spec fn last_n<A>(s: Seq<A>, k: int) -> Seq<A> {
    if s.len() > k {
        s.subrange(s.len() - k, s.len() as int)
    } else {
        s
    }
}

/// The first `k` elements of `s`, or all of them when it has fewer.
pub open spec fn first_n<A>(s: Seq<A>, k: int) -> Seq<A> {
    if s.len() > k {
        s.subrange(0, k)
    } else {
        s
    }
}

proof fn lemma_trib_lt_total(a: (u64, u64, Seq<char>, Seq<char>), b: (u64, u64, Seq<char>, Seq<char>))
    ensures
        a != b ==> (trib_lt(a, b) || trib_lt(b, a)),
        !(trib_lt(a, b) && trib_lt(b, a)),
{
    lemma_str_lt_total(a.2, b.2);
    lemma_str_lt_total(a.3, b.3);
}

impl Trib {
    fn copy(&self) -> (r: Trib)
        ensures
            r@ == self@,
    {
        Trib { user: self.user.clone(), message: self.message.clone(), time: self.time, clock: self.clock }
    }

    fn less(&self, o: &Trib) -> (r: bool)
        ensures
            r == trib_lt(self@, o@),
    {
        if self.clock != o.clock {
            return self.clock < o.clock;
        }
        if self.time != o.time {
            return self.time < o.time;
        }
        if str_less(self.user.as_str(), o.user.as_str()) {
            return true;
        }
        self.user == o.user && str_less(self.message.as_str(), o.message.as_str())
    }

    fn same(&self, o: &Trib) -> (r: bool)
        ensures
            r == (self@ == o@),
    {
        self.clock == o.clock && self.time == o.time && self.user == o.user && self.message == o.message
    }
}

fn insert_trib(dst: Vec<Trib>, e: Trib) -> (r: Vec<Trib>)
    requires
        trib_sorted(trib_views(dst@)),
    ensures
        trib_sorted(trib_views(r@)),
        trib_views(r@).to_multiset() == trib_views(dst@).to_multiset().insert(e@),
{
    let mut r = dst;
    let ghost before = trib_views(r@);
    let mut p: usize = 0;
    let mut scanning = true;
    while scanning && p < r.len()
        invariant
            p <= r.len(),
            r@ == dst@,
            before == trib_views(r@),
            p > 0 ==> !trib_lt(e@, before[p - 1]),
            !scanning ==> p < r.len() && trib_lt(e@, before[p as int]),
        decreases r.len() - p + if scanning { 1int } else { 0int },
    {
        if e.less(&r[p]) {
            scanning = false;
        } else {
            p = p + 1;
        }
    }
    proof {
        if p < r.len() {
            lemma_trib_lt_total(before[p as int], e@);
        }
    }
    let ghost ev = e@;
    r.insert(p, e);
    proof {
        let after = trib_views(r@);
        assert(after =~= before.insert(p as int, ev));
        vstd::seq_lib::to_multiset_insert(before, p as int, ev);
        assert forall|i: int| 1 <= i < after.len() implies !trib_lt(#[trigger] after[i], after[i - 1]) by {
            if i < p {
                assert(!trib_lt(before[i], before[i - 1]));
            } else if i == p {
                assert(after[i - 1] == before[i - 1] && after[i] == ev);
            } else if i == p + 1 {
                assert(after[i - 1] == ev && after[i] == before[i - 1]);
            } else {
                assert(after[i] == before[i - 1] && after[i - 1] == before[i - 2]);
                assert(!trib_lt(before[i - 1], before[i - 2]));
            }
        }
    }
    r
}

/// The posts of `tribs`, duplicates included, in order; equal posts keep
/// their order of arrival.
pub fn sort_tribs(tribs: &Vec<Trib>) -> (r: Vec<Trib>)
    ensures
        is_trib_order(tribs@, r@),
{
    let mut r: Vec<Trib> = Vec::new();
    proof {
        assert(trib_views(r@) =~= trib_views(tribs@.subrange(0, 0)));
    }
    let mut i: usize = 0;
    while i < tribs.len()
        invariant
            i <= tribs.len(),
            trib_sorted(trib_views(r@)),
            trib_views(r@).to_multiset() == trib_views(tribs@.subrange(0, i as int)).to_multiset(),
        decreases tribs.len() - i,
    {
        let e = tribs[i].copy();
        r = insert_trib(r, e);
        proof {
            let done = trib_views(tribs@.subrange(0, i as int));
            let now = trib_views(tribs@.subrange(0, i + 1));
            assert(now =~= done.push(tribs@[i as int]@));
            vstd::seq_lib::to_multiset_build(done, tribs@[i as int]@);
        }
        i = i + 1;
    }
    proof {
        assert(tribs@.subrange(0, tribs.len() as int) =~= tribs@);
    }
    r
}

/// The most recent posts of a sorted list: its last `MAX_TRIB_FETCH`.
pub fn take_latest(sorted: Vec<Trib>) -> (r: Vec<Trib>)
    ensures
        r@ == last_n(sorted@, MAX_TRIB_FETCH as int),
{
    let n = sorted.len();
    if n <= MAX_TRIB_FETCH {
        return sorted;
    }
    let mut all = sorted;
    let tail = all.split_off(n - MAX_TRIB_FETCH);
    tail
}

/// A timeline: the last `MAX_TRIB_FETCH` posts of `tribs` in order,
/// duplicates included.
pub fn latest_tribs(tribs: &Vec<Trib>) -> (r: Vec<Trib>)
    ensures
        exists|sorted: Seq<Trib>| is_trib_order(tribs@, sorted) && r@ == last_n(sorted, MAX_TRIB_FETCH as int),
{
    let sorted = sort_tribs(tribs);
    let ghost s = sorted@;
    let r = take_latest(sorted);
    proof {
        assert(is_trib_order(tribs@, s) && r@ == last_n(s, MAX_TRIB_FETCH as int));
    }
    r
}

fn insert_name(dst: Vec<String>, e: String) -> (r: Vec<String>)
    requires
        names_sorted(str_views(dst@)),
    ensures
        names_sorted(str_views(r@)),
        forall|x: Seq<char>|
            #[trigger] str_views(r@).contains(x) <==> (str_views(dst@).contains(x) || x == e@),
{
    let mut r = dst;
    let ghost before = str_views(r@);
    let mut p: usize = 0;
    let mut scanning = true;
    while scanning && p < r.len()
        invariant
            p <= r.len(),
            r@ == dst@,
            before == str_views(r@),
            p > 0 ==> str_lt(before[p - 1], e@),
            !scanning ==> p < r.len() && !str_lt(before[p as int], e@),
        decreases r.len() - p + if scanning { 1int } else { 0int },
    {
        if str_less(r[p].as_str(), e.as_str()) {
            p = p + 1;
        } else {
            scanning = false;
        }
    }
    if p < r.len() && r[p] == e {
        proof {
            assert forall|x: Seq<char>| str_views(r@).contains(x) <==> (before.contains(x) || x == e@) by {
                if x == e@ {
                    assert(before[p as int] == x);
                }
            }
        }
        return r;
    }
    proof {
        if p < r.len() {
            lemma_str_lt_total(before[p as int], e@);
        }
    }
    let ghost ev = e@;
    r.insert(p, e);
    proof {
        let after = str_views(r@);
        assert(after =~= before.insert(p as int, ev));
        assert forall|i: int| 0 <= i && i + 1 < after.len() implies str_lt(
            #[trigger] after[i],
            after[i + 1],
        ) by {
            if i + 1 < p {
                assert(str_lt(before[i], before[i + 1]));
            } else if i + 1 == p {
                assert(after[i] == before[i] && after[i + 1] == ev);
            } else if i == p {
                assert(after[i] == ev && after[i + 1] == before[i]);
            } else {
                assert(str_lt(before[i - 1], before[i]));
            }
        }
        assert forall|x: Seq<char>| after.contains(x) <==> (before.contains(x) || x == ev) by {
            if after.contains(x) {
                let k = choose|k: int| 0 <= k < after.len() && after[k] == x;
                if k < p {
                    assert(before[k] == x);
                } else if k > p {
                    assert(before[k - 1] == x);
                }
            }
            if before.contains(x) {
                let k = choose|k: int| 0 <= k < before.len() && before[k] == x;
                if k < p {
                    assert(after[k] == x);
                } else {
                    assert(after[k + 1] == x);
                }
            }
            if x == ev {
                assert(after[p as int] == x);
            }
        }
    }
    r
}

/// The registered users to list: the distinct names, sorted, and at most
/// the first `MIN_LIST_USER` of them.
pub fn list_users(users: &Vec<String>) -> (r: Vec<String>)
    ensures
        exists|sorted: Seq<Seq<char>>|
            is_name_order(users@, sorted) && str_views(r@) == first_n(sorted, MIN_LIST_USER as int),
{
    let mut r: Vec<String> = Vec::new();
    proof {
        assert(str_views(r@) =~= Seq::<Seq<char>>::empty());
    }
    let mut i: usize = 0;
    while i < users.len()
        invariant
            i <= users.len(),
            names_sorted(str_views(r@)),
            forall|x: Seq<char>|
                #[trigger] str_views(r@).contains(x) <==> str_views(users@.subrange(0, i as int)).contains(x),
        decreases users.len() - i,
    {
        let e = users[i].clone();
        let ghost prev = str_views(r@);
        r = insert_name(r, e);
        proof {
            let done = str_views(users@.subrange(0, i as int));
            let now = str_views(users@.subrange(0, i + 1));
            assert(now =~= done.push(users@[i as int]@));
            assert forall|x: Seq<char>| str_views(r@).contains(x) <==> now.contains(x) by {
                assert(prev.contains(x) <==> done.contains(x));
                if now.contains(x) {
                    let k = choose|k: int| 0 <= k < now.len() && now[k] == x;
                    if k < i {
                        assert(done[k] == x);
                    }
                }
                if done.contains(x) {
                    let k = choose|k: int| 0 <= k < done.len() && done[k] == x;
                    assert(now[k] == x);
                }
                if x == users@[i as int]@ {
                    assert(now[i as int] == x);
                }
            }
        }
        i = i + 1;
    }
    proof {
        assert(users@.subrange(0, users.len() as int) =~= users@);
    }
    let ghost sorted = str_views(r@);
    if r.len() > MIN_LIST_USER {
        r.truncate(MIN_LIST_USER);
        proof {
            assert(str_views(r@) =~= first_n(sorted, MIN_LIST_USER as int));
        }
    }
    proof {
        assert(is_name_order(users@, sorted));
        assert(str_views(r@) == first_n(sorted, MIN_LIST_USER as int));
    }
    r
}

} // verus!
