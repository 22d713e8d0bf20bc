//! The social-feed front end's own rules: valid user names, the checks in
//! front of each operation, and replaying a user's follow log.

use crate::replica::{contains_str, str_views};
use vstd::prelude::*;
use vstd::utf8::encode_utf8;

verus! {

/// The longest valid user name.
pub const MAX_USERNAME_LEN: usize = 15;

/// The longest post, in bytes.
pub const MAX_TRIB_LEN: usize = 140;

/// How many users `list_users` returns at most.
pub const MIN_LIST_USER: usize = 20;

/// How many users one user may follow.
pub const MAX_FOLLOWING: usize = 2000;

/// How many tribs a timeline shows at most.
pub const MAX_TRIB_FETCH: usize = 100;

/// Why a front-end operation was refused.
#[derive(Clone, Debug)]
pub enum TribError {
    InvalidUsername(String),
    UsernameTaken(String),
    UserDoesNotExist(String),
    TribTooLong,
    WhoWhom(String),
    AlreadyFollowing(String, String),
    NotFollowing(String, String),
    FollowingTooMany,
    Unknown(String),
}

/// One entry of a user's follow log: `follow` or unfollow of `name`,
/// identified by the clock value `id` it was written at.
#[derive(Clone, Debug)]
pub struct FollowLog {
    pub name: String,
    pub follow: bool,
    pub id: u64,
}

pub open spec fn is_lower(c: char) -> bool {
    'a' <= c && c <= 'z'
}

pub open spec fn is_digit(c: char) -> bool {
    '0' <= c && c <= '9'
}

/// A user name: one to fifteen characters, a lower-case letter first,
/// then lower-case letters and digits.
pub open spec fn valid_username(s: Seq<char>) -> bool {
    &&& 0 < s.len() <= MAX_USERNAME_LEN
    &&& is_lower(s[0])
    &&& forall|i: int| 1 <= i < s.len() ==> is_lower(#[trigger] s[i]) || is_digit(s[i])
}

/// Whether the log, read to its end, leaves `whom` followed: the flag of
/// the last entry for `whom`, or no when there is none.
pub open spec fn follows(log: Seq<FollowLog>, whom: Seq<char>) -> bool
    decreases log.len(),
{
    if log.len() == 0 {
        false
    } else if log.last().name@ == whom {
        log.last().follow
    } else {
        follows(log.drop_last(), whom)
    }
}

/// Whether a follow (`follow`) or unfollow written with clock `id` took
/// effect, reading the log from the start: the entry with that id for
/// `whom` decides, against the state that the entries before it left;
/// `before` is that state.
pub open spec fn took_effect(log: Seq<FollowLog>, whom: Seq<char>, id: u64, follow: bool, before: bool) -> bool
    decreases log.len(),
{
    if log.len() == 0 {
        true
    } else if log[0].name@ == whom {
        if log[0].id == id {
            if follow {
                !before
            } else {
                before
            }
        } else {
            took_effect(log.subrange(1, log.len() as int), whom, id, follow, log[0].follow)
        }
    } else {
        took_effect(log.subrange(1, log.len() as int), whom, id, follow, before)
    }
}

/// `names` lists the users that the log leaves followed, each once.
pub open spec fn is_followed_list(log: Seq<FollowLog>, names: Seq<Seq<char>>) -> bool {
    &&& names.no_duplicates()
    &&& forall|x: Seq<char>| names.contains(x) <==> follows(log, x)
}

/// The log leaves `k` users followed.
pub open spec fn followed_count_is(log: Seq<FollowLog>, k: int) -> bool {
    exists|names: Seq<Seq<char>>| is_followed_list(log, names) && names.len() == k
}

/// Two lists of the followed users have the same length.
pub proof fn lemma_followed_count_unique(log: Seq<FollowLog>, a: Seq<Seq<char>>, b: Seq<Seq<char>>)
    requires
        is_followed_list(log, a),
        is_followed_list(log, b),
    ensures
        a.len() == b.len(),
{
    a.unique_seq_to_set();
    b.unique_seq_to_set();
    assert(a.to_set() =~= b.to_set());
}

/// Whether `s` is a valid user name.
pub fn is_valid_username(s: &str) -> (r: bool)
    ensures
        r == valid_username(s@),
{
    let n = s.unicode_len();
    if n == 0 || n > MAX_USERNAME_LEN {
        return false;
    }
    let c0 = s.get_char(0);
    if !('a' <= c0 && c0 <= 'z') {
        return false;
    }
    let mut i: usize = 1;
    while i < n
        invariant
            n == s@.len(),
            1 <= i <= n,
            forall|j: int| 1 <= j < i ==> is_lower(#[trigger] s@[j]) || is_digit(s@[j]),
        decreases n - i,
    {
        let c = s.get_char(i);
        if !(('a' <= c && c <= 'z') || ('0' <= c && c <= '9')) {
            return false;
        }
        i = i + 1;
    }
    true
}

/// The check in front of signing up `user`, given the registered users.
pub fn sign_up_check(user: &str, users: &Vec<String>) -> (r: Result<(), TribError>)
    ensures
        !valid_username(user@) ==> (r matches Err(TribError::InvalidUsername(u)) && u@ == user@),
        valid_username(user@) && str_views(users@).contains(user@) ==> (r matches Err(
            TribError::UsernameTaken(u),
        ) && u@ == user@),
        valid_username(user@) && !str_views(users@).contains(user@) ==> r is Ok,
{
    if !is_valid_username(user) {
        return Err(TribError::InvalidUsername(user.to_owned()));
    }
    let name = user.to_owned();
    if contains_str(users, &name) {
        return Err(TribError::UsernameTaken(name));
    }
    Ok(())
}

/// The check in front of posting `post` as `who`.
pub fn post_check(who: &str, post: &str, users: &Vec<String>) -> (r: Result<(), TribError>)
    ensures
        encode_utf8(post@).len() > MAX_TRIB_LEN ==> r matches Err(TribError::TribTooLong),
        encode_utf8(post@).len() <= MAX_TRIB_LEN && !str_views(users@).contains(who@) ==> (r matches Err(
            TribError::UserDoesNotExist(u),
        ) && u@ == who@),
        encode_utf8(post@).len() <= MAX_TRIB_LEN && str_views(users@).contains(who@) ==> r is Ok,
{
    if post.as_bytes().len() > MAX_TRIB_LEN {
        return Err(TribError::TribTooLong);
    }
    user_check(who, users)
}

/// The check that `who` is a registered user.
pub fn user_check(who: &str, users: &Vec<String>) -> (r: Result<(), TribError>)
    ensures
        !str_views(users@).contains(who@) ==> (r matches Err(TribError::UserDoesNotExist(u)) && u@
            == who@),
        str_views(users@).contains(who@) ==> r is Ok,
{
    let name = who.to_owned();
    if !contains_str(users, &name) {
        return Err(TribError::UserDoesNotExist(name));
    }
    Ok(())
}

/// The check on a pair of users in front of follow, unfollow and
/// is-following: two distinct registered users.
pub fn pair_check(who: &str, whom: &str, users: &Vec<String>) -> (r: Result<(), TribError>)
    ensures
        who@ == whom@ ==> (r matches Err(TribError::WhoWhom(u)) && u@ == who@),
        who@ != whom@ && !str_views(users@).contains(who@) ==> (r matches Err(
            TribError::UserDoesNotExist(u),
        ) && u@ == who@),
        who@ != whom@ && str_views(users@).contains(who@) && !str_views(users@).contains(whom@) ==> (r matches Err(
            TribError::UserDoesNotExist(u),
        ) && u@ == whom@),
        who@ != whom@ && str_views(users@).contains(who@) && str_views(users@).contains(whom@) ==> r is Ok,
{
    let a = who.to_owned();
    let b = whom.to_owned();
    if a == b {
        return Err(TribError::WhoWhom(a));
    }
    match user_check(who, users) {
        Err(e) => Err(e),
        Ok(()) => user_check(whom, users),
    }
}

/// Whether the log leaves `whom` followed.
pub fn is_following_in_log(log: &Vec<FollowLog>, whom: &str) -> (r: bool)
    ensures
        r == follows(log@, whom@),
{
    let target = whom.to_owned();
    let mut i: usize = log.len();
    proof {
        assert(log@.subrange(0, log.len() as int) =~= log@);
    }
    while i > 0
        invariant
            i <= log.len(),
            target@ == whom@,
            follows(log@, whom@) == follows(log@.subrange(0, i as int), whom@),
        decreases i,
    {
        proof {
            assert(log@.subrange(0, i as int).drop_last() =~= log@.subrange(0, i - 1));
        }
        if log[i - 1].name == target {
            return log[i - 1].follow;
        }
        i = i - 1;
    }
    proof {
        assert(log@.subrange(0, 0) =~= Seq::<FollowLog>::empty());
    }
    false
}

/// The users that the log leaves followed, each once.
pub fn following_from_log(log: &Vec<FollowLog>) -> (r: Vec<String>)
    ensures
        is_followed_list(log@, str_views(r@)),
{
    let mut r: Vec<String> = Vec::new();
    let mut i: usize = 0;
    proof {
        assert(str_views(r@) =~= Seq::<Seq<char>>::empty());
        assert forall|x: Seq<char>| !follows(log@.subrange(0, 0), x) by {
            assert(log@.subrange(0, 0).len() == 0);
        }
    }
    while i < log.len()
        invariant
            i <= log.len(),
            is_followed_list(log@.subrange(0, i as int), str_views(r@)),
        decreases log.len() - i,
    {
        let ghost before = str_views(r@);
        let ghost done = log@.subrange(0, i as int);
        let ghost more = log@.subrange(0, i + 1);
        proof {
            assert(more.drop_last() =~= done);
            assert(more.last() == log@[i as int]);
        }
        let name = log[i].name.clone();
        let ghost nv = name@;
        let present = contains_str(&r, &name);
        if log[i].follow {
            if !present {
                r.push(name);
                proof {
                    assert(str_views(r@) =~= before.push(nv));
                    assert forall|a: int, b: int| 0 <= a < b < str_views(r@).len() implies str_views(
                        r@,
                    )[a] != str_views(r@)[b] by {
                        if b == before.len() {
                            assert(before[a] == str_views(r@)[a]);
                        } else {
                            assert(before[a] == str_views(r@)[a] && before[b] == str_views(r@)[b]);
                        }
                    }
                    assert forall|x: Seq<char>| str_views(r@).contains(x) <==> follows(more, x) by {
                        if x == nv {
                            assert(str_views(r@)[before.len() as int] == x);
                        } else {
                            if str_views(r@).contains(x) {
                                let k = choose|k: int| 0 <= k < str_views(r@).len() && str_views(r@)[k] == x;
                                assert(before[k] == x);
                            }
                            if before.contains(x) {
                                let k = choose|k: int| 0 <= k < before.len() && before[k] == x;
                                assert(str_views(r@)[k] == x);
                            }
                        }
                    }
                }
            } else {
                proof {
                    assert forall|x: Seq<char>| str_views(r@).contains(x) <==> follows(more, x) by {
                        if x != nv {
                            assert(follows(more, x) == follows(done, x));
                        }
                    }
                }
            }
        } else {
            if present {
                let mut k: usize = 0;
                let mut found = false;
                while !found && k < r.len()
                    invariant
                        k <= r.len(),
                        str_views(r@) == before,
                        before.contains(nv),
                        nv == name@,
                        found ==> k < r.len() && before[k as int] == nv,
                        !found ==> forall|j: int| 0 <= j < k ==> before[j] != nv,
                    decreases r.len() - k + if found { 0int } else { 1int },
                {
                    proof {
                        assert(before[k as int] == r@[k as int]@);
                    }
                    if r[k] == name {
                        found = true;
                    } else {
                        k = k + 1;
                    }
                }
                proof {
                    if !found {
                        let j = choose|j: int| 0 <= j < before.len() && before[j] == nv;
                        assert(before[j] == nv);
                    }
                }
                let ghost at = k as int;
                proof {
                    assert(before[at] == nv);
                }
                r.remove(k);
                proof {
                    assert(str_views(r@) =~= before.remove(at));
                    assert forall|a: int, b: int| 0 <= a < b < str_views(r@).len() implies str_views(
                        r@,
                    )[a] != str_views(r@)[b] by {
                        let a0 = if a < at { a } else { a + 1 };
                        let b0 = if b < at { b } else { b + 1 };
                        assert(str_views(r@)[a] == before[a0]);
                        assert(str_views(r@)[b] == before[b0]);
                    }
                    assert forall|x: Seq<char>| str_views(r@).contains(x) <==> follows(more, x) by {
                        if str_views(r@).contains(x) {
                            let j = choose|j: int| 0 <= j < str_views(r@).len() && str_views(r@)[j] == x;
                            let j0 = if j < at { j } else { j + 1 };
                            assert(before[j0] == x);
                            assert(j0 != at);
                        }
                        if x != nv && before.contains(x) {
                            let j = choose|j: int| 0 <= j < before.len() && before[j] == x;
                            assert(j != at);
                            if j < at {
                                assert(str_views(r@)[j] == x);
                            } else {
                                assert(str_views(r@)[j - 1] == x);
                            }
                        }
                    }
                }
            } else {
                proof {
                    assert forall|x: Seq<char>| str_views(r@).contains(x) <==> follows(more, x) by {
                        if x != nv {
                            assert(follows(more, x) == follows(done, x));
                        }
                    }
                }
            }
        }
        i = i + 1;
    }
    proof {
        assert(log@.subrange(0, log.len() as int) =~= log@);
    }
    r
}

/// The check in front of `who` following `whom`, given the registered users
/// and `who`'s follow log.
pub fn follow_check(who: &str, whom: &str, users: &Vec<String>, log: &Vec<FollowLog>) -> (r: Result<(), TribError>)
    ensures
        who@ == whom@ ==> (r matches Err(TribError::WhoWhom(u)) && u@ == who@),
        who@ != whom@ && !str_views(users@).contains(who@) ==> (r matches Err(
            TribError::UserDoesNotExist(u),
        ) && u@ == who@),
        who@ != whom@ && str_views(users@).contains(who@) && !str_views(users@).contains(whom@) ==> (r matches Err(
            TribError::UserDoesNotExist(u),
        ) && u@ == whom@),
        who@ != whom@ && str_views(users@).contains(who@) && str_views(users@).contains(whom@)
            ==> (if follows(log@, whom@) {
            r matches Err(TribError::AlreadyFollowing(a, b)) && a@ == who@ && b@ == whom@
        } else if followed_count_is(log@, MAX_FOLLOWING as int) {
            r matches Err(TribError::FollowingTooMany)
        } else {
            r is Ok
        }),
{
    match pair_check(who, whom, users) {
        Err(e) => {
            return Err(e);
        },
        Ok(()) => {},
    }
    if is_following_in_log(log, whom) {
        return Err(TribError::AlreadyFollowing(who.to_owned(), whom.to_owned()));
    }
    let following = following_from_log(log);
    if following.len() == MAX_FOLLOWING {
        proof {
            assert(is_followed_list(log@, str_views(following@)) && str_views(following@).len() == MAX_FOLLOWING as int);
        }
        return Err(TribError::FollowingTooMany);
    }
    proof {
        if followed_count_is(log@, MAX_FOLLOWING as int) {
            let names = choose|names: Seq<Seq<char>>| is_followed_list(log@, names) && names.len() == MAX_FOLLOWING as int;
            lemma_followed_count_unique(log@, names, str_views(following@));
        }
    }
    Ok(())
}

/// The check in front of `who` unfollowing `whom`.
pub fn unfollow_check(who: &str, whom: &str, users: &Vec<String>, log: &Vec<FollowLog>) -> (r: Result<(), TribError>)
    ensures
        who@ == whom@ ==> (r matches Err(TribError::WhoWhom(u)) && u@ == who@),
        who@ != whom@ && !str_views(users@).contains(who@) ==> (r matches Err(
            TribError::UserDoesNotExist(u),
        ) && u@ == who@),
        who@ != whom@ && str_views(users@).contains(who@) && !str_views(users@).contains(whom@) ==> (r matches Err(
            TribError::UserDoesNotExist(u),
        ) && u@ == whom@),
        who@ != whom@ && str_views(users@).contains(who@) && str_views(users@).contains(whom@)
            ==> (if follows(log@, whom@) {
            r is Ok
        } else {
            r matches Err(TribError::NotFollowing(a, b)) && a@ == who@ && b@ == whom@
        }),
{
    match pair_check(who, whom, users) {
        Err(e) => {
            return Err(e);
        },
        Ok(()) => {},
    }
    if !is_following_in_log(log, whom) {
        return Err(TribError::NotFollowing(who.to_owned(), whom.to_owned()));
    }
    Ok(())
}

/// Whether the follow (`follow`) or unfollow that `who` wrote at clock
/// `id` took effect, once written: an entry that raced with another of the
/// same kind for `whom` is refused.
pub fn follow_outcome(log: &Vec<FollowLog>, whom: &str, id: u64, follow: bool) -> (r: Result<(), TribError>)
    ensures
        took_effect(log@, whom@, id, follow, false) ==> r is Ok,
        !took_effect(log@, whom@, id, follow, false) ==> r matches Err(TribError::Unknown(_)),
{
    let target = whom.to_owned();
    let mut already = false;
    let mut i: usize = 0;
    proof {
        assert(log@.subrange(0, log.len() as int) =~= log@);
    }
    while i < log.len()
        invariant
            i <= log.len(),
            target@ == whom@,
            took_effect(log@, whom@, id, follow, false) == took_effect(
                log@.subrange(i as int, log.len() as int),
                whom@,
                id,
                follow,
                already,
            ),
        decreases log.len() - i,
    {
        proof {
            let rest = log@.subrange(i as int, log.len() as int);
            assert(rest.subrange(1, rest.len() as int) =~= log@.subrange(i + 1, log.len() as int));
            assert(rest[0] == log@[i as int]);
        }
        if log[i].name == target {
            if log[i].id == id {
                if follow == already {
                    proof { reveal_strlit("the request raced with another"); }
                    return Err(TribError::Unknown(String::from_str("the request raced with another")));
                }
                return Ok(());
            }
            already = log[i].follow;
        }
        i = i + 1;
    }
    proof {
        assert(log@.subrange(log.len() as int, log.len() as int) =~= Seq::<FollowLog>::empty());
    }
    Ok(())
}

} // verus!
