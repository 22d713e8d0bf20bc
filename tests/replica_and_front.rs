use lab::colon::bin_key;
use lab::front::{
    follow_check, follow_outcome, following_from_log, is_following_in_log, is_valid_username,
    pair_check, post_check, sign_up_check, unfollow_check, user_check, FollowLog, TribError,
    MAX_FOLLOWING, MAX_TRIB_FETCH,
};
use lab::replica::{
    append_clock, contains_str, log_messages, matching_entries, merge_clock, merge_keys, merge_log,
    either_replica, pick_newer, removal_plan, write_succeeded, ClockMerge, LogEntry,
};
use lab::timeline::{latest_tribs, list_users, sort_tribs, take_latest, Trib};

fn entry(message: &str, clock: u64) -> LogEntry {
    LogEntry { message: message.to_string(), clock }
}

fn names(v: &[&str]) -> Vec<String> {
    v.iter().map(|s| s.to_string()).collect()
}

fn log(name: &str, follow: bool, id: u64) -> FollowLog {
    FollowLog { name: name.to_string(), follow, id }
}

fn trib(user: &str, message: &str, time: u64, clock: u64) -> Trib {
    Trib { user: user.to_string(), message: message.to_string(), time, clock }
}

#[test]
fn newer_replica_wins_a_read() {
    let a = Some("v1".to_string());
    let b = Some("v2".to_string());
    assert_eq!(pick_newer(a.clone(), b.clone(), 9, 3), a);
    assert_eq!(pick_newer(a.clone(), b.clone(), 3, 9), b);
    assert_eq!(pick_newer(a.clone(), b.clone(), 4, 4), b);
    assert_eq!(pick_newer(None, b.clone(), 1, 0), None);
}

#[test]
fn write_needs_one_replica() {
    assert!(write_succeeded(true, false));
    assert!(write_succeeded(false, true));
    assert!(!write_succeeded(false, false));
}

#[test]
fn clock_merge_pushes_max_to_lower_replica() {
    assert_eq!(merge_clock(7, 3), ClockMerge { value: 7, push_primary: None, push_backup: Some(7) });
    assert_eq!(merge_clock(2, 5), ClockMerge { value: 5, push_primary: Some(5), push_backup: None });
    assert_eq!(merge_clock(4, 4), ClockMerge { value: 4, push_primary: None, push_backup: None });
}

#[test]
fn clock_readings_never_go_back() {
    // two replicas whose clocks honour "at least" and the pushes
    let mut p: u64 = 3;
    let mut b: u64 = 10;
    let mut last = 0;
    for at_least in [0u64, 4, 2, 20, 1] {
        let rp = p.max(at_least);
        let rb = b.max(at_least);
        p = rp + 1;
        b = rb + 1;
        let m = merge_clock(rp, rb);
        if let Some(v) = m.push_primary {
            p = p.max(v) + 1;
        }
        if let Some(v) = m.push_backup {
            b = b.max(v) + 1;
        }
        assert!(m.value >= at_least);
        assert!(m.value >= last);
        last = m.value;
    }
}

#[test]
fn append_tags_with_larger_clock() {
    assert_eq!(append_clock(3, 8), 8);
    assert_eq!(append_clock(9, 8), 9);
    let e = LogEntry::tagged("hello", 5, 2);
    assert_eq!(e.message, "hello");
    assert_eq!(e.clock, 5);
}

#[test]
fn merged_log_is_sorted_union_without_duplicates() {
    let primary = vec![entry("b", 2), entry("a", 2), entry("z", 1)];
    let backup = vec![entry("a", 2), entry("c", 3), entry("a", 2)];
    let merged = merge_log(&primary, &backup);
    let msgs = log_messages(&merged);
    assert_eq!(msgs, names(&["z", "a", "b", "c"]));
    assert_eq!(merged[0].clock, 1);
    assert_eq!(merged[3].clock, 3);
}

#[test]
fn appended_entry_is_read_back_from_either_replica() {
    let only_backup = merge_log(&vec![], &vec![entry("follow bob", 4)]);
    assert_eq!(log_messages(&only_backup), names(&["follow bob"]));
    let both = merge_log(&vec![entry("x", 4)], &vec![entry("x", 4)]);
    assert_eq!(log_messages(&both), names(&["x"]));
    assert!(log_messages(&merge_log(&vec![], &vec![])).is_empty());
}

#[test]
fn merged_keys_strip_the_bin_and_dedupe() {
    let primary = vec![bin_key("alice", "k1"), bin_key("alice", "k:2")];
    let backup = vec![bin_key("alice", "k1"), bin_key("alice", "k3")];
    let mut keys = merge_keys(&primary, &backup);
    keys.sort();
    assert_eq!(keys, names(&["k1", "k3", "k:2"]));
    assert!(merge_keys(&vec![], &vec![]).is_empty());
}

#[test]
fn contains_str_finds_exact_match() {
    let v = names(&["ab", "abc"]);
    assert!(contains_str(&v, &"abc".to_string()));
    assert!(!contains_str(&v, &"a".to_string()));
}

#[test]
fn usernames_are_lowercase_then_digits() {
    assert!(is_valid_username("alice"));
    assert!(is_valid_username("a1b2"));
    assert!(is_valid_username("abcdefghijklmno"));
    assert!(!is_valid_username("abcdefghijklmnop"));
    assert!(!is_valid_username(""));
    assert!(!is_valid_username("1abc"));
    assert!(!is_valid_username("Alice"));
    assert!(!is_valid_username("al ice"));
}

#[test]
fn sign_up_refuses_invalid_and_taken_names() {
    let users = names(&["alice"]);
    assert!(matches!(sign_up_check("Bad", &users), Err(TribError::InvalidUsername(u)) if u == "Bad"));
    assert!(matches!(sign_up_check("alice", &users), Err(TribError::UsernameTaken(u)) if u == "alice"));
    assert!(sign_up_check("bob", &users).is_ok());
}

#[test]
fn post_refuses_long_posts_and_unknown_users() {
    let users = names(&["alice"]);
    let long = "x".repeat(141);
    assert!(matches!(post_check("alice", &long, &users), Err(TribError::TribTooLong)));
    assert!(post_check("alice", &"x".repeat(140), &users).is_ok());
    assert!(matches!(post_check("bob", "hi", &users), Err(TribError::UserDoesNotExist(u)) if u == "bob"));
    assert!(user_check("alice", &users).is_ok());
}

#[test]
fn pair_check_refuses_self_and_unknown() {
    let users = names(&["alice", "bob"]);
    assert!(matches!(pair_check("alice", "alice", &users), Err(TribError::WhoWhom(u)) if u == "alice"));
    assert!(matches!(pair_check("carol", "bob", &users), Err(TribError::UserDoesNotExist(u)) if u == "carol"));
    assert!(matches!(pair_check("alice", "dave", &users), Err(TribError::UserDoesNotExist(u)) if u == "dave"));
    assert!(pair_check("alice", "bob", &users).is_ok());
}

#[test]
fn follow_log_replays_to_last_entry() {
    let l = vec![log("bob", true, 1), log("carol", true, 2), log("bob", false, 3), log("dave", true, 4)];
    assert!(!is_following_in_log(&l, "bob"));
    assert!(is_following_in_log(&l, "carol"));
    assert!(!is_following_in_log(&l, "erin"));
    let mut f = following_from_log(&l);
    f.sort();
    assert_eq!(f, names(&["carol", "dave"]));
}

#[test]
fn test_duplicate_follow() {
    let users = names(&["johnnysu", "alexsnoeren"]);
    let l = vec![log("alexsnoeren", true, 1)];
    assert!(matches!(
        follow_check("johnnysu", "alexsnoeren", &users, &l),
        Err(TribError::AlreadyFollowing(a, b)) if a == "johnnysu" && b == "alexsnoeren"
    ));
    assert!(follow_check("johnnysu", "alexsnoeren", &users, &vec![]).is_ok());
}

#[test]
fn test_duplicate_unfollow() {
    let users = names(&["johnnysu", "alexsnoeren"]);
    // unfollowing before any follow fails
    assert!(matches!(
        unfollow_check("johnnysu", "alexsnoeren", &users, &vec![]),
        Err(TribError::NotFollowing(a, b)) if a == "johnnysu" && b == "alexsnoeren"
    ));
    // follow, then unfollow succeeds
    let followed = vec![log("alexsnoeren", true, 1)];
    assert!(unfollow_check("johnnysu", "alexsnoeren", &users, &followed).is_ok());
    assert!(follow_outcome(&vec![log("alexsnoeren", true, 1), log("alexsnoeren", false, 2)], "alexsnoeren", 2, false).is_ok());
    // a second unfollow fails
    let unfollowed = vec![log("alexsnoeren", true, 1), log("alexsnoeren", false, 2)];
    assert!(matches!(
        unfollow_check("johnnysu", "alexsnoeren", &users, &unfollowed),
        Err(TribError::NotFollowing(a, b)) if a == "johnnysu" && b == "alexsnoeren"
    ));
}

#[test]
fn following_too_many_is_refused() {
    let mut users = vec!["who".to_string(), "target".to_string()];
    let mut l = Vec::new();
    for i in 0..MAX_FOLLOWING {
        let n = format!("u{}", i);
        users.push(n.clone());
        l.push(log(&n, true, i as u64));
    }
    assert!(matches!(follow_check("who", "target", &users, &l), Err(TribError::FollowingTooMany)));
    l.pop();
    assert!(follow_check("who", "target", &users, &l).is_ok());
}

#[test]
fn test_concurrent_follow() {
    // four follows of the same user raced; only the first one written wins
    let l: Vec<FollowLog> = (1..=4).map(|id| log("alexsnoeren", true, id)).collect();
    let mut errors = 0;
    for id in 1..=4u64 {
        let r = follow_outcome(&l, "alexsnoeren", id, true);
        if id == 1 {
            assert!(r.is_ok());
        } else {
            assert!(matches!(r, Err(TribError::Unknown(_))));
        }
        if r.is_err() {
            errors += 1;
        }
    }
    assert_eq!(errors, 3);
    let u = vec![log("bob", true, 1), log("bob", false, 7), log("bob", false, 8)];
    assert!(follow_outcome(&u, "bob", 7, false).is_ok());
    assert!(follow_outcome(&u, "bob", 8, false).is_err());
    assert!(follow_outcome(&u, "bob", 99, true).is_ok());
}

#[test]
fn tribs_sort_by_clock_time_user_message() {
    let t = vec![
        trib("bob", "b", 5, 2),
        trib("alice", "z", 9, 1),
        trib("alice", "a", 5, 2),
        trib("alice", "a", 4, 2),
        trib("alice", "a", 5, 2),
    ];
    let s = sort_tribs(&t);
    let got: Vec<(u64, u64, String, String)> =
        s.iter().map(|x| (x.clock, x.time, x.user.clone(), x.message.clone())).collect();
    assert_eq!(
        got,
        vec![
            (1, 9, "alice".to_string(), "z".to_string()),
            (2, 4, "alice".to_string(), "a".to_string()),
            (2, 5, "alice".to_string(), "a".to_string()),
            (2, 5, "alice".to_string(), "a".to_string()),
            (2, 5, "bob".to_string(), "b".to_string()),
        ]
    );
}

#[test]
fn timeline_keeps_latest_hundred() {
    let t: Vec<Trib> = (0..150u64).map(|i| trib("al", &format!("al_p{}", i), 0, i)).collect();
    let latest = take_latest(sort_tribs(&t));
    assert_eq!(latest.len(), MAX_TRIB_FETCH);
    assert_eq!(latest[0].clock, 50);
    assert_eq!(latest[99].clock, 149);
    assert_eq!(take_latest(sort_tribs(&t[..3].to_vec())).len(), 3);
}

#[test]
fn test_signup_users_less_than_20() {
    let users: Vec<String> = (0..15).map(|i| format!("user{:02}", 14 - i)).collect();
    let listed = list_users(&users);
    assert_eq!(listed.len(), 15);
    assert_eq!(listed[0], "user00");
    assert_eq!(listed[14], "user14");
}

#[test]
fn test_signup_users() {
    let first_guy = "firstguy".to_string();
    let thirtish_guy = "thirtishguy".to_string();
    let mut users = Vec::new();
    assert!(sign_up_check(&first_guy, &users).is_ok());
    users.push(first_guy.clone());
    for i in 0..30 {
        let n = format!("u{:02}", 29 - i);
        assert!(sign_up_check(&n, &users).is_ok());
        users.push(n);
    }
    assert!(sign_up_check(&thirtish_guy, &users).is_ok());
    users.push(thirtish_guy.clone());
    let listed = list_users(&users);
    assert!(listed.len() >= 20);
    assert_eq!(listed.len(), 20);
    for u in &listed {
        assert!(users.contains(u));
    }
    assert_eq!(listed[0], "firstguy");
    assert_eq!(listed[1], "thirtishguy");
    assert_eq!(listed[19], "u17");
    assert!(matches!(sign_up_check(&first_guy, &users), Err(TribError::UsernameTaken(u)) if u == first_guy));
    assert!(matches!(sign_up_check(&thirtish_guy, &users), Err(TribError::UsernameTaken(u)) if u == thirtish_guy));
}

#[test]
fn second_write_wins_once_replicas_agree() {
    // set(k, v1) then set(k, v2) reached both replicas
    let v2 = Some("v2".to_string());
    for (pc, bc) in [(0u64, 0u64), (9, 3), (3, 9)] {
        assert_eq!(pick_newer(v2.clone(), v2.clone(), pc, bc), v2);
    }
    // before the backup caught up, the replica with the higher clock answers
    assert_eq!(pick_newer(v2.clone(), Some("v1".to_string()), 9, 3), v2);
}

#[test]
fn removal_takes_matching_entries_from_both_replicas() {
    let primary = vec![entry("a", 1), entry("b", 2), entry("a", 3)];
    let backup = vec![entry("b", 2), entry("a", 5)];
    assert_eq!(matching_entries(&primary, "a"), vec![0, 2]);
    assert_eq!(removal_plan(&primary, &backup, "a"), (vec![0, 2], vec![1]));
    assert_eq!(removal_plan(&primary, &backup, "b"), (vec![1], vec![0]));
    assert_eq!(removal_plan(&primary, &backup, "c"), (vec![], vec![]));
}

#[test]
fn a_post_held_twice_is_shown_twice() {
    let t = vec![trib("al", "same", 3, 7), trib("al", "same", 3, 7)];
    let latest = latest_tribs(&t);
    assert_eq!(latest.len(), 2);
    assert!(latest.iter().all(|x| x.message == "same" && x.clock == 7));
}

#[test]
fn latest_tribs_is_the_sorted_tail() {
    let t: Vec<Trib> = (0..120u64).rev().map(|i| trib("u", &format!("m{}", i), 0, i % 110)).collect();
    let latest = latest_tribs(&t);
    assert_eq!(latest.len(), 100);
    let clocks: Vec<u64> = latest.iter().map(|x| x.clock).collect();
    let mut all: Vec<u64> = (0..120u64).map(|i| i % 110).collect();
    all.sort();
    assert_eq!(clocks, all[20..].to_vec());
}

#[test]
fn a_call_fails_only_when_both_replicas_fail() {
    let ok: Result<u32, String> = Ok(1);
    let err: Result<u32, String> = Err("down".to_string());
    assert_eq!(either_replica(ok.clone(), ok.clone()), Ok((Some(1), Some(1))));
    assert_eq!(either_replica(err.clone(), ok.clone()), Ok((None, Some(1))));
    assert_eq!(either_replica(ok.clone(), err.clone()), Ok((Some(1), None)));
    assert_eq!(either_replica(Err::<u32, String>("p".to_string()), Err("b".to_string())), Err("p".to_string()));
}
