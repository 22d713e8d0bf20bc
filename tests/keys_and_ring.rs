use lab::client::{backend_url, hash_name_ip, BinStorageClient, StorageClient};
use lab::colon::{bin_key, escape, split_bin_key, unescape};
use lab::ring::{bin_hash, live_flags, next_live, resolve, Placement, StatusTableEntry};
use std::collections::HashSet;

fn table(flags: &[bool]) -> Vec<StatusTableEntry> {
    flags
        .iter()
        .enumerate()
        .map(|(i, s)| StatusTableEntry { addr: format!("127.0.0.1:{}", 33951 + i), status: *s })
        .collect()
}

#[test]
fn escape_doubles_bars_and_hides_colons() {
    assert_eq!(escape("a|b:c"), "a||b|;c");
    assert_eq!(escape("plain"), "plain");
    assert_eq!(escape(""), "");
    assert_eq!(escape("::"), "|;|;");
}

#[test]
fn unescape_reverses_escape() {
    for s in ["", "abc", "|", ":", "|;", "||;", "a::b|c", "|||:::"] {
        assert_eq!(unescape(&escape(s)), s);
    }
    assert_eq!(unescape("a||b|;c"), "a|b:c");
}

#[test]
fn bin_key_joins_escaped_parts() {
    assert_eq!(bin_key("Users", "tribs"), "Users::tribs");
    assert_eq!(bin_key("a:b", "c|d"), "a|;b::c||d");
}

#[test]
fn split_bin_key_recovers_bin_and_key() {
    let k = bin_key("we::ird|bin", "key:with::colons");
    let (name, key) = split_bin_key(&k);
    assert_eq!(name, "we::ird|bin");
    assert_eq!(key, "key:with::colons");
    let (name, key) = split_bin_key("BackendStatus");
    assert_eq!(name, "BackendStatus");
    assert_eq!(key, "");
}

#[test]
fn thousand_bins_with_one_key_never_collide() {
    let mut seen = HashSet::new();
    for i in 0..1000 {
        let name = format!("bin{}", i);
        assert!(seen.insert(bin_key(&name, "jerkoff")));
    }
    // names that would collide under plain concatenation stay apart
    assert_ne!(bin_key("a:", ":b"), bin_key("a", "::b"));
    assert_ne!(bin_key("a::b", "c"), bin_key("a", "b::c"));
}

#[test]
fn bin_hash_is_stable() {
    assert_eq!(bin_hash("alice"), bin_hash("alice"));
    assert_ne!(bin_hash("alice"), bin_hash("bob"));
}

#[test]
fn next_live_walks_both_ways_with_wraparound() {
    let live = vec![false, true, false, false, true];
    assert_eq!(next_live(&live, 2, true), Some(4));
    assert_eq!(next_live(&live, 1, true), Some(1));
    assert_eq!(next_live(&live, 0, false), Some(4));
    assert_eq!(next_live(&live, 3, false), Some(1));
    assert_eq!(next_live(&vec![false, false], 1, true), None);
}

#[test]
fn resolve_takes_first_two_live_backends() {
    let live = vec![true, false, true, true];
    assert_eq!(resolve(1, &live), Some(Placement { primary: 2, backup: Some(3) }));
    assert_eq!(resolve(7, &live), Some(Placement { primary: 3, backup: Some(0) }));
    assert_eq!(resolve(4, &live), Some(Placement { primary: 0, backup: Some(2) }));
}

#[test]
fn resolve_degrades_to_one_backend() {
    let live = vec![false, true, false];
    assert_eq!(resolve(0, &live), Some(Placement { primary: 1, backup: None }));
    assert_eq!(resolve(0, &vec![false, false, false]), None);
}

#[test]
fn hash_name_ip_gives_urls_of_primary_and_backup() {
    let t = table(&[true, true, true, true]);
    let h = (bin_hash("alice") % 4) as usize;
    let (p, b) = hash_name_ip("alice", &t).unwrap();
    assert_eq!(p, format!("http://127.0.0.1:{}", 33951 + h));
    assert_eq!(b, format!("http://127.0.0.1:{}", 33951 + (h + 1) % 4));
}

#[test]
fn hash_name_ip_with_one_live_backend_uses_it_twice() {
    let t = table(&[false, false, true, false]);
    let (p, b) = hash_name_ip("bob", &t).unwrap();
    assert_eq!(p, "http://127.0.0.1:33953");
    assert_eq!(b, "http://127.0.0.1:33953");
    assert_eq!(hash_name_ip("bob", &table(&[false, false])), None);
    assert_eq!(hash_name_ip("bob", &Vec::new()), None);
}

#[test]
fn bin_storage_client_builds_table_and_clients() {
    let bc = BinStorageClient { backs: vec!["h0:1".to_string(), "h1:2".to_string()] };
    let t = bc.status_table(&vec![false, true]);
    assert_eq!(t.len(), 2);
    assert_eq!(t[0].addr, "h0:1");
    assert!(!t[0].status);
    assert!(t[1].status);
    assert_eq!(live_flags(&t), vec![false, true]);
    let (p, b) = bc.bin("anything", &t).unwrap();
    assert_eq!(p.addr, "http://h1:2");
    assert_eq!(b.addr, "http://h1:2");
    assert_eq!(StorageClient::for_backend("x:9").addr, "http://x:9");
    assert_eq!(backend_url("y:1"), "http://y:1");
}
