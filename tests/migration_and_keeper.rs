use lab::colon::bin_key;
use lab::keeper::{
    adopt_status_table, apply_probe, next_cluster_clock, status_home, write_twice_targets, Keeper, KeeperAction, KeeperEvent,
    KeeperRole, KeeperState, LivenessChange,
};
use lab::migration::{data_migration, in_arc_exec, key_position_exec, node_join, node_leave, MigrationTask};
use lab::ring::{bin_hash, StatusTableEntry};

fn table(flags: &[bool]) -> Vec<StatusTableEntry> {
    flags
        .iter()
        .enumerate()
        .map(|(i, s)| StatusTableEntry { addr: format!("b{}", i), status: *s })
        .collect()
}

fn task(arc_start: usize, arc_end: usize, source: usize, dest: usize) -> MigrationTask {
    MigrationTask { arc_start, arc_end, source, dest }
}

#[test]
fn in_arc_handles_wraparound_and_whole_ring() {
    assert!(in_arc_exec(2, 1, 3));
    assert!(in_arc_exec(3, 1, 3));
    assert!(!in_arc_exec(1, 1, 3));
    assert!(in_arc_exec(0, 3, 1));
    assert!(in_arc_exec(4, 3, 1));
    assert!(!in_arc_exec(2, 3, 1));
    assert!(in_arc_exec(2, 2, 2));
}

#[test]
fn join_copies_new_coverage_from_successor() {
    let t = table(&[true, false, false, true, true]);
    assert_eq!(node_join(2, &t), Some(task(4, 2, 3, 2)));
}

#[test]
fn join_beside_one_backend_copies_whole_ring() {
    let t = table(&[false, true]);
    assert_eq!(node_join(0, &t), Some(task(0, 0, 1, 0)));
}

#[test]
fn join_with_no_other_backend_copies_nothing() {
    assert_eq!(node_join(1, &table(&[false, false, false])), None);
    assert_eq!(node_join(1, &table(&[false, true, false])), None);
}

#[test]
fn leave_restores_both_copies() {
    let t = table(&[true, false, true, true, true]);
    assert_eq!(node_leave(2, &t), vec![task(0, 3, 3, 4), task(4, 0, 0, 3)]);
}

#[test]
fn leave_with_two_survivors_swaps_arcs() {
    let t = table(&[true, true, true]);
    assert_eq!(node_leave(1, &t), vec![task(0, 2, 2, 0), task(2, 0, 0, 2)]);
}

#[test]
fn leave_with_one_survivor_or_none_copies_nothing() {
    assert_eq!(node_leave(1, &table(&[true, true, false])), vec![]);
    assert_eq!(node_leave(0, &table(&[true, false])), vec![]);
}

#[test]
fn key_position_hashes_the_bin_name() {
    let k = bin_key("alice", "tribs");
    assert_eq!(key_position_exec(&k, 4), (bin_hash("alice") % 4) as usize);
    assert_eq!(key_position_exec("BackendStatus", 7), (bin_hash("BackendStatus") % 7) as usize);
}

#[test]
fn data_migration_selects_keys_in_arc() {
    let names = ["alice", "bob", "carol", "dave", "erin", "frank"];
    let keys: Vec<String> = names.iter().map(|n| bin_key(n, "k")).collect();
    let n = 4usize;
    let positions: Vec<usize> = names.iter().map(|b| (bin_hash(b) % 4) as usize).collect();
    let t = task(0, 2, 3, 1);
    let expected: Vec<String> = keys
        .iter()
        .zip(positions.iter())
        .filter(|(_, p)| **p == 1 || **p == 2)
        .map(|(k, _)| k.clone())
        .collect();
    assert_eq!(data_migration(&keys, &t, n), expected);
    assert_eq!(data_migration(&keys, &task(1, 1, 0, 2), n), keys);
}

#[test]
fn check_leader_takes_first_positive() {
    let k = Keeper { keepers: vec![], backs: vec![] };
    assert_eq!(k.check_leader(&vec![None, Some(-1), Some(0), Some(3), Some(2)]), 3);
    assert_eq!(k.check_leader(&vec![None, Some(-1)]), -1);
    assert_eq!(k.check_leader(&vec![]), -1);
}

#[test]
fn select_leader_takes_least_reachable_index() {
    let k = Keeper { keepers: vec![], backs: vec![] };
    assert_eq!(k.select_leader(&vec![Some(4), None, Some(1), Some(2)]), Some(1));
    assert_eq!(k.select_leader(&vec![None, Some(7), None]), Some(7));
    assert_eq!(k.select_leader(&vec![None, None]), None);
}

#[test]
fn keeper_starts_by_checking_for_a_leader() {
    let (s, a) = KeeperState::new(2);
    assert_eq!(a, KeeperAction::CheckLeader);
    assert_eq!(s, KeeperState { this: 2, role: KeeperRole::Unknown, term: 0 });
    let (s1, a1) = s.step(KeeperEvent::LeaderReported(-1));
    assert_eq!(a1, KeeperAction::SelectLeader);
    let (s2, a2) = s1.step(KeeperEvent::LeaderReported(5));
    assert_eq!(s2.role, KeeperRole::Following(5));
    assert_eq!(a2, KeeperAction::Heartbeat(5));
}

#[test]
fn lone_keeper_elects_itself() {
    let (s, _) = KeeperState::new(3);
    let k = Keeper { keepers: vec![], backs: vec![] };
    let m = k.select_leader(&vec![None, None, None, Some(3)]);
    let (s1, a1) = s.step(KeeperEvent::Elected(m));
    assert_eq!(s1.role, KeeperRole::Leading);
    assert_eq!(s1.term, 1);
    assert_eq!(a1, KeeperAction::LeadRound);
    let (s2, a2) = s1.step(KeeperEvent::RoundDone);
    assert_eq!(s2, s1);
    assert_eq!(a2, KeeperAction::LeadRound);
}

#[test]
fn follower_reelects_when_leader_dies() {
    let s = KeeperState { this: 2, role: KeeperRole::Following(0), term: 4 };
    let (s0, a0) = s.step(KeeperEvent::HeartbeatOk);
    assert_eq!((s0, a0), (s, KeeperAction::Heartbeat(0)));
    let (s1, a1) = s.step(KeeperEvent::HeartbeatFailed);
    assert_eq!(s1.role, KeeperRole::Unknown);
    assert_eq!(a1, KeeperAction::SelectLeader);
    let (s2, a2) = s1.step(KeeperEvent::Elected(Some(1)));
    assert_eq!(s2, KeeperState { this: 2, role: KeeperRole::Following(1), term: 5 });
    assert_eq!(a2, KeeperAction::Heartbeat(1));
    let (s3, a3) = s1.step(KeeperEvent::Elected(None));
    assert_eq!(s3.role, KeeperRole::Unknown);
    assert_eq!(a3, KeeperAction::SelectLeader);
}

#[test]
fn apply_probe_detects_join_and_leave() {
    let t = table(&[true, false, true]);
    let (t1, c1) = apply_probe(t, 1, true);
    assert!(t1[1].status);
    assert_eq!(t1[1].addr, "b1");
    match c1 {
        LivenessChange::Joined(Some(m)) => assert_eq!(m, task(2, 1, 2, 1)),
        other => panic!("expected a join, got {:?}", other),
    }
    let (t2, c2) = apply_probe(t1, 0, false);
    assert!(!t2[0].status);
    match c2 {
        LivenessChange::Left(ts) => assert_eq!(ts, vec![task(2, 1, 1, 2), task(1, 2, 2, 1)]),
        other => panic!("expected a leave, got {:?}", other),
    }
    let (t3, c3) = apply_probe(t2, 2, true);
    assert!(t3[2].status);
    assert!(matches!(c3, LivenessChange::Unchanged));
}

#[test]
fn cluster_clock_is_max_of_readings() {
    assert_eq!(next_cluster_clock(5, &vec![3, 9, 7]), 9);
    assert_eq!(next_cluster_clock(12, &vec![3, 9, 7]), 12);
    assert_eq!(next_cluster_clock(4, &vec![]), 4);
}

#[test]
fn status_table_is_written_to_two_live_backends() {
    let t = table(&[true, true, true, true, true]);
    let h = status_home(5);
    assert_eq!(h, (bin_hash("BackendStatus") % 5) as usize);
    assert_eq!(write_twice_targets(h, &t), Some((h, (h + 1) % 5)));
    assert_eq!(write_twice_targets(4, &t), Some((4, 0)));
    let gaps = table(&[true, false, true, false]);
    assert_eq!(write_twice_targets(1, &gaps), Some((2, 0)));
    let one = table(&[false, false, true]);
    assert_eq!(write_twice_targets(0, &one), Some((2, 2)));
    assert_eq!(write_twice_targets(0, &table(&[false])), None);
}

/// Stores each bin's key on its primary and backup under `live`.
fn place_all(bins: &[String], live: &[bool]) -> Vec<Vec<String>> {
    let mut stores = vec![Vec::new(); live.len()];
    for b in bins {
        let pl = lab::ring::resolve(bin_hash(b), &live.to_vec()).unwrap();
        stores[pl.primary].push(bin_key(b, "k"));
        if let Some(x) = pl.backup {
            stores[x].push(bin_key(b, "k"));
        }
    }
    stores
}

fn run_tasks(stores: &mut Vec<Vec<String>>, tasks: &[MigrationTask]) {
    let n = stores.len();
    for t in tasks {
        for k in data_migration(&stores[t.source].clone(), t, n) {
            if !stores[t.dest].contains(&k) {
                stores[t.dest].push(k);
            }
        }
    }
}

fn assert_fully_placed(bins: &[String], live: &[bool], stores: &[Vec<String>]) {
    for b in bins {
        let pl = lab::ring::resolve(bin_hash(b), &live.to_vec()).unwrap();
        assert!(stores[pl.primary].contains(&bin_key(b, "k")), "primary of {} misses it", b);
        if let Some(x) = pl.backup {
            assert!(stores[x].contains(&bin_key(b, "k")), "backup of {} misses it", b);
        }
    }
}

#[test]
fn join_then_every_key_is_on_its_new_replicas() {
    let bins: Vec<String> = (0..200).map(|i| format!("user{}", i)).collect();
    for curr in 0..6 {
        let mut before = vec![true, true, false, true, false, true];
        before[curr] = false;
        let mut stores = place_all(&bins, &before);
        let (t, change) = apply_probe(table(&before), curr, true);
        let tasks: Vec<MigrationTask> = match change {
            LivenessChange::Joined(x) => x.into_iter().collect(),
            other => panic!("expected a join, got {:?}", other),
        };
        run_tasks(&mut stores, &tasks);
        let after: Vec<bool> = t.iter().map(|e| e.status).collect();
        assert_fully_placed(&bins, &after, &stores);
    }
}

#[test]
fn leave_then_every_key_is_on_its_new_replicas() {
    let bins: Vec<String> = (0..200).map(|i| format!("user{}", i)).collect();
    for curr in 0..6 {
        let mut before = vec![true, false, true, true, false, true];
        before[curr] = true;
        let mut stores = place_all(&bins, &before);
        stores[curr].clear();
        let (t, change) = apply_probe(table(&before), curr, false);
        let tasks = match change {
            LivenessChange::Left(ts) => ts,
            other => panic!("expected a leave, got {:?}", other),
        };
        run_tasks(&mut stores, &tasks);
        let after: Vec<bool> = t.iter().map(|e| e.status).collect();
        assert_fully_placed(&bins, &after, &stores);
    }
}

#[test]
fn stored_status_table_is_adopted_when_it_fits() {
    let stored = table(&[false, true, true]);
    let scanned = table(&[true, true, true]);
    let r = adopt_status_table(Some(stored), scanned.clone());
    assert_eq!(r.iter().map(|e| e.status).collect::<Vec<_>>(), vec![false, true, true]);
    let r = adopt_status_table(Some(table(&[false, true])), scanned.clone());
    assert_eq!(r.iter().map(|e| e.status).collect::<Vec<_>>(), vec![true, true, true]);
    let r = adopt_status_table(None, scanned);
    assert_eq!(r.len(), 3);
}
