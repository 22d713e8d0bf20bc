use lab::colon::bin_key;
use lab::front::{
    follow_check, follow_outcome, following_from_log, post_check, sign_up_check, unfollow_check,
    FollowLog, TribError,
};
use lab::replica::{log_messages, merge_log, LogEntry};
use lab::timeline::{sort_tribs, take_latest, Trib};
use std::collections::HashMap;

/// Two in-memory replicas of every list, driven through the library's rules.
struct Cluster {
    primary: HashMap<String, Vec<LogEntry>>,
    backup: HashMap<String, Vec<LogEntry>>,
    clock: u64,
    users: Vec<String>,
    logs: HashMap<String, Vec<FollowLog>>,
    tribs: HashMap<String, Vec<Trib>>,
}

impl Cluster {
    fn new() -> Cluster {
        Cluster {
            primary: HashMap::new(),
            backup: HashMap::new(),
            clock: 0,
            users: Vec::new(),
            logs: HashMap::new(),
            tribs: HashMap::new(),
        }
    }

    fn append(&mut self, bin: &str, key: &str, value: &str) {
        self.clock += 1;
        let e = LogEntry::tagged(value, self.clock, self.clock);
        let k = bin_key(bin, key);
        self.primary.entry(k.clone()).or_default().push(e.clone());
        self.backup.entry(k).or_default().push(e);
    }

    fn list(&self, bin: &str, key: &str) -> Vec<String> {
        let k = bin_key(bin, key);
        let p = self.primary.get(&k).cloned().unwrap_or_default();
        let b = self.backup.get(&k).cloned().unwrap_or_default();
        log_messages(&merge_log(&p, &b))
    }

    fn sign_up(&mut self, user: &str) -> Result<(), TribError> {
        let users = self.list("Users", "Users");
        sign_up_check(user, &users)?;
        self.append("Users", "Users", user);
        self.users.push(user.to_string());
        Ok(())
    }

    fn follow(&mut self, who: &str, whom: &str, follow: bool) -> Result<(), TribError> {
        let users = self.list("Users", "Users");
        let l = self.logs.get(who).cloned().unwrap_or_default();
        if follow {
            follow_check(who, whom, &users, &l)?;
        } else {
            unfollow_check(who, whom, &users, &l)?;
        }
        self.clock += 1;
        let id = self.clock;
        let entries = self.logs.entry(who.to_string()).or_default();
        entries.push(FollowLog { name: whom.to_string(), follow, id });
        follow_outcome(entries, whom, id, follow)
    }

    fn post(&mut self, who: &str, message: &str, clock: u64) -> Result<(), TribError> {
        let users = self.list("Users", "Users");
        post_check(who, message, &users)?;
        self.clock = self.clock.max(clock) + 1;
        let t = Trib { user: who.to_string(), message: message.to_string(), time: 0, clock: self.clock };
        self.tribs.entry(who.to_string()).or_default().push(t);
        Ok(())
    }

    fn home(&self, user: &str) -> Vec<Trib> {
        let l = self.logs.get(user).cloned().unwrap_or_default();
        let mut all = Vec::new();
        for name in following_from_log(&l).iter().chain(std::iter::once(&user.to_string())) {
            all.extend(self.tribs.get(name).cloned().unwrap_or_default());
        }
        take_latest(sort_tribs(&all))
    }
}

#[test]
fn alice_sees_bob_after_following() {
    let mut c = Cluster::new();
    c.sign_up("alice").unwrap();
    c.sign_up("bob").unwrap();
    c.follow("alice", "bob", true).unwrap();
    c.post("bob", "hi", 0).unwrap();
    let home = c.home("alice");
    assert_eq!(home.len(), 1);
    assert_eq!(home[0].user, "bob");
    assert_eq!(home[0].message, "hi");
    assert!(matches!(c.follow("alice", "bob", true), Err(TribError::AlreadyFollowing(_, _))));
    assert!(matches!(c.follow("bob", "alice", false), Err(TribError::NotFollowing(_, _))));
    assert!(matches!(c.sign_up("alice"), Err(TribError::UsernameTaken(_))));
    assert_eq!(c.users.len(), 2);
}

#[test]
fn test_simple_tribs_2() {
    let mut c = Cluster::new();
    c.sign_up("johnnysu").unwrap();
    c.sign_up("alexsnoeren").unwrap();
    c.follow("johnnysu", "alexsnoeren", true).unwrap();
    c.post("alexsnoeren", "al", 100).unwrap();
    c.post("johnnysu", "js", 0).unwrap();
    let home = c.home("johnnysu");
    assert_eq!(home.len(), 2);
    assert_eq!(home[0].user, "alexsnoeren");
    assert_eq!(home[0].message, "al");
    assert_eq!(home[1].user, "johnnysu");
    assert_eq!(home[1].message, "js");
    assert!(home[1].clock > 100);
    c.follow("johnnysu", "alexsnoeren", false).unwrap();
    assert_eq!(c.home("johnnysu").len(), 1);
}
