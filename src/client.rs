//! Turning a bin name into the two storage clients that serve it.

use crate::ring::{
    bin_hash, is_placement, live_flags, live_view, name_hash, no_live, resolve, Placement,
    StatusTableEntry,
};
use vstd::prelude::*;

verus! {

/// A client of one storage backend, addressed by URL.
pub struct StorageClient {
    pub addr: String,
}

/// A client of the whole ring: hands out the storage of one bin.
pub struct BinStorageClient {
    pub backs: Vec<String>,
}

/// Seconds after which a bin's view of the ring is scanned again.
pub const REFRESH_SECS: u64 = 5;

/// Whether a view of the ring scanned `elapsed_secs` ago is due for a rescan.
pub fn table_is_stale(elapsed_secs: u64) -> (r: bool)
    ensures
        r == (elapsed_secs >= REFRESH_SECS),
{
    elapsed_secs >= REFRESH_SECS
}

/// The URL under which a backend at `addr` is reached.
pub open spec fn url_of(addr: Seq<char>) -> Seq<char> {
    "http://"@ + addr
}

/// The backend that serves as backup: the backup when there is one, else
/// the primary itself.
pub open spec fn backup_or_primary(pl: Placement) -> int {
    match pl.backup {
        Some(b) => b as int,
        None => pl.primary as int,
    }
}

/// The URL of the backend at `addr`.
pub fn backend_url(addr: &str) -> (r: String)
    ensures
        r@ == url_of(addr@),
{
    let mut r = String::from_str("http://");
    r.append(addr);
    r
}

impl StorageClient {
    /// A client of the backend at `addr`.
    pub fn for_backend(addr: &str) -> (r: StorageClient)
        ensures
            r.addr@ == url_of(addr@),
    {
        StorageClient { addr: backend_url(addr) }
    }
}

/// The URLs of the primary and backup of bin `name` under `table`: the
/// first live backend at or after `hash(name) mod n`, then the next live one.
/// With a single live backend both URLs name it; with none, or an empty
/// table, there is no placement.
pub fn hash_name_ip(name: &str, table: &Vec<StatusTableEntry>) -> (r: Option<(String, String)>)
    ensures
        r is None <==> (table@.len() == 0 || no_live(live_view(table@))),
        r matches Some((p, b)) ==> exists|pl: Placement|
            is_placement(live_view(table@), name_hash(name@) as int, pl)
                && p@ == url_of(table@[pl.primary as int].addr@)
                && b@ == url_of(table@[backup_or_primary(pl)].addr@),
{
    if table.len() == 0 {
        return None;
    }
    let live = live_flags(table);
    let h = bin_hash(name);
    match resolve(h, &live) {
        None => None,
        Some(pl) => {
            let b = match pl.backup {
                Some(b) => b,
                None => pl.primary,
            };
            let p_url = backend_url(table[pl.primary].addr.as_str());
            let b_url = backend_url(table[b].addr.as_str());
            Some((p_url, b_url))
        },
    }
}

impl BinStorageClient {
    /// The status table of the ring: each backend with the reachability
    /// observed for it.
    pub fn status_table(&self, reachable: &Vec<bool>) -> (r: Vec<StatusTableEntry>)
        requires
            reachable.len() == self.backs.len(),
        ensures
            r.len() == self.backs.len(),
            forall|i: int|
                0 <= i < r.len() ==> (#[trigger] r@[i]).addr == self.backs@[i] && r@[i].status
                    == reachable@[i],
    {
        let mut r: Vec<StatusTableEntry> = Vec::new();
        let mut i: usize = 0;
        while i < self.backs.len()
            invariant
                i <= self.backs.len(),
                reachable.len() == self.backs.len(),
                r.len() == i,
                forall|j: int|
                    0 <= j < i ==> (#[trigger] r@[j]).addr == self.backs@[j] && r@[j].status
                        == reachable@[j],
            decreases self.backs.len() - i,
        {
            r.push(StatusTableEntry { addr: self.backs[i].clone(), status: reachable[i] });
            i = i + 1;
        }
        r
    }

    /// The primary and backup clients of bin `name` under `table`.
    pub fn bin(&self, name: &str, table: &Vec<StatusTableEntry>) -> (r: Option<(StorageClient, StorageClient)>)
        ensures
            r is None <==> (table@.len() == 0 || no_live(live_view(table@))),
            r matches Some((p, b)) ==> exists|pl: Placement|
                is_placement(live_view(table@), name_hash(name@) as int, pl)
                    && p.addr@ == url_of(table@[pl.primary as int].addr@)
                    && b.addr@ == url_of(table@[backup_or_primary(pl)].addr@),
    {
        match hash_name_ip(name, table) {
            None => None,
            Some((p, b)) => Some((StorageClient { addr: p }, StorageClient { addr: b })),
        }
    }
}

} // verus!
