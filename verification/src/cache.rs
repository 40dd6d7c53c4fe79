//! The fast tier of the two-tier cache: an in-memory, capacity-bounded store
//! whose entries expire a fixed time after insertion. Eviction on overflow
//! drops the oldest insertion; only "respects the capacity" and "respects the
//! TTL" are part of the contract.

use vstd::prelude::*;
use crate::document::Document;
use crate::json::{doc_like, parse_canonical_document, render};
use crate::text::str_eq;

verus! {

/// Disk-tier read policy: a missing file is absent, and a file whose content
/// is not exactly a pretty-printed document is treated as absent as well —
/// corruption is tolerated, never surfaced as an error. Whatever is served
/// prints back to the file's exact text, and a file holding the rendering of
/// a document always yields a structurally equal document — so the tier can
/// return the stored document or nothing, never a wrong one.
pub fn decode_disk_entry(contents: Option<&str>) -> (r: Option<Document>)
    ensures
        contents is None ==> r is None,
        r matches Some(out) ==> (contents matches Some(c) && c@ == render(
            out,
            Seq::<char>::empty(),
        )),
        contents matches Some(c) ==> forall|d: Document| #[trigger] render(
            d,
            Seq::<char>::empty(),
        ) == c@ ==> (r matches Some(out) && doc_like(out, d)),
{
    match contents {
        Some(s) => parse_canonical_document(s),
        None => None,
    }
}

/// One cached document, owned by the cache; callers never mutate it.
pub struct CacheEntry {
    pub key: String,
    pub value: Document,
    pub inserted_at: u64,
}

/// The entry carrying `key`, scanning from the most recent insertion.
pub open spec fn lookup_entries(s: Seq<CacheEntry>, key: Seq<char>) -> Option<CacheEntry>
    decreases s.len(),
{
    if s.len() == 0 {
        None
    } else if s.last().key@ == key {
        Some(s.last())
    } else {
        lookup_entries(s.drop_last(), key)
    }
}

/// No two entries share a key.
pub open spec fn unique_keys(s: Seq<CacheEntry>) -> bool {
    forall|i: int, j: int| 0 <= i < j < s.len() ==> s[i].key@ != s[j].key@
}

proof fn lemma_lookup_absent(s: Seq<CacheEntry>, k: Seq<char>)
    requires
        forall|j: int| 0 <= j < s.len() ==> s[j].key@ != k,
    ensures
        lookup_entries(s, k) is None,
    decreases s.len(),
{
    if s.len() > 0 {
        lemma_lookup_absent(s.drop_last(), k);
    }
}

proof fn lemma_lookup_found(s: Seq<CacheEntry>, k: Seq<char>, i: int)
    requires
        unique_keys(s),
        0 <= i < s.len(),
        s[i].key@ == k,
    ensures
        lookup_entries(s, k) == Some(s[i]),
    decreases s.len(),
{
    if i < s.len() - 1 {
        lemma_lookup_found(s.drop_last(), k, i);
    }
}

proof fn lemma_lookup_remove(s: Seq<CacheEntry>, i: int, k: Seq<char>)
    requires
        unique_keys(s),
        0 <= i < s.len(),
        k != s[i].key@,
    ensures
        lookup_entries(s.remove(i), k) == lookup_entries(s, k),
    decreases s.len(),
{
    if i == s.len() - 1 {
        assert(s.remove(i) =~= s.drop_last());
    } else {
        assert(s.remove(i).last() == s.last());
        if s.last().key@ != k {
            assert(s.remove(i).drop_last() =~= s.drop_last().remove(i));
            lemma_lookup_remove(s.drop_last(), i, k);
        }
    }
}

/// The TTL law: whatever entry sits under `key`, a read at any time strictly
/// before its insertion time plus the TTL yields exactly the stored document,
/// and a read at or after that deadline yields nothing, forcing a refetch.
pub proof fn lemma_ttl_visibility(c: MemoryCache, key: Seq<char>, now: u64)
    requires
        c.well_formed(),
    ensures
        match c.lookup(key) {
            Some(e) => c.get_spec(key, now) == (if (now as int) < e.inserted_at + c.ttl_spec() {
                Some(e.value)
            } else {
                None::<Document>
            }),
            None => c.get_spec(key, now) is None,
        },
{
}

/// The in-memory cache tier.
pub struct MemoryCache {
    entries: Vec<CacheEntry>,
    capacity: usize,
    ttl_secs: u64,
}

impl MemoryCache {
    /// The stored entries, oldest insertion first.
    pub closed spec fn entries_seq(self) -> Seq<CacheEntry> {
        self.entries@
    }

    /// Maximum number of entries this tier will hold.
    pub closed spec fn capacity_spec(self) -> int {
        self.capacity as int
    }

    /// Seconds an entry stays visible after its insertion.
    pub closed spec fn ttl_spec(self) -> int {
        self.ttl_secs as int
    }

    /// Internal invariant: bounded, positive TTL, no duplicate keys.
    pub open spec fn well_formed(self) -> bool {
        &&& self.capacity_spec() >= 1
        &&& self.ttl_spec() >= 1
        &&& self.entries_seq().len() <= self.capacity_spec()
        &&& unique_keys(self.entries_seq())
    }

    /// The entry stored under `key`, live or expired.
    pub open spec fn lookup(self, key: Seq<char>) -> Option<CacheEntry> {
        lookup_entries(self.entries_seq(), key)
    }

    /// What a read at time `now` yields: the stored document while
    /// `now < insertion time + TTL`, nothing afterwards.
    pub open spec fn get_spec(self, key: Seq<char>, now: u64) -> Option<Document> {
        match self.lookup(key) {
            Some(e) => if (now as int) < e.inserted_at + self.ttl_spec() {
                Some(e.value)
            } else {
                None
            },
            None => None,
        }
    }

    /// An empty cache with the given bounds.
    pub fn new(capacity: usize, ttl_secs: u64) -> (r: Self)
        requires
            capacity >= 1,
            ttl_secs >= 1,
        ensures
            r.well_formed(),
            r.capacity_spec() == capacity,
            r.ttl_spec() == ttl_secs,
            forall|k: Seq<char>| r.lookup(k) is None,
    {
        MemoryCache { entries: Vec::new(), capacity, ttl_secs }
    }

    /// Read the document under `key` at time `now`; an entry older than the
    /// TTL is invisible.
    #[verifier::loop_isolation(false)]
    pub fn get<'a>(&'a self, key: &str, now: u64) -> (r: Option<&'a Document>)
        requires
            self.well_formed(),
        ensures
            match r {
                Some(d) => self.get_spec(key@, now) == Some(*d),
                None => self.get_spec(key@, now) is None,
            },
    {
        let ghost s = self.entries@;
        let n = self.entries.len();
        assert(s.take(n as int) =~= s);
        let mut i: usize = n;
        while i > 0
            invariant
                i <= n,
                lookup_entries(s, key@) == lookup_entries(s.take(i as int), key@),
            decreases i,
        {
            i = i - 1;
            assert(s.take(i + 1).last() == s[i as int]);
            assert(s.take(i + 1).drop_last() =~= s.take(i as int));
            if str_eq(self.entries[i].key.as_str(), key) {
                let e = &self.entries[i];
                let live = match e.inserted_at.checked_add(self.ttl_secs) {
                    Some(deadline) => now < deadline,
                    None => true,
                };
                if live {
                    return Some(&e.value);
                }
                return None;
            }
        }
        assert(s.take(0) =~= Seq::<CacheEntry>::empty());
        None
    }

    /// Store `value` under `key` as inserted at time `now`, replacing any
    /// entry with the same key. When a new key would exceed the capacity, the
    /// oldest insertion is dropped first. Entries under other keys are never
    /// reordered or altered; at most one of them is evicted, and none is
    /// while the cache has room.
    #[verifier::loop_isolation(false)]
    pub fn insert(&mut self, key: String, value: Document, now: u64)
        requires
            old(self).well_formed(),
        ensures
            final(self).well_formed(),
            final(self).capacity_spec() == old(self).capacity_spec(),
            final(self).ttl_spec() == old(self).ttl_spec(),
            (final(self).lookup(key@) matches Some(e) && e.key@ == key@ && e.value == value
                && e.inserted_at == now),
            forall|k: Seq<char>|
                k != key@ ==> match #[trigger] final(self).lookup(k) {
                    Some(e) => old(self).lookup(k) == Some(e),
                    None => true,
                },
            (old(self).lookup(key@) is Some || old(self).entries_seq().len() < old(
                self,
            ).capacity_spec()) ==> forall|k: Seq<char>|
                k != key@ ==> #[trigger] final(self).lookup(k) == old(self).lookup(k),
    {
        let ghost s0 = self.entries@;
        let n = self.entries.len();
        let mut found: Option<usize> = None;
        let mut i: usize = 0;
        while i < n
            invariant
                i <= n,
                found is None,
                forall|j: int| 0 <= j < i ==> s0[j].key@ != key@,
            decreases n - i,
        {
            if str_eq(self.entries[i].key.as_str(), key.as_str()) {
                found = Some(i);
                break;
            }
            i = i + 1;
        }
        match found {
            Some(idx) => {
                proof {
                    lemma_lookup_found(s0, key@, idx as int);
                }
                self.entries.remove(idx);
                proof {
                    s0.remove_ensures(idx as int);
                    assert forall|k: Seq<char>| k != key@ implies lookup_entries(
                        self.entries@,
                        k,
                    ) == lookup_entries(s0, k) by {
                        lemma_lookup_remove(s0, idx as int, k);
                    }
                    assert(forall|j: int|
                        0 <= j < self.entries@.len() ==> self.entries@[j].key@ != key@);
                }
            },
            None => {
                proof {
                    lemma_lookup_absent(s0, key@);
                }
                if self.entries.len() == self.capacity {
                    proof {
                        lemma_lookup_found(s0, s0[0].key@, 0);
                    }
                    let ghost evicted = self.entries@[0].key@;
                    self.entries.remove(0);
                    proof {
                        s0.remove_ensures(0);
                        assert forall|k: Seq<char>| k != evicted implies lookup_entries(
                            self.entries@,
                            k,
                        ) == lookup_entries(s0, k) by {
                            lemma_lookup_remove(s0, 0, k);
                        }
                        assert(forall|j: int|
                            0 <= j < self.entries@.len() ==> self.entries@[j].key@ != evicted);
                        lemma_lookup_absent(self.entries@, evicted);
                        lemma_lookup_absent(self.entries@, key@);
                    }
                }
            },
        }
        let ghost mid = self.entries@;
        let entry = CacheEntry { key, value, inserted_at: now };
        self.entries.push(entry);
        proof {
            assert(self.entries@.last() == entry);
            assert(self.entries@.drop_last() =~= mid);
            assert forall|k: Seq<char>| k != key@ implies lookup_entries(self.entries@, k)
                == lookup_entries(mid, k) by {
                assert(self.entries@.len() > 0);
                assert(self.entries@.last().key@ == key@);
            }
        }
    }
}

} // verus!
