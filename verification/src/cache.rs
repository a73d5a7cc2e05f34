use vstd::prelude::*;

use crate::config::CachePolicy;

verus! {

/// Bookkeeping for one resident chunk: which chunk, and how many
/// accesses it has received. Recency is not stored here: the manager
/// keeps its entries ordered from least to most recently accessed.
#[derive(Clone, Copy, Debug, PartialEq, Eq, Structural)]
pub struct CacheEntry {
    pub chunk: u64,
    pub count: u64,
}

/// Whether some entry tracks chunk `c`.
pub open spec fn tracks(s: Seq<CacheEntry>, c: u64) -> bool {
    exists|i: int| 0 <= i < s.len() && s[i].chunk == c
}

/// The first index whose entry tracks chunk `c`.
pub open spec fn entry_index(s: Seq<CacheEntry>, c: u64) -> int
    decreases s.len(),
{
    if s.len() == 0 {
        0
    } else if s[0].chunk == c {
        0
    } else {
        1 + entry_index(s.drop_first(), c)
    }
}

pub proof fn lemma_entry_index(s: Seq<CacheEntry>, c: u64)
    requires
        tracks(s, c),
    ensures
        0 <= entry_index(s, c) < s.len(),
        s[entry_index(s, c)].chunk == c,
        forall|t: int| 0 <= t < entry_index(s, c) ==> s[t].chunk != c,
    decreases s.len(),
{
    if s.len() > 0 && s[0].chunk != c {
        assert(tracks(s.drop_first(), c)) by {
            let i = choose|i: int| 0 <= i < s.len() && s[i].chunk == c;
            assert(s.drop_first()[i - 1].chunk == c);
        }
        lemma_entry_index(s.drop_first(), c);
        assert forall|t: int| 0 <= t < entry_index(s, c) implies s[t].chunk != c by {
            if t >= 1 {
                assert(s[t] == s.drop_first()[t - 1]);
            }
        }
    }
}

/// No two entries track the same chunk.
pub open spec fn distinct_chunks(s: Seq<CacheEntry>) -> bool {
    forall|i: int, j: int| 0 <= i < j < s.len() ==> s[i].chunk != s[j].chunk
}

/// An access count grows by one until it sticks at the ceiling.
pub open spec fn saturated_inc(x: u64) -> u64 {
    if x == u64::MAX {
        x
    } else {
        (x + 1) as u64
    }
}

/// The entries after an access to chunk `c`: a tracked chunk moves to the
/// most recent end with its count bumped; a new chunk arrives there with
/// a count of one.
pub open spec fn cache_accessed(s: Seq<CacheEntry>, c: u64) -> Seq<CacheEntry> {
    if tracks(s, c) {
        let i = entry_index(s, c);
        s.remove(i).push(CacheEntry { chunk: c, count: saturated_inc(s[i].count) })
    } else {
        s.push(CacheEntry { chunk: c, count: 1 })
    }
}

/// The first index holding the least access count.
pub open spec fn lfu_index(s: Seq<CacheEntry>) -> int
    decreases s.len(),
{
    if s.len() <= 1 {
        0
    } else {
        let r = lfu_index(s.drop_last());
        if s.last().count < s[r].count {
            s.len() - 1
        } else {
            r
        }
    }
}

pub proof fn lemma_lfu_index(s: Seq<CacheEntry>)
    requires
        s.len() > 0,
    ensures
        0 <= lfu_index(s) < s.len(),
        forall|t: int| 0 <= t < s.len() ==> #[trigger] s[t].count >= s[lfu_index(s)].count,
        forall|t: int| 0 <= t < lfu_index(s) ==> #[trigger] s[t].count > s[lfu_index(s)].count,
    decreases s.len(),
{
    if s.len() > 1 {
        lemma_lfu_index(s.drop_last());
        assert(forall|t: int|
            0 <= t < s.len() - 1 ==> s[t] == s.drop_last()[t]);
    }
}

/// The entry an eviction removes: the least recent one under LRU, the
/// least counted one (oldest among equals) under LFU.
pub open spec fn victim_index(s: Seq<CacheEntry>, policy: CachePolicy) -> int {
    match policy {
        CachePolicy::Lru => 0,
        CachePolicy::Lfu => lfu_index(s),
    }
}

/// Tracks accesses to resident chunks and names eviction victims under
/// the configured policy. Entries are kept ordered by recency of access,
/// least recent first; the abstract value (the view) is that entry
/// sequence.
#[derive(Debug)]
pub struct CacheEvictionManager {
    policy: CachePolicy,
    entries: Vec<CacheEntry>,
}

impl View for CacheEvictionManager {
    type V = Seq<CacheEntry>;

    closed spec fn view(&self) -> Seq<CacheEntry> {
        self.entries@
    }
}

impl CacheEvictionManager {
    /// The policy the manager was built with.
    pub closed spec fn policy(&self) -> CachePolicy {
        self.policy
    }

    pub fn new(policy: CachePolicy) -> (r: Self)
        ensures
            r@ == Seq::<CacheEntry>::empty(),
            r.policy() == policy,
    {
        CacheEvictionManager { policy, entries: Vec::new() }
    }

    /// How many chunks are tracked.
    pub fn len(&self) -> (r: usize)
        ensures
            r == self@.len(),
    {
        self.entries.len()
    }

    /// Register a hit on chunk `c`.
    pub fn on_access(&mut self, c: u64)
        ensures
            final(self)@ == cache_accessed(old(self)@, c),
            final(self).policy() == old(self).policy(),
    {
        let n = self.entries.len();
        let mut i: usize = 0;
        while i < n
            invariant
                n == self.entries@.len(),
                i <= n,
                self.entries@ == old(self)@,
                self.policy == old(self).policy(),
                forall|t: int| 0 <= t < i ==> self.entries@[t].chunk != c,
            decreases n - i,
        {
            if self.entries[i].chunk == c {
                let hit = self.entries[i];
                let bumped = if hit.count == u64::MAX {
                    hit.count
                } else {
                    hit.count + 1
                };
                self.entries.remove(i);
                self.entries.push(CacheEntry { chunk: c, count: bumped });
                proof {
                    lemma_entry_index(old(self)@, c);
                    assert(i as int == entry_index(old(self)@, c));
                }
                return ;
            }
            i = i + 1;
        }
        self.entries.push(CacheEntry { chunk: c, count: 1 });
    }

    /// Name and drop a victim under the policy, or report that nothing is
    /// tracked.
    pub fn evict(&mut self) -> (r: Option<u64>)
        ensures
            final(self).policy() == old(self).policy(),
            match r {
                Some(c) => {
                    &&& old(self)@.len() > 0
                    &&& c == old(self)@[victim_index(old(self)@, old(self).policy())].chunk
                    &&& final(self)@ == old(self)@.remove(
                        victim_index(old(self)@, old(self).policy()),
                    )
                },
                None => {
                    &&& old(self)@.len() == 0
                    &&& final(self)@ == old(self)@
                },
            },
    {
        let n = self.entries.len();
        if n == 0 {
            return None;
        }
        let vi: usize = match self.policy {
            CachePolicy::Lru => 0,
            CachePolicy::Lfu => {
                let mut best: usize = 0;
                let mut i: usize = 1;
                while i < n
                    invariant
                        n == self.entries@.len(),
                        n > 0,
                        best < i <= n,
                        forall|t: int|
                            0 <= t < i ==> self.entries@[t].count
                                >= self.entries@[best as int].count,
                        forall|t: int|
                            0 <= t < best ==> self.entries@[t].count
                                > self.entries@[best as int].count,
                    decreases n - i,
                {
                    if self.entries[i].count < self.entries[best].count {
                        best = i;
                    }
                    i = i + 1;
                }
                proof {
                    lemma_lfu_index(self.entries@);
                    let li = lfu_index(self.entries@);
                    if li < best {
                        assert(self.entries@[li].count > self.entries@[best as int].count);
                        assert(self.entries@[li].count >= self.entries@[best as int].count);
                    }
                    if best < li {
                        assert(self.entries@[best as int].count > self.entries@[li].count);
                    }
                    assert(best as int == li);
                }
                best
            },
        };
        let victim = self.entries[vi];
        self.entries.remove(vi);
        Some(victim.chunk)
    }

    /// Drop the bookkeeping for chunk `c`, if any: called when a chunk is
    /// discarded by another path.
    pub fn forget(&mut self, c: u64)
        ensures
            final(self).policy() == old(self).policy(),
            final(self)@ == if tracks(old(self)@, c) {
                old(self)@.remove(entry_index(old(self)@, c))
            } else {
                old(self)@
            },
    {
        let n = self.entries.len();
        let mut i: usize = 0;
        while i < n
            invariant
                n == self.entries@.len(),
                i <= n,
                self.entries@ == old(self)@,
                self.policy == old(self).policy(),
                forall|t: int| 0 <= t < i ==> self.entries@[t].chunk != c,
            decreases n - i,
        {
            if self.entries[i].chunk == c {
                self.entries.remove(i);
                proof {
                    lemma_entry_index(old(self)@, c);
                    assert(i as int == entry_index(old(self)@, c));
                }
                return ;
            }
            i = i + 1;
        }
    }
}

} // verus!

verus! {

/// The entries tracking chunks below `limit`, in their original order.
pub open spec fn entries_below(s: Seq<CacheEntry>, limit: u64) -> Seq<CacheEntry>
    decreases s.len(),
{
    if s.len() == 0 {
        Seq::empty()
    } else {
        let r = entries_below(s.drop_last(), limit);
        if s.last().chunk < limit {
            r.push(s.last())
        } else {
            r
        }
    }
}

pub proof fn lemma_entries_below(s: Seq<CacheEntry>, limit: u64)
    ensures
        entries_below(s, limit).len() <= s.len(),
        forall|i: int|
            0 <= i < entries_below(s, limit).len() ==> (#[trigger] entries_below(s, limit)[i]).chunk
                < limit,
        forall|c2: u64|
            tracks(entries_below(s, limit), c2) <==> (tracks(s, c2) && c2 < limit),
        distinct_chunks(s) ==> distinct_chunks(entries_below(s, limit)),
    decreases s.len(),
{
    if s.len() > 0 {
        lemma_entries_below(s.drop_last(), limit);
        let d = s.drop_last();
        let r = entries_below(d, limit);
        assert forall|c2: u64| tracks(s, c2) && c2 < limit implies tracks(
            entries_below(s, limit),
            c2,
        ) by {
            let i = choose|i: int| 0 <= i < s.len() && s[i].chunk == c2;
            if i < s.len() - 1 {
                assert(d[i].chunk == c2);
                assert(tracks(d, c2));
                let q = choose|q: int| 0 <= q < r.len() && r[q].chunk == c2;
                if s.last().chunk < limit {
                    assert(r.push(s.last())[q].chunk == c2);
                }
            } else {
                assert(s.last().chunk == c2);
                assert(entries_below(s, limit).last().chunk == c2);
            }
        }
        assert forall|c2: u64| tracks(entries_below(s, limit), c2) implies (tracks(s, c2)
            && c2 < limit) by {
            let q = choose|q: int|
                0 <= q < entries_below(s, limit).len() && entries_below(s, limit)[q].chunk
                    == c2;
            if s.last().chunk < limit && q == entries_below(s, limit).len() - 1 {
                assert(s.last().chunk == c2);
            } else {
                assert(r[q].chunk == c2);
                assert(tracks(d, c2));
                let i = choose|i: int| 0 <= i < d.len() && d[i].chunk == c2;
                assert(s[i].chunk == c2);
            }
        }
        if distinct_chunks(s) {
            assert(distinct_chunks(d)) by {
                assert(forall|i: int, j: int|
                    0 <= i < j < d.len() ==> d[i] == s[i] && d[j] == s[j]);
            }
            if s.last().chunk < limit {
                assert(!tracks(d, s.last().chunk)) by {
                    if tracks(d, s.last().chunk) {
                        let i = choose|i: int|
                            0 <= i < d.len() && d[i].chunk == s.last().chunk;
                        assert(s[i].chunk == s[s.len() - 1].chunk);
                    }
                }
                assert forall|a: int, b: int|
                    0 <= a < b < entries_below(s, limit).len() implies entries_below(
                    s,
                    limit,
                )[a].chunk != entries_below(s, limit)[b].chunk by {
                    if b < entries_below(s, limit).len() - 1 {
                    } else {
                        assert(tracks(r, r[a].chunk));
                    }
                }
            }
        }
    }
}

impl CacheEvictionManager {
    /// Drop every entry at or past `limit`: called when a resize
    /// discards the chunks there.
    pub fn retain_below(&mut self, limit: u64)
        ensures
            final(self).policy() == old(self).policy(),
            final(self)@ == entries_below(old(self)@, limit),
    {
        let n = self.entries.len();
        let mut kept: Vec<CacheEntry> = Vec::new();
        let mut i: usize = 0;
        while i < n
            invariant
                n == self.entries@.len(),
                i <= n,
                self.entries@ == old(self)@,
                self.policy == old(self).policy(),
                kept@ == entries_below(old(self)@.take(i as int), limit),
            decreases n - i,
        {
            let en = self.entries[i];
            proof {
                assert(old(self)@.take(i + 1).drop_last() =~= old(self)@.take(i as int));
                assert(old(self)@.take(i + 1).last() == en);
            }
            if en.chunk < limit {
                kept.push(en);
            }
            i = i + 1;
        }
        proof {
            assert(old(self)@.take(n as int) =~= old(self)@);
        }
        self.entries = kept;
    }

    /// Drop all bookkeeping.
    pub fn clear(&mut self)
        ensures
            final(self).policy() == old(self).policy(),
            final(self)@ == Seq::<CacheEntry>::empty(),
    {
        self.entries.clear();
    }
}

} // verus!
