//! Signatures that identify a game situation for caching, and cache
//! settings.

use vstd::prelude::*;
use std::collections::hash_map::DefaultHasher;
use std::hash::{BuildHasher, BuildHasherDefault};
use std::time::Duration;
use crate::api::web_api::WebGameState;

verus! {

/// What identifies a game situation: hashes of the players' and the cards'
/// data, the pot, street and seat to act.
#[derive(Debug, Clone, Copy, Hash, PartialEq, Eq, Structural)]
pub struct StateSignature {
    players_hash: u64,
    board_hash: u64,
    pot: u32,
    street: u8,
    to_act: usize,
}

/// std's `BuildHasher::hash_one` with a default `DefaultHasher` over the
/// stacks, live seats and street investments, in that order. Nothing is
/// stated of the value: `DefaultHasher` writes integers in the machine's
/// byte order and width, so the hash is not the same on every machine.
#[verifier::external_body]
fn hash_player_fields(stacks: &Vec<u32>, alive_players: &Vec<usize>, street_investments: &Vec<u32>) -> u64 {
    BuildHasherDefault::<DefaultHasher>::default().hash_one((stacks, alive_players, street_investments))
}

/// std's `BuildHasher::hash_one` with a default `DefaultHasher` over the
/// board and the hole cards, in that order. Nothing is stated of the value,
/// for the reason given at [`hash_player_fields`].
#[verifier::external_body]
fn hash_card_fields(board: &Vec<u8>, hole_cards: &[u8; 2]) -> u64 {
    BuildHasherDefault::<DefaultHasher>::default().hash_one((board, hole_cards))
}

impl StateSignature {
    /// Pot of the signed situation.
    pub closed spec fn pot_spec(&self) -> u32 {
        self.pot
    }

    /// Street of the signed situation.
    pub closed spec fn street_spec(&self) -> u8 {
        self.street
    }

    /// Seat to act in the signed situation.
    pub closed spec fn to_act_spec(&self) -> usize {
        self.to_act
    }

    /// Signature of a web game state: the pot, street and seat to act as
    /// given, and the two hashes that std's default hasher gives the
    /// players' data (stacks, live seats, street investments) and the cards
    /// (board, hole cards).
    pub fn from_web_state(web_state: &WebGameState) -> (sig: Self)
        ensures
            sig.pot_spec() == web_state.pot,
            sig.street_spec() == web_state.street,
            sig.to_act_spec() == web_state.player_to_act,
    {
        let players_hash = hash_player_fields(
            &web_state.stacks,
            &web_state.alive_players,
            &web_state.street_investments,
        );
        let board_hash = hash_card_fields(&web_state.board, &web_state.hole_cards);
        StateSignature {
            players_hash,
            board_hash,
            pot: web_state.pot,
            street: web_state.street,
            to_act: web_state.player_to_act,
        }
    }
}

/// std's `Clone` for `Duration`, a `Copy` type: the clone is the same
/// duration.
pub assume_specification[ <Duration as Clone>::clone ](d: &Duration) -> (r: Duration)
    ensures
        r == *d,
;

/// Settings of the analysis cache.
#[derive(Debug, Clone)]
pub struct CacheConfig {
    /// Most entries kept.
    pub max_size: usize,
    /// Age after which an entry is dropped.
    pub max_age: Duration,
    /// Time between sweeps for expired entries.
    pub cleanup_interval: Duration,
}

/// std's `Duration::from_secs`. `Duration` is opaque here, so nothing is
/// stated of the value.
#[verifier::external_body]
fn seconds(secs: u64) -> Duration {
    Duration::from_secs(secs)
}

impl Default for CacheConfig {
    /// 1,000 entries, kept five minutes (300 s), swept every minute (60 s).
    fn default() -> (c: Self)
        ensures
            c.max_size == 1000,
    {
        Self { max_size: 1000, max_age: seconds(300), cleanup_interval: seconds(60) }
    }
}


/// Time elapsed from `then` to `now`, in the caller's clock ticks; none when
/// `now` is earlier.
pub open spec fn elapsed(now: u64, then: u64) -> int {
    if now >= then {
        now - then
    } else {
        0
    }
}

/// A cached result with its bookkeeping: when it was stored and last read
/// (in the caller's clock ticks) and how often it was handed out.
pub struct CacheEntry<R> {
    pub result: R,
    pub created_at: u64,
    pub last_accessed: u64,
    pub access_count: u32,
}

/// The entry is older than `max_age` at time `now`.
pub open spec fn entry_expired<R>(e: CacheEntry<R>, now: u64, max_age: u64) -> bool {
    elapsed(now, e.created_at) > max_age
}

/// The entry after a read at time `now`.
pub open spec fn accessed<R>(e: CacheEntry<R>, now: u64) -> CacheEntry<R> {
    CacheEntry {
        result: e.result,
        created_at: e.created_at,
        last_accessed: now,
        access_count: (e.access_count + 1) as u32,
    }
}

/// A fresh entry stored at time `now`, counted as one access.
pub open spec fn fresh_entry<R>(result: R, now: u64) -> CacheEntry<R> {
    CacheEntry { result, created_at: now, last_accessed: now, access_count: 1 }
}

impl<R> CacheEntry<R> {
    /// Entry for `result` stored at time `now`.
    pub fn new(result: R, now: u64) -> (e: Self)
        ensures
            e == fresh_entry(result, now),
    {
        CacheEntry { result, created_at: now, last_accessed: now, access_count: 1 }
    }

    /// Whether the entry is older than `max_age` at time `now`.
    pub fn is_expired(&self, now: u64, max_age: u64) -> (b: bool)
        ensures
            b == entry_expired(*self, now, max_age),
    {
        let age = if now >= self.created_at {
            now - self.created_at
        } else {
            0
        };
        age > max_age
    }
}

impl<R: Clone> CacheEntry<R> {
    /// Reads the entry at time `now`: a clone of the result, with the read
    /// time and count updated.
    pub fn access(&mut self, now: u64) -> (r: R)
        requires
            old(self).access_count < u32::MAX,
        ensures
            *final(self) == accessed(*old(self), now),
            cloned(old(self).result, r),
    {
        self.last_accessed = now;
        self.access_count = self.access_count + 1;
        self.result.clone()
    }
}

/// No signature occurs twice.
pub open spec fn keys_unique<R>(s: Seq<(StateSignature, CacheEntry<R>)>) -> bool {
    forall|i: int, j: int| 0 <= i < j < s.len() ==> #[trigger] s[i].0 != #[trigger] s[j].0
}

/// Some entry has signature `k`.
pub open spec fn has_key<R>(s: Seq<(StateSignature, CacheEntry<R>)>, k: StateSignature) -> bool {
    exists|i: int| 0 <= i < s.len() && #[trigger] s[i].0 == k
}

/// The entries as a map from signature to entry.
pub open spec fn entries_map<R>(s: Seq<(StateSignature, CacheEntry<R>)>) -> Map<
    StateSignature,
    CacheEntry<R>,
> {
    Map::new(
        |k: StateSignature| has_key(s, k),
        |k: StateSignature| s[choose|i: int| 0 <= i < s.len() && #[trigger] s[i].0 == k].1,
    )
}

proof fn lemma_entries_map_at<R>(s: Seq<(StateSignature, CacheEntry<R>)>, i: int)
    requires
        keys_unique(s),
        0 <= i < s.len(),
    ensures
        entries_map(s).contains_key(s[i].0),
        entries_map(s)[s[i].0] == s[i].1,
{
    let k = s[i].0;
    assert(has_key(s, k));
    let j = choose|j: int| 0 <= j < s.len() && #[trigger] s[j].0 == k;
    if j != i {
        if j < i {
            assert(s[j].0 != s[i].0);
        } else {
            assert(s[i].0 != s[j].0);
        }
    }
}

proof fn lemma_entries_map_remove<R>(s: Seq<(StateSignature, CacheEntry<R>)>, i: int)
    requires
        keys_unique(s),
        0 <= i < s.len(),
    ensures
        keys_unique(s.remove(i)),
        entries_map(s.remove(i)) == entries_map(s).remove(s[i].0),
{
    let t = s.remove(i);
    assert forall|a: int, b: int| 0 <= a < b < t.len() implies #[trigger] t[a].0 != #[trigger] t[b].0 by {
        let a0 = if a < i { a } else { a + 1 };
        let b0 = if b < i { b } else { b + 1 };
        assert(t[a] == s[a0] && t[b] == s[b0]);
    }
    let lhs = entries_map(t);
    let rhs = entries_map(s).remove(s[i].0);
    assert forall|k: StateSignature| lhs.contains_key(k) <==> rhs.contains_key(k) by {
        if lhs.contains_key(k) {
            let a = choose|a: int| 0 <= a < t.len() && #[trigger] t[a].0 == k;
            let a0 = if a < i { a } else { a + 1 };
            assert(s[a0] == t[a]);
            assert(has_key(s, k));
            assert(a0 != i);
            if a0 < i {
                assert(s[a0].0 != s[i].0);
            } else {
                assert(s[i].0 != s[a0].0);
            }
        }
        if rhs.contains_key(k) {
            let b = choose|b: int| 0 <= b < s.len() && #[trigger] s[b].0 == k;
            assert(b != i);
            let b1 = if b < i { b } else { b - 1 };
            assert(t[b1] == s[b]);
            assert(has_key(t, k));
        }
    }
    assert forall|k: StateSignature| #[trigger] lhs.contains_key(k) implies lhs[k] == rhs[k] by {
        let a = choose|a: int| 0 <= a < t.len() && #[trigger] t[a].0 == k;
        let a0 = if a < i { a } else { a + 1 };
        assert(s[a0] == t[a]);
        lemma_entries_map_at(t, a);
        lemma_entries_map_at(s, a0);
    }
    assert(lhs =~= rhs);
}

proof fn lemma_entries_map_update<R>(
    s: Seq<(StateSignature, CacheEntry<R>)>,
    i: int,
    e: CacheEntry<R>,
)
    requires
        keys_unique(s),
        0 <= i < s.len(),
    ensures
        keys_unique(s.update(i, (s[i].0, e))),
        entries_map(s.update(i, (s[i].0, e))) == entries_map(s).insert(s[i].0, e),
{
    let t = s.update(i, (s[i].0, e));
    assert forall|a: int, b: int| 0 <= a < b < t.len() implies #[trigger] t[a].0 != #[trigger] t[b].0 by {
        assert(t[a].0 == s[a].0 && t[b].0 == s[b].0);
    }
    let lhs = entries_map(t);
    let rhs = entries_map(s).insert(s[i].0, e);
    assert forall|k: StateSignature| lhs.contains_key(k) <==> rhs.contains_key(k) by {
        if lhs.contains_key(k) {
            let a = choose|a: int| 0 <= a < t.len() && #[trigger] t[a].0 == k;
            assert(s[a].0 == k);
            assert(has_key(s, k));
        }
        if rhs.contains_key(k) && k != s[i].0 {
            let b = choose|b: int| 0 <= b < s.len() && #[trigger] s[b].0 == k;
            assert(t[b].0 == k);
            assert(has_key(t, k));
        }
        if k == s[i].0 {
            assert(t[i].0 == k);
            assert(has_key(t, k));
        }
    }
    assert forall|k: StateSignature| #[trigger] lhs.contains_key(k) implies lhs[k] == rhs[k] by {
        let a = choose|a: int| 0 <= a < t.len() && #[trigger] t[a].0 == k;
        lemma_entries_map_at(t, a);
        if a != i {
            lemma_entries_map_at(s, a);
            assert(t[a] == s[a]);
            assert(s[a].0 != s[i].0) by {
                if a < i {
                } else {
                }
            }
        }
    }
    assert(lhs =~= rhs);
}

proof fn lemma_entries_map_push<R>(
    s: Seq<(StateSignature, CacheEntry<R>)>,
    k: StateSignature,
    e: CacheEntry<R>,
)
    requires
        keys_unique(s),
        !has_key(s, k),
    ensures
        keys_unique(s.push((k, e))),
        entries_map(s.push((k, e))) == entries_map(s).insert(k, e),
{
    let t = s.push((k, e));
    assert forall|a: int, b: int| 0 <= a < b < t.len() implies #[trigger] t[a].0 != #[trigger] t[b].0 by {
        if b == s.len() {
            assert(t[a] == s[a]);
            if s[a].0 == k {
                assert(has_key(s, k));
            }
        } else {
            assert(t[a] == s[a] && t[b] == s[b]);
        }
    }
    let lhs = entries_map(t);
    let rhs = entries_map(s).insert(k, e);
    assert forall|q: StateSignature| lhs.contains_key(q) <==> rhs.contains_key(q) by {
        if lhs.contains_key(q) && q != k {
            let a = choose|a: int| 0 <= a < t.len() && #[trigger] t[a].0 == q;
            assert(a < s.len());
            assert(s[a].0 == q);
            assert(has_key(s, q));
        }
        if rhs.contains_key(q) && q != k {
            let b = choose|b: int| 0 <= b < s.len() && #[trigger] s[b].0 == q;
            assert(t[b].0 == q);
            assert(has_key(t, q));
        }
        if q == k {
            assert(t[s.len() as int].0 == k);
            assert(has_key(t, k));
        }
    }
    assert forall|q: StateSignature| #[trigger] lhs.contains_key(q) implies lhs[q] == rhs[q] by {
        let a = choose|a: int| 0 <= a < t.len() && #[trigger] t[a].0 == q;
        lemma_entries_map_at(t, a);
        if a < s.len() {
            lemma_entries_map_at(s, a);
            assert(t[a] == s[a]);
        }
    }
    assert(lhs =~= rhs);
}


proof fn lemma_entries_map_len<R>(s: Seq<(StateSignature, CacheEntry<R>)>)
    requires
        keys_unique(s),
    ensures
        entries_map(s).dom().finite(),
        entries_map(s).len() == s.len(),
{
    let keys = s.map_values(|p: (StateSignature, CacheEntry<R>)| p.0);
    assert(keys.no_duplicates()) by {
        assert forall|i: int, j: int| 0 <= i < keys.len() && 0 <= j < keys.len() && i != j implies keys[i]
            != keys[j] by {
            if i < j {
                assert(s[i].0 != s[j].0);
            } else {
                assert(s[j].0 != s[i].0);
            }
        }
    }
    keys.unique_seq_to_set();
    assert forall|k: StateSignature| entries_map(s).dom().contains(k) <==> keys.to_set().contains(k) by {
        if entries_map(s).dom().contains(k) {
            let i = choose|i: int| 0 <= i < s.len() && #[trigger] s[i].0 == k;
            assert(keys[i] == k);
        }
        if keys.to_set().contains(k) {
            let i = choose|i: int| 0 <= i < keys.len() && keys[i] == k;
            assert(s[i].0 == k);
            assert(has_key(s, k));
        }
    }
    assert(entries_map(s).dom() =~= keys.to_set());
}

/// `k` is an entry that LRU eviction may drop at time `now`: read before
/// `now`, and no later than any other entry.
pub open spec fn lru_victim<R>(m: Map<StateSignature, CacheEntry<R>>, k: StateSignature, now: u64) -> bool {
    &&& m.contains_key(k)
    &&& m[k].last_accessed < now
    &&& forall|q: StateSignature| #[trigger] m.contains_key(q) ==> m[k].last_accessed <= m[q].last_accessed
}

/// `after` is `before` once LRU eviction ran at time `now`: one least
/// recently read entry is gone, or nothing changed when every entry was
/// read at `now` or later. Which of two equally old entries goes is not
/// fixed.
pub open spec fn lru_evicted<R>(
    before: Map<StateSignature, CacheEntry<R>>,
    after: Map<StateSignature, CacheEntry<R>>,
    now: u64,
) -> bool {
    ||| exists|k: StateSignature| #[trigger] lru_victim(before, k, now) && after == before.remove(k)
    ||| (forall|q: StateSignature| #[trigger] before.contains_key(q) ==> before[q].last_accessed >= now)
        && after == before
}

/// The entries of `m` that are not expired at time `now`.
pub open spec fn unexpired<R>(m: Map<StateSignature, CacheEntry<R>>, now: u64, max_age: u64) -> Map<
    StateSignature,
    CacheEntry<R>,
> {
    Map::new(
        |k: StateSignature| m.contains_key(k) && !entry_expired(m[k], now, max_age),
        |k: StateSignature| m[k],
    )
}

/// Sum of the access counts of the entries.
pub open spec fn access_total<R>(s: Seq<(StateSignature, CacheEntry<R>)>) -> int
    decreases s.len(),
{
    if s.len() == 0 {
        0
    } else {
        access_total(s.drop_last()) + s.last().1.access_count
    }
}

/// Cached analysis results keyed by game situation, with expiry after
/// `max_age` clock ticks, least-recently-read eviction once `max_size`
/// entries are held, and a sweep for expired entries at most every
/// `cleanup_interval` ticks. Times are the caller's clock readings.
pub struct AnalysisCache<R> {
    entries: Vec<(StateSignature, CacheEntry<R>)>,
    max_size: usize,
    max_age: u64,
    cleanup_interval: u64,
    last_cleanup: u64,
}

impl<R> View for AnalysisCache<R> {
    type V = Map<StateSignature, CacheEntry<R>>;

    closed spec fn view(&self) -> Map<StateSignature, CacheEntry<R>> {
        entries_map(self.entries@)
    }
}

impl<R> AnalysisCache<R> {
    /// The cache is well formed: no signature is held twice.
    pub closed spec fn wf(&self) -> bool {
        keys_unique(self.entries@)
    }

    /// The entries in the order they are held.
    pub closed spec fn entries(&self) -> Seq<(StateSignature, CacheEntry<R>)> {
        self.entries@
    }

    /// Most entries held before eviction starts.
    pub closed spec fn max_size(&self) -> usize {
        self.max_size
    }

    /// Age after which an entry is dropped.
    pub closed spec fn max_age(&self) -> u64 {
        self.max_age
    }

    /// Ticks between sweeps for expired entries.
    pub closed spec fn cleanup_interval(&self) -> u64 {
        self.cleanup_interval
    }

    /// Time of the last sweep.
    pub closed spec fn last_cleanup(&self) -> u64 {
        self.last_cleanup
    }

    /// The settings are those of `other`.
    pub open spec fn same_settings(&self, other: &Self) -> bool {
        &&& self.max_size() == other.max_size()
        &&& self.max_age() == other.max_age()
        &&& self.cleanup_interval() == other.cleanup_interval()
    }

    /// The held entries, as a map, have the entries' count.
    pub proof fn lemma_len(&self)
        requires
            self.wf(),
        ensures
            self@.dom().finite(),
            self@.len() == self.entries().len(),
    {
        lemma_entries_map_len(self.entries@);
    }

    /// An empty cache with the given settings, last swept at `now`.
    pub fn new(max_size: usize, max_age: u64, cleanup_interval: u64, now: u64) -> (c: Self)
        ensures
            c.wf(),
            c@ == Map::<StateSignature, CacheEntry<R>>::empty(),
            c.entries().len() == 0,
            c.max_size() == max_size,
            c.max_age() == max_age,
            c.cleanup_interval() == cleanup_interval,
            c.last_cleanup() == now,
    {
        let c = AnalysisCache {
            entries: Vec::new(),
            max_size,
            max_age,
            cleanup_interval,
            last_cleanup: now,
        };
        assert(c@ =~= Map::<StateSignature, CacheEntry<R>>::empty());
        c
    }

    /// Entries held.
    pub fn len(&self) -> (n: usize)
        requires
            self.wf(),
        ensures
            n == self@.len(),
    {
        proof {
            lemma_entries_map_len(self.entries@);
        }
        self.entries.len()
    }

    fn find_entry(&self, sig: &StateSignature) -> (found: Option<usize>)
        ensures
            found matches Some(i) ==> i < self.entries@.len() && self.entries@[i as int].0 == *sig,
            found is None ==> !has_key(self.entries@, *sig),
    {
        let mut i: usize = 0;
        while i < self.entries.len()
            invariant
                i <= self.entries@.len(),
                forall|j: int| 0 <= j < i ==> #[trigger] self.entries@[j].0 != *sig,
            decreases self.entries@.len() - i,
        {
            if self.entries[i].0 == *sig {
                return Some(i);
            }
            i = i + 1;
        }
        None
    }

    /// Access count of the entry for `sig`, if one is held.
    pub fn access_count(&self, sig: &StateSignature) -> (n: Option<u32>)
        requires
            self.wf(),
        ensures
            n == (if self@.contains_key(*sig) {
                Some(self@[*sig].access_count)
            } else {
                None
            }),
    {
        match self.find_entry(sig) {
            Some(i) => {
                proof {
                    lemma_entries_map_at(self.entries@, i as int);
                }
                Some(self.entries[i].1.access_count)
            },
            None => None,
        }
    }

    /// Drops every entry.
    pub fn clear(&mut self)
        ensures
            final(self).wf(),
            final(self)@ == Map::<StateSignature, CacheEntry<R>>::empty(),
            final(self).same_settings(&*old(self)),
            final(self).last_cleanup() == old(self).last_cleanup(),
    {
        self.entries.clear();
        assert(self@ =~= Map::<StateSignature, CacheEntry<R>>::empty());
    }

    /// Whether the sum of the access counts fits in a `u32`, as
    /// [`AnalysisCache::get_stats`] needs.
    pub fn stats_fit(&self) -> (b: bool)
        ensures
            b == (access_total(self.entries()) <= u32::MAX),
    {
        let mut total: u64 = 0;
        let mut i: usize = 0;
        while i < self.entries.len()
            invariant
                i <= self.entries@.len(),
                total == access_total(self.entries@.take(i as int)),
                total <= u32::MAX,
            decreases self.entries@.len() - i,
        {
            proof {
                assert(self.entries@.take(i + 1).drop_last() =~= self.entries@.take(i as int));
            }
            total = total + self.entries[i].1.access_count as u64;
            if total > 0xffff_ffff {
                proof {
                    lemma_access_total_prefix(self.entries@, i + 1);
                }
                return false;
            }
            i = i + 1;
        }
        assert(self.entries@.take(self.entries@.len() as int) =~= self.entries@);
        true
    }

    /// The held entries list exactly the view: one entry per signature of
    /// the view, each with the view's entry, and no signature twice.
    pub proof fn lemma_entries_view(&self)
        requires
            self.wf(),
        ensures
            self.entries().len() == self@.len(),
            forall|i: int, j: int|
                0 <= i < j < self.entries().len() ==> #[trigger] self.entries()[i].0 != #[trigger] self.entries()[j].0,
            forall|i: int|
                0 <= i < self.entries().len() ==> self@.contains_key(#[trigger] self.entries()[i].0)
                    && self@[self.entries()[i].0] == self.entries()[i].1,
            forall|k: StateSignature|
                #[trigger] self@.contains_key(k) ==> exists|i: int|
                    0 <= i < self.entries().len() && #[trigger] self.entries()[i].0 == k,
    {
        lemma_entries_map_len(self.entries@);
        assert forall|i: int| 0 <= i < self.entries().len() implies self@.contains_key(
            #[trigger] self.entries()[i].0,
        ) && self@[self.entries()[i].0] == self.entries()[i].1 by {
            lemma_entries_map_at(self.entries@, i);
        }
        assert forall|k: StateSignature| #[trigger] self@.contains_key(k) implies exists|i: int|
            0 <= i < self.entries().len() && #[trigger] self.entries()[i].0 == k by {
            assert(has_key(self.entries@, k));
            let i = choose|i: int| 0 <= i < self.entries@.len() && #[trigger] self.entries@[i].0 == k;
            assert(self.entries()[i].0 == k);
        }
    }

    /// Number of entries and the sum of their access counts.
    pub fn get_stats(&self) -> (stats: (usize, u32))
        requires
            self.wf(),
            access_total(self.entries()) <= u32::MAX,
        ensures
            stats.0 == self@.len(),
            stats.1 == access_total(self.entries()),
    {
        proof {
            lemma_entries_map_len(self.entries@);
        }
        let mut total: u32 = 0;
        let mut i: usize = 0;
        while i < self.entries.len()
            invariant
                i <= self.entries@.len(),
                access_total(self.entries@) <= u32::MAX,
                total == access_total(self.entries@.take(i as int)),
            decreases self.entries@.len() - i,
        {
            proof {
                assert(self.entries@.take(i + 1).drop_last() =~= self.entries@.take(i as int));
                lemma_access_total_prefix(self.entries@, i + 1);
            }
            total = total + self.entries[i].1.access_count;
            i = i + 1;
        }
        assert(self.entries@.take(self.entries@.len() as int) =~= self.entries@);
        (self.entries.len(), total)
    }
}

proof fn lemma_access_total_prefix<R>(s: Seq<(StateSignature, CacheEntry<R>)>, n: int)
    requires
        0 <= n <= s.len(),
    ensures
        0 <= access_total(s.take(n)) <= access_total(s),
    decreases s.len(),
{
    if s.len() > 0 {
        if n == s.len() {
            assert(s.take(n) =~= s);
            lemma_access_total_prefix(s.drop_last(), n - 1);
            assert(s.take(n - 1) =~= s.drop_last().take(n - 1));
        } else {
            lemma_access_total_prefix(s.drop_last(), n);
            assert(s.take(n) =~= s.drop_last().take(n));
        }
    }
}


impl<R> AnalysisCache<R> {
    /// Drops one least recently read entry, if one was read before `now`.
    fn evict_lru(&mut self, now: u64)
        requires
            old(self).wf(),
        ensures
            final(self).wf(),
            lru_evicted(old(self)@, final(self)@, now),
            final(self).same_settings(&*old(self)),
            final(self).last_cleanup() == old(self).last_cleanup(),
    {
        let ghost before = self.entries@;
        let mut oldest_key: Option<usize> = None;
        let mut oldest_time: u64 = now;
        let mut i: usize = 0;
        while i < self.entries.len()
            invariant
                before == self.entries@,
                i <= self.entries@.len(),
                oldest_key is None ==> oldest_time == now,
                oldest_key matches Some(o) ==> o < i && self.entries@[o as int].1.last_accessed
                    == oldest_time && oldest_time < now,
                forall|j: int| 0 <= j < i ==> oldest_time <= #[trigger] self.entries@[j].1.last_accessed,
            decreases self.entries@.len() - i,
        {
            if self.entries[i].1.last_accessed < oldest_time {
                oldest_time = self.entries[i].1.last_accessed;
                oldest_key = Some(i);
            }
            i = i + 1;
        }
        let ghost m = entries_map(before);
        match oldest_key {
            Some(o) => {
                proof {
                    lemma_entries_map_at(before, o as int);
                    lemma_entries_map_remove(before, o as int);
                    let k = before[o as int].0;
                    assert forall|q: StateSignature| #[trigger] m.contains_key(q) implies m[k].last_accessed
                        <= m[q].last_accessed by {
                        let j = choose|j: int| 0 <= j < before.len() && #[trigger] before[j].0 == q;
                        lemma_entries_map_at(before, j);
                    }
                    assert(lru_victim(m, k, now));
                }
                self.entries.remove(o);
            },
            None => {
                proof {
                    assert forall|q: StateSignature| #[trigger] m.contains_key(q) implies m[q].last_accessed
                        >= now by {
                        let j = choose|j: int| 0 <= j < before.len() && #[trigger] before[j].0 == q;
                        lemma_entries_map_at(before, j);
                    }
                }
            },
        }
    }

    /// Stores `result` for `sig` at time `now`, first evicting a least
    /// recently read entry when the cache is full; an entry already held
    /// for `sig` is replaced.
    pub fn cache_result(&mut self, sig: StateSignature, result: R, now: u64)
        requires
            old(self).wf(),
        ensures
            final(self).wf(),
            final(self).same_settings(&*old(self)),
            final(self).last_cleanup() == old(self).last_cleanup(),
            exists|m: Map<StateSignature, CacheEntry<R>>|
                {
                    &&& (if old(self)@.len() >= old(self).max_size() {
                        lru_evicted(old(self)@, m, now)
                    } else {
                        m == old(self)@
                    })
                    &&& #[trigger] m.insert(sig, fresh_entry(result, now)) == final(self)@
                },
    {
        proof {
            lemma_entries_map_len(self.entries@);
        }
        if self.entries.len() >= self.max_size {
            self.evict_lru(now);
        }
        let ghost m = self@;
        let entry = CacheEntry::new(result, now);
        match self.find_entry(&sig) {
            Some(i) => {
                proof {
                    lemma_entries_map_update(self.entries@, i as int, fresh_entry(result, now));
                }
                self.entries.set(i, (sig, entry));
            },
            None => {
                proof {
                    lemma_entries_map_push(self.entries@, sig, fresh_entry(result, now));
                }
                self.entries.push((sig, entry));
            },
        }
        assert(m.insert(sig, fresh_entry(result, now)) == self@);
    }

    /// Drops every entry older than the maximum age at time `now`.
    fn cleanup_expired(&mut self, now: u64)
        requires
            old(self).wf(),
        ensures
            final(self).wf(),
            final(self)@ == unexpired(old(self)@, now, old(self).max_age()),
            final(self).same_settings(&*old(self)),
            final(self).last_cleanup() == old(self).last_cleanup(),
    {
        let ghost before = self.entries@;
        let max_age = self.max_age;
        let mut i: usize = 0;
        while i < self.entries.len()
            invariant
                max_age == self.max_age,
                self.max_age == old(self).max_age,
                self.max_size == old(self).max_size,
                self.cleanup_interval == old(self).cleanup_interval,
                self.last_cleanup == old(self).last_cleanup,
                before == old(self).entries@,
                keys_unique(self.entries@),
                i <= self.entries@.len(),
                forall|a: int| 0 <= a < self.entries@.len() ==> before.contains(#[trigger] self.entries@[a]),
                forall|a: int|
                    0 <= a < i ==> !entry_expired(#[trigger] self.entries@[a].1, now, max_age),
                forall|b: int|
                    0 <= b < before.len() && !entry_expired(#[trigger] before[b].1, now, max_age)
                        ==> self.entries@.contains(before[b]),
            decreases self.entries@.len() - i,
        {
            if self.entries[i].1.is_expired(now, max_age) {
                let ghost cur = self.entries@;
                proof {
                    lemma_entries_map_remove(cur, i as int);
                }
                self.entries.remove(i);
                proof {
                    let nxt = self.entries@;
                    assert forall|a: int| 0 <= a < nxt.len() implies before.contains(#[trigger] nxt[a]) by {
                        let a0 = if a < i { a } else { a + 1 };
                        assert(nxt[a] == cur[a0]);
                    }
                    assert forall|a: int| 0 <= a < i implies !entry_expired(#[trigger] nxt[a].1, now, max_age) by {
                        assert(nxt[a] == cur[a]);
                    }
                    assert forall|b: int|
                        0 <= b < before.len() && !entry_expired(#[trigger] before[b].1, now, max_age) implies nxt.contains(
                        before[b]) by {
                        assert(cur.contains(before[b]));
                        let a = choose|a: int| 0 <= a < cur.len() && cur[a] == before[b];
                        assert(a != i);
                        let a1 = if a < i { a } else { a - 1 };
                        assert(nxt[a1] == cur[a]);
                    }
                }
            } else {
                i = i + 1;
            }
        }
        proof {
            let fin = self.entries@;
            let lhs = entries_map(fin);
            let rhs = unexpired(entries_map(before), now, max_age);
            assert forall|k: StateSignature| lhs.contains_key(k) <==> rhs.contains_key(k) by {
                if lhs.contains_key(k) {
                    let a = choose|a: int| 0 <= a < fin.len() && #[trigger] fin[a].0 == k;
                    assert(before.contains(fin[a]));
                    let b = choose|b: int| 0 <= b < before.len() && before[b] == fin[a];
                    lemma_entries_map_at(before, b);
                }
                if rhs.contains_key(k) {
                    let b = choose|b: int| 0 <= b < before.len() && #[trigger] before[b].0 == k;
                    lemma_entries_map_at(before, b);
                    assert(fin.contains(before[b]));
                    let a = choose|a: int| 0 <= a < fin.len() && fin[a] == before[b];
                    assert(fin[a].0 == k);
                }
            }
            assert forall|k: StateSignature| #[trigger] lhs.contains_key(k) implies lhs[k] == rhs[k] by {
                let a = choose|a: int| 0 <= a < fin.len() && #[trigger] fin[a].0 == k;
                assert(before.contains(fin[a]));
                let b = choose|b: int| 0 <= b < before.len() && before[b] == fin[a];
                lemma_entries_map_at(before, b);
                lemma_entries_map_at(fin, a);
            }
            assert(lhs =~= rhs);
        }
    }

    /// Sweeps out expired entries when more than the cleanup interval has
    /// passed since the last sweep, and records `now` as the last sweep.
    pub fn maybe_cleanup(&mut self, now: u64)
        requires
            old(self).wf(),
        ensures
            final(self).wf(),
            final(self).same_settings(&*old(self)),
            elapsed(now, old(self).last_cleanup()) > old(self).cleanup_interval() ==> {
                &&& final(self).last_cleanup() == now
                &&& final(self)@ == unexpired(old(self)@, now, old(self).max_age())
            },
            elapsed(now, old(self).last_cleanup()) <= old(self).cleanup_interval() ==> {
                &&& final(self).last_cleanup() == old(self).last_cleanup()
                &&& final(self)@ == old(self)@
            },
    {
        let since = if now >= self.last_cleanup {
            now - self.last_cleanup
        } else {
            0
        };
        if since > self.cleanup_interval {
            self.last_cleanup = now;
            self.cleanup_expired(now);
        }
    }
}

impl<R: Clone> AnalysisCache<R> {
    /// Looks `sig` up at time `now`: a clone of the stored result when one
    /// is held and not expired (the entry then counts the read); an expired
    /// entry is dropped.
    pub fn lookup(&mut self, sig: &StateSignature, now: u64) -> (r: Option<R>)
        requires
            old(self).wf(),
            old(self)@.contains_key(*sig) ==> old(self)@[*sig].access_count < u32::MAX,
        ensures
            final(self).wf(),
            final(self).same_settings(&*old(self)),
            final(self).last_cleanup() == old(self).last_cleanup(),
            !old(self)@.contains_key(*sig) ==> r is None && final(self)@ == old(self)@,
            old(self)@.contains_key(*sig) && entry_expired(old(self)@[*sig], now, old(self).max_age())
                ==> r is None && final(self)@ == old(self)@.remove(*sig),
            old(self)@.contains_key(*sig) && !entry_expired(
                old(self)@[*sig],
                now,
                old(self).max_age(),
            ) ==> (r matches Some(v) && cloned(old(self)@[*sig].result, v) && final(self)@ == old(
                self,
            )@.insert(*sig, accessed(old(self)@[*sig], now))),
    {
        let ghost before = self.entries@;
        match self.find_entry(sig) {
            None => {
                assert(!self@.contains_key(*sig));
                None
            },
            Some(i) => {
                proof {
                    lemma_entries_map_at(before, i as int);
                }
                if self.entries[i].1.is_expired(now, self.max_age) {
                    proof {
                        lemma_entries_map_remove(before, i as int);
                    }
                    self.entries.remove(i);
                    None
                } else {
                    let mut pair = self.entries.remove(i);
                    let r = pair.1.access(now);
                    self.entries.insert(i, pair);
                    proof {
                        assert(self.entries@ =~= before.update(
                            i as int,
                            (before[i as int].0, accessed(before[i as int].1, now)),
                        ));
                        lemma_entries_map_update(before, i as int, accessed(before[i as int].1, now));
                    }
                    Some(r)
                }
            },
        }
    }
}


/// A result stored for a signature is what a read of that signature gives
/// back, as long as the read comes no later than the maximum age after the
/// write: the cache then holds a fresh entry with that result which is not
/// expired.
pub proof fn lemma_read_after_write<R>(
    m: Map<StateSignature, CacheEntry<R>>,
    sig: StateSignature,
    result: R,
    now: u64,
    later: u64,
    max_age: u64,
)
    requires
        elapsed(later, now) <= max_age,
    ensures
        m.insert(sig, fresh_entry(result, now)).contains_key(sig),
        m.insert(sig, fresh_entry(result, now))[sig].result == result,
        !entry_expired(m.insert(sig, fresh_entry(result, now))[sig], later, max_age),
{
}

/// Storing a result never takes the cache past its maximum size, provided
/// it was within it, holds room for one entry, and, when full, holds an
/// entry read before the time of the write.
pub proof fn lemma_cache_result_keeps_size<R>(
    before: Map<StateSignature, CacheEntry<R>>,
    evicted: Map<StateSignature, CacheEntry<R>>,
    sig: StateSignature,
    result: R,
    now: u64,
    max_size: usize,
)
    requires
        before.dom().finite(),
        1 <= max_size,
        before.len() <= max_size,
        before.len() >= max_size ==> lru_evicted(before, evicted, now),
        before.len() < max_size ==> evicted == before,
        before.len() >= max_size ==> exists|k: StateSignature|
            #[trigger] before.contains_key(k) && before[k].last_accessed < now,
    ensures
        evicted.insert(sig, fresh_entry(result, now)).len() <= max_size,
{
    broadcast use vstd::map::group_map_axioms, vstd::set::group_set_axioms;

    if before.len() >= max_size {
        let k0 = choose|k: StateSignature| #[trigger] before.contains_key(k) && before[k].last_accessed < now;
        if !(exists|k: StateSignature| #[trigger] lru_victim(before, k, now) && evicted == before.remove(k)) {
            assert(before[k0].last_accessed >= now);
        }
        let k = choose|k: StateSignature| #[trigger] lru_victim(before, k, now) && evicted == before.remove(k);
        assert(evicted.dom() =~= before.dom().remove(k));
        assert(evicted.len() == before.len() - 1);
    }
    assert(evicted.insert(sig, fresh_entry(result, now)).dom() =~= evicted.dom().insert(sig));
}

} // verus!
