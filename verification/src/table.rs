//! The claim table.
use crate::cache::{
    cache_entries, cache_get, cache_insert, cache_retain, cache_size, new_cache, CacheMap,
    CacheValue, Sweep,
};
use crate::report::{is_cache_line, is_claim_line, is_report, row};
use crate::state::{
    claim_index, deadline, deadline_spec, first_same, is_longest_match, lemma_housekept_is_valid,
    lemma_invalidated_is_valid, lemma_refresh_counts, lemma_refresh_is_done,
    lemma_refresh_keeps_claims, lemma_refresh_reads_the_clock, lemma_sweep_is_valid, live_at,
    on_the_way, recorded_clock, refresh, remaining, route, route_is_the_longest_match,
    stopped_clock, ClaimEntry, Refresh, TableState,
};
use crate::trie::{longest_prefix, ClaimTrie};
use crate::types::{
    Address, AddressKey, Duration, PeerAddr, Range, RangeList, Time, TimeSource,
};
use std::marker::PhantomData;
use vstd::prelude::*;

verus! {

/// A forwarding table. It finds the peer that an address belongs to among the
/// address ranges that peers have claimed, and remembers what it found.
pub struct ClaimTable<TS: TimeSource> {
    cache: CacheMap,
    cache_timeout: Duration,
    claims: Vec<ClaimEntry>,
    claim_timeout: Duration,
    trie: ClaimTrie,
    _dummy: PhantomData<TS>,
}

impl<TS: TimeSource> View for ClaimTable<TS> {
    type V = TableState;

    closed spec fn view(&self) -> TableState {
        TableState {
            cache: self.cache@,
            cache_timeout: self.cache_timeout,
            claims: self.claims@,
            claim_timeout: self.claim_timeout,
        }
    }
}

impl<TS: TimeSource> ClaimTable<TS> {
    /// What every operation keeps: the contents are valid, and the trie holds
    /// just the claims and has just the nodes on the way to them.
    pub closed spec fn wf(self) -> bool {
        &&& self@.valid()
        &&& self.trie@ == claim_index(self.claims@)
        &&& forall|path: Seq<bool>| #[trigger]
            self.trie.has_node(path) <==> on_the_way(self.claims@, path)
    }

    /// The claim that the trie finds for an address with the given bits.
    pub closed spec fn trie_match(self, bits: Seq<bool>) -> Option<usize> {
        longest_prefix(self.trie@, bits)
    }

    /// Whether the trie has a node at the end of `path`.
    pub closed spec fn trie_has_node(self, path: Seq<bool>) -> bool {
        self.trie.has_node(path)
    }

    /// A well-formed table has valid contents.
    pub proof fn lemma_wf_implies_valid(self)
        requires
            self.wf(),
        ensures
            self@.valid(),
    {
    }

    /// The trie of a well-formed table finds for each address the claim that covers
    /// it with the longest prefix, the last one of several such, and has just the
    /// nodes on the way to the claims.
    pub proof fn trie_finds_the_longest_match(self)
        requires
            self.wf(),
        ensures
            forall|bits: Seq<bool>|
                is_longest_match(self@.claims, bits, #[trigger] self.trie_match(bits)),
            forall|path: Seq<bool>| #[trigger]
                self.trie_has_node(path) <==> on_the_way(self@.claims, path),
    {
        assert(self.claims.len() == self.claims@.len());
        assert forall|bits: Seq<bool>|
            is_longest_match(self@.claims, bits, #[trigger] self.trie_match(bits)) by {
            route_is_the_longest_match(self.claims@, bits);
        }
    }

    /// A table that holds nothing.
    pub fn new(cache_timeout: Duration, claim_timeout: Duration) -> (table: Self)
        ensures
            table.wf(),
            table@ == TableState::empty(cache_timeout, claim_timeout),
    {
        ClaimTable {
            cache: new_cache(),
            cache_timeout,
            claims: Vec::new(),
            claim_timeout,
            trie: ClaimTrie::new(),
            _dummy: PhantomData,
        }
    }

    /// Remembers that an address belongs to a peer, as of `now`.
    pub fn cache_at(&mut self, addr: Address, peer: PeerAddr, now: Time)
        requires
            old(self).wf(),
            addr.valid(),
        ensures
            final(self).wf(),
            final(self)@ == old(self)@.cached(addr, peer, now),
    {
        let timeout: Time = deadline(now, self.cache_timeout);
        cache_insert(&mut self.cache, addr.key(), CacheValue { peer, timeout });
    }

    /// Remembers that an address belongs to a peer.
    pub fn cache(&mut self, addr: Address, peer: PeerAddr)
        requires
            old(self).wf(),
            addr.valid(),
        ensures
            final(self).wf(),
            exists|now: Time| #[trigger]
                call_ensures(TS::now, (), now) && final(self)@ == old(self)@.cached(
                    addr,
                    peer,
                    now,
                ),
    {
        let now: Time = TS::now();
        self.cache_at(addr, peer, now);
    }

    /// Forgets all addresses.
    pub fn clear_cache(&mut self)
        requires
            old(self).wf(),
        ensures
            final(self).wf(),
            final(self)@ == old(self)@.cache_cleared(),
    {
        self.cache.clear();
    }

    /// Fills the trie with the claims, whatever it held before. It then finds for
    /// each address the claim that covers it with the longest prefix, and has just
    /// the nodes on the way to the claims.
    pub fn rebuild_trie(&mut self)
        requires
            old(self)@.valid(),
        ensures
            final(self).wf(),
            final(self)@ == old(self)@,
            forall|bits: Seq<bool>|
                is_longest_match(
                    final(self)@.claims,
                    bits,
                    #[trigger] final(self).trie_match(bits),
                ),
            forall|path: Seq<bool>| #[trigger]
                final(self).trie_has_node(path) <==> on_the_way(final(self)@.claims, path),
    {
        self.trie.clear();
        let mut idx: usize = 0;
        assert(self.claims@.take(0) =~= Seq::<ClaimEntry>::empty());
        while idx < self.claims.len()
            invariant
                idx <= self.claims.len(),
                self@ == old(self)@,
                self@.valid(),
                self.trie@ == claim_index(self.claims@.take(idx as int)),
                forall|path: Seq<bool>| #[trigger]
                    self.trie.has_node(path) <==> on_the_way(self.claims@.take(idx as int), path),
            decreases self.claims.len() - idx,
        {
            assert(self.claims@.take(idx + 1).drop_last() =~= self.claims@.take(idx as int));
            assert(self@.claims[idx as int].claim.valid());
            let claim: Range = self.claims[idx].claim;
            self.trie.insert(&claim, idx);
            proof {
                let fewer = self.claims@.take(idx as int);
                let more = self.claims@.take(idx + 1);
                assert forall|path: Seq<bool>| #[trigger]
                    self.trie.has_node(path) <==> on_the_way(more, path) by {
                    assert(more[idx as int].claim == claim);
                    assert(forall|i: int| 0 <= i < idx ==> fewer[i] == #[trigger] more[i]);
                    assert(forall|i: int| 0 <= i < idx ==> #[trigger] fewer[i] == more[i]);
                }
            }
            idx += 1;
        }
        assert(self.claims@.take(idx as int) =~= self.claims@);
        proof {
            self.trie_finds_the_longest_match();
        }
    }

    /// Drops the claims that have timed out at `now`.
    fn retain_claims(&mut self, now: Time)
        ensures
            final(self)@ == (TableState {
                claims: old(self)@.claims.filter(live_at(now)),
                ..old(self)@
            }),
    {
        let mut kept: Vec<ClaimEntry> = Vec::new();
        let mut i: usize = 0;
        let ghost claims = self.claims@;
        reveal(Seq::filter);
        while i < self.claims.len()
            invariant
                i <= self.claims.len(),
                *self == *old(self),
                claims == self.claims@,
                kept@ == claims.take(i as int).filter(live_at(now)),
            decreases self.claims.len() - i,
        {
            reveal(Seq::filter);
            let entry: ClaimEntry = self.claims[i];
            assert(claims.take(i + 1).drop_last() =~= claims.take(i as int));
            if entry.timeout >= now {
                kept.push(entry);
            }
            i += 1;
        }
        assert(claims.take(i as int) =~= claims);
        self.claims = kept;
    }

    /// Drops the addresses and the claims that have timed out at `now`.
    pub fn housekeep_at(&mut self, now: Time)
        requires
            old(self).wf(),
        ensures
            final(self).wf(),
            final(self)@ == old(self)@.housekept(now),
    {
        self.expire(now);
    }

    /// Drops the addresses and the claims that have timed out at `now`, and puts
    /// the trie in order.
    fn expire(&mut self, now: Time)
        requires
            old(self)@.valid(),
        ensures
            final(self).wf(),
            final(self)@ == old(self)@.housekept(now),
    {
        cache_retain(&mut self.cache, Sweep::Expire { now });
        self.retain_claims(now);
        proof {
            lemma_housekept_is_valid(old(self)@, now);
        }
        self.rebuild_trie();
    }

    /// Drops the addresses and the claims that have timed out.
    pub fn housekeep(&mut self)
        requires
            old(self).wf(),
        ensures
            final(self).wf(),
            exists|now: Time| #[trigger]
                call_ensures(TS::now, (), now) && final(self)@ == old(self)@.housekept(now),
    {
        let now: Time = TS::now();
        self.housekeep_at(now);
    }

    /// The number of addresses that the table remembers.
    pub fn cache_len(&self) -> (len: usize)
        ensures
            len == self@.cache.len(),
    {
        cache_size(&self.cache)
    }

    /// The number of claims.
    pub fn claim_len(&self) -> (len: usize)
        ensures
            len == self@.claims.len(),
    {
        self.claims.len()
    }

    /// The claim that an address belongs to.
    fn find_claim(&self, addr: &Address) -> (claim_idx: Option<usize>)
        requires
            self.wf(),
            addr.valid(),
        ensures
            claim_idx == route(self@.claims, addr.bits()),
            claim_idx is Some ==> claim_idx->0 < self.claims.len(),
    {
        proof {
            assert(self.claims.len() == self.claims@.len());
            route_is_the_longest_match(self.claims@, addr.bits());
        }
        self.trie.longest_match(addr)
    }

    /// Remembers for a while that an address belongs to a claim.
    fn cache_claim(&mut self, addr: &Address, claim_idx: usize, now: Time) -> (peer: PeerAddr)
        requires
            old(self).wf(),
            addr.valid(),
            claim_idx < old(self).claims.len(),
            old(self)@.found_by_claim(*addr),
            route(old(self)@.claims, addr.bits()) == Some(claim_idx),
        ensures
            final(self).wf(),
            final(self)@ == old(self)@.looked_up(*addr, now),
            peer == old(self)@.claims[claim_idx as int].peer,
    {
        let entry: ClaimEntry = self.claims[claim_idx];
        let limit: Time = deadline(now, self.cache_timeout);
        let timeout: Time = if limit < entry.timeout {
            limit
        } else {
            entry.timeout
        };
        cache_insert(&mut self.cache, addr.key(), CacheValue { peer: entry.peer, timeout });
        entry.peer
    }

    /// The peer that an address belongs to, as of `now`. What is found among the
    /// claims is remembered.
    pub fn lookup_at(&mut self, addr: Address, now: Time) -> (peer: Option<PeerAddr>)
        requires
            old(self).wf(),
            addr.valid(),
        ensures
            final(self).wf(),
            peer == old(self)@.peer_of(addr),
            final(self)@ == old(self)@.looked_up(addr, now),
    {
        if let Some(entry) = cache_get(&self.cache, &addr.key()) {
            return Some(entry.peer);
        }
        if let Some(claim_idx) = self.find_claim(&addr) {
            return Some(self.cache_claim(&addr, claim_idx, now));
        }
        None
    }

    /// The peer that an address belongs to. What is found among the claims is
    /// remembered; the clock is read only then.
    pub fn lookup(&mut self, addr: Address) -> (peer: Option<PeerAddr>)
        requires
            old(self).wf(),
            addr.valid(),
        ensures
            final(self).wf(),
            peer == old(self)@.peer_of(addr),
            old(self)@.found_by_claim(addr) ==> exists|now: Time| #[trigger]
                call_ensures(TS::now, (), now) && final(self)@ == old(self)@.looked_up(addr, now),
            !old(self)@.found_by_claim(addr) ==> final(self)@ == old(self)@,
    {
        if let Some(entry) = cache_get(&self.cache, &addr.key()) {
            return Some(entry.peer);
        }
        if let Some(claim_idx) = self.find_claim(&addr) {
            let now: Time = TS::now();
            return Some(self.cache_claim(&addr, claim_idx, now));
        }
        None
    }

    /// Removes all claims of a peer, as of `now`.
    pub fn remove_claims_at(&mut self, peer: PeerAddr, now: Time)
        requires
            old(self).wf(),
        ensures
            final(self).wf(),
            final(self)@ == old(self)@.claims_removed(peer, now),
    {
        let ghost target = old(self)@.invalidated(peer);
        let mut i: usize = 0;
        while i < self.claims.len()
            invariant
                i <= self.claims.len(),
                target == old(self)@.invalidated(peer),
                self@ == (TableState { claims: self@.claims, ..old(self)@ }),
                self.claims@.len() == target.claims.len(),
                forall|j: int| 0 <= j < i ==> self.claims@[j] == target.claims[j],
                forall|j: int|
                    i <= j < self.claims@.len() ==> self.claims@[j] == old(self)@.claims[j],
            decreases self.claims.len() - i,
        {
            let mut entry: ClaimEntry = self.claims[i];
            if entry.peer == peer {
                entry.timeout = 0;
                self.claims.set(i, entry);
            }
            i += 1;
        }
        cache_retain(&mut self.cache, Sweep::Invalidate { peer });
        proof {
            assert(self.claims@ =~= target.claims);
            lemma_invalidated_is_valid(old(self)@, peer);
        }
        self.expire(now);
    }

    /// Removes all claims of a peer.
    pub fn remove_claims(&mut self, peer: PeerAddr)
        requires
            old(self).wf(),
        ensures
            final(self).wf(),
            exists|now: Time| #[trigger]
                call_ensures(TS::now, (), now) && final(self)@ == old(self)@.claims_removed(
                    peer,
                    now,
                ),
    {
        let now: Time = TS::now();
        self.remove_claims_at(peer, now);
    }

    /// The first of the ranges that is the same as `claim`.
    fn position(ranges: &RangeList, claim: &Range) -> (pos: Option<usize>)
        ensures
            match first_same(ranges@, *claim, 0) {
                Some(i) => pos == Some(i as usize) && 0 <= i < ranges.len(),
                None => pos is None,
            },
    {
        let mut i: usize = 0;
        while i < ranges.len()
            invariant
                i <= ranges.len(),
                first_same(ranges@, *claim, 0) == first_same(ranges@, *claim, i as int),
            decreases ranges.len() - i,
        {
            if ranges[i] == *claim {
                return Some(i);
            }
            i += 1;
        }
        None
    }

    /// Sets the ranges that a peer claims, as of what the clock shows. The clock
    /// is read for each claim that is renewed or new, and for the housekeeping.
    fn set_claims_by<F: Fn() -> Time>(&mut self, peer: PeerAddr, claims: RangeList, clock: F)
        requires
            old(self).wf(),
            forall|i: int| 0 <= i < claims@.len() ==> (#[trigger] claims@[i]).valid(),
            call_requires(clock, ()),
        ensures
            final(self).wf(),
            exists|times: spec_fn(nat) -> Time|
                {
                    &&& forall|k: nat| call_ensures(clock, (), #[trigger] times(k))
                    &&& final(self)@ == #[trigger] old(self)@.claims_set(peer, claims@, times)
                },
    {
        let ghost before = self@;
        let ghost mut times: Seq<Time> = Seq::empty();
        let mut pending: RangeList = claims;
        let mut dropped: bool = false;
        let mut done: bool = false;
        let mut i: usize = 0;
        assert(before.claims.take(0) =~= Seq::<ClaimEntry>::empty());
        while i < self.claims.len() && !done
            invariant
                before == old(self)@,
                i <= self.claims.len(),
                call_requires(clock, ()),
                self@ == (TableState { claims: self@.claims, ..before }),
                self.claims@.len() == before.claims.len(),
                forall|j: int| i <= j < self.claims@.len() ==> self.claims@[j] == before.claims[j],
                refresh(
                    before.claims.take(i as int),
                    peer,
                    claims@,
                    before.claim_timeout,
                    recorded_clock(times),
                ) == (Refresh {
                    entries: self.claims@.take(i as int),
                    pending: pending@,
                    dropped,
                    done,
                    reads: times.len(),
                }),
                forall|k: int| 0 <= k < times.len() ==> call_ensures(clock, (), #[trigger] times[k]),
                forall|j: int| 0 <= j < pending@.len() ==> (#[trigger] pending@[j]).valid(),
            decreases self.claims.len() - i,
        {
            let mut entry: ClaimEntry = self.claims[i];
            let ghost times_before = times;
            let ghost visited = before.claims.take(i as int);
            let ghost entries_before = self.claims@.take(i as int);
            assert(before.claims.take(i + 1).drop_last() =~= visited);
            if entry.peer == peer {
                if let Some(pos) = Self::position(&pending, &entry.claim) {
                    let now: Time = clock();
                    proof {
                        times = times.push(now);
                        lemma_refresh_reads_the_clock(
                            visited,
                            peer,
                            claims@,
                            before.claim_timeout,
                            recorded_clock(times_before),
                            recorded_clock(times),
                        );
                    }
                    entry.timeout = deadline(now, self.claim_timeout);
                    let _ = pending.swap_remove(pos);
                    done = pending.len() == 0;
                } else {
                    entry.timeout = 0;
                    dropped = true;
                }
                self.claims.set(i, entry);
            }
            assert(self.claims@.take(i + 1) =~= entries_before.push(entry));
            i += 1;
        }
        let ghost refreshed = refresh(
            before.claims,
            peer,
            claims@,
            before.claim_timeout,
            recorded_clock(times),
        );
        let ghost times_before = times;
        proof {
            if done {
                lemma_refresh_is_done(
                    before.claims,
                    i as int,
                    peer,
                    claims@,
                    before.claim_timeout,
                    recorded_clock(times),
                );
                assert(self.claims@.take(i as int) + before.claims.skip(i as int) =~= self.claims@);
            } else {
                assert(before.claims.take(i as int) =~= before.claims);
                assert(self.claims@.take(i as int) =~= self.claims@);
            }
            lemma_refresh_keeps_claims(
                before.claims,
                peer,
                claims@,
                before.claim_timeout,
                recorded_clock(times),
            );
        }
        let mut j: usize = 0;
        while j < pending.len()
            invariant
                j <= pending.len(),
                call_requires(clock, ()),
                self@ == (TableState { claims: self@.claims, ..before }),
                times.len() == times_before.len() + j,
                times_before.is_prefix_of(times),
                self.claims@ == refreshed.entries + Seq::new(
                    j as nat,
                    |m: int|
                        ClaimEntry {
                            peer,
                            claim: pending@[m],
                            timeout: deadline_spec(
                                times[times_before.len() + m],
                                before.claim_timeout,
                            ),
                        },
                ),
                forall|k: int| 0 <= k < times.len() ==> call_ensures(clock, (), #[trigger] times[k]),
            decreases pending.len() - j,
        {
            let now: Time = clock();
            let claim: Range = pending[j];
            let timeout: Time = deadline(now, self.claim_timeout);
            self.claims.push(ClaimEntry { peer, claim, timeout });
            proof {
                times = times.push(now);
            }
            j += 1;
        }
        if dropped {
            cache_retain(&mut self.cache, Sweep::Invalidate { peer });
        }
        let now: Time = clock();
        proof {
            times = times.push(now);
            lemma_refresh_counts(
                before.claims,
                peer,
                claims@,
                before.claim_timeout,
                recorded_clock(times),
            );
            lemma_refresh_reads_the_clock(
                before.claims,
                peer,
                claims@,
                before.claim_timeout,
                recorded_clock(times_before),
                recorded_clock(times),
            );
            let target = before.claims_refreshed(peer, claims@, recorded_clock(times));
            assert(self.claims@ =~= target.claims);
            assert(self@ == target);
            lemma_sweep_is_valid(before.cache, Sweep::Invalidate { peer });
            assert forall|m: int| 0 <= m < self@.claims.len() implies (
            #[trigger] self@.claims[m]).claim.valid() by {
                if m < before.claims.len() {
                    assert(before.claims[m].claim.valid());
                    assert(self@.claims[m] == refreshed.entries[m]);
                } else {
                    assert(pending@[m - before.claims.len()].valid());
                }
            }
        }
        self.expire(now);
        proof {
            let shown = recorded_clock(times);
            assert forall|k: nat| call_ensures(clock, (), #[trigger] shown(k)) by {
                if k >= times.len() {
                    assert(shown(k) == times[times.len() - 1]);
                }
            }
            assert(self@ == before.claims_set(peer, claims@, shown));
        }
    }

    /// Sets the ranges that a peer claims, as of `now`.
    pub fn set_claims_at(&mut self, peer: PeerAddr, claims: RangeList, now: Time)
        requires
            old(self).wf(),
            forall|i: int| 0 <= i < claims@.len() ==> (#[trigger] claims@[i]).valid(),
        ensures
            final(self).wf(),
            final(self)@ == old(self)@.claims_set(peer, claims@, stopped_clock(now)),
    {
        let clock = || -> (time: Time)
            ensures
                time == now,
            { now };
        self.set_claims_by(peer, claims, clock);
        proof {
            let times = choose|times: spec_fn(nat) -> Time|
                {
                    &&& forall|k: nat| call_ensures(clock, (), #[trigger] times(k))
                    &&& self@ == #[trigger] old(self)@.claims_set(peer, claims@, times)
                };
            assert(times =~= stopped_clock(now));
        }
    }

    /// Sets the ranges that a peer claims.
    pub fn set_claims(&mut self, peer: PeerAddr, claims: RangeList)
        requires
            old(self).wf(),
            forall|i: int| 0 <= i < claims@.len() ==> (#[trigger] claims@[i]).valid(),
        ensures
            final(self).wf(),
            exists|times: spec_fn(nat) -> Time|
                {
                    &&& forall|k: nat| call_ensures(TS::now, (), #[trigger] times(k))
                    &&& final(self)@ == #[trigger] old(self)@.claims_set(peer, claims@, times)
                },
    {
        self.set_claims_by(peer, claims, TS::now);
    }

    /// The lines that show the table, as of `now`, with the texts that
    /// `range_text`, `addr_text` and `peer_text` give. In which order the
    /// remembered addresses come is not said.
    pub fn write_out_at<
        R: Fn(Range) -> String,
        A: Fn(Address) -> String,
        P: Fn(PeerAddr) -> String,
    >(&self, now: Time, range_text: R, addr_text: A, peer_text: P) -> (lines: Vec<String>)
        requires
            self.wf(),
            forall|range: Range| #[trigger] call_requires(range_text, (range,)),
            forall|addr: Address| #[trigger] call_requires(addr_text, (addr,)),
            forall|peer: PeerAddr| #[trigger] call_requires(peer_text, (peer,)),
        ensures
            exists|keys: Seq<AddressKey>| #[trigger]
                is_report(lines@, self@, keys, now, range_text, addr_text, peer_text),
    {
        let mut lines: Vec<String> = Vec::new();
        lines.push("forwarding_table:".to_owned());
        lines.push("  claims:".to_owned());
        let mut i: usize = 0;
        while i < self.claims.len()
            invariant
                i <= self.claims.len(),
                forall|range: Range| #[trigger] call_requires(range_text, (range,)),
                forall|peer: PeerAddr| #[trigger] call_requires(peer_text, (peer,)),
                lines@.len() == 2 + i,
                lines@[0]@ == "forwarding_table:"@,
                lines@[1]@ == "  claims:"@,
                forall|j: int|
                    2 <= j < 2 + i ==> is_claim_line(
                        (#[trigger] lines@[j])@,
                        self.claims@[j - 2],
                        now,
                        range_text,
                        peer_text,
                    ),
            decreases self.claims.len() - i,
        {
            let entry: ClaimEntry = self.claims[i];
            let subject: String = range_text(entry.claim);
            let peer: String = peer_text(entry.peer);
            let line: String = row(
                subject.as_str(),
                peer.as_str(),
                remaining(entry.timeout, now),
            );
            assert(is_claim_line(line@, entry, now, range_text, peer_text));
            lines.push(line);
            i += 1;
        }
        lines.push("  cache:".to_owned());
        let entries: Vec<(AddressKey, CacheValue)> = cache_entries(&self.cache);
        let ghost keys = entries@.map_values(|entry: (AddressKey, CacheValue)| entry.0);
        proof {
            lemma_keys_of_entries(entries@, self.cache@);
        }
        let ghost n = self.claims@.len() as int;
        let ghost head = lines@;
        let mut k: usize = 0;
        while k < entries.len()
            invariant
                k <= entries.len(),
                self.wf(),
                forall|addr: Address| #[trigger] call_requires(addr_text, (addr,)),
                forall|peer: PeerAddr| #[trigger] call_requires(peer_text, (peer,)),
                entries@.to_set() == self.cache@.kv_pairs(),
                keys == entries@.map_values(|entry: (AddressKey, CacheValue)| entry.0),
                head.len() == 3 + n,
                lines@.len() == head.len() + k,
                forall|j: int| 0 <= j < head.len() ==> #[trigger] lines@[j] == head[j],
                forall|j: int|
                    3 + n <= j < lines@.len() ==> is_cache_line(
                        (#[trigger] lines@[j])@,
                        keys[j - 3 - n],
                        self.cache@[keys[j - 3 - n]],
                        now,
                        addr_text,
                        peer_text,
                    ),
            decreases entries.len() - k,
        {
            let (key, value) = entries[k];
            proof {
                assert(entries@.to_set().contains(entries@[k as int]));
                assert(self@.cache.contains_key(key));
            }
            let subject: String = addr_text(Address::from_key(key));
            let peer: String = peer_text(value.peer);
            let line: String = row(
                subject.as_str(),
                peer.as_str(),
                remaining(value.timeout, now),
            );
            assert(is_cache_line(line@, key, value, now, addr_text, peer_text));
            lines.push(line);
            k += 1;
        }
        assert(is_report(lines@, self@, keys, now, range_text, addr_text, peer_text));
        lines
    }

    /// The lines that show the table, with the texts that `range_text`,
    /// `addr_text` and `peer_text` give.
    pub fn write_out<
        R: Fn(Range) -> String,
        A: Fn(Address) -> String,
        P: Fn(PeerAddr) -> String,
    >(&self, range_text: R, addr_text: A, peer_text: P) -> (lines: Vec<String>)
        requires
            self.wf(),
            forall|range: Range| #[trigger] call_requires(range_text, (range,)),
            forall|addr: Address| #[trigger] call_requires(addr_text, (addr,)),
            forall|peer: PeerAddr| #[trigger] call_requires(peer_text, (peer,)),
        ensures
            exists|now: Time, keys: Seq<AddressKey>|
                {
                    &&& #[trigger] call_ensures(TS::now, (), now)
                    &&& #[trigger] is_report(
                        lines@,
                        self@,
                        keys,
                        now,
                        range_text,
                        addr_text,
                        peer_text,
                    )
                },
    {
        let now: Time = TS::now();
        self.write_out_at(now, range_text, addr_text, peer_text)
    }
}

/// The keys of a list of all entries of a map are all keys of the map, each
/// once.
proof fn lemma_keys_of_entries(
    entries: Seq<(AddressKey, CacheValue)>,
    map: Map<AddressKey, CacheValue>,
)
    requires
        entries.no_duplicates(),
        entries.to_set() == map.kv_pairs(),
    ensures
        ({
            let keys = entries.map_values(|entry: (AddressKey, CacheValue)| entry.0);
            &&& keys.no_duplicates()
            &&& keys.to_set() == map.dom()
        }),
{
    let keys = entries.map_values(|entry: (AddressKey, CacheValue)| entry.0);
    assert forall|i: int| 0 <= i < entries.len() implies map.contains_key((#[trigger] entries[i]).0)
        && map[entries[i].0] == entries[i].1 by {
        assert(entries.to_set().contains(entries[i]));
    }
    assert forall|key: AddressKey| #[trigger] map.contains_key(key) implies keys.contains(key) by {
        assert(map.kv_pairs().contains((key, map[key])));
        assert(entries.to_set().contains((key, map[key])));
        let i = choose|i: int| 0 <= i < entries.len() && entries[i] == (key, map[key]);
        assert(keys[i] == key);
    }
    assert(keys.to_set() =~= map.dom());
}

} // verus!
