//! What holds of the claim table as a whole.
//!
//! Each public function here states a law over the contents of a table, in
//! terms of what the operations make of them.
use crate::state::{
    claim_index, deadline_spec, first_same, is_best, lemma_first_same, lemma_refresh_counts,
    lemma_refresh_keeps_claims, live_at, refresh, route, route_is_the_longest_match, stopped_clock,
    swap_removed, ClaimEntry, Refresh, TableState,
};
use crate::trie::{longest_prefix, longest_prefix_is_longest};
use crate::types::{
    same_addresses_have_the_same_bytes, same_addresses_have_the_same_key, Address, AddressKey,
    Duration, PeerAddr, Range, Time,
};
use vstd::multiset::Multiset;
use vstd::prelude::*;
use vstd::std_specs::cmp::PartialEqSpec;

verus! {

// ## Equality

/// Addresses compare equal if and only if they have the same length and the same
/// bytes up to it; ranges, if and only if their bases do and their prefix lengths are
/// the same.
pub proof fn equality_is_that_of_the_contents(a: Range, b: Range)
    requires
        a.valid(),
        b.valid(),
    ensures
        Address::obeys_eq_spec(),
        Range::obeys_eq_spec(),
        a.base.eq_spec(&b.base) <==> a.base.len == b.base.len && forall|i: int|
            0 <= i < a.base.len ==> a.base.data[i] == #[trigger] b.base.data[i],
        a.eq_spec(&b) <==> a.base.eq_spec(&b.base) && a.prefix_len == b.prefix_len,
        a.base.same(b.base) <==> a.base.eq_spec(&b.base),
        a.same(b) <==> a.eq_spec(&b),
{
}

// ## The trie

/// Of two claims that are inserted with one prefix, the later one counts.
pub proof fn later_insert_wins(
    m: Map<Seq<bool>, usize>,
    first: Range,
    second: Range,
    first_idx: usize,
    second_idx: usize,
)
    requires
        first.prefix() == second.prefix(),
    ensures
        m.insert(first.prefix(), first_idx).insert(second.prefix(), second_idx) == m.insert(
            second.prefix(),
            second_idx,
        ),
{
    assert(m.insert(first.prefix(), first_idx).insert(second.prefix(), second_idx) =~= m.insert(
        second.prefix(),
        second_idx,
    ));
}

/// An address that a range covers is found once the range has been inserted: the
/// claim that was inserted, unless there is one with a longer prefix of the
/// address.
pub proof fn inserted_range_is_found(
    m: Map<Seq<bool>, usize>,
    range: Range,
    claim_idx: usize,
    bits: Seq<bool>,
)
    requires
        range.covers(bits),
    ensures
        longest_prefix(m.insert(range.prefix(), claim_idx), bits) is Some,
        (forall|k: int|
            range.prefix().len() < k <= bits.len() ==> !m.contains_key(#[trigger] bits.take(k)))
            ==> longest_prefix(m.insert(range.prefix(), claim_idx), bits) == Some(claim_idx),
{
    let n = range.prefix().len() as int;
    let after = m.insert(range.prefix(), claim_idx);
    assert(bits.take(n) =~= range.prefix());
    longest_prefix_is_longest(after, bits);
    assert(after.contains_key(bits.take(n)));
    if forall|k: int| n < k <= bits.len() ==> !m.contains_key(#[trigger] bits.take(k)) {
        assert forall|k: int| n < k <= bits.len() implies !after.contains_key(
            #[trigger] bits.take(k),
        ) by {
            assert(bits.take(k).len() != range.prefix().len());
        }
    }
}

/// Inserting a range does not change what is found for an address that it does
/// not cover.
pub proof fn inserted_range_leaves_other_addresses(
    m: Map<Seq<bool>, usize>,
    range: Range,
    claim_idx: usize,
    bits: Seq<bool>,
)
    requires
        !range.covers(bits),
    ensures
        longest_prefix(m.insert(range.prefix(), claim_idx), bits) == longest_prefix(m, bits),
    decreases bits.len(),
{
    if bits == range.prefix() {
        assert(range.prefix().is_prefix_of(bits));
    }
    if bits.len() > 0 {
        if range.covers(bits.drop_last()) {
            assert(range.prefix() =~= bits.take(range.prefix().len() as int));
            assert(range.covers(bits));
        }
        inserted_range_leaves_other_addresses(m, range, claim_idx, bits.drop_last());
    }
}

/// A range with an empty prefix covers every address.
pub proof fn default_route_covers_everything(range: Range, bits: Seq<bool>)
    requires
        range.prefix().len() == 0,
    ensures
        range.covers(bits),
{
}

// ## Lookups and the cache

/// Addresses that compare equal belong to the same peer.
pub proof fn equal_addresses_belong_to_one_peer(state: TableState, a: Address, b: Address)
    requires
        a.valid(),
        b.valid(),
        a.same(b),
    ensures
        state.peer_of(a) == state.peer_of(b),
{
    same_addresses_have_the_same_key(a, b);
    same_addresses_have_the_same_bytes(a, b);
}

/// A lookup does not change which peer an address belongs to, be it the one that
/// was looked up or another.
pub proof fn lookup_changes_no_answer(state: TableState, addr: Address, now: Time, other: Address)
    requires
        addr.valid(),
        other.valid(),
    ensures
        state.looked_up(addr, now).peer_of(other) == state.peer_of(other),
{
    same_addresses_have_the_same_key(addr, other);
    same_addresses_have_the_same_bytes(addr, other);
}

/// A second lookup of an address is answered by the cache, and changes nothing.
pub proof fn second_lookup_changes_nothing(state: TableState, addr: Address, now: Time, later: Time)
    ensures
        state.looked_up(addr, now).looked_up(addr, later) == state.looked_up(addr, now),
        state.peer_of(addr) is Some ==> state.looked_up(addr, now).cache.contains_key(
            addr.key_spec(),
        ),
{
}

/// A lookup remembers at most one more address, and none if it found nothing.
pub proof fn lookup_remembers_one_address(state: TableState, addr: Address, now: Time)
    requires
        state.valid(),
    ensures
        state.looked_up(addr, now).cache.len() == state.cache.len() + if state.found_by_claim(addr) {
            1int
        } else {
            0
        },
{
}

/// A table without claims and addresses finds nothing.
pub proof fn empty_table_finds_nothing(
    cache_timeout: Duration,
    claim_timeout: Duration,
    addr: Address,
)
    ensures
        TableState::empty(cache_timeout, claim_timeout).peer_of(addr) is None,
{
    let state = TableState::empty(cache_timeout, claim_timeout);
    longest_prefix_is_longest(claim_index(state.claims), addr.bits());
}

/// What was put into the cache is found, whatever the claims say, and other
/// addresses belong to the same peers as before.
pub proof fn cached_address_is_found(
    state: TableState,
    addr: Address,
    peer: PeerAddr,
    now: Time,
    other: Address,
)
    requires
        addr.valid(),
        other.valid(),
    ensures
        state.cached(addr, peer, now).peer_of(addr) == Some(peer),
        !addr.same(other) ==> state.cached(addr, peer, now).peer_of(other) == state.peer_of(other),
{
    same_addresses_have_the_same_key(addr, other);
}

/// Once the cache is cleared, the claims alone say which peer an address belongs
/// to: the one whose claim covers it with the longest prefix, and of several such
/// claims the last.
pub proof fn cleared_cache_leaves_the_claims(state: TableState, addr: Address)
    requires
        state.claims.len() <= usize::MAX,
    ensures
        state.cache_cleared().cache.len() == 0,
        state.cache_cleared().claims == state.claims,
        match state.cache_cleared().peer_of(addr) {
            Some(peer) => exists|best: int| #[trigger]
                is_best(state.claims, addr.bits(), best) && state.claims[best].peer == peer,
            None => forall|i: int|
                0 <= i < state.claims.len() ==> !(#[trigger] state.claims[i]).claim.covers(
                    addr.bits(),
                ),
        },
{
    route_is_the_longest_match(state.claims, addr.bits());
}

// ## Housekeeping

/// Housekeeping keeps just the claims and the addresses that have not timed out,
/// and does not change them.
pub proof fn housekeeping_keeps_what_is_live(state: TableState, now: Time)
    ensures
        forall|entry: ClaimEntry| #[trigger]
            state.housekept(now).claims.contains(entry) <==> state.claims.contains(entry)
                && entry.timeout >= now,
        forall|key: AddressKey| #[trigger]
            state.housekept(now).cache.contains_key(key) <==> state.cache.contains_key(key)
                && state.cache[key].timeout >= now,
        forall|key: AddressKey| #[trigger]
            state.housekept(now).cache.contains_key(key) ==> state.housekept(now).cache[key]
                == state.cache[key],
{
    let kept = state.housekept(now).claims;
    assert forall|entry: ClaimEntry| #[trigger]
        kept.contains(entry) <==> state.claims.contains(entry) && entry.timeout >= now by {
        if kept.contains(entry) {
            state.claims.lemma_filter_contains_rev(live_at(now), entry);
            let i = choose|i: int| 0 <= i < kept.len() && kept[i] == entry;
            state.claims.lemma_filter_pred(live_at(now), i);
        }
        if state.claims.contains(entry) && entry.timeout >= now {
            let i = choose|i: int| 0 <= i < state.claims.len() && state.claims[i] == entry;
            state.claims.lemma_filter_contains(live_at(now), i);
        }
    }
}

/// Housekeeping at a later time makes an earlier one unnecessary; in particular,
/// a second one at the same time changes nothing.
pub proof fn later_housekeeping_is_enough(state: TableState, now: Time, later: Time)
    requires
        now <= later,
    ensures
        state.housekept(now).housekept(later) == state.housekept(later),
{
    lemma_filter_twice(state.claims, now, later);
    assert(state.housekept(now).housekept(later).cache =~= state.housekept(later).cache);
}

proof fn lemma_filter_twice(claims: Seq<ClaimEntry>, now: Time, later: Time)
    requires
        now <= later,
    ensures
        claims.filter(live_at(now)).filter(live_at(later)) == claims.filter(live_at(later)),
    decreases claims.len(),
{
    reveal(Seq::filter);
    if claims.len() > 0 {
        let fewer = claims.drop_last();
        lemma_filter_twice(fewer, now, later);
        let kept = fewer.filter(live_at(now));
        assert(kept.push(claims.last()).drop_last() =~= kept);
    }
}

/// An address that a lookup found among the claims is not remembered for longer
/// than the claim lasts, nor for longer than the cache timeout.
pub proof fn remembered_address_does_not_outlive_its_claim(
    state: TableState,
    addr: Address,
    now: Time,
    later: Time,
)
    requires
        state.found_by_claim(addr),
        ({
            let claim = state.claims[route(state.claims, addr.bits())->0 as int];
            later > claim.timeout || later > deadline_spec(now, state.cache_timeout)
        }),
    ensures
        !state.looked_up(addr, now).housekept(later).cache.contains_key(addr.key_spec()),
{
}

/// After housekeeping, an address belongs to a peer only by what has not timed
/// out: by what the table remembers for it, or else by a claim that covers it. It
/// belongs to no peer if and only if all of that has timed out.
pub proof fn answers_are_live(state: TableState, now: Time, addr: Address)
    requires
        state.claims.len() <= usize::MAX,
    ensures
        ({
            let key = addr.key_spec();
            let remembered = state.cache.contains_key(key) && state.cache[key].timeout >= now;
            match state.housekept(now).peer_of(addr) {
                Some(peer) => if remembered {
                    peer == state.cache[key].peer
                } else {
                    exists|i: int|
                        {
                            &&& 0 <= i < state.claims.len()
                            &&& (#[trigger] state.claims[i]).peer == peer
                            &&& state.claims[i].claim.covers(addr.bits())
                            &&& state.claims[i].timeout >= now
                        }
                },
                None => !remembered && forall|i: int|
                    0 <= i < state.claims.len() && (#[trigger] state.claims[i]).claim.covers(
                        addr.bits(),
                    ) ==> state.claims[i].timeout < now,
            }
        }),
{
    let after = state.housekept(now);
    housekeeping_keeps_what_is_live(state, now);
    state.claims.lemma_filter_len(live_at(now));
    route_is_the_longest_match(after.claims, addr.bits());
    if let Some(best) = route(after.claims, addr.bits()) {
        let entry = after.claims[best as int];
        assert(after.claims.contains(entry));
        let i = choose|i: int| 0 <= i < state.claims.len() && state.claims[i] == entry;
        assert(state.claims[i].peer == entry.peer);
    } else {
        assert forall|i: int|
            0 <= i < state.claims.len() && (#[trigger] state.claims[i]).claim.covers(
                addr.bits(),
            ) implies state.claims[i].timeout < now by {
            assert(state.claims.contains(state.claims[i]));
            if state.claims[i].timeout >= now {
                assert(after.claims.contains(state.claims[i]));
            }
        }
    }
}

/// A claim outlasts what a lookup remembered of it: after housekeeping up to the
/// timeout of the claim that an address was found by, the address still belongs to
/// the same peer, whether or not the table still remembers it.
pub proof fn claim_outlives_the_cache(state: TableState, addr: Address, now: Time, later: Time)
    requires
        state.claims.len() <= usize::MAX,
        state.found_by_claim(addr),
        ({
            let claim = state.claims[route(state.claims, addr.bits())->0 as int];
            later <= claim.timeout
        }),
    ensures
        state.looked_up(addr, now).housekept(later).claims.contains(
            state.claims[route(state.claims, addr.bits())->0 as int],
        ),
        state.looked_up(addr, now).housekept(later).peer_of(addr) == state.peer_of(addr),
{
    route_is_the_longest_match(state.claims, addr.bits());
    let best = route(state.claims, addr.bits())->0 as int;
    let after = state.looked_up(addr, now).housekept(later);
    state.claims.lemma_filter_len(live_at(later));
    lemma_best_claim_survives(state.claims, addr.bits(), best, later);
    let i = choose|i: int|
        #[trigger] is_best(after.claims, addr.bits(), i) && after.claims[i] == state.claims[best];
    route_is_the_longest_match(after.claims, addr.bits());
}

proof fn lemma_best_claim_survives(
    claims: Seq<ClaimEntry>,
    bits: Seq<bool>,
    best: int,
    now: Time,
)
    requires
        is_best(claims, bits, best),
        claims[best].timeout >= now,
    ensures
        exists|i: int| #[trigger]
            is_best(claims.filter(live_at(now)), bits, i) && claims.filter(live_at(now))[i]
                == claims[best],
    decreases claims.len(),
{
    reveal(Seq::filter);
    let fewer = claims.drop_last();
    let before = fewer.filter(live_at(now));
    let kept = claims.filter(live_at(now));
    if best == fewer.len() {
        let last = before.len() as int;
        assert forall|i: int|
            0 <= i < kept.len() && (#[trigger] kept[i]).claim.covers(
                bits,
            ) implies kept[i].claim.prefix().len() <= claims[best].claim.prefix().len() by {
            if i < last {
                assert(before.contains(kept[i]));
                fewer.lemma_filter_contains_rev(live_at(now), kept[i]);
                let j = choose|j: int| 0 <= j < fewer.len() && fewer[j] == kept[i];
                assert(claims[j].claim.covers(bits));
            }
        }
        assert(is_best(kept, bits, last));
    } else {
        assert forall|i: int|
            0 <= i < fewer.len() && (#[trigger] fewer[i]).claim.covers(bits) implies {
            let len = fewer[i].claim.prefix().len();
            let best_len = fewer[best].claim.prefix().len();
            len < best_len || (len == best_len && i <= best)
        } by {
            assert(claims[i].claim.covers(bits));
        }
        lemma_best_claim_survives(fewer, bits, best, now);
        let i = choose|i: int| #[trigger] is_best(before, bits, i) && before[i] == fewer[best];
        assert(claims[fewer.len() as int] == claims.last());
        assert(is_best(kept, bits, i));
    }
}

// ## Removing claims

/// Once the claims of a peer are removed, it has no claim and no remembered
/// address any more. What other peers have is left as housekeeping leaves it. The
/// clock must show a time after zero, which is when removed claims time out.
pub proof fn removed_peer_has_nothing(state: TableState, peer: PeerAddr, now: Time)
    requires
        now > 0,
    ensures
        forall|i: int|
            0 <= i < state.claims_removed(peer, now).claims.len() ==> (
            #[trigger] state.claims_removed(peer, now).claims[i]).peer != peer,
        forall|key: AddressKey| #[trigger]
            state.claims_removed(peer, now).cache.contains_key(key) ==> state.claims_removed(
                peer,
                now,
            ).cache[key].peer != peer,
        state.claims_removed(peer, now).claims == state.claims.filter(
            |entry: ClaimEntry| entry.peer != peer && entry.timeout >= now,
        ),
        forall|key: AddressKey|
            state.cache.contains_key(key) && state.cache[key].peer != peer ==> {
                &&& #[trigger] state.claims_removed(peer, now).cache.contains_key(key)
                    <==> state.housekept(now).cache.contains_key(key)
                &&& state.claims_removed(peer, now).cache.contains_key(key)
                    ==> state.claims_removed(peer, now).cache[key] == state.cache[key]
            },
{
    let others = |entry: ClaimEntry| entry.peer != peer && entry.timeout >= now;
    lemma_filter_invalidated(state.claims, peer, now);
    let after = state.claims_removed(peer, now).claims;
    assert forall|i: int| 0 <= i < after.len() implies (#[trigger] after[i]).peer != peer by {
        state.claims.lemma_filter_pred(others, i);
    }
}

proof fn lemma_filter_invalidated(claims: Seq<ClaimEntry>, peer: PeerAddr, now: Time)
    requires
        now > 0,
    ensures
        claims.map_values(
            |entry: ClaimEntry|
                if entry.peer == peer {
                    ClaimEntry { timeout: 0, ..entry }
                } else {
                    entry
                },
        ).filter(live_at(now)) == claims.filter(
            |entry: ClaimEntry| entry.peer != peer && entry.timeout >= now,
        ),
    decreases claims.len(),
{
    reveal(Seq::filter);
    let f = |entry: ClaimEntry|
        if entry.peer == peer {
            ClaimEntry { timeout: 0, ..entry }
        } else {
            entry
        };
    if claims.len() > 0 {
        lemma_filter_invalidated(claims.drop_last(), peer, now);
        assert(claims.map_values(f).drop_last() =~= claims.drop_last().map_values(f));
    } else {
        assert(claims.map_values(f) =~= claims);
    }
}

/// Once the claims of a peer are removed, no address belongs to it. The clock must
/// show a time after zero, which is when removed claims time out.
pub proof fn no_address_belongs_to_a_removed_peer(
    state: TableState,
    peer: PeerAddr,
    now: Time,
    addr: Address,
)
    requires
        now > 0,
        state.claims.len() <= usize::MAX,
    ensures
        state.claims_removed(peer, now).peer_of(addr) != Some(peer),
{
    removed_peer_has_nothing(state, peer, now);
    let after = state.claims_removed(peer, now);
    state.invalidated(peer).claims.lemma_filter_len(live_at(now));
    route_is_the_longest_match(after.claims, addr.bits());
}

// ## Setting claims

/// Holds of the claims of other peers.
pub open spec fn not_of(peer: PeerAddr) -> spec_fn(ClaimEntry) -> bool {
    |entry: ClaimEntry| entry.peer != peer
}

/// What other peers claim is left as housekeeping leaves it when a peer's claims
/// are set.
pub proof fn other_peers_keep_their_claims(
    state: TableState,
    peer: PeerAddr,
    ranges: Seq<Range>,
    clock: spec_fn(nat) -> Time,
)
    ensures
        state.claims_set(peer, ranges, clock).claims.filter(not_of(peer)) == state.housekept(
            clock(ranges.len()),
        ).claims.filter(not_of(peer)),
{
    let now = clock(ranges.len());
    let entries = state.refresh(peer, ranges, clock).entries;
    let all = state.claims_refreshed(peer, ranges, clock).claims;
    let added = all.skip(entries.len() as int);
    assert(all =~= entries + added);
    lemma_refresh_leaves_others(state.claims, peer, ranges, state.claim_timeout, clock);
    Seq::filter_distributes_over_add(entries, added, not_of(peer));
    lemma_filter_none(added, not_of(peer));
    assert(all.filter(not_of(peer)) =~= entries.filter(not_of(peer)));
    lemma_filters_commute(all, live_at(now), not_of(peer));
    lemma_filters_commute(state.claims, live_at(now), not_of(peer));
}

proof fn lemma_refresh_leaves_others(
    claims: Seq<ClaimEntry>,
    peer: PeerAddr,
    ranges: Seq<Range>,
    timeout: Duration,
    clock: spec_fn(nat) -> Time,
)
    ensures
        refresh(claims, peer, ranges, timeout, clock).entries.filter(not_of(peer))
            == claims.filter(not_of(peer)),
    decreases claims.len(),
{
    reveal(Seq::filter);
    if claims.len() > 0 {
        lemma_refresh_leaves_others(claims.drop_last(), peer, ranges, timeout, clock);
        let before = refresh(claims.drop_last(), peer, ranges, timeout, clock).entries;
        let after = refresh(claims, peer, ranges, timeout, clock).entries;
        assert(after.drop_last() =~= before);
    }
}

proof fn lemma_filter_none<A>(s: Seq<A>, p: spec_fn(A) -> bool)
    requires
        forall|i: int| 0 <= i < s.len() ==> !p(#[trigger] s[i]),
    ensures
        s.filter(p) == Seq::<A>::empty(),
    decreases s.len(),
{
    reveal(Seq::filter);
    if s.len() > 0 {
        lemma_filter_none(s.drop_last(), p);
    }
}

proof fn lemma_filters_commute<A>(s: Seq<A>, p: spec_fn(A) -> bool, q: spec_fn(A) -> bool)
    ensures
        s.filter(p).filter(q) == s.filter(q).filter(p),
    decreases s.len(),
{
    reveal(Seq::filter);
    if s.len() > 0 {
        let fewer = s.drop_last();
        lemma_filters_commute(fewer, p, q);
        assert(fewer.filter(p).push(s.last()).drop_last() =~= fewer.filter(p));
        assert(fewer.filter(q).push(s.last()).drop_last() =~= fewer.filter(q));
    }
}

/// Whether a claim of `peer` is for the same range, and was made or renewed at
/// one of the first `reads` times that the clock shows.
pub open spec fn is_fresh_claim(
    entry: ClaimEntry,
    peer: PeerAddr,
    range: Range,
    timeout: Duration,
    clock: spec_fn(nat) -> Time,
    reads: nat,
) -> bool {
    &&& entry.peer == peer
    &&& range.same(entry.claim)
    &&& exists|k: nat| k < reads && entry.timeout == deadline_spec(#[trigger] clock(k), timeout)
}

/// Once a peer's claims are set, it has a fresh claim for every range on its
/// list. The clock must not show such times that a claim has timed out before
/// the call ends.
pub proof fn every_listed_range_is_claimed(
    state: TableState,
    peer: PeerAddr,
    ranges: Seq<Range>,
    clock: spec_fn(nat) -> Time,
    r: int,
)
    requires
        0 <= r < ranges.len(),
        forall|k: nat|
            k < ranges.len() ==> deadline_spec(
                #[trigger] clock(k),
                state.claim_timeout,
            ) >= clock(ranges.len()),
    ensures
        exists|i: int|
            {
                &&& 0 <= i < state.claims_set(peer, ranges, clock).claims.len()
                &&& is_fresh_claim(
                    #[trigger] state.claims_set(peer, ranges, clock).claims[i],
                    peer,
                    ranges[r],
                    state.claim_timeout,
                    clock,
                    ranges.len(),
                )
            },
{
    let step = state.refresh(peer, ranges, clock);
    let reads = ranges.len();
    lemma_refresh_counts(state.claims, peer, ranges, state.claim_timeout, clock);
    let between = state.claims_refreshed(peer, ranges, clock);
    let after = state.claims_set(peer, ranges, clock);
    lemma_range_is_pending_or_claimed(state.claims, peer, ranges, state.claim_timeout, clock, r);
    let i = if exists|j: int| 0 <= j < step.pending.len() && #[trigger] step.pending[j] == ranges[r] {
        let j = choose|j: int|
            0 <= j < step.pending.len() && #[trigger] step.pending[j] == ranges[r];
        let i = step.entries.len() + j;
        let k = (step.reads + j) as nat;
        assert(between.claims[i].timeout == deadline_spec(clock(k), state.claim_timeout));
        i
    } else {
        let i = choose|i: int|
            0 <= i < step.entries.len() && is_fresh_claim(
                #[trigger] step.entries[i],
                peer,
                ranges[r],
                state.claim_timeout,
                clock,
                step.reads,
            );
        assert(between.claims[i] == step.entries[i]);
        i
    };
    let entry = between.claims[i];
    assert(is_fresh_claim(entry, peer, ranges[r], state.claim_timeout, clock, reads));
    housekeeping_keeps_what_is_live(between, clock(reads));
    assert(between.claims.contains(entry));
    assert(after.claims.contains(entry));
    let n = choose|n: int| 0 <= n < after.claims.len() && after.claims[n] == entry;
    assert(is_fresh_claim(after.claims[n], peer, ranges[r], state.claim_timeout, clock, reads));
}

proof fn lemma_range_is_pending_or_claimed(
    claims: Seq<ClaimEntry>,
    peer: PeerAddr,
    ranges: Seq<Range>,
    timeout: Duration,
    clock: spec_fn(nat) -> Time,
    r: int,
)
    requires
        0 <= r < ranges.len(),
    ensures
        ({
            let step = refresh(claims, peer, ranges, timeout, clock);
            ||| exists|j: int| 0 <= j < step.pending.len() && #[trigger] step.pending[j] == ranges[r]
            ||| exists|i: int|
                0 <= i < step.entries.len() && is_fresh_claim(
                    #[trigger] step.entries[i],
                    peer,
                    ranges[r],
                    timeout,
                    clock,
                    step.reads,
                )
        }),
    decreases claims.len(),
{
    let step = refresh(claims, peer, ranges, timeout, clock);
    if claims.len() == 0 {
        assert(step.pending[r] == ranges[r]);
    } else {
        let before = refresh(claims.drop_last(), peer, ranges, timeout, clock);
        let entry = claims.last();
        lemma_range_is_pending_or_claimed(claims.drop_last(), peer, ranges, timeout, clock, r);
        if exists|j: int| 0 <= j < before.pending.len() && #[trigger] before.pending[j] == ranges[r] {
            let j = choose|j: int|
                0 <= j < before.pending.len() && #[trigger] before.pending[j] == ranges[r];
            if !before.done && entry.peer == peer {
                lemma_first_same(before.pending, entry.claim, 0);
                if let Some(pos) = first_same(before.pending, entry.claim, 0) {
                    if j == pos {
                        let n = step.entries.len() - 1;
                        assert(step.entries[n].timeout == deadline_spec(
                            clock(before.reads),
                            timeout,
                        ));
                        assert(is_fresh_claim(
                            step.entries[n],
                            peer,
                            ranges[r],
                            timeout,
                            clock,
                            step.reads,
                        ));
                    } else if j == before.pending.len() - 1 {
                        assert(step.pending[pos] == ranges[r]);
                    } else {
                        assert(step.pending[j] == ranges[r]);
                    }
                } else {
                    assert(step.pending[j] == ranges[r]);
                }
            } else {
                assert(step.pending[j] == ranges[r]);
            }
        } else {
            let i = choose|i: int|
                0 <= i < before.entries.len() && is_fresh_claim(
                    #[trigger] before.entries[i],
                    peer,
                    ranges[r],
                    timeout,
                    clock,
                    before.reads,
                );
            assert(step.entries[i] == before.entries[i]);
            assert(is_fresh_claim(step.entries[i], peer, ranges[r], timeout, clock, step.reads));
        }
    }
}

/// Whether claim `j` of the table is a claim of `peer` that is not on what is
/// left of the peer's list when it is visited.
pub open spec fn is_unlisted(
    claims: Seq<ClaimEntry>,
    j: int,
    peer: PeerAddr,
    ranges: Seq<Range>,
    timeout: Duration,
    clock: spec_fn(nat) -> Time,
) -> bool {
    let step = refresh(claims.take(j), peer, ranges, timeout, clock);
    &&& 0 <= j < claims.len()
    &&& claims[j].peer == peer
    &&& !step.done
    &&& first_same(step.pending, claims[j].claim, 0) is None
}

/// Once a peer's claims are set, all its claims are for ranges on its list but
/// those that are visited when the list has run out already, which stay as they
/// were. The clock must show a time after zero, which is when dropped claims time
/// out.
pub proof fn unlisted_claims_are_dropped(
    state: TableState,
    peer: PeerAddr,
    ranges: Seq<Range>,
    clock: spec_fn(nat) -> Time,
    i: int,
)
    requires
        clock(ranges.len()) > 0,
        0 <= i < state.claims_set(peer, ranges, clock).claims.len(),
        state.claims_set(peer, ranges, clock).claims[i].peer == peer,
    ensures
        ({
            let entry = state.claims_set(peer, ranges, clock).claims[i];
            ||| exists|r: int| 0 <= r < ranges.len() && (#[trigger] ranges[r]).same(entry.claim)
            ||| exists|j: int|
                {
                    &&& 0 <= j < state.claims.len()
                    &&& #[trigger] state.claims[j] == entry
                    &&& refresh(
                        state.claims.take(j),
                        peer,
                        ranges,
                        state.claim_timeout,
                        clock,
                    ).done
                }
        }),
{
    let between = state.claims_refreshed(peer, ranges, clock);
    let after = state.claims_set(peer, ranges, clock);
    let step = state.refresh(peer, ranges, clock);
    let entry = after.claims[i];
    housekeeping_keeps_what_is_live(between, clock(ranges.len()));
    assert(after.claims.contains(entry));
    assert(between.claims.contains(entry));
    let m = choose|m: int| 0 <= m < between.claims.len() && between.claims[m] == entry;
    lemma_refresh_counts(state.claims, peer, ranges, state.claim_timeout, clock);
    lemma_refresh_keeps_claims(state.claims, peer, ranges, state.claim_timeout, clock);
    if m < state.claims.len() {
        assert(step.entries[m].peer == state.claims[m].peer);
        lemma_visited_claim(state.claims, peer, ranges, state.claim_timeout, clock, m);
        assert(between.claims[m] == step.entries[m]);
    } else {
        let j = m - state.claims.len();
        lemma_pending_is_listed(state.claims, peer, ranges, state.claim_timeout, clock, j);
        let r = choose|r: int| 0 <= r < ranges.len() && #[trigger] ranges[r] == step.pending[j];
        assert(ranges[r].same(entry.claim));
    }
}

proof fn lemma_pending_is_listed(
    claims: Seq<ClaimEntry>,
    peer: PeerAddr,
    ranges: Seq<Range>,
    timeout: Duration,
    clock: spec_fn(nat) -> Time,
    j: int,
)
    requires
        0 <= j < refresh(claims, peer, ranges, timeout, clock).pending.len(),
    ensures
        exists|r: int|
            0 <= r < ranges.len() && #[trigger] ranges[r] == refresh(
                claims,
                peer,
                ranges,
                timeout,
                clock,
            ).pending[j],
    decreases claims.len(),
{
    let step = refresh(claims, peer, ranges, timeout, clock);
    if claims.len() == 0 {
        assert(ranges[j] == step.pending[j]);
    } else {
        let before = refresh(claims.drop_last(), peer, ranges, timeout, clock);
        lemma_first_same(before.pending, claims.last().claim, 0);
        let last = before.pending.len() - 1;
        lemma_pending_is_listed(claims.drop_last(), peer, ranges, timeout, clock, last);
        lemma_pending_is_listed(claims.drop_last(), peer, ranges, timeout, clock, j);
    }
}

proof fn lemma_visited_claim(
    claims: Seq<ClaimEntry>,
    peer: PeerAddr,
    ranges: Seq<Range>,
    timeout: Duration,
    clock: spec_fn(nat) -> Time,
    m: int,
)
    requires
        0 <= m < claims.len(),
        claims[m].peer == peer,
    ensures
        ({
            let entry = refresh(claims, peer, ranges, timeout, clock).entries[m];
            ||| entry.timeout == 0
            ||| exists|r: int| 0 <= r < ranges.len() && (#[trigger] ranges[r]).same(entry.claim)
            ||| entry == claims[m] && refresh(claims.take(m), peer, ranges, timeout, clock).done
        }),
    decreases claims.len(),
{
    let fewer = claims.drop_last();
    let before = refresh(fewer, peer, ranges, timeout, clock);
    lemma_refresh_counts(fewer, peer, ranges, timeout, clock);
    if m < fewer.len() {
        lemma_visited_claim(fewer, peer, ranges, timeout, clock, m);
        assert(fewer.take(m) =~= claims.take(m));
    } else {
        assert(claims.take(m) =~= fewer);
        lemma_first_same(before.pending, claims[m].claim, 0);
        if let Some(pos) = first_same(before.pending, claims[m].claim, 0) {
            lemma_pending_is_listed(fewer, peer, ranges, timeout, clock, pos);
            let r = choose|r: int|
                0 <= r < ranges.len() && #[trigger] ranges[r] == before.pending[pos];
            assert(ranges[r].same(claims[m].claim));
        }
    }
}

/// If setting a peer's claims drops one of them, no address is remembered to
/// belong to the peer any more; otherwise the cache is left as housekeeping
/// leaves it. The clock must show a time after zero, which is when dropped claims
/// time out.
pub proof fn dropped_claim_clears_the_peers_addresses(
    state: TableState,
    peer: PeerAddr,
    ranges: Seq<Range>,
    clock: spec_fn(nat) -> Time,
)
    requires
        clock(ranges.len()) > 0,
    ensures
        (exists|j: int| #[trigger]
            is_unlisted(state.claims, j, peer, ranges, state.claim_timeout, clock)) ==> forall|
            key: AddressKey,
        | #[trigger]
            state.claims_set(peer, ranges, clock).cache.contains_key(key) ==> state.claims_set(
                peer,
                ranges,
                clock,
            ).cache[key].peer != peer,
        !(exists|j: int| #[trigger]
            is_unlisted(state.claims, j, peer, ranges, state.claim_timeout, clock))
            ==> state.claims_set(peer, ranges, clock).cache == state.housekept(
            clock(ranges.len()),
        ).cache,
{
    lemma_dropped_is_unlisted(state.claims, peer, ranges, state.claim_timeout, clock);
}

proof fn lemma_dropped_is_unlisted(
    claims: Seq<ClaimEntry>,
    peer: PeerAddr,
    ranges: Seq<Range>,
    timeout: Duration,
    clock: spec_fn(nat) -> Time,
)
    ensures
        refresh(claims, peer, ranges, timeout, clock).dropped <==> exists|j: int| #[trigger]
            is_unlisted(claims, j, peer, ranges, timeout, clock),
    decreases claims.len(),
{
    if claims.len() > 0 {
        let fewer = claims.drop_last();
        let n = fewer.len() as int;
        lemma_dropped_is_unlisted(fewer, peer, ranges, timeout, clock);
        assert(claims.take(n) =~= fewer);
        assert forall|j: int| j < n implies #[trigger] is_unlisted(
            claims,
            j,
            peer,
            ranges,
            timeout,
            clock,
        ) == is_unlisted(fewer, j, peer, ranges, timeout, clock) by {
            if 0 <= j {
                assert(fewer.take(j) =~= claims.take(j));
            }
        }
        if refresh(fewer, peer, ranges, timeout, clock).dropped {
            let j = choose|j: int| #[trigger]
                is_unlisted(fewer, j, peer, ranges, timeout, clock);
            assert(is_unlisted(claims, j, peer, ranges, timeout, clock));
        } else if refresh(claims, peer, ranges, timeout, clock).dropped {
            assert(is_unlisted(claims, n, peer, ranges, timeout, clock));
        }
        if exists|j: int| #[trigger] is_unlisted(claims, j, peer, ranges, timeout, clock) {
            let j = choose|j: int| #[trigger]
                is_unlisted(claims, j, peer, ranges, timeout, clock);
            if j < n {
                assert(is_unlisted(fewer, j, peer, ranges, timeout, clock));
            }
        }
    }
}

/// To set an empty list is to remove the claims of a peer that has some.
pub proof fn empty_list_removes_the_claims(
    state: TableState,
    peer: PeerAddr,
    clock: spec_fn(nat) -> Time,
    i: int,
)
    requires
        0 <= i < state.claims.len(),
        state.claims[i].peer == peer,
    ensures
        state.claims_set(peer, Seq::empty(), clock) == state.claims_removed(peer, clock(0)),
{
    let none = Seq::<Range>::empty();
    lemma_refresh_by_empty_list(state.claims, peer, state.claim_timeout, clock);
    let between = state.claims_refreshed(peer, none, clock);
    assert(between.claims =~= state.invalidated(peer).claims);
    assert(between =~= state.invalidated(peer));
}

proof fn lemma_refresh_by_empty_list(
    claims: Seq<ClaimEntry>,
    peer: PeerAddr,
    timeout: Duration,
    clock: spec_fn(nat) -> Time,
)
    ensures
        ({
            let step = refresh(claims, peer, Seq::empty(), timeout, clock);
            &&& step.pending.len() == 0
            &&& !step.done
            &&& step.dropped <==> exists|i: int|
                0 <= i < claims.len() && (#[trigger] claims[i]).peer == peer
            &&& step.entries.len() == claims.len()
            &&& forall|i: int|
                0 <= i < claims.len() ==> #[trigger] step.entries[i] == if claims[i].peer == peer {
                    ClaimEntry { timeout: 0, ..claims[i] }
                } else {
                    claims[i]
                }
        }),
    decreases claims.len(),
{
    if claims.len() > 0 {
        let fewer = claims.drop_last();
        lemma_refresh_by_empty_list(fewer, peer, timeout, clock);
        let n = fewer.len() as int;
        assert(forall|i: int| 0 <= i < n ==> fewer[i] == claims[i]);
        if claims[n].peer == peer {
            assert(exists|i: int| 0 <= i < claims.len() && (#[trigger] claims[i]).peer == peer);
        }
        if refresh(fewer, peer, Seq::empty(), timeout, clock).dropped {
            let i = choose|i: int| 0 <= i < fewer.len() && (#[trigger] fewer[i]).peer == peer;
            assert(claims[i].peer == peer);
        }
    }
}

/// The claims of a peer that had none stand at the end of the table, in the order
/// of its list, before the housekeeping; nothing else changes.
pub proof fn new_peer_adds_its_claims(
    state: TableState,
    peer: PeerAddr,
    ranges: Seq<Range>,
    clock: spec_fn(nat) -> Time,
)
    requires
        forall|i: int| 0 <= i < state.claims.len() ==> (#[trigger] state.claims[i]).peer != peer,
    ensures
        state.claims_set(peer, ranges, clock) == (TableState {
            claims: state.claims + Seq::new(
                ranges.len(),
                |i: int|
                    ClaimEntry {
                        peer,
                        claim: ranges[i],
                        timeout: deadline_spec(clock(i as nat), state.claim_timeout),
                    },
            ),
            ..state
        }).housekept(clock(ranges.len())),
{
    lemma_refresh_of_others(state.claims, peer, ranges, state.claim_timeout, clock);
    let added = Seq::new(
        ranges.len(),
        |i: int|
            ClaimEntry {
                peer,
                claim: ranges[i],
                timeout: deadline_spec(clock(i as nat), state.claim_timeout),
            },
    );
    assert(state.claims_refreshed(peer, ranges, clock).claims =~= state.claims + added);
}

proof fn lemma_refresh_of_others(
    claims: Seq<ClaimEntry>,
    peer: PeerAddr,
    ranges: Seq<Range>,
    timeout: Duration,
    clock: spec_fn(nat) -> Time,
)
    requires
        forall|i: int| 0 <= i < claims.len() ==> (#[trigger] claims[i]).peer != peer,
    ensures
        refresh(claims, peer, ranges, timeout, clock) == (Refresh {
            entries: claims,
            ..Refresh::start(ranges)
        }),
    decreases claims.len(),
{
    if claims.len() > 0 {
        lemma_refresh_of_others(claims.drop_last(), peer, ranges, timeout, clock);
        assert(claims.drop_last().push(claims.last()) =~= claims);
    } else {
        assert(claims =~= Seq::<ClaimEntry>::empty());
    }
}

/// A range by what tells it from others: the key of its base and its prefix
/// length.
pub open spec fn range_key(range: Range) -> (AddressKey, u8) {
    (range.base.key_spec(), range.prefix_len)
}

/// The ranges on a list, each as often as it is there.
pub open spec fn listed(ranges: Seq<Range>) -> Multiset<(AddressKey, u8)> {
    ranges.map_values(|range: Range| range_key(range)).to_multiset()
}

/// The ranges that a peer claims, each as often as it has a claim for it.
pub open spec fn claimed_by(claims: Seq<ClaimEntry>, peer: PeerAddr) -> Multiset<(AddressKey, u8)>
    decreases claims.len(),
{
    if claims.len() == 0 {
        Multiset::empty()
    } else if claims.last().peer == peer {
        claimed_by(claims.drop_last(), peer).insert(range_key(claims.last().claim))
    } else {
        claimed_by(claims.drop_last(), peer)
    }
}

/// Whether a claim of `peer` was renewed at one of the first `reads` times that
/// the clock shows, or a claim of another peer is as it was.
pub open spec fn is_renewal(
    before: ClaimEntry,
    after: ClaimEntry,
    peer: PeerAddr,
    timeout: Duration,
    clock: spec_fn(nat) -> Time,
    reads: nat,
) -> bool {
    &&& after == ClaimEntry { timeout: after.timeout, ..before }
    &&& if before.peer == peer {
        exists|k: nat| k < reads && after.timeout == deadline_spec(#[trigger] clock(k), timeout)
    } else {
        after.timeout == before.timeout
    }
}

/// A list that has all that a peer claims already drops nothing: all claims of
/// the peer are renewed, and what else is on the list is added.
pub proof fn longer_list_renews_all_claims(
    state: TableState,
    peer: PeerAddr,
    ranges: Seq<Range>,
    clock: spec_fn(nat) -> Time,
)
    requires
        state.valid(),
        forall|r: int| 0 <= r < ranges.len() ==> (#[trigger] ranges[r]).valid(),
        claimed_by(state.claims, peer).subset_of(listed(ranges)),
    ensures
        ({
            let step = state.refresh(peer, ranges, clock);
            &&& !step.dropped
            &&& step.entries.len() == state.claims.len()
            &&& forall|i: int|
                0 <= i < state.claims.len() ==> is_renewal(
                    state.claims[i],
                    #[trigger] step.entries[i],
                    peer,
                    state.claim_timeout,
                    clock,
                    step.reads,
                )
            &&& listed(step.pending) == listed(ranges).sub(claimed_by(state.claims, peer))
        }),
{
    lemma_renew(state.claims, peer, ranges, state.claim_timeout, clock);
}

/// To set the list that a peer claims already, in whatever order, renews its
/// claims and, before the housekeeping, changes nothing else.
pub proof fn same_list_renews_the_claims(
    state: TableState,
    peer: PeerAddr,
    ranges: Seq<Range>,
    clock: spec_fn(nat) -> Time,
)
    requires
        state.valid(),
        forall|r: int| 0 <= r < ranges.len() ==> (#[trigger] ranges[r]).valid(),
        claimed_by(state.claims, peer) == listed(ranges),
    ensures
        ({
            let after = state.claims_refreshed(peer, ranges, clock);
            &&& state.claims_set(peer, ranges, clock) == after.housekept(clock(ranges.len()))
            &&& after == TableState { claims: after.claims, ..state }
            &&& after.claims.len() == state.claims.len()
            &&& forall|i: int|
                0 <= i < state.claims.len() ==> is_renewal(
                    state.claims[i],
                    #[trigger] after.claims[i],
                    peer,
                    state.claim_timeout,
                    clock,
                    ranges.len(),
                )
        }),
{
    broadcast use vstd::multiset::group_multiset_axioms;

    longer_list_renews_all_claims(state, peer, ranges, clock);
    let step = state.refresh(peer, ranges, clock);
    let keys = step.pending.map_values(|range: Range| range_key(range));
    keys.to_multiset_ensures();
    assert(listed(step.pending) =~= Multiset::empty());
    assert(keys.len() == 0);
    lemma_refresh_counts(state.claims, peer, ranges, state.claim_timeout, clock);
    let between = state.claims_refreshed(peer, ranges, clock);
    assert(between.claims =~= step.entries);
}

/// Ranges are the same if and only if they have the same key.
pub(crate) proof fn lemma_range_key(a: Range, b: Range)
    requires
        a.valid(),
        b.valid(),
    ensures
        a.same(b) <==> range_key(a) == range_key(b),
{
    same_addresses_have_the_same_key(a.base, b.base);
}

pub(crate) proof fn lemma_listed_swap_removed(ranges: Seq<Range>, i: int)
    requires
        0 <= i < ranges.len(),
    ensures
        listed(swap_removed(ranges, i)) == listed(ranges).remove(range_key(ranges[i])),
{
    broadcast use vstd::multiset::group_multiset_axioms;

    let key = |range: Range| range_key(range);
    let keys = ranges.map_values(key);
    let moved = keys.update(i, keys.last());
    let rest = moved.drop_last();
    assert(swap_removed(ranges, i).map_values(key) =~= rest);
    vstd::seq_lib::to_multiset_update(keys, i, keys.last());
    vstd::seq_lib::to_multiset_build(rest, keys.last());
    assert(rest.push(keys.last()) =~= moved);
    keys.to_multiset_ensures();
    assert(keys.contains(keys[i]));
    assert(rest.to_multiset().insert(keys.last()) == keys.to_multiset().insert(keys.last()).remove(
        keys[i],
    ));
    assert forall|k: (AddressKey, u8)| #[trigger]
        rest.to_multiset().count(k) == keys.to_multiset().remove(keys[i]).count(k) by {
        assert(rest.to_multiset().insert(keys.last()).count(k) == keys.to_multiset().insert(
            keys.last(),
        ).remove(keys[i]).count(k));
    }
    assert(listed(swap_removed(ranges, i)) =~= listed(ranges).remove(range_key(ranges[i])));
}

proof fn lemma_renew(
    claims: Seq<ClaimEntry>,
    peer: PeerAddr,
    ranges: Seq<Range>,
    timeout: Duration,
    clock: spec_fn(nat) -> Time,
)
    requires
        forall|i: int| 0 <= i < claims.len() ==> (#[trigger] claims[i]).claim.valid(),
        forall|r: int| 0 <= r < ranges.len() ==> (#[trigger] ranges[r]).valid(),
        claimed_by(claims, peer).subset_of(listed(ranges)),
    ensures
        ({
            let step = refresh(claims, peer, ranges, timeout, clock);
            &&& !step.dropped
            &&& step.entries.len() == claims.len()
            &&& forall|i: int|
                0 <= i < claims.len() ==> is_renewal(
                    claims[i],
                    #[trigger] step.entries[i],
                    peer,
                    timeout,
                    clock,
                    step.reads,
                )
            &&& listed(step.pending) == listed(ranges).sub(claimed_by(claims, peer))
        }),
    decreases claims.len(),
{
    broadcast use vstd::multiset::group_multiset_axioms;

    let step = refresh(claims, peer, ranges, timeout, clock);
    if claims.len() == 0 {
        assert(listed(ranges).sub(claimed_by(claims, peer)) =~= listed(ranges));
    } else {
        let fewer = claims.drop_last();
        let entry = claims.last();
        let key = range_key(entry.claim);
        let before = refresh(fewer, peer, ranges, timeout, clock);
        assert(claimed_by(fewer, peer).subset_of(claimed_by(claims, peer)));
        lemma_renew(fewer, peer, ranges, timeout, clock);
        if entry.peer == peer {
            let keys = before.pending.map_values(|range: Range| range_key(range));
            keys.to_multiset_ensures();
            assert(listed(before.pending).count(key) > 0);
            assert(keys.contains(key));
            let p = choose|p: int| 0 <= p < keys.len() && keys[p] == key;
            lemma_refresh_counts(fewer, peer, ranges, timeout, clock);
            lemma_pending_is_valid(fewer, peer, ranges, timeout, clock);
            lemma_first_same(before.pending, entry.claim, 0);
            lemma_range_key(before.pending[p], entry.claim);
            let pos = first_same(before.pending, entry.claim, 0)->0;
            lemma_range_key(before.pending[pos], entry.claim);
            lemma_listed_swap_removed(before.pending, pos);
            assert(listed(step.pending) =~= listed(ranges).sub(claimed_by(claims, peer)));
            assert(step.entries.last().timeout == deadline_spec(clock(before.reads), timeout));
        }
        assert forall|i: int| 0 <= i < claims.len() implies is_renewal(
            claims[i],
            #[trigger] step.entries[i],
            peer,
            timeout,
            clock,
            step.reads,
        ) by {
            if i < fewer.len() {
                assert(step.entries[i] == before.entries[i]);
                assert(is_renewal(fewer[i], before.entries[i], peer, timeout, clock, before.reads));
            }
        }
    }
}

pub(crate) proof fn lemma_pending_is_valid(
    claims: Seq<ClaimEntry>,
    peer: PeerAddr,
    ranges: Seq<Range>,
    timeout: Duration,
    clock: spec_fn(nat) -> Time,
)
    requires
        forall|r: int| 0 <= r < ranges.len() ==> (#[trigger] ranges[r]).valid(),
    ensures
        ({
            let pending = refresh(claims, peer, ranges, timeout, clock).pending;
            forall|j: int| 0 <= j < pending.len() ==> (#[trigger] pending[j]).valid()
        }),
{
    let pending = refresh(claims, peer, ranges, timeout, clock).pending;
    assert forall|j: int| 0 <= j < pending.len() implies (#[trigger] pending[j]).valid() by {
        lemma_pending_is_listed(claims, peer, ranges, timeout, clock, j);
    }
}

/// To set the same list a second time at the same time changes nothing. The time
/// must lie after zero, which is when dropped claims time out, and its sum with the
/// claim timeout must be a time.
pub proof fn setting_the_same_list_again_changes_nothing(
    state: TableState,
    peer: PeerAddr,
    ranges: Seq<Range>,
    now: Time,
)
    requires
        forall|r: int| 0 <= r < ranges.len() ==> (#[trigger] ranges[r]).valid(),
        now > 0,
        now + state.claim_timeout <= Time::MAX,
    ensures
        state.claims_set(peer, ranges, stopped_clock(now)).claims_set(
            peer,
            ranges,
            stopped_clock(now),
        ) == state.claims_set(peer, ranges, stopped_clock(now)),
{
    let clock = stopped_clock(now);
    let timeout = state.claim_timeout;
    let step = state.refresh(peer, ranges, clock);
    let between = state.claims_refreshed(peer, ranges, clock);
    let once = state.claims_set(peer, ranges, clock);
    let kept = step.entries.filter(live_at(now));
    let added = new_claims(peer, step.pending, deadline_spec(now, timeout));
    assert(between.claims =~= step.entries + added);
    Seq::filter_distributes_over_add(step.entries, added, live_at(now));
    lemma_filter_all(added, live_at(now));
    assert(once.claims =~= kept + added);
    lemma_refresh_repeats(state.claims, peer, ranges, timeout, now);
    lemma_refresh_counts(state.claims, peer, ranges, timeout, clock);
    if step.done {
        assert(kept + added =~= kept);
    } else {
        lemma_pending_is_valid(state.claims, peer, ranges, timeout, clock);
        lemma_new_claims_are_renewed(peer, step.pending, timeout, now);
        lemma_refresh_goes_on(kept, added, peer, ranges, timeout, now);
    }
    let again = once.claims_refreshed(peer, ranges, clock);
    assert(again.claims =~= once.claims);
    assert(again =~= once);
    later_housekeeping_is_enough(between, now, now);
}

/// Claims of a peer for the given ranges.
spec fn new_claims(peer: PeerAddr, ranges: Seq<Range>, timeout: Time) -> Seq<ClaimEntry> {
    Seq::new(ranges.len(), |i: int| ClaimEntry { peer, claim: ranges[i], timeout })
}

proof fn lemma_filter_all<A>(s: Seq<A>, p: spec_fn(A) -> bool)
    requires
        forall|i: int| 0 <= i < s.len() ==> p(#[trigger] s[i]),
    ensures
        s.filter(p) == s,
    decreases s.len(),
{
    reveal(Seq::filter);
    if s.len() > 0 {
        lemma_filter_all(s.drop_last(), p);
        assert(s.drop_last().push(s.last()) =~= s);
    } else {
        assert(s.filter(p) =~= s);
    }
}

/// Held against what the first pass has left of the claims, the list comes out the
/// same, and nothing is dropped.
proof fn lemma_refresh_repeats(
    claims: Seq<ClaimEntry>,
    peer: PeerAddr,
    ranges: Seq<Range>,
    timeout: Duration,
    now: Time,
)
    requires
        now > 0,
        now + timeout <= Time::MAX,
    ensures
        ({
            let step = refresh(claims, peer, ranges, timeout, stopped_clock(now));
            let kept = step.entries.filter(live_at(now));
            refresh(kept, peer, ranges, timeout, stopped_clock(now)) == (Refresh {
                entries: kept,
                dropped: false,
                ..step
            })
        }),
    decreases claims.len(),
{
    reveal(Seq::filter);
    let clock = stopped_clock(now);
    let step = refresh(claims, peer, ranges, timeout, clock);
    if claims.len() > 0 {
        let before = refresh(claims.drop_last(), peer, ranges, timeout, clock);
        lemma_refresh_repeats(claims.drop_last(), peer, ranges, timeout, now);
        let kept_before = before.entries.filter(live_at(now));
        assert(step.entries.drop_last() =~= before.entries);
        let entry = step.entries.last();
        assert(entry.peer == claims.last().peer && entry.claim == claims.last().claim);
        if entry.timeout >= now {
            assert(kept_before.push(entry).drop_last() =~= kept_before);
        }
    } else {
        assert(step.entries.filter(live_at(now)) =~= Seq::<ClaimEntry>::empty());
    }
}

/// A pass over more claims goes on with what is left of the list.
proof fn lemma_refresh_goes_on(
    claims: Seq<ClaimEntry>,
    more: Seq<ClaimEntry>,
    peer: PeerAddr,
    ranges: Seq<Range>,
    timeout: Duration,
    now: Time,
)
    requires
        !refresh(claims, peer, ranges, timeout, stopped_clock(now)).done,
    ensures
        ({
            let first = refresh(claims, peer, ranges, timeout, stopped_clock(now));
            let second = refresh(more, peer, first.pending, timeout, stopped_clock(now));
            refresh(claims + more, peer, ranges, timeout, stopped_clock(now)) == (Refresh {
                entries: first.entries + second.entries,
                pending: second.pending,
                dropped: first.dropped || second.dropped,
                done: second.done,
                reads: first.reads + second.reads,
            })
        }),
    decreases more.len(),
{
    let clock = stopped_clock(now);
    let first = refresh(claims, peer, ranges, timeout, clock);
    let second = refresh(more, peer, first.pending, timeout, clock);
    if more.len() > 0 {
        let fewer = more.drop_last();
        lemma_refresh_goes_on(claims, fewer, peer, ranges, timeout, now);
        assert((claims + more).drop_last() =~= claims + fewer);
        let before = refresh(fewer, peer, first.pending, timeout, clock);
        assert(first.entries + before.entries.push(second.entries.last()) =~= (first.entries
            + before.entries).push(second.entries.last()));
        assert(second.entries =~= before.entries.push(second.entries.last()));
    } else {
        assert(claims + more =~= claims);
        assert(first.entries + second.entries =~= first.entries);
    }
}

/// Claims that were made for a list at `now` are all renewed by it, and stay as
/// they are.
proof fn lemma_new_claims_are_renewed(
    peer: PeerAddr,
    ranges: Seq<Range>,
    timeout: Duration,
    now: Time,
)
    requires
        forall|r: int| 0 <= r < ranges.len() ==> (#[trigger] ranges[r]).valid(),
    ensures
        ({
            let claims = new_claims(peer, ranges, deadline_spec(now, timeout));
            let step = refresh(claims, peer, ranges, timeout, stopped_clock(now));
            &&& step.entries == claims
            &&& step.pending.len() == 0
            &&& !step.dropped
        }),
{
    broadcast use vstd::multiset::group_multiset_axioms;

    let claims = new_claims(peer, ranges, deadline_spec(now, timeout));
    let step = refresh(claims, peer, ranges, timeout, stopped_clock(now));
    lemma_new_claims_are_listed(peer, ranges, deadline_spec(now, timeout));
    lemma_renew(claims, peer, ranges, timeout, stopped_clock(now));
    assert forall|i: int| 0 <= i < claims.len() implies #[trigger] step.entries[i] == claims[i] by {
        assert(is_renewal(
            claims[i],
            step.entries[i],
            peer,
            timeout,
            stopped_clock(now),
            step.reads,
        ));
    }
    assert(step.entries =~= claims);
    let keys = step.pending.map_values(|range: Range| range_key(range));
    keys.to_multiset_ensures();
    assert(listed(step.pending) =~= Multiset::empty());
    assert(keys.len() == 0);
}

proof fn lemma_new_claims_are_listed(peer: PeerAddr, ranges: Seq<Range>, timeout: Time)
    ensures
        claimed_by(new_claims(peer, ranges, timeout), peer) == listed(ranges),
    decreases ranges.len(),
{
    broadcast use vstd::multiset::group_multiset_axioms;

    let key = |range: Range| range_key(range);
    let keys = ranges.map_values(key);
    let claims = new_claims(peer, ranges, timeout);
    if ranges.len() > 0 {
        let fewer = ranges.drop_last();
        lemma_new_claims_are_listed(peer, fewer, timeout);
        assert(claims.drop_last() =~= new_claims(peer, fewer, timeout));
        vstd::seq_lib::to_multiset_build(fewer.map_values(key), key(ranges.last()));
        assert(fewer.map_values(key).push(key(ranges.last())) =~= keys);
    } else {
        keys.to_multiset_ensures();
        assert(listed(ranges) =~= Multiset::empty());
    }
}

/// A claim that was made or renewed at `now` lasts for the claim timeout: the
/// peer still has it after housekeeping at any time up to then. The sum of the
/// two must be a time.
pub proof fn claim_lasts_for_its_timeout(
    state: TableState,
    peer: PeerAddr,
    ranges: Seq<Range>,
    now: Time,
    later: Time,
    r: int,
)
    requires
        0 <= r < ranges.len(),
        now + state.claim_timeout <= Time::MAX,
        later <= now + state.claim_timeout,
    ensures
        exists|entry: ClaimEntry|
            {
                &&& #[trigger] state.claims_set(peer, ranges, stopped_clock(now)).housekept(
                    later,
                ).claims.contains(entry)
                &&& entry.peer == peer
                &&& ranges[r].same(entry.claim)
                &&& entry.timeout == now + state.claim_timeout
            },
{
    let clock = stopped_clock(now);
    let after = state.claims_set(peer, ranges, clock);
    every_listed_range_is_claimed(state, peer, ranges, clock, r);
    let i = choose|i: int|
        {
            &&& 0 <= i < after.claims.len()
            &&& is_fresh_claim(
                #[trigger] after.claims[i],
                peer,
                ranges[r],
                state.claim_timeout,
                clock,
                ranges.len(),
            )
        };
    assert(after.claims.contains(after.claims[i]));
    housekeeping_keeps_what_is_live(after, later);
    assert(after.housekept(later).claims.contains(after.claims[i]));
}

/// Once a peer's claims are set, an address that a range on its list covers
/// belongs to a peer. The clock must not show such times that a claim has timed
/// out before the call ends.
pub proof fn claimed_address_is_found(
    state: TableState,
    peer: PeerAddr,
    ranges: Seq<Range>,
    clock: spec_fn(nat) -> Time,
    r: int,
    addr: Address,
)
    requires
        state.valid(),
        state.claims_set(peer, ranges, clock).claims.len() <= usize::MAX,
        forall|k: int| 0 <= k < ranges.len() ==> (#[trigger] ranges[k]).valid(),
        0 <= r < ranges.len(),
        ranges[r].covers(addr.bits()),
        forall|k: nat|
            k < ranges.len() ==> deadline_spec(#[trigger] clock(k), state.claim_timeout) >= clock(
                ranges.len(),
            ),
    ensures
        state.claims_set(peer, ranges, clock).peer_of(addr) is Some,
        (!state.claims_set(peer, ranges, clock).cache.contains_key(addr.key_spec()) && forall|
            i: int,
        |
            0 <= i < state.claims_set(peer, ranges, clock).claims.len() && (
            #[trigger] state.claims_set(peer, ranges, clock).claims[i]).peer != peer
                ==> !state.claims_set(peer, ranges, clock).claims[i].claim.covers(addr.bits()))
            ==> state.claims_set(peer, ranges, clock).peer_of(addr) == Some(peer),
{
    let after = state.claims_set(peer, ranges, clock);
    every_listed_range_is_claimed(state, peer, ranges, clock, r);
    let i = choose|i: int|
        {
            &&& 0 <= i < after.claims.len()
            &&& is_fresh_claim(
                #[trigger] after.claims[i],
                peer,
                ranges[r],
                state.claim_timeout,
                clock,
                ranges.len(),
            )
        };
    same_ranges_cover_the_same_addresses(ranges[r], after.claims[i].claim, addr.bits());
    route_is_the_longest_match(after.claims, addr.bits());
}

/// Ranges that compare equal cover the same addresses.
pub proof fn same_ranges_cover_the_same_addresses(a: Range, b: Range, bits: Seq<bool>)
    requires
        a.valid(),
        b.valid(),
        a.same(b),
    ensures
        a.prefix() == b.prefix(),
        a.covers(bits) <==> b.covers(bits),
{
    same_addresses_have_the_same_bytes(a.base, b.base);
}

} // verus!
