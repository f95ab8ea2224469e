//! What the operations of a claim table come to.
//!
//! The laws here say what an operation does by what its result must satisfy: which
//! entries are in the table afterwards, until when, and what a caller sees of them.
use crate::laws::{
    claimed_by, lemma_listed_swap_removed, lemma_pending_is_valid, lemma_range_key, listed, range_key,
};
use crate::report::{decimal, is_cache_line, is_claim_line, is_report, row_text, time_text};
use crate::state::{
    deadline_spec, first_same, lemma_first_same, lemma_refresh_counts, live_at, recorded_clock,
    refresh, remaining_spec, route, route_is_the_longest_match, stopped_clock, swap_removed,
    ClaimEntry, TableState,
};
use crate::types::{
    same_addresses_have_the_same_bytes, same_addresses_have_the_same_key, Address, AddressKey,
    Duration, PeerAddr, Range, Time,
};
use vstd::multiset::Multiset;
use vstd::prelude::*;

verus! {

// ## Times

/// A deadline lies `timeout` seconds after `now`, up to a multiple of two to the
/// power of 64, and not even that if the sum is a time.
pub proof fn deadline_is_the_sum(now: Time, timeout: Duration)
    ensures
        now + timeout <= 0x7fff_ffff_ffff_ffff ==> deadline_spec(now, timeout) == now + timeout,
        (deadline_spec(now, timeout) - now - timeout) % 0x1_0000_0000_0000_0000 == 0,
{
}

/// The time that remains leads from `now` to the timeout, up to a multiple of two to
/// the power of 64, and not even that if the difference is a time.
pub proof fn remaining_time_leads_to_the_timeout(timeout: Time, now: Time)
    ensures
        -0x8000_0000_0000_0000 <= timeout - now <= 0x7fff_ffff_ffff_ffff ==> now + remaining_spec(
            timeout,
            now,
        ) == timeout,
        (now + remaining_spec(timeout, now) - timeout) % 0x1_0000_0000_0000_0000 == 0,
{
}

/// Of what was set to time out after a while, that while remains.
pub proof fn all_of_a_new_timeout_remains(now: Time, timeout: Duration)
    ensures
        remaining_spec(deadline_spec(now, timeout), now) == timeout,
{
}

/// A clock that stands still shows one time, and a recorded one shows what was
/// recorded.
pub proof fn clocks_show_their_times(now: Time, times: Seq<Time>, k: nat)
    ensures
        stopped_clock(now)(k) == now,
        k < times.len() ==> recorded_clock(times)(k) == times[k as int],
{
}

// ## New tables

/// A new table holds nothing, and has the timeouts that it was made with.
pub proof fn new_table_has_its_timeouts(cache_timeout: Duration, claim_timeout: Duration)
    ensures
        TableState::empty(cache_timeout, claim_timeout).cache_timeout == cache_timeout,
        TableState::empty(cache_timeout, claim_timeout).claim_timeout == claim_timeout,
        TableState::empty(cache_timeout, claim_timeout).claims.len() == 0,
        TableState::empty(cache_timeout, claim_timeout).cache.len() == 0,
        TableState::empty(cache_timeout, claim_timeout).cache.dom().finite(),
        forall|key: AddressKey| !#[trigger]
            TableState::empty(cache_timeout, claim_timeout).cache.contains_key(key),
{
}

/// No operation changes the timeouts that the table was made with.
pub proof fn timeouts_do_not_change(
    state: TableState,
    addr: Address,
    peer: PeerAddr,
    ranges: Seq<Range>,
    clock: spec_fn(nat) -> Time,
    now: Time,
)
    ensures
        state.cached(addr, peer, now).cache_timeout == state.cache_timeout,
        state.cached(addr, peer, now).claim_timeout == state.claim_timeout,
        state.looked_up(addr, now).cache_timeout == state.cache_timeout,
        state.looked_up(addr, now).claim_timeout == state.claim_timeout,
        state.cache_cleared().cache_timeout == state.cache_timeout,
        state.cache_cleared().claim_timeout == state.claim_timeout,
        state.housekept(now).cache_timeout == state.cache_timeout,
        state.housekept(now).claim_timeout == state.claim_timeout,
        state.claims_removed(peer, now).cache_timeout == state.cache_timeout,
        state.claims_removed(peer, now).claim_timeout == state.claim_timeout,
        state.claims_set(peer, ranges, clock).cache_timeout == state.cache_timeout,
        state.claims_set(peer, ranges, clock).claim_timeout == state.claim_timeout,
{
}

// ## Remembering addresses

/// Putting an address into the cache gives it the peer and a deadline that counts
/// from `now`, whatever was remembered before, and touches nothing else.
pub proof fn cached_address_gets_a_new_deadline(
    state: TableState,
    addr: Address,
    peer: PeerAddr,
    now: Time,
)
    ensures
        state.cached(addr, peer, now).claims == state.claims,
        state.cached(addr, peer, now).cache.contains_key(addr.key_spec()),
        state.cached(addr, peer, now).cache[addr.key_spec()].peer == peer,
        state.cached(addr, peer, now).cache[addr.key_spec()].timeout == deadline_spec(
            now,
            state.cache_timeout,
        ),
        forall|key: AddressKey|
            key != addr.key_spec() ==> (#[trigger] state.cached(addr, peer, now).cache.contains_key(
                key,
            ) <==> state.cache.contains_key(key)),
        forall|key: AddressKey|
            key != addr.key_spec() && state.cache.contains_key(key)
                ==> #[trigger] state.cached(addr, peer, now).cache[key] == state.cache[key],
{
}

/// An address that was put into the cache at `now`, whatever the table held before,
/// belongs to the peer until `cache_timeout` seconds later, and is forgotten after
/// that. The sum must be a time.
pub proof fn cached_address_lasts_for_the_cache_timeout(
    state: TableState,
    addr: Address,
    peer: PeerAddr,
    now: Time,
    later: Time,
)
    requires
        now + state.cache_timeout <= 0x7fff_ffff_ffff_ffff,
    ensures
        state.cached(addr, peer, now).cache[addr.key_spec()].timeout == now + state.cache_timeout,
        later <= now + state.cache_timeout ==> state.cached(addr, peer, now).housekept(
            later,
        ).peer_of(addr) == Some(peer),
        later > now + state.cache_timeout ==> !state.cached(addr, peer, now).housekept(
            later,
        ).cache.contains_key(addr.key_spec()),
{
}

/// Of two times that an address is put into the cache, only the second counts.
pub proof fn second_caching_replaces_the_first(
    state: TableState,
    addr: Address,
    first: PeerAddr,
    second: PeerAddr,
    now: Time,
    later: Time,
)
    ensures
        state.cached(addr, first, now).cached(addr, second, later) == state.cached(
            addr,
            second,
            later,
        ),
{
    assert(state.cached(addr, first, now).cached(addr, second, later).cache =~= state.cached(
        addr,
        second,
        later,
    ).cache);
}

/// An address that the table remembers belongs to the peer that is remembered for
/// it, timed out or not, and a lookup of it changes nothing.
pub proof fn remembered_address_is_answered_by_the_cache(
    state: TableState,
    addr: Address,
    now: Time,
)
    requires
        state.cache.contains_key(addr.key_spec()),
    ensures
        state.peer_of(addr) == Some(state.cache[addr.key_spec()].peer),
        state.looked_up(addr, now) == state,
{
}

/// An address that the table does not remember and no claim covers belongs to no
/// peer, and a lookup of it changes nothing.
pub proof fn unclaimed_address_belongs_to_nobody(state: TableState, addr: Address, now: Time)
    requires
        state.claims.len() <= usize::MAX,
        !state.cache.contains_key(addr.key_spec()),
        forall|i: int|
            0 <= i < state.claims.len() ==> !(#[trigger] state.claims[i]).claim.covers(
                addr.bits(),
            ),
    ensures
        state.peer_of(addr) is None,
        state.looked_up(addr, now) == state,
{
    route_is_the_longest_match(state.claims, addr.bits());
}

/// An address that the table does not remember belongs to the peer of the claim that
/// covers it with the longest prefix, and of several such claims the last. A lookup
/// remembers that until `cache_timeout` seconds after `now` or until the claim times
/// out, whichever comes first, and touches nothing else.
pub proof fn lookup_remembers_the_best_claim(state: TableState, addr: Address, now: Time, best: int)
    requires
        state.claims.len() <= usize::MAX,
        !state.cache.contains_key(addr.key_spec()),
        0 <= best < state.claims.len(),
        state.claims[best].claim.covers(addr.bits()),
        forall|i: int|
            0 <= i < state.claims.len() && (#[trigger] state.claims[i]).claim.covers(addr.bits())
                ==> state.claims[i].claim.prefix().len() < state.claims[best].claim.prefix().len()
                || (state.claims[i].claim.prefix().len() == state.claims[best].claim.prefix().len()
                && i <= best),
    ensures
        state.peer_of(addr) == Some(state.claims[best].peer),
        state.looked_up(addr, now).claims == state.claims,
        state.looked_up(addr, now).cache.contains_key(addr.key_spec()),
        state.looked_up(addr, now).cache[addr.key_spec()].peer == state.claims[best].peer,
        ({
            let timeout = state.looked_up(addr, now).cache[addr.key_spec()].timeout;
            let limit = deadline_spec(now, state.cache_timeout);
            &&& timeout <= limit
            &&& timeout <= state.claims[best].timeout
            &&& timeout == limit || timeout == state.claims[best].timeout
        }),
        forall|key: AddressKey|
            key != addr.key_spec() ==> (#[trigger] state.looked_up(addr, now).cache.contains_key(
                key,
            ) <==> state.cache.contains_key(key)),
        forall|key: AddressKey|
            key != addr.key_spec() && state.cache.contains_key(key)
                ==> #[trigger] state.looked_up(addr, now).cache[key] == state.cache[key],
{
    route_is_the_longest_match(state.claims, addr.bits());
    assert(route(state.claims, addr.bits()) is Some);
    assert(route(state.claims, addr.bits())->0 == best);
}

/// An address that a lookup found by a claim at `now` is remembered, with the peer of
/// the claim, by housekeeping at any time up to `cache_timeout` seconds later, as long
/// as the claim lasts, and is forgotten by housekeeping after that. The sum must be a
/// time.
pub proof fn looked_up_address_lasts_for_the_cache_timeout(
    state: TableState,
    addr: Address,
    now: Time,
    later: Time,
    best: int,
)
    requires
        state.claims.len() <= usize::MAX,
        now + state.cache_timeout <= 0x7fff_ffff_ffff_ffff,
        !state.cache.contains_key(addr.key_spec()),
        0 <= best < state.claims.len(),
        state.claims[best].claim.covers(addr.bits()),
        forall|i: int|
            0 <= i < state.claims.len() && (#[trigger] state.claims[i]).claim.covers(addr.bits())
                ==> state.claims[i].claim.prefix().len() < state.claims[best].claim.prefix().len()
                || (state.claims[i].claim.prefix().len() == state.claims[best].claim.prefix().len()
                && i <= best),
    ensures
        later <= now + state.cache_timeout && later <= state.claims[best].timeout ==> {
            let after = state.looked_up(addr, now).housekept(later);
            &&& after.cache.contains_key(addr.key_spec())
            &&& after.cache[addr.key_spec()].peer == state.claims[best].peer
            &&& after.peer_of(addr) == Some(state.claims[best].peer)
        },
        later > now + state.cache_timeout || later > state.claims[best].timeout
            ==> !state.looked_up(addr, now).housekept(later).cache.contains_key(addr.key_spec()),
{
    lookup_remembers_the_best_claim(state, addr, now, best);
    deadline_is_the_sum(now, state.cache_timeout);
}

/// What the cache holds of an address does not depend on how the address is written
/// down: addresses with the same bytes are one, and others are apart.
pub proof fn cache_tells_addresses_apart(
    state: TableState,
    addr: Address,
    peer: PeerAddr,
    now: Time,
    other: Address,
)
    requires
        addr.valid(),
        other.valid(),
    ensures
        addr.len == other.len && (forall|i: int|
            0 <= i < addr.len ==> addr.data[i] == #[trigger] other.data[i]) ==> state.cached(
            addr,
            peer,
            now,
        ).peer_of(other) == Some(peer),
        !(addr.len == other.len && (forall|i: int|
            0 <= i < addr.len ==> addr.data[i] == #[trigger] other.data[i])) ==> state.cached(
            addr,
            peer,
            now,
        ).peer_of(other) == state.peer_of(other),
{
    same_addresses_have_the_same_key(addr, other);
    same_addresses_have_the_same_bytes(addr, other);
}

/// A cleared cache remembers nothing; the claims stay.
pub proof fn cleared_cache_is_empty(state: TableState)
    ensures
        state.cache_cleared().claims == state.claims,
        forall|key: AddressKey| !#[trigger] state.cache_cleared().cache.contains_key(key),
{
}

// ## Timing out

/// Housekeeping keeps the claims that time out at `now` or later, in their order, and
/// the addresses that do, and drops the others.
pub proof fn housekeeping_drops_what_has_timed_out(state: TableState, now: Time)
    ensures
        state.housekept(now).claims == state.claims.filter(
            |entry: ClaimEntry| now <= entry.timeout,
        ),
        forall|key: AddressKey| #[trigger]
            state.housekept(now).cache.contains_key(key) <==> state.cache.contains_key(key)
                && now <= state.cache[key].timeout,
        forall|key: AddressKey| #[trigger]
            state.housekept(now).cache.contains_key(key) ==> state.housekept(now).cache[key]
                == state.cache[key],
{
    assert(live_at(now) =~= |entry: ClaimEntry| now <= entry.timeout);
}

/// Before the housekeeping, removing the claims of a peer makes its claims and
/// addresses time out at zero, and changes nothing else.
pub proof fn removal_lets_a_peer_time_out(state: TableState, peer: PeerAddr, now: Time)
    ensures
        state.claims_removed(peer, now) == state.invalidated(peer).housekept(now),
        state.invalidated(peer).claims.len() == state.claims.len(),
        forall|i: int|
            0 <= i < state.claims.len() ==> {
                let after = #[trigger] state.invalidated(peer).claims[i];
                &&& after.peer == state.claims[i].peer
                &&& after.claim == state.claims[i].claim
                &&& state.claims[i].peer == peer ==> after.timeout == 0
                &&& state.claims[i].peer != peer ==> after.timeout == state.claims[i].timeout
            },
        forall|key: AddressKey| #[trigger]
            state.invalidated(peer).cache.contains_key(key) <==> state.cache.contains_key(key),
        forall|key: AddressKey|
            state.cache.contains_key(key) ==> {
                let after = #[trigger] state.invalidated(peer).cache[key];
                &&& after.peer == state.cache[key].peer
                &&& state.cache[key].peer == peer ==> after.timeout == 0
                &&& state.cache[key].peer != peer ==> after.timeout == state.cache[key].timeout
            },
{
}

// ## Setting claims

/// The search in a list finds an equal range, and none before it is equal.
pub proof fn search_finds_the_first_range(ranges: Seq<Range>, claim: Range)
    ensures
        match first_same(ranges, claim, 0) {
            Some(i) => {
                &&& 0 <= i < ranges.len()
                &&& ranges[i].same(claim)
                &&& forall|j: int| 0 <= j < i ==> !(#[trigger] ranges[j]).same(claim)
            },
            None => forall|j: int| 0 <= j < ranges.len() ==> !(#[trigger] ranges[j]).same(claim),
        },
{
    lemma_search_finds_the_first(ranges, claim, 0);
}

proof fn lemma_search_finds_the_first(ranges: Seq<Range>, claim: Range, from: int)
    requires
        0 <= from,
    ensures
        match first_same(ranges, claim, from) {
            Some(i) => {
                &&& from <= i < ranges.len()
                &&& ranges[i].same(claim)
                &&& forall|j: int| from <= j < i ==> !(#[trigger] ranges[j]).same(claim)
            },
            None => forall|j: int|
                from <= j < ranges.len() ==> !(#[trigger] ranges[j]).same(claim),
        },
    decreases ranges.len() - from,
{
    if from < ranges.len() {
        lemma_search_finds_the_first(ranges, claim, from + 1);
    }
}

/// Visiting one more claim leaves it as it is, if it is of another peer or the list
/// has run out; renews it and takes the first equal range off the list, whose place
/// the last one takes; or, if no range on the list is equal, lets it time out at zero.
pub proof fn one_claim_is_visited_at_a_time(
    claims: Seq<ClaimEntry>,
    n: int,
    peer: PeerAddr,
    ranges: Seq<Range>,
    timeout: Duration,
    clock: spec_fn(nat) -> Time,
    p: int,
)
    requires
        0 <= n < claims.len(),
    ensures
        ({
            let before = refresh(claims.take(n), peer, ranges, timeout, clock);
            let after = refresh(claims.take(n + 1), peer, ranges, timeout, clock);
            let skipped = claims[n].peer != peer || before.done;
            let found = 0 <= p < before.pending.len() && before.pending[p].same(claims[n].claim)
                && forall|q: int|
                0 <= q < p ==> !(#[trigger] before.pending[q]).same(claims[n].claim);
            let missing = forall|q: int|
                0 <= q < before.pending.len() ==> !(#[trigger] before.pending[q]).same(
                    claims[n].claim,
                );
            &&& n == 0 ==> before.pending == ranges && before.reads == 0 && !before.dropped
                && !before.done && before.entries.len() == 0
            &&& after.entries.len() == n + 1
            &&& forall|j: int| 0 <= j < n ==> #[trigger] after.entries[j] == before.entries[j]
            &&& after.entries[n].peer == claims[n].peer
            &&& after.entries[n].claim == claims[n].claim
            &&& skipped ==> {
                &&& after.entries[n].timeout == claims[n].timeout
                &&& after.pending == before.pending
                &&& after.reads == before.reads
                &&& after.dropped == before.dropped
                &&& after.done == before.done
            }
            &&& !skipped && found ==> {
                &&& after.entries[n].timeout == deadline_spec(clock(before.reads), timeout)
                &&& after.pending.len() == before.pending.len() - 1
                &&& p < after.pending.len() ==> after.pending[p] == before.pending.last()
                &&& forall|q: int|
                    0 <= q < after.pending.len() && q != p ==> #[trigger] after.pending[q]
                        == before.pending[q]
                &&& after.reads == before.reads + 1
                &&& after.dropped == before.dropped
                &&& after.done == (after.pending.len() == 0)
            }
            &&& !skipped && missing ==> {
                &&& after.entries[n].timeout == 0
                &&& after.pending == before.pending
                &&& after.reads == before.reads
                &&& after.dropped
                &&& after.done == before.done
            }
        }),
{
    let before = refresh(claims.take(n), peer, ranges, timeout, clock);
    assert(claims.take(n + 1).drop_last() =~= claims.take(n));
    lemma_refresh_counts(claims.take(n), peer, ranges, timeout, clock);
    search_finds_the_first_range(before.pending, claims[n].claim);
    if let Some(pos) = first_same(before.pending, claims[n].claim, 0) {
        if pos < p {
            assert(before.pending[pos].same(claims[n].claim));
        }
        let rest = swap_removed(before.pending, pos);
        assert(rest.len() == before.pending.len() - 1);
    }
}

/// Before the housekeeping, setting a peer's claims leaves the visited claims and,
/// behind them, one new claim for each range that is left on the list, in the order of
/// the list and with the next readings of the clock. If a claim was dropped, the
/// addresses of the peer time out at zero. The housekeeping comes last, with the last
/// reading.
pub proof fn setting_claims_visits_adds_and_drops(
    state: TableState,
    peer: PeerAddr,
    ranges: Seq<Range>,
    clock: spec_fn(nat) -> Time,
)
    ensures
        ({
            let step = refresh(state.claims, peer, ranges, state.claim_timeout, clock);
            let between = state.claims_refreshed(peer, ranges, clock);
            let n = state.claims.len();
            &&& state.claims_set(peer, ranges, clock) == between.housekept(clock(ranges.len()))
            &&& between.claims.len() == n + step.pending.len()
            &&& forall|i: int| 0 <= i < n ==> #[trigger] between.claims[i] == step.entries[i]
            &&& forall|i: int|
                n <= i < between.claims.len() ==> {
                    let entry = #[trigger] between.claims[i];
                    &&& entry.peer == peer
                    &&& entry.claim == step.pending[i - n]
                    &&& entry.timeout == deadline_spec(
                        clock((step.reads + i - n) as nat),
                        state.claim_timeout,
                    )
                }
            &&& forall|key: AddressKey| #[trigger]
                between.cache.contains_key(key) <==> state.cache.contains_key(key)
            &&& forall|key: AddressKey|
                state.cache.contains_key(key) ==> {
                    let after = #[trigger] between.cache[key];
                    &&& after.peer == state.cache[key].peer
                    &&& after.timeout == if step.dropped && state.cache[key].peer == peer {
                        0
                    } else {
                        state.cache[key].timeout
                    }
                }
        }),
{
    lemma_refresh_counts(state.claims, peer, ranges, state.claim_timeout, clock);
}

/// What becomes of a claim is decided by how often its range is on the list and how
/// often the peer has claims for it that come before. Claims of other peers stay, and
/// so do those that come when all ranges on the list have found a claim. A claim that
/// is listed more often than it has come before is renewed, at the reading of the
/// clock that counts the renewals before it; any other times out at zero.
pub proof fn list_decides_what_becomes_of_a_claim(
    state: TableState,
    peer: PeerAddr,
    ranges: Seq<Range>,
    clock: spec_fn(nat) -> Time,
    j: int,
)
    requires
        state.valid(),
        forall|r: int| 0 <= r < ranges.len() ==> (#[trigger] ranges[r]).valid(),
        0 <= j < state.claims.len(),
    ensures
        ({
            let entry = state.claims[j];
            let after = state.claims_refreshed(peer, ranges, clock).claims[j];
            let key = range_key(entry.claim);
            let earlier = claimed_by(state.claims.take(j), peer);
            let exhausted = ranges.len() > 0 && listed(ranges).subset_of(earlier);
            let renewed = ranges.len() - listed(ranges).sub(earlier).len();
            &&& after.peer == entry.peer
            &&& after.claim == entry.claim
            &&& after.timeout == if entry.peer != peer || exhausted {
                entry.timeout
            } else if earlier.count(key) < listed(ranges).count(key) {
                deadline_spec(clock(renewed as nat), state.claim_timeout)
            } else {
                0
            }
        }),
{
    lemma_fate(state.claims, peer, ranges, state.claim_timeout, clock, j);
    lemma_refresh_counts(state.claims, peer, ranges, state.claim_timeout, clock);
}

/// The ranges that get a new claim are those that are on the list more often than the
/// peer has claims for them.
pub proof fn unclaimed_ranges_get_new_claims(
    state: TableState,
    peer: PeerAddr,
    ranges: Seq<Range>,
    clock: spec_fn(nat) -> Time,
)
    requires
        state.valid(),
        forall|r: int| 0 <= r < ranges.len() ==> (#[trigger] ranges[r]).valid(),
    ensures
        claimed_by(
            state.claims_refreshed(peer, ranges, clock).claims.skip(state.claims.len() as int),
            peer,
        ) == listed(ranges).sub(claimed_by(state.claims, peer)),
{
    lemma_pending_is_the_difference(state.claims, peer, ranges, state.claim_timeout, clock);
    lemma_refresh_counts(state.claims, peer, ranges, state.claim_timeout, clock);
    let step = refresh(state.claims, peer, ranges, state.claim_timeout, clock);
    let added = state.claims_refreshed(peer, ranges, clock).claims.skip(state.claims.len() as int);
    assert(added.len() == step.pending.len());
    lemma_claims_of_a_list(added, peer, step.pending);
}

proof fn lemma_claims_of_a_list(claims: Seq<ClaimEntry>, peer: PeerAddr, ranges: Seq<Range>)
    requires
        claims.len() == ranges.len(),
        forall|i: int|
            0 <= i < claims.len() ==> (#[trigger] claims[i]).peer == peer && claims[i].claim
                == ranges[i],
    ensures
        claimed_by(claims, peer) == listed(ranges),
    decreases claims.len(),
{
    broadcast use vstd::multiset::group_multiset_axioms;

    let key = |range: Range| range_key(range);
    let keys = ranges.map_values(key);
    if ranges.len() > 0 {
        let fewer = ranges.drop_last();
        lemma_claims_of_a_list(claims.drop_last(), peer, fewer);
        vstd::seq_lib::to_multiset_build(fewer.map_values(key), key(ranges.last()));
        assert(fewer.map_values(key).push(key(ranges.last())) =~= keys);
    } else {
        keys.to_multiset_ensures();
        assert(listed(ranges) =~= Multiset::empty());
    }
}

/// What is left of the list, in terms of how often each range is on it and claimed.
proof fn lemma_pending_is_the_difference(
    claims: Seq<ClaimEntry>,
    peer: PeerAddr,
    ranges: Seq<Range>,
    timeout: Duration,
    clock: spec_fn(nat) -> Time,
)
    requires
        forall|i: int| 0 <= i < claims.len() ==> (#[trigger] claims[i]).claim.valid(),
        forall|r: int| 0 <= r < ranges.len() ==> (#[trigger] ranges[r]).valid(),
    ensures
        ({
            let step = refresh(claims, peer, ranges, timeout, clock);
            &&& listed(step.pending) == listed(ranges).sub(claimed_by(claims, peer))
            &&& listed(step.pending).len() == step.pending.len()
            &&& step.done <==> ranges.len() > 0 && step.pending.len() == 0
            &&& step.done <==> ranges.len() > 0 && listed(ranges).subset_of(
                claimed_by(claims, peer),
            )
        }),
    decreases claims.len(),
{
    broadcast use vstd::multiset::group_multiset_axioms;

    let step = refresh(claims, peer, ranges, timeout, clock);
    if claims.len() == 0 {
        assert(listed(ranges).sub(claimed_by(claims, peer)) =~= listed(ranges));
    } else {
        let fewer = claims.drop_last();
        let entry = claims.last();
        let key = range_key(entry.claim);
        let before = refresh(fewer, peer, ranges, timeout, clock);
        lemma_pending_is_the_difference(fewer, peer, ranges, timeout, clock);
        lemma_refresh_counts(fewer, peer, ranges, timeout, clock);
        if entry.peer == peer && !before.done {
            lemma_key_is_pending(fewer, entry.claim, peer, ranges, timeout, clock);
            if let Some(pos) = first_same(before.pending, entry.claim, 0) {
                lemma_listed_swap_removed(before.pending, pos);
            }
        }
        if before.done {
            let keys = before.pending.map_values(|range: Range| range_key(range));
            keys.to_multiset_ensures();
            assert(keys =~= Seq::empty());
        }
        assert(listed(step.pending) =~= listed(ranges).sub(claimed_by(claims, peer)));
    }
    let keys = step.pending.map_values(|range: Range| range_key(range));
    keys.to_multiset_ensures();
    if listed(ranges).subset_of(claimed_by(claims, peer)) {
        assert(listed(step.pending) =~= Multiset::empty());
    }
    if step.pending.len() == 0 {
        assert(keys =~= Seq::empty());
        assert forall|k: (AddressKey, u8)| listed(ranges).count(k) <= claimed_by(
            claims,
            peer,
        ).count(k) by {
            assert(listed(step.pending).count(k) == 0);
        }
    }
}

/// A search of what is left of the list finds an equal range if and only if the key of
/// the range is there, and then one with that key.
proof fn lemma_key_is_pending(
    claims: Seq<ClaimEntry>,
    claim: Range,
    peer: PeerAddr,
    ranges: Seq<Range>,
    timeout: Duration,
    clock: spec_fn(nat) -> Time,
)
    requires
        claim.valid(),
        forall|r: int| 0 <= r < ranges.len() ==> (#[trigger] ranges[r]).valid(),
    ensures
        ({
            let pending = refresh(claims, peer, ranges, timeout, clock).pending;
            match first_same(pending, claim, 0) {
                Some(pos) => {
                    &&& 0 <= pos < pending.len()
                    &&& range_key(pending[pos]) == range_key(claim)
                    &&& listed(pending).count(range_key(claim)) > 0
                },
                None => listed(pending).count(range_key(claim)) == 0,
            }
        }),
{
    let pending = refresh(claims, peer, ranges, timeout, clock).pending;
    let keys = pending.map_values(|range: Range| range_key(range));
    lemma_pending_is_valid(claims, peer, ranges, timeout, clock);
    lemma_first_same(pending, claim, 0);
    keys.to_multiset_ensures();
    if let Some(pos) = first_same(pending, claim, 0) {
        lemma_range_key(pending[pos], claim);
        assert(keys[pos] == range_key(claim));
        assert(keys.contains(range_key(claim)));
    } else if listed(pending).count(range_key(claim)) > 0 {
        assert(keys.contains(range_key(claim)));
        let p = choose|p: int| 0 <= p < keys.len() && keys[p] == range_key(claim);
        lemma_range_key(pending[p], claim);
        assert(pending[p].same(claim));
    }
}

proof fn lemma_fate(
    claims: Seq<ClaimEntry>,
    peer: PeerAddr,
    ranges: Seq<Range>,
    timeout: Duration,
    clock: spec_fn(nat) -> Time,
    j: int,
)
    requires
        forall|i: int| 0 <= i < claims.len() ==> (#[trigger] claims[i]).claim.valid(),
        forall|r: int| 0 <= r < ranges.len() ==> (#[trigger] ranges[r]).valid(),
        0 <= j < claims.len(),
    ensures
        ({
            let entry = claims[j];
            let step = refresh(claims, peer, ranges, timeout, clock);
            let key = range_key(entry.claim);
            let earlier = claimed_by(claims.take(j), peer);
            let exhausted = ranges.len() > 0 && listed(ranges).subset_of(earlier);
            let renewed = ranges.len() - listed(ranges).sub(earlier).len();
            &&& j < step.entries.len()
            &&& step.entries[j] == ClaimEntry {
                timeout: if entry.peer != peer || exhausted {
                    entry.timeout
                } else if earlier.count(key) < listed(ranges).count(key) {
                    deadline_spec(clock(renewed as nat), timeout)
                } else {
                    0
                },
                ..entry
            }
        }),
    decreases claims.len(),
{
    broadcast use vstd::multiset::group_multiset_axioms;

    let fewer = claims.drop_last();
    lemma_refresh_counts(claims, peer, ranges, timeout, clock);
    lemma_refresh_counts(fewer, peer, ranges, timeout, clock);
    if j < fewer.len() {
        lemma_fate(fewer, peer, ranges, timeout, clock, j);
        assert(fewer.take(j) =~= claims.take(j));
    } else {
        assert(claims.take(j) =~= fewer);
        lemma_pending_is_the_difference(fewer, peer, ranges, timeout, clock);
        lemma_key_is_pending(fewer, claims[j].claim, peer, ranges, timeout, clock);
    }
}

// ## Printing

/// The number that decimal digits write down.
pub open spec fn number(text: Seq<char>) -> int
    decreases text.len(),
{
    if text.len() == 0 {
        0
    } else {
        10 * number(text.drop_last()) + (text.last() as int - '0' as int)
    }
}

/// A number in decimal notation is made of digits, does not start with a zero unless it
/// is one, and writes down the number.
pub proof fn decimal_writes_down_the_number(n: nat)
    ensures
        decimal(n).len() > 0,
        forall|i: int| 0 <= i < decimal(n).len() ==> '0' <= #[trigger] decimal(n)[i] <= '9',
        decimal(n).len() > 1 ==> decimal(n)[0] != '0',
        number(decimal(n)) == n,
    decreases n,
{
    reveal_with_fuel(number, 2);
    if n >= 10 {
        decimal_writes_down_the_number(n / 10);
        assert(decimal(n).drop_last() =~= decimal(n / 10));
        if n / 10 < 10 {
            assert(decimal(n)[0] == decimal(n / 10)[0]);
        }
    } else {
        assert(decimal(n).drop_last() =~= Seq::<char>::empty());
    }
}

/// A time is written down with a minus sign if it is negative, and then its magnitude.
pub proof fn time_text_writes_down_the_time(time: Time)
    ensures
        time >= 0 ==> time_text(time) == decimal(time as nat) && number(time_text(time)) == time,
        time < 0 ==> time_text(time)[0] == '-' && time_text(time).skip(1) == decimal(-time as nat)
            && number(time_text(time).skip(1)) == -time,
{
    if time < 0 {
        assert(time_text(time).skip(1) =~= decimal((-time) as nat));
        decimal_writes_down_the_number((-time) as nat);
    } else {
        decimal_writes_down_the_number(time as nat);
    }
}

/// A row names its subject, its peer and its timeout, in that order.
pub proof fn row_names_subject_peer_and_timeout(subject: Seq<char>, peer: Seq<char>, timeout: Time)
    ensures
        row_text(subject, peer, timeout) == "    - \""@ + subject + "\": { peer: \""@ + peer
            + "\", timeout: "@ + time_text(timeout) + " }"@,
{
}

/// A report has a line for the table, one for the claims and one for the cache, in
/// between as many lines as there are claims, and at the end as many as the table
/// remembers addresses.
pub proof fn report_has_a_line_for_everything<
    R: Fn(Range) -> String,
    A: Fn(Address) -> String,
    P: Fn(PeerAddr) -> String,
>(
    lines: Seq<String>,
    state: TableState,
    keys: Seq<AddressKey>,
    now: Time,
    range_text: R,
    addr_text: A,
    peer_text: P,
)
    requires
        is_report(lines, state, keys, now, range_text, addr_text, peer_text),
    ensures
        lines.len() == 3 + state.claims.len() + state.cache.len(),
        lines[0]@ == "forwarding_table:"@,
        lines[1]@ == "  claims:"@,
        lines[2 + state.claims.len() as int]@ == "  cache:"@,
        keys.len() == state.cache.len(),
        forall|key: AddressKey| #[trigger] state.cache.contains_key(key) <==> keys.contains(key),
{
    keys.unique_seq_to_set();
    assert forall|key: AddressKey| #[trigger] state.cache.contains_key(key) <==> keys.contains(
        key,
    ) by {
        assert(keys.to_set().contains(key) <==> keys.contains(key));
    }
}

/// A report shows the claims in their order, each with the text of its range, the text
/// of its peer and the seconds from `now` to its timeout.
pub proof fn report_shows_a_claim<
    R: Fn(Range) -> String,
    A: Fn(Address) -> String,
    P: Fn(PeerAddr) -> String,
>(
    lines: Seq<String>,
    state: TableState,
    keys: Seq<AddressKey>,
    now: Time,
    range_text: R,
    addr_text: A,
    peer_text: P,
    i: int,
)
    requires
        is_report(lines, state, keys, now, range_text, addr_text, peer_text),
        0 <= i < state.claims.len(),
    ensures
        exists|subject: String, peer: String|
            {
                &&& #[trigger] call_ensures(range_text, (state.claims[i].claim,), subject)
                &&& #[trigger] call_ensures(peer_text, (state.claims[i].peer,), peer)
                &&& lines[2 + i]@ == row_text(
                    subject@,
                    peer@,
                    remaining_spec(state.claims[i].timeout, now),
                )
            },
{
    assert(is_claim_line(lines[2 + i]@, state.claims[i], now, range_text, peer_text));
}

/// A report shows each address that the table remembers with its text, the text of its
/// peer and the seconds from `now` to its timeout.
pub proof fn report_shows_an_address<
    R: Fn(Range) -> String,
    A: Fn(Address) -> String,
    P: Fn(PeerAddr) -> String,
>(
    lines: Seq<String>,
    state: TableState,
    keys: Seq<AddressKey>,
    now: Time,
    range_text: R,
    addr_text: A,
    peer_text: P,
    i: int,
)
    requires
        is_report(lines, state, keys, now, range_text, addr_text, peer_text),
        0 <= i < keys.len(),
    ensures
        exists|addr: Address, subject: String, peer: String|
            {
                &&& addr.valid()
                &&& addr.key_spec() == keys[i]
                &&& #[trigger] call_ensures(addr_text, (addr,), subject)
                &&& #[trigger] call_ensures(peer_text, (state.cache[keys[i]].peer,), peer)
                &&& lines[3 + state.claims.len() + i]@ == row_text(
                    subject@,
                    peer@,
                    remaining_spec(state.cache[keys[i]].timeout, now),
                )
            },
{
    assert(is_cache_line(
        lines[3 + state.claims.len() + i]@,
        keys[i],
        state.cache[keys[i]],
        now,
        addr_text,
        peer_text,
    ));
}

} // verus!
