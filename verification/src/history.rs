//! What holds of a claim table after any series of calls.
//!
//! An address that a lookup has remembered is backed by a claim: one of the same
//! peer that covers the address and times out no earlier. Every call but the one
//! that puts an address into the cache by hand keeps this.
use crate::cache::CacheValue;
use crate::laws::housekeeping_keeps_what_is_live;
use crate::state::{
    deadline_spec, lemma_refresh_counts, lemma_refresh_keeps_claims, recorded_clock, refresh, route,
    route_is_the_longest_match, ClaimEntry, TableState,
};
use crate::types::{
    same_addresses_have_the_same_bytes, same_addresses_have_the_same_key, Address, Duration,
    PeerAddr, Range, Time,
};
use vstd::prelude::*;

verus! {

// ## The invariant

/// Whether a claim backs what the table remembers of an address: it is a claim of
/// the same peer, covers the address, and times out no earlier.
pub open spec fn backs(entry: ClaimEntry, addr: Address, value: CacheValue) -> bool {
    &&& entry.peer == value.peer
    &&& entry.claim.covers(addr.bits())
    &&& entry.timeout >= value.timeout
}

/// Whether every address that the table remembers is backed by a claim in the
/// table.
pub open spec fn is_backed(state: TableState) -> bool {
    forall|addr: Address|
        addr.valid() && #[trigger] state.cache.contains_key(addr.key_spec()) ==> exists|i: int|
            0 <= i < state.claims.len() && backs(
                #[trigger] state.claims[i],
                addr,
                state.cache[addr.key_spec()],
            )
}

/// Whether no claim in the table lasts for longer than one that is made at
/// `latest`.
pub open spec fn is_recent(state: TableState, latest: Time) -> bool {
    forall|i: int|
        0 <= i < state.claims.len() ==> (#[trigger] state.claims[i]).timeout <= latest
            + state.claim_timeout
}

/// A table that holds nothing meets the invariant.
pub proof fn empty_table_is_backed(cache_timeout: Duration, claim_timeout: Duration, latest: Time)
    ensures
        is_backed(TableState::empty(cache_timeout, claim_timeout)),
        is_recent(TableState::empty(cache_timeout, claim_timeout), latest),
{
}

/// Clearing the cache keeps the invariant.
pub proof fn clearing_the_cache_keeps_backing(state: TableState, latest: Time)
    requires
        is_recent(state, latest),
    ensures
        is_backed(state.cache_cleared()),
        is_recent(state.cache_cleared(), latest),
{
}

/// A lookup keeps the invariant, whatever time it reads: what it remembers does not
/// outlast the claim that it found.
pub proof fn lookup_keeps_backing(state: TableState, addr: Address, now: Time, latest: Time)
    requires
        state.claims.len() <= usize::MAX,
        addr.valid(),
        is_backed(state),
        is_recent(state, latest),
    ensures
        is_backed(state.looked_up(addr, now)),
        is_recent(state.looked_up(addr, now), latest),
{
    let after = state.looked_up(addr, now);
    route_is_the_longest_match(state.claims, addr.bits());
    assert forall|other: Address|
        other.valid() && #[trigger] after.cache.contains_key(other.key_spec()) implies exists|
        i: int,
    |
        0 <= i < after.claims.len() && backs(
            #[trigger] after.claims[i],
            other,
            after.cache[other.key_spec()],
        ) by {
        same_addresses_have_the_same_key(addr, other);
        same_addresses_have_the_same_bytes(addr, other);
        if state.found_by_claim(addr) && addr.key_spec() == other.key_spec() {
            let best = route(state.claims, addr.bits())->0 as int;
            assert(backs(after.claims[best], other, after.cache[other.key_spec()]));
        } else {
            assert(state.cache.contains_key(other.key_spec()));
        }
    }
}

/// Housekeeping keeps the invariant: a claim does not time out before the addresses
/// that it backs.
pub proof fn housekeeping_keeps_backing(state: TableState, now: Time, latest: Time)
    requires
        is_backed(state),
        is_recent(state, latest),
    ensures
        is_backed(state.housekept(now)),
        is_recent(state.housekept(now), latest),
{
    let after = state.housekept(now);
    housekeeping_keeps_what_is_live(state, now);
    assert forall|addr: Address|
        addr.valid() && #[trigger] after.cache.contains_key(addr.key_spec()) implies exists|i: int|
        0 <= i < after.claims.len() && backs(
            #[trigger] after.claims[i],
            addr,
            after.cache[addr.key_spec()],
        ) by {
        assert(state.cache.contains_key(addr.key_spec()));
        let i = choose|i: int|
            0 <= i < state.claims.len() && backs(
                #[trigger] state.claims[i],
                addr,
                state.cache[addr.key_spec()],
            );
        lemma_live_claim_is_kept(state, now, i);
    }
    assert forall|i: int| 0 <= i < after.claims.len() implies (#[trigger] after.claims[i]).timeout
        <= latest + after.claim_timeout by {
        assert(after.claims.contains(after.claims[i]));
        assert(state.claims.contains(after.claims[i]));
    }
}

proof fn lemma_live_claim_is_kept(state: TableState, now: Time, i: int)
    requires
        0 <= i < state.claims.len(),
        state.claims[i].timeout >= now,
    ensures
        exists|k: int|
            0 <= k < state.housekept(now).claims.len() && #[trigger] state.housekept(now).claims[k]
                == state.claims[i],
{
    housekeeping_keeps_what_is_live(state, now);
    assert(state.claims.contains(state.claims[i]));
    assert(state.housekept(now).claims.contains(state.claims[i]));
}

/// After housekeeping, every address that the table remembers is backed by a claim
/// that has not timed out.
pub proof fn remembered_addresses_have_live_claims(state: TableState, now: Time, addr: Address)
    requires
        is_backed(state),
        addr.valid(),
        state.housekept(now).cache.contains_key(addr.key_spec()),
    ensures
        exists|i: int|
            {
                &&& 0 <= i < state.housekept(now).claims.len()
                &&& backs(
                    #[trigger] state.housekept(now).claims[i],
                    addr,
                    state.housekept(now).cache[addr.key_spec()],
                )
                &&& state.housekept(now).claims[i].timeout >= now
            },
{
    assert(state.cache.contains_key(addr.key_spec()));
    let i = choose|i: int|
        0 <= i < state.claims.len() && backs(
            #[trigger] state.claims[i],
            addr,
            state.cache[addr.key_spec()],
        );
    lemma_live_claim_is_kept(state, now, i);
    let k = choose|k: int|
        0 <= k < state.housekept(now).claims.len() && #[trigger] state.housekept(now).claims[k]
            == state.claims[i];
    assert(backs(
        state.housekept(now).claims[k],
        addr,
        state.housekept(now).cache[addr.key_spec()],
    ));
}

/// Removing the claims of a peer keeps the invariant: its addresses time out with
/// its claims.
pub proof fn removing_claims_keeps_backing(
    state: TableState,
    peer: PeerAddr,
    now: Time,
    latest: Time,
)
    requires
        latest >= 0,
        is_backed(state),
        is_recent(state, latest),
    ensures
        is_backed(state.claims_removed(peer, now)),
        is_recent(state.claims_removed(peer, now), latest),
{
    let between = state.invalidated(peer);
    assert forall|addr: Address|
        addr.valid() && #[trigger] between.cache.contains_key(
            addr.key_spec(),
        ) implies exists|i: int|
        0 <= i < between.claims.len() && backs(
            #[trigger] between.claims[i],
            addr,
            between.cache[addr.key_spec()],
        ) by {
        assert(state.cache.contains_key(addr.key_spec()));
        let i = choose|i: int|
            0 <= i < state.claims.len() && backs(
                #[trigger] state.claims[i],
                addr,
                state.cache[addr.key_spec()],
            );
        assert(backs(between.claims[i], addr, between.cache[addr.key_spec()]));
    }
    housekeeping_keeps_backing(between, now, latest);
}

/// Setting the claims of a peer keeps the invariant, if the clock shows times from
/// `latest` on, does not go back, and ends after zero, which is when dropped claims
/// time out, and if the deadlines are times: then a claim that is renewed lasts for
/// no less than before, and a claim that is dropped takes the addresses of its peer
/// with it.
pub proof fn setting_claims_keeps_backing(
    state: TableState,
    peer: PeerAddr,
    ranges: Seq<Range>,
    clock: spec_fn(nat) -> Time,
    latest: Time,
)
    requires
        is_backed(state),
        is_recent(state, latest),
        forall|k: nat|
            k <= ranges.len() ==> latest <= #[trigger] clock(k) <= clock(ranges.len()),
        clock(ranges.len()) > 0,
        clock(ranges.len()) + state.claim_timeout <= Time::MAX,
    ensures
        is_backed(state.claims_set(peer, ranges, clock)),
        is_recent(state.claims_set(peer, ranges, clock), clock(ranges.len())),
{
    let now = clock(ranges.len());
    let step = state.refresh(peer, ranges, clock);
    let between = state.claims_refreshed(peer, ranges, clock);
    let after = state.claims_set(peer, ranges, clock);
    lemma_refresh_counts(state.claims, peer, ranges, state.claim_timeout, clock);
    lemma_refresh_keeps_claims(state.claims, peer, ranges, state.claim_timeout, clock);
    lemma_refresh_timeouts(state.claims, peer, ranges, state.claim_timeout, clock);
    housekeeping_keeps_what_is_live(between, now);
    assert forall|i: int| 0 <= i < state.claims.len() implies {
        let entry = #[trigger] step.entries[i];
        &&& entry.timeout <= now + state.claim_timeout
        &&& entry.timeout >= state.claims[i].timeout || (step.dropped && entry.peer == peer)
    } by {
        assert(is_visited(
            state.claims[i],
            step.entries[i],
            peer,
            state.claim_timeout,
            clock,
            step.reads,
            step.dropped,
        ));
    }
    assert forall|addr: Address|
        addr.valid() && #[trigger] after.cache.contains_key(addr.key_spec()) implies exists|i: int|
        0 <= i < after.claims.len() && backs(
            #[trigger] after.claims[i],
            addr,
            after.cache[addr.key_spec()],
        ) by {
        assert(between.cache.contains_key(addr.key_spec()));
        assert(state.cache.contains_key(addr.key_spec()));
        let value = state.cache[addr.key_spec()];
        let i = choose|i: int|
            0 <= i < state.claims.len() && backs(#[trigger] state.claims[i], addr, value);
        assert(step.entries[i].peer == value.peer);
        assert(between.claims[i] == step.entries[i]);
        lemma_live_claim_is_kept(between, now, i);
    }
    assert forall|i: int| 0 <= i < after.claims.len() implies (#[trigger] after.claims[i]).timeout
        <= now + after.claim_timeout by {
        assert(after.claims.contains(after.claims[i]));
        assert(between.claims.contains(after.claims[i]));
        let k = choose|k: int|
            0 <= k < between.claims.len() && between.claims[k] == after.claims[i];
        if k < step.entries.len() {
            assert(between.claims[k] == step.entries[k]);
        } else {
            let reading = (step.reads + (k - step.entries.len())) as nat;
            assert(between.claims[k].timeout == deadline_spec(clock(reading), state.claim_timeout));
        }
    }
}

/// What becomes of the timeout of a claim that is visited: it stays, it is renewed
/// at one of the first `reads` times that the clock shows, or it is dropped.
spec fn is_visited(
    before: ClaimEntry,
    after: ClaimEntry,
    peer: PeerAddr,
    timeout: Duration,
    clock: spec_fn(nat) -> Time,
    reads: nat,
    dropped: bool,
) -> bool {
    ||| after.timeout == before.timeout
    ||| exists|k: nat| k < reads && after.timeout == deadline_spec(#[trigger] clock(k), timeout)
    ||| dropped && after.peer == peer && after.timeout == 0
}

proof fn lemma_refresh_timeouts(
    claims: Seq<ClaimEntry>,
    peer: PeerAddr,
    ranges: Seq<Range>,
    timeout: Duration,
    clock: spec_fn(nat) -> Time,
)
    ensures
        ({
            let step = refresh(claims, peer, ranges, timeout, clock);
            &&& step.entries.len() == claims.len()
            &&& forall|i: int|
                0 <= i < claims.len() ==> is_visited(
                    claims[i],
                    #[trigger] step.entries[i],
                    peer,
                    timeout,
                    clock,
                    step.reads,
                    step.dropped,
                )
        }),
    decreases claims.len(),
{
    if claims.len() > 0 {
        let fewer = claims.drop_last();
        let before = refresh(fewer, peer, ranges, timeout, clock);
        let step = refresh(claims, peer, ranges, timeout, clock);
        lemma_refresh_timeouts(fewer, peer, ranges, timeout, clock);
        assert forall|i: int| 0 <= i < claims.len() implies is_visited(
            claims[i],
            #[trigger] step.entries[i],
            peer,
            timeout,
            clock,
            step.reads,
            step.dropped,
        ) by {
            if i < fewer.len() {
                assert(step.entries[i] == before.entries[i]);
                assert(is_visited(
                    fewer[i],
                    before.entries[i],
                    peer,
                    timeout,
                    clock,
                    before.reads,
                    before.dropped,
                ));
            } else if step.reads > before.reads {
                assert(step.entries[i].timeout == deadline_spec(clock(before.reads), timeout));
            }
        }
    }
}

// ## Series of calls

/// A call of the table, with the times that the clock shows when it is read.
pub enum Call {
    SetClaims { peer: PeerAddr, ranges: Seq<Range>, times: Seq<Time> },
    RemoveClaims { peer: PeerAddr, now: Time },
    Lookup { addr: Address, now: Time },
    ClearCache,
    Housekeep { now: Time },
}

impl Call {
    /// Whether the arguments are well formed, and there is a time for each reading
    /// of the clock.
    pub open spec fn valid(self) -> bool {
        match self {
            Call::SetClaims { peer, ranges, times } => {
                &&& forall|r: int| 0 <= r < ranges.len() ==> (#[trigger] ranges[r]).valid()
                &&& times.len() == ranges.len() + 1
            },
            Call::Lookup { addr, now } => addr.valid(),
            _ => true,
        }
    }

    /// What the call makes of a table.
    pub open spec fn result(self, state: TableState) -> TableState {
        match self {
            Call::SetClaims { peer, ranges, times } => state.claims_set(
                peer,
                ranges,
                recorded_clock(times),
            ),
            Call::RemoveClaims { peer, now } => state.claims_removed(peer, now),
            Call::Lookup { addr, now } => state.looked_up(addr, now),
            Call::ClearCache => state.cache_cleared(),
            Call::Housekeep { now } => state.housekept(now),
        }
    }

    /// The times that the clock shows during the call. A lookup may read the clock
    /// or not, and what it reads does not matter here.
    pub open spec fn times(self) -> Seq<Time> {
        match self {
            Call::SetClaims { peer, ranges, times } => times,
            Call::RemoveClaims { peer, now } => seq![now],
            Call::Housekeep { now } => seq![now],
            _ => Seq::empty(),
        }
    }
}

/// What a series of calls makes of a table.
pub open spec fn run(start: TableState, calls: Seq<Call>) -> TableState
    decreases calls.len(),
{
    if calls.len() == 0 {
        start
    } else {
        calls.last().result(run(start, calls.drop_last()))
    }
}

/// The times that the clock shows during a series of calls.
pub open spec fn readings(calls: Seq<Call>) -> Seq<Time>
    decreases calls.len(),
{
    if calls.len() == 0 {
        Seq::empty()
    } else {
        readings(calls.drop_last()) + calls.last().times()
    }
}

/// Whether the clock shows times after zero only, never goes back, and stays so far
/// from the last time there is that a claim can be made.
pub open spec fn is_steady(times: Seq<Time>, claim_timeout: Duration) -> bool {
    &&& forall|i: int| 0 <= i < times.len() ==> 0 < #[trigger] times[i] <= Time::MAX - claim_timeout
    &&& forall|i: int, j: int| 0 <= i <= j < times.len() ==> times[i] <= times[j]
}

/// The last time that the clock has shown; zero if it has not been read.
spec fn latest(times: Seq<Time>) -> Time {
    if times.len() == 0 {
        0
    } else {
        times.last()
    }
}

/// Whether no table on the way holds more claims than memory can.
pub open spec fn fits(start: TableState, calls: Seq<Call>) -> bool {
    forall|n: int|
        0 <= n <= calls.len() ==> (#[trigger] run(start, calls.take(n))).claims.len() <= usize::MAX
}

/// After any series of calls on a new table, every address that the table remembers
/// is backed by a claim of its peer that covers it and times out no earlier. The
/// clock must show times after zero, must not go back, and deadlines must be times.
pub proof fn remembered_addresses_stay_backed(
    cache_timeout: Duration,
    claim_timeout: Duration,
    calls: Seq<Call>,
)
    requires
        forall|n: int| 0 <= n < calls.len() ==> (#[trigger] calls[n]).valid(),
        is_steady(readings(calls), claim_timeout),
        fits(TableState::empty(cache_timeout, claim_timeout), calls),
    ensures
        is_backed(run(TableState::empty(cache_timeout, claim_timeout), calls)),
{
    lemma_run_is_backed(cache_timeout, claim_timeout, calls);
}

proof fn lemma_run_is_backed(cache_timeout: Duration, claim_timeout: Duration, calls: Seq<Call>)
    requires
        forall|n: int| 0 <= n < calls.len() ==> (#[trigger] calls[n]).valid(),
        is_steady(readings(calls), claim_timeout),
        fits(TableState::empty(cache_timeout, claim_timeout), calls),
    ensures
        ({
            let state = run(TableState::empty(cache_timeout, claim_timeout), calls);
            &&& is_backed(state)
            &&& is_recent(state, latest(readings(calls)))
            &&& state.claim_timeout == claim_timeout
        }),
    decreases calls.len(),
{
    let start = TableState::empty(cache_timeout, claim_timeout);
    if calls.len() == 0 {
        empty_table_is_backed(cache_timeout, claim_timeout, 0);
    } else {
        let fewer = calls.drop_last();
        let call = calls.last();
        let earlier = readings(fewer);
        let all = readings(calls);
        let before = run(start, fewer);
        assert forall|i: int| 0 <= i < earlier.len() implies #[trigger] earlier[i] == all[i] by {}
        assert forall|n: int| 0 <= n <= fewer.len() implies (#[trigger] run(
            start,
            fewer.take(n),
        )).claims.len() <= usize::MAX by {
            assert(fewer.take(n) =~= calls.take(n));
        }
        assert(fewer.take(fewer.len() as int) =~= fewer);
        lemma_run_is_backed(cache_timeout, claim_timeout, fewer);
        let last = latest(earlier);
        assert(call.valid());
        match call {
            Call::SetClaims { peer, ranges, times } => {
                let clock = recorded_clock(times);
                assert forall|k: nat| k <= ranges.len() implies last <= #[trigger] clock(k)
                    <= clock(ranges.len()) by {
                    assert(clock(k) == all[(earlier.len() + k) as int]);
                    assert(clock(ranges.len()) == all[all.len() - 1]);
                }
                assert(clock(ranges.len()) == all.last());
                setting_claims_keeps_backing(before, peer, ranges, clock, last);
            },
            Call::RemoveClaims { peer, now } => {
                removing_claims_keeps_backing(before, peer, now, last);
                assert(all.last() == now && last <= now);
            },
            Call::Lookup { addr, now } => {
                assert(all =~= earlier);
                lookup_keeps_backing(before, addr, now, last);
            },
            Call::ClearCache => {
                assert(all =~= earlier);
                clearing_the_cache_keeps_backing(before, last);
            },
            Call::Housekeep { now } => {
                housekeeping_keeps_backing(before, now, last);
                assert(all.last() == now && last <= now);
            },
        }
    }
}

/// After any such series of calls and housekeeping at `now`, every address that the
/// table remembers is backed by a claim of its peer that covers it and has not timed
/// out.
pub proof fn housekept_addresses_have_live_claims(
    cache_timeout: Duration,
    claim_timeout: Duration,
    calls: Seq<Call>,
    now: Time,
    addr: Address,
)
    requires
        forall|n: int| 0 <= n < calls.len() ==> (#[trigger] calls[n]).valid(),
        is_steady(readings(calls), claim_timeout),
        fits(TableState::empty(cache_timeout, claim_timeout), calls),
        addr.valid(),
        run(TableState::empty(cache_timeout, claim_timeout), calls).housekept(
            now,
        ).cache.contains_key(addr.key_spec()),
    ensures
        ({
            let after = run(TableState::empty(cache_timeout, claim_timeout), calls).housekept(now);
            exists|i: int|
                {
                    &&& 0 <= i < after.claims.len()
                    &&& backs(#[trigger] after.claims[i], addr, after.cache[addr.key_spec()])
                    &&& after.claims[i].timeout >= now
                }
        }),
{
    let state = run(TableState::empty(cache_timeout, claim_timeout), calls);
    remembered_addresses_stay_backed(cache_timeout, claim_timeout, calls);
    remembered_addresses_have_live_claims(state, now, addr);
}

} // verus!
