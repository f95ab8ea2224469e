//! What a claim table holds, and what each operation makes of it.
use crate::cache::{CacheValue, Sweep};
use crate::trie::{longest_prefix, longest_prefix_is_longest};
use crate::types::{is_key, Address, AddressKey, Duration, PeerAddr, Range, Time};
use vstd::prelude::*;

verus! {

/// A range that a peer has claimed.
#[derive(Clone, Copy, Debug)]
pub struct ClaimEntry {
    pub peer: PeerAddr,
    pub claim: Range,
    pub timeout: Time,
}

/// The time that lies `timeout` seconds after `now`. Beyond the last time there
/// is, it wraps around, as an addition without overflow checks does.
pub open spec fn deadline_spec(now: Time, timeout: Duration) -> Time {
    if now + timeout <= Time::MAX {
        (now + timeout) as Time
    } else {
        (now + timeout - 0x1_0000_0000_0000_0000) as Time
    }
}

/// The time that lies `timeout` seconds after `now`.
pub fn deadline(now: Time, timeout: Duration) -> (time: Time)
    ensures
        time == deadline_spec(now, timeout),
        now + timeout <= 0x7fff_ffff_ffff_ffff ==> time == now + timeout,
{
    now.wrapping_add(timeout as Time)
}

/// The seconds from `now` to `timeout`. Where there are too many of them, it wraps
/// around, as a subtraction without overflow checks does.
pub open spec fn remaining_spec(timeout: Time, now: Time) -> Time {
    if timeout - now > Time::MAX {
        (timeout - now - 0x1_0000_0000_0000_0000) as Time
    } else if timeout - now < Time::MIN {
        (timeout - now + 0x1_0000_0000_0000_0000) as Time
    } else {
        (timeout - now) as Time
    }
}

/// The seconds from `now` to `timeout`.
pub fn remaining(timeout: Time, now: Time) -> (seconds: Time)
    ensures
        seconds == remaining_spec(timeout, now),
        -0x8000_0000_0000_0000 <= timeout - now <= 0x7fff_ffff_ffff_ffff ==> now + seconds
            == timeout,
{
    timeout.wrapping_sub(now)
}

/// Holds of the claims that have not timed out at `now`.
pub open spec fn live_at(now: Time) -> spec_fn(ClaimEntry) -> bool {
    |entry: ClaimEntry| entry.timeout >= now
}

/// The claims by their prefixes. Of several claims with one prefix the last one
/// counts.
pub open spec fn claim_index(claims: Seq<ClaimEntry>) -> Map<Seq<bool>, usize>
    decreases claims.len(),
{
    if claims.len() == 0 {
        Map::empty()
    } else {
        claim_index(claims.drop_last()).insert(
            claims.last().claim.prefix(),
            (claims.len() - 1) as usize,
        )
    }
}

/// Whether `path` lies on the way to the prefix of a claim, or is empty.
pub open spec fn on_the_way(claims: Seq<ClaimEntry>, path: Seq<bool>) -> bool {
    path.len() == 0 || exists|i: int|
        0 <= i < claims.len() && path.is_prefix_of((#[trigger] claims[i]).claim.prefix())
}

/// The claim that an address with the given bits belongs to.
pub open spec fn route(claims: Seq<ClaimEntry>, bits: Seq<bool>) -> Option<usize> {
    longest_prefix(claim_index(claims), bits)
}

/// The index holds a prefix if and only if a claim has it, and then says which
/// claim is the last one that does.
pub proof fn claim_index_holds_the_last_claims(claims: Seq<ClaimEntry>)
    requires
        claims.len() <= usize::MAX,
    ensures
        forall|prefix: Seq<bool>| #[trigger]
            claim_index(claims).contains_key(prefix) ==> {
                let i = claim_index(claims)[prefix];
                &&& i < claims.len()
                &&& claims[i as int].claim.prefix() == prefix
            },
        forall|i: int|
            0 <= i < claims.len() ==> {
                let prefix = (#[trigger] claims[i]).claim.prefix();
                &&& claim_index(claims).contains_key(prefix)
                &&& i <= claim_index(claims)[prefix]
            },
    decreases claims.len(),
{
    if claims.len() > 0 {
        let fewer = claims.drop_last();
        claim_index_holds_the_last_claims(fewer);
        assert forall|i: int| 0 <= i < claims.len() implies {
            let prefix = (#[trigger] claims[i]).claim.prefix();
            &&& claim_index(claims).contains_key(prefix)
            &&& i <= claim_index(claims)[prefix]
        } by {
            if i < fewer.len() {
                assert(fewer[i] == claims[i]);
            }
        }
    }
}

/// Whether claim `best` covers `bits`, no claim that covers them has a longer
/// prefix, and none behind it has one as long.
pub open spec fn is_best(claims: Seq<ClaimEntry>, bits: Seq<bool>, best: int) -> bool {
    &&& 0 <= best < claims.len()
    &&& claims[best].claim.covers(bits)
    &&& forall|i: int|
        0 <= i < claims.len() && (#[trigger] claims[i]).claim.covers(bits) ==> {
            let len = claims[i].claim.prefix().len();
            let best_len = claims[best].claim.prefix().len();
            len < best_len || (len == best_len && i <= best)
        }
}

/// Whether `found` is the claim that covers `bits` with the longest prefix, and the
/// last one of several such, or nothing if no claim covers them.
pub open spec fn is_longest_match(
    claims: Seq<ClaimEntry>,
    bits: Seq<bool>,
    found: Option<usize>,
) -> bool {
    match found {
        Some(best) => is_best(claims, bits, best as int),
        None => forall|i: int|
            0 <= i < claims.len() ==> !(#[trigger] claims[i]).claim.covers(bits),
    }
}

/// The claim that an address belongs to covers it. No claim that covers it has
/// a longer prefix, and none that was made later has one as long. An address
/// belongs to no claim if and only if no claim covers it.
pub proof fn route_is_the_longest_match(claims: Seq<ClaimEntry>, bits: Seq<bool>)
    requires
        claims.len() <= usize::MAX,
    ensures
        is_longest_match(claims, bits, route(claims, bits)),
{
    let index = claim_index(claims);
    claim_index_holds_the_last_claims(claims);
    longest_prefix_is_longest(index, bits);
    assert forall|i: int|
        0 <= i < claims.len() && (#[trigger] claims[i]).claim.covers(bits) implies bits.take(
        claims[i].claim.prefix().len() as int,
    ) == claims[i].claim.prefix() by {
        let prefix = claims[i].claim.prefix();
        assert(bits.take(prefix.len() as int) =~= prefix);
    }
    if let Some(best) = route(claims, bits) {
        let n = choose|n: int|
            {
                &&& 0 <= n <= bits.len()
                &&& index.contains_key(#[trigger] bits.take(n))
                &&& index[bits.take(n)] == best
                &&& forall|k: int|
                    n < k <= bits.len() ==> !index.contains_key(#[trigger] bits.take(k))
            };
        assert(claims[best as int].claim.prefix() == bits.take(n));
    }
}

/// The first of the ranges from index `from` on that is the same as `claim`.
pub open spec fn first_same(ranges: Seq<Range>, claim: Range, from: int) -> Option<int>
    decreases ranges.len() - from,
{
    if from >= ranges.len() {
        None
    } else if ranges[from].same(claim) {
        Some(from)
    } else {
        first_same(ranges, claim, from + 1)
    }
}

/// What remains of a list when the last element takes the place of another.
pub open spec fn swap_removed<A>(s: Seq<A>, i: int) -> Seq<A> {
    s.update(i, s.last()).drop_last()
}

/// How far a peer's new list of ranges has been held against the claims that
/// the table has.
#[verifier::ext_equal]
pub struct Refresh {
    /// The claims that have been visited, as they are now.
    pub entries: Seq<ClaimEntry>,
    /// The ranges that the peer does not have a claim for yet.
    pub pending: Seq<Range>,
    /// Whether a claim of the peer was not among its ranges.
    pub dropped: bool,
    /// Whether the last range has found its claim.
    pub done: bool,
    /// How often the clock has been read.
    pub reads: nat,
}

impl Refresh {
    /// Before the first claim is visited.
    pub open spec fn start(ranges: Seq<Range>) -> Refresh {
        Refresh { entries: Seq::empty(), pending: ranges, dropped: false, done: false, reads: 0 }
    }

    /// Visits one more claim. If it is the peer's and among the ranges, it is
    /// renewed, and the range is taken off the list; if it is the peer's and not
    /// among them, it times out. Once the list has become empty, claims stay as
    /// they are.
    pub open spec fn visit(
        self,
        entry: ClaimEntry,
        peer: PeerAddr,
        timeout: Duration,
        clock: spec_fn(nat) -> Time,
    ) -> Refresh {
        if self.done || entry.peer != peer {
            Refresh { entries: self.entries.push(entry), ..self }
        } else {
            match first_same(self.pending, entry.claim, 0) {
                Some(i) => Refresh {
                    entries: self.entries.push(
                        ClaimEntry { timeout: deadline_spec(clock(self.reads), timeout), ..entry },
                    ),
                    pending: swap_removed(self.pending, i),
                    dropped: self.dropped,
                    done: self.pending.len() == 1,
                    reads: self.reads + 1,
                },
                None => Refresh {
                    entries: self.entries.push(ClaimEntry { timeout: 0, ..entry }),
                    dropped: true,
                    ..self
                },
            }
        }
    }
}

/// Holds a peer's new list of ranges against the claims that the table has. The
/// `k`-th time that the clock is read, it shows `clock(k)`.
pub open spec fn refresh(
    claims: Seq<ClaimEntry>,
    peer: PeerAddr,
    ranges: Seq<Range>,
    timeout: Duration,
    clock: spec_fn(nat) -> Time,
) -> Refresh
    decreases claims.len(),
{
    if claims.len() == 0 {
        Refresh::start(ranges)
    } else {
        refresh(claims.drop_last(), peer, ranges, timeout, clock).visit(
            claims.last(),
            peer,
            timeout,
            clock,
        )
    }
}

/// A clock that stands still.
pub open spec fn stopped_clock(now: Time) -> spec_fn(nat) -> Time {
    |k: nat| now
}

/// A clock that shows the given times, and goes on showing the last one.
pub open spec fn recorded_clock(times: Seq<Time>) -> spec_fn(nat) -> Time {
    |k: nat|
        if k < times.len() {
            times[k as int]
        } else {
            times.last()
        }
}

/// Every claim is visited once, and what it claims does not change.
pub(crate) proof fn lemma_refresh_keeps_claims(
    claims: Seq<ClaimEntry>,
    peer: PeerAddr,
    ranges: Seq<Range>,
    timeout: Duration,
    clock: spec_fn(nat) -> Time,
)
    ensures
        ({
            let entries = refresh(claims, peer, ranges, timeout, clock).entries;
            &&& entries.len() == claims.len()
            &&& forall|i: int|
                0 <= i < claims.len() ==> {
                    &&& (#[trigger] entries[i]).claim == claims[i].claim
                    &&& entries[i].peer == claims[i].peer
                }
        }),
    decreases claims.len(),
{
    if claims.len() > 0 {
        lemma_refresh_keeps_claims(claims.drop_last(), peer, ranges, timeout, clock);
    }
}

/// What `first_same` finds.
pub(crate) proof fn lemma_first_same(ranges: Seq<Range>, claim: Range, from: int)
    requires
        0 <= from,
    ensures
        match first_same(ranges, claim, from) {
            Some(i) => from <= i < ranges.len() && ranges[i].same(claim),
            None => forall|i: int| from <= i < ranges.len() ==> !(#[trigger] ranges[i]).same(claim),
        },
    decreases ranges.len() - from,
{
    if from < ranges.len() {
        lemma_first_same(ranges, claim, from + 1);
    }
}

/// Each range on the list gets one claim: as many claims are renewed, each with
/// one look at the clock, as ranges are taken off the list.
pub(crate) proof fn lemma_refresh_counts(
    claims: Seq<ClaimEntry>,
    peer: PeerAddr,
    ranges: Seq<Range>,
    timeout: Duration,
    clock: spec_fn(nat) -> Time,
)
    ensures
        ({
            let step = refresh(claims, peer, ranges, timeout, clock);
            &&& step.reads + step.pending.len() == ranges.len()
            &&& step.entries.len() == claims.len()
            &&& step.done ==> step.pending.len() == 0
        }),
    decreases claims.len(),
{
    if claims.len() > 0 {
        let before = refresh(claims.drop_last(), peer, ranges, timeout, clock);
        lemma_refresh_counts(claims.drop_last(), peer, ranges, timeout, clock);
        lemma_first_same(before.pending, claims.last().claim, 0);
    }
}

/// Only the times that the clock shows when it is read matter.
pub(crate) proof fn lemma_refresh_reads_the_clock(
    claims: Seq<ClaimEntry>,
    peer: PeerAddr,
    ranges: Seq<Range>,
    timeout: Duration,
    clock: spec_fn(nat) -> Time,
    other: spec_fn(nat) -> Time,
)
    requires
        forall|k: nat|
            k < refresh(claims, peer, ranges, timeout, clock).reads ==> clock(k) == #[trigger] other(
                k,
            ),
    ensures
        refresh(claims, peer, ranges, timeout, clock) == refresh(
            claims,
            peer,
            ranges,
            timeout,
            other,
        ),
    decreases claims.len(),
{
    if claims.len() > 0 {
        lemma_refresh_reads_the_clock(claims.drop_last(), peer, ranges, timeout, clock, other);
    }
}

/// Once the last range has found its claim, the other claims stay as they are.
pub(crate) proof fn lemma_refresh_is_done(
    claims: Seq<ClaimEntry>,
    n: int,
    peer: PeerAddr,
    ranges: Seq<Range>,
    timeout: Duration,
    clock: spec_fn(nat) -> Time,
)
    requires
        0 <= n <= claims.len(),
        refresh(claims.take(n), peer, ranges, timeout, clock).done,
    ensures
        refresh(claims, peer, ranges, timeout, clock) == (Refresh {
            entries: refresh(claims.take(n), peer, ranges, timeout, clock).entries + claims.skip(n),
            ..refresh(claims.take(n), peer, ranges, timeout, clock)
        }),
    decreases claims.len() - n,
{
    if n == claims.len() {
        assert(claims.take(n) =~= claims);
        assert(claims.skip(n) =~= Seq::<ClaimEntry>::empty());
        let all = refresh(claims, peer, ranges, timeout, clock);
        assert(all.entries + claims.skip(n) =~= all.entries);
    } else {
        let fewer = claims.drop_last();
        assert(fewer.take(n) =~= claims.take(n));
        lemma_refresh_is_done(fewer, n, peer, ranges, timeout, clock);
        assert(fewer.skip(n).push(claims.last()) =~= claims.skip(n));
        let head = refresh(claims.take(n), peer, ranges, timeout, clock).entries;
        assert((head + fewer.skip(n)).push(claims.last()) =~= head + claims.skip(n));
    }
}

/// What a claim table holds.
#[verifier::ext_equal]
pub struct TableState {
    /// The addresses that the table remembers, by their keys.
    pub cache: Map<AddressKey, CacheValue>,
    /// How long an address is remembered.
    pub cache_timeout: Duration,
    /// The claims, in the order in which they were made.
    pub claims: Seq<ClaimEntry>,
    /// How long a claim lasts.
    pub claim_timeout: Duration,
}

impl TableState {
    /// A table that holds nothing.
    pub open spec fn empty(cache_timeout: Duration, claim_timeout: Duration) -> TableState {
        TableState { cache: Map::empty(), cache_timeout, claims: Seq::empty(), claim_timeout }
    }

    /// What holds of every table: finitely many addresses are remembered, and
    /// they and the claimed ranges are well formed.
    pub open spec fn valid(self) -> bool {
        &&& self.cache.dom().finite()
        &&& forall|key: AddressKey| #[trigger] self.cache.contains_key(key) ==> is_key(key)
        &&& forall|i: int| 0 <= i < self.claims.len() ==> (#[trigger] self.claims[i]).claim.valid()
    }

    /// Remembers for `cache_timeout` that an address belongs to a peer.
    pub open spec fn cached(self, addr: Address, peer: PeerAddr, now: Time) -> TableState {
        let timeout = deadline_spec(now, self.cache_timeout);
        TableState {
            cache: self.cache.insert(addr.key_spec(), CacheValue { peer, timeout }),
            ..self
        }
    }

    /// Forgets all addresses.
    pub open spec fn cache_cleared(self) -> TableState {
        TableState { cache: Map::empty(), ..self }
    }

    /// Drops the addresses and the claims that have timed out.
    pub open spec fn housekept(self, now: Time) -> TableState {
        TableState {
            cache: (Sweep::Expire { now }).result(self.cache),
            claims: self.claims.filter(live_at(now)),
            ..self
        }
    }

    /// Lets all claims and all addresses of a peer time out.
    pub open spec fn invalidated(self, peer: PeerAddr) -> TableState {
        TableState {
            cache: (Sweep::Invalidate { peer }).result(self.cache),
            claims: self.claims.map_values(
                |entry: ClaimEntry|
                    if entry.peer == peer {
                        ClaimEntry { timeout: 0, ..entry }
                    } else {
                        entry
                    },
            ),
            ..self
        }
    }

    /// Removes all claims of a peer.
    pub open spec fn claims_removed(self, peer: PeerAddr, now: Time) -> TableState {
        self.invalidated(peer).housekept(now)
    }

    /// Holds a peer's new list of ranges against the claims in the table.
    pub open spec fn refresh(
        self,
        peer: PeerAddr,
        ranges: Seq<Range>,
        clock: spec_fn(nat) -> Time,
    ) -> Refresh {
        refresh(self.claims, peer, ranges, self.claim_timeout, clock)
    }

    /// The table before its last step: the claims of `peer` are renewed or
    /// timed out, new ones stand at the end, and if one timed out, so have the
    /// addresses of `peer`.
    pub open spec fn claims_refreshed(
        self,
        peer: PeerAddr,
        ranges: Seq<Range>,
        clock: spec_fn(nat) -> Time,
    ) -> TableState {
        let refresh = self.refresh(peer, ranges, clock);
        let added = Seq::new(
            refresh.pending.len(),
            |i: int|
                ClaimEntry {
                    peer,
                    claim: refresh.pending[i],
                    timeout: deadline_spec(clock((refresh.reads + i) as nat), self.claim_timeout),
                },
        );
        TableState {
            cache: if refresh.dropped {
                (Sweep::Invalidate { peer }).result(self.cache)
            } else {
                self.cache
            },
            claims: refresh.entries + added,
            ..self
        }
    }

    /// Sets the ranges that a peer claims. The clock is read once for each range,
    /// when its claim is renewed or made, and once more for the housekeeping; the
    /// `k`-th time, it shows `clock(k)`.
    pub open spec fn claims_set(
        self,
        peer: PeerAddr,
        ranges: Seq<Range>,
        clock: spec_fn(nat) -> Time,
    ) -> TableState {
        self.claims_refreshed(peer, ranges, clock).housekept(clock(ranges.len()))
    }

    /// The peer that an address belongs to: the one that the table remembers
    /// for it or else the one whose claim has the longest prefix of it.
    pub open spec fn peer_of(self, addr: Address) -> Option<PeerAddr> {
        if self.cache.contains_key(addr.key_spec()) {
            Some(self.cache[addr.key_spec()].peer)
        } else {
            match route(self.claims, addr.bits()) {
                Some(i) => Some(self.claims[i as int].peer),
                None => None,
            }
        }
    }

    /// Whether a lookup finds the address among the claims, not in the cache.
    pub open spec fn found_by_claim(self, addr: Address) -> bool {
        !self.cache.contains_key(addr.key_spec()) && route(self.claims, addr.bits()) is Some
    }

    /// Remembers what a lookup found among the claims, for `cache_timeout` but
    /// not for longer than the claim lasts.
    pub open spec fn looked_up(self, addr: Address, now: Time) -> TableState {
        if self.found_by_claim(addr) {
            let entry = self.claims[route(self.claims, addr.bits())->0 as int];
            let limit = deadline_spec(now, self.cache_timeout);
            let timeout = if limit < entry.timeout {
                limit
            } else {
                entry.timeout
            };
            TableState {
                cache: self.cache.insert(
                    addr.key_spec(),
                    CacheValue { peer: entry.peer, timeout },
                ),
                ..self
            }
        } else {
            self
        }
    }
}

/// A sweep leaves finitely many addresses in the cache.
pub(crate) proof fn lemma_sweep_is_valid(cache: Map<AddressKey, CacheValue>, sweep: Sweep)
    requires
        cache.dom().finite(),
    ensures
        sweep.result(cache).dom().finite(),
{
    assert(sweep.result(cache).dom().subset_of(cache.dom()));
    vstd::set_lib::lemma_set_subset_finite(cache.dom(), sweep.result(cache).dom());
}

/// Housekeeping leaves a valid table valid.
pub proof fn lemma_housekept_is_valid(state: TableState, now: Time)
    requires
        state.valid(),
    ensures
        state.housekept(now).valid(),
{
    lemma_sweep_is_valid(state.cache, Sweep::Expire { now });
    let kept = state.claims.filter(live_at(now));
    assert forall|i: int| 0 <= i < kept.len() implies (#[trigger] kept[i]).claim.valid() by {
        assert(kept.contains(kept[i]));
        state.claims.lemma_filter_contains_rev(live_at(now), kept[i]);
    }
}

/// Letting a peer's claims and addresses time out leaves a valid table valid.
pub proof fn lemma_invalidated_is_valid(state: TableState, peer: PeerAddr)
    requires
        state.valid(),
    ensures
        state.invalidated(peer).valid(),
{
    lemma_sweep_is_valid(state.cache, Sweep::Invalidate { peer });
    let claims = state.invalidated(peer).claims;
    assert forall|i: int| 0 <= i < claims.len() implies (#[trigger] claims[i]).claim.valid() by {
        assert(state.claims[i].claim.valid());
    }
}

} // verus!
