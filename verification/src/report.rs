//! The lines of a printed claim table.
use crate::cache::CacheValue;
use crate::state::{remaining_spec, ClaimEntry, TableState};
use crate::types::{Address, AddressKey, PeerAddr, Range, Time};
use vstd::prelude::*;

verus! {

/// A decimal digit.
pub open spec fn digit_text(d: nat) -> char {
    (48 + d) as char
}

/// A number in decimal notation.
pub open spec fn decimal(n: nat) -> Seq<char>
    decreases n,
{
    if n < 10 {
        seq![digit_text(n)]
    } else {
        decimal(n / 10).push(digit_text(n % 10))
    }
}

/// A time in decimal notation, with a sign if it is negative.
pub open spec fn time_text(time: Time) -> Seq<char> {
    if time < 0 {
        seq!['-'] + decimal((-time) as nat)
    } else {
        decimal(time as nat)
    }
}

/// The line for a claim or an address that belongs to a peer.
pub open spec fn row_text(subject: Seq<char>, peer: Seq<char>, timeout: Time) -> Seq<char> {
    "    - \""@ + subject + "\": { peer: \""@ + peer + "\", timeout: "@ + time_text(timeout)
        + " }"@
}

/// Whether a line is the one for a claim, as of `now`, with the texts that
/// `range_text` and `peer_text` give.
pub open spec fn is_claim_line<R: Fn(Range) -> String, P: Fn(PeerAddr) -> String>(
    line: Seq<char>,
    entry: ClaimEntry,
    now: Time,
    range_text: R,
    peer_text: P,
) -> bool {
    exists|subject: String, peer: String|
        {
            &&& #[trigger] call_ensures(range_text, (entry.claim,), subject)
            &&& #[trigger] call_ensures(peer_text, (entry.peer,), peer)
            &&& line == row_text(subject@, peer@, remaining_spec(entry.timeout, now))
        }
}

/// Whether a line is the one for the address with the given key, as of `now`,
/// with the texts that `addr_text` and `peer_text` give.
pub open spec fn is_cache_line<A: Fn(Address) -> String, P: Fn(PeerAddr) -> String>(
    line: Seq<char>,
    key: AddressKey,
    value: CacheValue,
    now: Time,
    addr_text: A,
    peer_text: P,
) -> bool {
    exists|addr: Address, subject: String, peer: String|
        {
            &&& addr.valid()
            &&& addr.key_spec() == key
            &&& #[trigger] call_ensures(addr_text, (addr,), subject)
            &&& #[trigger] call_ensures(peer_text, (value.peer,), peer)
            &&& line == row_text(subject@, peer@, remaining_spec(value.timeout, now))
        }
}

/// Whether the lines show what a table holds, as of `now`: the claims in their
/// order, then the addresses that the table remembers, each once, in the order
/// of `keys`.
pub open spec fn is_report<
    R: Fn(Range) -> String,
    A: Fn(Address) -> String,
    P: Fn(PeerAddr) -> String,
>(
    lines: Seq<String>,
    state: TableState,
    keys: Seq<AddressKey>,
    now: Time,
    range_text: R,
    addr_text: A,
    peer_text: P,
) -> bool {
    let n = state.claims.len() as int;
    &&& keys.no_duplicates()
    &&& keys.to_set() == state.cache.dom()
    &&& lines.len() == 3 + n + keys.len()
    &&& lines[0]@ == "forwarding_table:"@
    &&& lines[1]@ == "  claims:"@
    &&& forall|i: int|
        2 <= i < 2 + n ==> is_claim_line(
            (#[trigger] lines[i])@,
            state.claims[i - 2],
            now,
            range_text,
            peer_text,
        )
    &&& lines[2 + n]@ == "  cache:"@
    &&& forall|i: int|
        3 + n <= i < lines.len() ==> is_cache_line(
            (#[trigger] lines[i])@,
            keys[i - 3 - n],
            state.cache[keys[i - 3 - n]],
            now,
            addr_text,
            peer_text,
        )
}

/// A decimal digit.
fn digit(d: u64) -> (text: &'static str)
    requires
        d < 10,
    ensures
        text@ == seq![digit_text(d as nat)],
{
    proof {
        reveal_strlit("0");
        reveal_strlit("1");
        reveal_strlit("2");
        reveal_strlit("3");
        reveal_strlit("4");
        reveal_strlit("5");
        reveal_strlit("6");
        reveal_strlit("7");
        reveal_strlit("8");
        reveal_strlit("9");
    }
    match d {
        0 => "0",
        1 => "1",
        2 => "2",
        3 => "3",
        4 => "4",
        5 => "5",
        6 => "6",
        7 => "7",
        8 => "8",
        _ => "9",
    }
}

/// Appends a number in decimal notation.
fn append_decimal(text: &mut String, n: u64)
    ensures
        final(text)@ == old(text)@ + decimal(n as nat),
    decreases n,
{
    if n >= 10 {
        append_decimal(text, n / 10);
    }
    text.append(digit(n % 10));
    assert(text@ =~= old(text)@ + decimal(n as nat));
}

/// Appends a time in decimal notation.
fn append_time(text: &mut String, time: Time)
    ensures
        final(text)@ == old(text)@ + time_text(time),
{
    if time < 0 {
        proof {
            reveal_strlit("-");
        }
        text.append("-");
        let magnitude: u64 = (-(time + 1)) as u64 + 1;
        append_decimal(text, magnitude);
        assert("-"@ =~= seq!['-']);
        assert(text@ =~= old(text)@ + time_text(time));
    } else {
        append_decimal(text, time as u64);
    }
}

/// The line for a claim or an address that belongs to a peer.
pub fn row(subject: &str, peer: &str, timeout: Time) -> (line: String)
    ensures
        line@ == row_text(subject@, peer@, timeout),
{
    let mut line: String = "    - \"".to_owned();
    line.append(subject);
    line.append("\": { peer: \"");
    line.append(peer);
    line.append("\", timeout: ");
    append_time(&mut line, timeout);
    line.append(" }");
    line
}

} // verus!
