//! Addresses, address ranges, peers and time.
use vstd::prelude::*;
use vstd::std_specs::cmp::PartialEqSpecImpl;

verus! {

/// A point in time, in seconds.
pub type Time = i64;

/// A span of time, in seconds.
pub type Duration = u32;

/// The bytes that an [`Address`] has room for.
pub const MAX_ADDRESS_LEN: usize = 16;

/// Bit `k` of a byte, counted from the most significant one.
pub open spec fn byte_bit(byte: u8, k: int) -> bool {
    (byte >> ((7 - k) as u8)) & 1 == 1
}

/// The bits of a sequence of bytes, each byte from its most significant bit on.
pub open spec fn bits_of(bytes: Seq<u8>) -> Seq<bool> {
    Seq::new(8 * bytes.len(), |i: int| byte_bit(bytes[i / 8], i % 8))
}

/// The number that bytes write down to the base 256, the most significant one
/// first.
pub open spec fn be_value(bytes: Seq<u8>) -> nat
    decreases bytes.len(),
{
    if bytes.len() == 0 {
        0
    } else {
        be_value(bytes.drop_last()) * 256 + bytes.last() as nat
    }
}

/// The least number that takes more than `n` bytes to write down.
pub open spec fn key_limit(n: nat) -> nat
    decreases n,
{
    if n == 0 {
        1
    } else {
        256 * key_limit((n - 1) as nat)
    }
}

/// An address as a pair of numbers: how many bytes it has, and the number that
/// these write down.
pub type AddressKey = (u8, u128);

/// Whether the pair stands for an address.
pub open spec fn is_key(key: AddressKey) -> bool {
    key.0 <= MAX_ADDRESS_LEN && key.1 < key_limit(key.0 as nat)
}

proof fn lemma_be_value_is_below_limit(bytes: Seq<u8>)
    ensures
        be_value(bytes) < key_limit(bytes.len()),
    decreases bytes.len(),
{
    if bytes.len() > 0 {
        lemma_be_value_is_below_limit(bytes.drop_last());
    }
}

proof fn lemma_key_limit_fits(n: nat)
    requires
        n <= MAX_ADDRESS_LEN,
    ensures
        key_limit(n) <= u128::MAX + 1,
    decreases MAX_ADDRESS_LEN - n,
{
    if n == MAX_ADDRESS_LEN {
        reveal_with_fuel(key_limit, 17);
        assert(key_limit(16) == 0x1_0000_0000_0000_0000_0000_0000_0000_0000);
    } else {
        lemma_key_limit_fits(n + 1);
    }
}

/// The first byte counts as often as the bytes behind it can count.
proof fn lemma_be_value_first(bytes: Seq<u8>)
    requires
        bytes.len() > 0,
    ensures
        be_value(bytes) == bytes[0] * key_limit((bytes.len() - 1) as nat) + be_value(
            bytes.drop_first(),
        ),
    decreases bytes.len(),
{
    if bytes.len() == 1 {
        assert(bytes.drop_last() =~= Seq::<u8>::empty());
        assert(bytes.drop_first() =~= Seq::<u8>::empty());
        reveal_with_fuel(be_value, 2);
        assert(bytes[0] * key_limit(0) == bytes[0]) by (nonlinear_arith)
            requires
                key_limit(0) == 1,
        ;
    } else {
        let shorter = bytes.drop_last();
        lemma_be_value_first(shorter);
        assert(shorter.drop_first() =~= bytes.drop_first().drop_last());
        let limit = key_limit((shorter.len() - 1) as nat);
        assert(key_limit(shorter.len()) == 256 * limit);
        assert(bytes[0] * limit * 256 == bytes[0] * (256 * limit)) by (nonlinear_arith);
        assert(bytes.drop_first().last() == bytes.last());
    }
}

/// Two sequences of bytes of one length that write down the same number are
/// the same.
proof fn lemma_be_value_injective(a: Seq<u8>, b: Seq<u8>)
    requires
        a.len() == b.len(),
        be_value(a) == be_value(b),
    ensures
        a == b,
    decreases a.len(),
{
    if a.len() > 0 {
        lemma_be_value_injective(a.drop_last(), b.drop_last());
        assert(a =~= a.drop_last().push(a.last()));
        assert(b =~= b.drop_last().push(b.last()));
    } else {
        assert(a =~= b);
    }
}

/// A network address: the first `len` bytes of `data`.
///
/// What `data` holds behind its first `len` bytes is no part of the address.
#[derive(Clone, Copy, Debug)]
pub struct Address {
    pub data: [u8; 16],
    pub len: u8,
}

impl View for Address {
    type V = Seq<u8>;

    /// The bytes of the address.
    open spec fn view(&self) -> Seq<u8> {
        self.data@.take(self.len as int)
    }
}

impl Address {
    /// Whether `data` has room for `len` bytes.
    pub open spec fn valid(self) -> bool {
        self.len <= MAX_ADDRESS_LEN
    }

    /// The bits of the address, the most significant one first.
    pub open spec fn bits(self) -> Seq<bool> {
        bits_of(self@)
    }

    /// Whether the two addresses hold the same bytes.
    pub open spec fn same(self, other: Address) -> bool {
        &&& self.len == other.len
        &&& forall|i: int|
            0 <= i < self.len && i < MAX_ADDRESS_LEN ==> self.data[i] == #[trigger] other.data[i]
    }

    /// The address as a pair of numbers: how many bytes it has, and the number
    /// that these write down.
    pub open spec fn key_spec(self) -> AddressKey {
        (self.len, be_value(self@) as u128)
    }

    /// The address as a pair of numbers.
    pub fn key(&self) -> (key: AddressKey)
        requires
            self.valid(),
        ensures
            key == self.key_spec(),
            is_key(key),
    {
        let mut value: u128 = 0;
        let mut i: usize = 0;
        let ghost bytes = self@;
        while i < self.len as usize
            invariant
                self.valid(),
                bytes == self@,
                i <= self.len,
                value == be_value(bytes.take(i as int)),
            decreases self.len - i,
        {
            proof {
                let longer = bytes.take(i + 1);
                assert(longer.drop_last() =~= bytes.take(i as int));
                lemma_be_value_is_below_limit(longer);
                lemma_key_limit_fits(longer.len());
            }
            value = value * 256 + self.data[i] as u128;
            i += 1;
        }
        proof {
            assert(bytes.take(i as int) =~= bytes);
            lemma_be_value_is_below_limit(bytes);
        }
        (self.len, value)
    }

    /// The address with the given key; what `data` holds behind the address is
    /// zero.
    pub fn from_key(key: AddressKey) -> (addr: Address)
        requires
            is_key(key),
        ensures
            addr.valid(),
            addr.key_spec() == key,
            forall|i: int| key.0 <= i < MAX_ADDRESS_LEN ==> #[trigger] addr.data[i] == 0,
    {
        let len: usize = key.0 as usize;
        let mut data: [u8; 16] = [0u8; 16];
        let mut rest: u128 = key.1;
        let mut i: usize = len;
        proof {
            assert(data@.subrange(len as int, len as int) =~= Seq::<u8>::empty());
            assert(rest * key_limit(0) == rest) by (nonlinear_arith)
                requires
                    key_limit(0) == 1,
            ;
        }
        while i > 0
            invariant
                i <= len <= MAX_ADDRESS_LEN,
                rest < key_limit(i as nat),
                rest * key_limit((len - i) as nat) + be_value(data@.subrange(i as int, len as int))
                    == key.1,
                forall|j: int| len <= j < MAX_ADDRESS_LEN ==> #[trigger] data[j] == 0,
            decreases i,
        {
            let ghost before = data@.subrange(i as int, len as int);
            let ghost rest_before = rest;
            i -= 1;
            data[i] = (rest % 256) as u8;
            rest = rest / 256;
            proof {
                let after = data@.subrange(i as int, len as int);
                assert(after.drop_first() =~= before);
                lemma_be_value_first(after);
                let limit = key_limit(before.len());
                assert(rest_before == rest * 256 + after[0]);
                assert(rest_before * limit == rest * (256 * limit) + after[0] * limit)
                    by (nonlinear_arith)
                    requires
                        rest_before == rest * 256 + after[0],
                ;
            }
        }
        let addr = Address { data, len: key.0 };
        assert(addr@ =~= data@.subrange(0, len as int));
        addr
    }

    /// Bit `idx` of the address, counted from the most significant one.
    pub fn bit(&self, idx: usize) -> (bit: bool)
        requires
            self.valid(),
            idx < 8 * self.len,
        ensures
            bit == self.bits()[idx as int],
            bit == ((self.data[idx as int / 8] as int / vstd::arithmetic::power2::pow2(
                (7 - idx as int % 8) as nat,
            ) as int) % 2 == 1),
    {
        proof {
            address_bits_are_binary_digits(*self, idx as int / 8, idx as int % 8);
        }
        let byte: u8 = self.data[idx / 8];
        let shift: u8 = (7 - idx % 8) as u8;
        (byte >> shift) & 1 == 1
    }
}

impl PartialEqSpecImpl for Address {
    open spec fn obeys_eq_spec() -> bool {
        true
    }

    open spec fn eq_spec(&self, other: &Address) -> bool {
        self.same(*other)
    }
}

impl PartialEq for Address {
    fn eq(&self, other: &Address) -> (r: bool) {
        if self.len != other.len {
            return false;
        }
        let mut i: usize = 0;
        while i < self.len as usize && i < MAX_ADDRESS_LEN
            invariant
                i <= MAX_ADDRESS_LEN,
                self.len == other.len,
                forall|j: int| 0 <= j < i ==> self.data[j] == #[trigger] other.data[j],
            decreases MAX_ADDRESS_LEN - i,
        {
            if self.data[i] != other.data[i] {
                return false;
            }
            i += 1;
        }
        true
    }
}

impl Eq for Address {

}

/// An address range in CIDR notation: all addresses that start with the first
/// `prefix_len` bits of `base`.
#[derive(Clone, Copy, Debug)]
pub struct Range {
    pub base: Address,
    pub prefix_len: u8,
}

impl Range {
    /// Whether the base is an address.
    pub open spec fn valid(self) -> bool {
        self.base.valid()
    }

    /// The bits that an address must start with to lie in the range. A
    /// `prefix_len` beyond the length of the base stands for the whole base.
    pub open spec fn prefix(self) -> Seq<bool> {
        self.base.bits().take(
            if self.prefix_len < self.base.bits().len() {
                self.prefix_len as int
            } else {
                self.base.bits().len() as int
            },
        )
    }

    /// Whether the two ranges are written alike: the same base, byte for byte,
    /// and the same prefix length.
    pub open spec fn same(self, other: Range) -> bool {
        self.base.same(other.base) && self.prefix_len == other.prefix_len
    }

    /// Whether the bits start with the prefix of the range.
    pub open spec fn covers(self, bits: Seq<bool>) -> bool {
        self.prefix().is_prefix_of(bits)
    }
}

impl PartialEqSpecImpl for Range {
    open spec fn obeys_eq_spec() -> bool {
        true
    }

    open spec fn eq_spec(&self, other: &Range) -> bool {
        self.same(*other)
    }
}

impl PartialEq for Range {
    fn eq(&self, other: &Range) -> (r: bool) {
        self.base == other.base && self.prefix_len == other.prefix_len
    }
}

impl Eq for Range {

}

/// The socket address of a peer.
#[allow(inconsistent_fields)]
#[derive(Clone, Copy, PartialEq, Eq, Structural, Debug)]
pub enum PeerAddr {
    /// An IPv4 address, as the number that its four bytes write down, and a port.
    V4 { ip: u32, port: u16 },
    /// An IPv6 address, as the number that its sixteen bytes write down, a port,
    /// and what else an IPv6 socket address holds.
    V6 { ip: u128, port: u16, flowinfo: u32, scope_id: u32 },
}

/// The ranges that a peer claims.
pub type RangeList = Vec<Range>;

/// A clock.
pub trait TimeSource {
    /// The current time.
    fn now() -> Time;
}

/// Every address of up to 16 bytes is one that the library takes, and so is every range
/// with such a base.
pub proof fn addresses_have_up_to_sixteen_bytes(range: Range)
    ensures
        range.base.valid() <==> range.base.len <= 16,
        range.valid() <==> range.base.len <= 16,
{
}

/// The bytes of an address are the first `len` of its data.
pub proof fn address_holds_its_bytes(addr: Address)
    requires
        addr.valid(),
    ensures
        addr@.len() == addr.len,
        forall|i: int| 0 <= i < addr.len ==> #[trigger] addr@[i] == addr.data[i],
{
}

/// The bits of an address are the binary digits of its bytes, eight for each, the
/// most significant one first.
pub proof fn address_bits_are_binary_digits(addr: Address, i: int, k: int)
    requires
        addr.valid(),
        0 <= i < addr.len,
        0 <= k < 8,
    ensures
        addr.bits().len() == 8 * addr.len,
        addr.bits()[8 * i + k] <==> (addr.data[i] as int / vstd::arithmetic::power2::pow2(
            (7 - k) as nat,
        ) as int) % 2 == 1,
{
    let byte: u8 = addr.data[i];
    let shift: u8 = (7 - k) as u8;
    assert((8 * i + k) / 8 == i && (8 * i + k) % 8 == k);
    assert(addr.bits()[8 * i + k] == byte_bit(byte, k));
    vstd::bits::lemma_u8_shr_is_div(byte, shift);
    let high: u8 = byte >> shift;
    assert(high & 1 == 1 <==> high % 2 == 1) by (bit_vector);
}

/// Addresses have the same bits if and only if they have the same length and the
/// same bytes.
pub proof fn addresses_differ_in_a_bit(a: Address, b: Address)
    requires
        a.valid(),
        b.valid(),
    ensures
        a.bits() == b.bits() <==> a.len == b.len && forall|i: int|
            0 <= i < a.len ==> a.data[i] == #[trigger] b.data[i],
{
    if a.bits() == b.bits() {
        assert(a.bits().len() == 8 * a.len && b.bits().len() == 8 * b.len);
        assert forall|i: int| 0 <= i < a.len implies a.data[i] == #[trigger] b.data[i] by {
            let x: u8 = a.data[i];
            let y: u8 = b.data[i];
            assert forall|k: int| 0 <= k < 8 implies #[trigger] byte_bit(x, k) == byte_bit(
                y,
                k,
            ) by {
                assert((8 * i + k) / 8 == i && (8 * i + k) % 8 == k);
                assert(a.bits()[8 * i + k] == b.bits()[8 * i + k]);
            }
            lemma_byte_is_its_bits(x, y);
        }
    } else if a.len == b.len && forall|i: int|
        0 <= i < a.len ==> a.data[i] == #[trigger] b.data[i] {
        assert(a@ =~= b@);
    }
}

proof fn lemma_byte_is_its_bits(x: u8, y: u8)
    requires
        forall|k: int| 0 <= k < 8 ==> #[trigger] byte_bit(x, k) == byte_bit(y, k),
    ensures
        x == y,
{
    assert(byte_bit(x, 0) == byte_bit(y, 0));
    assert(byte_bit(x, 1) == byte_bit(y, 1));
    assert(byte_bit(x, 2) == byte_bit(y, 2));
    assert(byte_bit(x, 3) == byte_bit(y, 3));
    assert(byte_bit(x, 4) == byte_bit(y, 4));
    assert(byte_bit(x, 5) == byte_bit(y, 5));
    assert(byte_bit(x, 6) == byte_bit(y, 6));
    assert(byte_bit(x, 7) == byte_bit(y, 7));
    assert(x == y) by (bit_vector)
        requires
            ((x >> 7u8) & 1 == 1) == ((y >> 7u8) & 1 == 1),
            ((x >> 6u8) & 1 == 1) == ((y >> 6u8) & 1 == 1),
            ((x >> 5u8) & 1 == 1) == ((y >> 5u8) & 1 == 1),
            ((x >> 4u8) & 1 == 1) == ((y >> 4u8) & 1 == 1),
            ((x >> 3u8) & 1 == 1) == ((y >> 3u8) & 1 == 1),
            ((x >> 2u8) & 1 == 1) == ((y >> 2u8) & 1 == 1),
            ((x >> 1u8) & 1 == 1) == ((y >> 1u8) & 1 == 1),
            ((x >> 0u8) & 1 == 1) == ((y >> 0u8) & 1 == 1),
    ;
}

/// The prefix of a range has as many bits of the base as `prefix_len` says, or all
/// of them if the base has fewer.
pub proof fn prefix_is_the_first_bits_of_the_base(range: Range)
    requires
        range.valid(),
    ensures
        range.prefix_len <= 8 * range.base.len ==> range.prefix().len() == range.prefix_len,
        range.prefix_len > 8 * range.base.len ==> range.prefix().len() == 8 * range.base.len,
        forall|i: int|
            0 <= i < range.prefix().len() ==> #[trigger] range.prefix()[i]
                == range.base.bits()[i],
{
}

/// A range covers an address if and only if the address is long enough and agrees
/// with the base in each of the bits that `prefix_len` names.
pub proof fn range_covers_what_agrees_with_its_base(range: Range, addr: Address)
    requires
        range.valid(),
        addr.valid(),
    ensures
        range.covers(addr.bits()) <==> {
            &&& range.prefix_len <= 8 * addr.len || range.base.len <= addr.len
            &&& forall|i: int|
                0 <= i < range.prefix_len && i < 8 * range.base.len ==> range.base.bits()[i]
                    == #[trigger] addr.bits()[i]
        },
{
    let prefix = range.prefix();
    let bits = addr.bits();
    let fits = range.prefix_len <= 8 * addr.len || range.base.len <= addr.len;
    assert(fits <==> prefix.len() <= bits.len());
    if range.covers(bits) {
        assert forall|i: int|
            0 <= i < range.prefix_len && i < 8 * range.base.len implies range.base.bits()[i]
            == #[trigger] bits[i] by {
            assert(prefix[i] == bits[i]);
        }
    } else if fits && forall|i: int|
        0 <= i < range.prefix_len && i < 8 * range.base.len ==> range.base.bits()[i]
            == #[trigger] bits[i] {
        assert(prefix =~= bits.take(prefix.len() as int));
    }
}

/// A range whose prefix is its whole base covers, of the addresses that are as long
/// as the base, the base alone.
pub proof fn host_range_covers_its_base_alone(range: Range, addr: Address)
    requires
        range.valid(),
        addr.valid(),
        range.prefix_len >= 8 * range.base.len,
        addr.len == range.base.len,
    ensures
        range.covers(addr.bits()) <==> forall|i: int|
            0 <= i < addr.len ==> range.base.data[i] == #[trigger] addr.data[i],
{
    addresses_differ_in_a_bit(range.base, addr);
    assert(range.prefix() =~= range.base.bits());
    if range.covers(addr.bits()) {
        assert(addr.bits().take(addr.bits().len() as int) =~= addr.bits());
    } else if range.base.bits() == addr.bits() {
        assert(range.prefix().is_prefix_of(addr.bits()));
    }
}

/// Of two ranges, one whose prefix goes on from the other's covers only what that
/// one covers; ranges whose prefixes differ in a bit that both have cover no address
/// together.
pub proof fn ranges_are_nested_or_apart(a: Range, b: Range, bits: Seq<bool>)
    ensures
        a.prefix().is_prefix_of(b.prefix()) && b.covers(bits) ==> a.covers(bits),
        (exists|i: int|
            0 <= i < a.prefix().len() && i < b.prefix().len() && #[trigger] a.prefix()[i]
                != b.prefix()[i]) ==> !(a.covers(bits) && b.covers(bits)),
{
    if a.prefix().is_prefix_of(b.prefix()) && b.covers(bits) {
        assert(a.prefix() =~= bits.take(a.prefix().len() as int));
    }
    if a.covers(bits) && b.covers(bits) {
        assert forall|i: int|
            0 <= i < a.prefix().len() && i < b.prefix().len() implies #[trigger] a.prefix()[i]
            == b.prefix()[i] by {
            assert(a.prefix()[i] == bits[i] && b.prefix()[i] == bits[i]);
        }
    }
}

/// The key of an address holds its length and a number whose digits to the base 256
/// are its bytes, the most significant one first.
pub proof fn key_holds_the_bytes(addr: Address, i: int)
    requires
        addr.valid(),
        0 <= i < addr.len,
    ensures
        addr.key_spec().0 == addr.len,
        (addr.key_spec().1 as int / vstd::arithmetic::power::pow(
            256,
            (addr.len - 1 - i) as nat,
        )) % 256 == addr.data[i],
{
    lemma_be_value_is_below_limit(addr@);
    lemma_key_limit_fits(addr@.len());
    lemma_be_value_digit(addr@, i);
}

proof fn lemma_be_value_digit(bytes: Seq<u8>, i: int)
    requires
        0 <= i < bytes.len(),
    ensures
        (be_value(bytes) as int / vstd::arithmetic::power::pow(
            256,
            (bytes.len() - 1 - i) as nat,
        )) % 256 == bytes[i],
    decreases bytes.len(),
{
    let value = be_value(bytes) as int;
    let shorter = bytes.drop_last();
    assert(value == be_value(shorter) * 256 + bytes.last());
    if i == bytes.len() - 1 {
        vstd::arithmetic::power::lemma_pow0(256);
    } else {
        let e = (shorter.len() - 1 - i) as nat;
        lemma_be_value_digit(shorter, i);
        vstd::arithmetic::power::lemma_pow1(256);
        vstd::arithmetic::power::lemma_pow_adds(256, 1, e);
        vstd::arithmetic::power::lemma_pow_positive(256, e);
        vstd::arithmetic::div_mod::lemma_div_denominator(
            value,
            256,
            vstd::arithmetic::power::pow(256, e),
        );
        assert(value / 256 == be_value(shorter));
    }
}

/// A pair is the key of an address if and only if its second number has no more
/// digits to the base 256 than the first one says, and that is at most 16.
pub proof fn keys_are_the_numbers_that_fit(key: AddressKey)
    ensures
        is_key(key) <==> key.0 <= 16 && key.1 < vstd::arithmetic::power::pow(256, key.0 as nat),
{
    lemma_key_limit_is_a_power(key.0 as nat);
}

proof fn lemma_key_limit_is_a_power(n: nat)
    ensures
        key_limit(n) == vstd::arithmetic::power::pow(256, n),
    decreases n,
{
    if n == 0 {
        vstd::arithmetic::power::lemma_pow0(256);
    } else {
        lemma_key_limit_is_a_power((n - 1) as nat);
        vstd::arithmetic::power::lemma_pow1(256);
        vstd::arithmetic::power::lemma_pow_adds(256, 1, (n - 1) as nat);
    }
}

/// Two addresses have the same key if and only if they hold the same bytes.
pub proof fn same_addresses_have_the_same_key(a: Address, b: Address)
    requires
        a.valid(),
        b.valid(),
    ensures
        a.key_spec() == b.key_spec() <==> a.same(b),
{
    same_addresses_have_the_same_bytes(a, b);
    lemma_be_value_is_below_limit(a@);
    lemma_be_value_is_below_limit(b@);
    lemma_key_limit_fits(a@.len());
    lemma_key_limit_fits(b@.len());
    if a.key_spec() == b.key_spec() {
        lemma_be_value_injective(a@, b@);
    }
}

/// Two addresses compare equal if and only if their views do.
pub proof fn same_addresses_have_the_same_bytes(a: Address, b: Address)
    requires
        a.valid(),
        b.valid(),
    ensures
        a.same(b) <==> a@ == b@,
{
    if a.same(b) {
        assert(a@ =~= b@);
    }
    if a@ == b@ {
        assert(a.len == a@.len() && b.len == b@.len());
        assert forall|i: int| 0 <= i < a.len && i < MAX_ADDRESS_LEN implies a.data[i]
            == #[trigger] b.data[i] by {
            assert(a@[i] == b@[i]);
        }
    }
}

} // verus!
