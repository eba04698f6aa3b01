//! 256-bit identifiers and the XOR metric.
use vstd::prelude::*;
use vstd::std_specs::bits::u8_leading_zeros;
use vstd::std_specs::bits::axiom_u8_leading_zeros;
use vstd::arithmetic::power2::pow2;
use vstd::arithmetic::power2::lemma_pow2_adds;
use vstd::arithmetic::power2::lemma_pow2_pos;
use vstd::arithmetic::power2::lemma2_to64;
use std::cmp::Ordering;
use crate::KEY_LENGTH;

verus! {

/// A key that represents nodes and data.
///
/// Keys have 256 bits so that SHA-3 digests can be used as identifiers.
#[derive(Clone, Copy, Debug, Hash, Eq, Ord)]
pub struct Key(pub [u8; KEY_LENGTH]);

impl View for Key {
    type V = Seq<u8>;

    open spec fn view(&self) -> Seq<u8> {
        self.0@
    }
}

/// The number a byte string stands for when read most significant byte first.
pub open spec fn be_value(bytes: Seq<u8>) -> nat
    decreases bytes.len(),
{
    if bytes.len() == 0 {
        0
    } else {
        be_value(bytes.drop_last()) * 256 + bytes.last() as nat
    }
}

/// The number of zero bits before the first one bit of a byte string, all of
/// its bits where it holds no one bit.
pub open spec fn leading_zero_bits(bytes: Seq<u8>) -> nat
    decreases bytes.len(),
{
    if bytes.len() == 0 {
        0
    } else if bytes[0] == 0 {
        8 + leading_zero_bits(bytes.drop_first())
    } else {
        u8_leading_zeros(bytes[0]) as nat
    }
}

/// The bytewise exclusive or of two byte strings of one length.
pub open spec fn xor_bytes(a: Seq<u8>, b: Seq<u8>) -> Seq<u8> {
    Seq::new(a.len(), |i: int| a[i] ^ b[i])
}

/// The XOR distance between two identifiers, as a number.
pub open spec fn distance(a: Seq<u8>, b: Seq<u8>) -> nat {
    be_value(xor_bytes(a, b))
}

/// What `Key::in_range` makes of the bytes `seed`: the bits before bit `index`
/// are cleared, bit `index` is set, and the bits after it are those of `seed`.
/// Bit 0 is the most significant bit of the first byte.
pub open spec fn in_range_bytes(seed: Seq<u8>, index: nat) -> Seq<u8> {
    Seq::new(
        seed.len(),
        |j: int|
            if j < index / 8 {
                0u8
            } else if j == index / 8 {
                (seed[j] & (0xFFu8 >> ((index % 8) as u8))) | (1u8 << ((7 - index % 8) as u8))
            } else {
                seed[j]
            },
    )
}

/// Draws one byte from the thread-local generator of the `rand` crate, by
/// `rand::random::<u8>()`. Nothing is claimed of the byte.
#[verifier::external_body]
fn random_byte() -> (byte: u8) {
    rand::random::<u8>()
}

impl PartialEq for Key {
    fn eq(&self, other: &Key) -> (r: bool) {
        let mut i: usize = 0;
        while i < KEY_LENGTH
            invariant
                i <= KEY_LENGTH,
                forall|j: int| 0 <= j < i ==> self@[j] == other@[j],
            decreases KEY_LENGTH - i,
        {
            if self.0[i] != other.0[i] {
                return false;
            }
            i += 1;
        }
        assert(self@ =~= other@);
        true
    }
}

impl vstd::std_specs::cmp::PartialEqSpecImpl for Key {
    open spec fn obeys_eq_spec() -> bool {
        true
    }

    open spec fn eq_spec(&self, other: &Key) -> bool {
        self@ == other@
    }
}

impl PartialOrd for Key {
    fn partial_cmp(&self, other: &Key) -> (r: Option<Ordering>) {
        if self.precedes(other) {
            Some(Ordering::Less)
        } else if other.precedes(self) {
            Some(Ordering::Greater)
        } else {
            Some(Ordering::Equal)
        }
    }
}

impl vstd::std_specs::cmp::PartialOrdSpecImpl for Key {
    open spec fn obeys_partial_cmp_spec() -> bool {
        true
    }

    open spec fn partial_cmp_spec(&self, other: &Key) -> Option<Ordering> {
        if self.value() < other.value() {
            Some(Ordering::Less)
        } else if self.value() > other.value() {
            Some(Ordering::Greater)
        } else {
            Some(Ordering::Equal)
        }
    }
}

impl Default for Key {
    fn default() -> (key: Key)
        ensures
            key@ == Seq::new(32, |i: int| 0u8),
    {
        let key = Key([0u8; KEY_LENGTH]);
        assert(key@ =~= Seq::new(32, |i: int| 0u8));
        key
    }
}

impl Key {
    /// The key read as a big-endian 256-bit unsigned integer.
    pub open spec fn value(&self) -> nat {
        be_value(self@)
    }

    /// Constructs a new `Key` from a byte array.
    pub fn new(data: [u8; KEY_LENGTH]) -> (key: Key)
        ensures
            key.0 == data,
            key@ == data@,
    {
        Key(data)
    }

    /// Whether `self` is the smaller of the two keys, both read as big-endian
    /// numbers. This is the order of `<` on keys.
    pub fn precedes(&self, other: &Key) -> (r: bool)
        ensures
            r == (self.value() < other.value()),
    {
        let mut i: usize = 0;
        while i < KEY_LENGTH
            invariant
                i <= KEY_LENGTH,
                forall|j: int| 0 <= j < i ==> self@[j] == other@[j],
            decreases KEY_LENGTH - i,
        {
            if self.0[i] < other.0[i] {
                proof {
                    lemma_first_difference(self@, other@, i as int);
                }
                return true;
            }
            if self.0[i] > other.0[i] {
                proof {
                    lemma_first_difference(other@, self@, i as int);
                }
                return false;
            }
            i += 1;
        }
        assert(self@ =~= other@);
        false
    }

    /// Constructs a new, random `Key`: each byte is drawn on its own.
    pub fn rand() -> (key: Key) {
        let mut ret: [u8; KEY_LENGTH] = [0u8; KEY_LENGTH];
        let mut i: usize = 0;
        while i < KEY_LENGTH
            invariant
                i <= KEY_LENGTH,
            decreases KEY_LENGTH - i,
        {
            ret[i] = random_byte();
            i += 1;
        }
        Key(ret)
    }

    /// Forces `seed` into the range of bucket `index`: the first `index` bits
    /// are cleared and the bit after them is set, the rest stays as drawn.
    pub fn in_range(seed: Key, index: usize) -> (key: Key)
        requires
            index < 256,
        ensures
            key@ == in_range_bytes(seed@, index as nat),
            leading_zero_bits(key@) == index,
            pow2((255 - index) as nat) <= key.value() < pow2((256 - index) as nat),
    {
        let mut ret: [u8; KEY_LENGTH] = seed.0;
        let bytes: usize = index / 8;
        let bit: u8 = (index % 8) as u8;
        let mut i: usize = 0;
        while i < bytes
            invariant
                i <= bytes,
                bytes < KEY_LENGTH,
                forall|j: int| 0 <= j < i ==> ret@[j] == 0,
                forall|j: int| i <= j < KEY_LENGTH ==> ret@[j] == seed@[j],
            decreases bytes - i,
        {
            ret[i] = 0;
            i += 1;
        }
        let masked: u8 = ret[bytes] & (0xFFu8 >> bit);
        ret[bytes] = masked | (1u8 << (7 - bit));
        proof {
            assert(ret@ =~= in_range_bytes(seed@, index as nat));
            lemma_in_range_leading_zeros(seed@, index as nat);
            lemma_leading_zeros_bounds(ret@);
        }
        Key(ret)
    }

    /// Constructs a new, random `Key` from `[2^(255 - index), 2^(256 - index))`:
    /// a key with exactly `index` leading zero bits.
    pub fn rand_in_range(index: usize) -> (key: Key)
        requires
            index < 256,
        ensures
            leading_zero_bits(key@) == index,
            pow2((255 - index) as nat) <= key.value() < pow2((256 - index) as nat),
    {
        Key::in_range(Key::rand(), index)
    }

    /// Returns the XOR result between `self` and `key`.
    pub fn xor(&self, key: &Key) -> (ret: Key)
        ensures
            ret@ == xor_bytes(self@, key@),
    {
        let mut ret: [u8; KEY_LENGTH] = [0u8; KEY_LENGTH];
        let mut i: usize = 0;
        while i < KEY_LENGTH
            invariant
                i <= KEY_LENGTH,
                forall|j: int| 0 <= j < i ==> ret@[j] == self@[j] ^ key@[j],
            decreases KEY_LENGTH - i,
        {
            ret[i] = self.0[i] ^ key.0[i];
            i += 1;
        }
        assert(ret@ =~= xor_bytes(self@, key@));
        Key(ret)
    }

    /// Returns the number of leading zero bits in `self`, between 0 and 256.
    /// This is how far apart two keys are when taken of their XOR.
    pub fn leading_zeros(&self) -> (ret: usize)
        ensures
            ret == leading_zero_bits(self@),
            ret <= 256,
    {
        let mut ret: usize = 0;
        let mut i: usize = 0;
        assert(self@.skip(0) =~= self@);
        while i < KEY_LENGTH
            invariant
                i <= KEY_LENGTH,
                ret == 8 * i,
                leading_zero_bits(self@) == ret + leading_zero_bits(self@.skip(i as int)),
            decreases KEY_LENGTH - i,
        {
            let byte: u8 = self.0[i];
            proof {
                let rest = self@.skip(i as int);
                assert(rest[0] == byte);
                assert(rest.drop_first() =~= self@.skip(i + 1));
                axiom_u8_leading_zeros(byte);
            }
            if byte == 0 {
                ret += 8;
            } else {
                return ret + byte.leading_zeros() as usize;
            }
            i += 1;
        }
        ret
    }
}

/// Where two byte strings of one length first differ, the one with the
/// smaller byte there stands for the smaller number.
pub proof fn lemma_first_difference(a: Seq<u8>, b: Seq<u8>, i: int)
    requires
        a.len() == b.len(),
        0 <= i < a.len(),
        forall|j: int| 0 <= j < i ==> a[j] == b[j],
        a[i] < b[i],
    ensures
        be_value(a) < be_value(b),
{
    lemma_prefix_order(a, b, i, a.len() as int);
    assert(a.take(a.len() as int) =~= a);
    assert(b.take(b.len() as int) =~= b);
}

proof fn lemma_prefix_order(a: Seq<u8>, b: Seq<u8>, i: int, k: int)
    requires
        a.len() == b.len(),
        0 <= i < k <= a.len(),
        forall|j: int| 0 <= j < i ==> a[j] == b[j],
        a[i] < b[i],
    ensures
        be_value(a.take(k)) < be_value(b.take(k)),
    decreases k,
{
    assert(a.take(k).drop_last() =~= a.take(k - 1));
    assert(b.take(k).drop_last() =~= b.take(k - 1));
    if k == i + 1 {
        assert(a.take(i) =~= b.take(i));
    } else {
        lemma_prefix_order(a, b, i, k - 1);
    }
}

/// The byte that `Key::in_range` writes at the marked position has its one at
/// bit `bit` and none before it.
proof fn lemma_marked_byte(x: u8, bit: u8)
    requires
        bit < 8,
    ensures
        ((x & (0xFFu8 >> bit)) | (1u8 << ((7 - bit) as u8))) != 0,
        u8_leading_zeros((x & (0xFFu8 >> bit)) | (1u8 << ((7 - bit) as u8))) == bit,
{
    let p: u8 = (7 - bit) as u8;
    let b: u8 = (x & (0xFFu8 >> bit)) | (1u8 << p);
    assert(b != 0 && (b >> p) & 1 == 1 && (forall|j: u8| p < j < 8 ==> (b >> j) & 1 == 0))
        by (bit_vector)
        requires
            bit < 8,
            p == 7 - bit,
            b == (x & (0xFFu8 >> bit)) | (1u8 << p),
    ;
    axiom_u8_leading_zeros(b);
    let l: u8 = u8_leading_zeros(b) as u8;
    let q: u8 = (7 - l) as u8;
    assert((b >> q) & 1 != 0);
    if l < bit {
        assert((b >> q) & 1 == 0);
    }
    if l > bit {
        assert((b >> p) & 1 == 0);
    }
}

/// After `n` zero bytes and a byte that is not zero, the leading zeros are
/// those of the zero bytes and of that byte.
proof fn lemma_zero_prefix(s: Seq<u8>, n: int)
    requires
        0 <= n < s.len(),
        forall|j: int| 0 <= j < n ==> s[j] == 0,
        s[n] != 0,
    ensures
        leading_zero_bits(s) == 8 * n + u8_leading_zeros(s[n]),
    decreases n,
{
    if n > 0 {
        let rest = s.drop_first();
        assert(rest[n - 1] == s[n]);
        assert forall|j: int| 0 <= j < n - 1 implies rest[j] == 0 by {
            assert(rest[j] == s[j + 1]);
        }
        lemma_zero_prefix(rest, n - 1);
    }
}

/// A key forced into the range of bucket `index` has `index` leading zeros.
pub proof fn lemma_in_range_leading_zeros(seed: Seq<u8>, index: nat)
    requires
        index < 8 * seed.len(),
    ensures
        leading_zero_bits(in_range_bytes(seed, index)) == index,
{
    let s = in_range_bytes(seed, index);
    let n = (index / 8) as int;
    let bit = (index % 8) as u8;
    lemma_marked_byte(seed[n], bit);
    lemma_zero_prefix(s, n);
}

/// A byte string of `n` bytes stands for a number below `2^(8n)`.
pub proof fn lemma_be_value_bound(s: Seq<u8>)
    ensures
        be_value(s) < pow2(8 * s.len()),
    decreases s.len(),
{
    lemma2_to64();
    if s.len() > 0 {
        lemma_be_value_bound(s.drop_last());
        lemma_pow2_adds((8 * (s.len() - 1)) as nat, 8);
    }
}

/// The first byte of a byte string counts `2^(8(n-1))` times.
pub proof fn lemma_be_value_front(s: Seq<u8>)
    requires
        s.len() > 0,
    ensures
        be_value(s) == s[0] * pow2((8 * (s.len() - 1)) as nat) + be_value(s.drop_first()),
    decreases s.len(),
{
    lemma2_to64();
    let n = s.len();
    if n == 1 {
        assert(s.drop_last().len() == 0);
        assert(s.drop_first().len() == 0);
        assert(be_value(s.drop_last()) == 0);
        assert(be_value(s.drop_first()) == 0);
        assert(s.last() == s[0]);
        assert(s[0] * pow2(0) == s[0]) by (nonlinear_arith)
            requires
                pow2(0) == 1,
        ;
    } else {
        let init = s.drop_last();
        lemma_be_value_front(init);
        assert(init.drop_first() =~= s.drop_first().drop_last());
        assert(s.drop_first().last() == s.last());
        let low = pow2((8 * (n - 2)) as nat);
        lemma_pow2_adds((8 * (n - 2)) as nat, 8);
        let rest = be_value(init.drop_first());
        assert(init[0] == s[0]);
        assert(be_value(s) == be_value(init) * 256 + s.last());
        assert(be_value(s.drop_first()) == rest * 256 + s.last());
        assert((s[0] * low + rest) * 256 == s[0] * (low * 256) + rest * 256) by (nonlinear_arith);
    }
}

/// How the leading zeros of a byte string bound the number it stands for: a
/// string of `n` bytes with `z` leading zeros is 0 where `z` is `8n`, and
/// lies in `[2^(8n-1-z), 2^(8n-z))` otherwise.
pub proof fn lemma_leading_zeros_bounds(s: Seq<u8>)
    ensures
        leading_zero_bits(s) <= 8 * s.len(),
        leading_zero_bits(s) == 8 * s.len() ==> be_value(s) == 0,
        leading_zero_bits(s) < 8 * s.len() ==> pow2((8 * s.len() - 1 - leading_zero_bits(s)) as nat)
            <= be_value(s) < pow2((8 * s.len() - leading_zero_bits(s)) as nat),
    decreases s.len(),
{
    let n = s.len();
    if n > 0 {
        let rest = s.drop_first();
        let high = pow2((8 * (n - 1)) as nat);
        lemma_be_value_front(s);
        lemma_be_value_bound(rest);
        axiom_u8_leading_zeros(s[0]);
        if s[0] == 0 {
            lemma_leading_zeros_bounds(rest);
            assert(s[0] * high == 0);
        } else {
            let z = u8_leading_zeros(s[0]) as nat;
            lemma_byte_bounds(s[0]);
            let floor = pow2((7 - z) as nat);
            let ceil = pow2((8 - z) as nat);
            lemma_pow2_adds((7 - z) as nat, (8 * (n - 1)) as nat);
            lemma_pow2_adds((8 - z) as nat, (8 * (n - 1)) as nat);
            lemma_pow2_pos((8 * (n - 1)) as nat);
            let first = s[0] as nat;
            assert(floor * high <= first * high && (first + 1) * high <= ceil * high)
                by (nonlinear_arith)
                requires
                    floor <= first,
                    first + 1 <= ceil,
                    high > 0,
            ;
            assert((first + 1) * high == first * high + high) by (nonlinear_arith);
        }
    }
}

/// A byte that is not zero, with `z` leading zeros, lies in `[2^(7-z), 2^(8-z))`.
proof fn lemma_byte_bounds(b: u8)
    requires
        b != 0,
    ensures
        u8_leading_zeros(b) < 8,
        pow2((7 - u8_leading_zeros(b)) as nat) <= b < pow2((8 - u8_leading_zeros(b)) as nat),
{
    axiom_u8_leading_zeros(b);
    lemma2_to64();
    let z: u8 = u8_leading_zeros(b) as u8;
    let p: u8 = (7 - z) as u8;
    let r: u8 = (8 - z) as u8;
    assert((b >> p) & 1 != 0);
    assert(b >> r == 0);
    assert((p == 0 ==> 1 <= b < 2) && (p == 1 ==> 2 <= b < 4) && (p == 2 ==> 4 <= b < 8) && (p == 3
        ==> 8 <= b < 16) && (p == 4 ==> 16 <= b < 32) && (p == 5 ==> 32 <= b < 64) && (p == 6 ==> 64
        <= b < 128) && (p == 7 ==> 128 <= b)) by (bit_vector)
        requires
            p < 8,
            r == p + 1,
            (b >> p) & 1 != 0,
            b >> r == 0,
    ;
}

/// XOR does not depend on the order of its operands.
pub proof fn lemma_xor_commutative(a: Key, b: Key)
    ensures
        xor_bytes(a@, b@) == xor_bytes(b@, a@),
{
    assert forall|i: int| 0 <= i < 32 implies a@[i] ^ b@[i] == b@[i] ^ a@[i] by {
        let x = a@[i];
        let y = b@[i];
        assert(x ^ y == y ^ x) by (bit_vector);
    }
    assert(xor_bytes(a@, b@) =~= xor_bytes(b@, a@));
}

/// XOR does not depend on how its operands are grouped.
pub proof fn lemma_xor_associative(a: Key, b: Key, c: Key)
    ensures
        xor_bytes(xor_bytes(a@, b@), c@) == xor_bytes(a@, xor_bytes(b@, c@)),
{
    assert forall|i: int| 0 <= i < 32 implies (a@[i] ^ b@[i]) ^ c@[i] == a@[i] ^ (b@[i] ^ c@[i]) by {
        let x = a@[i];
        let y = b@[i];
        let z = c@[i];
        assert((x ^ y) ^ z == x ^ (y ^ z)) by (bit_vector);
    }
    assert(xor_bytes(xor_bytes(a@, b@), c@) =~= xor_bytes(a@, xor_bytes(b@, c@)));
}

/// XOR undoes itself: applying the same key twice gives the first key back.
pub proof fn lemma_xor_self_inverse(a: Key, b: Key)
    ensures
        xor_bytes(xor_bytes(a@, b@), b@) == a@,
{
    assert forall|i: int| 0 <= i < 32 implies (a@[i] ^ b@[i]) ^ b@[i] == a@[i] by {
        let x = a@[i];
        let y = b@[i];
        assert((x ^ y) ^ y == x) by (bit_vector);
    }
    assert(xor_bytes(xor_bytes(a@, b@), b@) =~= a@);
}

/// A key is at distance zero from itself: the XOR of a key with itself is all
/// zero bits, 256 leading zeros.
pub proof fn lemma_xor_self(a: Key)
    ensures
        xor_bytes(a@, a@) == Seq::new(32, |i: int| 0u8),
        leading_zero_bits(xor_bytes(a@, a@)) == 256,
        distance(a@, a@) == 0,
{
    let zero = Seq::new(32, |i: int| 0u8);
    assert forall|i: int| 0 <= i < 32 implies a@[i] ^ a@[i] == 0 by {
        let x = a@[i];
        assert(x ^ x == 0) by (bit_vector);
    }
    assert(xor_bytes(a@, a@) =~= zero);
    lemma_zero_bytes(zero);
}

/// A byte string of nothing but zero bytes has only leading zeros and stands
/// for the number 0.
pub proof fn lemma_zero_bytes(s: Seq<u8>)
    requires
        forall|i: int| 0 <= i < s.len() ==> s[i] == 0,
    ensures
        leading_zero_bits(s) == 8 * s.len(),
        be_value(s) == 0,
    decreases s.len(),
{
    if s.len() > 0 {
        lemma_zero_bytes(s.drop_first());
        lemma_zero_bytes(s.drop_last());
    }
}

/// Only equal byte strings are at distance zero from each other.
pub proof fn lemma_distance_zero_bytes(a: Seq<u8>, b: Seq<u8>)
    requires
        a.len() == b.len(),
    ensures
        distance(a, b) == 0 <==> a == b,
{
    if a == b {
        assert forall|i: int| 0 <= i < a.len() implies xor_bytes(a, a)[i] == 0 by {
            let x = a[i];
            assert(x ^ x == 0) by (bit_vector);
        }
        lemma_zero_bytes(xor_bytes(a, a));
    } else if distance(a, b) == 0 {
        lemma_value_zero(xor_bytes(a, b));
        assert forall|i: int| 0 <= i < a.len() implies a[i] == b[i] by {
            let x = a[i];
            let y = b[i];
            assert(xor_bytes(a, b)[i] == 0);
            assert(x == y) by (bit_vector)
                requires
                    x ^ y == 0,
            ;
        }
        assert(a =~= b);
    }
}

/// Only equal identifiers are at distance zero from each other.
pub proof fn lemma_distance_zero(a: Key, b: Key)
    ensures
        distance(a@, b@) == 0 <==> a@ == b@,
{
    lemma_distance_zero_bytes(a@, b@);
}

/// A byte string that stands for the number 0 holds nothing but zero bytes.
pub proof fn lemma_value_zero(s: Seq<u8>)
    requires
        be_value(s) == 0,
    ensures
        forall|i: int| 0 <= i < s.len() ==> s[i] == 0,
    decreases s.len(),
{
    if s.len() > 0 {
        lemma_value_zero(s.drop_last());
        assert forall|i: int| 0 <= i < s.len() implies s[i] == 0 by {
            if i < s.len() - 1 {
                assert(s.drop_last()[i] == s[i]);
            }
        }
    }
}

} // verus!
