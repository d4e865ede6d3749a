//! The 256-bit keyspace and its XOR metric.
//!
//! A key is the SHA-256 digest of a byte string. The distance between two keys
//! is their bitwise XOR, read as a big-endian unsigned number.

use sha2::Digest;
use vstd::prelude::*;

verus! {

/// Number of bytes in a key and in a distance.
pub const KEY_LEN: usize = 32;

/// Number of bits in a key, which is also the number of buckets in a routing table.
pub const KEY_BITS: usize = 256;

/// The SHA-256 digest of `data`, as the 32 bytes that the `sha2` crate computes.
pub uninterp spec fn sha256(data: Seq<u8>) -> Seq<u8>;

/// Calls `sha2::Sha256::digest` on `data` and copies the 32 bytes of output.
///
/// Trusted: the result is the SHA-256 digest of `data`, a function of the
/// input bytes alone.
#[verifier::external_body]
fn sha256_digest(data: &[u8]) -> (out: [u8; 32])
    ensures
        out@ == sha256(data@),
{
    sha2::Sha256::digest(data).into()
}

/// The number that the bytes `s` denote when read big-endian.
pub open spec fn be_value(s: Seq<u8>) -> nat
    decreases s.len(),
{
    if s.len() == 0 {
        0
    } else {
        be_value(s.drop_last()) * 256 + s.last() as nat
    }
}

/// The bytewise XOR of `a` and `b`, over the length of `a`.
pub open spec fn xor_seq(a: Seq<u8>, b: Seq<u8>) -> Seq<u8> {
    Seq::new(a.len(), |i: int| a[i] ^ b[i])
}

/// The number of zero bits before the first one bit of `s`, counted from byte `i` on.
pub open spec fn leading_zeros_from(s: Seq<u8>, i: int) -> nat
    decreases s.len() - i,
{
    if i < 0 || i >= s.len() {
        0
    } else if s[i] == 0 {
        8 + leading_zeros_from(s, i + 1)
    } else {
        u8::leading_zeros(s[i]) as nat
    }
}

/// The number of leading zero bits of `s`; `8 * s.len()` when every byte is zero.
pub open spec fn leading_zeros(s: Seq<u8>) -> nat {
    leading_zeros_from(s, 0)
}

/// A point in the keyspace.
#[derive(Clone, Copy, Debug, PartialEq, Eq, Hash, PartialOrd, Ord)]
pub struct Key {
    pub bytes: [u8; 32],
}

/// The XOR of two keys.
#[derive(Clone, Copy, Debug, PartialEq, Eq, Hash, PartialOrd, Ord)]
pub struct Distance {
    pub bytes: [u8; 32],
}

impl View for Key {
    type V = Seq<u8>;

    open spec fn view(&self) -> Seq<u8> {
        self.bytes@
    }
}

impl View for Distance {
    type V = Seq<u8>;

    open spec fn view(&self) -> Seq<u8> {
        self.bytes@
    }
}

/// The distance between `a` and `b` as a number.
pub open spec fn distance(a: Key, b: Key) -> nat {
    be_value(xor_seq(a@, b@))
}

/// Two byte strings of one length that denote the same number are equal.
pub proof fn lemma_be_value_injective(a: Seq<u8>, b: Seq<u8>)
    requires
        a.len() == b.len(),
        be_value(a) == be_value(b),
    ensures
        a == b,
    decreases a.len(),
{
    if a.len() > 0 {
        lemma_be_value_injective(a.drop_last(), b.drop_last());
        assert(a =~= a.drop_last().push(a.last()));
        assert(b =~= b.drop_last().push(b.last()));
    } else {
        assert(a =~= b);
    }
}

/// Big-endian comparison is lexicographic: where `a` and `b` agree before
/// position `i` and `a` is smaller at `i`, `a` denotes the smaller number.
pub proof fn lemma_be_value_first_difference(a: Seq<u8>, b: Seq<u8>, i: int)
    requires
        a.len() == b.len(),
        0 <= i < a.len(),
        forall|j: int| 0 <= j < i ==> a[j] == b[j],
        a[i] < b[i],
    ensures
        be_value(a) < be_value(b),
    decreases a.len(),
{
    let n = a.len() as int;
    if i == n - 1 {
        assert(a.drop_last() =~= b.drop_last());
    } else {
        lemma_be_value_first_difference(a.drop_last(), b.drop_last(), i);
    }
}

/// A byte string of zeros denotes zero, and only such a string does.
pub proof fn lemma_be_value_zero(s: Seq<u8>)
    ensures
        be_value(s) == 0 <==> (forall|j: int| 0 <= j < s.len() ==> s[j] == 0),
    decreases s.len(),
{
    if s.len() > 0 {
        lemma_be_value_zero(s.drop_last());
        if be_value(s) == 0 {
            assert forall|j: int| 0 <= j < s.len() implies s[j] == 0 by {
                if j < s.len() - 1 {
                    assert(s.drop_last()[j] == s[j]);
                }
            }
        }
        if forall|j: int| 0 <= j < s.len() ==> s[j] == 0 {
            assert forall|j: int| 0 <= j < s.drop_last().len() implies s.drop_last()[j]
                == 0 by {
                assert(s.drop_last()[j] == s[j]);
            }
        }
    }
}

/// Facts about XOR on a single byte.
proof fn lemma_xor_byte(x: u8, y: u8, t: u8)
    ensures
        x ^ x == 0,
        x ^ y == y ^ x,
        (x ^ y == 0) ==> x == y,
        (x ^ t == y ^ t) ==> x == y,
        (x ^ y) ^ y == x,
{
    assert(x ^ x == 0) by (bit_vector);
    assert(x ^ y == y ^ x) by (bit_vector);
    assert((x ^ y == 0) ==> x == y) by (bit_vector);
    assert((x ^ t == y ^ t) ==> x == y) by (bit_vector);
    assert((x ^ y) ^ y == x) by (bit_vector);
}

/// Keys with the same bytes are the same key.
pub proof fn lemma_key_ext(a: Key, b: Key)
    requires
        a@ == b@,
    ensures
        a == b,
{
    assert(a.bytes =~= b.bytes);
}

/// A key is at distance zero from itself.
pub proof fn lemma_distance_self(a: Key)
    ensures
        distance(a, a) == 0,
{
    let d = xor_seq(a@, a@);
    assert forall|j: int| 0 <= j < d.len() implies d[j] == 0 by {
        lemma_xor_byte(a@[j], a@[j], 0);
    }
    lemma_be_value_zero(d);
}

/// Only a key itself is at distance zero from it.
pub proof fn lemma_distance_zero(a: Key, b: Key)
    requires
        distance(a, b) == 0,
    ensures
        a == b,
{
    let d = xor_seq(a@, b@);
    lemma_be_value_zero(d);
    assert forall|j: int| 0 <= j < 32 implies a@[j] == b@[j] by {
        assert(d[j] == 0);
        lemma_xor_byte(a@[j], b@[j], 0);
    }
    assert(a@ =~= b@);
    lemma_key_ext(a, b);
}

/// The distance does not depend on the direction.
pub proof fn lemma_distance_symmetric(a: Key, b: Key)
    ensures
        distance(a, b) == distance(b, a),
{
    assert forall|j: int| 0 <= j < 32 implies xor_seq(a@, b@)[j] == xor_seq(b@, a@)[j] by {
        lemma_xor_byte(a@[j], b@[j], 0);
    }
    assert(xor_seq(a@, b@) =~= xor_seq(b@, a@));
}

/// Two keys at the same distance from a third are the same key: around any
/// point, each distance is taken by exactly one key.
pub proof fn lemma_distance_injective(a: Key, b: Key, t: Key)
    requires
        distance(a, t) == distance(b, t),
    ensures
        a == b,
{
    let da = xor_seq(a@, t@);
    let db = xor_seq(b@, t@);
    lemma_be_value_injective(da, db);
    assert forall|j: int| 0 <= j < 32 implies a@[j] == b@[j] by {
        assert(da[j] == db[j]);
        lemma_xor_byte(a@[j], b@[j], t@[j]);
    }
    assert(a@ =~= b@);
    lemma_key_ext(a, b);
}

/// The index of the bucket that holds the keys at distance `d`: the position
/// of the highest one bit. The zero distance has no bucket.
pub open spec fn bucket_index_of(d: Seq<u8>) -> Option<int> {
    if be_value(d) == 0 {
        None
    } else {
        Some(255 - leading_zeros(d))
    }
}

impl Distance {
    /// The distance as a number.
    pub open spec fn value(self) -> nat {
        be_value(self@)
    }

    /// Whether this is the distance of a key from itself.
    pub fn is_zero(&self) -> (r: bool)
        ensures
            r == (self.value() == 0),
    {
        let mut i: usize = 0;
        while i < 32
            invariant
                0 <= i <= 32,
                forall|j: int| 0 <= j < i ==> self@[j] == 0,
            decreases 32 - i,
        {
            if self.bytes[i] != 0 {
                proof {
                    lemma_be_value_zero(self@);
                }
                return false;
            }
            i += 1;
        }
        proof {
            lemma_be_value_zero(self@);
        }
        true
    }

    /// Whether this distance is strictly smaller than `other`.
    pub fn lt(&self, other: &Distance) -> (r: bool)
        ensures
            r == (self.value() < other.value()),
    {
        let mut i: usize = 0;
        while i < 32
            invariant
                0 <= i <= 32,
                forall|j: int| 0 <= j < i ==> self@[j] == other@[j],
            decreases 32 - i,
        {
            if self.bytes[i] < other.bytes[i] {
                proof {
                    lemma_be_value_first_difference(self@, other@, i as int);
                }
                return true;
            }
            if self.bytes[i] > other.bytes[i] {
                proof {
                    lemma_be_value_first_difference(other@, self@, i as int);
                }
                return false;
            }
            i += 1;
        }
        assert(self@ =~= other@);
        false
    }

    /// Whether this distance is at most `other`.
    pub fn le(&self, other: &Distance) -> (r: bool)
        ensures
            r == (self.value() <= other.value()),
    {
        !other.lt(self)
    }

    /// The number of zero bits in front of the highest one bit; 256 for the zero distance.
    pub fn leading_zeros(&self) -> (n: u32)
        ensures
            n == leading_zeros(self@),
            n <= 256,
            n == 256 <==> self.value() == 0,
    {
        broadcast use vstd::std_specs::bits::axiom_u8_leading_zeros;

        let mut i: usize = 0;
        while i < 32
            invariant
                0 <= i <= 32,
                forall|j: int| 0 <= j < i ==> self@[j] == 0,
                leading_zeros(self@) == 8 * i + leading_zeros_from(self@, i as int),
            decreases 32 - i,
        {
            let b = self.bytes[i];
            if b != 0 {
                proof {
                    lemma_be_value_zero(self@);
                }
                let i32: u32 = i as u32;
                return 8 * i32 + b.leading_zeros();
            }
            i += 1;
        }
        proof {
            lemma_be_value_zero(self@);
        }
        256
    }

    /// The index of the bucket for keys at this distance, if it is not zero.
    pub fn bucket_index(&self) -> (r: Option<usize>)
        ensures
            r is Some <==> self.value() != 0,
            r is Some ==> bucket_index_of(self@) == Some(r->0 as int) && r->0 < 256,
    {
        let lz = self.leading_zeros();
        if lz == 256 {
            None
        } else {
            Some((255 - lz) as usize)
        }
    }
}

/// The key of a byte string: the key whose bytes are its SHA-256 digest.
pub open spec fn key_at(preimage: Seq<u8>) -> Key {
    choose|k: Key| k@ == sha256(preimage)
}

impl Key {
    /// The key of a byte string: its SHA-256 digest.
    pub fn new(preimage: &[u8]) -> (key: Key)
        ensures
            key@ == sha256(preimage@),
            key == key_at(preimage@),
    {
        let key = Key { bytes: sha256_digest(preimage) };
        proof {
            lemma_key_ext(key, key_at(preimage@));
        }
        key
    }

    /// The key with the given bytes, which are taken as already hashed.
    pub fn from_bytes(bytes: [u8; 32]) -> (key: Key)
        ensures
            key.bytes == bytes,
    {
        Key { bytes }
    }

    /// Whether two keys are the same point.
    pub fn same(&self, other: &Key) -> (r: bool)
        ensures
            r == (*self == *other),
    {
        let mut i: usize = 0;
        while i < 32
            invariant
                0 <= i <= 32,
                forall|j: int| 0 <= j < i ==> self@[j] == other@[j],
            decreases 32 - i,
        {
            if self.bytes[i] != other.bytes[i] {
                return false;
            }
            i += 1;
        }
        proof {
            assert(self@ =~= other@);
            lemma_key_ext(*self, *other);
        }
        true
    }

    /// The XOR distance between this key and `other`.
    pub fn distance(&self, other: &Key) -> (d: Distance)
        ensures
            d@ == xor_seq(self@, other@),
            d.value() == distance(*self, *other),
    {
        let mut out = [0u8; 32];
        let mut i: usize = 0;
        while i < 32
            invariant
                0 <= i <= 32,
                forall|j: int| 0 <= j < i ==> out@[j] == self@[j] ^ other@[j],
            decreases 32 - i,
        {
            out[i] = self.bytes[i] ^ other.bytes[i];
            i += 1;
        }
        assert(out@ =~= xor_seq(self@, other@));
        Distance { bytes: out }
    }

    /// The one key that lies at distance `d` from this key.
    pub fn for_distance(&self, d: &Distance) -> (key: Key)
        ensures
            xor_seq(key@, self@) == d@,
            distance(key, *self) == d.value(),
    {
        let mut out = [0u8; 32];
        let mut i: usize = 0;
        while i < 32
            invariant
                0 <= i <= 32,
                forall|j: int| 0 <= j < i ==> out@[j] == self@[j] ^ d@[j],
            decreases 32 - i,
        {
            out[i] = self.bytes[i] ^ d.bytes[i];
            i += 1;
        }
        let key = Key { bytes: out };
        proof {
            assert forall|j: int| 0 <= j < 32 implies xor_seq(key@, self@)[j] == d@[j] by {
                lemma_xor_byte(d@[j], self@[j], 0);
                lemma_xor_byte(self@[j], d@[j], 0);
            }
            assert(xor_seq(key@, self@) =~= d@);
        }
        key
    }

    /// The index of the bucket in which a table around this key keeps `other`;
    /// `None` for this key itself.
    pub fn bucket_index(&self, other: &Key) -> (r: Option<usize>)
        ensures
            r is None <==> *self == *other,
            r is Some ==> bucket_index_of(xor_seq(self@, other@)) == Some(r->0 as int) && r->0
                < 256,
    {
        proof {
            lemma_distance_self(*self);
            if distance(*self, *other) == 0 {
                lemma_distance_zero(*self, *other);
            }
        }
        self.distance(other).bucket_index()
    }
}

/// Calls `rand::random` for 32 bytes.
///
/// Trusted: nothing is claimed of the bytes, which differ from call to call.
#[verifier::external_body]
pub(crate) fn random_bytes() -> (out: [u8; 32]) {
    rand::random()
}

/// The distance whose highest one bit is bit `index` and whose lower bits
/// are those of `noise`.
pub open spec fn shaped(noise: Seq<u8>, index: int) -> Seq<u8> {
    let b = 31 - index / 8;
    let bit = (index % 8) as u8;
    Seq::new(
        32,
        |j: int|
            if j < b {
                0u8
            } else if j == b {
                (noise[j] & (((1u8 << bit) - 1) as u8)) | (1u8 << bit)
            } else {
                noise[j]
            },
    )
}

/// A byte whose highest one bit is bit `bit` has `7 - bit` leading zeros.
proof fn lemma_byte_leading_zeros(x: u8, bit: u8)
    requires
        bit < 8,
        x >> bit == 1u8,
    ensures
        u8::leading_zeros(x) == 7 - bit,
        x != 0,
{
    broadcast use vstd::std_specs::bits::axiom_u8_leading_zeros;

    assert(x != 0) by (bit_vector)
        requires
            bit < 8,
            x >> bit == 1u8,
    ;
    let z = u8::leading_zeros(x);
    assert(z < 8);
    let s1: u8 = (7 - z) as u8;
    let s2: u8 = (8 - z) as u8;
    assert((x >> s1) & 1u8 != 0u8);
    assert(x >> s2 == 0u8);
    assert(s1 == bit) by (bit_vector)
        requires
            bit < 8,
            s1 < 8,
            s2 == s1 + 1,
            x >> bit == 1u8,
            (x >> s1) & 1u8 != 0u8,
            x >> s2 == 0u8,
    ;
}

/// Zero bytes in front count eight leading zeros each.
proof fn lemma_leading_zero_bytes(s: Seq<u8>, b: int)
    requires
        0 <= b <= s.len(),
        forall|j: int| 0 <= j < b ==> s[j] == 0,
    ensures
        leading_zeros(s) == 8 * b + leading_zeros_from(s, b),
{
    lemma_leading_zero_bytes_from(s, 0, b);
}

/// Zero bytes from `a` to `b` count eight leading zeros each.
proof fn lemma_leading_zero_bytes_from(s: Seq<u8>, a: int, b: int)
    requires
        0 <= a <= b <= s.len(),
        forall|j: int| a <= j < b ==> s[j] == 0,
    ensures
        leading_zeros_from(s, a) == 8 * (b - a) + leading_zeros_from(s, b),
    decreases b - a,
{
    if a < b {
        lemma_leading_zero_bytes_from(s, a + 1, b);
    }
}

/// A shaped distance belongs to the bucket of its index.
pub proof fn lemma_shaped_bucket(noise: Seq<u8>, index: int)
    requires
        noise.len() == 32,
        0 <= index < 256,
    ensures
        bucket_index_of(shaped(noise, index)) == Some(index),
{
    let s = shaped(noise, index);
    let b = 31 - index / 8;
    let bit = (index % 8) as u8;
    let x = s[b];
    let n = noise[b];
    assert(x == (n & (((1u8 << bit) - 1) as u8)) | (1u8 << bit));
    let top: u8 = 1u8 << bit;
    let mask: u8 = ((1u8 << bit) - 1) as u8;
    assert(1 <= top) by (bit_vector)
        requires
            bit < 8,
            top == 1u8 << bit,
    ;
    assert(((n & mask) | top) >> bit == 1u8) by (bit_vector)
        requires
            bit < 8,
            top == 1u8 << bit,
            mask == top - 1,
    ;
    lemma_byte_leading_zeros(x, bit);
    lemma_leading_zero_bytes(s, b);
    lemma_be_value_zero(s);
    assert(leading_zeros_from(s, b) == u8::leading_zeros(x) as nat);
}

impl Key {
    /// The key in bucket `index` of a table around this key whose distance
    /// from this key has the lower bits of `noise`.
    pub fn in_bucket(&self, index: usize, noise: &[u8; 32]) -> (key: Key)
        requires
            index < 256,
        ensures
            xor_seq(key@, self@) == shaped(noise@, index as int),
            bucket_index_of(xor_seq(self@, key@)) == Some(index as int),
    {
        let b: usize = 31 - index / 8;
        let bit: u8 = (index % 8) as u8;
        let mut d = [0u8; 32];
        let mut j: usize = b + 1;
        while j < 32
            invariant
                b < j <= 32,
                forall|x: int| 0 <= x <= b ==> d@[x] == 0,
                forall|x: int| b < x < j ==> d@[x] == noise@[x],
            decreases 32 - j,
        {
            d[j] = noise[j];
            j += 1;
        }
        let top: u8 = 1u8 << bit;
        assert(1 <= top) by (bit_vector)
            requires
                bit < 8,
                top == 1u8 << bit,
        ;
        let mask: u8 = top - 1;
        d[b] = (noise[b] & mask) | top;
        let dist = Distance { bytes: d };
        proof {
            assert(dist@ =~= shaped(noise@, index as int));
            lemma_shaped_bucket(noise@, index as int);
        }
        let key = self.for_distance(&dist);
        proof {
            assert forall|x: int| 0 <= x < 32 implies xor_seq(self@, key@)[x] == xor_seq(
                key@,
                self@,
            )[x] by {
                lemma_xor_byte(self@[x], key@[x], 0);
            }
            assert(xor_seq(self@, key@) =~= xor_seq(key@, self@));
        }
        key
    }

    /// A key drawn at random from bucket `index` of a table around this key.
    pub fn random_in_bucket(&self, index: usize) -> (key: Key)
        requires
            index < 256,
        ensures
            bucket_index_of(xor_seq(self@, key@)) == Some(index as int),
    {
        let noise = random_bytes();
        self.in_bucket(index, &noise)
    }
}

} // verus!
