//! Canonical binary encoding of the values that triggers and transactions are
//! made of: fixed-width integers, identifiers, length-prefixed byte strings.
//!
//! Every format is given twice: as a spec function that says which bytes stand
//! for a value, and as a spec parser that reads a value off the front of a byte
//! sequence and says how many bytes it took. The lemmas relate the two, and
//! the executable readers and writers are proved against them.
use vstd::prelude::*;

verus! {

/// Longest sequence that the canonical encoding admits.
pub const MAX_SEQUENCE_LENGTH: usize = 2147483647;

/// Width in bytes of an encoded identifier.
pub const ID_LENGTH: usize = 16;

/// The bytes of a value could not be read as the canonical encoding of that
/// value.
#[derive(Clone, Copy, Debug, PartialEq, Eq, Structural)]
pub struct DecodeError {}

// ---------------------------------------------------------------------------
// Fixed-width integers
// ---------------------------------------------------------------------------
/// 256 to the power `n`.
pub open spec fn radix_pow(n: nat) -> nat
    decreases n,
{
    if n == 0 {
        1
    } else {
        256 * radix_pow((n - 1) as nat)
    }
}

/// The number that `s` spells with its least significant byte first.
pub open spec fn le_value(s: Seq<u8>) -> nat
    decreases s.len(),
{
    if s.len() == 0 {
        0
    } else {
        s[0] as nat + 256 * le_value(s.skip(1))
    }
}

/// The `n` low bytes of `v`, least significant first.
pub open spec fn le_bytes(v: nat, n: nat) -> Seq<u8>
    decreases n,
{
    if n == 0 {
        Seq::empty()
    } else {
        seq![(v % 256) as u8] + le_bytes(v / 256, (n - 1) as nat)
    }
}

/// The number that `s` spells with its most significant byte first.
pub open spec fn be_value(s: Seq<u8>) -> nat
    decreases s.len(),
{
    if s.len() == 0 {
        0
    } else {
        256 * be_value(s.drop_last()) + s.last() as nat
    }
}

/// The `n` low bytes of `v`, most significant first.
pub open spec fn be_bytes(v: nat, n: nat) -> Seq<u8>
    decreases n,
{
    if n == 0 {
        Seq::empty()
    } else {
        be_bytes(v / 256, (n - 1) as nat).push((v % 256) as u8)
    }
}

/// The powers of 256 that the widths of the integers need.
pub proof fn lemma_radix_pow_values()
    ensures
        radix_pow(0) == 1,
        radix_pow(1) == 0x100,
        radix_pow(8) == 0x1_0000_0000_0000_0000,
        radix_pow(16) == 0x1_0000_0000_0000_0000_0000_0000_0000_0000,
{
    reveal_with_fuel(radix_pow, 17);
}

/// A number is written in as many bytes as are asked for.
pub proof fn lemma_le_bytes_len(v: nat, n: nat)
    ensures
        le_bytes(v, n).len() == n,
    decreases n,
{
    if n > 0 {
        lemma_le_bytes_len(v / 256, (n - 1) as nat);
    }
}

/// A number is written in as many bytes as are asked for.
pub proof fn lemma_be_bytes_len(v: nat, n: nat)
    ensures
        be_bytes(v, n).len() == n,
    decreases n,
{
    if n > 0 {
        lemma_be_bytes_len(v / 256, (n - 1) as nat);
    }
}

/// What `n` bytes spell is below 256 to the power `n`.
pub proof fn lemma_le_value_bound(s: Seq<u8>)
    ensures
        le_value(s) < radix_pow(s.len()),
    decreases s.len(),
{
    if s.len() > 0 {
        lemma_le_value_bound(s.skip(1));
    }
}

/// What `n` bytes spell is below 256 to the power `n`.
pub proof fn lemma_be_value_bound(s: Seq<u8>)
    ensures
        be_value(s) < radix_pow(s.len()),
    decreases s.len(),
{
    if s.len() > 0 {
        lemma_be_value_bound(s.drop_last());
    }
}

/// Reading back the bytes written for a number that fits gives the number.
pub proof fn lemma_le_value_of_bytes(v: nat, n: nat)
    requires
        v < radix_pow(n),
    ensures
        le_value(le_bytes(v, n)) == v,
    decreases n,
{
    if n > 0 {
        let rest = le_bytes(v / 256, (n - 1) as nat);
        let s = le_bytes(v, n);
        lemma_le_bytes_len(v / 256, (n - 1) as nat);
        assert(s.skip(1) =~= rest);
        assert(v / 256 < radix_pow((n - 1) as nat));
        lemma_le_value_of_bytes(v / 256, (n - 1) as nat);
    }
}

/// Writing the number that a byte string spells gives the byte string back.
pub proof fn lemma_le_bytes_of_value(s: Seq<u8>)
    ensures
        le_bytes(le_value(s), s.len()) == s,
    decreases s.len(),
{
    if s.len() > 0 {
        let v = le_value(s);
        let rest = s.skip(1);
        lemma_le_bytes_of_value(rest);
        assert(v % 256 == s[0] as nat && v / 256 == le_value(rest));
        assert(le_bytes(v, s.len()) =~= s);
    } else {
        assert(le_bytes(le_value(s), s.len()) =~= s);
    }
}

/// Reading back the bytes written for a number that fits gives the number.
pub proof fn lemma_be_value_of_bytes(v: nat, n: nat)
    requires
        v < radix_pow(n),
    ensures
        be_value(be_bytes(v, n)) == v,
    decreases n,
{
    if n > 0 {
        let front = be_bytes(v / 256, (n - 1) as nat);
        let s = be_bytes(v, n);
        assert(s.drop_last() =~= front);
        assert(v / 256 < radix_pow((n - 1) as nat));
        lemma_be_value_of_bytes(v / 256, (n - 1) as nat);
    }
}

/// Writing the number that a byte string spells gives the byte string back.
pub proof fn lemma_be_bytes_of_value(s: Seq<u8>)
    ensures
        be_bytes(be_value(s), s.len()) == s,
    decreases s.len(),
{
    if s.len() > 0 {
        let v = be_value(s);
        let front = s.drop_last();
        lemma_be_bytes_of_value(front);
        assert(v % 256 == s.last() as nat && v / 256 == be_value(front));
        assert(be_bytes(v, s.len()) =~= s);
    } else {
        assert(be_bytes(be_value(s), s.len()) =~= s);
    }
}

// ---------------------------------------------------------------------------
// Reading and writing fixed-width integers
// ---------------------------------------------------------------------------
/// Reads the eight bytes at `pos` as a number, least significant byte first.
pub fn read_u64_le(bytes: &[u8], pos: usize) -> (r: u64)
    requires
        pos + 8 <= bytes@.len(),
    ensures
        r == le_value(bytes@.subrange(pos as int, pos + 8)),
{
    let ghost s = bytes@.subrange(pos as int, pos + 8);
    let total: usize = bytes.len();
    let mut v: u64 = 0;
    let mut i: usize = 8;
    proof {
        assert(s.skip(8) =~= Seq::<u8>::empty());
    }
    while i > 0
        invariant
            i <= 8,
            pos + 8 <= bytes@.len() == total,
            s == bytes@.subrange(pos as int, pos + 8),
            v == le_value(s.skip(i as int)),
        decreases i,
    {
        i -= 1;
        proof {
            let t = s.skip(i as int);
            assert(t.skip(1) =~= s.skip(i + 1));
            lemma_le_value_bound(t);
            lemma_radix_pow_values();
            assert(radix_pow(t.len()) <= radix_pow(8)) by {
                reveal_with_fuel(radix_pow, 9);
            }
        }
        v = v * 256 + bytes[pos + i] as u64;
    }
    proof {
        assert(s.skip(0) =~= s);
    }
    v
}

/// Appends the eight bytes of `v`, least significant byte first.
pub fn write_u64_le(out: &mut Vec<u8>, v: u64)
    ensures
        final(out)@ == old(out)@ + le_bytes(v as nat, 8),
{
    let mut cur: u64 = v;
    let mut i: usize = 0;
    while i < 8
        invariant
            i <= 8,
            out@ + le_bytes(cur as nat, (8 - i) as nat) == old(out)@ + le_bytes(v as nat, 8),
        decreases 8 - i,
    {
        let ghost before = out@;
        out.push((cur % 256) as u8);
        proof {
            let tail = le_bytes((cur / 256) as nat, (8 - i - 1) as nat);
            assert(le_bytes(cur as nat, (8 - i) as nat) == seq![(cur % 256) as u8] + tail);
            assert(out@ + tail =~= before + (seq![(cur % 256) as u8] + tail));
        }
        cur = cur / 256;
        i += 1;
    }
    proof {
        assert(out@ + le_bytes(cur as nat, 0) =~= out@);
    }
}

/// Reads the sixteen bytes at `pos` as a number, most significant byte first.
pub fn read_u128_be(bytes: &[u8], pos: usize) -> (r: u128)
    requires
        pos + 16 <= bytes@.len(),
    ensures
        r == be_value(bytes@.subrange(pos as int, pos + 16)),
{
    let ghost s = bytes@.subrange(pos as int, pos + 16);
    let total: usize = bytes.len();
    let mut v: u128 = 0;
    let mut i: usize = 0;
    proof {
        assert(s.take(0) =~= Seq::<u8>::empty());
    }
    while i < 16
        invariant
            i <= 16,
            pos + 16 <= bytes@.len() == total,
            s == bytes@.subrange(pos as int, pos + 16),
            v == be_value(s.take(i as int)),
        decreases 16 - i,
    {
        proof {
            let t = s.take(i + 1);
            assert(t.drop_last() =~= s.take(i as int));
            lemma_be_value_bound(s.take(i as int));
            assert(radix_pow(i as nat) <= radix_pow(15)) by {
                reveal_with_fuel(radix_pow, 17);
            }
            assert(radix_pow(15) * 256 == radix_pow(16)) by {
                reveal_with_fuel(radix_pow, 17);
            }
            lemma_radix_pow_values();
        }
        v = v * 256 + bytes[pos + i] as u128;
        i += 1;
    }
    proof {
        assert(s.take(16) =~= s);
    }
    v
}

/// Appends the sixteen bytes of `v`, most significant byte first.
pub fn write_u128_be(out: &mut Vec<u8>, v: u128)
    ensures
        final(out)@ == old(out)@ + be_bytes(v as nat, 16),
{
    let mut buf: Vec<u8> = Vec::new();
    let mut k: usize = 0;
    while k < 16
        invariant
            k <= 16,
            buf@.len() == k,
        decreases 16 - k,
    {
        buf.push(0u8);
        k += 1;
    }
    let mut cur: u128 = v;
    let mut i: usize = 16;
    proof {
        lemma_be_bytes_len(v as nat, 16);
        assert(be_bytes(cur as nat, 16) + buf@.subrange(16, 16) =~= be_bytes(v as nat, 16));
    }
    while i > 0
        invariant
            i <= 16,
            buf@.len() == 16,
            be_bytes(cur as nat, i as nat) + buf@.subrange(i as int, 16) == be_bytes(v as nat, 16),
        decreases i,
    {
        let ghost before = buf@;
        i -= 1;
        buf.set(i, (cur % 256) as u8);
        proof {
            let front = be_bytes((cur / 256) as nat, i as nat);
            lemma_be_bytes_len((cur / 256) as nat, i as nat);
            assert(be_bytes(cur as nat, (i + 1) as nat) == front.push((cur % 256) as u8));
            assert(front + buf@.subrange(i as int, 16) =~= front.push((cur % 256) as u8)
                + before.subrange(i + 1, 16));
        }
        cur = cur / 256;
    }
    proof {
        assert(be_bytes(cur as nat, 0) + buf@.subrange(0, 16) =~= buf@);
    }
    let mut j: usize = 0;
    while j < 16
        invariant
            j <= 16,
            buf@ == be_bytes(v as nat, 16),
            buf@.len() == 16,
            out@ == old(out)@ + buf@.take(j as int),
        decreases 16 - j,
    {
        out.push(buf[j]);
        proof {
            assert(buf@.take(j + 1) =~= buf@.take(j as int).push(buf@[j as int]));
        }
        j += 1;
    }
    proof {
        assert(buf@.take(16) =~= buf@);
    }
}

// ---------------------------------------------------------------------------
// Variable-length numbers
// ---------------------------------------------------------------------------
/// The variable-length encoding of `n`: seven bits to a byte, the low bits
/// first, and the top bit set on every byte but the last.
pub open spec fn uleb128(n: nat) -> Seq<u8>
    decreases n,
{
    if n < 128 {
        seq![n as u8]
    } else {
        seq![(128 + n % 128) as u8] + uleb128(n / 128)
    }
}

/// Reads a variable-length number off the front of `s` and gives it with the
/// number of bytes it took. Only the shortest encoding of a number is read:
/// one that ends in a zero byte after other bytes is refused.
pub open spec fn take_uleb128(s: Seq<u8>) -> Option<(nat, nat)>
    decreases s.len(),
{
    if s.len() == 0 {
        None
    } else if s[0] < 128 {
        Some((s[0] as nat, 1nat))
    } else {
        match take_uleb128(s.skip(1)) {
            Some((high, taken)) => if high > 0 {
                Some((((s[0] - 128) as nat + 128 * high) as nat, taken + 1))
            } else {
                None
            },
            None => None,
        }
    }
}

/// 128 to the power `n`.
pub open spec fn group_pow(n: nat) -> nat
    decreases n,
{
    if n == 0 {
        1
    } else {
        128 * group_pow((n - 1) as nat)
    }
}

/// A number is read back from its encoding, whatever follows it.
pub proof fn lemma_take_uleb128_of_encoding(n: nat, rest: Seq<u8>)
    ensures
        take_uleb128(uleb128(n) + rest) == Some((n, uleb128(n).len())),
    decreases n,
{
    let s = uleb128(n) + rest;
    if n < 128 {
        assert(s[0] == n as u8);
    } else {
        let tail = uleb128(n / 128);
        assert(s[0] == (128 + n % 128) as u8);
        assert(s.skip(1) =~= tail + rest);
        lemma_take_uleb128_of_encoding(n / 128, rest);
        assert(uleb128(n).len() == tail.len() + 1);
    }
}

/// What is read off the front of `s` is a number whose encoding is that front.
pub proof fn lemma_uleb128_of_taken(s: Seq<u8>)
    ensures
        match take_uleb128(s) {
            Some((n, taken)) => 0 < taken <= s.len() && s.take(taken as int) == uleb128(n) && (taken
                > 1 ==> n >= group_pow((taken - 1) as nat)),
            None => true,
        },
    decreases s.len(),
{
    if s.len() == 0 {
    } else if s[0] < 128 {
        assert(s.take(1) =~= seq![s[0]]);
    } else {
        lemma_uleb128_of_taken(s.skip(1));
        match take_uleb128(s.skip(1)) {
            Some((high, taken)) => {
                if high > 0 {
                    let n = ((s[0] - 128) as nat + 128 * high) as nat;
                    assert(n >= 128 && n % 128 == (s[0] - 128) as nat && n / 128 == high);
                    assert(uleb128(n) == seq![(128 + n % 128) as u8] + uleb128(high));
                    assert(s.take((taken + 1) as int) =~= seq![s[0]] + s.skip(1).take(
                        taken as int,
                    ));
                    assert(high >= group_pow((taken - 1) as nat));
                    assert(group_pow(taken) == 128 * group_pow((taken - 1) as nat));
                }
            },
            None => {},
        }
    }
}

/// Reads a sequence length: a variable-length number no larger than the
/// longest sequence admitted.
pub open spec fn take_length(s: Seq<u8>) -> Option<(nat, nat)> {
    match take_uleb128(s) {
        Some((n, taken)) => if n <= MAX_SEQUENCE_LENGTH {
            Some((n, taken))
        } else {
            None
        },
        None => None,
    }
}

/// The encoding of a byte string: its length, then its bytes.
pub open spec fn bytes_encoding(b: Seq<u8>) -> Seq<u8> {
    uleb128(b.len()) + b
}

/// Reads a length-prefixed byte string off the front of `s`.
pub open spec fn take_bytes(s: Seq<u8>) -> Option<(Seq<u8>, nat)> {
    match take_length(s) {
        Some((n, taken)) => if taken + n <= s.len() {
            Some((s.subrange(taken as int, (taken + n) as int), taken + n))
        } else {
            None
        },
        None => None,
    }
}

/// A byte string that is not too long is read back from its encoding.
pub proof fn lemma_take_bytes_of_encoding(b: Seq<u8>, rest: Seq<u8>)
    requires
        b.len() <= MAX_SEQUENCE_LENGTH,
    ensures
        take_bytes(bytes_encoding(b) + rest) == Some((b, bytes_encoding(b).len())),
{
    let prefix = uleb128(b.len());
    let s = bytes_encoding(b) + rest;
    assert(s =~= prefix + (b + rest));
    lemma_take_uleb128_of_encoding(b.len(), b + rest);
    assert(s.subrange(prefix.len() as int, (prefix.len() + b.len()) as int) =~= b);
}

/// What is read off the front of `s` is a byte string whose encoding is that
/// front.
pub proof fn lemma_bytes_encoding_of_taken(s: Seq<u8>)
    ensures
        match take_bytes(s) {
            Some((b, taken)) => taken <= s.len() && s.take(taken as int) == bytes_encoding(b)
                && b.len() <= MAX_SEQUENCE_LENGTH,
            None => true,
        },
{
    lemma_uleb128_of_taken(s);
    match take_bytes(s) {
        Some((b, taken)) => {
            let k = take_length(s).unwrap().1;
            assert(s.take(taken as int) =~= s.take(k as int) + b);
        },
        None => {},
    }
}

/// The encoding of a truth value: one byte, 1 or 0.
pub open spec fn bool_encoding(b: bool) -> Seq<u8> {
    seq![if b { 1u8 } else { 0u8 }]
}

/// Reads a truth value off the front of `s`.
pub open spec fn take_bool(s: Seq<u8>) -> Option<(bool, nat)> {
    if s.len() >= 1 && s[0] <= 1 {
        Some((s[0] == 1, 1nat))
    } else {
        None
    }
}

/// Reads an eight-byte number off the front of `s`.
pub open spec fn take_u64(s: Seq<u8>) -> Option<(u64, nat)> {
    if s.len() >= 8 {
        Some((le_value(s.take(8)) as u64, 8nat))
    } else {
        None
    }
}

/// Reads a sixteen-byte identifier off the front of `s`, as a number.
pub open spec fn take_id(s: Seq<u8>) -> Option<(u128, nat)> {
    if s.len() >= 16 {
        Some((be_value(s.take(16)) as u128, 16nat))
    } else {
        None
    }
}

/// An eight-byte number is read back from its bytes, whatever follows them.
pub proof fn lemma_take_u64_of_encoding(v: u64, rest: Seq<u8>)
    ensures
        le_bytes(v as nat, 8).len() == 8,
        take_u64(le_bytes(v as nat, 8) + rest) == Some((v, 8nat)),
{
    let e = le_bytes(v as nat, 8);
    lemma_le_bytes_len(v as nat, 8);
    lemma_radix_pow_values();
    lemma_le_value_of_bytes(v as nat, 8);
    assert((e + rest).take(8) =~= e);
}

/// The eight bytes that a number was read from are the number's bytes.
pub proof fn lemma_u64_encoding_of_taken(s: Seq<u8>)
    ensures
        match take_u64(s) {
            Some((v, taken)) => taken == 8 && taken <= s.len() && s.take(8) == le_bytes(
                v as nat,
                8,
            ),
            None => true,
        },
{
    if s.len() >= 8 {
        lemma_le_value_bound(s.take(8));
        lemma_radix_pow_values();
        lemma_le_bytes_of_value(s.take(8));
    }
}

/// A sixteen-byte identifier is read back from its bytes, whatever follows
/// them.
pub proof fn lemma_take_id_of_encoding(v: u128, rest: Seq<u8>)
    ensures
        be_bytes(v as nat, 16).len() == 16,
        take_id(be_bytes(v as nat, 16) + rest) == Some((v, 16nat)),
{
    let e = be_bytes(v as nat, 16);
    lemma_be_bytes_len(v as nat, 16);
    lemma_radix_pow_values();
    lemma_be_value_of_bytes(v as nat, 16);
    assert((e + rest).take(16) =~= e);
}

/// The sixteen bytes that an identifier was read from are the identifier's
/// bytes.
pub proof fn lemma_id_encoding_of_taken(s: Seq<u8>)
    ensures
        match take_id(s) {
            Some((v, taken)) => taken == 16 && taken <= s.len() && s.take(16) == be_bytes(
                v as nat,
                16,
            ),
            None => true,
        },
{
    if s.len() >= 16 {
        lemma_be_value_bound(s.take(16));
        lemma_radix_pow_values();
        lemma_be_bytes_of_value(s.take(16));
    }
}

/// A truth value is read back from its byte, whatever follows it.
pub proof fn lemma_take_bool_of_encoding(b: bool, rest: Seq<u8>)
    ensures
        take_bool(bool_encoding(b) + rest) == Some((b, 1nat)),
{
    assert((bool_encoding(b) + rest)[0] == bool_encoding(b)[0]);
}

/// The byte that a truth value was read from is the value's byte.
pub proof fn lemma_bool_encoding_of_taken(s: Seq<u8>)
    ensures
        match take_bool(s) {
            Some((b, taken)) => taken == 1 && taken <= s.len() && s.take(1) == bool_encoding(b),
            None => true,
        },
{
    if s.len() >= 1 && s[0] <= 1 {
        assert(s.take(1) =~= bool_encoding(s[0] == 1));
    }
}

// ---------------------------------------------------------------------------
// Readers and writers
// ---------------------------------------------------------------------------
/// What reading a variable-length number gives once `i` bytes with the top
/// bit set have been passed: their groups add up to `acc`, and `inner` is
/// what is read from the bytes after them.
spec fn continued(acc: nat, i: nat, inner: Option<(nat, nat)>) -> Option<(nat, nat)> {
    if i == 0 {
        inner
    } else {
        match inner {
            Some((high, taken)) => if high > 0 {
                Some((acc + group_pow(i) * high, taken + i))
            } else {
                None
            },
            None => None,
        }
    }
}

proof fn lemma_continued_step(acc: nat, i: nat, rest: Seq<u8>)
    requires
        rest.len() > 0,
        rest[0] >= 128,
        i == 0 ==> acc == 0,
    ensures
        continued(acc, i, take_uleb128(rest)) == continued(
            acc + group_pow(i) * ((rest[0] - 128) as nat),
            i + 1,
            take_uleb128(rest.skip(1)),
        ),
{
    let low = (rest[0] - 128) as nat;
    let g = group_pow(i);
    assert(group_pow(i + 1) == 128 * g);
    assert(group_pow(0) == 1);
    let inner = take_uleb128(rest.skip(1));
    match inner {
        Some((high, taken)) => {
            if high > 0 {
                let v = (low + 128 * high) as nat;
                assert(take_uleb128(rest) == Some((v, taken + 1)));
                assert(g * (low + 128 * high) == g * low + (128 * g) * high)
                    by (nonlinear_arith);
                if i == 0 {
                    assert(g * low == low) by (nonlinear_arith)
                        requires
                            g == 1,
                    ;
                    assert(group_pow(1) * high == 128 * high) by (nonlinear_arith)
                        requires
                            group_pow(1) == 128,
                    ;
                }
            } else {
                assert(take_uleb128(rest) is None);
            }
        },
        None => {
            assert(take_uleb128(rest) is None);
        },
    }
}

/// Reads a variable-length number of at most 32 bits at `pos`, and gives it
/// with the position after it.
pub fn read_uleb128(bytes: &[u8], pos: usize) -> (r: Option<(u32, usize)>)
    requires
        pos <= bytes@.len(),
    ensures
        match r {
            Some((v, next)) => pos < next <= bytes@.len() && take_uleb128(bytes@.skip(pos as int))
                == Some((v as nat, (next - pos) as nat)),
            None => match take_uleb128(bytes@.skip(pos as int)) {
                Some((n, _)) => n > u32::MAX,
                None => true,
            },
        },
{
    let ghost s = bytes@.skip(pos as int);
    let total: usize = bytes.len();
    let mut acc: u64 = 0;
    let mut mult: u64 = 1;
    let mut i: usize = 0;
    proof {
        assert(s.skip(0) =~= s);
    }
    while i < 5
        invariant
            i <= 5,
            pos + i <= total == bytes@.len(),
            s == bytes@.skip(pos as int),
            mult == group_pow(i as nat),
            acc < mult,
            take_uleb128(s) == continued(acc as nat, i as nat, take_uleb128(s.skip(i as int))),
        decreases 5 - i,
    {
        proof {
            reveal_with_fuel(group_pow, 7);
        }
        let ghost rest = s.skip(i as int);
        if i >= total - pos {
            assert(rest.len() == 0);
            return None;
        }
        let b: u8 = bytes[pos + i];
        assert(rest[0] == b);
        assert(mult <= 268435456);
        if b < 128 {
            if i > 0 && b == 0 {
                return None;
            }
            assert(mult * (b as u64) <= mult * 127) by (nonlinear_arith)
                requires
                    b <= 127,
            ;
            let value: u64 = acc + mult * (b as u64);
            proof {
                assert(take_uleb128(rest) == Some((b as nat, 1nat)));
                let product = group_pow(i as nat) * (b as nat);
                assert(mult * (b as u64) == product) by (nonlinear_arith)
                    requires
                        mult == group_pow(i as nat),
                        product == group_pow(i as nat) * (b as nat),
                ;
                if i == 0 {
                    assert(acc == 0 && mult == 1);
                    assert(product == b as nat) by (nonlinear_arith)
                        requires
                            product == group_pow(i as nat) * (b as nat),
                            group_pow(i as nat) == 1,
                    ;
                } else {
                    assert(take_uleb128(s) == Some(((acc as nat + product) as nat, (1 + i) as nat)));
                }
                assert(value == acc as nat + product);
                assert(take_uleb128(s) == Some((value as nat, (i + 1) as nat)));
            }
            if value > u32::MAX as u64 {
                return None;
            }
            return Some((value as u32, pos + i + 1));
        }
        proof {
            lemma_continued_step(acc as nat, i as nat, rest);
            assert(rest.skip(1) =~= s.skip(i + 1));
        }
        assert(mult * ((b - 128) as u64) <= mult * 127) by (nonlinear_arith)
            requires
                b - 128 <= 127,
                b >= 128,
        ;
        acc = acc + mult * ((b - 128) as u64);
        mult = mult * 128;
        i += 1;
    }
    proof {
        reveal_with_fuel(group_pow, 7);
        match take_uleb128(s.skip(5)) {
            Some((high, taken)) => {
                if high > 0 {
                    assert(group_pow(5) * high >= group_pow(5)) by (nonlinear_arith)
                        requires
                            high > 0,
                    ;
                }
            },
            None => {},
        }
    }
    None
}

/// Appends the variable-length encoding of `n`.
pub fn write_uleb128(out: &mut Vec<u8>, n: usize)
    ensures
        final(out)@ == old(out)@ + uleb128(n as nat),
{
    let mut cur: usize = n;
    while cur >= 128
        invariant
            out@ + uleb128(cur as nat) == old(out)@ + uleb128(n as nat),
        decreases cur,
    {
        let ghost before = out@;
        out.push((128 + cur % 128) as u8);
        proof {
            let tail = uleb128((cur / 128) as nat);
            assert(uleb128(cur as nat) == seq![(128 + cur % 128) as u8] + tail);
            assert(out@ + tail =~= before + (seq![(128 + cur % 128) as u8] + tail));
        }
        cur = cur / 128;
    }
    let ghost before = out@;
    out.push(cur as u8);
    proof {
        assert(out@ =~= before + uleb128(cur as nat));
    }
}

/// Reads a sequence length at `pos`, and gives it with the position after it.
pub fn read_length(bytes: &[u8], pos: usize) -> (r: Option<(usize, usize)>)
    requires
        pos <= bytes@.len(),
    ensures
        match r {
            Some((n, next)) => pos < next <= bytes@.len() && take_length(bytes@.skip(pos as int))
                == Some((n as nat, (next - pos) as nat)),
            None => take_length(bytes@.skip(pos as int)) is None,
        },
{
    match read_uleb128(bytes, pos) {
        Some((v, next)) => {
            if v as usize > MAX_SEQUENCE_LENGTH {
                None
            } else {
                Some((v as usize, next))
            }
        },
        None => None,
    }
}

/// Reads a length-prefixed byte string at `pos`, and gives it with the
/// position after it.
pub fn read_bytes(bytes: &[u8], pos: usize) -> (r: Option<(Vec<u8>, usize)>)
    requires
        pos <= bytes@.len(),
    ensures
        match r {
            Some((b, next)) => pos < next <= bytes@.len() && take_bytes(bytes@.skip(pos as int))
                == Some((b@, (next - pos) as nat)),
            None => take_bytes(bytes@.skip(pos as int)) is None,
        },
{
    let total: usize = bytes.len();
    match read_length(bytes, pos) {
        Some((n, start)) => {
            if n > total - start {
                return None;
            }
            let mut b: Vec<u8> = Vec::new();
            let mut i: usize = 0;
            while i < n
                invariant
                    i <= n,
                    start + n <= total == bytes@.len(),
                    b@ == bytes@.subrange(start as int, start + i),
                decreases n - i,
            {
                b.push(bytes[start + i]);
                proof {
                    assert(bytes@.subrange(start as int, start + i + 1) =~= bytes@.subrange(
                        start as int,
                        start + i,
                    ).push(bytes@[start + i]));
                }
                i += 1;
            }
            proof {
                let s = bytes@.skip(pos as int);
                assert(s.subrange(start - pos, start - pos + n) =~= bytes@.subrange(
                    start as int,
                    start + n,
                ));
            }
            Some((b, start + n))
        },
        None => None,
    }
}

/// Appends the encoding of the byte string `b`.
pub fn write_bytes(out: &mut Vec<u8>, b: &Vec<u8>)
    ensures
        final(out)@ == old(out)@ + bytes_encoding(b@),
{
    write_uleb128(out, b.len());
    let ghost mid = out@;
    let mut i: usize = 0;
    while i < b.len()
        invariant
            i <= b.len(),
            out@ == mid + b@.take(i as int),
        decreases b.len() - i,
    {
        out.push(b[i]);
        proof {
            assert(b@.take(i + 1) =~= b@.take(i as int).push(b@[i as int]));
        }
        i += 1;
    }
    proof {
        assert(b@.take(b@.len() as int) =~= b@);
        assert(mid + b@ =~= old(out)@ + bytes_encoding(b@));
    }
}

/// Reads a truth value at `pos`, and gives it with the position after it.
pub fn read_bool(bytes: &[u8], pos: usize) -> (r: Option<(bool, usize)>)
    requires
        pos <= bytes@.len(),
    ensures
        match r {
            Some((b, next)) => next == pos + 1 && next <= bytes@.len() && take_bool(
                bytes@.skip(pos as int),
            ) == Some((b, 1nat)),
            None => take_bool(bytes@.skip(pos as int)) is None,
        },
{
    if pos >= bytes.len() {
        return None;
    }
    let b: u8 = bytes[pos];
    assert(bytes@.skip(pos as int)[0] == b);
    if b > 1 {
        None
    } else {
        Some((b == 1, pos + 1))
    }
}

/// Appends the encoding of the truth value `b`.
pub fn write_bool(out: &mut Vec<u8>, b: bool)
    ensures
        final(out)@ == old(out)@ + bool_encoding(b),
{
    out.push(if b { 1u8 } else { 0u8 });
    proof {
        assert(out@ =~= old(out)@ + bool_encoding(b));
    }
}

/// Reads an eight-byte number at `pos`, and gives it with the position after
/// it.
pub fn read_u64(bytes: &[u8], pos: usize) -> (r: Option<(u64, usize)>)
    requires
        pos <= bytes@.len(),
    ensures
        match r {
            Some((v, next)) => next == pos + 8 && next <= bytes@.len() && take_u64(
                bytes@.skip(pos as int),
            ) == Some((v, 8nat)),
            None => take_u64(bytes@.skip(pos as int)) is None,
        },
{
    if bytes.len() - pos < 8 {
        return None;
    }
    let v = read_u64_le(bytes, pos);
    proof {
        assert(bytes@.skip(pos as int).take(8) =~= bytes@.subrange(pos as int, pos + 8));
    }
    Some((v, pos + 8))
}

/// Reads a sixteen-byte identifier at `pos` as a number, and gives it with
/// the position after it.
pub fn read_id(bytes: &[u8], pos: usize) -> (r: Option<(u128, usize)>)
    requires
        pos <= bytes@.len(),
    ensures
        match r {
            Some((v, next)) => next == pos + 16 && next <= bytes@.len() && take_id(
                bytes@.skip(pos as int),
            ) == Some((v, 16nat)),
            None => take_id(bytes@.skip(pos as int)) is None,
        },
{
    if bytes.len() - pos < 16 {
        return None;
    }
    let v = read_u128_be(bytes, pos);
    proof {
        assert(bytes@.skip(pos as int).take(16) =~= bytes@.subrange(pos as int, pos + 16));
    }
    Some((v, pos + 16))
}

// ---------------------------------------------------------------------------
// The order of byte strings
// ---------------------------------------------------------------------------
/// Whether the byte string `a` comes before `b`: at the first place where
/// they differ `a` has the smaller byte, or `a` ends before `b` does.
pub open spec fn bytes_before(a: Seq<u8>, b: Seq<u8>) -> bool
    decreases a.len(),
{
    if b.len() == 0 {
        false
    } else if a.len() == 0 {
        true
    } else if a[0] != b[0] {
        a[0] < b[0]
    } else {
        bytes_before(a.skip(1), b.skip(1))
    }
}

/// Of two byte strings that differ, one comes before the other; and none
/// comes before itself.
pub proof fn lemma_bytes_before_total(a: Seq<u8>, b: Seq<u8>)
    ensures
        a != b ==> (bytes_before(a, b) <==> !bytes_before(b, a)),
        a == b ==> !bytes_before(a, b),
    decreases a.len(),
{
    if a.len() == 0 || b.len() == 0 {
        if a.len() == 0 && b.len() == 0 {
            assert(a =~= b);
        }
    } else if a[0] == b[0] {
        lemma_bytes_before_total(a.skip(1), b.skip(1));
        if a.skip(1) == b.skip(1) {
            assert(a =~= seq![a[0]] + a.skip(1));
            assert(b =~= seq![b[0]] + b.skip(1));
        }
    }
}

/// What comes before something that comes before a third comes before the
/// third.
pub proof fn lemma_bytes_before_transitive(a: Seq<u8>, b: Seq<u8>, c: Seq<u8>)
    requires
        bytes_before(a, b),
        bytes_before(b, c),
    ensures
        bytes_before(a, c),
    decreases a.len(),
{
    if a.len() > 0 && a[0] == b[0] && b[0] == c[0] {
        lemma_bytes_before_transitive(a.skip(1), b.skip(1), c.skip(1));
    }
}

/// Whether the byte string `a` comes before `b`.
pub fn bytes_come_before(a: &Vec<u8>, b: &Vec<u8>) -> (r: bool)
    ensures
        r == bytes_before(a@, b@),
{
    let mut i: usize = 0;
    proof {
        assert(a@.skip(0) =~= a@);
        assert(b@.skip(0) =~= b@);
    }
    while i < a.len() && i < b.len()
        invariant
            i <= a.len(),
            i <= b.len(),
            bytes_before(a@, b@) == bytes_before(a@.skip(i as int), b@.skip(i as int)),
        decreases a.len() - i,
    {
        proof {
            assert(a@.skip(i as int)[0] == a@[i as int]);
            assert(b@.skip(i as int)[0] == b@[i as int]);
            assert(a@.skip(i as int).skip(1) =~= a@.skip(i + 1));
            assert(b@.skip(i as int).skip(1) =~= b@.skip(i + 1));
        }
        if a[i] != b[i] {
            return a[i] < b[i];
        }
        i += 1;
    }
    i < b.len()
}

/// With one more byte at the end of each of two byte strings of one length,
/// the order is that of the strings, and that of the new bytes where the
/// strings are the same.
pub proof fn lemma_bytes_before_push(a: Seq<u8>, b: Seq<u8>, p: u8, q: u8)
    requires
        a.len() == b.len(),
    ensures
        bytes_before(a.push(p), b.push(q)) == if a == b {
            p < q
        } else {
            bytes_before(a, b)
        },
    decreases a.len(),
{
    let x = a.push(p);
    let y = b.push(q);
    if a.len() == 0 {
        reveal_with_fuel(bytes_before, 2);
        assert(a =~= b);
        assert(x[0] == p && y[0] == q);
        assert(x.skip(1) =~= Seq::<u8>::empty());
        assert(y.skip(1) =~= Seq::<u8>::empty());
    } else {
        assert(x[0] == a[0] && y[0] == b[0]);
        assert(x.skip(1) =~= a.skip(1).push(p));
        assert(y.skip(1) =~= b.skip(1).push(q));
        lemma_bytes_before_push(a.skip(1), b.skip(1), p, q);
        if a[0] == b[0] {
            if a.skip(1) == b.skip(1) {
                assert(a =~= seq![a[0]] + a.skip(1));
                assert(b =~= seq![b[0]] + b.skip(1));
            }
        }
    }
}

/// Numbers are ordered as their bytes are, most significant byte first.
pub proof fn lemma_be_bytes_order(a: nat, b: nat, n: nat)
    requires
        a < radix_pow(n),
        b < radix_pow(n),
    ensures
        a < b <==> bytes_before(be_bytes(a, n), be_bytes(b, n)),
    decreases n,
{
    if n > 0 {
        let m = (n - 1) as nat;
        let x = be_bytes(a / 256, m);
        let y = be_bytes(b / 256, m);
        lemma_be_bytes_len(a / 256, m);
        lemma_be_bytes_len(b / 256, m);
        lemma_be_bytes_order(a / 256, b / 256, m);
        lemma_bytes_before_push(x, y, (a % 256) as u8, (b % 256) as u8);
        lemma_be_value_of_bytes(a / 256, m);
        lemma_be_value_of_bytes(b / 256, m);
        lemma_bytes_before_total(x, y);
    }
}

/// Appends the eight bytes of `v`, most significant byte first.
pub fn write_u64_be(out: &mut Vec<u8>, v: u64)
    ensures
        final(out)@ == old(out)@ + be_bytes(v as nat, 8),
{
    let mut buf: Vec<u8> = Vec::new();
    let mut k: usize = 0;
    while k < 8
        invariant
            k <= 8,
            buf@.len() == k,
        decreases 8 - k,
    {
        buf.push(0u8);
        k += 1;
    }
    let mut cur: u64 = v;
    let mut i: usize = 8;
    proof {
        lemma_be_bytes_len(v as nat, 8);
        assert(be_bytes(cur as nat, 8) + buf@.subrange(8, 8) =~= be_bytes(v as nat, 8));
    }
    while i > 0
        invariant
            i <= 8,
            buf@.len() == 8,
            be_bytes(cur as nat, i as nat) + buf@.subrange(i as int, 8) == be_bytes(v as nat, 8),
        decreases i,
    {
        let ghost before = buf@;
        i -= 1;
        buf.set(i, (cur % 256) as u8);
        proof {
            let front = be_bytes((cur / 256) as nat, i as nat);
            lemma_be_bytes_len((cur / 256) as nat, i as nat);
            assert(be_bytes(cur as nat, (i + 1) as nat) == front.push((cur % 256) as u8));
            assert(front + buf@.subrange(i as int, 8) =~= front.push((cur % 256) as u8)
                + before.subrange(i + 1, 8));
        }
        cur = cur / 256;
    }
    proof {
        assert(be_bytes(cur as nat, 0) + buf@.subrange(0, 8) =~= buf@);
    }
    let mut j: usize = 0;
    while j < 8
        invariant
            j <= 8,
            buf@ == be_bytes(v as nat, 8),
            buf@.len() == 8,
            out@ == old(out)@ + buf@.take(j as int),
        decreases 8 - j,
    {
        out.push(buf[j]);
        proof {
            assert(buf@.take(j + 1) =~= buf@.take(j as int).push(buf@[j as int]));
        }
        j += 1;
    }
    proof {
        assert(buf@.take(8) =~= buf@);
    }
}

} // verus!
