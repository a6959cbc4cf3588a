//! Big-endian encoding of integers into fixed-width byte strings and back.
use vstd::arithmetic::div_mod::{
    lemma_div_denominator, lemma_fundamental_div_mod, lemma_fundamental_div_mod_converse, lemma_mod_mod,
};
use vstd::prelude::*;

verus! {

/// `256` raised to the power `k`.
pub open spec fn pow256(k: nat) -> nat
    decreases k,
{
    if k == 0 {
        1
    } else {
        256 * pow256((k - 1) as nat)
    }
}

/// The number that a byte string denotes when read most significant byte first.
pub open spec fn be_value(s: Seq<u8>) -> nat
    decreases s.len(),
{
    if s.len() == 0 {
        0
    } else {
        be_value(s.drop_last()) * 256 + s.last() as nat
    }
}

/// The `n` lowest bytes of `v`, most significant first: byte `j` is digit `n - 1 - j`
/// of `v` in base 256.
pub open spec fn be_bytes(v: nat, n: nat) -> Seq<u8> {
    Seq::new(n, |j: int| ((v / pow256((n - 1 - j) as nat)) % 256) as u8)
}

/// Two's-complement reading of a 32-bit pattern.
pub open spec fn as_i32(n: nat) -> int {
    if n < 0x8000_0000 {
        n as int
    } else {
        n - 0x1_0000_0000
    }
}

pub proof fn lemma_pow256_positive(k: nat)
    ensures
        pow256(k) > 0,
    decreases k,
{
    if k > 0 {
        lemma_pow256_positive((k - 1) as nat);
    }
}

/// One step of reading a big-endian number modulo `256 * k`: the reduced prefix, cut down
/// modulo `k`, shifted by a byte and completed by the next byte, is the reduced longer prefix.
proof fn lemma_be_step_mod(x: nat, b: nat, k: nat)
    requires
        b < 256,
        k > 0,
    ensures
        ((x % (k * 256)) % k) * 256 + b == (x * 256 + b) % (k * 256),
        ((x % (k * 256)) % k) * 256 + b < k * 256,
{
    lemma_mod_mod(x as int, k as int, 256);
    let q = x / k;
    let r = x % k;
    assert(x == q * k + r) by {
        lemma_fundamental_div_mod(x as int, k as int);
        assert(k * q == q * k) by (nonlinear_arith);
    }
    assert(0 <= r * 256 + b < k * 256) by (nonlinear_arith)
        requires
            0 <= r < k,
            b < 256,
    ;
    assert(x * 256 + b == q * (k * 256) + (r * 256 + b)) by (nonlinear_arith)
        requires
            x == q * k + r,
    ;
    lemma_fundamental_div_mod_converse(
        (x * 256 + b) as int,
        (k * 256) as int,
        q as int,
        (r * 256 + b) as int,
    );
}

proof fn lemma_be_value_take_step(s: Seq<u8>, i: int)
    requires
        0 <= i < s.len(),
    ensures
        be_value(s.take(i + 1)) == be_value(s.take(i)) * 256 + s[i],
{
    assert(s.take(i + 1).drop_last() =~= s.take(i));
}

/// Writes the `bytes` lowest bytes of `value`, most significant first.
fn to_big_endian(value: u128, bytes: usize) -> (out: Vec<u8>)
    ensures
        out@ == be_bytes(value as nat, bytes as nat),
{
    let mut out: Vec<u8> = vec![0u8; bytes];
    let mut v: u128 = value;
    let mut i: usize = 0;
    assert(pow256(0) == 1);
    while i < bytes
        invariant
            0 <= i <= bytes,
            out@.len() == bytes,
            v as nat == (value as nat) / pow256(i as nat),
            forall|j: int|
                0 <= j < i ==> #[trigger] out@[bytes - 1 - j] == (((value as nat) / pow256(
                    j as nat,
                )) % 256) as u8,
        decreases bytes - i,
    {
        out.set(bytes - 1 - i, (v % 256) as u8);
        proof {
            lemma_pow256_positive(i as nat);
            lemma_div_denominator(value as int, pow256(i as nat) as int, 256);
            assert(pow256((i + 1) as nat) == pow256(i as nat) * 256);
        }
        v = v / 256;
        i = i + 1;
    }
    proof {
        assert forall|k: int| 0 <= k < bytes implies out@[k] == be_bytes(
            value as nat,
            bytes as nat,
        )[k] by {
            let j = bytes - 1 - k;
            assert(out@[bytes - 1 - j] == (((value as nat) / pow256(j as nat)) % 256) as u8);
        }
        assert(out@ =~= be_bytes(value as nat, bytes as nat));
    }
    out
}

/// Reads the first `bytes` bytes of `data` as a big-endian number, keeping its lowest 64 bits.
fn from_big_endian_u64(data: &[u8], bytes: usize) -> (value: u64)
    requires
        bytes <= data@.len(),
    ensures
        value == be_value(data@.take(bytes as int)) % 0x1_0000_0000_0000_0000,
{
    let mut value: u64 = 0;
    let mut i: usize = 0;
    assert(data@.take(0) =~= Seq::<u8>::empty());
    while i < bytes
        invariant
            0 <= i <= bytes <= data@.len(),
            value == be_value(data@.take(i as int)) % 0x1_0000_0000_0000_0000,
        decreases bytes - i,
    {
        proof {
            lemma_be_value_take_step(data@, i as int);
            lemma_be_step_mod(
                be_value(data@.take(i as int)),
                data@[i as int] as nat,
                0x100_0000_0000_0000,
            );
        }
        value = (value % 0x100_0000_0000_0000) * 256 + data[i] as u64;
        i = i + 1;
    }
    value
}

/// Reads the first `bytes` bytes of `data` as a big-endian number, keeping its lowest 32 bits.
fn from_big_endian_u32(data: &[u8], bytes: usize) -> (value: u32)
    requires
        bytes <= data@.len(),
    ensures
        value == be_value(data@.take(bytes as int)) % 0x1_0000_0000,
{
    let mut value: u32 = 0;
    let mut i: usize = 0;
    assert(data@.take(0) =~= Seq::<u8>::empty());
    while i < bytes
        invariant
            0 <= i <= bytes <= data@.len(),
            value == be_value(data@.take(i as int)) % 0x1_0000_0000,
        decreases bytes - i,
    {
        proof {
            lemma_be_value_take_step(data@, i as int);
            lemma_be_step_mod(be_value(data@.take(i as int)), data@[i as int] as nat, 0x100_0000);
        }
        value = (value % 0x100_0000) * 256 + data[i] as u32;
        i = i + 1;
    }
    value
}

/// Reads the first `bytes` bytes of `data` as a big-endian number, keeping as many low
/// bits as a `usize` holds.
fn from_big_endian_usize(data: &[u8], bytes: usize) -> (value: usize)
    requires
        bytes <= data@.len(),
    ensures
        value == be_value(data@.take(bytes as int)) % (usize::MAX as nat + 1),
{
    let k: usize = usize::MAX / 256 + 1;
    assert(k * 256 == usize::MAX + 1) by {
        assert(usize::MAX == 0xffff_ffff || usize::MAX == 0xffff_ffff_ffff_ffff);
    }
    let mut value: usize = 0;
    let mut i: usize = 0;
    assert(data@.take(0) =~= Seq::<u8>::empty());
    assert(be_value(Seq::<u8>::empty()) == 0);
    while i < bytes
        invariant
            0 <= i <= bytes <= data@.len(),
            k * 256 == usize::MAX + 1,
            value == be_value(data@.take(i as int)) % (usize::MAX as nat + 1),
        decreases bytes - i,
    {
        proof {
            lemma_be_value_take_step(data@, i as int);
            lemma_be_step_mod(be_value(data@.take(i as int)), data@[i as int] as nat, k as nat);
        }
        value = (value % k) * 256 + data[i] as usize;
        i = i + 1;
    }
    value
}

/// Big-endian bytes of `v`, sign-extended to 128 bits, keeping the `b` lowest bytes.
pub fn int_to_be(v: i32, b: usize) -> (out: Vec<u8>)
    ensures
        out@ == be_bytes((v as u128) as nat, b as nat),
{
    to_big_endian(v as u128, b)
}

/// The first `b` bytes of `v` as a big-endian number, whose lowest 32 bits are read
/// in two's complement.
pub fn be_to_int(v: &[u8], b: usize) -> (n: i32)
    requires
        b <= v@.len(),
    ensures
        n == as_i32(be_value(v@.take(b as int)) % 0x1_0000_0000),
{
    let u = from_big_endian_u32(v, b);
    let n = u as i32;
    assert(u < 0x8000_0000 ==> n == u) by (bit_vector)
        requires
            n == u as i32,
    ;
    assert(u >= 0x8000_0000 ==> n == u - 0x1_0000_0000) by (bit_vector)
        requires
            n == u as i32,
    ;
    n
}

/// Big-endian bytes of `v`, keeping the `b` lowest bytes.
pub fn size_to_be(v: usize, b: usize) -> (out: Vec<u8>)
    ensures
        out@ == be_bytes(v as nat, b as nat),
{
    to_big_endian(v as u128, b)
}

/// The first `b` bytes of `v` as a big-endian number, modulo the range of `usize`.
pub fn be_to_size(v: &[u8], b: usize) -> (n: usize)
    requires
        b <= v@.len(),
    ensures
        n == be_value(v@.take(b as int)) % (usize::MAX as nat + 1),
{
    from_big_endian_usize(v, b)
}

/// Big-endian bytes of `v`, keeping the `b` lowest bytes.
pub fn u32_to_be(v: u32, b: usize) -> (out: Vec<u8>)
    ensures
        out@ == be_bytes(v as nat, b as nat),
{
    to_big_endian(v as u128, b)
}

/// The first `b` bytes of `v` as a big-endian number, modulo `2^32`.
pub fn be_to_u32(v: &[u8], b: usize) -> (n: u32)
    requires
        b <= v@.len(),
    ensures
        n == be_value(v@.take(b as int)) % 0x1_0000_0000,
{
    from_big_endian_u32(v, b)
}

/// Big-endian bytes of `v`, keeping the `b` lowest bytes.
pub fn u64_to_be(v: u64, b: usize) -> (out: Vec<u8>)
    ensures
        out@ == be_bytes(v as nat, b as nat),
{
    to_big_endian(v as u128, b)
}

/// The first `b` bytes of `v` as a big-endian number, modulo `2^64`.
pub fn be_to_u64(v: &[u8], b: usize) -> (n: u64)
    requires
        b <= v@.len(),
    ensures
        n == be_value(v@.take(b as int)) % 0x1_0000_0000_0000_0000,
{
    from_big_endian_u64(v, b)
}

/// The last of `n` bytes of `v` is its lowest byte; the others are the `n - 1`
/// bytes of `v / 256`.
proof fn lemma_be_bytes_split(v: nat, n: nat)
    requires
        n > 0,
    ensures
        be_bytes(v, n).drop_last() == be_bytes(v / 256, (n - 1) as nat),
        be_bytes(v, n).last() == v % 256,
{
    let m = (n - 1) as nat;
    let b = be_bytes(v, n);
    assert forall|j: int| 0 <= j < m implies #[trigger] b.drop_last()[j] == be_bytes(
        v / 256,
        m,
    )[j] by {
        let k = (m - 1 - j) as nat;
        lemma_pow256_positive(k);
        assert(pow256((n - 1 - j) as nat) == 256 * pow256(k));
        lemma_div_denominator(v as int, 256, pow256(k) as int);
    }
    assert(b.drop_last() =~= be_bytes(v / 256, m));
    assert(pow256(0) == 1);
    assert(b.last() == b[n - 1]);
    assert(v / 1 == v);
}

pub proof fn lemma_pow256_add(a: nat, b: nat)
    ensures
        pow256(a + b) == pow256(a) * pow256(b),
    decreases a,
{
    if a > 0 {
        let a1 = (a - 1) as nat;
        lemma_pow256_add(a1, b);
        assert((a1 + b) as nat == (a + b - 1) as nat);
        assert(pow256(a + b) == 256 * pow256(a1 + b));
        assert(pow256(a) == 256 * pow256(a1));
        assert(256 * (pow256(a1) * pow256(b)) == (256 * pow256(a1)) * pow256(b)) by (nonlinear_arith);
    } else {
        assert(pow256(0) == 1);
        assert(a + b == b);
        assert(1 * pow256(b) == pow256(b));
    }
}

/// A number read from `s` is below `256` to the length of `s`.
pub proof fn lemma_be_value_bound(s: Seq<u8>)
    ensures
        be_value(s) < pow256(s.len()),
    decreases s.len(),
{
    if s.len() > 0 {
        let d = s.drop_last();
        lemma_be_value_bound(d);
        let p = pow256(d.len());
        assert(pow256(s.len()) == 256 * p);
        assert(be_value(d) * 256 + s.last() < 256 * p) by (nonlinear_arith)
            requires
                be_value(d) < p,
                s.last() < 256,
        ;
    }
}

/// Writing `v` on `n` bytes and reading them back gives `v` modulo `256^n`.
pub proof fn law_be_roundtrip_mod(v: nat, n: nat)
    ensures
        be_bytes(v, n).len() == n,
        be_value(be_bytes(v, n)) == v % pow256(n),
    decreases n,
{
    if n == 0 {
        assert(be_bytes(v, n) =~= Seq::<u8>::empty());
        assert(pow256(0) == 1);
    } else {
        let m = (n - 1) as nat;
        lemma_pow256_positive(m);
        law_be_roundtrip_mod(v / 256, m);
        lemma_be_bytes_split(v, n);
        vstd::arithmetic::div_mod::lemma_breakdown(v as int, 256, pow256(m) as int);
        assert(pow256(n) == 256 * pow256(m));
        assert(be_value(be_bytes(v, n)) == ((v / 256) % pow256(m)) * 256 + v % 256);
        assert(((v / 256) % pow256(m)) * 256 == 256 * ((v / 256) % pow256(m))) by (nonlinear_arith);
    }
}

/// Writing `v` on `n` bytes and reading them back gives `v`, when it fits.
pub proof fn law_be_roundtrip(v: nat, n: nat)
    requires
        v < pow256(n),
    ensures
        be_bytes(v, n).len() == n,
        be_value(be_bytes(v, n)) == v,
{
    law_be_roundtrip_mod(v, n);
    vstd::arithmetic::div_mod::lemma_small_mod(v, pow256(n));
}

/// Reading a byte string as a number and writing the number back on as many
/// bytes gives the same bytes.
pub proof fn law_be_bytes_of_value(s: Seq<u8>)
    ensures
        be_bytes(be_value(s), s.len()) == s,
    decreases s.len(),
{
    if s.len() > 0 {
        let d = s.drop_last();
        law_be_bytes_of_value(d);
        lemma_be_bytes_split(be_value(s), s.len());
        let v = be_value(s);
        assert(v == be_value(d) * 256 + s.last() as nat);
        vstd::arithmetic::div_mod::lemma_fundamental_div_mod_converse(
            v as int,
            256,
            be_value(d) as int,
            s.last() as int,
        );
        let e = be_bytes(v, s.len());
        assert(e =~= e.drop_last().push(e.last()));
        assert(s =~= d.push(s.last()));
        assert(e =~= s);
    } else {
        assert(be_bytes(be_value(s), 0) =~= s);
    }
}

/// The fixed-width writers and readers agree: reading back `b` written bytes
/// gives the written value whenever it fits on `b` bytes.
pub proof fn law_be_fixed_roundtrip(v: nat, b: nat)
    requires
        v < pow256(b),
    ensures
        be_value(be_bytes(v, b).take(b as int)) == v,
{
    law_be_roundtrip(v, b);
    assert(be_bytes(v, b).take(b as int) =~= be_bytes(v, b));
}

/// `u64_to_be` then `be_to_u64` on `b` bytes gives `x` modulo `256^b`: all of
/// `x` from eight bytes on.
pub proof fn law_u64_roundtrip(x: u64, b: nat)
    ensures
        be_value(be_bytes(x as nat, b).take(b as int)) % 0x1_0000_0000_0000_0000 == (x as nat)
            % pow256(b),
        b >= 8 ==> be_value(be_bytes(x as nat, b).take(b as int)) % 0x1_0000_0000_0000_0000
            == x,
{
    law_be_roundtrip_mod(x as nat, b);
    assert(be_bytes(x as nat, b).take(b as int) =~= be_bytes(x as nat, b));
    lemma_pow256_positive(b);
    let r = (x as nat) % pow256(b);
    assert(r <= x) by {
        vstd::arithmetic::div_mod::lemma_mod_decreases(x as nat, pow256(b));
    }
    vstd::arithmetic::div_mod::lemma_small_mod(r, 0x1_0000_0000_0000_0000);
    if b >= 8 {
        lemma_pow256_add(8, (b - 8) as nat);
        assert(pow256(8) == 0x1_0000_0000_0000_0000) by {
            reveal_with_fuel(pow256, 9);
        }
        lemma_pow256_positive((b - 8) as nat);
        assert(pow256(b) >= 0x1_0000_0000_0000_0000) by (nonlinear_arith)
            requires
                pow256(b) == 0x1_0000_0000_0000_0000 * pow256((b - 8) as nat),
                pow256((b - 8) as nat) > 0,
        ;
        vstd::arithmetic::div_mod::lemma_small_mod(x as nat, pow256(b));
    }
}

/// `size_to_be` then `be_to_size` on `b` bytes gives `x` modulo `256^b`.
pub proof fn law_size_roundtrip(x: usize, b: nat)
    ensures
        be_value(be_bytes(x as nat, b).take(b as int)) % (usize::MAX as nat + 1) == (x as nat)
            % pow256(b),
{
    law_be_roundtrip_mod(x as nat, b);
    assert(be_bytes(x as nat, b).take(b as int) =~= be_bytes(x as nat, b));
    lemma_pow256_positive(b);
    let r = (x as nat) % pow256(b);
    assert(r <= x) by {
        vstd::arithmetic::div_mod::lemma_mod_decreases(x as nat, pow256(b));
    }
    vstd::arithmetic::div_mod::lemma_small_mod(r, usize::MAX as nat + 1);
}

/// `be_to_size` then `size_to_be` on `b` bytes gives the bytes back when
/// `b` bytes fit a `usize`.
pub proof fn law_size_bytes_roundtrip(v: Seq<u8>, b: nat)
    requires
        v.len() == b,
        pow256(b) <= usize::MAX as nat + 1,
    ensures
        be_bytes(be_value(v.take(b as int)) % (usize::MAX as nat + 1), b) == v,
{
    assert(v.take(b as int) =~= v);
    lemma_be_value_bound(v);
    vstd::arithmetic::div_mod::lemma_small_mod(be_value(v), usize::MAX as nat + 1);
    law_be_bytes_of_value(v);
}

/// `be_to_u64` then `u64_to_be` on `b` bytes gives the bytes back for at most
/// eight bytes.
pub proof fn law_u64_bytes_roundtrip(v: Seq<u8>, b: nat)
    requires
        v.len() == b,
        b <= 8,
    ensures
        be_bytes(be_value(v.take(b as int)) % 0x1_0000_0000_0000_0000, b) == v,
{
    assert(v.take(b as int) =~= v);
    lemma_be_value_bound(v);
    lemma_pow256_add(b, (8 - b) as nat);
    assert(pow256(8) == 0x1_0000_0000_0000_0000) by {
        reveal_with_fuel(pow256, 9);
    }
    lemma_pow256_positive((8 - b) as nat);
    lemma_pow256_positive(b);
    assert(pow256(b) <= 0x1_0000_0000_0000_0000) by (nonlinear_arith)
        requires
            0x1_0000_0000_0000_0000 == pow256(b) * pow256((8 - b) as nat),
            pow256((8 - b) as nat) > 0,
    ;
    vstd::arithmetic::div_mod::lemma_small_mod(be_value(v), 0x1_0000_0000_0000_0000);
    law_be_bytes_of_value(v);
}

/// `int_to_be` then `be_to_int` on four or more bytes gives the number back,
/// negative numbers included.
pub proof fn law_int_roundtrip(x: i32, b: nat)
    requires
        b >= 4,
    ensures
        as_i32(be_value(be_bytes((x as u128) as nat, b).take(b as int)) % 0x1_0000_0000) == x,
{
    let u = x as u128;
    law_be_roundtrip_mod(u as nat, b);
    assert(be_bytes(u as nat, b).take(b as int) =~= be_bytes(u as nat, b));
    lemma_pow256_add(4, (b - 4) as nat);
    assert(pow256(4) == 0x1_0000_0000) by {
        reveal_with_fuel(pow256, 5);
    }
    lemma_pow256_positive((b - 4) as nat);
    lemma_mod_mod(u as int, 0x1_0000_0000, pow256((b - 4) as nat) as int);
    let low = u % 0x1_0000_0000;
    assert(low == ((x as u32) as u128)) by (bit_vector)
        requires
            u == x as u128,
            low == u % 0x1_0000_0000,
    ;
    let w = x as u32;
    assert(x >= 0 ==> w == x) by (bit_vector)
        requires
            w == x as u32,
    ;
    assert(x < 0 ==> w == x + 0x1_0000_0000) by (bit_vector)
        requires
            w == x as u32,
    ;
}

} // verus!
