//! Integers as bytes: two's complement, least significant byte first.

use vstd::prelude::*;

verus! {

/// 256 to the power `n`: the number of values that `n` bytes can hold.
pub open spec fn pow256(n: nat) -> nat
    decreases n,
{
    if n == 0 {
        1
    } else {
        256 * pow256((n - 1) as nat)
    }
}

/// The `width` least significant bytes of `v` in two's complement, the
/// least significant first.
pub open spec fn le_bytes(v: int, width: nat) -> Seq<u8>
    decreases width,
{
    if width == 0 {
        Seq::empty()
    } else {
        seq![(v % 256) as u8] + le_bytes(v / 256, (width - 1) as nat)
    }
}

/// The number that the bytes spell, read as unsigned, the least significant
/// byte first.
pub open spec fn le_value(bytes: Seq<u8>) -> nat
    decreases bytes.len(),
{
    if bytes.len() == 0 {
        0
    } else {
        bytes[0] as nat + 256 * le_value(bytes.drop_first())
    }
}

/// The integer of `width` bytes, signed or not, that `v` becomes when it is
/// narrowed: the one in the range of that kind that differs from `v` by a
/// multiple of `256^width`.
pub open spec fn narrow(v: int, width: nat, signed: bool) -> int {
    let modulus = pow256(width) as int;
    let low = v % modulus;
    if signed && 2 * low >= modulus {
        low - modulus
    } else {
        low
    }
}

/// Whether `v` is in the range of the integers of `width` bytes.
pub open spec fn in_range(v: int, width: nat, signed: bool) -> bool {
    if signed {
        -(pow256(width) as int) <= 2 * v < pow256(width) as int
    } else {
        0 <= v < pow256(width) as int
    }
}

/// The integer that the bytes hold, signed or not.
pub open spec fn decoded(bytes: Seq<u8>, signed: bool) -> int {
    narrow(le_value(bytes) as int, bytes.len(), signed)
}

/// The integer that the host sees when it reads the bytes: the integer that
/// they hold, as a signed 64-bit number.
pub open spec fn host_integer(bytes: Seq<u8>, signed: bool) -> int {
    narrow(decoded(bytes, signed), 8, true)
}

/// The powers of 256 that up to eight bytes call for.
pub proof fn lemma_pow256_values()
    ensures
        pow256(0) == 1,
        pow256(1) == 0x100,
        pow256(2) == 0x1_0000,
        pow256(3) == 0x100_0000,
        pow256(4) == 0x1_0000_0000,
        pow256(5) == 0x100_0000_0000,
        pow256(6) == 0x1_0000_0000_0000,
        pow256(7) == 0x100_0000_0000_0000,
        pow256(8) == 0x1_0000_0000_0000_0000,
{
    reveal_with_fuel(pow256, 9);
}

/// Every power of 256 is above zero.
pub proof fn lemma_pow256_positive(n: nat)
    ensures
        pow256(n) > 0,
    decreases n,
{
    if n > 0 {
        lemma_pow256_positive((n - 1) as nat);
    }
}

/// The bytes have the width asked for.
pub proof fn lemma_le_bytes_len(v: int, width: nat)
    ensures
        le_bytes(v, width).len() == width,
    decreases width,
{
    if width > 0 {
        lemma_le_bytes_len(v / 256, (width - 1) as nat);
    }
}

/// The bytes spell a number below `256^len`.
pub proof fn lemma_le_value_bound(bytes: Seq<u8>)
    ensures
        le_value(bytes) < pow256(bytes.len()),
    decreases bytes.len(),
{
    if bytes.len() > 0 {
        lemma_le_value_bound(bytes.drop_first());
    }
}

/// Reading what was written gives the number back, up to a multiple of
/// `256^width`.
pub proof fn lemma_le_value_of_le_bytes(v: int, width: nat)
    ensures
        le_value(le_bytes(v, width)) == v % (pow256(width) as int),
    decreases width,
{
    lemma_pow256_positive(width);
    if width == 0 {
        assert(v % 1 == 0);
    } else {
        let rest = (width - 1) as nat;
        lemma_pow256_positive(rest);
        lemma_le_value_of_le_bytes(v / 256, rest);
        let bytes = le_bytes(v, width);
        assert(bytes.drop_first() =~= le_bytes(v / 256, rest));
        assert(bytes[0] == (v % 256) as u8);
        let p = pow256(rest) as int;
        let t = v / 256;
        let r0 = v % 256;
        let q1 = t / p;
        let r1 = t % p;
        vstd::arithmetic::div_mod::lemma_fundamental_div_mod(v, 256);
        vstd::arithmetic::div_mod::lemma_fundamental_div_mod(t, p);
        vstd::arithmetic::div_mod::lemma_mod_bound(t, p);
        assert(v == q1 * (256 * p) + (256 * r1 + r0)) by (nonlinear_arith)
            requires
                v == 256 * t + r0,
                t == p * q1 + r1,
        ;
        assert(256 * r1 + r0 < 256 * p) by (nonlinear_arith)
            requires
                0 <= r1 < p,
                0 <= r0 < 256,
        ;
        vstd::arithmetic::div_mod::lemma_fundamental_div_mod_converse(
            v,
            256 * p,
            q1,
            256 * r1 + r0,
        );
        assert(256 * p == pow256(width));
    }
}

/// Writing what was read gives the bytes back.
pub proof fn lemma_le_bytes_of_le_value(bytes: Seq<u8>)
    ensures
        le_bytes(le_value(bytes) as int, bytes.len()) == bytes,
    decreases bytes.len(),
{
    if bytes.len() == 0 {
        assert(le_bytes(0, 0) =~= bytes);
    } else {
        let tail = bytes.drop_first();
        lemma_le_bytes_of_le_value(tail);
        let v = le_value(bytes) as int;
        let t = le_value(tail) as int;
        assert(v == bytes[0] as int + 256 * t);
        assert(v % 256 == bytes[0] as int && v / 256 == t) by {
            vstd::arithmetic::div_mod::lemma_fundamental_div_mod_converse(
                v,
                256,
                t,
                bytes[0] as int,
            );
        }
        assert(le_bytes(v, bytes.len()) =~= bytes);
    }
}

/// Numbers that differ by a multiple of `256^width` have the same bytes.
pub proof fn lemma_le_bytes_congruent(v: int, c: int, width: nat)
    ensures
        le_bytes(v + c * (pow256(width) as int), width) == le_bytes(v, width),
    decreases width,
{
    if width > 0 {
        let rest = (width - 1) as nat;
        let p = pow256(rest) as int;
        let w = v + c * (pow256(width) as int);
        assert(w == v + (c * p) * 256) by (nonlinear_arith)
            requires
                w == v + c * (256 * p),
        ;
        vstd::arithmetic::div_mod::lemma_mod_multiples_vanish(c * p, v, 256);
        assert(w % 256 == v % 256);
        assert(w / 256 == v / 256 + c * p) by {
            vstd::arithmetic::div_mod::lemma_fundamental_div_mod(v, 256);
            vstd::arithmetic::div_mod::lemma_fundamental_div_mod_converse(
                w,
                256,
                v / 256 + c * p,
                v % 256,
            );
        }
        lemma_le_bytes_congruent(v / 256, c, rest);
    }
}

/// A number in range narrows to itself.
pub proof fn lemma_narrow_in_range(v: int, width: nat, signed: bool)
    requires
        in_range(v, width, signed),
    ensures
        narrow(v, width, signed) == v,
{
    let m = pow256(width) as int;
    lemma_pow256_positive(width);
    if v >= 0 {
        vstd::arithmetic::div_mod::lemma_small_mod(v as nat, m as nat);
    } else {
        vstd::arithmetic::div_mod::lemma_small_mod((v + m) as nat, m as nat);
        vstd::arithmetic::div_mod::lemma_mod_multiples_vanish(1, v, m);
    }
}

/// Narrowing gives a number in range.
pub proof fn lemma_narrow_range(v: int, width: nat, signed: bool)
    ensures
        in_range(narrow(v, width, signed), width, signed),
{
    let m = pow256(width) as int;
    lemma_pow256_positive(width);
    vstd::arithmetic::div_mod::lemma_mod_bound(v, m);
}

/// The narrowed number has the bytes of the number itself.
pub proof fn lemma_narrow_bytes(v: int, width: nat, signed: bool)
    ensures
        le_bytes(narrow(v, width, signed), width) == le_bytes(v, width),
{
    let m = pow256(width) as int;
    lemma_pow256_positive(width);
    vstd::arithmetic::div_mod::lemma_fundamental_div_mod(v, m);
    let q = v / m;
    let low = v % m;
    assert(v == low + q * m) by (nonlinear_arith)
        requires
            v == m * q + low,
    ;
    lemma_le_bytes_congruent(low, q, width);
    if signed && 2 * low >= m {
        lemma_le_bytes_congruent(low - m, 1, width);
        assert(low - m + 1 * m == low);
    }
}

/// What is read back from the bytes of `v` is `v` narrowed to the kind.
pub proof fn lemma_decoded_of_le_bytes(v: int, width: nat, signed: bool)
    ensures
        decoded(le_bytes(v, width), signed) == narrow(v, width, signed),
{
    lemma_le_bytes_len(v, width);
    lemma_le_value_of_le_bytes(v, width);
    let m = pow256(width) as int;
    lemma_pow256_positive(width);
    vstd::arithmetic::div_mod::lemma_mod_twice(v, m);
}


/// `256^(a + b)` is `256^a * 256^b`.
pub proof fn lemma_pow256_split(a: nat, b: nat)
    ensures
        pow256(a + b) == pow256(a) * pow256(b),
    decreases a,
{
    if a == 0 {
        assert(pow256(0 + b) == 1 * pow256(b));
    } else {
        lemma_pow256_split((a - 1) as nat, b);
        assert(pow256(a + b) == 256 * pow256((a - 1 + b) as nat));
        assert(256 * (pow256((a - 1) as nat) * pow256(b)) == (256 * pow256((a - 1) as nat))
            * pow256(b)) by (nonlinear_arith);
    }
}

/// `256^width` for a width below eight bytes.
fn modulus(width: usize) -> (m: u64)
    requires
        width < 8,
    ensures
        m == pow256(width as nat),
{
    proof {
        lemma_pow256_values();
    }
    if width == 0 {
        1
    } else if width == 1 {
        0x100
    } else if width == 2 {
        0x1_0000
    } else if width == 3 {
        0x100_0000
    } else if width == 4 {
        0x1_0000_0000
    } else if width == 5 {
        0x100_0000_0000
    } else if width == 6 {
        0x1_0000_0000_0000
    } else {
        0x100_0000_0000_0000
    }
}

/// The `width` least significant bytes of an unsigned number.
pub fn encode_unsigned(u: u64, width: usize) -> (bytes: Vec<u8>)
    requires
        width <= 8,
    ensures
        bytes@ == le_bytes(u as int, width as nat),
{
    let mut bytes: Vec<u8> = Vec::new();
    let mut rest: u64 = u;
    let mut k: usize = 0;
    while k < width
        invariant
            k <= width,
            bytes@.len() == k,
            le_bytes(u as int, width as nat) == bytes@ + le_bytes(rest as int, (width - k) as nat),
        decreases width - k,
    {
        let ghost before = bytes@;
        let b: u8 = (rest % 256) as u8;
        bytes.push(b);
        proof {
            let tail = le_bytes((rest / 256) as int, (width - k - 1) as nat);
            assert(le_bytes(rest as int, (width - k) as nat) == seq![b] + tail);
            assert(bytes@ + tail =~= before + (seq![b] + tail));
        }
        rest = rest / 256;
        k += 1;
    }
    assert(bytes@ + le_bytes(rest as int, 0) =~= bytes@);
    bytes
}

/// The two's complement of a signed number: the unsigned number with the
/// same eight bytes.
pub fn to_unsigned(v: i64) -> (u: u64)
    ensures
        v >= 0 ==> u == v,
        v < 0 ==> u == v + pow256(8),
{
    proof {
        lemma_pow256_values();
    }
    if v >= 0 {
        v as u64
    } else {
        let above: u64 = (v - i64::MIN) as u64;
        above + 0x8000_0000_0000_0000
    }
}

/// The signed number with the same eight bytes as an unsigned one.
pub fn to_signed(u: u64) -> (v: i64)
    ensures
        v == narrow(u as int, 8, true),
{
    proof {
        lemma_pow256_values();
        vstd::arithmetic::div_mod::lemma_small_mod(u as nat, pow256(8));
    }
    if u < 0x8000_0000_0000_0000 {
        u as i64
    } else {
        let above: i64 = (u - 0x8000_0000_0000_0000) as i64;
        above + i64::MIN
    }
}

/// The `width` least significant bytes of a signed number, in two's
/// complement.
pub fn encode_integer(v: i64, width: usize) -> (bytes: Vec<u8>)
    requires
        width <= 8,
    ensures
        bytes@ == le_bytes(v as int, width as nat),
{
    let u = to_unsigned(v);
    proof {
        if v < 0 {
            lemma_pow256_split((8 - width) as nat, width as nat);
            lemma_le_bytes_congruent(v as int, pow256((8 - width) as nat) as int, width as nat);
        }
    }
    encode_unsigned(u, width)
}

/// The number that at most eight bytes spell, read as unsigned.
pub fn decode_unsigned(bytes: &Vec<u8>) -> (u: u64)
    requires
        bytes@.len() <= 8,
    ensures
        u == le_value(bytes@),
{
    let n = bytes.len();
    let mut u: u64 = 0;
    let mut k: usize = n;
    while k > 0
        invariant
            k <= n,
            n == bytes@.len(),
            n <= 8,
            u == le_value(bytes@.subrange(k as int, n as int)),
        decreases k,
    {
        proof {
            let tail = bytes@.subrange(k as int, n as int);
            let more = bytes@.subrange(k - 1, n as int);
            lemma_le_value_bound(tail);
            lemma_pow256_values();
            lemma_pow256_monotone(tail.len(), 7);
            assert(more.drop_first() =~= tail);
            assert(more[0] == bytes@[k - 1]);
        }
        k -= 1;
        u = u * 256 + bytes[k] as u64;
    }
    assert(bytes@.subrange(0, n as int) =~= bytes@);
    u
}

/// `256^n` grows with `n`.
pub proof fn lemma_pow256_monotone(a: nat, b: nat)
    requires
        a <= b,
    ensures
        pow256(a) <= pow256(b),
    decreases b,
{
    if a < b {
        lemma_pow256_monotone(a, (b - 1) as nat);
    }
}

/// The integer that the host sees in at most eight bytes.
pub fn decode_integer(bytes: &Vec<u8>, signed: bool) -> (v: i64)
    requires
        bytes@.len() <= 8,
    ensures
        v == host_integer(bytes@, signed),
{
    let width = bytes.len();
    let u = decode_unsigned(bytes);
    proof {
        lemma_le_value_bound(bytes@);
        lemma_pow256_values();
        lemma_pow256_positive(width as nat);
        vstd::arithmetic::div_mod::lemma_small_mod(u as nat, pow256(width as nat));
    }
    if width == 8 {
        let v = to_signed(u);
        proof {
            lemma_narrow_range(u as int, 8, true);
            lemma_narrow_in_range(v as int, 8, true);
            if !signed {
                assert(decoded(bytes@, signed) == u);
            }
        }
        v
    } else {
        let m = modulus(width);
        proof {
            lemma_pow256_monotone(width as nat, 7);
        }
        let v: i64 = if signed && u >= m - u {
            (u as i64) - (m as i64)
        } else {
            u as i64
        };
        proof {
            assert(v == decoded(bytes@, signed));
            assert(in_range(v as int, 8, true));
            lemma_narrow_in_range(v as int, 8, true);
        }
        v
    }
}


/// The first bytes of a number in more bytes are its bytes in fewer.
pub proof fn lemma_le_bytes_take(v: int, n: nat, width: nat)
    requires
        width <= n,
    ensures
        le_bytes(v, n).take(width as int) == le_bytes(v, width),
    decreases width,
{
    lemma_le_bytes_len(v, n);
    if width == 0 {
        assert(le_bytes(v, n).take(0) =~= le_bytes(v, 0));
    } else {
        lemma_le_bytes_take(v / 256, (n - 1) as nat, (width - 1) as nat);
        lemma_le_bytes_len(v / 256, (n - 1) as nat);
        assert(le_bytes(v, n).take(width as int) =~= seq![(v % 256) as u8] + le_bytes(
            v / 256,
            (n - 1) as nat,
        ).take(width - 1));
    }
}

/// A number wrapped to 64 bits has, in up to eight bytes, the bytes of the
/// number itself.
pub proof fn lemma_wrapped_bytes(v: int, width: nat)
    requires
        width <= 8,
    ensures
        le_bytes(narrow(v, 8, true), width) == le_bytes(v, width),
{
    lemma_narrow_bytes(v, 8, true);
    lemma_le_bytes_take(v, 8, width);
    lemma_le_bytes_take(narrow(v, 8, true), 8, width);
}

} // verus!
