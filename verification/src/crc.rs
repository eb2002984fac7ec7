//! CRC-24Q, the checksum of an RTCM 3 frame.
use crate::bits::{bit_at, bits_of};
use vstd::prelude::*;

verus! {

/// The generator polynomial of CRC-24Q: bit `k` is the coefficient of `x^k`.
pub const POLY: u32 = 0x0186_4CFB;

/// One step of long division by [`POLY`] over the two-element field: multiply
/// the remainder `r` by `x`, add the next coefficient `b`, and reduce.
pub open spec fn divide_step(r: u32, b: bool) -> u32 {
    let s = (r << 1) | (if b {
        1u32
    } else {
        0u32
    });
    if s & 0x0100_0000 != 0 {
        s ^ POLY
    } else {
        s
    }
}

/// The remainder, on division by [`POLY`], of the polynomial whose coefficients
/// are `b`, highest power first.
pub open spec fn poly_rem(b: Seq<bool>) -> u32
    decreases b.len(),
{
    if b.len() == 0 {
        0
    } else {
        divide_step(poly_rem(b.drop_last()), b.last())
    }
}

/// `n` zero coefficients.
pub open spec fn zeros(n: nat) -> Seq<bool> {
    Seq::new(n, |i: int| false)
}

/// The CRC-24Q of `data`: the remainder of its bits, followed by as many zeros as
/// the checksum has bits.
pub open spec fn crc24q_of(data: Seq<u8>) -> u32 {
    poly_rem(bits_of(data) + zeros(24))
}

/// The three bytes in which a frame carries the checksum `c`, big-endian.
pub open spec fn crc_bytes(c: u32) -> Seq<u8> {
    seq![(c / 0x1_0000) as u8, (c / 0x100 % 0x100) as u8, (c % 0x100) as u8]
}

/// The remainder after `n` further zero coefficients.
spec fn advance(r: u32, n: nat) -> u32
    decreases n,
{
    if n == 0 {
        r
    } else {
        divide_step(advance(r, (n - 1) as nat), false)
    }
}

proof fn lemma_step_range(r: u32, b: bool)
    requires
        r < 0x0100_0000,
    ensures
        divide_step(r, b) < 0x0100_0000,
{
    let c: u32 = if b {
        1
    } else {
        0
    };
    assert(r < 0x0100_0000 && c <= 1 ==> ({
        let s = (r << 1) | c;
        (if s & 0x0100_0000 != 0 {
            s ^ 0x0186_4CFBu32
        } else {
            s
        }) < 0x0100_0000
    })) by (bit_vector);
}

/// Division is linear: the step of a sum is the sum of the steps.
proof fn lemma_step_sum(x: u32, y: u32, a: bool, b: bool)
    requires
        x < 0x0100_0000,
        y < 0x0100_0000,
    ensures
        divide_step(x ^ y, a != b) == divide_step(x, a) ^ divide_step(y, b),
{
    let c: u32 = if a {
        1
    } else {
        0
    };
    let d: u32 = if b {
        1
    } else {
        0
    };
    let e: u32 = if a != b {
        1
    } else {
        0
    };
    assert(c <= 1 && d <= 1 && e <= 1 && (e == 1) == (c != d) ==> e == c ^ d) by (bit_vector);
    assert(x < 0x0100_0000 && y < 0x0100_0000 && c <= 1 && d <= 1 && e == c ^ d ==> ({
        let s = ((x ^ y) << 1) | e;
        let sx = (x << 1) | c;
        let sy = (y << 1) | d;
        (if s & 0x0100_0000 != 0 {
            s ^ 0x0186_4CFBu32
        } else {
            s
        }) == (if sx & 0x0100_0000 != 0 {
            sx ^ 0x0186_4CFBu32
        } else {
            sx
        }) ^ (if sy & 0x0100_0000 != 0 {
            sy ^ 0x0186_4CFBu32
        } else {
            sy
        })
    })) by (bit_vector);
}

/// Division is linear, also where only one summand has a next coefficient.
proof fn lemma_step_linear(x: u32, y: u32, b: bool)
    requires
        x < 0x0100_0000,
        y < 0x0100_0000,
    ensures
        x ^ y < 0x0100_0000,
        divide_step(x ^ y, b) == divide_step(x, false) ^ divide_step(y, b),
{
    assert(x < 0x0100_0000 && y < 0x0100_0000 ==> x ^ y < 0x0100_0000) by (bit_vector);
    lemma_step_sum(x, y, false, b);
}

proof fn lemma_advance_range(r: u32, n: nat)
    requires
        r < 0x0100_0000,
    ensures
        advance(r, n) < 0x0100_0000,
    decreases n,
{
    if n > 0 {
        lemma_advance_range(r, (n - 1) as nat);
        lemma_step_range(advance(r, (n - 1) as nat), false);
    }
}

proof fn lemma_advance_linear(x: u32, y: u32, n: nat)
    requires
        x < 0x0100_0000,
        y < 0x0100_0000,
    ensures
        advance(x ^ y, n) == advance(x, n) ^ advance(y, n),
    decreases n,
{
    if n > 0 {
        let m = (n - 1) as nat;
        lemma_advance_linear(x, y, m);
        lemma_advance_range(x, m);
        lemma_advance_range(y, m);
        lemma_step_linear(advance(x, m), advance(y, m), false);
    }
}

proof fn lemma_advance_add(r: u32, m: nat, n: nat)
    ensures
        advance(r, m + n) == advance(advance(r, m), n),
    decreases n,
{
    if n > 0 {
        lemma_advance_add(r, m, (n - 1) as nat);
        assert((m + n - 1) as nat == m + (n - 1) as nat);
    }
}

/// What is shifted within the register is not reduced.
proof fn lemma_advance_shift(v: u32, n: u32)
    requires
        n <= 16,
        v < 0x0100_0000u32 >> n,
    ensures
        advance(v, n as nat) == v << n,
    decreases n,
{
    if n == 0 {
        assert(v << 0u32 == v) by (bit_vector);
    } else {
        let m = (n - 1) as u32;
        assert(n <= 16 && n > 0 && m == n - 1 && v < 0x0100_0000u32 >> n ==> v < 0x0100_0000u32
            >> m) by (bit_vector);
        lemma_advance_shift(v, m);
        assert(v < 0x0100_0000u32 >> n && n <= 16 && n > 0 && m == n - 1 ==> ({
            let s = ((v << m) << 1) | 0u32;
            &&& s & 0x0100_0000 == 0
            &&& s == v << n
        })) by (bit_vector);
    }
}

proof fn lemma_poly_rem_range(b: Seq<bool>)
    ensures
        poly_rem(b) < 0x0100_0000,
    decreases b.len(),
{
    if b.len() > 0 {
        lemma_poly_rem_range(b.drop_last());
        lemma_step_range(poly_rem(b.drop_last()), b.last());
    }
}

proof fn lemma_poly_rem_zeros(b: Seq<bool>, n: nat)
    ensures
        poly_rem(b + zeros(n)) == advance(poly_rem(b), n),
    decreases n,
{
    if n == 0 {
        assert(b + zeros(0) =~= b);
    } else {
        lemma_poly_rem_zeros(b, (n - 1) as nat);
        assert((b + zeros(n)).drop_last() =~= b + zeros((n - 1) as nat));
        assert((b + zeros(n)).last() == false);
    }
}

/// The first `n` bits of a byte, appended to `bits_of(s)`.
spec fn bits_upto(s: Seq<u8>, b: u8, n: nat) -> Seq<bool> {
    bits_of(s.push(b)).take((8 * s.len() + n) as int)
}

proof fn lemma_poly_rem_byte_bits(s: Seq<u8>, b: u8, n: u32)
    requires
        n <= 8,
    ensures
        poly_rem(bits_upto(s, b, n as nat)) == advance(poly_rem(bits_of(s)), n as nat) ^ ((b as u32)
            >> ((8 - n) as u32)),
    decreases n,
{
    let r = poly_rem(bits_of(s));
    let v = b as u32;
    if n == 0 {
        assert(bits_upto(s, b, 0) =~= bits_of(s));
        assert(v < 0x100 ==> v >> 8u32 == 0) by (bit_vector);
        assert(r ^ 0 == r) by (bit_vector);
    } else {
        let m = (n - 1) as u32;
        lemma_poly_rem_byte_bits(s, b, m);
        let here = bits_upto(s, b, n as nat);
        let before = bits_upto(s, b, m as nat);
        assert(here.drop_last() =~= before);
        let k = 8 * s.len() + m;
        assert(here.last() == bit_at(s.push(b), k as int));
        assert(k / 8 == s.len() && k % 8 == m);
        let bit = here.last();
        let adv = advance(r, m as nat);
        let part = v >> ((8 - m) as u32);
        lemma_poly_rem_range(bits_of(s));
        lemma_advance_range(r, m as nat);
        assert(v < 0x100 && m < 8 ==> v >> ((8 - m) as u32) < 0x100) by (bit_vector);
        lemma_step_linear(adv, part, bit);
        let sh = (7 - m) as u8;
        let c: u32 = if bit {
            1
        } else {
            0
        };
        assert(((b >> sh) & 1) == 0 || ((b >> sh) & 1) == 1) by (bit_vector);
        assert(c == ((b >> sh) & 1) as u32);
        assert(v == b as u32 && m < 8 && n == m + 1 && sh == 7 - m && c == ((b >> sh) & 1) as u32
            ==> ({
            let t = ((v >> ((8 - m) as u32)) << 1) | c;
            &&& t & 0x0100_0000 == 0
            &&& t == v >> ((8 - n) as u32)
        })) by (bit_vector);
    }
}

/// What one more byte does to the checksum: it is added at the top of the
/// register, which then takes eight division steps.
proof fn lemma_crc_push(s: Seq<u8>, b: u8)
    ensures
        crc24q_of(s.push(b)) == advance(crc24q_of(s) ^ ((b as u32) << 16), 8),
        crc24q_of(s) < 0x0100_0000,
        (b as u32) << 16 < 0x0100_0000,
{
    let r = poly_rem(bits_of(s));
    let v = b as u32;
    lemma_poly_rem_range(bits_of(s));
    lemma_poly_rem_zeros(bits_of(s), 24);
    lemma_poly_rem_zeros(bits_of(s.push(b)), 24);
    lemma_poly_rem_byte_bits(s, b, 8);
    assert(bits_upto(s, b, 8) =~= bits_of(s.push(b)));
    assert(v >> 0u32 == v) by (bit_vector);
    lemma_advance_range(r, 8);
    lemma_advance_range(r, 24);
    lemma_advance_linear(advance(r, 8), v, 24);
    lemma_advance_add(r, 8, 24);
    lemma_advance_add(r, 24, 8);
    assert(v < 0x100 ==> v < 0x0100_0000u32 >> 16u32) by (bit_vector);
    lemma_advance_shift(v, 16);
    lemma_advance_add(v, 16, 8);
    assert(v < 0x100 ==> v << 16 < 0x0100_0000) by (bit_vector);
    lemma_advance_linear(advance(r, 24), v << 16, 8);
}

proof fn lemma_crc_empty()
    ensures
        crc24q_of(Seq::<u8>::empty()) == 0,
{
    let none = Seq::<u8>::empty();
    assert(bits_of(none) =~= Seq::<bool>::empty());
    lemma_poly_rem_zeros(bits_of(none), 24);
    lemma_advance_zero(24);
}

proof fn lemma_advance_zero(n: nat)
    ensures
        advance(0, n) == 0,
    decreases n,
{
    if n > 0 {
        lemma_advance_zero((n - 1) as nat);
        assert(((0u32 << 1) | 0u32) == 0 && (0u32 & 0x0100_0000u32) == 0) by (bit_vector);
    }
}

/// A non-zero remainder stays non-zero: the generator's constant term is not zero.
proof fn lemma_advance_nonzero(r: u32, n: nat)
    requires
        0 < r < 0x0100_0000,
    ensures
        0 < advance(r, n) < 0x0100_0000,
    decreases n,
{
    if n > 0 {
        lemma_advance_nonzero(r, (n - 1) as nat);
        let q = advance(r, (n - 1) as nat);
        lemma_step_range(q, false);
        assert(0 < q < 0x0100_0000 ==> ({
            let s = (q << 1) | 0u32;
            (if s & 0x0100_0000 != 0 {
                s ^ 0x0186_4CFBu32
            } else {
                s
            }) != 0
        })) by (bit_vector);
    }
}

/// Where two bit strings of one length differ.
pub open spec fn difference(a: Seq<bool>, b: Seq<bool>) -> Seq<bool> {
    Seq::new(a.len(), |i: int| a[i] != b[i])
}

/// The remainders of two bit strings differ by the remainder of their difference.
proof fn lemma_poly_rem_difference(a: Seq<bool>, b: Seq<bool>)
    requires
        a.len() == b.len(),
    ensures
        poly_rem(difference(a, b)) == poly_rem(a) ^ poly_rem(b),
    decreases a.len(),
{
    if a.len() == 0 {
        assert(0u32 ^ 0u32 == 0) by (bit_vector);
    } else {
        let x = a.drop_last();
        let y = b.drop_last();
        lemma_poly_rem_difference(x, y);
        lemma_poly_rem_range(x);
        lemma_poly_rem_range(y);
        assert(difference(a, b).drop_last() =~= difference(x, y));
        lemma_step_sum(poly_rem(x), poly_rem(y), a.last(), b.last());
    }
}

/// A bit string that is zero but for its last `m` bits fits the register whole: it is
/// its own remainder, and is zero only where all of it is.
proof fn lemma_poly_rem_short(w: Seq<bool>, m: u32)
    requires
        m <= 24,
        forall|i: int| 0 <= i < w.len() - m ==> !#[trigger] w[i],
    ensures
        poly_rem(w) < 1u32 << m,
        w.contains(true) <==> poly_rem(w) != 0,
    decreases w.len(),
{
    if w.len() == 0 {
        assert(m <= 24 ==> 0 < 1u32 << m) by (bit_vector);
    } else {
        let v = w.drop_last();
        let b = w.last();
        let k: u32 = if m == 0 {
            0
        } else {
            (m - 1) as u32
        };
        assert forall|i: int| 0 <= i < v.len() - k implies !#[trigger] v[i] by {
            assert(v[i] == w[i]);
        }
        lemma_poly_rem_short(v, k);
        let r = poly_rem(v);
        let c: u32 = if b {
            1
        } else {
            0
        };
        if m == 0 {
            assert(!w[w.len() - 1]);
            assert(1u32 << 0u32 == 1) by (bit_vector);
            assert(((0u32 << 1) | 0u32) == 0 && (0u32 & 0x0100_0000u32) == 0) by (bit_vector);
            assert(poly_rem(w) == 0);
        } else {
            assert(0 < m && m <= 24 && k == m - 1 && r < 1u32 << k && c <= 1 ==> ({
                let s = (r << 1) | c;
                &&& s & 0x0100_0000 == 0
                &&& s < 1u32 << m
                &&& (s != 0 <==> r != 0 || c != 0)
            })) by (bit_vector);
        }
        if v.contains(true) {
            let i = choose|i: int| 0 <= i < v.len() && v[i] == true;
            assert(w[i] == true);
        }
        if b {
            assert(w[w.len() - 1] == true);
        }
        if w.contains(true) && !b {
            let i = choose|i: int| 0 <= i < w.len() && w[i] == true;
            assert(v[i] == true);
        }
    }
}

/// Whether `a` and `b` have one length and differ, in nothing but some of the 24 bits
/// from bit `p` on.
pub open spec fn is_burst(a: Seq<u8>, b: Seq<u8>, p: int) -> bool {
    &&& a.len() == b.len()
    &&& a != b
    &&& forall|k: int|
        0 <= k < 8 * a.len() && #[trigger] bit_at(a, k) != bit_at(b, k) ==> p <= k < p + 24
}

/// Where all bits of two byte strings agree, bit `sh` of byte `i` does.
proof fn lemma_same_bit(a: Seq<u8>, b: Seq<u8>, i: int, sh: u8)
    requires
        a.len() == b.len(),
        !difference(bits_of(a), bits_of(b)).contains(true),
        0 <= i < a.len(),
        sh < 8,
    ensures
        (a[i] >> sh) & 1 == (b[i] >> sh) & 1,
{
    let d = difference(bits_of(a), bits_of(b));
    let k = 8 * i + 7 - sh;
    assert(k / 8 == i && k % 8 == 7 - sh);
    assert(d[k] == (bit_at(a, k) != bit_at(b, k)));
    let x = a[i];
    let y = b[i];
    assert((x >> sh) & 1 <= 1 && (y >> sh) & 1 <= 1) by (bit_vector);
}

/// Bytes that differ differ in some bit.
proof fn lemma_bytes_differ(a: Seq<u8>, b: Seq<u8>)
    requires
        a.len() == b.len(),
        a != b,
    ensures
        difference(bits_of(a), bits_of(b)).contains(true),
{
    if !difference(bits_of(a), bits_of(b)).contains(true) {
        assert forall|i: int| 0 <= i < a.len() implies a[i] == b[i] by {
            let x = a[i];
            let y = b[i];
            lemma_same_bit(a, b, i, 0);
            lemma_same_bit(a, b, i, 1);
            lemma_same_bit(a, b, i, 2);
            lemma_same_bit(a, b, i, 3);
            lemma_same_bit(a, b, i, 4);
            lemma_same_bit(a, b, i, 5);
            lemma_same_bit(a, b, i, 6);
            lemma_same_bit(a, b, i, 7);
            assert((x >> 7u8) & 1 == (y >> 7u8) & 1 && (x >> 6u8) & 1 == (y >> 6u8) & 1 && (x
                >> 5u8) & 1 == (y >> 5u8) & 1 && (x >> 4u8) & 1 == (y >> 4u8) & 1 && (x >> 3u8) & 1
                == (y >> 3u8) & 1 && (x >> 2u8) & 1 == (y >> 2u8) & 1 && (x >> 1u8) & 1 == (y
                >> 1u8) & 1 && (x >> 0u8) & 1 == (y >> 0u8) & 1 ==> x == y) by (bit_vector);
        }
        assert(a =~= b);
    }
}

/// The checksum detects a burst: any change that stays within 24 consecutive bits
/// changes it.
pub proof fn law_crc_detects_burst(a: Seq<u8>, b: Seq<u8>, p: int)
    requires
        is_burst(a, b, p),
    ensures
        crc24q_of(a) != crc24q_of(b),
{
    let d = difference(bits_of(a), bits_of(b));
    let n = d.len() as int;
    lemma_bytes_differ(a, b);
    let first = choose|i: int| 0 <= i < d.len() && d[i] == true;
    assert(bit_at(a, first) != bit_at(b, first));
    let cut: int = if p + 24 <= n {
        p + 24
    } else {
        n
    };
    let w = d.take(cut);
    assert(w[first] == true);
    assert forall|i: int| 0 <= i < w.len() - 24 implies !#[trigger] w[i] by {
        assert(w[i] == (bit_at(a, i) != bit_at(b, i)));
    }
    lemma_poly_rem_short(w, 24);
    lemma_poly_rem_range(w);
    let rest = (n - cut) as nat;
    assert(d =~= w + zeros(rest)) by {
        assert forall|i: int| cut <= i < n implies !#[trigger] d[i] by {
            assert(d[i] == (bit_at(a, i) != bit_at(b, i)));
        }
    }
    assert(difference(bits_of(a) + zeros(24), bits_of(b) + zeros(24)) =~= w + zeros(rest + 24));
    lemma_poly_rem_zeros(w, rest + 24);
    lemma_advance_nonzero(poly_rem(w), rest + 24);
    lemma_poly_rem_difference(bits_of(a) + zeros(24), bits_of(b) + zeros(24));
    let x = crc24q_of(a);
    let y = crc24q_of(b);
    assert(x ^ y != 0 ==> x != y) by (bit_vector);
}

/// The checksum detects a damaged byte: two byte strings of one length that
/// differ in exactly one place have different checksums.
pub proof fn law_crc_detects_damaged_byte(a: Seq<u8>, k: int, b: u8)
    requires
        0 <= k < a.len(),
        b != a[k],
    ensures
        crc24q_of(a.update(k, b)) != crc24q_of(a),
{
    let c = a.update(k, b);
    assert(c[k] != a[k]);
    assert forall|i: int|
        0 <= i < 8 * a.len() && #[trigger] bit_at(a, i) != bit_at(c, i) implies 8 * k <= i < 8 * k
        + 24 by {
        if i / 8 != k {
            assert(c[i / 8] == a[i / 8]);
        }
    }
    law_crc_detects_burst(a, c, 8 * k);
}

/// A message that is followed by its own checksum has the checksum zero.
pub proof fn law_crc_of_checked_message_is_zero(data: Seq<u8>)
    ensures
        crc24q_of(data + crc_bytes(crc24q_of(data))) == 0,
{
    let c = crc24q_of(data);
    let s = crc_bytes(c);
    lemma_crc_range(data);
    let d1 = data.push(s[0]);
    let d2 = d1.push(s[1]);
    let d3 = d2.push(s[2]);
    assert(data + s =~= d3);
    let b0 = s[0] as u32;
    let b1 = s[1] as u32;
    let b2 = s[2] as u32;
    lemma_crc_push(data, s[0]);
    lemma_crc_push(d1, s[1]);
    lemma_crc_push(d2, s[2]);
    assert(c == b0 * 65536 + b1 * 256 + b2);
    let low = c ^ (b0 << 16);
    assert(b0 < 0x100 && b1 < 0x100 && b2 < 0x100 && c == b0 * 65536 + b1 * 256 + b2 ==> c ^ (b0
        << 16) == b1 * 256 + b2 && c ^ (b0 << 16) < 0x0100_0000u32 >> 8u32) by (bit_vector);
    lemma_advance_shift(low, 8);
    let mid = low << 8;
    assert(b1 < 0x100 && b2 < 0x100 && low == b1 * 256 + b2 ==> (low << 8) ^ (b1 << 16) == b2 * 256
        && (low << 8) ^ (b1 << 16) < 0x0100_0000u32 >> 8u32) by (bit_vector);
    let last = mid ^ (b1 << 16);
    lemma_advance_shift(last, 8);
    assert(b2 < 0x100 && last == b2 * 256 ==> (last << 8) ^ (b2 << 16) == 0) by (bit_vector);
    lemma_advance_zero(8);
}

/// A checksum fits the 24 bits that a frame has for it.
pub proof fn lemma_crc_range(data: Seq<u8>)
    ensures
        crc24q_of(data) < 0x0100_0000,
{
    lemma_poly_rem_range(bits_of(data) + zeros(24));
}

/// CRC-24Q (RTCM 3 / Qualcomm), polynomial 0x1864CFB, initial value 0.
pub fn crc24q(data: &[u8]) -> (crc: u32)
    ensures
        crc == crc24q_of(data@),
        crc < 0x0100_0000,
{
    let mut crc: u32 = 0;
    let mut i: usize = 0;
    proof {
        lemma_crc_empty();
        assert(data@.take(0) =~= Seq::<u8>::empty());
    }
    while i < data.len()
        invariant
            i <= data@.len(),
            crc == crc24q_of(data@.take(i as int)),
            crc < 0x0100_0000,
        decreases data@.len() - i,
    {
        let b: u8 = data[i];
        proof {
            lemma_crc_push(data@.take(i as int), b);
            assert(data@.take(i as int).push(b) =~= data@.take(i + 1));
            assert(crc < 0x0100_0000 && (b as u32) << 16 < 0x0100_0000 ==> crc ^ ((b as u32) << 16)
                < 0x0100_0000) by (bit_vector);
        }
        let ghost start = crc ^ ((b as u32) << 16);
        crc = crc ^ ((b as u32) << 16);
        let mut k: u8 = 0;
        while k < 8
            invariant
                k <= 8,
                start < 0x0100_0000,
                crc == advance(start, k as nat),
                crc < 0x0100_0000,
            decreases 8 - k,
        {
            proof {
                lemma_step_range(crc, false);
                assert((crc << 1) | 0u32 == crc << 1) by (bit_vector);
            }
            crc = crc << 1;
            if crc & 0x0100_0000 != 0 {
                crc = crc ^ POLY;
            }
            k = k + 1;
        }
        i = i + 1;
    }
    proof {
        assert(data@.take(data@.len() as int) =~= data@);
        assert(crc < 0x0100_0000 ==> crc & 0x00FF_FFFF == crc) by (bit_vector);
    }
    crc & 0x00FF_FFFF
}

} // verus!
