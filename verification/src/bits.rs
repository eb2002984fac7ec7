//! Big-endian bit fields of a byte string.
use vstd::arithmetic::power2::{
    lemma2_to64, lemma2_to64_rest, lemma_pow2_pos, lemma_pow2_strictly_increases,
    lemma_pow2_unfold, pow2,
};
use vstd::bits::lemma_u64_shl_is_mul;
use vstd::prelude::*;

verus! {

/// Bit `k` of `d`, counting from the most significant bit of the first byte.
pub open spec fn bit_at(d: Seq<u8>, k: int) -> bool {
    (d[k / 8] >> ((7 - k % 8) as u8)) & 1 == 1
}

/// The bits of `d`, most significant first.
pub open spec fn bits_of(d: Seq<u8>) -> Seq<bool> {
    Seq::new(8 * d.len(), |k: int| bit_at(d, k))
}

/// The number that a bit string writes in base two, most significant bit first.
pub open spec fn be_value(b: Seq<bool>) -> nat
    decreases b.len(),
{
    if b.len() == 0 {
        0
    } else {
        2 * be_value(b.drop_last()) + (if b.last() {
            1nat
        } else {
            0nat
        })
    }
}

/// How many bits of `b` are set.
pub open spec fn set_bits(b: Seq<bool>) -> nat
    decreases b.len(),
{
    if b.len() == 0 {
        0
    } else {
        set_bits(b.drop_last()) + (if b.last() {
            1nat
        } else {
            0nat
        })
    }
}

/// The `len` bits of `d` that start at bit `start`.
pub open spec fn field_bits(d: Seq<u8>, start: int, len: int) -> Seq<bool> {
    Seq::new(len as nat, |k: int| bit_at(d, start + k))
}

/// The unsigned big-endian field of `len` bits that starts at bit `start`.
pub open spec fn unsigned_field(d: Seq<u8>, start: int, len: int) -> nat {
    be_value(field_bits(d, start, len))
}

/// The two's-complement field of `len` bits that starts at bit `start`.
pub open spec fn signed_field(d: Seq<u8>, start: int, len: int) -> int {
    if bit_at(d, start) {
        unsigned_field(d, start, len) - pow2(len as nat)
    } else {
        unsigned_field(d, start, len) as int
    }
}

/// A bit string of length `n` writes a number below two to the `n`; its first
/// bit is set exactly where the number reaches the upper half.
pub proof fn lemma_be_value_bound(b: Seq<bool>)
    ensures
        be_value(b) < pow2(b.len()),
        b.len() > 0 ==> (b[0] <==> be_value(b) >= pow2((b.len() - 1) as nat)),
    decreases b.len(),
{
    lemma2_to64();
    if b.len() > 0 {
        lemma_be_value_bound(b.drop_last());
        lemma_pow2_unfold(b.len());
        if b.len() > 1 {
            lemma_pow2_unfold((b.len() - 1) as nat);
            assert(b.drop_last()[0] == b[0]);
        } else {
            assert(be_value(b.drop_last()) == 0);
        }
    }
}

/// Two bit strings one after the other: the first counts in units of as many powers
/// of two as the second has bits.
proof fn lemma_be_value_join(a: Seq<bool>, b: Seq<bool>)
    ensures
        be_value(a + b) == be_value(a) * pow2(b.len()) + be_value(b),
    decreases b.len(),
{
    lemma2_to64();
    if b.len() == 0 {
        assert(a + b =~= a);
    } else {
        let c = b.drop_last();
        lemma_be_value_join(a, c);
        lemma_pow2_unfold(b.len());
        assert((a + b).drop_last() =~= a + c);
        let x = be_value(a);
        let p = pow2(c.len());
        assert(x * (2 * p) == 2 * (x * p)) by (nonlinear_arith);
    }
}

/// A field is read in parts: cut in two anywhere, its first part counts in units of as
/// many powers of two as its second part has bits.
pub proof fn law_field_is_read_in_parts(d: Seq<u8>, start: int, first: nat, second: nat)
    ensures
        unsigned_field(d, start, (first + second) as int) == unsigned_field(d, start, first as int)
            * pow2(second) + unsigned_field(d, start + first, second as int),
{
    let a = field_bits(d, start, first as int);
    let b = field_bits(d, start + first, second as int);
    assert(field_bits(d, start, (first + second) as int) =~= a + b);
    lemma_be_value_join(a, b);
}

/// The first `n` bits of a byte are the byte, shifted down by the others.
proof fn lemma_byte_prefix(d: Seq<u8>, k: int, n: u32)
    requires
        0 <= k < d.len(),
        n <= 8,
    ensures
        unsigned_field(d, 8 * k, n as int) == (d[k] as u32) >> ((8 - n) as u32),
    decreases n,
{
    let x = d[k];
    let v = x as u32;
    if n == 0 {
        assert(v < 0x100 ==> v >> 8u32 == 0) by (bit_vector);
    } else {
        let m = (n - 1) as u32;
        lemma_byte_prefix(d, k, m);
        let f = field_bits(d, 8 * k, n as int);
        assert(f.drop_last() =~= field_bits(d, 8 * k, m as int));
        assert((8 * k + m) / 8 == k && (8 * k + m) % 8 == m);
        let sh = (7 - m) as u8;
        assert(f.last() == ((x >> sh) & 1 == 1));
        assert((x >> sh) & 1 <= 1) by (bit_vector);
        assert(v == x as u32 && m < 8 && n == m + 1 && sh == 7 - m ==> v >> ((8 - n) as u32) == 2
            * (v >> ((8 - m) as u32)) + ((x >> sh) & 1)) by (bit_vector);
    }
}

/// A field of the eight bits of a byte is the byte.
pub proof fn law_byte_field_is_the_byte(d: Seq<u8>, k: int)
    requires
        0 <= k < d.len(),
    ensures
        unsigned_field(d, 8 * k, 8) == d[k],
{
    lemma_byte_prefix(d, k, 8);
    let v = d[k] as u32;
    assert(v >> 0u32 == v) by (bit_vector);
}

/// A two's-complement field holds the number of its width that agrees with its
/// unsigned reading up to a multiple of two to the width.
pub proof fn law_signed_field_is_twos_complement(d: Seq<u8>, start: int, len: nat)
    requires
        len >= 1,
    ensures
        ({
            let s = signed_field(d, start, len as int);
            let u = unsigned_field(d, start, len as int);
            &&& -pow2((len - 1) as nat) <= s < pow2((len - 1) as nat)
            &&& s == u || s == u - pow2(len)
        }),
{
    let b = field_bits(d, start, len as int);
    lemma_be_value_bound(b);
    lemma_pow2_unfold(len);
    assert(b[0] == bit_at(d, start));
}

/// As many bits of a bit string are set as it has places that hold a set bit.
pub proof fn law_set_bits_are_counted(b: Seq<bool>)
    ensures
        set_bits(b) == b.filter(|x: bool| x).len(),
    decreases b.len(),
{
    reveal(Seq::filter);
    if b.len() > 0 {
        law_set_bits_are_counted(b.drop_last());
    }
}

/// One more bit at the end of a field doubles the value and adds the bit.
proof fn lemma_field_extend(d: Seq<u8>, start: int, n: int)
    requires
        0 <= start,
        0 <= n,
        start + n < 8 * d.len(),
    ensures
        field_bits(d, start, n + 1).drop_last() == field_bits(d, start, n),
        field_bits(d, start, n + 1).last() == bit_at(d, start + n),
{
    assert(field_bits(d, start, n + 1).drop_last() =~= field_bits(d, start, n));
}

/// Powers of two that fit a 64-bit word.
proof fn lemma_pow2_fits(n: nat)
    requires
        n <= 64,
    ensures
        0 < pow2(n) <= 0x1_0000_0000_0000_0000,
        n <= 63 ==> pow2(n) <= 0x8000_0000_0000_0000,
        n <= 62 ==> pow2(n) <= 0x4000_0000_0000_0000,
{
    lemma2_to64_rest();
    lemma_pow2_pos(n);
    if n < 64 {
        lemma_pow2_strictly_increases(n, 64);
    }
    if n < 63 {
        lemma_pow2_strictly_increases(n, 63);
    }
    if n < 62 {
        lemma_pow2_strictly_increases(n, 62);
    }
}

/// The sign bit of a field, tested with a mask, is set exactly in its upper half.
proof fn lemma_sign_mask(v: u64, len: u64)
    requires
        1 <= len <= 64,
        v < pow2(len as nat),
    ensures
        (v & (1u64 << ((len - 1) as u64)) != 0) <==> v >= pow2((len - 1) as nat),
        len <= 63 ==> 1u64 << len == pow2(len as nat),
        len <= 63 ==> pow2(len as nat) <= 0x8000_0000_0000_0000,
        len <= 62 ==> pow2(len as nat) <= 0x4000_0000_0000_0000,
        pow2((len - 1) as nat) <= 0x8000_0000_0000_0000,
{
    let k = (len - 1) as u64;
    lemma_pow2_fits(len as nat);
    lemma_pow2_fits(k as nat);
    lemma_pow2_unfold(len as nat);
    lemma_u64_shl_is_mul(1, k);
    if len <= 63 {
        lemma_u64_shl_is_mul(1, len);
    }
    assert(k <= 63 && v < 2 * (1u64 << k) ==> ((v & (1u64 << k) != 0) <==> v >= (1u64 << k)))
        by (bit_vector);
}

/// Big-endian bit reader over a payload.
pub struct Bits<'a> {
    pub d: &'a [u8],
}

impl<'a> Bits<'a> {
    /// Whether bit `k` is set.
    pub fn bit(&self, k: usize) -> (set: bool)
        requires
            k < 8 * self.d@.len(),
        ensures
            set == bit_at(self.d@, k as int),
    {
        let byte: u8 = self.d[k / 8];
        let shift: u8 = (7 - (k % 8)) as u8;
        (byte >> shift) & 1 == 1
    }

    /// Unsigned big-endian field of `len` bits that starts at bit `start`. Of a field
    /// of more than 64 bits, the last 64; an empty field is zero, wherever it starts.
    pub fn u(&self, start: usize, len: usize) -> (v: u64)
        requires
            len > 0 ==> start + len <= 8 * self.d@.len(),
            len > 0 ==> start + len - 1 <= usize::MAX,
        ensures
            v == unsigned_field(self.d@, start as int, len as int) % 0x1_0000_0000_0000_0000,
            len <= 64 ==> v == unsigned_field(self.d@, start as int, len as int),
    {
        let mut v: u64 = 0;
        let mut i: usize = 0;
        assert(field_bits(self.d@, start as int, 0) =~= Seq::<bool>::empty());
        while i < len
            invariant
                i <= len,
                len > 0 ==> start + len <= 8 * self.d@.len(),
                len > 0 ==> start + len - 1 <= usize::MAX,
                v == unsigned_field(self.d@, start as int, i as int) % 0x1_0000_0000_0000_0000,
            decreases len - i,
        {
            let b: u64 = if self.bit(start + i) {
                1
            } else {
                0
            };
            proof {
                lemma_field_extend(self.d@, start as int, i as int);
                assert(b <= 1 ==> ((v << 1) | b) == (2 * v + b) % 0x1_0000_0000_0000_0000)
                    by (bit_vector);
            }
            v = (v << 1) | b;
            i = i + 1;
        }
        proof {
            lemma_be_value_bound(field_bits(self.d@, start as int, len as int));
            if len <= 64 {
                lemma_pow2_fits(len as nat);
            }
        }
        v
    }

    /// Two's-complement field of `len` bits that starts at bit `start`. A field of 63
    /// or 64 bits is read as far as it is not negative.
    pub fn i(&self, start: usize, len: usize) -> (v: i64)
        requires
            1 <= len <= 64,
            start + len <= 8 * self.d@.len(),
            start + len - 1 <= usize::MAX,
            len >= 63 ==> !bit_at(self.d@, start as int),
        ensures
            v == signed_field(self.d@, start as int, len as int),
    {
        let v: u64 = self.u(start, len);
        proof {
            let b = field_bits(self.d@, start as int, len as int);
            lemma_be_value_bound(b);
            assert(b[0] == bit_at(self.d@, start as int));
            lemma_sign_mask(v, len as u64);
        }
        if v & (1u64 << (len as u64 - 1)) != 0 {
            v as i64 - (1u64 << (len as u64)) as i64
        } else {
            v as i64
        }
    }
}

} // verus!
