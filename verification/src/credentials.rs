//! HTTP Basic credentials.
use crate::text::is_space;
use base64::Engine;
use vstd::prelude::*;
use vstd::utf8::{encode_utf8, encode_utf8_decode_utf8};

verus! {

/// The character that stands for the six-bit number `v` in the standard Base64
/// alphabet (RFC 4648).
pub open spec fn base64_char(v: int) -> char {
    if v < 26 {
        (65 + v) as char
    } else if v < 52 {
        (97 + v - 26) as char
    } else if v < 62 {
        (48 + v - 52) as char
    } else if v == 62 {
        '+'
    } else {
        '/'
    }
}

/// Three bytes, taken as one 24-bit number and written as four six-bit numbers,
/// most significant first.
pub open spec fn base64_group(b0: u8, b1: u8, b2: u8) -> Seq<char> {
    let n = b0 * 65536 + b1 * 256 + b2;
    seq![
        base64_char(n / 262144),
        base64_char(n / 4096 % 64),
        base64_char(n / 64 % 64),
        base64_char(n % 64),
    ]
}

/// `b` in Base64 (RFC 4648): its groups of three bytes one after another. One or
/// two bytes at the end are filled up with zero bytes, and the characters that
/// hold nothing but the filling are written as padding.
pub open spec fn base64_text(b: Seq<u8>) -> Seq<char>
    decreases b.len(),
{
    if b.len() == 0 {
        Seq::empty()
    } else if b.len() == 1 {
        base64_group(b[0], 0, 0).take(2) + seq!['=', '=']
    } else if b.len() == 2 {
        base64_group(b[0], b[1], 0).take(3) + seq!['=']
    } else {
        base64_group(b[0], b[1], b[2]) + base64_text(b.skip(3))
    }
}

/// The length of the Base64 text of `n` bytes.
pub open spec fn base64_len(n: nat) -> nat {
    (n + 2) / 3 * 4
}

/// `base64::Engine::encode` of the engine `general_purpose::STANDARD`, which uses
/// the standard alphabet and pads: it returns the Base64 text of its input. It
/// panics where that text is longer than memory can hold, which `requires` leaves
/// out.
#[verifier::external_body]
fn encode_standard(input: &[u8]) -> (r: String)
    requires
        base64_len(input@.len()) <= isize::MAX,
    ensures
        r@ == base64_text(input@),
{
    base64::engine::general_purpose::STANDARD.encode(input)
}

/// What a username and password are encoded from: both, with a colon between.
pub open spec fn credential_plain(username: Seq<char>, password: Seq<char>) -> Seq<char> {
    username + ":"@ + password
}

/// The credential that HTTP Basic authentication sends for a username and
/// password.
pub open spec fn credential_of(username: Seq<char>, password: Seq<char>) -> Seq<char> {
    base64_text(encode_utf8(credential_plain(username, password)))
}

/// Whether the credential for a username and password fits in memory.
pub open spec fn credential_fits(username: Seq<char>, password: Seq<char>) -> bool {
    base64_len(encode_utf8(credential_plain(username, password)).len()) <= isize::MAX
}

/// Joined text takes as many bytes as its parts.
proof fn lemma_utf8_len(a: Seq<char>, b: Seq<char>)
    ensures
        encode_utf8(a + b).len() == encode_utf8(a).len() + encode_utf8(b).len(),
    decreases a.len(),
{
    if a.len() == 0 {
        assert(a + b =~= b);
    } else {
        lemma_utf8_len(a.drop_first(), b);
        assert((a + b).drop_first() =~= a.drop_first() + b);
    }
}

/// Whether the credential for a username and password fits in memory.
pub fn can_hold_credential(username: &str, password: &str) -> (r: bool)
    ensures
        r == credential_fits(username@, password@),
{
    proof {
        lemma_utf8_len(username@ + ":"@, password@);
        lemma_utf8_len(username@, ":"@);
    }
    let n: u128 = username.as_bytes().len() as u128 + ":".as_bytes().len() as u128
        + password.as_bytes().len() as u128;
    (n + 2) / 3 * 4 <= isize::MAX as u128
}

/// The credential that HTTP Basic authentication sends for a username and
/// password.
pub fn basic_credential(username: &str, password: &str) -> (r: String)
    requires
        credential_fits(username@, password@),
    ensures
        r@ == credential_of(username@, password@),
{
    let mut plain = username.to_string();
    plain.append(":");
    plain.append(password);
    encode_standard(plain.as_str().as_bytes())
}

proof fn lemma_base64_char(v: int, w: int)
    requires
        0 <= v < 64,
        0 <= w < 64,
    ensures
        base64_char(v) == base64_char(w) ==> v == w,
        base64_char(v) != '=',
        !is_space(base64_char(v)),
{
}

proof fn lemma_base64_group(b0: u8, b1: u8, b2: u8)
    ensures
        base64_group(b0, b1, b2).len() == 4,
        forall|i: int|
            0 <= i < 4 ==> !is_space(#[trigger] base64_group(b0, b1, b2)[i]) && base64_group(
                b0,
                b1,
                b2,
            )[i] != '=',
{
    let n = b0 * 65536 + b1 * 256 + b2;
    lemma_base64_char(n / 262144, 0);
    lemma_base64_char(n / 4096 % 64, 0);
    lemma_base64_char(n / 64 % 64, 0);
    lemma_base64_char(n % 64, 0);
}

/// Which bits of which bytes the four six-bit numbers of a group are.
proof fn lemma_sextets(b0: u8, b1: u8, b2: u8)
    ensures
        ({
            let n = b0 * 65536 + b1 * 256 + b2;
            &&& n / 262144 == b0 / 4
            &&& n / 4096 % 64 == b0 % 4 * 16 + b1 / 16
            &&& n / 64 % 64 == b1 % 16 * 4 + b2 / 64
            &&& n % 64 == b2 % 64
        }),
{
    let n = b0 * 65536 + b1 * 256 + b2;
    assert(n / 4096 == b0 * 16 + b1 / 16);
    assert(n / 64 == b0 * 1024 + b1 * 4 + b2 / 64);
}

/// As far as two groups agree, the bytes in them agree.
proof fn lemma_base64_group_injective(b0: u8, b1: u8, b2: u8, c0: u8, c1: u8, c2: u8)
    ensures
        ({
            let s = base64_group(b0, b1, b2);
            let t = base64_group(c0, c1, c2);
            &&& s[0] == t[0] && s[1] == t[1] ==> b0 == c0
            &&& s[0] == t[0] && s[1] == t[1] && s[2] == t[2] ==> b1 == c1
            &&& s == t ==> b2 == c2
        }),
{
    let n = b0 * 65536 + b1 * 256 + b2;
    let m = c0 * 65536 + c1 * 256 + c2;
    let s = base64_group(b0, b1, b2);
    let t = base64_group(c0, c1, c2);
    assert(s[3] == base64_char(n % 64) && t[3] == base64_char(m % 64));
    lemma_base64_char(n / 262144, m / 262144);
    lemma_base64_char(n / 4096 % 64, m / 4096 % 64);
    lemma_base64_char(n / 64 % 64, m / 64 % 64);
    lemma_base64_char(n % 64, m % 64);
    lemma_sextets(b0, b1, b2);
    lemma_sextets(c0, c1, c2);
}

/// Base64 text holds no white space, and has a known length.
pub proof fn lemma_base64_text(b: Seq<u8>)
    ensures
        base64_text(b).len() == base64_len(b.len()),
        forall|i: int| 0 <= i < base64_text(b).len() ==> !is_space(#[trigger] base64_text(b)[i]),
    decreases b.len(),
{
    let t = base64_text(b);
    if b.len() == 1 {
        lemma_base64_group(b[0], 0, 0);
    } else if b.len() == 2 {
        lemma_base64_group(b[0], b[1], 0);
    } else if b.len() >= 3 {
        lemma_base64_group(b[0], b[1], b[2]);
        lemma_base64_text(b.skip(3));
        assert forall|i: int| 0 <= i < t.len() implies !is_space(#[trigger] t[i]) by {
            if i < 4 {
                assert(t[i] == base64_group(b[0], b[1], b[2])[i]);
            } else {
                assert(t[i] == base64_text(b.skip(3))[i - 4]);
            }
        }
    }
}

/// A credential fits in memory exactly where it is not longer than memory can hold.
pub proof fn law_credential_fits(username: Seq<char>, password: Seq<char>)
    ensures
        credential_fits(username, password) <==> credential_of(username, password).len()
            <= isize::MAX,
{
    lemma_base64_text(encode_utf8(credential_plain(username, password)));
}

/// The first three bytes of `b`, filled up with zero bytes.
spec fn head3(b: Seq<u8>) -> (u8, u8, u8) {
    (
        b[0],
        if b.len() >= 2 {
            b[1]
        } else {
            0
        },
        if b.len() >= 3 {
            b[2]
        } else {
            0
        },
    )
}

/// The first four characters of a Base64 text: as many of the group's as bytes
/// reach into, then padding.
proof fn lemma_base64_head(b: Seq<u8>)
    requires
        b.len() > 0,
    ensures
        ({
            let t = base64_text(b);
            let g = base64_group(head3(b).0, head3(b).1, head3(b).2);
            &&& t.len() >= 4
            &&& t[0] == g[0] && t[1] == g[1]
            &&& t[2] == if b.len() >= 2 {
                g[2]
            } else {
                '='
            }
            &&& t[3] == if b.len() >= 3 {
                g[3]
            } else {
                '='
            }
            &&& g[2] != '=' && g[3] != '='
        }),
{
    lemma_base64_group(head3(b).0, head3(b).1, head3(b).2);
}

/// Different bytes have different Base64 texts.
pub proof fn law_base64_is_injective(a: Seq<u8>, b: Seq<u8>)
    requires
        base64_text(a) == base64_text(b),
    ensures
        a == b,
    decreases a.len(),
{
    lemma_base64_text(a);
    lemma_base64_text(b);
    if a.len() > 0 {
        assert(b.len() > 0);
        let (a0, a1, a2) = head3(a);
        let (b0, b1, b2) = head3(b);
        let g = base64_group(a0, a1, a2);
        let h = base64_group(b0, b1, b2);
        lemma_base64_head(a);
        lemma_base64_head(b);
        lemma_base64_group(a0, a1, a2);
        lemma_base64_group(b0, b1, b2);
        lemma_base64_group_injective(a0, a1, a2, b0, b1, b2);
        if a.len() >= 3 {
            assert(g =~= h);
            assert(base64_text(a).skip(4) =~= base64_text(a.skip(3)));
            assert(base64_text(b).skip(4) =~= base64_text(b.skip(3)));
            law_base64_is_injective(a.skip(3), b.skip(3));
            assert(a =~= seq![a0, a1, a2] + a.skip(3));
            assert(b =~= seq![b0, b1, b2] + b.skip(3));
        }
    }
    assert(a =~= b);
}

/// A credential tells the username and password apart as far as their joined text
/// does.
pub proof fn law_credential_is_injective(
    username: Seq<char>,
    password: Seq<char>,
    other_username: Seq<char>,
    other_password: Seq<char>,
)
    ensures
        credential_of(username, password) == credential_of(other_username, other_password)
            <==> credential_plain(username, password) == credential_plain(
            other_username,
            other_password,
        ),
{
    let p = credential_plain(username, password);
    let q = credential_plain(other_username, other_password);
    if credential_of(username, password) == credential_of(other_username, other_password) {
        law_base64_is_injective(encode_utf8(p), encode_utf8(q));
        encode_utf8_decode_utf8(p);
        encode_utf8_decode_utf8(q);
    }
}

} // verus!
