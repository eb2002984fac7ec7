//! What holds of every RTCM 3 byte stream that is scanned for frames.
use crate::crc::{
    crc24q_of, crc_bytes, is_burst, law_crc_detects_burst, law_crc_of_checked_message_is_zero,
};
use crate::rtcm::{
    frame_len, frames_in, left_over, payload_len, starts_valid, undecided, FrameView, PREAMBLE,
};
use vstd::prelude::*;

verus! {

/// The header and payload of the frame that carries `payload`.
pub open spec fn frame_body(payload: Seq<u8>) -> Seq<u8> {
    seq![PREAMBLE, (payload.len() / 256) as u8, (payload.len() % 256) as u8] + payload
}

/// The frame that carries `payload`.
pub open spec fn encode_frame(payload: Seq<u8>) -> Seq<u8> {
    frame_body(payload) + crc_bytes(crc24q_of(frame_body(payload)))
}

/// A valid record.
pub open spec fn valid_record(payload: Seq<u8>) -> FrameView {
    FrameView { payload, crc_ok: true }
}

/// A checksum failure.
pub open spec fn failure_record() -> FrameView {
    FrameView { payload: Seq::empty(), crc_ok: false }
}

/// Whether a whole frame starts `buf`, whatever its checksum.
pub open spec fn starts_whole(buf: Seq<u8>) -> bool {
    !undecided(buf) && buf[0] == PREAMBLE
}

/// Further bytes do not change what a decided buffer starts with.
proof fn lemma_decided_extend(a: Seq<u8>, b: Seq<u8>)
    requires
        !undecided(a),
    ensures
        !undecided(a + b),
        (a + b)[0] == a[0],
        starts_valid(a + b) == starts_valid(a),
        a[0] == PREAMBLE ==> frame_len(a + b) == frame_len(a) && frame_len(a) <= a.len(),
{
    let n = payload_len(a);
    assert(payload_len(a + b) == n);
    if a[0] == PREAMBLE {
        assert((a + b).subrange((3 + n) as int, (6 + n) as int) =~= a.subrange(
            (3 + n) as int,
            (6 + n) as int,
        ));
        assert((a + b).take((3 + n) as int) =~= a.take((3 + n) as int));
    }
}

/// The stream may arrive in any pieces: scanning `a` and then, after what was
/// left over of it, `b`, reports the same records and leaves the same bytes as
/// scanning `a` and `b` at once.
pub proof fn law_scan_in_pieces(a: Seq<u8>, b: Seq<u8>)
    ensures
        frames_in(a + b) == frames_in(a) + frames_in(left_over(a) + b),
        left_over(a + b) == left_over(left_over(a) + b),
    decreases a.len(),
{
    if undecided(a) {
        assert(frames_in(a) + frames_in(a + b) =~= frames_in(a + b));
    } else {
        lemma_decided_extend(a, b);
        let n = if starts_valid(a) {
            frame_len(a) as int
        } else {
            1
        };
        law_scan_in_pieces(a.skip(n), b);
        assert((a + b).skip(n) =~= a.skip(n) + b);
        if starts_valid(a) {
            let k = payload_len(a);
            assert((a + b).subrange(3, (3 + k) as int) =~= a.subrange(3, (3 + k) as int));
        }
        assert(frames_in(a + b) =~= frames_in(a) + frames_in(left_over(a) + b));
    }
}

proof fn lemma_encoded(payload: Seq<u8>, rest: Seq<u8>)
    requires
        payload.len() <= 1023,
    ensures
        encode_frame(payload).len() == 6 + payload.len(),
        payload_len(encode_frame(payload)) == payload.len(),
        payload_len(encode_frame(payload) + rest) == payload.len(),
        starts_valid(encode_frame(payload) + rest),
        !undecided(encode_frame(payload) + rest),
        (encode_frame(payload) + rest).subrange(3, (3 + payload.len()) as int) == payload,
        (encode_frame(payload) + rest).skip((6 + payload.len()) as int) == rest,
{
    let n = payload.len();
    let body = frame_body(payload);
    let f = encode_frame(payload);
    let s = f + rest;
    assert(n / 256 < 4 && (n / 256) * 256 + n % 256 == n);
    assert(s[1] == (n / 256) as u8 && s[2] == (n % 256) as u8);
    assert(s.take((3 + n) as int) =~= body);
    assert(s.subrange((3 + n) as int, (6 + n) as int) =~= crc_bytes(crc24q_of(body)));
    assert(s.subrange(3, (3 + n) as int) =~= payload);
    assert(s.skip((6 + n) as int) =~= rest);
}

/// What a frame carries is read back: the frame around any payload that fits one
/// is reported as one valid record with that payload, and the scan goes on right
/// behind it.
pub proof fn law_frame_is_read_back(payload: Seq<u8>, rest: Seq<u8>)
    requires
        payload.len() <= 1023,
    ensures
        frames_in(encode_frame(payload) + rest) == seq![valid_record(payload)] + frames_in(rest),
        left_over(encode_frame(payload) + rest) == left_over(rest),
{
    lemma_encoded(payload, rest);
}

/// The frame that carries `payload`, with `reserved` in the reserved bits of its header.
pub open spec fn encode_reserved(payload: Seq<u8>, reserved: nat) -> Seq<u8> {
    let body = seq![
        0xD3u8,
        (4 * reserved + payload.len() / 256) as u8,
        (payload.len() % 256) as u8,
    ] + payload;
    body + crc_bytes(crc24q_of(body))
}

/// The reserved bits of a header do not matter: whatever they hold, the frame around any
/// payload that fits one is reported as one valid record with that payload, and the scan
/// goes on right behind it.
pub proof fn law_reserved_bits_do_not_matter(payload: Seq<u8>, reserved: nat, rest: Seq<u8>)
    requires
        payload.len() <= 1023,
        reserved < 64,
    ensures
        frames_in(encode_reserved(payload, reserved) + rest) == seq![valid_record(payload)]
            + frames_in(rest),
        left_over(encode_reserved(payload, reserved) + rest) == left_over(rest),
{
    let n = payload.len();
    let f = encode_reserved(payload, reserved);
    let s = f + rest;
    let body = seq![0xD3u8, (4 * reserved + n / 256) as u8, (n % 256) as u8] + payload;
    assert(n / 256 < 4 && (n / 256) * 256 + n % 256 == n);
    assert(s[0] == 0xD3 && s[1] == (4 * reserved + n / 256) as u8 && s[2] == (n % 256) as u8);
    assert((4 * reserved + n / 256) % 4 == n / 256);
    assert(payload_len(s) == n);
    assert(s.take((3 + n) as int) =~= body);
    assert(s.subrange((3 + n) as int, (6 + n) as int) =~= crc_bytes(crc24q_of(body)));
    assert(s.subrange(3, (3 + n) as int) =~= payload);
    assert(s.skip((6 + n) as int) =~= rest);
}

/// A frame that is cut off is neither reported nor lost: nothing comes of any
/// proper prefix of it, and the prefix is retained whole.
pub proof fn law_partial_frame_is_retained(payload: Seq<u8>, k: int)
    requires
        payload.len() <= 1023,
        0 <= k < encode_frame(payload).len(),
    ensures
        frames_in(encode_frame(payload).take(k)) == Seq::<FrameView>::empty(),
        left_over(encode_frame(payload).take(k)) == encode_frame(payload).take(k),
{
    lemma_encoded(payload, Seq::empty());
    let f = encode_frame(payload);
    if k >= 3 {
        assert(f.take(k)[0] == PREAMBLE);
        assert(payload_len(f.take(k)) == payload_len(f));
    }
}

/// The scan resyncs past noise: bytes without a preamble report nothing and hide
/// nothing of what follows them.
pub proof fn law_noise_is_skipped(noise: Seq<u8>, rest: Seq<u8>)
    requires
        !noise.contains(PREAMBLE),
    ensures
        frames_in(noise + rest) == frames_in(rest),
        rest.len() >= 3 ==> left_over(noise + rest) == left_over(rest),
    decreases noise.len(),
{
    if noise.len() == 0 {
        assert(noise + rest =~= rest);
    } else {
        assert(noise[0] != PREAMBLE) by {
            assert(noise.contains(noise[0]));
        }
        let tail = noise.skip(1);
        assert forall|b: u8| tail.contains(b) implies noise.contains(b) by {
            let i = choose|i: int| 0 <= i < tail.len() && tail[i] == b;
            assert(noise[i + 1] == b);
        }
        law_noise_is_skipped(tail, rest);
        assert((noise + rest).skip(1) =~= tail + rest);
    }
}

/// A whole frame with a wrong checksum is reported as one failure, and the scan
/// goes on at its second byte.
pub proof fn law_wrong_checksum_is_one_failure(buf: Seq<u8>)
    requires
        starts_whole(buf),
        !starts_valid(buf),
    ensures
        frames_in(buf) == seq![failure_record()] + frames_in(buf.skip(1)),
        left_over(buf) == left_over(buf.skip(1)),
{
}

/// The scan resyncs past a broken frame: where no byte of it but the first looks
/// like a preamble, it is reported as one failure and hides nothing of what
/// follows it.
pub proof fn law_resync_after_broken_frame(broken: Seq<u8>, rest: Seq<u8>)
    requires
        starts_whole(broken),
        broken.len() == frame_len(broken),
        !starts_valid(broken),
        !broken.skip(1).contains(PREAMBLE),
    ensures
        frames_in(broken + rest) == seq![failure_record()] + frames_in(rest),
{
    lemma_decided_extend(broken, rest);
    assert((broken + rest).skip(1) =~= broken.skip(1) + rest);
    law_noise_is_skipped(broken.skip(1), rest);
}

/// How many bytes of `s` look like a preamble.
pub open spec fn preambles(s: Seq<u8>) -> nat
    decreases s.len(),
{
    if s.len() == 0 {
        0
    } else {
        preambles(s.skip(1)) + (if s[0] == PREAMBLE {
            1nat
        } else {
            0nat
        })
    }
}

/// `n` checksum failures.
pub open spec fn failures(n: nat) -> Seq<FrameView> {
    Seq::new(n, |i: int| failure_record())
}

/// Whether nothing that starts within the first `n` bytes of `buf` is a frame: it is
/// whole, and where it starts with a preamble its checksum is wrong.
pub open spec fn no_frame_within(buf: Seq<u8>, n: int) -> bool {
    forall|k: int|
        0 <= k < n ==> !undecided(#[trigger] buf.skip(k)) && !starts_valid(buf.skip(k))
}

/// The scan resyncs past anything that is no frame: each false preamble is reported
/// as one failure, and what follows is scanned as if it came alone.
pub proof fn law_resync(junk: Seq<u8>, rest: Seq<u8>)
    requires
        no_frame_within(junk + rest, junk.len() as int),
    ensures
        frames_in(junk + rest) == failures(preambles(junk)) + frames_in(rest),
        left_over(junk + rest) == left_over(rest),
    decreases junk.len(),
{
    let buf = junk + rest;
    if junk.len() == 0 {
        assert(buf =~= rest);
        assert(failures(0) + frames_in(rest) =~= frames_in(rest));
    } else {
        let tail = junk.skip(1);
        assert(buf.skip(0) =~= buf);
        assert(!undecided(buf.skip(0)));
        assert(buf.skip(1) =~= tail + rest);
        assert forall|k: int| 0 <= k < tail.len() implies !undecided(
            #[trigger] (tail + rest).skip(k),
        ) && !starts_valid((tail + rest).skip(k)) by {
            assert((tail + rest).skip(k) =~= buf.skip(k + 1));
        }
        law_resync(tail, rest);
        if junk[0] == PREAMBLE {
            assert(failures(preambles(junk)) =~= seq![failure_record()] + failures(
                preambles(tail),
            ));
        }
        assert(frames_in(buf) =~= failures(preambles(junk)) + frames_in(rest));
    }
}

/// A scan does not wait for ever: with as many bytes as the longest frame has, it is
/// decided what they start with.
pub proof fn law_longest_frame_decides(buf: Seq<u8>)
    requires
        buf.len() >= 1029,
    ensures
        !undecided(buf),
{
}

/// A damaged frame is not accepted: where a frame still starts with a preamble and
/// announces the same length, but is changed within any 24 consecutive bits, the first
/// record is a failure.
pub proof fn law_damaged_frame_is_a_failure(
    payload: Seq<u8>,
    damaged: Seq<u8>,
    p: int,
    rest: Seq<u8>,
)
    requires
        payload.len() <= 1023,
        is_burst(encode_frame(payload), damaged, p),
        damaged[0] == PREAMBLE,
        payload_len(damaged) == payload.len(),
    ensures
        frames_in(damaged + rest).len() > 0,
        frames_in(damaged + rest)[0] == failure_record(),
{
    let n = payload.len();
    let f = encode_frame(payload);
    let s = damaged + rest;
    lemma_encoded(payload, Seq::empty());
    assert(payload_len(s) == n);
    if starts_valid(s) {
        let held = s.take((3 + n) as int);
        assert(damaged =~= held + s.subrange((3 + n) as int, (6 + n) as int));
        law_crc_of_checked_message_is_zero(frame_body(payload));
        law_crc_of_checked_message_is_zero(held);
        law_crc_detects_burst(f, damaged, p);
    }
    law_wrong_checksum_is_one_failure(s);
}

/// Whether the record `r` is the valid frame that starts at byte `k` of `buf`.
pub open spec fn is_frame_at(buf: Seq<u8>, k: int, r: FrameView) -> bool {
    &&& 0 <= k <= buf.len()
    &&& starts_valid(buf.skip(k))
    &&& r.payload == buf.skip(k).subrange(3, (3 + payload_len(buf.skip(k))) as int)
}

/// Nothing is made up: every valid record is the payload of a frame with a right
/// checksum that stands in the scanned bytes, and every failure is empty.
pub proof fn law_records_are_genuine(buf: Seq<u8>, i: int)
    requires
        0 <= i < frames_in(buf).len(),
    ensures
        frames_in(buf)[i].crc_ok ==> exists|k: int| is_frame_at(buf, k, frames_in(buf)[i]),
        !frames_in(buf)[i].crc_ok ==> frames_in(buf)[i].payload == Seq::<u8>::empty(),
    decreases buf.len(),
{
    let all = frames_in(buf);
    if !undecided(buf) {
        let valid = starts_valid(buf);
        let n = if valid {
            frame_len(buf) as int
        } else {
            1
        };
        let own: int = if buf[0] == PREAMBLE {
            1
        } else {
            0
        };
        assert(buf.skip(0) =~= buf);
        if i < own {
            if valid {
                assert(is_frame_at(buf, 0, all[i]));
            }
        } else {
            law_records_are_genuine(buf.skip(n), i - own);
            assert(all[i] == frames_in(buf.skip(n))[i - own]);
            if all[i].crc_ok {
                let k = choose|k: int| is_frame_at(buf.skip(n), k, all[i]);
                assert(buf.skip(n).skip(k) =~= buf.skip(n + k));
                assert(is_frame_at(buf, n + k, all[i]));
            }
        }
    }
}

} // verus!
