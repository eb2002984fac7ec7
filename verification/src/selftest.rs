//! The hardware self-test: what is counted of the live stream, and the verdict.
use crate::framing::law_scan_in_pieces;
use crate::listing::{ascending, lemma_ascending_members, sorted_keys, type_line, type_line_of};
use crate::rtcm::{
    carries, frame_views, frames_in, left_over, lemma_left_over, message_number_of, payloads,
    Deframer, Frame, FrameView,
};
use crate::rover::{frames_of_type, law_frames_of_type_are_counted, total_after, valid_frames};
use crate::text::{decimal, pad_right, push_decimal, spaces, texts};
use std::collections::BTreeMap;
use vstd::prelude::*;
use vstd::slice::slice_to_vec;

verus! {

/// What has been counted of the records.
#[verifier::ext_equal]
pub struct Tally {
    /// Valid frames.
    pub frames_ok: int,
    /// Checksum failures.
    pub crc_errors: int,
    /// How often each message number was seen in a valid frame.
    pub counts: Map<u16, usize>,
}

/// Nothing counted yet.
pub open spec fn tally_start() -> Tally {
    Tally { frames_ok: 0, crc_errors: 0, counts: Map::empty() }
}

/// How often `msg` was seen.
pub open spec fn seen(counts: Map<u16, usize>, msg: u16) -> int {
    if counts.contains_key(msg) {
        counts[msg] as int
    } else {
        0
    }
}

/// What one more record changes.
pub open spec fn tally_step(t: Tally, f: FrameView) -> Tally {
    if !f.crc_ok {
        Tally { crc_errors: t.crc_errors + 1, ..t }
    } else {
        match message_number_of(f.payload) {
            None => Tally { frames_ok: t.frames_ok + 1, ..t },
            Some(msg) => Tally {
                frames_ok: t.frames_ok + 1,
                counts: t.counts.insert(msg, (seen(t.counts, msg) + 1) as usize),
                ..t
            },
        }
    }
}

/// What a run of records changes.
pub open spec fn tally_all(t: Tally, frames: Seq<FrameView>) -> Tally
    decreases frames.len(),
{
    if frames.len() == 0 {
        t
    } else {
        tally_step(tally_all(t, frames.drop_last()), frames.last())
    }
}

/// Whether a record is the first valid one with its message number.
pub open spec fn is_first(t: Tally, f: FrameView) -> bool {
    f.crc_ok && match message_number_of(f.payload) {
        None => false,
        Some(msg) => !t.counts.contains_key(msg),
    }
}

/// The payloads of a run of records that are the first with their message number.
pub open spec fn firsts(t: Tally, frames: Seq<FrameView>) -> Seq<Seq<u8>>
    decreases frames.len(),
{
    if frames.len() == 0 {
        Seq::empty()
    } else {
        let before = firsts(t, frames.drop_last());
        if is_first(tally_all(t, frames.drop_last()), frames.last()) {
            before.push(frames.last().payload)
        } else {
            before
        }
    }
}

/// Every record is counted once, as valid or as a failure.
pub proof fn lemma_tally_counts_all(t: Tally, frames: Seq<FrameView>)
    ensures
        tally_all(t, frames).frames_ok >= t.frames_ok,
        tally_all(t, frames).crc_errors >= t.crc_errors,
        tally_all(t, frames).frames_ok + tally_all(t, frames).crc_errors == t.frames_ok
            + t.crc_errors + frames.len(),
    decreases frames.len(),
{
    if frames.len() > 0 {
        lemma_tally_counts_all(t, frames.drop_last());
    }
}

/// The self-test counts the same however the stream is cut: taking `a` and then
/// `b` counts, and describes, what taking both at once does.
pub proof fn law_tally_in_pieces(t: Tally, held: Seq<u8>, a: Seq<u8>, b: Seq<u8>)
    ensures
        ({
            let first = frames_in(held + a);
            let second = frames_in(left_over(held + a) + b);
            let whole = frames_in(held + a + b);
            &&& tally_all(tally_all(t, first), second) == tally_all(t, whole)
            &&& firsts(t, first) + firsts(tally_all(t, first), second) == firsts(t, whole)
        }),
{
    law_scan_in_pieces(held + a, b);
    lemma_tally_parts(t, frames_in(held + a), frames_in(left_over(held + a) + b));
}

proof fn lemma_tally_parts(t: Tally, a: Seq<FrameView>, b: Seq<FrameView>)
    ensures
        tally_all(t, a + b) == tally_all(tally_all(t, a), b),
        firsts(t, a + b) == firsts(t, a) + firsts(tally_all(t, a), b),
    decreases b.len(),
{
    if b.len() == 0 {
        assert(a + b =~= a);
        assert(firsts(t, a) =~= firsts(t, a) + firsts(tally_all(t, a), b));
    } else {
        lemma_tally_parts(t, a, b.drop_last());
        assert((a + b).drop_last() =~= a + b.drop_last());
        assert(firsts(t, a + b) =~= firsts(t, a) + firsts(tally_all(t, a), b));
    }
}

/// Valid frames are counted as the rover counts them.
pub proof fn law_tally_counts_valid_frames(t: Tally, frames: Seq<FrameView>)
    ensures
        tally_all(t, frames).frames_ok == t.frames_ok + valid_frames(frames),
    decreases frames.len(),
{
    if frames.len() > 0 {
        law_tally_counts_valid_frames(t, frames.drop_last());
    }
}

/// Every record is counted as what it is: the valid frames are those whose checksum is
/// right, the failures are the others.
pub proof fn law_tally_counts_failures(t: Tally, frames: Seq<FrameView>)
    ensures
        tally_all(t, frames).frames_ok == t.frames_ok + frames.filter(
            |f: FrameView| f.crc_ok,
        ).len(),
        tally_all(t, frames).crc_errors == t.crc_errors + frames.filter(
            |f: FrameView| !f.crc_ok,
        ).len(),
    decreases frames.len(),
{
    reveal(Seq::filter);
    if frames.len() > 0 {
        law_tally_counts_failures(t, frames.drop_last());
    }
}

/// The count of a message type is the number of valid frames that carry it: of a run of
/// records, every message number is held exactly if it was seen, with that count.
pub proof fn law_type_counts_are_exact(frames: Seq<FrameView>, msg: u16)
    requires
        frames.len() <= usize::MAX,
    ensures
        ({
            let counts = tally_all(tally_start(), frames).counts;
            &&& seen(counts, msg) == frames_of_type(frames, msg)
            &&& counts.contains_key(msg) <==> frames_of_type(frames, msg) > 0
            &&& counts.contains_key(msg) ==> counts[msg] == frames_of_type(frames, msg)
        }),
    decreases frames.len(),
{
    if frames.len() > 0 {
        let before = frames.drop_last();
        law_type_counts_are_exact(before, msg);
        law_frames_of_type_are_counted(before, msg);
        before.lemma_filter_len(
            |f: FrameView| f.crc_ok && message_number_of(f.payload) == Some(msg),
        );
    }
}

/// The counts of the message numbers below `n`, added up.
pub open spec fn sum_of_counts(counts: Map<u16, usize>, n: nat) -> int
    decreases n,
{
    if n == 0 {
        0
    } else {
        sum_of_counts(counts, (n - 1) as nat) + seen(counts, (n - 1) as u16)
    }
}

proof fn lemma_sum_of_counts(counts: Map<u16, usize>, msg: u16, c: usize, n: nat)
    requires
        n <= 65536,
    ensures
        sum_of_counts(counts.insert(msg, c), n) == sum_of_counts(counts, n) + (if msg < n {
            c - seen(counts, msg)
        } else {
            0
        }),
    decreases n,
{
    if n > 0 {
        lemma_sum_of_counts(counts, msg, c, (n - 1) as nat);
    }
}

proof fn lemma_sum_of_nothing(n: nat)
    ensures
        sum_of_counts(Map::empty(), n) == 0,
    decreases n,
{
    if n > 0 {
        lemma_sum_of_nothing((n - 1) as nat);
    }
}

/// The counts of all message types add up to the valid frames that have a message number.
pub proof fn law_type_counts_add_up(frames: Seq<FrameView>)
    requires
        frames.len() <= usize::MAX,
    ensures
        sum_of_counts(tally_all(tally_start(), frames).counts, 65536) == frames.filter(
            |f: FrameView| f.crc_ok && message_number_of(f.payload) is Some,
        ).len(),
    decreases frames.len(),
{
    reveal(Seq::filter);
    if frames.len() == 0 {
        lemma_sum_of_nothing(65536);
    } else {
        let before = frames.drop_last();
        let f = frames.last();
        law_type_counts_add_up(before);
        if f.crc_ok && message_number_of(f.payload) is Some {
            let msg = message_number_of(f.payload)->Some_0;
            let counts = tally_all(tally_start(), before).counts;
            law_type_counts_are_exact(before, msg);
            law_frames_of_type_are_counted(before, msg);
            before.lemma_filter_len(
                |f: FrameView| f.crc_ok && message_number_of(f.payload) == Some(msg),
            );
            lemma_sum_of_counts(counts, msg, (seen(counts, msg) + 1) as usize, 65536);
        }
    }
}

/// What is described of a message type is the payload of its first valid frame.
pub proof fn law_first_of_a_type_is_described(
    t: Tally,
    frames: Seq<FrameView>,
    i: int,
    msg: u16,
)
    requires
        0 <= i < frames.len(),
        carries(frames[i], msg),
        !t.counts.contains_key(msg),
        forall|j: int| 0 <= j < i ==> !carries(#[trigger] frames[j], msg),
    ensures
        firsts(t, frames).contains(frames[i].payload),
    decreases frames.len(),
{
    let before = frames.drop_last();
    if i < before.len() {
        assert(before[i] == frames[i]);
        assert forall|j: int| 0 <= j < i implies !carries(#[trigger] before[j], msg) by {
            assert(before[j] == frames[j]);
        }
        law_first_of_a_type_is_described(t, before, i, msg);
        let some = firsts(t, before);
        let all = firsts(t, frames);
        let k = choose|k: int| 0 <= k < some.len() && some[k] == frames[i].payload;
        assert(all[k] == some[k]);
    } else {
        assert forall|j: int| 0 <= j < before.len() implies !carries(#[trigger] before[j], msg) by {
            assert(before[j] == frames[j]);
        }
        lemma_unseen(t, before, msg);
        let all = firsts(t, frames);
        assert(all.last() == frames[i].payload);
        assert(all[all.len() - 1] == frames[i].payload);
    }
}

proof fn lemma_unseen(t: Tally, frames: Seq<FrameView>, msg: u16)
    requires
        !t.counts.contains_key(msg),
        forall|j: int| 0 <= j < frames.len() ==> !carries(#[trigger] frames[j], msg),
    ensures
        !tally_all(t, frames).counts.contains_key(msg),
    decreases frames.len(),
{
    if frames.len() > 0 {
        let before = frames.drop_last();
        assert(!carries(frames[frames.len() - 1], msg));
        assert forall|j: int| 0 <= j < before.len() implies !carries(#[trigger] before[j], msg) by {
            assert(before[j] == frames[j]);
        }
        lemma_unseen(t, before, msg);
    }
}

/// Each message type is described once: a described payload has a message number
/// that was not seen before and is seen now, no two of them have the same, and
/// every number that is seen for the first time has its payload among them.
pub proof fn law_each_type_is_described_once(t: Tally, frames: Seq<FrameView>)
    ensures
        ({
            let all = firsts(t, frames);
            let counts = tally_all(t, frames).counts;
            &&& forall|i: int|
                0 <= i < all.len() ==> is_new_type(t, counts, message_number_of(#[trigger] all[i]))
            &&& forall|i: int, j: int|
                0 <= i < j < all.len() ==> message_number_of(#[trigger] all[i])
                    != message_number_of(#[trigger] all[j])
            &&& forall|msg: u16| #[trigger]
                counts.contains_key(msg) && !t.counts.contains_key(msg) ==> is_described(all, msg)
            &&& t.counts.dom().subset_of(counts.dom())
        }),
    decreases frames.len(),
{
    if frames.len() > 0 {
        let before = frames.drop_last();
        let f = frames.last();
        law_each_type_is_described_once(t, before);
        let some = firsts(t, before);
        let all = firsts(t, frames);
        let here = tally_all(t, before);
        let counts = tally_all(t, frames).counts;
        assert(here.counts.dom().subset_of(counts.dom()));
        assert forall|i: int| 0 <= i < all.len() implies is_new_type(
            t,
            counts,
            message_number_of(#[trigger] all[i]),
        ) by {
            if i < some.len() {
                assert(all[i] == some[i]);
                assert(is_new_type(t, here.counts, message_number_of(some[i])));
            }
        }
        assert forall|i: int, j: int| 0 <= i < j < all.len() implies message_number_of(
            #[trigger] all[i],
        ) != message_number_of(#[trigger] all[j]) by {
            assert(all[i] == some[i]);
            assert(is_new_type(t, here.counts, message_number_of(some[i])));
            if j < some.len() {
                assert(all[j] == some[j]);
            }
        }
        assert forall|msg: u16| #[trigger]
            counts.contains_key(msg) && !t.counts.contains_key(msg) implies is_described(
            all,
            msg,
        ) by {
            if here.counts.contains_key(msg) {
                assert(is_described(some, msg));
                let i = choose|i: int|
                    0 <= i < some.len() && message_number_of(#[trigger] some[i]) == Some(msg);
                assert(all[i] == some[i]);
            } else {
                assert(all[some.len() as int] == f.payload);
            }
        }
    }
}

/// Whether `n` is a message number that is counted in `counts` and was not in `t`.
pub open spec fn is_new_type(t: Tally, counts: Map<u16, usize>, n: Option<u16>) -> bool {
    n is Some && !t.counts.contains_key(n->Some_0) && counts.contains_key(n->Some_0)
}

/// Whether one of `all` has the message number `msg`.
pub open spec fn is_described(all: Seq<Seq<u8>>, msg: u16) -> bool {
    exists|i: int| 0 <= i < all.len() && message_number_of(#[trigger] all[i]) == Some(msg)
}

/// The verdict of a self-test.
#[derive(Clone, Copy, Debug, PartialEq, Eq, Structural)]
pub enum Verdict {
    /// The hardware produces a valid RTCM 3 stream.
    Pass,
    /// No bytes arrived.
    NoData,
    /// Bytes arrived, but no frame among them had a right checksum.
    NoFrames,
}

/// The verdict on `t`, where `total` bytes were read.
pub open spec fn verdict_of(total: nat, t: Tally) -> Verdict {
    if total == 0 {
        Verdict::NoData
    } else if t.frames_ok == 0 {
        Verdict::NoFrames
    } else {
        Verdict::Pass
    }
}

proof fn lemma_some_valid(frames: Seq<FrameView>)
    ensures
        valid_frames(frames) > 0 <==> exists|i: int|
            0 <= i < frames.len() && (#[trigger] frames[i]).crc_ok,
    decreases frames.len(),
{
    if frames.len() > 0 {
        let before = frames.drop_last();
        lemma_some_valid(before);
        if valid_frames(before) > 0 {
            let i = choose|i: int| 0 <= i < before.len() && (#[trigger] before[i]).crc_ok;
            assert(frames[i].crc_ok);
        }
        if frames.last().crc_ok {
            assert(frames[frames.len() - 1].crc_ok);
        }
        if exists|i: int| 0 <= i < frames.len() && (#[trigger] frames[i]).crc_ok {
            let i = choose|i: int| 0 <= i < frames.len() && (#[trigger] frames[i]).crc_ok;
            if i < before.len() {
                assert(before[i].crc_ok);
            }
        }
    }
}

/// The self-test passes exactly where a valid frame was seen in the stream.
pub proof fn law_pass_means_a_valid_frame(stream: Seq<u8>)
    ensures
        ({
            let frames = frames_in(stream);
            let v = verdict_of(stream.len(), tally_all(tally_start(), frames));
            &&& v == Verdict::Pass <==> exists|i: int|
                0 <= i < frames.len() && (#[trigger] frames[i]).crc_ok
            &&& v == Verdict::NoData <==> stream.len() == 0
        }),
{
    law_tally_counts_valid_frames(tally_start(), frames_in(stream));
    lemma_some_valid(frames_in(stream));
    lemma_left_over(stream);
}

/// What happened while the self-test read from the device.
#[derive(Debug)]
pub enum TestEvent<'a> {
    /// The test window elapsed.
    WindowOver,
    /// The device closed the connection.
    Eof,
    /// Bytes arrived.
    Data(&'a [u8]),
    /// The device could not be read.
    ReadFailed,
}

/// What the self-test does next.
#[derive(Debug)]
pub enum TestStep {
    /// Describe these payloads, each the first with its message number, and read
    /// on.
    ReadOn { firsts: Vec<Vec<u8>> },
    /// Report what was counted.
    Report,
    /// Give up.
    Abort,
}

/// Whether the self-test reads on after an event.
pub open spec fn reads_on(event: TestEvent<'_>) -> bool {
    event is Data
}

/// Whether the self-test gives up at an event.
pub open spec fn gives_up(event: TestEvent<'_>) -> bool {
    event is ReadFailed
}

/// The self-test reads on as long as data arrives, gives up where the device cannot be
/// read, and else reports.
pub proof fn law_self_test_ends_in_order(event: TestEvent<'_>)
    ensures
        reads_on(event) <==> (event matches TestEvent::Data(_)),
        gives_up(event) <==> event == TestEvent::ReadFailed,
        !reads_on(event) && !gives_up(event) <==> event == TestEvent::WindowOver || event
            == TestEvent::Eof,
{
}

/// A run of the self-test.
#[derive(Debug)]
pub struct SelfTest {
    /// Bytes read.
    pub total_bytes: usize,
    /// Valid frames.
    pub frames_ok: usize,
    /// Checksum failures.
    pub crc_errors: usize,
    /// How often each message number was seen in a valid frame.
    pub msg_counts: BTreeMap<u16, usize>,
    /// Bytes of a frame that has not arrived whole.
    pub deframer: Deframer,
}

impl View for SelfTest {
    type V = Tally;

    open spec fn view(&self) -> Tally {
        Tally {
            frames_ok: self.frames_ok as int,
            crc_errors: self.crc_errors as int,
            counts: self.msg_counts@,
        }
    }
}

/// The lines of a report that list how often each of `keys` was seen.
pub open spec fn count_lines(counts: Map<u16, usize>, keys: Seq<u16>) -> Seq<Seq<char>> {
    keys.map_values(|k: u16| type_line_of(k, counts[k] as nat))
}

/// The report on `t`, of which `total` bytes were read.
pub open spec fn report_of(total: nat, t: Tally) -> Seq<Seq<char>> {
    let keys = ascending(t.counts.dom());
    seq![
        "── self-test report ───────────────────────────────"@,
        "  bytes read      : "@ + decimal(total),
        "  valid frames    : "@ + decimal(t.frames_ok as nat),
        "  CRC errors      : "@ + decimal(t.crc_errors as nat),
        if t.counts.is_empty() {
            "  message types   : none"@
        } else {
            "  message types   :"@
        },
    ] + count_lines(t.counts, keys) + seq![
        "───────────────────────────────────────────────────"@,
    ]
}

/// What a verdict says to whoever ran the test on `device`.
pub open spec fn verdict_text_of(v: Verdict, device: Seq<char>) -> Seq<char> {
    match v {
        Verdict::Pass => "✓ PASS — hardware is producing a valid RTCM 3 stream."@,
        Verdict::NoData => "no data received from "@ + device
            + " — is the receiver powered and enumerated? Check `dmesg | grep ttyACM` and the cable."@,
        Verdict::NoFrames =>
            "data received but no valid RTCM 3 frames decoded — wrong device, or the receiver is not configured to output RTCM 3 on this port."@,
    }
}

/// A report gives the bytes, the valid frames and the failures in this order, and between
/// its frame one line for each message type, in ascending order, with its count.
pub proof fn law_report(total: nat, t: Tally)
    ensures
        ({
            let lines = report_of(total, t);
            let keys = ascending(t.counts.dom());
            &&& lines.len() == 6 + keys.len()
            &&& lines[0] == "── self-test report ───────────────────────────────"@
            &&& lines[1] == "  bytes read      : "@ + decimal(total)
            &&& lines[2] == "  valid frames    : "@ + decimal(t.frames_ok as nat)
            &&& lines[3] == "  CRC errors      : "@ + decimal(t.crc_errors as nat)
            &&& keys.len() == 0 ==> lines[4] == "  message types   : none"@
            &&& keys.len() > 0 ==> lines[4] == "  message types   :"@
            &&& forall|i: int|
                0 <= i < keys.len() ==> #[trigger] lines[5 + i] == spaces(8) + pad_right(
                    decimal(keys[i] as nat),
                    5,
                ) + " ×"@ + decimal(t.counts[keys[i]] as nat)
            &&& lines.last() == "───────────────────────────────────────────────────"@
        }),
{
    let keys = ascending(t.counts.dom());
    reveal_strlit("        ");
    assert("        "@ =~= spaces(8));
    if keys.len() == 0 {
        assert forall|k: u16| !t.counts.contains_key(k) by {
            lemma_ascending_members(t.counts.dom(), 0, k);
        }
        assert(t.counts =~= Map::empty());
    } else {
        lemma_ascending_members(t.counts.dom(), 0, keys[0]);
        assert(keys.contains(keys[0]));
        assert(t.counts.contains_key(keys[0]));
    }
}

/// What a verdict says depends on the device only where no data came, and there it names
/// the device.
pub proof fn law_verdict_text(v: Verdict, device: Seq<char>, other: Seq<char>)
    ensures
        v != Verdict::NoData ==> verdict_text_of(v, device) == verdict_text_of(v, other),
        verdict_text_of(Verdict::NoData, device) == "no data received from "@ + device
            + " — is the receiver powered and enumerated? Check `dmesg | grep ttyACM` and the cable."@,
        verdict_text_of(Verdict::Pass, device)
            == "✓ PASS — hardware is producing a valid RTCM 3 stream."@,
{
}

/// What a verdict says to whoever ran the test on `device`.
pub fn verdict_text(v: Verdict, device: &str) -> (s: String)
    ensures
        s@ == verdict_text_of(v, device@),
{
    match v {
        Verdict::Pass => "✓ PASS — hardware is producing a valid RTCM 3 stream.".to_string(),
        Verdict::NoData => {
            let mut s = "no data received from ".to_string();
            s.append(device);
            s.append(
                " — is the receiver powered and enumerated? Check `dmesg | grep ttyACM` and the cable.",
            );
            s
        },
        Verdict::NoFrames => {
            "data received but no valid RTCM 3 frames decoded — wrong device, or the receiver is not configured to output RTCM 3 on this port.".to_string()
        },
    }
}

/// `title`, followed by `n` in decimal.
fn count_line(title: &str, n: usize) -> (s: String)
    ensures
        s@ == title@ + decimal(n as nat),
{
    let mut s = title.to_string();
    push_decimal(&mut s, n as u64);
    s
}

impl SelfTest {
    /// The deframer is in order; every record took at least a byte, and every
    /// count of a message number is a part of the valid frames.
    pub open spec fn wf(&self) -> bool {
        &&& self.deframer.wf()
        &&& self.frames_ok + self.crc_errors + self.deframer@.len() <= self.total_bytes
        &&& forall|k: u16| #[trigger]
            self.msg_counts@.contains_key(k) ==> 1 <= self.msg_counts@[k] <= self.frames_ok
    }

    pub fn new() -> (t: SelfTest)
        ensures
            t.wf(),
            t.total_bytes == 0,
            t.deframer@ == Seq::<u8>::empty(),
            t@ == tally_start(),
    {
        SelfTest {
            total_bytes: 0,
            frames_ok: 0,
            crc_errors: 0,
            msg_counts: BTreeMap::new(),
            deframer: Deframer::new(),
        }
    }

    /// Takes bytes of the stream; returns the payloads of the frames that are the
    /// first with their message number.
    pub fn feed(&mut self, data: &[u8]) -> (out: Vec<Vec<u8>>)
        requires
            old(self).wf(),
            old(self).total_bytes + data@.len() <= usize::MAX,
            old(self).deframer@.len() + data@.len() <= isize::MAX,
        ensures
            final(self).wf(),
            final(self).total_bytes == old(self).total_bytes + data@.len(),
            final(self).total_bytes == total_after(old(self).total_bytes as nat, data@),
            final(self).deframer@ == left_over(old(self).deframer@ + data@),
            final(self)@ == tally_all(old(self)@, frames_in(old(self).deframer@ + data@)),
            payloads(out@) == firsts(old(self)@, frames_in(old(self).deframer@ + data@)),
    {
        let ghost start = old(self)@;
        let frames: Vec<Frame> = self.deframer.push(data);
        self.total_bytes = self.total_bytes + data.len();
        let ghost all = frame_views(frames@);
        proof {
            lemma_left_over(old(self).deframer@ + data@);
            lemma_tally_counts_all(start, all);
        }
        let mut out: Vec<Vec<u8>> = Vec::new();
        let mut i: usize = 0;
        assert(all.take(0) =~= Seq::<FrameView>::empty());
        assert(payloads(out@) =~= Seq::<Seq<u8>>::empty());
        while i < frames.len()
            invariant
                i <= frames@.len(),
                all == frame_views(frames@),
                start.frames_ok + start.crc_errors + all.len() <= self.total_bytes,
                self@.frames_ok + self@.crc_errors == start.frames_ok + start.crc_errors + i,
                self@ == tally_all(start, all.take(i as int)),
                payloads(out@) == firsts(start, all.take(i as int)),
                forall|k: u16| #[trigger]
                    self.msg_counts@.contains_key(k) ==> 1 <= self.msg_counts@[k] <= self.frames_ok,
                self.total_bytes == old(self).total_bytes + data@.len(),
                self.deframer@ == left_over(old(self).deframer@ + data@),
                self.deframer.wf(),
            decreases frames@.len() - i,
        {
            let ghost here = self@;
            let ghost out0 = out@;
            let frame: &Frame = &frames[i];
            proof {
                assert(all.take(i + 1).drop_last() =~= all.take(i as int));
                assert(all.take(i + 1).last() == frame@);
            }
            if !frame.crc_ok {
                self.crc_errors = self.crc_errors + 1;
            } else {
                self.frames_ok = self.frames_ok + 1;
                if let Some(msg) = frame.msg_type() {
                    let before: usize = match self.msg_counts.get(&msg) {
                        Some(n) => *n,
                        None => 0,
                    };
                    self.msg_counts.insert(msg, before + 1);
                    if before == 0 {
                        let p: Vec<u8> = slice_to_vec(frame.payload.as_slice());
                        out.push(p);
                        assert(payloads(out@) =~= payloads(out0).push(p@));
                    }
                }
            }
            assert(self@ =~= tally_step(here, frame@));
            i = i + 1;
        }
        assert(all.take(all.len() as int) =~= all);
        out
    }

    /// Takes an event and says what to do next.
    pub fn step(&mut self, event: TestEvent<'_>) -> (next: TestStep)
        requires
            old(self).wf(),
            event matches TestEvent::Data(data) ==> old(self).total_bytes + data@.len()
                <= usize::MAX && old(self).deframer@.len() + data@.len() <= isize::MAX,
        ensures
            final(self).wf(),
            next is ReadOn <==> reads_on(event),
            next is Abort <==> gives_up(event),
            match event {
                TestEvent::Data(data) => {
                    let frames = frames_in(old(self).deframer@ + data@);
                    &&& next is ReadOn
                    &&& payloads(next->firsts@) == firsts(old(self)@, frames)
                    &&& final(self)@ == tally_all(old(self)@, frames)
                    &&& final(self).total_bytes == old(self).total_bytes + data@.len()
                    &&& final(self).deframer@ == left_over(old(self).deframer@ + data@)
                },
                TestEvent::WindowOver | TestEvent::Eof => next is Report && *final(self) == *old(
                    self,
                ),
                TestEvent::ReadFailed => next is Abort && *final(self) == *old(self),
            },
    {
        match event {
            TestEvent::Data(data) => {
                let firsts: Vec<Vec<u8>> = self.feed(data);
                TestStep::ReadOn { firsts }
            },
            TestEvent::WindowOver | TestEvent::Eof => TestStep::Report,
            TestEvent::ReadFailed => TestStep::Abort,
        }
    }

    /// The verdict on what was counted.
    pub fn verdict(&self) -> (v: Verdict)
        ensures
            v == verdict_of(self.total_bytes as nat, self@),
    {
        if self.total_bytes == 0 {
            Verdict::NoData
        } else if self.frames_ok == 0 {
            Verdict::NoFrames
        } else {
            Verdict::Pass
        }
    }

    /// The report on what was counted.
    pub fn report(&self) -> (lines: Vec<String>)
        ensures
            texts(lines@) == report_of(self.total_bytes as nat, self@),
    {
        let ghost counts = self.msg_counts@;
        let ghost head = seq![
            "── self-test report ───────────────────────────────"@,
            "  bytes read      : "@ + decimal(self.total_bytes as nat),
            "  valid frames    : "@ + decimal(self.frames_ok as nat),
            "  CRC errors      : "@ + decimal(self.crc_errors as nat),
            if counts.is_empty() {
                "  message types   : none"@
            } else {
                "  message types   :"@
            },
        ];
        let mut lines: Vec<String> = Vec::new();
        lines.push("── self-test report ───────────────────────────────".to_string());
        lines.push(count_line("  bytes read      : ", self.total_bytes));
        lines.push(count_line("  valid frames    : ", self.frames_ok));
        lines.push(count_line("  CRC errors      : ", self.crc_errors));
        if self.msg_counts.is_empty() {
            lines.push("  message types   : none".to_string());
        } else {
            lines.push("  message types   :".to_string());
        }
        let keys: Vec<u16> = sorted_keys(&self.msg_counts);
        let ghost items = count_lines(counts, keys@);
        assert(texts(lines@) =~= head + items.take(0));
        let mut i: usize = 0;
        while i < keys.len()
            invariant
                i <= keys@.len(),
                counts == self.msg_counts@,
                keys@ == ascending(counts.dom()),
                items == count_lines(counts, keys@),
                texts(lines@) == head + items.take(i as int),
            decreases keys@.len() - i,
        {
            let n: usize = match self.msg_counts.get(&keys[i]) {
                Some(n) => *n,
                None => {
                    proof {
                        lemma_ascending_members(counts.dom(), 0, keys@[i as int]);
                        assert(keys@.contains(keys@[i as int]));
                    }
                    0
                },
            };
            let ghost before = lines@;
            let line: String = type_line(keys[i], n as u64);
            lines.push(line);
            proof {
                assert(texts(lines@) =~= texts(before).push(line@));
                assert(items[i as int] == line@);
                assert(head + items.take(i + 1) =~= (head + items.take(i as int)).push(line@));
            }
            i = i + 1;
        }
        let ghost before = lines@;
        lines.push("───────────────────────────────────────────────────".to_string());
        proof {
            assert(items.take(items.len() as int) =~= items);
            assert(texts(lines@) =~= texts(before).push(
                "───────────────────────────────────────────────────"@,
            ));
            assert(texts(lines@) =~= report_of(self.total_bytes as nat, self@));
        }
        lines
    }
}

} // verus!
