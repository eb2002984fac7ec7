//! The rover's side of the NTRIP v1 handshake, and what it makes of the stream.
use crate::credentials::{basic_credential, credential_fits, credential_of};
use crate::framing::law_scan_in_pieces;
use crate::listing::{ascending, lemma_ascending_members, sorted_keys, type_line, type_line_of};
use crate::rtcm::{
    carries, frame_views, frames_in, left_over, lemma_left_over, message_number_of, payloads,
    Deframer, Frame, FrameView,
};
use crate::text::{
    contains, crlf, has_prefix, has_text, push_line, starts_with, texts, trim_end, without_eol,
    Class,
};
use std::collections::BTreeMap;
use vstd::prelude::*;
use vstd::slice::slice_to_vec;

verus! {

/// The request for `path` with the credential `auth`, by a client of version
/// `version`.
pub open spec fn request_text_of(path: Seq<char>, auth: Seq<char>, version: Seq<char>) -> Seq<char> {
    crlf("GET /"@ + path + " HTTP/1.0"@) + crlf("User-Agent: NTRIP fm-ntrip-client/"@ + version)
        + crlf("Authorization: Basic "@ + auth) + crlf("Ntrip-Version: Ntrip/1.0"@) + crlf(Seq::empty())
}

/// The path that a rover requests: an empty one asks for the source table.
pub open spec fn rover_path(sourcetable: bool, mountpoint: Seq<char>) -> Seq<char> {
    if sourcetable {
        Seq::empty()
    } else {
        mountpoint
    }
}

/// What a rover connects as.
#[derive(Debug)]
pub struct RoverConfig {
    /// Mountpoint to subscribe to.
    pub mountpoint: String,
    /// Username for HTTP Basic auth.
    pub username: String,
    /// Password for HTTP Basic auth.
    pub password: String,
    /// Fetch the caster's source table instead of a stream.
    pub sourcetable: bool,
    /// Version of the client, for its `User-Agent` header.
    pub version: String,
}

/// The NTRIP v1 request that a rover sends.
pub open spec fn rover_request_of(c: &RoverConfig) -> Seq<char> {
    request_text_of(
        rover_path(c.sourcetable, c.mountpoint@),
        credential_of(c.username@, c.password@),
        c.version@,
    )
}

/// The NTRIP v1 request that a rover sends.
pub fn rover_request(c: &RoverConfig) -> (s: String)
    requires
        credential_fits(c.username@, c.password@),
    ensures
        s@ == rover_request_of(c),
{
    let auth: String = basic_credential(c.username.as_str(), c.password.as_str());
    let mut request = "GET /".to_string();
    assert("GET /"@ + Seq::<char>::empty() =~= "GET /"@);
    if !c.sourcetable {
        request.append(c.mountpoint.as_str());
    }
    request.append(" HTTP/1.0");
    let mut agent = "User-Agent: NTRIP fm-ntrip-client/".to_string();
    agent.append(c.version.as_str());
    let mut authorization = "Authorization: Basic ".to_string();
    authorization.append(auth.as_str());
    let mut s = String::new();
    push_line(&mut s, request.as_str());
    assert(s@ =~= crlf(request@));
    push_line(&mut s, agent.as_str());
    push_line(&mut s, authorization.as_str());
    push_line(&mut s, "Ntrip-Version: Ntrip/1.0");
    push_line(&mut s, "");
    proof {
        reveal_strlit("");
        assert(""@ =~= Seq::<char>::empty());
    }
    s
}

/// What the caster's status line means to a rover.
#[derive(Clone, Copy, Debug, PartialEq, Eq, Structural)]
pub enum Status {
    /// The source table follows.
    SourceTable,
    /// The stream follows.
    Streaming,
    /// The caster refused the request.
    Refused,
    /// The line is no answer that a caster gives.
    Unexpected,
}

/// What the status line `raw` means to a rover. A stream is announced with
/// `ICY 200 OK`; `HTTP/1.x 200` is tolerated.
pub open spec fn status_of(sourcetable: bool, raw: Seq<char>) -> Status {
    let line = trim_end(raw, Class::Eol);
    if sourcetable || has_prefix(line, "SOURCETABLE"@) {
        Status::SourceTable
    } else if has_prefix(line, "ICY 200"@) || has_text(line, " 200 "@) {
        Status::Streaming
    } else if has_prefix(line, "HTTP"@) || has_text(line, "401"@) || has_text(line, "404"@) {
        Status::Refused
    } else {
        Status::Unexpected
    }
}

/// What the caster's status line, with its line end, means to a rover.
pub fn classify_status(sourcetable: bool, raw: &str) -> (r: Status)
    ensures
        r == status_of(sourcetable, raw@),
{
    let line: String = without_eol(raw);
    let s: &str = line.as_str();
    if sourcetable || starts_with(s, "SOURCETABLE") {
        Status::SourceTable
    } else if starts_with(s, "ICY 200") || contains(s, " 200 ") {
        Status::Streaming
    } else if starts_with(s, "HTTP") || contains(s, "401") || contains(s, "404") {
        Status::Refused
    } else {
        Status::Unexpected
    }
}

/// What to do with a line of the answer that carries a source table.
#[derive(Clone, Copy, Debug, PartialEq, Eq, Structural)]
pub enum TableStep {
    /// Pass over it and read on.
    Skip,
    /// Print it and read on.
    Print,
    /// Print it and stop.
    PrintLast,
    /// Stop.
    Stop,
}

/// What to do with the line `raw`; an empty one is the end of the input.
pub open spec fn table_step(in_body: bool, raw: Seq<char>) -> TableStep {
    if raw.len() == 0 {
        TableStep::Stop
    } else if !in_body {
        TableStep::Skip
    } else if has_prefix(raw, "ENDSOURCETABLE"@) {
        TableStep::PrintLast
    } else {
        TableStep::Print
    }
}

/// Whether the lines behind `raw` belong to the table: its body starts after the
/// first blank line.
pub open spec fn in_body_after(in_body: bool, raw: Seq<char>) -> bool {
    in_body || (raw.len() > 0 && trim_end(raw, Class::Eol).len() == 0)
}

/// The text that a rover prints of `lines`.
pub open spec fn printed_table(in_body: bool, lines: Seq<Seq<char>>) -> Seq<char>
    decreases lines.len(),
{
    if lines.len() == 0 {
        Seq::empty()
    } else {
        let next = in_body_after(in_body, lines[0]);
        match table_step(in_body, lines[0]) {
            TableStep::Skip => printed_table(next, lines.skip(1)),
            TableStep::Print => lines[0] + printed_table(next, lines.skip(1)),
            TableStep::PrintLast => lines[0],
            TableStep::Stop => Seq::empty(),
        }
    }
}

/// Reads the answer that carries a source table, behind its status line.
#[derive(Clone, Copy, Debug, PartialEq, Eq, Structural)]
pub struct TableReader {
    /// Whether the headers are over.
    pub in_body: bool,
}

impl TableReader {
    pub fn new() -> (t: TableReader)
        ensures
            !t.in_body,
    {
        TableReader { in_body: false }
    }

    /// Takes the next line, with its line end; an empty string at the end of the
    /// input.
    pub fn line(&mut self, raw: &str) -> (step: TableStep)
        ensures
            step == table_step(old(self).in_body, raw@),
            final(self).in_body == in_body_after(old(self).in_body, raw@),
    {
        if raw.is_empty() {
            TableStep::Stop
        } else if !self.in_body {
            self.in_body = without_eol(raw).as_str().is_empty();
            TableStep::Skip
        } else if starts_with(raw, "ENDSOURCETABLE") {
            TableStep::PrintLast
        } else {
            TableStep::Print
        }
    }
}

/// How many of `frames` are valid.
pub open spec fn valid_frames(frames: Seq<FrameView>) -> nat
    decreases frames.len(),
{
    if frames.len() == 0 {
        0
    } else {
        valid_frames(frames.drop_last()) + (if frames.last().crc_ok {
            1nat
        } else {
            0nat
        })
    }
}

/// How many of `frames` are valid and carry the message number `msg`.
pub open spec fn frames_of_type(frames: Seq<FrameView>, msg: u16) -> nat
    decreases frames.len(),
{
    if frames.len() == 0 {
        0
    } else {
        frames_of_type(frames.drop_last(), msg) + (if carries(frames.last(), msg) {
            1nat
        } else {
            0nat
        })
    }
}

/// How many frames with the message number `msg` are counted in `counts`.
pub open spec fn counted(counts: Map<u16, u64>, msg: u16) -> nat {
    if counts.contains_key(msg) {
        counts[msg] as nat
    } else {
        0
    }
}

/// The lines that say how often each message number in `counts` was received, in
/// ascending order.
pub open spec fn type_summary_of(counts: Map<u16, u64>) -> Seq<Seq<char>> {
    ascending(counts.dom()).map_values(|k: u16| type_line_of(k, counts[k] as nat))
}

/// The payloads of the valid ones of `frames`, in order.
pub open spec fn valid_payloads_of(frames: Seq<FrameView>) -> Seq<Seq<u8>> {
    frames.filter(|f: FrameView| f.crc_ok).map_values(|f: FrameView| f.payload)
}

proof fn lemma_type_parts(a: Seq<FrameView>, b: Seq<FrameView>, msg: u16)
    ensures
        frames_of_type(a + b, msg) == frames_of_type(a, msg) + frames_of_type(b, msg),
    decreases b.len(),
{
    if b.len() == 0 {
        assert(a + b =~= a);
    } else {
        lemma_type_parts(a, b.drop_last(), msg);
        assert((a + b).drop_last() =~= a + b.drop_last());
    }
}

proof fn lemma_valid_parts(a: Seq<FrameView>, b: Seq<FrameView>)
    ensures
        valid_frames(a + b) == valid_frames(a) + valid_frames(b),
    decreases b.len(),
{
    if b.len() == 0 {
        assert(a + b =~= a);
    } else {
        lemma_valid_parts(a, b.drop_last());
        assert((a + b).drop_last() =~= a + b.drop_last());
    }
}

/// A rover counts the same frames however the stream is cut: those of `a` and then
/// of `b` are as many as those of both at once, in all and of each message type.
pub proof fn law_frames_in_pieces(held: Seq<u8>, a: Seq<u8>, b: Seq<u8>, msg: u16)
    ensures
        ({
            let first = frames_in(held + a);
            let second = frames_in(left_over(held + a) + b);
            let whole = frames_in(held + a + b);
            &&& valid_frames(first) + valid_frames(second) == valid_frames(whole)
            &&& frames_of_type(first, msg) + frames_of_type(second, msg) == frames_of_type(
                whole,
                msg,
            )
        }),
{
    law_scan_in_pieces(held + a, b);
    lemma_valid_parts(frames_in(held + a), frames_in(left_over(held + a) + b));
    lemma_type_parts(frames_in(held + a), frames_in(left_over(held + a) + b), msg);
}

/// The valid frames are those whose checksum is right, and each counts once.
pub proof fn law_valid_frames_are_counted(frames: Seq<FrameView>)
    ensures
        valid_frames(frames) == frames.filter(|f: FrameView| f.crc_ok).len(),
    decreases frames.len(),
{
    reveal(Seq::filter);
    if frames.len() > 0 {
        law_valid_frames_are_counted(frames.drop_last());
    }
}

/// The frames of a type are those whose checksum is right and whose payload has the
/// message number, and each counts once.
pub proof fn law_frames_of_type_are_counted(frames: Seq<FrameView>, msg: u16)
    ensures
        frames_of_type(frames, msg) == frames.filter(
            |f: FrameView| f.crc_ok && message_number_of(f.payload) == Some(msg),
        ).len(),
    decreases frames.len(),
{
    reveal(Seq::filter);
    if frames.len() > 0 {
        law_frames_of_type_are_counted(frames.drop_last(), msg);
    }
}

/// What is described is, record by record, the payload of a valid frame, and nothing of a
/// checksum failure.
pub proof fn law_valid_payloads_in_order(frames: Seq<FrameView>, f: FrameView)
    ensures
        valid_payloads_of(Seq::empty()) == Seq::<Seq<u8>>::empty(),
        valid_payloads_of(frames.push(f)) == if f.crc_ok {
            valid_payloads_of(frames).push(f.payload)
        } else {
            valid_payloads_of(frames)
        },
{
    reveal(Seq::filter);
    let none = Seq::<FrameView>::empty();
    assert(valid_payloads_of(none) =~= Seq::<Seq<u8>>::empty());
    assert(frames.push(f).drop_last() =~= frames);
    let kept = frames.filter(|f: FrameView| f.crc_ok);
    if f.crc_ok {
        assert(kept.push(f).map_values(|f: FrameView| f.payload) =~= kept.map_values(
            |f: FrameView| f.payload,
        ).push(f.payload));
    }
}

/// There are as many valid payloads as valid frames.
proof fn lemma_valid_payloads(frames: Seq<FrameView>)
    ensures
        valid_payloads_of(frames).len() == valid_frames(frames),
    decreases frames.len(),
{
    reveal(Seq::filter);
    if frames.len() > 0 {
        lemma_valid_payloads(frames.drop_last());
    }
}

/// The payloads of the valid ones of `frames`, in order: what a rover describes.
pub fn valid_payloads(frames: &Vec<Frame>) -> (out: Vec<Vec<u8>>)
    ensures
        payloads(out@) == valid_payloads_of(frame_views(frames@)),
        out@.len() == valid_frames(frame_views(frames@)),
{
    let mut out: Vec<Vec<u8>> = Vec::new();
    let mut i: usize = 0;
    let ghost all = frame_views(frames@);
    proof {
        reveal(Seq::filter);
        assert(all.take(0) =~= Seq::<FrameView>::empty());
        assert(payloads(out@) =~= valid_payloads_of(all.take(0)));
    }
    while i < frames.len()
        invariant
            i <= frames@.len(),
            all == frame_views(frames@),
            payloads(out@) == valid_payloads_of(all.take(i as int)),
        decreases frames@.len() - i,
    {
        let frame: &Frame = &frames[i];
        let ghost before = out@;
        proof {
            reveal(Seq::filter);
            assert(all.take(i + 1).drop_last() =~= all.take(i as int));
            assert(all.take(i + 1).last() == frame@);
        }
        if frame.crc_ok {
            let p: Vec<u8> = slice_to_vec(frame.payload.as_slice());
            out.push(p);
            assert(payloads(out@) =~= payloads(before).push(p@));
        }
        assert(payloads(out@) =~= valid_payloads_of(all.take(i + 1)));
        i = i + 1;
    }
    proof {
        assert(all.take(all.len() as int) =~= all);
        lemma_valid_payloads(all);
    }
    out
}

/// Counts the valid ones of `frames` by message number, on top of what is counted.
pub fn count_types(counts: &mut BTreeMap<u16, u64>, frames: &Vec<Frame>)
    requires
        forall|k: u16| #[trigger]
            old(counts)@.contains_key(k) ==> old(counts)@[k] + frames_of_type(
                frame_views(frames@),
                k,
            ) <= u64::MAX,
    ensures
        forall|msg: u16| #[trigger]
            counted(final(counts)@, msg) == counted(old(counts)@, msg) + frames_of_type(
                frame_views(frames@),
                msg,
            ),
        forall|msg: u16| #[trigger]
            final(counts)@.contains_key(msg) <==> old(counts)@.contains_key(msg) || frames_of_type(
                frame_views(frames@),
                msg,
            ) > 0,
{
    let mut i: usize = 0;
    let ghost all = frame_views(frames@);
    assert(all.take(0) =~= Seq::<FrameView>::empty());
    while i < frames.len()
        invariant
            i <= frames@.len(),
            all == frame_views(frames@),
            forall|k: u16| #[trigger]
                old(counts)@.contains_key(k) ==> old(counts)@[k] + frames_of_type(all, k)
                    <= u64::MAX,
            forall|msg: u16| #[trigger]
                counted(counts@, msg) == counted(old(counts)@, msg) + frames_of_type(
                    all.take(i as int),
                    msg,
                ),
            forall|msg: u16| #[trigger]
                counts@.contains_key(msg) <==> old(counts)@.contains_key(msg) || frames_of_type(
                    all.take(i as int),
                    msg,
                ) > 0,
        decreases frames@.len() - i,
    {
        let ghost here = counts@;
        let frame: &Frame = &frames[i];
        proof {
            assert(all.take(i + 1).drop_last() =~= all.take(i as int));
            assert(all.take(i + 1).last() == frame@);
        }
        if frame.crc_ok {
            if let Some(msg) = frame.msg_type() {
                let before: u64 = match counts.get(&msg) {
                    Some(n) => *n,
                    None => 0,
                };
                proof {
                    assert(before == counted(here, msg));
                    lemma_type_parts(all.take(i + 1), all.skip(i + 1), msg);
                    assert(all.take(i + 1) + all.skip(i + 1) =~= all);
                    lemma_type_len(all.take(i as int), msg);
                    assert(old(counts)@.contains_key(msg) || counted(old(counts)@, msg) == 0);
                }
                counts.insert(msg, before + 1);
            }
        }
        proof {
            let next = all.take(i + 1);
            assert forall|msg: u16| #[trigger]
                counted(counts@, msg) == counted(old(counts)@, msg) + frames_of_type(next, msg) by {
                assert(counted(here, msg) == counted(old(counts)@, msg) + frames_of_type(
                    all.take(i as int),
                    msg,
                ));
            }
            assert forall|msg: u16| #[trigger]
                counts@.contains_key(msg) <==> old(counts)@.contains_key(msg) || frames_of_type(
                    next,
                    msg,
                ) > 0 by {
                assert(here.contains_key(msg) <==> old(counts)@.contains_key(msg)
                    || frames_of_type(all.take(i as int), msg) > 0);
            }
        }
        i = i + 1;
    }
    assert(all.take(all.len() as int) =~= all);
}

/// There are no more frames of a type than valid ones.
proof fn lemma_type_len(frames: Seq<FrameView>, msg: u16)
    ensures
        frames_of_type(frames, msg) <= valid_frames(frames) <= frames.len(),
    decreases frames.len(),
{
    if frames.len() > 0 {
        lemma_type_len(frames.drop_last(), msg);
    }
}

/// How many of `frames` are valid.
pub fn count_valid(frames: &Vec<Frame>) -> (n: usize)
    ensures
        n == valid_frames(frame_views(frames@)),
        n <= frames@.len(),
{
    let mut n: usize = 0;
    let mut i: usize = 0;
    let ghost all = frame_views(frames@);
    assert(all.take(0) =~= Seq::<FrameView>::empty());
    while i < frames.len()
        invariant
            i <= frames@.len(),
            n <= i,
            all == frame_views(frames@),
            n == valid_frames(all.take(i as int)),
        decreases frames@.len() - i,
    {
        assert(all.take(i + 1).drop_last() =~= all.take(i as int));
        assert(all.take(i + 1).last() == frames@[i as int]@);
        if frames[i].crc_ok {
            n = n + 1;
        }
        i = i + 1;
    }
    assert(all.take(all.len() as int) =~= all);
    n
}

/// The summary lists each message type that was received, and no other, with the
/// number of valid frames of it.
pub proof fn law_summary_lists_each_type(counts: Map<u16, u64>, frames: Seq<FrameView>, msg: u16)
    requires
        forall|m: u16| #[trigger] counted(counts, m) == frames_of_type(frames, m),
        forall|m: u16| #[trigger] counts.contains_key(m) ==> counts[m] >= 1,
    ensures
        ({
            let keys = ascending(counts.dom());
            let lines = type_summary_of(counts);
            &&& keys.contains(msg) <==> frames_of_type(frames, msg) > 0
            &&& lines.len() == keys.len()
            &&& forall|i: int|
                0 <= i < keys.len() ==> #[trigger] lines[i] == type_line_of(
                    keys[i],
                    frames_of_type(frames, keys[i]),
                )
        }),
{
    let keys = ascending(counts.dom());
    lemma_ascending_members(counts.dom(), 0, msg);
    assert(counted(counts, msg) == frames_of_type(frames, msg));
    assert forall|i: int| 0 <= i < keys.len() implies #[trigger] type_summary_of(counts)[i]
        == type_line_of(keys[i], frames_of_type(frames, keys[i])) by {
        let k = keys[i];
        assert(keys.contains(k));
        lemma_ascending_members(counts.dom(), 0, k);
        assert(counted(counts, k) == frames_of_type(frames, k));
    }
}

/// How many bytes were received after `data`.
pub open spec fn total_after(total: nat, data: Seq<u8>) -> nat {
    total + data.len()
}

/// Every byte received is counted once, however the stream is cut.
pub proof fn law_every_byte_received_is_counted(total: nat, a: Seq<u8>, b: Seq<u8>)
    ensures
        total_after(total_after(total, a), b) == total_after(total, a + b),
        total_after(0, a) == a.len(),
{
}

/// The records that a rover decodes of `data`, behind what it holds: none where it passes
/// the stream through.
pub open spec fn decoded(raw: bool, held: Seq<u8>, data: Seq<u8>) -> Seq<FrameView> {
    if raw {
        Seq::empty()
    } else {
        frames_in(held + data)
    }
}

/// What a rover holds after `data`.
pub open spec fn held_after(raw: bool, held: Seq<u8>, data: Seq<u8>) -> Seq<u8> {
    if raw {
        held
    } else {
        left_over(held + data)
    }
}

/// A stream that is passed through is not decoded, and leaves what is held; one that is
/// decoded gives the same records, and leaves the same bytes, however it is cut.
pub proof fn law_rover_decodes_or_passes_through(held: Seq<u8>, a: Seq<u8>, b: Seq<u8>)
    ensures
        decoded(true, held, a) == Seq::<FrameView>::empty(),
        held_after(true, held, a) == held,
        decoded(false, Seq::empty(), a) == frames_in(a),
        decoded(false, held, a) + decoded(false, held_after(false, held, a), b) == decoded(
            false,
            held,
            a + b,
        ),
        held_after(false, held_after(false, held, a), b) == held_after(false, held, a + b),
{
    assert(Seq::<u8>::empty() + a =~= a);
    assert(held + a + b =~= held + (a + b));
    law_scan_in_pieces(held + a, b);
}

/// What a rover has received, and what it has decoded of it.
#[derive(Debug)]
pub struct StreamReader {
    /// Bytes received.
    pub total: u64,
    /// Valid frames decoded.
    pub frames: u64,
    /// Valid frames decoded, by message number.
    pub msg_counts: BTreeMap<u16, u64>,
    /// Bytes of a frame that has not arrived whole.
    pub deframer: Deframer,
}

impl StreamReader {
    /// The deframer is in order, no more frames were decoded than bytes have arrived,
    /// and every count of a message number is a part of the frames.
    pub open spec fn wf(&self) -> bool {
        &&& self.deframer.wf()
        &&& self.frames + self.deframer@.len() <= self.total
        &&& forall|k: u16| #[trigger]
            self.msg_counts@.contains_key(k) ==> 1 <= self.msg_counts@[k] <= self.frames
    }

    pub fn new() -> (s: StreamReader)
        ensures
            s.wf(),
            s.total == 0,
            s.frames == 0,
            s.msg_counts@ == Map::<u16, u64>::empty(),
            s.deframer@ == Seq::<u8>::empty(),
    {
        StreamReader { total: 0, frames: 0, msg_counts: BTreeMap::new(), deframer: Deframer::new() }
    }

    /// Takes the next bytes of the stream. Where the stream is passed through
    /// (`raw`) they are only counted; else the frames that they complete are counted,
    /// in all and by message number, and returned, checksum failures among them.
    pub fn receive(&mut self, data: &[u8], raw: bool) -> (out: Vec<Frame>)
        requires
            old(self).wf(),
            old(self).total + data@.len() <= u64::MAX,
            old(self).deframer@.len() + data@.len() <= isize::MAX,
        ensures
            final(self).wf(),
            final(self).total == old(self).total + data@.len(),
            final(self).total == total_after(old(self).total as nat, data@),
            frame_views(out@) == decoded(raw, old(self).deframer@, data@),
            final(self).deframer@ == held_after(raw, old(self).deframer@, data@),
            final(self).frames == old(self).frames + valid_frames(
                decoded(raw, old(self).deframer@, data@),
            ),
            forall|msg: u16| #[trigger]
                counted(final(self).msg_counts@, msg) == counted(old(self).msg_counts@, msg)
                    + frames_of_type(decoded(raw, old(self).deframer@, data@), msg),
            raw ==> out@.len() == 0 && final(self).frames == old(self).frames
                && final(self).msg_counts@ == old(self).msg_counts@
                && final(self).deframer@ == old(self).deframer@,
            !raw ==> {
                let all = old(self).deframer@ + data@;
                &&& frame_views(out@) == frames_in(all)
                &&& final(self).deframer@ == left_over(all)
                &&& final(self).frames == old(self).frames + valid_frames(frames_in(all))
                &&& forall|msg: u16| #[trigger]
                    counted(final(self).msg_counts@, msg) == counted(old(self).msg_counts@, msg)
                        + frames_of_type(frames_in(all), msg)
            },
    {
        let n: u64 = data.len() as u64;
        self.total = self.total + n;
        if raw {
            return Vec::new();
        }
        let out: Vec<Frame> = self.deframer.push(data);
        let valid: usize = count_valid(&out);
        let ghost all = frames_in(old(self).deframer@ + data@);
        proof {
            lemma_left_over(old(self).deframer@ + data@);
            assert forall|k: u16| #[trigger] old(self).msg_counts@.contains_key(k) implies old(
                self,
            ).msg_counts@[k] + frames_of_type(all, k) <= u64::MAX by {
                lemma_type_len(all, k);
            }
        }
        self.frames = self.frames + valid as u64;
        count_types(&mut self.msg_counts, &out);
        proof {
            assert forall|k: u16| #[trigger] self.msg_counts@.contains_key(k) implies 1
                <= self.msg_counts@[k] <= self.frames by {
                lemma_type_len(all, k);
                assert(counted(self.msg_counts@, k) == counted(old(self).msg_counts@, k)
                    + frames_of_type(all, k));
                if old(self).msg_counts@.contains_key(k) {
                    assert(1 <= old(self).msg_counts@[k] <= old(self).frames);
                }
            }
        }
        out
    }

    /// The summary per message type: for each type received, in ascending order, how
    /// many valid frames of it there were.
    pub fn type_summary(&self) -> (lines: Vec<String>)
        ensures
            texts(lines@) == type_summary_of(self.msg_counts@),
    {
        let keys: Vec<u16> = sorted_keys(&self.msg_counts);
        let ghost counts = self.msg_counts@;
        let ghost items = type_summary_of(counts);
        let mut lines: Vec<String> = Vec::new();
        let mut i: usize = 0;
        assert(texts(lines@) =~= items.take(0));
        while i < keys.len()
            invariant
                i <= keys@.len(),
                counts == self.msg_counts@,
                keys@ == ascending(counts.dom()),
                items == type_summary_of(counts),
                texts(lines@) == items.take(i as int),
            decreases keys@.len() - i,
        {
            let n: u64 = match self.msg_counts.get(&keys[i]) {
                Some(n) => *n,
                None => {
                    proof {
                        lemma_ascending_members(counts.dom(), 0, keys@[i as int]);
                        assert(keys@.contains(keys@[i as int]));
                    }
                    0
                },
            };
            let ghost before = lines@;
            let line: String = type_line(keys[i], n);
            lines.push(line);
            proof {
                assert(texts(lines@) =~= texts(before).push(line@));
                assert(items[i as int] == line@);
                assert(items.take(i + 1) =~= items.take(i as int).push(line@));
            }
            i = i + 1;
        }
        assert(items.take(items.len() as int) =~= items);
        lines
    }
}

/// What a rover does when a connection is over.
#[derive(Clone, Copy, Debug, PartialEq, Eq, Structural)]
pub enum AfterRun {
    /// Exit with success.
    Done,
    /// Exit with failure.
    Fail,
    /// Connect again.
    Reconnect,
}

/// What a rover does when a connection is over.
pub open spec fn after_run_of(ended: bool, reconnect: bool) -> AfterRun {
    match (reconnect, ended) {
        (true, _) => AfterRun::Reconnect,
        (false, true) => AfterRun::Done,
        (false, false) => AfterRun::Fail,
    }
}

/// A rover connects again exactly where it was told to, however the connection ended;
/// else it succeeds exactly where the connection ended in order.
pub proof fn law_rover_reconnects_where_told(ended: bool, reconnect: bool)
    ensures
        after_run_of(ended, reconnect) == AfterRun::Reconnect <==> reconnect,
        after_run_of(ended, reconnect) == AfterRun::Done <==> !reconnect && ended,
        after_run_of(ended, reconnect) == AfterRun::Fail <==> !reconnect && !ended,
{
}

/// What a rover does when a connection is over: `ended` says whether it ended in
/// order, `reconnect` whether the rover was told to reconnect.
pub fn after_run(ended: bool, reconnect: bool) -> (r: AfterRun)
    ensures
        r == after_run_of(ended, reconnect),
        r == (if reconnect {
            AfterRun::Reconnect
        } else if ended {
            AfterRun::Done
        } else {
            AfterRun::Fail
        }),
{
    if reconnect {
        AfterRun::Reconnect
    } else if ended {
        AfterRun::Done
    } else {
        AfterRun::Fail
    }
}

} // verus!
