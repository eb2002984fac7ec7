//! GNSS and hardware status, as decoded from the RTCM stream.
use crate::bits::{field_bits, set_bits};
use crate::framing::law_scan_in_pieces;
use crate::listing::{ascending, sorted_members};
use crate::rtcm::{
    carries, constellation_of, ecef_of, frame_views, frames_in, left_over, message_number_of,
    msm_constellation, msm_satellite_count, station_ecef, station_id, station_id_of, Constellation,
    Deframer, Ecef, Frame, FrameView, PositionText,
};
use crate::text::{decimal, joined, push_decimal};
use std::collections::{BTreeMap, BTreeSet};
use vstd::prelude::*;

verus! {

/// What a [`GnssData`] holds.
#[verifier::ext_equal]
pub struct GnssView {
    /// Latest satellite count, by the constellation's place in the list by name.
    pub sats: Map<u8, u32>,
    /// Latest base station antenna reference position.
    pub pos: Option<Ecef>,
    /// Reference station ID from the latest position message.
    pub station_id: Option<u16>,
    /// Message numbers seen.
    pub types: Set<u16>,
    /// Whether the hardware summary has been announced.
    pub announced: bool,
}

/// The status before anything was decoded.
pub open spec fn gnss_start() -> GnssView {
    GnssView {
        sats: Map::empty(),
        pos: None,
        station_id: None,
        types: Set::empty(),
        announced: false,
    }
}

/// What a message with the number `msg` changes.
pub open spec fn absorb_message(g: GnssView, msg: u16, payload: Seq<u8>) -> GnssView {
    let seen = GnssView { types: g.types.insert(msg), ..g };
    match constellation_of(msg) {
        Some(c) => if 8 * payload.len() >= 137 {
            GnssView {
                sats: g.sats.insert(c.spec_rank(), set_bits(field_bits(payload, 73, 64)) as u32),
                ..seen
            }
        } else {
            seen
        },
        None => if msg == 1005 || msg == 1006 {
            GnssView {
                pos: if ecef_of(payload) is Some {
                    ecef_of(payload)
                } else {
                    g.pos
                },
                station_id: station_id_of(payload),
                ..seen
            }
        } else {
            seen
        },
    }
}

/// What one record changes: a checksum failure and a payload without a message
/// number change nothing.
pub open spec fn absorb(g: GnssView, f: FrameView) -> GnssView {
    if !f.crc_ok {
        g
    } else {
        match message_number_of(f.payload) {
            None => g,
            Some(msg) => absorb_message(g, msg, f.payload),
        }
    }
}

/// What a run of records changes.
pub open spec fn absorb_all(g: GnssView, frames: Seq<FrameView>) -> GnssView
    decreases frames.len(),
{
    if frames.len() == 0 {
        g
    } else {
        absorb(absorb_all(g, frames.drop_last()), frames.last())
    }
}

/// Whether the hardware summary is due: a base position is known, and the summary
/// has not been announced.
pub open spec fn summary_due(g: GnssView) -> bool {
    !g.announced && g.pos is Some
}

/// The status after a batch of records, of which the announcement is part.
pub open spec fn gnss_after(g: GnssView, frames: Seq<FrameView>) -> GnssView {
    let seen = absorb_all(g, frames);
    GnssView { announced: seen.announced || seen.pos is Some, ..seen }
}

/// A run of records may be taken in two parts.
proof fn lemma_absorb_parts(g: GnssView, a: Seq<FrameView>, b: Seq<FrameView>)
    ensures
        absorb_all(g, a + b) == absorb_all(absorb_all(g, a), b),
    decreases b.len(),
{
    if b.len() == 0 {
        assert(a + b =~= a);
    } else {
        lemma_absorb_parts(g, a, b.drop_last());
        assert((a + b).drop_last() =~= a + b.drop_last());
    }
}

/// Nothing that is known is forgotten: every message number seen, every counted
/// constellation and a known base position stay so, and what was announced stays
/// announced.
pub proof fn law_status_only_grows(g: GnssView, frames: Seq<FrameView>)
    ensures
        g.types.subset_of(absorb_all(g, frames).types),
        g.sats.dom().subset_of(absorb_all(g, frames).sats.dom()),
        g.pos is Some ==> absorb_all(g, frames).pos is Some,
        absorb_all(g, frames).announced == g.announced,
    decreases frames.len(),
{
    if frames.len() > 0 {
        law_status_only_grows(g, frames.drop_last());
    }
}

/// Checksum failures change nothing.
pub proof fn law_failures_change_nothing(g: GnssView, frames: Seq<FrameView>)
    requires
        forall|i: int| 0 <= i < frames.len() ==> !(#[trigger] frames[i]).crc_ok,
    ensures
        absorb_all(g, frames) == g,
    decreases frames.len(),
{
    if frames.len() > 0 {
        assert forall|i: int| 0 <= i < frames.drop_last().len() implies !(
        #[trigger] frames.drop_last()[i]).crc_ok by {
            assert(frames.drop_last()[i] == frames[i]);
        }
        law_failures_change_nothing(g, frames.drop_last());
    }
}

/// The message types seen are those of the valid frames, and no others.
pub proof fn law_types_are_those_seen(frames: Seq<FrameView>, msg: u16)
    ensures
        absorb_all(gnss_start(), frames).types.contains(msg) <==> exists|i: int|
            0 <= i < frames.len() && carries(#[trigger] frames[i], msg),
    decreases frames.len(),
{
    if frames.len() > 0 {
        let before = frames.drop_last();
        law_types_are_those_seen(before, msg);
        if absorb_all(gnss_start(), before).types.contains(msg) {
            let i = choose|i: int| 0 <= i < before.len() && carries(#[trigger] before[i], msg);
            assert(carries(frames[i], msg));
        }
        if exists|i: int| 0 <= i < frames.len() && carries(#[trigger] frames[i], msg) {
            let i = choose|i: int| 0 <= i < frames.len() && carries(#[trigger] frames[i], msg);
            if i < before.len() {
                assert(carries(before[i], msg));
            } else {
                assert(carries(frames.last(), msg));
            }
        }
        if carries(frames.last(), msg) {
            assert(carries(frames[frames.len() - 1], msg));
        }
    }
}

/// The status does not depend on how the stream is cut: taking `a` and then `b`
/// leaves the status and the bytes that taking both at once leaves, and the
/// summary is due in one of the two steps exactly where it is due at once.
pub proof fn law_status_in_pieces(g: GnssView, held: Seq<u8>, a: Seq<u8>, b: Seq<u8>)
    ensures
        ({
            let first = frames_in(held + a);
            let second = frames_in(left_over(held + a) + b);
            let whole = frames_in(held + a + b);
            let mid = gnss_after(g, first);
            &&& gnss_after(mid, second) == gnss_after(g, whole)
            &&& summary_due(absorb_all(g, whole)) <==> summary_due(absorb_all(g, first))
                || summary_due(absorb_all(mid, second))
        }),
{
    let first = frames_in(held + a);
    let second = frames_in(left_over(held + a) + b);
    let seen = absorb_all(g, first);
    law_scan_in_pieces(held + a, b);
    lemma_absorb_parts(g, first, second);
    law_status_only_grows(g, first);
    law_status_only_grows(seen, second);
    lemma_absorb_announced(seen, second, seen.announced || seen.pos is Some);
}

/// Whether the summary was announced makes no difference to what is decoded.
proof fn lemma_absorb_announced(g: GnssView, frames: Seq<FrameView>, announced: bool)
    ensures
        absorb_all(GnssView { announced, ..g }, frames) == (GnssView {
            announced,
            ..absorb_all(g, frames)
        }),
    decreases frames.len(),
{
    if frames.len() > 0 {
        lemma_absorb_announced(g, frames.drop_last(), announced);
    }
}

/// The summary is due once: in the batch that makes it due it counts as announced,
/// and whatever is decoded after that, it is never due again.
pub proof fn law_summary_is_due_once(
    g: GnssView,
    frames: Seq<FrameView>,
    later: Seq<FrameView>,
)
    requires
        g.announced || summary_due(absorb_all(g, frames)),
    ensures
        gnss_after(g, frames).announced,
        !summary_due(absorb_all(gnss_after(g, frames), later)),
{
    law_status_only_grows(g, frames);
    law_status_only_grows(gnss_after(g, frames), later);
}

/// The counts at the first `n` places of the list by name, each as `name:count`.
pub open spec fn sat_items(sats: Map<u8, u32>, n: nat) -> Seq<Seq<char>>
    decreases n,
{
    if n == 0 {
        Seq::empty()
    } else {
        let before = sat_items(sats, (n - 1) as nat);
        let k = (n - 1) as u8;
        if sats.contains_key(k) {
            before.push(
                Constellation::spec_at(n - 1).spec_name() + ":"@ + decimal(sats[k] as nat),
            )
        } else {
            before
        }
    }
}

/// The satellite summary: a dash where nothing was counted, else the counts,
/// listed by constellation name.
pub open spec fn sats_line_of(sats: Map<u8, u32>) -> Seq<char> {
    if sat_items(sats, 6).len() == 0 {
        "—"@
    } else {
        joined(sat_items(sats, 6), " "@)
    }
}

/// The message numbers of `types` in ascending order, with commas between.
pub open spec fn types_line_of(types: Set<u16>) -> Seq<char> {
    joined(ascending(types).map_values(|t: u16| decimal(t as nat)), ","@)
}

/// The base position, written out as `text`, or "unknown".
pub open spec fn pos_line_of(pos: Option<Ecef>, text: &PositionText) -> Seq<char> {
    match pos {
        Some(p) => text.lat@ + "°"@ + text.ns() + " "@ + text.lon@ + "°"@ + text.ew() + " "@
            + text.height@ + "m"@,
        None => "unknown"@,
    }
}

/// The one-time hardware summary.
pub open spec fn summary_of(g: GnssView, text: &PositionText) -> Seq<char> {
    "Hardware: base station #"@ + (match g.station_id {
        Some(id) => decimal(id as nat),
        None => "?"@,
    }) + " at "@ + pos_line_of(g.pos, text) + " | constellations: "@ + sats_line_of(g.sats)
        + " | messages: "@ + types_line_of(g.types)
}

/// Decoded GNSS/hardware status, updated as RTCM messages flow through.
#[derive(Debug)]
pub struct GnssData {
    /// Latest satellite count, by the constellation's place in the list by name.
    sats: BTreeMap<u8, u32>,
    /// Base station antenna reference position.
    pos: Option<Ecef>,
    /// Reference station ID from the position message.
    station_id: Option<u16>,
    /// Distinct RTCM message types seen.
    types: BTreeSet<u16>,
    /// Whether the one-time startup hardware summary has been announced.
    announced: bool,
}

impl View for GnssData {
    type V = GnssView;

    closed spec fn view(&self) -> GnssView {
        GnssView {
            sats: self.sats@,
            pos: self.pos,
            station_id: self.station_id,
            types: self.types@,
            announced: self.announced,
        }
    }
}

impl GnssData {
    /// The status before anything was decoded.
    pub fn new() -> (g: GnssData)
        ensures
            g@ == gnss_start(),
    {
        GnssData {
            sats: BTreeMap::new(),
            pos: None,
            station_id: None,
            types: BTreeSet::new(),
            announced: false,
        }
    }

    /// The latest base station antenna reference position, if one was seen.
    pub fn position(&self) -> (r: Option<Ecef>)
        ensures
            r == self@.pos,
    {
        self.pos
    }

    /// Takes one record.
    fn absorb(&mut self, frame: &Frame)
        ensures
            final(self)@ == absorb(old(self)@, frame@),
    {
        if !frame.crc_ok {
            return ;
        }
        let msg: u16 = match frame.msg_type() {
            None => {
                return ;
            },
            Some(n) => n,
        };
        let payload: &[u8] = frame.payload.as_slice();
        self.types.insert(msg);
        if let Some(c) = msm_constellation(msg) {
            if let Some(count) = msm_satellite_count(payload) {
                self.sats.insert(c.rank(), count);
            }
        } else if msg == 1005 || msg == 1006 {
            if let Some(p) = station_ecef(payload) {
                self.pos = Some(p);
            }
            self.station_id = station_id(payload);
        }
        assert(self@ =~= absorb(old(self)@, frame@));
    }

    /// Decodes RTCM frames from the stream and updates the status. Returns whether
    /// the hardware summary is due: the first time a base position is known, once
    /// the whole batch is counted, so that the summary reflects every
    /// constellation seen so far.
    pub fn update_gnss(&mut self, deframer: &mut Deframer, data: &[u8]) -> (announce: bool)
        requires
            old(deframer)@.len() + data@.len() <= isize::MAX,
        ensures
            final(deframer)@ == left_over(old(deframer)@ + data@),
            final(deframer).wf(),
            final(self)@ == gnss_after(old(self)@, frames_in(old(deframer)@ + data@)),
            announce == summary_due(absorb_all(old(self)@, frames_in(old(deframer)@ + data@))),
    {
        let frames: Vec<Frame> = deframer.push(data);
        let ghost all = frame_views(frames@);
        let mut i: usize = 0;
        assert(all.take(0) =~= Seq::<FrameView>::empty());
        while i < frames.len()
            invariant
                i <= frames@.len(),
                all == frame_views(frames@),
                self@ == absorb_all(old(self)@, all.take(i as int)),
            decreases frames@.len() - i,
        {
            proof {
                assert(all.take(i + 1).drop_last() =~= all.take(i as int));
                assert(all.take(i + 1).last() == frames@[i as int]@);
            }
            self.absorb(&frames[i]);
            i = i + 1;
        }
        assert(all.take(all.len() as int) =~= all);
        let announce: bool = !self.announced && self.pos.is_some();
        if announce {
            self.announced = true;
        }
        assert(self@ =~= gnss_after(old(self)@, all));
        announce
    }

    /// "GPS:9 Galileo:7" style satellite summary.
    pub fn sats_line(&self) -> (s: String)
        ensures
            s@ == sats_line_of(self@.sats),
    {
        let mut s = String::new();
        let mut any: bool = false;
        let mut k: u8 = 0;
        assert(sat_items(self.sats@, 0) =~= Seq::<Seq<char>>::empty());
        while k < 6
            invariant
                k <= 6,
                any == (sat_items(self.sats@, k as nat).len() > 0),
                s@ == joined(sat_items(self.sats@, k as nat), " "@),
            decreases 6 - k,
        {
            let ghost items = sat_items(self.sats@, k as nat);
            let ghost next = sat_items(self.sats@, (k + 1) as nat);
            if let Some(n) = self.sats.get(&k) {
                let ghost start = s@;
                if any {
                    s.append(" ");
                }
                s.append(Constellation::at(k).name());
                s.append(":");
                push_decimal(&mut s, *n as u64);
                proof {
                    assert(next.drop_last() =~= items);
                    assert(s@ =~= joined(next, " "@));
                }
                any = true;
            }
            k = k + 1;
        }
        if any {
            s
        } else {
            "—".to_string()
        }
    }

    /// Comma-separated list of RTCM message types seen.
    pub fn types_line(&self) -> (s: String)
        ensures
            s@ == types_line_of(self@.types),
    {
        let list: Vec<u16> = sorted_members(&self.types);
        let ghost items = list@.map_values(|t: u16| decimal(t as nat));
        let mut s = String::new();
        let mut i: usize = 0;
        assert(items.take(0) =~= Seq::<Seq<char>>::empty());
        while i < list.len()
            invariant
                i <= list@.len(),
                items == list@.map_values(|t: u16| decimal(t as nat)),
                s@ == joined(items.take(i as int), ","@),
            decreases list@.len() - i,
        {
            let ghost next = items.take(i + 1);
            if i > 0 {
                s.append(",");
            }
            push_decimal(&mut s, list[i] as u64);
            proof {
                assert(next.drop_last() =~= items.take(i as int));
                assert(next.last() == decimal(list@[i as int] as nat));
                assert(s@ =~= joined(next, ","@));
            }
            i = i + 1;
        }
        assert(items.take(items.len() as int) =~= items);
        s
    }

    /// Human-readable base position, or "unknown" if not seen yet. `text` is the
    /// known position, written out; where none is known it is not used.
    pub fn pos_line(&self, text: &PositionText) -> (s: String)
        ensures
            s@ == pos_line_of(self@.pos, text),
    {
        if self.pos.is_none() {
            return "unknown".to_string();
        }
        let mut s = text.lat.clone();
        s.append("°");
        s.append(text.ns_letter());
        s.append(" ");
        s.append(text.lon.as_str());
        s.append("°");
        s.append(text.ew_letter());
        s.append(" ");
        s.append(text.height.as_str());
        s.append("m");
        s
    }

    /// The one-time hardware summary. `text` is the known base position, written
    /// out.
    pub fn summary(&self, text: &PositionText) -> (s: String)
        ensures
            s@ == summary_of(self@, text),
    {
        let mut s = "Hardware: base station #".to_string();
        match self.station_id {
            Some(id) => {
                push_decimal(&mut s, id as u64);
            },
            None => {
                s.append("?");
            },
        }
        s.append(" at ");
        s.append(self.pos_line(text).as_str());
        s.append(" | constellations: ");
        s.append(self.sats_line().as_str());
        s.append(" | messages: ");
        s.append(self.types_line().as_str());
        s
    }
}

} // verus!
