//! What holds of the decoded status: where each part of it comes from, and what is
//! said of it.
use crate::bits::signed_field;
use crate::decoding::{
    law_observation_numbers, law_station_id, law_station_position, lemma_satellites, satellites_in,
};
use crate::gnss::{
    absorb, absorb_all, gnss_after, gnss_start, law_status_only_grows, pos_line_of, sat_items, sats_line_of,
    summary_due, summary_of, types_line_of, GnssView,
};
use crate::listing::{
    ascending, law_greatest_is_listed_last, law_nothing_is_listed_of_nothing,
    lemma_ascending_members,
};
use crate::rtcm::{message_number_of, Constellation, Ecef, FrameView, PositionText};
use crate::text::decimal;
use vstd::prelude::*;

verus! {

/// Whether `f` is a valid frame of one of the two messages that name the base station.
pub open spec fn names_station(f: FrameView) -> bool {
    &&& f.crc_ok
    &&& message_number_of(f.payload) == Some(1005u16) || message_number_of(f.payload) == Some(
        1006u16,
    )
}

/// Whether `f` is such a frame and long enough to hold the base position.
pub open spec fn holds_position(f: FrameView) -> bool {
    names_station(f) && 8 * f.payload.len() >= 152
}

/// Whether `f` is a valid observation message of the `k`-th constellation and long
/// enough to hold its satellite mask.
pub open spec fn holds_mask(f: FrameView, k: int) -> bool {
    &&& f.crc_ok
    &&& message_number_of(f.payload) is Some
    &&& 1071 + 10 * k <= message_number_of(f.payload)->Some_0 <= 1077 + 10 * k
    &&& 8 * f.payload.len() >= 137
}

/// The constellations in the order of their observation messages.
pub open spec fn observed(k: int) -> Constellation {
    seq![
        Constellation::Gps,
        Constellation::Glonass,
        Constellation::Galileo,
        Constellation::Sbas,
        Constellation::Qzss,
        Constellation::BeiDou,
    ][k]
}

/// Before anything was decoded nothing is known, and nothing was announced.
pub proof fn law_nothing_is_known_at_first(msg: u16, k: u8)
    ensures
        !gnss_start().types.contains(msg),
        !gnss_start().sats.contains_key(k),
        gnss_start().pos is None,
        gnss_start().station_id is None,
        !gnss_start().announced,
{
}

/// The base position is the one that the last frame with a position holds, coordinate by
/// coordinate.
pub proof fn law_base_position_is_the_last(g: GnssView, frames: Seq<FrameView>, i: int)
    requires
        0 <= i < frames.len(),
        holds_position(frames[i]),
        forall|j: int| i < j < frames.len() ==> !holds_position(#[trigger] frames[j]),
    ensures
        ({
            let pos = absorb_all(g, frames).pos;
            &&& pos is Some
            &&& pos->Some_0.x == signed_field(frames[i].payload, 34, 38)
            &&& pos->Some_0.y == signed_field(frames[i].payload, 74, 38)
            &&& pos->Some_0.z == signed_field(frames[i].payload, 114, 38)
        }),
    decreases frames.len(),
{
    let before = frames.drop_last();
    let f = frames.last();
    law_station_position(f.payload);
    if i < before.len() {
        assert(!holds_position(frames[frames.len() - 1]));
        assert forall|j: int| i < j < before.len() implies !holds_position(#[trigger] before[j]) by {
            assert(before[j] == frames[j]);
        }
        law_base_position_is_the_last(g, before, i);
    }
}

/// Without a frame that holds a position, the base position stays what it was.
pub proof fn law_base_position_is_kept(g: GnssView, frames: Seq<FrameView>)
    requires
        forall|j: int| 0 <= j < frames.len() ==> !holds_position(#[trigger] frames[j]),
    ensures
        absorb_all(g, frames).pos == g.pos,
    decreases frames.len(),
{
    if frames.len() > 0 {
        let before = frames.drop_last();
        assert(!holds_position(frames[frames.len() - 1]));
        assert forall|j: int| 0 <= j < before.len() implies !holds_position(#[trigger] before[j]) by {
            assert(before[j] == frames[j]);
        }
        law_station_position(frames.last().payload);
        law_base_position_is_kept(g, before);
    }
}

/// The station ID is the one that the last frame that names the station holds; unknown
/// where that is too short for one.
pub proof fn law_station_id_is_the_last(g: GnssView, frames: Seq<FrameView>, i: int)
    requires
        0 <= i < frames.len(),
        names_station(frames[i]),
        forall|j: int| i < j < frames.len() ==> !names_station(#[trigger] frames[j]),
    ensures
        ({
            let p = frames[i].payload;
            absorb_all(g, frames).station_id == if p.len() >= 3 {
                Some((p[1] % 16 * 256 + p[2]) as u16)
            } else {
                None
            }
        }),
    decreases frames.len(),
{
    let before = frames.drop_last();
    law_station_id(frames.last().payload);
    if i < before.len() {
        assert(!names_station(frames[frames.len() - 1]));
        assert forall|j: int| i < j < before.len() implies !names_station(#[trigger] before[j]) by {
            assert(before[j] == frames[j]);
        }
        law_station_id_is_the_last(g, before, i);
    }
}

/// Without a frame that names the station, the station ID stays what it was.
pub proof fn law_station_id_is_kept(g: GnssView, frames: Seq<FrameView>)
    requires
        forall|j: int| 0 <= j < frames.len() ==> !names_station(#[trigger] frames[j]),
    ensures
        absorb_all(g, frames).station_id == g.station_id,
    decreases frames.len(),
{
    if frames.len() > 0 {
        let before = frames.drop_last();
        assert(!names_station(frames[frames.len() - 1]));
        assert forall|j: int| 0 <= j < before.len() implies !names_station(#[trigger] before[j]) by {
            assert(before[j] == frames[j]);
        }
        law_station_id_is_kept(g, before);
    }
}

/// The satellite count of a constellation is the number of satellites that the mask of
/// its last observation message names.
pub proof fn law_satellite_count_is_the_last(
    g: GnssView,
    frames: Seq<FrameView>,
    i: int,
    k: int,
)
    requires
        0 <= k < 6,
        0 <= i < frames.len(),
        holds_mask(frames[i], k),
        forall|j: int| i < j < frames.len() ==> !holds_mask(#[trigger] frames[j], k),
    ensures
        ({
            let sats = absorb_all(g, frames).sats;
            let r = observed(k).spec_rank();
            &&& sats.contains_key(r)
            &&& sats[r] == satellites_in(frames[i].payload)
        }),
    decreases frames.len(),
{
    let before = frames.drop_last();
    let f = frames.last();
    lemma_mask(absorb_all(g, before), f, k);
    if i < before.len() {
        assert(!holds_mask(frames[frames.len() - 1], k));
        assert forall|j: int| i < j < before.len() implies !holds_mask(#[trigger] before[j], k) by {
            assert(before[j] == frames[j]);
        }
        law_satellite_count_is_the_last(g, before, i, k);
    }
}

/// Without an observation message of a constellation, its satellite count stays what it
/// was.
pub proof fn law_satellite_count_is_kept(g: GnssView, frames: Seq<FrameView>, k: int)
    requires
        0 <= k < 6,
        forall|j: int| 0 <= j < frames.len() ==> !holds_mask(#[trigger] frames[j], k),
    ensures
        ({
            let sats = absorb_all(g, frames).sats;
            let r = observed(k).spec_rank();
            &&& sats.contains_key(r) <==> g.sats.contains_key(r)
            &&& g.sats.contains_key(r) ==> sats[r] == g.sats[r]
        }),
    decreases frames.len(),
{
    if frames.len() > 0 {
        let before = frames.drop_last();
        assert(!holds_mask(frames[frames.len() - 1], k));
        assert forall|j: int| 0 <= j < before.len() implies !holds_mask(#[trigger] before[j], k) by {
            assert(before[j] == frames[j]);
        }
        lemma_mask(absorb_all(g, before), frames.last(), k);
        law_satellite_count_is_kept(g, before, k);
    }
}

/// What one record does to the count of one constellation.
proof fn lemma_mask(g: GnssView, f: FrameView, k: int)
    requires
        0 <= k < 6,
    ensures
        ({
            let sats = absorb(g, f).sats;
            let r = observed(k).spec_rank();
            &&& holds_mask(f, k) ==> sats.contains_key(r) && sats[r] == satellites_in(f.payload)
            &&& !holds_mask(f, k) ==> (sats.contains_key(r) <==> g.sats.contains_key(r))
            &&& !holds_mask(f, k) && g.sats.contains_key(r) ==> sats[r] == g.sats[r]
        }),
{
    lemma_satellites(f.payload);
    if message_number_of(f.payload) is Some {
        law_observation_numbers(message_number_of(f.payload)->Some_0);
    }
}

/// The hardware summary is due in the first batch after which a base position is known:
/// where it was not announced, exactly if one was known before or a frame holds one.
pub proof fn law_summary_is_due_with_a_position(g: GnssView, frames: Seq<FrameView>)
    requires
        !g.announced,
    ensures
        summary_due(absorb_all(g, frames)) <==> g.pos is Some || exists|i: int|
            0 <= i < frames.len() && holds_position(#[trigger] frames[i]),
{
    law_status_only_grows(g, frames);
    if exists|i: int| 0 <= i < frames.len() && holds_position(#[trigger] frames[i]) {
        let i = choose|i: int| 0 <= i < frames.len() && holds_position(#[trigger] frames[i]);
        lemma_some_position(g, frames, i);
    } else {
        law_base_position_is_kept(g, frames);
    }
}

proof fn lemma_some_position(g: GnssView, frames: Seq<FrameView>, i: int)
    requires
        0 <= i < frames.len(),
        holds_position(frames[i]),
    ensures
        absorb_all(g, frames).pos is Some,
    decreases frames.len(),
{
    let before = frames.drop_last();
    law_station_position(frames.last().payload);
    if i < before.len() {
        assert(before[i] == frames[i]);
        lemma_some_position(g, before, i);
    }
}

/// A batch leaves what was decoded as it is, and marks the summary announced exactly
/// where it was, or a base position is known.
pub proof fn law_batch_keeps_what_was_decoded(g: GnssView, frames: Seq<FrameView>)
    ensures
        ({
            let seen = absorb_all(g, frames);
            let after = gnss_after(g, frames);
            &&& after.sats == seen.sats
            &&& after.pos == seen.pos
            &&& after.station_id == seen.station_id
            &&& after.types == seen.types
            &&& after.announced <==> g.announced || seen.pos is Some
        }),
{
    law_status_only_grows(g, frames);
}

/// Places above all counted ones add nothing to the list.
proof fn lemma_no_items_above(sats: Map<u8, u32>, k: nat, n: nat)
    requires
        k <= n <= 6,
        forall|j: u8| #[trigger] sats.contains_key(j) ==> j < k,
    ensures
        sat_items(sats, n) == sat_items(sats, k),
    decreases n,
{
    if n > k {
        lemma_no_items_above(sats, k, (n - 1) as nat);
    }
}

/// What is counted at a place does not change the list before it.
proof fn lemma_items_below(sats: Map<u8, u32>, k: u8, n: u32, m: nat)
    requires
        m <= k < 6,
    ensures
        sat_items(sats.insert(k, n), m) == sat_items(sats, m),
    decreases m,
{
    if m > 0 {
        lemma_items_below(sats, k, n, (m - 1) as nat);
    }
}

proof fn lemma_items_of_some(sats: Map<u8, u32>, j: u8, m: nat)
    requires
        sats.contains_key(j),
        j < m <= 6,
    ensures
        sat_items(sats, m).len() > 0,
    decreases m,
{
    if j < m - 1 {
        lemma_items_of_some(sats, j, (m - 1) as nat);
    }
}

proof fn lemma_items_of_none(m: nat)
    ensures
        sat_items(Map::empty(), m).len() == 0,
    decreases m,
{
    if m > 0 {
        lemma_items_of_none((m - 1) as nat);
    }
}

/// The satellite summary lists the counts one behind the other, by constellation name: a
/// dash where there are none, and the one that comes last by name stands last.
pub proof fn law_sats_line_lists_every_count(sats: Map<u8, u32>, k: u8, n: u32)
    requires
        k < 6,
        forall|j: u8| #[trigger] sats.contains_key(j) ==> j < k,
    ensures
        sats_line_of(Map::empty()) == "—"@,
        ({
            let item = seq![
                "BeiDou"@,
                "GLONASS"@,
                "GPS"@,
                "Galileo"@,
                "QZSS"@,
                "SBAS"@,
            ][k as int] + ":"@ + decimal(n as nat);
            sats_line_of(sats.insert(k, n)) == if forall|j: u8| !sats.contains_key(j) {
                item
            } else {
                sats_line_of(sats) + " "@ + item
            }
        }),
{
    let more = sats.insert(k, n);
    let items = sat_items(sats, k as nat);
    lemma_items_of_none(6);
    lemma_no_items_above(sats, k as nat, 6);
    lemma_items_below(sats, k, n, k as nat);
    lemma_no_items_above(more, (k + 1) as nat, 6);
    let all = sat_items(more, (k + 1) as nat);
    assert(all.drop_last() =~= items);
    if forall|j: u8| !sats.contains_key(j) {
        assert(sats =~= Map::empty());
        lemma_items_of_none(k as nat);
    } else {
        let j = choose|j: u8| sats.contains_key(j);
        lemma_items_of_some(sats, j, k as nat);
    }
}

/// The message types are listed one behind the other: nothing where there are none, and
/// the greatest stands last.
pub proof fn law_types_line_lists_every_type(types: Set<u16>, t: u16)
    requires
        forall|x: u16| #[trigger] types.contains(x) ==> x < t,
    ensures
        types_line_of(Set::empty()) == Seq::<char>::empty(),
        types_line_of(types.insert(t)) == if forall|x: u16| !types.contains(x) {
            decimal(t as nat)
        } else {
            types_line_of(types) + ","@ + decimal(t as nat)
        },
{
    law_nothing_is_listed_of_nothing();
    law_greatest_is_listed_last(types, t);
    let f = |t: u16| decimal(t as nat);
    let a = ascending(types);
    assert(ascending(Set::<u16>::empty()).map_values(f) =~= Seq::<Seq<char>>::empty());
    assert(a.push(t).map_values(f) =~= a.map_values(f).push(decimal(t as nat)));
    assert(a.map_values(f).push(decimal(t as nat)).drop_last() =~= a.map_values(f));
    if forall|x: u16| !types.contains(x) {
        assert(types =~= Set::empty());
    } else {
        let x = choose|x: u16| types.contains(x);
        lemma_ascending_members(types, 0, x);
        assert(a.len() > 0);
    }
}

/// A base position is written with its latitude first, each of the two with the letter of
/// its hemisphere, and its height last; an unknown one is called so.
pub proof fn law_pos_line(p: Ecef, text: &PositionText)
    ensures
        pos_line_of(None, text) == "unknown"@,
        pos_line_of(Some(p), text) == text.lat@ + seq![
            '°',
            if text.north {
                'N'
            } else {
                'S'
            },
            ' ',
        ] + text.lon@ + seq![
            '°',
            if text.east {
                'E'
            } else {
                'W'
            },
            ' ',
        ] + text.height@ + seq!['m'],
{
    reveal_strlit("°");
    reveal_strlit("N");
    reveal_strlit("S");
    reveal_strlit("E");
    reveal_strlit("W");
    reveal_strlit(" ");
    reveal_strlit("m");
    assert(pos_line_of(Some(p), text) =~= text.lat@ + seq![
        '°',
        if text.north {
            'N'
        } else {
            'S'
        },
        ' ',
    ] + text.lon@ + seq![
        '°',
        if text.east {
            'E'
        } else {
            'W'
        },
        ' ',
    ] + text.height@ + seq!['m']);
}

/// The hardware summary names the station, its position, the satellites and the message
/// types, in this order; an unknown station is a question mark.
pub proof fn law_summary(g: GnssView, text: &PositionText, id: u16)
    ensures
        summary_of(GnssView { station_id: Some(id), ..g }, text) == "Hardware: base station #"@
            + decimal(id as nat) + " at "@ + pos_line_of(g.pos, text) + " | constellations: "@
            + sats_line_of(g.sats) + " | messages: "@ + types_line_of(g.types),
        summary_of(GnssView { station_id: None, ..g }, text) == "Hardware: base station #"@ + "?"@
            + " at "@ + pos_line_of(g.pos, text) + " | constellations: "@ + sats_line_of(g.sats)
            + " | messages: "@ + types_line_of(g.types),
{
}

} // verus!
