//! What holds of every message that is decoded.
use crate::bits::{
    bit_at, field_bits, law_byte_field_is_the_byte, law_field_is_read_in_parts,
    law_set_bits_are_counted, law_signed_field_is_twos_complement, lemma_be_value_bound, set_bits,
    signed_field, unsigned_field,
};
use crate::rtcm::{
    constellation_of, description_of, ecef_of, message_number_of, station_id_of, Constellation,
    StationText,
};
use crate::text::decimal;
use vstd::arithmetic::power2::{lemma2_to64, pow2};
use vstd::prelude::*;

verus! {

/// The upper and the lower half of a byte.
proof fn lemma_half_bytes(d: Seq<u8>, k: int)
    requires
        0 <= k < d.len(),
    ensures
        unsigned_field(d, 8 * k, 4) == d[k] / 16,
        unsigned_field(d, 8 * k + 4, 4) == d[k] % 16,
{
    lemma2_to64();
    law_byte_field_is_the_byte(d, k);
    law_field_is_read_in_parts(d, 8 * k, 4, 4);
    lemma_be_value_bound(field_bits(d, 8 * k + 4, 4));
}

/// A message number is the first byte and the upper half of the second; a payload of
/// fewer than two bytes has none.
pub proof fn law_message_number(payload: Seq<u8>)
    ensures
        payload.len() < 2 ==> message_number_of(payload) is None,
        payload.len() >= 2 ==> message_number_of(payload) == Some(
            (payload[0] * 16 + payload[1] / 16) as u16,
        ),
{
    if payload.len() >= 2 {
        lemma2_to64();
        law_byte_field_is_the_byte(payload, 0);
        lemma_half_bytes(payload, 1);
        law_field_is_read_in_parts(payload, 0, 8, 4);
    }
}

/// A station ID is the lower half of the second byte and the third; a payload of fewer
/// than three bytes has none.
pub proof fn law_station_id(payload: Seq<u8>)
    ensures
        payload.len() < 3 ==> station_id_of(payload) is None,
        payload.len() >= 3 ==> station_id_of(payload) == Some(
            (payload[1] % 16 * 256 + payload[2]) as u16,
        ),
        payload.len() >= 3 ==> unsigned_field(payload, 12, 12) == payload[1] % 16 * 256
            + payload[2],
{
    if payload.len() >= 3 {
        lemma2_to64();
        law_byte_field_is_the_byte(payload, 2);
        lemma_half_bytes(payload, 1);
        law_field_is_read_in_parts(payload, 12, 4, 8);
    }
}

/// An antenna reference position is read coordinate by coordinate from the fields of
/// 38 bits at bits 34, 74 and 114, each within its range; a payload of fewer than 152
/// bits has none.
pub proof fn law_station_position(payload: Seq<u8>)
    ensures
        8 * payload.len() < 152 ==> ecef_of(payload) is None,
        8 * payload.len() >= 152 ==> ({
            let p = ecef_of(payload)->Some_0;
            &&& ecef_of(payload) is Some
            &&& p.x == signed_field(payload, 34, 38)
            &&& p.y == signed_field(payload, 74, 38)
            &&& p.z == signed_field(payload, 114, 38)
            &&& -137438953472 <= p.x < 137438953472
            &&& -137438953472 <= p.y < 137438953472
            &&& -137438953472 <= p.z < 137438953472
        }),
{
    lemma_pow2_37();
    law_signed_field_is_twos_complement(payload, 34, 38);
    law_signed_field_is_twos_complement(payload, 74, 38);
    law_signed_field_is_twos_complement(payload, 114, 38);
}

proof fn lemma_pow2_37()
    ensures
        pow2(37) == 137438953472,
{
    vstd::arithmetic::power2::lemma2_to64_rest();
}

/// The observation messages are those from 1071 to 1127 whose last digit is 1 to 7; the
/// other digits say which constellation they are of, and it has its usual name.
pub proof fn law_observation_numbers(msg: u16)
    ensures
        constellation_of(msg) is Some <==> 1071 <= msg <= 1127 && 1 <= msg % 10 <= 7,
        constellation_of(msg) is Some ==> constellation_of(msg)->Some_0 == seq![
            Constellation::Gps,
            Constellation::Glonass,
            Constellation::Galileo,
            Constellation::Sbas,
            Constellation::Qzss,
            Constellation::BeiDou,
        ][msg / 10 - 107],
        constellation_of(msg) is Some ==> constellation_of(msg)->Some_0.spec_name() == seq![
            "GPS"@,
            "GLONASS"@,
            "Galileo"@,
            "SBAS"@,
            "QZSS"@,
            "BeiDou"@,
        ][msg / 10 - 107],
{
}

/// How many satellites the mask of an observation message names: one for each set bit
/// of the 64 from bit 73 on.
pub open spec fn satellites_in(payload: Seq<u8>) -> nat {
    Seq::new(64, |k: int| bit_at(payload, 73 + k)).filter(|x: bool| x).len()
}

/// The mask that is counted is that of the message.
pub proof fn lemma_satellites(payload: Seq<u8>)
    ensures
        set_bits(field_bits(payload, 73, 64)) == satellites_in(payload),
        satellites_in(payload) <= 64,
{
    let mask = Seq::new(64, |k: int| bit_at(payload, 73 + k));
    assert(field_bits(payload, 73, 64) =~= mask);
    law_set_bits_are_counted(mask);
    mask.lemma_filter_len(|x: bool| x);
}

/// Every antenna reference position is described, whichever of the two messages carries
/// it: in three lines, of which the first names the message and the station, the second
/// gives latitude, longitude and height, and the third the coordinates X, Y and Z.
pub proof fn law_station_is_described(payload: Seq<u8>, station: &StationText)
    requires
        message_number_of(payload) == Some(1005u16) || message_number_of(payload) == Some(1006u16),
        8 * payload.len() >= 152,
    ensures
        ({
            let lines = description_of(payload, station);
            let p = station.position;
            let e = station.ecef;
            let id = (payload[1] % 16 * 256 + payload[2]) as nat;
            &&& lines.len() == 3
            &&& lines[0] == "["@ + decimal((payload[0] * 16 + payload[1] / 16) as nat) + "] "@
                + "base station #"@ + decimal(id) + " antenna reference position:"@
            &&& lines[1] == "      "@ + p.lat@ + "°"@ + (if p.north {
                "N"@
            } else {
                "S"@
            }) + "  "@ + p.lon@ + "°"@ + (if p.east {
                "E"@
            } else {
                "W"@
            }) + "  height "@ + p.height@ + " m"@
            &&& lines[2] == "      ECEF  X="@ + e.x@ + "  Y="@ + e.y@ + "  Z="@ + e.z@
                + "  (metres)"@
        }),
{
    law_message_number(payload);
    law_station_id(payload);
}

/// Every observation message is described by its constellation and by how many
/// satellites its mask names.
pub proof fn law_observations_are_described(payload: Seq<u8>, station: &StationText, msg: u16)
    requires
        message_number_of(payload) == Some(msg),
        1071 <= msg <= 1127,
        1 <= msg % 10 <= 7,
        8 * payload.len() >= 137,
    ensures
        description_of(payload, station) == seq![
            "["@ + decimal(msg as nat) + "] "@ + seq![
                "GPS"@,
                "GLONASS"@,
                "Galileo"@,
                "SBAS"@,
                "QZSS"@,
                "BeiDou"@,
            ][msg / 10 - 107] + " observations (MSM) — "@ + decimal(satellites_in(payload))
                + " satellites tracked"@,
        ],
{
    law_observation_numbers(msg);
    lemma_satellites(payload);
}

/// Whether a payload is described by its contents: it holds a whole position, or a
/// whole satellite mask.
pub open spec fn is_decoded(payload: Seq<u8>, msg: u16) -> bool {
    ||| (msg == 1005 || msg == 1006) && 8 * payload.len() >= 152
    ||| 1071 <= msg <= 1127 && 1 <= msg % 10 <= 7 && 8 * payload.len() >= 137
}

/// Every other message is described in one line by its number alone: an ephemeris by its
/// constellation, and a message without a label of its own as some RTCM message.
pub proof fn law_labels(payload: Seq<u8>, station: &StationText, msg: u16)
    requires
        message_number_of(payload) == Some(msg),
        !is_decoded(payload, msg),
    ensures
        ({
            let lines = description_of(payload, station);
            let tag = "["@ + decimal(msg as nat) + "] "@;
            &&& lines.len() == 1
            &&& msg == 1019 ==> lines[0] == tag + "GPS satellite ephemeris"@
            &&& msg == 1020 ==> lines[0] == tag + "GLONASS satellite ephemeris"@
            &&& msg == 1042 ==> lines[0] == tag + "BeiDou satellite ephemeris"@
            &&& msg == 1046 ==> lines[0] == tag + "Galileo satellite ephemeris"@
            &&& msg == 1230 ==> lines[0] == tag + "GLONASS code-phase biases"@
            &&& msg == 1007 || msg == 1008 || msg == 1033 ==> lines[0] == tag
                + "antenna / receiver descriptor"@
            &&& !seq![1007u16, 1008, 1019, 1020, 1033, 1042, 1046, 1230].contains(msg) ==> lines[0]
                == tag + "RTCM message"@
        }),
{
    law_observation_numbers(msg);
    let labelled = seq![1007u16, 1008, 1019, 1020, 1033, 1042, 1046, 1230];
    assert(labelled[0] == 1007 && labelled[1] == 1008 && labelled[2] == 1019 && labelled[3] == 1020
        && labelled[4] == 1033 && labelled[5] == 1042 && labelled[6] == 1046 && labelled[7]
        == 1230);
}

/// A payload without a message number is not described, and nothing but a position makes
/// use of the written-out position.
pub proof fn law_descriptions_without_position(
    payload: Seq<u8>,
    station: &StationText,
    other: &StationText,
)
    ensures
        payload.len() < 2 ==> description_of(payload, station).len() == 0,
        !(message_number_of(payload) == Some(1005u16) || message_number_of(payload) == Some(1006u16))
            || 8 * payload.len() < 152 ==> description_of(payload, station) == description_of(
            payload,
            other,
        ),
{
}

} // verus!
