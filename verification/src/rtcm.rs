//! RTCM 3 framing and message decoding, shared by the caster and the rover
//! client.
//!
//! RTCM 3 frame layout:
//!   byte 0      : 0xD3 preamble
//!   byte 1..2   : 6 reserved bits + 10-bit payload length (big-endian)
//!   byte 3..    : payload  (first 12 bits = message number)
//!   last 3 bytes: CRC-24Q over preamble + length + payload
use crate::bits::{
    bit_at, field_bits, lemma_be_value_bound, set_bits, signed_field, unsigned_field, Bits,
};
pub use crate::crc::crc24q;
use crate::crc::{crc24q_of, crc_bytes};
use crate::text::{decimal, first_differs, has_prefix, precedes, push_decimal, texts};
use vstd::arithmetic::power2::lemma2_to64;
use vstd::prelude::*;
use vstd::slice::{slice_subrange, slice_to_vec};

verus! {

/// A satellite constellation that has multiple-signal (MSM) messages.
#[derive(Clone, Copy, Debug, PartialEq, Eq, Structural)]
pub enum Constellation {
    Gps,
    Glonass,
    Galileo,
    Sbas,
    Qzss,
    BeiDou,
}

impl Constellation {
    /// The name that reports use.
    pub open spec fn spec_name(self) -> Seq<char> {
        match self {
            Constellation::Gps => "GPS"@,
            Constellation::Glonass => "GLONASS"@,
            Constellation::Galileo => "Galileo"@,
            Constellation::Sbas => "SBAS"@,
            Constellation::Qzss => "QZSS"@,
            Constellation::BeiDou => "BeiDou"@,
        }
    }

    /// Where the constellation stands when all of them are listed by name.
    pub open spec fn spec_rank(self) -> u8 {
        match self {
            Constellation::BeiDou => 0,
            Constellation::Glonass => 1,
            Constellation::Gps => 2,
            Constellation::Galileo => 3,
            Constellation::Qzss => 4,
            Constellation::Sbas => 5,
        }
    }

    /// The constellation at a place of the list by name.
    pub open spec fn spec_at(rank: int) -> Constellation {
        if rank <= 0 {
            Constellation::BeiDou
        } else if rank == 1 {
            Constellation::Glonass
        } else if rank == 2 {
            Constellation::Gps
        } else if rank == 3 {
            Constellation::Galileo
        } else if rank == 4 {
            Constellation::Qzss
        } else {
            Constellation::Sbas
        }
    }

    /// Where the constellation stands when all of them are listed by name.
    pub fn rank(self) -> (r: u8)
        ensures
            r == self.spec_rank(),
            r < 6,
            Constellation::spec_at(r as int) == self,
    {
        match self {
            Constellation::BeiDou => 0,
            Constellation::Glonass => 1,
            Constellation::Gps => 2,
            Constellation::Galileo => 3,
            Constellation::Qzss => 4,
            Constellation::Sbas => 5,
        }
    }

    /// The constellation at a place of the list by name.
    pub fn at(rank: u8) -> (c: Constellation)
        requires
            rank < 6,
        ensures
            c == Constellation::spec_at(rank as int),
            c.spec_rank() == rank,
    {
        match rank {
            0 => Constellation::BeiDou,
            1 => Constellation::Glonass,
            2 => Constellation::Gps,
            3 => Constellation::Galileo,
            4 => Constellation::Qzss,
            _ => Constellation::Sbas,
        }
    }

    /// The name that reports use.
    pub fn name(self) -> (s: &'static str)
        ensures
            s@ == self.spec_name(),
    {
        match self {
            Constellation::Gps => "GPS",
            Constellation::Glonass => "GLONASS",
            Constellation::Galileo => "Galileo",
            Constellation::Sbas => "SBAS",
            Constellation::Qzss => "QZSS",
            Constellation::BeiDou => "BeiDou",
        }
    }
}

/// The places of the constellations follow their names.
pub proof fn law_constellations_are_listed_by_name(c: Constellation, d: Constellation)
    requires
        c.spec_rank() < d.spec_rank(),
    ensures
        precedes(c.spec_name(), d.spec_name()),
{
    reveal_strlit("GPS");
    reveal_strlit("GLONASS");
    reveal_strlit("Galileo");
    reveal_strlit("SBAS");
    reveal_strlit("QZSS");
    reveal_strlit("BeiDou");
    let a = c.spec_name();
    let b = d.spec_name();
    if a[0] == b[0] {
        assert(a.take(1) =~= b.take(1));
        assert(first_differs(a, b, 1));
    } else {
        assert(a.take(0) =~= b.take(0));
        assert(first_differs(a, b, 0));
    }
}

/// The constellation whose observations the message number `msg` carries.
pub open spec fn constellation_of(msg: u16) -> Option<Constellation> {
    if 1071 <= msg <= 1077 {
        Some(Constellation::Gps)
    } else if 1081 <= msg <= 1087 {
        Some(Constellation::Glonass)
    } else if 1091 <= msg <= 1097 {
        Some(Constellation::Galileo)
    } else if 1101 <= msg <= 1107 {
        Some(Constellation::Sbas)
    } else if 1111 <= msg <= 1117 {
        Some(Constellation::Qzss)
    } else if 1121 <= msg <= 1127 {
        Some(Constellation::BeiDou)
    } else {
        None
    }
}

/// The constellation of an MSM message number (1071–1127), if it is one.
pub fn msm_constellation(msg: u16) -> (r: Option<Constellation>)
    ensures
        r == constellation_of(msg),
{
    if 1071 <= msg && msg <= 1077 {
        Some(Constellation::Gps)
    } else if 1081 <= msg && msg <= 1087 {
        Some(Constellation::Glonass)
    } else if 1091 <= msg && msg <= 1097 {
        Some(Constellation::Galileo)
    } else if 1101 <= msg && msg <= 1107 {
        Some(Constellation::Sbas)
    } else if 1111 <= msg && msg <= 1117 {
        Some(Constellation::Qzss)
    } else if 1121 <= msg && msg <= 1127 {
        Some(Constellation::BeiDou)
    } else {
        None
    }
}

/// GNSS constellation name for an MSM message number (1071–1127), if it is one.
pub fn msm_system(msg: u16) -> (r: Option<&'static str>)
    ensures
        match constellation_of(msg) {
            Some(c) => r is Some && r->Some_0@ == c.spec_name(),
            None => r is None,
        },
{
    match msm_constellation(msg) {
        Some(c) => Some(c.name()),
        None => None,
    }
}

/// The message number of a payload, where it is long enough to hold one.
pub open spec fn message_number_of(payload: Seq<u8>) -> Option<u16> {
    if payload.len() < 2 {
        None
    } else {
        Some(unsigned_field(payload, 0, 12) as u16)
    }
}

/// The RTCM message number (DF002) — first 12 bits of the payload.
pub fn message_number(payload: &[u8]) -> (r: Option<u16>)
    ensures
        r == message_number_of(payload@),
        r is Some ==> r->Some_0 < 4096 && r->Some_0 == unsigned_field(payload@, 0, 12),
{
    if payload.len() < 2 {
        None
    } else {
        proof {
            lemma_be_value_bound(field_bits(payload@, 0, 12));
            lemma2_to64();
        }
        let n: u64 = Bits { d: payload }.u(0, 12);
        Some(n as u16)
    }
}

/// Satellite count in an MSM message: how many bits of the 64-bit satellite mask
/// are set.
pub fn msm_satellite_count(payload: &[u8]) -> (r: Option<u32>)
    ensures
        r is Some <==> 8 * payload@.len() >= 137,
        r is Some ==> r->Some_0 == set_bits(field_bits(payload@, 73, 64)),
{
    if payload.len() < 18 {
        return None;
    }
    let reader = Bits { d: payload };
    let mut count: u32 = 0;
    let mut i: usize = 0;
    assert(field_bits(payload@, 73, 0) =~= Seq::<bool>::empty());
    while i < 64
        invariant
            i <= 64,
            payload@.len() >= 18,
            reader.d@ == payload@,
            count <= i,
            count == set_bits(field_bits(payload@, 73, i as int)),
        decreases 64 - i,
    {
        let set: bool = reader.bit(73 + i);
        proof {
            let b = field_bits(payload@, 73, i + 1);
            assert(b.drop_last() =~= field_bits(payload@, 73, i as int));
            assert(b.last() == bit_at(payload@, 73 + i));
        }
        if set {
            count = count + 1;
        }
        i = i + 1;
    }
    Some(count)
}

/// Antenna reference position in the earth-centred frame, in units of 0.1 mm.
#[derive(Clone, Copy, Debug, PartialEq, Eq, Structural)]
pub struct Ecef {
    pub x: i64,
    pub y: i64,
    pub z: i64,
}

/// The antenna reference position that a 1005/1006 payload holds, where it is
/// long enough to hold one.
pub open spec fn ecef_of(payload: Seq<u8>) -> Option<Ecef> {
    if 8 * payload.len() < 152 {
        None
    } else {
        Some(
            Ecef {
                x: signed_field(payload, 34, 38) as i64,
                y: signed_field(payload, 74, 38) as i64,
                z: signed_field(payload, 114, 38) as i64,
            },
        )
    }
}

/// Antenna reference position (DF025, DF026, DF027) from a 1005/1006 message.
pub fn station_ecef(payload: &[u8]) -> (r: Option<Ecef>)
    ensures
        r == ecef_of(payload@),
        r is Some ==> r->Some_0.x == signed_field(payload@, 34, 38) && r->Some_0.y == signed_field(
            payload@,
            74,
            38,
        ) && r->Some_0.z == signed_field(payload@, 114, 38),
{
    if payload.len() < 19 {
        return None;
    }
    let b = Bits { d: payload };
    let x: i64 = b.i(34, 38);
    let y: i64 = b.i(74, 38);
    let z: i64 = b.i(114, 38);
    Some(Ecef { x, y, z })
}

/// The reference station ID of a payload, where it is long enough to hold one.
pub open spec fn station_id_of(payload: Seq<u8>) -> Option<u16> {
    if 8 * payload.len() < 24 {
        None
    } else {
        Some(unsigned_field(payload, 12, 12) as u16)
    }
}

/// Reference station ID (DF003) — present in most station messages.
pub fn station_id(payload: &[u8]) -> (r: Option<u16>)
    ensures
        r == station_id_of(payload@),
        r is Some ==> r->Some_0 < 4096 && r->Some_0 == unsigned_field(payload@, 12, 12),
{
    if payload.len() < 3 {
        return None;
    }
    proof {
        lemma_be_value_bound(field_bits(payload@, 12, 12));
        lemma2_to64();
    }
    let n: u64 = Bits { d: payload }.u(12, 12);
    Some(n as u16)
}

/// A geodetic position with its numbers already written out: latitude and
/// longitude are magnitudes in degrees, `height` is in metres.
#[derive(Debug)]
pub struct PositionText {
    pub lat: String,
    /// Whether the latitude is at or north of the equator.
    pub north: bool,
    pub lon: String,
    /// Whether the longitude is at or east of the prime meridian.
    pub east: bool,
    pub height: String,
}

impl PositionText {
    pub open spec fn ns(&self) -> Seq<char> {
        if self.north {
            "N"@
        } else {
            "S"@
        }
    }

    pub open spec fn ew(&self) -> Seq<char> {
        if self.east {
            "E"@
        } else {
            "W"@
        }
    }

    /// The hemisphere letter of the latitude.
    pub fn ns_letter(&self) -> (s: &'static str)
        ensures
            s@ == self.ns(),
    {
        if self.north {
            "N"
        } else {
            "S"
        }
    }

    /// The hemisphere letter of the longitude.
    pub fn ew_letter(&self) -> (s: &'static str)
        ensures
            s@ == self.ew(),
    {
        if self.east {
            "E"
        } else {
            "W"
        }
    }
}

/// An earth-centred position with its coordinates, in metres, already written out.
#[derive(Debug)]
pub struct EcefText {
    pub x: String,
    pub y: String,
    pub z: String,
}

/// The written-out forms of the position that [`station_ecef`] reads.
#[derive(Debug)]
pub struct StationText {
    pub position: PositionText,
    pub ecef: EcefText,
}

/// What a message is, where only its number says so.
pub open spec fn label_of(msg: u16) -> Seq<char> {
    if msg == 1019 {
        "GPS satellite ephemeris"@
    } else if msg == 1020 {
        "GLONASS satellite ephemeris"@
    } else if msg == 1042 {
        "BeiDou satellite ephemeris"@
    } else if msg == 1046 {
        "Galileo satellite ephemeris"@
    } else if msg == 1230 {
        "GLONASS code-phase biases"@
    } else if msg == 1007 || msg == 1008 || msg == 1033 {
        "antenna / receiver descriptor"@
    } else {
        "RTCM message"@
    }
}

/// What a message is, where only its number says so.
fn label(msg: u16) -> (s: &'static str)
    ensures
        s@ == label_of(msg),
{
    match msg {
        1019 => "GPS satellite ephemeris",
        1020 => "GLONASS satellite ephemeris",
        1042 => "BeiDou satellite ephemeris",
        1046 => "Galileo satellite ephemeris",
        1230 => "GLONASS code-phase biases",
        1007 | 1008 | 1033 => "antenna / receiver descriptor",
        _ => "RTCM message",
    }
}

/// The prefix of a description's first line.
pub open spec fn type_tag(msg: u16) -> Seq<char> {
    "["@ + decimal(msg as nat) + "] "@
}

/// The three lines that describe an antenna reference position.
pub open spec fn station_lines(msg: u16, id: nat, station: &StationText) -> Seq<Seq<char>> {
    let p = station.position;
    let e = station.ecef;
    seq![
        type_tag(msg) + "base station #"@ + decimal(id) + " antenna reference position:"@,
        "      "@ + p.lat@ + "°"@ + p.ns() + "  "@ + p.lon@ + "°"@ + p.ew() + "  height "@ + p.height@
            + " m"@,
        "      ECEF  X="@ + e.x@ + "  Y="@ + e.y@ + "  Z="@ + e.z@ + "  (metres)"@,
    ]
}

/// The lines that describe a payload: nothing where it has no message number,
/// three lines for an antenna reference position, one line for everything else.
pub open spec fn description_of(payload: Seq<u8>, station: &StationText) -> Seq<Seq<char>> {
    match message_number_of(payload) {
        None => Seq::empty(),
        Some(msg) => {
            if (msg == 1005 || msg == 1006) && 8 * payload.len() >= 152 {
                station_lines(msg, unsigned_field(payload, 12, 12), station)
            } else if constellation_of(msg) is Some && 8 * payload.len() >= 137 {
                seq![
                    type_tag(msg) + constellation_of(msg)->Some_0.spec_name()
                        + " observations (MSM) — "@ + decimal(
                        set_bits(field_bits(payload, 73, 64)),
                    ) + " satellites tracked"@,
                ]
            } else {
                seq![type_tag(msg) + label_of(msg)]
            }
        },
    }
}

/// Every payload with a message number is described, in one line or three, of which
/// the first starts with the number in brackets.
pub proof fn law_description_starts_with_type(payload: Seq<u8>, station: &StationText)
    requires
        message_number_of(payload) is Some,
    ensures
        ({
            let lines = description_of(payload, station);
            let msg = message_number_of(payload)->Some_0;
            &&& lines.len() == 1 || lines.len() == 3
            &&& has_prefix(lines[0], "["@ + decimal(msg as nat) + "]"@)
        }),
{
    reveal_strlit("]");
    reveal_strlit("] ");
    let msg = message_number_of(payload)->Some_0;
    let tag = "["@ + decimal(msg as nat) + "]"@;
    let first = description_of(payload, station)[0];
    assert(first.take(tag.len() as int) =~= tag);
}

fn tagged(msg: u16) -> (s: String)
    ensures
        s@ == type_tag(msg),
{
    let mut s = "[".to_string();
    push_decimal(&mut s, msg as u64);
    s.append("] ");
    s
}

fn describe_station(msg: u16, id: u16, station: &StationText) -> (r: Vec<String>)
    ensures
        texts(r@) == station_lines(msg, id as nat, station),
{
    let p = &station.position;
    let e = &station.ecef;
    let mut title = tagged(msg);
    title.append("base station #");
    push_decimal(&mut title, id as u64);
    title.append(" antenna reference position:");
    let mut geodetic = "      ".to_string();
    geodetic.append(p.lat.as_str());
    geodetic.append("°");
    geodetic.append(p.ns_letter());
    geodetic.append("  ");
    geodetic.append(p.lon.as_str());
    geodetic.append("°");
    geodetic.append(p.ew_letter());
    geodetic.append("  height ");
    geodetic.append(p.height.as_str());
    geodetic.append(" m");
    let mut ecef = "      ECEF  X=".to_string();
    ecef.append(e.x.as_str());
    ecef.append("  Y=");
    ecef.append(e.y.as_str());
    ecef.append("  Z=");
    ecef.append(e.z.as_str());
    ecef.append("  (metres)");
    let mut r: Vec<String> = Vec::new();
    r.push(title);
    r.push(geodetic);
    r.push(ecef);
    assert(texts(r@) =~= station_lines(msg, id as nat, station));
    r
}

/// Human-readable description of one RTCM message payload, as one or more lines
/// (the first line is prefixed with `[<type>]`). Best-effort: only the common
/// base-station messages are decoded in detail; others get a type label.
///
/// `station` is what [`station_ecef`] reads from the same payload, written out; a
/// payload that holds no antenna reference position makes no use of it.
pub fn describe_message(payload: &[u8], station: &StationText) -> (r: Vec<String>)
    ensures
        texts(r@) == description_of(payload@, station),
{
    let mut r: Vec<String> = Vec::new();
    let msg: u16 = match message_number(payload) {
        None => {
            assert(texts(r@) =~= Seq::<Seq<char>>::empty());
            return r;
        },
        Some(n) => n,
    };
    if msg == 1005 || msg == 1006 {
        if payload.len() >= 19 {
            if let Some(id) = station_id(payload) {
                return describe_station(msg, id, station);
            }
        }
    }
    if let Some(c) = msm_constellation(msg) {
        if let Some(count) = msm_satellite_count(payload) {
            let mut line = tagged(msg);
            line.append(c.name());
            line.append(" observations (MSM) — ");
            push_decimal(&mut line, count as u64);
            line.append(" satellites tracked");
            r.push(line);
            assert(texts(r@) =~= description_of(payload@, station));
            return r;
        }
    }
    let mut line = tagged(msg);
    line.append(label(msg));
    r.push(line);
    assert(texts(r@) =~= description_of(payload@, station));
    r
}

/// What a [`Frame`] holds.
pub struct FrameView {
    pub payload: Seq<u8>,
    pub crc_ok: bool,
}

/// One deframed RTCM record produced by [`Deframer`].
#[derive(Debug)]
pub struct Frame {
    /// The message payload (header and CRC stripped). Empty for a CRC failure.
    pub payload: Vec<u8>,
    /// Whether the CRC-24Q over the frame validated.
    pub crc_ok: bool,
}

impl View for Frame {
    type V = FrameView;

    open spec fn view(&self) -> FrameView {
        FrameView { payload: self.payload@, crc_ok: self.crc_ok }
    }
}

impl Frame {
    /// The message number, or `None` if the payload is too short / invalid.
    pub fn msg_type(&self) -> (r: Option<u16>)
        ensures
            r == message_number_of(self@.payload),
    {
        message_number(self.payload.as_slice())
    }
}

/// What each of `v` holds.
pub open spec fn frame_views(v: Seq<Frame>) -> Seq<FrameView> {
    v.map_values(|f: Frame| f@)
}

/// The bytes of each of `v`.
pub open spec fn payloads(v: Seq<Vec<u8>>) -> Seq<Seq<u8>> {
    v.map_values(|p: Vec<u8>| p@)
}

/// Whether the record `f` is a valid frame with the message number `msg`.
pub open spec fn carries(f: FrameView, msg: u16) -> bool {
    f.crc_ok && message_number_of(f.payload) == Some(msg)
}

/// The first byte of every frame.
pub const PREAMBLE: u8 = 0xD3;

/// The payload length that the header at the start of `buf` announces.
pub open spec fn payload_len(buf: Seq<u8>) -> nat {
    ((buf[1] % 4) * 256 + buf[2]) as nat
}

/// The length of the frame whose header is at the start of `buf`.
pub open spec fn frame_len(buf: Seq<u8>) -> nat {
    3 + payload_len(buf) + 3
}

/// Whether `buf` has to grow before it can be told what it starts with: it is
/// shorter than a header, or starts with a frame that is cut off.
pub open spec fn undecided(buf: Seq<u8>) -> bool {
    buf.len() < 3 || (buf[0] == PREAMBLE && buf.len() < frame_len(buf))
}

/// Whether `buf` starts with a whole frame whose checksum is right.
pub open spec fn starts_valid(buf: Seq<u8>) -> bool {
    let n = payload_len(buf);
    &&& buf.len() >= 3
    &&& buf[0] == PREAMBLE
    &&& buf.len() >= frame_len(buf)
    &&& buf.subrange((3 + n) as int, (6 + n) as int) == crc_bytes(crc24q_of(buf.take((3 + n) as int)))
}

/// The records that a scan of `buf` reports: a valid frame is reported and
/// passed over, a frame with a wrong checksum is reported as a failure, and
/// after it, as after any byte that is no preamble, the scan goes on at the next
/// byte. The scan ends where `buf` has to grow.
pub open spec fn frames_in(buf: Seq<u8>) -> Seq<FrameView>
    decreases buf.len(),
{
    if undecided(buf) {
        Seq::empty()
    } else if buf[0] != PREAMBLE {
        frames_in(buf.skip(1))
    } else if starts_valid(buf) {
        seq![FrameView { payload: buf.subrange(3, (3 + payload_len(buf)) as int), crc_ok: true }]
            + frames_in(buf.skip(frame_len(buf) as int))
    } else {
        seq![FrameView { payload: Seq::empty(), crc_ok: false }] + frames_in(buf.skip(1))
    }
}

/// The bytes at which the scan of `buf` ends.
pub open spec fn left_over(buf: Seq<u8>) -> Seq<u8>
    decreases buf.len(),
{
    if undecided(buf) {
        buf
    } else if starts_valid(buf) {
        left_over(buf.skip(frame_len(buf) as int))
    } else {
        left_over(buf.skip(1))
    }
}

/// What a scan ends at is undecided, a suffix of what was scanned, and shorter by
/// at least as many bytes as records were reported.
pub proof fn lemma_left_over(buf: Seq<u8>)
    ensures
        undecided(left_over(buf)),
        left_over(buf).len() <= 1028,
        left_over(buf).len() + frames_in(buf).len() <= buf.len(),
        left_over(buf) == buf.skip(buf.len() - left_over(buf).len()),
    decreases buf.len(),
{
    if undecided(buf) {
        assert(buf =~= buf.skip(0));
    } else {
        let n = if starts_valid(buf) {
            frame_len(buf) as int
        } else {
            1
        };
        lemma_left_over(buf.skip(n));
        let rest = left_over(buf.skip(n));
        assert(buf.skip(n).skip(buf.skip(n).len() - rest.len()) =~= buf.skip(buf.len() - rest.len()));
    }
}

/// Incremental RTCM 3 deframer: feed it bytes from any source (serial, TCP) and
/// it returns complete frames as they become available, buffering partial ones.
/// It resyncs past false preambles and CRC failures.
///
/// Its view is the bytes that it has buffered.
#[derive(Debug)]
pub struct Deframer {
    buf: Vec<u8>,
}

impl View for Deframer {
    type V = Seq<u8>;

    closed spec fn view(&self) -> Seq<u8> {
        self.buf@
    }
}

impl Default for Deframer {
    fn default() -> (d: Deframer)
        ensures
            d@ == Seq::<u8>::empty(),
            d.wf(),
    {
        Deframer { buf: Vec::new() }
    }
}

impl Deframer {
    /// What is buffered is the start of a frame, or too short to tell.
    pub open spec fn wf(&self) -> bool {
        undecided(self@) && self@.len() <= 1028
    }

    pub fn new() -> (d: Deframer)
        ensures
            d@ == Seq::<u8>::empty(),
            d.wf(),
    {
        Deframer { buf: Vec::new() }
    }

    /// Append `data` and return every complete frame now available. Each frame
    /// is reported as valid (`crc_ok == true`, with `payload`) or as a single
    /// CRC failure (`crc_ok == false`, empty `payload`); the caller decides how
    /// to treat failures. Bytes of a partial trailing frame are retained.
    pub fn push(&mut self, data: &[u8]) -> (out: Vec<Frame>)
        requires
            old(self)@.len() + data@.len() <= isize::MAX,
        ensures
            frame_views(out@) == frames_in(old(self)@ + data@),
            final(self)@ == left_over(old(self)@ + data@),
            final(self).wf(),
    {
        self.buf.extend_from_slice(data);
        let ghost all = old(self)@ + data@;
        assert(self.buf@ =~= all);
        let mut out: Vec<Frame> = Vec::new();
        let mut i: usize = 0;
        proof {
            assert(all.skip(0) =~= all);
            assert(frame_views(out@) + frames_in(all) =~= frames_in(all));
        }
        while self.buf.len() - i >= 3
            invariant
                self.buf@ == all,
                all.len() <= isize::MAX,
                i <= all.len(),
                frames_in(all) == frame_views(out@) + frames_in(all.skip(i as int)),
                left_over(all) == left_over(all.skip(i as int)),
            ensures
                undecided(all.skip(i as int)),
            decreases all.len() - i,
        {
            let ghost here = all.skip(i as int);
            if self.buf[i] != PREAMBLE {
                i = i + 1;  // not a preamble — slide forward to resync
                assert(here.skip(1) =~= all.skip(i as int));
                continue ;
            }
            let len: usize = (self.buf[i + 1] % 4) as usize * 256 + self.buf[i + 2] as usize;
            let frame_len: usize = 3 + len + 3;  // header + payload + CRC-24Q
            if self.buf.len() - i < frame_len {
                break ;  // rest of the frame hasn't arrived yet
            }
            let frame: &[u8] = slice_subrange(self.buf.as_slice(), i, i + frame_len);
            let computed: u32 = crc24q(slice_subrange(frame, 0, 3 + len));
            let received: u32 = frame[3 + len] as u32 * 65536 + frame[3 + len + 1] as u32 * 256
                + frame[3 + len + 2] as u32;
            let ghost before = out@;
            proof {
                assert(frame@.subrange(0, 3 + len) =~= here.take(3 + len));
                let tail = here.subrange(3 + len, 6 + len);
                assert(tail =~= seq![frame@[3 + len], frame@[3 + len + 1], frame@[3 + len + 2]]);
                lemma_crc_bytes(computed, frame@[3 + len], frame@[3 + len + 1], frame@[3 + len + 2]);
            }
            if computed == received {
                let payload: Vec<u8> = slice_to_vec(slice_subrange(frame, 3, 3 + len));
                assert(payload@ =~= here.subrange(3, 3 + len));
                out.push(Frame { payload, crc_ok: true });
                i = i + frame_len;
                assert(here.skip(frame_len as int) =~= all.skip(i as int));
            } else {
                let payload: Vec<u8> = Vec::new();
                out.push(Frame { payload, crc_ok: false });
                i = i + 1;  // false preamble — slide forward and try again
                assert(here.skip(1) =~= all.skip(i as int));
            }
            assert(frame_views(out@) =~= frame_views(before).push(out@.last()@));
            assert(frames_in(all) =~= frame_views(out@) + frames_in(all.skip(i as int)));
        }
        self.buf = self.buf.split_off(i);
        proof {
            assert(self.buf@ =~= all.skip(i as int));
            assert(frame_views(out@) + Seq::<FrameView>::empty() =~= frame_views(out@));
            lemma_left_over(all);
        }
        out
    }
}

/// Three bytes carry a checksum exactly where they write it in base 256.
proof fn lemma_crc_bytes(c: u32, b0: u8, b1: u8, b2: u8)
    requires
        c < 0x0100_0000,
    ensures
        seq![b0, b1, b2] == crc_bytes(c) <==> c == b0 * 65536 + b1 * 256 + b2,
{
    let s = crc_bytes(c);
    if c == b0 * 65536 + b1 * 256 + b2 {
        assert(seq![b0, b1, b2] =~= s);
    } else {
        assert(c == s[0] * 65536 + s[1] * 256 + s[2]);
        if seq![b0, b1, b2] == s {
            assert(seq![b0, b1, b2][0] == b0);
            assert(seq![b0, b1, b2][1] == b1);
            assert(seq![b0, b1, b2][2] == b2);
        }
    }
}

} // verus!
