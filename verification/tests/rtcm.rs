//! RTCM 3 framing and decoding.
use fm_ntrip::bits::Bits;
use fm_ntrip::rtcm::{
    crc24q, describe_message, message_number, msm_constellation, msm_satellite_count, msm_system,
    station_ecef, station_id, Constellation, Deframer, Ecef, EcefText, Frame, PositionText,
    StationText,
};

/// Big-endian bit writer, mirror of `Bits`, for building test frames.
struct BitWriter {
    d: Vec<u8>,
    bit: usize,
}

impl BitWriter {
    fn new(bits: usize) -> Self {
        Self {
            d: vec![0u8; bits.div_ceil(8)],
            bit: 0,
        }
    }

    fn put(&mut self, val: u64, len: usize) {
        for i in (0..len).rev() {
            let b = ((val >> i) & 1) as u8;
            let pos = self.bit;
            self.d[pos / 8] |= b << (7 - (pos % 8));
            self.bit += 1;
        }
    }
}

/// Wrap a payload in a full RTCM 3 frame (preamble + length + CRC-24Q).
fn frame(payload: &[u8]) -> Vec<u8> {
    let mut f = vec![
        0xD3,
        ((payload.len() >> 8) & 0x03) as u8,
        (payload.len() & 0xFF) as u8,
    ];
    f.extend_from_slice(payload);
    let crc = crc24q(&f);
    f.extend_from_slice(&[(crc >> 16) as u8, (crc >> 8) as u8, crc as u8]);
    f
}

/// Build an RTCM 1005 payload encoding the given ECEF coordinates (metres).
fn build_1005(station_id: u64, x: f64, y: f64, z: f64) -> Vec<u8> {
    let mut w = BitWriter::new(152);
    w.put(1005, 12); // message number
    w.put(station_id, 12); // DF003 reference station ID
    w.put(0, 6); // DF021 ITRF year
    w.put(0, 4); // GPS/GLO/GAL/ref-station indicators
    w.put((x / 0.0001).round() as i64 as u64 & ((1 << 38) - 1), 38); // DF025 ECEF-X
    w.put(0, 2); // oscillator + reserved
    w.put((y / 0.0001).round() as i64 as u64 & ((1 << 38) - 1), 38); // DF026 ECEF-Y
    w.put(0, 2); // quarter-cycle indicator
    w.put((z / 0.0001).round() as i64 as u64 & ((1 << 38) - 1), 38); // DF027 ECEF-Z
    w.d
}

/// Build an MSM payload with the given satellite mask.
fn build_msm(msg: u64, mask: u64) -> Vec<u8> {
    let mut w = BitWriter::new(137);
    w.put(msg, 12);
    w.put(0, 61);
    w.put(mask, 64);
    w.d
}

/// WGS84 ECEF (metres) → geodetic latitude/longitude (degrees) and height (m).
fn ecef_to_geodetic(x: f64, y: f64, z: f64) -> (f64, f64, f64) {
    const A: f64 = 6_378_137.0;
    const F: f64 = 1.0 / 298.257_223_563;
    let e2 = F * (2.0 - F);
    let lon = y.atan2(x);
    let p = (x * x + y * y).sqrt();
    let mut lat = z.atan2(p * (1.0 - e2));
    let mut h = 0.0;
    for _ in 0..6 {
        let s = lat.sin();
        let n = A / (1.0 - e2 * s * s).sqrt();
        h = p / lat.cos() - n;
        lat = z.atan2(p * (1.0 - e2 * n / (n + h)));
    }
    (lat.to_degrees(), lon.to_degrees(), h)
}

/// The position that a payload holds, written out.
fn station_text(payload: &[u8]) -> StationText {
    let p = station_ecef(payload).unwrap_or(Ecef { x: 0, y: 0, z: 0 });
    let (x, y, z) = (p.x as f64 * 0.0001, p.y as f64 * 0.0001, p.z as f64 * 0.0001);
    let (lat, lon, h) = ecef_to_geodetic(x, y, z);
    StationText {
        position: PositionText {
            lat: format!("{:.7}", lat.abs()),
            north: lat >= 0.0,
            lon: format!("{:.7}", lon.abs()),
            east: lon >= 0.0,
            height: format!("{h:.2}"),
        },
        ecef: EcefText {
            x: format!("{x:.3}"),
            y: format!("{y:.3}"),
            z: format!("{z:.3}"),
        },
    }
}

fn describe(payload: &[u8]) -> Vec<String> {
    describe_message(payload, &station_text(payload))
}

/// What the records say, without their type.
fn records(frames: &[Frame]) -> Vec<(Vec<u8>, bool)> {
    frames.iter().map(|f| (f.payload.clone(), f.crc_ok)).collect()
}

#[test]
fn crc24q_check_vector() {
    // Canonical CRC-24Q check value (RTKLIB / gpsd) for "123456789".
    assert_eq!(crc24q(b"123456789"), 0x00CD_E703);
}

#[test]
fn parses_1005_and_recovers_ecef() {
    // ECEF for a point near 37.0°N, -122.0°E on the WGS84 ellipsoid.
    let (x, y, z) = (-2_702_584.6, -4_325_039.454, 3_817_393.16);
    let bytes = frame(&build_1005(42, x, y, z));

    let mut d = Deframer::new();
    let frames = d.push(&bytes);
    assert_eq!(frames.len(), 1, "one frame expected");
    assert!(frames[0].crc_ok, "CRC should validate");
    assert_eq!(frames[0].msg_type(), Some(1005));

    let p = station_ecef(&frames[0].payload).unwrap();
    assert_eq!(
        p,
        Ecef {
            x: -27_025_846_000,
            y: -43_250_394_540,
            z: 38_173_931_600
        }
    );
    let (lat, lon, h) =
        ecef_to_geodetic(p.x as f64 * 0.0001, p.y as f64 * 0.0001, p.z as f64 * 0.0001);
    assert!((lat - 37.0).abs() < 0.5, "lat ~37°, got {lat}");
    assert!((lon + 122.0).abs() < 0.5, "lon ~-122°, got {lon}");
    assert!(h.abs() < 100.0, "height near ellipsoid, got {h}");

    // The decoded description mentions the station and a position line.
    let desc = describe(&frames[0].payload);
    assert!(desc[0].contains("[1005]"));
    assert_eq!(desc.len(), 3);
}

#[test]
fn rejects_corrupt_crc_and_resyncs() {
    let good = frame(&build_1005(1, -2_702_584.0, -4_325_039.0, 3_817_393.0));
    let mut corrupt = good.clone();
    let n = corrupt.len();
    corrupt[n - 1] ^= 0xFF; // smash the CRC

    // Garbage byte, then a corrupt frame, then a good frame.
    let mut bytes = vec![0x00];
    bytes.extend_from_slice(&corrupt);
    bytes.extend_from_slice(&good);

    let mut d = Deframer::new();
    let frames = d.push(&bytes);
    let ok = frames.iter().filter(|f| f.crc_ok).count();
    let bad = frames.iter().filter(|f| !f.crc_ok).count();
    assert_eq!(ok, 1, "only the intact frame should pass");
    assert!(bad >= 1, "corrupt frame should register a CRC failure");
}

#[test]
fn retains_partial_trailing_frame() {
    let bytes = frame(&build_1005(7, -2_702_584.0, -4_325_039.0, 3_817_393.0));
    let split = bytes.len() - 4; // cut mid-frame

    let mut d = Deframer::new();
    let first = d.push(&bytes[..split]);
    assert!(first.is_empty(), "incomplete frame not yet decoded");

    let second = d.push(&bytes[split..]); // remainder arrives
    assert_eq!(second.len(), 1, "frame decoded once complete");
    assert!(second[0].crc_ok);
}

#[test]
fn crc24q_of_nothing_and_of_zeros_is_zero() {
    assert_eq!(crc24q(b""), 0);
    assert_eq!(crc24q(&[0, 0, 0, 0]), 0);
    assert_eq!(crc24q(&[1]), 0x0086_4CFB);
}

#[test]
fn a_damaged_byte_changes_the_checksum() {
    let data = b"123456789";
    for k in 0..data.len() {
        let mut damaged = data.to_vec();
        damaged[k] ^= 0x10;
        assert_ne!(crc24q(&damaged), crc24q(data), "byte {k}");
    }
}

#[test]
fn the_cut_of_the_stream_does_not_matter() {
    let mut bytes = vec![0x00, 0xD3, 0x00, 0x04];
    bytes.extend_from_slice(&frame(&build_1005(3, 1.0, 2.0, 3.0)));
    let mut broken = frame(&[0x43, 0x50, 0x01]);
    broken[4] ^= 1;
    bytes.extend_from_slice(&broken);
    bytes.extend_from_slice(&frame(&build_msm(1077, 0x0F)));
    bytes.extend_from_slice(&[0xD3, 0x00]);

    let whole = records(&Deframer::new().push(&bytes));
    assert_eq!(whole.iter().filter(|r| r.1).count(), 2);
    for cut in 0..=bytes.len() {
        let mut d = Deframer::new();
        let mut pieces = records(&d.push(&bytes[..cut]));
        pieces.extend(records(&d.push(&bytes[cut..])));
        assert_eq!(pieces, whole, "cut at {cut}");
    }
    let mut d = Deframer::new();
    let mut single = Vec::new();
    for b in &bytes {
        single.extend(records(&d.push(&[*b])));
    }
    assert_eq!(single, whole);
}

#[test]
fn payloads_of_every_size_are_read_back() {
    for n in [0usize, 1, 2, 255, 256, 1022, 1023] {
        let payload: Vec<u8> = (0..n).map(|k| (k * 7) as u8).collect();
        let mut bytes = frame(&payload);
        bytes.push(0xD3);
        let mut d = Deframer::default();
        assert_eq!(records(&d.push(&bytes)), vec![(payload, true)], "size {n}");
    }
}

#[test]
fn reserved_header_bits_do_not_count_toward_the_length() {
    let mut f = vec![0xD3, 0xFC, 0x01, 0x3E];
    let crc = crc24q(&f);
    f.extend_from_slice(&[(crc >> 16) as u8, (crc >> 8) as u8, crc as u8]);
    assert_eq!(records(&Deframer::new().push(&f)), vec![(vec![0x3E], true)]);
}

#[test]
fn a_failure_is_one_record_with_no_payload() {
    let mut f = frame(&[0x43, 0x50, 0x01]);
    f[3] ^= 0x80;
    let out = Deframer::new().push(&f);
    assert_eq!(records(&out), vec![(Vec::new(), false)]);
    assert_eq!(out[0].msg_type(), None);
}

#[test]
fn noise_hides_nothing() {
    let mut bytes = b"noise without a preamble".to_vec();
    bytes.extend_from_slice(&frame(&[0x3E, 0xD0]));
    assert_eq!(
        records(&Deframer::new().push(&bytes)),
        vec![(vec![0x3E, 0xD0], true)]
    );
}

#[test]
fn false_preambles_are_failures_and_hide_nothing() {
    let mut bytes = vec![0xD3, 0x00, 0x01, 0xD3, 0x00, 0x00, 7, 7, 7];
    bytes.extend_from_slice(&frame(&[0x3E, 0xD0]));
    assert_eq!(
        records(&Deframer::new().push(&bytes)),
        vec![
            (Vec::new(), false),
            (Vec::new(), false),
            (vec![0x3E, 0xD0], true)
        ]
    );
}

#[test]
fn a_false_preamble_holds_the_stream_up_for_no_longer_than_a_frame() {
    // A header that announces 1023 bytes, in front of good frames.
    let mut bytes = vec![0xD3, 0x03, 0xFF];
    let good = frame(&[0x3E, 0xD0]);
    while bytes.len() < 1028 {
        bytes.extend_from_slice(&good);
    }
    bytes.truncate(1028);
    let mut d = Deframer::new();
    assert!(d.push(&bytes).is_empty());
    let out = d.push(&[0x00]);
    assert!(!out[0].crc_ok);
    assert_eq!(out.iter().filter(|f| f.crc_ok).count(), (1028 - 3) / good.len());
}

#[test]
fn a_damaged_frame_is_never_accepted() {
    let good = frame(&[0x3E, 0xD0, 0x2A, 0x00]);
    for k in 3..good.len() {
        let mut bad = good.clone();
        bad[k] ^= 0x01;
        let out = records(&Deframer::new().push(&bad));
        assert_eq!(out[0], (Vec::new(), false), "byte {k}");
    }
}

#[test]
fn a_burst_of_damage_is_never_accepted() {
    let good = frame(&[0x3E, 0xD0, 0x2A, 0x00, 0x11]);
    for start in 24..8 * good.len() {
        for pattern in [0x80_0001u32, 0xFF_FFFF, 0xA5_5A3C, 0x00_0001] {
            let mut bad = good.clone();
            for j in 0..24 {
                let bit = start + j;
                if (pattern >> (23 - j)) & 1 == 1 && bit < 8 * bad.len() {
                    bad[bit / 8] ^= 0x80 >> (bit % 8);
                }
            }
            if bad != good {
                let out = records(&Deframer::new().push(&bad));
                assert_eq!(out[0], (Vec::new(), false), "{pattern:x} at {start}");
            }
        }
    }
    // The reserved bits of the header are under the checksum too.
    let mut bad = good.clone();
    bad[1] ^= 0xFC;
    assert_eq!(records(&Deframer::new().push(&bad))[0], (Vec::new(), false));
}

#[test]
fn a_message_with_its_checksum_has_checksum_zero() {
    assert_eq!(crc24q(&frame(&[0x3E, 0xD0, 0x2A])), 0);
    assert_eq!(crc24q(b"123456789\xCD\xE7\x03"), 0);
}

#[test]
fn message_numbers() {
    assert_eq!(message_number(&[]), None);
    assert_eq!(message_number(&[0x3E]), None);
    assert_eq!(message_number(&[0x3E, 0xD0]), Some(1005));
    assert_eq!(message_number(&[0xFF, 0xFF]), Some(4095));
}

#[test]
fn station_ids() {
    assert_eq!(station_id(&[0x3E, 0xD0]), None);
    assert_eq!(station_id(&[0x3E, 0xD0, 0x2A]), Some(42));
    assert_eq!(station_id(&[0x3E, 0xDF, 0xFF]), Some(4095));
}

#[test]
fn station_positions() {
    assert_eq!(station_ecef(&[0; 18]), None);
    let p = station_ecef(&build_1005(0, -0.0001, 13_743_895.3471, -13_743_895.3472)).unwrap();
    assert_eq!(
        p,
        Ecef {
            x: -1,
            y: 137_438_953_471,
            z: -137_438_953_472
        }
    );
}

#[test]
fn msm_systems() {
    assert_eq!(msm_system(1070), None);
    assert_eq!(msm_system(1071), Some("GPS"));
    assert_eq!(msm_system(1077), Some("GPS"));
    assert_eq!(msm_system(1078), None);
    assert_eq!(msm_system(1084), Some("GLONASS"));
    assert_eq!(msm_system(1094), Some("Galileo"));
    assert_eq!(msm_system(1104), Some("SBAS"));
    assert_eq!(msm_system(1114), Some("QZSS"));
    assert_eq!(msm_system(1127), Some("BeiDou"));
    assert_eq!(msm_system(1128), None);
    assert_eq!(msm_constellation(1122), Some(Constellation::BeiDou));
}

#[test]
fn constellations_are_listed_by_name() {
    let names: Vec<&str> = (0..6).map(|k| Constellation::at(k).name()).collect();
    let mut sorted = names.clone();
    sorted.sort();
    assert_eq!(names, sorted);
    for k in 0..6 {
        assert_eq!(Constellation::at(k).rank(), k);
    }
}

#[test]
fn msm_satellite_counts() {
    assert_eq!(msm_satellite_count(&[0xFF; 17]), None);
    assert_eq!(msm_satellite_count(&build_msm(1077, 0)), Some(0));
    assert_eq!(msm_satellite_count(&build_msm(1077, u64::MAX)), Some(64));
    assert_eq!(
        msm_satellite_count(&build_msm(1087, 0x8000_0000_0000_0011)),
        Some(3)
    );
}

#[test]
fn bit_fields() {
    let b = Bits { d: &[0b1010_0101, 0b1100_0011, 0xFF] };
    assert_eq!(b.u(0, 8), 0xA5);
    assert_eq!(b.u(4, 8), 0x5C);
    assert_eq!(b.u(3, 0), 0);
    assert_eq!(b.i(0, 4), -6);
    assert_eq!(b.i(1, 4), 4);
    assert_eq!(b.i(16, 8), -1);
    let long = Bits { d: &[0x01, 0, 0, 0, 0, 0, 0, 0, 0x02] };
    assert_eq!(long.u(0, 72), 2);
    assert_eq!(long.i(8, 63), 1);
    assert_eq!(long.i(0, 64), 0x0100_0000_0000_0000);
    // An empty field is zero, wherever it starts.
    assert_eq!(b.u(24, 0), 0);
    assert_eq!(b.u(usize::MAX, 0), 0);
}

#[test]
fn descriptions_of_observations() {
    assert_eq!(
        describe(&build_msm(1077, 0x1FF)),
        vec!["[1077] GPS observations (MSM) — 9 satellites tracked"]
    );
    assert_eq!(
        describe(&build_msm(1087, 0x3F)),
        vec!["[1087] GLONASS observations (MSM) — 6 satellites tracked"]
    );
    // Too short for its satellite mask.
    assert_eq!(describe(&[0x43, 0x50]), vec!["[1077] RTCM message"]);
}

#[test]
fn descriptions_of_a_station() {
    let p = build_1005(42, -2_702_584.6, -4_325_039.454, 3_817_393.16);
    let text = station_text(&p);
    let lines = describe_message(&p, &text);
    assert_eq!(
        lines,
        vec![
            "[1005] base station #42 antenna reference position:".to_string(),
            format!(
                "      {}°N  {}°W  height {} m",
                text.position.lat, text.position.lon, text.position.height
            ),
            "      ECEF  X=-2702584.600  Y=-4325039.454  Z=3817393.160  (metres)".to_string(),
        ]
    );
    // Too short for a position.
    assert_eq!(describe(&p[..18]), vec!["[1005] RTCM message"]);
}

#[test]
fn descriptions_by_number() {
    let of = |msg: u16| describe(&[(msg >> 4) as u8, (msg << 4) as u8]);
    assert_eq!(of(1019), vec!["[1019] GPS satellite ephemeris"]);
    assert_eq!(of(1020), vec!["[1020] GLONASS satellite ephemeris"]);
    assert_eq!(of(1042), vec!["[1042] BeiDou satellite ephemeris"]);
    assert_eq!(of(1046), vec!["[1046] Galileo satellite ephemeris"]);
    assert_eq!(of(1230), vec!["[1230] GLONASS code-phase biases"]);
    assert_eq!(of(1007), vec!["[1007] antenna / receiver descriptor"]);
    assert_eq!(of(1008), vec!["[1008] antenna / receiver descriptor"]);
    assert_eq!(of(1033), vec!["[1033] antenna / receiver descriptor"]);
    assert_eq!(of(0), vec!["[0] RTCM message"]);
    assert_eq!(of(4095), vec!["[4095] RTCM message"]);
    assert!(describe(&[0x3E]).is_empty());
}
