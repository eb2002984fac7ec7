//! The serial link, its heartbeat, the decoded status and the self-test.
use fm_ntrip::gnss::GnssData;
use fm_ntrip::rtcm::{crc24q, Deframer, Ecef, PositionText};
use fm_ntrip::selftest::{verdict_text, SelfTest, TestEvent, TestStep, Verdict};
use fm_ntrip::serial::{
    heartbeat_line, Heartbeat, HeartbeatText, LinkHealth, SerialAction, SerialEvent, SerialLink,
};

fn put(d: &mut [u8], at: usize, val: u64, len: usize) {
    for i in 0..len {
        let bit = at + i;
        d[bit / 8] |= (((val >> (len - 1 - i)) & 1) as u8) << (7 - bit % 8);
    }
}

fn frame(payload: &[u8]) -> Vec<u8> {
    let mut f = vec![0xD3, 0, payload.len() as u8];
    f.extend_from_slice(payload);
    let crc = crc24q(&f);
    f.extend_from_slice(&[(crc >> 16) as u8, (crc >> 8) as u8, crc as u8]);
    f
}

fn msm(msg: u64, mask: u64) -> Vec<u8> {
    let mut d = vec![0; 18];
    put(&mut d, 0, msg, 12);
    put(&mut d, 73, mask, 64);
    frame(&d)
}

fn station(msg: u64, id: u64, x: u64, len: usize) -> Vec<u8> {
    let mut d = vec![0; 19];
    put(&mut d, 0, msg, 12);
    put(&mut d, 12, id, 12);
    put(&mut d, 34, x, 38);
    d.truncate(len);
    frame(&d)
}

fn position() -> PositionText {
    PositionText {
        lat: "37.774900".to_string(),
        north: true,
        lon: "122.419400".to_string(),
        east: false,
        height: "12.3".to_string(),
    }
}

fn status(bytes: &[u8]) -> GnssData {
    let mut g = GnssData::new();
    g.update_gnss(&mut Deframer::new(), bytes);
    g
}

#[test]
fn an_empty_status() {
    let g = GnssData::new();
    assert_eq!(g.sats_line(), "—");
    assert_eq!(g.types_line(), "");
    assert_eq!(g.pos_line(&position()), "unknown");
    assert_eq!(g.position(), None);
}

#[test]
fn satellites_are_listed_by_constellation_name() {
    let mut bytes = msm(1077, 0x1FF);
    bytes.extend(msm(1087, 0x3F));
    bytes.extend(msm(1097, 0x7F));
    bytes.extend(msm(1127, 0x01));
    bytes.extend(msm(1107, 0x03));
    bytes.extend(msm(1117, 0x00));
    let g = status(&bytes);
    assert_eq!(
        g.sats_line(),
        "BeiDou:1 GLONASS:6 GPS:9 Galileo:7 QZSS:0 SBAS:2"
    );
    assert_eq!(g.types_line(), "1077,1087,1097,1107,1117,1127");
}

#[test]
fn the_latest_count_is_kept() {
    let mut bytes = msm(1077, 0x1FF);
    bytes.extend(msm(1074, 0x0F));
    bytes.extend(frame(&[0x43, 0x50])); // too short for a count
    let g = status(&bytes);
    assert_eq!(g.sats_line(), "GPS:4");
    assert_eq!(g.types_line(), "1074,1077");
}

#[test]
fn failures_change_nothing() {
    let mut bytes = msm(1077, 0x1FF);
    bytes[10] ^= 1;
    let g = status(&bytes);
    assert_eq!(g.sats_line(), "—");
    assert_eq!(g.types_line(), "");
    // Neither does a valid frame without a message number.
    assert_eq!(status(&frame(&[0x43])).types_line(), "");
}

#[test]
fn a_base_position_is_kept() {
    let mut bytes = station(1005, 42, 5, 19);
    bytes.extend(station(1006, 7, 0, 4)); // too short for a position
    let g = status(&bytes);
    assert_eq!(g.position(), Some(Ecef { x: 5, y: 0, z: 0 }));
    assert_eq!(g.pos_line(&position()), "37.774900°N 122.419400°W 12.3m");
    assert!(g.summary(&position()).starts_with("Hardware: base station #7 at "));
    // Nor long enough for an ID.
    bytes.extend(frame(&[0x3E, 0xE0]));
    assert!(status(&bytes)
        .summary(&position())
        .starts_with("Hardware: base station #? at "));
}

#[test]
fn the_summary_is_announced_once_and_counts_the_whole_batch() {
    let mut g = GnssData::new();
    let mut d = Deframer::new();
    assert!(!g.update_gnss(&mut d, &msm(1077, 0x1FF)));
    let mut bytes = station(1005, 42, 1, 19);
    bytes.extend(msm(1087, 0x3F));
    assert!(g.update_gnss(&mut d, &bytes));
    assert_eq!(
        g.summary(&position()),
        "Hardware: base station #42 at 37.774900°N 122.419400°W 12.3m \
         | constellations: GLONASS:6 GPS:9 | messages: 1005,1077,1087"
    );
    assert!(!g.update_gnss(&mut d, &bytes));
    assert!(!g.update_gnss(&mut d, &[]));
}

#[test]
fn the_status_does_not_depend_on_the_cut() {
    let mut bytes = msm(1077, 0x1FF);
    bytes.extend(station(1005, 42, 1, 19));
    bytes.extend(msm(1087, 0x3F));
    let whole = status(&bytes).summary(&position());
    for cut in 0..bytes.len() {
        let mut g = GnssData::new();
        let mut d = Deframer::new();
        let first = g.update_gnss(&mut d, &bytes[..cut]);
        let second = g.update_gnss(&mut d, &bytes[cut..]);
        assert_ne!(first, second, "announced once, cut at {cut}");
        assert_eq!(g.summary(&position()), whole, "cut at {cut}");
    }
}

#[test]
fn the_serial_link_reopens_and_forwards() {
    let mut link = SerialLink::new();
    assert!(matches!(link.step(SerialEvent::OpenFailed), SerialAction::Reopen));
    assert!(!link.up);
    assert!(matches!(link.step(SerialEvent::Opened), SerialAction::Read));
    assert!(link.up);

    let bytes = station(1005, 42, 1, 19);
    let (a, b) = bytes.split_at(10);
    match link.step(SerialEvent::Read(a)) {
        SerialAction::Forward { bytes, first, announce } => {
            assert_eq!((bytes.as_slice(), first, announce), (a, true, false));
        }
        other => panic!("{other:?}"),
    }
    match link.step(SerialEvent::Read(b)) {
        SerialAction::Forward { bytes, first, announce } => {
            assert_eq!((bytes.as_slice(), first, announce), (b, false, true));
        }
        other => panic!("{other:?}"),
    }
    assert_eq!(link.bytes, bytes.len() as u64);

    // What the old connection left over does not carry over to the next.
    link.step(SerialEvent::Read(a));
    assert!(matches!(link.step(SerialEvent::ReadFailed), SerialAction::Reopen));
    assert!(!link.up);
    link.step(SerialEvent::Opened);
    match link.step(SerialEvent::Read(&msm(1077, 1))) {
        SerialAction::Forward { first, .. } => assert!(first),
        other => panic!("{other:?}"),
    }
    assert_eq!(link.gnss.sats_line(), "GPS:1");
    assert!(matches!(link.step(SerialEvent::Read(&[])), SerialAction::Reopen));
    assert!(!link.up);
    assert_eq!(link.bytes, (bytes.len() + a.len() + msm(1077, 1).len()) as u64);
}

#[test]
fn heartbeats() {
    let mut h = Heartbeat::new();
    assert_eq!(h.tick(false, 0), (LinkHealth::Down, 0));
    assert_eq!(h.tick(true, 0), (LinkHealth::Stalled, 0));
    assert_eq!(h.tick(true, 100), (LinkHealth::Up, 100));
    assert_eq!(h.tick(true, 350), (LinkHealth::Up, 250));
    assert_eq!(h.tick(false, 400), (LinkHealth::Down, 50));
    // A counter that went back counts as no data.
    assert_eq!(h.tick(true, 10), (LinkHealth::Stalled, 0));
}

#[test]
fn heartbeat_lines() {
    let t = HeartbeatText {
        secs: "3600".to_string(),
        rate: "512".to_string(),
        sats: "GPS:9".to_string(),
        pos: "unknown".to_string(),
    };
    assert_eq!(
        heartbeat_line(LinkHealth::Down, &t, 2),
        "heartbeat: serial link DOWN (port not open) — 2 client(s) waiting"
    );
    assert_eq!(
        heartbeat_line(LinkHealth::Stalled, &t, 0),
        "heartbeat: serial port OPEN but received NO data in last 3600s — receiver stalled? — 0 client(s)"
    );
    assert_eq!(
        heartbeat_line(LinkHealth::Up, &t, 10),
        "heartbeat: UP 512 B/s | sats GPS:9 | base unknown | 10 client(s)"
    );
}

#[test]
fn a_heartbeat_reports_the_status_of_the_link() {
    let mut link = SerialLink::new();
    link.step(SerialEvent::Opened);
    assert_eq!(
        link.heartbeat_line(LinkHealth::Up, "60", "512", &position(), 1),
        "heartbeat: UP 512 B/s | sats — | base unknown | 1 client(s)"
    );
    let mut bytes = station(1005, 42, 1, 19);
    bytes.extend(msm(1077, 0x1FF));
    bytes.extend(msm(1087, 0x3F));
    link.step(SerialEvent::Read(&bytes));
    assert_eq!(
        link.heartbeat_line(LinkHealth::Up, "60", "512", &position(), 1),
        "heartbeat: UP 512 B/s | sats GLONASS:6 GPS:9 \
         | base 37.774900°N 122.419400°W 12.3m | 1 client(s)"
    );
    assert_eq!(
        link.heartbeat_line(LinkHealth::Stalled, "60", "0", &position(), 1),
        "heartbeat: serial port OPEN but received NO data in last 60s — receiver stalled? — 1 client(s)"
    );
}

#[test]
fn a_self_test_that_passes() {
    let mut bytes = station(1005, 0, 1, 19);
    bytes.extend(msm(1077, 0x1FF));
    bytes.extend(msm(1077, 0x0F));
    let mut broken = frame(&[0x43, 0x50, 0x01]);
    broken[3] ^= 1;
    bytes.extend(broken);
    bytes.extend(frame(&[0x43])); // valid, without a message number
    bytes.extend(frame(&[0x01, 0x20])); // message 18

    let mut t = SelfTest::new();
    match t.step(TestEvent::Data(&bytes)) {
        TestStep::ReadOn { firsts } => {
            assert_eq!(firsts.len(), 3);
            assert_eq!(firsts[1], msm(1077, 0x1FF)[3..21].to_vec());
            assert_eq!(firsts[2], vec![0x01, 0x20]);
        }
        other => panic!("{other:?}"),
    }
    match t.step(TestEvent::Data(&msm(1077, 0x01))) {
        TestStep::ReadOn { firsts } => assert!(firsts.is_empty()),
        other => panic!("{other:?}"),
    }
    assert!(matches!(t.step(TestEvent::WindowOver), TestStep::Report));
    assert_eq!(t.verdict(), Verdict::Pass);
    let total = bytes.len() + msm(1077, 0x01).len();
    assert_eq!(
        t.report(),
        vec![
            "── self-test report ───────────────────────────────".to_string(),
            format!("  bytes read      : {total}"),
            "  valid frames    : 6".to_string(),
            "  CRC errors      : 1".to_string(),
            "  message types   :".to_string(),
            "        18    ×1".to_string(),
            "        1005  ×1".to_string(),
            "        1077  ×3".to_string(),
            "───────────────────────────────────────────────────".to_string(),
        ]
    );
}

#[test]
fn a_self_test_without_data() {
    let mut t = SelfTest::new();
    assert!(matches!(t.step(TestEvent::Eof), TestStep::Report));
    assert_eq!(t.verdict(), Verdict::NoData);
    assert_eq!(t.report()[4], "  message types   : none");
    assert_eq!(t.report().len(), 6);
}

#[test]
fn a_self_test_without_frames() {
    let mut t = SelfTest::new();
    let mut broken = frame(&[0x43, 0x50, 0x01]);
    broken[3] ^= 1;
    t.step(TestEvent::Data(&broken));
    assert_eq!((t.crc_errors, t.frames_ok), (1, 0));
    assert_eq!(t.verdict(), Verdict::NoFrames);
    assert!(matches!(t.step(TestEvent::ReadFailed), TestStep::Abort));
}

#[test]
fn a_self_test_counts_the_same_however_the_stream_is_cut() {
    let mut bytes = station(1005, 0, 1, 19);
    bytes.extend(msm(1077, 0x1FF));
    bytes.extend(msm(1077, 0x0F));
    let mut whole = SelfTest::new();
    let all = whole.feed(&bytes);
    for cut in 0..bytes.len() {
        let mut t = SelfTest::new();
        let mut firsts = t.feed(&bytes[..cut]);
        firsts.extend(t.feed(&bytes[cut..]));
        assert_eq!(firsts, all, "cut at {cut}");
        assert_eq!(t.report(), whole.report(), "cut at {cut}");
    }
}

#[test]
fn verdicts_word_for_word() {
    assert_eq!(
        verdict_text(Verdict::Pass, "/dev/ttyACM0"),
        "✓ PASS — hardware is producing a valid RTCM 3 stream."
    );
    assert_eq!(
        verdict_text(Verdict::NoData, "/dev/ttyACM0"),
        "no data received from /dev/ttyACM0 — is the receiver powered and enumerated? \
         Check `dmesg | grep ttyACM` and the cable."
    );
    assert_eq!(
        verdict_text(Verdict::NoFrames, "/dev/ttyACM0"),
        "data received but no valid RTCM 3 frames decoded — wrong device, or the \
         receiver is not configured to output RTCM 3 on this port."
    );
}
