//! The rover's side of the handshake, and the handshake as a whole.
use fm_ntrip::caster::{answer, build_sourcetable, reply_text, CasterConfig, Reply, RequestHead};
use fm_ntrip::rover::{
    after_run, classify_status, count_types, count_valid, rover_request, valid_payloads, AfterRun,
    RoverConfig, Status, StreamReader, TableReader, TableStep,
};
use fm_ntrip::rtcm::{crc24q, Deframer};
use std::collections::BTreeMap;

fn rover(mountpoint: &str, password: &str, sourcetable: bool) -> RoverConfig {
    RoverConfig {
        mountpoint: mountpoint.to_string(),
        username: "user".to_string(),
        password: password.to_string(),
        sourcetable,
        version: "0.1.0".to_string(),
    }
}

fn caster() -> CasterConfig {
    CasterConfig {
        mountpoint: "RTCM3".to_string(),
        username: "user".to_string(),
        password: "pass".to_string(),
        identifier: "FM-NTRIP".to_string(),
        country: "USA".to_string(),
        lat: "37.7749".to_string(),
        lon: "-122.4194".to_string(),
        version: "0.1.0".to_string(),
    }
}

fn frame(payload: &[u8]) -> Vec<u8> {
    let mut f = vec![0xD3, 0, payload.len() as u8];
    f.extend_from_slice(payload);
    let crc = crc24q(&f);
    f.extend_from_slice(&[(crc >> 16) as u8, (crc >> 8) as u8, crc as u8]);
    f
}

/// How the caster answers what the rover sends.
fn answer_to(r: &RoverConfig) -> Reply {
    let text = rover_request(r);
    let mut head = RequestHead::new();
    let mut lines = text.split_inclusive('\n');
    while head.line(lines.next().unwrap_or("")) {}
    assert_eq!(lines.next(), None, "the head is the whole request");
    answer(&caster(), &head)
}

/// What the rover prints of the lines of a table.
fn printed(text: &str) -> String {
    let mut reader = TableReader::new();
    let mut out = String::new();
    let mut lines = text.split_inclusive('\n');
    loop {
        let line = lines.next().unwrap_or("");
        match reader.line(line) {
            TableStep::Skip => {}
            TableStep::Print => out.push_str(line),
            TableStep::PrintLast => {
                out.push_str(line);
                return out;
            }
            TableStep::Stop => return out,
        }
    }
}

#[test]
fn requests_word_for_word() {
    assert_eq!(
        rover_request(&rover("RTCM3", "pass", false)),
        "GET /RTCM3 HTTP/1.0\r\nUser-Agent: NTRIP fm-ntrip-client/0.1.0\r\n\
         Authorization: Basic dXNlcjpwYXNz\r\nNtrip-Version: Ntrip/1.0\r\n\r\n"
    );
    assert!(rover_request(&rover("RTCM3", "pass", true)).starts_with("GET / HTTP/1.0\r\n"));
}

#[test]
fn a_rover_is_answered() {
    assert_eq!(answer_to(&rover("RTCM3", "pass", false)), Reply::Stream);
    assert_eq!(answer_to(&rover("RTCM3", "word", false)), Reply::Unauthorized);
    assert_eq!(answer_to(&rover("OTHER", "pass", false)), Reply::NotFound);
    assert_eq!(answer_to(&rover("OTHER", "word", true)), Reply::SourceTable);
    // A mountpoint with white space or a leading slash cannot be asked for.
    assert_eq!(answer_to(&rover("/RTCM3", "pass", false)), Reply::Stream);
    assert_eq!(answer_to(&rover("RTCM3 X", "pass", false)), Reply::Stream);
}

#[test]
fn every_answer_is_understood() {
    let c = caster();
    let status = |reply| {
        let text = reply_text(&c, reply);
        classify_status(false, text.split_inclusive('\n').next().unwrap())
    };
    assert_eq!(status(Reply::Stream), Status::Streaming);
    assert_eq!(status(Reply::SourceTable), Status::SourceTable);
    assert_eq!(status(Reply::BadRequest), Status::Refused);
    assert_eq!(status(Reply::NotFound), Status::Refused);
    assert_eq!(status(Reply::Unauthorized), Status::Refused);
}

#[test]
fn status_lines() {
    assert_eq!(classify_status(false, "ICY 200 OK\r\n"), Status::Streaming);
    assert_eq!(classify_status(false, "HTTP/1.1 200 OK\r\n"), Status::Streaming);
    assert_eq!(classify_status(false, "HTTP/1.1 200\r\n"), Status::Refused);
    assert_eq!(classify_status(false, "ERROR 401\r\n"), Status::Refused);
    assert_eq!(classify_status(false, "404"), Status::Refused);
    assert_eq!(classify_status(false, "HTTP/1.0 500 Oops"), Status::Refused);
    assert_eq!(classify_status(false, "SOURCETABLE 200 OK\r\n"), Status::SourceTable);
    assert_eq!(classify_status(false, "hello\r\n"), Status::Unexpected);
    assert_eq!(classify_status(false, ""), Status::Unexpected);
    // Whoever asked for the table takes what comes for one.
    assert_eq!(classify_status(true, "hello\r\n"), Status::SourceTable);
}

#[test]
fn the_table_is_read_back() {
    let c = caster();
    let text = reply_text(&c, Reply::SourceTable);
    let behind_status = &text[text.find('\n').unwrap() + 1..];
    assert_eq!(printed(behind_status), build_sourcetable(&c));
}

#[test]
fn tables_of_other_casters() {
    assert_eq!(printed("A: b\r\n\r\nSTR;x\r\nENDSOURCETABLE\r\nmore\r\n"), "STR;x\r\nENDSOURCETABLE\r\n");
    assert_eq!(printed("A: b\n\nSTR;x\n\nSTR;y"), "STR;x\n\nSTR;y");
    assert_eq!(printed("no blank line\r\n"), "");
    assert_eq!(printed(""), "");
}

#[test]
fn the_stream_is_counted() {
    let mut broken = frame(&[0x3E, 0xD0, 0x01]);
    broken[3] ^= 1;
    let mut bytes = frame(&[0x3E, 0xD0]);
    bytes.extend_from_slice(&broken);
    bytes.extend_from_slice(&frame(&[0x43, 0x50]));
    let cut = bytes.len() - 3;

    let mut s = StreamReader::new();
    let first = s.receive(&bytes[..cut], false);
    assert_eq!((first.len(), s.frames, s.total), (2, 1, cut as u64));
    assert!(first[0].crc_ok && !first[1].crc_ok);
    let second = s.receive(&bytes[cut..], false);
    assert_eq!((second.len(), s.frames, s.total), (1, 2, bytes.len() as u64));

    assert_eq!(count_valid(&Deframer::new().push(&bytes)), 2);
}

#[test]
fn a_stream_that_is_passed_through_is_not_decoded() {
    let bytes = frame(&[0x3E, 0xD0]);
    let mut s = StreamReader::new();
    assert!(s.receive(&bytes, true).is_empty());
    assert_eq!((s.frames, s.total), (0, bytes.len() as u64));
    assert!(s.type_summary().is_empty());
}

#[test]
fn the_stream_is_summed_up_per_message_type() {
    let mut broken = frame(&[0x43, 0x50, 0x01]);
    broken[3] ^= 1;
    let mut bytes = frame(&[0x43, 0x50]); // 1077
    bytes.extend_from_slice(&frame(&[0x3E, 0xD0])); // 1005
    bytes.extend_from_slice(&broken);
    bytes.extend_from_slice(&frame(&[0x43])); // valid, without a message number
    bytes.extend_from_slice(&frame(&[0x43, 0x50, 0x02])); // 1077
    bytes.extend_from_slice(&frame(&[0x01, 0x20])); // 18
    let lines = vec!["        18    ×1", "        1005  ×1", "        1077  ×2"];
    for cut in 0..bytes.len() {
        let mut s = StreamReader::new();
        assert!(s.type_summary().is_empty());
        s.receive(&bytes[..cut], false);
        s.receive(&bytes[cut..], false);
        assert_eq!(s.type_summary(), lines, "cut at {cut}");
        assert_eq!(s.frames, 5, "cut at {cut}");
    }
}

#[test]
fn types_are_counted_on_top() {
    let mut bytes = frame(&[0x3E, 0xD0]);
    bytes.extend_from_slice(&frame(&[0x43, 0x50]));
    let mut counts = BTreeMap::from([(1005, 7)]);
    count_types(&mut counts, &Deframer::new().push(&bytes));
    assert_eq!(counts, BTreeMap::from([(1005, 8), (1077, 1)]));
}

#[test]
fn only_valid_frames_are_described() {
    let mut broken = frame(&[0x43, 0x50, 0x01]);
    broken[3] ^= 1;
    let mut bytes = frame(&[0x3E, 0xD0]);
    bytes.extend_from_slice(&broken);
    bytes.extend_from_slice(&frame(&[]));
    bytes.extend_from_slice(&frame(&[0x43, 0x50]));
    let frames = Deframer::new().push(&bytes);
    assert_eq!(frames.len(), 4);
    assert_eq!(
        valid_payloads(&frames),
        vec![vec![0x3E, 0xD0], vec![], vec![0x43, 0x50]]
    );
    assert!(valid_payloads(&Deframer::new().push(&broken)).is_empty());
}

#[test]
fn when_a_connection_is_over() {
    assert_eq!(after_run(true, false), AfterRun::Done);
    assert_eq!(after_run(false, false), AfterRun::Fail);
    assert_eq!(after_run(true, true), AfterRun::Reconnect);
    assert_eq!(after_run(false, true), AfterRun::Reconnect);
}
