//! The caster's side of the handshake, and the fan-out of corrections.
use base64::Engine;
use fm_ntrip::caster::{
    answer, build_sourcetable, reply_text, request_path, CasterConfig, Pump, PumpAction, PumpEvent,
    Reply, RequestHead,
};
use fm_ntrip::credentials::{basic_credential, can_hold_credential};
use fm_ntrip::serial::{SerialAction, SerialEvent, SerialLink};
use tokio::sync::broadcast;

const MOUNT: &str = "TESTMNT";
const USER: &str = "rover";
const PASS: &str = "secret";

/// HTTP Basic credential the caster expects for the configured user/pass.
fn good_auth() -> String {
    base64::engine::general_purpose::STANDARD.encode(format!("{USER}:{PASS}"))
}

/// A caster as it is set up by default, but for what is given.
fn config(mountpoint: &str, username: &str, password: &str) -> CasterConfig {
    CasterConfig {
        mountpoint: mountpoint.to_string(),
        username: username.to_string(),
        password: password.to_string(),
        identifier: "FM-NTRIP".to_string(),
        country: "USA".to_string(),
        lat: format!("{:.4}", 0.0),
        lon: format!("{:.4}", 0.0),
        version: "0.1.0".to_string(),
    }
}

fn caster() -> CasterConfig {
    config(MOUNT, USER, PASS)
}

/// Reads the head of a raw request, line by line, to its end.
fn read_head(raw: &str) -> RequestHead {
    let mut head = RequestHead::new();
    let mut lines = raw.split_inclusive('\n');
    loop {
        let line = lines.next().unwrap_or("");
        if !head.line(line) {
            return head;
        }
    }
}

/// What the caster sends in answer to a raw request.
fn request(raw: &str) -> String {
    let c = caster();
    assert!(can_hold_credential(&c.username, &c.password));
    let reply = answer(&c, &read_head(raw));
    reply_text(&c, reply)
}

fn get(path: &str, auth: Option<&str>) -> String {
    let mut req = format!("GET /{path} HTTP/1.0\r\nUser-Agent: test\r\n");
    if let Some(a) = auth {
        req.push_str(&format!("Authorization: Basic {a}\r\n"));
    }
    req.push_str("\r\n");
    req
}

#[test]
fn serves_source_table_at_root() {
    let resp = request(&get("", None));
    assert!(
        resp.starts_with("SOURCETABLE 200 OK"),
        "root should return the source table; got: {resp:?}"
    );
    assert!(resp.contains(&format!("STR;{MOUNT};")), "advertises mountpoint");
    assert!(resp.contains("ENDSOURCETABLE"), "table is terminated");
}

#[test]
fn rejects_malformed_request() {
    let resp = request("HELLO THERE\r\n\r\n");
    assert!(
        resp.starts_with("HTTP/1.0 400"),
        "non-GET should be 400; got: {resp:?}"
    );
}

#[test]
fn unknown_mountpoint_is_404() {
    let resp = request(&get("NOPE", Some(&good_auth())));
    assert!(
        resp.starts_with("HTTP/1.0 404"),
        "wrong mountpoint should be 404; got: {resp:?}"
    );
}

#[test]
fn bad_credentials_are_401() {
    let wrong = base64::engine::general_purpose::STANDARD.encode("rover:WRONG");
    let resp = request(&get(MOUNT, Some(&wrong)));
    assert!(
        resp.starts_with("HTTP/1.0 401"),
        "bad auth should be 401; got: {resp:?}"
    );
    assert!(resp.contains("WWW-Authenticate"), "challenges the client");
}

#[test]
fn missing_credentials_are_401() {
    let resp = request(&get(MOUNT, None));
    assert!(
        resp.starts_with("HTTP/1.0 401"),
        "no auth should be 401; got: {resp:?}"
    );
}

#[test]
fn good_credentials_upgrade_to_stream() {
    let resp = request(&get(MOUNT, Some(&good_auth())));
    assert_eq!(
        resp.trim_end(),
        "ICY 200 OK",
        "valid auth should upgrade to a stream"
    );
}

#[test]
fn broadcasts_serial_bytes_to_all_clients() {
    let (tx, mut a) = broadcast::channel::<Vec<u8>>(1024);
    let mut b = tx.subscribe();
    assert_eq!(request(&get(MOUNT, Some(&good_auth()))), "ICY 200 OK\r\n");

    let marker: Vec<u8> = (b'@'..=b'O').collect(); // "@ABC…O", 16 bytes
    let mut link = SerialLink::new();
    assert!(matches!(link.step(SerialEvent::Opened), SerialAction::Read));
    match link.step(SerialEvent::Read(&marker)) {
        SerialAction::Forward { bytes, first, announce } => {
            assert!(first && !announce);
            tx.send(bytes).unwrap();
        }
        _ => panic!("bytes should be forwarded"),
    }

    for rx in [&mut a, &mut b] {
        let mut pump = Pump::new();
        let bytes = rx.try_recv().unwrap();
        assert_eq!(pump.step(PumpEvent::Received), PumpAction::Write);
        assert_eq!(bytes, marker, "fan-out");
        let written = PumpEvent::Written { len: bytes.len() as u64 };
        assert_eq!(pump.step(written), PumpAction::Receive);
        assert_eq!(pump.sent, 16);
    }
}

#[test]
fn sourcetable_advertises_configured_fields() {
    let st = build_sourcetable(&CasterConfig {
        identifier: "STATION-X".to_string(),
        country: "DEU".to_string(),
        lat: format!("{:.4}", 52.5),
        lon: format!("{:.4}", 13.4),
        ..config("MYBASE", "user", "pass")
    });

    // One STR record for the configured mountpoint, terminated per spec.
    assert!(
        st.starts_with("STR;MYBASE;STATION-X;RTCM 3.3;"),
        "STR line should lead with mountpoint + identifier; got: {st:?}"
    );
    assert!(st.contains(";DEU;"), "country code should appear: {st:?}");
    assert!(st.contains(";52.5000;"), "lat formatted to 4 dp: {st:?}");
    assert!(st.contains(";13.4000;"), "lon formatted to 4 dp: {st:?}");
    assert!(
        st.ends_with("ENDSOURCETABLE\r\n"),
        "table must be CRLF-terminated with ENDSOURCETABLE: {st:?}"
    );
    // Exactly one record advertised.
    assert_eq!(st.matches("STR;").count(), 1, "single mountpoint expected");
}

#[test]
fn sourcetable_uses_defaults_when_unset() {
    let st = build_sourcetable(&config("RTCM3", "user", "pass"));
    assert!(st.starts_with("STR;RTCM3;FM-NTRIP;"), "defaults: {st:?}");
    assert!(st.contains(";USA;"), "default country: {st:?}");
}

#[test]
fn the_source_table_is_sent_with_its_length() {
    let st = "STR;TESTMNT;FM-NTRIP;RTCM 3.3;1005(1),1074(1),1084(1),1094(1),1124(1),1230(10);2;\
              GPS+GLO+GAL+BDS;FM-NTRIP;USA;0.0000;0.0000;0;0;u-blox ZED-F9P;none;B;N;0;\r\n\
              ENDSOURCETABLE\r\n";
    assert_eq!(build_sourcetable(&caster()), st);
    assert_eq!(
        request("GET / HTTP/1.0\r\n\r\n"),
        format!(
            "SOURCETABLE 200 OK\r\nServer: fm-ntrip/0.1.0\r\nContent-Type: text/plain\r\n\
             Content-Length: {}\r\nConnection: close\r\n\r\n{st}",
            st.len()
        )
    );
    // The length is counted in bytes.
    let c = CasterConfig {
        identifier: "Straße".to_string(),
        ..caster()
    };
    let body = build_sourcetable(&c);
    assert_eq!(body.len(), st.len() - 1);
    assert!(reply_text(&c, Reply::SourceTable)
        .contains(&format!("Content-Length: {}\r\n", body.len())));
}

#[test]
fn refusals_word_for_word() {
    assert_eq!(
        request("POST / HTTP/1.0\r\n\r\n"),
        "HTTP/1.0 400 Bad Request\r\nConnection: close\r\n\r\n"
    );
    assert_eq!(
        request(&get("NOPE", None)),
        "HTTP/1.0 404 Not Found\r\nConnection: close\r\n\r\n"
    );
    assert_eq!(
        request(&get(MOUNT, None)),
        "HTTP/1.0 401 Unauthorized\r\nWWW-Authenticate: Basic realm=\"NTRIP\"\r\n\
         Connection: close\r\n\r\n"
    );
}

#[test]
fn malformed_request_lines() {
    for raw in ["", "\r\n\r\n", "GET\r\n\r\n", "get / HTTP/1.0\r\n\r\n", "GETX /\r\n\r\n"] {
        assert!(request(raw).starts_with("HTTP/1.0 400"), "{raw:?}");
    }
}

#[test]
fn request_paths() {
    assert_eq!(request_path("GET /RTCM3 HTTP/1.0").as_deref(), Some("RTCM3"));
    assert_eq!(request_path("GET ///a/b").as_deref(), Some("a/b"));
    assert_eq!(request_path("\t GET\u{3000}plain ").as_deref(), Some("plain"));
    assert_eq!(request_path("GET /").as_deref(), Some(""));
    assert_eq!(request_path("GET").as_deref(), None);
    assert_eq!(request_path("PUT /RTCM3").as_deref(), None);
}

#[test]
fn header_names_ignore_case() {
    for name in ["Authorization: Basic ", "authorization: basic ", "AUTHORIZATION: BASIC "] {
        let raw = format!("GET /{MOUNT} HTTP/1.0\r\n{name}  {}  \r\n\r\n", good_auth());
        assert_eq!(request(&raw), "ICY 200 OK\r\n", "{name:?}");
    }
    let head = read_head("GET / HTTP/1.0\nuSER-aGENT:NTRIP testrover \n\n");
    assert_eq!(head.user_agent.as_deref(), Some("NTRIP testrover"));
    assert_eq!(head.auth, None);
}

#[test]
fn the_head_ends_at_the_first_blank_line() {
    let mut head = RequestHead::new();
    assert!(head.line("GET / HTTP/1.0\r\n"));
    assert!(head.line("Accept: */*\r\n"));
    assert!(head.line("User-Agent: a\r\n"));
    assert!(head.line("User-Agent: b\r\n"));
    assert!(!head.line("\r\n"));
    assert_eq!(head.request_line.as_deref(), Some("GET / HTTP/1.0"));
    assert_eq!(head.user_agent.as_deref(), Some("b"));

    // An empty first line is still the request line.
    let mut head = RequestHead::new();
    assert!(head.line(""));
    assert!(!head.line(""));
    assert_eq!(head.request_line.as_deref(), Some(""));
}

#[test]
fn the_mountpoint_is_looked_at_before_the_credential() {
    let c = caster();
    assert_eq!(answer(&c, &read_head(&get("NOPE", None))), Reply::NotFound);
    assert_eq!(answer(&c, &read_head(&get("", None))), Reply::SourceTable);
    assert_eq!(answer(&c, &read_head(&get(MOUNT, None))), Reply::Unauthorized);
    assert_eq!(
        answer(&c, &read_head(&get(MOUNT, Some(&good_auth())))),
        Reply::Stream
    );
}

#[test]
fn credentials_are_base64() {
    assert_eq!(basic_credential("rover", "secret"), "cm92ZXI6c2VjcmV0");
    assert_eq!(basic_credential("user", "pass"), "dXNlcjpwYXNz");
    assert_eq!(basic_credential("", ""), "Og==");
    assert_eq!(basic_credential("a", ""), "YTo=");
    assert_eq!(basic_credential("Aladdin", "open sesame"), "QWxhZGRpbjpvcGVuIHNlc2FtZQ==");
    assert_eq!(basic_credential("ü", "?>~"), "w7w6Pz5+");
    assert_eq!(basic_credential("?", "?"), "Pzo/");
    // The colon is all that separates the two.
    assert_eq!(basic_credential("a:b", "c"), basic_credential("a", "b:c"));
    assert_ne!(basic_credential("a", "b"), basic_credential("a", "c"));
}

#[test]
fn a_rover_that_falls_behind_is_dropped() {
    let mut pump = Pump::new();
    assert_eq!(pump.step(PumpEvent::Received), PumpAction::Write);
    assert_eq!(pump.step(PumpEvent::Written { len: 7 }), PumpAction::Receive);
    assert_eq!(pump.step(PumpEvent::Lagged), PumpAction::Disconnect);
    assert_eq!(pump.sent, 7);
    assert_eq!(pump.step(PumpEvent::Closed), PumpAction::Disconnect);
    assert_eq!(pump.step(PumpEvent::WriteFailed), PumpAction::Disconnect);
}
