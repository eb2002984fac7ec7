//! The caster's side of the NTRIP v1 handshake, and the pump that streams
//! corrections to a rover.
use crate::credentials::{basic_credential, credential_fits, credential_of};
use crate::text::{
    crlf, decimal, has_prefix_lower, push_decimal, push_line, same_text, starts_with_lower, trim,
    trim_end, trim_start, trimmed_from, two_words, without_eol, without_slashes, words, Class,
};
use vstd::prelude::*;
use vstd::utf8::encode_utf8;

verus! {

/// The text of `o`, if there is one.
pub open spec fn text_of(o: Option<String>) -> Option<Seq<char>> {
    match o {
        Some(s) => Some(s@),
        None => None,
    }
}

/// How a caster is set up.
#[derive(Debug)]
pub struct CasterConfig {
    /// Path that clients request, without its slash.
    pub mountpoint: String,
    /// Username for client HTTP Basic auth.
    pub username: String,
    /// Password for client HTTP Basic auth.
    pub password: String,
    /// Station name in the source table.
    pub identifier: String,
    /// ISO 3-letter country code in the source table.
    pub country: String,
    /// Latitude in the source table: decimal degrees, four places.
    pub lat: String,
    /// Longitude in the source table: decimal degrees, four places.
    pub lon: String,
    /// Version of the server, for its `Server` header.
    pub version: String,
}

/// The source table of a caster: the record of its one mountpoint, and the end
/// mark. The fields of the record are
///
/// STR;mountpoint;identifier;format;format-details;carrier;nav-system;network;
/// country;lat;lon;nmea;solution;generator;compr-encryp;authentication;fee;
/// bitrate;misc
pub open spec fn sourcetable_of(c: &CasterConfig) -> Seq<char> {
    "STR;"@ + c.mountpoint@ + ";"@ + c.identifier@
        + ";RTCM 3.3;1005(1),1074(1),1084(1),1094(1),1124(1),1230(10);2;GPS+GLO+GAL+BDS;FM-NTRIP;"@
        + c.country@ + ";"@ + c.lat@ + ";"@ + c.lon@ + ";0;0;u-blox ZED-F9P;none;B;N;0;\r\n"@
        + "ENDSOURCETABLE\r\n"@
}

/// NTRIP source table per BKG NTRIP v1.0: a single STR record that advertises the
/// configured mountpoint.
pub fn build_sourcetable(c: &CasterConfig) -> (s: String)
    ensures
        s@ == sourcetable_of(c),
{
    let mut s = "STR;".to_string();
    s.append(c.mountpoint.as_str());
    s.append(";");
    s.append(c.identifier.as_str());
    s.append(
        ";RTCM 3.3;1005(1),1074(1),1084(1),1094(1),1124(1),1230(10);2;GPS+GLO+GAL+BDS;FM-NTRIP;",
    );
    s.append(c.country.as_str());
    s.append(";");
    s.append(c.lat.as_str());
    s.append(";");
    s.append(c.lon.as_str());
    s.append(";0;0;u-blox ZED-F9P;none;B;N;0;\r\n");
    s.append("ENDSOURCETABLE\r\n");
    s
}

/// What a [`RequestHead`] holds.
pub struct HeadView {
    pub request_line: Option<Seq<char>>,
    pub auth: Option<Seq<char>>,
    pub user_agent: Option<Seq<char>>,
}

/// A request's first line and the headers that the caster reads, as far as they
/// have arrived.
#[derive(Debug)]
pub struct RequestHead {
    /// The first line, once it has arrived.
    pub request_line: Option<String>,
    /// The credential of the last `Authorization: Basic` header.
    pub auth: Option<String>,
    /// The value of the last `User-Agent` header.
    pub user_agent: Option<String>,
}

impl View for RequestHead {
    type V = HeadView;

    open spec fn view(&self) -> HeadView {
        HeadView {
            request_line: text_of(self.request_line),
            auth: text_of(self.auth),
            user_agent: text_of(self.user_agent),
        }
    }
}

/// A head of which nothing has arrived.
pub open spec fn empty_head() -> HeadView {
    HeadView { request_line: None, auth: None, user_agent: None }
}

/// The head after one more line. The first line is the request line; a later one
/// may be a header that the caster reads, whose name is matched without regard to
/// case.
pub open spec fn head_after(head: HeadView, raw: Seq<char>) -> HeadView {
    let line = trim_end(raw, Class::Eol);
    if head.request_line is None {
        HeadView { request_line: Some(line), ..head }
    } else if has_prefix_lower(line, "authorization: basic "@) {
        HeadView { auth: Some(trim(line.skip("authorization: basic "@.len() as int))), ..head }
    } else if has_prefix_lower(line, "user-agent:"@) {
        HeadView { user_agent: Some(trim(line.skip("user-agent:"@.len() as int))), ..head }
    } else {
        head
    }
}

/// Whether the head goes on behind the line `raw`: it ends at the first blank line
/// that is not the request line. The end of the input reads as a blank line.
pub open spec fn head_goes_on(head: HeadView, raw: Seq<char>) -> bool {
    head.request_line is None || trim_end(raw, Class::Eol).len() > 0
}

/// The head that is read from `lines`, on top of what has arrived.
pub open spec fn head_of(head: HeadView, lines: Seq<Seq<char>>) -> HeadView
    decreases lines.len(),
{
    if lines.len() == 0 {
        head
    } else if head_goes_on(head, lines[0]) {
        head_of(head_after(head, lines[0]), lines.skip(1))
    } else {
        head_after(head, lines[0])
    }
}

impl RequestHead {
    /// A head of which nothing has arrived.
    pub fn new() -> (h: RequestHead)
        ensures
            h@ == empty_head(),
    {
        RequestHead { request_line: None, auth: None, user_agent: None }
    }

    /// Takes the next line, with its line end; an empty string at the end of the
    /// input. Returns whether the head goes on behind it.
    pub fn line(&mut self, raw: &str) -> (goes_on: bool)
        ensures
            final(self)@ == head_after(old(self)@, raw@),
            goes_on == head_goes_on(old(self)@, raw@),
    {
        let line: String = without_eol(raw);
        if self.request_line.is_none() {
            self.request_line = Some(line);
            return true;
        }
        proof {
            reveal_strlit("authorization: basic ");
            reveal_strlit("user-agent:");
        }
        if starts_with_lower(line.as_str(), "authorization: basic ") {
            self.auth = Some(trimmed_from(line.as_str(), 21));
            true
        } else if starts_with_lower(line.as_str(), "user-agent:") {
            self.user_agent = Some(trimmed_from(line.as_str(), 11));
            true
        } else {
            !line.as_str().is_empty()
        }
    }
}

/// How a caster answers a request.
#[derive(Clone, Copy, Debug, PartialEq, Eq, Structural)]
pub enum Reply {
    /// The request is malformed.
    BadRequest,
    /// The source table.
    SourceTable,
    /// The mountpoint is unknown.
    NotFound,
    /// The credential is missing or wrong.
    Unauthorized,
    /// The connection becomes a stream of corrections.
    Stream,
}

/// The path that a request line asks for, without its slashes; nothing where the
/// line is malformed.
pub open spec fn requested_path(request_line: Seq<char>) -> Option<Seq<char>> {
    let parts = words(request_line);
    if parts.len() < 2 || parts[0] != "GET"@ {
        None
    } else {
        Some(trim_start(parts[1], Class::Slash))
    }
}

/// How a request is answered, given the credential that is expected.
pub open spec fn reply_to(
    request_line: Seq<char>,
    auth: Option<Seq<char>>,
    mountpoint: Seq<char>,
    expected: Seq<char>,
) -> Reply {
    match requested_path(request_line) {
        None => Reply::BadRequest,
        Some(path) => if path.len() == 0 {
            Reply::SourceTable
        } else if path != mountpoint {
            Reply::NotFound
        } else if auth != Some(expected) {
            Reply::Unauthorized
        } else {
            Reply::Stream
        },
    }
}

/// The request line of a head; empty where none has arrived.
pub open spec fn line_of(head: HeadView) -> Seq<char> {
    match head.request_line {
        Some(line) => line,
        None => Seq::empty(),
    }
}

/// How a caster answers a request.
pub open spec fn reply_of(c: &CasterConfig, head: HeadView) -> Reply {
    reply_to(line_of(head), head.auth, c.mountpoint@, credential_of(c.username@, c.password@))
}

/// Whether answering a request takes a look at its credential.
pub open spec fn asks_for_mountpoint(c: &CasterConfig, head: HeadView) -> bool {
    c.mountpoint@.len() > 0 && requested_path(line_of(head)) == Some(c.mountpoint@)
}

/// The path that a request line asks for, without its slashes; nothing where the
/// line is malformed.
pub fn request_path(request_line: &str) -> (r: Option<String>)
    ensures
        text_of(r) == requested_path(request_line@),
{
    match two_words(request_line) {
        None => None,
        Some((method, target)) => {
            if same_text(method.as_str(), "GET") {
                Some(without_slashes(target.as_str()))
            } else {
                None
            }
        },
    }
}

/// Whether the credential that came with a request is the expected one.
pub fn is_authorized(auth: &Option<String>, expected: &str) -> (r: bool)
    ensures
        r == (text_of(*auth) == Some(expected@)),
{
    match auth {
        Some(given) => same_text(given.as_str(), expected),
        None => false,
    }
}

/// Decides how to answer a request.
pub fn answer(c: &CasterConfig, head: &RequestHead) -> (r: Reply)
    requires
        asks_for_mountpoint(c, head@) ==> credential_fits(c.username@, c.password@),
    ensures
        r == reply_of(c, head@),
{
    let path: Option<String> = match &head.request_line {
        Some(line) => request_path(line.as_str()),
        None => request_path(""),
    };
    proof {
        reveal_strlit("");
        assert(""@ =~= Seq::<char>::empty());
    }
    match path {
        None => Reply::BadRequest,
        Some(path) => {
            if path.as_str().is_empty() {
                Reply::SourceTable
            } else if !same_text(path.as_str(), c.mountpoint.as_str()) {
                Reply::NotFound
            } else {
                let expected: String = basic_credential(c.username.as_str(), c.password.as_str());
                if is_authorized(&head.auth, expected.as_str()) {
                    Reply::Stream
                } else {
                    Reply::Unauthorized
                }
            }
        },
    }
}

/// What precedes the source table in the answer that carries it.
pub open spec fn sourcetable_header(c: &CasterConfig) -> Seq<char> {
    crlf("SOURCETABLE 200 OK"@) + crlf("Server: fm-ntrip/"@ + c.version@) + crlf(
        "Content-Type: text/plain"@,
    ) + crlf("Content-Length: "@ + decimal(encode_utf8(sourcetable_of(c)).len())) + crlf(
        "Connection: close"@,
    ) + crlf(Seq::empty())
}

/// What a caster sends as its answer.
pub open spec fn reply_text_of(c: &CasterConfig, reply: Reply) -> Seq<char> {
    match reply {
        Reply::BadRequest => "HTTP/1.0 400 Bad Request\r\nConnection: close\r\n\r\n"@,
        Reply::SourceTable => sourcetable_header(c) + sourcetable_of(c),
        Reply::NotFound => "HTTP/1.0 404 Not Found\r\nConnection: close\r\n\r\n"@,
        Reply::Unauthorized =>
            "HTTP/1.0 401 Unauthorized\r\nWWW-Authenticate: Basic realm=\"NTRIP\"\r\nConnection: close\r\n\r\n"@,
        Reply::Stream => "ICY 200 OK\r\n"@,
    }
}

/// What a caster sends as its answer.
pub fn reply_text(c: &CasterConfig, reply: Reply) -> (s: String)
    ensures
        s@ == reply_text_of(c, reply),
{
    match reply {
        Reply::BadRequest => {
            "HTTP/1.0 400 Bad Request\r\nConnection: close\r\n\r\n".to_string()
        },
        Reply::SourceTable => {
            let body: String = build_sourcetable(c);
            let mut s = String::new();
            push_line(&mut s, "SOURCETABLE 200 OK");
            let mut server = "Server: fm-ntrip/".to_string();
            server.append(c.version.as_str());
            push_line(&mut s, server.as_str());
            push_line(&mut s, "Content-Type: text/plain");
            let mut length = "Content-Length: ".to_string();
            push_decimal(&mut length, body.as_str().as_bytes().len() as u64);
            push_line(&mut s, length.as_str());
            push_line(&mut s, "Connection: close");
            push_line(&mut s, "");
            proof {
                reveal_strlit("");
                assert(""@ =~= Seq::<char>::empty());
                assert(Seq::<char>::empty() + crlf("SOURCETABLE 200 OK"@) =~= crlf(
                    "SOURCETABLE 200 OK"@,
                ));
                assert(s@ == sourcetable_header(c));
            }
            s.append(body.as_str());
            s
        },
        Reply::NotFound => "HTTP/1.0 404 Not Found\r\nConnection: close\r\n\r\n".to_string(),
        Reply::Unauthorized => {
            "HTTP/1.0 401 Unauthorized\r\nWWW-Authenticate: Basic realm=\"NTRIP\"\r\nConnection: close\r\n\r\n".to_string()
        },
        Reply::Stream => "ICY 200 OK\r\n".to_string(),
    }
}

/// What happened to a stream that is pumped to a rover.
#[derive(Clone, Copy, Debug, PartialEq, Eq, Structural)]
pub enum PumpEvent {
    /// A chunk of corrections came out of the rover's queue.
    Received,
    /// A chunk of `len` bytes was written to the rover.
    Written { len: u64 },
    /// A chunk could not be written.
    WriteFailed,
    /// The rover fell too far behind, and its queue overflowed.
    Lagged,
    /// The source of the corrections is gone.
    Closed,
}

/// What to do next for a rover.
#[derive(Clone, Copy, Debug, PartialEq, Eq, Structural)]
pub enum PumpAction {
    /// Wait for the next chunk.
    Receive,
    /// Write the chunk that was received.
    Write,
    /// End the connection.
    Disconnect,
}

/// What to do next for a rover. A rover that falls too far behind is dropped
/// rather than stalling the stream.
pub open spec fn pump_action(event: PumpEvent) -> PumpAction {
    match event {
        PumpEvent::Received => PumpAction::Write,
        PumpEvent::Written { len } => PumpAction::Receive,
        PumpEvent::WriteFailed | PumpEvent::Lagged | PumpEvent::Closed => PumpAction::Disconnect,
    }
}

/// How many bytes an event adds to what a rover was sent.
pub open spec fn pump_bytes(event: PumpEvent) -> nat {
    match event {
        PumpEvent::Written { len } => len as nat,
        _ => 0,
    }
}

/// How many bytes a rover was sent after an event.
pub open spec fn sent_after(sent: int, event: PumpEvent) -> int {
    sent + pump_bytes(event)
}

/// How many bytes a rover was sent after a run of events.
pub open spec fn sent_after_all(sent: int, events: Seq<PumpEvent>) -> int
    decreases events.len(),
{
    if events.len() == 0 {
        sent
    } else {
        sent_after(sent_after_all(sent, events.drop_last()), events.last())
    }
}

/// What a rover was sent is what was written to it: a chunk adds its length, and nothing
/// else adds or takes away.
pub proof fn law_sent_is_what_was_written(sent: int, events: Seq<PumpEvent>, event: PumpEvent)
    ensures
        sent_after_all(sent, events.push(event)) == sent_after_all(sent, events) + match event {
            PumpEvent::Written { len } => len as int,
            _ => 0,
        },
        sent_after_all(sent, Seq::empty()) == sent,
{
    assert(events.push(event).drop_last() =~= events);
}

/// Pumps corrections to one rover until either side gives up.
#[derive(Clone, Copy, Debug, PartialEq, Eq, Structural)]
pub struct Pump {
    /// Bytes of corrections that the rover was sent.
    pub sent: u64,
}

impl Pump {
    pub fn new() -> (p: Pump)
        ensures
            p.sent == 0,
    {
        Pump { sent: 0 }
    }

    /// Takes an event and says what to do next.
    pub fn step(&mut self, event: PumpEvent) -> (action: PumpAction)
        requires
            old(self).sent + pump_bytes(event) <= u64::MAX,
        ensures
            final(self).sent == old(self).sent + pump_bytes(event),
            final(self).sent == sent_after(old(self).sent as int, event),
            action == pump_action(event),
    {
        match event {
            PumpEvent::Received => PumpAction::Write,
            PumpEvent::Written { len } => {
                self.sent = self.sent + len;
                PumpAction::Receive
            },
            PumpEvent::WriteFailed | PumpEvent::Lagged | PumpEvent::Closed => {
                PumpAction::Disconnect
            },
        }
    }
}

} // verus!
