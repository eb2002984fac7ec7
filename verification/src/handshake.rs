//! What holds of the handshake as a whole: a rover's request, the caster's answer,
//! and what the rover makes of it.
use crate::caster::{
    empty_head, head_after, head_goes_on, head_of, line_of, reply_of, reply_text_of,
    requested_path, sourcetable_of, CasterConfig, HeadView, Reply,
};
use crate::credentials::{
    credential_of, credential_plain, law_credential_is_injective, lemma_base64_text,
};
use crate::rover::{
    printed_table, request_text_of, rover_path, rover_request_of, status_of, RoverConfig, Status,
};
use crate::text::{
    all_of, ascii_lower, crlf, decimal, has_prefix, has_prefix_lower, has_text, is_single_line,
    lemma_crlf_line, lemma_decimal_single_line, lemma_first_word, lemma_leading_is,
    lemma_single_line_add, lemma_trailing, lemma_trailing_is, lines_of, occurs_at, trailing, trim,
    trim_end, trim_start, words, Class,
};
use vstd::prelude::*;
use vstd::utf8::encode_utf8;

verus! {

/// Whether a mountpoint can be asked for in a request line: it is not empty, holds
/// no white space and does not start with a slash.
pub open spec fn is_requestable(mountpoint: Seq<char>) -> bool {
    &&& mountpoint.len() > 0
    &&& all_of(mountpoint, Class::Word)
    &&& mountpoint[0] != '/'
}

/// Text without white space stands on a single line.
proof fn lemma_word_single_line(s: Seq<char>)
    requires
        all_of(s, Class::Word),
    ensures
        is_single_line(s),
{
    assert forall|i: int| 0 <= i < s.len() implies !Class::Eol.holds(#[trigger] s[i]) by {
        assert(Class::Word.holds(s[i]));
    }
}

/// The words of a request line.
proof fn lemma_request_words(path: Seq<char>)
    requires
        all_of(path, Class::Word),
    ensures
        words("GET /"@ + path + " HTTP/1.0"@).len() >= 2,
        words("GET /"@ + path + " HTTP/1.0"@)[0] == "GET"@,
        words("GET /"@ + path + " HTTP/1.0"@)[1] == seq!['/'] + path,
{
    reveal_strlit("GET /");
    reveal_strlit("GET");
    reveal_strlit(" HTTP/1.0");
    let line = "GET /"@ + path + " HTTP/1.0"@;
    let gap = seq![' '];
    let none = Seq::<char>::empty();
    let target = seq!['/'] + path;
    let rest = gap + target + " HTTP/1.0"@;
    assert(line =~= none + "GET"@ + rest);
    lemma_first_word(none, "GET"@, rest);
    assert forall|i: int| 0 <= i < target.len() implies Class::Word.holds(#[trigger] target[i]) by {
        if i > 0 {
            assert(target[i] == path[i - 1]);
        }
    }
    lemma_first_word(gap, target, " HTTP/1.0"@);
}

/// The path that a rover's request line asks for.
proof fn lemma_requested_path(path: Seq<char>)
    requires
        all_of(path, Class::Word),
        path.len() > 0 ==> path[0] != '/',
    ensures
        requested_path("GET /"@ + path + " HTTP/1.0"@) == Some(path),
{
    lemma_request_words(path);
    let target = seq!['/'] + path;
    lemma_leading_is(target, Class::Slash, 1);
    assert(trim_start(target, Class::Slash) =~= path);
}

/// Text without white space is what trimming leaves of it.
proof fn lemma_trim_word(s: Seq<char>)
    requires
        all_of(s, Class::Word),
    ensures
        trim(s) == s,
{
    lemma_leading_is(s, Class::Space, 0);
    assert(trim_start(s, Class::Space) =~= s);
    lemma_trailing_is(s, Class::Space, 0);
    assert(trim_end(s, Class::Space) =~= s);
}

/// The caster reads back the credential that a rover sends.
proof fn lemma_auth_line(head: HeadView, auth: Seq<char>)
    requires
        head.request_line is Some,
        all_of(auth, Class::Word),
    ensures
        is_single_line("Authorization: Basic "@ + auth),
        head_goes_on(head, crlf("Authorization: Basic "@ + auth)),
        head_after(head, crlf("Authorization: Basic "@ + auth)) == (HeadView {
            auth: Some(auth),
            ..head
        }),
{
    reveal_strlit("Authorization: Basic ");
    reveal_strlit("authorization: basic ");
    let line = "Authorization: Basic "@ + auth;
    lemma_word_single_line(auth);
    lemma_single_line_add("Authorization: Basic "@, auth);
    lemma_crlf_line(line, Seq::empty());
    let low = line.map_values(|c: char| ascii_lower(c));
    assert(low.take(21) =~= "authorization: basic "@);
    assert(has_prefix_lower(line, "authorization: basic "@));
    assert(line.skip(21) =~= auth);
    lemma_trim_word(auth);
}

/// The caster reads the name of a rover.
proof fn lemma_agent_line(head: HeadView, version: Seq<char>)
    requires
        head.request_line is Some,
        is_single_line(version),
    ensures
        is_single_line("User-Agent: NTRIP fm-ntrip-client/"@ + version),
        head_goes_on(head, crlf("User-Agent: NTRIP fm-ntrip-client/"@ + version)),
        head_after(head, crlf("User-Agent: NTRIP fm-ntrip-client/"@ + version)) == (HeadView {
            user_agent: Some(trim(" NTRIP fm-ntrip-client/"@ + version)),
            ..head
        }),
{
    reveal_strlit("User-Agent: NTRIP fm-ntrip-client/");
    reveal_strlit(" NTRIP fm-ntrip-client/");
    reveal_strlit("authorization: basic ");
    reveal_strlit("user-agent:");
    let line = "User-Agent: NTRIP fm-ntrip-client/"@ + version;
    lemma_single_line_add("User-Agent: NTRIP fm-ntrip-client/"@, version);
    lemma_crlf_line(line, Seq::empty());
    let low = line.map_values(|c: char| ascii_lower(c));
    assert(low.take(11) =~= "user-agent:"@);
    assert(low.take(21)[0] != "authorization: basic "@[0]);
    assert(line.skip(11) =~= " NTRIP fm-ntrip-client/"@ + version);
}

/// The caster passes over the protocol version.
proof fn lemma_version_line(head: HeadView)
    requires
        head.request_line is Some,
    ensures
        is_single_line("Ntrip-Version: Ntrip/1.0"@),
        head_goes_on(head, crlf("Ntrip-Version: Ntrip/1.0"@)),
        head_after(head, crlf("Ntrip-Version: Ntrip/1.0"@)) == head,
{
    reveal_strlit("Ntrip-Version: Ntrip/1.0");
    reveal_strlit("authorization: basic ");
    reveal_strlit("user-agent:");
    let line = "Ntrip-Version: Ntrip/1.0"@;
    lemma_crlf_line(line, Seq::empty());
    let low = line.map_values(|c: char| ascii_lower(c));
    assert(low.take(11)[0] != "user-agent:"@[0]);
    assert(low.take(21)[0] != "authorization: basic "@[0]);
}

/// The lines of a rover's request.
pub open spec fn request_lines(path: Seq<char>, auth: Seq<char>, version: Seq<char>) -> Seq<Seq<char>> {
    seq![
        crlf("GET /"@ + path + " HTTP/1.0"@),
        crlf("User-Agent: NTRIP fm-ntrip-client/"@ + version),
        crlf("Authorization: Basic "@ + auth),
        crlf("Ntrip-Version: Ntrip/1.0"@),
        crlf(Seq::empty()),
    ]
}

/// The lines of a rover's request, one by one.
pub proof fn lemma_request_lines(path: Seq<char>, auth: Seq<char>, version: Seq<char>)
    requires
        all_of(path, Class::Word),
        all_of(auth, Class::Word),
        is_single_line(version),
    ensures
        lines_of(request_text_of(path, auth, version)) == request_lines(path, auth, version),
        is_single_line("GET /"@ + path + " HTTP/1.0"@),
{
    let some = HeadView { request_line: Some(Seq::empty()), ..empty_head() };
    let none = Seq::<char>::empty();
    let b0 = "GET /"@ + path + " HTTP/1.0"@;
    let b1 = "User-Agent: NTRIP fm-ntrip-client/"@ + version;
    let b2 = "Authorization: Basic "@ + auth;
    let b3 = "Ntrip-Version: Ntrip/1.0"@;
    lemma_auth_line(some, auth);
    lemma_agent_line(some, version);
    lemma_version_line(some);
    reveal_strlit("GET /");
    reveal_strlit(" HTTP/1.0");
    lemma_word_single_line(path);
    lemma_single_line_add("GET /"@, path);
    lemma_single_line_add("GET /"@ + path, " HTTP/1.0"@);
    let r4 = crlf(none) + none;
    let r3 = crlf(b3) + r4;
    let r2 = crlf(b2) + r3;
    let r1 = crlf(b1) + r2;
    let r0 = crlf(b0) + r1;
    assert(request_text_of(path, auth, version) =~= r0);
    lemma_crlf_line(b0, r1);
    lemma_crlf_line(b1, r2);
    lemma_crlf_line(b2, r3);
    lemma_crlf_line(b3, r4);
    lemma_crlf_line(none, none);
    assert(lines_of(none) =~= Seq::<Seq<char>>::empty());
    assert(lines_of(r0) =~= request_lines(path, auth, version));
}

/// What the caster reads of a rover's request.
proof fn lemma_request_head(path: Seq<char>, auth: Seq<char>, version: Seq<char>)
    requires
        all_of(path, Class::Word),
        all_of(auth, Class::Word),
        is_single_line(version),
    ensures
        head_of(empty_head(), lines_of(request_text_of(path, auth, version))) == (HeadView {
            request_line: Some("GET /"@ + path + " HTTP/1.0"@),
            auth: Some(auth),
            user_agent: Some(trim(" NTRIP fm-ntrip-client/"@ + version)),
        }),
{
    lemma_request_lines(path, auth, version);
    let l = request_lines(path, auth, version);
    let line = "GET /"@ + path + " HTTP/1.0"@;
    lemma_crlf_line(line, Seq::empty());
    let h0 = empty_head();
    let h1 = HeadView { request_line: Some(line), ..h0 };
    assert(head_after(h0, l[0]) == h1);
    let h2 = HeadView {
        user_agent: Some(trim(" NTRIP fm-ntrip-client/"@ + version)),
        ..h1
    };
    lemma_agent_line(h1, version);
    assert(head_after(h1, l[1]) == h2);
    let h3 = HeadView { auth: Some(auth), ..h2 };
    lemma_auth_line(h2, auth);
    assert(head_after(h2, l[2]) == h3);
    lemma_version_line(h3);
    assert(head_after(h3, l[3]) == h3);
    let none = Seq::<char>::empty();
    lemma_crlf_line(none, none);
    reveal_strlit("authorization: basic ");
    reveal_strlit("user-agent:");
    assert(!head_goes_on(h3, l[4]));
    assert(head_after(h3, l[4]) == h3);
    assert(l.skip(1).skip(1) =~= l.skip(2));
    assert(l.skip(2).skip(1) =~= l.skip(3));
    assert(l.skip(3).skip(1) =~= l.skip(4));
    assert(l.skip(1)[0] == l[1] && l.skip(2)[0] == l[2] && l.skip(3)[0] == l[3] && l.skip(4)[0]
        == l[4]);
    assert(head_of(h3, l.skip(4)) == h3);
    assert(head_of(h3, l.skip(3)) == h3);
    assert(head_of(h2, l.skip(2)) == h3);
    assert(head_of(h1, l.skip(1)) == h3);
}

/// How a caster answers a rover: a rover that asks for the source table is sent
/// it; one that asks for another mountpoint is not found; one whose username and
/// password are not the caster's is unauthorized; every other one is streamed to.
pub proof fn law_rover_is_answered(rover: &RoverConfig, caster: &CasterConfig)
    requires
        rover.sourcetable || is_requestable(rover.mountpoint@),
        is_single_line(rover.version@),
    ensures
        reply_of(caster, head_of(empty_head(), lines_of(rover_request_of(rover)))) == (
        if rover.sourcetable {
            Reply::SourceTable
        } else if rover.mountpoint@ != caster.mountpoint@ {
            Reply::NotFound
        } else if credential_plain(rover.username@, rover.password@) != credential_plain(
            caster.username@,
            caster.password@,
        ) {
            Reply::Unauthorized
        } else {
            Reply::Stream
        }),
{
    let path = rover_path(rover.sourcetable, rover.mountpoint@);
    let auth = credential_of(rover.username@, rover.password@);
    lemma_base64_text(encode_utf8(credential_plain(rover.username@, rover.password@)));
    lemma_request_head(path, auth, rover.version@);
    lemma_requested_path(path);
    law_credential_is_injective(
        rover.username@,
        rover.password@,
        caster.username@,
        caster.password@,
    );
}

/// Nothing is streamed without the caster's credential and mountpoint.
pub proof fn law_stream_needs_credential(caster: &CasterConfig, head: HeadView)
    requires
        reply_of(caster, head) == Reply::Stream,
    ensures
        head.auth == Some(credential_of(caster.username@, caster.password@)),
        requested_path(line_of(head)) == Some(caster.mountpoint@),
{
}

/// `s` in ASCII lower case.
pub open spec fn lower(s: Seq<char>) -> Seq<char> {
    s.map_values(|c: char| ascii_lower(c))
}

/// The line end is taken off what follows a text that does not end with one.
proof fn lemma_trim_end_tail(a: Seq<char>, b: Seq<char>)
    requires
        a.len() > 0,
        !Class::Eol.holds(a.last()),
    ensures
        trim_end(a + b, Class::Eol) == a + trim_end(b, Class::Eol),
{
    lemma_trailing(b, Class::Eol);
    let n = trailing(b, Class::Eol);
    let s = a + b;
    assert forall|i: int| s.len() - n <= i < s.len() implies Class::Eol.holds(#[trigger] s[i]) by {
        assert(s[i] == b[i - a.len()]);
    }
    if n < b.len() {
        assert(s[s.len() - n - 1] == b[b.len() - n - 1]);
    } else {
        assert(s[s.len() - n - 1] == a.last());
    }
    lemma_trailing_is(s, Class::Eol, n);
    assert(trim_end(s, Class::Eol) =~= a + trim_end(b, Class::Eol));
}

/// Header names are matched without regard to case: however the name is written,
/// the caster takes the header's value.
pub proof fn law_header_names_ignore_case(head: HeadView, name: Seq<char>, value: Seq<char>)
    requires
        head.request_line is Some,
    ensures
        lower(name) == "authorization: basic "@ ==> head_after(head, name + value) == (HeadView {
            auth: Some(trim(trim_end(value, Class::Eol))),
            ..head
        }),
        lower(name) == "user-agent:"@ ==> head_after(head, name + value) == (HeadView {
            user_agent: Some(trim(trim_end(value, Class::Eol))),
            ..head
        }),
{
    reveal_strlit("authorization: basic ");
    reveal_strlit("user-agent:");
    let auth = "authorization: basic "@;
    let agent = "user-agent:"@;
    let rest = trim_end(value, Class::Eol);
    let low = lower(name + rest);
    if lower(name) == auth || lower(name) == agent {
        assert(lower(name).last() == ascii_lower(name.last()));
        lemma_trim_end_tail(name, value);
        assert(trim_end(name + value, Class::Eol) == name + rest);
        assert(low.take(name.len() as int) =~= lower(name));
        assert((name + rest).skip(name.len() as int) =~= rest);
        assert(low[0] == lower(name)[0]);
        if lower(name) == agent && low.len() >= 21 {
            assert(low.take(21)[0] != auth[0]);
        }
    }
}

/// The status line of an answer.
pub open spec fn status_line(c: &CasterConfig, reply: Reply) -> Seq<char> {
    lines_of(reply_text_of(c, reply))[0]
}

/// A text in which a character of `t` does not occur does not hold `t`.
proof fn lemma_no_text(s: Seq<char>, t: Seq<char>, i: int)
    requires
        0 <= i < t.len(),
        !s.contains(t[i]),
    ensures
        !has_text(s, t),
{
    assert forall|k: int| !occurs_at(s, t, k) by {
        if occurs_at(s, t, k) {
            assert(s.subrange(k, k + t.len())[i] == s[k + i]);
        }
    }
}

/// A refusal says so to a rover.
proof fn lemma_refusal(text: Seq<char>, n: int)
    requires
        0 <= n,
        n + 2 <= text.len(),
        text[n] == '\r',
        text[n + 1] == '\n',
        is_single_line(text.take(n)),
        has_prefix(text.take(n), "HTTP"@),
        !text.take(n).contains('2'),
    ensures
        lines_of(text).len() > 0,
        status_of(false, lines_of(text)[0]) == Status::Refused,
{
    let body = text.take(n);
    let rest = text.skip(n + 2);
    assert(text =~= crlf(body) + rest) by {
        reveal_strlit("\r\n");
    }
    lemma_crlf_line(body, rest);
    reveal_strlit("SOURCETABLE");
    reveal_strlit("ICY 200");
    reveal_strlit(" 200 ");
    reveal_strlit("HTTP");
    lemma_no_text(body, " 200 "@, 1);
    assert(body.take(4)[0] == body[0]);
    if body.len() >= 11 {
        assert(body.take(11)[0] == body[0]);
    }
    if body.len() >= 7 {
        assert(body.take(7)[0] == body[0]);
    }
}

proof fn lemma_bad_request_is_understood(caster: &CasterConfig)
    ensures
        lines_of(reply_text_of(caster, Reply::BadRequest)).len() > 0,
        status_of(false, status_line(caster, Reply::BadRequest)) == Status::Refused,
{
    reveal_strlit("HTTP/1.0 400 Bad Request\r\nConnection: close\r\n\r\n");
    reveal_strlit("HTTP");
    let text = reply_text_of(caster, Reply::BadRequest);
    assert(text.take(24).take(4) =~= "HTTP"@);
    lemma_refusal(text, 24);
}

proof fn lemma_not_found_is_understood(caster: &CasterConfig)
    ensures
        lines_of(reply_text_of(caster, Reply::NotFound)).len() > 0,
        status_of(false, status_line(caster, Reply::NotFound)) == Status::Refused,
{
    reveal_strlit("HTTP/1.0 404 Not Found\r\nConnection: close\r\n\r\n");
    reveal_strlit("HTTP");
    let text = reply_text_of(caster, Reply::NotFound);
    assert(text.take(22).take(4) =~= "HTTP"@);
    lemma_refusal(text, 22);
}

proof fn lemma_unauthorized_is_understood(caster: &CasterConfig)
    ensures
        lines_of(reply_text_of(caster, Reply::Unauthorized)).len() > 0,
        status_of(false, status_line(caster, Reply::Unauthorized)) == Status::Refused,
{
    reveal_strlit(
        "HTTP/1.0 401 Unauthorized\r\nWWW-Authenticate: Basic realm=\"NTRIP\"\r\nConnection: close\r\n\r\n",
    );
    reveal_strlit("HTTP");
    let text = reply_text_of(caster, Reply::Unauthorized);
    assert(text.take(25).take(4) =~= "HTTP"@);
    lemma_refusal(text, 25);
}

proof fn lemma_stream_is_understood(caster: &CasterConfig)
    ensures
        lines_of(reply_text_of(caster, Reply::Stream)).len() > 0,
        status_of(false, status_line(caster, Reply::Stream)) == Status::Streaming,
{
    reveal_strlit("\r\n");
    reveal_strlit("ICY 200 OK\r\n");
    reveal_strlit("ICY 200 OK");
    reveal_strlit("ICY 200");
    reveal_strlit("SOURCETABLE");
    let body = "ICY 200 OK"@;
    let none = Seq::<char>::empty();
    assert(reply_text_of(caster, Reply::Stream) =~= crlf(body) + none);
    lemma_crlf_line(body, none);
    assert(body.take(7) =~= "ICY 200"@);
}

/// The answer that carries the source table: its status line, and what follows.
pub proof fn lemma_table_answer(caster: &CasterConfig)
    ensures
        ({
            let all = lines_of(reply_text_of(caster, Reply::SourceTable));
            let c = caster;
            let rest = crlf("Server: fm-ntrip/"@ + c.version@) + (crlf("Content-Type: text/plain"@) + (
            crlf("Content-Length: "@ + decimal(encode_utf8(sourcetable_of(c)).len())) + (crlf(
                "Connection: close"@,
            ) + (crlf(Seq::empty()) + sourcetable_of(c)))));
            &&& all.len() > 0
            &&& all[0] == crlf("SOURCETABLE 200 OK"@)
            &&& all.skip(1) == lines_of(rest)
        }),
{
    let c = caster;
    let rest = crlf("Server: fm-ntrip/"@ + c.version@) + (crlf("Content-Type: text/plain"@) + (crlf(
        "Content-Length: "@ + decimal(encode_utf8(sourcetable_of(c)).len()),
    ) + (crlf("Connection: close"@) + (crlf(Seq::empty()) + sourcetable_of(c)))));
    let all = reply_text_of(caster, Reply::SourceTable);
    assert(all =~= crlf("SOURCETABLE 200 OK"@) + rest);
    assert(is_single_line("SOURCETABLE 200 OK"@)) by {
        reveal_strlit("SOURCETABLE 200 OK");
    }
    lemma_crlf_line("SOURCETABLE 200 OK"@, rest);
    assert(lines_of(all).skip(1) =~= lines_of(rest));
}

proof fn lemma_sourcetable_is_understood(caster: &CasterConfig)
    ensures
        lines_of(reply_text_of(caster, Reply::SourceTable)).len() > 0,
        status_of(false, status_line(caster, Reply::SourceTable)) == Status::SourceTable,
{
    lemma_table_answer(caster);
    reveal_strlit("SOURCETABLE 200 OK");
    reveal_strlit("SOURCETABLE");
    let body = "SOURCETABLE 200 OK"@;
    lemma_crlf_line(body, Seq::empty());
    assert(body.take(11) =~= "SOURCETABLE"@);
}

/// A rover that asks for a stream understands every answer: it streams where the
/// caster streams, takes the source table where it is sent one, and knows every
/// refusal for one.
pub proof fn law_answer_is_understood(caster: &CasterConfig, reply: Reply)
    ensures
        lines_of(reply_text_of(caster, reply)).len() > 0,
        status_of(false, status_line(caster, reply)) == match reply {
            Reply::Stream => Status::Streaming,
            Reply::SourceTable => Status::SourceTable,
            Reply::BadRequest | Reply::NotFound | Reply::Unauthorized => Status::Refused,
        },
{
    match reply {
        Reply::Stream => lemma_stream_is_understood(caster),
        Reply::SourceTable => lemma_sourcetable_is_understood(caster),
        Reply::BadRequest => lemma_bad_request_is_understood(caster),
        Reply::NotFound => lemma_not_found_is_understood(caster),
        Reply::Unauthorized => lemma_unauthorized_is_understood(caster),
    }
}

/// Whether every text that a caster puts into an answer stands on a single line.
pub open spec fn is_plain_config(c: &CasterConfig) -> bool {
    &&& is_single_line(c.mountpoint@)
    &&& is_single_line(c.identifier@)
    &&& is_single_line(c.country@)
    &&& is_single_line(c.lat@)
    &&& is_single_line(c.lon@)
    &&& is_single_line(c.version@)
}

/// A header line is passed over.
proof fn lemma_header_skipped(body: Seq<char>, rest: Seq<char>)
    requires
        is_single_line(body),
        body.len() > 0,
    ensures
        printed_table(false, lines_of(crlf(body) + rest)) == printed_table(
            false,
            lines_of(rest),
        ),
{
    lemma_crlf_line(body, rest);
    let l = lines_of(crlf(body) + rest);
    assert(l[0] == crlf(body));
    assert(l.skip(1) =~= lines_of(rest));
}

/// The record line of a source table, without its line end.
spec fn record_line(c: &CasterConfig) -> Seq<char> {
    "STR;"@ + c.mountpoint@ + ";"@ + c.identifier@
        + ";RTCM 3.3;1005(1),1074(1),1084(1),1094(1),1124(1),1230(10);2;GPS+GLO+GAL+BDS;FM-NTRIP;"@
        + c.country@ + ";"@ + c.lat@ + ";"@ + c.lon@ + ";0;0;u-blox ZED-F9P;none;B;N;0;"@
}

proof fn lemma_record_line(c: &CasterConfig)
    requires
        is_plain_config(c),
    ensures
        is_single_line(record_line(c)),
        sourcetable_of(c) == crlf(record_line(c)) + "ENDSOURCETABLE\r\n"@,
        record_line(c).len() > 0,
        record_line(c)[0] == 'S',
{
    reveal_strlit("STR;");
    reveal_strlit(";");
    reveal_strlit(
        ";RTCM 3.3;1005(1),1074(1),1084(1),1094(1),1124(1),1230(10);2;GPS+GLO+GAL+BDS;FM-NTRIP;",
    );
    reveal_strlit(";0;0;u-blox ZED-F9P;none;B;N;0;");
    reveal_strlit(";0;0;u-blox ZED-F9P;none;B;N;0;\r\n");
    reveal_strlit("\r\n");
    let p1 = "STR;"@ + c.mountpoint@;
    lemma_single_line_add("STR;"@, c.mountpoint@);
    let p2 = p1 + ";"@;
    lemma_single_line_add(p1, ";"@);
    let p3 = p2 + c.identifier@;
    lemma_single_line_add(p2, c.identifier@);
    let fixed =
        ";RTCM 3.3;1005(1),1074(1),1084(1),1094(1),1124(1),1230(10);2;GPS+GLO+GAL+BDS;FM-NTRIP;"@;
    let p4 = p3 + fixed;
    lemma_single_line_add(p3, fixed);
    let p5 = p4 + c.country@;
    lemma_single_line_add(p4, c.country@);
    let p6 = p5 + ";"@;
    lemma_single_line_add(p5, ";"@);
    let p7 = p6 + c.lat@;
    lemma_single_line_add(p6, c.lat@);
    let p8 = p7 + ";"@;
    lemma_single_line_add(p7, ";"@);
    let p9 = p8 + c.lon@;
    lemma_single_line_add(p8, c.lon@);
    lemma_single_line_add(p9, ";0;0;u-blox ZED-F9P;none;B;N;0;"@);
    assert(";0;0;u-blox ZED-F9P;none;B;N;0;\r\n"@ =~= ";0;0;u-blox ZED-F9P;none;B;N;0;"@ + "\r\n"@);
    assert(p9 + ";0;0;u-blox ZED-F9P;none;B;N;0;\r\n"@ =~= crlf(record_line(c)));
}

/// The record of a source table stands on a single line.
pub proof fn lemma_record_is_single_line(c: &CasterConfig, record: Seq<char>)
    requires
        is_plain_config(c),
        sourcetable_of(c) == crlf(record) + crlf("ENDSOURCETABLE"@),
    ensures
        is_single_line(record),
{
    lemma_record_line(c);
    assert("ENDSOURCETABLE\r\n"@ =~= crlf("ENDSOURCETABLE"@)) by {
        reveal_strlit("ENDSOURCETABLE\r\n");
        reveal_strlit("ENDSOURCETABLE");
        reveal_strlit("\r\n");
    }
    let end = crlf("ENDSOURCETABLE"@);
    let a = crlf(record);
    let b = crlf(record_line(c));
    assert(a + end == b + end);
    assert((a + end).len() == a.len() + end.len() && (b + end).len() == b.len() + end.len());
    assert((a + end).take(a.len() as int) =~= a);
    assert((b + end).take(b.len() as int) =~= b);
    assert(a.take(record.len() as int) =~= record);
    assert(b.take(record_line(c).len() as int) =~= record_line(c));
}

/// A source table has one record, which advertises the mountpoint and the
/// station's name, and ends with the end mark.
pub proof fn law_table_has_one_record(caster: &CasterConfig)
    requires
        is_plain_config(caster),
    ensures
        ({
            let lines = lines_of(sourcetable_of(caster));
            &&& lines.len() == 2
            &&& has_prefix(
                lines[0],
                "STR;"@ + caster.mountpoint@ + ";"@ + caster.identifier@ + ";"@,
            )
            &&& lines[1] == crlf("ENDSOURCETABLE"@)
            &&& sourcetable_of(caster) == lines[0] + lines[1]
        }),
{
    let c = caster;
    let record = record_line(c);
    let end = "ENDSOURCETABLE"@;
    let none = Seq::<char>::empty();
    lemma_record_line(c);
    assert("ENDSOURCETABLE\r\n"@ =~= crlf(end) + none) by {
        reveal_strlit("ENDSOURCETABLE\r\n");
        reveal_strlit("ENDSOURCETABLE");
        reveal_strlit("\r\n");
    }
    assert(is_single_line(end)) by {
        reveal_strlit("ENDSOURCETABLE");
    }
    lemma_crlf_line(record, crlf(end) + none);
    lemma_crlf_line(end, none);
    assert(lines_of(none) =~= Seq::<Seq<char>>::empty());
    assert(lines_of(sourcetable_of(c)) =~= seq![crlf(record), crlf(end)]);
    let start = "STR;"@ + c.mountpoint@ + ";"@ + c.identifier@ + ";"@;
    assert(crlf(record).take(start.len() as int) =~= start) by {
        reveal_strlit(";");
        reveal_strlit(
            ";RTCM 3.3;1005(1),1074(1),1084(1),1094(1),1124(1),1230(10);2;GPS+GLO+GAL+BDS;FM-NTRIP;",
        );
    }
    assert(crlf(end) + none =~= crlf(end));
}

/// A rover prints a source table whole.
proof fn lemma_table_printed(c: &CasterConfig)
    requires
        is_plain_config(c),
    ensures
        printed_table(true, lines_of(sourcetable_of(c))) == sourcetable_of(c),
{
    law_table_has_one_record(c);
    lemma_record_line(c);
    reveal_strlit("ENDSOURCETABLE");
    let l = lines_of(sourcetable_of(c));
    let end = "ENDSOURCETABLE"@;
    assert(l[1].take(14) =~= end);
    if l[0].len() >= 14 {
        assert(l[0].take(14)[0] == l[0][0]);
        assert(l[0][0] == 'S');
    }
    assert(l.skip(1) =~= seq![l[1]]);
    assert(printed_table(true, l.skip(1)) == l[1]);
}

/// What a caster sends as its source table is what a rover prints: of the answer,
/// behind the status line, exactly the table.
pub proof fn law_table_is_read_back(caster: &CasterConfig)
    requires
        is_plain_config(caster),
    ensures
        printed_table(false, lines_of(reply_text_of(caster, Reply::SourceTable)).skip(1))
            == sourcetable_of(caster),
{
    let c = caster;
    let none = Seq::<char>::empty();
    let body = sourcetable_of(c);
    let n = decimal(encode_utf8(body).len());
    let b1 = "Server: fm-ntrip/"@ + c.version@;
    let b2 = "Content-Type: text/plain"@;
    let b3 = "Content-Length: "@ + n;
    let b4 = "Connection: close"@;
    let r5 = crlf(none) + body;
    let r4 = crlf(b4) + r5;
    let r3 = crlf(b3) + r4;
    let r2 = crlf(b2) + r3;
    lemma_table_answer(c);
    reveal_strlit("Server: fm-ntrip/");
    reveal_strlit("Content-Type: text/plain");
    reveal_strlit("Content-Length: ");
    reveal_strlit("Connection: close");
    lemma_decimal_single_line(encode_utf8(body).len());
    lemma_single_line_add("Server: fm-ntrip/"@, c.version@);
    lemma_single_line_add("Content-Length: "@, n);
    lemma_header_skipped(b1, r2);
    lemma_header_skipped(b2, r3);
    lemma_header_skipped(b3, r4);
    lemma_header_skipped(b4, r5);
    lemma_crlf_line(none, body);
    let l = lines_of(r5);
    assert(l[0] == crlf(none));
    assert(l.skip(1) =~= lines_of(body));
    assert(printed_table(false, l) == printed_table(true, lines_of(body)));
    lemma_table_printed(c);
}

} // verus!
