//! What holds of requests and answers, whoever sends them: how a request is read, which
//! answer it gets, and what a rover makes of any answer.
use crate::caster::{
    head_after, head_goes_on, line_of, pump_action, pump_bytes, reply_of, reply_text_of,
    requested_path, sourcetable_of, CasterConfig, HeadView, PumpAction, PumpEvent, Reply,
};
use crate::credentials::{base64_text, credential_of, credential_plain, lemma_base64_text};
use crate::handshake::{
    is_plain_config, law_table_has_one_record, lemma_request_lines, lemma_table_answer, lower,
};
use crate::rover::{
    in_body_after, printed_table, rover_path, rover_request_of, status_of, table_step, RoverConfig,
    Status, TableStep,
};
use crate::text::{
    all_of, crlf, decimal, has_prefix, has_text, is_single_line, is_space, lemma_crlf_line,
    lemma_decimal_single_line, lemma_first_word, lemma_leading_is, lemma_single_line_add,
    lemma_trailing, lines_of, trailing, trim_end, trim_start, words, Class,
};
use crate::writing::{law_line_end_is_cut, run_together};
use vstd::prelude::*;
use vstd::utf8::encode_utf8;

verus! {

/// Whether every character of `s` ends a line.
pub open spec fn is_line_end(s: Seq<char>) -> bool {
    forall|i: int| 0 <= i < s.len() ==> #[trigger] s[i] == '\r' || s[i] == '\n'
}

/// The first line of a request is its request line, whatever ends it and however it
/// reads, and the head goes on behind it.
pub proof fn law_first_line_is_the_request_line(head: HeadView, line: Seq<char>, end: Seq<char>)
    requires
        head.request_line is None,
        is_line_end(end),
        line.len() > 0 ==> line.last() != '\r' && line.last() != '\n',
    ensures
        head_after(head, line + end) == (HeadView { request_line: Some(line), ..head }),
        head_goes_on(head, line + end),
{
    law_line_end_is_cut(line, end);
}

/// Behind the request line, nothing but a credential or the name of the client changes
/// what was read.
pub proof fn law_other_lines_change_nothing(head: HeadView, line: Seq<char>, end: Seq<char>)
    requires
        head.request_line is Some,
        is_line_end(end),
        line.len() > 0 ==> line.last() != '\r' && line.last() != '\n',
        !has_prefix(lower(line), "authorization: basic "@),
        !has_prefix(lower(line), "user-agent:"@),
    ensures
        head_after(head, line + end) == head,
{
    law_line_end_is_cut(line, end);
}

/// Behind the request line, the head ends at the first line that holds nothing but a line
/// end.
pub proof fn law_head_ends_at_a_blank_line(head: HeadView, raw: Seq<char>)
    requires
        head.request_line is Some,
    ensures
        head_goes_on(head, raw) <==> !is_line_end(raw),
{
    lemma_trailing(raw, Class::Eol);
    let n = trailing(raw, Class::Eol);
    if is_line_end(raw) {
        if n < raw.len() {
            assert(!Class::Eol.holds(raw[raw.len() - n - 1]));
        }
    } else {
        let i = choose|i: int| 0 <= i < raw.len() && !(raw[i] == '\r' || raw[i] == '\n');
        if n >= raw.len() {
            assert(Class::Eol.holds(raw[i]));
        }
    }
}

/// A request line asks for what its second word names, without the slashes at its start,
/// wherever white space stands and whatever follows.
pub proof fn law_requested_path(
    before: Seq<char>,
    between: Seq<char>,
    slashes: Seq<char>,
    path: Seq<char>,
    after: Seq<char>,
)
    requires
        all_of(before, Class::Space),
        all_of(between, Class::Space),
        between.len() > 0,
        forall|i: int| 0 <= i < slashes.len() ==> #[trigger] slashes[i] == '/',
        all_of(path, Class::Word),
        path.len() > 0 ==> path[0] != '/',
        slashes.len() + path.len() > 0,
        after.len() > 0 ==> is_space(after[0]),
    ensures
        requested_path(before + "GET"@ + between + slashes + path + after) == Some(path),
{
    reveal_strlit("GET");
    let target = slashes + path;
    let rest = between + target + after;
    let line = before + "GET"@ + between + slashes + path + after;
    assert(line =~= before + "GET"@ + rest);
    assert(rest[0] == between[0]);
    assert(Class::Space.holds(between[0]));
    lemma_first_word(before, "GET"@, rest);
    assert forall|i: int| 0 <= i < target.len() implies Class::Word.holds(#[trigger] target[i]) by {
        if i >= slashes.len() {
            assert(target[i] == path[i - slashes.len()]);
        } else {
            assert(target[i] == slashes[i]);
        }
    }
    lemma_first_word(between, target, after);
    assert forall|i: int| 0 <= i < slashes.len() implies Class::Slash.holds(#[trigger] target[i]) by {
        assert(target[i] == slashes[i]);
    }
    if path.len() > 0 {
        assert(target[slashes.len() as int] == path[0]);
    }
    lemma_leading_is(target, Class::Slash, slashes.len());
    assert(trim_start(target, Class::Slash) =~= path);
}

/// A request line is malformed exactly where it has fewer than two words, or its first is
/// not `GET`.
pub proof fn law_malformed_request(line: Seq<char>)
    ensures
        requested_path(line) is None <==> words(line).len() < 2 || words(line)[0] != "GET"@,
{
}

/// Which answer a request gets: a malformed one is bad, the empty path asks for the source
/// table, any other path but the mountpoint is not found, and the mountpoint is streamed
/// exactly to the caster's credential.
pub proof fn law_answers(c: &CasterConfig, head: HeadView)
    ensures
        ({
            let path = requested_path(line_of(head));
            let none = Seq::<char>::empty();
            let right = head.auth == Some(credential_of(c.username@, c.password@));
            let asked = path == Some(c.mountpoint@) && path != Some(none);
            &&& reply_of(c, head) == Reply::BadRequest <==> path is None
            &&& reply_of(c, head) == Reply::SourceTable <==> path == Some(none)
            &&& reply_of(c, head) == Reply::NotFound <==> path is Some && path != Some(none) && path
                != Some(c.mountpoint@)
            &&& reply_of(c, head) == Reply::Unauthorized <==> asked && !right
            &&& reply_of(c, head) == Reply::Stream <==> asked && right
        }),
{
    let path = requested_path(line_of(head));
    if path is Some && path->Some_0.len() == 0 {
        assert(path->Some_0 =~= Seq::<char>::empty());
    }
}

/// A username and a password are joined by a colon, the username first.
pub proof fn law_credential_plain(username: Seq<char>, password: Seq<char>)
    ensures
        ({
            let s = credential_plain(username, password);
            let n = username.len() as int;
            &&& s.len() == n + 1 + password.len()
            &&& s.take(n) == username
            &&& s[n] == ':'
            &&& s.skip(n + 1) == password
        }),
        credential_of(username, password) == base64_text(
            encode_utf8(username + ":"@ + password),
        ),
{
    reveal_strlit(":");
    let s = credential_plain(username, password);
    assert(s.take(username.len() as int) =~= username);
    assert(s.skip(username.len() as int + 1) =~= password);
}

/// Refusals and the start of a stream are the same for every caster.
pub proof fn law_short_answers_are_fixed(c: &CasterConfig, d: &CasterConfig, reply: Reply)
    requires
        reply != Reply::SourceTable,
    ensures
        reply_text_of(c, reply) == reply_text_of(d, reply),
        reply_text_of(c, Reply::Stream) == "ICY 200 OK\r\n"@,
        reply_text_of(c, Reply::BadRequest)
            == "HTTP/1.0 400 Bad Request\r\nConnection: close\r\n\r\n"@,
        reply_text_of(c, Reply::NotFound) == "HTTP/1.0 404 Not Found\r\nConnection: close\r\n\r\n"@,
        reply_text_of(c, Reply::Unauthorized)
            == "HTTP/1.0 401 Unauthorized\r\nWWW-Authenticate: Basic realm=\"NTRIP\"\r\nConnection: close\r\n\r\n"@,
{
}

/// The lines of the answer that carries the source table: the status line, the headers,
/// among them the length of the table in bytes, a blank line, and the table.
pub proof fn law_table_answer_lines(c: &CasterConfig)
    requires
        is_plain_config(c),
    ensures
        ({
            let lines = lines_of(reply_text_of(c, Reply::SourceTable));
            &&& lines.len() == 8
            &&& lines[0] == crlf("SOURCETABLE 200 OK"@)
            &&& lines[1] == crlf("Server: fm-ntrip/"@ + c.version@)
            &&& lines[2] == crlf("Content-Type: text/plain"@)
            &&& lines[3] == crlf(
                "Content-Length: "@ + decimal(encode_utf8(lines[6] + lines[7]).len()),
            )
            &&& lines[4] == crlf("Connection: close"@)
            &&& lines[5] == "\r\n"@
            &&& lines[6] + lines[7] == sourcetable_of(c)
        }),
{
    let none = Seq::<char>::empty();
    let body = sourcetable_of(c);
    let n = decimal(encode_utf8(body).len());
    let b1 = "Server: fm-ntrip/"@ + c.version@;
    let b2 = "Content-Type: text/plain"@;
    let b3 = "Content-Length: "@ + n;
    let b4 = "Connection: close"@;
    let r5 = crlf(none) + body;
    let r4 = crlf(b4) + r5;
    let r3 = crlf(b3) + r4;
    let r2 = crlf(b2) + r3;
    let r1 = crlf(b1) + r2;
    lemma_table_answer(c);
    reveal_strlit("Server: fm-ntrip/");
    reveal_strlit("Content-Type: text/plain");
    reveal_strlit("Content-Length: ");
    reveal_strlit("Connection: close");
    lemma_decimal_single_line(encode_utf8(body).len());
    lemma_single_line_add("Server: fm-ntrip/"@, c.version@);
    lemma_single_line_add("Content-Length: "@, n);
    lemma_crlf_line(b1, r2);
    lemma_crlf_line(b2, r3);
    lemma_crlf_line(b3, r4);
    lemma_crlf_line(b4, r5);
    lemma_crlf_line(none, body);
    law_table_has_one_record(c);
    let l = lines_of(body);
    let lines = lines_of(reply_text_of(c, Reply::SourceTable));
    assert(lines.skip(1) == lines_of(r1));
    assert(lines_of(r1) =~= seq![crlf(b1), crlf(b2), crlf(b3), crlf(b4), crlf(none), l[0], l[1]]);
    assert(lines.len() == 8);
    assert(lines.skip(1)[0] == lines[1] && lines.skip(1)[1] == lines[2] && lines.skip(1)[2]
        == lines[3] && lines.skip(1)[3] == lines[4] && lines.skip(1)[4] == lines[5] && lines.skip(
        1,
    )[5] == lines[6] && lines.skip(1)[6] == lines[7]);
    assert(crlf(none) =~= "\r\n"@);
}

/// The lines of a rover's request: what it asks for, who it is, its credential, the
/// protocol version, and a blank line.
pub proof fn law_request_lines(r: &RoverConfig)
    requires
        r.sourcetable || all_of(r.mountpoint@, Class::Word),
        is_single_line(r.version@),
    ensures
        lines_of(rover_request_of(r)) == seq![
            crlf(
                if r.sourcetable {
                    "GET / HTTP/1.0"@
                } else {
                    "GET /"@ + r.mountpoint@ + " HTTP/1.0"@
                },
            ),
            crlf("User-Agent: NTRIP fm-ntrip-client/"@ + r.version@),
            crlf("Authorization: Basic "@ + credential_of(r.username@, r.password@)),
            crlf("Ntrip-Version: Ntrip/1.0"@),
            "\r\n"@,
        ],
{
    let path = rover_path(r.sourcetable, r.mountpoint@);
    lemma_base64_text(encode_utf8(credential_plain(r.username@, r.password@)));
    lemma_request_lines(path, credential_of(r.username@, r.password@), r.version@);
    assert(crlf(Seq::empty()) =~= "\r\n"@);
    if r.sourcetable {
        reveal_strlit("GET / HTTP/1.0");
        reveal_strlit("GET /");
        reveal_strlit(" HTTP/1.0");
        assert("GET /"@ + path + " HTTP/1.0"@ =~= "GET / HTTP/1.0"@);
    }
}

/// A rover's request is five lines, whatever the rover is set up with.
pub proof fn law_request_text(r: &RoverConfig)
    ensures
        rover_request_of(r) == run_together(
            seq![
                "GET /"@ + (if r.sourcetable {
                    Seq::empty()
                } else {
                    r.mountpoint@
                }) + " HTTP/1.0\r\n"@,
                "User-Agent: NTRIP fm-ntrip-client/"@ + r.version@ + "\r\n"@,
                "Authorization: Basic "@ + credential_of(r.username@, r.password@) + "\r\n"@,
                "Ntrip-Version: Ntrip/1.0\r\n"@,
                "\r\n"@,
            ],
        ),
{
    let path = if r.sourcetable {
        Seq::empty()
    } else {
        r.mountpoint@
    };
    let l0 = "GET /"@ + path + " HTTP/1.0\r\n"@;
    let l1 = "User-Agent: NTRIP fm-ntrip-client/"@ + r.version@ + "\r\n"@;
    let l2 = "Authorization: Basic "@ + credential_of(r.username@, r.password@) + "\r\n"@;
    let l3 = "Ntrip-Version: Ntrip/1.0\r\n"@;
    let l4 = "\r\n"@;
    assert(l0 =~= crlf("GET /"@ + path + " HTTP/1.0"@) && l3 =~= crlf("Ntrip-Version: Ntrip/1.0"@))
        by {
        reveal_strlit(" HTTP/1.0\r\n");
        reveal_strlit(" HTTP/1.0");
        reveal_strlit("Ntrip-Version: Ntrip/1.0\r\n");
        reveal_strlit("Ntrip-Version: Ntrip/1.0");
        reveal_strlit("\r\n");
    }
    assert(crlf(Seq::empty()) =~= l4);
    lemma_run_of_five(l0, l1, l2, l3, l4);
    assert(rover_request_of(r) =~= l0 + l1 + l2 + l3 + l4);
}

proof fn lemma_run_of_five(
    a: Seq<char>,
    b: Seq<char>,
    c: Seq<char>,
    d: Seq<char>,
    e: Seq<char>,
)
    ensures
        run_together(seq![a, b, c, d, e]) == a + b + c + d + e,
{
    let s = seq![a, b, c, d, e];
    let s1 = seq![b, c, d, e];
    let s2 = seq![c, d, e];
    let s3 = seq![d, e];
    let s4 = seq![e];
    let none = Seq::<Seq<char>>::empty();
    assert(s.skip(1) =~= s1 && s1.skip(1) =~= s2 && s2.skip(1) =~= s3 && s3.skip(1) =~= s4
        && s4.skip(1) =~= none);
    assert(run_together(none) =~= Seq::<char>::empty());
    assert(run_together(s4) =~= e);
    assert(run_together(s3) =~= d + e);
    assert(run_together(s2) =~= c + d + e);
    assert(run_together(s1) =~= b + c + d + e);
    assert(run_together(s) =~= a + b + c + d + e);
}

/// The answer that carries the source table is its header lines and, behind a blank line,
/// the table, whatever the caster is set up with.
pub proof fn law_table_answer_text(c: &CasterConfig)
    ensures
        reply_text_of(c, Reply::SourceTable) == run_together(
            seq![
                "SOURCETABLE 200 OK\r\n"@,
                "Server: fm-ntrip/"@ + c.version@ + "\r\n"@,
                "Content-Type: text/plain\r\n"@,
                "Content-Length: "@ + decimal(encode_utf8(sourcetable_of(c)).len()) + "\r\n"@,
                "Connection: close\r\n\r\n"@,
            ],
        ) + sourcetable_of(c),
{
    let l0 = "SOURCETABLE 200 OK\r\n"@;
    let l1 = "Server: fm-ntrip/"@ + c.version@ + "\r\n"@;
    let l2 = "Content-Type: text/plain\r\n"@;
    let l3 = "Content-Length: "@ + decimal(encode_utf8(sourcetable_of(c)).len()) + "\r\n"@;
    let l4 = "Connection: close\r\n\r\n"@;
    assert(l0 =~= crlf("SOURCETABLE 200 OK"@)) by {
        reveal_strlit("SOURCETABLE 200 OK\r\n");
        reveal_strlit("SOURCETABLE 200 OK");
        reveal_strlit("\r\n");
    }
    assert(l2 =~= crlf("Content-Type: text/plain"@)) by {
        reveal_strlit("Content-Type: text/plain\r\n");
        reveal_strlit("Content-Type: text/plain");
        reveal_strlit("\r\n");
    }
    assert(l4 =~= crlf("Connection: close"@) + crlf(Seq::empty())) by {
        reveal_strlit("Connection: close\r\n\r\n");
        reveal_strlit("Connection: close");
        reveal_strlit("\r\n");
    }
    lemma_run_of_five(l0, l1, l2, l3, l4);
    assert(reply_text_of(c, Reply::SourceTable) =~= l0 + l1 + l2 + l3 + l4 + sourcetable_of(c));
}

/// What a status line means to a rover, whatever ends it: a rover that asked for the
/// source table takes anything for it; else a source table announces itself, a stream is
/// announced by `ICY 200` or by a status of 200, a refusal is any other HTTP status or a
/// line that names 401 or 404, and the rest is unexpected.
pub proof fn law_status_lines(line: Seq<char>, end: Seq<char>)
    requires
        is_line_end(end),
        line.len() > 0 ==> line.last() != '\r' && line.last() != '\n',
    ensures
        status_of(true, line + end) == Status::SourceTable,
        ({
            let s = status_of(false, line + end);
            let table = has_prefix(line, "SOURCETABLE"@);
            let stream = has_prefix(line, "ICY 200"@) || has_text(line, " 200 "@);
            let refusal = has_prefix(line, "HTTP"@) || has_text(line, "401"@) || has_text(
                line,
                "404"@,
            );
            &&& s == Status::SourceTable <==> table
            &&& s == Status::Streaming <==> !table && stream
            &&& s == Status::Refused <==> !table && !stream && refusal
            &&& s == Status::Unexpected <==> !table && !stream && !refusal
        }),
{
    law_line_end_is_cut(line, end);
}

/// Of the answer that carries a source table a rover prints what follows the first blank
/// line, up to the line that starts with the end mark and with it; nothing of the headers,
/// and nothing behind the mark.
pub proof fn law_printed_table(
    headers: Seq<Seq<char>>,
    blank: Seq<char>,
    table: Seq<Seq<char>>,
    end: Seq<char>,
    rest: Seq<Seq<char>>,
)
    requires
        forall|i: int| 0 <= i < headers.len() ==> !is_line_end(#[trigger] headers[i]),
        is_line_end(blank),
        blank.len() > 0,
        forall|i: int|
            0 <= i < table.len() ==> (#[trigger] table[i]).len() > 0 && !has_prefix(
                table[i],
                "ENDSOURCETABLE"@,
            ),
        has_prefix(end, "ENDSOURCETABLE"@),
    ensures
        printed_table(false, headers + seq![blank] + table + seq![end] + rest) == run_together(
            table,
        ) + end,
        printed_table(false, headers + seq![blank] + table) == run_together(table),
        printed_table(false, headers) == Seq::<char>::empty(),
    decreases headers.len(),
{
    let all = headers + seq![blank] + table + seq![end] + rest;
    let cut = headers + seq![blank] + table;
    if headers.len() == 0 {
        assert(all[0] == blank && cut[0] == blank);
        lemma_blank(blank);
        assert(all.skip(1) =~= table + seq![end] + rest);
        assert(cut.skip(1) =~= table);
        lemma_body_printed(table, end, rest);
        lemma_rest_printed(table);
    } else {
        let first = headers[0];
        let more = headers.skip(1);
        assert forall|i: int| 0 <= i < more.len() implies !is_line_end(#[trigger] more[i]) by {
            assert(more[i] == headers[i + 1]);
        }
        assert(!is_line_end(headers[0]));
        lemma_blank(first);
        assert(first.len() > 0);
        law_printed_table(more, blank, table, end, rest);
        assert(all[0] == first && cut[0] == first);
        assert(all.skip(1) =~= more + seq![blank] + table + seq![end] + rest);
        assert(cut.skip(1) =~= more + seq![blank] + table);
        assert(headers.skip(1) =~= more);
    }
}

proof fn lemma_blank(raw: Seq<char>)
    ensures
        trim_end(raw, Class::Eol).len() == 0 <==> is_line_end(raw),
{
    let head = HeadView { request_line: Some(Seq::empty()), auth: None, user_agent: None };
    law_head_ends_at_a_blank_line(head, raw);
}

proof fn lemma_body_printed(table: Seq<Seq<char>>, end: Seq<char>, rest: Seq<Seq<char>>)
    requires
        forall|i: int|
            0 <= i < table.len() ==> (#[trigger] table[i]).len() > 0 && !has_prefix(
                table[i],
                "ENDSOURCETABLE"@,
            ),
        has_prefix(end, "ENDSOURCETABLE"@),
    ensures
        printed_table(true, table + seq![end] + rest) == run_together(table) + end,
    decreases table.len(),
{
    reveal_strlit("ENDSOURCETABLE");
    let all = table + seq![end] + rest;
    if table.len() == 0 {
        assert(all[0] == end);
        assert(Seq::<char>::empty() + end =~= end);
    } else {
        let more = table.skip(1);
        assert forall|i: int| 0 <= i < more.len() implies (#[trigger] more[i]).len() > 0
            && !has_prefix(more[i], "ENDSOURCETABLE"@) by {
            assert(more[i] == table[i + 1]);
        }
        assert(table[0].len() > 0);
        lemma_body_printed(more, end, rest);
        assert(all[0] == table[0]);
        assert(all.skip(1) =~= more + seq![end] + rest);
        assert(table[0] + (run_together(more) + end) =~= table[0] + run_together(more) + end);
    }
}

proof fn lemma_rest_printed(table: Seq<Seq<char>>)
    requires
        forall|i: int|
            0 <= i < table.len() ==> (#[trigger] table[i]).len() > 0 && !has_prefix(
                table[i],
                "ENDSOURCETABLE"@,
            ),
    ensures
        printed_table(true, table) == run_together(table),
    decreases table.len(),
{
    if table.len() > 0 {
        let more = table.skip(1);
        assert forall|i: int| 0 <= i < more.len() implies (#[trigger] more[i]).len() > 0
            && !has_prefix(more[i], "ENDSOURCETABLE"@) by {
            assert(more[i] == table[i + 1]);
        }
        assert(table[0].len() > 0);
        lemma_rest_printed(more);
    }
}

/// A line of a table is printed exactly where the headers are over; reading stops at the
/// end of the input and behind the end mark.
pub proof fn law_table_steps(in_body: bool, raw: Seq<char>)
    ensures
        table_step(in_body, raw) == TableStep::Stop <==> raw.len() == 0,
        table_step(in_body, raw) == TableStep::Skip <==> raw.len() > 0 && !in_body,
        table_step(in_body, raw) == TableStep::PrintLast <==> raw.len() > 0 && in_body
            && has_prefix(raw, "ENDSOURCETABLE"@),
        in_body_after(in_body, raw) <==> in_body || (raw.len() > 0 && is_line_end(raw)),
{
    lemma_blank(raw);
}

/// A rover is written what it received and waits for more; it is dropped exactly where it
/// falls behind, cannot be written to, or the source is gone; and what counts as sent is
/// what was written.
pub proof fn law_pump(event: PumpEvent)
    ensures
        pump_action(event) == PumpAction::Write <==> event == PumpEvent::Received,
        pump_action(event) == PumpAction::Receive <==> (event matches PumpEvent::Written { .. }),
        pump_action(event) == PumpAction::Disconnect <==> event == PumpEvent::Lagged || event
            == PumpEvent::WriteFailed || event == PumpEvent::Closed,
        pump_bytes(event) > 0 ==> (event matches PumpEvent::Written { len } && len == pump_bytes(
            event,
        )),
        event matches PumpEvent::Written { len } ==> len == pump_bytes(event),
{
}

} // verus!
