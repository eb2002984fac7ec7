//! What holds of the source table: which field of its record says what.
use crate::caster::{sourcetable_of, CasterConfig};
use crate::handshake::{is_plain_config, law_table_has_one_record, lemma_record_is_single_line};
use crate::text::{crlf, is_single_line, lemma_crlf_line, lines_of, trim_end, Class};
use vstd::prelude::*;

verus! {

/// How many characters of `s` stand before its first semicolon.
pub open spec fn until_semicolon(s: Seq<char>) -> nat
    decreases s.len(),
{
    if s.len() == 0 || s[0] == ';' {
        0
    } else {
        1 + until_semicolon(s.skip(1))
    }
}

/// `s`, cut at each semicolon.
pub open spec fn fields_of(s: Seq<char>) -> Seq<Seq<char>>
    decreases s.len(),
{
    let n = until_semicolon(s) as int;
    if n >= s.len() {
        seq![s]
    } else {
        seq![s.take(n)] + fields_of(s.skip(n + 1))
    }
}

/// Text without a semicolon is counted whole, up to the semicolon behind it.
proof fn lemma_until(a: Seq<char>, rest: Seq<char>)
    requires
        !a.contains(';'),
    ensures
        until_semicolon(a) == a.len(),
        until_semicolon(a + seq![';'] + rest) == a.len(),
    decreases a.len(),
{
    let s = a + seq![';'] + rest;
    if a.len() > 0 {
        assert(a[0] != ';') by {
            assert(a.contains(a[0]));
        }
        let b = a.skip(1);
        assert(!b.contains(';')) by {
            if b.contains(';') {
                let i = choose|i: int| 0 <= i < b.len() && b[i] == ';';
                assert(a[i + 1] == ';');
            }
        }
        lemma_until(b, rest);
        assert(s.skip(1) =~= b + seq![';'] + rest);
    }
}

/// Text without a semicolon is one field.
proof fn lemma_one_field(a: Seq<char>)
    requires
        !a.contains(';'),
    ensures
        fields_of(a) == seq![a],
{
    lemma_until(a, Seq::empty());
}

/// Where two texts are joined by a semicolon, the fields of the second follow those of
/// the first.
proof fn lemma_joined_fields(a: Seq<char>, b: Seq<char>)
    ensures
        fields_of(a + seq![';'] + b) == fields_of(a) + fields_of(b),
    decreases a.len(),
{
    let s = a + seq![';'] + b;
    lemma_first_semicolon(a);
    let n = until_semicolon(a) as int;
    if n >= a.len() {
        lemma_until(a, b);
        assert(s.take(n) =~= a);
        assert(s.skip(n + 1) =~= b);
    } else {
        let first = a.take(n);
        let rest = a.skip(n + 1);
        assert(a =~= first + seq![';'] + rest);
        assert(s =~= first + seq![';'] + (rest + seq![';'] + b));
        lemma_until(first, rest + seq![';'] + b);
        lemma_joined_fields(rest, b);
        assert(s.take(n) =~= first);
        assert(s.skip(n + 1) =~= rest + seq![';'] + b);
        assert(fields_of(s) =~= fields_of(a) + fields_of(b));
    }
}

proof fn lemma_first_semicolon(a: Seq<char>)
    ensures
        until_semicolon(a) <= a.len(),
        !a.take(until_semicolon(a) as int).contains(';'),
        until_semicolon(a) < a.len() ==> a[until_semicolon(a) as int] == ';',
        until_semicolon(a) >= a.len() ==> !a.contains(';'),
    decreases a.len(),
{
    if a.len() > 0 && a[0] != ';' {
        let b = a.skip(1);
        lemma_first_semicolon(b);
        let n = until_semicolon(a) as int;
        let t = a.take(n);
        assert(!t.contains(';')) by {
            if t.contains(';') {
                let i = choose|i: int| 0 <= i < t.len() && t[i] == ';';
                assert(b.take(n - 1)[i - 1] == ';');
            }
        }
        if n >= a.len() {
            assert(t =~= a);
        }
    }
}

/// The fields between the station's name and its country.
proof fn lemma_format_fields()
    ensures
        fields_of(
            "RTCM 3.3;1005(1),1074(1),1084(1),1094(1),1124(1),1230(10);2;GPS+GLO+GAL+BDS;FM-NTRIP"@,
        ) == seq![
            "RTCM 3.3"@,
            "1005(1),1074(1),1084(1),1094(1),1124(1),1230(10)"@,
            "2"@,
            "GPS+GLO+GAL+BDS"@,
            "FM-NTRIP"@,
        ],
{
    reveal_strlit(
        "RTCM 3.3;1005(1),1074(1),1084(1),1094(1),1124(1),1230(10);2;GPS+GLO+GAL+BDS;FM-NTRIP",
    );
    reveal_strlit("RTCM 3.3");
    reveal_strlit("1005(1),1074(1),1084(1),1094(1),1124(1),1230(10)");
    reveal_strlit("2");
    reveal_strlit("GPS+GLO+GAL+BDS");
    reveal_strlit("FM-NTRIP");
    let a = "RTCM 3.3"@;
    let b = "1005(1),1074(1),1084(1),1094(1),1124(1),1230(10)"@;
    let c = "2"@;
    let d = "GPS+GLO+GAL+BDS"@;
    let e = "FM-NTRIP"@;
    let s = seq![';'];
    let t3 = d + s + e;
    let t2 = c + s + t3;
    let t1 = b + s + t2;
    assert(
    "RTCM 3.3;1005(1),1074(1),1084(1),1094(1),1124(1),1230(10);2;GPS+GLO+GAL+BDS;FM-NTRIP"@
        =~= a + s + t1);
    lemma_one_field(a);
    lemma_one_field(b);
    lemma_one_field(c);
    lemma_one_field(d);
    lemma_one_field(e);
    lemma_joined_fields(a, t1);
    lemma_joined_fields(b, t2);
    lemma_joined_fields(c, t3);
    lemma_joined_fields(d, e);
    assert(fields_of(a + s + t1) =~= seq![a, b, c, d, e]);
}

/// The fields behind the station's place.
proof fn lemma_equipment_fields()
    ensures
        fields_of("0;0;u-blox ZED-F9P;none;B;N;0;"@) == seq![
            "0"@,
            "0"@,
            "u-blox ZED-F9P"@,
            "none"@,
            "B"@,
            "N"@,
            "0"@,
            Seq::<char>::empty(),
        ],
{
    reveal_strlit("0;0;u-blox ZED-F9P;none;B;N;0;");
    reveal_strlit("0");
    reveal_strlit("u-blox ZED-F9P");
    reveal_strlit("none");
    reveal_strlit("B");
    reveal_strlit("N");
    let z = "0"@;
    let u = "u-blox ZED-F9P"@;
    let o = "none"@;
    let b = "B"@;
    let n = "N"@;
    let e = Seq::<char>::empty();
    let s = seq![';'];
    let t6 = z + s + e;
    let t5 = n + s + t6;
    let t4 = b + s + t5;
    let t3 = o + s + t4;
    let t2 = u + s + t3;
    let t1 = z + s + t2;
    assert("0;0;u-blox ZED-F9P;none;B;N;0;"@ =~= z + s + t1);
    lemma_one_field(z);
    lemma_one_field(u);
    lemma_one_field(o);
    lemma_one_field(b);
    lemma_one_field(n);
    lemma_one_field(e);
    lemma_joined_fields(z, t1);
    lemma_joined_fields(z, t2);
    lemma_joined_fields(u, t3);
    lemma_joined_fields(o, t4);
    lemma_joined_fields(b, t5);
    lemma_joined_fields(n, t6);
    lemma_joined_fields(z, e);
    assert(fields_of(z + s + t1) =~= seq![z, z, u, o, b, n, z, e]);
}

/// Whether no text of a caster's set-up that goes into its record holds a semicolon.
pub open spec fn has_no_semicolon(c: &CasterConfig) -> bool {
    &&& !c.mountpoint@.contains(';')
    &&& !c.identifier@.contains(';')
    &&& !c.country@.contains(';')
    &&& !c.lat@.contains(';')
    &&& !c.lon@.contains(';')
}

/// A record as its parts, with a semicolon between each two.
pub open spec fn record_of(c: &CasterConfig) -> Seq<char> {
    let s = seq![';'];
    "STR"@ + s + (c.mountpoint@ + s + (c.identifier@ + s + (
    "RTCM 3.3;1005(1),1074(1),1084(1),1094(1),1124(1),1230(10);2;GPS+GLO+GAL+BDS;FM-NTRIP"@ + s + (
    c.country@ + s + (c.lat@ + s + (c.lon@ + s + "0;0;u-blox ZED-F9P;none;B;N;0;"@))))))
}

/// A source table is the record, made of its parts in their order with a semicolon between
/// each two, and the end mark, whatever the caster is set up with.
pub proof fn law_table_is_made_of_its_parts(c: &CasterConfig)
    ensures
        sourcetable_of(c) == crlf(record_of(c)) + crlf("ENDSOURCETABLE"@),
{
    let s = seq![';'];
    let f = "RTCM 3.3;1005(1),1074(1),1084(1),1094(1),1124(1),1230(10);2;GPS+GLO+GAL+BDS;FM-NTRIP"@;
    let q = "0;0;u-blox ZED-F9P;none;B;N;0;"@;
    lemma_record_literals();
    let all = sourcetable_of(c);
    assert(all =~= "STR"@ + s + c.mountpoint@ + s + c.identifier@ + (s + f + s) + c.country@ + s
        + c.lat@ + s + c.lon@ + (s + q + "\r\n"@) + crlf("ENDSOURCETABLE"@));
    assert(all =~= crlf(record_of(c)) + crlf("ENDSOURCETABLE"@));
}

proof fn lemma_record_literals()
    ensures
        "STR;"@ == "STR"@ + seq![';'],
        ";"@ == seq![';'],
        ";RTCM 3.3;1005(1),1074(1),1084(1),1094(1),1124(1),1230(10);2;GPS+GLO+GAL+BDS;FM-NTRIP;"@
            == seq![';']
            + "RTCM 3.3;1005(1),1074(1),1084(1),1094(1),1124(1),1230(10);2;GPS+GLO+GAL+BDS;FM-NTRIP"@
            + seq![';'],
        ";0;0;u-blox ZED-F9P;none;B;N;0;\r\n"@ == seq![';'] + "0;0;u-blox ZED-F9P;none;B;N;0;"@
            + "\r\n"@,
        "ENDSOURCETABLE\r\n"@ == crlf("ENDSOURCETABLE"@),
{
    reveal_strlit("STR;");
    reveal_strlit("STR");
    reveal_strlit(";");
    reveal_strlit(
        ";RTCM 3.3;1005(1),1074(1),1084(1),1094(1),1124(1),1230(10);2;GPS+GLO+GAL+BDS;FM-NTRIP;",
    );
    reveal_strlit(
        "RTCM 3.3;1005(1),1074(1),1084(1),1094(1),1124(1),1230(10);2;GPS+GLO+GAL+BDS;FM-NTRIP",
    );
    reveal_strlit(";0;0;u-blox ZED-F9P;none;B;N;0;\r\n");
    reveal_strlit("0;0;u-blox ZED-F9P;none;B;N;0;");
    reveal_strlit("\r\n");
    reveal_strlit("ENDSOURCETABLE\r\n");
    reveal_strlit("ENDSOURCETABLE");
    assert("STR;"@ =~= "STR"@ + seq![';']);
    assert(";"@ =~= seq![';']);
    assert(";RTCM 3.3;1005(1),1074(1),1084(1),1094(1),1124(1),1230(10);2;GPS+GLO+GAL+BDS;FM-NTRIP;"@
        =~= seq![';']
        + "RTCM 3.3;1005(1),1074(1),1084(1),1094(1),1124(1),1230(10);2;GPS+GLO+GAL+BDS;FM-NTRIP"@
        + seq![';']);
    assert(";0;0;u-blox ZED-F9P;none;B;N;0;\r\n"@ =~= seq![';'] + "0;0;u-blox ZED-F9P;none;B;N;0;"@
        + "\r\n"@);
    assert("ENDSOURCETABLE\r\n"@ =~= crlf("ENDSOURCETABLE"@));
}

/// The record of a source table, cut at its semicolons, has nineteen fields: after `STR`
/// the mountpoint and the station's name, then what the stream is, then the country, the
/// latitude and the longitude, then what produces it.
pub proof fn law_record_fields(c: &CasterConfig)
    requires
        is_plain_config(c),
        has_no_semicolon(c),
    ensures
        fields_of(trim_end(lines_of(sourcetable_of(c))[0], Class::Eol)) == seq![
            "STR"@,
            c.mountpoint@,
            c.identifier@,
            "RTCM 3.3"@,
            "1005(1),1074(1),1084(1),1094(1),1124(1),1230(10)"@,
            "2"@,
            "GPS+GLO+GAL+BDS"@,
            "FM-NTRIP"@,
            c.country@,
            c.lat@,
            c.lon@,
            "0"@,
            "0"@,
            "u-blox ZED-F9P"@,
            "none"@,
            "B"@,
            "N"@,
            "0"@,
            Seq::<char>::empty(),
        ],
{
    let s = seq![';'];
    let f = "RTCM 3.3;1005(1),1074(1),1084(1),1094(1),1124(1),1230(10);2;GPS+GLO+GAL+BDS;FM-NTRIP"@;
    let q = "0;0;u-blox ZED-F9P;none;B;N;0;"@;
    let record = record_of(c);
    law_table_is_made_of_its_parts(c);
    law_table_has_one_record(c);
    let lines = lines_of(sourcetable_of(c));
    assert(lines[0] =~= crlf(record)) by {
        let end = crlf("ENDSOURCETABLE"@);
        assert((lines[0] + end).take(lines[0].len() as int) =~= lines[0]);
        assert((crlf(record) + end).take(crlf(record).len() as int) =~= crlf(record));
        assert(lines[0].len() + end.len() == crlf(record).len() + end.len());
    }
    assert(is_single_line(record)) by {
        lemma_record_is_single_line(c, record);
    }
    lemma_crlf_line(record, Seq::empty());
    assert(!"STR"@.contains(';')) by {
        reveal_strlit("STR");
    }
    lemma_one_field("STR"@);
    lemma_one_field(c.mountpoint@);
    lemma_one_field(c.identifier@);
    lemma_one_field(c.country@);
    lemma_one_field(c.lat@);
    lemma_one_field(c.lon@);
    lemma_format_fields();
    lemma_equipment_fields();
    let t6 = c.lon@ + s + q;
    let t5 = c.lat@ + s + t6;
    let t4 = c.country@ + s + t5;
    let t3 = f + s + t4;
    let t2 = c.identifier@ + s + t3;
    let t1 = c.mountpoint@ + s + t2;
    lemma_joined_fields("STR"@, t1);
    lemma_joined_fields(c.mountpoint@, t2);
    lemma_joined_fields(c.identifier@, t3);
    lemma_joined_fields(f, t4);
    lemma_joined_fields(c.country@, t5);
    lemma_joined_fields(c.lat@, t6);
    lemma_joined_fields(c.lon@, q);
    assert(fields_of(record) =~= seq![
        "STR"@,
        c.mountpoint@,
        c.identifier@,
        "RTCM 3.3"@,
        "1005(1),1074(1),1084(1),1094(1),1124(1),1230(10)"@,
        "2"@,
        "GPS+GLO+GAL+BDS"@,
        "FM-NTRIP"@,
        c.country@,
        c.lat@,
        c.lon@,
        "0"@,
        "0"@,
        "u-blox ZED-F9P"@,
        "none"@,
        "B"@,
        "N"@,
        "0"@,
        Seq::<char>::empty(),
    ]);
}

} // verus!
