//! Building and taking apart lines of text.
use vstd::prelude::*;
use vstd::utf8::char_u32_cast;

verus! {

/// The character that writes the digit `d`.
pub open spec fn digit_char(d: nat) -> char {
    (48 + d) as char
}

/// `n` in decimal, without leading zeros.
pub open spec fn decimal(n: nat) -> Seq<char>
    decreases n,
{
    if n < 10 {
        seq![digit_char(n)]
    } else {
        decimal(n / 10).push(digit_char(n % 10))
    }
}

/// `n` spaces.
pub open spec fn spaces(n: nat) -> Seq<char> {
    Seq::new(n, |i: int| ' ')
}

/// `s`, filled up with spaces on the right to at least `width` characters.
pub open spec fn pad_right(s: Seq<char>, width: nat) -> Seq<char> {
    if s.len() < width {
        s + spaces((width - s.len()) as nat)
    } else {
        s
    }
}

/// The items, with `sep` between each two.
pub open spec fn joined(items: Seq<Seq<char>>, sep: Seq<char>) -> Seq<char>
    decreases items.len(),
{
    if items.len() == 0 {
        Seq::empty()
    } else if items.len() == 1 {
        items[0]
    } else {
        joined(items.drop_last(), sep) + sep + items.last()
    }
}

/// The texts of `v`.
pub open spec fn texts(v: Seq<String>) -> Seq<Seq<char>> {
    v.map_values(|s: String| s@)
}

/// `s` as a line that ends with CR LF.
pub open spec fn crlf(s: Seq<char>) -> Seq<char> {
    s + "\r\n"@
}

fn digit_str(d: u64) -> (s: &'static str)
    requires
        d < 10,
    ensures
        s@ == seq![digit_char(d as nat)],
{
    proof {
        reveal_strlit("0");
        reveal_strlit("1");
        reveal_strlit("2");
        reveal_strlit("3");
        reveal_strlit("4");
        reveal_strlit("5");
        reveal_strlit("6");
        reveal_strlit("7");
        reveal_strlit("8");
        reveal_strlit("9");
    }
    let s = match d {
        0 => "0",
        1 => "1",
        2 => "2",
        3 => "3",
        4 => "4",
        5 => "5",
        6 => "6",
        7 => "7",
        8 => "8",
        _ => "9",
    };
    assert(s@ =~= seq![digit_char(d as nat)]);
    s
}

/// Appends `n` in decimal.
pub fn push_decimal(out: &mut String, n: u64)
    ensures
        final(out)@ == old(out)@ + decimal(n as nat),
    decreases n,
{
    if n >= 10 {
        push_decimal(out, n / 10);
    }
    out.append(digit_str(n % 10));
    proof {
        assert(old(out)@ + seq![digit_char((n % 10) as nat)] =~= old(out)@.push(
            digit_char((n % 10) as nat),
        ));
        if n >= 10 {
            assert(old(out)@ + decimal((n / 10) as nat) + seq![digit_char((n % 10) as nat)]
                =~= old(out)@ + decimal((n / 10) as nat).push(digit_char((n % 10) as nat)));
        }
    }
}

/// Appends `line` and the line end CR LF.
pub fn push_line(out: &mut String, line: &str)
    ensures
        final(out)@ == old(out)@ + crlf(line@),
{
    out.append(line);
    out.append("\r\n");
    assert(old(out)@ + line@ + "\r\n"@ =~= old(out)@ + crlf(line@));
}

/// A set of characters that text is cut at.
#[derive(Clone, Copy, Debug, PartialEq, Eq, Structural)]
pub enum Class {
    /// The characters that end a line.
    Eol,
    /// Every character but the line feed.
    InLine,
    /// White space, as Unicode has it.
    Space,
    /// Every character but white space.
    Word,
    /// The slash.
    Slash,
}

/// Whether Unicode gives `c` the property `White_Space`.
pub open spec fn is_space(c: char) -> bool {
    let u = c as u32;
    ||| 0x09 <= u <= 0x0D
    ||| u == 0x20
    ||| u == 0x85
    ||| u == 0xA0
    ||| u == 0x1680
    ||| 0x2000 <= u <= 0x200A
    ||| u == 0x2028
    ||| u == 0x2029
    ||| u == 0x202F
    ||| u == 0x205F
    ||| u == 0x3000
}

impl Class {
    /// Whether `c` belongs to the class.
    pub open spec fn holds(self, c: char) -> bool {
        match self {
            Class::Eol => c == '\r' || c == '\n',
            Class::InLine => c != '\n',
            Class::Space => is_space(c),
            Class::Word => !is_space(c),
            Class::Slash => c == '/',
        }
    }

    /// Whether `c` belongs to the class.
    fn has(self, c: char) -> (r: bool)
        ensures
            r == self.holds(c),
    {
        let u: u32 = c as u32;
        let space: bool = (0x09 <= u && u <= 0x0D) || u == 0x20 || u == 0x85 || u == 0xA0 || u
            == 0x1680 || (0x2000 <= u && u <= 0x200A) || u == 0x2028 || u == 0x2029 || u == 0x202F
            || u == 0x205F || u == 0x3000;
        match self {
            Class::Eol => c == '\r' || c == '\n',
            Class::InLine => c != '\n',
            Class::Space => space,
            Class::Word => !space,
            Class::Slash => c == '/',
        }
    }
}

/// How many characters at the start of `s` belong to `class`.
pub open spec fn leading(s: Seq<char>, class: Class) -> nat
    decreases s.len(),
{
    if s.len() > 0 && class.holds(s[0]) {
        1 + leading(s.skip(1), class)
    } else {
        0
    }
}

/// How many characters at the end of `s` belong to `class`.
pub open spec fn trailing(s: Seq<char>, class: Class) -> nat
    decreases s.len(),
{
    if s.len() > 0 && class.holds(s.last()) {
        1 + trailing(s.drop_last(), class)
    } else {
        0
    }
}

/// `s` without the characters of `class` at its start.
pub open spec fn trim_start(s: Seq<char>, class: Class) -> Seq<char> {
    s.skip(leading(s, class) as int)
}

/// `s` without the characters of `class` at its end.
pub open spec fn trim_end(s: Seq<char>, class: Class) -> Seq<char> {
    s.take(s.len() - trailing(s, class))
}

/// `s` without white space at either end.
pub open spec fn trim(s: Seq<char>) -> Seq<char> {
    trim_end(trim_start(s, Class::Space), Class::Space)
}

/// The first run of characters that are not white space.
pub open spec fn first_word(s: Seq<char>) -> Seq<char> {
    let t = trim_start(s, Class::Space);
    t.take(leading(t, Class::Word) as int)
}

/// What follows the first word.
pub open spec fn after_first_word(s: Seq<char>) -> Seq<char> {
    let t = trim_start(s, Class::Space);
    t.skip(leading(t, Class::Word) as int)
}

/// The words of `s`: what stands between white space.
pub open spec fn words(s: Seq<char>) -> Seq<Seq<char>>
    decreases s.len(),
    via words_decreases
{
    if first_word(s).len() == 0 {
        Seq::empty()
    } else {
        seq![first_word(s)] + words(after_first_word(s))
    }
}

#[via_fn]
proof fn words_decreases(s: Seq<char>) {
    lemma_leading(s, Class::Space);
    lemma_leading(trim_start(s, Class::Space), Class::Word);
}

/// `s`, cut behind each line feed.
pub open spec fn lines_of(s: Seq<char>) -> Seq<Seq<char>>
    decreases s.len(),
    via lines_of_decreases
{
    let n = leading(s, Class::InLine) as int;
    if s.len() == 0 {
        Seq::empty()
    } else if n >= s.len() {
        seq![s]
    } else {
        seq![s.take(n + 1)] + lines_of(s.skip(n + 1))
    }
}

#[via_fn]
proof fn lines_of_decreases(s: Seq<char>) {
    lemma_leading(s, Class::InLine);
}

/// The lower-case form of an ASCII letter; any other character itself.
pub open spec fn ascii_lower(c: char) -> char {
    if 'A' <= c <= 'Z' {
        (c as u32 + 32) as char
    } else {
        c
    }
}

/// Whether `s` starts with `t`.
pub open spec fn has_prefix(s: Seq<char>, t: Seq<char>) -> bool {
    t.len() <= s.len() && s.take(t.len() as int) == t
}

/// Whether `s`, in ASCII lower case, starts with `t`.
pub open spec fn has_prefix_lower(s: Seq<char>, t: Seq<char>) -> bool {
    has_prefix(s.map_values(|c: char| ascii_lower(c)), t)
}

/// Whether `a` comes before `b` in the order of their characters.
pub open spec fn precedes(a: Seq<char>, b: Seq<char>) -> bool {
    exists|k: int| first_differs(a, b, k)
}

/// Whether `a` and `b` agree before place `k`, and `a` is over there or has the lesser
/// character.
pub open spec fn first_differs(a: Seq<char>, b: Seq<char>, k: int) -> bool {
    &&& 0 <= k <= a.len()
    &&& k < b.len()
    &&& a.take(k) == b.take(k)
    &&& k == a.len() || a[k] < b[k]
}

/// Whether `t` stands at place `k` of `s`.
pub open spec fn occurs_at(s: Seq<char>, t: Seq<char>, k: int) -> bool {
    0 <= k && k + t.len() <= s.len() && s.subrange(k, k + t.len()) == t
}

/// Whether `t` stands anywhere in `s`.
pub open spec fn has_text(s: Seq<char>, t: Seq<char>) -> bool {
    exists|k: int| occurs_at(s, t, k)
}

/// The leading characters belong to the class, and what follows them does not
/// start with one that does.
pub proof fn lemma_leading(s: Seq<char>, class: Class)
    ensures
        leading(s, class) <= s.len(),
        forall|i: int| 0 <= i < leading(s, class) ==> class.holds(#[trigger] s[i]),
        leading(s, class) < s.len() ==> !class.holds(s[leading(s, class) as int]),
    decreases s.len(),
{
    if s.len() > 0 && class.holds(s[0]) {
        let t = s.skip(1);
        lemma_leading(t, class);
        assert forall|i: int| 0 <= i < leading(s, class) implies class.holds(#[trigger] s[i]) by {
            if i > 0 {
                assert(t[i - 1] == s[i]);
            }
        }
    }
}

/// A run of characters of the class that ends before another, or at the end, is
/// what [`leading`] counts.
pub proof fn lemma_leading_is(s: Seq<char>, class: Class, n: nat)
    requires
        n <= s.len(),
        forall|i: int| 0 <= i < n ==> class.holds(#[trigger] s[i]),
        n < s.len() ==> !class.holds(s[n as int]),
    ensures
        leading(s, class) == n,
{
    lemma_leading(s, class);
    let m = leading(s, class);
    if m < n {
        assert(class.holds(s[m as int]));
    }
}

/// The trailing characters belong to the class, and what precedes them does not
/// end with one that does.
pub proof fn lemma_trailing(s: Seq<char>, class: Class)
    ensures
        trailing(s, class) <= s.len(),
        forall|i: int|
            s.len() - trailing(s, class) <= i < s.len() ==> class.holds(#[trigger] s[i]),
        trailing(s, class) < s.len() ==> !class.holds(s[s.len() - trailing(s, class) - 1]),
    decreases s.len(),
{
    if s.len() > 0 && class.holds(s.last()) {
        let t = s.drop_last();
        lemma_trailing(t, class);
        assert forall|i: int|
            s.len() - trailing(s, class) <= i < s.len() implies class.holds(#[trigger] s[i]) by {
            if i < t.len() {
                assert(t[i] == s[i]);
            }
        }
    }
}

/// A run of characters of the class that starts behind another, or at the start,
/// is what [`trailing`] counts.
pub proof fn lemma_trailing_is(s: Seq<char>, class: Class, n: nat)
    requires
        n <= s.len(),
        forall|i: int| s.len() - n <= i < s.len() ==> class.holds(#[trigger] s[i]),
        n < s.len() ==> !class.holds(s[s.len() - n - 1]),
    ensures
        trailing(s, class) == n,
{
    lemma_trailing(s, class);
    let m = trailing(s, class);
    if m < n {
        assert(class.holds(s[s.len() - m - 1]));
    }
}

/// Whether every character of `s` belongs to `class`.
pub open spec fn all_of(s: Seq<char>, class: Class) -> bool {
    forall|i: int| 0 <= i < s.len() ==> class.holds(#[trigger] s[i])
}

/// Whether no character of `s` ends a line.
pub open spec fn is_single_line(s: Seq<char>) -> bool {
    forall|i: int| 0 <= i < s.len() ==> !Class::Eol.holds(#[trigger] s[i])
}

/// Text on a single line stays so when it is joined.
pub proof fn lemma_single_line_add(a: Seq<char>, b: Seq<char>)
    requires
        is_single_line(a),
        is_single_line(b),
    ensures
        is_single_line(a + b),
{
    assert forall|i: int| 0 <= i < (a + b).len() implies !Class::Eol.holds(#[trigger] (a + b)[i]) by {
        if i < a.len() {
            assert((a + b)[i] == a[i]);
        } else {
            assert((a + b)[i] == b[i - a.len()]);
        }
    }
}

/// A decimal number stands on a single line, and is not empty.
pub proof fn lemma_decimal_single_line(n: nat)
    ensures
        is_single_line(decimal(n)),
        decimal(n).len() > 0,
    decreases n,
{
    if n >= 10 {
        lemma_decimal_single_line(n / 10);
        lemma_single_line_add(decimal(n / 10), seq![digit_char(n % 10)]);
        assert(decimal(n) =~= decimal(n / 10) + seq![digit_char(n % 10)]);
    }
}

/// A single line of text, ended with CR LF in front of `rest`: it is cut off as the
/// first line, and without its line end it is the text.
pub proof fn lemma_crlf_line(body: Seq<char>, rest: Seq<char>)
    requires
        is_single_line(body),
    ensures
        lines_of(crlf(body) + rest) == seq![crlf(body)] + lines_of(rest),
        trim_end(crlf(body), Class::Eol) == body,
        (crlf(body)).len() == body.len() + 2,
{
    reveal_strlit("\r\n");
    let line = crlf(body);
    let s = line + rest;
    let n = body.len() as int + 1;
    assert forall|i: int| 0 <= i < n implies Class::InLine.holds(#[trigger] s[i]) by {
        if i < body.len() {
            assert(s[i] == body[i]);
        }
    }
    lemma_leading_is(s, Class::InLine, n as nat);
    assert(s.take(n + 1) =~= line);
    assert(s.skip(n + 1) =~= rest);
    lemma_trailing_is(line, Class::Eol, 2);
    assert(line.take(line.len() - 2) =~= body);
}

/// The first word behind white space is the run of other characters that ends at
/// white space or at the end.
pub proof fn lemma_first_word(gap: Seq<char>, word: Seq<char>, rest: Seq<char>)
    requires
        all_of(gap, Class::Space),
        all_of(word, Class::Word),
        word.len() > 0,
        rest.len() > 0 ==> is_space(rest[0]),
    ensures
        words(gap + word + rest) == seq![word] + words(rest),
{
    let s = gap + word + rest;
    assert forall|i: int| 0 <= i < gap.len() implies Class::Space.holds(#[trigger] s[i]) by {
        assert(s[i] == gap[i]);
    }
    assert(s[gap.len() as int] == word[0]);
    lemma_leading_is(s, Class::Space, gap.len());
    let t = trim_start(s, Class::Space);
    assert(t =~= word + rest);
    assert forall|i: int| 0 <= i < word.len() implies Class::Word.holds(#[trigger] t[i]) by {
        assert(t[i] == word[i]);
    }
    lemma_leading_is(t, Class::Word, word.len());
    assert(first_word(s) =~= word);
    assert(after_first_word(s) =~= rest);
}

/// The characters of `s`.
pub fn chars_of(s: &str) -> (v: Vec<char>)
    ensures
        v@ == s@,
{
    let mut v: Vec<char> = Vec::new();
    for c in it: s.chars()
        invariant
            v@ == s@.take(it.index() as int),
            it.seq() == s@,
    {
        v.push(c);
        assert(v@ =~= s@.take(it.index() + 1));
    }
    assert(s@.take(s@.len() as int) =~= s@);
    v
}

/// Whether `a` and `b` hold the same characters.
pub fn same_text(a: &str, b: &str) -> (r: bool)
    ensures
        r == (a@ == b@),
{
    let x: Vec<char> = chars_of(a);
    let y: Vec<char> = chars_of(b);
    if x.len() != y.len() {
        return false;
    }
    let mut i: usize = 0;
    while i < x.len()
        invariant
            i <= x@.len(),
            x@.len() == y@.len(),
            x@ == a@,
            y@ == b@,
            forall|j: int| 0 <= j < i ==> x@[j] == y@[j],
        decreases x@.len() - i,
    {
        if x[i] != y[i] {
            return false;
        }
        i = i + 1;
    }
    assert(a@ =~= b@);
    true
}

/// How many characters from place `from` on belong to `class`.
fn count_leading(v: &Vec<char>, from: usize, class: Class) -> (n: usize)
    requires
        from <= v@.len(),
    ensures
        n == leading(v@.skip(from as int), class),
        from + n <= v.len(),
{
    let ghost s = v@.skip(from as int);
    let mut n: usize = 0;
    while from + n < v.len() && class.has(v[from + n])
        invariant
            from + n <= v.len(),
            s == v@.skip(from as int),
            forall|i: int| 0 <= i < n ==> class.holds(#[trigger] s[i]),
        ensures
            n < s.len() ==> !class.holds(s[n as int]),
        decreases v@.len() - n,
    {
        n = n + 1;
    }
    proof {
        lemma_leading_is(s, class, n as nat);
    }
    n
}

/// How many of the characters before place `to`, back to place `from`, belong to
/// `class`.
fn count_trailing(v: &Vec<char>, from: usize, to: usize, class: Class) -> (n: usize)
    requires
        from <= to <= v@.len(),
    ensures
        n == trailing(v@.subrange(from as int, to as int), class),
        n <= to - from,
{
    let ghost s = v@.subrange(from as int, to as int);
    let mut n: usize = 0;
    while n < to - from && class.has(v[to - n - 1])
        invariant
            from <= to <= v@.len(),
            n <= to - from,
            s == v@.subrange(from as int, to as int),
            forall|i: int| s.len() - n <= i < s.len() ==> class.holds(#[trigger] s[i]),
        ensures
            n < s.len() ==> !class.holds(s[s.len() - n - 1]),
        decreases to - n,
    {
        n = n + 1;
    }
    proof {
        lemma_trailing_is(s, class, n as nat);
    }
    n
}

/// `s` without the characters that end a line.
pub fn without_eol(s: &str) -> (r: String)
    ensures
        r@ == trim_end(s@, Class::Eol),
{
    let v: Vec<char> = chars_of(s);
    let n: usize = count_trailing(&v, 0, v.len(), Class::Eol);
    assert(v@.subrange(0, v@.len() as int) =~= s@);
    s.substring_char(0, v.len() - n).to_string()
}

/// What follows the first `from` characters of `s`, without white space at either
/// end.
pub fn trimmed_from(s: &str, from: usize) -> (r: String)
    requires
        from <= s@.len(),
    ensures
        r@ == trim(s@.skip(from as int)),
{
    let v: Vec<char> = chars_of(s);
    let a: usize = from + count_leading(&v, from, Class::Space);
    let n: usize = count_trailing(&v, a, v.len(), Class::Space);
    proof {
        let t = s@.skip(from as int);
        assert(trim_start(t, Class::Space) =~= v@.subrange(a as int, v@.len() as int));
        assert(s@.subrange(a as int, v@.len() - n) =~= trim(t));
    }
    s.substring_char(a, v.len() - n).to_string()
}

/// The first two words of `s`, where it has two.
pub fn two_words(s: &str) -> (r: Option<(String, String)>)
    ensures
        r is Some <==> words(s@).len() >= 2,
        r is Some ==> r->Some_0.0@ == words(s@)[0] && r->Some_0.1@ == words(s@)[1],
{
    let v: Vec<char> = chars_of(s);
    let a: usize = count_leading(&v, 0, Class::Space);
    let b: usize = a + count_leading(&v, a, Class::Word);
    let c: usize = b + count_leading(&v, b, Class::Space);
    let d: usize = c + count_leading(&v, c, Class::Word);
    proof {
        assert(v@.skip(0) =~= s@);
        assert(trim_start(s@, Class::Space) =~= v@.skip(a as int));
        assert(first_word(s@) =~= v@.subrange(a as int, b as int));
        let rest = after_first_word(s@);
        assert(rest =~= v@.skip(b as int));
        assert(trim_start(rest, Class::Space) =~= v@.skip(c as int));
        assert(first_word(rest) =~= v@.subrange(c as int, d as int));
        reveal_with_fuel(words, 3);
    }
    if a < b && c < d {
        Some((s.substring_char(a, b).to_string(), s.substring_char(c, d).to_string()))
    } else {
        None
    }
}

/// `s` without the slashes at its start.
pub fn without_slashes(s: &str) -> (r: String)
    ensures
        r@ == trim_start(s@, Class::Slash),
{
    let v: Vec<char> = chars_of(s);
    let n: usize = count_leading(&v, 0, Class::Slash);
    proof {
        assert(v@.skip(0) =~= s@);
        assert(s@.subrange(n as int, v@.len() as int) =~= s@.skip(n as int));
    }
    s.substring_char(n, v.len()).to_string()
}

/// Whether `s`, in ASCII lower case, starts with `t`.
pub fn starts_with_lower(s: &str, t: &str) -> (r: bool)
    ensures
        r == has_prefix_lower(s@, t@),
{
    let v: Vec<char> = chars_of(s);
    let w: Vec<char> = chars_of(t);
    let ghost low = s@.map_values(|c: char| ascii_lower(c));
    if v.len() < w.len() {
        return false;
    }
    let mut i: usize = 0;
    while i < w.len()
        invariant
            i <= w@.len() <= v@.len(),
            v@ == s@,
            w@ == t@,
            low == s@.map_values(|c: char| ascii_lower(c)),
            forall|j: int| 0 <= j < i ==> low[j] == t@[j],
        decreases w@.len() - i,
    {
        let c: char = v[i];
        let u: u32 = c as u32;
        let l: u32 = if 0x41 <= u && u <= 0x5A {
            u + 32
        } else {
            u
        };
        if l != w[i] as u32 {
            proof {
                assert(low[i as int] != t@[i as int]);
                assert(low.take(t@.len() as int)[i as int] == low[i as int]);
            }
            return false;
        }
        proof {
            char_u32_cast(low[i as int], l);
            char_u32_cast(t@[i as int], l);
        }
        i = i + 1;
    }
    assert(low.take(t@.len() as int) =~= t@);
    true
}

/// Whether `t` stands at place `k` of `s`.
fn stands_at(s: &Vec<char>, t: &Vec<char>, k: usize) -> (r: bool)
    requires
        k <= s@.len(),
    ensures
        r == occurs_at(s@, t@, k as int),
{
    if s.len() - k < t.len() {
        return false;
    }
    let mut i: usize = 0;
    while i < t.len()
        invariant
            i <= t@.len(),
            k + t.len() <= s.len(),
            forall|j: int| 0 <= j < i ==> s@[k + j] == t@[j],
        decreases t@.len() - i,
    {
        if s[k + i] != t[i] {
            assert(s@.subrange(k as int, k + t@.len())[i as int] != t@[i as int]);
            return false;
        }
        i = i + 1;
    }
    assert(s@.subrange(k as int, k + t@.len()) =~= t@);
    true
}

/// Whether `s` starts with `t`.
pub fn starts_with(s: &str, t: &str) -> (r: bool)
    ensures
        r == has_prefix(s@, t@),
{
    let v: Vec<char> = chars_of(s);
    let w: Vec<char> = chars_of(t);
    proof {
        if t@.len() <= s@.len() {
            assert(s@.subrange(0, t@.len() as int) =~= s@.take(t@.len() as int));
        }
    }
    stands_at(&v, &w, 0)
}

/// Whether `t` stands anywhere in `s`.
pub fn contains(s: &str, t: &str) -> (r: bool)
    ensures
        r == has_text(s@, t@),
{
    let v: Vec<char> = chars_of(s);
    let w: Vec<char> = chars_of(t);
    let mut k: usize = 0;
    while k < v.len()
        invariant
            k <= v@.len(),
            v@ == s@,
            w@ == t@,
            forall|j: int| 0 <= j < k ==> !occurs_at(s@, t@, j),
        decreases v@.len() - k,
    {
        if stands_at(&v, &w, k) {
            return true;
        }
        k = k + 1;
    }
    stands_at(&v, &w, k)
}

} // verus!
