//! What holds of lines of text, of the numbers written in them, and of how they are
//! taken apart.
use crate::text::{
    all_of, ascii_lower, decimal, digit_char, has_prefix, has_text, is_space, joined, leading,
    lemma_leading, lemma_leading_is, lemma_trailing_is, lines_of, occurs_at, pad_right, trim,
    trim_end, trim_start, words, Class,
};
use vstd::prelude::*;
use vstd::utf8::char_u32_cast;

verus! {

/// The number that a text of decimal digits writes.
pub open spec fn read_decimal(s: Seq<char>) -> int
    decreases s.len(),
{
    if s.len() == 0 {
        0
    } else {
        10 * read_decimal(s.drop_last()) + (s.last() as u32 - '0' as u32)
    }
}

/// A number is read back from how it is written: in digits, without leading zeros.
pub proof fn law_decimal_is_read_back(n: nat)
    ensures
        read_decimal(decimal(n)) == n,
        decimal(n).len() >= 1,
        decimal(n).len() > 1 ==> decimal(n)[0] != '0',
        forall|i: int| 0 <= i < decimal(n).len() ==> '0' <= #[trigger] decimal(n)[i] <= '9',
    decreases n,
{
    let s = decimal(n);
    if n >= 10 {
        law_decimal_is_read_back(n / 10);
        let t = decimal(n / 10);
        assert(s.drop_last() =~= t);
        assert(s.last() == digit_char(n % 10));
        assert(s[0] == t[0]);
        if t.len() == 1 {
            assert(t.drop_last() =~= Seq::<char>::empty());
            assert(read_decimal(t.drop_last()) == 0);
            assert(t.last() == t[0]);
        }
        assert forall|i: int| 0 <= i < s.len() implies '0' <= #[trigger] s[i] <= '9' by {
            if i < t.len() {
                assert(s[i] == t[i]);
            }
        }
    } else {
        assert(s.drop_last() =~= Seq::<char>::empty());
        assert(read_decimal(s.drop_last()) == 0);
    }
}

/// Filling up keeps the text, adds spaces alone, and stops at the width.
pub proof fn law_pad_right(s: Seq<char>, width: nat)
    ensures
        ({
            let r = pad_right(s, width);
            &&& r.len() == if s.len() < width {
                width
            } else {
                s.len()
            }
            &&& r.take(s.len() as int) == s
            &&& forall|i: int| s.len() <= i < r.len() ==> #[trigger] r[i] == ' '
        }),
{
    assert(pad_right(s, width).take(s.len() as int) =~= s);
}

/// Items are joined one behind the other, with the separator between each two and
/// nowhere else.
pub proof fn law_joined(items: Seq<Seq<char>>, item: Seq<char>, sep: Seq<char>)
    ensures
        joined(Seq::empty(), sep) == Seq::<char>::empty(),
        joined(items.push(item), sep) == if items.len() == 0 {
            item
        } else {
            joined(items, sep) + sep + item
        },
{
    assert(items.push(item).drop_last() =~= items);
}

/// Lines, one behind the other.
pub open spec fn run_together(lines: Seq<Seq<char>>) -> Seq<char>
    decreases lines.len(),
{
    if lines.len() == 0 {
        Seq::empty()
    } else {
        lines[0] + run_together(lines.skip(1))
    }
}

/// A text is its lines, one behind the other; no line is empty, every line but the last
/// ends with a line feed, and none holds one elsewhere.
pub proof fn law_lines_join_back(s: Seq<char>)
    ensures
        run_together(lines_of(s)) == s,
        forall|i: int| 0 <= i < lines_of(s).len() ==> (#[trigger] lines_of(s)[i]).len() > 0,
        forall|i: int|
            0 <= i < lines_of(s).len() - 1 ==> (#[trigger] lines_of(s)[i]).last() == '\n',
        forall|i: int, j: int|
            0 <= i < lines_of(s).len() && 0 <= j < lines_of(s)[i].len() - 1
                ==> #[trigger] lines_of(s)[i][j] != '\n',
    decreases s.len(),
{
    let all = lines_of(s);
    let n = leading(s, Class::InLine) as int;
    lemma_leading(s, Class::InLine);
    if s.len() > 0 {
        if n >= s.len() {
            assert(all.skip(1) =~= Seq::<Seq<char>>::empty());
            assert(all[0] == s);
            assert forall|j: int| 0 <= j < s.len() implies s[j] != '\n' by {
                assert(Class::InLine.holds(s[j]));
            }
            assert(run_together(all.skip(1)) =~= Seq::<char>::empty());
            assert(s + Seq::<char>::empty() =~= s);
        } else {
            let first = s.take(n + 1);
            let rest = s.skip(n + 1);
            law_lines_join_back(rest);
            let more = lines_of(rest);
            assert(all.skip(1) =~= more);
            assert(first + rest =~= s);
            assert forall|j: int| 0 <= j < n implies first[j] != '\n' by {
                assert(Class::InLine.holds(s[j]));
            }
            assert forall|i: int| 0 <= i < all.len() implies (#[trigger] all[i]).len() > 0 by {
                if i > 0 {
                    assert(all[i] == more[i - 1]);
                }
            }
            assert forall|i: int| 0 <= i < all.len() - 1 implies (#[trigger] all[i]).last()
                == '\n' by {
                if i > 0 {
                    assert(all[i] == more[i - 1]);
                }
            }
            assert forall|i: int, j: int|
                0 <= i < all.len() && 0 <= j < all[i].len() - 1 implies #[trigger] all[i][j]
                != '\n' by {
                if i > 0 {
                    assert(all[i] == more[i - 1]);
                    assert(more[i - 1][j] != '\n');
                }
            }
        }
    }
}

/// The characters that are white space.
pub open spec fn white_space() -> Seq<char> {
    seq![
        '\t',
        '\n',
        '\u{B}',
        '\u{C}',
        '\r',
        ' ',
        '\u{85}',
        '\u{A0}',
        '\u{1680}',
        '\u{2000}',
        '\u{2001}',
        '\u{2002}',
        '\u{2003}',
        '\u{2004}',
        '\u{2005}',
        '\u{2006}',
        '\u{2007}',
        '\u{2008}',
        '\u{2009}',
        '\u{200A}',
        '\u{2028}',
        '\u{2029}',
        '\u{202F}',
        '\u{205F}',
        '\u{3000}',
    ]
}

/// White space is just what Unicode lists as such.
pub proof fn law_white_space(c: char)
    ensures
        is_space(c) <==> white_space().contains(c),
{
    let w = white_space();
    if w.contains(c) {
        let i = choose|i: int| 0 <= i < w.len() && w[i] == c;
        assert(w[i] == c);
    }
    if is_space(c) {
        let u = c as u32 as int;
        let i: int = if u <= 0x0D {
            u - 9
        } else if u == 0x20 {
            5
        } else if u == 0x85 {
            6
        } else if u == 0xA0 {
            7
        } else if u == 0x1680 {
            8
        } else if u <= 0x200A {
            9 + u - 0x2000
        } else if u == 0x2028 {
            20
        } else if u == 0x2029 {
            21
        } else if u == 0x202F {
            22
        } else if u == 0x205F {
            23
        } else {
            24
        };
        assert(w[i] as u32 == c as u32);
        char_u32_cast(w[i], c as u32);
        char_u32_cast(c, c as u32);
        assert(w[i] == c);
    }
}

/// The lower-case form of a capital letter is its small letter; every other character
/// stays what it is.
pub proof fn law_ascii_lower(c: char, i: int)
    ensures
        0 <= i < 26 ==> ascii_lower("ABCDEFGHIJKLMNOPQRSTUVWXYZ"@[i])
            == "abcdefghijklmnopqrstuvwxyz"@[i],
        !"ABCDEFGHIJKLMNOPQRSTUVWXYZ"@.contains(c) ==> ascii_lower(c) == c,
{
    reveal_strlit("ABCDEFGHIJKLMNOPQRSTUVWXYZ");
    reveal_strlit("abcdefghijklmnopqrstuvwxyz");
    let up = "ABCDEFGHIJKLMNOPQRSTUVWXYZ"@;
    if 0 <= i < 26 {
        assert(up[i] as u32 == 65 + i);
        let low = "abcdefghijklmnopqrstuvwxyz"@[i];
        assert(low as u32 == 97 + i);
        char_u32_cast(low, (97 + i) as u32);
    }
    if 'A' <= c <= 'Z' {
        let k = c as u32 - 65;
        assert(up[k] as u32 == c as u32);
        char_u32_cast(up[k], c as u32);
        char_u32_cast(c, c as u32);
        assert(up[k] == c);
    }
}

/// Trimming takes the white space off both ends and nothing else.
pub proof fn law_trim(before: Seq<char>, s: Seq<char>, after: Seq<char>)
    requires
        all_of(before, Class::Space),
        all_of(after, Class::Space),
        s.len() > 0 ==> !is_space(s[0]) && !is_space(s.last()),
        s.len() == 0 ==> after.len() == 0,
    ensures
        trim(before + s + after) == s,
{
    let all = before + s + after;
    assert forall|i: int| 0 <= i < before.len() implies Class::Space.holds(#[trigger] all[i]) by {
        assert(all[i] == before[i]);
    }
    if s.len() > 0 {
        assert(all[before.len() as int] == s[0]);
    }
    lemma_leading_is(all, Class::Space, before.len());
    let rest = trim_start(all, Class::Space);
    assert(rest =~= s + after);
    assert forall|i: int| rest.len() - after.len() <= i < rest.len() implies Class::Space.holds(
        #[trigger] rest[i],
    ) by {
        assert(rest[i] == after[i - s.len()]);
    }
    if s.len() > 0 {
        assert(rest[rest.len() - after.len() - 1] == s.last());
    }
    lemma_trailing_is(rest, Class::Space, after.len());
    assert(trim_end(rest, Class::Space) =~= s);
}

/// Cutting the line end takes off all that ends the line, and nothing else.
pub proof fn law_line_end_is_cut(s: Seq<char>, end: Seq<char>)
    requires
        forall|i: int| 0 <= i < end.len() ==> #[trigger] end[i] == '\r' || end[i] == '\n',
        s.len() > 0 ==> s.last() != '\r' && s.last() != '\n',
    ensures
        trim_end(s + end, Class::Eol) == s,
{
    let all = s + end;
    assert forall|i: int| all.len() - end.len() <= i < all.len() implies Class::Eol.holds(
        #[trigger] all[i],
    ) by {
        assert(all[i] == end[i - s.len()]);
    }
    if s.len() > 0 {
        assert(all[all.len() - end.len() - 1] == s.last());
    }
    lemma_trailing_is(all, Class::Eol, end.len());
    assert(trim_end(all, Class::Eol) =~= s);
}

/// A text starts with another exactly where it is the other with something behind it.
pub proof fn law_prefix(s: Seq<char>, t: Seq<char>)
    ensures
        has_prefix(s, t) <==> exists|rest: Seq<char>| s == #[trigger] (t + rest),
{
    if has_prefix(s, t) {
        let rest = s.skip(t.len() as int);
        assert(s =~= t + rest);
    }
    if exists|rest: Seq<char>| s == #[trigger] (t + rest) {
        let rest = choose|rest: Seq<char>| s == #[trigger] (t + rest);
        assert((t + rest).take(t.len() as int) =~= t);
    }
}

/// A text holds another exactly where it is the other with something before and
/// something behind it.
pub proof fn law_holds_text(s: Seq<char>, t: Seq<char>)
    ensures
        has_text(s, t) <==> exists|a: Seq<char>, b: Seq<char>| s == #[trigger] (a + t + b),
{
    if has_text(s, t) {
        let k = choose|k: int| occurs_at(s, t, k);
        let a = s.take(k);
        let b = s.skip(k + t.len());
        assert(s =~= a + t + b) by {
            assert forall|i: int| k <= i < k + t.len() implies s[i] == t[i - k] by {
                assert(s.subrange(k, k + t.len())[i - k] == s[i]);
            }
        }
    }
    if exists|a: Seq<char>, b: Seq<char>| s == #[trigger] (a + t + b) {
        let (a, b) = choose|a: Seq<char>, b: Seq<char>| s == #[trigger] (a + t + b);
        assert(s.subrange(a.len() as int, (a.len() + t.len()) as int) =~= t);
        assert(occurs_at(s, t, a.len() as int));
    }
}

/// White space holds no words.
pub proof fn law_white_space_has_no_words(s: Seq<char>)
    requires
        all_of(s, Class::Space),
    ensures
        words(s) == Seq::<Seq<char>>::empty(),
{
    lemma_leading_is(s, Class::Space, s.len());
    assert(trim_start(s, Class::Space) =~= Seq::<char>::empty());
    lemma_leading(trim_start(s, Class::Space), Class::Word);
}

} // verus!
