//! Strings as sequences of characters: building, comparing, trimming and
//! splitting them, and writing numbers.

use crate::natural;
use vstd::prelude::*;
use vstd::utf8::*;

verus! {

/// `String::push` appends one character.
pub assume_specification[ String::push ](s: &mut String, c: char)
    ensures
        final(s)@ == old(s)@.push(c),
;

/// What `str::to_lowercase` gives for a text that is not all ASCII.
pub uninterp spec fn unicode_lowercase(s: Seq<char>) -> Seq<char>;

/// Whether every character is ASCII.
pub open spec fn all_ascii(s: Seq<char>) -> bool {
    forall|i: int| 0 <= i < s.len() ==> #[trigger] s[i] < '\u{80}'
}

/// The lower case of a text: of ASCII text that of each character.
pub open spec fn lowercase(s: Seq<char>) -> Seq<char> {
    if all_ascii(s) {
        s.map_values(|c: char| natural::ascii_lower(c))
    } else {
        unicode_lowercase(s)
    }
}

/// `str::to_lowercase`: of ASCII text every character becomes its lower case. The
/// lower case of other text depends on nothing but the text.
pub assume_specification[ str::to_lowercase ](s: &str) -> (r: String)
    ensures
        all_ascii(s@) ==> r@ == s@.map_values(|c: char| natural::ascii_lower(c)),
        !all_ascii(s@) ==> r@ == unicode_lowercase(s@),
;

/// `std::str::from_utf8`: gives the text that the bytes encode, exactly when
/// they are well-formed UTF-8. The error is dropped.
#[verifier::external_body]
pub(crate) fn utf8_text(bytes: &[u8]) -> (r: Option<&str>)
    ensures
        r is Some <==> valid_utf8(bytes@),
        r is Some ==> r->0@ == decode_utf8(bytes@),
{
    std::str::from_utf8(bytes).ok()
}

/// The views of a list of strings.
pub open spec fn texts(list: Seq<String>) -> Seq<Seq<char>> {
    list.map_values(|s: String| s@)
}

pub proof fn lemma_texts_push(list: Seq<String>, s: String)
    ensures
        texts(list.push(s)) == texts(list).push(s@),
{
    assert(texts(list.push(s)) =~= texts(list).push(s@));
}

/// The characters of `s`.
pub fn chars_of(s: &str) -> (chars: Vec<char>)
    ensures
        chars@ == s@,
{
    let mut chars: Vec<char> = Vec::new();
    for c in it: s.chars()
        invariant
            it.seq() == s@,
            chars@ == it.seq().take(it.index()),
    {
        chars.push(c);
    }
    chars
}

/// The string made of the characters `from..to`.
pub fn string_of(chars: &Vec<char>, from: usize, to: usize) -> (s: String)
    requires
        from <= to <= chars@.len(),
    ensures
        s@ == chars@.subrange(from as int, to as int),
{
    let mut s = String::new();
    let mut i: usize = from;
    while i < to
        invariant
            from <= i <= to <= chars@.len(),
            s@ == chars@.subrange(from as int, i as int),
        decreases to - i,
    {
        s.push(chars[i]);
        i += 1;
    }
    s
}

/// Whether two texts are equal.
pub fn same_text(a: &str, b: &str) -> (r: bool)
    ensures
        r == (a@ == b@),
{
    a.to_owned() == b.to_owned()
}

/// Whether `s` starts with `prefix`.
pub fn has_prefix(s: &str, prefix: &str) -> (r: bool)
    ensures
        r == prefix@.is_prefix_of(s@),
{
    let a = chars_of(s);
    let p = chars_of(prefix);
    if a.len() < p.len() {
        return false;
    }
    let mut i: usize = 0;
    while i < p.len()
        invariant
            i <= p@.len() <= a@.len(),
            p@ == prefix@,
            a@ == s@,
            a@.take(i as int) == p@.take(i as int),
        decreases p.len() - i,
    {
        if a[i] != p[i] {
            assert(s@.take(prefix@.len() as int)[i as int] == a@[i as int]);
            return false;
        }
        assert(a@.take(i + 1) =~= a@.take(i as int).push(a@[i as int]));
        assert(p@.take(i + 1) =~= p@.take(i as int).push(p@[i as int]));
        i += 1;
    }
    assert(p@.take(i as int) =~= p@);
    true
}

/// Whether `s` ends with `suffix`.
pub fn has_suffix(s: &str, suffix: &str) -> (r: bool)
    ensures
        r == suffix@.is_suffix_of(s@),
{
    let a = chars_of(s);
    let p = chars_of(suffix);
    if a.len() < p.len() {
        return false;
    }
    let start: usize = a.len() - p.len();
    let mut i: usize = 0;
    while i < p.len()
        invariant
            i <= p@.len(),
            start + p.len() == a.len(),
            p@ == suffix@,
            a@ == s@,
            a@.subrange(start as int, start + i) == p@.take(i as int),
        decreases p.len() - i,
    {
        if a[start + i] != p[i] {
            assert(s@.skip(start as int)[i as int] == a@[start + i]);
            return false;
        }
        assert(a@.subrange(start as int, start + i + 1) =~= a@.subrange(
            start as int,
            start + i,
        ).push(a@[start + i]));
        assert(p@.take(i + 1) =~= p@.take(i as int).push(p@[i as int]));
        i += 1;
    }
    assert(p@.take(i as int) =~= p@);
    assert(a@.subrange(start as int, start + i) =~= a@.skip(start as int));
    true
}

/// The concatenation of two texts.
pub fn join(a: &str, b: &str) -> (s: String)
    ensures
        s@ == a@ + b@,
{
    let mut s = a.to_owned();
    s.append(b);
    s
}

/// The concatenation of three texts.
pub fn join3(a: &str, b: &str, c: &str) -> (s: String)
    ensures
        s@ == a@ + b@ + c@,
{
    let mut s = join(a, b);
    s.append(c);
    s
}

// ---------------------------------------------------------------------------
// Trimming
// ---------------------------------------------------------------------------

/// `s` without the `c`s at its end.
pub open spec fn trim_end_of(s: Seq<char>, c: char) -> Seq<char>
    decreases s.len(),
{
    if s.len() > 0 && s.last() == c {
        trim_end_of(s.drop_last(), c)
    } else {
        s
    }
}

/// `s` without the `c`s at its end.
pub fn trim_end_char(s: &str, c: char) -> (r: String)
    ensures
        r@ == trim_end_of(s@, c),
{
    let chars = chars_of(s);
    let mut end: usize = chars.len();
    assert(s@.take(end as int) =~= s@);
    while end > 0 && chars[end - 1] == c
        invariant
            end <= chars@.len(),
            chars@ == s@,
            trim_end_of(s@.take(end as int), c) == trim_end_of(s@, c),
        decreases end,
    {
        assert(s@.take(end as int).drop_last() =~= s@.take(end - 1));
        end -= 1;
    }
    assert(s@.take(end as int) =~= chars@.subrange(0, end as int));
    string_of(&chars, 0, end)
}

/// Unicode white space.
pub open spec fn is_space(c: char) -> bool {
    let v = c as u32;
    9 <= v <= 13 || v == 0x20 || v == 0x85 || v == 0xA0 || v == 0x1680 || 0x2000 <= v <= 0x200A || v
        == 0x2028 || v == 0x2029 || v == 0x202F || v == 0x205F || v == 0x3000
}

/// Whether `c` is Unicode white space.
pub fn space_char(c: char) -> (r: bool)
    ensures
        r == is_space(c),
{
    let v: u32 = c as u32;
    (9 <= v && v <= 13) || v == 0x20 || v == 0x85 || v == 0xA0 || v == 0x1680 || (0x2000 <= v && v
        <= 0x200A) || v == 0x2028 || v == 0x2029 || v == 0x202F || v == 0x205F || v == 0x3000
}

/// `s` without the white space at its end.
pub open spec fn trim_end_space(s: Seq<char>) -> Seq<char>
    decreases s.len(),
{
    if s.len() > 0 && is_space(s.last()) {
        trim_end_space(s.drop_last())
    } else {
        s
    }
}

/// `s` without the white space at its start.
pub open spec fn trim_start_space(s: Seq<char>) -> Seq<char>
    decreases s.len(),
{
    if s.len() > 0 && is_space(s[0]) {
        trim_start_space(s.drop_first())
    } else {
        s
    }
}

/// `s` without the white space at either end.
pub open spec fn trimmed(s: Seq<char>) -> Seq<char> {
    trim_end_space(trim_start_space(s))
}

/// `s` without the white space at either end.
pub fn trim_text(s: &str) -> (r: String)
    ensures
        r@ == trimmed(s@),
{
    let chars = chars_of(s);
    let mut start: usize = 0;
    assert(s@.skip(0) =~= s@);
    while start < chars.len() && space_char(chars[start])
        invariant
            start <= chars@.len(),
            chars@ == s@,
            trim_start_space(s@.skip(start as int)) == trim_start_space(s@),
        decreases chars.len() - start,
    {
        assert(s@.skip(start as int).drop_first() =~= s@.skip(start + 1));
        start += 1;
    }
    let ghost t = s@.skip(start as int);
    assert(start < chars@.len() ==> t[0] == chars@[start as int]);
    let mut end: usize = chars.len();
    assert(chars@.subrange(start as int, end as int) =~= t);
    while end > start && space_char(chars[end - 1])
        invariant
            start <= end <= chars@.len(),
            trim_end_space(chars@.subrange(start as int, end as int)) == trim_end_space(t),
        decreases end,
    {
        assert(chars@.subrange(start as int, end as int).drop_last() =~= chars@.subrange(
            start as int,
            end - 1,
        ));
        end -= 1;
    }
    string_of(&chars, start, end)
}

// ---------------------------------------------------------------------------
// Lines
// ---------------------------------------------------------------------------

/// `s` without one carriage return at its end.
pub open spec fn without_return(s: Seq<char>) -> Seq<char> {
    if s.len() > 0 && s.last() == '\r' {
        s.drop_last()
    } else {
        s
    }
}

/// The place of the first line feed in `s`, or its length.
pub open spec fn line_length(s: Seq<char>) -> nat
    decreases s.len(),
{
    if s.len() == 0 || s[0] == '\n' {
        0
    } else {
        1 + line_length(s.drop_first())
    }
}

pub proof fn lemma_line_length(s: Seq<char>)
    ensures
        line_length(s) <= s.len(),
        line_length(s) < s.len() ==> s[line_length(s) as int] == '\n',
        forall|i: int| 0 <= i < line_length(s) ==> #[trigger] s[i] != '\n',
    decreases s.len(),
{
    if s.len() > 0 && s[0] != '\n' {
        lemma_line_length(s.drop_first());
        assert forall|i: int| 0 <= i < line_length(s) implies #[trigger] s[i] != '\n' by {
            if i > 0 {
                assert(s.drop_first()[i - 1] == s[i]);
            }
        }
    }
}

/// The lines of `s`: what stands between line feeds, without the line feed and
/// a carriage return before it. Nothing follows a line feed at the end.
pub open spec fn lines(s: Seq<char>) -> Seq<Seq<char>>
    decreases s.len(),
{
    let n = line_length(s) as int;
    if s.len() == 0 {
        seq![]
    } else if n >= s.len() {
        seq![s]
    } else {
        seq![without_return(s.take(n))] + lines(s.skip(n + 1))
    }
}

proof fn lemma_line_length_is(s: Seq<char>, n: int)
    requires
        0 <= n <= s.len(),
        forall|i: int| 0 <= i < n ==> #[trigger] s[i] != '\n',
        n < s.len() ==> s[n] == '\n',
    ensures
        line_length(s) == n,
{
    lemma_line_length(s);
    if line_length(s) < n {
        assert(s[line_length(s) as int] != '\n');
    }
}

/// The lines of `s`.
pub fn split_lines(s: &str) -> (r: Vec<String>)
    ensures
        texts(r@) == lines(s@),
{
    let chars = chars_of(s);
    let mut r: Vec<String> = Vec::new();
    let mut start: usize = 0;
    assert(s@.skip(0) =~= s@);
    assert(texts(r@) + lines(s@.skip(0)) =~= lines(s@));
    while start < chars.len()
        invariant
            start <= chars@.len(),
            chars@ == s@,
            texts(r@) + lines(s@.skip(start as int)) == lines(s@),
        decreases chars.len() - start,
    {
        let ghost rest = s@.skip(start as int);
        let mut end: usize = start;
        while end < chars.len() && chars[end] != '\n'
            invariant
                start <= end <= chars@.len(),
                forall|i: int| start <= i < end ==> #[trigger] chars@[i] != '\n',
            decreases chars.len() - end,
        {
            end += 1;
        }
        let ghost n = end - start;
        proof {
            assert forall|i: int| 0 <= i < n implies #[trigger] rest[i] != '\n' by {
                assert(rest[i] == chars@[start + i]);
            }
            lemma_line_length_is(rest, n);
        }
        let ghost before = r@;
        if end == chars.len() {
            let line = string_of(&chars, start, end);
            r.push(line);
            assert(line@ =~= rest);
            assert(lines(rest) =~= seq![rest]);
            assert(texts(r@) =~= texts(before).push(rest));
            assert(texts(r@) =~= lines(s@));
            assert(lines(s@.skip(end as int)) =~= seq![]);
            assert(texts(r@) + lines(s@.skip(end as int)) =~= lines(s@));
            start = end;
        } else {
            assert(rest.take(n) =~= chars@.subrange(start as int, end as int));
            let stop: usize = if end > start && chars[end - 1] == '\r' {
                end - 1
            } else {
                end
            };
            let line = string_of(&chars, start, stop);
            assert(line@ =~= without_return(rest.take(n)));
            r.push(line);
            assert(rest.skip(n + 1) =~= s@.skip(end + 1));
            assert(texts(r@) =~= texts(before).push(line@));
            assert(texts(r@) + lines(s@.skip(end + 1)) =~= texts(before) + lines(rest));
            start = end + 1;
        }
    }
    assert(texts(r@) =~= lines(s@));
    r
}

// ---------------------------------------------------------------------------
// Numbers
// ---------------------------------------------------------------------------

/// The digit for `d`.
pub open spec fn digit_of(d: int) -> char {
    ('0' as int + d) as char
}

/// `n` in decimal.
pub open spec fn decimal(n: nat) -> Seq<char>
    decreases n,
{
    if n < 10 {
        seq![digit_of(n as int)]
    } else {
        decimal(n / 10).push(digit_of((n % 10) as int))
    }
}

/// `k` zeros.
pub open spec fn zeros(k: int) -> Seq<char> {
    Seq::new(
        if k > 0 {
            k as nat
        } else {
            0
        },
        |i: int| '0',
    )
}

/// `n` in decimal, with zeros in front where it has fewer than four digits.
pub open spec fn decimal4(n: nat) -> Seq<char> {
    zeros(4 - decimal(n).len()) + decimal(n)
}

fn digit(d: u64) -> (c: char)
    requires
        d < 10,
    ensures
        c == digit_of(d as int),
{
    (48u8 + d as u8) as char
}

fn decimal_chars(n: u64) -> (r: Vec<char>)
    ensures
        r@ == decimal(n as nat),
    decreases n,
{
    if n < 10 {
        let mut r: Vec<char> = Vec::new();
        r.push(digit(n));
        r
    } else {
        let mut r = decimal_chars(n / 10);
        r.push(digit(n % 10));
        r
    }
}

/// `n` in decimal.
pub fn decimal_text(n: u64) -> (s: String)
    ensures
        s@ == decimal(n as nat),
{
    let r = decimal_chars(n);
    assert(r@.subrange(0, r@.len() as int) =~= r@);
    string_of(&r, 0, r.len())
}

/// `n` in decimal, filled up with zeros to four digits.
pub fn decimal4_text(n: u64) -> (s: String)
    ensures
        s@ == decimal4(n as nat),
{
    let digits = decimal_chars(n);
    let mut all: Vec<char> = Vec::new();
    while all.len() + digits.len() < 4
        invariant
            digits@.len() >= 1,
            all@ == zeros(all@.len() as int),
            all@.len() == 0 || all@.len() + digits@.len() <= 4,
        decreases 4 - all.len(),
    {
        all.push('0');
        assert(all@ =~= zeros(all@.len() as int));
    }
    assert(all@ =~= zeros(4 - digits@.len()));
    let mut i: usize = 0;
    while i < digits.len()
        invariant
            i <= digits@.len(),
            all@ == zeros(4 - digits@.len()) + digits@.take(i as int),
        decreases digits.len() - i,
    {
        all.push(digits[i]);
        assert(digits@.take(i + 1) =~= digits@.take(i as int).push(digits@[i as int]));
        i += 1;
    }
    assert(digits@.take(i as int) =~= digits@);
    assert(all@.subrange(0, all@.len() as int) =~= all@);
    string_of(&all, 0, all.len())
}

// ---------------------------------------------------------------------------
// Laws of texts
// ---------------------------------------------------------------------------


/// Trimming takes only the character from the end, and all of it.
pub proof fn trimming_takes_only_the_end(s: Seq<char>, c: char)
    ensures
        ({
            let r = trim_end_of(s, c);
            &&& r.len() <= s.len()
            &&& r == s.take(r.len() as int)
            &&& forall|i: int| r.len() <= i < s.len() ==> #[trigger] s[i] == c
            &&& r.len() > 0 ==> r.last() != c
        }),
    decreases s.len(),
{
    if s.len() > 0 && s.last() == c {
        let t = s.drop_last();
        trimming_takes_only_the_end(t, c);
        let r = trim_end_of(s, c);
        assert(t.take(r.len() as int) =~= s.take(r.len() as int));
        assert forall|i: int| r.len() <= i < s.len() implies #[trigger] s[i] == c by {
            if i < t.len() {
                assert(t[i] == s[i]);
            }
        }
    } else {
        assert(s.take(s.len() as int) =~= s);
    }
}

proof fn lemma_trim_start(s: Seq<char>)
    ensures
        ({
            let r = trim_start_space(s);
            let n = s.len() - r.len();
            &&& 0 <= n <= s.len()
            &&& r == s.skip(n)
            &&& forall|i: int| 0 <= i < n ==> is_space(#[trigger] s[i])
            &&& r.len() > 0 ==> !is_space(r[0])
        }),
    decreases s.len(),
{
    if s.len() > 0 && is_space(s[0]) {
        let t = s.drop_first();
        lemma_trim_start(t);
        let r = trim_start_space(s);
        let n = s.len() - r.len();
        assert(t.skip(n - 1) =~= s.skip(n));
        assert forall|i: int| 0 <= i < n implies is_space(#[trigger] s[i]) by {
            if i > 0 {
                assert(t[i - 1] == s[i]);
            }
        }
    } else {
        assert(s.skip(0) =~= s);
    }
}

proof fn lemma_trim_end(s: Seq<char>)
    ensures
        ({
            let r = trim_end_space(s);
            &&& r.len() <= s.len()
            &&& r == s.take(r.len() as int)
            &&& forall|i: int| r.len() <= i < s.len() ==> is_space(#[trigger] s[i])
            &&& r.len() > 0 ==> !is_space(r.last())
        }),
    decreases s.len(),
{
    if s.len() > 0 && is_space(s.last()) {
        let t = s.drop_last();
        lemma_trim_end(t);
        let r = trim_end_space(s);
        assert(t.take(r.len() as int) =~= s.take(r.len() as int));
        assert forall|i: int| r.len() <= i < s.len() implies is_space(#[trigger] s[i]) by {
            if i < t.len() {
                assert(t[i] == s[i]);
            }
        }
    } else {
        assert(s.take(s.len() as int) =~= s);
    }
}

/// Trimming takes white space from both ends, and all of it, and nothing else. `n`
/// is how many characters it takes from the start.
pub proof fn trimming_takes_only_white_space(s: Seq<char>) -> (n: int)
    ensures
        0 <= n,
        n + trimmed(s).len() <= s.len(),
        trimmed(s) == s.subrange(n, n + trimmed(s).len()),
        forall|i: int| 0 <= i < n ==> is_space(#[trigger] s[i]),
        forall|i: int| n + trimmed(s).len() <= i < s.len() ==> is_space(#[trigger] s[i]),
        trimmed(s).len() > 0 ==> !is_space(trimmed(s)[0]) && !is_space(trimmed(s).last()),
{
    lemma_trim_start(s);
    let t = trim_start_space(s);
    lemma_trim_end(t);
    let n = s.len() - t.len();
    assert(trimmed(s) =~= s.subrange(n, n + trimmed(s).len()));
    assert forall|i: int| n + trimmed(s).len() <= i < s.len() implies is_space(#[trigger] s[i]) by {
        assert(t[i - n] == s[i]);
    }
    n
}

/// The space, the tab and the ends of lines are white space; letters, digits and
/// other ASCII signs are not.
pub proof fn ascii_white_space(c: char)
    requires
        (c as u32) < 0x80,
    ensures
        is_space(c) <==> c == ' ' || c == '\t' || c == '\n' || c == '\r' || c as u32 == 0x0B || c as u32
            == 0x0C,
{
}

/// A text without a line feed is one line, and an empty text has none.
pub proof fn texts_without_line_feeds_are_one_line(s: Seq<char>)
    requires
        forall|i: int| 0 <= i < s.len() ==> #[trigger] s[i] != '\n',
    ensures
        s.len() > 0 ==> lines(s) == seq![s],
        s.len() == 0 ==> lines(s) == Seq::<Seq<char>>::empty(),
{
    lemma_line_length_is(s, s.len() as int);
}

/// A line feed ends a line, and a carriage return before it belongs to it.
pub proof fn lines_end_at_line_feeds(line: Seq<char>, rest: Seq<char>)
    requires
        forall|i: int| 0 <= i < line.len() ==> #[trigger] line[i] != '\n',
        line.len() > 0 ==> line.last() != '\r',
    ensures
        lines(line + (seq!['\n'] + rest)) == seq![line] + lines(rest),
        lines(line + (seq!['\r', '\n'] + rest)) == seq![line] + lines(rest),
{
    let s = line + (seq!['\n'] + rest);
    let n = line.len() as int;
    assert(s[n] == '\n');
    lemma_line_length_is(s, n);
    assert(s.take(n) =~= line);
    assert(s.skip(n + 1) =~= rest);
    let t = line + (seq!['\r', '\n'] + rest);
    assert(t[n] == '\r' && t[n + 1] == '\n');
    assert forall|i: int| 0 <= i < n + 1 implies #[trigger] t[i] != '\n' by {}
    lemma_line_length_is(t, n + 1);
    assert(t.take(n + 1).last() == '\r');
    assert(t.take(n + 1).drop_last() =~= line);
    assert(t.skip(n + 2) =~= rest);
}

/// Of a text in ASCII capitals become small letters, and all else stays.
pub proof fn capitals_become_small_letters(s: Seq<char>, i: int)
    requires
        forall|k: int| 0 <= k < s.len() ==> #[trigger] s[k] <= '\u{7f}',
        0 <= i < s.len(),
    ensures
        lowercase(s).len() == s.len(),
        'A' <= s[i] <= 'Z' ==> lowercase(s)[i] as int - 'a' as int == s[i] as int - 'A' as int,
        s[i] < 'A' || s[i] > 'Z' ==> lowercase(s)[i] == s[i],
{
    assert(all_ascii(s)) by {
        assert forall|k: int| 0 <= k < s.len() implies #[trigger] s[k] < '\u{80}' by {
            assert(s[k] <= '\u{7f}');
        }
    }
}

/// The view of a list has each text at its place.
pub proof fn texts_are_those_of_the_list(list: Seq<String>, i: int)
    requires
        0 <= i < list.len(),
    ensures
        texts(list).len() == list.len(),
        texts(list)[i] == list[i]@,
{
}

/// A number is written in decimal without zeros in front: the last
/// digit is what is left by ten, and the others write the tenth of it.
pub proof fn numbers_are_written_in_decimal(n: nat)
    ensures
        n <= 9 ==> decimal(n).len() == 1 && decimal(n)[0] as int == '0' as int + n,
        n > 9 ==> {
            &&& decimal(n)[0] != '0'
            &&& decimal(n).last() as int == '0' as int + n % 10
            &&& decimal(n).take(decimal(n).len() - 1) == decimal(n / 10)
        },
    decreases n,
{
    if n > 9 {
        numbers_are_written_in_decimal(n / 10);
        assert(decimal(n).take(decimal(n).len() - 1) =~= decimal(n / 10));
        assert(decimal(n)[0] == decimal(n / 10)[0]);
    }
}

/// A number with fewer than four digits is filled up to four with zeros; another is
/// written as it is.
pub proof fn short_numbers_are_filled_up(n: nat)
    ensures
        decimal(n).len() >= 4 ==> decimal4(n) == decimal(n),
        decimal(n).len() < 4 ==> {
            &&& decimal4(n).len() == 4
            &&& decimal4(n).skip(4 - decimal(n).len()) == decimal(n)
            &&& forall|i: int| 0 <= i < 4 - decimal(n).len() ==> #[trigger] decimal4(n)[i] == '0'
        },
{
    if decimal(n).len() >= 4 {
        assert(decimal4(n) =~= decimal(n));
    } else {
        assert(decimal4(n).skip(4 - decimal(n).len()) =~= decimal(n));
    }
}

} // verus!
