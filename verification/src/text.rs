//! Text on characters: the views that contracts speak of, and the small routines the
//! rest of the library builds on (whitespace, trimming, line splitting, searching).

use unicode_width::UnicodeWidthChar;
use unicode_width::UnicodeWidthStr;
use vstd::prelude::*;

verus! {

broadcast use vstd::string::group_string_axioms;

// ----- whitespace ---------------------------------------------------------------------

/// Unicode `White_Space`, the set that `char::is_whitespace` tests.
pub open spec fn is_ws(c: char) -> bool {
    let n = c as u32;
    (0x9 <= n && n <= 0xd) || n == 0x20 || n == 0x85 || n == 0xa0 || n == 0x1680 || (0x2000
        <= n && n <= 0x200a) || n == 0x2028 || n == 0x2029 || n == 0x202f || n == 0x205f || n
        == 0x3000
}

pub fn is_whitespace(c: char) -> (r: bool)
    ensures
        r == is_ws(c),
{
    let n = c as u32;
    (0x9 <= n && n <= 0xd) || n == 0x20 || n == 0x85 || n == 0xa0 || n == 0x1680 || (0x2000
        <= n && n <= 0x200a) || n == 0x2028 || n == 0x2029 || n == 0x202f || n == 0x205f || n
        == 0x3000
}

/// The text without its leading whitespace.
pub open spec fn trim_start(s: Seq<char>) -> Seq<char>
    decreases s.len(),
{
    if s.len() > 0 && is_ws(s[0]) {
        trim_start(s.drop_first())
    } else {
        s
    }
}

/// The text without its trailing whitespace.
pub open spec fn trim_end(s: Seq<char>) -> Seq<char>
    decreases s.len(),
{
    if s.len() > 0 && is_ws(s.last()) {
        trim_end(s.drop_last())
    } else {
        s
    }
}

pub open spec fn trim(s: Seq<char>) -> Seq<char> {
    trim_end(trim_start(s))
}

/// Index of the first character of `s` at or after `i` that is not whitespace.
pub fn skip_ws(s: &Vec<char>, i: usize, end: usize) -> (r: usize)
    requires
        i <= end <= s.len(),
    ensures
        i <= r <= end,
        trim_start(s@.subrange(i as int, end as int)) == s@.subrange(r as int, end as int),
        r < end ==> !is_ws(s@[r as int]),
        forall|k: int| i <= k < r ==> is_ws(#[trigger] s@[k]),
{
    let mut j = i;
    while j < end && is_whitespace(s[j])
        invariant
            i <= j <= end <= s.len(),
            trim_start(s@.subrange(i as int, end as int)) == trim_start(
                s@.subrange(j as int, end as int),
            ),
            forall|k: int| i <= k < j ==> is_ws(#[trigger] s@[k]),
        decreases end - j,
    {
        assert(s@.subrange(j as int, end as int).drop_first() =~= s@.subrange(
            j + 1,
            end as int,
        ));
        j = j + 1;
    }
    j
}

/// One past the last character of `s[start..end]` that is not whitespace.
pub fn skip_ws_back(s: &Vec<char>, start: usize, end: usize) -> (r: usize)
    requires
        start <= end <= s.len(),
    ensures
        start <= r <= end,
        trim_end(s@.subrange(start as int, end as int)) == s@.subrange(start as int, r as int),
        r > start ==> !is_ws(s@[r - 1]),
        forall|k: int| r <= k < end ==> is_ws(#[trigger] s@[k]),
{
    let mut j = end;
    while j > start && is_whitespace(s[j - 1])
        invariant
            start <= j <= end <= s.len(),
            trim_end(s@.subrange(start as int, end as int)) == trim_end(
                s@.subrange(start as int, j as int),
            ),
            forall|k: int| j <= k < end ==> is_ws(#[trigger] s@[k]),
        decreases j - start,
    {
        assert(s@.subrange(start as int, j as int).drop_last() =~= s@.subrange(
            start as int,
            j - 1,
        ));
        j = j - 1;
    }
    j
}

/// A copy of `s[a..b]`.
pub fn slice(s: &Vec<char>, a: usize, b: usize) -> (r: Vec<char>)
    requires
        a <= b <= s.len(),
    ensures
        r@ == s@.subrange(a as int, b as int),
{
    let mut r: Vec<char> = Vec::new();
    let mut i = a;
    while i < b
        invariant
            a <= i <= b <= s.len(),
            r@ == s@.subrange(a as int, i as int),
        decreases b - i,
    {
        r.push(s[i]);
        i = i + 1;
    }
    r
}

/// `s[a..b]` without whitespace at either end, as window bounds.
pub fn trim_window(s: &Vec<char>, a: usize, b: usize) -> (r: (usize, usize))
    requires
        a <= b <= s.len(),
    ensures
        a <= r.0 <= r.1 <= b,
        trim(s@.subrange(a as int, b as int)) == s@.subrange(r.0 as int, r.1 as int),
{
    let i = skip_ws(s, a, b);
    let j = skip_ws_back(s, i, b);
    proof {
        assert(trim_start(s@.subrange(a as int, b as int)) == s@.subrange(i as int, b as int));
    }
    (i, j)
}

/// A trimmed copy of `s[a..b]`.
pub fn trimmed(s: &Vec<char>, a: usize, b: usize) -> (r: Vec<char>)
    requires
        a <= b <= s.len(),
    ensures
        r@ == trim(s@.subrange(a as int, b as int)),
{
    let (i, j) = trim_window(s, a, b);
    slice(s, i, j)
}

/// A trimmed copy of all of `s`.
pub fn trim_all(s: &Vec<char>) -> (r: Vec<char>)
    ensures
        r@ == trim(s@),
{
    assert(s@.subrange(0, s@.len() as int) =~= s@);
    trimmed(s, 0, s.len())
}

// ----- conversions --------------------------------------------------------------------

pub fn chars_of(s: &str) -> (v: Vec<char>)
    ensures
        v@ == s@,
{
    let mut v: Vec<char> = Vec::new();
    for c in it: s.chars()
        invariant
            it.seq() == s@,
            v@ == it.seq().take(it.index() as int),
    {
        v.push(c);
    }
    v
}

/// Builds a `String` from its characters (`FromIterator<char>` for `String`); the result holds
/// exactly those characters, in order.
#[verifier::external_body]
pub(crate) fn string_of(v: &Vec<char>) -> (s: String)
    ensures
        s@ == v@,
{
    v.iter().collect()
}

/// Appends `t` to `v`.
pub fn push_all(v: &mut Vec<char>, t: &Vec<char>)
    ensures
        final(v)@ == old(v)@ + t@,
{
    let mut i: usize = 0;
    while i < t.len()
        invariant
            0 <= i <= t.len(),
            v@ == old(v)@ + t@.take(i as int),
        decreases t.len() - i,
    {
        v.push(t[i]);
        i = i + 1;
        assert(t@.take(i as int) =~= t@.take(i - 1).push(t@[i - 1]));
    }
    assert(t@.take(t.len() as int) =~= t@);
}

/// Appends the characters of `t` to `v`.
pub fn push_str(v: &mut Vec<char>, t: &str)
    ensures
        final(v)@ == old(v)@ + t@,
{
    let c = chars_of(t);
    push_all(v, &c);
}

pub fn chars_eq(a: &Vec<char>, b: &Vec<char>) -> (r: bool)
    ensures
        r == (a@ == b@),
{
    if a.len() != b.len() {
        return false;
    }
    let mut i: usize = 0;
    while i < a.len()
        invariant
            a.len() == b.len(),
            0 <= i <= a.len(),
            forall|k: int| 0 <= k < i ==> a@[k] == b@[k],
        decreases a.len() - i,
    {
        if a[i] != b[i] {
            return false;
        }
        i = i + 1;
    }
    assert(a@ =~= b@);
    true
}

// ----- searching ----------------------------------------------------------------------

/// `pat` occurs in `s` at position `i`.
pub open spec fn occurs_at(s: Seq<char>, pat: Seq<char>, i: int) -> bool {
    0 <= i && i + pat.len() <= s.len() && s.subrange(i, i + pat.len()) == pat
}

pub open spec fn occurs(s: Seq<char>, pat: Seq<char>) -> bool {
    exists|i: int| occurs_at(s, pat, i)
}

pub fn has_at(s: &Vec<char>, i: usize, pat: &Vec<char>) -> (r: bool)
    ensures
        r == occurs_at(s@, pat@, i as int),
{
    if i > s.len() || pat.len() > s.len() - i {
        return false;
    }
    let mut k: usize = 0;
    while k < pat.len()
        invariant
            i + pat.len() <= s.len(),
            0 <= k <= pat.len(),
            forall|j: int| 0 <= j < k ==> s@[i + j] == pat@[j],
        decreases pat.len() - k,
    {
        if s[i + k] != pat[k] {
            assert(s@.subrange(i as int, i + pat.len())[k as int] != pat@[k as int]);
            return false;
        }
        k = k + 1;
    }
    assert(s@.subrange(i as int, i + pat.len()) =~= pat@);
    true
}

/// Whether `pat` occurs anywhere in `s`.
pub fn contains_seq(s: &Vec<char>, pat: &Vec<char>) -> (r: bool)
    ensures
        r == occurs(s@, pat@),
{
    let mut i: usize = 0;
    loop
        invariant
            0 <= i <= s.len(),
            forall|j: int| 0 <= j < i ==> !occurs_at(s@, pat@, j),
        decreases s.len() - i,
    {
        if has_at(s, i, pat) {
            return true;
        }
        if i == s.len() {
            assert forall|j: int| !occurs_at(s@, pat@, j) by {
                if 0 <= j && j < i {
                }
            }
            return false;
        }
        i = i + 1;
    }
}

/// Index of the first `c` in `s` from `i` on, or `s.len()` when there is none.
pub open spec fn find_from(s: Seq<char>, c: char, i: int) -> int
    decreases s.len() - i,
{
    if i >= s.len() {
        s.len() as int
    } else if s[i] == c {
        i
    } else {
        find_from(s, c, i + 1)
    }
}

pub proof fn lemma_find_from(s: Seq<char>, c: char, i: int)
    requires
        0 <= i <= s.len(),
    ensures
        i <= find_from(s, c, i) <= s.len(),
        find_from(s, c, i) < s.len() ==> s[find_from(s, c, i)] == c,
        forall|k: int| i <= k < find_from(s, c, i) ==> s[k] != c,
    decreases s.len() - i,
{
    if i < s.len() && s[i] != c {
        lemma_find_from(s, c, i + 1);
    }
}

pub proof fn lemma_find_from_is(s: Seq<char>, c: char, i: int, r: int)
    requires
        0 <= i <= r <= s.len(),
        r < s.len() ==> s[r] == c,
        forall|k: int| i <= k < r ==> s[k] != c,
    ensures
        find_from(s, c, i) == r,
    decreases r - i,
{
    if i < r {
        lemma_find_from_is(s, c, i + 1, r);
    }
}

pub fn find_char(s: &Vec<char>, c: char, i: usize) -> (r: usize)
    requires
        i <= s.len(),
    ensures
        r as int == find_from(s@, c, i as int),
        i <= r <= s.len(),
        r < s.len() ==> s@[r as int] == c,
        forall|k: int| i <= k < r ==> s@[k] != c,
{
    let mut j = i;
    while j < s.len() && s[j] != c
        invariant
            i <= j <= s.len(),
            forall|k: int| i <= k < j ==> s@[k] != c,
        decreases s.len() - j,
    {
        j = j + 1;
    }
    proof {
        lemma_find_from_is(s@, c, i as int, j as int);
    }
    j
}

// ----- lines --------------------------------------------------------------------------

/// A line's text without the `\r` of a `\r\n` ending.
pub open spec fn strip_cr(s: Seq<char>, ended: bool) -> Seq<char> {
    if ended && s.len() > 0 && s.last() == '\r' {
        s.drop_last()
    } else {
        s
    }
}

/// The lines of a text, as `str::lines` yields them: split at `\n`, a `\r` before the `\n`
/// dropped, no empty line after a final `\n`.
pub open spec fn lines_of(s: Seq<char>) -> Seq<Seq<char>>
    decreases s.len(),
{
    if s.len() == 0 {
        seq![]
    } else {
        let i = find_from(s, '\n', 0);
        if i >= s.len() {
            seq![s]
        } else {
            proof {
                lemma_find_from(s, '\n', 0);
            }
            seq![strip_cr(s.take(i), true)] + lines_of(s.skip(i + 1))
        }
    }
}

pub open spec fn views(v: Seq<Vec<char>>) -> Seq<Seq<char>> {
    v.map_values(|x: Vec<char>| x@)
}

/// Splits `s` into its lines.
pub fn split_lines(s: &Vec<char>) -> (r: Vec<Vec<char>>)
    ensures
        views(r@) == lines_of(s@),
{
    let mut out: Vec<Vec<char>> = Vec::new();
    let mut start: usize = 0;
    assert(s@.skip(0) =~= s@);
    assert(views(out@) + lines_of(s@) =~= lines_of(s@));
    while start < s.len()
        invariant
            start <= s.len(),
            lines_of(s@) == views(out@) + lines_of(s@.skip(start as int)),
        decreases s.len() - start,
    {
        let ghost rest = s@.skip(start as int);
        let i = find_char(s, '\n', start);
        proof {
            lemma_find_from_is(rest, '\n', 0, i - start);
        }
        if i >= s.len() {
            let line = slice(s, start, s.len());
            proof {
                assert(line@ =~= rest);
                assert(views(out@.push(line)) =~= views(out@) + seq![line@]);
                assert(s@.skip(s.len() as int) =~= Seq::<char>::empty());
            }
            out.push(line);
            start = s.len();
        } else {
            let mut end = i;
            if end > start && s[end - 1] == '\r' {
                end = end - 1;
            }
            let line = slice(s, start, end);
            proof {
                assert(line@ =~= strip_cr(rest.take(i - start), true));
                assert(rest.skip(i - start + 1) =~= s@.skip(i + 1));
                assert(views(out@.push(line)) =~= views(out@) + seq![line@]);
            }
            out.push(line);
            start = i + 1;
        }
    }
    proof {
        assert(s@.skip(start as int) =~= Seq::<char>::empty());
        assert(views(out@) + Seq::<Seq<char>>::empty() =~= views(out@));
    }
    out
}

// ----- numbers ------------------------------------------------------------------------

pub open spec fn digit(n: nat) -> char {
    if n == 0 {
        '0'
    } else if n == 1 {
        '1'
    } else if n == 2 {
        '2'
    } else if n == 3 {
        '3'
    } else if n == 4 {
        '4'
    } else if n == 5 {
        '5'
    } else if n == 6 {
        '6'
    } else if n == 7 {
        '7'
    } else if n == 8 {
        '8'
    } else {
        '9'
    }
}

/// The decimal digits of `n`, as `format!("{n}")` writes them.
pub open spec fn decimal(n: nat) -> Seq<char>
    decreases n,
{
    if n < 10 {
        seq![digit(n)]
    } else {
        decimal(n / 10).push(digit(n % 10))
    }
}

fn digit_char(n: u64) -> (c: char)
    requires
        n < 10,
    ensures
        c == digit(n as nat),
{
    if n == 0 {
        '0'
    } else if n == 1 {
        '1'
    } else if n == 2 {
        '2'
    } else if n == 3 {
        '3'
    } else if n == 4 {
        '4'
    } else if n == 5 {
        '5'
    } else if n == 6 {
        '6'
    } else if n == 7 {
        '7'
    } else if n == 8 {
        '8'
    } else {
        '9'
    }
}

pub fn decimal_of(n: u64) -> (r: Vec<char>)
    ensures
        r@ == decimal(n as nat),
    decreases n,
{
    if n < 10 {
        vec![digit_char(n)]
    } else {
        let mut r = decimal_of(n / 10);
        r.push(digit_char(n % 10));
        r
    }
}

// ----- outside character data ---------------------------------------------------------

/// The first character of `char::to_lowercase` of a character.
pub uninterp spec fn lower_char(c: char) -> char;

/// The first character of `char::to_uppercase` of a character.
pub uninterp spec fn upper_char(c: char) -> char;

/// `str::to_lowercase` of a text.
pub uninterp spec fn lower_text(s: Seq<char>) -> Seq<char>;

/// `char::is_alphanumeric`.
pub uninterp spec fn alphanumeric(c: char) -> bool;

/// `UnicodeWidthChar::width` of `unicode-width`: columns of a character, `None` for control
/// characters.
pub uninterp spec fn char_columns(c: char) -> Option<usize>;

/// `UnicodeWidthStr::width` of `unicode-width`: columns of a text.
pub uninterp spec fn text_columns(s: Seq<char>) -> usize;

/// Calls `char::to_lowercase` and keeps its first character (the character itself if the
/// iterator were empty). Claims that the result is `lower_char(c)`, and, as the Unicode case
/// mapping that the method follows has it for ASCII, that `A` to `Z` become `a` to `z` and
/// every other ASCII character stays as it is.
#[verifier::external_body]
pub(crate) fn to_lower(c: char) -> (r: char)
    ensures
        r == lower_char(c),
        'A' <= c <= 'Z' ==> r as u32 == c as u32 + 32,
        (c as u32) < 0x80 && !('A' <= c <= 'Z') ==> r == c,
{
    c.to_lowercase().next().unwrap_or(c)
}

/// Calls `char::to_uppercase` and keeps its first character. Claims that the result is
/// `upper_char(c)`, and that for ASCII `a` to `z` become `A` to `Z` and every other ASCII
/// character stays as it is.
#[verifier::external_body]
pub(crate) fn to_upper(c: char) -> (r: char)
    ensures
        r == upper_char(c),
        'a' <= c <= 'z' ==> r as u32 + 32 == c as u32,
        (c as u32) < 0x80 && !('a' <= c <= 'z') ==> r == c,
{
    c.to_uppercase().next().unwrap_or(c)
}

/// Calls `str::to_lowercase` on the text. Claims only that the result is `lower_text(s)`.
#[verifier::external_body]
pub(crate) fn lowercase(s: &Vec<char>) -> (r: Vec<char>)
    ensures
        r@ == lower_text(s@),
{
    let text: String = s.iter().collect();
    text.to_lowercase().chars().collect()
}

/// Calls `char::is_alphanumeric`. Claims that the result is `alphanumeric(c)`, and that among
/// ASCII characters exactly the letters and digits are alphanumeric.
#[verifier::external_body]
pub(crate) fn is_alphanumeric(c: char) -> (r: bool)
    ensures
        r == alphanumeric(c),
        (c as u32) < 0x80 ==> (r <==> ('a' <= c <= 'z' || 'A' <= c <= 'Z' || '0' <= c <= '9')),
{
    c.is_alphanumeric()
}

/// Calls `UnicodeWidthChar::width` of `unicode-width`. As its source shows, printable ASCII
/// (U+0020 to U+007E) is one column, C0 and C1 control characters have no width, and no
/// character is wider than three columns.
#[verifier::external_body]
pub(crate) fn char_width(c: char) -> (r: Option<usize>)
    ensures
        r == char_columns(c),
        0x20 <= (c as u32) < 0x7f ==> r == Some(1usize),
        (c as u32) < 0x20 || (0x7f <= (c as u32) && (c as u32) < 0xa0) ==> r is None,
        r matches Some(w) ==> w <= 3,
{
    UnicodeWidthChar::width(c)
}

/// Calls `UnicodeWidthStr::width` of `unicode-width` on the text. Claims that the result is
/// `text_columns(s)`, and, as its source shows (`str_width` counts every character up to
/// U+00A0 but `\r` before `\n` as one column, and a lone character as its table width, at
/// most three), that printable ASCII text is one column per character and that a text of one
/// character is at most three columns wide; the crate's rules for ligatures and emoji
/// sequences are not restated.
#[verifier::external_body]
pub(crate) fn text_width(s: &Vec<char>) -> (r: usize)
    ensures
        r == text_columns(s@),
        (forall|i: int| 0 <= i < s@.len() ==> 0x20 <= (#[trigger] s@[i] as u32) < 0x7f) ==> r == s@.len(),
        s@.len() == 1 ==> r <= 3,
{
    let text: String = s.iter().collect();
    UnicodeWidthStr::width(text.as_str())
}


// ----- splitting and joining ----------------------------------------------------------

/// The pieces of `s` between the `c`s, as `str::split` yields them.
pub open spec fn split_on(s: Seq<char>, c: char) -> Seq<Seq<char>>
    decreases s.len(),
{
    let i = find_from(s, c, 0);
    if i >= s.len() {
        seq![s]
    } else {
        proof {
            lemma_find_from(s, c, 0);
        }
        seq![s.take(i)] + split_on(s.skip(i + 1), c)
    }
}

/// Splitting always yields at least one piece.
pub proof fn lemma_split_nonempty(s: Seq<char>, c: char)
    ensures
        split_on(s, c).len() >= 1,
    decreases s.len(),
{
    lemma_find_from(s, c, 0);
}

/// Splits `s` at every `c`.
pub fn split_char(s: &Vec<char>, c: char) -> (r: Vec<Vec<char>>)
    ensures
        views(r@) == split_on(s@, c),
{
    let mut out: Vec<Vec<char>> = Vec::new();
    let mut start: usize = 0;
    assert(s@.skip(0) =~= s@);
    loop
        invariant
            start <= s.len(),
            split_on(s@, c) == views(out@) + split_on(s@.skip(start as int), c),
        decreases s.len() - start,
    {
        let ghost rest = s@.skip(start as int);
        let i = find_char(s, c, start);
        proof {
            lemma_find_from_is(rest, c, 0, i - start);
        }
        let piece = slice(s, start, i);
        assert(piece@ =~= rest.take(i - start));
        let ghost before = out@;
        out.push(piece);
        assert(views(out@) =~= views(before) + seq![piece@]);
        if i >= s.len() {
            assert(piece@ =~= rest);
            return out;
        }
        assert(rest.skip(i - start + 1) =~= s@.skip(i + 1));
        start = i + 1;
    }
}

/// `parts` joined with `sep` between them.
pub open spec fn join(parts: Seq<Seq<char>>, sep: Seq<char>) -> Seq<char>
    decreases parts.len(),
{
    if parts.len() == 0 {
        seq![]
    } else if parts.len() == 1 {
        parts[0]
    } else {
        join(parts.drop_last(), sep) + sep + parts.last()
    }
}

pub fn join_chars(parts: &Vec<Vec<char>>, sep: &Vec<char>) -> (r: Vec<char>)
    ensures
        r@ == join(views(parts@), sep@),
{
    let mut out: Vec<char> = Vec::new();
    let mut k: usize = 0;
    while k < parts.len()
        invariant
            0 <= k <= parts.len(),
            out@ == join(views(parts@).take(k as int), sep@),
        decreases parts.len() - k,
    {
        let ghost before = out@;
        if k > 0 {
            push_all(&mut out, sep);
        }
        push_all(&mut out, &parts[k]);
        proof {
            let vs = views(parts@).take(k + 1);
            assert(vs.drop_last() =~= views(parts@).take(k as int));
            if k == 0 {
                assert(out@ =~= vs[0]);
            } else {
                assert(out@ =~= join(vs.drop_last(), sep@) + sep@ + vs.last());
            }
        }
        k = k + 1;
    }
    assert(views(parts@).take(parts.len() as int) =~= views(parts@));
    out
}

// ----- prefixes, suffixes, case ---------------------------------------------------------

pub open spec fn starts_with(s: Seq<char>, p: Seq<char>) -> bool {
    p.len() <= s.len() && s.take(p.len() as int) == p
}

pub open spec fn ends_with(s: Seq<char>, p: Seq<char>) -> bool {
    p.len() <= s.len() && s.skip(s.len() - p.len()) == p
}

pub fn has_prefix(s: &Vec<char>, p: &Vec<char>) -> (r: bool)
    ensures
        r == starts_with(s@, p@),
{
    let r = has_at(s, 0, p);
    proof {
        if p.len() <= s.len() {
            assert(s@.subrange(0, p.len() as int) =~= s@.take(p.len() as int));
        }
    }
    r
}

pub fn has_suffix(s: &Vec<char>, p: &Vec<char>) -> (r: bool)
    ensures
        r == ends_with(s@, p@),
{
    if p.len() > s.len() {
        return false;
    }
    let r = has_at(s, s.len() - p.len(), p);
    assert(s@.subrange(s.len() - p.len(), s.len() as int) =~= s@.skip(s.len() - p.len()));
    r
}

/// A character with ASCII capitals made small, as `u8::to_ascii_lowercase` does for ASCII.
pub open spec fn ascii_lower(c: char) -> char {
    if 'A' <= c && c <= 'Z' {
        ((c as u32) + 32) as char
    } else {
        c
    }
}

/// `str::eq_ignore_ascii_case`: equal once ASCII letters are made small.
pub open spec fn eq_ascii_ci(a: Seq<char>, b: Seq<char>) -> bool {
    a.len() == b.len() && forall|i: int| 0 <= i < a.len() ==> ascii_lower(#[trigger] a[i]) == ascii_lower(b[i])
}

pub fn to_ascii_lower(c: char) -> (r: char)
    ensures
        r == ascii_lower(c),
{
    if 'A' <= c && c <= 'Z' {
        let n: u32 = (c as u32) + 32;
        proof {
            assert(0x61 <= n <= 0x7a);
        }
        let r = char_from_ascii(n);
        r
    } else {
        c
    }
}

fn char_from_ascii(n: u32) -> (r: char)
    requires
        n < 0x80,
    ensures
        r == n as char,
{
    let b: u8 = n as u8;
    b as char
}

pub fn eq_ignore_case(a: &Vec<char>, b: &Vec<char>) -> (r: bool)
    ensures
        r == eq_ascii_ci(a@, b@),
{
    if a.len() != b.len() {
        return false;
    }
    let mut i: usize = 0;
    while i < a.len()
        invariant
            a.len() == b.len(),
            0 <= i <= a.len(),
            forall|k: int| 0 <= k < i ==> ascii_lower(#[trigger] a@[k]) == ascii_lower(b@[k]),
        decreases a.len() - i,
    {
        if to_ascii_lower(a[i]) != to_ascii_lower(b[i]) {
            return false;
        }
        i = i + 1;
    }
    true
}

// ----- order --------------------------------------------------------------------------

/// `a` comes before `b` in the order of `str`'s `Ord`: by characters, a prefix first.
pub open spec fn text_lt(a: Seq<char>, b: Seq<char>) -> bool
    decreases a.len(),
{
    if b.len() == 0 {
        false
    } else if a.len() == 0 {
        true
    } else if a[0] != b[0] {
        a[0] < b[0]
    } else {
        text_lt(a.drop_first(), b.drop_first())
    }
}

pub proof fn lemma_text_lt_trans(a: Seq<char>, b: Seq<char>, c: Seq<char>)
    requires
        text_lt(a, b),
        text_lt(b, c),
    ensures
        text_lt(a, c),
    decreases a.len(),
{
    if a.len() > 0 && b.len() > 0 && c.len() > 0 && a[0] == b[0] && b[0] == c[0] {
        lemma_text_lt_trans(a.drop_first(), b.drop_first(), c.drop_first());
    }
}

pub proof fn lemma_text_lt_irrefl(a: Seq<char>)
    ensures
        !text_lt(a, a),
    decreases a.len(),
{
    if a.len() > 0 {
        lemma_text_lt_irrefl(a.drop_first());
    }
}

pub proof fn lemma_text_lt_total(a: Seq<char>, b: Seq<char>)
    ensures
        text_lt(a, b) || text_lt(b, a) || a == b,
    decreases a.len(),
{
    if a.len() > 0 && b.len() > 0 && a[0] == b[0] {
        lemma_text_lt_total(a.drop_first(), b.drop_first());
        if a.drop_first() == b.drop_first() {
            assert(a =~= seq![a[0]] + a.drop_first());
            assert(b =~= seq![b[0]] + b.drop_first());
        }
    } else if a.len() == 0 && b.len() == 0 {
        assert(a =~= b);
    }
}

pub proof fn lemma_text_lt_asym(a: Seq<char>, b: Seq<char>)
    requires
        text_lt(a, b),
    ensures
        !text_lt(b, a),
    decreases a.len(),
{
    if a.len() > 0 && b.len() > 0 && a[0] == b[0] {
        lemma_text_lt_asym(a.drop_first(), b.drop_first());
    }
}

/// Whether `a` comes before `b`.
pub fn less_than(a: &Vec<char>, b: &Vec<char>) -> (r: bool)
    ensures
        r == text_lt(a@, b@),
{
    let mut i: usize = 0;
    assert(a@.skip(0) =~= a@);
    assert(b@.skip(0) =~= b@);
    while i < a.len() && i < b.len() && a[i] == b[i]
        invariant
            0 <= i <= a.len(),
            i <= b.len(),
            forall|k: int| 0 <= k < i ==> a@[k] == b@[k],
            text_lt(a@, b@) == text_lt(a@.skip(i as int), b@.skip(i as int)),
        decreases a.len() - i,
    {
        proof {
            assert(a@.skip(i as int).drop_first() =~= a@.skip(i + 1));
            assert(b@.skip(i as int).drop_first() =~= b@.skip(i + 1));
        }
        i = i + 1;
    }
    if i == b.len() {
        false
    } else if i == a.len() {
        true
    } else {
        a[i] < b[i]
    }
}


// ----- words --------------------------------------------------------------------------

/// Index of the first whitespace character of `s` from `i` on, or `s.len()`.
pub open spec fn find_ws(s: Seq<char>, i: int) -> int
    decreases s.len() - i,
{
    if i >= s.len() {
        s.len() as int
    } else if is_ws(s[i]) {
        i
    } else {
        find_ws(s, i + 1)
    }
}

pub proof fn lemma_find_ws(s: Seq<char>, i: int)
    requires
        0 <= i <= s.len(),
    ensures
        i <= find_ws(s, i) <= s.len(),
        find_ws(s, i) < s.len() ==> is_ws(s[find_ws(s, i)]),
        forall|k: int| i <= k < find_ws(s, i) ==> !is_ws(s[k]),
    decreases s.len() - i,
{
    if i < s.len() && !is_ws(s[i]) {
        lemma_find_ws(s, i + 1);
    }
}

pub proof fn lemma_find_ws_is(s: Seq<char>, i: int, r: int)
    requires
        0 <= i <= r <= s.len(),
        r < s.len() ==> is_ws(s[r]),
        forall|k: int| i <= k < r ==> !is_ws(s[k]),
    ensures
        find_ws(s, i) == r,
    decreases r - i,
{
    if i < r {
        lemma_find_ws_is(s, i + 1, r);
    }
}

pub proof fn lemma_trim_start_len(s: Seq<char>)
    ensures
        trim_start(s).len() <= s.len(),
        trim_start(s).len() > 0 ==> !is_ws(trim_start(s)[0]),
        trim_start(s) == s.skip(s.len() - trim_start(s).len()),
    decreases s.len(),
{
    if s.len() > 0 && is_ws(s[0]) {
        lemma_trim_start_len(s.drop_first());
        assert(s.drop_first().skip(s.drop_first().len() - trim_start(s).len()) =~= s.skip(
            s.len() - trim_start(s).len(),
        ));
    } else {
        assert(s.skip(0) =~= s);
    }
}

/// The whitespace-separated words of a text, as `str::split_whitespace` yields them.
pub open spec fn words(s: Seq<char>) -> Seq<Seq<char>>
    decreases s.len(),
{
    let t = trim_start(s);
    proof {
        lemma_trim_start_len(s);
    }
    if t.len() == 0 {
        seq![]
    } else {
        let k = find_ws(t, 0);
        proof {
            lemma_find_ws(t, 0);
        }
        seq![t.take(k)] + words(t.skip(k))
    }
}

/// The words of `s[a..b]`.
pub fn split_words(s: &Vec<char>, a: usize, b: usize) -> (r: Vec<Vec<char>>)
    requires
        a <= b <= s.len(),
    ensures
        views(r@) == words(s@.subrange(a as int, b as int)),
{
    let mut out: Vec<Vec<char>> = Vec::new();
    let mut pos = a;
    assert(views(out@) + words(s@.subrange(a as int, b as int)) =~= words(
        s@.subrange(a as int, b as int),
    ));
    loop
        invariant
            a <= pos <= b <= s.len(),
            words(s@.subrange(a as int, b as int)) == views(out@) + words(
                s@.subrange(pos as int, b as int),
            ),
        decreases b - pos,
    {
        let i = skip_ws(s, pos, b);
        let ghost t = s@.subrange(i as int, b as int);
        if i == b {
            assert(words(s@.subrange(pos as int, b as int)) =~= Seq::<Seq<char>>::empty());
            assert(views(out@) + Seq::<Seq<char>>::empty() =~= views(out@));
            return out;
        }
        let mut k = i;
        while k < b && !is_whitespace(s[k])
            invariant
                i <= k <= b <= s.len(),
                forall|j: int| i <= j < k ==> !is_ws(s@[j]),
            decreases b - k,
        {
            k = k + 1;
        }
        proof {
            lemma_find_ws_is(t, 0, k - i);
            assert(t.take(k - i) =~= s@.subrange(i as int, k as int));
            assert(t.skip(k - i) =~= s@.subrange(k as int, b as int));
        }
        let word = slice(s, i, k);
        proof {
            assert(views(out@.push(word)) =~= views(out@) + seq![word@]);
        }
        out.push(word);
        pos = k;
    }
}

} // verus!
