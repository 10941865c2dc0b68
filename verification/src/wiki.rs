//! The wiki index: every `.md` file under the root, its title, and the links between pages.
//!
//! A page is identified by its path relative to the root, without the `.md` extension and with
//! `/` separators (`projects/calcbits`). That is also what `[[projects/calcbits]]` links refer to.

use pulldown_cmark::{Event, LinkType, Options, Parser, Tag};
use vstd::prelude::*;
use vstd::std_specs::cmp::PartialEqSpecImpl;

use crate::text::{
    chars_of, eq_ascii_ci, eq_ignore_case, find_char, find_from, has_at, has_prefix, has_suffix,
    join, join_chars, lemma_find_from, lemma_find_from_is, lines_of, lower_char, lowercase,
    lower_text, occurs, occurs_at, push_all, push_str, slice, split_char, split_lines, split_on,
    split_words, starts_with, ends_with, string_of, to_lower, to_upper, trim, trim_all, upper_char,
    views, words, contains_seq,
};

verus! {

broadcast use vstd::string::group_string_axioms;

// ----- paths --------------------------------------------------------------------------

/// The parts of a slash-separated path that remain once `.` and empty parts are dropped and
/// each `..` removes the part before it.
pub open spec fn norm_parts(parts: Seq<Seq<char>>) -> Seq<Seq<char>>
    decreases parts.len(),
{
    if parts.len() == 0 {
        seq![]
    } else {
        let acc = norm_parts(parts.drop_last());
        let p = parts.last();
        if p.len() == 0 || p == "."@ {
            acc
        } else if p == ".."@ {
            if acc.len() > 0 {
                acc.drop_last()
            } else {
                acc
            }
        } else {
            acc.push(p)
        }
    }
}

/// A path with `.` and `..` segments collapsed.
pub open spec fn normalized(path: Seq<char>) -> Seq<char> {
    join(norm_parts(split_on(path, '/')), "/"@)
}

/// Collapses `.` and `..` segments in a slash-separated path.
pub fn normalize(path: &str) -> (r: String)
    ensures
        r@ == normalized(path@),
{
    let p = chars_of(path);
    let r = normalize_chars(&p);
    string_of(&r)
}

fn normalize_chars(path: &Vec<char>) -> (r: Vec<char>)
    ensures
        r@ == normalized(path@),
{
    let parts = split_char(path, '/');
    let ghost all = views(parts@);
    let mut kept: Vec<Vec<char>> = Vec::new();
    let mut k: usize = 0;
    let dot = chars_of(".");
    let dotdot = chars_of("..");
    proof {
        reveal_strlit(".");
        reveal_strlit("..");
    }
    while k < parts.len()
        invariant
            all == views(parts@),
            dot@ == "."@,
            dotdot@ == ".."@,
            0 <= k <= parts.len(),
            views(kept@) == norm_parts(all.take(k as int)),
        decreases parts.len() - k,
    {
        let p = &parts[k];
        proof {
            assert(all.take(k + 1).drop_last() =~= all.take(k as int));
            assert(all.take(k + 1).last() == p@);
        }
        if p.len() == 0 || crate::text::chars_eq(p, &dot) {
        } else if crate::text::chars_eq(p, &dotdot) {
            if kept.len() > 0 {
                let ghost before = kept@;
                kept.pop();
                assert(views(kept@) =~= views(before).drop_last());
            }
        } else {
            let ghost before = kept@;
            kept.push(p.clone());
            assert(views(kept@) =~= views(before).push(p@));
        }
        k = k + 1;
    }
    assert(all.take(parts.len() as int) =~= all);
    let slash = chars_of("/");
    join_chars(&kept, &slash)
}

/// Normalizing twice is normalizing once: a normalized path has no empty, `.` or `..` part.
pub proof fn normalize_is_idempotent(path: Seq<char>)
    ensures
        normalized(normalized(path)) == normalized(path),
{
    let parts = norm_parts(split_on(path, '/'));
    lemma_split_no_sep(path, '/');
    lemma_norm_parts_clean(split_on(path, '/'));
    lemma_split_join(parts);
    lemma_norm_parts_fixed(parts);
}

/// No part left by `norm_parts` is empty, `.` or `..`.
pub open spec fn clean_parts(parts: Seq<Seq<char>>) -> bool {
    forall|i: int|
        0 <= i < parts.len() ==> {
            &&& (#[trigger] parts[i]).len() > 0
            &&& parts[i] != "."@
            &&& parts[i] != ".."@
            &&& !parts[i].contains('/')
        }
}

proof fn lemma_norm_parts_clean(parts: Seq<Seq<char>>)
    requires
        forall|i: int| 0 <= i < parts.len() ==> !(#[trigger] parts[i]).contains('/'),
    ensures
        clean_parts(norm_parts(parts)),
    decreases parts.len(),
{
    if parts.len() > 0 {
        lemma_norm_parts_clean(parts.drop_last());
        let acc = norm_parts(parts.drop_last());
        assert(parts.last() == parts[parts.len() - 1]);
        if acc.len() > 0 {
            assert forall|i: int| 0 <= i < acc.drop_last().len() implies acc.drop_last()[i] == acc[i] by {}
        }
    }
}

proof fn lemma_norm_parts_fixed(parts: Seq<Seq<char>>)
    requires
        clean_parts(parts),
    ensures
        norm_parts(parts) == parts,
    decreases parts.len(),
{
    if parts.len() > 0 {
        assert(clean_parts(parts.drop_last())) by {
            assert forall|i: int| 0 <= i < parts.drop_last().len() implies parts.drop_last()[i] == parts[i] by {}
        }
        lemma_norm_parts_fixed(parts.drop_last());
        let p = parts[parts.len() - 1];
        assert(p.len() > 0 && p != "."@ && p != ".."@);
        assert(parts.drop_last().push(p) =~= parts);
    }
}

/// Splitting a join of clean parts at `/` gives the parts back (an empty join gives one empty
/// part, which normalizing drops).
proof fn lemma_split_join(parts: Seq<Seq<char>>)
    requires
        clean_parts(parts),
    ensures
        norm_parts(split_on(join(parts, "/"@), '/')) == parts,
    decreases parts.len(),
{
    if parts.len() == 0 {
        assert(split_on(Seq::<char>::empty(), '/') == seq![Seq::<char>::empty()]);
        let one = seq![Seq::<char>::empty()];
        assert(one.drop_last() =~= Seq::<Seq<char>>::empty());
        assert(one.last().len() == 0);
        assert(norm_parts(one.drop_last()) == Seq::<Seq<char>>::empty());
        assert(norm_parts(one) =~= Seq::<Seq<char>>::empty());
    } else {
        lemma_split_join_exact(parts);
        lemma_norm_parts_fixed(parts);
    }
}

pub proof fn lemma_split_no_sep(s: Seq<char>, c: char)
    ensures
        forall|i: int| 0 <= i < split_on(s, c).len() ==> !(#[trigger] split_on(s, c)[i]).contains(c),
    decreases s.len(),
{
    lemma_find_from(s, c, 0);
    let i = find_from(s, c, 0);
    if i >= s.len() {
        assert forall|k: int| 0 <= k < s.len() implies s[k] != c by {}
    } else {
        lemma_split_no_sep(s.skip(i + 1), c);
        let rest = split_on(s.skip(i + 1), c);
        assert forall|j: int| 0 <= j < split_on(s, c).len() implies !(#[trigger] split_on(s, c)[j]).contains(c) by {
            if j == 0 {
                assert(split_on(s, c)[0] == s.take(i));
                assert forall|k: int| 0 <= k < i implies s.take(i)[k] != c by {}
            } else {
                assert(split_on(s, c)[j] == rest[j - 1]);
            }
        }
    }
}

proof fn lemma_split_plain(a: Seq<char>, c: char)
    requires
        !a.contains(c),
    ensures
        split_on(a, c) == seq![a],
{
    lemma_find_from_is(a, c, 0, a.len() as int);
}

/// Splitting at a separator splits both sides.
proof fn lemma_split_concat(a: Seq<char>, b: Seq<char>, c: char)
    ensures
        split_on(a + seq![c] + b, c) == split_on(a, c) + split_on(b, c),
    decreases a.len(),
{
    let s = a + seq![c] + b;
    lemma_find_from(a, c, 0);
    let i = find_from(a, c, 0);
    if i >= a.len() {
        assert(s[a.len() as int] == c);
        assert forall|k: int| 0 <= k < a.len() implies s[k] != c by {
            assert(s[k] == a[k]);
        }
        lemma_find_from_is(s, c, 0, a.len() as int);
        assert(s.take(a.len() as int) =~= a);
        assert(s.skip(a.len() as int + 1) =~= b);
        assert(!a.contains(c));
        lemma_split_plain(a, c);
    } else {
        assert(s[i] == c);
        assert forall|k: int| 0 <= k < i implies s[k] != c by {
            assert(s[k] == a[k]);
        }
        lemma_find_from_is(s, c, 0, i);
        lemma_split_concat(a.skip(i + 1), b, c);
        assert(s.skip(i + 1) =~= a.skip(i + 1) + seq![c] + b);
        assert(s.take(i) =~= a.take(i));
    }
}

proof fn lemma_split_join_exact(parts: Seq<Seq<char>>)
    requires
        parts.len() > 0,
        clean_parts(parts),
    ensures
        split_on(join(parts, "/"@), '/') == parts,
    decreases parts.len(),
{
    reveal_strlit("/");
    let last = parts[parts.len() - 1];
    assert(!last.contains('/'));
    lemma_split_plain(last, '/');
    if parts.len() == 1 {
        assert(seq![last] =~= parts);
    } else {
        let init = parts.drop_last();
        assert(clean_parts(init)) by {
            assert forall|i: int| 0 <= i < init.len() implies init[i] == parts[i] by {}
        }
        lemma_split_join_exact(init);
        assert("/"@ =~= seq!['/']);
        lemma_split_concat(join(init, "/"@), last, '/');
        assert(init.push(last) =~= parts);
        assert(join(parts, "/"@) == join(init, "/"@) + "/"@ + last);
    }
}


/// Id of the `index` page of a folder (`""` for the root).
pub open spec fn index_of(folder: Seq<char>) -> Seq<char> {
    if folder.len() == 0 {
        "index"@
    } else {
        folder + "/index"@
    }
}

fn index_id(folder: &Vec<char>) -> (r: Vec<char>)
    ensures
        r@ == index_of(folder@),
{
    if folder.len() == 0 {
        chars_of("index")
    } else {
        let mut r = folder.clone();
        push_str(&mut r, "/index");
        r
    }
}

/// Index of the last `c` in the first `k` characters of `s`, or -1.
pub open spec fn last_index(s: Seq<char>, c: char, k: int) -> int
    decreases k,
{
    if k <= 0 {
        -1
    } else if s[k - 1] == c {
        k - 1
    } else {
        last_index(s, c, k - 1)
    }
}

/// The text after the last `/`: what `rsplit('/').next()` gives.
pub open spec fn last_segment(s: Seq<char>) -> Seq<char> {
    s.skip(last_index(s, '/', s.len() as int) + 1)
}

/// The text before the last `/`, or `""` when there is none.
pub open spec fn parent_dir(s: Seq<char>) -> Seq<char> {
    let i = last_index(s, '/', s.len() as int);
    if i < 0 {
        seq![]
    } else {
        s.take(i)
    }
}

proof fn lemma_last_index(s: Seq<char>, c: char, k: int)
    requires
        0 <= k <= s.len(),
    ensures
        -1 <= last_index(s, c, k) < k,
        last_index(s, c, k) >= 0 ==> s[last_index(s, c, k)] == c,
        forall|j: int| last_index(s, c, k) < j < k ==> s[j] != c,
    decreases k,
{
    if k > 0 && s[k - 1] != c {
        lemma_last_index(s, c, k - 1);
    }
}

fn last_index_exec(s: &Vec<char>, c: char) -> (r: Option<usize>)
    ensures
        match r {
            Some(i) => i as int == last_index(s@, c, s.len() as int),
            None => last_index(s@, c, s.len() as int) == -1,
        },
{
    let mut k = s.len();
    while k > 0
        invariant
            0 <= k <= s.len(),
            last_index(s@, c, s.len() as int) == last_index(s@, c, k as int),
        decreases k,
    {
        if s[k - 1] == c {
            return Some(k - 1);
        }
        k = k - 1;
    }
    None
}

fn last_segment_exec(s: &Vec<char>) -> (r: Vec<char>)
    ensures
        r@ == last_segment(s@),
{
    proof {
        lemma_last_index(s@, '/', s.len() as int);
    }
    match last_index_exec(s, '/') {
        Some(i) => slice(s, i + 1, s.len()),
        None => {
            assert(s@.skip(0) =~= s@);
            s.clone()
        },
    }
}

fn parent_dir_exec(s: &Vec<char>) -> (r: Vec<char>)
    ensures
        r@ == parent_dir(s@),
{
    proof {
        lemma_last_index(s@, '/', s.len() as int);
    }
    match last_index_exec(s, '/') {
        Some(i) => slice(s, 0, i),
        None => Vec::new(),
    }
}

/// `-` and `_` read as spaces in a slug.
pub open spec fn unslug(c: char) -> char {
    if c == '-' || c == '_' {
        ' '
    } else {
        c
    }
}

/// A slug like `my-wiki-page` made readable: `My wiki page`.
pub open spec fn prettified(slug: Seq<char>) -> Seq<char> {
    let name = last_segment(slug).map_values(|c: char| unslug(c));
    if name.len() == 0 {
        name
    } else {
        name.update(0, upper_char(name[0]))
    }
}

/// Turns a slug like `my-wiki-page` into `My wiki page`: the last path segment, dashes and
/// underscores as spaces, the first character upper-cased.
pub fn prettify(slug: &str) -> (r: String)
    ensures
        r@ == prettified(slug@),
{
    let s = chars_of(slug);
    let r = prettify_chars(&s);
    string_of(&r)
}

fn prettify_chars(slug: &Vec<char>) -> (r: Vec<char>)
    ensures
        r@ == prettified(slug@),
{
    let name = last_segment_exec(slug);
    let mut out: Vec<char> = Vec::new();
    let mut i: usize = 0;
    while i < name.len()
        invariant
            0 <= i <= name.len(),
            out@ == name@.take(i as int).map_values(|c: char| unslug(c)),
        decreases name.len() - i,
    {
        let c = name[i];
        out.push(if c == '-' || c == '_' {
            ' '
        } else {
            c
        });
        assert(name@.take(i + 1).map_values(|c: char| unslug(c)) =~= name@.take(i as int).map_values(
            |c: char| unslug(c),
        ).push(unslug(c)));
        i = i + 1;
    }
    assert(name@.take(name.len() as int) =~= name@);
    if out.len() > 0 {
        let first = to_upper(out[0]);
        out.set(0, first);
    }
    out
}

/// Lower-cased characters, one per input character, so positions line up with the input.
pub open spec fn lowered(s: Seq<char>) -> Seq<char> {
    s.map_values(|c: char| lower_char(c))
}

/// Lower-cases each character on its own (the first character of its lower-case form), so the
/// result has as many characters as the text and positions line up.
pub fn lower_chars(text: &str) -> (r: Vec<char>)
    ensures
        r@ == lowered(text@),
        r.len() == text@.len(),
{
    let s = chars_of(text);
    lower_chars_of(&s)
}

pub fn lower_chars_of(s: &Vec<char>) -> (r: Vec<char>)
    ensures
        r@ == lowered(s@),
{
    let mut out: Vec<char> = Vec::new();
    let mut i: usize = 0;
    while i < s.len()
        invariant
            0 <= i <= s.len(),
            out@ == lowered(s@.take(i as int)),
        decreases s.len() - i,
    {
        out.push(to_lower(s[i]));
        assert(lowered(s@.take(i + 1)) =~= lowered(s@.take(i as int)).push(lower_char(s@[i as int])));
        i = i + 1;
    }
    assert(s@.take(s.len() as int) =~= s@);
    out
}

/// Character index where `needle` first occurs in `haystack`.
pub fn contains(haystack: &[char], needle: &[char]) -> (r: Option<usize>)
    ensures
        needle@.len() == 0 ==> r is None,
        r is None ==> needle@.len() == 0 || !occurs(haystack@, needle@),
        r matches Some(i) ==> occurs_at(haystack@, needle@, i as int) && forall|j: int|
            0 <= j < i ==> !occurs_at(haystack@, needle@, j),
{
    if needle.len() == 0 || haystack.len() < needle.len() {
        proof {
            if needle.len() > 0 {
                assert forall|j: int| !occurs_at(haystack@, needle@, j) by {}
            }
        }
        return None;
    }
    let mut i: usize = 0;
    while i <= haystack.len() - needle.len()
        invariant
            0 < needle.len() <= haystack.len(),
            0 <= i <= haystack.len() - needle.len() + 1,
            forall|j: int| 0 <= j < i ==> !occurs_at(haystack@, needle@, j),
        decreases haystack.len() - needle.len() + 1 - i,
    {
        let mut k: usize = 0;
        while k < needle.len() && haystack[i + k] == needle[k]
            invariant
                i + needle.len() <= haystack.len(),
                0 <= k <= needle.len(),
                forall|m: int| 0 <= m < k ==> haystack@[i + m] == needle@[m],
            decreases needle.len() - k,
        {
            k = k + 1;
        }
        if k == needle.len() {
            assert(haystack@.subrange(i as int, i + needle.len()) =~= needle@);
            return Some(i);
        }
        assert(haystack@.subrange(i as int, i + needle.len())[k as int] != needle@[k as int]);
        i = i + 1;
    }
    assert forall|j: int| !occurs_at(haystack@, needle@, j) by {
        if 0 <= j < i {
        }
    }
    None
}


// ----- search snippets and titles -----------------------------------------------------

/// `line` cut down to about 70 characters around the match at `at`, `…` where it was cut,
/// whitespace runs collapsed to one space.
pub open spec fn snippet_of(line: Seq<char>, at: int, len: int) -> Seq<char> {
    let start = if at > 25 {
        at - 25
    } else {
        0
    };
    let end = if at + len + 45 < line.len() {
        at + len + 45
    } else {
        line.len() as int
    };
    let cut = (if start > 0 {
        seq!['…']
    } else {
        seq![]
    }) + line.subrange(start, end) + (if end < line.len() {
        seq!['…']
    } else {
        seq![]
    });
    join(words(cut), " "@)
}

fn snippet(line: &Vec<char>, at: usize, len: usize) -> (r: Vec<char>)
    requires
        at + len <= line.len(),
    ensures
        r@ == snippet_of(line@, at as int, len as int),
{
    let start = if at > 25 {
        at - 25
    } else {
        0
    };
    let end = if line.len() - at - len > 45 {
        at + len + 45
    } else {
        line.len()
    };
    let mut cut: Vec<char> = Vec::new();
    if start > 0 {
        cut.push('…');
    }
    let mid = slice(line, start, end);
    push_all(&mut cut, &mid);
    if end < line.len() {
        cut.push('…');
    }
    proof {
        let a = if start > 0 { seq!['…'] } else { Seq::<char>::empty() };
        let b = if end < line.len() { seq!['…'] } else { Seq::<char>::empty() };
        assert(cut@ =~= a + line@.subrange(start as int, end as int) + b);
        assert(cut@.subrange(0, cut.len() as int) =~= cut@);
    }
    let ws = split_words(&cut, 0, cut.len());
    let space = chars_of(" ");
    join_chars(&ws, &space)
}

/// The text with every trailing `c` removed.
pub open spec fn strip_end_char(s: Seq<char>, c: char) -> Seq<char>
    decreases s.len(),
{
    if s.len() > 0 && s.last() == c {
        strip_end_char(s.drop_last(), c)
    } else {
        s
    }
}

/// The title of a `# Heading` line.
pub open spec fn heading_title(line: Seq<char>) -> Option<Seq<char>> {
    let t = crate::text::trim_start(line);
    if starts_with(t, "# "@) {
        let h = trim(t.skip(2));
        if h.len() == 0 {
            None
        } else {
            Some(trim(strip_end_char(h, '#')))
        }
    } else {
        None
    }
}

/// Index of the line after the one that closes YAML front matter, from line `j` on.
pub open spec fn closing_line(lines: Seq<Seq<char>>, j: int) -> int
    decreases lines.len() - j,
{
    if j >= lines.len() {
        lines.len() as int
    } else if trim(lines[j]) == "---"@ {
        j + 1
    } else {
        closing_line(lines, j + 1)
    }
}

/// First line after YAML front matter, if the text starts with some.
pub open spec fn body_start(lines: Seq<Seq<char>>) -> int {
    if lines.len() > 0 && trim(lines[0]) == "---"@ {
        closing_line(lines, 1)
    } else {
        0
    }
}

pub open spec fn title_from(lines: Seq<Seq<char>>, k: int) -> Option<Seq<char>>
    decreases lines.len() - k,
{
    if k < 0 || k >= lines.len() {
        None
    } else {
        match heading_title(lines[k]) {
            Some(h) => Some(h),
            None => title_from(lines, k + 1),
        }
    }
}

/// The first `# Heading` of a text, YAML front matter skipped.
pub open spec fn title_of(text: Seq<char>) -> Option<Seq<char>> {
    let ls = lines_of(text);
    title_from(ls, body_start(ls))
}

pub fn strip_end_char_exec(s: &Vec<char>, c: char) -> (r: Vec<char>)
    ensures
        r@ == strip_end_char(s@, c),
{
    let mut k = s.len();
    assert(s@.take(k as int) =~= s@);
    while k > 0 && s[k - 1] == c
        invariant
            0 <= k <= s.len(),
            strip_end_char(s@, c) == strip_end_char(s@.take(k as int), c),
        decreases k,
    {
        assert(s@.take(k as int).drop_last() =~= s@.take(k - 1));
        k = k - 1;
    }
    slice(s, 0, k)
}

fn heading_title_exec(line: &Vec<char>) -> (r: Option<Vec<char>>)
    ensures
        match r {
            Some(v) => heading_title(line@) == Some(v@),
            None => heading_title(line@) is None,
        },
{
    let i = crate::text::skip_ws(line, 0, line.len());
    assert(line@.subrange(0, line.len() as int) =~= line@);
    let t = slice(line, i, line.len());
    let p = chars_of("# ");
    proof {
        reveal_strlit("# ");
    }
    if !has_prefix(&t, &p) {
        return None;
    }
    let h = crate::text::trimmed(&t, 2, t.len());
    assert(t@.subrange(2, t.len() as int) =~= t@.skip(2));
    if h.len() == 0 {
        return None;
    }
    let s = strip_end_char_exec(&h, '#');
    Some(trim_all(&s))
}

fn is_rule(line: &Vec<char>) -> (r: bool)
    ensures
        r == (trim(line@) == "---"@),
{
    let t = trim_all(line);
    let rule = chars_of("---");
    crate::text::chars_eq(&t, &rule)
}

/// The first `# Heading` in the file, skipping YAML front matter.
pub fn extract_title(text: &str) -> (r: Option<String>)
    ensures
        match r {
            Some(s) => title_of(text@) == Some(s@),
            None => title_of(text@) is None,
        },
{
    let src = chars_of(text);
    let lines = split_lines(&src);
    let ghost ls = views(lines@);
    let mut k: usize = 0;
    if lines.len() > 0 && is_rule(&lines[0]) {
        k = 1;
        while k < lines.len() && !is_rule(&lines[k])
            invariant
                ls == views(lines@),
                1 <= k <= lines.len(),
                closing_line(ls, 1) == closing_line(ls, k as int),
            decreases lines.len() - k,
        {
            k = k + 1;
        }
        if k < lines.len() {
            k = k + 1;
        }
    }
    assert(k as int == body_start(ls));
    while k < lines.len()
        invariant
            ls == views(lines@),
            ls == lines_of(text@),
            0 <= k <= lines.len(),
            title_of(text@) == title_from(ls, k as int),
        decreases lines.len() - k,
    {
        assert(ls[k as int] == lines@[k as int]@);
        match heading_title_exec(&lines[k]) {
            Some(h) => {
                return Some(string_of(&h));
            },
            None => {},
        }
        k = k + 1;
    }
    None
}


// ----- rewriting links ----------------------------------------------------------------

/// Index of the first occurrence of `pat` in `s` from `i` on, or `s.len()`.
pub open spec fn find_pat(s: Seq<char>, pat: Seq<char>, i: int) -> int
    decreases s.len() - i,
{
    if i < 0 || i >= s.len() || i + pat.len() > s.len() {
        s.len() as int
    } else if occurs_at(s, pat, i) {
        i
    } else {
        find_pat(s, pat, i + 1)
    }
}

pub proof fn lemma_find_pat(s: Seq<char>, pat: Seq<char>, i: int)
    requires
        0 <= i,
        pat.len() > 0,
    ensures
        find_pat(s, pat, i) < s.len() ==> occurs_at(s, pat, find_pat(s, pat, i)) && i <= find_pat(s, pat, i),
        forall|j: int| i <= j < find_pat(s, pat, i) ==> !occurs_at(s, pat, j),
        find_pat(s, pat, i) <= s.len(),
    decreases s.len() - i,
{
    if i + pat.len() <= s.len() && !occurs_at(s, pat, i) {
        lemma_find_pat(s, pat, i + 1);
    }
}

/// What the text holds at its start: a `[[target|label]]` wiki link, the `](target)` of a
/// Markdown link, or a plain character.
pub enum Piece {
    Wiki { target: Seq<char>, label: Option<Seq<char>>, used: nat },
    Md { target: Seq<char>, used: nat },
    Plain,
}

pub open spec fn piece_at(s: Seq<char>) -> Piece {
    let inner = s.skip(2);
    if starts_with(s, "[["@) && find_pat(inner, "]]"@, 0) < inner.len() {
        let close = find_pat(inner, "]]"@, 0);
        let body = inner.take(close);
        let bar = find_from(body, '|', 0);
        Piece::Wiki {
            target: body.take(bar),
            label: if bar < body.len() {
                Some(body.skip(bar + 1))
            } else {
                None
            },
            used: (close + 4) as nat,
        }
    } else if starts_with(s, "]("@) && find_from(inner, ')', 0) < inner.len() {
        let close = find_from(inner, ')', 0);
        Piece::Md { target: inner.take(close), used: (close + 3) as nat }
    } else {
        Piece::Plain
    }
}

pub proof fn lemma_piece_used(s: Seq<char>)
    requires
        s.len() > 0,
    ensures
        piece_at(s) matches Piece::Wiki { used, .. } ==> 4 <= used <= s.len(),
        piece_at(s) matches Piece::Md { used, .. } ==> 3 <= used <= s.len(),
{
    reveal_strlit("[[");
    reveal_strlit("]]");
    reveal_strlit("](");
    let inner = s.skip(2);
    if starts_with(s, "[["@) {
        lemma_find_pat(inner, "]]"@, 0);
    }
    if starts_with(s, "]("@) {
        lemma_find_from(inner, ')', 0);
    }
}

/// The link targets of a text in order, as `rewrite_links` hands them to its `replace`.
pub open spec fn targets_in(s: Seq<char>) -> Seq<Seq<char>>
    decreases s.len(),
{
    if s.len() == 0 {
        seq![]
    } else {
        proof {
            lemma_piece_used(s);
        }
        match piece_at(s) {
            Piece::Wiki { target, used, .. } => seq![target] + targets_in(s.skip(used as int)),
            Piece::Md { target, used } => seq![target] + targets_in(s.skip(used as int)),
            Piece::Plain => targets_in(s.drop_first()),
        }
    }
}

/// The text with the `k`th and later link targets replaced by `outs` where it holds a
/// replacement.
pub open spec fn rewritten(s: Seq<char>, outs: Seq<Option<Seq<char>>>, k: int) -> Seq<char>
    decreases s.len(),
{
    if s.len() == 0 {
        seq![]
    } else {
        proof {
            lemma_piece_used(s);
        }
        let out = if 0 <= k < outs.len() {
            outs[k]
        } else {
            None
        };
        match piece_at(s) {
            Piece::Wiki { target, label, used } => "[["@ + (match out {
                Some(t) => t,
                None => target,
            }) + (match label {
                Some(l) => "|"@ + l,
                None => seq![],
            }) + "]]"@ + rewritten(s.skip(used as int), outs, k + 1),
            Piece::Md { target, used } => "]("@ + (match out {
                Some(t) => t,
                None => target,
            }) + ")"@ + rewritten(s.skip(used as int), outs, k + 1),
            Piece::Plain => seq![s[0]] + rewritten(s.drop_first(), outs, k),
        }
    }
}

enum PieceExec {
    Wiki { target: Vec<char>, label: Option<Vec<char>>, used: usize },
    Md { target: Vec<char>, used: usize },
    Plain,
}

fn piece_exec(s: &Vec<char>, pos: usize) -> (r: PieceExec)
    requires
        pos < s.len(),
    ensures
        match (r, piece_at(s@.skip(pos as int))) {
            (PieceExec::Wiki { target, label, used }, Piece::Wiki { target: t, label: l, used: u }) => {
                &&& target@ == t
                &&& used == u
                &&& match (label, l) {
                    (Some(a), Some(b)) => a@ == b,
                    (None, None) => true,
                    _ => false,
                }
            },
            (PieceExec::Md { target, used }, Piece::Md { target: t, used: u }) => target@ == t && used == u,
            (PieceExec::Plain, Piece::Plain) => true,
            _ => false,
        },
{
    let ghost s0 = s@.skip(pos as int);
    let ghost inner = s0.skip(2);
    proof {
        reveal_strlit("[[");
        reveal_strlit("]]");
        reveal_strlit("](");
    }
    let open2 = chars_of("[[");
    let close2 = chars_of("]]");
    let md2 = chars_of("](");
    if s.len() - pos >= 2 && has_at(s, pos, &open2) {
        assert(starts_with(s0, "[["@)) by {
            assert(s@.subrange(pos as int, pos + 2) =~= s0.take(2));
        }
        // first "]]" after the opening
        let mut i = pos + 2;
        assert(s@.skip(pos + 2) =~= inner);
        proof {
            lemma_find_pat(inner, "]]"@, 0);
        }
        while s.len() - i >= 2 && !has_at(s, i, &close2)
            invariant
                pos + 2 <= i <= s.len(),
                s@.skip(pos + 2) == inner,
                inner == s0.skip(2),
                s0 == s@.skip(pos as int),
                close2@ == "]]"@,
                "]]"@.len() == 2,
                find_pat(inner, "]]"@, 0) == find_pat(inner, "]]"@, i - pos - 2),
            decreases s.len() - i,
        {
            proof {
                assert(inner.subrange(i - pos - 2, i - pos) =~= s@.subrange(i as int, i + 2));
            }
            i = i + 1;
        }
        if s.len() - i >= 2 {
            proof {
                assert(inner.subrange(i - pos - 2, i - pos) =~= s@.subrange(i as int, i + 2));
                assert(find_pat(inner, "]]"@, 0) == i - pos - 2);
            }
            let body = slice(s, pos + 2, i);
            assert(body@ =~= inner.take(i - pos - 2));
            let bar = find_char(&body, '|', 0);
            let target = slice(&body, 0, bar);
            let label = if bar < body.len() {
                Some(slice(&body, bar + 1, body.len()))
            } else {
                None
            };
            proof {
                assert(target@ =~= body@.take(bar as int));
                if bar < body.len() {
                    assert(body@.subrange(bar + 1, body.len() as int) =~= body@.skip(bar + 1));
                }
            }
            return PieceExec::Wiki { target, label, used: i - pos + 2 };
        }
        assert(find_pat(inner, "]]"@, 0) == inner.len());
    }
    if s.len() - pos >= 2 && has_at(s, pos, &md2) {
        assert(starts_with(s0, "]("@)) by {
            assert(s@.subrange(pos as int, pos + 2) =~= s0.take(2));
        }
        let close = find_char(s, ')', pos + 2);
        proof {
            lemma_find_from_is(inner, ')', 0, close - pos - 2);
        }
        if close < s.len() {
            let target = slice(s, pos + 2, close);
            assert(target@ =~= inner.take(close - pos - 2));
            return PieceExec::Md { target, used: close - pos + 1 };
        }
    }
    proof {
        if starts_with(s0, "[["@) {
            assert(s@.subrange(pos as int, pos + 2) =~= s0.take(2));
        }
        if starts_with(s0, "]("@) {
            assert(s@.subrange(pos as int, pos + 2) =~= s0.take(2));
        }
    }
    PieceExec::Plain
}


pub open spec fn opt_view(o: Option<Vec<char>>) -> Option<Seq<char>> {
    match o {
        Some(v) => Some(v@),
        None => None,
    }
}

pub open spec fn opts_view(v: Seq<Option<Vec<char>>>) -> Seq<Option<Seq<char>>> {
    v.map_values(|o: Option<Vec<char>>| opt_view(o))
}

/// The link targets of `text`, in the order `rewrite_links` hands them to its `replace`.
pub fn link_targets(text: &Vec<char>) -> (r: Vec<Vec<char>>)
    ensures
        views(r@) == targets_in(text@),
{
    let mut out: Vec<Vec<char>> = Vec::new();
    let mut pos: usize = 0;
    assert(text@.skip(0) =~= text@);
    while pos < text.len()
        invariant
            0 <= pos <= text.len(),
            targets_in(text@) == views(out@) + targets_in(text@.skip(pos as int)),
        decreases text.len() - pos,
    {
        let ghost rest = text@.skip(pos as int);
        proof {
            lemma_piece_used(rest);
        }
        let ghost before = out@;
        match piece_exec(text, pos) {
            PieceExec::Wiki { target, used, .. } => {
                out.push(target);
                assert(rest.skip(used as int) =~= text@.skip(pos + used));
                assert(views(out@) =~= views(before) + seq![out@.last()@]);
                pos = pos + used;
            },
            PieceExec::Md { target, used } => {
                out.push(target);
                assert(rest.skip(used as int) =~= text@.skip(pos + used));
                assert(views(out@) =~= views(before) + seq![out@.last()@]);
                pos = pos + used;
            },
            PieceExec::Plain => {
                assert(rest.drop_first() =~= text@.skip(pos + 1));
                pos = pos + 1;
            },
        }
    }
    assert(text@.skip(pos as int) =~= Seq::<char>::empty());
    assert(views(out@) + Seq::<Seq<char>>::empty() =~= views(out@));
    out
}

/// `text` with its link targets replaced, in order, by `outs` where it holds a replacement.
#[verifier::spinoff_prover]
#[verifier::rlimit(50)]
pub fn rewrite_with(text: &Vec<char>, outs: &Vec<Option<Vec<char>>>) -> (r: Vec<char>)
    ensures
        r@ == rewritten(text@, opts_view(outs@), 0),
{
    let ghost ov = opts_view(outs@);
    let mut out: Vec<char> = Vec::new();
    let mut pos: usize = 0;
    let mut k: usize = 0;
    assert(text@.skip(0) =~= text@);
    proof {
        reveal_strlit("[[");
        reveal_strlit("]]");
        reveal_strlit("](");
        reveal_strlit("|");
        reveal_strlit(")");
    }
    while pos < text.len()
        invariant
            ov == opts_view(outs@),
            0 <= pos <= text.len(),
            k <= pos,
            rewritten(text@, ov, 0) == out@ + rewritten(text@.skip(pos as int), ov, k as int),
        decreases text.len() - pos,
    {
        let ghost rest = text@.skip(pos as int);
        proof {
            lemma_piece_used(rest);
        }
        let ghost before = out@;
        let ghost o = if k < outs.len() { ov[k as int] } else { None };
        match piece_exec(text, pos) {
            PieceExec::Wiki { target, label, used } => {
                push_str(&mut out, "[[");
                if k < outs.len() {
                    match &outs[k] {
                        Some(t) => push_all(&mut out, t),
                        None => push_all(&mut out, &target),
                    }
                } else {
                    push_all(&mut out, &target);
                }
                match &label {
                    Some(l) => {
                        push_str(&mut out, "|");
                        push_all(&mut out, l);
                    },
                    None => {},
                }
                push_str(&mut out, "]]");
                proof {
                    let t = match o {
                        Some(t) => t,
                        None => target@,
                    };
                    let lab = match opt_view(label) {
                        Some(l) => "|"@ + l,
                        None => seq![],
                    };
                    assert(out@ =~= before + ("[["@ + t + lab + "]]"@));
                    assert(rest.skip(used as int) =~= text@.skip(pos + used));
                }
                pos = pos + used;
                k = k + 1;
            },
            PieceExec::Md { target, used } => {
                push_str(&mut out, "](");
                if k < outs.len() {
                    match &outs[k] {
                        Some(t) => push_all(&mut out, t),
                        None => push_all(&mut out, &target),
                    }
                } else {
                    push_all(&mut out, &target);
                }
                push_str(&mut out, ")");
                proof {
                    let t = match o {
                        Some(t) => t,
                        None => target@,
                    };
                    assert(out@ =~= before + ("]("@ + t + ")"@));
                    assert(rest.skip(used as int) =~= text@.skip(pos + used));
                }
                pos = pos + used;
                k = k + 1;
            },
            PieceExec::Plain => {
                out.push(text[pos]);
                assert(rest.drop_first() =~= text@.skip(pos + 1));
                assert(out@ =~= before + seq![rest[0]]);
                pos = pos + 1;
            },
        }
    }
    assert(text@.skip(pos as int) =~= Seq::<char>::empty());
    assert(out@ + Seq::<char>::empty() =~= out@);
    out
}

/// `out` is what `replace` can answer for `target`, as a view.
pub open spec fn replaced_by<F: Fn(&str) -> Option<String>>(
    replace: F,
    target: Seq<char>,
    out: Option<Seq<char>>,
) -> bool {
    exists|t: &str, o: Option<String>|
        #![trigger call_ensures(replace, (t,), o)]
        t@ == target && call_ensures(replace, (t,), o) && out == match o {
            Some(s) => Some(s@),
            None => None,
        }
}

/// Replaces link targets in `text`: `replace` gets each `[[target]]` / `[[target|label]]`
/// target and each `[label](target)` target and returns the new target, or `None` to keep it.
pub fn rewrite_links<F: Fn(&str) -> Option<String>>(text: &str, replace: F) -> (r: String)
    requires
        forall|t: &str| call_requires(replace, (t,)),
    ensures
        exists|outs: Seq<Option<Seq<char>>>|
            {
                &&& outs.len() == targets_in(text@).len()
                &&& forall|i: int|
                    0 <= i < outs.len() ==> replaced_by(replace, targets_in(text@)[i], #[trigger] outs[i])
                &&& r@ == rewritten(text@, outs, 0)
            },
        keeps_targets(replace) ==> r@ == text@,
{
    let src = chars_of(text);
    let targets = link_targets(&src);
    let ghost tv = views(targets@);
    let mut outs: Vec<Option<Vec<char>>> = Vec::new();
    let mut i: usize = 0;
    while i < targets.len()
        invariant
            forall|t: &str| call_requires(replace, (t,)),
            tv == views(targets@),
            0 <= i <= targets.len(),
            outs.len() == i,
            forall|j: int| 0 <= j < i ==> replaced_by(replace, tv[j], #[trigger] opt_view(outs@[j])),
        decreases targets.len() - i,
    {
        let t = string_of(&targets[i]);
        let ts = t.as_str();
        let o = replace(ts);
        let v = match &o {
            Some(s) => Some(chars_of(s.as_str())),
            None => None,
        };
        outs.push(v);
        proof {
            assert(ts@ == tv[i as int]);
            assert(opt_view(v) == match o {
                Some(s) => Some(s@),
                None => None,
            });
            assert(call_ensures(replace, (ts,), o));
            assert(replaced_by(replace, tv[i as int], opt_view(outs@[i as int])));
        }
        i = i + 1;
    }
    let r = rewrite_with(&src, &outs);
    let res = string_of(&r);
    proof {
        let ov = opts_view(outs@);
        assert forall|j: int| 0 <= j < ov.len() implies replaced_by(replace, targets_in(text@)[j], #[trigger] ov[j]) by {
            assert(ov[j] == opt_view(outs@[j]));
        }
        assert(ov.len() == targets_in(text@).len());
        assert(res@ == rewritten(text@, ov, 0));
        if keeps_targets(replace) {
            assert forall|j: int|
                0 <= j < targets_in(text@).len() && 0 <= 0 + j < ov.len() implies (#[trigger] ov[0 + j] is None
                    || ov[0 + j] == Some(targets_in(text@)[j])) by {
                assert(replaced_by(replace, targets_in(text@)[j], ov[j]));
                let (t, o) = choose|t: &str, o: Option<String>|
                    #![trigger call_ensures(replace, (t,), o)]
                    t@ == targets_in(text@)[j] && call_ensures(replace, (t,), o) && ov[j] == match o {
                        Some(s) => Some(s@),
                        None => None,
                    };
                assert(call_ensures(replace, (t,), o));
            }
            rewriting_targets_to_themselves_changes_nothing(text@, ov, 0);
        }
    }
    res
}

/// `replace` leaves every target alone or gives it back unchanged.
pub open spec fn keeps_targets<F: Fn(&str) -> Option<String>>(replace: F) -> bool {
    forall|t: &str, o: Option<String>|
        #[trigger] call_ensures(replace, (t,), o) ==> (o matches Some(s) ==> s@ == t@)
}

/// Replacing no target gives the text back unchanged.
pub proof fn rewriting_nothing_changes_nothing(text: Seq<char>, outs: Seq<Option<Seq<char>>>, k: int)
    requires
        forall|i: int| 0 <= i < outs.len() ==> #[trigger] outs[i] is None,
    ensures
        rewritten(text, outs, k) == text,
    decreases text.len(),
{
    if text.len() > 0 {
        lemma_piece_used(text);
        reveal_strlit("[[");
        reveal_strlit("]]");
        reveal_strlit("](");
        reveal_strlit("|");
        reveal_strlit(")");
        let inner = text.skip(2);
        match piece_at(text) {
            Piece::Wiki { target, label, used } => {
                rewriting_nothing_changes_nothing(text.skip(used as int), outs, k + 1);
                let close = find_pat(inner, "]]"@, 0);
                lemma_find_pat(inner, "]]"@, 0);
                let body = inner.take(close);
                let bar = find_from(body, '|', 0);
                lemma_find_from(body, '|', 0);
                assert(inner.subrange(close, close + 2) == "]]"@);
                assert(text.take(2) == "[["@);
                match label {
                    Some(l) => {
                        assert(body =~= target + "|"@ + l);
                    },
                    None => {
                        assert(body =~= target);
                    },
                }
                assert(text =~= "[["@ + body + "]]"@ + text.skip(used as int));
            },
            Piece::Md { target, used } => {
                rewriting_nothing_changes_nothing(text.skip(used as int), outs, k + 1);
                let close = find_from(inner, ')', 0);
                lemma_find_from(inner, ')', 0);
                assert(text.take(2) == "]("@);
                assert(text =~= "]("@ + target + ")"@ + text.skip(used as int));
            },
            Piece::Plain => {
                rewriting_nothing_changes_nothing(text.drop_first(), outs, k);
                assert(text =~= seq![text[0]] + text.drop_first());
            },
        }
    }
}


/// Links whose targets are left alone, or replaced by themselves, leave the text as it was:
/// labels and everything around the links are kept character for character.
pub proof fn rewriting_targets_to_themselves_changes_nothing(text: Seq<char>, outs: Seq<Option<Seq<char>>>, k: int)
    requires
        forall|i: int|
            0 <= i < targets_in(text).len() && 0 <= k + i < outs.len() ==> (#[trigger] outs[k + i] is None
                || outs[k + i] == Some(targets_in(text)[i])),
    ensures
        rewritten(text, outs, k) == text,
    decreases text.len(),
{
    if text.len() > 0 {
        lemma_piece_used(text);
        reveal_strlit("[[");
        reveal_strlit("]]");
        reveal_strlit("](");
        reveal_strlit("|");
        reveal_strlit(")");
        let inner = text.skip(2);
        match piece_at(text) {
            Piece::Wiki { target, label, used } => {
                assert(targets_in(text) == seq![target] + targets_in(text.skip(used as int)));
                assert forall|i: int|
                    0 <= i < targets_in(text.skip(used as int)).len() && 0 <= k + 1 + i < outs.len() implies (#[trigger] outs[k + 1 + i] is None
                        || outs[k + 1 + i] == Some(targets_in(text.skip(used as int))[i])) by {
                    assert(targets_in(text)[i + 1] == targets_in(text.skip(used as int))[i]);
                    let j = i + 1;
                    assert(0 <= j < targets_in(text).len() && 0 <= k + j < outs.len());
                    assert(outs[k + j] is None || outs[k + j] == Some(targets_in(text)[j]));
                    assert(k + j == k + 1 + i);
                }
                if 0 <= k < outs.len() {
                    assert(targets_in(text)[0] == target);
                    let z = 0int;
                    assert(0 <= z < targets_in(text).len() && 0 <= k + z < outs.len());
                    assert(outs[k + z] is None || outs[k + z] == Some(targets_in(text)[z]));
                    assert(k + z == k);
                    assert(outs[k] is None || outs[k] == Some(target));
                }
                rewriting_targets_to_themselves_changes_nothing(text.skip(used as int), outs, k + 1);
                let close = find_pat(inner, "]]"@, 0);
                lemma_find_pat(inner, "]]"@, 0);
                let body = inner.take(close);
                let bar = find_from(body, '|', 0);
                lemma_find_from(body, '|', 0);
                assert(inner.subrange(close, close + 2) == "]]"@);
                assert(text.take(2) == "[["@);
                match label {
                    Some(l) => {
                        assert(body =~= target + "|"@ + l);
                    },
                    None => {
                        assert(body =~= target);
                    },
                }
                assert(text =~= "[["@ + body + "]]"@ + text.skip(used as int));
            },
            Piece::Md { target, used } => {
                assert(targets_in(text) == seq![target] + targets_in(text.skip(used as int)));
                assert forall|i: int|
                    0 <= i < targets_in(text.skip(used as int)).len() && 0 <= k + 1 + i < outs.len() implies (#[trigger] outs[k + 1 + i] is None
                        || outs[k + 1 + i] == Some(targets_in(text.skip(used as int))[i])) by {
                    assert(targets_in(text)[i + 1] == targets_in(text.skip(used as int))[i]);
                    let j = i + 1;
                    assert(0 <= j < targets_in(text).len() && 0 <= k + j < outs.len());
                    assert(outs[k + j] is None || outs[k + j] == Some(targets_in(text)[j]));
                    assert(k + j == k + 1 + i);
                }
                if 0 <= k < outs.len() {
                    assert(targets_in(text)[0] == target);
                    let z = 0int;
                    assert(0 <= z < targets_in(text).len() && 0 <= k + z < outs.len());
                    assert(outs[k + z] is None || outs[k + z] == Some(targets_in(text)[z]));
                    assert(k + z == k);
                    assert(outs[k] is None || outs[k] == Some(target));
                }
                rewriting_targets_to_themselves_changes_nothing(text.skip(used as int), outs, k + 1);
                let close = find_from(inner, ')', 0);
                lemma_find_from(inner, ')', 0);
                assert(text.take(2) == "]("@);
                assert(text =~= "]("@ + target + ")"@ + text.skip(used as int));
            },
            Piece::Plain => {
                assert(targets_in(text) == targets_in(text.drop_first()));
                rewriting_targets_to_themselves_changes_nothing(text.drop_first(), outs, k);
                assert(text =~= seq![text[0]] + text.drop_first());
            },
        }
    }
}


// ----- pages and links ----------------------------------------------------------------

#[derive(Debug, Clone)]
pub struct Page {
    pub id: String,
    pub path: String,
    pub title: String,
    /// Raw link targets as written in the file, in document order, without duplicates.
    pub links: Vec<String>,
    /// The file's Markdown source.
    pub text: String,
}

/// A page matching a wiki search.
#[derive(Debug, Clone)]
pub struct SearchHit {
    pub id: String,
    pub title: String,
    /// Whether the title itself matched.
    pub in_title: bool,
    /// The first matching line, trimmed around the match; empty if only the title matched.
    pub snippet: String,
}

/// Where a link points once resolved against the index.
#[derive(Debug, Clone)]
pub enum LinkTarget {
    Page(String),
    Missing(String),
    External(String),
}

/// A resolved link as text.
pub enum Target {
    Page(Seq<char>),
    Missing(Seq<char>),
    External(Seq<char>),
}

impl View for LinkTarget {
    type V = Target;

    open spec fn view(&self) -> Target {
        match self {
            LinkTarget::Page(s) => Target::Page(s@),
            LinkTarget::Missing(s) => Target::Missing(s@),
            LinkTarget::External(s) => Target::External(s@),
        }
    }
}

pub fn str_eq(a: &String, b: &String) -> (r: bool)
    ensures
        r == (a@ == b@),
{
    let x = chars_of(a.as_str());
    let y = chars_of(b.as_str());
    crate::text::chars_eq(&x, &y)
}

impl PartialEq for LinkTarget {
    fn eq(&self, other: &Self) -> (r: bool) {
        match (self, other) {
            (LinkTarget::Page(a), LinkTarget::Page(b)) => str_eq(a, b),
            (LinkTarget::Missing(a), LinkTarget::Missing(b)) => str_eq(a, b),
            (LinkTarget::External(a), LinkTarget::External(b)) => str_eq(a, b),
            _ => false,
        }
    }
}

impl PartialEqSpecImpl for LinkTarget {
    open spec fn obeys_eq_spec() -> bool {
        true
    }

    open spec fn eq_spec(&self, other: &Self) -> bool {
        self@ == other@
    }
}

impl Eq for LinkTarget {
}

// ----- resolving links ----------------------------------------------------------------

/// The text without leading `c`s.
pub open spec fn strip_start_char(s: Seq<char>, c: char) -> Seq<char>
    decreases s.len(),
{
    if s.len() > 0 && s[0] == c {
        strip_start_char(s.drop_first(), c)
    } else {
        s
    }
}

/// The first page, in id order, whose id equals `a` or `b` ignoring ASCII case, from `k` on.
pub open spec fn first_ci(ids: Seq<Seq<char>>, a: Seq<char>, b: Seq<char>, k: int) -> Option<Seq<char>>
    decreases ids.len() - k,
{
    if k < 0 || k >= ids.len() {
        None
    } else if eq_ascii_ci(ids[k], a) || eq_ascii_ci(ids[k], b) {
        Some(ids[k])
    } else {
        first_ci(ids, a, b, k + 1)
    }
}

/// The page with this exact id, or the `index` page of the folder with this path (`""` is
/// the root), either matched exactly or ignoring case.
pub open spec fn page_for(ids: Seq<Seq<char>>, candidate: Seq<char>) -> Option<Seq<char>> {
    let index = index_of(candidate);
    if ids.contains(candidate) {
        Some(candidate)
    } else if ids.contains(index) {
        Some(index)
    } else {
        first_ci(ids, candidate, index, 0)
    }
}

/// The ids from the `k`th on whose file name is `name`, ignoring ASCII case.
pub open spec fn named(ids: Seq<Seq<char>>, name: Seq<char>, k: int) -> Seq<Seq<char>>
    decreases ids.len() - k,
{
    if k < 0 || k >= ids.len() {
        seq![]
    } else if eq_ascii_ci(last_segment(ids[k]), name) {
        seq![ids[k]] + named(ids, name, k + 1)
    } else {
        named(ids, name, k + 1)
    }
}

/// The path names a folder's `index` page directly (`projects/index`, or `index` for the
/// root's): such pages are linked only through their folder.
pub open spec fn names_an_index(path: Seq<char>) -> bool {
    eq_ascii_ci(last_segment(path), "index"@)
}

/// What a link written as `raw` in page `from` points to, among pages `ids`.
///
/// Wiki links count from the wiki root: `[[projects/calcbits]]`. As a courtesy the link also
/// works relative to the current page's folder, with or without `.md`, ignoring case, and by
/// bare file name when that name is unique in the wiki. A folder's `index` page is linked only
/// through the folder (`[[/projects]]`): a link written to `projects/index` is missing.
pub open spec fn resolved(ids: Seq<Seq<char>>, from: Seq<char>, raw0: Seq<char>) -> Target {
    let raw = trim(raw0);
    if occurs(raw, "://"@) || starts_with(raw, "mailto:"@) {
        Target::External(raw)
    } else {
        let t0 = trim(raw.take(find_from(raw, '#', 0)));
        if t0.len() == 0 {
            Target::Missing(raw)
        } else {
            let t1 = if ends_with(t0, ".md"@) {
                t0.take(t0.len() - 3)
            } else {
                t0
            };
            let target = strip_end_char(strip_start_char(t1, '/'), '/');
            let c1 = normalized(target);
            let c2 = normalized(parent_dir(from) + "/"@ + target);
            if names_an_index(c1) {
                Target::Missing(raw)
            } else {
            match page_for(ids, c1) {
                Some(id) => Target::Page(id),
                None => match page_for(ids, c2) {
                    Some(id) => Target::Page(id),
                    None => {
                        let by_name = named(ids, last_segment(target), 0);
                        if by_name.len() == 1 {
                            Target::Page(by_name[0])
                        } else {
                            Target::Missing(raw)
                        }
                    },
                },
            }
            }
        }
    }
}

fn strip_start_char_exec(s: &Vec<char>, c: char) -> (r: Vec<char>)
    ensures
        r@ == strip_start_char(s@, c),
{
    let mut k: usize = 0;
    assert(s@.skip(0) =~= s@);
    while k < s.len() && s[k] == c
        invariant
            0 <= k <= s.len(),
            strip_start_char(s@, c) == strip_start_char(s@.skip(k as int), c),
        decreases s.len() - k,
    {
        assert(s@.skip(k as int).drop_first() =~= s@.skip(k + 1));
        k = k + 1;
    }
    let r = slice(s, k, s.len());
    assert(r@ =~= s@.skip(k as int));
    r
}

fn seq_contains(ids: &Vec<Vec<char>>, c: &Vec<char>) -> (r: bool)
    ensures
        r == views(ids@).contains(c@),
{
    let mut i: usize = 0;
    while i < ids.len()
        invariant
            0 <= i <= ids.len(),
            forall|k: int| 0 <= k < i ==> views(ids@)[k] != c@,
        decreases ids.len() - i,
    {
        if crate::text::chars_eq(&ids[i], c) {
            assert(views(ids@)[i as int] == c@);
            return true;
        }
        i = i + 1;
    }
    false
}

fn page_for_exec(ids: &Vec<Vec<char>>, candidate: &Vec<char>) -> (r: Option<Vec<char>>)
    ensures
        opt_view(r) == page_for(views(ids@), candidate@),
{
    let ghost iv = views(ids@);
    let index = index_id(candidate);
    if seq_contains(ids, candidate) {
        return Some(candidate.clone());
    }
    if seq_contains(ids, &index) {
        return Some(index);
    }
    let mut k: usize = 0;
    while k < ids.len()
        invariant
            iv == views(ids@),
            index@ == index_of(candidate@),
            !iv.contains(candidate@),
            !iv.contains(index@),
            0 <= k <= ids.len(),
            first_ci(iv, candidate@, index@, 0) == first_ci(iv, candidate@, index@, k as int),
        decreases ids.len() - k,
    {
        assert(iv[k as int] == ids@[k as int]@);
        if eq_ignore_case(&ids[k], candidate) || eq_ignore_case(&ids[k], &index) {
            return Some(ids[k].clone());
        }
        k = k + 1;
    }
    None
}

fn named_exec(ids: &Vec<Vec<char>>, name: &Vec<char>) -> (r: Vec<Vec<char>>)
    ensures
        views(r@) == named(views(ids@), name@, 0),
{
    let ghost iv = views(ids@);
    let mut out: Vec<Vec<char>> = Vec::new();
    let mut k: usize = 0;
    while k < ids.len()
        invariant
            iv == views(ids@),
            0 <= k <= ids.len(),
            named(iv, name@, 0) == views(out@) + named(iv, name@, k as int),
        decreases ids.len() - k,
    {
        let seg = last_segment_exec(&ids[k]);
        if eq_ignore_case(&seg, name) {
            let ghost before = out@;
            out.push(ids[k].clone());
            assert(views(out@) =~= views(before) + seq![iv[k as int]]);
        }
        k = k + 1;
    }
    assert(views(out@) + Seq::<Seq<char>>::empty() =~= views(out@));
    out
}

/// Resolves `raw`, written in page `from`, among the pages `ids`.
fn resolve_in(ids: &Vec<Vec<char>>, from: &Vec<char>, raw0: &Vec<char>) -> (r: LinkTarget)
    ensures
        r@ == resolved(views(ids@), from@, raw0@),
{
    let raw = trim_all(raw0);
    let sep = chars_of("://");
    let mailto = chars_of("mailto:");
    if contains_seq(&raw, &sep) || has_prefix(&raw, &mailto) {
        return LinkTarget::External(string_of(&raw));
    }
    let hash = find_char(&raw, '#', 0);
    let t0 = crate::text::trimmed(&raw, 0, hash);
    assert(raw@.subrange(0, hash as int) =~= raw@.take(hash as int));
    if t0.len() == 0 {
        return LinkTarget::Missing(string_of(&raw));
    }
    let md = chars_of(".md");
    proof {
        reveal_strlit(".md");
    }
    let is_md = has_suffix(&t0, &md);
    let t1 = if is_md {
        slice(&t0, 0, t0.len() - 3)
    } else {
        t0.clone()
    };
    assert(is_md ==> t1@ =~= t0@.take(t0.len() - 3));
    assert(!is_md ==> t1@ == t0@);
    let s1 = strip_start_char_exec(&t1, '/');
    let target = strip_end_char_exec(&s1, '/');
    let c1 = normalize_chars(&target);
    let last = last_segment_exec(&c1);
    let index_word = chars_of("index");
    if crate::text::eq_ignore_case(&last, &index_word) {
        return LinkTarget::Missing(string_of(&raw));
    }
    match page_for_exec(ids, &c1) {
        Some(id) => {
            return LinkTarget::Page(string_of(&id));
        },
        None => {},
    }
    let mut joined = parent_dir_exec(from);
    push_str(&mut joined, "/");
    push_all(&mut joined, &target);
    let c2 = normalize_chars(&joined);
    match page_for_exec(ids, &c2) {
        Some(id) => {
            return LinkTarget::Page(string_of(&id));
        },
        None => {},
    }
    let name = last_segment_exec(&target);
    let by_name = named_exec(ids, &name);
    if by_name.len() == 1 {
        return LinkTarget::Page(string_of(&by_name[0]));
    }
    LinkTarget::Missing(string_of(&raw))
}


/// The file path an image destination names, as it is looked for beside the page and under
/// the wiki root: nothing for a web address; otherwise the text before any `#`, trimmed, with
/// leading `/`s dropped.
pub open spec fn image_candidate_of(raw: Seq<char>) -> Option<Seq<char>> {
    if occurs(raw, "://"@) {
        None
    } else {
        Some(strip_start_char(trim(raw.take(find_from(raw, '#', 0))), '/'))
    }
}

/// The file path an image destination names (see `image_candidate_of`).
pub fn image_candidate(raw: &str) -> (r: Option<String>)
    ensures
        opt_string(r) == image_candidate_of(raw@),
{
    let cs = chars_of(raw);
    let sep = chars_of("://");
    if contains_seq(&cs, &sep) {
        return None;
    }
    let hash = find_char(&cs, '#', 0);
    let t = crate::text::trimmed(&cs, 0, hash);
    assert(cs@.subrange(0, hash as int) =~= cs@.take(hash as int));
    let p = strip_start_char_exec(&t, '/');
    Some(string_of(&p))
}

// ----- the index ----------------------------------------------------------------------

/// Every page of the wiki in id order, and for each page the pages that link to it.
pub struct Wiki {
    /// The wiki folder, as the path that page files are found under.
    pub root: String,
    /// The pages, in id order, no id twice.
    pub pages: Vec<Page>,
    /// For the page at the same index in `pages`: ids of the pages linking to it, in id order.
    pub backlinks: Vec<Vec<String>>,
}

pub open spec fn strings(v: Seq<String>) -> Seq<Seq<char>> {
    v.map_values(|s: String| s@)
}

/// Ids in strictly increasing order.
pub open spec fn sorted_ids(ids: Seq<Seq<char>>) -> bool {
    forall|i: int, j: int| 0 <= i < j < ids.len() ==> crate::text::text_lt(#[trigger] ids[i], #[trigger] ids[j])
}

/// Index of the first `id` in `ids` from `k` on, or -1.
pub open spec fn position(ids: Seq<Seq<char>>, id: Seq<char>, k: int) -> int
    decreases ids.len() - k,
{
    if k < 0 || k >= ids.len() {
        -1
    } else if ids[k] == id {
        k
    } else {
        position(ids, id, k + 1)
    }
}

pub proof fn lemma_position(ids: Seq<Seq<char>>, id: Seq<char>, k: int)
    requires
        0 <= k <= ids.len(),
    ensures
        position(ids, id, k) == -1 || (k <= position(ids, id, k) < ids.len() && ids[position(ids, id, k)] == id),
        position(ids, id, k) == -1 <==> forall|j: int| k <= j < ids.len() ==> ids[j] != id,
        forall|j: int| k <= j < position(ids, id, k) ==> ids[j] != id,
    decreases ids.len() - k,
{
    if k < ids.len() && ids[k] != id {
        lemma_position(ids, id, k + 1);
    }
}

/// Page `p` links to page `target`: one of its links resolves there, and it is not `p` itself.
pub open spec fn links_to(ids: Seq<Seq<char>>, p: Page, target: Seq<char>) -> bool {
    &&& target != p.id@
    &&& exists|j: int| 0 <= j < p.links@.len() && resolved(ids, p.id@, #[trigger] p.links@[j]@) == Target::Page(target)
}

/// Ids of the first `k` pages that link to `target`, in order.
pub open spec fn linkers_upto(ids: Seq<Seq<char>>, pages: Seq<Page>, target: Seq<char>, k: int) -> Seq<Seq<char>>
    decreases k,
{
    if k <= 0 || k > pages.len() {
        seq![]
    } else if links_to(ids, pages[k - 1], target) {
        linkers_upto(ids, pages, target, k - 1).push(pages[k - 1].id@)
    } else {
        linkers_upto(ids, pages, target, k - 1)
    }
}

impl Wiki {
    pub open spec fn ids(&self) -> Seq<Seq<char>> {
        self.pages@.map_values(|p: Page| p.id@)
    }

    /// Ids of the pages that link to `target`, in id order.
    pub open spec fn linkers(&self, target: Seq<char>) -> Seq<Seq<char>> {
        linkers_upto(self.ids(), self.pages@, target, self.pages.len() as int)
    }

    /// Pages are in id order, each id once, and each page's backlinks are exactly the pages
    /// linking to it.
    pub open spec fn wf(&self) -> bool {
        &&& sorted_ids(self.ids())
        &&& self.backlinks.len() == self.pages.len()
        &&& forall|i: int|
            0 <= i < self.pages.len() ==> strings(#[trigger] self.backlinks@[i]@) == self.linkers(self.ids()[i])
    }

    /// The title shown for page `id`.
    pub open spec fn title_for(&self, id: Seq<char>) -> Seq<char> {
        let i = position(self.ids(), id, 0);
        if i >= 0 {
            self.pages@[i].title@
        } else {
            prettified(id)
        }
    }

    /// The first page, in id order, named `name` ignoring ASCII case.
    pub open spec fn first_named(&self, name: Seq<char>) -> Option<Seq<char>> {
        first_ci(self.ids(), name, name, 0)
    }

    /// The page to show first: `index`, `home` or `readme` at the root, else the first page.
    pub open spec fn landing(&self) -> Option<Seq<char>> {
        match self.first_named("index"@) {
            Some(id) => Some(id),
            None => match self.first_named("home"@) {
                Some(id) => Some(id),
                None => match self.first_named("readme"@) {
                    Some(id) => Some(id),
                    None => if self.pages.len() > 0 {
                        Some(self.ids()[0])
                    } else {
                        None
                    },
                },
            },
        }
    }

    fn id_chars(&self) -> (r: Vec<Vec<char>>)
        ensures
            views(r@) == self.ids(),
    {
        let mut out: Vec<Vec<char>> = Vec::new();
        let mut i: usize = 0;
        while i < self.pages.len()
            invariant
                0 <= i <= self.pages.len(),
                views(out@) == self.ids().take(i as int),
            decreases self.pages.len() - i,
        {
            let ghost before = out@;
            let c = chars_of(self.pages[i].id.as_str());
            assert(c@ == self.ids()[i as int]);
            out.push(c);
            assert(views(out@) =~= views(before).push(c@));
            assert(views(out@) =~= self.ids().take(i + 1));
            i = i + 1;
        }
        assert(self.ids().take(self.pages.len() as int) =~= self.ids());
        out
    }

    pub(crate) fn position_of(&self, id: &Vec<char>) -> (r: Option<usize>)
        ensures
            match r {
                Some(i) => i as int == position(self.ids(), id@, 0) && i < self.pages.len(),
                None => position(self.ids(), id@, 0) == -1,
            },
    {
        let mut i: usize = 0;
        while i < self.pages.len()
            invariant
                0 <= i <= self.pages.len(),
                position(self.ids(), id@, 0) == position(self.ids(), id@, i as int),
            decreases self.pages.len() - i,
        {
            let c = chars_of(self.pages[i].id.as_str());
            assert(self.ids()[i as int] == c@);
            if crate::text::chars_eq(&c, id) {
                return Some(i);
            }
            i = i + 1;
        }
        None
    }

    /// The title of page `id`, or its id made readable when there is no such page.
    pub fn title(&self, id: &str) -> (r: String)
        ensures
            r@ == self.title_for(id@),
    {
        let c = chars_of(id);
        match self.position_of(&c) {
            Some(i) => self.pages[i].title.clone(),
            None => prettify(id),
        }
    }

    /// Ids of the pages linking to page `id`, in id order.
    pub fn backlinks_of(&self, id: &str) -> (r: &[String])
        requires
            self.wf(),
        ensures
            strings(r@) == self.linkers(id@),
    {
        let c = chars_of(id);
        match self.position_of(&c) {
            Some(i) => {
                proof {
                    lemma_position(self.ids(), id@, 0);
                }
                self.backlinks[i].as_slice()
            },
            None => {
                proof {
                    lemma_position(self.ids(), id@, 0);
                    lemma_no_linkers(self.ids(), self.pages@, id@, self.pages.len() as int);
                }
                assert(strings(Seq::<String>::empty()) =~= Seq::<Seq<char>>::empty());
                &[]
            },
        }
    }

    fn first_named_exec(&self, ids: &Vec<Vec<char>>, name: &str) -> (r: Option<String>)
        requires
            views(ids@) == self.ids(),
        ensures
            match r {
                Some(s) => self.first_named(name@) == Some(s@),
                None => self.first_named(name@) is None,
            },
    {
        let n = chars_of(name);
        let mut k: usize = 0;
        while k < ids.len()
            invariant
                views(ids@) == self.ids(),
                n@ == name@,
                0 <= k <= ids.len(),
                self.first_named(name@) == first_ci(self.ids(), name@, name@, k as int),
            decreases ids.len() - k,
        {
            assert(self.ids()[k as int] == ids@[k as int]@);
            if eq_ignore_case(&ids[k], &n) {
                return Some(string_of(&ids[k]));
            }
            k = k + 1;
        }
        None
    }

    /// The page to show first: `index`, `home` or `readme` at the root, else the first page.
    pub fn landing_page(&self) -> (r: Option<String>)
        ensures
            match r {
                Some(s) => self.landing() == Some(s@),
                None => self.landing() is None,
            },
    {
        let ids = self.id_chars();
        match self.first_named_exec(&ids, "index") {
            Some(s) => {
                return Some(s);
            },
            None => {},
        }
        match self.first_named_exec(&ids, "home") {
            Some(s) => {
                return Some(s);
            },
            None => {},
        }
        match self.first_named_exec(&ids, "readme") {
            Some(s) => {
                return Some(s);
            },
            None => {},
        }
        if self.pages.len() > 0 {
            Some(self.pages[0].id.clone())
        } else {
            None
        }
    }

    /// The `index` page of a folder (`""` for the root), if it exists.
    pub fn folder_index(&self, folder: &str) -> (r: Option<String>)
        ensures
            match r {
                Some(s) => s@ == index_of(folder@) && self.ids().contains(s@),
                None => !self.ids().contains(index_of(folder@)),
            },
    {
        let f = chars_of(folder);
        let index = index_id(&f);
        let ids = self.id_chars();
        if seq_contains(&ids, &index) {
            Some(string_of(&index))
        } else {
            None
        }
    }

    /// Resolves a link written in page `from` to a page id.
    ///
    /// Wiki links count from the wiki root: `[[projects/calcbits]]`. As a courtesy the link also
    /// works relative to the current page's folder, with or without `.md`, ignoring case, and by
    /// bare file name when that name is unique in the wiki.
    pub fn resolve(&self, from: &str, raw: &str) -> (r: LinkTarget)
        ensures
            r@ == resolved(self.ids(), from@, raw@),
    {
        let ids = self.id_chars();
        let f = chars_of(from);
        let s = chars_of(raw);
        resolve_in(&ids, &f, &s)
    }
}

proof fn lemma_no_linkers(ids: Seq<Seq<char>>, pages: Seq<Page>, target: Seq<char>, k: int)
    requires
        !ids.contains(target),
        ids == pages.map_values(|p: Page| p.id@),
        0 <= k <= pages.len(),
    ensures
        linkers_upto(ids, pages, target, k) == Seq::<Seq<char>>::empty(),
    decreases k,
{
    if k > 0 {
        lemma_no_linkers(ids, pages, target, k - 1);
        if links_to(ids, pages[k - 1], target) {
            let j = choose|j: int| 0 <= j < pages[k - 1].links@.len() && resolved(ids, pages[k - 1].id@, #[trigger] pages[k - 1].links@[j]@) == Target::Page(target);
            lemma_resolved_exists(ids, pages[k - 1].id@, pages[k - 1].links@[j]@);
        }
    }
}

/// A link resolves to a page only when the page exists.
pub proof fn lemma_resolved_exists(ids: Seq<Seq<char>>, from: Seq<char>, raw: Seq<char>)
    ensures
        resolved(ids, from, raw) matches Target::Page(id) ==> ids.contains(id),
{
    let raw2 = trim(raw);
    let t0 = trim(raw2.take(find_from(raw2, '#', 0)));
    let t1 = if ends_with(t0, ".md"@) {
        t0.take(t0.len() - 3)
    } else {
        t0
    };
    let target = strip_end_char(strip_start_char(t1, '/'), '/');
    let c1 = normalized(target);
    let c2 = normalized(parent_dir(from) + "/"@ + target);
    lemma_page_for_exists(ids, c1);
    lemma_page_for_exists(ids, c2);
    lemma_named_in(ids, last_segment(target), 0);
}

proof fn lemma_first_ci_in(ids: Seq<Seq<char>>, a: Seq<char>, b: Seq<char>, k: int)
    ensures
        first_ci(ids, a, b, k) matches Some(id) ==> ids.contains(id),
    decreases ids.len() - k,
{
    if 0 <= k < ids.len() {
        if eq_ascii_ci(ids[k], a) || eq_ascii_ci(ids[k], b) {
            assert(ids[k] == ids[k]);
        } else {
            lemma_first_ci_in(ids, a, b, k + 1);
        }
    }
}

proof fn lemma_page_for_exists(ids: Seq<Seq<char>>, c: Seq<char>)
    ensures
        page_for(ids, c) matches Some(id) ==> ids.contains(id),
{
    lemma_first_ci_in(ids, c, index_of(c), 0);
}

proof fn lemma_named_in(ids: Seq<Seq<char>>, name: Seq<char>, k: int)
    ensures
        forall|i: int| 0 <= i < named(ids, name, k).len() ==> ids.contains(#[trigger] named(ids, name, k)[i]),
    decreases ids.len() - k,
{
    if 0 <= k < ids.len() {
        lemma_named_in(ids, name, k + 1);
        let rest = named(ids, name, k + 1);
        if eq_ascii_ci(last_segment(ids[k]), name) {
            assert forall|i: int| 0 <= i < named(ids, name, k).len() implies ids.contains(#[trigger] named(ids, name, k)[i]) by {
                if i == 0 {
                    assert(named(ids, name, k)[0] == ids[k]);
                } else {
                    assert(named(ids, name, k)[i] == rest[i - 1]);
                }
            }
        }
    }
}


// ----- links in a page ----------------------------------------------------------------

/// For each event `pulldown-cmark` yields for a text, parsed with the wiki's options (wiki
/// links, tables, strikethrough, task lists, YAML metadata blocks): the link's
/// destination for the start of a link, with whether it is an e-mail autolink, and nothing
/// for any other event.
pub uninterp spec fn link_events(text: Seq<char>) -> Seq<Option<(bool, Seq<char>)>>;

pub open spec fn event_view(e: Option<(bool, String)>) -> Option<(bool, Seq<char>)> {
    match e {
        Some((m, s)) => Some((m, s@)),
        None => None,
    }
}

/// Runs `pulldown_cmark::Parser::new_ext` over the text with the wiki's options and turns each
/// event into the destination of a link start (with whether it is an e-mail autolink) or
/// nothing. Claims only that the result is `link_events(text)`.
#[verifier::external_body]
fn parse_link_events(text: &str) -> (r: Vec<Option<(bool, String)>>)
    ensures
        r@.map_values(|e: Option<(bool, String)>| event_view(e)) == link_events(text@),
{
    let options = Options::ENABLE_WIKILINKS | Options::ENABLE_TABLES | Options::ENABLE_STRIKETHROUGH
        | Options::ENABLE_TASKLISTS | Options::ENABLE_YAML_STYLE_METADATA_BLOCKS;
    Parser::new_ext(text, options).map(|event| match event {
        Event::Start(Tag::Link { link_type, dest_url, .. }) => Some((matches!(link_type, LinkType::Email), dest_url.to_string())),
        _ => None,
    }).collect()
}

/// The distinct link targets among the first `k` events, in order of first appearance,
/// e-mail autolinks left out.
pub open spec fn links_upto(events: Seq<Option<(bool, Seq<char>)>>, k: int) -> Seq<Seq<char>>
    decreases k,
{
    if k <= 0 || k > events.len() {
        seq![]
    } else {
        let acc = links_upto(events, k - 1);
        match events[k - 1] {
            Some((email, dest)) => if !email && !acc.contains(dest) {
                acc.push(dest)
            } else {
                acc
            },
            None => acc,
        }
    }
}

/// The link targets found by the Markdown parser.
pub open spec fn links_of(text: Seq<char>) -> Seq<Seq<char>> {
    links_upto(link_events(text), link_events(text).len() as int)
}

/// Every link target in the document, in order, without duplicates.
pub fn extract_links(text: &str) -> (r: Vec<String>)
    ensures
        strings(r@) == links_of(text@),
{
    let events = parse_link_events(text);
    links_from(&events)
}

/// The distinct non-e-mail link destinations of `events`, in order of first appearance.
pub fn links_from(events: &Vec<Option<(bool, String)>>) -> (r: Vec<String>)
    ensures
        strings(r@) == links_upto(events@.map_values(|e: Option<(bool, String)>| event_view(e)), events.len() as int),
{
    let ghost ev = events@.map_values(|e: Option<(bool, String)>| event_view(e));
    let mut links: Vec<String> = Vec::new();
    let mut seen: Vec<Vec<char>> = Vec::new();
    let mut k: usize = 0;
    while k < events.len()
        invariant
            ev == events@.map_values(|e: Option<(bool, String)>| event_view(e)),
            0 <= k <= events.len(),
            strings(links@) == links_upto(ev, k as int),
            views(seen@) == strings(links@),
        decreases events.len() - k,
    {
        assert(ev[k as int] == event_view(events@[k as int]));
        match &events[k] {
            Some((email, dest)) => {
                let d = chars_of(dest.as_str());
                if !*email && !seq_contains(&seen, &d) {
                    let ghost before = links@;
                    let ghost sb = seen@;
                    links.push(dest.clone());
                    seen.push(d);
                    assert(strings(links@) =~= strings(before).push(dest@));
                    assert(views(seen@) =~= views(sb).push(d@));
                }
            },
            None => {},
        }
        k = k + 1;
    }
    links
}


// ----- page ids from file paths --------------------------------------------------------

/// `Path::strip_prefix`: the path relative to `base`, when `base` is made of its leading
/// components.
pub uninterp spec fn path_after(path: Seq<char>, base: Seq<char>) -> Option<Seq<char>>;

/// `Path::with_extension("")`: the path with the extension of its file name removed.
pub uninterp spec fn without_extension(path: Seq<char>) -> Seq<char>;

/// `Path::components`: the components of a path, each as text.
pub uninterp spec fn path_parts(path: Seq<char>) -> Seq<Seq<char>>;

pub open spec fn opt_string(o: Option<String>) -> Option<Seq<char>> {
    match o {
        Some(s) => Some(s@),
        None => None,
    }
}

/// Calls `Path::strip_prefix`. Claims only that the result is `path_after(path, base)`.
#[verifier::external_body]
fn strip_path_prefix(path: &str, base: &str) -> (r: Option<String>)
    ensures
        opt_string(r) == path_after(path@, base@),
{
    std::path::Path::new(path).strip_prefix(base).ok().map(|p| p.to_string_lossy().into_owned())
}

/// Calls `Path::with_extension` with an empty extension. Claims only that the result is
/// `without_extension(path)`.
#[verifier::external_body]
fn path_without_extension(path: &str) -> (r: String)
    ensures
        r@ == without_extension(path@),
{
    std::path::Path::new(path).with_extension("").to_string_lossy().into_owned()
}

/// Calls `Path::components`, each component as text. Claims only that the result is
/// `path_parts(path)`.
#[verifier::external_body]
fn path_components(path: &str) -> (r: Vec<String>)
    ensures
        strings(r@) == path_parts(path@),
{
    std::path::Path::new(path).components().map(|c| c.as_os_str().to_string_lossy().into_owned()).collect()
}

/// The id a list of path components stands for: the components joined with `/`; none when
/// that is empty.
pub open spec fn id_of_parts(parts: Seq<Seq<char>>) -> Option<Seq<char>> {
    let id = join(parts, "/"@);
    if id.len() == 0 {
        None
    } else {
        Some(id)
    }
}

/// Page id of the file at `path` under `root`: its path relative to the root, without the
/// extension, with `/` separators; none when it is not under the root.
pub open spec fn id_for_path(root: Seq<char>, path: Seq<char>) -> Option<Seq<char>> {
    match path_after(path, root) {
        None => None,
        Some(rel) => id_of_parts(path_parts(without_extension(rel))),
    }
}

/// The id for a file's path components: joined with `/`, none when that is empty.
pub fn id_from_parts(parts: &Vec<String>) -> (r: Option<String>)
    ensures
        opt_string(r) == id_of_parts(strings(parts@)),
{
    let mut cs: Vec<Vec<char>> = Vec::new();
    let mut i: usize = 0;
    while i < parts.len()
        invariant
            0 <= i <= parts.len(),
            views(cs@) == strings(parts@).take(i as int),
        decreases parts.len() - i,
    {
        let ghost before = cs@;
        let c = chars_of(parts[i].as_str());
        cs.push(c);
        assert(views(cs@) =~= views(before).push(c@));
        assert(strings(parts@).take(i + 1) =~= strings(parts@).take(i as int).push(parts@[i as int]@));
        i = i + 1;
    }
    assert(strings(parts@).take(parts.len() as int) =~= strings(parts@));
    let slash = chars_of("/");
    let id = join_chars(&cs, &slash);
    if id.len() == 0 {
        None
    } else {
        Some(string_of(&id))
    }
}

fn id_under(root: &str, path: &str) -> (r: Option<String>)
    ensures
        opt_string(r) == id_for_path(root@, path@),
{
    match strip_path_prefix(path, root) {
        None => None,
        Some(rel) => {
            let stem = path_without_extension(rel.as_str());
            let parts = path_components(stem.as_str());
            id_from_parts(&parts)
        },
    }
}

/// Some component starts with `.`: the file sits in a hidden folder or is hidden itself.
pub open spec fn hidden_part(parts: Seq<Seq<char>>) -> bool {
    exists|i: int| 0 <= i < parts.len() && (#[trigger] parts[i]).len() > 0 && parts[i][0] == '.'
}

/// The root's own name is hidden: its last component starts with a dot.
pub open spec fn hidden_root(root: Seq<char>) -> bool {
    let ps = path_parts(root);
    ps.len() > 0 && ps.last().len() > 0 && ps.last()[0] == '.'
}

/// A page is a `.md` file under the root, outside hidden folders; a root whose own name is
/// hidden holds none.
pub open spec fn page_file(root: Seq<char>, path: Seq<char>) -> bool {
    !hidden_root(root) && match path_after(path, root) {
        Some(rel) => ends_with(rel, ".md"@) && !hidden_part(path_parts(rel)),
        None => false,
    }
}

/// Whether the file at `path` is a page of the wiki at `root`: a `.md` file under the root,
/// outside hidden folders, the root's own name included.
pub fn is_page_file(root: &str, path: &str) -> (r: bool)
    ensures
        r == page_file(root@, path@),
{
    let rp = path_components(root);
    if rp.len() > 0 {
        let last = chars_of(rp[rp.len() - 1].as_str());
        assert(strings(rp@)[rp.len() - 1] == last@);
        if last.len() > 0 && last[0] == '.' {
            return false;
        }
    }
    match strip_path_prefix(path, root) {
        None => false,
        Some(rel) => {
            let rc = chars_of(rel.as_str());
            let md = chars_of(".md");
            if !has_suffix(&rc, &md) {
                return false;
            }
            let parts = path_components(rel.as_str());
            let ghost pv = strings(parts@);
            let mut i: usize = 0;
            while i < parts.len()
                invariant
                    pv == strings(parts@),
                    pv == path_parts(rel@),
                    path_after(path@, root@) == Some(rel@),
                    ends_with(rel@, ".md"@),
                    0 <= i <= parts.len(),
                    forall|j: int| 0 <= j < i ==> !((#[trigger] pv[j]).len() > 0 && pv[j][0] == '.'),
                decreases parts.len() - i,
            {
                let c = chars_of(parts[i].as_str());
                assert(pv[i as int] == c@);
                if c.len() > 0 && c[0] == '.' {
                    assert(pv[i as int].len() > 0 && pv[i as int][0] == '.');
                    assert(hidden_part(path_parts(rel@)));
                    return false;
                }
                i = i + 1;
            }
            true
        },
    }
}

impl Wiki {
    /// Page id for a file under the root, or `None` if it is outside the root.
    pub fn id_for(&self, path: &str) -> (r: Option<String>)
        ensures
            opt_string(r) == id_for_path(self.root@, path@),
    {
        id_under(self.root.as_str(), path)
    }
}


// ----- loading ------------------------------------------------------------------------

/// A page as text.
pub struct PageView {
    pub id: Seq<char>,
    pub path: Seq<char>,
    pub title: Seq<char>,
    pub links: Seq<Seq<char>>,
    pub text: Seq<char>,
}

impl View for Page {
    type V = PageView;

    open spec fn view(&self) -> PageView {
        PageView {
            id: self.id@,
            path: self.path@,
            title: self.title@,
            links: strings(self.links@),
            text: self.text@,
        }
    }
}

/// The page read from the file at `path` holding `text`, under id `id`.
pub open spec fn page_from(id: Seq<char>, path: Seq<char>, text: Seq<char>) -> PageView {
    PageView {
        id,
        path,
        title: match title_of(text) {
            Some(t) => t,
            None => prettified(id),
        },
        links: links_of(text),
        text,
    }
}

/// The pages of the first `k` files, by id: each `.md` file under the root outside hidden
/// folders (`page_file`) is a page, a later file with the same id replacing an earlier one.
pub open spec fn pages_map(root: Seq<char>, files: Seq<(Seq<char>, Seq<char>)>, k: int) -> Map<Seq<char>, PageView>
    decreases k,
{
    if k <= 0 || k > files.len() {
        Map::empty()
    } else {
        let m = pages_map(root, files, k - 1);
        let (path, text) = files[k - 1];
        if !page_file(root, path) {
            m
        } else {
            match id_for_path(root, path) {
                None => m,
                Some(id) => m.insert(id, page_from(id, path, text)),
            }
        }
    }
}

pub open spec fn files_view(files: Seq<(String, String)>) -> Seq<(Seq<char>, Seq<char>)> {
    files.map_values(|f: (String, String)| (f.0@, f.1@))
}

/// The pages hold exactly the entries of `m`, in id order.
pub open spec fn pages_match(pages: Seq<Page>, m: Map<Seq<char>, PageView>) -> bool {
    let ids = pages.map_values(|p: Page| p.id@);
    &&& sorted_ids(ids)
    &&& forall|i: int| 0 <= i < pages.len() ==> m.dom().contains(#[trigger] pages[i]@.id) && pages[i]@ == m[pages[i]@.id]
    &&& forall|id: Seq<char>| #[trigger] m.dom().contains(id) ==> ids.contains(id)
}

proof fn lemma_lt_ne(a: Seq<char>, b: Seq<char>)
    requires
        crate::text::text_lt(a, b),
    ensures
        a != b,
{
    if a == b {
        crate::text::lemma_text_lt_irrefl(a);
    }
}

fn insert_page(pages: &mut Vec<Page>, p: Page, Ghost(m): Ghost<Map<Seq<char>, PageView>>)
    requires
        pages_match(old(pages)@, m),
    ensures
        pages_match(final(pages)@, m.insert(p@.id, p@)),
{
    let ghost old_pages = pages@;
    let ghost ids0 = old_pages.map_values(|q: Page| q.id@);
    let id = chars_of(p.id.as_str());
    let mut i: usize = 0;
    while i < pages.len()
        invariant
            pages@ == old_pages,
            ids0 == old_pages.map_values(|q: Page| q.id@),
            id@ == p@.id,
            0 <= i <= pages.len(),
            forall|k: int| 0 <= k < i ==> crate::text::text_lt(#[trigger] ids0[k], id@),
        ensures
            pages@ == old_pages,
            0 <= i <= pages.len(),
            forall|k: int| 0 <= k < i ==> crate::text::text_lt(#[trigger] ids0[k], id@),
            i < pages.len() ==> !crate::text::text_lt(ids0[i as int], id@),
        decreases pages.len() - i,
    {
        let c = chars_of(pages[i].id.as_str());
        assert(c@ == ids0[i as int]);
        if !crate::text::less_than(&c, &id) {
            break;
        }
        i = i + 1;
    }
    let ghost m2 = m.insert(p@.id, p@);
    if i < pages.len() && str_eq(&pages[i].id, &p.id) {
        pages.set(i, p);
        proof {
            let ids1 = pages@.map_values(|q: Page| q.id@);
            assert(ids1 =~= ids0);
            assert forall|k: int| 0 <= k < pages@.len() implies m2.dom().contains(#[trigger] pages@[k]@.id) && pages@[k]@ == m2[pages@[k]@.id] by {
                if k != i {
                    assert(ids0[k] != ids0[i as int]) by {
                        if k < i {
                            lemma_lt_ne(ids0[k], ids0[i as int]);
                        } else {
                            lemma_lt_ne(ids0[i as int], ids0[k]);
                        }
                    }
                    assert(pages@[k] == old_pages[k]);
                }
            }
            assert forall|x: Seq<char>| #[trigger] m2.dom().contains(x) implies ids1.contains(x) by {
                if x == p@.id {
                    assert(ids1[i as int] == x);
                } else {
                    assert(m.dom().contains(x));
                }
            }
        }
    } else {
        proof {
            if i < pages.len() {
                let c = ids0[i as int];
                crate::text::lemma_text_lt_total(c, id@);
            }
        }
        pages.insert(i, p);
        proof {
            let ids1 = pages@.map_values(|q: Page| q.id@);
            assert(ids1 =~= ids0.insert(i as int, p@.id));
            assert forall|a: int, b: int| 0 <= a < b < ids1.len() implies crate::text::text_lt(#[trigger] ids1[a], #[trigger] ids1[b]) by {
                if b < i {
                } else if a < i && b == i {
                } else if a < i && b > i {
                    assert(ids1[a] == ids0[a]);
                    assert(ids1[b] == ids0[b - 1]);
                    assert(crate::text::text_lt(ids0[a], ids0[b - 1]));
                } else if a == i {
                    assert(ids1[b] == ids0[b - 1]);
                    if b - 1 > i {
                        assert(crate::text::text_lt(ids0[i as int], ids0[b - 1]));
                        crate::text::lemma_text_lt_trans(id@, ids0[i as int], ids0[b - 1]);
                    }
                } else {
                    assert(ids1[a] == ids0[a - 1]);
                    assert(ids1[b] == ids0[b - 1]);
                }
            }
            assert forall|k: int| 0 <= k < pages@.len() implies m2.dom().contains(#[trigger] pages@[k]@.id) && pages@[k]@ == m2[pages@[k]@.id] by {
                if k < i {
                    assert(pages@[k] == old_pages[k]);
                    lemma_lt_ne(ids0[k], id@);
                } else if k > i {
                    assert(pages@[k] == old_pages[k - 1]);
                    assert(crate::text::text_lt(id@, ids0[k - 1])) by {
                        if k - 1 > i {
                            assert(crate::text::text_lt(ids0[i as int], ids0[k - 1]));
                            crate::text::lemma_text_lt_trans(id@, ids0[i as int], ids0[k - 1]);
                        }
                    }
                    lemma_lt_ne(id@, ids0[k - 1]);
                }
            }
            assert forall|x: Seq<char>| #[trigger] m2.dom().contains(x) implies ids1.contains(x) by {
                if x == p@.id {
                    assert(ids1[i as int] == x);
                } else {
                    assert(m.dom().contains(x));
                    let j = choose|j: int| 0 <= j < ids0.len() && ids0[j] == x;
                    if j < i {
                        assert(ids1[j] == x);
                    } else {
                        assert(ids1[j + 1] == x);
                    }
                }
            }
        }
    }
}


/// Page `p` links to `target` with one of its first `j` links.
pub open spec fn links_to_upto(ids: Seq<Seq<char>>, p: Page, target: Seq<char>, j: int) -> bool {
    &&& target != p.id@
    &&& exists|jj: int| 0 <= jj < j && jj < p.links@.len() && resolved(ids, p.id@, #[trigger] p.links@[jj]@) == Target::Page(target)
}

pub open spec fn page_ids(pages: Seq<Page>) -> Seq<Seq<char>> {
    pages.map_values(|p: Page| p.id@)
}

/// The linkers of a target among the first `p` pages come before page `p`.
proof fn lemma_linkers_before(pages: Seq<Page>, target: Seq<char>, p: int, q: int)
    requires
        sorted_ids(page_ids(pages)),
        0 <= p <= q < pages.len(),
    ensures
        forall|k: int| 0 <= k < linkers_upto(page_ids(pages), pages, target, p).len() ==> #[trigger] linkers_upto(
            page_ids(pages),
            pages,
            target,
            p,
        )[k] != pages[q].id@,
    decreases p,
{
    let ids = page_ids(pages);
    if p > 0 {
        lemma_linkers_before(pages, target, p - 1, q);
        assert(ids[p - 1] == pages[p - 1].id@);
        assert(ids[q] == pages[q].id@);
        assert(crate::text::text_lt(ids[p - 1], ids[q]));
        lemma_lt_ne(ids[p - 1], ids[q]);
        let prev = linkers_upto(ids, pages, target, p - 1);
        let cur = linkers_upto(ids, pages, target, p);
        assert forall|k: int| 0 <= k < cur.len() implies #[trigger] cur[k] != pages[q].id@ by {
            if k < prev.len() {
                assert(cur[k] == prev[k]);
            }
        }
    }
}

fn add_page_links(
    back: &mut Vec<Vec<String>>,
    ids: &Vec<Vec<char>>,
    pages: &Vec<Page>,
    p: usize,
)
    requires
        sorted_ids(page_ids(pages@)),
        views(ids@) == page_ids(pages@),
        p < pages.len(),
        old(back).len() == pages.len(),
        forall|t: int|
            0 <= t < pages.len() ==> strings(#[trigger] old(back)@[t]@) == linkers_upto(
                page_ids(pages@),
                pages@,
                page_ids(pages@)[t],
                p as int,
            ),
    ensures
        final(back).len() == pages.len(),
        forall|t: int|
            0 <= t < pages.len() ==> strings(#[trigger] final(back)@[t]@) == linkers_upto(
                page_ids(pages@),
                pages@,
                page_ids(pages@)[t],
                p + 1,
            ),
{
    let ghost iv = page_ids(pages@);
    let ghost page = pages@[p as int];
    assert(views(ids@).len() == ids@.len());
    assert(page_ids(pages@).len() == pages@.len());
    assert(ids.len() == pages.len());
    let links = &pages[p].links;
    let me = &ids[p];
    assert(views(ids@)[p as int] == ids@[p as int]@);
    assert(me@ == page.id@);
    let mut j: usize = 0;
    while j < links.len()
        invariant
            sorted_ids(iv),
            iv == page_ids(pages@),
            views(ids@) == iv,
            p < pages.len(),
            page == pages@[p as int],
            links == &pages@[p as int].links,
            me@ == page.id@,
            back.len() == pages.len(),
            0 <= j <= links.len(),
            forall|t: int|
                0 <= t < pages.len() ==> strings(#[trigger] back@[t]@) == linkers_upto(iv, pages@, iv[t], p as int) + (if links_to_upto(
                    iv,
                    page,
                    iv[t],
                    j as int,
                ) {
                    seq![page.id@]
                } else {
                    seq![]
                }),
        decreases links.len() - j,
    {
        let raw = chars_of(links[j].as_str());
        let target = resolve_in(ids, me, &raw);
        proof {
            lemma_resolved_exists(iv, page.id@, raw@);
        }
        let ghost jj = j as int;
        assert(raw@ == page.links@[jj]@);
        match target {
            LinkTarget::Page(t) => {
                let tc = chars_of(t.as_str());
                if !crate::text::chars_eq(&tc, me) {
                    // the page the link resolves to
                    let mut ti: usize = 0;
                    while ti < ids.len() && !crate::text::chars_eq(&ids[ti], &tc)
                        invariant
                            views(ids@) == iv,
                            iv.contains(tc@),
                            0 <= ti <= ids.len(),
                            forall|k: int| 0 <= k < ti ==> iv[k] != tc@,
                        decreases ids.len() - ti,
                    {
                        ti = ti + 1;
                    }
                    assert(ti < ids.len());
                    assert(iv[ti as int] == tc@);
                    let ghost before = back@;
                    proof {
                        lemma_linkers_before(pages@, iv[ti as int], p as int, p as int);
                    }
                    let n = back[ti].len();
                    let added = n > 0 && str_eq(&back[ti][n - 1], &pages[p].id);
                    proof {
                        let pre = linkers_upto(iv, pages@, iv[ti as int], p as int);
                        if links_to_upto(iv, page, iv[ti as int], jj) {
                            assert(strings(back@[ti as int]@) == pre.push(page.id@));
                            assert(strings(back@[ti as int]@)[n - 1] == back@[ti as int]@[n - 1]@);
                        } else {
                            assert(strings(back@[ti as int]@) =~= pre);
                            if n > 0 {
                                assert(strings(back@[ti as int]@)[n - 1] == back@[ti as int]@[n - 1]@);
                                assert(pre[n - 1] != page.id@);
                            }
                        }
                    }
                    if !added {
                        let mut list = back[ti].clone();
                        list.push(pages[p].id.clone());
                        back.set(ti, list);
                    }
                    proof {
                        assert forall|t: int| 0 <= t < pages.len() implies strings(#[trigger] back@[t]@) == linkers_upto(
                            iv,
                            pages@,
                            iv[t],
                            p as int,
                        ) + (if links_to_upto(iv, page, iv[t], j + 1) {
                            seq![page.id@]
                        } else {
                            seq![]
                        }) by {
                            if t == ti {
                                assert(links_to_upto(iv, page, iv[t], j + 1));
                                if !added {
                                    assert(strings(back@[t]@) =~= strings(before[t]@).push(page.id@));
                                }
                            } else {
                                assert(iv[t] != iv[ti as int]) by {
                                    if t < ti {
                                        lemma_lt_ne(iv[t], iv[ti as int]);
                                    } else {
                                        lemma_lt_ne(iv[ti as int], iv[t]);
                                    }
                                }
                                assert(back@[t] == before[t]);
                                assert(links_to_upto(iv, page, iv[t], j + 1) == links_to_upto(iv, page, iv[t], jj));
                            }
                        }
                    }
                } else {
                    proof {
                        assert forall|t: int| 0 <= t < pages.len() implies links_to_upto(iv, page, iv[t], j + 1) == links_to_upto(iv, page, iv[t], jj) by {}
                    }
                }
            },
            _ => {
                proof {
                    assert forall|t: int| 0 <= t < pages.len() implies links_to_upto(iv, page, iv[t], j + 1) == links_to_upto(iv, page, iv[t], jj) by {}
                }
            },
        }
        j = j + 1;
    }
    proof {
        assert forall|t: int| 0 <= t < pages.len() implies strings(#[trigger] back@[t]@) == linkers_upto(iv, pages@, iv[t], p + 1) by {
            assert(links_to_upto(iv, page, iv[t], links.len() as int) == links_to(iv, page, iv[t]));
            if !links_to(iv, page, iv[t]) {
                assert(strings(back@[t]@) =~= linkers_upto(iv, pages@, iv[t], p as int));
            }
        }
    }
}


impl Wiki {
    /// Indexes the Markdown files of a wiki: `files` holds each file's path and text, in the
    /// order the folder was walked. Each file under `root` becomes the page of its id (a later
    /// file with the same id replacing an earlier one), with its title and links; then each
    /// page learns which pages link to it.
    pub fn load(root: &str, files: Vec<(String, String)>) -> (w: Wiki)
        ensures
            w.root@ == root@,
            w.wf(),
            pages_match(w.pages@, pages_map(root@, files_view(files@), files.len() as int)),
    {
        let ghost fv = files_view(files@);
        let mut pages: Vec<Page> = Vec::new();
        let mut k: usize = 0;
        while k < files.len()
            invariant
                fv == files_view(files@),
                0 <= k <= files.len(),
                pages_match(pages@, pages_map(root@, fv, k as int)),
            decreases files.len() - k,
        {
            let path = &files[k].0;
            let text = &files[k].1;
            assert(fv[k as int] == (path@, text@));
            if !is_page_file(root, path.as_str()) {
                k = k + 1;
                continue;
            }
            match id_under(root, path.as_str()) {
                None => {},
                Some(id) => {
                    let title = match extract_title(text.as_str()) {
                        Some(t) => t,
                        None => prettify(id.as_str()),
                    };
                    let links = extract_links(text.as_str());
                    let page = Page { id, path: path.clone(), title, links, text: text.clone() };
                    assert(page@ == page_from(id@, path@, text@));
                    insert_page(&mut pages, page, Ghost(pages_map(root@, fv, k as int)));
                },
            }
            k = k + 1;
        }
        let mut ids: Vec<Vec<char>> = Vec::new();
        let mut back: Vec<Vec<String>> = Vec::new();
        let mut i: usize = 0;
        while i < pages.len()
            invariant
                0 <= i <= pages.len(),
                views(ids@) == page_ids(pages@).take(i as int),
                back.len() == i,
                forall|t: int| 0 <= t < i ==> (#[trigger] back@[t])@.len() == 0,
            decreases pages.len() - i,
        {
            let ghost before = ids@;
            let c = chars_of(pages[i].id.as_str());
            ids.push(c);
            assert(views(ids@) =~= views(before).push(c@));
            assert(page_ids(pages@).take(i + 1) =~= page_ids(pages@).take(i as int).push(pages@[i as int].id@));
            back.push(Vec::new());
            i = i + 1;
        }
        assert(page_ids(pages@).take(pages.len() as int) =~= page_ids(pages@));
        let mut p: usize = 0;
        assert forall|t: int| 0 <= t < pages.len() implies strings(#[trigger] back@[t]@) == linkers_upto(
            page_ids(pages@),
            pages@,
            page_ids(pages@)[t],
            0,
        ) by {
            assert(strings(back@[t]@) =~= Seq::<Seq<char>>::empty());
        }
        while p < pages.len()
            invariant
                sorted_ids(page_ids(pages@)),
                views(ids@) == page_ids(pages@),
                0 <= p <= pages.len(),
                back.len() == pages.len(),
                forall|t: int|
                    0 <= t < pages.len() ==> strings(#[trigger] back@[t]@) == linkers_upto(
                        page_ids(pages@),
                        pages@,
                        page_ids(pages@)[t],
                        p as int,
                    ),
            decreases pages.len() - p,
        {
            add_page_links(&mut back, &ids, &pages, p);
            p = p + 1;
        }
        let root_string = string_of(&chars_of(root));
        Wiki { root: root_string, pages, backlinks: back }
    }
}


// ----- search -------------------------------------------------------------------------

/// A search hit as text.
pub struct HitView {
    pub id: Seq<char>,
    pub title: Seq<char>,
    pub in_title: bool,
    pub snippet: Seq<char>,
}

impl View for SearchHit {
    type V = HitView;

    open spec fn view(&self) -> HitView {
        HitView { id: self.id@, title: self.title@, in_title: self.in_title, snippet: self.snippet@ }
    }
}

/// The snippet of the first of lines `k..` whose lower-cased text holds `needle`.
pub open spec fn snippet_from(lines: Seq<Seq<char>>, needle: Seq<char>, k: int) -> Option<Seq<char>>
    decreases lines.len() - k,
{
    if k < 0 || k >= lines.len() {
        None
    } else {
        let low = lowered(lines[k]);
        let at = find_pat(low, needle, 0);
        if at < low.len() {
            Some(snippet_of(lines[k], at, needle.len() as int))
        } else {
            snippet_from(lines, needle, k + 1)
        }
    }
}

/// What searching page `p` for the lower-cased `needle` finds.
pub open spec fn hit_of(p: Page, needle: Seq<char>) -> Option<HitView> {
    let low = lowered(p.title@);
    let in_title = find_pat(low, needle, 0) < low.len();
    let snip = snippet_from(lines_of(p.text@), needle, 0);
    if in_title || snip is Some {
        Some(HitView {
            id: p.id@,
            title: p.title@,
            in_title,
            snippet: match snip {
                Some(s) => s,
                None => seq![],
            },
        })
    } else {
        None
    }
}

/// The hits among the first `k` pages, in page order.
pub open spec fn hits_upto(pages: Seq<Page>, needle: Seq<char>, k: int) -> Seq<HitView>
    decreases k,
{
    if k <= 0 || k > pages.len() {
        seq![]
    } else {
        match hit_of(pages[k - 1], needle) {
            Some(h) => hits_upto(pages, needle, k - 1).push(h),
            None => hits_upto(pages, needle, k - 1),
        }
    }
}

/// `a` is listed before `b`: title matches first, then by lower-cased title.
pub open spec fn hit_before(a: HitView, b: HitView) -> bool {
    if a.in_title != b.in_title {
        a.in_title
    } else {
        crate::text::text_lt(lower_text(a.title), lower_text(b.title))
    }
}

/// Index of the first of `s` that `h` comes strictly before, from `i` on, or `s.len()`.
pub open spec fn slot_for(s: Seq<HitView>, h: HitView, i: int) -> int
    decreases s.len() - i,
{
    if i < 0 || i >= s.len() {
        s.len() as int
    } else if hit_before(h, s[i]) {
        i
    } else {
        slot_for(s, h, i + 1)
    }
}

/// The first `k` hits sorted, keeping the order of hits that tie.
pub open spec fn sorted_hits(hs: Seq<HitView>, k: int) -> Seq<HitView>
    decreases k,
{
    if k <= 0 || k > hs.len() {
        seq![]
    } else {
        let s = sorted_hits(hs, k - 1);
        s.insert(slot_for(s, hs[k - 1], 0), hs[k - 1])
    }
}

/// What a search for `query` lists: pages whose title or text holds it ignoring case, title
/// matches first, then by title.
pub open spec fn search_result(pages: Seq<Page>, query: Seq<char>) -> Seq<HitView> {
    let needle = lowered(trim(query));
    if needle.len() == 0 {
        seq![]
    } else {
        let hs = hits_upto(pages, needle, pages.len() as int);
        sorted_hits(hs, hs.len() as int)
    }
}

proof fn lemma_first_is_find_pat(h: Seq<char>, n: Seq<char>, i: int)
    requires
        n.len() > 0,
        occurs_at(h, n, i),
        forall|j: int| 0 <= j < i ==> !occurs_at(h, n, j),
    ensures
        find_pat(h, n, 0) == i,
{
    lemma_find_pat(h, n, 0);
    let f = find_pat(h, n, 0);
    if f < h.len() {
        if f < i {
        } else if f > i {
        }
    } else {
        assert(!occurs_at(h, n, i) || i >= f);
    }
}

proof fn lemma_none_is_find_pat(h: Seq<char>, n: Seq<char>)
    requires
        n.len() > 0,
        !occurs(h, n),
    ensures
        find_pat(h, n, 0) >= h.len(),
{
    lemma_find_pat(h, n, 0);
    if find_pat(h, n, 0) < h.len() {
        assert(occurs_at(h, n, find_pat(h, n, 0)));
    }
}

fn snippet_in(text: &Vec<char>, needle: &Vec<char>) -> (r: Option<Vec<char>>)
    requires
        needle.len() > 0,
    ensures
        opt_view(r) == snippet_from(lines_of(text@), needle@, 0),
{
    let lines = split_lines(text);
    let ghost ls = views(lines@);
    let mut k: usize = 0;
    while k < lines.len()
        invariant
            needle.len() > 0,
            ls == views(lines@),
            ls == lines_of(text@),
            0 <= k <= lines.len(),
            snippet_from(ls, needle@, 0) == snippet_from(ls, needle@, k as int),
        decreases lines.len() - k,
    {
        let line = &lines[k];
        assert(ls[k as int] == line@);
        let low = lower_chars_of(line);
        match contains(low.as_slice(), needle.as_slice()) {
            Some(at) => {
                proof {
                    lemma_first_is_find_pat(low@, needle@, at as int);
                }
                return Some(snippet(line, at, needle.len()));
            },
            None => {
                proof {
                    lemma_none_is_find_pat(low@, needle@);
                }
            },
        }
        k = k + 1;
    }
    None
}

fn hit_exec(p: &Page, needle: &Vec<char>) -> (r: Option<SearchHit>)
    requires
        needle.len() > 0,
    ensures
        match r {
            Some(h) => hit_of(*p, needle@) == Some(h@),
            None => hit_of(*p, needle@) is None,
        },
{
    let title = chars_of(p.title.as_str());
    let low = lower_chars_of(&title);
    let in_title = match contains(low.as_slice(), needle.as_slice()) {
        Some(at) => {
            proof {
                lemma_first_is_find_pat(low@, needle@, at as int);
                lemma_find_pat(low@, needle@, 0);
            }
            true
        },
        None => {
            proof {
                lemma_none_is_find_pat(low@, needle@);
            }
            false
        },
    };
    let text = chars_of(p.text.as_str());
    let snip = snippet_in(&text, needle);
    if in_title || snip.is_some() {
        let snippet = match snip {
            Some(s) => string_of(&s),
            None => string_of(&Vec::new()),
        };
        Some(SearchHit { id: p.id.clone(), title: p.title.clone(), in_title, snippet })
    } else {
        None
    }
}

fn hit_before_exec(a: &SearchHit, ka: &Vec<char>, b: &SearchHit, kb: &Vec<char>) -> (r: bool)
    requires
        ka@ == lower_text(a.title@),
        kb@ == lower_text(b.title@),
    ensures
        r == hit_before(a@, b@),
{
    if a.in_title != b.in_title {
        a.in_title
    } else {
        crate::text::less_than(ka, kb)
    }
}

impl Wiki {
    /// Pages whose title or text contains `query`, ignoring case: title matches first, then
    /// by title.
    pub fn search(&self, query: &str) -> (r: Vec<SearchHit>)
        ensures
            r@.map_values(|h: SearchHit| h@) == search_result(self.pages@, query@),
    {
        let q = chars_of(query);
        let t = trim_all(&q);
        let needle = lower_chars_of(&t);
        if needle.len() == 0 {
            return Vec::new();
        }
        let ghost needle_v = needle@;
        let mut hits: Vec<SearchHit> = Vec::new();
        let mut k: usize = 0;
        while k < self.pages.len()
            invariant
                needle.len() > 0,
                needle@ == lowered(trim(query@)),
                0 <= k <= self.pages.len(),
                hits@.map_values(|h: SearchHit| h@) == hits_upto(self.pages@, needle@, k as int),
            decreases self.pages.len() - k,
        {
            let ghost before = hits@;
            match hit_exec(&self.pages[k], &needle) {
                Some(h) => {
                    hits.push(h);
                    assert(hits@.map_values(|h: SearchHit| h@) =~= before.map_values(|h: SearchHit| h@).push(
                        hits@.last()@,
                    ));
                },
                None => {},
            }
            k = k + 1;
        }
        let ghost hv = hits@.map_values(|h: SearchHit| h@);
        // insertion sort, each hit after those it does not come before
        let mut sorted: Vec<SearchHit> = Vec::new();
        let mut keys: Vec<Vec<char>> = Vec::new();
        let mut i: usize = 0;
        while i < hits.len()
            invariant
                hv == hits@.map_values(|h: SearchHit| h@),
                0 <= i <= hits.len(),
                sorted@.map_values(|h: SearchHit| h@) == sorted_hits(hv, i as int),
                keys.len() == sorted.len(),
                forall|j: int| 0 <= j < keys.len() ==> (#[trigger] keys@[j])@ == lower_text(sorted@[j].title@),
            decreases hits.len() - i,
        {
            let h = &hits[i];
            let kh = lowercase(&chars_of(h.title.as_str()));
            let ghost sv = sorted@.map_values(|x: SearchHit| x@);
            let mut pos: usize = 0;
            while pos < sorted.len() && !hit_before_exec(h, &kh, &sorted[pos], &keys[pos])
                invariant
                    sv == sorted@.map_values(|x: SearchHit| x@),
                    keys.len() == sorted.len(),
                    forall|j: int| 0 <= j < keys.len() ==> (#[trigger] keys@[j])@ == lower_text(sorted@[j].title@),
                    kh@ == lower_text(h.title@),
                    0 <= pos <= sorted.len(),
                    slot_for(sv, h@, 0) == slot_for(sv, h@, pos as int),
                decreases sorted.len() - pos,
            {
                pos = pos + 1;
            }
            assert(hv[i as int] == h@);
            let hc = SearchHit { id: h.id.clone(), title: h.title.clone(), in_title: h.in_title, snippet: h.snippet.clone() };
            let ghost sorted0 = sorted@;
            let ghost keys0 = keys@;
            sorted.insert(pos, hc);
            keys.insert(pos, kh);
            proof {
                assert(sorted@.map_values(|x: SearchHit| x@) =~= sv.insert(pos as int, h@));
                assert forall|j: int| 0 <= j < keys.len() implies (#[trigger] keys@[j])@ == lower_text(sorted@[j].title@) by {
                    if j < pos {
                        assert(keys@[j] == keys0[j]);
                        assert(sorted@[j] == sorted0[j]);
                    } else if j > pos {
                        assert(keys@[j] == keys0[j - 1]);
                        assert(sorted@[j] == sorted0[j - 1]);
                    }
                }
            }
            i = i + 1;
        }
        sorted
    }
}


// ----- the folder tree ----------------------------------------------------------------

#[derive(Debug)]
pub enum TreeNode {
    Folder {
        name: String,
        path: String,
        /// The folder's `index` page, which stands for the folder itself.
        index: Option<String>,
        children: Vec<TreeNode>,
    },
    Page { id: String, title: String },
}

/// A tree node as text.
pub enum TreeView {
    Folder { name: Seq<char>, path: Seq<char>, index: Option<Seq<char>>, children: Seq<TreeView> },
    Page { id: Seq<char>, title: Seq<char> },
}

pub open spec fn node_view(t: TreeNode) -> TreeView
    decreases t,
{
    match t {
        TreeNode::Folder { name, path, index, children } => TreeView::Folder {
            name: name@,
            path: path@,
            index: opt_string(index),
            children: forest_view(children@),
        },
        TreeNode::Page { id, title } => TreeView::Page { id: id@, title: title@ },
    }
}

pub open spec fn forest_view(ts: Seq<TreeNode>) -> Seq<TreeView>
    decreases ts,
{
    if ts.len() == 0 {
        seq![]
    } else {
        forest_view(ts.drop_last()).push(node_view(ts.last()))
    }
}


/// Index of the first folder of `ts` with this path, from `k` on, or `ts.len()`.
pub open spec fn folder_at(ts: Seq<TreeView>, path: Seq<char>, k: int) -> int
    decreases ts.len() - k,
{
    if k < 0 || k >= ts.len() {
        ts.len() as int
    } else if ts[k] matches TreeView::Folder { path: p, .. } && p == path {
        k
    } else {
        folder_at(ts, path, k + 1)
    }
}

/// `ts` with page `id` added under the folder path `rest` (relative to the folder at
/// `prefix`), folders made as needed.
pub open spec fn tree_insert(ts: Seq<TreeView>, prefix: Seq<char>, rest: Seq<char>, id: Seq<char>, title: Seq<char>) -> Seq<TreeView>
    decreases rest.len(),
{
    let i = find_from(rest, '/', 0);
    if i >= rest.len() {
        ts.push(TreeView::Page { id, title })
    } else {
        proof {
            lemma_find_from(rest, '/', 0);
        }
        let folder = rest.take(i);
        let remainder = rest.skip(i + 1);
        let path = if prefix.len() == 0 {
            folder
        } else {
            prefix + "/"@ + folder
        };
        let k = folder_at(ts, path, 0);
        if 0 <= k < ts.len() {
            match ts[k] {
                TreeView::Folder { name, path: p, index, children } => ts.update(
                    k,
                    TreeView::Folder { name, path: p, index, children: tree_insert(children, path, remainder, id, title) },
                ),
                TreeView::Page { .. } => ts,
            }
        } else {
            ts.push(
                TreeView::Folder {
                    name: prettified(folder),
                    path,
                    index: None,
                    children: tree_insert(seq![], path, remainder, id, title),
                },
            )
        }
    }
}

/// Index of the first child page of `ts` with this id, or `ts.len()`.
pub open spec fn page_child(ts: Seq<TreeView>, id: Seq<char>, k: int) -> int
    decreases ts.len() - k,
{
    if k < 0 || k >= ts.len() {
        ts.len() as int
    } else if ts[k] matches TreeView::Page { id: i, .. } && i == id {
        k
    } else {
        page_child(ts, id, k + 1)
    }
}

/// A folder with an `index` page takes that page's title, and the page leaves its children.
pub open spec fn fold_node(t: TreeView) -> TreeView
    decreases t,
{
    match t {
        TreeView::Folder { name, path, index, children } => {
            let wanted = index_of(path);
            let pos = page_child(children, wanted, 0);
            if 0 <= pos < children.len() && children[pos] is Page {
                TreeView::Folder {
                    name: children[pos]->Page_title,
                    path,
                    index: Some(children[pos]->Page_id),
                    children: fold_forest(children, pos),
                }
            } else {
                TreeView::Folder { name, path, index, children: fold_forest(children, -1) }
            }
        },
        TreeView::Page { .. } => t,
    }
}

/// Every node of `ts` folded, but the one at `skip`, which is left out.
pub open spec fn fold_forest(ts: Seq<TreeView>, skip: int) -> Seq<TreeView>
    decreases ts,
{
    if ts.len() == 0 {
        seq![]
    } else {
        let rest = fold_forest(ts.drop_last(), skip);
        if ts.len() - 1 == skip {
            rest
        } else {
            rest.push(fold_node(ts.last()))
        }
    }
}

/// What a node is sorted by: the root `index` page first, then folders and pages by their
/// displayed name ignoring case.
pub open spec fn tree_key(t: TreeView) -> (int, Seq<char>) {
    match t {
        TreeView::Page { id, title } => if id == "index"@ {
            (0, seq![])
        } else {
            (1, lower_text(title))
        },
        TreeView::Folder { name, .. } => (1, lower_text(name)),
    }
}

pub open spec fn key_lt(a: (int, Seq<char>), b: (int, Seq<char>)) -> bool {
    a.0 < b.0 || (a.0 == b.0 && crate::text::text_lt(a.1, b.1))
}

/// Index of the first of `s` that `t` sorts strictly before, from `i` on, or `s.len()`.
pub open spec fn tree_slot(s: Seq<TreeView>, t: TreeView, i: int) -> int
    decreases s.len() - i,
{
    if i < 0 || i >= s.len() {
        s.len() as int
    } else if key_lt(tree_key(t), tree_key(s[i])) {
        i
    } else {
        tree_slot(s, t, i + 1)
    }
}

/// The first `k` nodes of `ts` in sorted order, ties kept in their order.
pub open spec fn tree_sorted(ts: Seq<TreeView>, k: int) -> Seq<TreeView>
    decreases k,
{
    if k <= 0 || k > ts.len() {
        seq![]
    } else {
        let s = tree_sorted(ts, k - 1);
        s.insert(tree_slot(s, ts[k - 1], 0), ts[k - 1])
    }
}

/// A node with the children of folders sorted, all the way down.
pub open spec fn sort_node(t: TreeView) -> TreeView
    decreases t, 0int,
{
    match t {
        TreeView::Folder { name, path, index, children } => TreeView::Folder {
            name,
            path,
            index,
            children: sort_forest(children),
        },
        TreeView::Page { .. } => t,
    }
}

pub open spec fn sort_each(ts: Seq<TreeView>) -> Seq<TreeView>
    decreases ts, 0int,
{
    if ts.len() == 0 {
        seq![]
    } else {
        sort_each(ts.drop_last()).push(sort_node(ts.last()))
    }
}

/// Nodes sorted, and the children of folders too.
pub open spec fn sort_forest(ts: Seq<TreeView>) -> Seq<TreeView>
    decreases ts, 1int,
{
    let each = sort_each(ts);
    tree_sorted(each, each.len() as int)
}

/// The pages of the first `k` of `pages` inserted into the tree by their ids.
pub open spec fn tree_upto(pages: Seq<Page>, k: int) -> Seq<TreeView>
    decreases k,
{
    if k <= 0 || k > pages.len() {
        seq![]
    } else {
        tree_insert(tree_upto(pages, k - 1), seq![], pages[k - 1].id@, pages[k - 1].id@, pages[k - 1].title@)
    }
}

/// The folder/page tree of the wiki.
pub open spec fn wiki_tree(pages: Seq<Page>) -> Seq<TreeView> {
    sort_forest(fold_forest(tree_upto(pages, pages.len() as int), -1))
}


pub open spec fn tsize(t: TreeView) -> nat
    decreases t,
{
    match t {
        TreeView::Folder { children, .. } => 1 + fsize(children),
        TreeView::Page { .. } => 1,
    }
}

pub open spec fn fsize(ts: Seq<TreeView>) -> nat
    decreases ts,
{
    if ts.len() == 0 {
        0
    } else {
        fsize(ts.drop_last()) + tsize(ts.last())
    }
}

pub proof fn lemma_forest_view(ts: Seq<TreeNode>)
    ensures
        forest_view(ts).len() == ts.len(),
        forall|k: int| 0 <= k < ts.len() ==> forest_view(ts)[k] == node_view(#[trigger] ts[k]),
    decreases ts.len(),
{
    if ts.len() > 0 {
        lemma_forest_view(ts.drop_last());
        assert forall|k: int| 0 <= k < ts.len() implies forest_view(ts)[k] == node_view(#[trigger] ts[k]) by {
            if k < ts.len() - 1 {
                assert(ts.drop_last()[k] == ts[k]);
            }
        }
    }
}

proof fn lemma_forest_view_push(ts: Seq<TreeNode>, x: TreeNode)
    ensures
        forest_view(ts.push(x)) == forest_view(ts).push(node_view(x)),
{
    assert(ts.push(x).drop_last() =~= ts);
}

proof fn lemma_fsize_last(ts: Seq<TreeView>)
    requires
        ts.len() > 0,
    ensures
        fsize(ts.drop_last()) < fsize(ts),
        tsize(ts.last()) <= fsize(ts),
{
    assert(tsize(ts.last()) >= 1) by {
        match ts.last() {
            TreeView::Folder { .. } => {},
            TreeView::Page { .. } => {},
        }
    }
}

proof fn lemma_folder_at(ts: Seq<TreeView>, path: Seq<char>, k: int)
    requires
        0 <= k,
    ensures
        folder_at(ts, path, k) < ts.len() ==> k <= folder_at(ts, path, k) && ts[folder_at(ts, path, k)] is Folder,
    decreases ts.len() - k,
{
    if k < ts.len() && !(ts[k] matches TreeView::Folder { path: p, .. } && p == path) {
        lemma_folder_at(ts, path, k + 1);
    }
}

fn folder_at_exec(nodes: &Vec<TreeNode>, path: &Vec<char>) -> (r: usize)
    ensures
        r as int == folder_at(forest_view(nodes@), path@, 0),
        r <= nodes.len(),
{
    proof {
        lemma_forest_view(nodes@);
    }
    let ghost fv = forest_view(nodes@);
    let mut k: usize = 0;
    while k < nodes.len()
        invariant
            fv == forest_view(nodes@),
            fv.len() == nodes.len(),
            forall|j: int| 0 <= j < nodes.len() ==> fv[j] == node_view(#[trigger] nodes@[j]),
            0 <= k <= nodes.len(),
            folder_at(fv, path@, 0) == folder_at(fv, path@, k as int),
        decreases nodes.len() - k,
    {
        assert(fv[k as int] == node_view(nodes@[k as int]));
        match &nodes[k] {
            TreeNode::Folder { path: p, .. } => {
                let pc = chars_of(p.as_str());
                if crate::text::chars_eq(&pc, path) {
                    return k;
                }
            },
            TreeNode::Page { .. } => {},
        }
        k = k + 1;
    }
    k
}

fn tree_insert_exec(nodes: Vec<TreeNode>, prefix: &Vec<char>, rest: &Vec<char>, id: &String, title: &String) -> (r: Vec<TreeNode>)
    ensures
        forest_view(r@) == tree_insert(forest_view(nodes@), prefix@, rest@, id@, title@),
    decreases rest.len(),
{
    let mut nodes = nodes;
    let ghost fv = forest_view(nodes@);
    proof {
        lemma_forest_view(nodes@);
    }
    let i = find_char(rest, '/', 0);
    if i >= rest.len() {
        let ghost before = nodes@;
        let leaf = TreeNode::Page { id: id.clone(), title: title.clone() };
        nodes.push(leaf);
        proof {
            lemma_forest_view_push(before, leaf);
        }
        return nodes;
    }
    let folder = slice(rest, 0, i);
    let remainder = slice(rest, i + 1, rest.len());
    assert(folder@ =~= rest@.take(i as int));
    assert(remainder@ =~= rest@.skip(i + 1));
    let path = if prefix.len() == 0 {
        folder.clone()
    } else {
        let mut p = prefix.clone();
        push_str(&mut p, "/");
        push_all(&mut p, &folder);
        p
    };
    let k = folder_at_exec(&nodes, &path);
    proof {
        lemma_folder_at(fv, path@, 0);
    }
    if k < nodes.len() {
        let ghost before = nodes@;
        let node = nodes.remove(k);
        assert(fv[k as int] == node_view(node));
        match node {
            TreeNode::Folder { name, path: p, index, children } => {
                let ch = tree_insert_exec(children, &path, &remainder, id, title);
                let new_node = TreeNode::Folder { name, path: p, index, children: ch };
                nodes.insert(k, new_node);
                proof {
                    assert(nodes@ =~= before.update(k as int, new_node));
                    lemma_forest_view(nodes@);
                    lemma_forest_view(before);
                    assert forall|j: int| 0 <= j < nodes@.len() implies forest_view(nodes@)[j] == fv.update(k as int, node_view(new_node))[j] by {
                        assert(fv == forest_view(before));
                        if j != k {
                            assert(nodes@[j] == before[j]);
                            assert(forest_view(before)[j] == node_view(before[j]));
                            assert(forest_view(nodes@)[j] == node_view(nodes@[j]));
                        } else {
                            assert(nodes@[j] == new_node);
                            assert(forest_view(nodes@)[j] == node_view(nodes@[j]));
                        }
                    }
                    assert(forest_view(nodes@) =~= fv.update(k as int, node_view(new_node)));
                }
            },
            TreeNode::Page { .. } => {
                assert(false);
            },
        }
        nodes
    } else {
        let ch = tree_insert_exec(Vec::new(), &path, &remainder, id, title);
        assert(forest_view(Seq::<TreeNode>::empty()) == Seq::<TreeView>::empty());
        let name = prettify_chars(&folder);
        let new_node = TreeNode::Folder { name: string_of(&name), path: string_of(&path), index: None, children: ch };
        let ghost before = nodes@;
        nodes.push(new_node);
        proof {
            lemma_forest_view_push(before, new_node);
        }
        nodes
    }
}


proof fn lemma_page_child(ts: Seq<TreeView>, id: Seq<char>, k: int)
    requires
        0 <= k,
    ensures
        page_child(ts, id, k) <= ts.len(),
        page_child(ts, id, k) < ts.len() ==> ts[page_child(ts, id, k)] is Page,
    decreases ts.len() - k,
{
    if k < ts.len() && !(ts[k] matches TreeView::Page { id: i, .. } && i == id) {
        lemma_page_child(ts, id, k + 1);
    }
}

fn page_child_exec(nodes: &Vec<TreeNode>, id: &Vec<char>) -> (r: usize)
    ensures
        r as int == page_child(forest_view(nodes@), id@, 0),
        r <= nodes.len(),
{
    proof {
        lemma_forest_view(nodes@);
    }
    let ghost fv = forest_view(nodes@);
    let mut k: usize = 0;
    while k < nodes.len()
        invariant
            fv == forest_view(nodes@),
            fv.len() == nodes.len(),
            forall|j: int| 0 <= j < nodes.len() ==> fv[j] == node_view(#[trigger] nodes@[j]),
            0 <= k <= nodes.len(),
            page_child(fv, id@, 0) == page_child(fv, id@, k as int),
        decreases nodes.len() - k,
    {
        assert(fv[k as int] == node_view(nodes@[k as int]));
        match &nodes[k] {
            TreeNode::Page { id: i, .. } => {
                let ic = chars_of(i.as_str());
                if crate::text::chars_eq(&ic, id) {
                    return k;
                }
            },
            TreeNode::Folder { .. } => {},
        }
        k = k + 1;
    }
    k
}

fn fold_node_exec(t: TreeNode) -> (r: TreeNode)
    ensures
        node_view(r) == fold_node(node_view(t)),
    decreases tsize(node_view(t)), 0int,
{
    match t {
        TreeNode::Folder { name, path, index, children } => {
            let ghost cv = forest_view(children@);
            assert(tsize(node_view(TreeNode::Folder { name, path, index, children })) == 1 + fsize(cv));
            let pc = chars_of(path.as_str());
            let wanted = index_id(&pc);
            let pos = page_child_exec(&children, &wanted);
            proof {
                lemma_page_child(cv, wanted@, 0);
                lemma_forest_view(children@);
            }
            if pos < children.len() {
                assert(cv[pos as int] == node_view(children@[pos as int]));
                let (new_name, new_index) = match &children[pos] {
                    TreeNode::Page { id, title } => (title.clone(), Some(id.clone())),
                    TreeNode::Folder { .. } => {
                        assert(false);
                        (name, index)
                    },
                };
                let folded = fold_forest_exec(children, Some(pos));
                TreeNode::Folder { name: new_name, path, index: new_index, children: folded }
            } else {
                let folded = fold_forest_exec(children, None);
                TreeNode::Folder { name, path, index, children: folded }
            }
        },
        TreeNode::Page { id, title } => TreeNode::Page { id, title },
    }
}

pub open spec fn skip_index(skip: Option<usize>) -> int {
    match skip {
        Some(s) => s as int,
        None => -1,
    }
}

fn fold_forest_exec(ts: Vec<TreeNode>, skip: Option<usize>) -> (r: Vec<TreeNode>)
    ensures
        forest_view(r@) == fold_forest(forest_view(ts@), skip_index(skip)),
    decreases fsize(forest_view(ts@)), 1int,
{
    let mut ts = ts;
    if ts.len() == 0 {
        return Vec::new();
    }
    let ghost tv = forest_view(ts@);
    let ghost before = ts@;
    let n = ts.len();
    let last = ts.pop().unwrap();
    proof {
        assert(before.drop_last() =~= ts@);
        assert(tv == forest_view(ts@).push(node_view(last)));
        assert(tv.drop_last() =~= forest_view(ts@));
        lemma_fsize_last(tv);
        lemma_forest_view(before);
        assert(tv.len() == n);
        assert(tv.last() == node_view(last));
    }
    let mut rest = fold_forest_exec(ts, skip);
    let skipped = match skip {
        Some(s) => s == n - 1,
        None => false,
    };
    if skipped {
        rest
    } else {
        let f = fold_node_exec(last);
        let ghost rb = rest@;
        rest.push(f);
        proof {
            lemma_forest_view_push(rb, f);
        }
        rest
    }
}


proof fn lemma_forest_view_insert(ts: Seq<TreeNode>, pos: int, x: TreeNode)
    requires
        0 <= pos <= ts.len(),
    ensures
        forest_view(ts.insert(pos, x)) == forest_view(ts).insert(pos, node_view(x)),
{
    lemma_forest_view(ts);
    lemma_forest_view(ts.insert(pos, x));
    let a = forest_view(ts.insert(pos, x));
    let b = forest_view(ts).insert(pos, node_view(x));
    assert forall|j: int| 0 <= j < a.len() implies a[j] == b[j] by {
        if j < pos {
            assert(ts.insert(pos, x)[j] == ts[j]);
        } else if j > pos {
            assert(ts.insert(pos, x)[j] == ts[j - 1]);
        }
    }
    assert(a =~= b);
}

/// What a node is sorted by, computed.
fn node_key(t: &TreeNode) -> (r: (u8, Vec<char>))
    ensures
        (r.0 as int, r.1@) == tree_key(node_view(*t)),
{
    match t {
        TreeNode::Page { id, title } => {
            let ic = chars_of(id.as_str());
            let index = chars_of("index");
            if crate::text::chars_eq(&ic, &index) {
                (0, Vec::new())
            } else {
                (1, lowercase(&chars_of(title.as_str())))
            }
        },
        TreeNode::Folder { name, .. } => (1, lowercase(&chars_of(name.as_str()))),
    }
}

fn key_lt_exec(a: &(u8, Vec<char>), b: &(u8, Vec<char>)) -> (r: bool)
    ensures
        r == key_lt((a.0 as int, a.1@), (b.0 as int, b.1@)),
{
    a.0 < b.0 || (a.0 == b.0 && crate::text::less_than(&a.1, &b.1))
}

fn sort_node_exec(t: TreeNode) -> (r: TreeNode)
    ensures
        node_view(r) == sort_node(node_view(t)),
    decreases tsize(node_view(t)), 0int,
{
    match t {
        TreeNode::Folder { name, path, index, children } => {
            assert(tsize(node_view(TreeNode::Folder { name, path, index, children })) == 1 + fsize(
                forest_view(children@),
            ));
            let sorted = sort_forest_exec(children);
            TreeNode::Folder { name, path, index, children: sorted }
        },
        TreeNode::Page { id, title } => TreeNode::Page { id, title },
    }
}

fn sort_each_exec(ts: Vec<TreeNode>) -> (r: Vec<TreeNode>)
    ensures
        forest_view(r@) == sort_each(forest_view(ts@)),
    decreases fsize(forest_view(ts@)), 1int,
{
    let mut ts = ts;
    if ts.len() == 0 {
        return Vec::new();
    }
    let ghost tv = forest_view(ts@);
    let ghost before = ts@;
    let last = ts.pop().unwrap();
    proof {
        assert(before.drop_last() =~= ts@);
        assert(tv == forest_view(ts@).push(node_view(last)));
        assert(tv.drop_last() =~= forest_view(ts@));
        lemma_fsize_last(tv);
    }
    let mut rest = sort_each_exec(ts);
    let s = sort_node_exec(last);
    let ghost rb = rest@;
    rest.push(s);
    proof {
        lemma_forest_view_push(rb, s);
    }
    rest
}

fn sort_forest_exec(ts: Vec<TreeNode>) -> (r: Vec<TreeNode>)
    ensures
        forest_view(r@) == sort_forest(forest_view(ts@)),
    decreases fsize(forest_view(ts@)), 2int,
{
    let mut each = sort_each_exec(ts);
    let ghost ev = forest_view(each@);
    let ghost all = each@;
    proof {
        lemma_forest_view(each@);
    }
    let mut sorted: Vec<TreeNode> = Vec::new();
    let mut keys: Vec<(u8, Vec<char>)> = Vec::new();
    let mut i: usize = 0;
    let n = each.len();
    assert(all.skip(0) =~= all);
    while each.len() > 0
        invariant
            ev == forest_view(all),
            ev.len() == all.len(),
            n == all.len(),
            i + each.len() == n,
            each@ == all.skip(i as int),
            forest_view(sorted@) == tree_sorted(ev, i as int),
            keys.len() == sorted.len(),
            forall|j: int| 0 <= j < keys.len() ==> ((#[trigger] keys@[j]).0 as int, keys@[j].1@) == tree_key(node_view(sorted@[j])),
        decreases each.len(),
    {
        let ghost eb = each@;
        let x = each.remove(0);
        proof {
            assert(each@ =~= all.skip(i + 1));
            lemma_forest_view(all);
            assert(eb[0] == all[i as int]);
            assert(ev[i as int] == node_view(x));
            lemma_forest_view(sorted@);
        }
        let kx = node_key(&x);
        let ghost sv = forest_view(sorted@);
        let mut pos: usize = 0;
        while pos < sorted.len() && !key_lt_exec(&kx, &keys[pos])
            invariant
                sv == forest_view(sorted@),
                sv.len() == sorted.len(),
                forall|j: int| 0 <= j < sorted.len() ==> sv[j] == node_view(#[trigger] sorted@[j]),
                keys.len() == sorted.len(),
                forall|j: int| 0 <= j < keys.len() ==> ((#[trigger] keys@[j]).0 as int, keys@[j].1@) == tree_key(node_view(sorted@[j])),
                (kx.0 as int, kx.1@) == tree_key(node_view(x)),
                0 <= pos <= sorted.len(),
                tree_slot(sv, node_view(x), 0) == tree_slot(sv, node_view(x), pos as int),
            decreases sorted.len() - pos,
        {
            assert(sv[pos as int] == node_view(sorted@[pos as int]));
            pos = pos + 1;
        }
        proof {
            if pos < sorted.len() {
                assert(sv[pos as int] == node_view(sorted@[pos as int]));
            }
        }
        let ghost s0 = sorted@;
        let ghost k0 = keys@;
        sorted.insert(pos, x);
        keys.insert(pos, kx);
        proof {
            lemma_forest_view_insert(s0, pos as int, x);
            assert forall|j: int| 0 <= j < keys.len() implies ((#[trigger] keys@[j]).0 as int, keys@[j].1@) == tree_key(node_view(sorted@[j])) by {
                if j < pos {
                    assert(keys@[j] == k0[j]);
                    assert(sorted@[j] == s0[j]);
                } else if j > pos {
                    assert(keys@[j] == k0[j - 1]);
                    assert(sorted@[j] == s0[j - 1]);
                }
            }
        }
        i = i + 1;
    }
    sorted
}

impl Wiki {
    /// Folder/page tree, sorted by displayed name ignoring case. A folder with an `index` page
    /// takes that page's title, and the page is not listed among its children.
    pub fn tree(&self) -> (r: Vec<TreeNode>)
        ensures
            forest_view(r@) == wiki_tree(self.pages@),
    {
        let mut root: Vec<TreeNode> = Vec::new();
        let mut k: usize = 0;
        let empty: Vec<char> = Vec::new();
        while k < self.pages.len()
            invariant
                0 <= k <= self.pages.len(),
                empty@ == Seq::<char>::empty(),
                forest_view(root@) == tree_upto(self.pages@, k as int),
            decreases self.pages.len() - k,
        {
            let page = &self.pages[k];
            let rest = chars_of(page.id.as_str());
            root = tree_insert_exec(root, &empty, &rest, &page.id, &page.title);
            k = k + 1;
        }
        let folded = fold_forest_exec(root, None);
        sort_forest_exec(folded)
    }
}


// ----- laws ---------------------------------------------------------------------------

/// Wiki links count from the wiki root: a link written as the id of an existing page (a plain
/// id: no surrounding blanks, `#`, `://`, `mailto:` or `.md`, no `/` at either end, nothing for
/// normalizing to change, not a folder's `index` page) leads to that page, whichever page it
/// is written in.
pub proof fn a_link_to_an_id_opens_that_page(ids: Seq<Seq<char>>, from: Seq<char>, id: Seq<char>)
    requires
        ids.contains(id),
        id.len() > 0,
        trim(id) == id,
        !id.contains('#'),
        !occurs(id, "://"@),
        !starts_with(id, "mailto:"@),
        !ends_with(id, ".md"@),
        id[0] != '/',
        id.last() != '/',
        normalized(id) == id,
        !names_an_index(id),
    ensures
        resolved(ids, from, id) == Target::Page(id),
{
    assert forall|k: int| 0 <= k < id.len() implies id[k] != '#' by {
        if id[k] == '#' {
            assert(id.contains('#'));
        }
    }
    crate::text::lemma_find_from_is(id, '#', 0, id.len() as int);
    assert(id.take(id.len() as int) =~= id);
    assert(strip_start_char(id, '/') == id);
    assert(strip_end_char(id, '/') == id);
}

#[verifier::spinoff_prover]
#[verifier::rlimit(30)]
proof fn lemma_linkers(ids: Seq<Seq<char>>, pages: Seq<Page>, t: Seq<char>, k: int)
    requires
        ids == pages.map_values(|p: Page| p.id@),
        0 <= k <= pages.len(),
    ensures
        forall|x: Seq<char>|
            #[trigger] linkers_upto(ids, pages, t, k).contains(x) <==> exists|i: int|
                0 <= i < k && links_to(ids, pages[i], t) && ids[i] == x,
        forall|m: int|
            0 <= m < linkers_upto(ids, pages, t, k).len() ==> exists|i: int|
                0 <= i < k && #[trigger] linkers_upto(ids, pages, t, k)[m] == ids[i],
        sorted_ids(ids) ==> sorted_ids(linkers_upto(ids, pages, t, k)),
    decreases k,
{
    if k > 0 {
        lemma_linkers(ids, pages, t, k - 1);
        let prev = linkers_upto(ids, pages, t, k - 1);
        let cur = linkers_upto(ids, pages, t, k);
        assert(ids[k - 1] == pages[k - 1].id@);
        if links_to(ids, pages[k - 1], t) {
            assert(cur == prev.push(ids[k - 1]));
            assert forall|x: Seq<char>| #[trigger] cur.contains(x) <==> exists|i: int|
                0 <= i < k && links_to(ids, pages[i], t) && ids[i] == x by {
                if cur.contains(x) {
                    let m = choose|m: int| 0 <= m < cur.len() && cur[m] == x;
                    if m < prev.len() {
                        assert(prev[m] == x);
                        assert(prev.contains(x));
                    }
                }
                if exists|i: int| 0 <= i < k && links_to(ids, pages[i], t) && ids[i] == x {
                    let i = choose|i: int| 0 <= i < k && links_to(ids, pages[i], t) && ids[i] == x;
                    if i < k - 1 {
                        assert(prev.contains(x));
                        let m = choose|m: int| 0 <= m < prev.len() && prev[m] == x;
                        assert(cur[m] == x);
                    } else {
                        assert(cur[prev.len() as int] == x);
                    }
                }
            }
            assert forall|m: int| 0 <= m < cur.len() implies exists|i: int|
                0 <= i < k && #[trigger] cur[m] == ids[i] by {
                if m < prev.len() {
                    assert(cur[m] == prev[m]);
                } else {
                    assert(cur[m] == ids[k - 1]);
                }
            }
            if sorted_ids(ids) {
                assert forall|a: int, b: int| 0 <= a < b < cur.len() implies crate::text::text_lt(
                    #[trigger] cur[a],
                    #[trigger] cur[b],
                ) by {
                    if b < prev.len() {
                        assert(cur[a] == prev[a] && cur[b] == prev[b]);
                    } else {
                        assert(cur[a] == prev[a]);
                        let i = choose|i: int| 0 <= i < k - 1 && #[trigger] prev[a] == ids[i];
                        assert(cur[b] == ids[k - 1]);
                    }
                }
            }
        } else {
            assert(cur == prev);
            assert forall|x: Seq<char>| #[trigger] cur.contains(x) <==> exists|i: int|
                0 <= i < k && links_to(ids, pages[i], t) && ids[i] == x by {
                if exists|i: int| 0 <= i < k && links_to(ids, pages[i], t) && ids[i] == x {
                    let i = choose|i: int| 0 <= i < k && links_to(ids, pages[i], t) && ids[i] == x;
                    assert(i < k - 1);
                }
            }
        }
    }
}

/// Backlinks are exactly the other pages with a link that resolves to the page, each once, in
/// id order.
#[verifier::spinoff_prover]
pub proof fn backlinks_are_the_pages_linking_in(w: Wiki, t: Seq<char>, s: Seq<char>)
    requires
        w.wf(),
    ensures
        w.linkers(t).contains(s) <==> exists|i: int|
            0 <= i < w.pages.len() && w.ids()[i] == s && s != t && exists|j: int|
                0 <= j < w.pages@[i].links@.len() && resolved(w.ids(), s, #[trigger] w.pages@[i].links@[j]@)
                    == Target::Page(t),
        sorted_ids(w.linkers(t)),
{
    lemma_linkers(w.ids(), w.pages@, t, w.pages.len() as int);
    assert(w.linkers(t).contains(s) == linkers_upto(w.ids(), w.pages@, t, w.pages.len() as int).contains(s));
    assert forall|i: int| 0 <= i < w.pages.len() implies #[trigger] w.ids()[i] == w.pages@[i].id@ by {}
}

/// A folder's `index` page is linked only through its folder: a link written as the plain path
/// of an index page (`projects/index`) is missing, whether or not the page exists.
pub proof fn a_direct_link_to_an_index_page_is_missing(ids: Seq<Seq<char>>, from: Seq<char>, id: Seq<char>)
    requires
        id.len() > 0,
        trim(id) == id,
        !id.contains('#'),
        !occurs(id, "://"@),
        !starts_with(id, "mailto:"@),
        !ends_with(id, ".md"@),
        id[0] != '/',
        id.last() != '/',
        normalized(id) == id,
        names_an_index(id),
    ensures
        resolved(ids, from, id) == Target::Missing(id),
{
    assert forall|k: int| 0 <= k < id.len() implies id[k] != '#' by {
        if id[k] == '#' {
            assert(id.contains('#'));
        }
    }
    crate::text::lemma_find_from_is(id, '#', 0, id.len() as int);
    assert(id.take(id.len() as int) =~= id);
    assert(strip_start_char(id, '/') == id);
    assert(strip_end_char(id, '/') == id);
}

pub proof fn lemma_hit_before_trans(a: HitView, b: HitView, c: HitView)
    requires
        hit_before(a, b),
        hit_before(b, c),
    ensures
        hit_before(a, c),
{
    if a.in_title == b.in_title && b.in_title == c.in_title {
        crate::text::lemma_text_lt_trans(lower_text(a.title), lower_text(b.title), lower_text(c.title));
    }
}

proof fn lemma_slot_for(s: Seq<HitView>, h: HitView, i: int)
    requires
        0 <= i <= s.len(),
    ensures
        i <= slot_for(s, h, i) <= s.len(),
        slot_for(s, h, i) < s.len() ==> hit_before(h, s[slot_for(s, h, i)]),
        forall|j: int| i <= j < slot_for(s, h, i) ==> !hit_before(h, #[trigger] s[j]),
    decreases s.len() - i,
{
    if i < s.len() && !hit_before(h, s[i]) {
        lemma_slot_for(s, h, i + 1);
    }
}

/// No hit is listed after one that should come after it.
pub open spec fn hits_in_order(s: Seq<HitView>) -> bool {
    forall|i: int, j: int| 0 <= i < j < s.len() ==> !hit_before(#[trigger] s[j], #[trigger] s[i])
}

proof fn lemma_sorted_hits(hs: Seq<HitView>, k: int)
    requires
        0 <= k <= hs.len(),
    ensures
        hits_in_order(sorted_hits(hs, k)),
        sorted_hits(hs, k).len() == k,
    decreases k,
{
    if k > 0 {
        lemma_sorted_hits(hs, k - 1);
        let s = sorted_hits(hs, k - 1);
        let h = hs[k - 1];
        lemma_slot_for(s, h, 0);
        let p = slot_for(s, h, 0);
        let t = s.insert(p, h);
        assert forall|i: int, j: int| 0 <= i < j < t.len() implies !hit_before(#[trigger] t[j], #[trigger] t[i]) by {
            if j < p {
                assert(t[i] == s[i] && t[j] == s[j]);
            } else if j == p {
                assert(t[i] == s[i]);
                assert(!hit_before(h, s[i]));
            } else if i == p {
                assert(t[j] == s[j - 1]);
                if hit_before(s[j - 1], h) {
                    lemma_hit_before_trans(s[j - 1], h, s[p]);
                    if j - 1 > p {
                        assert(!hit_before(s[j - 1], s[p]));
                    }
                    lemma_hit_before_irrefl(s[p]);
                }
            } else if i < p {
                assert(t[i] == s[i] && t[j] == s[j - 1]);
            } else {
                assert(t[i] == s[i - 1] && t[j] == s[j - 1]);
            }
        }
    }
}

proof fn lemma_hit_before_irrefl(a: HitView)
    ensures
        !hit_before(a, a),
{
    crate::text::lemma_text_lt_irrefl(lower_text(a.title));
}

/// Search lists title matches first, then by title ignoring case: no hit comes after one that
/// should follow it.
pub proof fn search_hits_come_in_order(pages: Seq<Page>, query: Seq<char>)
    ensures
        hits_in_order(search_result(pages, query)),
{
    let needle = lowered(trim(query));
    if needle.len() > 0 {
        let hs = hits_upto(pages, needle, pages.len() as int);
        lemma_sorted_hits(hs, hs.len() as int);
    }
}


/// Search lists every title match before every match in the text alone; among hits of one
/// kind, none comes after one whose lower-cased title it sorts before.
pub proof fn title_matches_come_first(pages: Seq<Page>, query: Seq<char>)
    ensures
        forall|i: int, j: int|
            0 <= i < j < search_result(pages, query).len() && (#[trigger] search_result(pages, query)[j]).in_title
                ==> (#[trigger] search_result(pages, query)[i]).in_title,
        forall|i: int, j: int|
            0 <= i < j < search_result(pages, query).len() && (#[trigger] search_result(pages, query)[i]).in_title
                == (#[trigger] search_result(pages, query)[j]).in_title ==> !crate::text::text_lt(
                lower_text(search_result(pages, query)[j].title),
                lower_text(search_result(pages, query)[i].title),
            ),
{
    search_hits_come_in_order(pages, query);
    let s = search_result(pages, query);
    assert forall|i: int, j: int| 0 <= i < j < s.len() && (#[trigger] s[j]).in_title implies (#[trigger] s[i]).in_title by {
        assert(!hit_before(s[j], s[i]));
    }
    assert forall|i: int, j: int|
        0 <= i < j < s.len() && (#[trigger] s[i]).in_title == (#[trigger] s[j]).in_title implies !crate::text::text_lt(
        lower_text(s[j].title),
        lower_text(s[i].title),
    ) by {
        assert(!hit_before(s[j], s[i]));
    }
}

/// Every page node of `t` shows the title of its page in `w`, and every folder with an index
/// page is named by that page's title, all the way down.
pub open spec fn node_titled(w: Wiki, t: TreeView) -> bool
    decreases t,
{
    match t {
        TreeView::Folder { name, index, children, .. } => {
            &&& (index matches Some(id) ==> name == w.title_for(id))
            &&& forest_titled(w, children)
        },
        TreeView::Page { id, title } => title == w.title_for(id),
    }
}

pub open spec fn forest_titled(w: Wiki, ts: Seq<TreeView>) -> bool
    decreases ts,
{
    if ts.len() == 0 {
        true
    } else {
        forest_titled(w, ts.drop_last()) && node_titled(w, ts.last())
    }
}

proof fn lemma_forest_titled(w: Wiki, ts: Seq<TreeView>)
    ensures
        forest_titled(w, ts) <==> forall|i: int| 0 <= i < ts.len() ==> node_titled(w, #[trigger] ts[i]),
    decreases ts.len(),
{
    if ts.len() > 0 {
        let d = ts.drop_last();
        lemma_forest_titled(w, d);
        assert forall|i: int| 0 <= i < d.len() implies #[trigger] d[i] == ts[i] by {}
        if forall|i: int| 0 <= i < ts.len() ==> node_titled(w, #[trigger] ts[i]) {
            assert forall|i: int| 0 <= i < d.len() implies node_titled(w, #[trigger] d[i]) by {
                assert(d[i] == ts[i]);
            }
            assert(ts.last() == ts[ts.len() - 1]);
        }
        if forest_titled(w, ts) {
            assert forall|i: int| 0 <= i < ts.len() implies node_titled(w, #[trigger] ts[i]) by {
                if i < d.len() {
                    assert(d[i] == ts[i]);
                    assert(node_titled(w, d[i]));
                }
            }
        }
    }
}

/// In a well-formed wiki, page `k` is the one its id names.
proof fn lemma_title_of_page(w: Wiki, k: int)
    requires
        w.wf(),
        0 <= k < w.pages@.len(),
    ensures
        w.title_for(w.pages@[k].id@) == w.pages@[k].title@,
{
    let ids = w.ids();
    let id = w.pages@[k].id@;
    assert(ids[k] == id);
    lemma_position(ids, id, 0);
    let p = position(ids, id, 0);
    assert(p != -1);
    if p < k {
        assert(crate::text::text_lt(ids[p], ids[k]));
        crate::text::lemma_text_lt_irrefl(id);
    }
    assert(p == k);
}

proof fn lemma_insert_titled(w: Wiki, ts: Seq<TreeView>, prefix: Seq<char>, rest: Seq<char>, id: Seq<char>, title: Seq<char>)
    requires
        forest_titled(w, ts),
        title == w.title_for(id),
    ensures
        forest_titled(w, tree_insert(ts, prefix, rest, id, title)),
    decreases rest.len(),
{
    lemma_forest_titled(w, ts);
    let i = find_from(rest, '/', 0);
    lemma_find_from(rest, '/', 0);
    let r = tree_insert(ts, prefix, rest, id, title);
    if i >= rest.len() {
        lemma_forest_titled(w, r);
        assert forall|j: int| 0 <= j < r.len() implies node_titled(w, #[trigger] r[j]) by {
            if j < ts.len() {
                assert(r[j] == ts[j]);
            }
        }
    } else {
        let folder = rest.take(i);
        let remainder = rest.skip(i + 1);
        let path = if prefix.len() == 0 {
            folder
        } else {
            prefix + "/"@ + folder
        };
        let k = folder_at(ts, path, 0);
        if 0 <= k < ts.len() {
            match ts[k] {
                TreeView::Folder { name, path: p, index, children } => {
                    assert(node_titled(w, ts[k]));
                    lemma_insert_titled(w, children, path, remainder, id, title);
                    lemma_forest_titled(w, r);
                    assert forall|j: int| 0 <= j < r.len() implies node_titled(w, #[trigger] r[j]) by {
                        if j != k {
                            assert(r[j] == ts[j]);
                        }
                    }
                },
                TreeView::Page { .. } => {},
            }
        } else {
            lemma_insert_titled(w, seq![], path, remainder, id, title);
            lemma_forest_titled(w, r);
            assert forall|j: int| 0 <= j < r.len() implies node_titled(w, #[trigger] r[j]) by {
                if j < ts.len() {
                    assert(r[j] == ts[j]);
                }
            }
        }
    }
}

proof fn lemma_tree_upto_titled(w: Wiki, k: int)
    requires
        w.wf(),
        0 <= k <= w.pages@.len(),
    ensures
        forest_titled(w, tree_upto(w.pages@, k)),
    decreases k,
{
    if k > 0 {
        lemma_tree_upto_titled(w, k - 1);
        lemma_title_of_page(w, k - 1);
        let pg = w.pages@[k - 1];
        lemma_insert_titled(w, tree_upto(w.pages@, k - 1), seq![], pg.id@, pg.id@, pg.title@);
    }
}

proof fn lemma_fold_node_titled(w: Wiki, t: TreeView)
    requires
        node_titled(w, t),
    ensures
        node_titled(w, fold_node(t)),
    decreases t,
{
    match t {
        TreeView::Folder { name, path, index, children } => {
            let wanted = index_of(path);
            let pos = page_child(children, wanted, 0);
            lemma_forest_titled(w, children);
            if 0 <= pos < children.len() && children[pos] is Page {
                assert(node_titled(w, children[pos]));
                lemma_fold_forest_titled(w, children, pos);
            } else {
                lemma_fold_forest_titled(w, children, -1);
            }
        },
        TreeView::Page { .. } => {},
    }
}

proof fn lemma_fold_forest_titled(w: Wiki, ts: Seq<TreeView>, skip: int)
    requires
        forest_titled(w, ts),
    ensures
        forest_titled(w, fold_forest(ts, skip)),
    decreases ts,
{
    if ts.len() > 0 {
        lemma_fold_forest_titled(w, ts.drop_last(), skip);
        let rest = fold_forest(ts.drop_last(), skip);
        if ts.len() - 1 != skip {
            lemma_fold_node_titled(w, ts.last());
            let r = rest.push(fold_node(ts.last()));
            assert(r.drop_last() =~= rest);
        }
    }
}

proof fn lemma_tree_slot(s: Seq<TreeView>, t: TreeView, i: int)
    requires
        0 <= i <= s.len(),
    ensures
        i <= tree_slot(s, t, i) <= s.len(),
    decreases s.len() - i,
{
    if i < s.len() && !key_lt(tree_key(t), tree_key(s[i])) {
        lemma_tree_slot(s, t, i + 1);
    }
}

proof fn lemma_tree_sorted_titled(w: Wiki, ts: Seq<TreeView>, k: int)
    requires
        forest_titled(w, ts),
        0 <= k <= ts.len(),
    ensures
        forest_titled(w, tree_sorted(ts, k)),
    decreases k,
{
    if k > 0 {
        lemma_tree_sorted_titled(w, ts, k - 1);
        let s = tree_sorted(ts, k - 1);
        let pos = tree_slot(s, ts[k - 1], 0);
        lemma_tree_slot(s, ts[k - 1], 0);
        s.insert_ensures(pos, ts[k - 1]);
        let r = s.insert(pos, ts[k - 1]);
        lemma_forest_titled(w, s);
        lemma_forest_titled(w, ts);
        lemma_forest_titled(w, r);
        assert forall|j: int| 0 <= j < r.len() implies node_titled(w, #[trigger] r[j]) by {
            if j < pos {
                assert(r[j] == s[j]);
            } else if j > pos {
                assert(r[(j - 1) + 1] == s[j - 1]);
            }
        }
    }
}

proof fn lemma_sort_node_titled(w: Wiki, t: TreeView)
    requires
        node_titled(w, t),
    ensures
        node_titled(w, sort_node(t)),
    decreases t, 0int,
{
    match t {
        TreeView::Folder { children, .. } => {
            lemma_sort_forest_titled(w, children);
        },
        TreeView::Page { .. } => {},
    }
}

proof fn lemma_sort_each_titled(w: Wiki, ts: Seq<TreeView>)
    requires
        forest_titled(w, ts),
    ensures
        forest_titled(w, sort_each(ts)),
    decreases ts, 0int,
{
    if ts.len() > 0 {
        lemma_sort_each_titled(w, ts.drop_last());
        lemma_sort_node_titled(w, ts.last());
        let r = sort_each(ts.drop_last()).push(sort_node(ts.last()));
        assert(r.drop_last() =~= sort_each(ts.drop_last()));
    }
}

proof fn lemma_sort_forest_titled(w: Wiki, ts: Seq<TreeView>)
    requires
        forest_titled(w, ts),
    ensures
        forest_titled(w, sort_forest(ts)),
    decreases ts, 1int,
{
    lemma_sort_each_titled(w, ts);
    let each = sort_each(ts);
    lemma_tree_sorted_titled(w, each, each.len() as int);
}

/// In the folder tree, a folder with an index page is named by that page's title, and every
/// page shows its own title, at every depth.
pub proof fn folders_take_their_index_page_title(w: Wiki)
    requires
        w.wf(),
    ensures
        forest_titled(w, wiki_tree(w.pages@)),
{
    let n = w.pages@.len() as int;
    lemma_tree_upto_titled(w, n);
    lemma_fold_forest_titled(w, tree_upto(w.pages@, n), -1);
    lemma_sort_forest_titled(w, fold_forest(tree_upto(w.pages@, n), -1));
}

// ----- pages that move ---------------------------------------------------------------------

/// Index of the first move away from `id`, or -1.
pub open spec fn first_move(moves: Seq<(Seq<char>, Seq<char>)>, id: Seq<char>, k: int) -> int
    decreases moves.len() - k,
{
    if k < 0 || k >= moves.len() {
        -1
    } else if moves[k].0 == id {
        k
    } else {
        first_move(moves, id, k + 1)
    }
}

/// The new target for a link written `raw` on page `from` when the page it leads to moved: the
/// page's new id, with `.md` when the link was written with it.
pub open spec fn moved_target(
    ids: Seq<Seq<char>>,
    from: Seq<char>,
    raw: Seq<char>,
    moves: Seq<(Seq<char>, Seq<char>)>,
) -> Option<Seq<char>> {
    match resolved(ids, from, raw) {
        Target::Page(t) => {
            let i = first_move(moves, t, 0);
            if i >= 0 {
                let new = moves[i].1;
                Some(
                    if ends_with(crate::text::trim_end(raw), ".md"@) {
                        new + ".md"@
                    } else {
                        new
                    },
                )
            } else {
                None
            }
        },
        _ => None,
    }
}

/// A page's text with the links to moved pages following them.
pub open spec fn relinked_text(
    ids: Seq<Seq<char>>,
    from: Seq<char>,
    text: Seq<char>,
    moves: Seq<(Seq<char>, Seq<char>)>,
) -> Seq<char> {
    rewritten(
        text,
        Seq::new(targets_in(text).len(), |i: int| moved_target(ids, from, targets_in(text)[i], moves)),
        0,
    )
}

/// Of the first `k` candidate ids: each page whose text changes, with its new text.
pub open spec fn relinked_upto(
    w: Wiki,
    cands: Seq<Seq<char>>,
    moves: Seq<(Seq<char>, Seq<char>)>,
    k: int,
) -> Seq<(Seq<char>, Seq<char>)>
    decreases k,
{
    if k <= 0 || k > cands.len() {
        seq![]
    } else {
        let acc = relinked_upto(w, cands, moves, k - 1);
        let id = cands[k - 1];
        let i = position(w.ids(), id, 0);
        if i >= 0 {
            let text = w.pages@[i].text@;
            let new = relinked_text(w.ids(), id, text, moves);
            if new != text {
                acc.push((id, new))
            } else {
                acc
            }
        } else {
            acc
        }
    }
}

pub open spec fn pairs_view(v: Seq<(String, String)>) -> Seq<(Seq<char>, Seq<char>)> {
    v.map_values(|p: (String, String)| (p.0@, p.1@))
}

/// The folders above a page id: `a`, `a/b` for `a/b/c`.
pub open spec fn ancestors(id: Seq<char>) -> Seq<Seq<char>> {
    let parts = split_on(id, '/');
    Seq::new((parts.len() - 1) as nat, |d: int| crate::text::join(parts.take(d + 1), "/"@))
}

/// The folders above `id`, outermost first: each may have to turn from a page into a folder
/// index before a page can be made at `id`.
pub fn ancestor_folders(id: &str) -> (r: Vec<String>)
    ensures
        strings(r@) == ancestors(id@),
{
    let c = chars_of(id);
    let parts = split_char(&c, '/');
    let ghost pv = views(parts@);
    proof {
        crate::text::lemma_split_nonempty(c@, '/');
    }
    let sep = chars_of("/");
    let mut out: Vec<String> = Vec::new();
    let mut d: usize = 1;
    while d < parts.len()
        invariant
            pv == views(parts@),
            pv == split_on(id@, '/'),
            sep@ == "/"@,
            1 <= d <= parts.len(),
            strings(out@) == ancestors(id@).take(d - 1),
        decreases parts.len() - d,
    {
        let mut prefix: Vec<Vec<char>> = Vec::new();
        let mut j: usize = 0;
        while j < d
            invariant
                pv == views(parts@),
                d < parts.len(),
                0 <= j <= d,
                views(prefix@) == pv.take(j as int),
            decreases d - j,
        {
            let ghost before = views(prefix@);
            prefix.push(parts[j].clone());
            assert(views(prefix@) =~= before.push(pv[j as int]));
            assert(pv.take(j + 1) =~= pv.take(j as int).push(pv[j as int]));
            j = j + 1;
        }
        let joined = crate::text::join_chars(&prefix, &sep);
        let ghost before = strings(out@);
        out.push(string_of(&joined));
        assert(strings(out@) =~= before.push(joined@));
        assert(ancestors(id@).take(d as int) =~= ancestors(id@).take(d - 1).push(ancestors(id@)[d - 1]));
        d = d + 1;
    }
    assert(ancestors(id@).take(parts.len() - 1) =~= ancestors(id@));
    out
}

fn ends_md(raw: &Vec<char>) -> (r: bool)
    ensures
        r == ends_with(crate::text::trim_end(raw@), ".md"@),
{
    let k = crate::text::skip_ws_back(raw, 0, raw.len());
    assert(raw@.subrange(0, raw.len() as int) =~= raw@);
    let t = slice(raw, 0, k);
    has_suffix(&t, &chars_of(".md"))
}

impl Wiki {
    fn moved_to(&self, ids: &Vec<Vec<char>>, from: &Vec<char>, raw: &Vec<char>, moves: &Vec<(String, String)>) -> (r: Option<Vec<char>>)
        requires
            views(ids@) == self.ids(),
        ensures
            opt_view(r) == moved_target(self.ids(), from@, raw@, pairs_view(moves@)),
    {
        let ghost mv = pairs_view(moves@);
        match resolve_in(ids, from, raw) {
            LinkTarget::Page(t) => {
                let tc = chars_of(t.as_str());
                let mut i: usize = 0;
                while i < moves.len()
                    invariant
                        mv == pairs_view(moves@),
                        resolved(self.ids(), from@, raw@) == Target::Page(tc@),
                        0 <= i <= moves.len(),
                        first_move(mv, tc@, 0) == first_move(mv, tc@, i as int),
                    decreases moves.len() - i,
                {
                    assert(mv[i as int] == (moves@[i as int].0@, moves@[i as int].1@));
                    if crate::text::chars_eq(&chars_of(moves[i].0.as_str()), &tc) {
                        assert(mv[i as int].0 == tc@);
                        assert(first_move(mv, tc@, i as int) == i);
                        let mut new = chars_of(moves[i].1.as_str());
                        if ends_md(raw) {
                            push_str(&mut new, ".md");
                        }
                        return Some(new);
                    }
                    i = i + 1;
                }
                None
            },
            _ => None,
        }
    }

    /// The pages among `candidates` whose links lead to pages that moved (`moves`: old id, new
    /// id), each with its text rewritten so the links follow the pages; pages whose text stays
    /// the same are left out.
    pub fn relinked(&self, candidates: &Vec<String>, moves: &Vec<(String, String)>) -> (r: Vec<(String, String)>)
        ensures
            pairs_view(r@) == relinked_upto(*self, strings(candidates@), pairs_view(moves@), candidates@.len() as int),
    {
        let ids = self.id_chars();
        let ghost cv = strings(candidates@);
        let mut out: Vec<(String, String)> = Vec::new();
        let mut k: usize = 0;
        while k < candidates.len()
            invariant
                views(ids@) == self.ids(),
                cv == strings(candidates@),
                0 <= k <= candidates.len(),
                pairs_view(out@) == relinked_upto(*self, cv, pairs_view(moves@), k as int),
            decreases candidates.len() - k,
        {
            let id = chars_of(candidates[k].as_str());
            assert(cv[k as int] == id@);
            match self.position_of(&id) {
                Some(i) => {
                    let text = chars_of(self.pages[i].text.as_str());
                    let targets = link_targets(&text);
                    let ghost tv = views(targets@);
                    let mut outs: Vec<Option<Vec<char>>> = Vec::new();
                    let mut j: usize = 0;
                    while j < targets.len()
                        invariant
                            views(ids@) == self.ids(),
                            tv == views(targets@),
                            tv == targets_in(text@),
                            0 <= j <= targets.len(),
                            opts_view(outs@) =~= Seq::new(
                                j as nat,
                                |q: int| moved_target(self.ids(), id@, tv[q], pairs_view(moves@)),
                            ),
                        decreases targets.len() - j,
                    {
                        let o = self.moved_to(&ids, &id, &targets[j], moves);
                        let ghost before = opts_view(outs@);
                        outs.push(o);
                        assert(tv[j as int] == targets@[j as int]@);
                        assert(opts_view(outs@) =~= before.push(opt_view(o)));
                        assert(opts_view(outs@) =~= Seq::new(
                            (j + 1) as nat,
                            |q: int| moved_target(self.ids(), id@, tv[q], pairs_view(moves@)),
                        ));
                        j = j + 1;
                    }
                    let new = rewrite_with(&text, &outs);
                    assert(self.pages@[i as int].text@ == text@);
                    assert(new@ == relinked_text(self.ids(), id@, text@, pairs_view(moves@)));
                    if !crate::text::chars_eq(&new, &text) {
                        let ghost before = pairs_view(out@);
                        let item = (string_of(&id), string_of(&new));
                        out.push(item);
                        assert(pairs_view(out@) =~= before.push((id@, new@)));
                    }
                },
                None => {},
            }
            k = k + 1;
        }
        out
    }
}


// ----- images no page uses -------------------------------------------------------------------

/// An extension (in any case) of the image files the wiki shows.
pub open spec fn image_ext(ext: Seq<char>) -> bool {
    let e = lower_text(ext);
    e == "png"@ || e == "jpg"@ || e == "jpeg"@ || e == "gif"@ || e == "webp"@ || e == "bmp"@
}

/// Some page's text mentions `name`.
pub open spec fn mentioned(w: Wiki, name: Seq<char>) -> bool {
    exists|i: int| 0 <= i < w.pages@.len() && occurs(#[trigger] w.pages@[i].text@, name)
}

pub open spec fn found_file(f: (String, String, Option<String>)) -> (Seq<char>, Seq<char>, Option<Seq<char>>) {
    (f.0@, f.1@, match f.2 {
        Some(e) => Some(e@),
        None => None,
    })
}

pub open spec fn found_view(v: Seq<(String, String, Option<String>)>) -> Seq<(Seq<char>, Seq<char>, Option<Seq<char>>)> {
    v.map_values(|f: (String, String, Option<String>)| found_file(f))
}

/// Of the first `k` files: the paths of the images whose file name no page mentions.
pub open spec fn unused_upto(w: Wiki, files: Seq<(Seq<char>, Seq<char>, Option<Seq<char>>)>, k: int) -> Seq<Seq<char>>
    decreases k,
{
    if k <= 0 || k > files.len() {
        seq![]
    } else {
        let acc = unused_upto(w, files, k - 1);
        let (path, name, ext) = files[k - 1];
        if ext matches Some(e) && image_ext(e) && !mentioned(w, name) {
            acc.push(path)
        } else {
            acc
        }
    }
}

fn is_image_ext(ext: &String) -> (r: bool)
    ensures
        r == image_ext(ext@),
{
    let e = lowercase(&chars_of(ext.as_str()));
    proof {
        reveal_strlit("png");
        reveal_strlit("jpg");
        reveal_strlit("jpeg");
        reveal_strlit("gif");
        reveal_strlit("webp");
        reveal_strlit("bmp");
    }
    crate::text::chars_eq(&e, &chars_of("png")) || crate::text::chars_eq(&e, &chars_of("jpg"))
        || crate::text::chars_eq(&e, &chars_of("jpeg")) || crate::text::chars_eq(&e, &chars_of("gif"))
        || crate::text::chars_eq(&e, &chars_of("webp")) || crate::text::chars_eq(&e, &chars_of("bmp"))
}

impl Wiki {
    fn mentions(&self, name: &Vec<char>) -> (r: bool)
        ensures
            r == mentioned(*self, name@),
    {
        let mut i: usize = 0;
        while i < self.pages.len()
            invariant
                0 <= i <= self.pages.len(),
                forall|j: int| 0 <= j < i ==> !occurs(#[trigger] self.pages@[j].text@, name@),
            decreases self.pages.len() - i,
        {
            if contains_seq(&chars_of(self.pages[i].text.as_str()), name) {
                return true;
            }
            i = i + 1;
        }
        false
    }

    /// Of the files found under the wiki folder (path, file name, extension if it has one):
    /// the paths of the images that no page mentions by file name, in the order given.
    pub fn unreferenced_images(&self, files: &Vec<(String, String, Option<String>)>) -> (r: Vec<String>)
        ensures
            strings(r@) == unused_upto(*self, found_view(files@), files@.len() as int),
    {
        let ghost fv = found_view(files@);
        let mut out: Vec<String> = Vec::new();
        let mut k: usize = 0;
        while k < files.len()
            invariant
                fv == found_view(files@),
                0 <= k <= files.len(),
                strings(out@) == unused_upto(*self, fv, k as int),
            decreases files.len() - k,
        {
            let (path, name, ext) = (&files[k].0, &files[k].1, &files[k].2);
            assert(fv[k as int] == found_file(files@[k as int]));
            let keep = match ext {
                Some(e) => is_image_ext(e) && !self.mentions(&chars_of(name.as_str())),
                None => false,
            };
            if keep {
                let ghost before = strings(out@);
                out.push(path.clone());
                assert(strings(out@) =~= before.push(path@));
            }
            k = k + 1;
        }
        out
    }
}

} // verus!
