//! The page-source editor: positions in the text, soft wrapping, list continuation and the
//! highlighting of Markdown source lines.

use vstd::prelude::*;

use crate::text::{
    char_columns, char_width, chars_of, find_from, has_prefix, lemma_find_from, occurs_at, push_all,
    push_str, slice, split_on, split_char, lowercase, starts_with, string_of, trim_start, views, lines_of, split_lines,
};
use crate::wiki::{find_pat, lower_chars_of, strings};

verus! {

broadcast use vstd::string::group_string_axioms;

/// A place in the text: line and character index within it.
#[derive(Clone, Copy, Debug, PartialEq, Eq, Structural, PartialOrd, Ord, Default)]
pub struct Pos {
    pub line: usize,
    pub col: usize,
}

/// What the editor wants the app to do after a key.
#[derive(Clone, Copy, Debug, PartialEq, Eq, Structural)]
pub enum Action {
    /// Nothing for the app to do.
    Nothing,
    /// Write the text and leave the editor.
    Save,
    /// Leave the editor without saving.
    Discard,
    /// Ctrl-V: the app reads the clipboard (text or an image) and inserts it.
    Paste,
    /// Ctrl-P: the app opens the image picker (Ctrl-I would be Tab in a terminal).
    PickImage,
}

/// The editor's find bar: `Ctrl-F` opens it, `Ctrl-R` adds a replacement.
pub struct EditorFind {
    pub query: String,
    /// `Some` once Ctrl-R was pressed: the replacement being typed.
    pub replace: Option<String>,
}

/// One screen row of a soft-wrapped line: characters `start..end` of `line`.
#[derive(Clone, Copy, Debug, PartialEq, Eq, Structural)]
pub struct Row {
    pub line: usize,
    pub start: usize,
    pub end: usize,
}

/// Columns a character takes on screen; none for control characters.
pub open spec fn cw(c: char) -> int {
    match char_columns(c) {
        Some(w) => w as int,
        None => 0,
    }
}

pub fn char_cols(c: char) -> (r: usize)
    ensures
        r as int == cw(c),
        r <= 3,
{
    match char_width(c) {
        Some(w) => w,
        None => 0,
    }
}


// ----- soft wrapping ------------------------------------------------------------------

/// Scanning a line from `end` with `used` columns taken in a row `width` wide: where the row
/// stops, and the position after its last space (-1 when none was seen).
pub open spec fn scan_row(cs: Seq<char>, width: int, end: int, used: int, last_space: int) -> (int, int)
    decreases cs.len() - end,
{
    if end < 0 || end >= cs.len() || used + cw(cs[end]) > width {
        (end, last_space)
    } else {
        scan_row(cs, width, end + 1, used + cw(cs[end]), if cs[end] == ' ' { end + 1 } else { last_space })
    }
}

/// Where the row starting at `start` ends: as many characters as fit, broken after the last
/// space when the line goes on, and at least one character.
pub open spec fn row_end(cs: Seq<char>, start: int, width: int) -> int {
    let (e, ls) = scan_row(cs, width, start, 0, -1);
    let e1 = if e < cs.len() && ls > start {
        ls
    } else {
        e
    };
    if e1 == start && e1 < cs.len() {
        start + 1
    } else {
        e1
    }
}

pub proof fn lemma_scan_row(cs: Seq<char>, width: int, end: int, used: int, last_space: int)
    requires
        0 <= end <= cs.len(),
        last_space <= end,
    ensures
        end <= scan_row(cs, width, end, used, last_space).0 <= cs.len(),
        scan_row(cs, width, end, used, last_space).1 <= scan_row(cs, width, end, used, last_space).0,
        scan_row(cs, width, end, used, last_space).1 == last_space || end < scan_row(cs, width, end, used, last_space).1,
    decreases cs.len() - end,
{
    if end < cs.len() && used + cw(cs[end]) <= width {
        lemma_scan_row(cs, width, end + 1, used + cw(cs[end]), if cs[end] == ' ' { end + 1 } else { last_space });
    }
}

pub proof fn lemma_row_end(cs: Seq<char>, start: int, width: int)
    requires
        0 <= start <= cs.len(),
    ensures
        start <= row_end(cs, start, width) <= cs.len(),
        start < cs.len() ==> start < row_end(cs, start, width),
{
    lemma_scan_row(cs, width, start, 0, -1);
}

/// The rows of line `k` (characters `cs`) from `start` on.
pub open spec fn line_rows(cs: Seq<char>, k: int, width: int, start: int) -> Seq<(int, int, int)>
    decreases cs.len() - start,
{
    if start < 0 || start > cs.len() {
        seq![]
    } else {
        let end = row_end(cs, start, width);
        proof {
            lemma_row_end(cs, start, width);
        }
        if end >= cs.len() {
            seq![(k, start, end)]
        } else {
            seq![(k, start, end)] + line_rows(cs, k, width, end)
        }
    }
}

/// The rows of the first `n` lines.
pub open spec fn rows_upto(lines: Seq<Seq<char>>, width: int, n: int) -> Seq<(int, int, int)>
    decreases n,
{
    if n <= 0 || n > lines.len() {
        seq![]
    } else {
        rows_upto(lines, width, n - 1) + line_rows(lines[n - 1], n - 1, width, 0)
    }
}

/// Every line soft-wrapped at `width` columns (at least one).
pub open spec fn wrapped(lines: Seq<Seq<char>>, width: int) -> Seq<(int, int, int)> {
    rows_upto(lines, if width < 1 { 1 } else { width }, lines.len() as int)
}

impl View for Row {
    type V = (int, int, int);

    open spec fn view(&self) -> (int, int, int) {
        (self.line as int, self.start as int, self.end as int)
    }
}

pub open spec fn rows_view(v: Seq<Row>) -> Seq<(int, int, int)> {
    v.map_values(|r: Row| r@)
}

/// Where the row of `cs` starting at `start` ends.
fn row_end_exec(cs: &Vec<char>, start: usize, width: usize) -> (r: usize)
    requires
        start <= cs.len(),
    ensures
        r as int == row_end(cs@, start as int, width as int),
{
    let mut used: usize = 0;
    let mut end = start;
    let mut last_space: Option<usize> = None;
    while end < cs.len()
        invariant
            start <= end <= cs.len(),
            used <= width,
            scan_row(cs@, width as int, start as int, 0, -1) == scan_row(cs@, width as int, end as int, used as int, match last_space {
                Some(s) => s as int,
                None => -1,
            }),
            match last_space {
                Some(s) => start < s <= end,
                None => true,
            },
        ensures
            start <= end <= cs.len(),
            scan_row(cs@, width as int, start as int, 0, -1) == (end as int, match last_space {
                Some(s) => s as int,
                None => -1,
            }),
            match last_space {
                Some(s) => start < s <= end,
                None => true,
            },
        decreases cs.len() - end,
    {
        let w = char_cols(cs[end]);
        if w > width - used {
            break;
        }
        used = used + w;
        end = end + 1;
        if cs[end - 1] == ' ' {
            last_space = Some(end);
        }
    }
    let mut e = end;
    match last_space {
        Some(space) => {
            if end < cs.len() && space > start {
                e = space;
            }
        },
        None => {},
    }
    if e == start && e < cs.len() {
        e = start + 1;
    }
    e
}

/// Soft-wraps every line at `width` columns, breaking after a space where possible.
pub fn wrap_rows(lines: &[String], width: usize) -> (r: Vec<Row>)
    ensures
        rows_view(r@) == wrapped(strings(lines@), width as int),
{
    let ghost ls = strings(lines@);
    let width = if width < 1 {
        1
    } else {
        width
    };
    let mut rows: Vec<Row> = Vec::new();
    let mut k: usize = 0;
    while k < lines.len()
        invariant
            ls == strings(lines@),
            width >= 1,
            0 <= k <= lines.len(),
            rows_view(rows@) == rows_upto(ls, width as int, k as int),
        decreases lines.len() - k,
    {
        let cs = chars_of(lines[k].as_str());
        assert(cs@ == ls[k as int]);
        let ghost base = rows_view(rows@);
        let mut start: usize = 0;
        assert(rows_upto(ls, width as int, k + 1) == base + line_rows(cs@, k as int, width as int, 0));
        loop
            invariant_except_break
                rows_upto(ls, width as int, k + 1) == rows_view(rows@) + line_rows(cs@, k as int, width as int, start as int),
            invariant
                ls == strings(lines@),
                cs@ == ls[k as int],
                0 <= start <= cs.len(),
                k < lines.len(),
            ensures
                rows_upto(ls, width as int, k + 1) == rows_view(rows@),
            decreases cs.len() - start,
        {
            let end = row_end_exec(&cs, start, width);
            proof {
                lemma_row_end(cs@, start as int, width as int);
            }
            let ghost before = rows_view(rows@);
            rows.push(Row { line: k, start, end });
            assert(rows_view(rows@) =~= before.push((k as int, start as int, end as int)));
            if end >= cs.len() {
                assert(rows_view(rows@) =~= before + line_rows(cs@, k as int, width as int, start as int));
                break;
            }
            assert(before + line_rows(cs@, k as int, width as int, start as int) =~= rows_view(rows@) + line_rows(
                cs@,
                k as int,
                width as int,
                end as int,
            ));
            start = end;
        }
        proof {
            assert(rows_upto(ls, width as int, k + 1) == rows_view(rows@));
        }
        k = k + 1;
    }
    rows
}


// ----- screen positions ---------------------------------------------------------------

/// Columns taken by characters `a..b` of `cs`.
pub open spec fn cols_sum(cs: Seq<char>, a: int, b: int) -> int
    decreases b - a,
{
    if a >= b {
        0
    } else {
        cols_sum(cs, a, b - 1) + cw(cs[b - 1])
    }
}

/// Scanning a row up to `end` from `at` with `used` columns taken: the first character that
/// does not fit into `col` columns.
pub open spec fn scan_col(cs: Seq<char>, end: int, col: int, at: int, used: int) -> int
    decreases end - at,
{
    if at >= end || used + cw(cs[at]) > col {
        at
    } else {
        scan_col(cs, end, col, at + 1, used + cw(cs[at]))
    }
}

/// The character index at screen column `col` of the row `start..end` of `cs`; not after a
/// wrap point's trailing space, which belongs to this row.
pub open spec fn col_at(cs: Seq<char>, start: int, end: int, col: int) -> int {
    let at = scan_col(cs, end, col, start, 0);
    let at2 = if at == end && end < cs.len() && at > start && cs[at - 1] == ' ' {
        at - 1
    } else {
        at
    };
    if at2 < cs.len() {
        at2
    } else {
        cs.len() as int
    }
}

proof fn lemma_scan_col(cs: Seq<char>, end: int, col: int, at: int, used: int)
    ensures
        at <= end ==> at <= scan_col(cs, end, col, at, used) <= end,
        at > end ==> scan_col(cs, end, col, at, used) == at,
    decreases end - at,
{
    if at < end && used + cw(cs[at]) <= col {
        lemma_scan_col(cs, end, col, at + 1, used + cw(cs[at]));
    }
}

/// Columns of characters `a..b` grow as `b` does.
proof fn lemma_cols_sum_grows(cs: Seq<char>, a: int, b: int, c: int)
    requires
        a <= b <= c,
    ensures
        cols_sum(cs, a, b) <= cols_sum(cs, a, c),
    decreases c - b,
{
    if b < c {
        lemma_cols_sum_grows(cs, a, b, c - 1);
        assert(cw(cs[c - 1]) >= 0);
    }
}

/// Scanning from `at` with the columns before it taken stops at `col` when the target is the
/// columns before `col`.
proof fn lemma_scan_back(cs: Seq<char>, end: int, start: int, at: int, col: int)
    requires
        start <= at <= col < end,
        forall|i: int| start <= i <= col ==> cw(#[trigger] cs[i]) >= 1,
    ensures
        scan_col(cs, end, cols_sum(cs, start, col), at, cols_sum(cs, start, at)) == col,
    decreases col - at,
{
    if at < col {
        lemma_cols_sum_grows(cs, start, at + 1, col);
        assert(cols_sum(cs, start, at + 1) == cols_sum(cs, start, at) + cw(cs[at]));
        lemma_scan_back(cs, end, start, at + 1, col);
    } else {
        assert(cw(cs[col]) >= 1);
    }
}

/// Within a row, the screen column where a character is shown leads back to that character,
/// when no character up to it is zero columns wide.
pub proof fn a_screen_column_leads_back_to_its_character(cs: Seq<char>, start: int, end: int, col: int)
    requires
        0 <= start <= col < end <= cs.len(),
        forall|i: int| start <= i <= col ==> cw(#[trigger] cs[i]) >= 1,
    ensures
        col_at(cs, start, end, cols_sum(cs, start, col)) == col,
{
    lemma_scan_back(cs, end, start, start, col);
    assert(cols_sum(cs, start, start) == 0);
}

/// The text position at screen column `col` of `row`.
pub fn pos_at(lines: &[String], row: Row, col: usize) -> (r: Pos)
    requires
        row.line < lines@.len(),
        row.end <= lines@[row.line as int]@.len(),
    ensures
        r.line == row.line,
        r.col as int == col_at(lines@[row.line as int]@, row.start as int, row.end as int, col as int),
{
    let cs = chars_of(lines[row.line].as_str());
    let mut used: usize = 0;
    let mut at = row.start;
    proof {
        lemma_scan_col(cs@, row.end as int, col as int, row.start as int, 0);
    }
    while at < row.end
        invariant
            row.end <= cs.len(),
            row.start <= at,
            used <= col,
            scan_col(cs@, row.end as int, col as int, row.start as int, 0) == scan_col(cs@, row.end as int, col as int, at as int, used as int),
        ensures
            scan_col(cs@, row.end as int, col as int, row.start as int, 0) == at,
        decreases row.end - at,
    {
        let w = char_cols(cs[at]);
        if w > col - used {
            break;
        }
        used = used + w;
        at = at + 1;
    }
    proof {
        lemma_scan_col(cs@, row.end as int, col as int, at as int, used as int);
    }
    if at == row.end && row.end < cs.len() && at > row.start {
        at = at - 1;
        if cs[at] != ' ' {
            at = at + 1;
        }
    }
    Pos { line: row.line, col: if at < cs.len() { at } else { cs.len() } }
}

/// Index of the last row of `line` among the first `k` rows, or -1.
pub open spec fn last_with_line(rows: Seq<(int, int, int)>, line: int, k: int) -> int
    decreases k,
{
    if k <= 0 || k > rows.len() {
        -1
    } else if rows[k - 1].0 == line {
        k - 1
    } else {
        last_with_line(rows, line, k - 1)
    }
}

/// The row a position at column `col` of `line` shows on: the first row of the line that
/// ends after it, or the line's last row.
pub open spec fn pick_row(rows: Seq<(int, int, int)>, line: int, col: int, i: int) -> int
    decreases rows.len() - i,
{
    if i < 0 || i >= rows.len() {
        -1
    } else if rows[i].0 == line && (col < rows[i].2 || i == last_with_line(rows, line, rows.len() as int)) {
        i
    } else {
        pick_row(rows, line, col, i + 1)
    }
}

proof fn lemma_pick_row(rows: Seq<(int, int, int)>, line: int, col: int, i: int)
    requires
        0 <= i,
        i <= last_with_line(rows, line, rows.len() as int),
    ensures
        i <= pick_row(rows, line, col, i) <= last_with_line(rows, line, rows.len() as int),
        rows[pick_row(rows, line, col, i)].0 == line,
    decreases rows.len() - i,
{
    lemma_last_with_line(rows, line, rows.len() as int);
    if !(rows[i].0 == line && (col < rows[i].2 || i == last_with_line(rows, line, rows.len() as int))) {
        lemma_pick_row(rows, line, col, i + 1);
    }
}

proof fn lemma_last_with_line(rows: Seq<(int, int, int)>, line: int, k: int)
    requires
        0 <= k <= rows.len(),
    ensures
        -1 <= last_with_line(rows, line, k) < k,
        last_with_line(rows, line, k) >= 0 ==> rows[last_with_line(rows, line, k)].0 == line,
    decreases k,
{
    if k > 0 && rows[k - 1].0 != line {
        lemma_last_with_line(rows, line, k - 1);
    }
}

/// Screen row and column of a text position.
pub open spec fn visual(lines: Seq<Seq<char>>, rows: Seq<(int, int, int)>, line: int, col: int) -> (int, int) {
    let i = pick_row(rows, line, col, 0);
    let r = rows[i];
    (i, cols_sum(lines[line], r.1, if col < r.2 { col } else { r.2 }))
}

/// Screen row index and column of a text position.
pub fn visual_of(lines: &[String], rows: &[Row], pos: Pos) -> (r: (usize, usize))
    requires
        pos.line < lines@.len(),
        lines@[pos.line as int]@.len() <= usize::MAX / 4,
        last_with_line(rows_view(rows@), pos.line as int, rows@.len() as int) >= 0,
        pos.col <= lines@[pos.line as int]@.len(),
    ensures
        (r.0 as int, r.1 as int) == visual(
            strings(lines@),
            rows_view(rows@),
            pos.line as int,
            pos.col as int,
        ),
{
    let ghost rv = rows_view(rows@);
    let ghost last = last_with_line(rv, pos.line as int, rv.len() as int);
    proof {
        lemma_last_with_line(rv, pos.line as int, rv.len() as int);
        lemma_pick_row(rv, pos.line as int, pos.col as int, 0);
    }
    // the last row of the line
    let mut last_i: usize = rows.len();
    let mut k: usize = rows.len();
    while k > 0
        invariant
            rv == rows_view(rows@),
            0 <= k <= rows.len(),
            last_with_line(rv, pos.line as int, rv.len() as int) == last_with_line(rv, pos.line as int, k as int),
            last_with_line(rv, pos.line as int, k as int) >= 0,
        ensures
            last_i as int == last_with_line(rv, pos.line as int, rv.len() as int),
        decreases k,
    {
        assert(rv[k - 1] == rows@[k - 1]@);
        if rows[k - 1].line == pos.line {
            last_i = k - 1;
            break;
        }
        k = k - 1;
    }
    assert(last_i as int == last);
    let mut i: usize = 0;
    while i < rows.len()
        invariant
            rv == rows_view(rows@),
            0 <= i <= last,
            last == last_with_line(rv, pos.line as int, rv.len() as int),
            last < rows.len(),
            last_i as int == last,
            pick_row(rv, pos.line as int, pos.col as int, 0) == pick_row(rv, pos.line as int, pos.col as int, i as int),
            rv[last].0 == pos.line,
        ensures
            i as int == pick_row(rv, pos.line as int, pos.col as int, 0),
            i < rows.len(),
        decreases rows.len() - i,
    {
        assert(rv[i as int] == rows@[i as int]@);
        let row = rows[i];
        if row.line == pos.line && (pos.col < row.end || i == last_i) {
            break;
        }
        i = i + 1;
    }
    let row = rows[i];
    assert(rv[i as int] == rows@[i as int]@);
    let cs = chars_of(lines[pos.line].as_str());
    let stop = if pos.col < row.end {
        pos.col
    } else {
        row.end
    };
    let mut sum: usize = 0;
    if stop <= row.start {
        return (i, 0);
    }
    let mut j = row.start;
    while j < stop
        invariant
            row.start <= j <= stop <= cs.len(),
            cs.len() <= usize::MAX / 4,
            sum as int == cols_sum(cs@, row.start as int, j as int),
            sum <= 3 * (j - row.start),
        decreases stop - j,
    {
        sum = sum + char_cols(cs[j]);
        j = j + 1;
    }
    (i, sum)
}


// ----- lists --------------------------------------------------------------------------

/// Count of leading spaces.
pub open spec fn lead_spaces(s: Seq<char>) -> int
    decreases s.len(),
{
    if s.len() > 0 && s[0] == ' ' {
        1 + lead_spaces(s.drop_first())
    } else {
        0
    }
}

pub open spec fn is_digit(c: char) -> bool {
    '0' <= c && c <= '9'
}

pub open spec fn all_digits(s: Seq<char>) -> bool {
    forall|i: int| 0 <= i < s.len() ==> is_digit(#[trigger] s[i])
}

/// The number marker `12. ` at the start of `rest`: the index of its `. `.
pub open spec fn number_dot(rest: Seq<char>) -> Option<int> {
    let dot = find_pat(rest, ". "@, 0);
    if dot < rest.len() && dot > 0 && all_digits(rest.take(dot)) {
        Some(dot)
    } else {
        None
    }
}

/// The list marker at the start of `rest` and the text after it.
pub open spec fn marker_of(rest: Seq<char>) -> Option<(Seq<char>, Seq<char>)> {
    if starts_with(rest, "- "@) || starts_with(rest, "* "@) || starts_with(rest, "+ "@) {
        Some((rest.take(2), rest.skip(2)))
    } else {
        match number_dot(rest) {
            Some(d) => Some((rest.take(d + 2), rest.skip(d + 2))),
            None => None,
        }
    }
}

/// Leading indentation and list marker of a line: `("  ", "- [ ] ")`, `("", "3. ")`, or
/// empty strings when the line is not a list item.
pub open spec fn list_parts(line: Seq<char>) -> (Seq<char>, Seq<char>) {
    let n = lead_spaces(line);
    let rest = line.skip(n);
    match marker_of(rest) {
        None => (seq![], seq![]),
        Some((mk, after)) => (line.take(n), if starts_with(after, "[ ] "@) || starts_with(after, "[x] "@) || starts_with(
            after,
            "[X] "@,
        ) {
            mk + after.take(4)
        } else {
            mk
        }),
    }
}

/// The spaces a line starts with.
fn leading_spaces(cs: &Vec<char>) -> (r: Vec<char>)
    ensures
        r@ == cs@.take(lead_spaces(cs@)),
{
    proof {
        lemma_lead_spaces(cs@);
    }
    let mut n: usize = 0;
    while n < cs.len() && cs[n] == ' '
        invariant
            0 <= n <= cs.len(),
            forall|i: int| 0 <= i < n ==> cs@[i] == ' ',
        decreases cs.len() - n,
    {
        n = n + 1;
    }
    proof {
        let l = lead_spaces(cs@);
        if l < n {
            assert(cs@[l] == ' ');
        } else if l > n {
            assert(cs@[n as int] == ' ');
        }
    }
    let r = slice(cs, 0, n);
    assert(r@ =~= cs@.take(n as int));
    r
}

proof fn lemma_lead_spaces(s: Seq<char>)
    ensures
        0 <= lead_spaces(s) <= s.len(),
        forall|i: int| 0 <= i < lead_spaces(s) ==> s[i] == ' ',
        lead_spaces(s) < s.len() ==> s[lead_spaces(s)] != ' ',
    decreases s.len(),
{
    if s.len() > 0 && s[0] == ' ' {
        lemma_lead_spaces(s.drop_first());
        assert forall|i: int| 0 <= i < lead_spaces(s) implies s[i] == ' ' by {
            if i > 0 {
                assert(s[i] == s.drop_first()[i - 1]);
            }
        }
    }
}

fn find_pat_exec(s: &Vec<char>, pat: &Vec<char>) -> (r: usize)
    requires
        pat.len() > 0,
    ensures
        r as int == find_pat(s@, pat@, 0),
{
    let mut i: usize = 0;
    while i < s.len() && !(pat.len() <= s.len() - i && crate::text::has_at(s, i, pat))
        invariant
            pat.len() > 0,
            0 <= i <= s.len(),
            find_pat(s@, pat@, 0) == find_pat(s@, pat@, i as int),
        decreases s.len() - i,
    {
        i = i + 1;
    }
    if i < s.len() && pat.len() > s.len() - i {
        return s.len();
    }
    i
}

fn all_digits_exec(s: &Vec<char>, n: usize) -> (r: bool)
    requires
        n <= s.len(),
    ensures
        r == all_digits(s@.take(n as int)),
{
    let mut i: usize = 0;
    while i < n
        invariant
            n <= s.len(),
            0 <= i <= n,
            forall|k: int| 0 <= k < i ==> is_digit(s@[k]),
        decreases n - i,
    {
        if !('0' <= s[i] && s[i] <= '9') {
            assert(!is_digit(s@.take(n as int)[i as int]));
            return false;
        }
        i = i + 1;
    }
    true
}

/// Leading indentation and list marker of a line: `("  ", "- [ ] ")`, `("", "3. ")`, or
/// empty strings when the line is not a list item.
pub fn list_prefix(line: &str) -> (r: (String, String))
    ensures
        (r.0@, r.1@) == list_parts(line@),
{
    let cs = chars_of(line);
    proof {
        lemma_lead_spaces(cs@);
        reveal_strlit("- ");
        reveal_strlit("* ");
        reveal_strlit("+ ");
        reveal_strlit(". ");
        reveal_strlit("[ ] ");
        reveal_strlit("[x] ");
        reveal_strlit("[X] ");
    }
    let mut n: usize = 0;
    while n < cs.len() && cs[n] == ' '
        invariant
            0 <= n <= cs.len(),
            forall|i: int| 0 <= i < n ==> cs@[i] == ' ',
        decreases cs.len() - n,
    {
        n = n + 1;
    }
    proof {
        let l = lead_spaces(cs@);
        if l < n {
            assert(cs@[l] == ' ');
        } else if l > n {
            assert(cs@[n as int] == ' ');
        }
    }
    assert(n as int == lead_spaces(cs@));
    let indent = slice(&cs, 0, n);
    assert(indent@ =~= cs@.take(n as int));
    let rest = slice(&cs, n, cs.len());
    assert(rest@ =~= cs@.skip(n as int));
    let bullet = has_prefix(&rest, &chars_of("- ")) || has_prefix(&rest, &chars_of("* ")) || has_prefix(
        &rest,
        &chars_of("+ "),
    );
    let (marker, after) = if bullet {
        (slice(&rest, 0, 2), slice(&rest, 2, rest.len()))
    } else {
        let dot = find_pat_exec(&rest, &chars_of(". "));
        proof {
            crate::wiki::lemma_find_pat(rest@, ". "@, 0);
        }
        if dot < rest.len() && dot > 0 && all_digits_exec(&rest, dot) {
            (slice(&rest, 0, dot + 2), slice(&rest, dot + 2, rest.len()))
        } else {
            return (string_of(&Vec::new()), string_of(&Vec::new()));
        }
    };
    proof {
        assert(marker@ =~= rest@.take(marker@.len() as int));
        assert(after@ =~= rest@.skip(marker@.len() as int));
    }
    let mut mk = marker;
    if has_prefix(&after, &chars_of("[ ] ")) || has_prefix(&after, &chars_of("[x] ")) || has_prefix(
        &after,
        &chars_of("[X] "),
    ) {
        let box4 = slice(&after, 0, 4);
        assert(box4@ =~= after@.take(4));
        push_all(&mut mk, &box4);
    }
    (string_of(&indent), string_of(&mk))
}

/// `u64::from_str`: an optional `+`, then at least one digit, the value at most `u64::MAX`.
pub open spec fn digits_value(s: Seq<char>) -> nat
    decreases s.len(),
{
    if s.len() == 0 {
        0
    } else {
        digits_value(s.drop_last()) * 10 + ((s.last() as int) - ('0' as int)) as nat
    }
}

pub open spec fn parsed_u64(s: Seq<char>) -> Option<nat> {
    let d = if s.len() > 0 && s[0] == '+' {
        s.drop_first()
    } else {
        s
    };
    if d.len() > 0 && all_digits(d) && digits_value(d) <= u64::MAX {
        Some(digits_value(d))
    } else {
        None
    }
}

/// Every non-overlapping `pat` in `s`, from the left, replaced by `rep`.
pub open spec fn replace_all(s: Seq<char>, pat: Seq<char>, rep: Seq<char>) -> Seq<char>
    decreases s.len(),
{
    if s.len() == 0 {
        seq![]
    } else if pat.len() > 0 && occurs_at(s, pat, 0) {
        rep + replace_all(s.skip(pat.len() as int), pat, rep)
    } else {
        seq![s[0]] + replace_all(s.drop_first(), pat, rep)
    }
}

/// The marker for the item after one with `marker`: numbers count up, tasks start unticked.
pub open spec fn next_marker(m: Seq<char>) -> Seq<char> {
    let dot = find_pat(m, ". "@, 0);
    let next = if dot < m.len() && parsed_u64(m.take(dot)) is Some {
        crate::text::decimal((parsed_u64(m.take(dot))->Some_0 + 1) as nat) + ". "@ + m.skip(dot + 2)
    } else {
        m
    };
    replace_all(replace_all(next, "[x] "@, "[ ] "@), "[X] "@, "[ ] "@)
}

fn parse_u64_exec(s: &Vec<char>) -> (r: Option<u64>)
    ensures
        match r {
            Some(v) => parsed_u64(s@) == Some(v as nat),
            None => parsed_u64(s@) is None,
        },
{
    let start: usize = if s.len() > 0 && s[0] == '+' {
        1
    } else {
        0
    };
    let ghost d = if s.len() > 0 && s[0] == '+' { s@.drop_first() } else { s@ };
    assert(d =~= s@.skip(start as int));
    if start >= s.len() {
        return None;
    }
    let mut v: u64 = 0;
    let mut i = start;
    while i < s.len()
        invariant
            d == s@.skip(start as int),
            d == (if s.len() > 0 && s@[0] == '+' { s@.drop_first() } else { s@ }),
            start <= i <= s.len(),
            all_digits(s@.subrange(start as int, i as int)),
            v as nat == digits_value(s@.subrange(start as int, i as int)),
        decreases s.len() - i,
    {
        let c = s[i];
        if !('0' <= c && c <= '9') {
            assert(d[i - start] == c);
            assert(!is_digit(d[i - start]));
            assert(!all_digits(d));
            assert(parsed_u64(s@) is None);
            return None;
        }
        let digit = (c as u32 - '0' as u32) as u64;
        assert(digit <= 9);
        assert(all_digits(s@.subrange(start as int, i + 1))) by {
            assert forall|k: int| 0 <= k < i + 1 - start implies is_digit(#[trigger] s@.subrange(start as int, i + 1)[k]) by {
                if k < i - start {
                    assert(s@.subrange(start as int, i + 1)[k] == s@.subrange(start as int, i as int)[k]);
                }
            }
        }
        assert(s@.subrange(start as int, i + 1).drop_last() =~= s@.subrange(start as int, i as int));
        if v > (u64::MAX - digit) / 10 {
            proof {
                let pre = s@.subrange(start as int, i + 1);
                assert(digits_value(pre) == v * 10 + digit);
                assert(v * 10 + digit > u64::MAX) by (nonlinear_arith)
                    requires v > (u64::MAX - digit) / 10, digit <= 9;
                if all_digits(d) {
                    lemma_digits_grow(d, i + 1 - start);
                    assert(d.take(i + 1 - start) =~= pre);
                    assert(digits_value(d) > u64::MAX);
                }
                assert(parsed_u64(s@) is None);
            }
            return None;
        }
        v = v * 10 + digit;
        i = i + 1;
    }
    assert(s@.subrange(start as int, s.len() as int) =~= d);
    Some(v)
}

/// A number only grows as digits follow.
proof fn lemma_digits_grow(s: Seq<char>, k: int)
    requires
        0 <= k <= s.len(),
        all_digits(s),
    ensures
        digits_value(s.take(k)) <= digits_value(s),
    decreases s.len() - k,
{
    if k < s.len() {
        lemma_digits_grow(s, k + 1);
        assert(s.take(k + 1).drop_last() =~= s.take(k));
        assert(is_digit(s[k]));
    } else {
        assert(s.take(k) =~= s);
    }
}

pub fn replace_all_exec(s: &Vec<char>, pat: &Vec<char>, rep: &Vec<char>) -> (r: Vec<char>)
    ensures
        r@ == replace_all(s@, pat@, rep@),
{
    let mut out: Vec<char> = Vec::new();
    let mut i: usize = 0;
    assert(s@.skip(0) =~= s@);
    while i < s.len()
        invariant
            0 <= i <= s.len(),
            replace_all(s@, pat@, rep@) == out@ + replace_all(s@.skip(i as int), pat@, rep@),
        decreases s.len() - i,
    {
        let ghost rest = s@.skip(i as int);
        if pat.len() > 0 && crate::text::has_at(s, i, pat) {
            assert(rest.subrange(0, pat.len() as int) =~= s@.subrange(i as int, i + pat.len()));
            assert(occurs_at(rest, pat@, 0));
            push_all(&mut out, rep);
            assert(rest.skip(pat.len() as int) =~= s@.skip(i + pat.len()));
            i = i + pat.len();
        } else {
            proof {
                if pat.len() > 0 && occurs_at(rest, pat@, 0) {
                    assert(rest.subrange(0, pat.len() as int) =~= s@.subrange(i as int, i + pat.len()));
                }
            }
            out.push(s[i]);
            assert(rest.drop_first() =~= s@.skip(i + 1));
            i = i + 1;
        }
    }
    assert(s@.skip(i as int) =~= Seq::<char>::empty());
    out
}

/// The marker for the item after one with `marker`: numbers count up, tasks start unticked.
pub fn next_list_marker(marker: &str) -> (r: String)
    requires
        parsed_u64(marker@.take(find_pat(marker@, ". "@, 0))) != Some(u64::MAX as nat),
    ensures
        r@ == next_marker(marker@),
{
    let m = chars_of(marker);
    proof {
        reveal_strlit(". ");
        crate::wiki::lemma_find_pat(m@, ". "@, 0);
    }
    let dot = find_pat_exec(&m, &chars_of(". "));
    let mut next = m.clone();
    if dot < m.len() {
        let head = slice(&m, 0, dot);
        assert(head@ =~= m@.take(dot as int));
        match parse_u64_exec(&head) {
            Some(n) => {
                let mut t = crate::text::decimal_of(n + 1);
                push_str(&mut t, ". ");
                let tail = slice(&m, dot + 2, m.len());
                assert(tail@ =~= m@.skip(dot + 2));
                push_all(&mut t, &tail);
                next = t;
            },
            None => {},
        }
    }
    let a = replace_all_exec(&next, &chars_of("[x] "), &chars_of("[ ] "));
    let b = replace_all_exec(&a, &chars_of("[X] "), &chars_of("[ ] "));
    string_of(&b)
}

// ----- fences -------------------------------------------------------------------------

/// A line that opens or closes a fenced code block.
pub open spec fn is_fence(line: Seq<char>) -> bool {
    starts_with(trim_start(line), "```"@) || starts_with(trim_start(line), "~~~"@)
}

/// Whether each of the first `k` lines sits inside a fence (fence lines count as inside),
/// and whether a fence is open after them.
pub open spec fn fences_upto(lines: Seq<Seq<char>>, k: int) -> (Seq<bool>, bool)
    decreases k,
{
    if k <= 0 || k > lines.len() {
        (seq![], false)
    } else {
        let (flags, inside) = fences_upto(lines, k - 1);
        if is_fence(lines[k - 1]) {
            (flags.push(true), !inside)
        } else {
            (flags.push(inside), inside)
        }
    }
}

/// Which lines sit inside ``` fences.
pub fn fenced_lines(lines: &[String]) -> (r: Vec<bool>)
    ensures
        r@ == fences_upto(strings(lines@), lines@.len() as int).0,
{
    let ghost ls = strings(lines@);
    let mut out: Vec<bool> = Vec::new();
    let mut inside = false;
    let mut k: usize = 0;
    let ticks = chars_of("```");
    let tildes = chars_of("~~~");
    while k < lines.len()
        invariant
            ls == strings(lines@),
            ticks@ == "```"@,
            tildes@ == "~~~"@,
            0 <= k <= lines.len(),
            (out@, inside) == fences_upto(ls, k as int),
        decreases lines.len() - k,
    {
        let cs = chars_of(lines[k].as_str());
        assert(cs@ == ls[k as int]);
        let i = crate::text::skip_ws(&cs, 0, cs.len());
        let t = slice(&cs, i, cs.len());
        assert(cs@.subrange(0, cs.len() as int) =~= cs@);
        let fence = has_prefix(&t, &ticks) || has_prefix(&t, &tildes);
        if fence {
            inside = !inside;
            out.push(true);
        } else {
            out.push(inside);
        }
        k = k + 1;
    }
    out
}


// ----- highlighting -------------------------------------------------------------------

/// How a character of a source line is highlighted.
#[derive(Clone, Copy, Debug, PartialEq, Eq, Structural)]
pub enum Mark {
    Plain,
    /// Inside a fenced block or an inline `code` span (magenta).
    Code,
    /// A `#` heading line (yellow, bold).
    Heading1,
    /// A `##` heading line (green, bold).
    Heading2,
    /// A deeper heading line (blue, bold).
    Heading3,
    /// A list marker (yellow).
    Marker,
    /// The `>` of a quote (green).
    Quote,
    /// A wiki link, or the text of a Markdown link (cyan).
    Link,
    /// The `(target)` of a Markdown link (dim).
    Dim,
}

pub open spec fn fill(st: Seq<Mark>, a: int, b: int, m: Mark) -> Seq<Mark> {
    Seq::new(st.len(), |i: int| if a <= i < b { m } else { st[i] })
}

/// Count of leading `#`.
pub open spec fn lead_hashes(s: Seq<char>) -> int
    decreases s.len(),
{
    if s.len() > 0 && s[0] == '#' {
        1 + lead_hashes(s.drop_first())
    } else {
        0
    }
}

/// The highlight of a whole heading line, if the line is one.
pub open spec fn heading_mark(cs: Seq<char>) -> Option<Mark> {
    let t = trim_start(cs);
    let h = lead_hashes(t);
    if 1 <= h <= 6 && starts_with(t.skip(h), " "@) {
        Some(if h == 1 {
            Mark::Heading1
        } else if h == 2 {
            Mark::Heading2
        } else {
            Mark::Heading3
        })
    } else {
        None
    }
}

/// The list marker and the `>` of a quote highlighted.
pub open spec fn base_marks(cs: Seq<char>) -> Seq<Mark> {
    let (ind, mk) = list_parts(cs);
    let s1 = fill(Seq::new(cs.len(), |i: int| Mark::Plain), ind.len() as int, (ind.len() + mk.len()) as int, Mark::Marker);
    let t = trim_start(cs);
    if t.len() > 0 && t[0] == '>' {
        s1.update(cs.len() - t.len(), Mark::Quote)
    } else {
        s1
    }
}

/// Inline spans highlighted from character `i` on: `code`, [[links]], [text](url).
pub open spec fn inline_marks(cs: Seq<char>, st: Seq<Mark>, i: int) -> Seq<Mark>
    decreases cs.len() - i,
{
    if i < 0 || i >= cs.len() {
        st
    } else {
        let tick = find_from(cs, '`', i + 1);
        let rest = cs.skip(i + 2);
        let wl = find_pat(rest, "]]"@, 0);
        let close = find_from(cs, ']', i + 1);
        let paren = find_from(cs, ')', close + 2);
        proof {
            lemma_find_from(cs, '`', i + 1);
            lemma_find_from(cs, ']', i + 1);
            reveal_strlit("]]");
            crate::wiki::lemma_find_pat(rest, "]]"@, 0);
        }
        if cs[i] == '`' && tick < cs.len() {
            inline_marks(cs, fill(st, i, tick + 1, Mark::Code), tick + 1)
        } else if cs[i] == '[' && i + 1 < cs.len() && cs[i + 1] == '[' && wl < rest.len() {
            inline_marks(cs, fill(st, i, i + wl + 4, Mark::Link), i + wl + 4)
        } else if cs[i] == '[' && close < cs.len() && close + 1 < cs.len() && cs[close + 1] == '(' && paren < cs.len() {
            proof {
                lemma_find_from(cs, ')', close + 2);
            }
            inline_marks(cs, fill(fill(st, i, close + 1, Mark::Link), close + 1, paren + 1, Mark::Dim), paren + 1)
        } else {
            inline_marks(cs, st, i + 1)
        }
    }
}

/// The highlight of each character of a source line.
pub open spec fn line_marks(cs: Seq<char>, fenced: bool) -> Seq<Mark> {
    if fenced {
        Seq::new(cs.len(), |i: int| Mark::Code)
    } else {
        match heading_mark(cs) {
            Some(m) => Seq::new(cs.len(), |i: int| m),
            None => inline_marks(cs, base_marks(cs), 0),
        }
    }
}

fn fill_exec(st: &mut Vec<Mark>, a: usize, b: usize, m: Mark)
    requires
        a <= b <= old(st).len(),
    ensures
        final(st)@ == fill(old(st)@, a as int, b as int, m),
{
    let ghost s0 = st@;
    let mut k = a;
    while k < b
        invariant
            a <= k <= b <= st.len(),
            st.len() == s0.len(),
            forall|i: int| 0 <= i < st.len() ==> st@[i] == (if a <= i < k { m } else { s0[i] }),
        decreases b - k,
    {
        st.set(k, m);
        k = k + 1;
    }
    assert(st@ =~= fill(s0, a as int, b as int, m));
}

fn same_marks(n: usize, m: Mark) -> (r: Vec<Mark>)
    ensures
        r@ == Seq::new(n as nat, |i: int| m),
{
    let mut v: Vec<Mark> = Vec::new();
    let mut k: usize = 0;
    while k < n
        invariant
            0 <= k <= n,
            v@ == Seq::new(k as nat, |i: int| m),
        decreases n - k,
    {
        v.push(m);
        k = k + 1;
        assert(v@ =~= Seq::new(k as nat, |i: int| m));
    }
    v
}

/// A highlight per character of a source line: headings, list markers, quotes, links and
/// code.
pub fn markdown_styles(chars: &[char], fenced: bool) -> (r: Vec<Mark>)
    ensures
        r@ == line_marks(chars@, fenced),
{
    let n = chars.len();
    if fenced {
        return same_marks(n, Mark::Code);
    }
    let mut cs: Vec<char> = Vec::new();
    let mut k: usize = 0;
    while k < n
        invariant
            n == chars@.len(),
            0 <= k <= n,
            cs@ == chars@.take(k as int),
        decreases n - k,
    {
        cs.push(chars[k]);
        k = k + 1;
        assert(cs@ =~= chars@.take(k as int));
    }
    assert(chars@.take(n as int) =~= chars@);
    // headings
    let i0 = crate::text::skip_ws(&cs, 0, n);
    assert(cs@.subrange(0, n as int) =~= cs@);
    let t = slice(&cs, i0, n);
    let mut h: usize = 0;
    assert(t@.skip(0) =~= t@);
    while h < t.len() && t[h] == '#'
        invariant
            0 <= h <= t.len(),
            lead_hashes(t@) == h + lead_hashes(t@.skip(h as int)),
        decreases t.len() - h,
    {
        assert(t@.skip(h as int).drop_first() =~= t@.skip(h + 1));
        h = h + 1;
    }
    proof {
        if h < t.len() {
            assert(t@.skip(h as int)[0] != '#');
        }
        assert(lead_hashes(t@) == h);
        reveal_strlit(" ");
    }
    if 1 <= h && h <= 6 && h < t.len() && t[h] == ' ' {
        assert(t@.skip(h as int).take(1) =~= " "@);
        let m = if h == 1 {
            Mark::Heading1
        } else if h == 2 {
            Mark::Heading2
        } else {
            Mark::Heading3
        };
        return same_marks(n, m);
    }
    proof {
        if 1 <= h <= 6 && starts_with(t@.skip(h as int), " "@) {
            assert(t@.skip(h as int).take(1)[0] == t@[h as int]);
        }
    }
    assert(heading_mark(chars@) is None);
    // list marker and quote
    let mut st = same_marks(n, Mark::Plain);
    let text = string_of(&cs);
    let (indent, marker) = list_prefix(text.as_str());
    let ind = chars_of(indent.as_str());
    let mk = chars_of(marker.as_str());
    proof {
        lemma_list_parts_len(cs@);
    }
    fill_exec(&mut st, ind.len(), ind.len() + mk.len(), Mark::Marker);
    if t.len() > 0 && t[0] == '>' {
        st.set(n - t.len(), Mark::Quote);
    }
    assert(st@ == base_marks(chars@));
    // inline spans
    let mut i: usize = 0;
    while i < n
        invariant
            n == cs.len(),
            cs@ == chars@,
            st.len() == n,
            0 <= i <= n,
            inline_marks(chars@, base_marks(chars@), 0) == inline_marks(chars@, st@, i as int),
        decreases n - i,
    {
        let ghost rest = cs@.skip(i + 2);
        proof {
            lemma_find_from(cs@, '`', i + 1);
            lemma_find_from(cs@, ']', i + 1);
        }
        let tick = crate::text::find_char(&cs, '`', i + 1);
        if cs[i] == '`' && tick < n {
            fill_exec(&mut st, i, tick + 1, Mark::Code);
            i = tick + 1;
            continue;
        }
        if cs[i] == '[' && i + 1 < n && cs[i + 1] == '[' {
            let r = slice(&cs, i + 2, n);
            assert(r@ =~= rest);
            proof {
                reveal_strlit("]]");
                crate::wiki::lemma_find_pat(rest, "]]"@, 0);
            }
            let wl = find_pat_exec(&r, &chars_of("]]"));
            if wl < r.len() {
                fill_exec(&mut st, i, i + wl + 4, Mark::Link);
                i = i + wl + 4;
                continue;
            }
        }
        let close = crate::text::find_char(&cs, ']', i + 1);
        if cs[i] == '[' && close < n && close + 1 < n && cs[close + 1] == '(' {
            let paren = crate::text::find_char(&cs, ')', close + 2);
            proof {
                lemma_find_from(cs@, ')', close + 2);
            }
            if paren < n {
                fill_exec(&mut st, i, close + 1, Mark::Link);
                fill_exec(&mut st, close + 1, paren + 1, Mark::Dim);
                i = paren + 1;
                continue;
            }
        }
        i = i + 1;
    }
    st
}

proof fn lemma_list_parts_len(cs: Seq<char>)
    ensures
        list_parts(cs).0.len() + list_parts(cs).1.len() <= cs.len(),
{
    lemma_lead_spaces(cs);
    let n = lead_spaces(cs);
    let rest = cs.skip(n);
    reveal_strlit("- ");
    reveal_strlit("* ");
    reveal_strlit("+ ");
    reveal_strlit(". ");
    reveal_strlit("[ ] ");
    reveal_strlit("[x] ");
    reveal_strlit("[X] ");
    crate::wiki::lemma_find_pat(rest, ". "@, 0);
    match marker_of(rest) {
        None => {},
        Some((mk, after)) => {
            assert(mk.len() + after.len() == rest.len());
            if starts_with(after, "[ ] "@) || starts_with(after, "[x] "@) || starts_with(after, "[X] "@) {
                assert(after.len() >= 4);
            }
        },
    }
}


// ----- the editor ---------------------------------------------------------------------

/// A key as the editor sees it.
#[derive(Clone, Copy, Debug, PartialEq, Eq, Structural)]
pub enum KeyCode {
    Char(char),
    Enter,
    Esc,
    Backspace,
    Delete,
    Left,
    Right,
    Up,
    Down,
    Home,
    End,
    PageUp,
    PageDown,
    Tab,
    /// Shift+Tab.
    BackTab,
    Other,
}

/// A key press with the Ctrl and Shift modifiers.
#[derive(Clone, Copy, Debug, PartialEq, Eq, Structural)]
pub struct Key {
    pub code: KeyCode,
    pub ctrl: bool,
    pub shift: bool,
}

/// What the mouse did.
#[derive(Clone, Copy, Debug, PartialEq, Eq, Structural)]
pub enum MouseKind {
    LeftDown,
    LeftDrag,
    RightDown,
    /// Another button went down.
    OtherDown,
    ScrollUp,
    ScrollDown,
    Other,
}

#[derive(Clone, Copy, Debug, PartialEq, Eq, Structural)]
pub struct Mouse {
    pub kind: MouseKind,
    pub column: u16,
    pub row: u16,
}

/// A screen area: left column, top row, width and height in cells.
#[derive(Clone, Copy, Debug, PartialEq, Eq, Structural)]
pub struct Area {
    pub x: u16,
    pub y: u16,
    pub width: u16,
    pub height: u16,
}

struct Snapshot {
    lines: Vec<Vec<char>>,
    cursor: Pos,
}

#[derive(Clone, Copy, PartialEq, Eq, Structural)]
enum LastEdit {
    Typing,
    Other,
}

/// A plain, non-modal text editor for the page source: type to insert, arrows to move,
/// Shift+arrows to select, Ctrl-C/X/V for the clipboard, Ctrl-Z/Y to undo and redo.
pub struct Editor {
    lines: Vec<Vec<char>>,
    cursor: Pos,
    /// Other end of the selection, if any.
    anchor: Option<Pos>,
    undo: Vec<Snapshot>,
    redo: Vec<Snapshot>,
    last_edit: LastEdit,
    original: Vec<char>,
    /// Column to aim for when moving up and down.
    preferred_col: Option<usize>,
    /// First visual row shown.
    scroll: usize,
    /// Text area from the last draw.
    view: Area,
    /// What was last copied or cut, for when the system clipboard is unavailable.
    clipboard: Vec<char>,
    /// Text copied or cut since the app last looked, for the system clipboard.
    pub copied: Option<String>,
    /// Esc was pressed with unsaved changes: waiting for y / n / Esc.
    pub confirm: bool,
    /// Where the cursor was drawn last (column, row), for pop-ups anchored to it.
    pub cursor_screen: (u16, u16),
    /// The find / replace bar, when open.
    pub find: Option<EditorFind>,
}

/// Undo keeps at most this many steps.
pub const UNDO_LIMIT: usize = 200;

/// The lines as text.
pub open spec fn lines_of_vecs(v: Seq<Vec<char>>) -> Seq<Seq<char>> {
    v.map_values(|l: Vec<char>| l@)
}

pub open spec fn valid_pos(ls: Seq<Seq<char>>, p: Pos) -> bool {
    p.line < ls.len() && p.col <= ls[p.line as int].len()
}

/// `a` comes before `b` in the text.
pub open spec fn pos_lt(a: Pos, b: Pos) -> bool {
    a.line < b.line || (a.line == b.line && a.col < b.col)
}

pub fn pos_before(a: Pos, b: Pos) -> (r: bool)
    ensures
        r == pos_lt(a, b),
{
    a.line < b.line || (a.line == b.line && a.col < b.col)
}

/// The text of some lines, each ended by a newline.
pub open spec fn text_of_lines(ls: Seq<Seq<char>>) -> Seq<char> {
    crate::text::join(ls, "\n"@) + "\n"@
}

/// The text between two positions, line breaks as `\n`.
pub open spec fn range_of(ls: Seq<Seq<char>>, s: Pos, e: Pos) -> Seq<char> {
    if s.line == e.line {
        ls[s.line as int].subrange(s.col as int, e.col as int)
    } else {
        crate::text::join(
            seq![ls[s.line as int].skip(s.col as int)] + ls.subrange(s.line + 1, e.line as int) + seq![
                ls[e.line as int].take(e.col as int),
            ],
            "\n"@,
        )
    }
}

/// The lines with the text between `s` and `e` removed.
pub open spec fn deleted(ls: Seq<Seq<char>>, s: Pos, e: Pos) -> Seq<Seq<char>> {
    ls.take(s.line as int) + seq![ls[s.line as int].take(s.col as int) + ls[e.line as int].skip(e.col as int)] + ls.skip(
        e.line + 1,
    )
}

/// The lines with `t` inserted at `c`: its first piece joins the text before `c`, its last
/// piece the text after it, the pieces between become lines of their own.
pub open spec fn inserted(ls: Seq<Seq<char>>, c: Pos, t: Seq<char>) -> Seq<Seq<char>> {
    let pieces = split_on(t, '\n');
    let head = ls[c.line as int].take(c.col as int);
    let tail = ls[c.line as int].skip(c.col as int);
    let k = pieces.len() - 1;
    let middle = if k == 0 {
        seq![head + pieces[0] + tail]
    } else {
        seq![head + pieces[0]] + pieces.subrange(1, k) + seq![pieces[k] + tail]
    };
    ls.take(c.line as int) + middle + ls.skip(c.line + 1)
}

/// Where the cursor lands after inserting `t` at `c`.
pub open spec fn after_insert(ls: Seq<Seq<char>>, c: Pos, t: Seq<char>) -> (int, int) {
    let pieces = split_on(t, '\n');
    let k = pieces.len() - 1;
    if k == 0 {
        (c.line as int, c.col + pieces[0].len())
    } else {
        (c.line + k, pieces[k].len() as int)
    }
}


/// What the editor holds, as text.
pub struct EditorView {
    pub lines: Seq<Seq<char>>,
    pub cursor: Pos,
    pub anchor: Option<Pos>,
    pub undo: Seq<(Seq<Seq<char>>, Pos)>,
    pub redo: Seq<(Seq<Seq<char>>, Pos)>,
    /// The last edit was typing a character, so further typing joins its undo step.
    pub typing: bool,
    pub original: Seq<char>,
    pub preferred_col: Option<usize>,
    pub scroll: usize,
    pub view: Area,
    pub clipboard: Seq<char>,
    pub copied: Option<Seq<char>>,
    pub confirm: bool,
    pub cursor_screen: (u16, u16),
    pub find: Option<(Seq<char>, Option<Seq<char>>)>,
}

spec fn snap_view(s: Snapshot) -> (Seq<Seq<char>>, Pos) {
    (lines_of_vecs(s.lines@), s.cursor)
}

pub open spec fn find_view(f: Option<EditorFind>) -> Option<(Seq<char>, Option<Seq<char>>)> {
    match f {
        Some(f) => Some((f.query@, match f.replace {
            Some(r) => Some(r@),
            None => None,
        })),
        None => None,
    }
}

impl View for Editor {
    type V = EditorView;

    closed spec fn view(&self) -> EditorView {
        EditorView {
            lines: lines_of_vecs(self.lines@),
            cursor: self.cursor,
            anchor: self.anchor,
            undo: self.undo@.map_values(|s: Snapshot| snap_view(s)),
            redo: self.redo@.map_values(|s: Snapshot| snap_view(s)),
            typing: self.last_edit == LastEdit::Typing,
            original: self.original@,
            preferred_col: self.preferred_col,
            scroll: self.scroll,
            view: self.view,
            clipboard: self.clipboard@,
            copied: match self.copied {
                Some(s) => Some(s@),
                None => None,
            },
            confirm: self.confirm,
            cursor_screen: self.cursor_screen,
            find: find_view(self.find),
        }
    }
}

/// At least one line, the cursor and the selection's other end inside the text, every undo
/// and redo step holding at least one line.
pub open spec fn view_ok(v: EditorView) -> bool {
    &&& v.lines.len() >= 1
    &&& valid_pos(v.lines, v.cursor)
    &&& (v.anchor matches Some(a) ==> valid_pos(v.lines, a))
    &&& forall|i: int| 0 <= i < v.undo.len() ==> (#[trigger] v.undo[i]).0.len() >= 1
    &&& forall|i: int| 0 <= i < v.redo.len() ==> (#[trigger] v.redo[i]).0.len() >= 1
    &&& v.undo.len() + v.redo.len() <= UNDO_LIMIT
}

/// The lines of a new editor: the text's lines, or one empty line.
pub open spec fn initial_lines(text: Seq<char>) -> Seq<Seq<char>> {
    if lines_of(text).len() == 0 {
        seq![seq![]]
    } else {
        lines_of(text)
    }
}

/// The ordered selection, when it is not empty.
pub open spec fn selection_of(v: EditorView) -> Option<(Pos, Pos)> {
    match v.anchor {
        None => None,
        Some(a) => if a == v.cursor {
            None
        } else if pos_lt(a, v.cursor) {
            Some((a, v.cursor))
        } else {
            Some((v.cursor, a))
        },
    }
}

/// Records an undo step before an edit, unless it continues a run of typing.
pub open spec fn snapshot_of(v: EditorView, typing: bool) -> EditorView {
    if !(typing && v.typing) {
        let u = v.undo.push((v.lines, v.cursor));
        EditorView {
            undo: if u.len() > UNDO_LIMIT {
                u.drop_first()
            } else {
                u
            },
            redo: seq![],
            typing,
            ..v
        }
    } else {
        EditorView { typing, ..v }
    }
}

pub open spec fn delete_of(v: EditorView, s: Pos, e: Pos) -> EditorView {
    EditorView { lines: deleted(v.lines, s, e), cursor: s, anchor: None, ..v }
}

pub open spec fn delete_selection_of(v: EditorView) -> EditorView {
    match selection_of(v) {
        Some((s, e)) => delete_of(v, s, e),
        None => EditorView { anchor: None, ..v },
    }
}

pub open spec fn insert_text_of(v: EditorView, t: Seq<char>) -> EditorView {
    let (l, c) = after_insert(v.lines, v.cursor, t);
    EditorView {
        lines: inserted(v.lines, v.cursor, t),
        cursor: Pos { line: l as usize, col: c as usize },
        anchor: None,
        preferred_col: None,
        ..v
    }
}

fn copy_lines(v: &Vec<Vec<char>>) -> (r: Vec<Vec<char>>)
    ensures
        lines_of_vecs(r@) == lines_of_vecs(v@),
{
    let mut out: Vec<Vec<char>> = Vec::new();
    let mut i: usize = 0;
    while i < v.len()
        invariant
            0 <= i <= v.len(),
            lines_of_vecs(out@) == lines_of_vecs(v@).take(i as int),
        decreases v.len() - i,
    {
        let ghost before = out@;
        let l = v[i].clone();
        out.push(l);
        assert(lines_of_vecs(out@) =~= lines_of_vecs(before).push(l@));
        assert(lines_of_vecs(v@).take(i + 1) =~= lines_of_vecs(v@).take(i as int).push(v@[i as int]@));
        i = i + 1;
    }
    assert(lines_of_vecs(v@).take(v.len() as int) =~= lines_of_vecs(v@));
    out
}

impl Editor {
    pub closed spec fn wf(&self) -> bool {
        view_ok(self@)
    }

    /// An editor for `text`, cursor at the start, nothing to undo, nothing modified.
    pub fn new(text: &str) -> (e: Editor)
        ensures
            e.wf(),
            e@.lines == initial_lines(text@),
            e@.cursor == (Pos { line: 0, col: 0 }),
            e@.anchor is None,
            e@.undo.len() == 0,
            e@.redo.len() == 0,
            !e@.typing,
            e@.original == text@,
            e@.preferred_col is None,
            e@.scroll == 0,
            e@.clipboard.len() == 0,
            e@.copied is None,
            !e@.confirm,
            e@.find is None,
    {
        let src = chars_of(text);
        let mut lines = split_lines(&src);
        if lines.len() == 0 {
            lines.push(Vec::new());
        }
        proof {
            assert(lines_of_vecs(lines@) =~= initial_lines(text@));
        }
        let e = Editor {
            lines,
            cursor: Pos { line: 0, col: 0 },
            anchor: None,
            undo: Vec::new(),
            redo: Vec::new(),
            last_edit: LastEdit::Other,
            original: src,
            preferred_col: None,
            scroll: 0,
            view: Area { x: 0, y: 0, width: 0, height: 0 },
            clipboard: Vec::new(),
            copied: None,
            confirm: false,
            cursor_screen: (0, 0),
            find: None,
        };
        assert(e@.undo =~= Seq::<(Seq<Seq<char>>, Pos)>::empty());
        assert(e@.redo =~= Seq::<(Seq<Seq<char>>, Pos)>::empty());
        e
    }
}


/// `v` with lines `a..b` replaced by `middle`.
fn splice(v: &Vec<Vec<char>>, a: usize, b: usize, middle: Vec<Vec<char>>) -> (r: Vec<Vec<char>>)
    requires
        a <= b <= v.len(),
    ensures
        lines_of_vecs(r@) == lines_of_vecs(v@).take(a as int) + lines_of_vecs(middle@) + lines_of_vecs(v@).skip(b as int),
{
    let ghost lv = lines_of_vecs(v@);
    let mut out: Vec<Vec<char>> = Vec::new();
    let mut i: usize = 0;
    while i < a
        invariant
            a <= b <= v.len(),
            lv == lines_of_vecs(v@),
            0 <= i <= a,
            lines_of_vecs(out@) == lv.take(i as int),
        decreases a - i,
    {
        let ghost before = out@;
        let l = v[i].clone();
        out.push(l);
        assert(lines_of_vecs(out@) =~= lines_of_vecs(before).push(l@));
        assert(lv.take(i + 1) =~= lv.take(i as int).push(lv[i as int]));
        i = i + 1;
    }
    let ghost base = lines_of_vecs(out@);
    let mut j: usize = 0;
    while j < middle.len()
        invariant
            base == lv.take(a as int),
            0 <= j <= middle.len(),
            lines_of_vecs(out@) == base + lines_of_vecs(middle@).take(j as int),
        decreases middle.len() - j,
    {
        let ghost before = out@;
        let l = middle[j].clone();
        out.push(l);
        assert(lines_of_vecs(out@) =~= lines_of_vecs(before).push(l@));
        assert(lines_of_vecs(middle@).take(j + 1) =~= lines_of_vecs(middle@).take(j as int).push(middle@[j as int]@));
        j = j + 1;
    }
    assert(lines_of_vecs(middle@).take(middle.len() as int) =~= lines_of_vecs(middle@));
    let ghost base2 = lines_of_vecs(out@);
    let mut k = b;
    while k < v.len()
        invariant
            a <= b <= k <= v.len(),
            lv == lines_of_vecs(v@),
            base2 == lv.take(a as int) + lines_of_vecs(middle@),
            lines_of_vecs(out@) == base2 + lv.subrange(b as int, k as int),
        decreases v.len() - k,
    {
        let ghost before = out@;
        let l = v[k].clone();
        out.push(l);
        assert(lines_of_vecs(out@) =~= lines_of_vecs(before).push(l@));
        assert(lv.subrange(b as int, k + 1) =~= lv.subrange(b as int, k as int).push(lv[k as int]));
        k = k + 1;
    }
    assert(lv.subrange(b as int, v.len() as int) =~= lv.skip(b as int));
    out
}

impl Editor {
    /// The text, always ending in a newline.
    pub fn text(&self) -> (r: String)
        ensures
            r@ == text_of_lines(self@.lines),
    {
        let nl = chars_of("\n");
        let mut t = crate::text::join_chars(&self.lines, &nl);
        proof {
            assert(views(self.lines@) == lines_of_vecs(self.lines@));
        }
        push_all(&mut t, &nl);
        string_of(&t)
    }

    /// Whether the text differs from what the editor was opened with, trailing blanks aside.
    pub fn modified(&self) -> (r: bool)
        ensures
            r == (crate::text::trim_end(text_of_lines(self@.lines)) != crate::text::trim_end(self@.original)),
    {
        let t = chars_of(self.text().as_str());
        let a = crate::text::skip_ws_back(&t, 0, t.len());
        let b = crate::text::skip_ws_back(&self.original, 0, self.original.len());
        let x = slice(&t, 0, a);
        let y = slice(&self.original, 0, b);
        assert(t@.subrange(0, t.len() as int) =~= t@);
        assert(self.original@.subrange(0, self.original.len() as int) =~= self.original@);
        !crate::text::chars_eq(&x, &y)
    }

    pub fn cursor(&self) -> (r: Pos)
        ensures
            r == self@.cursor,
    {
        self.cursor
    }

    fn line_len(&self, line: usize) -> (r: usize)
        requires
            line < self.lines.len(),
        ensures
            r as int == self@.lines[line as int].len(),
    {
        self.lines[line].len()
    }

    /// Moves the cursor to the end of the text.
    pub fn cursor_to_end(&mut self)
        requires
            old(self).wf(),
        ensures
            final(self).wf(),
            final(self)@ == (EditorView {
                cursor: Pos {
                    line: (old(self)@.lines.len() - 1) as usize,
                    col: old(self)@.lines.last().len() as usize,
                },
                ..old(self)@
            }),
    {
        let line = self.lines.len() - 1;
        let col = self.line_len(line);
        self.cursor = Pos { line, col };
    }

    fn clamp(&self, pos: Pos) -> (r: Pos)
        requires
            self.wf(),
        ensures
            r == clamped(self@.lines, pos),
            valid_pos(self@.lines, r),
    {
        clamp_in(&self.lines, pos)
    }

    /// The selection as an ordered range, if it is not empty.
    pub fn selection(&self) -> (r: Option<(Pos, Pos)>)
        ensures
            r == selection_of(self@),
    {
        match self.anchor {
            None => None,
            Some(a) => {
                if a == self.cursor {
                    None
                } else if pos_before(a, self.cursor) {
                    Some((a, self.cursor))
                } else {
                    Some((self.cursor, a))
                }
            },
        }
    }

    fn range_text(&self, start: Pos, end: Pos) -> (r: Vec<char>)
        requires
            self.wf(),
            valid_pos(self@.lines, start),
            valid_pos(self@.lines, end),
            !pos_lt(end, start),
        ensures
            r@ == range_of(self@.lines, start, end),
    {
        let ghost ls = self@.lines;
        if start.line == end.line {
            return slice(&self.lines[start.line], start.col, end.col);
        }
        let mut parts: Vec<Vec<char>> = Vec::new();
        parts.push(slice(&self.lines[start.line], start.col, self.lines[start.line].len()));
        let mut i = start.line + 1;
        while i < end.line
            invariant
                ls == self@.lines,
                start.line < i <= end.line < self.lines.len(),
                views(parts@) == seq![ls[start.line as int].skip(start.col as int)] + ls.subrange(start.line + 1, i as int),
            decreases end.line - i,
        {
            let ghost before = views(parts@);
            parts.push(self.lines[i].clone());
            assert(views(parts@) =~= before.push(ls[i as int]));
            assert(ls.subrange(start.line + 1, i + 1) =~= ls.subrange(start.line + 1, i as int).push(ls[i as int]));
            i = i + 1;
        }
        let ghost before = views(parts@);
        parts.push(slice(&self.lines[end.line], 0, end.col));
        proof {
            assert(views(parts@) =~= before.push(ls[end.line as int].take(end.col as int)));
            assert(ls[start.line as int].subrange(start.col as int, ls[start.line as int].len() as int) =~= ls[start.line as int].skip(start.col as int));
            assert(views(parts@) =~= seq![ls[start.line as int].skip(start.col as int)] + ls.subrange(start.line + 1, end.line as int) + seq![
                ls[end.line as int].take(end.col as int),
            ]);
        }
        let nl = chars_of("\n");
        crate::text::join_chars(&parts, &nl)
    }

    fn snapshot(&mut self, typing: bool)
        requires
            old(self).wf(),
        ensures
            final(self).wf(),
            final(self)@ == snapshot_of(old(self)@, typing),
    {
        let last_typing = self.last_edit == LastEdit::Typing;
        if !(typing && last_typing) {
            let ghost u0 = self@.undo;
            let snap = Snapshot { lines: copy_lines(&self.lines), cursor: self.cursor };
            self.undo.push(snap);
            if self.undo.len() > UNDO_LIMIT {
                self.undo.remove(0);
            }
            self.redo = Vec::new();
            proof {
                let u = u0.push((self@.lines, self@.cursor));
                if u.len() > UNDO_LIMIT {
                    assert(self@.undo =~= u.drop_first());
                } else {
                    assert(self@.undo =~= u);
                }
                assert(self@.redo =~= Seq::<(Seq<Seq<char>>, Pos)>::empty());
            }
        }
        self.last_edit = if typing {
            LastEdit::Typing
        } else {
            LastEdit::Other
        };
    }

    fn delete_range(&mut self, start: Pos, end: Pos)
        requires
            old(self).wf(),
            valid_pos(old(self)@.lines, start),
            valid_pos(old(self)@.lines, end),
            !pos_lt(end, start),
        ensures
            final(self).wf(),
            final(self)@ == delete_of(old(self)@, start, end),
    {
        let ghost ls = self@.lines;
        let mut merged = slice(&self.lines[start.line], 0, start.col);
        let tail = slice(&self.lines[end.line], end.col, self.lines[end.line].len());
        push_all(&mut merged, &tail);
        proof {
            assert(merged@ =~= ls[start.line as int].take(start.col as int) + ls[end.line as int].skip(end.col as int));
        }
        let mut middle: Vec<Vec<char>> = Vec::new();
        middle.push(merged);
        assert(end.line < self.lines.len());
        let lines = splice(&self.lines, start.line, end.line + 1, middle);
        self.lines = lines;
        self.cursor = start;
        self.anchor = None;
        proof {
            assert(lines_of_vecs(middle@) =~= seq![merged@]);
            assert(self@.lines =~= deleted(ls, start, end));
            assert(self@.lines[start.line as int] == merged@);
        }
    }

    /// Removes the selection, if any; returns whether something was removed.
    fn delete_selection(&mut self) -> (r: bool)
        requires
            old(self).wf(),
        ensures
            final(self).wf(),
            final(self)@ == delete_selection_of(old(self)@),
            r == (selection_of(old(self)@) is Some),
    {
        match self.selection() {
            Some((start, end)) => {
                self.delete_range(start, end);
                true
            },
            None => {
                self.anchor = None;
                false
            },
        }
    }

    fn insert_text(&mut self, text: &Vec<char>)
        requires
            old(self).wf(),
        ensures
            final(self).wf(),
            final(self)@ == insert_text_of(old(self)@, text@),
    {
        let ghost ls = self@.lines;
        let c = self.cursor;
        let pieces = split_char(text, '\n');
        proof {
            crate::text::lemma_split_nonempty(text@, '\n');
        }
        let line = &self.lines[c.line];
        let head = slice(line, 0, c.col);
        let tail = slice(line, c.col, line.len());
        let k = pieces.len() - 1;
        let mut middle: Vec<Vec<char>> = Vec::new();
        let mut first = head;
        push_all(&mut first, &pieces[0]);
        let col;
        if k == 0 {
            col = first.len();
            push_all(&mut first, &tail);
            middle.push(first);
        } else {
            middle.push(first);
            let mut j: usize = 1;
            while j < k
                invariant
                    1 <= j <= k,
                    k == pieces.len() - 1,
                    lines_of_vecs(middle@) == seq![ls[c.line as int].take(c.col as int) + views(pieces@)[0]] + views(pieces@).subrange(1, j as int),
                decreases k - j,
            {
                let ghost before = lines_of_vecs(middle@);
                middle.push(pieces[j].clone());
                assert(lines_of_vecs(middle@) =~= before.push(views(pieces@)[j as int]));
                assert(views(pieces@).subrange(1, j + 1) =~= views(pieces@).subrange(1, j as int).push(views(pieces@)[j as int]));
                j = j + 1;
            }
            let mut last = pieces[k].clone();
            col = last.len();
            push_all(&mut last, &tail);
            let ghost before = lines_of_vecs(middle@);
            middle.push(last);
            assert(lines_of_vecs(middle@) =~= before.push(last@));
        }
        let ghost mid = lines_of_vecs(middle@);
        assert(c.line < self.lines.len());
        let lines = splice(&self.lines, c.line, c.line + 1, middle);
        proof {
            assert(mid.len() == k + 1);
            assert(lines_of_vecs(lines@).len() == lines@.len());
            assert(ls.len() == self.lines@.len());
            assert(lines_of_vecs(lines@).len() == c.line + (k + 1) + (ls.len() - (c.line + 1)));
            assert(c.line + k < lines@.len());
            assert(c.line + k < lines.len());
        }
        self.lines = lines;
        self.cursor = Pos { line: c.line + k, col };
        self.anchor = None;
        self.preferred_col = None;
        proof {
            assert(head@ =~= ls[c.line as int].take(c.col as int));
            assert(tail@ =~= ls[c.line as int].skip(c.col as int));
            assert(self@.lines =~= inserted(ls, c, text@));
            assert(self@.lines.len() == ls.len() + k);
            assert(self@.lines[c.line + k] == mid[k as int]);
        }
    }
}

/// A position moved inside `lines`.
fn clamp_in(lines: &Vec<Vec<char>>, pos: Pos) -> (r: Pos)
    requires
        lines.len() >= 1,
    ensures
        r == clamped(lines_of_vecs(lines@), pos),
        valid_pos(lines_of_vecs(lines@), r),
{
    let line = if pos.line < lines.len() - 1 {
        pos.line
    } else {
        lines.len() - 1
    };
    let len = lines[line].len();
    Pos { line, col: if pos.col < len { pos.col } else { len } }
}

/// A position moved inside the text: to the last line at most, and the end of its line.
pub open spec fn clamped(ls: Seq<Seq<char>>, p: Pos) -> Pos {
    let line = if p.line < ls.len() - 1 {
        p.line as int
    } else {
        ls.len() - 1
    };
    Pos { line: line as usize, col: if p.col < ls[line].len() { p.col } else { ls[line].len() as usize } }
}


// ----- editing, as specs over the view -----------------------------------------------------

/// A single typed character: it joins the previous one in one undo step.
pub open spec fn typed_one(t: Seq<char>) -> bool {
    t.len() == 1 && t[0] != '\n'
}

pub open spec fn insert_of(v: EditorView, t: Seq<char>) -> EditorView {
    insert_text_of(delete_selection_of(snapshot_of(v, typed_one(t))), t)
}

/// Line breaks as `\n`: `\r\n` first, then a lone `\r`.
pub open spec fn unix_breaks(t: Seq<char>) -> Seq<char> {
    replace_all(replace_all(t, seq!['\r', '\n'], seq!['\n']), seq!['\r'], seq!['\n'])
}

pub open spec fn paste_of(v: EditorView, t: Seq<char>) -> EditorView {
    insert_text_of(delete_selection_of(snapshot_of(v, false)), unix_breaks(t))
}

pub open spec fn paste_internal_of(v: EditorView) -> EditorView {
    if v.clipboard.len() > 0 {
        paste_of(v, v.clipboard)
    } else {
        v
    }
}

/// A list item with nothing after its marker.
pub open spec fn empty_item(line: Seq<char>) -> bool {
    let (indent, marker) = list_parts(line);
    marker.len() > 0 && crate::text::trim_end(line).len() == indent.len() + marker.len() - 1
}

/// Enter: an empty list item ends the list (the line is cleared); otherwise the line breaks,
/// keeping the indentation, and continuing the list when the break is at the item's end.
pub open spec fn newline_of(v: EditorView) -> EditorView {
    let v1 = delete_selection_of(snapshot_of(v, false));
    let c = v1.cursor;
    let line = v1.lines[c.line as int];
    let indent = line.take(lead_spaces(line));
    let marker = list_parts(line).1;
    if empty_item(line) {
        delete_of(v1, Pos { line: c.line, col: 0 }, Pos { line: c.line, col: line.len() as usize })
    } else {
        let next = if c.col >= line.len() {
            next_marker(marker)
        } else {
            seq![]
        };
        insert_text_of(v1, seq!['\n'] + indent + next)
    }
}

/// The number of the list item that Enter would continue is below `u64::MAX`.
pub open spec fn newline_ok(v: EditorView) -> bool {
    let v1 = delete_selection_of(v);
    let c = v1.cursor;
    let line = v1.lines[c.line as int];
    let marker = list_parts(line).1;
    !empty_item(line) && c.col >= line.len() ==> parsed_u64(marker.take(find_pat(marker, ". "@, 0)))
        != Some(u64::MAX as nat)
}

pub open spec fn backspace_of(v: EditorView) -> EditorView {
    let v1 = snapshot_of(v, false);
    if selection_of(v1) is Some {
        delete_selection_of(v1)
    } else {
        let v2 = EditorView { anchor: None, ..v1 };
        let c = v2.cursor;
        let v3 = if c.col > 0 {
            delete_of(v2, Pos { line: c.line, col: (c.col - 1) as usize }, c)
        } else if c.line > 0 {
            delete_of(v2, Pos { line: (c.line - 1) as usize, col: v2.lines[c.line - 1].len() as usize }, c)
        } else {
            v2
        };
        EditorView { preferred_col: None, ..v3 }
    }
}

pub open spec fn delete_forward_of(v: EditorView) -> EditorView {
    let v1 = snapshot_of(v, false);
    if selection_of(v1) is Some {
        delete_selection_of(v1)
    } else {
        let v2 = EditorView { anchor: None, ..v1 };
        let c = v2.cursor;
        if c.col < v2.lines[c.line as int].len() {
            delete_of(v2, c, Pos { line: c.line, col: (c.col + 1) as usize })
        } else if c.line + 1 < v2.lines.len() {
            delete_of(v2, c, Pos { line: (c.line + 1) as usize, col: 0 })
        } else {
            v2
        }
    }
}

/// Back to the last undo step; the state left moves to the redo steps.
pub open spec fn undo_of(v: EditorView) -> EditorView {
    if v.undo.len() > 0 {
        let snap = v.undo.last();
        EditorView {
            lines: snap.0,
            cursor: clamped(snap.0, snap.1),
            anchor: None,
            undo: v.undo.drop_last(),
            redo: v.redo.push((v.lines, v.cursor)),
            typing: false,
            ..v
        }
    } else {
        v
    }
}

pub open spec fn redo_of(v: EditorView) -> EditorView {
    if v.redo.len() > 0 {
        let snap = v.redo.last();
        EditorView {
            lines: snap.0,
            cursor: clamped(snap.0, snap.1),
            anchor: None,
            redo: v.redo.drop_last(),
            undo: v.undo.push((v.lines, v.cursor)),
            typing: false,
            ..v
        }
    } else {
        v
    }
}

/// The selected text goes to the clipboard, and to `copied` for the system clipboard.
pub open spec fn copy_of(v: EditorView) -> EditorView {
    match selection_of(v) {
        Some((s, e)) => EditorView {
            clipboard: range_of(v.lines, s, e),
            copied: Some(range_of(v.lines, s, e)),
            ..v
        },
        None => v,
    }
}

pub open spec fn cut_of(v: EditorView) -> EditorView {
    if selection_of(v) is Some {
        delete_selection_of(snapshot_of(copy_of(v), false))
    } else {
        v
    }
}

/// The cursor moved to `p` (kept inside the text); with `select` the selection's other end
/// stays where it was, or starts at the old cursor.
pub open spec fn move_to_of(v: EditorView, p: Pos, select: bool) -> EditorView {
    EditorView {
        anchor: if select {
            if v.anchor is None {
                Some(v.cursor)
            } else {
                v.anchor
            }
        } else {
            None
        },
        cursor: clamped(v.lines, p),
        typing: false,
        ..v
    }
}

pub open spec fn left_target(v: EditorView) -> Pos {
    let c = v.cursor;
    if c.col > 0 {
        Pos { line: c.line, col: (c.col - 1) as usize }
    } else if c.line > 0 {
        Pos { line: (c.line - 1) as usize, col: v.lines[c.line - 1].len() as usize }
    } else {
        c
    }
}

pub open spec fn right_target(v: EditorView) -> Pos {
    let c = v.cursor;
    if c.col < v.lines[c.line as int].len() {
        Pos { line: c.line, col: (c.col + 1) as usize }
    } else if c.line + 1 < v.lines.len() {
        Pos { line: (c.line + 1) as usize, col: 0 }
    } else {
        c
    }
}

pub open spec fn left_of(v: EditorView, select: bool) -> EditorView {
    EditorView { preferred_col: None, ..move_to_of(v, left_target(v), select) }
}

pub open spec fn right_of(v: EditorView, select: bool) -> EditorView {
    EditorView { preferred_col: None, ..move_to_of(v, right_target(v), select) }
}

/// Letters, digits and `_` make words.
pub open spec fn is_word(c: char) -> bool {
    crate::text::alphanumeric(c) || c == '_'
}

/// From `col`, back over the characters that are (or are not) word characters.
pub open spec fn back_over(cs: Seq<char>, col: int, word: bool) -> int
    decreases col,
{
    if 0 < col <= cs.len() && is_word(cs[col - 1]) == word {
        back_over(cs, col - 1, word)
    } else {
        col
    }
}

/// From `col`, forward over the characters that are (or are not) word characters.
pub open spec fn fwd_over(cs: Seq<char>, col: int, word: bool) -> int
    decreases cs.len() - col,
{
    if 0 <= col < cs.len() && is_word(cs[col]) == word {
        fwd_over(cs, col + 1, word)
    } else {
        col
    }
}

/// Ctrl-Left: to the start of this or the previous word; at a line's start, to the end of
/// the line before.
pub open spec fn word_left_of(v: EditorView, select: bool) -> EditorView {
    let c = v.cursor;
    if c.col == 0 {
        left_of(v, select)
    } else {
        let cs = v.lines[c.line as int];
        let col = back_over(cs, back_over(cs, c.col as int, false), true);
        EditorView { preferred_col: None, ..move_to_of(v, Pos { line: c.line, col: col as usize }, select) }
    }
}

/// Ctrl-Right: past this word and the gap after it; at a line's end, to the next line.
pub open spec fn word_right_of(v: EditorView, select: bool) -> EditorView {
    let c = v.cursor;
    let cs = v.lines[c.line as int];
    if c.col >= cs.len() {
        right_of(v, select)
    } else {
        let col = fwd_over(cs, fwd_over(cs, c.col as int, true), false);
        EditorView { preferred_col: None, ..move_to_of(v, Pos { line: c.line, col: col as usize }, select) }
    }
}

pub open spec fn line_start_of(v: EditorView, select: bool) -> EditorView {
    EditorView { preferred_col: None, ..move_to_of(v, Pos { line: v.cursor.line, col: 0 }, select) }
}

pub open spec fn line_end_of(v: EditorView, select: bool) -> EditorView {
    EditorView {
        preferred_col: None,
        ..move_to_of(v, Pos { line: v.cursor.line, col: v.lines[v.cursor.line as int].len() as usize }, select)
    }
}

/// The end of the text.
pub open spec fn text_end(v: EditorView) -> Pos {
    Pos { line: (v.lines.len() - 1) as usize, col: v.lines.last().len() as usize }
}

pub open spec fn select_all_of(v: EditorView) -> EditorView {
    EditorView { anchor: Some(Pos { line: 0, col: 0 }), cursor: text_end(v), ..v }
}

/// Position right after the last `[[` within the first `k` characters, or -1.
pub open spec fn last_open(cs: Seq<char>, k: int) -> int
    decreases k,
{
    if k < 2 || k > cs.len() {
        -1
    } else if cs[k - 2] == '[' && cs[k - 1] == '[' {
        k
    } else {
        last_open(cs, k - 1)
    }
}

/// Inside an unfinished `[[link` before the cursor: the position after `[[` and what was typed.
pub open spec fn link_context_of(v: EditorView) -> Option<(Pos, Seq<char>)> {
    let c = v.cursor;
    let before = v.lines[c.line as int].take(c.col as int);
    let open = last_open(before, before.len() as int);
    let typed = before.skip(open);
    if open < 0 || crate::text::occurs(typed, "]]"@) || typed.contains('|') || typed.contains('[') {
        None
    } else {
        Some((Pos { line: c.line, col: open as usize }, typed))
    }
}

/// What was typed from `start` replaced by `id`, and the link closed with `]]` (stepping over
/// a `]]` already there).
pub open spec fn complete_link_of(v: EditorView, start: Pos, id: Seq<char>) -> EditorView {
    let v1 = EditorView { anchor: None, ..snapshot_of(v, false) };
    let v2 = delete_of(v1, start, v1.cursor);
    let rest = v2.lines[v2.cursor.line as int].skip(v2.cursor.col as int);
    let v3 = insert_text_of(v2, id);
    if starts_with(rest, "]]"@) {
        EditorView { cursor: Pos { line: v3.cursor.line, col: (v3.cursor.col + 2) as usize }, ..v3 }
    } else {
        insert_text_of(v3, "]]"@)
    }
}


impl Editor {
    /// Types or inserts `text` at the cursor, replacing the selection.
    pub fn insert(&mut self, text: &str)
        requires
            old(self).wf(),
        ensures
            final(self).wf(),
            final(self)@ == insert_of(old(self)@, text@),
    {
        let t = chars_of(text);
        let typing = t.len() == 1 && t[0] != '\n';
        self.snapshot(typing);
        self.delete_selection();
        self.insert_text(&t);
    }

    /// Inserts text that arrived from outside (the clipboard or a terminal paste).
    pub fn paste(&mut self, text: &str)
        requires
            old(self).wf(),
        ensures
            final(self).wf(),
            final(self)@ == paste_of(old(self)@, text@),
    {
        let t = chars_of(text);
        let crlf: Vec<char> = vec!['\r', '\n'];
        let cr: Vec<char> = vec!['\r'];
        let lf: Vec<char> = vec!['\n'];
        let a = replace_all_exec(&t, &crlf, &lf);
        let b = replace_all_exec(&a, &cr, &lf);
        proof {
            assert(crlf@ =~= seq!['\r', '\n']);
            assert(cr@ =~= seq!['\r']);
            assert(lf@ =~= seq!['\n']);
        }
        self.snapshot(false);
        self.delete_selection();
        self.insert_text(&b);
    }

    /// Inserts what was last copied or cut here, when the system clipboard has nothing.
    pub fn paste_internal(&mut self)
        requires
            old(self).wf(),
        ensures
            final(self).wf(),
            final(self)@ == paste_internal_of(old(self)@),
    {
        if self.clipboard.len() > 0 {
            let text = string_of(&self.clipboard);
            self.paste(text.as_str());
        }
    }

    fn newline(&mut self)
        requires
            old(self).wf(),
            newline_ok(old(self)@),
        ensures
            final(self).wf(),
            final(self)@ == newline_of(old(self)@),
    {
        self.snapshot(false);
        self.delete_selection();
        let c = self.cursor;
        let ghost line = self@.lines[c.line as int];
        let text = string_of(&self.lines[c.line]);
        let (indent, marker) = list_prefix(text.as_str());
        let ind = chars_of(indent.as_str());
        let mk = chars_of(marker.as_str());
        let len = self.lines[c.line].len();
        let kept = crate::text::skip_ws_back(&self.lines[c.line], 0, len);
        proof {
            lemma_list_parts_len(line);
            assert(self.lines[c.line as int]@.subrange(0, len as int) =~= line);
        }
        if mk.len() > 0 && kept == ind.len() + mk.len() - 1 {
            self.delete_range(Pos { line: c.line, col: 0 }, Pos { line: c.line, col: len });
            return;
        }
        let lead = leading_spaces(&self.lines[c.line]);
        let mut t: Vec<char> = vec!['\n'];
        push_all(&mut t, &lead);
        if c.col >= len {
            let next = next_list_marker(marker.as_str());
            push_all(&mut t, &chars_of(next.as_str()));
        }
        proof {
            assert(t@ =~= seq!['\n'] + line.take(lead_spaces(line)) + (if c.col >= line.len() {
                next_marker(list_parts(line).1)
            } else {
                seq![]
            }));
        }
        self.insert_text(&t);
    }

    fn backspace(&mut self)
        requires
            old(self).wf(),
        ensures
            final(self).wf(),
            final(self)@ == backspace_of(old(self)@),
    {
        self.snapshot(false);
        if self.delete_selection() {
            return;
        }
        let c = self.cursor;
        if c.col > 0 {
            self.delete_range(Pos { line: c.line, col: c.col - 1 }, c);
        } else if c.line > 0 {
            let len = self.line_len(c.line - 1);
            self.delete_range(Pos { line: c.line - 1, col: len }, c);
        }
        self.preferred_col = None;
    }

    fn delete_forward(&mut self)
        requires
            old(self).wf(),
        ensures
            final(self).wf(),
            final(self)@ == delete_forward_of(old(self)@),
    {
        self.snapshot(false);
        if self.delete_selection() {
            return;
        }
        let c = self.cursor;
        if c.col < self.line_len(c.line) {
            self.delete_range(c, Pos { line: c.line, col: c.col + 1 });
        } else if c.line < self.lines.len() - 1 {
            self.delete_range(c, Pos { line: c.line + 1, col: 0 });
        }
    }

    fn undo(&mut self)
        requires
            old(self).wf(),
        ensures
            final(self).wf(),
            final(self)@ == undo_of(old(self)@),
    {
        if self.undo.len() > 0 {
            let ghost v = self@;
            let snap = self.undo.pop().unwrap();
            proof {
                assert(snap_view(snap) == v.undo.last());
            }
            let mut lines = snap.lines;
            std::mem::swap(&mut lines, &mut self.lines);
            self.redo.push(Snapshot { lines, cursor: self.cursor });
            self.cursor = clamp_in(&self.lines, snap.cursor);
            self.anchor = None;
            self.last_edit = LastEdit::Other;
            proof {
                assert(self@.undo =~= v.undo.drop_last());
                assert(self@.redo =~= v.redo.push((v.lines, v.cursor)));
            }
        }
    }

    fn redo(&mut self)
        requires
            old(self).wf(),
        ensures
            final(self).wf(),
            final(self)@ == redo_of(old(self)@),
    {
        if self.redo.len() > 0 {
            let ghost v = self@;
            let snap = self.redo.pop().unwrap();
            proof {
                assert(snap_view(snap) == v.redo.last());
            }
            let mut lines = snap.lines;
            std::mem::swap(&mut lines, &mut self.lines);
            self.undo.push(Snapshot { lines, cursor: self.cursor });
            self.cursor = clamp_in(&self.lines, snap.cursor);
            self.anchor = None;
            self.last_edit = LastEdit::Other;
            proof {
                assert(self@.redo =~= v.redo.drop_last());
                assert(self@.undo =~= v.undo.push((v.lines, v.cursor)));
            }
        }
    }

    fn copy(&mut self)
        requires
            old(self).wf(),
        ensures
            final(self).wf(),
            final(self)@ == copy_of(old(self)@),
    {
        match self.selection() {
            Some((start, end)) => {
                let text = self.range_text(start, end);
                self.copied = Some(string_of(&text));
                self.clipboard = text;
            },
            None => {},
        }
    }

    fn cut(&mut self)
        requires
            old(self).wf(),
        ensures
            final(self).wf(),
            final(self)@ == cut_of(old(self)@),
    {
        if self.selection().is_none() {
            return;
        }
        self.copy();
        self.snapshot(false);
        self.delete_selection();
    }
}


fn is_word_char(c: char) -> (r: bool)
    ensures
        r == is_word(c),
{
    crate::text::is_alphanumeric(c) || c == '_'
}

impl Editor {
    fn move_to(&mut self, pos: Pos, select: bool)
        requires
            old(self).wf(),
        ensures
            final(self).wf(),
            final(self)@ == move_to_of(old(self)@, pos, select),
    {
        if select {
            if self.anchor.is_none() {
                self.anchor = Some(self.cursor);
            }
        } else {
            self.anchor = None;
        }
        self.cursor = self.clamp(pos);
        self.last_edit = LastEdit::Other;
    }

    fn left(&mut self, select: bool)
        requires
            old(self).wf(),
        ensures
            final(self).wf(),
            final(self)@ == left_of(old(self)@, select),
    {
        let c = self.cursor;
        let target = if c.col > 0 {
            Pos { line: c.line, col: c.col - 1 }
        } else if c.line > 0 {
            Pos { line: c.line - 1, col: self.line_len(c.line - 1) }
        } else {
            c
        };
        self.move_to(target, select);
        self.preferred_col = None;
    }

    fn right(&mut self, select: bool)
        requires
            old(self).wf(),
        ensures
            final(self).wf(),
            final(self)@ == right_of(old(self)@, select),
    {
        let c = self.cursor;
        let target = if c.col < self.line_len(c.line) {
            Pos { line: c.line, col: c.col + 1 }
        } else if c.line < self.lines.len() - 1 {
            Pos { line: c.line + 1, col: 0 }
        } else {
            c
        };
        self.move_to(target, select);
        self.preferred_col = None;
    }

    fn word_left(&mut self, select: bool)
        requires
            old(self).wf(),
        ensures
            final(self).wf(),
            final(self)@ == word_left_of(old(self)@, select),
    {
        let c = self.cursor;
        if c.col == 0 {
            self.left(select);
            return;
        }
        let ghost cs = self@.lines[c.line as int];
        let mut col = c.col;
        while col > 0 && !is_word_char(self.lines[c.line][col - 1])
            invariant
                cs == self@.lines[c.line as int],
                c.line < self.lines.len(),
                col <= cs.len(),
                back_over(cs, c.col as int, false) == back_over(cs, col as int, false),
            decreases col,
        {
            col = col - 1;
        }
        let ghost mid = col;
        while col > 0 && is_word_char(self.lines[c.line][col - 1])
            invariant
                cs == self@.lines[c.line as int],
                c.line < self.lines.len(),
                col <= cs.len(),
                back_over(cs, mid as int, true) == back_over(cs, col as int, true),
            decreases col,
        {
            col = col - 1;
        }
        self.move_to(Pos { line: c.line, col }, select);
        self.preferred_col = None;
    }

    fn word_right(&mut self, select: bool)
        requires
            old(self).wf(),
        ensures
            final(self).wf(),
            final(self)@ == word_right_of(old(self)@, select),
    {
        let c = self.cursor;
        let len = self.line_len(c.line);
        if c.col >= len {
            self.right(select);
            return;
        }
        let ghost cs = self@.lines[c.line as int];
        let mut col = c.col;
        while col < len && is_word_char(self.lines[c.line][col])
            invariant
                cs == self@.lines[c.line as int],
                c.line < self.lines.len(),
                len == cs.len(),
                col <= len,
                fwd_over(cs, c.col as int, true) == fwd_over(cs, col as int, true),
            decreases len - col,
        {
            col = col + 1;
        }
        let ghost mid = col;
        while col < len && !is_word_char(self.lines[c.line][col])
            invariant
                cs == self@.lines[c.line as int],
                c.line < self.lines.len(),
                len == cs.len(),
                col <= len,
                fwd_over(cs, mid as int, false) == fwd_over(cs, col as int, false),
            decreases len - col,
        {
            col = col + 1;
        }
        self.move_to(Pos { line: c.line, col }, select);
        self.preferred_col = None;
    }

    fn line_start(&mut self, select: bool)
        requires
            old(self).wf(),
        ensures
            final(self).wf(),
            final(self)@ == line_start_of(old(self)@, select),
    {
        let line = self.cursor.line;
        self.move_to(Pos { line, col: 0 }, select);
        self.preferred_col = None;
    }

    fn line_end(&mut self, select: bool)
        requires
            old(self).wf(),
        ensures
            final(self).wf(),
            final(self)@ == line_end_of(old(self)@, select),
    {
        let line = self.cursor.line;
        let col = self.line_len(line);
        self.move_to(Pos { line, col }, select);
        self.preferred_col = None;
    }

    /// If the cursor is inside an unfinished `[[link`, the position right after `[[` and the
    /// text typed so far.
    pub fn link_context(&self) -> (r: Option<(Pos, String)>)
        requires
            self.wf(),
        ensures
            match r {
                Some((p, t)) => link_context_of(self@) == Some((p, t@)),
                None => link_context_of(self@) is None,
            },
    {
        let c = self.cursor;
        let before = slice(&self.lines[c.line], 0, c.col);
        let mut k = before.len();
        while k >= 2 && !(before[k - 2] == '[' && before[k - 1] == '[')
            invariant
                k <= before.len(),
                last_open(before@, before.len() as int) == last_open(before@, k as int),
            decreases k,
        {
            k = k - 1;
        }
        if k < 2 {
            return None;
        }
        let typed = slice(&before, k, before.len());
        assert(typed@ =~= before@.skip(k as int));
        let closers: Vec<char> = vec![']', ']'];
        proof {
            reveal_strlit("]]");
            assert(closers@ =~= "]]"@);
        }
        if crate::text::contains_seq(&typed, &closers) || crate::text::find_char(&typed, '|', 0) < typed.len()
            || crate::text::find_char(&typed, '[', 0) < typed.len() {
            proof {
                crate::text::lemma_find_from(typed@, '|', 0);
                crate::text::lemma_find_from(typed@, '[', 0);
            }
            return None;
        }
        proof {
            crate::text::lemma_find_from(typed@, '|', 0);
            crate::text::lemma_find_from(typed@, '[', 0);
            assert(!typed@.contains('|'));
            assert(!typed@.contains('['));
        }
        Some((Pos { line: c.line, col: k }, string_of(&typed)))
    }

    /// Replaces the text typed after `[[` with `id` and closes the link with `]]`.
    pub fn complete_link(&mut self, start: Pos, id: &str)
        requires
            old(self).wf(),
            valid_pos(old(self)@.lines, start),
            !pos_lt(old(self)@.cursor, start),
        ensures
            final(self).wf(),
            final(self)@ == complete_link_of(old(self)@, start, id@),
    {
        self.snapshot(false);
        self.anchor = None;
        let c = self.cursor;
        self.delete_range(start, c);
        let ghost v2 = self@;
        let cl = self.cursor.line;
        let cc = self.cursor.col;
        let rest = slice(&self.lines[cl], cc, self.lines[cl].len());
        proof {
            assert(rest@ =~= v2.lines[cl as int].skip(cc as int));
            reveal_strlit("]]");
        }
        let t = chars_of(id);
        self.insert_text(&t);
        let closers: Vec<char> = vec![']', ']'];
        assert(closers@ =~= "]]"@);
        if has_prefix(&rest, &closers) {
            proof {
                lemma_insert_keeps_tail(v2.lines, v2.cursor, id@);
                let (l, col) = after_insert(v2.lines, v2.cursor, id@);
                assert(self@.lines == inserted(v2.lines, v2.cursor, id@));
                assert(self@.lines.len() == self.lines@.len());
                assert(self.lines.len() == self.lines@.len());
                assert(self@.lines[l] == self.lines@[l]@);
                assert(self.lines@[l].len() == self.lines@[l]@.len());
                assert(self@.cursor.line as int == l);
                assert(self@.cursor.col as int == col);
                let n = self@.lines[self@.cursor.line as int];
                assert(n.skip(self@.cursor.col as int) == rest@);
                assert(n.skip(self@.cursor.col as int).len() >= 2);
                assert(self.cursor.col + 2 <= n.len());
            }
            self.cursor.col = self.cursor.col + 2;
        } else {
            self.insert_text(&closers);
        }
    }
}


/// After an insertion the cursor sits right before what followed the insertion point.
proof fn lemma_insert_keeps_tail(ls: Seq<Seq<char>>, c: Pos, t: Seq<char>)
    requires
        valid_pos(ls, c),
    ensures
        ({
            let (l, col) = after_insert(ls, c, t);
            let n = inserted(ls, c, t);
            &&& 0 <= l < n.len()
            &&& 0 <= col <= n[l].len()
            &&& n[l].skip(col) == ls[c.line as int].skip(c.col as int)
        }),
{
    crate::text::lemma_split_nonempty(t, '\n');
    let pieces = split_on(t, '\n');
    let head = ls[c.line as int].take(c.col as int);
    let tail = ls[c.line as int].skip(c.col as int);
    let k = pieces.len() - 1;
    let n = inserted(ls, c, t);
    if k == 0 {
        assert(n[c.line as int] == head + pieces[0] + tail);
        assert((head + pieces[0] + tail).skip(c.col + pieces[0].len()) =~= tail);
    } else {
        let middle = seq![head + pieces[0]] + pieces.subrange(1, k) + seq![pieces[k] + tail];
        assert(middle[k] == pieces[k] + tail);
        assert(n[c.line + k] == middle[k]);
        assert((pieces[k] + tail).skip(pieces[k].len() as int) =~= tail);
    }
}


// ----- find and replace ------------------------------------------------------------------

/// The non-overlapping matches of `q` in line `k`, whose lowered characters are `cs`,
/// scanning from `at`.
pub open spec fn line_matches(cs: Seq<char>, q: Seq<char>, k: int, at: int) -> Seq<(Pos, Pos)>
    decreases cs.len() - at,
{
    if at < 0 || q.len() == 0 || at + q.len() > cs.len() {
        seq![]
    } else if occurs_at(cs, q, at) {
        seq![(Pos { line: k as usize, col: at as usize }, Pos { line: k as usize, col: (at + q.len()) as usize })]
            + line_matches(cs, q, k, at + q.len())
    } else {
        line_matches(cs, q, k, at + 1)
    }
}

/// The matches in the first `n` lines, in text order.
pub open spec fn matches_upto(ls: Seq<Seq<char>>, q: Seq<char>, n: int) -> Seq<(Pos, Pos)>
    decreases n,
{
    if n <= 0 || n > ls.len() {
        seq![]
    } else {
        matches_upto(ls, q, n - 1) + line_matches(crate::wiki::lowered(ls[n - 1]), q, n - 1, 0)
    }
}

/// Index of the first match at or after `from`, or -1.
pub open spec fn first_from(ms: Seq<(Pos, Pos)>, from: Pos, i: int) -> int
    decreases ms.len() - i,
{
    if i < 0 || i >= ms.len() {
        -1
    } else if !pos_lt(ms[i].0, from) {
        i
    } else {
        first_from(ms, from, i + 1)
    }
}

/// Index of the last match among the first `k` that starts before `from`, or -1.
pub open spec fn last_before(ms: Seq<(Pos, Pos)>, from: Pos, k: int) -> int
    decreases k,
{
    if k <= 0 || k > ms.len() {
        -1
    } else if pos_lt(ms[k - 1].0, from) {
        k - 1
    } else {
        last_before(ms, from, k - 1)
    }
}

/// The match of the find bar's query (ignoring case) at or after `from`, or before it going
/// backwards, wrapping around the text.
pub open spec fn find_match_of(v: EditorView, from: Pos, backwards: bool) -> Option<(Pos, Pos)> {
    match v.find {
        None => None,
        Some((query, _)) => {
            let q = crate::wiki::lowered(query);
            let ms = matches_upto(v.lines, q, v.lines.len() as int);
            if q.len() == 0 || ms.len() == 0 {
                None
            } else if backwards {
                let j = last_before(ms, from, ms.len() as int);
                if j >= 0 {
                    Some(ms[j])
                } else {
                    Some(ms.last())
                }
            } else {
                let i = first_from(ms, from, 0);
                if i >= 0 {
                    Some(ms[i])
                } else {
                    Some(ms[0])
                }
            }
        },
    }
}

/// A match of `len` characters inside one line of `ls`.
pub open spec fn match_ok(ls: Seq<Seq<char>>, m: (Pos, Pos), len: int) -> bool {
    &&& m.0.line == m.1.line
    &&& m.0.line < ls.len()
    &&& m.1.col == m.0.col + len
    &&& m.1.col <= ls[m.0.line as int].len()
}

proof fn lemma_line_matches(cs: Seq<char>, q: Seq<char>, k: int, at: int)
    requires
        0 <= k <= usize::MAX,
        cs.len() <= usize::MAX,
    ensures
        forall|i: int|
            0 <= i < line_matches(cs, q, k, at).len() ==> {
                let m = #[trigger] line_matches(cs, q, k, at)[i];
                &&& m.0.line as int == k
                &&& m.1.line as int == k
                &&& m.1.col == m.0.col + q.len()
                &&& m.1.col <= cs.len()
                &&& at <= m.0.col
            },
    decreases cs.len() - at,
{
    if at < 0 || q.len() == 0 || at + q.len() > cs.len() {
    } else if occurs_at(cs, q, at) {
        lemma_line_matches(cs, q, k, at + q.len());
        let first = (Pos { line: k as usize, col: at as usize }, Pos { line: k as usize, col: (at + q.len()) as usize });
        let rest = line_matches(cs, q, k, at + q.len());
        assert(line_matches(cs, q, k, at) == seq![first] + rest);
        assert forall|i: int| 0 <= i < line_matches(cs, q, k, at).len() implies {
            let m = #[trigger] line_matches(cs, q, k, at)[i];
            &&& m.0.line as int == k
            &&& m.1.line as int == k
            &&& m.1.col == m.0.col + q.len()
            &&& m.1.col <= cs.len()
            &&& at <= m.0.col
        } by {
            if i > 0 {
                assert(line_matches(cs, q, k, at)[i] == rest[i - 1]);
            }
        }
    } else {
        lemma_line_matches(cs, q, k, at + 1);
        assert(line_matches(cs, q, k, at) == line_matches(cs, q, k, at + 1));
    }
}

proof fn lemma_matches_upto(ls: Seq<Seq<char>>, q: Seq<char>, n: int)
    requires
        ls.len() <= usize::MAX,
        forall|i: int| 0 <= i < ls.len() ==> (#[trigger] ls[i]).len() <= usize::MAX,
    ensures
        forall|i: int|
            0 <= i < matches_upto(ls, q, n).len() ==> match_ok(ls, #[trigger] matches_upto(ls, q, n)[i], q.len() as int),
    decreases n,
{
    if n <= 0 || n > ls.len() {
    } else {
        lemma_matches_upto(ls, q, n - 1);
        let cs = crate::wiki::lowered(ls[n - 1]);
        lemma_line_matches(cs, q, n - 1, 0);
        let a = matches_upto(ls, q, n - 1);
        let b = line_matches(cs, q, n - 1, 0);
        assert forall|i: int| 0 <= i < matches_upto(ls, q, n).len() implies match_ok(
            ls,
            #[trigger] matches_upto(ls, q, n)[i],
            q.len() as int,
        ) by {
            if i < a.len() {
                assert(matches_upto(ls, q, n)[i] == a[i]);
            } else {
                assert(matches_upto(ls, q, n)[i] == b[i - a.len()]);
            }
        }
    }
}

proof fn lemma_find_match_ok(v: EditorView, from: Pos, back: bool)
    requires
        v.lines.len() <= usize::MAX,
        forall|i: int| 0 <= i < v.lines.len() ==> (#[trigger] v.lines[i]).len() <= usize::MAX,
    ensures
        match find_match_of(v, from, back) {
            Some(m) => match_ok(v.lines, m, m.1.col - m.0.col) && m.0.col < m.1.col,
            None => true,
        },
{
    match v.find {
        None => {},
        Some((query, _)) => {
            let q = crate::wiki::lowered(query);
            lemma_matches_upto(v.lines, q, v.lines.len() as int);
            let ms = matches_upto(v.lines, q, v.lines.len() as int);
            if q.len() > 0 && ms.len() > 0 {
                if back {
                    let j = last_before(ms, from, ms.len() as int);
                    lemma_last_before(ms, from, ms.len() as int);
                    if j >= 0 {
                        assert(match_ok(v.lines, ms[j], q.len() as int));
                    } else {
                        assert(match_ok(v.lines, ms[ms.len() - 1], q.len() as int));
                    }
                } else {
                    let i = first_from(ms, from, 0);
                    lemma_first_from(ms, from, 0);
                    if i >= 0 {
                        assert(match_ok(v.lines, ms[i], q.len() as int));
                    } else {
                        assert(match_ok(v.lines, ms[0], q.len() as int));
                    }
                }
            }
        },
    }
}

proof fn lemma_first_from(ms: Seq<(Pos, Pos)>, from: Pos, i: int)
    requires
        0 <= i,
    ensures
        first_from(ms, from, i) == -1 || i <= first_from(ms, from, i) < ms.len(),
    decreases ms.len() - i,
{
    if i < ms.len() && pos_lt(ms[i].0, from) {
        lemma_first_from(ms, from, i + 1);
    }
}

proof fn lemma_last_before(ms: Seq<(Pos, Pos)>, from: Pos, k: int)
    requires
        0 <= k <= ms.len(),
    ensures
        -1 <= last_before(ms, from, k) < k,
    decreases k,
{
    if k > 0 && !pos_lt(ms[k - 1].0, from) {
        lemma_last_before(ms, from, k - 1);
    }
}

/// The lines of an editor fit the machine: no more than `usize::MAX` of anything.
proof fn lemma_lines_fit(v: &Vec<Vec<char>>)
    ensures
        lines_of_vecs(v@).len() <= usize::MAX,
        forall|i: int| 0 <= i < lines_of_vecs(v@).len() ==> (#[trigger] lines_of_vecs(v@)[i]).len() <= usize::MAX,
{
    assert(v.len() == v@.len());
    assert forall|i: int| 0 <= i < lines_of_vecs(v@).len() implies (#[trigger] lines_of_vecs(v@)[i]).len() <= usize::MAX by {
        assert(v@[i].len() == v@[i]@.len());
    }
}

impl Editor {
    fn find_match_from(&self, from: Pos, backwards: bool) -> (r: Option<(Pos, Pos)>)
        requires
            self.wf(),
        ensures
            r == find_match_of(self@, from, backwards),
    {
        let ghost ls = self@.lines;
        let query = match &self.find {
            None => {
                return None;
            },
            Some(f) => lower_chars_of(&chars_of(f.query.as_str())),
        };
        if query.len() == 0 {
            return None;
        }
        let mut ms: Vec<(Pos, Pos)> = Vec::new();
        let mut n: usize = 0;
        while n < self.lines.len()
            invariant
                ls == self@.lines,
                0 <= n <= self.lines.len(),
                query.len() > 0,
                ms@ == matches_upto(ls, query@, n as int),
            decreases self.lines.len() - n,
        {
            let lower = lower_chars_of(&self.lines[n]);
            let ghost all = line_matches(lower@, query@, n as int, 0);
            let mut at: usize = 0;
            let ghost base = ms@;
            while query.len() <= lower.len() && at <= lower.len() - query.len()
                invariant
                    query.len() > 0,
                    at <= lower.len(),
                    base + all == ms@ + line_matches(lower@, query@, n as int, at as int),
                decreases lower.len() - at,
            {
                if crate::text::has_at(&lower, at, &query) {
                    let ghost before = ms@;
                    ms.push((Pos { line: n, col: at }, Pos { line: n, col: at + query.len() }));
                    assert(before + line_matches(lower@, query@, n as int, at as int) =~= ms@
                        + line_matches(lower@, query@, n as int, at + query.len()));
                    at = at + query.len();
                } else {
                    at = at + 1;
                }
            }
            assert(line_matches(lower@, query@, n as int, at as int) =~= Seq::<(Pos, Pos)>::empty());
            assert(ls[n as int] == self.lines@[n as int]@);
            assert(ms@ =~= matches_upto(ls, query@, n + 1));
            n = n + 1;
        }
        if ms.len() == 0 {
            return None;
        }
        if backwards {
            let mut k = ms.len();
            while k > 0 && !pos_before(ms[k - 1].0, from)
                invariant
                    k <= ms.len(),
                    last_before(ms@, from, ms.len() as int) == last_before(ms@, from, k as int),
                decreases k,
            {
                k = k - 1;
            }
            if k > 0 {
                Some(ms[k - 1])
            } else {
                Some(ms[ms.len() - 1])
            }
        } else {
            let mut i: usize = 0;
            while i < ms.len() && pos_before(ms[i].0, from)
                invariant
                    i <= ms.len(),
                    first_from(ms@, from, 0) == first_from(ms@, from, i as int),
                decreases ms.len() - i,
            {
                i = i + 1;
            }
            if i < ms.len() {
                Some(ms[i])
            } else {
                Some(ms[0])
            }
        }
    }
}


/// As the query grows: the match at or after the selection's start (or the cursor) gets
/// selected.
pub open spec fn find_next_from_here_of(v: EditorView) -> EditorView {
    let from = match selection_of(v) {
        Some((s, _)) => s,
        None => v.cursor,
    };
    match find_match_of(v, from, false) {
        Some((s, e)) => EditorView { anchor: Some(s), cursor: e, ..v },
        None => v,
    }
}

/// The next (or previous) match gets selected, wrapping around.
pub open spec fn find_next_of(v: EditorView, backwards: bool) -> EditorView {
    let from = match selection_of(v) {
        Some((s, e)) => if backwards {
            s
        } else {
            e
        },
        None => v.cursor,
    };
    match find_match_of(v, from, backwards) {
        Some((s, e)) => EditorView { anchor: Some(s), cursor: e, preferred_col: None, ..v },
        None => v,
    }
}

/// The query and the replacement (empty until one is typed).
pub open spec fn find_parts(v: EditorView) -> (Seq<char>, Seq<char>) {
    match v.find {
        Some((q, r)) => (q, match r {
            Some(r) => r,
            None => seq![],
        }),
        None => (seq![], seq![]),
    }
}

/// The selected match (compared ignoring case) is replaced; then the next match is selected.
pub open spec fn replace_current_of(v: EditorView) -> EditorView {
    if v.find is None {
        v
    } else {
        let (q, rep) = find_parts(v);
        let selected = match selection_of(v) {
            Some((s, e)) => range_of(v.lines, s, e),
            None => seq![],
        };
        let v1 = if selected.len() > 0 && crate::text::lower_text(selected) == crate::text::lower_text(q) {
            insert_text_of(delete_selection_of(snapshot_of(v, false)), rep)
        } else {
            v
        };
        find_next_of(v1, false)
    }
}

/// The match `m` replaced by `rep`, the cursor after it.
pub open spec fn replaced_at(v: EditorView, m: (Pos, Pos), rep: Seq<char>) -> EditorView {
    insert_text_of(delete_of(v, m.0, m.1), rep)
}

/// No more lines, and no longer lines, than a machine can count.
pub open spec fn lines_fit(ls: Seq<Seq<char>>) -> bool {
    &&& ls.len() <= usize::MAX
    &&& forall|i: int| 0 <= i < ls.len() ==> (#[trigger] ls[i]).len() <= usize::MAX
}

/// Characters in `ls`, each line counting one more for its break.
pub open spec fn lens_sum(ls: Seq<Seq<char>>) -> int
    decreases ls.len(),
{
    if ls.len() == 0 {
        0
    } else {
        ls[0].len() + 1 + lens_sum(ls.drop_first())
    }
}

/// How much text follows line `l`, column `c`.
pub open spec fn after_at(ls: Seq<Seq<char>>, l: int, c: int) -> int {
    ls[l].len() - c + lens_sum(ls.skip(l + 1))
}

/// When a replacement contains what it replaces: every match from `rest` on is replaced once,
/// until the search wraps around.
pub open spec fn replace_rest(v: EditorView, rep: Seq<char>, rest: Pos) -> EditorView
    decreases after_at(v.lines, rest.line as int, rest.col as int),
    when view_ok(v) && valid_pos(v.lines, rest) && lines_fit(v.lines)
{
    match find_match_of(v, rest, false) {
        None => v,
        Some(m) => if pos_lt(m.0, rest) {
            v
        } else {
            let v2 = replaced_at(v, m, rep);
            if !lines_fit(v2.lines) {
                v2
            } else {
                proof {
                    lemma_replace_shrinks(v, m, rep, rest);
                }
                replace_rest(v2, rep, v2.cursor)
            }
        },
    }
}

/// Replace all: the first match in the text, again and again, at most 10000 times; when
/// the replacement itself matches, one pass from the start instead.
pub open spec fn replace_loop(v: EditorView, q: Seq<char>, rep: Seq<char>, count: int) -> EditorView
    decreases 10001 - count,
{
    if count >= 10001 {
        v
    } else {
        match find_match_of(v, Pos { line: 0, col: 0 }, false) {
            None => v,
            Some(m) => {
                let v2 = replaced_at(v, m, rep);
                if count + 1 > 10000 || crate::text::occurs(
                    crate::text::lower_text(rep),
                    crate::text::lower_text(q),
                ) {
                    if count + 1 == 1 {
                        replace_rest(v2, rep, Pos { line: 0, col: 0 })
                    } else {
                        v2
                    }
                } else {
                    replace_loop(v2, q, rep, count + 1)
                }
            },
        }
    }
}

pub open spec fn replace_every_of(v: EditorView) -> EditorView {
    let (q, rep) = find_parts(v);
    if v.find is None || q.len() == 0 {
        v
    } else {
        replace_loop(EditorView { anchor: None, ..snapshot_of(v, false) }, q, rep, 0)
    }
}

proof fn lemma_lens_sum_nonneg(ls: Seq<Seq<char>>)
    ensures
        lens_sum(ls) >= 0,
    decreases ls.len(),
{
    if ls.len() > 0 {
        lemma_lens_sum_nonneg(ls.drop_first());
    }
}

proof fn lemma_lens_sum_skip(ls: Seq<Seq<char>>, i: int, j: int)
    requires
        0 <= i <= j < ls.len(),
    ensures
        lens_sum(ls.skip(i)) >= ls[j].len() + 1 + lens_sum(ls.skip(j + 1)),
    decreases j - i,
{
    assert(ls.skip(i).drop_first() =~= ls.skip(i + 1));
    if i < j {
        lemma_lens_sum_skip(ls, i + 1, j);
    }
}

proof fn lemma_after_order(ls: Seq<Seq<char>>, a: Pos, b: Pos)
    requires
        valid_pos(ls, a),
        valid_pos(ls, b),
        pos_lt(a, b),
    ensures
        after_at(ls, b.line as int, b.col as int) < after_at(ls, a.line as int, a.col as int),
{
    if a.line < b.line {
        lemma_lens_sum_skip(ls, a.line + 1, b.line as int);
    }
}

proof fn lemma_after_replace(ls: Seq<Seq<char>>, s: Pos, e: Pos, t: Seq<char>)
    requires
        valid_pos(ls, s),
        valid_pos(ls, e),
        s.line == e.line,
        s.col <= e.col,
    ensures
        ({
            let d = deleted(ls, s, e);
            let (l, c) = after_insert(d, s, t);
            let n = inserted(d, s, t);
            &&& after_at(n, l, c) == after_at(ls, e.line as int, e.col as int)
            &&& n.len() == d.len() + (l - s.line)
        }),
{
    let L = s.line as int;
    let line = ls[L];
    let d = deleted(ls, s, e);
    assert(d[L] == line.take(s.col as int) + line.skip(e.col as int));
    assert(d[L].skip(s.col as int) =~= line.skip(e.col as int));
    assert(d.skip(L + 1) =~= ls.skip(L + 1));
    assert(valid_pos(d, s));
    lemma_insert_keeps_tail(d, s, t);
    crate::text::lemma_split_nonempty(t, '\n');
    let pieces = split_on(t, '\n');
    let k = pieces.len() - 1;
    let head = d[L].take(s.col as int);
    let tail = d[L].skip(s.col as int);
    let middle = if k == 0 {
        seq![head + pieces[0] + tail]
    } else {
        seq![head + pieces[0]] + pieces.subrange(1, k) + seq![pieces[k] + tail]
    };
    let n = inserted(d, s, t);
    assert(n == d.take(L) + middle + d.skip(L + 1));
    assert(middle.len() == k + 1);
    assert(n.skip(L + k + 1) =~= d.skip(L + 1));
}

pub proof fn lemma_replace_shrinks(v: EditorView, m: (Pos, Pos), rep: Seq<char>, rest: Pos)
    requires
        view_ok(v),
        valid_pos(v.lines, rest),
        lines_fit(v.lines),
        find_match_of(v, rest, false) == Some(m),
        !pos_lt(m.0, rest),
        lines_fit(replaced_at(v, m, rep).lines),
    ensures
        ({
            let v2 = replaced_at(v, m, rep);
            &&& 0 <= after_at(v2.lines, v2.cursor.line as int, v2.cursor.col as int)
            &&& after_at(v2.lines, v2.cursor.line as int, v2.cursor.col as int) < after_at(
                v.lines,
                rest.line as int,
                rest.col as int,
            )
        }),
{
    lemma_find_match_ok(v, rest, false);
    let (s, e) = m;
    lemma_after_replace(v.lines, s, e, rep);
    lemma_after_order(v.lines, rest, e);
    let d = deleted(v.lines, s, e);
    let (l, c) = after_insert(d, s, rep);
    let v2 = replaced_at(v, m, rep);
    lemma_insert_keeps_tail(d, s, rep);
    lemma_lens_sum_nonneg(v2.lines.skip(l + 1));
    assert(v2.lines == inserted(d, s, rep));
    assert(v2.cursor.line as int == l && v2.cursor.col as int == c) by {
        assert(0 <= l < v2.lines.len());
        assert(v2.lines[l].len() <= usize::MAX);
    }
}


impl Editor {
    fn find_next_from_here(&mut self)
        requires
            old(self).wf(),
        ensures
            final(self).wf(),
            final(self)@ == find_next_from_here_of(old(self)@),
    {
        let from = match self.selection() {
            Some((s, _)) => s,
            None => self.cursor,
        };
        proof {
            lemma_lines_fit(&self.lines);
            lemma_find_match_ok(self@, from, false);
        }
        match self.find_match_from(from, false) {
            Some((s, e)) => {
                self.anchor = Some(s);
                self.cursor = e;
            },
            None => {},
        }
    }

    fn find_next(&mut self, backwards: bool)
        requires
            old(self).wf(),
        ensures
            final(self).wf(),
            final(self)@ == find_next_of(old(self)@, backwards),
    {
        let from = match self.selection() {
            Some((s, e)) => if backwards {
                s
            } else {
                e
            },
            None => self.cursor,
        };
        proof {
            lemma_lines_fit(&self.lines);
            lemma_find_match_ok(self@, from, backwards);
        }
        match self.find_match_from(from, backwards) {
            Some((s, e)) => {
                self.anchor = Some(s);
                self.cursor = e;
                self.preferred_col = None;
            },
            None => {},
        }
    }

    /// The query and the replacement of the open find bar.
    fn find_texts(&self) -> (r: (Vec<char>, Vec<char>))
        requires
            self@.find is Some,
        ensures
            (r.0@, r.1@) == find_parts(self@),
    {
        match &self.find {
            Some(f) => (chars_of(f.query.as_str()), match &f.replace {
                Some(r) => chars_of(r.as_str()),
                None => Vec::new(),
            }),
            None => (Vec::new(), Vec::new()),
        }
    }

    fn replace_current(&mut self)
        requires
            old(self).wf(),
        ensures
            final(self).wf(),
            final(self)@ == replace_current_of(old(self)@),
    {
        if self.find.is_none() {
            return;
        }
        let (query, replacement) = self.find_texts();
        let selected = match self.selection() {
            Some((s, e)) => self.range_text(s, e),
            None => Vec::new(),
        };
        if selected.len() > 0 && crate::text::chars_eq(&lowercase(&selected), &lowercase(&query)) {
            self.snapshot(false);
            self.delete_selection();
            self.insert_text(&replacement);
        }
        self.find_next(false);
    }

    fn replace_all(&mut self)
        requires
            old(self).wf(),
        ensures
            final(self).wf(),
            final(self)@ == replace_every_of(old(self)@),
    {
        if self.find.is_none() {
            return;
        }
        let (query, replacement) = self.find_texts();
        if query.len() == 0 {
            return;
        }
        let ghost v0 = self@;
        let ghost fv = self@.find;
        self.snapshot(false);
        self.anchor = None;
        let still = crate::text::contains_seq(&lowercase(&replacement), &lowercase(&query));
        let mut count: usize = 0;
        loop
            invariant
                self.wf(),
                v0 == old(self)@,
                count <= 10000,
                self@.find == fv,
                fv is Some,
                find_parts(self@) == (query@, replacement@),
                still == crate::text::occurs(crate::text::lower_text(replacement@), crate::text::lower_text(query@)),
                replace_loop(self@, query@, replacement@, count as int) == replace_every_of(v0),
            decreases 10000 - count,
        {
            let ghost v = self@;
            proof {
                lemma_lines_fit(&self.lines);
                lemma_find_match_ok(self@, Pos { line: 0, col: 0 }, false);
            }
            let found = self.find_match_from(Pos { line: 0, col: 0 }, false);
            match found {
                None => {
                    assert(replace_loop(v, query@, replacement@, count as int) == v);
                    return;
                },
                Some((s, e)) => {
                    self.delete_range(s, e);
                    self.cursor = s;
                    self.insert_text(&replacement);
                    assert(self@ == replaced_at(v, (s, e), replacement@));
                    count = count + 1;
                    if count > 10000 || still {
                        if count == 1 {
                            self.replace_rest(&replacement, Ghost(replace_every_of(v0)));
                        } else {
                            assert(replace_loop(v, query@, replacement@, count - 1) == self@);
                        }
                        return;
                    }
                },
            }
        }
    }

    fn replace_rest(&mut self, replacement: &Vec<char>, Ghost(target): Ghost<EditorView>)
        requires
            old(self).wf(),
            old(self)@.find is Some,
            find_parts(old(self)@).1 == replacement@,
            replace_rest(old(self)@, replacement@, Pos { line: 0, col: 0 }) == target,
        ensures
            final(self).wf(),
            final(self)@ == target,
    {
        let mut rest = Pos { line: 0, col: 0 };
        proof {
            lemma_lines_fit(&self.lines);
        }
        loop
            invariant
                self.wf(),
                valid_pos(self@.lines, rest),
                lines_fit(self@.lines),
                replace_rest(self@, replacement@, rest) == target,
            ensures
                self.wf(),
                self@ == target,
            decreases after_at(self@.lines, rest.line as int, rest.col as int),
        {
            let ghost v = self@;
            proof {
                lemma_find_match_ok(self@, rest, false);
                lemma_lens_sum_nonneg(self@.lines.skip(rest.line + 1));
            }
            match self.find_match_from(rest, false) {
                None => {
                    return;
                },
                Some((s, e)) => {
                    if pos_before(s, rest) {
                        return;
                    }
                    self.delete_range(s, e);
                    self.cursor = s;
                    self.insert_text(replacement);
                    proof {
                        lemma_lines_fit(&self.lines);
                        assert(self@ == replaced_at(v, (s, e), replacement@));
                        lemma_replace_shrinks(v, (s, e), replacement@, rest);
                    }
                    rest = self.cursor;
                },
            }
        }
    }
}


// ----- facts about soft wrapping ---------------------------------------------------------

/// A row of `ls`: on one of its lines, inside that line.
pub open spec fn row_ok(ls: Seq<Seq<char>>, r: (int, int, int)) -> bool {
    0 <= r.0 < ls.len() && 0 <= r.1 <= r.2 <= ls[r.0].len()
}

proof fn lemma_line_rows_valid(cs: Seq<char>, k: int, w: int, start: int)
    requires
        0 <= start <= cs.len(),
    ensures
        line_rows(cs, k, w, start).len() >= 1,
        line_rows(cs, k, w, start)[0].0 == k,
        forall|i: int|
            0 <= i < line_rows(cs, k, w, start).len() ==> {
                let r = #[trigger] line_rows(cs, k, w, start)[i];
                r.0 == k && start <= r.1 <= r.2 <= cs.len()
            },
    decreases cs.len() - start,
{
    let end = row_end(cs, start, w);
    lemma_row_end(cs, start, w);
    if end < cs.len() {
        lemma_line_rows_valid(cs, k, w, end);
        let rest = line_rows(cs, k, w, end);
        assert forall|i: int| 0 <= i < line_rows(cs, k, w, start).len() implies {
            let r = #[trigger] line_rows(cs, k, w, start)[i];
            r.0 == k && start <= r.1 <= r.2 <= cs.len()
        } by {
            if i > 0 {
                assert(line_rows(cs, k, w, start)[i] == rest[i - 1]);
            }
        }
    }
}

proof fn lemma_last_with_line_ge(rows: Seq<(int, int, int)>, line: int, k: int, j: int)
    requires
        0 <= j < k <= rows.len(),
        rows[j].0 == line,
    ensures
        last_with_line(rows, line, k) >= j,
    decreases k,
{
    if rows[k - 1].0 != line {
        lemma_last_with_line_ge(rows, line, k - 1, j);
    }
}

proof fn lemma_rows_upto_valid(ls: Seq<Seq<char>>, w: int, n: int)
    requires
        0 <= n <= ls.len(),
    ensures
        forall|i: int| 0 <= i < rows_upto(ls, w, n).len() ==> row_ok(ls, #[trigger] rows_upto(ls, w, n)[i]),
        forall|i: int| 0 <= i < rows_upto(ls, w, n).len() ==> (#[trigger] rows_upto(ls, w, n)[i]).0 < n,
        forall|k: int| 0 <= k < n ==> #[trigger] last_with_line(rows_upto(ls, w, n), k, rows_upto(ls, w, n).len() as int) >= 0,
    decreases n,
{
    if n > 0 {
        lemma_rows_upto_valid(ls, w, n - 1);
        let small = rows_upto(ls, w, n - 1);
        let lr = line_rows(ls[n - 1], n - 1, w, 0);
        let big = rows_upto(ls, w, n);
        lemma_line_rows_valid(ls[n - 1], n - 1, w, 0);
        assert(big == small + lr);
        assert forall|i: int| 0 <= i < big.len() implies row_ok(ls, #[trigger] big[i]) && big[i].0 < n by {
            if i < small.len() {
                assert(big[i] == small[i]);
            } else {
                assert(big[i] == lr[i - small.len()]);
            }
        }
        assert forall|k: int| 0 <= k < n implies #[trigger] last_with_line(big, k, big.len() as int) >= 0 by {
            if k < n - 1 {
                let j = last_with_line(small, k, small.len() as int);
                lemma_last_with_line(small, k, small.len() as int);
                assert(big[j] == small[j]);
                lemma_last_with_line_ge(big, k, big.len() as int, j);
            } else {
                assert(big[small.len() as int] == lr[0]);
                lemma_last_with_line_ge(big, k, big.len() as int, small.len() as int);
            }
        }
    }
}

/// Every line has a row, and every row lies inside its line.
pub proof fn lemma_wrapped(ls: Seq<Seq<char>>, width: int)
    ensures
        forall|i: int| 0 <= i < wrapped(ls, width).len() ==> row_ok(ls, #[trigger] wrapped(ls, width)[i]),
        forall|k: int|
            0 <= k < ls.len() ==> #[trigger] last_with_line(wrapped(ls, width), k, wrapped(ls, width).len() as int) >= 0,
        ls.len() > 0 ==> wrapped(ls, width).len() > 0,
{
    let w = if width < 1 {
        1
    } else {
        width
    };
    lemma_rows_upto_valid(ls, w, ls.len() as int);
    if ls.len() > 0 {
        let rows = wrapped(ls, width);
        lemma_last_with_line(rows, 0, rows.len() as int);
    }
}


/// The rows of a line from `start` on follow each other: the first starts at `start`, each
/// next one where the one before it ends, and the last ends with the line.
proof fn lemma_line_rows_chain(cs: Seq<char>, k: int, w: int, start: int)
    requires
        0 <= start <= cs.len(),
    ensures
        line_rows(cs, k, w, start)[0].1 == start,
        forall|i: int|
            0 < i < line_rows(cs, k, w, start).len() ==> (#[trigger] line_rows(cs, k, w, start)[i]).1
                == line_rows(cs, k, w, start)[i - 1].2,
        line_rows(cs, k, w, start).last().2 == cs.len(),
    decreases cs.len() - start,
{
    lemma_line_rows_valid(cs, k, w, start);
    let end = row_end(cs, start, w);
    lemma_row_end(cs, start, w);
    if end < cs.len() {
        lemma_line_rows_chain(cs, k, w, end);
        lemma_line_rows_valid(cs, k, w, end);
        let rest = line_rows(cs, k, w, end);
        let all = line_rows(cs, k, w, start);
        assert(all == seq![(k, start, end)] + rest);
        assert forall|i: int| 0 < i < all.len() implies (#[trigger] all[i]).1 == all[i - 1].2 by {
            assert(all[i] == rest[i - 1]);
            if i > 1 {
                assert(all[i - 1] == rest[i - 2]);
            }
        }
        assert(all.last() == rest.last());
    } else {
        assert(end == cs.len());
    }
}

/// A line's last row has no later row of the line after it.
proof fn lemma_last_with_line_skip(rows: Seq<(int, int, int)>, line: int, a: int, b: int)
    requires
        0 <= a <= b <= rows.len(),
        forall|m: int| a <= m < b ==> (#[trigger] rows[m]).0 != line,
    ensures
        last_with_line(rows, line, b) == last_with_line(rows, line, a),
    decreases b - a,
{
    if a < b {
        lemma_last_with_line_skip(rows, line, a, b - 1);
    }
}

proof fn lemma_last_with_line_prefix(rows: Seq<(int, int, int)>, more: Seq<(int, int, int)>, line: int, k: int)
    requires
        0 <= k <= rows.len(),
    ensures
        last_with_line(rows + more, line, k) == last_with_line(rows, line, k),
    decreases k,
{
    if k > 0 {
        assert((rows + more)[k - 1] == rows[k - 1]);
        lemma_last_with_line_prefix(rows, more, line, k - 1);
    }
}

/// The rows of a wrapped text chain within each line: a row that does not start its line
/// comes right after the row of the same line it continues; the last row of a line ends with
/// it.
proof fn lemma_rows_chain(ls: Seq<Seq<char>>, w: int, n: int)
    requires
        0 <= n <= ls.len(),
    ensures
        forall|j: int|
            0 <= j < rows_upto(ls, w, n).len() && (#[trigger] rows_upto(ls, w, n)[j]).1 != 0 ==> j > 0
                && rows_upto(ls, w, n)[j - 1].0 == rows_upto(ls, w, n)[j].0 && rows_upto(ls, w, n)[j - 1].2
                == rows_upto(ls, w, n)[j].1,
        forall|l: int|
            0 <= l < n ==> ls[l].len() == rows_upto(ls, w, n)[#[trigger] last_with_line(
                rows_upto(ls, w, n),
                l,
                rows_upto(ls, w, n).len() as int,
            )].2,
    decreases n,
{
    lemma_rows_upto_valid(ls, w, n);
    if n > 0 {
        lemma_rows_chain(ls, w, n - 1);
        lemma_rows_upto_valid(ls, w, n - 1);
        let small = rows_upto(ls, w, n - 1);
        let lr = line_rows(ls[n - 1], n - 1, w, 0);
        let big = rows_upto(ls, w, n);
        lemma_line_rows_valid(ls[n - 1], n - 1, w, 0);
        lemma_line_rows_chain(ls[n - 1], n - 1, w, 0);
        assert(big == small + lr);
        assert forall|j: int| 0 <= j < big.len() && (#[trigger] big[j]).1 != 0 implies j > 0 && big[j - 1].0 == big[j].0
            && big[j - 1].2 == big[j].1 by {
            if j < small.len() {
                assert(big[j] == small[j]);
                assert(small[j].1 != 0);
                assert(big[j - 1] == small[j - 1]);
            } else {
                let i = j - small.len();
                assert(big[j] == lr[i]);
                if i == 0 {
                    assert(lr[0].1 == 0);
                } else {
                    assert(big[j - 1] == lr[i - 1]);
                }
            }
        }
        assert forall|l: int| 0 <= l < n implies ls[l].len() == big[#[trigger] last_with_line(big, l, big.len() as int)].2 by {
            if l == n - 1 {
                assert(big[big.len() - 1] == lr.last());
                assert(big[big.len() - 1].0 == l);
            } else {
                assert forall|m: int| small.len() <= m < big.len() implies (#[trigger] big[m]).0 != l by {
                    assert(big[m] == lr[m - small.len()]);
                }
                lemma_last_with_line_skip(big, l, small.len() as int, big.len() as int);
                lemma_last_with_line_prefix(small, lr, l, small.len() as int);
                let j = last_with_line(small, l, small.len() as int);
                lemma_last_with_line(small, l, small.len() as int);
                assert(big[j] == small[j]);
            }
        }
    }
}

/// `pick_row` takes the first row that qualifies.
proof fn lemma_pick_first(rows: Seq<(int, int, int)>, line: int, col: int, i: int)
    requires
        0 <= i <= last_with_line(rows, line, rows.len() as int),
    ensures
        forall|m: int|
            i <= m < pick_row(rows, line, col, i) ==> !((#[trigger] rows[m]).0 == line && (col < rows[m].2 || m
                == last_with_line(rows, line, rows.len() as int))),
        col < rows[pick_row(rows, line, col, i)].2 || pick_row(rows, line, col, i) == last_with_line(
            rows,
            line,
            rows.len() as int,
        ),
    decreases rows.len() - i,
{
    lemma_last_with_line(rows, line, rows.len() as int);
    lemma_pick_row(rows, line, col, i);
    if !(rows[i].0 == line && (col < rows[i].2 || i == last_with_line(rows, line, rows.len() as int))) {
        lemma_pick_first(rows, line, col, i + 1);
    }
}

/// Scanning a row from `at` with the columns before it taken, for the columns of the whole row,
/// runs to the row's end.
proof fn lemma_scan_to_end(cs: Seq<char>, end: int, start: int, at: int)
    requires
        start <= at <= end,
    ensures
        scan_col(cs, end, cols_sum(cs, start, end), at, cols_sum(cs, start, at)) == end,
    decreases end - at,
{
    if at < end {
        lemma_cols_sum_grows(cs, start, at + 1, end);
        assert(cols_sum(cs, start, at + 1) == cols_sum(cs, start, at) + cw(cs[at]));
        lemma_scan_to_end(cs, end, start, at + 1);
    }
}

/// The screen position of a text position leads back to it: on the wrapped text, the row and
/// column `visual` gives show the position that `pos_at` finds there, when no character of
/// the line is zero columns wide.
pub proof fn a_screen_position_leads_back_to_the_text_position(ls: Seq<Seq<char>>, width: int, line: int, col: int)
    requires
        0 <= line < ls.len(),
        0 <= col <= ls[line].len(),
        forall|i: int| 0 <= i < ls[line].len() ==> cw(#[trigger] ls[line][i]) >= 1,
    ensures
        ({
            let rows = wrapped(ls, width);
            let (v, c) = visual(ls, rows, line, col);
            &&& 0 <= v < rows.len()
            &&& rows[v].0 == line
            &&& col_at(ls[line], rows[v].1, rows[v].2, c) == col
        }),
{
    let w = if width < 1 {
        1
    } else {
        width
    };
    let rows = wrapped(ls, width);
    assert(rows == rows_upto(ls, w, ls.len() as int));
    lemma_wrapped(ls, width);
    lemma_rows_chain(ls, w, ls.len() as int);
    let last = last_with_line(rows, line, rows.len() as int);
    lemma_last_with_line(rows, line, rows.len() as int);
    lemma_pick_row(rows, line, col, 0);
    lemma_pick_first(rows, line, col, 0);
    let v = pick_row(rows, line, col, 0);
    let r = rows[v];
    let cs = ls[line];
    assert(row_ok(ls, r));
    assert(r.0 == line);
    // the row starts at or before the position
    if r.1 != 0 {
        assert(rows[v - 1].0 == line && rows[v - 1].2 == r.1);
        assert(v - 1 != last);
        assert(!(col < rows[v - 1].2));
    }
    assert(r.1 <= col);
    if col < r.2 {
        assert forall|i: int| r.1 <= i <= col implies cw(#[trigger] cs[i]) >= 1 by {
            assert(0 <= i < cs.len());
        }
        a_screen_column_leads_back_to_its_character(cs, r.1, r.2, col);
    } else {
        assert(v == last);
        assert(r.2 == cs.len());
        assert(col == r.2);
        lemma_scan_to_end(cs, r.2, r.1, r.1);
        assert(cols_sum(cs, r.1, r.1) == 0);
    }
}

// ----- moving by screen rows, the mouse, drawing ------------------------------------------

/// Every line short enough for its screen columns to be counted in a `usize` (a character
/// takes four bytes in memory, so no line can be longer).
pub open spec fn lines_short(ls: Seq<Seq<char>>) -> bool {
    forall|i: int| 0 <= i < ls.len() ==> (#[trigger] ls[i]).len() <= usize::MAX / 4
}

/// The width the text was last drawn at, at least one column.
pub open spec fn view_width(v: EditorView) -> int {
    if v.view.width < 1 {
        1
    } else {
        v.view.width as int
    }
}

/// Up or down `n` screen rows, keeping the screen column the movement started at.
pub open spec fn vertical_of(v: EditorView, up: bool, n: int, select: bool) -> EditorView {
    let rows = wrapped(v.lines, view_width(v));
    let (vrow, vcol) = visual(v.lines, rows, v.cursor.line as int, v.cursor.col as int);
    let col = match v.preferred_col {
        Some(c) => c as int,
        None => vcol,
    };
    let t = if up {
        vrow - n
    } else {
        vrow + n
    };
    let target = if t < 0 {
        0
    } else if t > rows.len() - 1 {
        rows.len() - 1
    } else {
        t
    };
    let row = rows[target];
    let p = Pos { line: row.0 as usize, col: col_at(v.lines[row.0], row.1, row.2, col) as usize };
    EditorView { preferred_col: Some(col as usize), ..move_to_of(v, p, select) }
}

/// Inside the area, as ratatui's `Rect::contains` decides it (edges saturating at `u16::MAX`).
pub open spec fn area_contains(a: Area, x: u16, y: u16) -> bool {
    let right = if a.x + a.width > u16::MAX {
        u16::MAX as int
    } else {
        a.x + a.width
    };
    let bottom = if a.y + a.height > u16::MAX {
        u16::MAX as int
    } else {
        a.y + a.height
    };
    a.x <= x && x < right && a.y <= y && y < bottom
}

/// The text position under a screen cell of the text area.
pub open spec fn pos_at_screen_of(v: EditorView, x: u16, y: u16) -> Option<Pos> {
    let rows = wrapped(v.lines, view_width(v));
    if !area_contains(v.view, x, y) || rows.len() == 0 {
        None
    } else {
        let vrow = (y - v.view.y) + v.scroll;
        let row = if vrow < rows.len() {
            rows[vrow]
        } else {
            rows.last()
        };
        Some(Pos { line: row.0 as usize, col: col_at(v.lines[row.0], row.1, row.2, x - v.view.x) as usize })
    }
}

pub open spec fn mouse_of(v: EditorView, m: Mouse) -> EditorView {
    match m.kind {
        MouseKind::LeftDown => match pos_at_screen_of(v, m.column, m.row) {
            Some(p) => EditorView { preferred_col: None, ..move_to_of(v, p, false) },
            None => v,
        },
        MouseKind::LeftDrag => match pos_at_screen_of(v, m.column, m.row) {
            Some(p) => move_to_of(v, p, true),
            None => v,
        },
        MouseKind::ScrollDown => EditorView { scroll: (v.scroll + 3) as usize, ..v },
        MouseKind::ScrollUp => EditorView {
            scroll: if v.scroll >= 3 {
                (v.scroll - 3) as usize
            } else {
                0
            },
            ..v
        },
        MouseKind::RightDown | MouseKind::OtherDown | MouseKind::Other => v,
    }
}

/// The screen row under the mouse, counted from the top of the text, fits a `usize`; so does
/// the scroll position after scrolling down.
pub open spec fn mouse_ok(v: EditorView, m: Mouse) -> bool {
    &&& (m.kind is ScrollDown ==> v.scroll + 3 <= usize::MAX)
    &&& ((m.kind is LeftDown || m.kind is LeftDrag) && area_contains(v.view, m.column, m.row) ==> (m.row
        - v.view.y) + v.scroll <= usize::MAX)
}

/// Drawn into `area`: the area is remembered, the view scrolls to keep the cursor in sight
/// (and no further than the last screenful), and the cursor's screen cell is recorded.
pub open spec fn placed_of(v: EditorView, area: Area) -> EditorView {
    let width = if area.width < 1 {
        1
    } else {
        area.width as int
    };
    let height = if area.height < 1 {
        1
    } else {
        area.height as int
    };
    let rows = wrapped(v.lines, width);
    let (crow, ccol) = visual(v.lines, rows, v.cursor.line as int, v.cursor.col as int);
    let s1 = if crow < v.scroll {
        crow
    } else if crow >= v.scroll + height {
        crow + 1 - height
    } else {
        v.scroll as int
    };
    let cap = if rows.len() > height {
        rows.len() - height
    } else {
        0
    };
    let s2 = if s1 < cap {
        s1
    } else {
        cap
    };
    let last_col: int = if area.width > 0 {
        area.width - 1
    } else {
        0
    };
    let cc = ccol as u16;
    let x = area.x + (if cc < last_col {
        cc as int
    } else {
        last_col
    });
    let y = area.y + (crow - s2);
    EditorView { view: area, scroll: s2 as usize, cursor_screen: (x as u16, y as u16), ..v }
}

/// An area as ratatui makes them: its right and bottom edges are on the screen.
pub open spec fn area_ok(a: Area) -> bool {
    a.x + a.width <= u16::MAX && a.y + a.height <= u16::MAX
}

/// Drops the last character, if any (`String::pop`).
pub open spec fn popped(s: Seq<char>) -> Seq<char> {
    if s.len() > 0 {
        s.drop_last()
    } else {
        s
    }
}

/// A key while the find bar is open.
pub open spec fn find_key_of(v: EditorView, k: Key) -> EditorView {
    match v.find {
        None => v,
        Some((q, r)) => {
            let ctrl = k.ctrl;
            match k.code {
                KeyCode::Esc => EditorView { find: None, ..v },
                KeyCode::Char(c) => if c == 'r' && ctrl {
                    match r {
                        Some(_) => v,
                        None => EditorView { find: Some((q, Some(seq![]))), ..v },
                    }
                } else if c == 'a' && ctrl && r is Some {
                    replace_every_of(v)
                } else if !ctrl {
                    match r {
                        Some(rt) => EditorView { find: Some((q, Some(rt.push(c)))), ..v },
                        None => find_next_from_here_of(EditorView { find: Some((q.push(c), None)), ..v }),
                    }
                } else {
                    v
                },
                KeyCode::Enter => match r {
                    Some(_) => replace_current_of(v),
                    None => find_next_of(v, false),
                },
                KeyCode::Down => find_next_of(v, false),
                KeyCode::Up => find_next_of(v, true),
                KeyCode::Backspace => match r {
                    Some(rt) => EditorView { find: Some((q, Some(popped(rt)))), ..v },
                    None => EditorView { find: Some((popped(q), None)), ..v },
                },
                _ => v,
            }
        },
    }
}

/// The text differs from what the editor was opened with, trailing blanks aside.
pub open spec fn modified_of(v: EditorView) -> bool {
    crate::text::trim_end(text_of_lines(v.lines)) != crate::text::trim_end(v.original)
}

/// What Ctrl-F puts in the find bar: the selection, when it is on one line.
pub open spec fn find_seed(v: EditorView) -> Seq<char> {
    match selection_of(v) {
        Some((s, e)) => if range_of(v.lines, s, e).contains('\n') {
            seq![]
        } else {
            range_of(v.lines, s, e)
        },
        None => seq![],
    }
}

/// A key with Ctrl held.
pub open spec fn ctrl_char_of(v: EditorView, c: char, shift: bool) -> (EditorView, Action) {
    if c == 's' {
        (v, Action::Save)
    } else if c == 'z' && shift {
        (redo_of(v), Action::Nothing)
    } else if c == 'z' {
        (undo_of(v), Action::Nothing)
    } else if c == 'y' {
        (redo_of(v), Action::Nothing)
    } else if c == 'a' {
        (select_all_of(v), Action::Nothing)
    } else if c == 'c' {
        (copy_of(v), Action::Nothing)
    } else if c == 'x' {
        (cut_of(v), Action::Nothing)
    } else if c == 'v' {
        (v, Action::Paste)
    } else if c == 'p' {
        (v, Action::PickImage)
    } else {
        (v, Action::Nothing)
    }
}

/// The editor after a key, and what the app is to do.
pub open spec fn key_of(v: EditorView, k: Key) -> (EditorView, Action) {
    if v.confirm {
        let v1 = EditorView { confirm: false, ..v };
        match k.code {
            KeyCode::Char(c) => if c == 'y' || c == 'Y' {
                (v1, Action::Save)
            } else if c == 'n' || c == 'N' {
                (v1, Action::Discard)
            } else {
                (v1, Action::Nothing)
            },
            KeyCode::Enter => (v1, Action::Save),
            _ => (v1, Action::Nothing),
        }
    } else if v.find is Some {
        (find_key_of(v, k), Action::Nothing)
    } else if k.ctrl && k.code == KeyCode::Char('f') {
        (EditorView { find: Some((find_seed(v), None)), ..v }, Action::Nothing)
    } else {
        let page = if v.view.height < 1 {
            1
        } else {
            v.view.height as int
        };
        let (ctrl, shift) = (k.ctrl, k.shift);
        match k.code {
            KeyCode::Esc => if modified_of(v) {
                (EditorView { confirm: true, ..v }, Action::Nothing)
            } else {
                (v, Action::Discard)
            },
            KeyCode::Char(c) => if ctrl {
                ctrl_char_of(v, c, shift)
            } else {
                (insert_of(v, seq![c]), Action::Nothing)
            },
            KeyCode::Left => (if ctrl {
                word_left_of(v, shift)
            } else {
                left_of(v, shift)
            }, Action::Nothing),
            KeyCode::Right => (if ctrl {
                word_right_of(v, shift)
            } else {
                right_of(v, shift)
            }, Action::Nothing),
            KeyCode::Up => (vertical_of(v, true, 1, shift), Action::Nothing),
            KeyCode::Down => (vertical_of(v, false, 1, shift), Action::Nothing),
            KeyCode::PageUp => (vertical_of(v, true, page, shift), Action::Nothing),
            KeyCode::PageDown => (vertical_of(v, false, page, shift), Action::Nothing),
            KeyCode::Home => (if ctrl {
                move_to_of(v, Pos { line: 0, col: 0 }, shift)
            } else {
                line_start_of(v, shift)
            }, Action::Nothing),
            KeyCode::End => (if ctrl {
                move_to_of(v, text_end(v), shift)
            } else {
                line_end_of(v, shift)
            }, Action::Nothing),
            KeyCode::Enter => (newline_of(v), Action::Nothing),
            KeyCode::Tab => (insert_of(v, seq![' ', ' ']), Action::Nothing),
            KeyCode::Backspace => (backspace_of(v), Action::Nothing),
            KeyCode::Delete => (delete_forward_of(v), Action::Nothing),
            KeyCode::BackTab | KeyCode::Other => (v, Action::Nothing),
        }
    }
}

/// Enter can be handled: it is not the number after `u64::MAX` that it would need.
pub open spec fn key_ok(v: EditorView, k: Key) -> bool {
    !v.confirm && v.find is None && k.code == KeyCode::Enter ==> newline_ok(v)
}


fn strings_of_lines(v: &Vec<Vec<char>>) -> (r: Vec<String>)
    ensures
        strings(r@) == lines_of_vecs(v@),
{
    let mut out: Vec<String> = Vec::new();
    let mut i: usize = 0;
    while i < v.len()
        invariant
            0 <= i <= v.len(),
            strings(out@) == lines_of_vecs(v@).take(i as int),
        decreases v.len() - i,
    {
        let ghost before = out@;
        out.push(string_of(&v[i]));
        assert(strings(out@) =~= strings(before).push(v@[i as int]@));
        assert(lines_of_vecs(v@).take(i + 1) =~= lines_of_vecs(v@).take(i as int).push(v@[i as int]@));
        i = i + 1;
    }
    assert(lines_of_vecs(v@).take(v.len() as int) =~= lines_of_vecs(v@));
    out
}

impl Editor {
    /// The lines as strings, and their rows at the width the text was last drawn at.
    fn rows_now(&self, width: usize) -> (r: (Vec<String>, Vec<Row>))
        requires
            self.wf(),
        ensures
            strings(r.0@) == self@.lines,
            rows_view(r.1@) == wrapped(self@.lines, width as int),
            r.1.len() > 0,
            forall|i: int| 0 <= i < r.1@.len() ==> row_ok(self@.lines, #[trigger] rows_view(r.1@)[i]),
            forall|k: int|
                0 <= k < self@.lines.len() ==> #[trigger] last_with_line(
                    rows_view(r.1@),
                    k,
                    r.1@.len() as int,
                ) >= 0,
    {
        let strs = strings_of_lines(&self.lines);
        let rows = wrap_rows(&strs, width);
        proof {
            lemma_wrapped(self@.lines, width as int);
        }
        (strs, rows)
    }

    fn vertical(&mut self, up: bool, n: usize, select: bool)
        requires
            old(self).wf(),
            lines_short(old(self)@.lines),
        ensures
            final(self).wf(),
            final(self)@ == vertical_of(old(self)@, up, n as int, select),
    {
        let width: usize = if self.view.width < 1 {
            1
        } else {
            self.view.width as usize
        };
        let (strs, rows) = self.rows_now(width);
        let ghost rv = rows_view(rows@);
        proof {
            assert(rv.len() == rows@.len());
            lemma_pick_row(rv, self.cursor.line as int, self.cursor.col as int, 0);
            lemma_last_with_line(rv, self.cursor.line as int, rv.len() as int);
        }
        let (vrow, vcol) = visual_of(&strs, &rows, self.cursor);
        let col = match self.preferred_col {
            Some(c) => c,
            None => vcol,
        };
        let last = rows.len() - 1;
        let target = if up {
            if vrow >= n {
                vrow - n
            } else {
                0
            }
        } else {
            if n > last - vrow {
                last
            } else {
                vrow + n
            }
        };
        let row = rows[target];
        proof {
            assert(rv[target as int] == row@);
            assert(row_ok(self@.lines, rv[target as int]));
        }
        let p = pos_at(&strs, row, col);
        self.move_to(p, select);
        self.preferred_col = Some(col);
    }

    fn pos_at_screen(&self, x: u16, y: u16) -> (r: Option<Pos>)
        requires
            self.wf(),
            area_contains(self@.view, x, y) ==> (y - self@.view.y) + self@.scroll <= usize::MAX,
        ensures
            r == pos_at_screen_of(self@, x, y),
            r matches Some(p) ==> p.line < self@.lines.len(),
    {
        let view = self.view;
        let right: u16 = if view.width > u16::MAX - view.x {
            u16::MAX
        } else {
            view.x + view.width
        };
        let bottom: u16 = if view.height > u16::MAX - view.y {
            u16::MAX
        } else {
            view.y + view.height
        };
        if !(view.x <= x && x < right && view.y <= y && y < bottom) {
            return None;
        }
        let width: usize = if view.width < 1 {
            1
        } else {
            view.width as usize
        };
        let (strs, rows) = self.rows_now(width);
        let vrow = (y - view.y) as usize + self.scroll;
        let row = if vrow < rows.len() {
            rows[vrow]
        } else {
            rows[rows.len() - 1]
        };
        proof {
            let rv = rows_view(rows@);
            if vrow < rows.len() {
                assert(rv[vrow as int] == row@);
                assert(row_ok(self@.lines, rv[vrow as int]));
            } else {
                assert(rv[rows.len() - 1] == row@);
                assert(row_ok(self@.lines, rv[rows.len() - 1]));
            }
        }
        Some(pos_at(&strs, row, (x - view.x) as usize))
    }

    pub fn handle_mouse(&mut self, mouse: Mouse)
        requires
            old(self).wf(),
            mouse_ok(old(self)@, mouse),
        ensures
            final(self).wf(),
            final(self)@ == mouse_of(old(self)@, mouse),
    {
        match mouse.kind {
            MouseKind::LeftDown => {
                if let Some(pos) = self.pos_at_screen(mouse.column, mouse.row) {
                    self.move_to(pos, false);
                    self.preferred_col = None;
                }
            },
            MouseKind::LeftDrag => {
                if let Some(pos) = self.pos_at_screen(mouse.column, mouse.row) {
                    self.move_to(pos, true);
                }
            },
            MouseKind::ScrollDown => {
                self.scroll = self.scroll + 3;
            },
            MouseKind::ScrollUp => {
                self.scroll = if self.scroll >= 3 {
                    self.scroll - 3
                } else {
                    0
                };
            },
            MouseKind::RightDown | MouseKind::OtherDown | MouseKind::Other => {},
        }
    }

    /// Lays the text out for drawing into `area`: remembers the area, scrolls to keep the
    /// cursor in sight and records its screen cell. Returns the lines' screen rows; those from
    /// `scroll_top()` on fill the area.
    pub fn place(&mut self, area: Area) -> (rows: Vec<Row>)
        requires
            old(self).wf(),
            lines_short(old(self)@.lines),
            area_ok(area),
        ensures
            final(self).wf(),
            final(self)@ == placed_of(old(self)@, area),
            rows_view(rows@) == wrapped(old(self)@.lines, if area.width < 1 {
                1
            } else {
                area.width as int
            }),
    {
        self.view = area;
        let width: usize = if area.width < 1 {
            1
        } else {
            area.width as usize
        };
        let height: usize = if area.height < 1 {
            1
        } else {
            area.height as usize
        };
        let (strs, rows) = self.rows_now(width);
        let ghost rv = rows_view(rows@);
        proof {
            assert(rv.len() == rows@.len());
            lemma_pick_row(rv, self.cursor.line as int, self.cursor.col as int, 0);
            lemma_last_with_line(rv, self.cursor.line as int, rv.len() as int);
        }
        let (crow, ccol) = visual_of(&strs, &rows, self.cursor);
        if crow < self.scroll {
            self.scroll = crow;
        } else if crow - self.scroll >= height {
            self.scroll = crow + 1 - height;
        }
        let cap = if rows.len() > height {
            rows.len() - height
        } else {
            0
        };
        if self.scroll > cap {
            self.scroll = cap;
        }
        let last_col: u16 = if area.width > 0 {
            area.width - 1
        } else {
            0
        };
        let cc = ccol as u16;
        let x = area.x + if cc < last_col {
            cc
        } else {
            last_col
        };
        let y = area.y + (crow - self.scroll) as u16;
        self.cursor_screen = (x, y);
        rows
    }

    /// The first screen row shown.
    pub fn scroll_top(&self) -> (r: usize)
        ensures
            r == self@.scroll,
    {
        self.scroll
    }

    /// The characters of line `i`.
    pub fn line_chars(&self, i: usize) -> (r: Vec<char>)
        requires
            i < self@.lines.len(),
        ensures
            r@ == self@.lines[i as int],
    {
        self.lines[i].clone()
    }

    /// How many lines the text has.
    pub fn line_count(&self) -> (r: usize)
        ensures
            r == self@.lines.len(),
    {
        self.lines.len()
    }
}


fn pop_char(s: &String) -> (r: String)
    ensures
        r@ == popped(s@),
{
    let mut cs = chars_of(s.as_str());
    if cs.len() > 0 {
        cs.pop();
    }
    string_of(&cs)
}

fn push_char(s: &String, c: char) -> (r: String)
    ensures
        r@ == s@.push(c),
{
    let mut cs = chars_of(s.as_str());
    cs.push(c);
    string_of(&cs)
}

impl Editor {
    fn find_key(&mut self, key: Key)
        requires
            old(self).wf(),
        ensures
            final(self).wf(),
            final(self)@ == find_key_of(old(self)@, key),
    {
        let (query, replace) = match &self.find {
            None => {
                return;
            },
            Some(f) => (f.query.clone(), f.replace.clone()),
        };
        let ctrl = key.ctrl;
        match key.code {
            KeyCode::Esc => {
                self.find = None;
            },
            KeyCode::Char(c) => {
                if c == 'r' && ctrl {
                    if replace.is_none() {
                        self.find = Some(EditorFind { query, replace: Some(String::new()) });
                    }
                } else if c == 'a' && ctrl && replace.is_some() {
                    self.replace_all();
                } else if !ctrl {
                    match replace {
                        Some(rt) => {
                            self.find = Some(EditorFind { query, replace: Some(push_char(&rt, c)) });
                        },
                        None => {
                            self.find = Some(EditorFind { query: push_char(&query, c), replace: None });
                            self.find_next_from_here();
                        },
                    }
                }
            },
            KeyCode::Enter => {
                if replace.is_some() {
                    self.replace_current();
                } else {
                    self.find_next(false);
                }
            },
            KeyCode::Down => self.find_next(false),
            KeyCode::Up => self.find_next(true),
            KeyCode::Backspace => {
                match replace {
                    Some(rt) => {
                        self.find = Some(EditorFind { query, replace: Some(pop_char(&rt)) });
                    },
                    None => {
                        self.find = Some(EditorFind { query: pop_char(&query), replace: None });
                    },
                }
            },
            _ => {},
        }
    }

    /// Handles a key; returns what the app is to do.
    pub fn handle_key(&mut self, key: Key) -> (r: Action)
        requires
            old(self).wf(),
            lines_short(old(self)@.lines),
            key_ok(old(self)@, key),
        ensures
            final(self).wf(),
            (final(self)@, r) == key_of(old(self)@, key),
    {
        if self.confirm {
            self.confirm = false;
            return match key.code {
                KeyCode::Char(c) => if c == 'y' || c == 'Y' {
                    Action::Save
                } else if c == 'n' || c == 'N' {
                    Action::Discard
                } else {
                    Action::Nothing
                },
                KeyCode::Enter => Action::Save,
                _ => Action::Nothing,
            };
        }
        let ctrl = key.ctrl;
        let shift = key.shift;
        if self.find.is_some() {
            self.find_key(key);
            return Action::Nothing;
        }
        if ctrl && key.code == KeyCode::Char('f') {
            let query = match self.selection() {
                Some((s, e)) => {
                    let t = self.range_text(s, e);
                    proof {
                        crate::text::lemma_find_from(t@, '\n', 0);
                    }
                    if crate::text::find_char(&t, '\n', 0) < t.len() {
                        Vec::new()
                    } else {
                        t
                    }
                },
                None => Vec::new(),
            };
            self.find = Some(EditorFind { query: string_of(&query), replace: None });
            return Action::Nothing;
        }
        let page: usize = if self.view.height < 1 {
            1
        } else {
            self.view.height as usize
        };
        match key.code {
            KeyCode::Esc => {
                if self.modified() {
                    self.confirm = true;
                    return Action::Nothing;
                }
                return Action::Discard;
            },
            KeyCode::Char(c) => {
                if ctrl {
                    if c == 's' {
                        return Action::Save;
                    } else if c == 'z' && shift {
                        self.redo();
                    } else if c == 'z' {
                        self.undo();
                    } else if c == 'y' {
                        self.redo();
                    } else if c == 'a' {
                        self.anchor = Some(Pos { line: 0, col: 0 });
                        let line = self.lines.len() - 1;
                        let col = self.line_len(line);
                        self.cursor = Pos { line, col };
                    } else if c == 'c' {
                        self.copy();
                    } else if c == 'x' {
                        self.cut();
                    } else if c == 'v' {
                        return Action::Paste;
                    } else if c == 'p' {
                        return Action::PickImage;
                    }
                } else {
                    let one = vec![c];
                    assert(one@ =~= seq![c]);
                    let t = string_of(&one);
                    self.insert(t.as_str());
                }
            },
            KeyCode::Left => {
                if ctrl {
                    self.word_left(shift);
                } else {
                    self.left(shift);
                }
            },
            KeyCode::Right => {
                if ctrl {
                    self.word_right(shift);
                } else {
                    self.right(shift);
                }
            },
            KeyCode::Up => self.vertical(true, 1, shift),
            KeyCode::Down => self.vertical(false, 1, shift),
            KeyCode::PageUp => self.vertical(true, page, shift),
            KeyCode::PageDown => self.vertical(false, page, shift),
            KeyCode::Home => {
                if ctrl {
                    self.move_to(Pos { line: 0, col: 0 }, shift);
                } else {
                    self.line_start(shift);
                }
            },
            KeyCode::End => {
                if ctrl {
                    let line = self.lines.len() - 1;
                    let col = self.line_len(line);
                    self.move_to(Pos { line, col }, shift);
                } else {
                    self.line_end(shift);
                }
            },
            KeyCode::Enter => self.newline(),
            KeyCode::Tab => {
                proof {
                    reveal_strlit("  ");
                    assert("  "@ =~= seq![' ', ' ']);
                }
                self.insert("  ");
            },
            KeyCode::Backspace => self.backspace(),
            KeyCode::Delete => self.delete_forward(),
            KeyCode::BackTab | KeyCode::Other => {},
        }
        Action::Nothing
    }
}


// ----- laws ------------------------------------------------------------------------------

/// An edit that records an undo step and leaves the undo steps alone afterwards: its undo step
/// is the text and cursor before it.
pub open spec fn edit_recorded(before: EditorView, after: EditorView) -> bool {
    after.undo.len() > 0 && after.undo.last() == (before.lines, before.cursor)
}

/// Undo after an edit gives back the text and the cursor from before it.
pub proof fn undo_restores_the_text(before: EditorView, after: EditorView)
    requires
        view_ok(before),
        edit_recorded(before, after),
    ensures
        undo_of(after).lines == before.lines,
        undo_of(after).cursor == before.cursor,
{
}

/// Every edit key records an undo step, except a typed character that continues a run of
/// typing: Enter, Backspace, Delete, pasting, cutting a selection, and inserting anything but
/// a single typed character.
pub proof fn edits_record_an_undo_step(v: EditorView, t: Seq<char>)
    requires
        view_ok(v),
    ensures
        !(typed_one(t) && v.typing) ==> edit_recorded(v, insert_of(v, t)),
        edit_recorded(v, paste_of(v, t)),
        edit_recorded(v, newline_of(v)),
        edit_recorded(v, backspace_of(v)),
        edit_recorded(v, delete_forward_of(v)),
        selection_of(v) is Some ==> edit_recorded(v, cut_of(v)),
{
}

/// A run of typing is one undo step: a typed character after another adds none.
pub proof fn typing_joins_the_undo_step(v: EditorView, t: Seq<char>)
    requires
        view_ok(v),
        v.typing,
        typed_one(t),
    ensures
        insert_of(v, t).undo == v.undo,
        insert_of(v, t).typing,
{
}

/// Redo after undo gives back the text that was undone.
pub proof fn redo_reverses_undo(v: EditorView)
    requires
        view_ok(v),
        v.undo.len() > 0,
    ensures
        redo_of(undo_of(v)).lines == v.lines,
        redo_of(undo_of(v)).cursor == clamped(v.lines, v.cursor),
        redo_of(undo_of(v)).undo.len() == v.undo.len(),
{
}


impl Editor {
    /// Whether `handle_key` can take `key` now: the lines are no longer than memory allows,
    /// and Enter would not continue a list past item number `u64::MAX`.
    pub fn key_allowed(&self, key: Key) -> (r: bool)
        requires
            self.wf(),
        ensures
            r == (lines_short(self@.lines) && key_ok(self@, key)),
    {
        let mut i: usize = 0;
        while i < self.lines.len()
            invariant
                0 <= i <= self.lines.len(),
                forall|j: int| 0 <= j < i ==> (#[trigger] self@.lines[j]).len() <= usize::MAX / 4,
            decreases self.lines.len() - i,
        {
            if self.lines[i].len() > usize::MAX / 4 {
                assert(self@.lines[i as int] == self.lines@[i as int]@);
                assert(!lines_short(self@.lines));
                return false;
            }
            i = i + 1;
        }
        if self.confirm || self.find.is_some() || key.code != KeyCode::Enter {
            return true;
        }
        let ghost v1 = delete_selection_of(self@);
        let (line, c) = match self.selection() {
            Some((s, e)) => {
                let mut l = slice(&self.lines[s.line], 0, s.col);
                let tail = slice(&self.lines[e.line], e.col, self.lines[e.line].len());
                push_all(&mut l, &tail);
                proof {
                    assert(v1.lines[s.line as int] =~= l@);
                }
                (l, s)
            },
            None => (self.lines[self.cursor.line].clone(), self.cursor),
        };
        assert(line@ == v1.lines[v1.cursor.line as int]);
        assert(c == v1.cursor);
        let text = string_of(&line);
        let (indent, marker) = list_prefix(text.as_str());
        let ind = chars_of(indent.as_str());
        let mk = chars_of(marker.as_str());
        let kept = crate::text::skip_ws_back(&line, 0, line.len());
        proof {
            lemma_list_parts_len(line@);
            assert(line@.subrange(0, line.len() as int) =~= line@);
        }
        let empty = mk.len() > 0 && kept == ind.len() + mk.len() - 1;
        if empty || c.col < line.len() {
            return true;
        }
        let dot_sp: Vec<char> = vec!['.', ' '];
        proof {
            reveal_strlit(". ");
            assert(dot_sp@ =~= ". "@);
            crate::wiki::lemma_find_pat(mk@, ". "@, 0);
        }
        let dot = find_pat_exec(&mk, &dot_sp);
        let head = slice(&mk, 0, dot);
        assert(head@ =~= mk@.take(dot as int));
        match parse_u64_exec(&head) {
            Some(n) => n != u64::MAX,
            None => true,
        }
    }
}

// ----- a row's styled runs ---------------------------------------------------------------

/// A stretch of a row's characters shown alike: with one mark, selected or not.
pub struct Run {
    pub text: String,
    pub mark: Mark,
    pub selected: bool,
}

pub open spec fn run_view(r: Run) -> (Seq<char>, Mark, bool) {
    (r.text@, r.mark, r.selected)
}

pub open spec fn runs_view(v: Seq<Run>) -> Seq<(Seq<char>, Mark, bool)> {
    v.map_values(|r: Run| run_view(r))
}

/// Position `p` lies in the selection `sel` (its start included, its end not).
pub open spec fn in_selection(sel: Option<(Pos, Pos)>, p: Pos) -> bool {
    match sel {
        Some((s, e)) => !pos_lt(p, s) && pos_lt(p, e),
        None => false,
    }
}

/// The runs of characters `start..k` of line `ln` (text `line`, marks `marks`): each character
/// joins the run before it when it looks the same (same mark, both selected or both not),
/// else starts a new one.
pub open spec fn runs_upto(
    line: Seq<char>,
    marks: Seq<Mark>,
    ln: int,
    start: int,
    sel: Option<(Pos, Pos)>,
    k: int,
) -> Seq<(Seq<char>, Mark, bool)>
    decreases k - start,
{
    if k <= start {
        seq![]
    } else {
        let prev = runs_upto(line, marks, ln, start, sel, k - 1);
        let mark = marks[k - 1];
        let selected = in_selection(sel, Pos { line: ln as usize, col: (k - 1) as usize });
        if prev.len() > 0 && prev.last().1 == mark && prev.last().2 == selected {
            prev.update(prev.len() - 1, (prev.last().0.push(line[k - 1]), mark, selected))
        } else {
            prev.push((seq![line[k - 1]], mark, selected))
        }
    }
}

/// The runs that show `row` of line `line`: its characters in runs, and, when the row ends the
/// line and the line break is selected, one selected space for it.
pub open spec fn row_runs_of(line: Seq<char>, marks: Seq<Mark>, row: Row, sel: Option<(Pos, Pos)>) -> Seq<
    (Seq<char>, Mark, bool),
> {
    let rs = runs_upto(line, marks, row.line as int, row.start as int, sel, row.end as int);
    if row.end == line.len() && in_selection(sel, Pos { line: row.line, col: line.len() as usize }) {
        rs.push((seq![' '], Mark::Plain, true))
    } else {
        rs
    }
}

/// The runs that show `row` of a line with characters `line` and marks `marks` (one per
/// character, as `markdown_styles` gives them), with the selection `sel`.
pub fn row_runs(line: &[char], marks: &[Mark], row: Row, sel: Option<(Pos, Pos)>) -> (r: Vec<Run>)
    requires
        row.start <= row.end <= line@.len(),
        marks@.len() == line@.len(),
    ensures
        runs_view(r@) == row_runs_of(line@, marks@, row, sel),
{
    let mut runs: Vec<(Vec<char>, Mark, bool)> = Vec::new();
    let mut k = row.start;
    while k < row.end
        invariant
            row.start <= k <= row.end,
            row.end <= line@.len(),
            marks@.len() == line@.len(),
            runs@.map_values(|t: (Vec<char>, Mark, bool)| (t.0@, t.1, t.2)) == runs_upto(
                line@,
                marks@,
                row.line as int,
                row.start as int,
                sel,
                k as int,
            ),
        decreases row.end - k,
    {
        let ghost prev = runs@.map_values(|t: (Vec<char>, Mark, bool)| (t.0@, t.1, t.2));
        let p = Pos { line: row.line, col: k };
        let selected = match sel {
            Some((s, e)) => !pos_before(p, s) && pos_before(p, e),
            None => false,
        };
        let mark = marks[k];
        let c = line[k];
        let n = runs.len();
        if n > 0 && runs[n - 1].1 == mark && runs[n - 1].2 == selected {
            let mut last = runs.pop().unwrap();
            last.0.push(c);
            runs.push(last);
        } else {
            let mut t: Vec<char> = Vec::new();
            t.push(c);
            runs.push((t, mark, selected));
        }
        proof {
            let now = runs@.map_values(|t: (Vec<char>, Mark, bool)| (t.0@, t.1, t.2));
            let want = runs_upto(line@, marks@, row.line as int, row.start as int, sel, k + 1);
            assert(now =~= want);
        }
        k = k + 1;
    }
    let mut out: Vec<Run> = Vec::new();
    let mut i: usize = 0;
    while i < runs.len()
        invariant
            0 <= i <= runs.len(),
            runs_view(out@) == runs@.map_values(|t: (Vec<char>, Mark, bool)| (t.0@, t.1, t.2)).take(i as int),
        decreases runs.len() - i,
    {
        let ghost before = runs_view(out@);
        let run = Run { text: string_of(&runs[i].0), mark: runs[i].1, selected: runs[i].2 };
        out.push(run);
        proof {
            assert(runs_view(out@) =~= before.push(run_view(run)));
            assert(runs@.map_values(|t: (Vec<char>, Mark, bool)| (t.0@, t.1, t.2)).take(i + 1) =~= runs@.map_values(
                |t: (Vec<char>, Mark, bool)| (t.0@, t.1, t.2),
            ).take(i as int).push(run_view(run)));
        }
        i = i + 1;
    }
    proof {
        assert(runs@.map_values(|t: (Vec<char>, Mark, bool)| (t.0@, t.1, t.2)).take(runs.len() as int) =~= runs@.map_values(
            |t: (Vec<char>, Mark, bool)| (t.0@, t.1, t.2),
        ));
    }
    let len = line.len();
    if row.end == len {
        let p = Pos { line: row.line, col: len };
        let selected = match sel {
            Some((s, e)) => !pos_before(p, s) && pos_before(p, e),
            None => false,
        };
        if selected {
            let ghost before = runs_view(out@);
            let mut sp: Vec<char> = Vec::new();
            sp.push(' ');
            let run = Run { text: string_of(&sp), mark: Mark::Plain, selected: true };
            out.push(run);
            proof {
                assert(sp@ =~= seq![' ']);
                assert(runs_view(out@) =~= before.push(run_view(run)));
            }
        }
    }
    out
}

/// The texts of runs `rs` one after another.
pub open spec fn joined_texts(rs: Seq<(Seq<char>, Mark, bool)>) -> Seq<char>
    decreases rs.len(),
{
    if rs.len() == 0 {
        seq![]
    } else {
        joined_texts(rs.drop_last()) + rs.last().0
    }
}

/// A row's runs show its characters in order, none left out or repeated; no run is empty;
/// and neighbouring runs look different (else they would be one).
pub proof fn a_row_shows_its_characters_in_runs(
    line: Seq<char>,
    marks: Seq<Mark>,
    ln: int,
    start: int,
    sel: Option<(Pos, Pos)>,
    k: int,
)
    requires
        0 <= start <= k <= line.len(),
        marks.len() == line.len(),
    ensures
        ({
            let rs = runs_upto(line, marks, ln, start, sel, k);
            &&& joined_texts(rs) == line.subrange(start, k)
            &&& forall|i: int| 0 <= i < rs.len() ==> (#[trigger] rs[i]).0.len() > 0
            &&& forall|i: int|
                0 <= i < rs.len() - 1 ==> ((#[trigger] rs[i]).1 != rs[i + 1].1 || rs[i].2 != rs[i + 1].2)
        }),
    decreases k - start,
{
    if k > start {
        a_row_shows_its_characters_in_runs(line, marks, ln, start, sel, k - 1);
        let prev = runs_upto(line, marks, ln, start, sel, k - 1);
        let rs = runs_upto(line, marks, ln, start, sel, k);
        let c = line[k - 1];
        assert(line.subrange(start, k) =~= line.subrange(start, k - 1).push(c));
        if prev.len() > 0 && rs.len() == prev.len() {
            assert(rs.drop_last() =~= prev.drop_last());
            assert(rs.last().0 == prev.last().0.push(c));
            assert(joined_texts(prev) == joined_texts(prev.drop_last()) + prev.last().0);
            assert(joined_texts(rs) =~= joined_texts(prev).push(c));
            assert forall|i: int| 0 <= i < rs.len() - 1 implies ((#[trigger] rs[i]).1 != rs[i + 1].1 || rs[i].2
                != rs[i + 1].2) by {
                assert(rs[i] == prev[i]);
                assert(rs[i + 1].1 == prev[i + 1].1 && rs[i + 1].2 == prev[i + 1].2);
            }
        } else {
            assert(rs == prev.push((seq![c], rs.last().1, rs.last().2)));
            assert(rs.drop_last() =~= prev);
            assert(joined_texts(rs) =~= joined_texts(prev).push(c));
            assert forall|i: int| 0 <= i < rs.len() - 1 implies ((#[trigger] rs[i]).1 != rs[i + 1].1 || rs[i].2
                != rs[i + 1].2) by {
                assert(rs[i] == prev[i]);
                if i + 1 < prev.len() {
                    assert(rs[i + 1] == prev[i + 1]);
                }
            }
        }
    } else {
        assert(line.subrange(start, k) =~= Seq::<char>::empty());
    }
}

/// A line of spaces, then `-`, `*` or `+` and a space, is a list item: its indentation is those
/// spaces, and its marker begins with that bullet and the space.
pub proof fn bullet_lines_are_list_items(spaces: Seq<char>, bullet: char, rest: Seq<char>)
    requires
        forall|i: int| 0 <= i < spaces.len() ==> spaces[i] == ' ',
        bullet == '-' || bullet == '*' || bullet == '+',
    ensures
        ({
            let (indent, marker) = list_parts(spaces + seq![bullet, ' '] + rest);
            &&& indent == spaces
            &&& marker.len() >= 2
            &&& marker.take(2) == seq![bullet, ' ']
        }),
{
    let line = spaces + seq![bullet, ' '] + rest;
    lemma_lead_spaces(line);
    let n = lead_spaces(line);
    if n < spaces.len() {
        assert(line[n] == spaces[n]);
    } else if n > spaces.len() {
        assert(line[spaces.len() as int] == bullet);
    }
    assert(n == spaces.len());
    let after = line.skip(n);
    assert(after =~= seq![bullet, ' '] + rest);
    reveal_strlit("- ");
    reveal_strlit("* ");
    reveal_strlit("+ ");
    assert(after.take(2) =~= seq![bullet, ' ']);
    if bullet == '-' {
        assert("- "@ =~= seq!['-', ' ']);
        assert(starts_with(after, "- "@));
    } else if bullet == '*' {
        assert("* "@ =~= seq!['*', ' ']);
        assert(starts_with(after, "* "@));
    } else {
        assert("+ "@ =~= seq!['+', ' ']);
        assert(starts_with(after, "+ "@));
    }
    assert(line.take(n) =~= spaces);
    let mk = after.take(2);
    let af = after.skip(2);
    assert((mk + af.take(4)).take(2) =~= mk);
}

} // verus!
