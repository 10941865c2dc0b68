//! diaBits: a small flowchart language rendered with box-drawing characters.
//!
//! ```text
//! diaType: flowchart
//! start(Start)
//! a[Go to the pet store]
//! b<Cats or dogs?>
//! c[Buy a cat], d[Buy a dog]
//! end(End)
//!
//! start --> a --> b
//! b --> c | Cats
//! b --> d | Dogs
//! c --> end
//! d --> end
//! ```
//!
//! Each line of shapes is a row of the diagram, top to bottom; shapes on one line share the
//! row. The fullest row sets the number of columns, each column is as wide as its widest
//! shape and every shape in it is centred in it; empty items (`,, z(End)`) place a shape in
//! the column of its slot, and a row of fewer shapes is centred as a whole. `id[label]` is a
//! box, `id(label)` a pill, `id<label>` a diamond. Lines are `-->`, `<--`, `<->` or `---`
//! between ids, chainable, with `| label` at the end.

use vstd::prelude::*;

use crate::text::{
    text_columns, text_width, trim_end, skip_ws_back, string_of,
    contains_seq, has_at, split_lines, chars_of, decimal_of, find_char, is_whitespace, lemma_find_from_is, push_all, push_str,
    skip_ws, trimmed, chars_eq, decimal, find_from, is_ws, lemma_find_from, lines_of, occurs, slice, trim,
    trim_all, trim_start, alphanumeric, is_alphanumeric, views, split_on, words, split_words, find_ws, lemma_find_ws, lemma_find_ws_is, lemma_trim_start_len,
};

verus! {

broadcast use vstd::string::group_string_axioms;

#[derive(Clone, Copy, Debug, PartialEq, Eq, Structural)]
pub enum Shape {
    Box,
    Pill,
    Diamond,
}

/// A shape as the source defines it.
pub struct NodeSpec {
    pub label: Seq<char>,
    pub shape: Shape,
    pub row: nat,
    /// How many items come before the shape on its line, empty ones included.
    pub slot: nat,
}

/// A line between two shapes as the source defines it.
pub struct EdgeSpec {
    pub from: nat,
    pub to: nat,
    pub arrow_from: bool,
    pub arrow_to: bool,
    pub label: Option<Seq<char>>,
}

/// What the source defines: shape ids and shapes in order, lines in order, and the rows as
/// lists of shape indices.
pub struct Parsed {
    pub ids: Seq<Seq<char>>,
    pub nodes: Seq<NodeSpec>,
    pub edges: Seq<EdgeSpec>,
    pub rows: Seq<Seq<nat>>,
    pub seen_type: bool,
}

/// The diagram a source defines, without the bookkeeping of parsing.
pub struct Dia {
    pub nodes: Seq<NodeSpec>,
    pub edges: Seq<EdgeSpec>,
    pub rows: Seq<Seq<nat>>,
}

pub open spec fn dia_of(p: Parsed) -> Dia {
    Dia { nodes: p.nodes, edges: p.edges, rows: p.rows }
}

/// Index of the first shape of row `r`.
pub open spec fn row_start(rows: Seq<Seq<nat>>, r: int) -> int
    decreases r,
{
    if r <= 0 {
        0
    } else {
        row_start(rows, r - 1) + rows[r - 1].len()
    }
}

/// Rows list the shapes in order of definition, each shape knows its row, and lines join
/// shapes that exist.
pub open spec fn dia_base(d: Dia) -> bool {
    &&& row_start(d.rows, d.rows.len() as int) == d.nodes.len()
    &&& forall|r: int, k: int|
        0 <= r < d.rows.len() && 0 <= k < d.rows[r].len() ==> #[trigger] d.rows[r][k]
            == row_start(d.rows, r) + k
    &&& forall|n: int|
        0 <= n < d.nodes.len() ==> {
            &&& (#[trigger] d.nodes[n]).row < d.rows.len()
            &&& row_start(d.rows, d.nodes[n].row as int) <= n
            &&& n < row_start(d.rows, d.nodes[n].row + 1int)
        }
    &&& forall|i: int|
        0 <= i < d.edges.len() ==> {
            &&& (#[trigger] d.edges[i]).from < d.nodes.len()
            &&& d.edges[i].to < d.nodes.len()
        }
}

pub open spec fn dia_wf(d: Dia) -> bool {
    &&& dia_base(d)
    &&& forall|r: int| 0 <= r < d.rows.len() ==> #[trigger] d.rows[r].len() > 0
}

pub proof fn lemma_row_start_push(rows: Seq<Seq<nat>>, x: Seq<nat>, r: int)
    requires
        0 <= r <= rows.len(),
    ensures
        row_start(rows.push(x), r) == row_start(rows, r),
    decreases r,
{
    if r > 0 {
        lemma_row_start_push(rows, x, r - 1);
    }
}

pub proof fn lemma_row_start_update_last(rows: Seq<Seq<nat>>, x: Seq<nat>, r: int)
    requires
        rows.len() > 0,
        0 <= r < rows.len(),
    ensures
        row_start(rows.update(rows.len() - 1, x), r) == row_start(rows, r),
    decreases r,
{
    if r > 0 {
        lemma_row_start_update_last(rows, x, r - 1);
    }
}

pub proof fn lemma_row_start_mono(rows: Seq<Seq<nat>>, a: int, b: int)
    requires
        0 <= a <= b <= rows.len(),
    ensures
        row_start(rows, a) <= row_start(rows, b),
    decreases b - a,
{
    if a < b {
        lemma_row_start_mono(rows, a, b - 1);
    }
}

pub proof fn lemma_open_row(d: Dia)
    requires
        dia_wf(d),
    ensures
        dia_base(Dia { rows: d.rows.push(seq![]), ..d }),
{
    let rows2 = d.rows.push(seq![]);
    assert forall|r: int| 0 <= r <= d.rows.len() implies row_start(rows2, r) == row_start(
        d.rows,
        r,
    ) by {
        lemma_row_start_push(d.rows, seq![], r);
    }
    assert(row_start(rows2, rows2.len() as int) == row_start(rows2, d.rows.len() as int)
        + rows2[d.rows.len() as int].len());
    assert(row_start(rows2, rows2.len() as int) == row_start(d.rows, d.rows.len() as int));
    assert forall|n: int| 0 <= n < d.nodes.len() implies {
        &&& (#[trigger] d.nodes[n]).row < rows2.len()
        &&& row_start(rows2, d.nodes[n].row as int) <= n
        &&& n < row_start(rows2, d.nodes[n].row + 1int)
    } by {
        assert(d.nodes[n].row + 1 <= d.rows.len());
    }
}

pub proof fn lemma_add_to_row(d: Dia, node: NodeSpec)
    requires
        d.rows.len() > 0,
        dia_base(d),
        node.row == d.rows.len() - 1,
    ensures
        dia_base(
            Dia {
                nodes: d.nodes.push(node),
                rows: d.rows.update(d.rows.len() - 1, d.rows.last().push(d.nodes.len())),
                ..d
            },
        ),
{
    let last = d.rows.len() - 1;
    let rows2 = d.rows.update(last, d.rows.last().push(d.nodes.len()));
    let nodes2 = d.nodes.push(node);
    assert forall|r: int| 0 <= r <= last implies row_start(rows2, r) == row_start(d.rows, r) by {
        if r < d.rows.len() {
            lemma_row_start_update_last(d.rows, d.rows.last().push(d.nodes.len()), r);
        }
    }
    assert(row_start(rows2, rows2.len() as int) == row_start(rows2, last) + rows2[last].len());
    assert(row_start(d.rows, d.rows.len() as int) == row_start(d.rows, last) + d.rows[last].len());
    assert(row_start(rows2, rows2.len() as int) == nodes2.len());
    assert forall|r: int, k: int|
        0 <= r < rows2.len() && 0 <= k < rows2[r].len() implies #[trigger] rows2[r][k]
            == row_start(rows2, r) + k by {
        if r < last {
            assert(rows2[r] == d.rows[r]);
        } else if k < d.rows.last().len() {
            assert(rows2[r][k] == d.rows[r][k]);
        }
    }
    assert forall|n: int| 0 <= n < nodes2.len() implies {
        &&& (#[trigger] nodes2[n]).row < rows2.len()
        &&& row_start(rows2, nodes2[n].row as int) <= n
        &&& n < row_start(rows2, nodes2[n].row + 1int)
    } by {
        if n < d.nodes.len() {
            assert(nodes2[n] == d.nodes[n]);
            if d.nodes[n].row < last {
                lemma_row_start_update_last(d.rows, d.rows.last().push(d.nodes.len()), d.nodes[n].row + 1int);
            }
        }
    }
    assert forall|i: int| 0 <= i < d.edges.len() implies {
        &&& (#[trigger] d.edges[i]).from < nodes2.len()
        &&& d.edges[i].to < nodes2.len()
    } by {}
}

pub open spec fn empty_parsed() -> Parsed {
    Parsed { ids: seq![], nodes: seq![], edges: seq![], rows: seq![], seen_type: false }
}

// ----- the grammar --------------------------------------------------------------------

/// `line {at}: {body}`
pub open spec fn at_msg(at: nat, body: Seq<char>) -> Seq<char> {
    "line "@ + decimal(at) + ": "@ + body
}

pub open spec fn quoted(s: Seq<char>) -> Seq<char> {
    "'"@ + s + "'"@
}

/// Arrow heads at the (from, to) ends for a line operator.
pub open spec fn op_arrows(op: Seq<char>) -> Option<(bool, bool)> {
    if op == "-->"@ {
        Some((false, true))
    } else if op == "<--"@ {
        Some((true, false))
    } else if op == "<->"@ {
        Some((true, true))
    } else if op == "---"@ {
        Some((false, false))
    } else {
        None
    }
}

/// Index of the shape named `id`, searching the ids from `i` on.
pub open spec fn find_id(ids: Seq<Seq<char>>, id: Seq<char>, i: int) -> Option<nat>
    decreases ids.len() - i,
{
    if i < 0 || i >= ids.len() {
        None
    } else if ids[i] == id {
        Some(i as nat)
    } else {
        find_id(ids, id, i + 1)
    }
}

pub open spec fn is_line_op_line(line: Seq<char>) -> bool {
    occurs(line, "-->"@) || occurs(line, "<--"@) || occurs(line, "<->"@) || occurs(line, "---"@)
}

pub open spec fn is_open_bracket(c: char) -> bool {
    c == '[' || c == '(' || c == '<'
}

/// Index of the first `[`, `(` or `<` in `s` from `i` on, or `s.len()`.
pub open spec fn find_open(s: Seq<char>, i: int) -> int
    decreases s.len() - i,
{
    if i >= s.len() {
        s.len() as int
    } else if is_open_bracket(s[i]) {
        i
    } else {
        find_open(s, i + 1)
    }
}

pub open spec fn id_char(c: char) -> bool {
    alphanumeric(c) || c == '_' || c == '-'
}

pub open spec fn shape_of_open(c: char) -> Shape {
    if c == '[' {
        Shape::Box
    } else if c == '(' {
        Shape::Pill
    } else {
        Shape::Diamond
    }
}

pub open spec fn close_of(shape: Shape) -> char {
    match shape {
        Shape::Box => ']',
        Shape::Pill => ')',
        Shape::Diamond => '>',
    }
}

/// `id[label]`, `id(label)` or `id<label>`: the id, the label as written, and the shape.
pub open spec fn parse_shape(item: Seq<char>) -> Option<(Seq<char>, Seq<char>, Shape)> {
    let open = find_open(item, 0);
    if open >= item.len() {
        None
    } else {
        let id = item.take(open);
        let shape = shape_of_open(item[open]);
        let body = item.skip(open + 1);
        if id.len() == 0 || !(forall|k: int| 0 <= k < id.len() ==> id_char(#[trigger] id[k])) {
            None
        } else if body.len() == 0 || body.last() != close_of(shape) {
            None
        } else if trim(body.drop_last()).len() == 0 {
            None
        } else {
            Some((id, body.drop_last(), shape))
        }
    }
}

pub open spec fn add_node(st: Parsed, id: Seq<char>, label: Seq<char>, shape: Shape, slot: nat) -> Parsed {
    Parsed {
        ids: st.ids.push(id),
        nodes: st.nodes.push(NodeSpec { label: trim(label), shape, row: st.rows.len(), slot }),
        ..st
    }
}

/// The shapes of one row, item by item; `row` holds the indices added so far and `k` counts
/// the items before `items`.
pub open spec fn add_shapes(st: Parsed, row: Seq<nat>, items: Seq<Seq<char>>, at: nat, k: nat) -> Result<
    (Parsed, Seq<nat>),
    Seq<char>,
>
    decreases items.len(),
{
    if items.len() == 0 {
        Ok((st, row))
    } else {
        let item = trim(items[0]);
        if item.len() == 0 {
            add_shapes(st, row, items.drop_first(), at, k + 1)
        } else {
            match parse_shape(item) {
                None => Err(
                    at_msg(at, quoted(item) + " is not id[label], id(label) or id<label>"@),
                ),
                Some((id, label, shape)) => {
                    if find_id(st.ids, id, 0) is Some {
                        Err(at_msg(at, quoted(id) + " is defined twice"@))
                    } else {
                        add_shapes(
                            add_node(st, id, label, shape, k),
                            row.push(st.nodes.len()),
                            items.drop_first(),
                            at,
                            k + 1,
                        )
                    }
                },
            }
        }
    }
}

/// A line of shapes: one new row.
pub open spec fn parse_shapes(st: Parsed, line: Seq<char>, at: nat) -> Result<Parsed, Seq<char>> {
    match add_shapes(st, seq![], split_on(line, ','), at, 0) {
        Err(e) => Err(e),
        Ok((st2, row)) => {
            if row.len() == 0 {
                Err(at_msg(at, "nothing defined"@))
            } else {
                Ok(Parsed { rows: st2.rows.push(row), ..st2 })
            }
        },
    }
}

/// The links of a chain from link `i` on.
pub open spec fn add_links(
    st: Parsed,
    tokens: Seq<Seq<char>>,
    i: nat,
    count: nat,
    label: Option<Seq<char>>,
    at: nat,
) -> Result<Parsed, Seq<char>>
    decreases count - i,
{
    if i >= count {
        Ok(st)
    } else {
        let op = tokens[2 * i + 1 as int];
        match op_arrows(op) {
            None => Err(at_msg(at, quoted(op) + " is not one of --> <-- <-> ---"@)),
            Some((arrow_from, arrow_to)) => {
                let from = tokens[(2 * i) as int];
                let to = tokens[2 * i + 2 as int];
                match find_id(st.ids, from, 0) {
                    None => Err(
                        at_msg(at, "no shape named "@ + quoted(from) + " (define it first)"@),
                    ),
                    Some(f) => match find_id(st.ids, to, 0) {
                        None => Err(
                            at_msg(at, "no shape named "@ + quoted(to) + " (define it first)"@),
                        ),
                        Some(t) => {
                            if f == t {
                                Err(at_msg(at, "a line from a shape to itself"@))
                            } else {
                                let edge = EdgeSpec {
                                    from: f,
                                    to: t,
                                    arrow_from,
                                    arrow_to,
                                    label: if i + 1 == count {
                                        label
                                    } else {
                                        None
                                    },
                                };
                                add_links(
                                    Parsed { edges: st.edges.push(edge), ..st },
                                    tokens,
                                    i + 1,
                                    count,
                                    label,
                                    at,
                                )
                            }
                        },
                    },
                }
            },
        }
    }
}

/// A line of links: `a --> b --> c | label`.
pub open spec fn parse_links(st: Parsed, line: Seq<char>, at: nat) -> Result<Parsed, Seq<char>> {
    let bar = find_from(line, '|', 0);
    let chain = line.take(bar);
    let label = if bar < line.len() {
        Some(trim(line.skip(bar + 1)))
    } else {
        None
    };
    let tokens = words(chain);
    if tokens.len() < 3 || tokens.len() % 2 == 0 {
        Err(at_msg(at, "expected 'id --> id' (chains allowed)"@))
    } else {
        add_links(st, tokens, 0, tokens.len() / 2, label, at)
    }
}

/// One trimmed line of the source.
pub open spec fn parse_line(st: Parsed, line: Seq<char>, at: nat) -> Result<Parsed, Seq<char>> {
    if line.len() == 0 {
        Ok(st)
    } else if "diaType:"@.is_prefix_of(line) {
        let kind = trim(line.skip("diaType:"@.len() as int));
        if st.seen_type {
            Err(at_msg(at, "diaType given twice"@))
        } else if kind != "flowchart"@ {
            Err(at_msg(at, "unknown diaType "@ + quoted(kind) + " (only flowchart for now)"@))
        } else {
            Ok(Parsed { seen_type: true, ..st })
        }
    } else if is_line_op_line(line) {
        parse_links(st, line, at)
    } else {
        parse_shapes(st, line, at)
    }
}

/// The lines from number `done + 1` on.
pub open spec fn parse_lines(st: Parsed, lines: Seq<Seq<char>>, done: nat) -> Result<
    Parsed,
    Seq<char>,
>
    decreases lines.len(),
{
    if lines.len() == 0 {
        Ok(st)
    } else {
        match parse_line(st, trim(lines[0]), done + 1) {
            Err(e) => Err(e),
            Ok(st2) => parse_lines(st2, lines.drop_first(), done + 1),
        }
    }
}

/// What a diaBits source defines, or the first problem in it.
pub open spec fn parse_source(source: Seq<char>) -> Result<Parsed, Seq<char>> {
    match parse_lines(empty_parsed(), lines_of(source), 0) {
        Err(e) => Err(e),
        Ok(st) => {
            if st.nodes.len() == 0 {
                Err("no shapes: add lines like id[label]"@)
            } else {
                Ok(st)
            }
        },
    }
}


// ----- parsing ------------------------------------------------------------------------

pub struct Node {
    pub label: Vec<char>,
    pub shape: Shape,
    pub row: usize,
    /// How many items come before the shape on its line, empty ones included.
    pub slot: usize,
    /// Left column and top row on the grid, and size.
    pub x: usize,
    pub y: usize,
    pub w: usize,
    pub h: usize,
}

pub struct Edge {
    pub from: usize,
    pub to: usize,
    pub arrow_from: bool,
    pub arrow_to: bool,
    pub label: Option<Vec<char>>,
}

pub struct Diagram {
    pub nodes: Vec<Node>,
    pub edges: Vec<Edge>,
    pub rows: Vec<Vec<usize>>,
}

pub open spec fn nats(v: Seq<usize>) -> Seq<nat> {
    v.map_values(|x: usize| x as nat)
}

pub open spec fn rows_view(r: Seq<Vec<usize>>) -> Seq<Seq<nat>> {
    r.map_values(|x: Vec<usize>| nats(x@))
}

pub open spec fn label_view(l: Option<Vec<char>>) -> Option<Seq<char>> {
    match l {
        Some(v) => Some(v@),
        None => None,
    }
}

impl Node {
    pub open spec fn spec(self) -> NodeSpec {
        NodeSpec { label: self.label@, shape: self.shape, row: self.row as nat, slot: self.slot as nat }
    }
}

impl Edge {
    pub open spec fn spec(self) -> EdgeSpec {
        EdgeSpec {
            from: self.from as nat,
            to: self.to as nat,
            arrow_from: self.arrow_from,
            arrow_to: self.arrow_to,
            label: label_view(self.label),
        }
    }
}

pub open spec fn nodes_view(v: Seq<Node>) -> Seq<NodeSpec> {
    v.map_values(|n: Node| n.spec())
}

pub open spec fn edges_view(v: Seq<Edge>) -> Seq<EdgeSpec> {
    v.map_values(|e: Edge| e.spec())
}

struct Parser {
    ids: Vec<Vec<char>>,
    nodes: Vec<Node>,
    edges: Vec<Edge>,
    rows: Vec<Vec<usize>>,
    seen_type: bool,
}

impl Parser {
    spec fn view(&self) -> Parsed {
        Parsed {
            ids: views(self.ids@),
            nodes: nodes_view(self.nodes@),
            edges: edges_view(self.edges@),
            rows: rows_view(self.rows@),
            seen_type: self.seen_type,
        }
    }

    spec fn dia(&self) -> Dia {
        Dia { nodes: self@.nodes, edges: self@.edges, rows: self@.rows }
    }

    spec fn wf(&self) -> bool {
        &&& self.ids@.len() == self.nodes@.len()
        &&& dia_wf(self.dia())
    }
}

pub proof fn lemma_find_id_skip(ids: Seq<Seq<char>>, id: Seq<char>, i: int)
    requires
        0 <= i <= ids.len(),
        forall|k: int| 0 <= k < i ==> ids[k] != id,
    ensures
        find_id(ids, id, 0) == find_id(ids, id, i),
    decreases i,
{
    if i > 0 {
        lemma_find_id_skip(ids, id, i - 1);
    }
}

pub proof fn lemma_find_id_found(ids: Seq<Seq<char>>, id: Seq<char>, i: int)
    requires
        0 <= i,
    ensures
        find_id(ids, id, i) matches Some(k) ==> i <= k < ids.len() && ids[k as int] == id,
    decreases ids.len() - i,
{
    if i < ids.len() && ids[i] != id {
        lemma_find_id_found(ids, id, i + 1);
    }
}

fn lookup(ids: &Vec<Vec<char>>, id: &Vec<char>) -> (r: Option<usize>)
    ensures
        r matches Some(i) ==> find_id(views(ids@), id@, 0) == Some(i as nat),
        r is None ==> find_id(views(ids@), id@, 0) is None,
        r matches Some(i) ==> i < ids.len(),
{
    let mut i: usize = 0;
    while i < ids.len()
        invariant
            0 <= i <= ids.len(),
            forall|k: int| 0 <= k < i ==> views(ids@)[k] != id@,
        decreases ids.len() - i,
    {
        if chars_eq(&ids[i], id) {
            proof {
                lemma_find_id_skip(views(ids@), id@, i as int);
            }
            return Some(i);
        }
        i = i + 1;
    }
    proof {
        lemma_find_id_skip(views(ids@), id@, i as int);
    }
    None
}

pub proof fn lemma_find_open(s: Seq<char>, i: int)
    requires
        0 <= i <= s.len(),
    ensures
        i <= find_open(s, i) <= s.len(),
        find_open(s, i) < s.len() ==> is_open_bracket(s[find_open(s, i)]),
        forall|k: int| i <= k < find_open(s, i) ==> !is_open_bracket(s[k]),
    decreases s.len() - i,
{
    if i < s.len() && !is_open_bracket(s[i]) {
        lemma_find_open(s, i + 1);
    }
}

pub proof fn lemma_find_open_is(s: Seq<char>, i: int, r: int)
    requires
        0 <= i <= r <= s.len(),
        r < s.len() ==> is_open_bracket(s[r]),
        forall|k: int| i <= k < r ==> !is_open_bracket(s[k]),
    ensures
        find_open(s, i) == r,
    decreases r - i,
{
    if i < r {
        lemma_find_open_is(s, i + 1, r);
    }
}

fn parse_shape_exec(item: &Vec<char>) -> (r: Option<(Vec<char>, Vec<char>, Shape)>)
    ensures
        match parse_shape(item@) {
            None => r is None,
            Some((id, label, shape)) => r matches Some((i2, l2, s2)) && i2@ == id && l2@ == label
                && s2 == shape,
        },
{
    let mut open: usize = 0;
    while open < item.len() && !(item[open] == '[' || item[open] == '(' || item[open] == '<')
        invariant
            0 <= open <= item.len(),
            forall|k: int| 0 <= k < open ==> !is_open_bracket(item@[k]),
        decreases item.len() - open,
    {
        open = open + 1;
    }
    proof {
        lemma_find_open_is(item@, 0, open as int);
    }
    if open >= item.len() {
        return None;
    }
    let id = slice(item, 0, open);
    assert(id@ =~= item@.take(open as int));
    if id.len() == 0 {
        return None;
    }
    let mut k: usize = 0;
    while k < id.len()
        invariant
            0 <= k <= id.len(),
            id@ == item@.take(open as int),
            open < item.len(),
            find_open(item@, 0) == open,
            forall|j: int| 0 <= j < k ==> id_char(#[trigger] id@[j]),
        decreases id.len() - k,
    {
        let c = id[k];
        if !(is_alphanumeric(c) || c == '_' || c == '-') {
            assert(!id_char(id@[k as int]));
            return None;
        }
        k = k + 1;
    }
    let o = item[open];
    let (close, shape) = if o == '[' {
        (']', Shape::Box)
    } else if o == '(' {
        (')', Shape::Pill)
    } else {
        ('>', Shape::Diamond)
    };
    assert(shape == shape_of_open(item@[open as int]));
    assert(close == close_of(shape));
    let body = slice(item, open + 1, item.len());
    assert(body@ =~= item@.skip(open + 1));
    if body.len() == 0 || body[body.len() - 1] != close {
        return None;
    }
    let label = slice(&body, 0, body.len() - 1);
    assert(label@ =~= body@.drop_last());
    let t = trim_all(&label);
    if t.len() == 0 {
        return None;
    }
    Some((id, label, shape))
}


fn at_message(at: usize, body: Vec<char>) -> (r: Vec<char>)
    ensures
        r@ == at_msg(at as nat, body@),
{
    let mut m = chars_of("line ");
    let d = decimal_of(at as u64);
    push_all(&mut m, &d);
    push_str(&mut m, ": ");
    push_all(&mut m, &body);
    m
}

fn quote(s: &Vec<char>) -> (r: Vec<char>)
    ensures
        r@ == quoted(s@),
{
    let mut m = chars_of("'");
    push_all(&mut m, s);
    push_str(&mut m, "'");
    m
}

impl Parser {
    fn new() -> (p: Parser)
        ensures
            p@ == empty_parsed(),
            p.wf(),
    {
        let p = Parser {
            ids: Vec::new(),
            nodes: Vec::new(),
            edges: Vec::new(),
            rows: Vec::new(),
            seen_type: false,
        };
        assert(p@.ids =~= Seq::<Seq<char>>::empty());
        assert(p@.nodes =~= Seq::<NodeSpec>::empty());
        assert(p@.edges =~= Seq::<EdgeSpec>::empty());
        assert(p@.rows =~= Seq::<Seq<nat>>::empty());
        p
    }

    /// A line of shapes.
    fn shapes_line(&mut self, line: &Vec<char>, at: usize) -> (r: Result<(), Vec<char>>)
        requires
            old(self).wf(),
        ensures
            r is Ok ==> final(self).wf(),
            match parse_shapes(old(self)@, line@, at as nat) {
                Ok(st) => r is Ok && final(self)@ == st,
                Err(e) => r matches Err(m) && m@ == e,
            },
    {
        let mut row: Vec<usize> = Vec::new();
        let mut start: usize = 0;
        let mut k: usize = 0;
        let ghost mut kg: nat = 0;
        let ghost mut rem = split_on(line@, ',');
        proof {
            assert(line@.skip(0) =~= line@);
            assert(nats(row@) =~= Seq::<nat>::empty());
            lemma_open_row(self.dia());
        }
        loop
            invariant_except_break
                start <= line.len(),
                k <= start,
                k == kg,
                rem == split_on(line@.skip(start as int), ','),
            invariant
                self.ids@.len() == self.nodes@.len(),
                dia_base(
                    Dia { nodes: self@.nodes, edges: self@.edges, rows: self@.rows.push(nats(row@)) },
                ),
                forall|r: int| 0 <= r < self@.rows.len() ==> #[trigger] self@.rows[r].len() > 0,
                self.rows@ == old(self).rows@,
                self.edges@ == old(self).edges@,
                self.seen_type == old(self).seen_type,
                add_shapes(old(self)@, seq![], split_on(line@, ','), at as nat, 0) == add_shapes(
                    self@,
                    nats(row@),
                    rem,
                    at as nat,
                    kg,
                ),
            ensures
                rem.len() == 0,
            decreases line.len() - start,
        {
            let ghost rest = line@.skip(start as int);
            let ghost st = self@;
            let ghost rowv = nats(row@);
            let i = find_char(line, ',', start);
            proof {
                lemma_find_from_is(rest, ',', 0, i - start);
                if i < line.len() {
                    assert(rest.take(i - start) =~= line@.subrange(start as int, i as int));
                    assert(rest.skip(i - start + 1) =~= line@.skip(i + 1));
                    assert(rem.drop_first() =~= split_on(line@.skip(i + 1), ','));
                } else {
                    assert(rest =~= line@.subrange(start as int, i as int));
                    assert(rem.drop_first() =~= Seq::<Seq<char>>::empty());
                }
                assert(rem[0] == line@.subrange(start as int, i as int));
            }
            let item = trimmed(line, start, i);
            if item.len() > 0 {
                match parse_shape_exec(&item) {
                    None => {
                        let mut body = quote(&item);
                        push_str(&mut body, " is not id[label], id(label) or id<label>");
                        return Err(at_message(at, body));
                    },
                    Some((id, label, shape)) => {
                        if lookup(&self.ids, &id).is_some() {
                            let mut body = quote(&id);
                            push_str(&mut body, " is defined twice");
                            return Err(at_message(at, body));
                        }
                        let index = self.nodes.len();
                        let tl = trim_all(&label);
                        let node = Node {
                            label: tl,
                            shape,
                            row: self.rows.len(),
                            slot: k,
                            x: 0,
                            y: 0,
                            w: 0,
                            h: 0,
                        };
                        let ghost dd = Dia {
                            nodes: st.nodes,
                            edges: st.edges,
                            rows: st.rows.push(rowv),
                        };
                        proof {
                            lemma_add_to_row(dd, node.spec());
                        }
                        self.ids.push(id);
                        self.nodes.push(node);
                        row.push(index);
                        proof {
                            assert(nats(row@) =~= rowv.push(index as nat));
                            assert(dd.rows.update(dd.rows.len() - 1, dd.rows.last().push(
                                dd.nodes.len(),
                            )) =~= self@.rows.push(nats(row@)));
                            assert(self@.ids =~= st.ids.push(id@));
                            assert(self@.nodes =~= st.nodes.push(
                                NodeSpec { label: trim(label@), shape, row: st.rows.len(), slot: k as nat },
                            ));
                            assert(self@ == add_node(st, id@, label@, shape, k as nat));
                            assert(nats(row@) =~= rowv.push(index as nat));
                        }
                    },
                }
            }
            proof {
                rem = rem.drop_first();
                kg = kg + 1;
            }
            if i >= line.len() {
                break;
            }
            start = i + 1;
            k = k + 1;
        }
        // Every piece is consumed; what remains is the empty piece after the last comma or
        // nothing at all.
        if row.len() == 0 {
            return Err(at_message(at, chars_of("nothing defined")));
        }
        let ghost st = self@;
        self.rows.push(row);
        proof {
            assert(self@.rows =~= st.rows.push(nats(row@)));
            assert forall|r: int| 0 <= r < self@.rows.len() implies #[trigger] self@.rows[r].len()
                > 0 by {
                if r < st.rows.len() {
                    assert(self@.rows[r] == st.rows[r]);
                }
            }
        }
        Ok(())
    }
}


fn op_arrows_exec(op: &Vec<char>) -> (r: Option<(bool, bool)>)
    ensures
        r == op_arrows(op@),
{
    if chars_eq(op, &chars_of("-->")) {
        Some((false, true))
    } else if chars_eq(op, &chars_of("<--")) {
        Some((true, false))
    } else if chars_eq(op, &chars_of("<->")) {
        Some((true, true))
    } else if chars_eq(op, &chars_of("---")) {
        Some((false, false))
    } else {
        None
    }
}

fn copy_label(l: &Option<Vec<char>>) -> (r: Option<Vec<char>>)
    ensures
        label_view(r) == label_view(*l),
{
    match l {
        Some(v) => Some(slice(v, 0, v.len())),
        None => None,
    }
}

impl Parser {
    /// A line of links.
    fn links_line(&mut self, line: &Vec<char>, at: usize) -> (r: Result<(), Vec<char>>)
        requires
            old(self).wf(),
        ensures
            final(self).wf(),
            match parse_links(old(self)@, line@, at as nat) {
                Ok(st) => r is Ok && final(self)@ == st,
                Err(e) => r matches Err(m) && m@ == e,
            },
    {
        let bar = find_char(line, '|', 0);
        let label = if bar < line.len() {
            Some(trimmed(line, bar + 1, line.len()))
        } else {
            None
        };
        proof {
            if bar < line.len() {
                assert(line@.subrange(bar + 1, line.len() as int) =~= line@.skip(bar + 1));
            }
            assert(line@.subrange(0, bar as int) =~= line@.take(bar as int));
        }
        let tokens = split_words(line, 0, bar);
        if tokens.len() < 3 || tokens.len() % 2 == 0 {
            return Err(at_message(at, chars_of("expected 'id --> id' (chains allowed)")));
        }
        let count = tokens.len() / 2;
        let ghost tv = views(tokens@);
        let mut i: usize = 0;
        while i < count
            invariant
                self.wf(),
                count == tokens.len() / 2,
                tokens.len() % 2 == 1,
                tv == views(tokens@),
                0 <= i <= count,
                self.ids@ == old(self).ids@,
                self.nodes@ == old(self).nodes@,
                self.rows@ == old(self).rows@,
                self.seen_type == old(self).seen_type,
                parse_links(old(self)@, line@, at as nat) == add_links(
                    self@,
                    tv,
                    i as nat,
                    count as nat,
                    label_view(label),
                    at as nat,
                ),
            decreases count - i,
        {
            let ghost st = self@;
            let op = &tokens[2 * i + 1];
            let arrows = op_arrows_exec(op);
            match arrows {
                None => {
                    let mut body = quote(op);
                    push_str(&mut body, " is not one of --> <-- <-> ---");
                    return Err(at_message(at, body));
                },
                Some((arrow_from, arrow_to)) => {
                    let from = lookup(&self.ids, &tokens[2 * i]);
                    let f = match from {
                        None => {
                            let mut body = chars_of("no shape named ");
                            push_all(&mut body, &quote(&tokens[2 * i]));
                            push_str(&mut body, " (define it first)");
                            return Err(at_message(at, body));
                        },
                        Some(f) => f,
                    };
                    let to = lookup(&self.ids, &tokens[2 * i + 2]);
                    let t = match to {
                        None => {
                            let mut body = chars_of("no shape named ");
                            push_all(&mut body, &quote(&tokens[2 * i + 2]));
                            push_str(&mut body, " (define it first)");
                            return Err(at_message(at, body));
                        },
                        Some(t) => t,
                    };
                    if f == t {
                        return Err(at_message(at, chars_of("a line from a shape to itself")));
                    }
                    let edge_label = if i + 1 == count {
                        copy_label(&label)
                    } else {
                        None
                    };
                    let edge = Edge { from: f, to: t, arrow_from, arrow_to, label: edge_label };
                    self.edges.push(edge);
                    proof {
                        assert(self@.edges =~= st.edges.push(edge.spec()));
                    }
                },
            }
            i = i + 1;
        }
        Ok(())
    }

    /// One trimmed line of the source, number `at`.
    fn line(&mut self, line: &Vec<char>, at: usize) -> (r: Result<(), Vec<char>>)
        requires
            old(self).wf(),
        ensures
            r is Ok ==> final(self).wf(),
            match parse_line(old(self)@, line@, at as nat) {
                Ok(st) => r is Ok && final(self)@ == st,
                Err(e) => r matches Err(m) && m@ == e,
            },
    {
        if line.len() == 0 {
            return Ok(());
        }
        let prefix = chars_of("diaType:");
        if has_at(line, 0, &prefix) {
            proof {
                assert(prefix@.is_prefix_of(line@));
                assert(line@.subrange(prefix@.len() as int, line@.len() as int) =~= line@.skip(
                    "diaType:"@.len() as int,
                ));
            }
            let kind = trimmed(line, prefix.len(), line.len());
            if self.seen_type {
                return Err(at_message(at, chars_of("diaType given twice")));
            }
            if !chars_eq(&kind, &chars_of("flowchart")) {
                let mut body = chars_of("unknown diaType ");
                push_all(&mut body, &quote(&kind));
                push_str(&mut body, " (only flowchart for now)");
                return Err(at_message(at, body));
            }
            self.seen_type = true;
            return Ok(());
        }
        proof {
            if "diaType:"@.is_prefix_of(line@) {
                assert(line@.subrange(0, prefix@.len() as int) =~= prefix@);
            }
        }
        if contains_seq(line, &chars_of("-->")) || contains_seq(line, &chars_of("<--"))
            || contains_seq(line, &chars_of("<->")) || contains_seq(line, &chars_of("---")) {
            self.links_line(line, at)
        } else {
            self.shapes_line(line, at)
        }
    }
}

/// Parses a diaBits source into its diagram, or the first problem with it.
fn parse(source: &Vec<char>) -> (r: Result<Diagram, Vec<char>>)
    ensures
        match parse_source(source@) {
            Ok(st) => r matches Ok(d) && nodes_view(d.nodes@) == st.nodes && edges_view(
                d.edges@,
            ) == st.edges && rows_view(d.rows@) == st.rows && d.wf(),
            Err(e) => r matches Err(m) && m@ == e,
        },
{
    let lines = split_lines(source);
    let ghost all = views(lines@);
    let mut p = Parser::new();
    let mut k: usize = 0;
    assert(all.skip(0) =~= all);
    while k < lines.len()
        invariant
            p.wf(),
            all == views(lines@),
            all == lines_of(source@),
            0 <= k <= lines.len(),
            parse_lines(empty_parsed(), all, 0) == parse_lines(p@, all.skip(k as int), k as nat),
        decreases lines.len() - k,
    {
        let line = trim_all(&lines[k]);
        let ghost before = p@;
        proof {
            assert(all.skip(k as int)[0] == lines@[k as int]@);
            assert(all.skip(k as int).drop_first() =~= all.skip(k + 1));
        }
        match p.line(&line, k + 1) {
            Err(m) => {
                return Err(m);
            },
            Ok(()) => {},
        }
        k = k + 1;
    }
    if p.nodes.len() == 0 {
        return Err(chars_of("no shapes: add lines like id[label]"));
    }
    Ok(Diagram { nodes: p.nodes, edges: p.edges, rows: p.rows })
}

impl Diagram {
    pub open spec fn dia(&self) -> Dia {
        Dia {
            nodes: nodes_view(self.nodes@),
            edges: edges_view(self.edges@),
            rows: rows_view(self.rows@),
        }
    }

    pub open spec fn wf(&self) -> bool {
        dia_wf(self.dia())
    }
}


// ----- layout -------------------------------------------------------------------------

/// Columns between shapes on the same row.
pub const ROW_GAP: usize = 4;

/// The largest label width and item count that drawing handles: 2^13 where `usize` has 32 bits
/// and 2^28 where it has 64, so that every coordinate and every sum of widths the drawing
/// computes fits a `usize`.
pub open spec fn lim() -> int {
    if usize::MAX == 0xffff_ffff {
        0x2000
    } else {
        0x1000_0000
    }
}

/// `lim()` on this machine.
pub fn limit() -> (r: usize)
    ensures
        r as int == lim(),
{
    if usize::MAX == 0xffff_ffff {
        0x2000
    } else {
        0x1000_0000
    }
}

/// The products of `lim()` that bound the drawing.
pub proof fn lemma_lim()
    ensures
        max_col() == lim() * (lim() + 10),
        ymax() == lim() * (lim() + 6),
{
    if usize::MAX == 0xffff_ffff {
        assert(lim() * (lim() + 10) == 0x2000 * 0x200a) by (nonlinear_arith)
            requires lim() == 0x2000;
        assert(lim() * (lim() + 6) == 0x2000 * 0x2006) by (nonlinear_arith)
            requires lim() == 0x2000;
    } else {
        assert(lim() * (lim() + 10) == 0x1000_0000 * 0x1000_000a) by (nonlinear_arith)
            requires lim() == 0x1000_0000;
        assert(lim() * (lim() + 6) == 0x1000_0000 * 0x1000_0006) by (nonlinear_arith)
            requires lim() == 0x1000_0000;
    }
}

pub open spec fn shape_extra(s: Shape) -> int {
    match s {
        Shape::Diamond => 6,
        _ => 4,
    }
}

/// Width of shape `n`: its label and the frame around it.
pub open spec fn node_w(d: Dia, n: int) -> int {
    text_columns(d.nodes[n].label) as int + shape_extra(d.nodes[n].shape)
}

/// How many columns the first `k` shapes need: one past the rightmost slot among them.
pub open spec fn ncols_upto(d: Dia, k: int) -> int
    decreases k,
{
    if k <= 0 {
        0
    } else {
        let m = ncols_upto(d, k - 1);
        let s = d.nodes[k - 1].slot + 1int;
        if s > m {
            s
        } else {
            m
        }
    }
}

/// The number of columns: the fullest row sets it, and a shape placed by an empty slot
/// further right widens it.
pub open spec fn ncols(d: Dia) -> int {
    ncols_upto(d, d.nodes.len() as int)
}

/// Row `r` places its shapes by their slots: an empty item comes before one of them, so its
/// last shape does not sit at its own position.
pub open spec fn row_explicit(d: Dia, r: int) -> bool {
    d.nodes[d.rows[r].last() as int].slot + 1 != d.rows[r].len()
}

/// Row `r` keeps to the columns: it places its shapes by their slots, or it is as full as the
/// fullest row.
pub open spec fn in_columns(d: Dia, r: int) -> bool {
    row_explicit(d, r) || d.rows[r].len() == ncols(d)
}

/// Shape `n` stands in a column.
pub open spec fn placed(d: Dia, n: int) -> bool {
    in_columns(d, d.nodes[n].row as int)
}

/// The column of shape `n` when it stands in one: its slot in a row placed by slots, else its
/// place in the row.
pub open spec fn col_of(d: Dia, n: int) -> int {
    let r = d.nodes[n].row as int;
    if row_explicit(d, r) {
        d.nodes[n].slot as int
    } else {
        n - row_start(d.rows, r)
    }
}

/// The widest of the first `k` shapes standing in column `c`, or 0.
pub open spec fn colw_upto(d: Dia, c: int, k: int) -> int
    decreases k,
{
    if k <= 0 {
        0
    } else {
        let m = colw_upto(d, c, k - 1);
        if placed(d, k - 1) && col_of(d, k - 1) == c && node_w(d, k - 1) > m {
            node_w(d, k - 1)
        } else {
            m
        }
    }
}

/// Width of column `c`: its widest shape.
pub open spec fn col_w(d: Dia, c: int) -> int {
    colw_upto(d, c, d.nodes.len() as int)
}

/// Left edge of column `c` within the columns: the columns before it with `ROW_GAP` columns
/// after each.
pub open spec fn col_x(d: Dia, c: int) -> int
    decreases c,
{
    if c <= 0 {
        0
    } else {
        col_x(d, c - 1) + col_w(d, c - 1) + 4
    }
}

/// Width of all the columns with the gaps between them.
pub open spec fn cols_width(d: Dia) -> int {
    if ncols(d) > 0 {
        col_x(d, ncols(d)) - 4
    } else {
        0
    }
}

/// The first `j` shapes of row `r` side by side, each followed by `ROW_GAP` columns.
pub open spec fn row_w_upto(d: Dia, r: int, j: int) -> int
    decreases j,
{
    if j <= 0 {
        0
    } else {
        row_w_upto(d, r, j - 1) + node_w(d, d.rows[r][j - 1] as int) + 4
    }
}

/// Width of row `r`: its shapes with `ROW_GAP` columns between neighbours.
pub open spec fn row_w(d: Dia, r: int) -> int {
    row_w_upto(d, r, d.rows[r].len() as int) - 4
}

/// The widest of the first `k` rows that do not keep to the columns, or 0.
pub open spec fn free_w_upto(d: Dia, k: int) -> int
    decreases k,
{
    if k <= 0 {
        0
    } else {
        let m = free_w_upto(d, k - 1);
        if !in_columns(d, k - 1) && row_w(d, k - 1) > m {
            row_w(d, k - 1)
        } else {
            m
        }
    }
}

/// Width of the drawing's shapes: the columns, or a wider row of fewer shapes.
pub open spec fn content_width(d: Dia) -> int {
    let f = free_w_upto(d, d.rows.len() as int);
    if cols_width(d) >= f {
        cols_width(d)
    } else {
        f
    }
}

/// Left edge of the columns: they are centred in the drawing.
pub open spec fn cols_left(d: Dia) -> int {
    (content_width(d) - cols_width(d)) / 2
}

/// Left column of shape `n`: centred in its column; in a row of fewer shapes, the row is
/// centred as a whole.
pub open spec fn node_x(d: Dia, n: int) -> int {
    let r = d.nodes[n].row as int;
    if in_columns(d, r) {
        let c = col_of(d, n);
        cols_left(d) + col_x(d, c) + (col_w(d, c) - node_w(d, n)) / 2
    } else {
        (content_width(d) - row_w(d, r)) / 2 + row_w_upto(d, r, n - row_start(d.rows, r))
    }
}

/// The column a line leaves or enters shape `n` at.
pub open spec fn center(d: Dia, n: int) -> int {
    node_x(d, n) + node_w(d, n) / 2
}

/// Drawing handles the diagram: few enough shapes and lines, and labels narrow enough.
pub open spec fn small(d: Dia) -> bool {
    &&& d.nodes.len() <= lim()
    &&& d.edges.len() <= lim()
    &&& forall|n: int| 0 <= n < d.nodes.len() ==> text_columns((#[trigger] d.nodes[n]).label) <= lim()
    &&& forall|n: int| 0 <= n < d.nodes.len() ==> (#[trigger] d.nodes[n]).label.len() <= lim()
    &&& forall|n: int| 0 <= n < d.nodes.len() ==> (#[trigger] d.nodes[n]).slot < lim()
    &&& forall|e: int|
        0 <= e < d.edges.len() ==> ((#[trigger] d.edges[e]).label matches Some(l) ==> {
            &&& text_columns(l) <= lim()
            &&& l.len() <= lim()
        })
}

pub proof fn lemma_ncols(d: Dia, k: int)
    requires
        0 <= k <= d.nodes.len(),
    ensures
        ncols_upto(d, k) >= 0,
        forall|n: int| 0 <= n < k ==> #[trigger] d.nodes[n].slot + 1 <= ncols_upto(d, k),
        (forall|n: int| 0 <= n < d.nodes.len() ==> #[trigger] d.nodes[n].slot < lim()) ==> ncols_upto(d, k) <= lim(),
    decreases k,
{
    if k > 0 {
        lemma_ncols(d, k - 1);
    }
}

pub proof fn lemma_colw(d: Dia, c: int, k: int)
    requires
        0 <= k <= d.nodes.len(),
    ensures
        colw_upto(d, c, k) >= 0,
        forall|n: int| 0 <= n < k && placed(d, n) && col_of(d, n) == c ==> #[trigger] node_w(d, n) <= colw_upto(
            d,
            c,
            k,
        ),
        (forall|n: int| 0 <= n < d.nodes.len() ==> #[trigger] node_w(d, n) <= lim() + 6) ==> colw_upto(d, c, k)
            <= lim() + 6,
        colw_upto(d, c, k) > 0 ==> exists|n: int|
            0 <= n < k && placed(d, n) && col_of(d, n) == c && #[trigger] node_w(d, n) == colw_upto(d, c, k),
    decreases k,
{
    if k > 0 {
        lemma_colw(d, c, k - 1);
        if colw_upto(d, c, k) > 0 && colw_upto(d, c, k) == colw_upto(d, c, k - 1) {
            let n = choose|n: int|
                0 <= n < k - 1 && placed(d, n) && col_of(d, n) == c && #[trigger] node_w(d, n) == colw_upto(
                    d,
                    c,
                    k - 1,
                );
            assert(node_w(d, n) == colw_upto(d, c, k));
        }
    }
}

/// Columns follow each other left to right.
pub proof fn lemma_col_x(d: Dia, a: int, b: int)
    requires
        0 <= a < b,
    ensures
        col_x(d, a) + col_w(d, a) + 4 <= col_x(d, b),
        col_x(d, a) >= 0,
    decreases b - a,
{
    lemma_colw(d, a, d.nodes.len() as int);
    if a > 0 {
        lemma_col_x_nonneg(d, a);
    }
    if b > a + 1 {
        lemma_col_x(d, a, b - 1);
        lemma_colw(d, b - 1, d.nodes.len() as int);
    }
}

pub proof fn lemma_col_x_nonneg(d: Dia, c: int)
    ensures
        col_x(d, c) >= 0,
    decreases c,
{
    if c > 0 {
        lemma_col_x_nonneg(d, c - 1);
        lemma_colw(d, c - 1, d.nodes.len() as int);
    }
}

/// A shape standing in a column stands in one of the diagram's columns.
pub proof fn lemma_col_of(d: Dia, n: int)
    requires
        dia_wf(d),
        0 <= n < d.nodes.len(),
        placed(d, n),
    ensures
        0 <= col_of(d, n) < ncols(d),
{
    lemma_ncols(d, d.nodes.len() as int);
    let r = d.nodes[n].row as int;
    lemma_row_entries(d, r);
}

/// The shapes a row lists know it as their row.
pub proof fn lemma_node_row(d: Dia, r: int, i: int)
    requires
        dia_wf(d),
        0 <= r < d.rows.len(),
        0 <= i < d.rows[r].len(),
    ensures
        d.rows[r][i] == row_start(d.rows, r) + i,
        d.nodes[d.rows[r][i] as int].row == r,
{
    lemma_row_entries(d, r);
    let n = d.rows[r][i] as int;
    let q = d.nodes[n].row as int;
    if q < r {
        lemma_row_start_mono(d.rows, q + 1, r);
    } else if q > r {
        lemma_row_start_mono(d.rows, r + 1, q);
    }
}

/// Widths of the first shapes of a row: each shape adds its width and a gap.
pub proof fn lemma_row_w(d: Dia, r: int, j: int)
    requires
        dia_wf(d),
        0 <= r < d.rows.len(),
        0 <= j <= d.rows[r].len(),
    ensures
        row_w_upto(d, r, j) >= 8 * j,
        forall|i: int| 0 <= i <= j ==> #[trigger] row_w_upto(d, r, i) <= row_w_upto(d, r, j),
        (forall|n: int| 0 <= n < d.nodes.len() ==> #[trigger] node_w(d, n) <= lim() + 6) ==> row_w_upto(d, r, j)
            <= j * (lim() + 10),
    decreases j,
{
    lemma_row_entries(d, r);
    if j > 0 {
        lemma_row_w(d, r, j - 1);
        let n = d.rows[r][j - 1] as int;
        assert(node_w(d, n) >= 4);
        if forall|n: int| 0 <= n < d.nodes.len() ==> #[trigger] node_w(d, n) <= lim() + 6 {
            assert(node_w(d, n) <= lim() + 6);
            assert(row_w_upto(d, r, j) <= j * (lim() + 10)) by (nonlinear_arith)
                requires
                    row_w_upto(d, r, j) == row_w_upto(d, r, j - 1) + node_w(d, n) + 4,
                    row_w_upto(d, r, j - 1) <= (j - 1) * (lim() + 10),
                    node_w(d, n) <= lim() + 6,
            ;
        }
    }
}

/// The widest row of fewer shapes is at least as wide as each of them.
pub proof fn lemma_free_w(d: Dia, k: int)
    requires
        0 <= k <= d.rows.len(),
    ensures
        free_w_upto(d, k) >= 0,
        forall|r: int| 0 <= r < k && !in_columns(d, r) ==> #[trigger] row_w(d, r) <= free_w_upto(d, k),
        free_w_upto(d, k) == 0 || exists|r: int| 0 <= r < k && !in_columns(d, r) && #[trigger] row_w(d, r) == free_w_upto(d, k),
    decreases k,
{
    if k > 0 {
        lemma_free_w(d, k - 1);
    }
}

pub proof fn lemma_row_entries(d: Dia, r: int)
    requires
        dia_base(d),
        0 <= r < d.rows.len(),
    ensures
        forall|k: int| 0 <= k < d.rows[r].len() ==> #[trigger] d.rows[r][k] < d.nodes.len(),
        row_start(d.rows, r) + d.rows[r].len() <= d.nodes.len(),
        d.rows[r].len() <= d.nodes.len(),
{
    lemma_row_start_mono(d.rows, r + 1, d.rows.len() as int);
    lemma_row_start_mono(d.rows, 0, r);
}

pub struct Geom {
    pub x: usize,
    pub y: usize,
    pub w: usize,
    pub h: usize,
}

/// Widths of all shapes.
fn node_widths(d: &Diagram) -> (ws: Vec<usize>)
    requires
        d.wf(),
        small(d.dia()),
    ensures
        ws.len() == d.nodes.len(),
        forall|n: int| 0 <= n < ws.len() ==> ws@[n] as int == node_w(d.dia(), n),
        forall|n: int| 0 <= n < ws.len() ==> ws@[n] <= lim() + 6,
{
    let mut ws: Vec<usize> = Vec::new();
    let mut n: usize = 0;
    while n < d.nodes.len()
        invariant
            small(d.dia()),
            0 <= n <= d.nodes.len(),
            ws.len() == n,
            forall|k: int| 0 <= k < n ==> ws@[k] as int == node_w(d.dia(), k),
            forall|k: int| 0 <= k < n ==> ws@[k] <= lim() + 6,
        decreases d.nodes.len() - n,
    {
        let lw = text_width(&d.nodes[n].label);
        assert(d.dia().nodes[n as int].label == d.nodes@[n as int].label@);
        assert(lw <= lim());
        let w = match d.nodes[n].shape {
            Shape::Diamond => lw + 6,
            _ => lw + 4,
        };
        ws.push(w);
        n = n + 1;
    }
    ws
}

/// The first `j` shapes of row `r` side by side, each followed by `ROW_GAP` columns.
fn row_prefix(d: &Diagram, ws: &Vec<usize>, r: usize, j: usize) -> (w: usize)
    requires
        d.wf(),
        small(d.dia()),
        r < d.rows.len(),
        j <= d.rows@[r as int].len(),
        ws.len() == d.nodes.len(),
        forall|n: int| 0 <= n < ws.len() ==> ws@[n] as int == node_w(d.dia(), n),
        forall|n: int| 0 <= n < ws.len() ==> ws@[n] <= lim() + 6,
    ensures
        w as int == row_w_upto(d.dia(), r as int, j as int),
        w <= j * (lim() + 10),
{
    let ghost dd = d.dia();
    proof {
        lemma_row_entries(dd, r as int);
    }
    assert(dd.rows[r as int] == nats(d.rows@[r as int]@));
    assert(j <= lim());
    let row = &d.rows[r];
    let mut w: usize = 0;
    let mut t: usize = 0;
    while t < j
        invariant
            dd == d.dia(),
            dia_wf(dd),
            r < dd.rows.len(),
            j <= row.len(),
            j <= lim(),
            row@ == d.rows@[r as int]@,
            dd.rows[r as int] == nats(row@),
            forall|k: int| 0 <= k < dd.rows[r as int].len() ==> #[trigger] dd.rows[r as int][k] < dd.nodes.len(),
            ws.len() == dd.nodes.len(),
            forall|n: int| 0 <= n < ws.len() ==> ws@[n] as int == node_w(dd, n),
            forall|n: int| 0 <= n < ws.len() ==> ws@[n] <= lim() + 6,
            0 <= t <= j,
            w as int == row_w_upto(dd, r as int, t as int),
            w <= t * (lim() + 10),
        decreases j - t,
    {
        let n = row[t];
        assert(dd.rows[r as int][t as int] == n);
        proof {
            lemma_lim();
        }
        assert(w + ws[n as int] + 4 <= max_col()) by (nonlinear_arith)
            requires
                w <= t * (lim() + 10),
                ws[n as int] <= lim() + 6,
                t < lim(),
                max_col() == lim() * (lim() + 10),
        ;
        let ghost w0 = w;
        let ghost t0 = t;
        let ghost v = ws[n as int];
        w = w + ws[n] + 4;
        t = t + 1;
        assert(w <= t * (lim() + 10)) by (nonlinear_arith)
            requires
                w0 <= t0 * (lim() + 10),
                v <= lim() + 6,
                w == w0 + v + 4,
                t == t0 + 1,
        ;
    }
    w
}

/// Left columns of all shapes, and the width of the drawing's shapes.
fn node_xs(d: &Diagram, ws: &Vec<usize>) -> (r: (Vec<usize>, usize))
    requires
        d.wf(),
        d.rows.len() > 0,
        small(d.dia()),
        ws.len() == d.nodes.len(),
        forall|n: int| 0 <= n < ws.len() ==> ws@[n] as int == node_w(d.dia(), n),
        forall|n: int| 0 <= n < ws.len() ==> ws@[n] <= lim() + 6,
    ensures
        r.0.len() == d.nodes.len(),
        r.1 as int == content_width(d.dia()),
        r.1 <= max_col(),
        forall|n: int| 0 <= n < r.0.len() ==> r.0@[n] as int == node_x(d.dia(), n),
        forall|n: int| 0 <= n < r.0.len() ==> r.0@[n] + ws@[n] <= r.1,
{
    let ghost dd = d.dia();
    assert(forall|n: int| 0 <= n < d.nodes.len() ==> #[trigger] dd.nodes[n] == d.nodes@[n].spec());
    // The number of columns.
    let mut nc: usize = 0;
    let mut n: usize = 0;
    while n < d.nodes.len()
        invariant
            dd == d.dia(),
            small(dd),
            0 <= n <= d.nodes.len(),
            nc as int == ncols_upto(dd, n as int),
            nc <= lim(),
        decreases d.nodes.len() - n,
    {
        assert(dd.nodes[n as int].slot == d.nodes@[n as int].slot);
        if d.nodes[n].slot + 1 > nc {
            nc = d.nodes[n].slot + 1;
        }
        n = n + 1;
    }
    proof {
        lemma_ncols(dd, dd.nodes.len() as int);
    }
    // Whether each row keeps to the columns.
    let mut keeps: Vec<bool> = Vec::new();
    let mut r: usize = 0;
    while r < d.rows.len()
        invariant
            dd == d.dia(),
            d.wf(),
            nc as int == ncols(dd),
            small(dd),
            0 <= r <= d.rows.len(),
            keeps.len() == r,
            forall|k: int| 0 <= k < r ==> #[trigger] keeps@[k] == in_columns(dd, k),
        decreases d.rows.len() - r,
    {
        proof {
            lemma_row_entries(dd, r as int);
        }
        let row = &d.rows[r];
        assert(dd.rows[r as int] == nats(row@));
        let len = row.len();
        let last = row[len - 1];
        assert(dd.rows[r as int].last() == last);
        assert(dd.nodes[last as int].slot == d.nodes@[last as int].slot);
        keeps.push(d.nodes[last].slot + 1 != len || len == nc);
        r = r + 1;
    }
    // The column of each shape that stands in one.
    let mut cols: Vec<usize> = Vec::new();
    let mut n: usize = 0;
    while n < d.nodes.len()
        invariant
            dd == d.dia(),
            d.wf(),
            small(dd),
            nc as int == ncols(dd),
            nc <= lim(),
            keeps.len() == d.rows.len(),
            forall|k: int| 0 <= k < d.rows.len() ==> #[trigger] keeps@[k] == in_columns(dd, k),
            0 <= n <= d.nodes.len(),
            cols.len() == n,
            forall|k: int| 0 <= k < n ==> #[trigger] cols@[k] as int == col_of(dd, k),
            forall|k: int| 0 <= k < n && placed(dd, k) ==> #[trigger] cols@[k] < nc,
        decreases d.nodes.len() - n,
    {
        let r = d.nodes[n].row;
        assert(dd.nodes[n as int].row == r);
        proof {
            lemma_row_entries(dd, r as int);
            if placed(dd, n as int) {
                lemma_col_of(dd, n as int);
            }
        }
        let row = &d.rows[r];
        assert(dd.rows[r as int] == nats(row@));
        let len = row.len();
        let last = row[len - 1];
        assert(dd.rows[r as int].last() == last);
        assert(dd.rows[r as int][0] == row_start(dd.rows, r as int));
        assert(dd.nodes[last as int].slot == d.nodes@[last as int].slot);
        assert(dd.nodes[n as int].slot == d.nodes@[n as int].slot);
        let c = if d.nodes[last].slot + 1 != len {
            d.nodes[n].slot
        } else {
            n - row[0]
        };
        cols.push(c);
        n = n + 1;
    }
    // The width of each column.
    let mut colw: Vec<usize> = Vec::new();
    let mut c: usize = 0;
    while c < nc
        invariant
            0 <= c <= nc,
            colw.len() == c,
            forall|j: int| 0 <= j < c ==> #[trigger] colw@[j] == 0,
        decreases nc - c,
    {
        colw.push(0);
        c = c + 1;
    }
    let mut n: usize = 0;
    while n < d.nodes.len()
        invariant
            dd == d.dia(),
            d.wf(),
            nc as int == ncols(dd),
            ws.len() == d.nodes.len(),
            forall|k: int| 0 <= k < ws.len() ==> ws@[k] as int == node_w(dd, k),
            forall|k: int| 0 <= k < ws.len() ==> ws@[k] <= lim() + 6,
            keeps.len() == d.rows.len(),
            forall|k: int| 0 <= k < d.rows.len() ==> #[trigger] keeps@[k] == in_columns(dd, k),
            cols.len() == d.nodes.len(),
            forall|k: int| 0 <= k < d.nodes.len() ==> #[trigger] cols@[k] as int == col_of(dd, k),
            forall|k: int| 0 <= k < d.nodes.len() && placed(dd, k) ==> #[trigger] cols@[k] < nc,
            0 <= n <= d.nodes.len(),
            colw.len() == nc,
            forall|j: int| 0 <= j < nc ==> #[trigger] colw@[j] as int == colw_upto(dd, j, n as int),
        decreases d.nodes.len() - n,
    {
        let ghost before = colw@;
        assert(dd.nodes[n as int].row == d.nodes@[n as int].row);
        let keep = keeps[d.nodes[n].row];
        assert(keep == placed(dd, n as int));
        if keep {
            let c = cols[n];
            if ws[n] > colw[c] {
                colw.set(c, ws[n]);
            }
            assert forall|j: int| 0 <= j < nc implies #[trigger] colw@[j] as int == colw_upto(dd, j, n + 1) by {
                if j != c as int {
                    assert(colw@[j] == before[j]);
                }
            }
        } else {
            assert forall|j: int| 0 <= j < nc implies #[trigger] colw@[j] as int == colw_upto(dd, j, n + 1) by {
                assert(colw@[j] == before[j]);
            }
        }
        n = n + 1;
    }
    proof {
        assert forall|j: int| 0 <= j < nc implies #[trigger] colw@[j] <= lim() + 6 by {
            lemma_colw(dd, j, dd.nodes.len() as int);
        }
    }
    // Left edges of the columns.
    let mut colx: Vec<usize> = Vec::new();
    let mut x: usize = 0;
    let mut c: usize = 0;
    while c < nc
        invariant
            dd == d.dia(),
            nc as int == ncols(dd),
            nc <= lim(),
            colw.len() == nc,
            forall|j: int| 0 <= j < nc ==> #[trigger] colw@[j] as int == col_w(dd, j),
            forall|j: int| 0 <= j < nc ==> #[trigger] colw@[j] <= lim() + 6,
            0 <= c <= nc,
            colx.len() == c,
            forall|j: int| 0 <= j < c ==> #[trigger] colx@[j] as int == col_x(dd, j),
            x as int == col_x(dd, c as int),
            x <= c * (lim() + 10),
        decreases nc - c,
    {
        colx.push(x);
        proof {
            lemma_lim();
        }
        assert(x + colw[c as int] + 4 <= max_col()) by (nonlinear_arith)
            requires
                x <= c * (lim() + 10),
                colw[c as int] <= lim() + 6,
                c < lim(),
                max_col() == lim() * (lim() + 10),
        ;
        let ghost x0 = x;
        let ghost c0 = c;
        let ghost w0 = colw[c as int];
        x = x + colw[c] + 4;
        c = c + 1;
        assert(x <= c * (lim() + 10)) by (nonlinear_arith)
            requires
                x0 <= c0 * (lim() + 10),
                w0 <= lim() + 6,
                x == x0 + w0 + 4,
                c == c0 + 1,
        ;
    }
    assert(nc >= 1) by {
        lemma_row_entries(dd, 0);
        lemma_ncols(dd, dd.nodes.len() as int);
        assert(dd.rows[0].len() > 0);
        assert(dd.rows[0][0] == 0);
        assert(dd.nodes[0].slot + 1 <= ncols(dd));
    }
    proof {
        lemma_col_x(dd, 0, nc as int);
        lemma_colw(dd, 0, dd.nodes.len() as int);
    }
    proof {
        lemma_lim();
    }
    assert(x <= max_col()) by (nonlinear_arith)
        requires
            x <= nc * (lim() + 10),
            nc <= lim(),
            max_col() == lim() * (lim() + 10),
    ;
    let total = x - 4;
    assert(total as int == cols_width(dd));
    // Widths of the rows, and the widest row of fewer shapes.
    let mut rws: Vec<usize> = Vec::new();
    let mut free: usize = 0;
    let mut r: usize = 0;
    proof {
        lemma_rows_le_nodes(dd, dd.rows.len() as int);
    }
    while r < d.rows.len()
        invariant
            dd == d.dia(),
            d.wf(),
            small(dd),
            d.rows.len() <= lim(),
            ws.len() == d.nodes.len(),
            forall|k: int| 0 <= k < ws.len() ==> ws@[k] as int == node_w(dd, k),
            forall|k: int| 0 <= k < ws.len() ==> ws@[k] <= lim() + 6,
            keeps.len() == d.rows.len(),
            forall|k: int| 0 <= k < d.rows.len() ==> #[trigger] keeps@[k] == in_columns(dd, k),
            0 <= r <= d.rows.len(),
            rws.len() == r,
            forall|k: int| 0 <= k < r ==> #[trigger] rws@[k] as int == row_w(dd, k),
            forall|k: int| 0 <= k < r ==> #[trigger] rws@[k] <= max_col(),
            free as int == free_w_upto(dd, r as int),
            free <= max_col(),
        decreases d.rows.len() - r,
    {
        proof {
            lemma_row_entries(dd, r as int);
            lemma_row_w(dd, r as int, dd.rows[r as int].len() as int);
        }
        let len = d.rows[r].len();
        assert(dd.rows[r as int].len() == len);
        assert(len <= lim());
        let w = row_prefix(d, ws, r, len);
        proof {
            lemma_lim();
        }
        assert(w <= max_col()) by (nonlinear_arith)
            requires
                w <= len * (lim() + 10),
                len <= lim(),
                max_col() == lim() * (lim() + 10),
        ;
        let rw = w - 4;
        rws.push(rw);
        if !keeps[r] && rw > free {
            free = rw;
        }
        r = r + 1;
    }
    let content = if total >= free {
        total
    } else {
        free
    };
    assert(content as int == content_width(dd));
    let left = (content - total) / 2;
    assert(left as int == cols_left(dd));
    proof {
        lemma_free_w(dd, dd.rows.len() as int);
    }
    // Left columns of the shapes.
    let mut xs: Vec<usize> = Vec::new();
    let mut n: usize = 0;
    while n < d.nodes.len()
        invariant
            dd == d.dia(),
            d.wf(),
            small(dd),
            nc as int == ncols(dd),
            nc >= 1,
            ws.len() == d.nodes.len(),
            forall|k: int| 0 <= k < ws.len() ==> ws@[k] as int == node_w(dd, k),
            forall|k: int| 0 <= k < ws.len() ==> ws@[k] <= lim() + 6,
            keeps.len() == d.rows.len(),
            forall|k: int| 0 <= k < d.rows.len() ==> #[trigger] keeps@[k] == in_columns(dd, k),
            cols.len() == d.nodes.len(),
            forall|k: int| 0 <= k < d.nodes.len() ==> #[trigger] cols@[k] as int == col_of(dd, k),
            forall|k: int| 0 <= k < d.nodes.len() && placed(dd, k) ==> #[trigger] cols@[k] < nc,
            colw.len() == nc,
            forall|j: int| 0 <= j < nc ==> #[trigger] colw@[j] as int == col_w(dd, j),
            colx.len() == nc,
            forall|j: int| 0 <= j < nc ==> #[trigger] colx@[j] as int == col_x(dd, j),
            total as int == cols_width(dd),
            total as int == col_x(dd, nc as int) - 4,
            rws.len() == d.rows.len(),
            forall|k: int| 0 <= k < d.rows.len() ==> #[trigger] rws@[k] as int == row_w(dd, k),
            forall|r: int| 0 <= r < dd.rows.len() && !in_columns(dd, r) ==> #[trigger] row_w(dd, r) <= content,
            content as int == content_width(dd),
            total <= content,
            left as int == cols_left(dd),
            left + total <= content,
            0 <= n <= d.nodes.len(),
            xs.len() == n,
            forall|k: int| 0 <= k < n ==> xs@[k] as int == node_x(dd, k),
            forall|k: int| 0 <= k < n ==> xs@[k] + ws@[k] <= content,
        decreases d.nodes.len() - n,
    {
        let r = d.nodes[n].row;
        assert(dd.nodes[n as int].row == r);
        proof {
            lemma_row_entries(dd, r as int);
        }
        let xn = if keeps[r] {
            let c = cols[n];
            proof {
                lemma_colw(dd, c as int, dd.nodes.len() as int);
                lemma_col_x(dd, c as int, nc as int);
                lemma_col_x_nonneg(dd, c as int);
                assert(node_w(dd, n as int) <= col_w(dd, c as int));
                assert(ws@[n as int] <= colw@[c as int]);
                assert(colx@[c as int] + colw@[c as int] + 4 <= col_x(dd, nc as int));
            }
            left + colx[c] + (colw[c] - ws[n]) / 2
        } else {
            let row = &d.rows[r];
            assert(dd.rows[r as int] == nats(row@));
            assert(dd.rows[r as int][0] == row_start(dd.rows, r as int));
            let i = n - row[0];
            proof {
                lemma_row_w(dd, r as int, dd.rows[r as int].len() as int);
                lemma_row_w(dd, r as int, i + 1);
                assert(dd.rows[r as int][i as int] == n);
                assert(row_w(dd, r as int) <= content);
            }
            let before = row_prefix(d, ws, r, i);
            (content - rws[r]) / 2 + before
        };
        xs.push(xn);
        n = n + 1;
    }
    (xs, content)
}


// ----- the lines between two rows -----------------------------------------------------

/// The two ends of line `e` ordered top row first, with whether each end gets an arrow head.
pub open spec fn vertical(d: Dia, e: int) -> (nat, nat, bool, bool) {
    let ed = d.edges[e];
    if d.nodes[ed.from as int].row <= d.nodes[ed.to as int].row {
        (ed.from, ed.to, ed.arrow_from, ed.arrow_to)
    } else {
        (ed.to, ed.from, ed.arrow_to, ed.arrow_from)
    }
}

pub open spec fn upper(d: Dia, e: int) -> int {
    vertical(d, e).0 as int
}

pub open spec fn lower(d: Dia, e: int) -> int {
    vertical(d, e).1 as int
}

/// Line `e` joins row `r` to row `r + 1`.
pub open spec fn in_region(d: Dia, r: int, e: int) -> bool {
    d.nodes[upper(d, e)].row == r && d.nodes[lower(d, e)].row == r + 1
}

pub open spec fn region_edges_upto(d: Dia, r: int, k: int) -> Seq<nat>
    decreases k,
{
    if k <= 0 {
        seq![]
    } else {
        let rest = region_edges_upto(d, r, k - 1);
        if in_region(d, r, k - 1) {
            rest.push((k - 1) as nat)
        } else {
            rest
        }
    }
}

/// The lines between row `r` and row `r + 1`, in order.
pub open spec fn region_edges(d: Dia, r: int) -> Seq<nat> {
    region_edges_upto(d, r, d.edges.len() as int)
}

/// Representatives after line `e` joins its two ends: the upper end's group takes the
/// lower end's representative.
pub open spec fn join(d: Dia, c: Seq<nat>, e: int) -> Seq<nat> {
    let ru = c[upper(d, e)];
    let rl = c[lower(d, e)];
    if ru == rl {
        c
    } else {
        Seq::new(c.len(), |n: int| if c[n] == ru { rl } else { c[n] })
    }
}

pub open spec fn reps_upto(d: Dia, es: Seq<nat>, k: int) -> Seq<nat>
    decreases k,
{
    if k <= 0 {
        Seq::new(d.nodes.len(), |n: int| n as nat)
    } else {
        join(d, reps_upto(d, es, k - 1), es[k - 1] as int)
    }
}

/// The representative of each shape once the lines of region `r` joined their ends, so that
/// lines fanning out and merging fall into one group.
pub open spec fn reps(d: Dia, r: int) -> Seq<nat> {
    let es = region_edges(d, r);
    reps_upto(d, es, es.len() as int)
}

pub open spec fn group_upto(d: Dia, es: Seq<nat>, c: Seq<nat>, root: nat, k: int) -> Seq<nat>
    decreases k,
{
    if k <= 0 {
        seq![]
    } else {
        let g = group_upto(d, es, c, root, k - 1);
        if c[upper(d, es[k - 1] as int)] == root {
            g.push(es[k - 1])
        } else {
            g
        }
    }
}

pub open spec fn groups_upto(d: Dia, es: Seq<nat>, c: Seq<nat>, k: int) -> Seq<Seq<nat>>
    decreases k,
{
    if k <= 0 {
        seq![]
    } else {
        let gs = groups_upto(d, es, c, k - 1);
        let g = group_upto(d, es, c, (k - 1) as nat, es.len() as int);
        if g.len() > 0 {
            gs.push(g)
        } else {
            gs
        }
    }
}

/// The groups of lines of region `r`, by increasing representative.
pub open spec fn groups(d: Dia, r: int) -> Seq<Seq<nat>> {
    groups_upto(d, region_edges(d, r), reps(d, r), d.nodes.len() as int)
}

/// A lone line whose ends line up is drawn straight down.
pub open spec fn is_direct(d: Dia, g: Seq<nat>) -> bool {
    g.len() == 1 && center(d, upper(d, g[0] as int)) == center(d, lower(d, g[0] as int))
}

pub open spec fn direct_upto(d: Dia, gs: Seq<Seq<nat>>, k: int) -> Seq<nat>
    decreases k,
{
    if k <= 0 {
        seq![]
    } else {
        let ds = direct_upto(d, gs, k - 1);
        if is_direct(d, gs[k - 1]) {
            ds.push(gs[k - 1][0])
        } else {
            ds
        }
    }
}

/// A bus: a horizontal line between two rows joining upper shapes to lower shapes.
pub struct BusSpec {
    pub uppers: Seq<nat>,
    pub lowers: Seq<nat>,
    pub edges: Seq<nat>,
}

/// The distinct upper (or lower) ends of the first `k` lines of `g`, in order.
pub open spec fn ends_upto(d: Dia, g: Seq<nat>, k: int, up: bool) -> Seq<nat>
    decreases k,
{
    if k <= 0 {
        seq![]
    } else {
        let s = ends_upto(d, g, k - 1, up);
        let n = if up {
            upper(d, g[k - 1] as int)
        } else {
            lower(d, g[k - 1] as int)
        };
        if s.contains(n as nat) {
            s
        } else {
            s.push(n as nat)
        }
    }
}

pub open spec fn bus_of(d: Dia, g: Seq<nat>) -> BusSpec {
    BusSpec {
        uppers: ends_upto(d, g, g.len() as int, true),
        lowers: ends_upto(d, g, g.len() as int, false),
        edges: g,
    }
}

pub open spec fn buses_upto(d: Dia, gs: Seq<Seq<nat>>, k: int) -> Seq<BusSpec>
    decreases k,
{
    if k <= 0 {
        seq![]
    } else {
        let bs = buses_upto(d, gs, k - 1);
        if is_direct(d, gs[k - 1]) {
            bs
        } else {
            bs.push(bus_of(d, gs[k - 1]))
        }
    }
}

pub open spec fn min_center(d: Dia, s: Seq<nat>) -> int
    decreases s.len(),
{
    if s.len() == 0 {
        0
    } else if s.len() == 1 {
        center(d, s[0] as int)
    } else {
        let m = min_center(d, s.drop_last());
        let c = center(d, s.last() as int);
        if c < m {
            c
        } else {
            m
        }
    }
}

pub open spec fn max_center(d: Dia, s: Seq<nat>) -> int
    decreases s.len(),
{
    if s.len() == 0 {
        0
    } else if s.len() == 1 {
        center(d, s[0] as int)
    } else {
        let m = max_center(d, s.drop_last());
        let c = center(d, s.last() as int);
        if c > m {
            c
        } else {
            m
        }
    }
}

/// Leftmost and rightmost columns a bus touches.
pub open spec fn span_lo(d: Dia, b: BusSpec) -> int {
    min_center(d, b.uppers + b.lowers)
}

pub open spec fn span_hi(d: Dia, b: BusSpec) -> int {
    max_center(d, b.uppers + b.lowers)
}

/// `b` placed after every bus that starts at or left of it (a stable sort by start).
pub open spec fn ins(d: Dia, sorted: Seq<BusSpec>, b: BusSpec) -> Seq<BusSpec>
    decreases sorted.len(),
{
    if sorted.len() == 0 || span_lo(d, sorted.last()) <= span_lo(d, b) {
        sorted.push(b)
    } else {
        ins(d, sorted.drop_last(), b).push(sorted.last())
    }
}

pub open spec fn sorted_upto(d: Dia, bs: Seq<BusSpec>, k: int) -> Seq<BusSpec>
    decreases k,
{
    if k <= 0 {
        seq![]
    } else {
        ins(d, sorted_upto(d, bs, k - 1), bs[k - 1])
    }
}

/// The buses of region `r`, by where they start.
pub open spec fn buses(d: Dia, r: int) -> Seq<BusSpec> {
    let gs = groups(d, r);
    let bs = buses_upto(d, gs, gs.len() as int);
    sorted_upto(d, bs, bs.len() as int)
}

pub open spec fn directs(d: Dia, r: int) -> Seq<nat> {
    let gs = groups(d, r);
    direct_upto(d, gs, gs.len() as int)
}

/// A bus already placed on bus row `l` overlaps or touches `lo..=hi`.
pub open spec fn conflict(placed: Seq<(int, int, int)>, l: int, lo: int, hi: int) -> bool {
    exists|i: int|
        0 <= i < placed.len() && (#[trigger] placed[i]).0 == l && lo <= placed[i].2 + 1 && placed[i].1
            <= hi + 1
}

/// The first bus row from `l` on that is free over `lo..=hi`.
pub open spec fn first_free(placed: Seq<(int, int, int)>, lo: int, hi: int, l: int) -> int
    decreases placed.len() - l,
{
    if l < placed.len() && conflict(placed, l, lo, hi) {
        first_free(placed, lo, hi, l + 1)
    } else {
        l
    }
}

/// Bus rows and spans of the first `k` buses, each on the first row free for it.
pub open spec fn placed_upto(d: Dia, bs: Seq<BusSpec>, k: int) -> Seq<(int, int, int)>
    decreases k,
{
    if k <= 0 {
        seq![]
    } else {
        let p = placed_upto(d, bs, k - 1);
        let lo = span_lo(d, bs[k - 1]);
        let hi = span_hi(d, bs[k - 1]);
        p.push((first_free(p, lo, hi, 0), lo, hi))
    }
}

pub open spec fn levels_upto(d: Dia, bs: Seq<BusSpec>, k: int) -> int
    decreases k,
{
    if k <= 0 {
        0
    } else {
        let m = levels_upto(d, bs, k - 1);
        let l = placed_upto(d, bs, k)[k - 1].0 + 1;
        if l > m {
            l
        } else {
            m
        }
    }
}

/// Bus rows region `r` needs.
pub open spec fn levels(d: Dia, r: int) -> int {
    let bs = buses(d, r);
    levels_upto(d, bs, bs.len() as int)
}

/// The bus row of the `k`th bus of region `r`.
pub open spec fn bus_level(d: Dia, r: int, k: int) -> int {
    let bs = buses(d, r);
    placed_upto(d, bs, bs.len() as int)[k].0
}

pub open spec fn labelled(d: Dia, r: int) -> bool {
    exists|i: int|
        0 <= i < region_edges(d, r).len() && (#[trigger] d.edges[region_edges(d, r)[i] as int]).label
            is Some
}

pub open spec fn two_way(d: Dia, r: int) -> bool {
    exists|i: int|
        0 <= i < region_edges(d, r).len() && vertical(d, #[trigger] region_edges(d, r)[i] as int).2
}

/// Rows between row `r` and row `r + 1`: exit, bus rows, entry and arrow; direct unlabelled
/// lines need only the exit and arrow rows, and an upward arrow head needs its own row.
pub open spec fn region_height(d: Dia, r: int) -> int {
    let lv = levels(d, r);
    let h = if lv > 0 || labelled(d, r) {
        lv + 3
    } else {
        2
    };
    if two_way(d, r) && h < 3 {
        3
    } else {
        h
    }
}


fn vertical_exec(d: &Diagram, e: usize) -> (r: (usize, usize, bool, bool))
    requires
        d.wf(),
        e < d.edges.len(),
    ensures
        (r.0 as nat, r.1 as nat, r.2, r.3) == vertical(d.dia(), e as int),
        r.0 < d.nodes.len(),
        r.1 < d.nodes.len(),
{
    let ed = &d.edges[e];
    let ghost dd = d.dia();
    assert(dd.edges[e as int] == ed.spec());
    assert(dd.nodes[ed.from as int].row == d.nodes@[ed.from as int].row);
    assert(dd.nodes[ed.to as int].row == d.nodes@[ed.to as int].row);
    if d.nodes[ed.from].row <= d.nodes[ed.to].row {
        (ed.from, ed.to, ed.arrow_from, ed.arrow_to)
    } else {
        (ed.to, ed.from, ed.arrow_to, ed.arrow_from)
    }
}

/// The lines between row `r` and row `r + 1`.
fn region_edges_exec(d: &Diagram, r: usize) -> (es: Vec<usize>)
    requires
        d.wf(),
        r < d.rows.len(),
    ensures
        nats(es@) == region_edges(d.dia(), r as int),
        forall|i: int| 0 <= i < es.len() ==> #[trigger] es@[i] < d.edges.len(),
        es.len() <= d.edges.len(),
{
    let ghost dd = d.dia();
    let mut es: Vec<usize> = Vec::new();
    let mut e: usize = 0;
    while e < d.edges.len()
        invariant
            dd == d.dia(),
            d.wf(),
            r < d.rows.len(),
            0 <= e <= d.edges.len(),
            nats(es@) == region_edges_upto(dd, r as int, e as int),
            forall|i: int| 0 <= i < es.len() ==> #[trigger] es@[i] < d.edges.len(),
            es.len() <= e,
        decreases d.edges.len() - e,
    {
        let (u, l, _, _) = vertical_exec(d, e);
        assert(dd.nodes[u as int].row == d.nodes@[u as int].row);
        assert(dd.nodes[l as int].row == d.nodes@[l as int].row);
        if d.nodes[u].row == r && d.nodes[l].row == r + 1 {
            es.push(e);
            assert(nats(es@) =~= region_edges_upto(dd, r as int, e as int).push(e as nat));
        }
        e = e + 1;
    }
    es
}

/// Representatives of the shapes once the lines `es` joined their ends.
fn reps_exec(d: &Diagram, es: &Vec<usize>) -> (c: Vec<usize>)
    requires
        d.wf(),
        forall|i: int| 0 <= i < es.len() ==> #[trigger] es@[i] < d.edges.len(),
    ensures
        nats(c@) == reps_upto(d.dia(), nats(es@), es.len() as int),
        c.len() == d.nodes.len(),
        forall|n: int| 0 <= n < c.len() ==> #[trigger] c@[n] < d.nodes.len(),
{
    let ghost dd = d.dia();
    let ghost esv = nats(es@);
    let mut c: Vec<usize> = Vec::new();
    let mut n: usize = 0;
    while n < d.nodes.len()
        invariant
            0 <= n <= d.nodes.len(),
            c.len() == n,
            forall|k: int| 0 <= k < n ==> #[trigger] c@[k] == k,
        decreases d.nodes.len() - n,
    {
        c.push(n);
        n = n + 1;
    }
    assert(nats(c@) =~= reps_upto(dd, esv, 0));
    let mut i: usize = 0;
    while i < es.len()
        invariant
            dd == d.dia(),
            d.wf(),
            esv == nats(es@),
            forall|k: int| 0 <= k < es.len() ==> #[trigger] es@[k] < d.edges.len(),
            0 <= i <= es.len(),
            c.len() == d.nodes.len(),
            forall|k: int| 0 <= k < c.len() ==> #[trigger] c@[k] < d.nodes.len(),
            nats(c@) == reps_upto(dd, esv, i as int),
        decreases es.len() - i,
    {
        let (u, l, _, _) = vertical_exec(d, es[i]);
        let ru = c[u];
        let rl = c[l];
        let ghost old_c = nats(c@);
        if ru != rl {
            let mut m: usize = 0;
            while m < c.len()
                invariant
                    c.len() == d.nodes.len(),
                    old_c.len() == c.len(),
                    0 <= m <= c.len(),
                    rl < d.nodes.len(),
                    ru != rl,
                    forall|k: int| 0 <= k < c.len() ==> #[trigger] c@[k] < d.nodes.len(),
                    forall|k: int|
                        0 <= k < m ==> #[trigger] c@[k] as nat == (if old_c[k] == ru as nat {
                            rl as nat
                        } else {
                            old_c[k]
                        }),
                    forall|k: int| m <= k < c.len() ==> #[trigger] c@[k] as nat == old_c[k],
                decreases c.len() - m,
            {
                if c[m] == ru {
                    c.set(m, rl);
                }
                m = m + 1;
            }
        }
        proof {
            assert(esv[i as int] == es@[i as int]);
            assert(nats(c@) =~= join(dd, old_c, es@[i as int] as int));
        }
        i = i + 1;
    }
    c
}

/// The lines of `es` whose upper end has representative `root`.
fn group_exec(d: &Diagram, es: &Vec<usize>, c: &Vec<usize>, root: usize) -> (g: Vec<usize>)
    requires
        d.wf(),
        forall|i: int| 0 <= i < es.len() ==> #[trigger] es@[i] < d.edges.len(),
        c.len() == d.nodes.len(),
    ensures
        nats(g@) == group_upto(d.dia(), nats(es@), nats(c@), root as nat, es.len() as int),
        forall|i: int| 0 <= i < g.len() ==> #[trigger] g@[i] < d.edges.len(),
        g.len() <= es.len(),
{
    let ghost dd = d.dia();
    let mut g: Vec<usize> = Vec::new();
    let mut i: usize = 0;
    while i < es.len()
        invariant
            dd == d.dia(),
            d.wf(),
            forall|k: int| 0 <= k < es.len() ==> #[trigger] es@[k] < d.edges.len(),
            c.len() == d.nodes.len(),
            0 <= i <= es.len(),
            nats(g@) == group_upto(dd, nats(es@), nats(c@), root as nat, i as int),
            forall|k: int| 0 <= k < g.len() ==> #[trigger] g@[k] < d.edges.len(),
            g.len() <= i,
        decreases es.len() - i,
    {
        let (u, _, _, _) = vertical_exec(d, es[i]);
        assert(nats(es@)[i as int] == es@[i as int]);
        if c[u] == root {
            g.push(es[i]);
            assert(nats(g@) =~= group_upto(dd, nats(es@), nats(c@), root as nat, i as int).push(
                es@[i as int] as nat,
            ));
        }
        i = i + 1;
    }
    g
}


/// The groups of lines of `es` by increasing representative.
fn groups_exec(d: &Diagram, es: &Vec<usize>, c: &Vec<usize>) -> (gs: Vec<Vec<usize>>)
    requires
        d.wf(),
        forall|i: int| 0 <= i < es.len() ==> #[trigger] es@[i] < d.edges.len(),
        c.len() == d.nodes.len(),
    ensures
        gs@.map_values(|g: Vec<usize>| nats(g@)) == groups_upto(
            d.dia(),
            nats(es@),
            nats(c@),
            d.nodes.len() as int,
        ),
        forall|k: int, i: int|
            0 <= k < gs.len() && 0 <= i < gs@[k].len() ==> #[trigger] gs@[k]@[i] < d.edges.len(),
        forall|k: int| 0 <= k < gs.len() ==> #[trigger] gs@[k].len() > 0,
        forall|k: int| 0 <= k < gs.len() ==> #[trigger] gs@[k].len() <= es.len(),
        gs.len() <= d.nodes.len(),
{
    let ghost dd = d.dia();
    let mut gs: Vec<Vec<usize>> = Vec::new();
    let mut root: usize = 0;
    while root < d.nodes.len()
        invariant
            dd == d.dia(),
            d.wf(),
            forall|i: int| 0 <= i < es.len() ==> #[trigger] es@[i] < d.edges.len(),
            c.len() == d.nodes.len(),
            0 <= root <= d.nodes.len(),
            gs@.map_values(|g: Vec<usize>| nats(g@)) == groups_upto(
                dd,
                nats(es@),
                nats(c@),
                root as int,
            ),
            forall|k: int, i: int|
                0 <= k < gs.len() && 0 <= i < gs@[k].len() ==> #[trigger] gs@[k]@[i]
                    < d.edges.len(),
            forall|k: int| 0 <= k < gs.len() ==> #[trigger] gs@[k].len() > 0,
            forall|k: int| 0 <= k < gs.len() ==> #[trigger] gs@[k].len() <= es.len(),
            gs.len() <= root,
        decreases d.nodes.len() - root,
    {
        let g = group_exec(d, es, c, root);
        if g.len() > 0 {
            let ghost before = gs@;
            gs.push(g);
            assert(gs@.map_values(|g: Vec<usize>| nats(g@)) =~= before.map_values(
                |g: Vec<usize>| nats(g@),
            ).push(nats(g@)));
        }
        root = root + 1;
    }
    gs
}

pub struct Bus {
    pub uppers: Vec<usize>,
    pub lowers: Vec<usize>,
    pub edges: Vec<usize>,
    /// Leftmost and rightmost columns the bus touches.
    pub lo: usize,
    pub hi: usize,
}

impl Bus {
    pub open spec fn spec(self) -> BusSpec {
        BusSpec { uppers: nats(self.uppers@), lowers: nats(self.lowers@), edges: nats(self.edges@) }
    }
}

pub open spec fn buses_view(v: Seq<Bus>) -> Seq<BusSpec> {
    v.map_values(|b: Bus| b.spec())
}

fn contains_index(v: &Vec<usize>, x: usize) -> (r: bool)
    ensures
        r == nats(v@).contains(x as nat),
{
    let mut i: usize = 0;
    while i < v.len()
        invariant
            0 <= i <= v.len(),
            forall|k: int| 0 <= k < i ==> v@[k] != x,
        decreases v.len() - i,
    {
        if v[i] == x {
            assert(nats(v@)[i as int] == x as nat);
            return true;
        }
        i = i + 1;
    }
    assert forall|k: int| 0 <= k < nats(v@).len() implies nats(v@)[k] != x as nat by {
        assert(nats(v@)[k] == v@[k] as nat);
    }
    false
}

/// The distinct upper (or lower) ends of the lines of `g`, in order.
fn ends_exec(d: &Diagram, g: &Vec<usize>, up: bool) -> (r: Vec<usize>)
    requires
        d.wf(),
        forall|i: int| 0 <= i < g.len() ==> #[trigger] g@[i] < d.edges.len(),
    ensures
        nats(r@) == ends_upto(d.dia(), nats(g@), g.len() as int, up),
        forall|i: int| 0 <= i < r.len() ==> #[trigger] r@[i] < d.nodes.len(),
        g.len() > 0 ==> r.len() > 0,
        r.len() <= g.len(),
{
    let ghost dd = d.dia();
    let mut r: Vec<usize> = Vec::new();
    let mut i: usize = 0;
    while i < g.len()
        invariant
            dd == d.dia(),
            d.wf(),
            forall|k: int| 0 <= k < g.len() ==> #[trigger] g@[k] < d.edges.len(),
            0 <= i <= g.len(),
            nats(r@) == ends_upto(dd, nats(g@), i as int, up),
            forall|k: int| 0 <= k < r.len() ==> #[trigger] r@[k] < d.nodes.len(),
            i > 0 ==> r.len() > 0,
            r.len() <= i,
        decreases g.len() - i,
    {
        let (u, l, _, _) = vertical_exec(d, g[i]);
        let n = if up {
            u
        } else {
            l
        };
        assert(nats(g@)[i as int] == g@[i as int]);
        if !contains_index(&r, n) {
            r.push(n);
            assert(nats(r@) =~= ends_upto(dd, nats(g@), i as int, up).push(n as nat));
        }
        i = i + 1;
    }
    r
}

/// Leftmost and rightmost centre of the shapes `a` then `b`.
fn span_exec(d: &Diagram, cs: &Vec<usize>, a: &Vec<usize>, b: &Vec<usize>) -> (r: (usize, usize))
    requires
        d.wf(),
        cs.len() == d.nodes.len(),
        forall|n: int| 0 <= n < cs.len() ==> cs@[n] as int == center(d.dia(), n),
        forall|i: int| 0 <= i < a.len() ==> #[trigger] a@[i] < d.nodes.len(),
        forall|i: int| 0 <= i < b.len() ==> #[trigger] b@[i] < d.nodes.len(),
        a.len() <= lim(),
        b.len() <= lim(),
    ensures
        r.0 as int == min_center(d.dia(), nats(a@) + nats(b@)),
        r.1 as int == max_center(d.dia(), nats(a@) + nats(b@)),
        a.len() + b.len() > 0 ==> exists|n: int| 0 <= n < cs.len() && r.0 == cs@[n],
        a.len() + b.len() > 0 ==> exists|n: int| 0 <= n < cs.len() && r.1 == cs@[n],
        r.0 <= r.1,
{
    let ghost dd = d.dia();
    let ghost all = nats(a@) + nats(b@);
    let total = a.len() + b.len();
    let mut lo: usize = 0;
    let mut hi: usize = 0;
    let mut i: usize = 0;
    while i < total
        invariant
            dd == d.dia(),
            total == a.len() + b.len(),
            all == nats(a@) + nats(b@),
            cs.len() == d.nodes.len(),
            forall|n: int| 0 <= n < cs.len() ==> cs@[n] as int == center(dd, n),
            forall|k: int| 0 <= k < a.len() ==> #[trigger] a@[k] < d.nodes.len(),
            forall|k: int| 0 <= k < b.len() ==> #[trigger] b@[k] < d.nodes.len(),
            0 <= i <= total,
            lo as int == min_center(dd, all.take(i as int)),
            hi as int == max_center(dd, all.take(i as int)),
            i > 0 ==> exists|n: int| 0 <= n < cs.len() && lo == cs@[n],
            i > 0 ==> exists|n: int| 0 <= n < cs.len() && hi == cs@[n],
            lo <= hi,
        decreases total - i,
    {
        let n = if i < a.len() {
            a[i]
        } else {
            b[i - a.len()]
        };
        assert(all[i as int] == n as nat);
        assert(all.take(i + 1).drop_last() =~= all.take(i as int));
        let c = cs[n];
        if i == 0 {
            lo = c;
            hi = c;
        } else {
            if c < lo {
                lo = c;
            }
            if c > hi {
                hi = c;
            }
        }
        i = i + 1;
    }
    assert(all.take(total as int) =~= all);
    (lo, hi)
}

pub proof fn lemma_ins(d: Dia, s: Seq<BusSpec>, b: BusSpec, pos: int)
    requires
        0 <= pos <= s.len(),
        forall|k: int| pos <= k < s.len() ==> span_lo(d, #[trigger] s[k]) > span_lo(d, b),
        pos == 0 || span_lo(d, s[pos - 1]) <= span_lo(d, b),
    ensures
        ins(d, s, b) == s.take(pos).push(b) + s.skip(pos),
    decreases s.len(),
{
    if s.len() == 0 || span_lo(d, s.last()) <= span_lo(d, b) {
        assert(s.take(pos) =~= s);
        assert(s.take(pos).push(b) + s.skip(pos) =~= s.push(b));
    } else {
        lemma_ins(d, s.drop_last(), b, pos);
        assert(s.drop_last().take(pos) =~= s.take(pos));
        assert((s.drop_last().take(pos).push(b) + s.drop_last().skip(pos)).push(s.last())
            =~= s.take(pos).push(b) + s.skip(pos));
    }
}

pub proof fn lemma_sorted_upto_push(d: Dia, bs: Seq<BusSpec>, b: BusSpec, k: int)
    requires
        0 <= k <= bs.len(),
    ensures
        sorted_upto(d, bs.push(b), k) == sorted_upto(d, bs, k),
    decreases k,
{
    if k > 0 {
        lemma_sorted_upto_push(d, bs, b, k - 1);
    }
}

/// Puts `b` after every bus that starts at or left of it.
fn insert_bus(sorted: &mut Vec<Bus>, b: Bus, Ghost(d): Ghost<Dia>)
    requires
        forall|k: int| 0 <= k < old(sorted).len() ==> #[trigger] old(sorted)@[k].lo as int == span_lo(d, old(sorted)@[k].spec()),
        b.lo as int == span_lo(d, b.spec()),
    ensures
        buses_view(final(sorted)@) == ins(d, buses_view(old(sorted)@), b.spec()),
        final(sorted).len() == old(sorted).len() + 1,
        forall|k: int| 0 <= k < final(sorted).len() ==> #[trigger] final(sorted)@[k].lo as int == span_lo(d, final(sorted)@[k].spec()),
        forall|k: int| 0 <= k < final(sorted).len() ==> exists|j: int| (0 <= j < old(sorted).len() && #[trigger] final(sorted)@[k] == old(sorted)@[j]) || final(sorted)@[k] == b,
{
    let mut pos = sorted.len();
    while pos > 0 && sorted[pos - 1].lo > b.lo
        invariant
            0 <= pos <= sorted.len(),
            sorted@ == old(sorted)@,
            forall|k: int| 0 <= k < old(sorted).len() ==> #[trigger] old(sorted)@[k].lo as int == span_lo(d, old(sorted)@[k].spec()),
            forall|k: int| pos <= k < sorted.len() ==> #[trigger] sorted@[k].lo > b.lo,
        decreases pos,
    {
        pos = pos - 1;
    }
    let ghost sv = buses_view(sorted@);
    proof {
        assert forall|k: int| pos <= k < sv.len() implies span_lo(d, #[trigger] sv[k]) > span_lo(d, b.spec()) by {
            assert(sv[k] == sorted@[k].spec());
            assert(sorted@[k].lo > b.lo);
            assert(old(sorted)@[k].lo as int == span_lo(d, old(sorted)@[k].spec()));
        }
        if pos > 0 {
            assert(sv[pos - 1] == sorted@[pos - 1].spec());
        }
        lemma_ins(d, sv, b.spec(), pos as int);
    }
    let ghost before = sorted@;
    sorted.insert(pos, b);
    proof {
        assert(buses_view(sorted@) =~= sv.take(pos as int).push(b.spec()) + sv.skip(pos as int));
        assert forall|k: int| 0 <= k < sorted.len() implies exists|j: int| (0 <= j < before.len() && #[trigger] sorted@[k] == before[j]) || sorted@[k] == b by {
            if k < pos {
                assert(sorted@[k] == before[k]);
            } else if k > pos {
                assert(sorted@[k] == before[k - 1]);
            }
        }
    }
}


pub open spec fn placed_view(v: Seq<(usize, usize, usize)>) -> Seq<(int, int, int)> {
    v.map_values(|p: (usize, usize, usize)| (p.0 as int, p.1 as int, p.2 as int))
}

/// Largest column a bus can touch: `lim() * (lim() + 10)`.
pub open spec fn max_col() -> int {
    if usize::MAX == 0xffff_ffff {
        0x2000int * 0x200a
    } else {
        0x1000_0000int * 0x1000_000a
    }
}

fn conflict_exec(placed: &Vec<(usize, usize, usize)>, l: usize, lo: usize, hi: usize) -> (r: bool)
    requires
        hi <= max_col(),
        forall|i: int| 0 <= i < placed.len() ==> (#[trigger] placed@[i]).2 <= max_col(),
    ensures
        r == conflict(placed_view(placed@), l as int, lo as int, hi as int),
{
    let ghost pv = placed_view(placed@);
    let mut i: usize = 0;
    while i < placed.len()
        invariant
            pv == placed_view(placed@),
            hi <= max_col(),
            forall|k: int| 0 <= k < placed.len() ==> (#[trigger] placed@[k]).2 <= max_col(),
            0 <= i <= placed.len(),
            forall|k: int|
                0 <= k < i ==> !((#[trigger] pv[k]).0 == l && lo <= pv[k].2 + 1 && pv[k].1 <= hi
                    + 1),
        decreases placed.len() - i,
    {
        let (pl, plo, phi) = placed[i];
        assert(pv[i as int] == (pl as int, plo as int, phi as int));
        if pl == l && lo <= phi + 1 && plo <= hi + 1 {
            return true;
        }
        i = i + 1;
    }
    false
}

pub proof fn lemma_first_free_skip(p: Seq<(int, int, int)>, lo: int, hi: int, l: int)
    requires
        0 <= l <= p.len(),
        forall|k: int| 0 <= k < l ==> conflict(p, k, lo, hi),
    ensures
        first_free(p, lo, hi, 0) == first_free(p, lo, hi, l),
    decreases l,
{
    if l > 0 {
        lemma_first_free_skip(p, lo, hi, l - 1);
    }
}

/// A bus names existing shapes and lines, and spans columns of the drawing.
pub open spec fn bus_ok(d: &Diagram, b: Bus) -> bool {
    &&& forall|i: int| 0 <= i < b.uppers.len() ==> #[trigger] b.uppers@[i] < d.nodes.len()
    &&& forall|i: int| 0 <= i < b.lowers.len() ==> #[trigger] b.lowers@[i] < d.nodes.len()
    &&& forall|i: int| 0 <= i < b.edges.len() ==> #[trigger] b.edges@[i] < d.edges.len()
    &&& b.lo <= b.hi <= max_col()
    &&& b.uppers.len() <= lim()
    &&& b.lowers.len() <= lim()
    &&& b.edges.len() <= lim()
}

pub struct RegionPlan {
    /// Lines drawn straight down (a lone line whose ends line up).
    pub direct: Vec<usize>,
    pub buses: Vec<Bus>,
    /// Bus row of each bus.
    pub bus_levels: Vec<usize>,
    /// Bus rows in all.
    pub levels: usize,
    pub height: usize,
}

pub open spec fn centers_ok(d: &Diagram, cs: &Vec<usize>) -> bool {
    &&& cs.len() == d.nodes.len()
    &&& forall|n: int| 0 <= n < cs.len() ==> cs@[n] as int == center(d.dia(), n)
    &&& forall|n: int| 0 <= n < cs.len() ==> cs@[n] <= max_col()
}

/// What the plan of region `r` holds: the directs, the buses in order with their bus rows,
/// and the height, as the specification gives them.
pub open spec fn plan_ok(d: &Diagram, p: RegionPlan, r: int) -> bool {
    &&& nats(p.direct@) == directs(d.dia(), r)
    &&& forall|i: int| 0 <= i < p.direct.len() ==> #[trigger] p.direct@[i] < d.edges.len()
    &&& buses_view(p.buses@) == buses(d.dia(), r)
    &&& p.bus_levels.len() == p.buses.len()
    &&& forall|k: int| 0 <= k < p.buses.len() ==> #[trigger] p.bus_levels@[k] as int == bus_level(d.dia(), r, k)
    &&& forall|k: int| 0 <= k < p.buses.len() ==> #[trigger] p.bus_levels@[k] <= lim()
    &&& forall|k: int| 0 <= k < p.buses.len() ==> (#[trigger] p.buses@[k]).lo as int == span_lo(d.dia(), p.buses@[k].spec())
    &&& forall|k: int| 0 <= k < p.buses.len() ==> (#[trigger] p.buses@[k]).hi as int == span_hi(d.dia(), p.buses@[k].spec())
    &&& forall|k: int| 0 <= k < p.buses.len() ==> bus_ok(d, #[trigger] p.buses@[k])
    &&& p.levels as int == levels(d.dia(), r)
    &&& p.levels <= lim()
    &&& p.height as int == region_height(d.dia(), r)
    &&& p.height <= lim() + 3
}

/// Plan the lines between row `r` and row `r + 1`.
fn region_plan(d: &Diagram, cs: &Vec<usize>, r: usize) -> (p: RegionPlan)
    requires
        d.wf(),
        small(d.dia()),
        centers_ok(d, cs),
        r + 1 < d.rows.len(),
    ensures
        nats(p.direct@) == directs(d.dia(), r as int),
        buses_view(p.buses@) == buses(d.dia(), r as int),
        p.bus_levels.len() == p.buses.len(),
        forall|k: int| 0 <= k < p.buses.len() ==> #[trigger] p.bus_levels@[k] as int == bus_level(d.dia(), r as int, k),
        forall|k: int| 0 <= k < p.buses.len() ==> (#[trigger] p.buses@[k]).lo as int == span_lo(d.dia(), p.buses@[k].spec()),
        forall|k: int| 0 <= k < p.buses.len() ==> (#[trigger] p.buses@[k]).hi as int == span_hi(d.dia(), p.buses@[k].spec()),
        p.levels as int == levels(d.dia(), r as int),
        p.height as int == region_height(d.dia(), r as int),
        p.height <= lim() + 3,
        plan_ok(d, p, r as int),
{
    let ghost dd = d.dia();
    let es = region_edges_exec(d, r);
    let c = reps_exec(d, &es);
    let gs = groups_exec(d, &es, &c);
    let ghost gsv = gs@.map_values(|g: Vec<usize>| nats(g@));
    assert(gsv == groups(dd, r as int));
    let mut direct: Vec<usize> = Vec::new();
    let mut sorted: Vec<Bus> = Vec::new();
    let ghost mut unsorted: Seq<BusSpec> = seq![];
    let mut k: usize = 0;
    while k < gs.len()
        invariant
            dd == d.dia(),
            d.wf(),
            small(dd),
            centers_ok(d, cs),
            gsv == gs@.map_values(|g: Vec<usize>| nats(g@)),
            forall|a: int, i: int|
                0 <= a < gs.len() && 0 <= i < gs@[a].len() ==> #[trigger] gs@[a]@[i] < d.edges.len(),
            forall|a: int| 0 <= a < gs.len() ==> #[trigger] gs@[a].len() > 0,
            forall|a: int| 0 <= a < gs.len() ==> #[trigger] gs@[a].len() <= es.len(),
            es.len() <= d.edges.len(),
            0 <= k <= gs.len(),
            nats(direct@) == direct_upto(dd, gsv, k as int),
            unsorted == buses_upto(dd, gsv, k as int),
            buses_view(sorted@) == sorted_upto(dd, unsorted, unsorted.len() as int),
            sorted.len() == unsorted.len(),
            unsorted.len() <= k,
            forall|i: int| 0 <= i < sorted.len() ==> #[trigger] sorted@[i].lo as int == span_lo(dd, sorted@[i].spec()),
            forall|i: int| 0 <= i < sorted.len() ==> (#[trigger] sorted@[i]).hi as int == span_hi(dd, sorted@[i].spec()),
            forall|i: int| 0 <= i < sorted.len() ==> (#[trigger] sorted@[i]).hi <= max_col(),
            forall|i: int| 0 <= i < sorted.len() ==> bus_ok(d, #[trigger] sorted@[i]),
            forall|i: int| 0 <= i < direct.len() ==> #[trigger] direct@[i] < d.edges.len(),
        decreases gs.len() - k,
    {
        let g = &gs[k];
        assert(gsv[k as int] == nats(g@));
        assert(gs@[k as int].len() > 0);
        assert(gs@[k as int]@[0] < d.edges.len());
        let (u, l, _, _) = vertical_exec(d, g[0]);
        assert(nats(g@)[0] == g@[0]);
        if g.len() == 1 && cs[u] == cs[l] {
            direct.push(g[0]);
            assert(nats(direct@) =~= direct_upto(dd, gsv, k as int).push(g@[0] as nat));
        } else {
            let uppers = ends_exec(d, g, true);
            let lowers = ends_exec(d, g, false);
            let (lo, hi) = span_exec(d, cs, &uppers, &lowers);
            let edges = slice_indices(g);
            let bus = Bus { uppers, lowers, edges, lo, hi };
            assert(bus_ok(d, bus));
            assert(bus.spec() == bus_of(dd, gsv[k as int]));
            let ghost before = sorted@;
            proof {
                lemma_sorted_upto_push(dd, unsorted, bus.spec(), unsorted.len() as int);
            }
            insert_bus(&mut sorted, bus, Ghost(dd));
            proof {
                unsorted = unsorted.push(bus.spec());
                assert forall|i: int| 0 <= i < sorted.len() implies (#[trigger] sorted@[i]).hi as int == span_hi(dd, sorted@[i].spec()) && sorted@[i].hi <= max_col() && bus_ok(d, sorted@[i]) by {
                    let j = choose|j: int| (0 <= j < before.len() && sorted@[i] == before[j]) || sorted@[i] == bus;
                    if 0 <= j < before.len() && sorted@[i] == before[j] {
                    } else {
                    }
                }
            }
        }
        k = k + 1;
    }
    assert(unsorted =~= buses_upto(dd, gsv, gsv.len() as int));
    // Bus rows: a bus goes on the first row where it overlaps or touches no other.
    let mut placed: Vec<(usize, usize, usize)> = Vec::new();
    let mut bus_levels: Vec<usize> = Vec::new();
    let mut count: usize = 0;
    let ghost bs = buses(dd, r as int);
    assert(bs == buses_view(sorted@));
    let mut k: usize = 0;
    while k < sorted.len()
        invariant
            dd == d.dia(),
            bs == buses_view(sorted@),
            sorted.len() <= d.nodes.len(),
            small(dd),
            forall|i: int| 0 <= i < sorted.len() ==> #[trigger] sorted@[i].lo as int == span_lo(dd, sorted@[i].spec()),
            forall|i: int| 0 <= i < sorted.len() ==> (#[trigger] sorted@[i]).hi as int == span_hi(dd, sorted@[i].spec()),
            forall|i: int| 0 <= i < sorted.len() ==> (#[trigger] sorted@[i]).hi <= max_col(),
            0 <= k <= sorted.len(),
            placed_view(placed@) == placed_upto(dd, bs, k as int),
            placed.len() == k,
            forall|i: int| 0 <= i < placed.len() ==> (#[trigger] placed@[i]).0 <= i,
            forall|i: int| 0 <= i < placed.len() ==> (#[trigger] placed@[i]).2 <= max_col(),
            bus_levels.len() == k,
            forall|i: int| 0 <= i < k ==> #[trigger] bus_levels@[i] == placed@[i].0,
            count as int == levels_upto(dd, bs, k as int),
            count <= k,
            forall|i: int| 0 <= i < sorted.len() ==> bus_ok(d, #[trigger] sorted@[i]),
        decreases sorted.len() - k,
    {
        let lo = sorted[k].lo;
        let hi = sorted[k].hi;
        assert(bs[k as int] == sorted@[k as int].spec());
        let ghost pv = placed_view(placed@);
        let mut level: usize = 0;
        while conflict_exec(&placed, level, lo, hi)
            invariant
                pv == placed_view(placed@),
                hi <= max_col(),
                forall|i: int| 0 <= i < placed.len() ==> (#[trigger] placed@[i]).0 <= i,
                forall|i: int| 0 <= i < placed.len() ==> (#[trigger] placed@[i]).2 <= max_col(),
                0 <= level <= placed.len(),
                forall|l: int| 0 <= l < level ==> conflict(pv, l, lo as int, hi as int),
            decreases placed.len() - level,
        {
            proof {
                if level == placed.len() {
                    let i = choose|i: int| 0 <= i < pv.len() && (#[trigger] pv[i]).0 == level && lo <= pv[i].2 + 1 && pv[i].1 <= hi + 1;
                    assert(pv[i].0 == placed@[i].0);
                    assert(false);
                }
            }
            level = level + 1;
        }
        proof {
            lemma_first_free_skip(pv, lo as int, hi as int, level as int);
        }
        bus_levels.push(level);
        placed.push((level, lo, hi));
        assert(placed_view(placed@) =~= pv.push((level as int, lo as int, hi as int)));
        if level + 1 > count {
            count = level + 1;
        }
        k = k + 1;
    }
    // Edge labels and upward arrow heads need room too.
    let mut labelled_any = false;
    let mut two = false;
    let mut i: usize = 0;
    let ghost esv = nats(es@);
    while i < es.len()
        invariant
            dd == d.dia(),
            d.wf(),
            esv == nats(es@),
            esv == region_edges(dd, r as int),
            forall|j: int| 0 <= j < es.len() ==> #[trigger] es@[j] < d.edges.len(),
            0 <= i <= es.len(),
            labelled_any == exists|j: int| 0 <= j < i && (#[trigger] dd.edges[esv[j] as int]).label is Some,
            two == exists|j: int| 0 <= j < i && vertical(dd, #[trigger] esv[j] as int).2,
        decreases es.len() - i,
    {
        let (_, _, au, _) = vertical_exec(d, es[i]);
        assert(esv[i as int] == es@[i as int]);
        assert(dd.edges[es@[i as int] as int] == d.edges@[es@[i as int] as int].spec());
        if d.edges[es[i]].label.is_some() {
            labelled_any = true;
        }
        if au {
            two = true;
        }
        i = i + 1;
    }
    let mut height: usize = 2;
    if count > 0 || labelled_any {
        height = count + 3;
    }
    if two && height < 3 {
        height = 3;
    }
    RegionPlan { direct, buses: sorted, bus_levels, levels: count, height }
}

fn slice_indices(v: &Vec<usize>) -> (r: Vec<usize>)
    ensures
        r@ == v@,
{
    let mut r: Vec<usize> = Vec::new();
    let mut i: usize = 0;
    while i < v.len()
        invariant
            0 <= i <= v.len(),
            r@ == v@.take(i as int),
        decreases v.len() - i,
    {
        r.push(v[i]);
        i = i + 1;
        assert(v@.take(i as int) =~= v@.take(i - 1).push(v@[i - 1]));
    }
    assert(v@.take(v.len() as int) =~= v@);
    r
}


// ----- the character grid -------------------------------------------------------------

/// A grid of characters, every row `width` long.
pub struct GridSpec {
    pub width: nat,
    pub cells: Seq<Seq<char>>,
}

pub open spec fn grid_ok(g: GridSpec) -> bool {
    forall|r: int| 0 <= r < g.cells.len() ==> (#[trigger] g.cells[r]).len() == g.width
}

pub open spec fn spaces(n: int) -> Seq<char> {
    Seq::new(if n > 0 { n as nat } else { 0 }, |i: int| ' ')
}

/// A blank grid, at least one cell each way.
pub open spec fn blank(w: int, h: int) -> GridSpec {
    let w1 = if w < 1 { 1 } else { w };
    let h1 = if h < 1 { 1 } else { h };
    GridSpec { width: w1 as nat, cells: Seq::new(h1 as nat, |r: int| spaces(w1)) }
}

/// What a cell shows when `c` is drawn over `old`: crossing lines make `┼`, a line does not
/// cover anything but a blank, everything else covers what was there.
pub open spec fn combine(old: char, c: char) -> char {
    if (old == '─' && c == '│') || (old == '│' && c == '─') {
        '┼'
    } else if old == ' ' {
        c
    } else if c != '─' && c != '│' {
        c
    } else {
        old
    }
}

/// Draws `c` at column `x` of row `y`, widening every row when `x` is past the right edge;
/// rows below the grid are ignored.
pub open spec fn put(g: GridSpec, x: int, y: int, c: char) -> GridSpec {
    if y < 0 || y >= g.cells.len() || x < 0 {
        g
    } else {
        let w2 = if x >= g.width {
            x + 1
        } else {
            g.width as int
        };
        let wide = Seq::new(g.cells.len(), |r: int| g.cells[r] + spaces(w2 - g.cells[r].len()));
        GridSpec { width: w2 as nat, cells: wide.update(y, wide[y].update(x, combine(wide[y][x], c))) }
    }
}

/// Drawing a character at a cell of the grid changes that cell alone, widening the rows with
/// blanks when the cell is past the right edge. A line never erases text: a line character
/// drawn over anything but a blank keeps what was there, except that crossing lines become
/// `┼`.
pub proof fn a_line_never_erases_text(g: GridSpec, x: int, y: int, c: char)
    requires
        grid_ok(g),
        0 <= x,
        0 <= y < g.cells.len(),
    ensures
        ({
            let h = put(g, x, y, c);
            let w = if x >= g.width { x + 1 } else { g.width as int };
            let old = if x < g.width { g.cells[y][x] } else { ' ' };
            &&& grid_ok(h)
            &&& h.width == w
            &&& h.cells.len() == g.cells.len()
            &&& h.cells[y][x] == combine(old, c)
            &&& forall|r: int, k: int|
                0 <= r < g.cells.len() && 0 <= k < w && !(r == y && k == x) ==> #[trigger] h.cells[r][k] == (if k
                    < g.width {
                    g.cells[r][k]
                } else {
                    ' '
                })
        }),
        combine(' ', c) == c,
        forall|o: char| o != ' ' && o != '─' && o != '│' ==> #[trigger] combine(o, '─') == o && combine(o, '│') == o,
{
    let h = put(g, x, y, c);
    let w = if x >= g.width { x + 1 } else { g.width as int };
    let wide = Seq::new(g.cells.len(), |r: int| g.cells[r] + spaces(w - g.cells[r].len()));
    assert(h.cells == wide.update(y, wide[y].update(x, combine(wide[y][x], c))));
    assert forall|r: int| 0 <= r < g.cells.len() implies (#[trigger] wide[r]).len() == w by {
        assert(g.cells[r].len() == g.width);
    }
    assert forall|r: int| 0 <= r < h.cells.len() implies (#[trigger] h.cells[r]).len() == h.width by {
        assert(wide[r].len() == w);
    }
    assert forall|r: int, k: int|
        0 <= r < g.cells.len() && 0 <= k < w implies #[trigger] wide[r][k] == (if k < g.width {
        g.cells[r][k]
    } else {
        ' '
    }) by {
        assert(g.cells[r].len() == g.width);
    }
}

/// One character to draw: column, row, character.
pub type Stroke = (int, int, char);

pub open spec fn apply(g: GridSpec, s: Seq<Stroke>) -> GridSpec
    decreases s.len(),
{
    if s.len() == 0 {
        g
    } else {
        let t = s.last();
        put(apply(g, s.drop_last()), t.0, t.1, t.2)
    }
}

pub proof fn lemma_apply_concat(g: GridSpec, a: Seq<Stroke>, b: Seq<Stroke>)
    ensures
        apply(g, a + b) == apply(apply(g, a), b),
    decreases b.len(),
{
    if b.len() == 0 {
        assert(a + b =~= a);
    } else {
        lemma_apply_concat(g, a, b.drop_last());
        assert((a + b).drop_last() =~= a + b.drop_last());
    }
}

/// The grid's rows as text, trailing blanks removed.
pub open spec fn grid_lines(g: GridSpec) -> Seq<Seq<char>> {
    g.cells.map_values(|row: Seq<char>| trim_end(row))
}

/// Columns a character advances the pen: its width as a one-character text, at least one.
pub open spec fn adv(c: char) -> int {
    let w = text_columns(seq![c]) as int;
    if w < 1 {
        1
    } else {
        w
    }
}

/// A text drawn from column `x` of row `y`.
pub open spec fn text_strokes(x: int, y: int, s: Seq<char>) -> Seq<Stroke>
    decreases s.len(),
{
    if s.len() == 0 {
        seq![]
    } else {
        seq![(x, y, s[0])] + text_strokes(x + adv(s[0]), y, s.drop_first())
    }
}

/// Column `x`, rows `a..b`.
pub open spec fn vline(x: int, a: int, b: int, c: char) -> Seq<Stroke> {
    Seq::new(if b > a { (b - a) as nat } else { 0 }, |i: int| (x, a + i, c))
}

/// Row `y`, columns `a..b`.
pub open spec fn hline(y: int, a: int, b: int, c: char) -> Seq<Stroke> {
    Seq::new(if b > a { (b - a) as nat } else { 0 }, |i: int| (a + i, y, c))
}

pub struct Grid {
    pub cells: Vec<Vec<char>>,
    pub width: usize,
}

impl Grid {
    pub open spec fn spec(&self) -> GridSpec {
        GridSpec { width: self.width as nat, cells: views(self.cells@) }
    }

    fn new(w: usize, h: usize) -> (g: Grid)
        ensures
            g.spec() == blank(w as int, h as int),
            grid_ok(g.spec()),
    {
        let w1 = if w < 1 {
            1
        } else {
            w
        };
        let h1 = if h < 1 {
            1
        } else {
            h
        };
        let mut cells: Vec<Vec<char>> = Vec::new();
        let mut r: usize = 0;
        while r < h1
            invariant
                0 <= r <= h1,
                cells.len() == r,
                forall|k: int| 0 <= k < r ==> (#[trigger] cells@[k])@ == spaces(w1 as int),
            decreases h1 - r,
        {
            let mut row: Vec<char> = Vec::new();
            let mut c: usize = 0;
            while c < w1
                invariant
                    0 <= c <= w1,
                    row@ == spaces(c as int),
                decreases w1 - c,
            {
                row.push(' ');
                c = c + 1;
                assert(row@ =~= spaces(c as int));
            }
            cells.push(row);
            r = r + 1;
        }
        let g = Grid { cells, width: w1 };
        assert(g.spec().cells =~= blank(w as int, h as int).cells);
        g
    }

    fn put(&mut self, x: usize, y: usize, c: char)
        requires
            grid_ok(old(self).spec()),
            x < usize::MAX,
        ensures
            grid_ok(final(self).spec()),
            final(self).spec() == put(old(self).spec(), x as int, y as int, c),
    {
        let ghost g0 = self.spec();
        if y >= self.cells.len() {
            return;
        }
        if x >= self.width {
            let extra = x + 1 - self.width;
            let mut r: usize = 0;
            let ghost w2 = x + 1;
            while r < self.cells.len()
                invariant
                    0 <= r <= self.cells.len(),
                    self.cells.len() == g0.cells.len(),
                    self.width == g0.width,
                    extra == w2 - g0.width,
                    grid_ok(g0),
                    forall|k: int| 0 <= k < r ==> (#[trigger] self.cells@[k])@ == g0.cells[k] + spaces(extra as int),
                    forall|k: int| r <= k < self.cells.len() ==> (#[trigger] self.cells@[k])@ == g0.cells[k],
                decreases self.cells.len() - r,
            {
                let mut row = self.cells[r].clone();
                let ghost row0 = row@;
                let mut k: usize = 0;
                while k < extra
                    invariant
                        0 <= k <= extra,
                        row@ == row0 + spaces(k as int),
                    decreases extra - k,
                {
                    row.push(' ');
                    k = k + 1;
                    assert(row@ =~= row0 + spaces(k as int));
                }
                self.cells.set(r, row);
                r = r + 1;
            }
            self.width = x + 1;
            assert forall|k: int| 0 <= k < self.cells.len() implies (#[trigger] self.cells@[k])@.len() == self.width by {
                assert(g0.cells[k].len() == g0.width);
            }
        }
        let ghost mid = self.spec();
        assert(grid_ok(mid));
        assert(mid.cells[y as int] == self.cells@[y as int]@);
        assert(self.cells@[y as int]@.len() == self.width);
        let mut row = self.cells[y].clone();
        let old_c = row[x];
        let new_c = if (old_c == '─' && c == '│') || (old_c == '│' && c == '─') {
            '┼'
        } else if old_c == ' ' {
            c
        } else if c != '─' && c != '│' {
            c
        } else {
            old_c
        };
        row.set(x, new_c);
        self.cells.set(y, row);
        proof {
            let w2 = if x >= g0.width { x + 1 } else { g0.width as int };
            let wide = Seq::new(g0.cells.len(), |r: int| g0.cells[r] + spaces(w2 - g0.cells[r].len()));
            assert(mid.cells =~= wide);
            assert(self.spec().cells =~= wide.update(y as int, wide[y as int].update(x as int, combine(wide[y as int][x as int], c))));
        }
    }
}


/// Coordinates stay below this, `4 * lim() * lim()`; it leaves room for a text's advance after
/// it.
pub open spec fn coord_max() -> int {
    if usize::MAX == 0xffff_ffff {
        4int * 0x2000 * 0x2000
    } else {
        4int * 0x1000_0000 * 0x1000_0000
    }
}

fn advance(c: char) -> (r: usize)
    ensures
        r as int == adv(c),
        1 <= r <= 3,
{
    let v = vec![c];
    assert(v@ =~= seq![c]);
    let w = text_width(&v);
    if w < 1 {
        1
    } else {
        w
    }
}

pub proof fn lemma_apply_push(g: GridSpec, s: Seq<Stroke>, t: Stroke)
    ensures
        apply(g, s.push(t)) == put(apply(g, s), t.0, t.1, t.2),
{
    assert(s.push(t).drop_last() =~= s);
}

pub proof fn lemma_apply_first(g: GridSpec, t: Stroke, rest: Seq<Stroke>)
    ensures
        apply(g, seq![t] + rest) == apply(put(g, t.0, t.1, t.2), rest),
{
    lemma_apply_concat(g, seq![t], rest);
    lemma_apply_push(g, Seq::<Stroke>::empty(), t);
    assert(Seq::<Stroke>::empty().push(t) =~= seq![t]);
}

impl Grid {
    /// Draws `s` from column `x` of row `y`.
    fn text(&mut self, x: usize, y: usize, s: &Vec<char>)
        requires
            grid_ok(old(self).spec()),
            x <= coord_max(),
            s.len() <= 4 * lim(),
        ensures
            grid_ok(final(self).spec()),
            final(self).spec() == apply(old(self).spec(), text_strokes(x as int, y as int, s@)),
    {
        let ghost g0 = self.spec();
        let mut col = x;
        let mut i: usize = 0;
        assert(s@.skip(0) =~= s@);
        while i < s.len()
            invariant
                grid_ok(self.spec()),
                0 <= i <= s.len(),
                s.len() <= 4 * lim(),
                col <= x + 3 * i,
                x <= coord_max(),
                apply(g0, text_strokes(x as int, y as int, s@)) == apply(
                    self.spec(),
                    text_strokes(col as int, y as int, s@.skip(i as int)),
                ),
            decreases s.len() - i,
        {
            let c = s[i];
            proof {
                assert(s@.skip(i as int)[0] == c);
                assert(s@.skip(i as int).drop_first() =~= s@.skip(i + 1));
                lemma_apply_first(
                    self.spec(),
                    (col as int, y as int, c),
                    text_strokes(col + adv(c), y as int, s@.skip(i + 1)),
                );
            }
            self.put(col, y, c);
            let a = advance(c);
            col = col + a;
            i = i + 1;
        }
        assert(s@.skip(s.len() as int) =~= Seq::<char>::empty());
    }

    /// Column `x`, rows `a..b`.
    fn vline(&mut self, x: usize, a: usize, b: usize, c: char)
        requires
            grid_ok(old(self).spec()),
            x < usize::MAX,
        ensures
            grid_ok(final(self).spec()),
            final(self).spec() == apply(old(self).spec(), vline(x as int, a as int, b as int, c)),
    {
        let ghost g0 = self.spec();
        let mut y = a;
        assert(vline(x as int, a as int, a as int, c) =~= Seq::<Stroke>::empty());
        while y < b
            invariant
                grid_ok(self.spec()),
                x < usize::MAX,
                a <= y,
                a < b ==> y <= b,
                a >= b ==> y == a,
                self.spec() == apply(g0, vline(x as int, a as int, y as int, c)),
            decreases b - y,
        {
            self.put(x, y, c);
            assert(vline(x as int, a as int, y + 1, c) =~= vline(x as int, a as int, y as int, c).push((x as int, y as int, c)));
            proof {
                lemma_apply_push(g0, vline(x as int, a as int, y as int, c), (x as int, y as int, c));
            }
            y = y + 1;
        }
        if a >= b {
            assert(vline(x as int, a as int, b as int, c) =~= Seq::<Stroke>::empty());
            assert(vline(x as int, a as int, a as int, c) =~= Seq::<Stroke>::empty());
        }
    }

    /// Row `y`, columns `a..b`.
    fn hline(&mut self, y: usize, a: usize, b: usize, c: char)
        requires
            grid_ok(old(self).spec()),
            b < usize::MAX,
        ensures
            grid_ok(final(self).spec()),
            final(self).spec() == apply(old(self).spec(), hline(y as int, a as int, b as int, c)),
    {
        let ghost g0 = self.spec();
        let mut x = a;
        assert(hline(y as int, a as int, a as int, c) =~= Seq::<Stroke>::empty());
        while x < b
            invariant
                grid_ok(self.spec()),
                b < usize::MAX,
                a <= x,
                a < b ==> x <= b,
                a >= b ==> x == a,
                self.spec() == apply(g0, hline(y as int, a as int, x as int, c)),
            decreases b - x,
        {
            self.put(x, y, c);
            assert(hline(y as int, a as int, x + 1, c) =~= hline(y as int, a as int, x as int, c).push((x as int, y as int, c)));
            proof {
                lemma_apply_push(g0, hline(y as int, a as int, x as int, c), (x as int, y as int, c));
            }
            x = x + 1;
        }
        if a >= b {
            assert(hline(y as int, a as int, b as int, c) =~= Seq::<Stroke>::empty());
            assert(hline(y as int, a as int, a as int, c) =~= Seq::<Stroke>::empty());
        }
    }

    /// The rows as text, trailing blanks removed.
    fn lines(&self) -> (r: Vec<String>)
        ensures
            r@.map_values(|l: String| l@) == grid_lines(self.spec()),
    {
        let mut out: Vec<String> = Vec::new();
        let mut i: usize = 0;
        while i < self.cells.len()
            invariant
                0 <= i <= self.cells.len(),
                out@.map_values(|l: String| l@) == grid_lines(self.spec()).take(i as int),
            decreases self.cells.len() - i,
        {
            let row = &self.cells[i];
            let end = skip_ws_back(row, 0, row.len());
            assert(row@.subrange(0, row.len() as int) =~= row@);
            let t = slice(row, 0, end);
            let line = string_of(&t);
            let ghost before = out@;
            out.push(line);
            proof {
                assert(self.spec().cells[i as int] == row@);
                assert(out@.map_values(|l: String| l@) =~= before.map_values(|l: String| l@).push(line@));
                assert(grid_lines(self.spec()).take(i + 1) =~= grid_lines(self.spec()).take(i as int).push(trim_end(row@)));
            }
            i = i + 1;
        }
        assert(grid_lines(self.spec()).take(self.cells.len() as int) =~= grid_lines(self.spec()));
        out
    }
}


// ----- what is drawn ------------------------------------------------------------------

/// Top row of row `r`: each gap between rows is as tall as its lines need.
pub open spec fn row_y(d: Dia, r: int) -> int
    decreases r,
{
    if r <= 0 {
        0
    } else {
        row_y(d, r - 1) + 3 + region_height(d, r - 1)
    }
}

pub open spec fn node_y(d: Dia, n: int) -> int {
    row_y(d, d.nodes[n].row as int)
}

/// Column just right of shape `n`.
pub open spec fn right_of(d: Dia, n: int) -> int {
    node_x(d, n) + node_w(d, n)
}

pub open spec fn max_right_upto(d: Dia, k: int) -> int
    decreases k,
{
    if k <= 0 {
        0
    } else {
        let m = max_right_upto(d, k - 1);
        let v = right_of(d, k - 1);
        if v > m {
            v
        } else {
            m
        }
    }
}

pub open spec fn max_bottom_upto(d: Dia, k: int) -> int
    decreases k,
{
    if k <= 0 {
        0
    } else {
        let m = max_bottom_upto(d, k - 1);
        let v = node_y(d, k - 1) + 3;
        if v > m {
            v
        } else {
            m
        }
    }
}

pub open spec fn shapes_right(d: Dia) -> int {
    max_right_upto(d, d.nodes.len() as int)
}

pub open spec fn grid_height(d: Dia) -> int {
    max_bottom_upto(d, d.nodes.len() as int)
}

/// Shapes `a` and `b` stand next to each other on one row.
pub open spec fn neighbours(d: Dia, a: int, b: int) -> bool {
    d.nodes[a].row == d.nodes[b].row && (a - b == 1 || b - a == 1)
}

/// Lines that skip rows, or join shapes of a row that are not neighbours, run down a channel
/// on the right.
pub open spec fn is_side(d: Dia, e: int) -> bool {
    let ru = d.nodes[upper(d, e)].row;
    let rl = d.nodes[lower(d, e)].row;
    rl > ru + 1 || (ru == rl && !neighbours(d, upper(d, e), lower(d, e)))
}

pub open spec fn side_upto(d: Dia, k: int) -> Seq<nat>
    decreases k,
{
    if k <= 0 {
        seq![]
    } else {
        let s = side_upto(d, k - 1);
        if is_side(d, k - 1) {
            s.push((k - 1) as nat)
        } else {
            s
        }
    }
}

pub open spec fn side_edges(d: Dia) -> Seq<nat> {
    side_upto(d, d.edges.len() as int)
}

pub open spec fn label_width(l: Option<Seq<char>>) -> int {
    match l {
        Some(t) => text_columns(t) as int,
        None => 0,
    }
}

pub open spec fn room_upto(d: Dia, s: Seq<nat>, k: int) -> int
    decreases k,
{
    if k <= 0 {
        0
    } else {
        let m = room_upto(d, s, k - 1);
        let v = label_width(d.edges[s[k - 1] as int].label);
        if v > m {
            v
        } else {
            m
        }
    }
}

/// Columns kept for the widest label of a side line.
pub open spec fn label_room(d: Dia) -> int {
    room_upto(d, side_edges(d), side_edges(d).len() as int)
}

/// Column of the `k`th side channel.
pub open spec fn channel(d: Dia, k: int) -> int {
    shapes_right(d) + 2 + k * (3 + label_room(d))
}

pub open spec fn grid_width(d: Dia) -> int {
    if side_edges(d).len() == 0 {
        shapes_right(d)
    } else {
        channel(d, side_edges(d).len() - 1) + 1 + label_room(d)
    }
}

pub open spec fn rep(c: char, n: int) -> Seq<char> {
    Seq::new(if n > 0 { n as nat } else { 0 }, |i: int| c)
}

/// `s` centred in `width` columns.
pub open spec fn pad(s: Seq<char>, width: int) -> Seq<char> {
    let extra = if width > text_columns(s) {
        width - text_columns(s)
    } else {
        0
    };
    let left = extra / 2;
    spaces(left) + s + spaces(extra - left)
}

/// Shape `n`: a box `┌─┐`, a rounded pill `╭─╮` or a diamond `╱‾╲`, with its label centred.
pub open spec fn shape_strokes(d: Dia, n: int) -> Seq<Stroke> {
    let x = node_x(d, n);
    let y = node_y(d, n);
    let w = node_w(d, n);
    let lab = d.nodes[n].label;
    match d.nodes[n].shape {
        Shape::Diamond => text_strokes(x, y, seq![' ', '╱'] + rep('‾', w - 4) + seq!['╲'])
            + text_strokes(x, y + 1, seq!['⟨'] + pad(lab, w - 2) + seq!['⟩']) + text_strokes(
            x,
            y + 2,
            seq![' ', '╲'] + rep('_', w - 4) + seq!['╱'],
        ),
        Shape::Box => text_strokes(x, y, seq!['┌'] + rep('─', w - 2) + seq!['┐']) + text_strokes(
            x,
            y + 1,
            seq!['│'] + pad(lab, w - 2) + seq!['│'],
        ) + text_strokes(x, y + 2, seq!['└'] + rep('─', w - 2) + seq!['┘']),
        Shape::Pill => text_strokes(x, y, seq!['╭'] + rep('─', w - 2) + seq!['╮']) + text_strokes(
            x,
            y + 1,
            seq!['│'] + pad(lab, w - 2) + seq!['│'],
        ) + text_strokes(x, y + 2, seq!['╰'] + rep('─', w - 2) + seq!['╯']),
    }
}

pub open spec fn shapes_upto(d: Dia, k: int) -> Seq<Stroke>
    decreases k,
{
    if k <= 0 {
        seq![]
    } else {
        shapes_upto(d, k - 1) + shape_strokes(d, k - 1)
    }
}

pub open spec fn opt(c: bool, t: Stroke) -> Seq<Stroke> {
    if c {
        seq![t]
    } else {
        seq![]
    }
}

pub open spec fn label_strokes(x: int, y: int, l: Option<Seq<char>>) -> Seq<Stroke> {
    match l {
        Some(t) => text_strokes(x, y, t),
        None => seq![],
    }
}

/// First row of region `r`, just under the shapes of row `r`.
pub open spec fn region_top(d: Dia, r: int) -> int {
    row_y(d, r) + 3
}

pub open spec fn region_bottom(d: Dia, r: int) -> int {
    region_top(d, r) + region_height(d, r)
}

/// The row where labels of lines sit, just above the arrow heads.
pub open spec fn entry_row(d: Dia, r: int) -> int {
    if levels(d, r) > 0 || region_height(d, r) > 2 {
        region_bottom(d, r) - 2
    } else {
        region_top(d, r)
    }
}

/// A line drawn straight down.
pub open spec fn direct_strokes(d: Dia, r: int, e: int) -> Seq<Stroke> {
    let (u, l, au, al) = vertical(d, e);
    let x = center(d, u as int);
    let top = region_top(d, r);
    let bottom = region_bottom(d, r);
    vline(x, top, bottom, '│') + opt(au, (x, top, '▲')) + seq![
        (x, bottom - 1, if al { '▼' } else { '│' }),
    ] + label_strokes(x + 2, entry_row(d, r), d.edges[e].label)
}

pub open spec fn directs_upto(d: Dia, r: int, k: int) -> Seq<Stroke>
    decreases k,
{
    if k <= 0 {
        seq![]
    } else {
        directs_upto(d, r, k - 1) + direct_strokes(d, r, directs(d, r)[k - 1] as int)
    }
}

pub open spec fn arrow_up(d: Dia, b: BusSpec, u: int) -> bool {
    exists|i: int| 0 <= i < b.edges.len() && upper(d, #[trigger] b.edges[i] as int) == u && vertical(d, b.edges[i] as int).2
}

pub open spec fn arrow_down(d: Dia, b: BusSpec, l: int) -> bool {
    exists|i: int| 0 <= i < b.edges.len() && lower(d, #[trigger] b.edges[i] as int) == l && vertical(d, b.edges[i] as int).3
}

pub open spec fn uppers_strokes(d: Dia, r: int, b: BusSpec, row: int, k: int) -> Seq<Stroke>
    decreases k,
{
    if k <= 0 {
        seq![]
    } else {
        let u = b.uppers[k - 1] as int;
        let x = center(d, u);
        uppers_strokes(d, r, b, row, k - 1) + vline(x, region_top(d, r), row, '│') + opt(
            arrow_up(d, b, u),
            (x, region_top(d, r), '▲'),
        )
    }
}

pub open spec fn lowers_strokes(d: Dia, r: int, b: BusSpec, row: int, k: int) -> Seq<Stroke>
    decreases k,
{
    if k <= 0 {
        seq![]
    } else {
        let l = b.lowers[k - 1] as int;
        let x = center(d, l);
        lowers_strokes(d, r, b, row, k - 1) + vline(x, row + 1, region_bottom(d, r), '│') + seq![
            (x, region_bottom(d, r) - 1, if arrow_down(d, b, l) { '▼' } else { '│' }),
        ]
    }
}

/// The junction drawn where a bus meets a line from above and/or below.
pub open spec fn junction(first: bool, last: bool, above: bool, below: bool) -> Option<char> {
    if above && below {
        Some('┼')
    } else if first && last && (above || below) {
        Some('│')
    } else if first && above {
        Some('└')
    } else if first && below {
        Some('┌')
    } else if last && above {
        Some('┘')
    } else if last && below {
        Some('┐')
    } else if above {
        Some('┴')
    } else if below {
        Some('┬')
    } else {
        None
    }
}

pub open spec fn has_center(d: Dia, s: Seq<nat>, x: int) -> bool {
    exists|i: int| 0 <= i < s.len() && center(d, #[trigger] s[i] as int) == x
}

pub open spec fn junctions_upto(d: Dia, b: BusSpec, row: int, lo: int, hi: int, k: int) -> Seq<Stroke>
    decreases k,
{
    if k <= 0 {
        seq![]
    } else {
        let x = lo + k - 1;
        let rest = junctions_upto(d, b, row, lo, hi, k - 1);
        match junction(x == lo, x == hi, has_center(d, b.uppers, x), has_center(d, b.lowers, x)) {
            Some(c) => rest.push((x, row, c)),
            None => rest,
        }
    }
}

pub open spec fn count_into(d: Dia, b: BusSpec, l: int, k: int) -> int
    decreases k,
{
    if k <= 0 {
        0
    } else {
        count_into(d, b, l, k - 1) + if lower(d, b.edges[k - 1] as int) == l { 1int } else { 0int }
    }
}

/// Labels sit on the segment that belongs to one line only.
pub open spec fn bus_labels_upto(d: Dia, r: int, b: BusSpec, k: int) -> Seq<Stroke>
    decreases k,
{
    if k <= 0 {
        seq![]
    } else {
        let e = b.edges[k - 1] as int;
        let rest = bus_labels_upto(d, r, b, k - 1);
        match d.edges[e].label {
            None => rest,
            Some(lab) => {
                if count_into(d, b, lower(d, e), b.edges.len() as int) == 1 {
                    rest + text_strokes(center(d, lower(d, e)) + 2, entry_row(d, r), lab)
                } else {
                    rest + text_strokes(center(d, upper(d, e)) + 2, region_top(d, r), lab)
                }
            },
        }
    }
}

pub open spec fn bus_strokes(d: Dia, r: int, b: BusSpec, level: int) -> Seq<Stroke> {
    let row = region_top(d, r) + 1 + level;
    let lo = span_lo(d, b);
    let hi = span_hi(d, b);
    hline(row, lo, hi + 1, '─') + uppers_strokes(d, r, b, row, b.uppers.len() as int)
        + lowers_strokes(d, r, b, row, b.lowers.len() as int) + junctions_upto(
        d,
        b,
        row,
        lo,
        hi,
        hi - lo + 1,
    ) + bus_labels_upto(d, r, b, b.edges.len() as int)
}

pub open spec fn buses_strokes_upto(d: Dia, r: int, k: int) -> Seq<Stroke>
    decreases k,
{
    if k <= 0 {
        seq![]
    } else {
        buses_strokes_upto(d, r, k - 1) + bus_strokes(d, r, buses(d, r)[k - 1], bus_level(d, r, k - 1))
    }
}

/// Everything drawn between row `r` and row `r + 1`.
pub open spec fn region_strokes(d: Dia, r: int) -> Seq<Stroke> {
    directs_upto(d, r, directs(d, r).len() as int) + buses_strokes_upto(d, r, buses(d, r).len() as int)
}

pub open spec fn regions_upto(d: Dia, k: int) -> Seq<Stroke>
    decreases k,
{
    if k <= 0 {
        seq![]
    } else {
        regions_upto(d, k - 1) + region_strokes(d, k - 1)
    }
}

/// A line between neighbours on one row, drawn across the gap between them.
pub open spec fn same_row_strokes(d: Dia, e: int) -> Seq<Stroke> {
    let (a, b, aa, ab) = vertical(d, e);
    let (left, right, arrow_left, arrow_right) = if node_x(d, a as int) < node_x(d, b as int) {
        (a as int, b as int, aa, ab)
    } else {
        (b as int, a as int, ab, aa)
    };
    let y = node_y(d, left) + 1;
    hline(y, right_of(d, left), node_x(d, right), '─') + opt(arrow_left, (right_of(d, left), y, '◀'))
        + opt(arrow_right, (node_x(d, right) - 1, y, '▶')) + label_strokes(right_of(d, left), y - 1, d.edges[e].label)
}

pub open spec fn is_same_row(d: Dia, e: int) -> bool {
    d.nodes[upper(d, e)].row == d.nodes[lower(d, e)].row && neighbours(d, upper(d, e), lower(d, e))
}

pub open spec fn same_rows_upto(d: Dia, k: int) -> Seq<Stroke>
    decreases k,
{
    if k <= 0 {
        seq![]
    } else {
        same_rows_upto(d, k - 1) + if is_same_row(d, k - 1) {
            same_row_strokes(d, k - 1)
        } else {
            seq![]
        }
    }
}

/// A line routed down (or up) the channel at column `col`.
pub open spec fn side_strokes(d: Dia, e: int, col: int) -> Seq<Stroke> {
    let (u, l, au, al) = vertical(d, e);
    let uy = node_y(d, u as int) + 1;
    let ly = node_y(d, l as int) + 1;
    let leads = hline(uy, right_of(d, u as int), col, '─') + hline(ly, right_of(d, l as int), col, '─');
    if uy == ly {
        leads + vline(col, uy, uy + 3, '│') + seq![(col, uy, '┐'), (col, uy + 2, '┘')]
    } else {
        leads + vline(col, uy + 1, ly, '│') + seq![(col, uy, '┐'), (col, ly, '┘')] + opt(
            au,
            (right_of(d, u as int), uy, '◀'),
        ) + opt(al, (right_of(d, l as int), ly, '◀')) + label_strokes(col + 2, (uy + ly) / 2, d.edges[e].label)
    }
}

pub open spec fn sides_upto(d: Dia, k: int) -> Seq<Stroke>
    decreases k,
{
    if k <= 0 {
        seq![]
    } else {
        sides_upto(d, k - 1) + side_strokes(d, side_edges(d)[k - 1] as int, channel(d, k - 1))
    }
}

/// Everything drawn, in order: shapes, the lines between rows, lines between neighbours,
/// side channels.
pub open spec fn all_strokes(d: Dia) -> Seq<Stroke> {
    shapes_upto(d, d.nodes.len() as int) + regions_upto(d, d.rows.len() - 1) + same_rows_upto(
        d,
        d.edges.len() as int,
    ) + sides_upto(d, side_edges(d).len() as int)
}

/// The drawing of a diagram, as text lines.
pub open spec fn picture(d: Dia) -> Seq<Seq<char>> {
    grid_lines(apply(blank(grid_width(d), grid_height(d)), all_strokes(d)))
}


// ----- where everything stands ----------------------------------------------------------

/// Rows lie below this: `lim() * (lim() + 6)`.
pub open spec fn ymax() -> int {
    if usize::MAX == 0xffff_ffff {
        0x2000int * 0x2006
    } else {
        0x1000_0000int * 0x1000_0006
    }
}

/// Widths, left columns, centres and top rows of the shapes, and the plan of each region.
pub struct Layout {
    pub ws: Vec<usize>,
    pub xs: Vec<usize>,
    pub cs: Vec<usize>,
    pub ys: Vec<usize>,
    pub plans: Vec<RegionPlan>,
    pub content: usize,
}

pub open spec fn layout_ok(d: &Diagram, lay: &Layout) -> bool {
    &&& lay.ws.len() == d.nodes.len()
    &&& lay.xs.len() == d.nodes.len()
    &&& forall|n: int| 0 <= n < lay.ws.len() ==> #[trigger] lay.ws@[n] as int == node_w(d.dia(), n)
    &&& forall|n: int| 0 <= n < lay.ws.len() ==> #[trigger] lay.ws@[n] <= lim() + 6
    &&& forall|n: int| 0 <= n < lay.xs.len() ==> #[trigger] lay.xs@[n] as int == node_x(d.dia(), n)
    &&& forall|n: int| 0 <= n < lay.xs.len() ==> #[trigger] lay.xs@[n] + lay.ws@[n] <= lay.content
    &&& lay.content as int == content_width(d.dia())
    &&& lay.content <= max_col()
    &&& centers_ok(d, &lay.cs)
    &&& lay.ys.len() == d.rows.len()
    &&& forall|r: int| 0 <= r < lay.ys.len() ==> #[trigger] lay.ys@[r] as int == row_y(d.dia(), r)
    &&& forall|r: int| 0 <= r < lay.ys.len() ==> #[trigger] lay.ys@[r] <= ymax()
    &&& lay.plans.len() + 1 == d.rows.len()
    &&& forall|r: int| 0 <= r < lay.plans.len() ==> plan_ok(d, #[trigger] lay.plans@[r], r)
}

pub proof fn lemma_rows_le_nodes(d: Dia, r: int)
    requires
        dia_wf(d),
        0 <= r <= d.rows.len(),
    ensures
        row_start(d.rows, r) >= r,
    decreases r,
{
    if r > 0 {
        lemma_rows_le_nodes(d, r - 1);
    }
}

fn layout(d: &Diagram) -> (lay: Layout)
    requires
        d.wf(),
        small(d.dia()),
        d.rows.len() > 0,
    ensures
        layout_ok(d, &lay),
{
    let ghost dd = d.dia();
    let ws = node_widths(d);
    let (xs, content) = node_xs(d, &ws);
    let mut cs: Vec<usize> = Vec::new();
    let mut n: usize = 0;
    while n < d.nodes.len()
        invariant
            dd == d.dia(),
            ws.len() == d.nodes.len(),
            xs.len() == d.nodes.len(),
            forall|k: int| 0 <= k < ws.len() ==> ws@[k] as int == node_w(dd, k),
            forall|k: int| 0 <= k < xs.len() ==> xs@[k] as int == node_x(dd, k),
            forall|k: int| 0 <= k < xs.len() ==> xs@[k] + ws@[k] <= content,
            content <= max_col(),
            0 <= n <= d.nodes.len(),
            cs.len() == n,
            forall|k: int| 0 <= k < n ==> cs@[k] as int == center(dd, k),
            forall|k: int| 0 <= k < n ==> cs@[k] <= max_col(),
        decreases d.nodes.len() - n,
    {
        assert(xs@[n as int] + ws@[n as int] <= content);
        cs.push(xs[n] + ws[n] / 2);
        n = n + 1;
    }
    proof {
        lemma_rows_le_nodes(dd, dd.rows.len() as int);
    }
    let nr = d.rows.len();
    let mut ys: Vec<usize> = Vec::new();
    let mut plans: Vec<RegionPlan> = Vec::new();
    let mut y: usize = 0;
    let mut r: usize = 0;
    while r + 1 < nr
        invariant
            dd == d.dia(),
            d.wf(),
            small(dd),
            centers_ok(d, &cs),
            nr == d.rows.len(),
            nr <= lim(),
            0 <= r < nr,
            ys.len() == r,
            plans.len() == r,
            y as int == row_y(dd, r as int),
            y <= r * (lim() + 6),
            forall|k: int| 0 <= k < r ==> #[trigger] ys@[k] as int == row_y(dd, k),
            forall|k: int| 0 <= k < r ==> #[trigger] ys@[k] <= ymax(),
            forall|k: int| 0 <= k < r ==> plan_ok(d, #[trigger] plans@[k], k),
        decreases nr - r,
    {
        proof {
            lemma_lim();
        }
        assert(y <= ymax()) by (nonlinear_arith)
            requires
                y <= r * (lim() + 6),
                r < lim(),
                ymax() == lim() * (lim() + 6),
        ;
        ys.push(y);
        let p = region_plan(d, &cs, r);
        assert(y + 3 + p.height <= ymax()) by (nonlinear_arith)
            requires
                y <= r * (lim() + 6),
                p.height <= lim() + 3,
                r + 1 < lim(),
                ymax() == lim() * (lim() + 6),
        ;
        let ghost y0 = y;
        let ghost r0 = r;
        let ghost h = p.height;
        y = y + 3 + p.height;
        plans.push(p);
        r = r + 1;
        assert(y <= r * (lim() + 6)) by (nonlinear_arith)
            requires
                y0 <= r0 * (lim() + 6),
                h <= lim() + 3,
                y == y0 + 3 + h,
                r == r0 + 1,
        ;
    }
    proof {
        lemma_lim();
    }
    assert(y <= ymax()) by (nonlinear_arith)
        requires
            y <= r * (lim() + 6),
            r < lim(),
            ymax() == lim() * (lim() + 6),
    ;
    ys.push(y);
    Layout { ws, xs, cs, ys, plans, content }
}


// ----- drawing the shapes -------------------------------------------------------------

fn rep_exec(c: char, n: usize) -> (r: Vec<char>)
    ensures
        r@ == rep(c, n as int),
{
    let mut r: Vec<char> = Vec::new();
    let mut i: usize = 0;
    while i < n
        invariant
            0 <= i <= n,
            r@ == rep(c, i as int),
        decreases n - i,
    {
        r.push(c);
        i = i + 1;
        assert(r@ =~= rep(c, i as int));
    }
    assert(r@ =~= rep(c, n as int));
    r
}

fn pad_exec(s: &Vec<char>, width: usize) -> (r: Vec<char>)
    ensures
        r@ == pad(s@, width as int),
        r@.len() <= s@.len() + width,
{
    let tw = text_width(s);
    let extra = if width > tw {
        width - tw
    } else {
        0
    };
    let left = extra / 2;
    let mut r = rep_exec(' ', left);
    push_all(&mut r, s);
    let right = rep_exec(' ', extra - left);
    push_all(&mut r, &right);
    proof {
        assert(rep(' ', left as int) =~= spaces(left as int));
        assert(rep(' ', (extra - left) as int) =~= spaces((extra - left) as int));
    }
    r
}

/// `a`, then `mid`, then `b`.
fn framed(a: &Vec<char>, mid: &Vec<char>, b: char) -> (r: Vec<char>)
    ensures
        r@ == a@ + mid@ + seq![b],
{
    let mut r = a.clone();
    push_all(&mut r, mid);
    r.push(b);
    r
}

proof fn lemma_apply3(g: GridSpec, a: Seq<Stroke>, b: Seq<Stroke>, c: Seq<Stroke>)
    ensures
        apply(g, a + b + c) == apply(apply(apply(g, a), b), c),
{
    lemma_apply_concat(g, a + b, c);
    lemma_apply_concat(g, a, b);
}

/// Draws shape `n`.
fn draw_shape(g: &mut Grid, d: &Diagram, lay: &Layout, n: usize)
    requires
        grid_ok(old(g).spec()),
        d.wf(),
        small(d.dia()),
        layout_ok(d, lay),
        n < d.nodes.len(),
    ensures
        grid_ok(final(g).spec()),
        final(g).spec() == apply(old(g).spec(), shape_strokes(d.dia(), n as int)),
{
    let ghost dd = d.dia();
    let ghost g0 = g.spec();
    let node = &d.nodes[n];
    let x = lay.xs[n];
    let y = lay.ys[node.row];
    let w = lay.ws[n];
    proof {
        assert(dd.nodes[n as int] == node.spec());
        assert(node.label@.len() <= lim());
        assert(text_columns(node.label@) <= lim());
        assert(y as int == node_y(dd, n as int));
        assert(x + w <= lay.content);
        assert(w as int == text_columns(node.label@) + shape_extra(node.shape));
    }
    let ghost lab = node.label@;
    match node.shape {
        Shape::Diamond => {
            let mut a1: Vec<char> = Vec::new();
            a1.push(' ');
            a1.push('╱');
            let top_mid = rep_exec('‾', w - 4);
            let t1 = framed(&a1, &top_mid, '╲');
            let a2 = vec!['⟨'];
            let mid = pad_exec(&node.label, w - 2);
            let t2 = framed(&a2, &mid, '⟩');
            let mut a3: Vec<char> = Vec::new();
            a3.push(' ');
            a3.push('╲');
            let bot_mid = rep_exec('_', w - 4);
            let t3 = framed(&a3, &bot_mid, '╱');
            proof {
                assert(a1@ =~= seq![' ', '╱']);
                assert(a2@ =~= seq!['⟨']);
                assert(a3@ =~= seq![' ', '╲']);
                lemma_apply3(
                    g0,
                    text_strokes(x as int, y as int, t1@),
                    text_strokes(x as int, y + 1, t2@),
                    text_strokes(x as int, y + 2, t3@),
                );
            }
            g.text(x, y, &t1);
            g.text(x, y + 1, &t2);
            g.text(x, y + 2, &t3);
        },
        _ => {
            let (tl, tr, bl, br) = if node.shape == Shape::Box {
                ('┌', '┐', '└', '┘')
            } else {
                ('╭', '╮', '╰', '╯')
            };
            let a1 = vec![tl];
            let line = rep_exec('─', w - 2);
            let t1 = framed(&a1, &line, tr);
            let a2 = vec!['│'];
            let mid = pad_exec(&node.label, w - 2);
            let t2 = framed(&a2, &mid, '│');
            let a3 = vec![bl];
            let t3 = framed(&a3, &line, br);
            proof {
                assert(a1@ =~= seq![tl]);
                assert(a2@ =~= seq!['│']);
                assert(a3@ =~= seq![bl]);
                lemma_apply3(
                    g0,
                    text_strokes(x as int, y as int, t1@),
                    text_strokes(x as int, y + 1, t2@),
                    text_strokes(x as int, y + 2, t3@),
                );
            }
            g.text(x, y, &t1);
            g.text(x, y + 1, &t2);
            g.text(x, y + 2, &t3);
        },
    }
}


// ----- drawing the lines between rows -------------------------------------------------

pub proof fn lemma_apply_one(g: GridSpec, t: Stroke)
    ensures
        apply(g, seq![t]) == put(g, t.0, t.1, t.2),
{
    lemma_apply_push(g, Seq::<Stroke>::empty(), t);
    assert(Seq::<Stroke>::empty().push(t) =~= seq![t]);
}

/// Draws `c` at `(x, y)` when `cond` holds.
fn put_if(g: &mut Grid, cond: bool, x: usize, y: usize, c: char)
    requires
        grid_ok(old(g).spec()),
        x < usize::MAX,
    ensures
        grid_ok(final(g).spec()),
        final(g).spec() == apply(old(g).spec(), opt(cond, (x as int, y as int, c))),
{
    proof {
        lemma_apply_one(g.spec(), (x as int, y as int, c));
    }
    if cond {
        g.put(x, y, c);
    }
}

/// Draws a line's label, if it has one, from `(x, y)`.
fn label_at(g: &mut Grid, d: &Diagram, e: usize, x: usize, y: usize)
    requires
        grid_ok(old(g).spec()),
        d.wf(),
        small(d.dia()),
        e < d.edges.len(),
        x <= coord_max(),
    ensures
        grid_ok(final(g).spec()),
        final(g).spec() == apply(old(g).spec(), label_strokes(x as int, y as int, d.dia().edges[e as int].label)),
{
    assert(d.dia().edges[e as int] == d.edges@[e as int].spec());
    match &d.edges[e].label {
        Some(l) => {
            assert(d.dia().edges[e as int].label == Some(l@));
            g.text(x, y, l);
        },
        None => {},
    }
}

/// The rows a region spans: top, bottom, and the row labels sit on.
fn region_rows(d: &Diagram, lay: &Layout, r: usize) -> (t: (usize, usize, usize))
    requires
        d.wf(),
        small(d.dia()),
        layout_ok(d, lay),
        r + 1 < d.rows.len(),
    ensures
        t.0 as int == region_top(d.dia(), r as int),
        t.1 as int == region_bottom(d.dia(), r as int),
        t.2 as int == entry_row(d.dia(), r as int),
        t.0 + 2 <= t.1,
        t.1 <= ymax() + lim() + 6,
{
    let top = lay.ys[r] + 3;
    let p = &lay.plans[r];
    assert(plan_ok(d, *p, r as int));
    let bottom = top + p.height;
    let entry = if p.levels > 0 || p.height > 2 {
        bottom - 2
    } else {
        top
    };
    (top, bottom, entry)
}

/// Draws line `e` straight down region `r`.
fn draw_direct(g: &mut Grid, d: &Diagram, lay: &Layout, r: usize, e: usize)
    requires
        grid_ok(old(g).spec()),
        d.wf(),
        small(d.dia()),
        layout_ok(d, lay),
        r + 1 < d.rows.len(),
        e < d.edges.len(),
    ensures
        grid_ok(final(g).spec()),
        final(g).spec() == apply(old(g).spec(), direct_strokes(d.dia(), r as int, e as int)),
{
    let ghost dd = d.dia();
    let ghost g0 = g.spec();
    let (top, bottom, entry) = region_rows(d, lay, r);
    let (u, l, au, al) = vertical_exec(d, e);
    let x = lay.cs[u];
    let ghost s1 = vline(x as int, top as int, bottom as int, '│');
    let ghost s2 = opt(au, (x as int, top as int, '▲'));
    let ghost s3: Seq<Stroke> = seq![(x as int, bottom - 1, if al { '▼' } else { '│' })];
    let ghost s4 = label_strokes(x + 2, entry as int, dd.edges[e as int].label);
    proof {
        lemma_apply_concat(g0, s1 + s2 + s3, s4);
        lemma_apply_concat(g0, s1 + s2, s3);
        lemma_apply_concat(g0, s1, s2);
        lemma_apply_one(apply(g0, s1 + s2), (x as int, bottom - 1, if al { '▼' } else { '│' }));
    }
    g.vline(x, top, bottom, '│');
    put_if(g, au, x, top, '▲');
    g.put(x, bottom - 1, if al { '▼' } else { '│' });
    label_at(g, d, e, x + 2, entry);
}


fn arrow_up_exec(d: &Diagram, b: &Bus, u: usize) -> (r: bool)
    requires
        d.wf(),
        bus_ok(d, *b),
    ensures
        r == arrow_up(d.dia(), b.spec(), u as int),
{
    let ghost dd = d.dia();
    let ghost bs = b.spec();
    let mut i: usize = 0;
    while i < b.edges.len()
        invariant
            dd == d.dia(),
            bs == b.spec(),
            d.wf(),
            bus_ok(d, *b),
            0 <= i <= b.edges.len(),
            forall|k: int| 0 <= k < i ==> !(upper(dd, #[trigger] bs.edges[k] as int) == u && vertical(dd, bs.edges[k] as int).2),
        decreases b.edges.len() - i,
    {
        let (uu, _, au, _) = vertical_exec(d, b.edges[i]);
        assert(bs.edges[i as int] == b.edges@[i as int]);
        if uu == u && au {
            return true;
        }
        i = i + 1;
    }
    false
}

fn arrow_down_exec(d: &Diagram, b: &Bus, l: usize) -> (r: bool)
    requires
        d.wf(),
        bus_ok(d, *b),
    ensures
        r == arrow_down(d.dia(), b.spec(), l as int),
{
    let ghost dd = d.dia();
    let ghost bs = b.spec();
    let mut i: usize = 0;
    while i < b.edges.len()
        invariant
            dd == d.dia(),
            bs == b.spec(),
            d.wf(),
            bus_ok(d, *b),
            0 <= i <= b.edges.len(),
            forall|k: int| 0 <= k < i ==> !(lower(dd, #[trigger] bs.edges[k] as int) == l && vertical(dd, bs.edges[k] as int).3),
        decreases b.edges.len() - i,
    {
        let (_, ll, _, al) = vertical_exec(d, b.edges[i]);
        assert(bs.edges[i as int] == b.edges@[i as int]);
        if ll == l && al {
            return true;
        }
        i = i + 1;
    }
    false
}

fn has_center_exec(d: &Diagram, lay: &Layout, s: &Vec<usize>, x: usize) -> (r: bool)
    requires
        layout_ok(d, lay),
        forall|i: int| 0 <= i < s.len() ==> #[trigger] s@[i] < d.nodes.len(),
    ensures
        r == has_center(d.dia(), nats(s@), x as int),
{
    let ghost ns = nats(s@);
    let mut i: usize = 0;
    while i < s.len()
        invariant
            layout_ok(d, lay),
            ns == nats(s@),
            forall|k: int| 0 <= k < s.len() ==> #[trigger] s@[k] < d.nodes.len(),
            0 <= i <= s.len(),
            forall|k: int| 0 <= k < i ==> center(d.dia(), #[trigger] ns[k] as int) != x,
        decreases s.len() - i,
    {
        assert(ns[i as int] == s@[i as int]);
        if lay.cs[s[i]] == x {
            return true;
        }
        i = i + 1;
    }
    false
}

fn count_into_exec(d: &Diagram, b: &Bus, l: usize) -> (r: usize)
    requires
        d.wf(),
        bus_ok(d, *b),
    ensures
        r as int == count_into(d.dia(), b.spec(), l as int, b.edges.len() as int),
{
    let ghost dd = d.dia();
    let ghost bs = b.spec();
    let mut n: usize = 0;
    let mut i: usize = 0;
    while i < b.edges.len()
        invariant
            dd == d.dia(),
            bs == b.spec(),
            d.wf(),
            bus_ok(d, *b),
            0 <= i <= b.edges.len(),
            n <= i,
            n as int == count_into(dd, bs, l as int, i as int),
        decreases b.edges.len() - i,
    {
        let (_, ll, _, _) = vertical_exec(d, b.edges[i]);
        assert(bs.edges[i as int] == b.edges@[i as int]);
        if ll == l {
            n = n + 1;
        }
        i = i + 1;
    }
    n
}

fn junction_exec(first: bool, last: bool, above: bool, below: bool) -> (r: Option<char>)
    ensures
        r == junction(first, last, above, below),
{
    if above && below {
        Some('┼')
    } else if first && last && (above || below) {
        Some('│')
    } else if first && above {
        Some('└')
    } else if first && below {
        Some('┌')
    } else if last && above {
        Some('┘')
    } else if last && below {
        Some('┐')
    } else if above {
        Some('┴')
    } else if below {
        Some('┬')
    } else {
        None
    }
}

/// The lines from the upper shapes of bus `b` down to its bus row.
fn draw_uppers(g: &mut Grid, d: &Diagram, lay: &Layout, r: usize, b: &Bus, row: usize)
    requires
        grid_ok(old(g).spec()),
        d.wf(),
        small(d.dia()),
        layout_ok(d, lay),
        r + 1 < d.rows.len(),
        bus_ok(d, *b),
    ensures
        grid_ok(final(g).spec()),
        final(g).spec() == apply(
            old(g).spec(),
            uppers_strokes(d.dia(), r as int, b.spec(), row as int, b.uppers.len() as int),
        ),
{
    let ghost dd = d.dia();
    let ghost bs = b.spec();
    let ghost g0 = g.spec();
    let (top, _, _) = region_rows(d, lay, r);
    let mut k: usize = 0;
    while k < b.uppers.len()
        invariant
            grid_ok(g.spec()),
            dd == d.dia(),
            bs == b.spec(),
            d.wf(),
            small(dd),
            layout_ok(d, lay),
            r + 1 < d.rows.len(),
            bus_ok(d, *b),
            top as int == region_top(dd, r as int),
            0 <= k <= b.uppers.len(),
            g.spec() == apply(g0, uppers_strokes(dd, r as int, bs, row as int, k as int)),
        decreases b.uppers.len() - k,
    {
        let u = b.uppers[k];
        assert(bs.uppers[k as int] == u);
        let x = lay.cs[u];
        let up = arrow_up_exec(d, b, u);
        proof {
            lemma_apply3(
                g0,
                uppers_strokes(dd, r as int, bs, row as int, k as int),
                vline(x as int, top as int, row as int, '│'),
                opt(up, (x as int, top as int, '▲')),
            );
        }
        g.vline(x, top, row, '│');
        put_if(g, up, x, top, '▲');
        k = k + 1;
    }
}

/// The lines from the bus row of bus `b` down to its lower shapes.
fn draw_lowers(g: &mut Grid, d: &Diagram, lay: &Layout, r: usize, b: &Bus, row: usize)
    requires
        grid_ok(old(g).spec()),
        d.wf(),
        small(d.dia()),
        layout_ok(d, lay),
        r + 1 < d.rows.len(),
        bus_ok(d, *b),
        row < usize::MAX,
    ensures
        grid_ok(final(g).spec()),
        final(g).spec() == apply(
            old(g).spec(),
            lowers_strokes(d.dia(), r as int, b.spec(), row as int, b.lowers.len() as int),
        ),
{
    let ghost dd = d.dia();
    let ghost bs = b.spec();
    let ghost g0 = g.spec();
    let (_, bottom, _) = region_rows(d, lay, r);
    let mut k: usize = 0;
    while k < b.lowers.len()
        invariant
            grid_ok(g.spec()),
            dd == d.dia(),
            bs == b.spec(),
            d.wf(),
            small(dd),
            layout_ok(d, lay),
            r + 1 < d.rows.len(),
            bus_ok(d, *b),
            row < usize::MAX,
            bottom as int == region_bottom(dd, r as int),
            bottom >= 2,
            0 <= k <= b.lowers.len(),
            g.spec() == apply(g0, lowers_strokes(dd, r as int, bs, row as int, k as int)),
        decreases b.lowers.len() - k,
    {
        let l = b.lowers[k];
        assert(bs.lowers[k as int] == l);
        let x = lay.cs[l];
        let down = arrow_down_exec(d, b, l);
        let c = if down {
            '▼'
        } else {
            '│'
        };
        proof {
            lemma_apply3(
                g0,
                lowers_strokes(dd, r as int, bs, row as int, k as int),
                vline(x as int, row + 1, bottom as int, '│'),
                seq![(x as int, bottom - 1, c)],
            );
            lemma_apply_one(
                apply(g0, lowers_strokes(dd, r as int, bs, row as int, k as int) + vline(x as int, row + 1, bottom as int, '│')),
                (x as int, bottom - 1, c),
            );
            lemma_apply_concat(
                g0,
                lowers_strokes(dd, r as int, bs, row as int, k as int),
                vline(x as int, row + 1, bottom as int, '│'),
            );
        }
        g.vline(x, row + 1, bottom, '│');
        g.put(x, bottom - 1, c);
        k = k + 1;
    }
}

/// The junctions along the bus row of bus `b`.
fn draw_junctions(g: &mut Grid, d: &Diagram, lay: &Layout, b: &Bus, row: usize)
    requires
        grid_ok(old(g).spec()),
        d.wf(),
        small(d.dia()),
        layout_ok(d, lay),
        bus_ok(d, *b),
    ensures
        grid_ok(final(g).spec()),
        final(g).spec() == apply(
            old(g).spec(),
            junctions_upto(d.dia(), b.spec(), row as int, b.lo as int, b.hi as int, b.hi - b.lo + 1),
        ),
{
    let ghost dd = d.dia();
    let ghost bs = b.spec();
    let ghost g0 = g.spec();
    let mut x = b.lo;
    while x <= b.hi
        invariant
            grid_ok(g.spec()),
            dd == d.dia(),
            bs == b.spec(),
            d.wf(),
            layout_ok(d, lay),
            bus_ok(d, *b),
            b.lo <= x <= b.hi + 1,
            g.spec() == apply(g0, junctions_upto(dd, bs, row as int, b.lo as int, b.hi as int, x - b.lo)),
        decreases b.hi + 1 - x,
    {
        let above = has_center_exec(d, lay, &b.uppers, x);
        let below = has_center_exec(d, lay, &b.lowers, x);
        let j = junction_exec(x == b.lo, x == b.hi, above, below);
        match j {
            Some(c) => {
                proof {
                    lemma_apply_push(
                        g0,
                        junctions_upto(dd, bs, row as int, b.lo as int, b.hi as int, x - b.lo),
                        (x as int, row as int, c),
                    );
                }
                g.put(x, row, c);
            },
            None => {},
        }
        x = x + 1;
    }
}

/// The labels of the lines of bus `b`.
fn draw_bus_labels(g: &mut Grid, d: &Diagram, lay: &Layout, r: usize, b: &Bus)
    requires
        grid_ok(old(g).spec()),
        d.wf(),
        small(d.dia()),
        layout_ok(d, lay),
        r + 1 < d.rows.len(),
        bus_ok(d, *b),
    ensures
        grid_ok(final(g).spec()),
        final(g).spec() == apply(old(g).spec(), bus_labels_upto(d.dia(), r as int, b.spec(), b.edges.len() as int)),
{
    let ghost dd = d.dia();
    let ghost bs = b.spec();
    let ghost g0 = g.spec();
    let (top, _, entry) = region_rows(d, lay, r);
    let mut k: usize = 0;
    while k < b.edges.len()
        invariant
            grid_ok(g.spec()),
            dd == d.dia(),
            bs == b.spec(),
            d.wf(),
            small(dd),
            layout_ok(d, lay),
            r + 1 < d.rows.len(),
            bus_ok(d, *b),
            top as int == region_top(dd, r as int),
            entry as int == entry_row(dd, r as int),
            0 <= k <= b.edges.len(),
            g.spec() == apply(g0, bus_labels_upto(dd, r as int, bs, k as int)),
        decreases b.edges.len() - k,
    {
        let e = b.edges[k];
        assert(bs.edges[k as int] == e);
        assert(dd.edges[e as int] == d.edges@[e as int].spec());
        match &d.edges[e].label {
            None => {},
            Some(lab) => {
                let (u, l, _, _) = vertical_exec(d, e);
                let n = count_into_exec(d, b, l);
                proof {
                    assert(dd.edges[e as int].label == Some(lab@));
                }
                if n == 1 {
                    proof {
                        lemma_apply_concat(
                            g0,
                            bus_labels_upto(dd, r as int, bs, k as int),
                            text_strokes(lay.cs@[l as int] + 2, entry as int, lab@),
                        );
                    }
                    g.text(lay.cs[l] + 2, entry, lab);
                } else {
                    proof {
                        lemma_apply_concat(
                            g0,
                            bus_labels_upto(dd, r as int, bs, k as int),
                            text_strokes(lay.cs@[u as int] + 2, top as int, lab@),
                        );
                    }
                    g.text(lay.cs[u] + 2, top, lab);
                }
            },
        }
        k = k + 1;
    }
}


/// Draws the `k`th bus of region `r`.
fn draw_bus(g: &mut Grid, d: &Diagram, lay: &Layout, r: usize, k: usize)
    requires
        grid_ok(old(g).spec()),
        d.wf(),
        small(d.dia()),
        layout_ok(d, lay),
        r + 1 < d.rows.len(),
        k < lay.plans@[r as int].buses.len(),
    ensures
        grid_ok(final(g).spec()),
        final(g).spec() == apply(
            old(g).spec(),
            bus_strokes(d.dia(), r as int, buses(d.dia(), r as int)[k as int], bus_level(d.dia(), r as int, k as int)),
        ),
{
    let ghost dd = d.dia();
    let ghost g0 = g.spec();
    let p = &lay.plans[r];
    assert(plan_ok(d, *p, r as int));
    let b = &p.buses[k];
    let level = p.bus_levels[k];
    assert(bus_ok(d, *b));
    let ghost bs = b.spec();
    assert(buses(dd, r as int)[k as int] == bs);
    let (top, _, _) = region_rows(d, lay, r);
    let row = top + 1 + level;
    let ghost s1 = hline(row as int, b.lo as int, b.hi + 1, '─');
    let ghost s2 = uppers_strokes(dd, r as int, bs, row as int, bs.uppers.len() as int);
    let ghost s3 = lowers_strokes(dd, r as int, bs, row as int, bs.lowers.len() as int);
    let ghost s4 = junctions_upto(dd, bs, row as int, b.lo as int, b.hi as int, b.hi - b.lo + 1);
    let ghost s5 = bus_labels_upto(dd, r as int, bs, bs.edges.len() as int);
    proof {
        lemma_apply_concat(g0, s1 + s2 + s3 + s4, s5);
        lemma_apply_concat(g0, s1 + s2 + s3, s4);
        lemma_apply3(g0, s1, s2, s3);
    }
    g.hline(row, b.lo, b.hi + 1, '─');
    draw_uppers(g, d, lay, r, b, row);
    draw_lowers(g, d, lay, r, b, row);
    draw_junctions(g, d, lay, b, row);
    draw_bus_labels(g, d, lay, r, b);
}

/// Draws everything between row `r` and row `r + 1`.
#[verifier::spinoff_prover]
#[verifier::rlimit(40)]
fn draw_region(g: &mut Grid, d: &Diagram, lay: &Layout, r: usize)
    requires
        grid_ok(old(g).spec()),
        d.wf(),
        small(d.dia()),
        layout_ok(d, lay),
        r + 1 < d.rows.len(),
    ensures
        grid_ok(final(g).spec()),
        final(g).spec() == apply(old(g).spec(), region_strokes(d.dia(), r as int)),
{
    let ghost dd = d.dia();
    let ghost g0 = g.spec();
    let p = &lay.plans[r];
    assert(plan_ok(d, *p, r as int));
    let mut k: usize = 0;
    while k < p.direct.len()
        invariant
            grid_ok(g.spec()),
            dd == d.dia(),
            d.wf(),
            small(dd),
            layout_ok(d, lay),
            r + 1 < d.rows.len(),
            p == &lay.plans@[r as int],
            plan_ok(d, *p, r as int),
            0 <= k <= p.direct.len(),
            g.spec() == apply(g0, directs_upto(dd, r as int, k as int)),
        decreases p.direct.len() - k,
    {
        let e = p.direct[k];
        assert(directs(dd, r as int)[k as int] == e);
        proof {
            lemma_apply_concat(g0, directs_upto(dd, r as int, k as int), direct_strokes(dd, r as int, e as int));
        }
        draw_direct(g, d, lay, r, e);
        k = k + 1;
    }
    let ghost g1 = g.spec();
    assert(p.direct.len() == directs(dd, r as int).len());
    let mut k: usize = 0;
    while k < p.buses.len()
        invariant
            grid_ok(g.spec()),
            dd == d.dia(),
            d.wf(),
            small(dd),
            layout_ok(d, lay),
            r + 1 < d.rows.len(),
            p == &lay.plans@[r as int],
            plan_ok(d, *p, r as int),
            0 <= k <= p.buses.len(),
            g.spec() == apply(g1, buses_strokes_upto(dd, r as int, k as int)),
        decreases p.buses.len() - k,
    {
        proof {
            lemma_apply_concat(
                g1,
                buses_strokes_upto(dd, r as int, k as int),
                bus_strokes(dd, r as int, buses(dd, r as int)[k as int], bus_level(dd, r as int, k as int)),
            );
        }
        draw_bus(g, d, lay, r, k);
        k = k + 1;
    }
    assert(p.buses.len() == buses(dd, r as int).len());
    proof {
        lemma_apply_concat(
            g0,
            directs_upto(dd, r as int, directs(dd, r as int).len() as int),
            buses_strokes_upto(dd, r as int, buses(dd, r as int).len() as int),
        );
    }
}


// ----- drawing lines within a row and down the side -------------------------------------

fn neighbours_exec(d: &Diagram, a: usize, b: usize) -> (r: bool)
    requires
        d.wf(),
        a < d.nodes.len(),
        b < d.nodes.len(),
    ensures
        r == neighbours(d.dia(), a as int, b as int),
{
    assert(d.dia().nodes[a as int] == d.nodes@[a as int].spec());
    assert(d.dia().nodes[b as int] == d.nodes@[b as int].spec());
    d.nodes[a].row == d.nodes[b].row && ((a > b && a - b == 1) || (b > a && b - a == 1))
}

/// Draws line `e` between neighbours on one row.
fn draw_same_row(g: &mut Grid, d: &Diagram, lay: &Layout, e: usize)
    requires
        grid_ok(old(g).spec()),
        d.wf(),
        small(d.dia()),
        layout_ok(d, lay),
        e < d.edges.len(),
    ensures
        grid_ok(final(g).spec()),
        final(g).spec() == apply(old(g).spec(), same_row_strokes(d.dia(), e as int)),
{
    let ghost dd = d.dia();
    let ghost g0 = g.spec();
    let (a, b, aa, ab) = vertical_exec(d, e);
    let (left, right, arrow_left, arrow_right) = if lay.xs[a] < lay.xs[b] {
        (a, b, aa, ab)
    } else {
        (b, a, ab, aa)
    };
    assert(dd.nodes[left as int] == d.nodes@[left as int].spec());
    let top = lay.ys[d.nodes[left].row];
    let y = top + 1;
    let from = lay.xs[left] + lay.ws[left];
    let to = lay.xs[right];
    assert(top as int == node_y(dd, left as int));
    let ghost s1 = hline(y as int, from as int, to as int, '─');
    let ghost s2 = opt(arrow_left, (from as int, y as int, '◀'));
    let ghost s3 = opt(arrow_right, (to - 1, y as int, '▶'));
    let ghost s4 = label_strokes(from as int, top as int, dd.edges[e as int].label);
    proof {
        lemma_apply_concat(g0, s1 + s2 + s3, s4);
        lemma_apply3(g0, s1, s2, s3);
        lemma_apply_one(apply(g0, s1 + s2), (to - 1, y as int, '▶'));
    }
    g.hline(y, from, to, '─');
    put_if(g, arrow_left, from, y, '◀');
    if to > 0 {
        put_if(g, arrow_right, to - 1, y, '▶');
    }
    label_at(g, d, e, from, top);
}

/// Draws line `e` down the channel at column `col`.
fn draw_side(g: &mut Grid, d: &Diagram, lay: &Layout, e: usize, col: usize)
    requires
        grid_ok(old(g).spec()),
        d.wf(),
        small(d.dia()),
        layout_ok(d, lay),
        e < d.edges.len(),
        col <= coord_max() - 2,
    ensures
        grid_ok(final(g).spec()),
        final(g).spec() == apply(old(g).spec(), side_strokes(d.dia(), e as int, col as int)),
{
    let ghost dd = d.dia();
    let ghost g0 = g.spec();
    let (u, l, au, al) = vertical_exec(d, e);
    assert(dd.nodes[u as int] == d.nodes@[u as int].spec());
    assert(dd.nodes[l as int] == d.nodes@[l as int].spec());
    let uy = lay.ys[d.nodes[u].row] + 1;
    let ly = lay.ys[d.nodes[l].row] + 1;
    let ur = lay.xs[u] + lay.ws[u];
    let lr = lay.xs[l] + lay.ws[l];
    let ghost leads = hline(uy as int, ur as int, col as int, '─') + hline(ly as int, lr as int, col as int, '─');
    assert(uy as int == node_y(dd, u as int) + 1);
    assert(ly as int == node_y(dd, l as int) + 1);
    assert(ur as int == right_of(dd, u as int));
    assert(lr as int == right_of(dd, l as int));
    proof {
        lemma_apply_concat(g0, hline(uy as int, ur as int, col as int, '─'), hline(ly as int, lr as int, col as int, '─'));
    }
    g.hline(uy, ur, col, '─');
    g.hline(ly, lr, col, '─');
    if uy == ly {
        let ghost s1 = vline(col as int, uy as int, uy + 3, '│');
        assert(seq![(col as int, uy as int, '┐'), (col as int, uy + 2, '┘')] =~= seq![(col as int, uy as int, '┐')] + seq![(col as int, uy + 2, '┘')]);
        assert(side_strokes(dd, e as int, col as int) == leads + s1 + seq![(col as int, uy as int, '┐'), (col as int, uy + 2, '┘')]);
        proof {
            lemma_apply3(g0, leads, s1, seq![(col as int, uy as int, '┐'), (col as int, uy + 2, '┘')]);
            lemma_apply_first(apply(g0, leads + s1), (col as int, uy as int, '┐'), seq![(col as int, uy + 2, '┘')]);
            lemma_apply_one(put(apply(g0, leads + s1), col as int, uy as int, '┐'), (col as int, uy + 2, '┘'));
            lemma_apply_concat(g0, leads, s1);
        }
        g.vline(col, uy, uy + 3, '│');
        g.put(col, uy, '┐');
        g.put(col, uy + 2, '┘');
        return;
    }
    let ghost s1 = vline(col as int, uy + 1, ly as int, '│');
    let ghost s2: Seq<Stroke> = seq![(col as int, uy as int, '┐'), (col as int, ly as int, '┘')];
    let ghost s3 = opt(au, (ur as int, uy as int, '◀'));
    let ghost s4 = opt(al, (lr as int, ly as int, '◀'));
    let ghost s5 = label_strokes(col + 2, (uy + ly) / 2, dd.edges[e as int].label);
    assert(s2 =~= seq![(col as int, uy as int, '┐')] + seq![(col as int, ly as int, '┘')]);
    assert(side_strokes(dd, e as int, col as int) == leads + s1 + s2 + s3 + s4 + s5);
    proof {
        lemma_apply_concat(g0, leads + s1 + s2 + s3 + s4, s5);
        lemma_apply_concat(g0, leads + s1 + s2 + s3, s4);
        lemma_apply_concat(g0, leads + s1 + s2, s3);
        lemma_apply3(g0, leads, s1, s2);
        lemma_apply_concat(g0, leads, s1);
        lemma_apply_first(apply(g0, leads + s1), (col as int, uy as int, '┐'), seq![(col as int, ly as int, '┘')]);
        lemma_apply_one(put(apply(g0, leads + s1), col as int, uy as int, '┐'), (col as int, ly as int, '┘'));
    }
    g.vline(col, uy + 1, ly, '│');
    g.put(col, uy, '┐');
    g.put(col, ly, '┘');
    put_if(g, au, ur, uy, '◀');
    put_if(g, al, lr, ly, '◀');
    label_at(g, d, e, col + 2, (uy + ly) / 2);
}


// ----- the whole drawing ---------------------------------------------------------------

fn shapes_right_exec(d: &Diagram, lay: &Layout) -> (m: usize)
    requires
        layout_ok(d, lay),
    ensures
        m as int == shapes_right(d.dia()),
        m <= lay.content,
{
    let mut m: usize = 0;
    let mut n: usize = 0;
    while n < lay.xs.len()
        invariant
            layout_ok(d, lay),
            0 <= n <= lay.xs.len(),
            m as int == max_right_upto(d.dia(), n as int),
            m <= lay.content,
        decreases lay.xs.len() - n,
    {
        let v = lay.xs[n] + lay.ws[n];
        if v > m {
            m = v;
        }
        n = n + 1;
    }
    m
}

fn grid_height_exec(d: &Diagram, lay: &Layout) -> (m: usize)
    requires
        d.wf(),
        layout_ok(d, lay),
    ensures
        m as int == grid_height(d.dia()),
        m <= ymax() + 3,
{
    let ghost dd = d.dia();
    let mut m: usize = 0;
    let mut n: usize = 0;
    while n < d.nodes.len()
        invariant
            dd == d.dia(),
            d.wf(),
            layout_ok(d, lay),
            0 <= n <= d.nodes.len(),
            m as int == max_bottom_upto(dd, n as int),
            m <= ymax() + 3,
        decreases d.nodes.len() - n,
    {
        assert(dd.nodes[n as int] == d.nodes@[n as int].spec());
        let v = lay.ys[d.nodes[n].row] + 3;
        if v > m {
            m = v;
        }
        n = n + 1;
    }
    m
}

fn is_side_exec(d: &Diagram, e: usize) -> (r: bool)
    requires
        d.wf(),
        e < d.edges.len(),
    ensures
        r == is_side(d.dia(), e as int),
{
    let (u, l, _, _) = vertical_exec(d, e);
    assert(d.dia().nodes[u as int] == d.nodes@[u as int].spec());
    assert(d.dia().nodes[l as int] == d.nodes@[l as int].spec());
    let ru = d.nodes[u].row;
    let rl = d.nodes[l].row;
    (rl > ru && rl - ru > 1) || (ru == rl && !neighbours_exec(d, u, l))
}

fn is_same_row_exec(d: &Diagram, e: usize) -> (r: bool)
    requires
        d.wf(),
        e < d.edges.len(),
    ensures
        r == is_same_row(d.dia(), e as int),
{
    let (u, l, _, _) = vertical_exec(d, e);
    assert(d.dia().nodes[u as int] == d.nodes@[u as int].spec());
    assert(d.dia().nodes[l as int] == d.nodes@[l as int].spec());
    d.nodes[u].row == d.nodes[l].row && neighbours_exec(d, u, l)
}

fn side_edges_exec(d: &Diagram) -> (s: Vec<usize>)
    requires
        d.wf(),
    ensures
        nats(s@) == side_edges(d.dia()),
        s.len() <= d.edges.len(),
        forall|i: int| 0 <= i < s.len() ==> #[trigger] s@[i] < d.edges.len(),
{
    let mut s: Vec<usize> = Vec::new();
    let mut e: usize = 0;
    while e < d.edges.len()
        invariant
            d.wf(),
            0 <= e <= d.edges.len(),
            nats(s@) == side_upto(d.dia(), e as int),
            s.len() <= e,
            forall|i: int| 0 <= i < s.len() ==> #[trigger] s@[i] < d.edges.len(),
        decreases d.edges.len() - e,
    {
        if is_side_exec(d, e) {
            s.push(e);
        }
        assert(nats(s@) =~= side_upto(d.dia(), e + 1));
        e = e + 1;
    }
    s
}

fn label_room_exec(d: &Diagram, side: &Vec<usize>) -> (m: usize)
    requires
        d.wf(),
        small(d.dia()),
        nats(side@) == side_edges(d.dia()),
        forall|i: int| 0 <= i < side.len() ==> #[trigger] side@[i] < d.edges.len(),
    ensures
        m as int == label_room(d.dia()),
        m <= lim(),
{
    let ghost dd = d.dia();
    let mut m: usize = 0;
    let mut k: usize = 0;
    while k < side.len()
        invariant
            dd == d.dia(),
            d.wf(),
            small(dd),
            nats(side@) == side_edges(dd),
            forall|i: int| 0 <= i < side.len() ==> #[trigger] side@[i] < d.edges.len(),
            0 <= k <= side.len(),
            m as int == room_upto(dd, side_edges(dd), k as int),
            m <= lim(),
        decreases side.len() - k,
    {
        let e = side[k];
        assert(side_edges(dd)[k as int] == e);
        assert(dd.edges[e as int] == d.edges@[e as int].spec());
        let v = match &d.edges[e].label {
            Some(l) => text_width(l),
            None => 0,
        };
        if v > m {
            m = v;
        }
        k = k + 1;
    }
    m
}

fn draw_shapes(g: &mut Grid, d: &Diagram, lay: &Layout)
    requires
        grid_ok(old(g).spec()),
        d.wf(),
        small(d.dia()),
        layout_ok(d, lay),
    ensures
        grid_ok(final(g).spec()),
        final(g).spec() == apply(old(g).spec(), shapes_upto(d.dia(), d.nodes.len() as int)),
{
    let ghost dd = d.dia();
    let ghost g0 = g.spec();
    let mut n: usize = 0;
    while n < d.nodes.len()
        invariant
            grid_ok(g.spec()),
            dd == d.dia(),
            d.wf(),
            small(dd),
            layout_ok(d, lay),
            0 <= n <= d.nodes.len(),
            g.spec() == apply(g0, shapes_upto(dd, n as int)),
        decreases d.nodes.len() - n,
    {
        proof {
            lemma_apply_concat(g0, shapes_upto(dd, n as int), shape_strokes(dd, n as int));
        }
        draw_shape(g, d, lay, n);
        n = n + 1;
    }
}

#[verifier::rlimit(40)]
fn draw_regions(g: &mut Grid, d: &Diagram, lay: &Layout)
    requires
        grid_ok(old(g).spec()),
        d.wf(),
        small(d.dia()),
        layout_ok(d, lay),
    ensures
        grid_ok(final(g).spec()),
        final(g).spec() == apply(old(g).spec(), regions_upto(d.dia(), d.rows.len() - 1)),
{
    let ghost dd = d.dia();
    let ghost g1 = g.spec();
    let mut r: usize = 0;
    while r + 1 < d.rows.len()
        invariant
            grid_ok(g.spec()),
            dd == d.dia(),
            d.wf(),
            small(dd),
            layout_ok(d, lay),
            0 <= r,
            r + 1 <= d.rows.len(),
            g.spec() == apply(g1, regions_upto(dd, r as int)),
        decreases d.rows.len() - r,
    {
        proof {
            lemma_apply_concat(g1, regions_upto(dd, r as int), region_strokes(dd, r as int));
        }
        draw_region(g, d, lay, r);
        r = r + 1;
    }
}

fn draw_same_rows(g: &mut Grid, d: &Diagram, lay: &Layout)
    requires
        grid_ok(old(g).spec()),
        d.wf(),
        small(d.dia()),
        layout_ok(d, lay),
    ensures
        grid_ok(final(g).spec()),
        final(g).spec() == apply(old(g).spec(), same_rows_upto(d.dia(), d.edges.len() as int)),
{
    let ghost dd = d.dia();
    let ghost g2 = g.spec();
    let mut e: usize = 0;
    while e < d.edges.len()
        invariant
            grid_ok(g.spec()),
            dd == d.dia(),
            d.wf(),
            small(dd),
            layout_ok(d, lay),
            0 <= e <= d.edges.len(),
            g.spec() == apply(g2, same_rows_upto(dd, e as int)),
        decreases d.edges.len() - e,
    {
        if is_same_row_exec(d, e) {
            proof {
                lemma_apply_concat(g2, same_rows_upto(dd, e as int), same_row_strokes(dd, e as int));
            }
            draw_same_row(g, d, lay, e);
        } else {
            assert(same_rows_upto(dd, e + 1) =~= same_rows_upto(dd, e as int));
        }
        e = e + 1;
    }
}

fn draw_sides(g: &mut Grid, d: &Diagram, lay: &Layout, side: &Vec<usize>, right: usize, room: usize)
    requires
        grid_ok(old(g).spec()),
        d.wf(),
        small(d.dia()),
        layout_ok(d, lay),
        nats(side@) == side_edges(d.dia()),
        forall|i: int| 0 <= i < side.len() ==> #[trigger] side@[i] < d.edges.len(),
        side.len() <= lim(),
        room <= lim(),
        room as int == label_room(d.dia()),
        right as int == shapes_right(d.dia()),
        right <= max_col(),
    ensures
        grid_ok(final(g).spec()),
        final(g).spec() == apply(old(g).spec(), sides_upto(d.dia(), side.len() as int)),
{
    let ghost dd = d.dia();
    let ghost g3 = g.spec();
    let mut k: usize = 0;
    while k < side.len()
        invariant
            grid_ok(g.spec()),
            dd == d.dia(),
            d.wf(),
            small(dd),
            layout_ok(d, lay),
            nats(side@) == side_edges(dd),
            forall|i: int| 0 <= i < side.len() ==> #[trigger] side@[i] < d.edges.len(),
            side.len() <= lim(),
            room <= lim(),
            room as int == label_room(dd),
            right as int == shapes_right(dd),
            right <= max_col(),
            0 <= k <= side.len(),
            g.spec() == apply(g3, sides_upto(dd, k as int)),
        decreases side.len() - k,
    {
        proof {
            lemma_lim();
        }
        assert(k * (3 + room) <= max_col()) by (nonlinear_arith)
            requires
                k <= lim(),
                room <= lim(),
                max_col() == lim() * (lim() + 10),
        ;
        let col = right + 2 + k * (3 + room);
        assert(side_edges(dd)[k as int] == side[k as int]);
        proof {
            lemma_apply_concat(g3, sides_upto(dd, k as int), side_strokes(dd, side[k as int] as int, col as int));
        }
        draw_side(g, d, lay, side[k], col);
        k = k + 1;
    }
}

/// Draws the diagram and returns its lines.
fn draw(d: &Diagram, lay: &Layout) -> (out: Vec<String>)
    requires
        d.wf(),
        small(d.dia()),
        layout_ok(d, lay),
    ensures
        out@.map_values(|l: String| l@) == picture(d.dia()),
{
    let ghost dd = d.dia();
    let right = shapes_right_exec(d, lay);
    let height = grid_height_exec(d, lay);
    let side = side_edges_exec(d);
    let room = label_room_exec(d, &side);
    assert(side.len() <= lim());
    let width = if side.len() == 0 {
        right
    } else {
        proof {
            lemma_lim();
        }
        assert((side.len() - 1) * (3 + room) <= max_col()) by (nonlinear_arith)
            requires
                side.len() <= lim(),
                side.len() >= 1,
                room <= lim(),
                max_col() == lim() * (lim() + 10),
        ;
        right + 2 + (side.len() - 1) * (3 + room) + 1 + room
    };
    assert(width as int == grid_width(dd));
    let mut g = Grid::new(width, height);
    let ghost g0 = g.spec();
    assert(g0 == blank(grid_width(dd), grid_height(dd)));
    draw_shapes(&mut g, d, lay);
    draw_regions(&mut g, d, lay);
    draw_same_rows(&mut g, d, lay);
    draw_sides(&mut g, d, lay, &side, right, room);
    proof {
        let all_a = shapes_upto(dd, dd.nodes.len() as int);
        let all_b = regions_upto(dd, dd.rows.len() - 1);
        let all_c = same_rows_upto(dd, dd.edges.len() as int);
        let all_d = sides_upto(dd, side_edges(dd).len() as int);
        lemma_apply_concat(g0, all_a + all_b + all_c, all_d);
        lemma_apply3(g0, all_a, all_b, all_c);
    }
    g.lines()
}

fn small_exec(d: &Diagram) -> (r: bool)
    ensures
        r == small(d.dia()),
        plain_and_small(d.dia()) ==> r,
{
    let ghost dd = d.dia();
    let most = limit();
    if d.nodes.len() > most || d.edges.len() > most {
        return false;
    }
    let mut n: usize = 0;
    while n < d.nodes.len()
        invariant
            dd == d.dia(),
            most as int == lim(),
            0 <= n <= d.nodes.len(),
            forall|k: int| 0 <= k < n ==> text_columns((#[trigger] dd.nodes[k]).label) <= lim(),
            forall|k: int| 0 <= k < n ==> (#[trigger] dd.nodes[k]).label.len() <= lim(),
            forall|k: int| 0 <= k < n ==> (#[trigger] dd.nodes[k]).slot < lim(),
        decreases d.nodes.len() - n,
    {
        let l = &d.nodes[n].label;
        assert(dd.nodes[n as int].label == l@);
        assert(dd.nodes[n as int].slot == d.nodes@[n as int].slot);
        if text_width(l) > most || l.len() > most || d.nodes[n].slot >= most {
            return false;
        }
        n = n + 1;
    }
    let mut e: usize = 0;
    while e < d.edges.len()
        invariant
            dd == d.dia(),
            most as int == lim(),
            0 <= e <= d.edges.len(),
            forall|k: int|
                0 <= k < e ==> ((#[trigger] dd.edges[k]).label matches Some(l) ==> {
                    &&& text_columns(l) <= lim()
                    &&& l.len() <= lim()
                }),
        decreases d.edges.len() - e,
    {
        assert(dd.edges[e as int] == d.edges@[e as int].spec());
        match &d.edges[e].label {
            Some(l) => {
                if text_width(l) > most || l.len() > most {
                    return false;
                }
            },
            None => {},
        }
        e = e + 1;
    }
    true
}

/// Every character of `s` is printable ASCII.
pub open spec fn printable(s: Seq<char>) -> bool {
    forall|i: int| 0 <= i < s.len() ==> 0x20 <= (#[trigger] s[i] as u32) < 0x7f
}

/// A diagram whose labels are printable ASCII, with at most `lim()` shapes, lines, characters
/// in a label and items before a shape: drawing always handles it.
pub open spec fn plain_and_small(d: Dia) -> bool {
    &&& d.nodes.len() <= lim()
    &&& d.edges.len() <= lim()
    &&& forall|n: int|
        0 <= n < d.nodes.len() ==> {
            &&& printable((#[trigger] d.nodes[n]).label)
            &&& d.nodes[n].label.len() <= lim()
            &&& d.nodes[n].slot < lim()
        }
    &&& forall|e: int|
        0 <= e < d.edges.len() ==> ((#[trigger] d.edges[e]).label matches Some(l) ==> {
            &&& printable(l)
            &&& l.len() <= lim()
        })
}

/// The message for a diagram past what drawing handles.
pub open spec fn too_large() -> Seq<char> {
    "the diagram is too large to draw"@
}

/// Renders a diaBits block to text lines, or explains what is wrong with it: the message of
/// the first line that does not parse, or, for a diagram past `lim()` shapes, lines, label
/// characters, label columns or items before a shape, that it is too large to draw. A diagram
/// with printable ASCII labels within those bounds is always drawn.
pub fn render(source: &str) -> (r: Result<Vec<String>, String>)
    ensures
        match parse_source(source@) {
            Err(m) => r matches Err(e) && e@ == m,
            Ok(p) => if small(dia_of(p)) {
                r matches Ok(lines) && lines@.map_values(|l: String| l@) == picture(dia_of(p))
            } else {
                r matches Err(e) && e@ == too_large()
            },
        },
        parse_source(source@) matches Ok(p) && plain_and_small(dia_of(p)) ==> r is Ok,
{
    let src = chars_of(source);
    match parse(&src) {
        Err(m) => Err(string_of(&m)),
        Ok(d) => {
            proof {
                let st = parse_source(source@)->Ok_0;
                assert(d.dia() == dia_of(st));
                lemma_rows_le_nodes(d.dia(), d.dia().rows.len() as int);
                assert(row_start(d.dia().rows, 0) == 0);
            }
            if !small_exec(&d) {
                return Err(string_of(&chars_of("the diagram is too large to draw")));
            }
            assert(d.rows.len() > 0);
            let lay = layout(&d);
            Ok(draw(&d, &lay))
        },
    }
}


// ----- laws of the layout ---------------------------------------------------------------------

proof fn lemma_levels_nonneg(d: Dia, bs: Seq<BusSpec>, k: int)
    ensures
        levels_upto(d, bs, k) >= 0,
    decreases k,
{
    if k > 0 {
        lemma_levels_nonneg(d, bs, k - 1);
    }
}

/// Rows are drawn top to bottom: each row starts below the three lines of the row before it
/// and the lines running between them.
pub proof fn rows_go_top_to_bottom(d: Dia, r1: int, r2: int)
    requires
        0 <= r1 < r2,
    ensures
        row_y(d, r1) + 3 <= row_y(d, r2),
    decreases r2 - r1,
{
    let bs = buses(d, r2 - 1);
    lemma_levels_nonneg(d, bs, bs.len() as int);
    assert(region_height(d, r2 - 1) >= 0);
    if r1 < r2 - 1 {
        rows_go_top_to_bottom(d, r1, r2 - 1);
    }
}

/// The shapes of one row share its top line.
pub proof fn shapes_of_a_row_share_its_line(d: Dia, n: int, m: int)
    requires
        0 <= n < d.nodes.len(),
        0 <= m < d.nodes.len(),
        d.nodes[n].row == d.nodes[m].row,
    ensures
        node_y(d, n) == node_y(d, m),
{
}

/// The first free bus row from `l` on is at most one past the rows taken, and free.
proof fn lemma_first_free(p: Seq<(int, int, int)>, lo: int, hi: int, l: int)
    requires
        0 <= l <= p.len(),
    ensures
        l <= first_free(p, lo, hi, l) <= p.len(),
        first_free(p, lo, hi, l) < p.len() ==> !conflict(p, first_free(p, lo, hi, l), lo, hi),
        forall|m: int| l <= m < first_free(p, lo, hi, l) ==> #[trigger] conflict(p, m, lo, hi),
    decreases p.len() - l,
{
    if l < p.len() && conflict(p, l, lo, hi) {
        lemma_first_free(p, lo, hi, l + 1);
    }
}

/// The bus rows given to the first `k` buses: the `i`th bus gets a row at most `i`, buses
/// placed later leave earlier ones as they were, and two buses on one row keep apart.
proof fn lemma_placed(d: Dia, bs: Seq<BusSpec>, k: int)
    requires
        0 <= k,
    ensures
        placed_upto(d, bs, k).len() == k,
        forall|i: int| 0 <= i < k ==> 0 <= (#[trigger] placed_upto(d, bs, k)[i]).0 <= i,
        forall|i: int|
            0 <= i < k ==> (#[trigger] placed_upto(d, bs, k)[i]).1 == span_lo(d, bs[i])
                && placed_upto(d, bs, k)[i].2 == span_hi(d, bs[i]),
        forall|i: int, j: int|
            0 <= i < j < k && (#[trigger] placed_upto(d, bs, k)[i]).0 == (#[trigger] placed_upto(d, bs, k)[j]).0 ==> {
                ||| placed_upto(d, bs, k)[i].2 + 1 < placed_upto(d, bs, k)[j].1
                ||| placed_upto(d, bs, k)[j].2 + 1 < placed_upto(d, bs, k)[i].1
            },
    decreases k,
{
    if k > 0 {
        lemma_placed(d, bs, k - 1);
        let p = placed_upto(d, bs, k - 1);
        let lo = span_lo(d, bs[k - 1]);
        let hi = span_hi(d, bs[k - 1]);
        lemma_first_free(p, lo, hi, 0);
        let q = placed_upto(d, bs, k);
        assert(q == p.push((first_free(p, lo, hi, 0), lo, hi)));
        assert forall|i: int, j: int|
            0 <= i < j < k && (#[trigger] q[i]).0 == (#[trigger] q[j]).0 implies {
                ||| q[i].2 + 1 < q[j].1
                ||| q[j].2 + 1 < q[i].1
            } by {
            if j == k - 1 {
                assert(q[i] == p[i]);
                let f = first_free(p, lo, hi, 0);
                if f < p.len() {
                    if lo <= p[i].2 + 1 && p[i].1 <= hi + 1 {
                        assert(conflict(p, f, lo, hi));
                    }
                }
            } else {
                assert(q[i] == p[i]);
                assert(q[j] == p[j]);
            }
        }
    }
}

/// Buses of one region that share a bus row keep apart: between their spans lies at least
/// one free column.
pub proof fn buses_on_one_row_keep_apart(d: Dia, r: int, a: int, b: int)
    requires
        0 <= a < buses(d, r).len(),
        0 <= b < buses(d, r).len(),
        a != b,
        bus_level(d, r, a) == bus_level(d, r, b),
    ensures
        ({
            let bs = buses(d, r);
            ||| span_hi(d, bs[a]) + 1 < span_lo(d, bs[b])
            ||| span_hi(d, bs[b]) + 1 < span_lo(d, bs[a])
        }),
{
    let bs = buses(d, r);
    let k = bs.len() as int;
    lemma_placed(d, bs, k);
    let q = placed_upto(d, bs, k);
    assert(q[a].1 == span_lo(d, bs[a]) && q[a].2 == span_hi(d, bs[a]));
    assert(q[b].1 == span_lo(d, bs[b]) && q[b].2 == span_hi(d, bs[b]));
    if a < b {
        assert(q[a].0 == q[b].0);
    } else {
        assert(q[b].0 == q[a].0);
    }
}

/// A bus takes the lowest bus row free for it: every row above it holds an earlier bus of the
/// region whose span meets or touches its own.
pub proof fn a_bus_takes_the_lowest_free_row(d: Dia, r: int, k: int, l: int)
    requires
        0 <= k < buses(d, r).len(),
        0 <= l < bus_level(d, r, k),
    ensures
        exists|i: int|
            0 <= i < k && bus_level(d, r, i) == l && span_lo(d, (#[trigger] buses(d, r)[k])) <= span_hi(
                d,
                buses(d, r)[i],
            ) + 1 && span_lo(d, buses(d, r)[i]) <= span_hi(d, buses(d, r)[k]) + 1,
{
    let bs = buses(d, r);
    let n = bs.len() as int;
    lemma_placed(d, bs, n);
    lemma_placed(d, bs, k + 1);
    lemma_placed_prefix(d, bs, k + 1, n);
    let p = placed_upto(d, bs, k);
    let lo = span_lo(d, bs[k]);
    let hi = span_hi(d, bs[k]);
    lemma_first_free(p, lo, hi, 0);
    assert(placed_upto(d, bs, k + 1) == p.push((first_free(p, lo, hi, 0), lo, hi)));
    assert(conflict(p, l, lo, hi));
    let i = choose|i: int| 0 <= i < p.len() && (#[trigger] p[i]).0 == l && lo <= p[i].2 + 1 && p[i].1 <= hi + 1;
    lemma_placed(d, bs, k);
    lemma_placed_prefix(d, bs, k, n);
    assert(placed_upto(d, bs, n)[i] == p[i]);
    assert(bus_level(d, r, i) == l);
}

/// Placing more buses leaves the rows of the earlier ones as they were.
proof fn lemma_placed_prefix(d: Dia, bs: Seq<BusSpec>, k: int, n: int)
    requires
        0 <= k <= n,
    ensures
        forall|i: int| 0 <= i < k ==> #[trigger] placed_upto(d, bs, n)[i] == placed_upto(d, bs, k)[i],
    decreases n - k,
{
    if k < n {
        lemma_placed_prefix(d, bs, k, n - 1);
        lemma_placed(d, bs, n - 1);
        assert forall|i: int| 0 <= i < k implies #[trigger] placed_upto(d, bs, n)[i] == placed_upto(d, bs, k)[i] by {
            assert(placed_upto(d, bs, n)[i] == placed_upto(d, bs, n - 1)[i]);
        }
    }
}

/// The lines of a region are lines of the diagram.
proof fn lemma_region_edges(d: Dia, r: int, k: int)
    requires
        0 <= k <= d.edges.len(),
    ensures
        forall|i: int| 0 <= i < region_edges_upto(d, r, k).len() ==> #[trigger] region_edges_upto(d, r, k)[i] < k,
    decreases k,
{
    if k > 0 {
        lemma_region_edges(d, r, k - 1);
        let rest = region_edges_upto(d, r, k - 1);
        assert forall|i: int| 0 <= i < region_edges_upto(d, r, k).len() implies #[trigger] region_edges_upto(d, r, k)[i] < k by {
            if i < rest.len() {
                assert(region_edges_upto(d, r, k)[i] == rest[i]);
            }
        }
    }
}

/// After the first `k` lines joined their ends, each of them has one representative for both
/// ends.
proof fn lemma_reps(d: Dia, es: Seq<nat>, k: int)
    requires
        dia_wf(d),
        0 <= k <= es.len(),
        forall|i: int| 0 <= i < es.len() ==> #[trigger] es[i] < d.edges.len(),
    ensures
        reps_upto(d, es, k).len() == d.nodes.len(),
        forall|j: int|
            0 <= j < k ==> #[trigger] reps_upto(d, es, k)[upper(d, es[j] as int)] == reps_upto(d, es, k)[lower(
                d,
                es[j] as int,
            )],
    decreases k,
{
    if k > 0 {
        lemma_reps(d, es, k - 1);
        let c = reps_upto(d, es, k - 1);
        let e = es[k - 1] as int;
        assert(d.edges[e].from < d.nodes.len() && d.edges[e].to < d.nodes.len());
        let c2 = reps_upto(d, es, k);
        assert forall|j: int|
            0 <= j < k implies #[trigger] c2[upper(d, es[j] as int)] == c2[lower(d, es[j] as int)] by {
            let f = es[j] as int;
            assert(d.edges[f].from < d.nodes.len() && d.edges[f].to < d.nodes.len());
        }
    }
}

/// Lines fanning out or merging fall into one group: the two ends of every line of a region
/// share a representative, and so do the ends of lines that meet at a shape.
pub proof fn lines_meeting_at_a_shape_share_a_group(d: Dia, r: int, i: int, j: int)
    requires
        dia_wf(d),
        0 <= i < region_edges(d, r).len(),
        0 <= j < region_edges(d, r).len(),
    ensures
        ({
            let es = region_edges(d, r);
            let c = reps(d, r);
            &&& c[upper(d, es[i] as int)] == c[lower(d, es[i] as int)]
            &&& (upper(d, es[i] as int) == upper(d, es[j] as int) || lower(d, es[i] as int) == lower(
                d,
                es[j] as int,
            )) ==> c[upper(d, es[i] as int)] == c[upper(d, es[j] as int)]
        }),
{
    let es = region_edges(d, r);
    lemma_region_edges(d, r, d.edges.len() as int);
    lemma_reps(d, es, es.len() as int);
    let c = reps(d, r);
    assert(c[upper(d, es[i] as int)] == c[lower(d, es[i] as int)]);
    assert(c[upper(d, es[j] as int)] == c[lower(d, es[j] as int)]);
}

proof fn lemma_trimmed_end(s: Seq<char>)
    ensures
        trim_end(s).len() == 0 || !is_ws(trim_end(s).last()),
    decreases s.len(),
{
    if s.len() > 0 && is_ws(s.last()) {
        lemma_trimmed_end(s.drop_last());
    }
}

/// No line of a drawing ends in a space or other white space.
pub proof fn drawn_lines_carry_no_trailing_spaces(d: Dia, i: int)
    requires
        0 <= i < picture(d).len(),
    ensures
        picture(d)[i].len() == 0 || !is_ws(picture(d)[i].last()),
{
    let g = apply(blank(grid_width(d), grid_height(d)), all_strokes(d));
    lemma_trimmed_end(g.cells[i]);
}

/// A line's operator puts an arrow head at its from end exactly when it starts with `<`, and
/// at its to end exactly when it ends with `>`: `-->` points at the to end, `<--` at the from
/// end, `<->` at both, `---` at neither; every three-character operator of that shape is one.
pub proof fn arrow_heads_follow_the_operator(op: Seq<char>)
    ensures
        op_arrows(op) matches Some((at_from, at_to)) ==> {
            &&& op.len() == 3
            &&& op[1] == '-'
            &&& at_from == (op[0] == '<')
            &&& at_to == (op[2] == '>')
        },
        op.len() == 3 && op[1] == '-' && (op[0] == '<' || op[0] == '-') && (op[2] == '>' || op[2] == '-')
            ==> op_arrows(op) is Some,
{
    reveal_strlit("-->");
    reveal_strlit("<--");
    reveal_strlit("<->");
    reveal_strlit("---");
    if op.len() == 3 && op[1] == '-' && (op[0] == '<' || op[0] == '-') && (op[2] == '>' || op[2] == '-') {
        if op[0] == '<' && op[2] == '>' {
            assert(op =~= "<->"@);
        } else if op[0] == '<' {
            assert(op =~= "<--"@);
        } else if op[2] == '>' {
            assert(op =~= "-->"@);
        } else {
            assert(op =~= "---"@);
        }
    }
}

/// Every shape that stands in a column is centred in it: the column is at least as wide as the
/// shape, and the margins left and right of the shape differ by at most one.
pub proof fn shapes_are_centred_in_their_columns(d: Dia, n: int)
    requires
        0 <= n < d.nodes.len(),
        placed(d, n),
    ensures
        ({
            let c = col_of(d, n);
            let left = node_x(d, n) - (cols_left(d) + col_x(d, c));
            let right = cols_left(d) + col_x(d, c) + col_w(d, c) - (node_x(d, n) + node_w(d, n));
            &&& node_w(d, n) <= col_w(d, c)
            &&& 0 <= left
            &&& 0 <= right - left <= 1
        }),
{
    lemma_colw(d, col_of(d, n), d.nodes.len() as int);
}

/// Each column is as wide as its widest shape.
pub proof fn a_column_is_as_wide_as_its_widest_shape(d: Dia, c: int)
    ensures
        forall|n: int|
            0 <= n < d.nodes.len() && placed(d, n) && col_of(d, n) == c ==> #[trigger] node_w(d, n) <= col_w(d, c),
        col_w(d, c) > 0 ==> exists|n: int|
            0 <= n < d.nodes.len() && placed(d, n) && col_of(d, n) == c && #[trigger] node_w(d, n) == col_w(d, c),
{
    lemma_colw(d, c, d.nodes.len() as int);
}

/// Shapes stacked in one column line up: their centres are at most one column apart, and the
/// same when the shapes are as wide.
pub proof fn shapes_in_a_column_line_up(d: Dia, n: int, m: int)
    requires
        0 <= n < d.nodes.len(),
        0 <= m < d.nodes.len(),
        placed(d, n),
        placed(d, m),
        col_of(d, n) == col_of(d, m),
    ensures
        -1 <= center(d, n) - center(d, m) <= 1,
        node_w(d, n) == node_w(d, m) ==> center(d, n) == center(d, m),
{
    lemma_colw(d, col_of(d, n), d.nodes.len() as int);
    node_w_nonneg(d, n);
    node_w_nonneg(d, m);
}

proof fn node_w_nonneg(d: Dia, n: int)
    ensures
        node_w(d, n) >= 4,
{
}

/// Columns stand side by side, left to right, with `ROW_GAP` columns between neighbours, and
/// all of them within the drawing's width.
pub proof fn columns_stand_apart(d: Dia, c: int)
    requires
        0 <= c < ncols(d),
    ensures
        col_x(d, c) >= 0,
        c + 1 < ncols(d) ==> col_x(d, c) + col_w(d, c) + 4 == col_x(d, c + 1),
        cols_left(d) >= 0,
        cols_left(d) + col_x(d, c) + col_w(d, c) <= content_width(d),
{
    lemma_col_x_nonneg(d, c);
    lemma_col_x(d, c, ncols(d));
}

/// A row of fewer shapes, not placed by slots, is centred as a whole: its shapes follow each
/// other with `ROW_GAP` columns between neighbours, and the margins left of its first shape and
/// right of its last differ by at most one.
#[verifier::spinoff_prover]
#[verifier::rlimit(40)]
pub proof fn shorter_rows_are_centred(d: Dia, r: int)
    requires
        dia_wf(d),
        0 <= r < d.rows.len(),
        !in_columns(d, r),
    ensures
        ({
            let k = d.rows[r].len() as int;
            let first = d.rows[r][0] as int;
            let last = d.rows[r][k - 1] as int;
            let left = node_x(d, first);
            let right = content_width(d) - (node_x(d, last) + node_w(d, last));
            &&& 0 <= left
            &&& 0 <= right - left <= 1
            &&& forall|i: int|
                0 <= i < k - 1 ==> node_x(d, #[trigger] d.rows[r][i] as int) + node_w(d, d.rows[r][i] as int) + 4
                    == node_x(d, d.rows[r][i + 1] as int)
        }),
{
    let k = d.rows[r].len() as int;
    lemma_row_entries(d, r);
    lemma_free_w(d, d.rows.len() as int);
    lemma_row_w(d, r, k);
    assert(row_w(d, r) <= content_width(d));
    assert forall|i: int| 0 <= i < k - 1 implies node_x(d, #[trigger] d.rows[r][i] as int) + node_w(
        d,
        d.rows[r][i] as int,
    ) + 4 == node_x(d, d.rows[r][i + 1] as int) by {
        lemma_node_row(d, r, i);
        lemma_node_row(d, r, i + 1);
    }
    lemma_node_row(d, r, 0);
    lemma_node_row(d, r, k - 1);
    assert(row_w_upto(d, r, k) == row_w_upto(d, r, k - 1) + node_w(d, d.rows[r][k - 1] as int) + 4);
}

/// Empty slots pick the column: in a row placed by slots, each shape is in the column of its
/// slot; in a row without empty slots as long as the fullest, each shape is in its own column
/// in order.
pub proof fn empty_slots_pick_the_column(d: Dia, n: int)
    requires
        dia_wf(d),
        0 <= n < d.nodes.len(),
    ensures
        row_explicit(d, d.nodes[n].row as int) ==> placed(d, n) && col_of(d, n) == d.nodes[n].slot,
        d.rows[d.nodes[n].row as int].len() == ncols(d) ==> placed(d, n),
        !row_explicit(d, d.nodes[n].row as int) ==> col_of(d, n) == n - row_start(d.rows, d.nodes[n].row as int),
{
}

} // verus!
