//! The browser: which page is open, what each pane shows (the rows of the page tree, the
//! related column, the breadcrumbs) and how keys and the mouse change it.

use vstd::prelude::*;

use crate::text::{chars_of, push_all, push_str, split_char, split_on, string_of, views};
use crate::editor::{Area, Key, KeyCode, Mouse, MouseKind};
use crate::markdown::{page_view, PageV, Rendered, SpanV};
use crate::wiki::{
    forest_view, fsize, node_view, opt_string, prettified, prettify, resolved, strings, tsize,
    wiki_tree, LinkTarget, Target, TreeNode, TreeView, Wiki,
};

verus! {

broadcast use vstd::string::group_string_axioms;

/// The pane that has the keyboard.
#[derive(Clone, Copy, Debug, PartialEq, Eq, Structural)]
pub enum Focus {
    Tree,
    Content,
    Related,
}

/// One visible row of the page tree.
pub struct TreeRow {
    pub depth: usize,
    pub label: String,
    pub kind: TreeKind,
}

pub enum TreeKind {
    Folder { path: String, expanded: bool },
    Page { id: String },
}

/// One row of the related column.
pub enum RelatedRow {
    Header(&'static str),
    Page(String),
    Missing(String),
    External(String),
    /// Shown under a header with nothing to list.
    Empty,
}

impl RelatedRow {
    /// Headers and "none" rows cannot be selected.
    pub fn selectable(&self) -> (r: bool)
        ensures
            r == !(self is Header || self is Empty),
    {
        !matches!(self, RelatedRow::Header(_) | RelatedRow::Empty)
    }
}

/// One step of the breadcrumbs.
pub struct Crumb {
    pub label: String,
    /// Folder path, or `None` for the current page.
    pub folder: Option<String>,
}


// ----- the page tree ------------------------------------------------------------------

/// A tree row as text.
pub struct RowView {
    pub depth: int,
    pub label: Seq<char>,
    pub folder: bool,
    /// The folder's path or the page's id.
    pub key: Seq<char>,
    pub expanded: bool,
}

impl View for TreeRow {
    type V = RowView;

    open spec fn view(&self) -> RowView {
        match &self.kind {
            TreeKind::Folder { path, expanded } => RowView {
                depth: self.depth as int,
                label: self.label@,
                folder: true,
                key: path@,
                expanded: *expanded,
            },
            TreeKind::Page { id } => RowView {
                depth: self.depth as int,
                label: self.label@,
                folder: false,
                key: id@,
                expanded: false,
            },
        }
    }
}

/// The rows for node `t` at `depth`: a folder's children follow it when it is expanded.
pub open spec fn node_rows(t: TreeView, depth: int, expanded: Seq<Seq<char>>) -> Seq<RowView>
    decreases t, 0int,
{
    match t {
        TreeView::Folder { name, path, children, .. } => {
            let open = expanded.contains(path);
            seq![RowView { depth, label: name, folder: true, key: path, expanded: open }] + if open {
                forest_rows(children, depth + 1, expanded)
            } else {
                seq![]
            }
        },
        TreeView::Page { id, title } => seq![RowView { depth, label: title, folder: false, key: id, expanded: false }],
    }
}

/// The rows for nodes `ts` at `depth`, in order.
pub open spec fn forest_rows(ts: Seq<TreeView>, depth: int, expanded: Seq<Seq<char>>) -> Seq<RowView>
    decreases ts, 1int,
{
    if ts.len() == 0 {
        seq![]
    } else {
        forest_rows(ts.drop_last(), depth, expanded) + node_rows(ts.last(), depth, expanded)
    }
}

proof fn lemma_tsize_le(ts: Seq<TreeView>, i: int)
    requires
        0 <= i < ts.len(),
    ensures
        tsize(ts[i]) <= fsize(ts),
        fsize(ts.take(i)) + tsize(ts[i]) <= fsize(ts),
    decreases ts.len(),
{
    if i < ts.len() - 1 {
        lemma_tsize_le(ts.drop_last(), i);
        assert(ts.drop_last()[i] == ts[i]);
        assert(ts.drop_last().take(i) =~= ts.take(i));
    } else {
        assert(ts.drop_last() =~= ts.take(i));
    }
}

proof fn lemma_forest_rows_take(ts: Seq<TreeView>, i: int, depth: int, expanded: Seq<Seq<char>>)
    requires
        0 <= i < ts.len(),
    ensures
        forest_rows(ts.take(i + 1), depth, expanded) == forest_rows(ts.take(i), depth, expanded) + node_rows(ts[i], depth, expanded),
{
    assert(ts.take(i + 1).drop_last() =~= ts.take(i));
}

proof fn lemma_node_view_at(ts: Seq<TreeNode>, i: int)
    requires
        0 <= i < ts.len(),
    ensures
        forest_view(ts)[i] == node_view(ts[i]),
        forest_view(ts).len() == ts.len(),
        forest_view(ts.take(i + 1)) == forest_view(ts).take(i + 1),
    decreases ts.len(),
{
    crate::wiki::lemma_forest_view(ts);
    if i < ts.len() - 1 {
        lemma_node_view_at(ts.drop_last(), i);
        assert(ts.drop_last().take(i + 1) =~= ts.take(i + 1));
        assert(forest_view(ts).drop_last() =~= forest_view(ts.drop_last()));
        assert(forest_view(ts).drop_last().take(i + 1) =~= forest_view(ts).take(i + 1));
    } else {
        if ts.len() > 1 {
            lemma_node_view_at(ts.drop_last(), i - 1);
        }
        assert(ts.take(i + 1) =~= ts);
        assert(forest_view(ts).take(i + 1) =~= forest_view(ts));
    }
}

fn contains_string(v: &Vec<String>, s: &String) -> (r: bool)
    ensures
        r == strings(v@).contains(s@),
{
    let sc = chars_of(s.as_str());
    let mut i: usize = 0;
    while i < v.len()
        invariant
            sc@ == s@,
            0 <= i <= v.len(),
            forall|k: int| 0 <= k < i ==> strings(v@)[k] != s@,
        decreases v.len() - i,
    {
        let c = chars_of(v[i].as_str());
        if crate::text::chars_eq(&c, &sc) {
            assert(strings(v@)[i as int] == s@);
            return true;
        }
        i = i + 1;
    }
    false
}

fn push_node_rows(t: &TreeNode, depth: usize, expanded: &Vec<String>, out: &mut Vec<TreeRow>)
    requires
        depth + tsize(node_view(*t)) < usize::MAX,
    ensures
        final(out)@.map_values(|r: TreeRow| r@) == old(out)@.map_values(|r: TreeRow| r@) + node_rows(
            node_view(*t),
            depth as int,
            strings(expanded@),
        ),
    decreases tsize(node_view(*t)), 0int,
{
    let ghost before = out@.map_values(|r: TreeRow| r@);
    match t {
        TreeNode::Folder { name, path, children, .. } => {
            let open = contains_string(expanded, path);
            let row = TreeRow { depth, label: name.clone(), kind: TreeKind::Folder { path: path.clone(), expanded: open } };
            out.push(row);
            let ghost mid = out@.map_values(|r: TreeRow| r@);
            assert(mid =~= before.push(row@));
            if open {
                assert(tsize(node_view(*t)) == 1 + fsize(forest_view(children@)));
                push_forest_rows(children, depth + 1, expanded, out);
            }
        },
        TreeNode::Page { id, title } => {
            let row = TreeRow { depth, label: title.clone(), kind: TreeKind::Page { id: id.clone() } };
            out.push(row);
            assert(out@.map_values(|r: TreeRow| r@) =~= before.push(row@));
        },
    }
}

fn push_forest_rows(ts: &Vec<TreeNode>, depth: usize, expanded: &Vec<String>, out: &mut Vec<TreeRow>)
    requires
        depth + fsize(forest_view(ts@)) < usize::MAX,
    ensures
        final(out)@.map_values(|r: TreeRow| r@) == old(out)@.map_values(|r: TreeRow| r@) + forest_rows(
            forest_view(ts@),
            depth as int,
            strings(expanded@),
        ),
    decreases fsize(forest_view(ts@)), 1int,
{
    let ghost fv = forest_view(ts@);
    let ghost before = out@.map_values(|r: TreeRow| r@);
    let ghost ex = strings(expanded@);
    let mut i: usize = 0;
    while i < ts.len()
        invariant
            fv == forest_view(ts@),
            ex == strings(expanded@),
            depth + fsize(fv) < usize::MAX,
            0 <= i <= ts.len(),
            out@.map_values(|r: TreeRow| r@) == before + forest_rows(fv.take(i as int), depth as int, ex),
        decreases ts.len() - i,
    {
        proof {
            lemma_node_view_at(ts@, i as int);
            lemma_tsize_le(fv, i as int);
            lemma_forest_rows_take(fv, i as int, depth as int, ex);
        }
        push_node_rows(&ts[i], depth, expanded, out);
        i = i + 1;
    }
    proof {
        if ts.len() > 0 {
            lemma_node_view_at(ts@, ts.len() - 1);
        }
        assert(fv.take(ts.len() as int) =~= fv);
    }
}

/// The visible rows of the page tree: every top-level node, and under each expanded folder
/// its children one level deeper.
pub fn tree_rows(tree: &Vec<TreeNode>, expanded: &Vec<String>) -> (r: Vec<TreeRow>)
    requires
        fsize(forest_view(tree@)) < usize::MAX,
    ensures
        rows_view(r@) == forest_rows(forest_view(tree@), 0, strings(expanded@)),
{
    let mut out: Vec<TreeRow> = Vec::new();
    assert(out@.map_values(|x: TreeRow| x@) =~= Seq::<RowView>::empty());
    push_forest_rows(tree, 0, expanded, &mut out);
    assert(rows_view(out@) =~= out@.map_values(|r: TreeRow| r@));
    out
}

pub open spec fn rows_view(v: Seq<TreeRow>) -> Seq<RowView> {
    v.map_values(|x: TreeRow| x@)
}


// ----- the related column -------------------------------------------------------------

/// A related row as text.
pub enum RelatedView {
    Header(Seq<char>),
    Page(Seq<char>),
    Missing(Seq<char>),
    External(Seq<char>),
    Empty,
}

impl View for RelatedRow {
    type V = RelatedView;

    open spec fn view(&self) -> RelatedView {
        match self {
            RelatedRow::Header(h) => RelatedView::Header(h@),
            RelatedRow::Page(s) => RelatedView::Page(s@),
            RelatedRow::Missing(s) => RelatedView::Missing(s@),
            RelatedRow::External(s) => RelatedView::External(s@),
            RelatedRow::Empty => RelatedView::Empty,
        }
    }
}

pub open spec fn target_row(t: Target) -> RelatedView {
    match t {
        Target::Page(p) => RelatedView::Page(p),
        Target::Missing(r) => RelatedView::Missing(r),
        Target::External(u) => RelatedView::External(u),
    }
}

/// The distinct targets of the first `k` links of page `id`, the page itself left out.
pub open spec fn link_targets_upto(ids: Seq<Seq<char>>, id: Seq<char>, links: Seq<Seq<char>>, k: int) -> Seq<Target>
    decreases k,
{
    if k <= 0 || k > links.len() {
        seq![]
    } else {
        let seen = link_targets_upto(ids, id, links, k - 1);
        let t = resolved(ids, id, links[k - 1]);
        if seen.contains(t) || t == Target::Page(id) {
            seen
        } else {
            seen.push(t)
        }
    }
}

/// The related column for the page `id`: its backlinks, then where its links lead.
pub open spec fn related_of(w: Wiki, id: Seq<char>) -> Seq<RelatedView> {
    let bl = w.linkers(id);
    let pos = crate::wiki::position(w.ids(), id, 0);
    let targets = if pos >= 0 {
        let links = strings(w.pages@[pos].links@);
        link_targets_upto(w.ids(), id, links, links.len() as int)
    } else {
        seq![]
    };
    seq![RelatedView::Header("Backlinks"@)] + (if bl.len() == 0 {
        seq![RelatedView::Empty]
    } else {
        seq![]
    }) + bl.map_values(|b: Seq<char>| RelatedView::Page(b)) + seq![RelatedView::Header("Links on this page"@)]
        + targets.map_values(|t: Target| target_row(t)) + (if targets.len() == 0 {
        seq![RelatedView::Empty]
    } else {
        seq![]
    })
}

fn target_row_exec(t: &LinkTarget) -> (r: RelatedRow)
    ensures
        r@ == target_row(t@),
{
    match t {
        LinkTarget::Page(p) => RelatedRow::Page(p.clone()),
        LinkTarget::Missing(r) => RelatedRow::Missing(r.clone()),
        LinkTarget::External(u) => RelatedRow::External(u.clone()),
    }
}

pub open spec fn targets_view(v: Seq<LinkTarget>) -> Seq<Target> {
    v.map_values(|x: LinkTarget| x@)
}

pub open spec fn related_view(v: Seq<RelatedRow>) -> Seq<RelatedView> {
    v.map_values(|x: RelatedRow| x@)
}

fn is_page(t: &LinkTarget, id: &Vec<char>) -> (r: bool)
    ensures
        r == (t@ == Target::Page(id@)),
{
    match t {
        LinkTarget::Page(p) => {
            let pc = chars_of(p.as_str());
            crate::text::chars_eq(&pc, id)
        },
        _ => false,
    }
}

fn seen_contains(seen: &Vec<LinkTarget>, t: &LinkTarget) -> (r: bool)
    ensures
        r == targets_view(seen@).contains(t@),
{
    let ghost sv = targets_view(seen@);
    let mut i: usize = 0;
    while i < seen.len()
        invariant
            sv == targets_view(seen@),
            0 <= i <= seen.len(),
            forall|k: int| 0 <= k < i ==> sv[k] != t@,
        decreases seen.len() - i,
    {
        if seen[i] == *t {
            assert(sv[i as int] == t@);
            return true;
        }
        i = i + 1;
    }
    false
}

/// The related column: a "Backlinks" header, the pages linking to the current one (or an
/// empty row), a "Links on this page" header, and where the page's links lead, each target
/// once and the page itself left out (or an empty row). Without a current page, only the
/// first header.
pub fn related_rows(wiki: &Wiki, current: Option<&str>) -> (r: Vec<RelatedRow>)
    requires
        wiki.wf(),
    ensures
        match current {
            None => related_view(r@) == seq![RelatedView::Header("Backlinks"@)],
            Some(id) => related_view(r@) == related_of(*wiki, id@),
        },
{
    let mut rows: Vec<RelatedRow> = Vec::new();
    rows.push(RelatedRow::Header("Backlinks"));
    let id = match current {
        None => {
            assert(related_view(rows@) =~= seq![RelatedView::Header("Backlinks"@)]);
            return rows;
        },
        Some(id) => id,
    };
    assert(current == Some(id));
    let ghost part1 = related_view(rows@);
    let backlinks = wiki.backlinks_of(id);
    if backlinks.len() == 0 {
        rows.push(RelatedRow::Empty);
        assert(related_view(rows@) =~= part1.push(RelatedView::Empty));
    }
    let ghost part2 = related_view(rows@);
    assert(part2 =~= part1 + (if wiki.linkers(id@).len() == 0 { seq![RelatedView::Empty] } else { seq![] }));
    let ghost bl = wiki.linkers(id@);
    let mut i: usize = 0;
    while i < backlinks.len()
        invariant
            strings(backlinks@) == bl,
            0 <= i <= backlinks.len(),
            related_view(rows@) == part2 + bl.take(i as int).map_values(|b: Seq<char>| RelatedView::Page(b)),
        decreases backlinks.len() - i,
    {
        let ghost before = related_view(rows@);
        rows.push(RelatedRow::Page(backlinks[i].clone()));
        proof {
            assert(related_view(rows@) =~= before.push(RelatedView::Page(backlinks@[i as int]@)));
            assert(bl[i as int] == backlinks@[i as int]@);
            assert(bl.take(i + 1).map_values(|b: Seq<char>| RelatedView::Page(b)) =~= bl.take(i as int).map_values(
                |b: Seq<char>| RelatedView::Page(b),
            ).push(RelatedView::Page(bl[i as int])));
        }
        i = i + 1;
    }
    assert(bl.take(backlinks.len() as int) =~= bl);
    let ghost before3 = related_view(rows@);
    rows.push(RelatedRow::Header("Links on this page"));
    let ghost part3 = related_view(rows@);
    assert(part3 =~= before3.push(RelatedView::Header("Links on this page"@)));
    assert(part1 =~= seq![RelatedView::Header("Backlinks"@)]);
    let ghost pos = crate::wiki::position(wiki.ids(), id@, 0);
    let mut seen: Vec<LinkTarget> = Vec::new();
    let idc = chars_of(id);
    let mut found: Option<usize> = None;
    let mut k: usize = 0;
    while k < wiki.pages.len()
        invariant_except_break
            found is None,
        invariant
            idc@ == id@,
            0 <= k <= wiki.pages.len(),
            crate::wiki::position(wiki.ids(), id@, 0) == crate::wiki::position(wiki.ids(), id@, k as int),
        ensures
            match found {
                Some(p) => p < wiki.pages.len() && crate::wiki::position(wiki.ids(), id@, 0) == p,
                None => k == wiki.pages.len() && crate::wiki::position(wiki.ids(), id@, 0) == crate::wiki::position(wiki.ids(), id@, k as int),
            },
        decreases wiki.pages.len() - k,
    {
        let c = chars_of(wiki.pages[k].id.as_str());
        assert(wiki.ids()[k as int] == c@);
        if crate::text::chars_eq(&c, &idc) {
            found = Some(k);
            break;
        }
        k = k + 1;
    }
    let ghost links = if pos >= 0 { strings(wiki.pages@[pos].links@) } else { seq![] };
    match found {
        Some(p) => {
            assert(pos == p);
            let page_links = &wiki.pages[p].links;
            let mut j: usize = 0;
            while j < page_links.len()
                invariant
                    links == strings(page_links@),
                    idc@ == id@,
                    pos >= 0,
                    0 <= j <= page_links.len(),
                    targets_view(seen@) == link_targets_upto(wiki.ids(), id@, links, j as int),
                    related_view(rows@) == part3 + seen@.map_values(|x: LinkTarget| target_row(x@)),
                decreases page_links.len() - j,
            {
                let t = wiki.resolve(id, page_links[j].as_str());
                assert(links[j as int] == page_links@[j as int]@);
                assert(t@ == resolved(wiki.ids(), id@, links[j as int]));
                let ghost prev = link_targets_upto(wiki.ids(), id@, links, j as int);
                assert(link_targets_upto(wiki.ids(), id@, links, j + 1) == if prev.contains(t@) || t@ == Target::Page(id@) {
                    prev
                } else {
                    prev.push(t@)
                });
                let is_own = is_page(&t, &idc);
                let already = seen_contains(&seen, &t);
                assert(already == prev.contains(t@));
                if !already && !is_own {
                    let ghost rb = related_view(rows@);
                    let ghost sb = seen@;
                    rows.push(target_row_exec(&t));
                    seen.push(t);
                    proof {
                        assert(related_view(rows@) =~= rb.push(target_row(t@)));
                        assert(targets_view(seen@) =~= targets_view(sb).push(t@));
                        assert(seen@.map_values(|x: LinkTarget| target_row(x@)) =~= sb.map_values(
                            |x: LinkTarget| target_row(x@),
                        ).push(target_row(t@)));
                        assert(targets_view(seen@) == prev.push(t@));
                    }
                } else {
                    assert(targets_view(seen@) == prev);
                }
                j = j + 1;
            }
        },
        None => {
            assert(pos == -1) by {
                crate::wiki::lemma_position(wiki.ids(), id@, k as int);
            }
        },
    }
    let ghost tail = seen@.map_values(|x: LinkTarget| target_row(x@));
    assert(related_view(rows@) == part3 + tail) by {
        if pos < 0 {
            assert(tail =~= Seq::<RelatedView>::empty());
            assert(part3 + tail =~= part3);
        }
    }
    let ghost targets = link_targets_upto(wiki.ids(), id@, links, links.len() as int);
    assert(targets_view(seen@) == targets);
    assert(seen@.map_values(|x: LinkTarget| target_row(x@)) =~= targets.map_values(|t: Target| target_row(t)));
    let ghost before_last = related_view(rows@);
    if seen.len() == 0 {
        rows.push(RelatedRow::Empty);
        assert(related_view(rows@) =~= before_last.push(RelatedView::Empty));
    }
    assert(related_view(rows@) =~= related_of(*wiki, id@));
    rows
}


// ----- breadcrumbs --------------------------------------------------------------------

/// A breadcrumb as text.
pub struct CrumbView {
    pub label: Seq<char>,
    pub folder: Option<Seq<char>>,
}

impl View for Crumb {
    type V = CrumbView;

    open spec fn view(&self) -> CrumbView {
        CrumbView { label: self.label@, folder: opt_string(self.folder) }
    }
}

pub open spec fn crumbs_view(v: Seq<Crumb>) -> Seq<CrumbView> {
    v.map_values(|c: Crumb| c@)
}

/// The crumbs of the folders above page `id`, the first `k` of them.
pub open spec fn folder_crumbs(parts: Seq<Seq<char>>, k: int) -> Seq<CrumbView>
    decreases k,
{
    if k <= 0 {
        seq![]
    } else {
        folder_crumbs(parts, k - 1).push(
            CrumbView { label: prettified(parts[k - 1]), folder: Some(crate::text::join(parts.take(k), "/"@)) },
        )
    }
}

/// The breadcrumbs: the wiki root (folder `""`), each folder above the current page (by
/// path), then the page itself by title; only the root without a current page.
pub open spec fn crumbs_of(w: Wiki, root_label: Seq<char>, current: Option<Seq<char>>) -> Seq<CrumbView> {
    let root = seq![CrumbView { label: root_label, folder: Some(seq![]) }];
    match current {
        None => root,
        Some(id) => {
            let parts = split_on(id, '/');
            root + folder_crumbs(parts, parts.len() - 1) + seq![CrumbView { label: w.title_for(id), folder: None }]
        },
    }
}

/// The breadcrumbs of the current page, the root labelled `root_label`.
pub fn crumbs(wiki: &Wiki, root_label: &str, current: Option<&str>) -> (r: Vec<Crumb>)
    ensures
        crumbs_view(r@) == crumbs_of(*wiki, root_label@, match current {
            Some(id) => Some(id@),
            None => None,
        }),
{
    let mut out: Vec<Crumb> = Vec::new();
    out.push(Crumb { label: string_of(&chars_of(root_label)), folder: Some(string_of(&Vec::new())) });
    let ghost root = crumbs_view(out@);
    assert(root =~= seq![CrumbView { label: root_label@, folder: Some(seq![]) }]);
    let id = match current {
        None => {
            return out;
        },
        Some(id) => id,
    };
    let idc = chars_of(id);
    let parts = split_char(&idc, '/');
    let ghost pv = views(parts@);
    proof {
        crate::text::lemma_split_nonempty(idc@, '/');
    }
    let mut folder: Vec<char> = Vec::new();
    let mut k: usize = 0;
    while k + 1 < parts.len()
        invariant
            pv == views(parts@),
            pv == split_on(id@, '/'),
            pv.len() >= 1,
            0 <= k < parts.len(),
            folder@ == crate::text::join(pv.take(k as int), "/"@),
            crumbs_view(out@) == root + folder_crumbs(pv, k as int),
        decreases parts.len() - k,
    {
        let ghost before = crumbs_view(out@);
        if k > 0 {
            push_str(&mut folder, "/");
        }
        push_all(&mut folder, &parts[k]);
        proof {
            reveal_strlit("/");
            let t = pv.take(k + 1);
            assert(t.drop_last() =~= pv.take(k as int));
            assert(t.last() == parts@[k as int]@);
            if k == 0 {
                assert(folder@ =~= t[0]);
            } else {
                assert(folder@ =~= crate::text::join(t.drop_last(), "/"@) + "/"@ + t.last());
            }
        }
        let part = string_of(&parts[k]);
        let label = prettify(part.as_str());
        let c = Crumb { label, folder: Some(string_of(&folder)) };
        out.push(c);
        proof {
            assert(crumbs_view(out@) =~= before.push(c@));
            assert(pv[k as int] == parts@[k as int]@);
        }
        k = k + 1;
    }
    let title = wiki.title(id);
    let ghost before = crumbs_view(out@);
    let last = Crumb { label: title, folder: None };
    out.push(last);
    assert(crumbs_view(out@) =~= before.push(last@));
    out
}



/// `x`, at most `u16::MAX`.
pub open spec fn sat16(x: int) -> u16 {
    if x > u16::MAX {
        u16::MAX
    } else {
        x as u16
    }
}

/// The labels of some breadcrumbs.
pub open spec fn crumb_labels(v: Seq<Crumb>) -> Seq<Seq<char>> {
    v.map_values(|c: Crumb| c.label@)
}

/// The columns the breadcrumbs from `k` on take when drawn in a row, separated by ` › ` (three
/// columns), the crumb at `k` starting at `col` (after its separator when it is not the
/// first); columns saturate at `u16::MAX`.
pub open spec fn crumb_spans(labels: Seq<Seq<char>>, k: int, col: u16) -> Seq<(u16, u16)>
    decreases labels.len() - k,
{
    if k < 0 || k >= labels.len() {
        seq![]
    } else {
        let s = if k > 0 {
            sat16(col + 3)
        } else {
            col
        };
        let e = sat16(s + crate::text::text_columns(labels[k]));
        seq![(s, e)] + crumb_spans(labels, k + 1, e)
    }
}

/// The columns each breadcrumb takes when the row is drawn, for mouse clicks.
pub fn crumb_columns(crumbs: &Vec<Crumb>) -> (r: Vec<(u16, u16)>)
    ensures
        r@ == crumb_spans(crumb_labels(crumbs@), 0, 0),
{
    let ghost lv = crumb_labels(crumbs@);
    let mut out: Vec<(u16, u16)> = Vec::new();
    let mut col: u16 = 0;
    let mut i: usize = 0;
    while i < crumbs.len()
        invariant
            lv == crumb_labels(crumbs@),
            0 <= i <= crumbs.len(),
            crumb_spans(lv, 0, 0) == out@ + crumb_spans(lv, i as int, col),
        decreases crumbs.len() - i,
    {
        let s: u16 = if i > 0 {
            if col > u16::MAX - 3 {
                u16::MAX
            } else {
                col + 3
            }
        } else {
            col
        };
        let w = crate::text::text_width(&chars_of(crumbs[i].label.as_str()));
        assert(lv[i as int] == crumbs@[i as int].label@);
        let e: u16 = if w > (u16::MAX - s) as usize {
            u16::MAX
        } else {
            s + w as u16
        };
        let ghost before = out@;
        out.push((s, e));
        assert(crumb_spans(lv, i as int, col) == seq![(s, e)] + crumb_spans(lv, i + 1, e));
        assert(before + crumb_spans(lv, i as int, col) =~= out@ + crumb_spans(lv, i + 1, e));
        col = e;
        i = i + 1;
    }
    assert(out@ + crumb_spans(lv, i as int, col) =~= out@);
    out
}


// ----- the browser -------------------------------------------------------------------------

/// Screen areas from the last draw, for mouse handling.
#[derive(Clone, Copy, Debug, PartialEq, Eq, Structural)]
pub struct Rects {
    pub tree: Area,
    pub crumbs: Area,
    pub content: Area,
    pub related: Area,
}

/// Application state: which page is open, what each column shows, and how input changes it.
/// What needs the outside world is left for the program to do: rendering the current page
/// (`needs_render`), opening a web address (`open_url`) and rereading the wiki folder
/// (`reload_wanted`).
pub struct App {
    pub wiki: Wiki,
    pub tree: Vec<TreeRow>,
    /// The expanded folders, each once.
    pub expanded: Vec<String>,
    pub tree_sel: usize,
    pub tree_scroll: usize,
    pub current: Option<String>,
    history: Vec<String>,
    future: Vec<String>,
    pub rendered: Option<Rendered>,
    render_width: u16,
    /// The current page is to be rendered (again) at the content width.
    pub needs_render: bool,
    pub scroll: usize,
    pub link_sel: Option<usize>,
    pub content_height: usize,
    pub related: Vec<RelatedRow>,
    pub related_sel: usize,
    pub related_scroll: usize,
    pub focus: Focus,
    pub status: String,
    pub show_help: bool,
    pub should_quit: bool,
    pub rects: Rects,
    pub crumbs: Vec<Crumb>,
    /// Column ranges of the breadcrumbs from the last draw.
    pub crumb_columns: Vec<(u16, u16)>,
    /// What the breadcrumbs call the wiki folder.
    pub root_label: String,
    /// A web address to open.
    pub open_url: Option<String>,
    /// The wiki folder is to be reread.
    pub reload_wanted: bool,
}

/// The browser's state as text.
#[verifier::ext_equal]
pub struct AppView {
    pub wiki: Wiki,
    pub tree: Seq<RowView>,
    pub expanded: Seq<Seq<char>>,
    pub tree_sel: int,
    pub tree_scroll: int,
    pub current: Option<Seq<char>>,
    pub history: Seq<Seq<char>>,
    pub future: Seq<Seq<char>>,
    pub page: Option<PageV>,
    pub render_width: u16,
    pub needs_render: bool,
    pub scroll: int,
    pub link_sel: Option<usize>,
    pub content_height: int,
    pub related: Seq<RelatedView>,
    pub related_sel: int,
    pub related_scroll: int,
    pub focus: Focus,
    pub status: Seq<char>,
    pub show_help: bool,
    pub should_quit: bool,
    pub rects: Rects,
    pub crumbs: Seq<CrumbView>,
    pub crumb_columns: Seq<(u16, u16)>,
    pub root_label: Seq<char>,
    pub open_url: Option<Seq<char>>,
    pub reload_wanted: bool,
}

impl View for App {
    type V = AppView;

    closed spec fn view(&self) -> AppView {
        AppView {
            wiki: self.wiki,
            tree: rows_view(self.tree@),
            expanded: strings(self.expanded@),
            tree_sel: self.tree_sel as int,
            tree_scroll: self.tree_scroll as int,
            current: opt_string(self.current),
            history: strings(self.history@),
            future: strings(self.future@),
            page: match self.rendered {
                Some(r) => Some(page_view(r)),
                None => None,
            },
            render_width: self.render_width,
            needs_render: self.needs_render,
            scroll: self.scroll as int,
            link_sel: self.link_sel,
            content_height: self.content_height as int,
            related: related_view(self.related@),
            related_sel: self.related_sel as int,
            related_scroll: self.related_scroll as int,
            focus: self.focus,
            status: self.status@,
            show_help: self.show_help,
            should_quit: self.should_quit,
            rects: self.rects,
            crumbs: crumbs_view(self.crumbs@),
            crumb_columns: self.crumb_columns@,
            root_label: self.root_label@,
            open_url: opt_string(self.open_url),
            reload_wanted: self.reload_wanted,
        }
    }
}

/// The wiki is consistent and its page tree is smaller than `usize::MAX` nodes.
pub open spec fn app_ok(v: AppView) -> bool {
    &&& v.wiki.wf()
    &&& fsize(wiki_tree(v.wiki.pages@)) < usize::MAX
}

/// The visible tree rows of a wiki with these folders expanded.
pub open spec fn rows_of(w: Wiki, expanded: Seq<Seq<char>>) -> Seq<RowView> {
    forest_rows(wiki_tree(w.pages@), 0, expanded)
}

/// `s` with `x` added, unless it is there already.
pub open spec fn with_one(s: Seq<Seq<char>>, x: Seq<char>) -> Seq<Seq<char>> {
    if s.contains(x) {
        s
    } else {
        s.push(x)
    }
}

/// `s` with each of the first `k` of `xs` added.
pub open spec fn with_all(s: Seq<Seq<char>>, xs: Seq<Seq<char>>, k: int) -> Seq<Seq<char>>
    decreases k,
{
    if k <= 0 || k > xs.len() {
        s
    } else {
        with_one(with_all(s, xs, k - 1), xs[k - 1])
    }
}

/// The tree rows again, the selection kept on a row.
pub open spec fn rebuild_tree_of(v: AppView) -> AppView {
    let t = rows_of(v.wiki, v.expanded);
    AppView {
        tree: t,
        tree_sel: if v.tree_sel < t.len() - 1 {
            v.tree_sel
        } else if t.len() > 0 {
            t.len() - 1
        } else {
            0
        },
        ..v
    }
}

/// A row that can be selected: not a header, not an empty row.
pub open spec fn selectable_view(r: RelatedView) -> bool {
    !(r is Header || r is Empty)
}

/// Index of the first selectable row from `k` on, or 0.
pub open spec fn first_selectable(rows: Seq<RelatedView>, k: int) -> int
    decreases rows.len() - k,
{
    if k < 0 || k >= rows.len() {
        0
    } else if selectable_view(rows[k]) {
        k
    } else {
        first_selectable(rows, k + 1)
    }
}

/// The related column again; the selection on its first selectable row.
pub open spec fn rebuild_related_of(v: AppView) -> AppView {
    match v.current {
        None => AppView { related: seq![RelatedView::Header("Backlinks"@)], ..v },
        Some(id) => {
            let rows = related_of(v.wiki, id);
            AppView { related: rows, related_sel: first_selectable(rows, 0), ..v }
        },
    }
}

pub open spec fn rebuild_crumbs_of(v: AppView) -> AppView {
    AppView { crumbs: crumbs_of(v.wiki, v.root_label, v.current), ..v }
}

/// Index of the first row, from `k` on, that is the page `id` (or the folder at `id`), or -1.
pub open spec fn row_of(rows: Seq<RowView>, key: Seq<char>, folder: bool, k: int) -> int
    decreases rows.len() - k,
{
    if k < 0 || k >= rows.len() {
        -1
    } else if rows[k].folder == folder && rows[k].key == key {
        k
    } else {
        row_of(rows, key, folder, k + 1)
    }
}

/// The folders above `id` expanded, and the tree cursor on it.
pub open spec fn reveal_in_tree_of(v: AppView, id: Seq<char>) -> AppView {
    let folders = crate::wiki::ancestors(id);
    let v1 = rebuild_tree_of(AppView { expanded: with_all(v.expanded, folders, folders.len() as int), ..v });
    let i = row_of(v1.tree, id, false, 0);
    if i >= 0 {
        AppView { tree_sel: i, ..v1 }
    } else {
        v1
    }
}

/// The current page is to be rendered, if there is one, a width to render at, and a page by
/// that id; without a current page, nothing is shown.
pub open spec fn render_current_of(v: AppView) -> AppView {
    match v.current {
        None => AppView { page: None, ..v },
        Some(id) => if v.render_width == 0 || crate::wiki::position(v.wiki.ids(), id, 0) < 0 {
            v
        } else {
            AppView { needs_render: true, ..v }
        },
    }
}

/// Opens page `id`; with `record`, the page left behind joins the history (unless it is the
/// same page) and the pages gone back from are forgotten.
pub open spec fn open_of(v: AppView, id: Seq<char>, record: bool) -> AppView {
    let v1 = if record {
        let h = match v.current {
            Some(prev) => if prev != id {
                v.history.push(prev)
            } else {
                v.history
            },
            None => v.history,
        };
        AppView { history: h, future: seq![], ..v }
    } else {
        v
    };
    let v2 = AppView {
        current: Some(id),
        scroll: 0,
        link_sel: None,
        related_sel: 0,
        related_scroll: 0,
        status: seq![],
        ..v1
    };
    reveal_in_tree_of(rebuild_crumbs_of(rebuild_related_of(render_current_of(v2))), id)
}

pub open spec fn back_of(v: AppView) -> AppView {
    if v.history.len() > 0 {
        let future = match v.current {
            Some(c) => v.future.push(c),
            None => v.future,
        };
        open_of(AppView { history: v.history.drop_last(), future, current: None, ..v }, v.history.last(), false)
    } else {
        AppView { status: "Nothing to go back to"@, ..v }
    }
}

pub open spec fn forward_of(v: AppView) -> AppView {
    if v.future.len() > 0 {
        let history = match v.current {
            Some(c) => v.history.push(c),
            None => v.history,
        };
        open_of(AppView { future: v.future.drop_last(), history, current: None, ..v }, v.future.last(), false)
    } else {
        AppView { status: "Nothing to go forward to"@, ..v }
    }
}

/// Follows a link: a page opens, a missing page is reported, a web address is handed over.
pub open spec fn follow_of(v: AppView, t: Target) -> AppView {
    match t {
        Target::Page(id) => open_of(v, id, true),
        Target::Missing(raw) => AppView { status: "No page '"@ + raw + "' (yet)"@, ..v },
        Target::External(url) => AppView { open_url: Some(url), ..v },
    }
}


fn opt_str(o: &Option<String>) -> (r: Option<&str>)
    ensures
        match r {
            Some(s) => opt_string(*o) == Some(s@),
            None => opt_string(*o) is None,
        },
{
    match o {
        Some(s) => Some(s.as_str()),
        None => None,
    }
}

/// Whether the cell `(x, y)` lies inside `a`.
pub fn area_has(a: Area, x: u16, y: u16) -> (r: bool)
    ensures
        r == crate::editor::area_contains(a, x, y),
{
    let right: u16 = if a.width > u16::MAX - a.x {
        u16::MAX
    } else {
        a.x + a.width
    };
    let bottom: u16 = if a.height > u16::MAX - a.y {
        u16::MAX
    } else {
        a.y + a.height
    };
    a.x <= x && x < right && a.y <= y && y < bottom
}

fn find_row(rows: &Vec<TreeRow>, key: &Vec<char>, folder: bool) -> (r: Option<usize>)
    ensures
        match r {
            Some(i) => row_of(rows_view(rows@), key@, folder, 0) == i as int && i < rows.len(),
            None => row_of(rows_view(rows@), key@, folder, 0) == -1,
        },
{
    let ghost rv = rows_view(rows@);
    let mut i: usize = 0;
    while i < rows.len()
        invariant
            rv == rows_view(rows@),
            0 <= i <= rows.len(),
            row_of(rv, key@, folder, 0) == row_of(rv, key@, folder, i as int),
        decreases rows.len() - i,
    {
        assert(rv[i as int] == rows@[i as int]@);
        let hit = match &rows[i].kind {
            TreeKind::Folder { path, .. } => folder && crate::text::chars_eq(&chars_of(path.as_str()), key),
            TreeKind::Page { id } => !folder && crate::text::chars_eq(&chars_of(id.as_str()), key),
        };
        if hit {
            return Some(i);
        }
        i = i + 1;
    }
    None
}

fn first_selectable_exec(rows: &Vec<RelatedRow>) -> (r: usize)
    ensures
        r as int == first_selectable(related_view(rows@), 0),
{
    let ghost rv = related_view(rows@);
    let mut i: usize = 0;
    while i < rows.len()
        invariant
            rv == related_view(rows@),
            0 <= i <= rows.len(),
            first_selectable(rv, 0) == first_selectable(rv, i as int),
        decreases rows.len() - i,
    {
        assert(rv[i as int] == rows@[i as int]@);
        if rows[i].selectable() {
            return i;
        }
        i = i + 1;
    }
    0
}

impl App {
    fn expand_folders(&mut self, folders: &Vec<String>)
        ensures
            final(self)@ == (AppView {
                expanded: with_all(old(self)@.expanded, strings(folders@), folders.len() as int),
                ..old(self)@
            }),
    {
        let ghost v0 = self@;
        let ghost fs = strings(folders@);
        let mut i: usize = 0;
        while i < folders.len()
            invariant
                fs == strings(folders@),
                0 <= i <= folders.len(),
                self@ == (AppView { expanded: with_all(v0.expanded, fs, i as int), ..v0 }),
            decreases folders.len() - i,
        {
            assert(fs[i as int] == folders@[i as int]@);
            if !contains_string(&self.expanded, &folders[i]) {
                let ghost before = strings(self.expanded@);
                self.expanded.push(folders[i].clone());
                assert(strings(self.expanded@) =~= before.push(fs[i as int]));
            }
            i = i + 1;
            assert(self@ =~= (AppView { expanded: with_all(v0.expanded, fs, i as int), ..v0 }));
        }
    }

    fn rebuild_tree(&mut self)
        requires
            app_ok(old(self)@),
        ensures
            final(self)@ == rebuild_tree_of(old(self)@),
    {
        let ghost v0 = self@;
        let t = self.wiki.tree();
        let rows = tree_rows(&t, &self.expanded);
        self.tree = rows;
        let n = self.tree.len();
        if n > 0 && self.tree_sel < n - 1 {
        } else if n > 0 {
            self.tree_sel = n - 1;
        } else {
            self.tree_sel = 0;
        }
        assert(self@ =~= rebuild_tree_of(v0));
    }

    fn reveal_in_tree(&mut self, id: &str)
        requires
            app_ok(old(self)@),
        ensures
            final(self)@ == reveal_in_tree_of(old(self)@, id@),
    {
        let ghost v0 = self@;
        let folders = crate::wiki::ancestor_folders(id);
        self.expand_folders(&folders);
        self.rebuild_tree();
        let idc = chars_of(id);
        match find_row(&self.tree, &idc, false) {
            Some(i) => {
                self.tree_sel = i;
            },
            None => {},
        }
        assert(self@ =~= reveal_in_tree_of(v0, id@));
    }

    fn render_current(&mut self)
        ensures
            final(self)@ == render_current_of(old(self)@),
    {
        let ghost v0 = self@;
        match &self.current {
            None => {
                self.rendered = None;
            },
            Some(id) => {
                if self.render_width != 0 {
                    let c = chars_of(id.as_str());
                    if self.wiki.position_of(&c).is_some() {
                        self.needs_render = true;
                    }
                }
            },
        }
        assert(self@ =~= render_current_of(v0));
    }

    fn rebuild_related(&mut self)
        requires
            old(self)@.wiki.wf(),
        ensures
            final(self)@ == rebuild_related_of(old(self)@),
    {
        let ghost v0 = self@;
        let cur = opt_str(&self.current);
        let rows = related_rows(&self.wiki, cur);
        let some = cur.is_some();
        self.related = rows;
        if some {
            self.related_sel = first_selectable_exec(&self.related);
        }
        assert(self@ =~= rebuild_related_of(v0));
    }

    fn rebuild_crumbs(&mut self)
        ensures
            final(self)@ == rebuild_crumbs_of(old(self)@),
    {
        let ghost v0 = self@;
        let cur = opt_str(&self.current);
        let c = crumbs(&self.wiki, self.root_label.as_str(), cur);
        self.crumbs = c;
        assert(self@ =~= rebuild_crumbs_of(v0));
    }

    /// Opens page `id`. With `record`, the page left behind joins the history (unless it is
    /// `id` itself) and the pages gone back from are forgotten.
    pub fn open(&mut self, id: &str, record: bool)
        requires
            app_ok(old(self)@),
        ensures
            final(self)@ == open_of(old(self)@, id@, record),
    {
        let ghost v0 = self@;
        let idc = chars_of(id);
        if record {
            match &self.current {
                Some(prev) => {
                    if !crate::text::chars_eq(&chars_of(prev.as_str()), &idc) {
                        let ghost h = strings(self.history@);
                        self.history.push(prev.clone());
                        assert(strings(self.history@) =~= h.push(prev@));
                    }
                },
                None => {},
            }
            self.future = Vec::new();
        }
        self.current = Some(string_of(&idc));
        self.scroll = 0;
        self.link_sel = None;
        self.related_sel = 0;
        self.related_scroll = 0;
        self.status = string_of(&Vec::new());
        let ghost v2 = self@;
        proof {
            let v1 = if record {
                let h = match v0.current {
                    Some(prev) => if prev != id@ {
                        v0.history.push(prev)
                    } else {
                        v0.history
                    },
                    None => v0.history,
                };
                AppView { history: h, future: seq![], ..v0 }
            } else {
                v0
            };
            assert(strings(self.future@) =~= v1.future);
            assert(v2 =~= (AppView {
                current: Some(id@),
                scroll: 0,
                link_sel: None,
                related_sel: 0,
                related_scroll: 0,
                status: seq![],
                ..v1
            }));
        }
        self.render_current();
        self.rebuild_related();
        self.rebuild_crumbs();
        self.reveal_in_tree(id);
    }

    /// Goes back to the page before, if there is one.
    pub fn back(&mut self)
        requires
            app_ok(old(self)@),
        ensures
            final(self)@ == back_of(old(self)@),
    {
        let ghost v0 = self@;
        match self.history.pop() {
            Some(prev) => {
                match self.current.take() {
                    Some(cur) => {
                        self.future.push(cur);
                    },
                    None => {},
                }
                proof {
                    let future = match v0.current {
                        Some(c) => v0.future.push(c),
                        None => v0.future,
                    };
                    assert(self@ =~= (AppView { history: v0.history.drop_last(), future, current: None, ..v0 }));
                }
                self.open(prev.as_str(), false);
            },
            None => {
                self.status = string_of(&chars_of("Nothing to go back to"));
                assert(self@ =~= back_of(v0));
            },
        }
    }

    /// Goes forward again after going back, if there is a page to go to.
    pub fn forward(&mut self)
        requires
            app_ok(old(self)@),
        ensures
            final(self)@ == forward_of(old(self)@),
    {
        let ghost v0 = self@;
        match self.future.pop() {
            Some(next) => {
                match self.current.take() {
                    Some(cur) => {
                        self.history.push(cur);
                    },
                    None => {},
                }
                proof {
                    let history = match v0.current {
                        Some(c) => v0.history.push(c),
                        None => v0.history,
                    };
                    assert(self@ =~= (AppView { future: v0.future.drop_last(), history, current: None, ..v0 }));
                }
                self.open(next.as_str(), false);
            },
            None => {
                self.status = string_of(&chars_of("Nothing to go forward to"));
                assert(self@ =~= forward_of(v0));
            },
        }
    }

    /// Follows a link: a page opens (and is recorded in the history), a missing page is
    /// reported, a web address is left in `open_url` for the program to hand to the desktop.
    pub fn follow(&mut self, target: &LinkTarget)
        requires
            app_ok(old(self)@),
        ensures
            final(self)@ == follow_of(old(self)@, target@),
    {
        let ghost v0 = self@;
        match target {
            LinkTarget::Page(id) => {
                self.open(id.as_str(), true);
            },
            LinkTarget::Missing(raw) => {
                let mut m: Vec<char> = chars_of("No page '");
                push_str(&mut m, raw.as_str());
                push_str(&mut m, "' (yet)");
                self.status = string_of(&m);
                assert(self@ =~= follow_of(v0, target@));
            },
            LinkTarget::External(url) => {
                self.open_url = Some(url.clone());
                assert(self@ =~= follow_of(v0, target@));
            },
        }
    }
}


// ----- scrolling and links ----------------------------------------------------------------

/// Number of lines of the page shown.
pub open spec fn line_count(v: AppView) -> int {
    match v.page {
        Some(p) => p.lines.len() as int,
        None => 0,
    }
}

/// The links of the page shown.
pub open spec fn page_links(v: AppView) -> Seq<(Target, Seq<(usize, usize)>)> {
    match v.page {
        Some(p) => p.links,
        None => seq![],
    }
}

/// How far the page can scroll: its lines beyond one screen.
pub open spec fn max_scroll_of(v: AppView) -> int {
    if line_count(v) > v.content_height {
        line_count(v) - v.content_height
    } else {
        0
    }
}

pub open spec fn clamp(x: int, lo: int, hi: int) -> int {
    if x < lo {
        lo
    } else if x > hi {
        hi
    } else {
        x
    }
}

pub open spec fn min_of(a: int, b: int) -> int {
    if a < b {
        a
    } else {
        b
    }
}

/// Scroll by `delta` lines, staying between the top and `max_scroll_of`.
pub open spec fn scroll_by_of(v: AppView, delta: int) -> AppView {
    AppView { scroll: clamp(v.scroll + delta, 0, max_scroll_of(v)), ..v }
}

/// The line on which link `i` starts.
pub open spec fn link_line_of(v: AppView, i: int) -> Option<int> {
    let ls = page_links(v);
    if 0 <= i < ls.len() && ls[i].1.len() > 0 {
        Some(ls[i].1[0].0 as int)
    } else {
        None
    }
}

/// Link `i` starts on a line on screen.
pub open spec fn link_visible(v: AppView, i: int) -> bool {
    match link_line_of(v, i) {
        Some(l) => v.scroll <= l < v.scroll + v.content_height,
        None => false,
    }
}

/// The first link from `k` on that starts on screen, or -1.
pub open spec fn first_visible(v: AppView, k: int) -> int
    decreases page_links(v).len() - k,
{
    if k < 0 || k >= page_links(v).len() {
        -1
    } else if link_visible(v, k) {
        k
    } else {
        first_visible(v, k + 1)
    }
}

/// The last link before `k` that starts on screen, or -1.
pub open spec fn last_visible(v: AppView, k: int) -> int
    decreases k,
{
    if k <= 0 || k > page_links(v).len() {
        -1
    } else if link_visible(v, k - 1) {
        k - 1
    } else {
        last_visible(v, k - 1)
    }
}

/// Select link `index`, scrolling it a third down the screen when it starts off screen.
pub open spec fn select_link_of(v: AppView, index: int) -> AppView {
    let v1 = AppView { link_sel: Some(index as usize), ..v };
    match link_line_of(v, index) {
        Some(line) => if line < v.scroll || line >= v.scroll + v.content_height {
            let third = v.content_height / 3;
            let target = if line > third {
                line - third
            } else {
                0
            };
            AppView { scroll: min_of(target, max_scroll_of(v)), ..v1 }
        } else {
            v1
        },
        None => v1,
    }
}

/// Select the next link, after the selected one (round to the first), or the first on screen.
pub open spec fn next_link_of(v: AppView) -> AppView {
    let count = page_links(v).len() as int;
    if count == 0 {
        AppView { status: "No links on this page"@, ..v }
    } else {
        let next = match v.link_sel {
            Some(i) => (i + 1) % count,
            None => {
                let f = first_visible(v, 0);
                if f >= 0 {
                    f
                } else {
                    0
                }
            },
        };
        select_link_of(v, next)
    }
}

/// Select the link before the selected one (round to the last), or the last on screen.
pub open spec fn prev_link_of(v: AppView) -> AppView {
    let count = page_links(v).len() as int;
    if count == 0 {
        AppView { status: "No links on this page"@, ..v }
    } else {
        let prev = match v.link_sel {
            Some(i) => if i == 0 {
                count - 1
            } else {
                i - 1
            },
            None => {
                let l = last_visible(v, count);
                if l >= 0 {
                    l
                } else {
                    count - 1
                }
            },
        };
        select_link_of(v, prev)
    }
}

/// Follow the selected link.
pub open spec fn follow_selected_link_of(v: AppView) -> AppView {
    match v.link_sel {
        Some(i) => if i < page_links(v).len() {
            follow_of(v, page_links(v)[i as int].0)
        } else {
            AppView { status: "Select a link first (n / p)"@, ..v }
        },
        None => AppView { status: "Select a link first (n / p)"@, ..v },
    }
}

/// The span from `k` on under column `col`, the spans before `k` taking `acc` columns, or -1.
pub open spec fn hit_span(spans: Seq<SpanV>, col: int, k: int, acc: int) -> int
    decreases spans.len() - k,
{
    if k < 0 || k >= spans.len() {
        -1
    } else {
        let w = crate::markdown::width_of(spans[k].0);
        if acc <= col < acc + w {
            k
        } else {
            hit_span(spans, col, k + 1, acc + w)
        }
    }
}

/// The first link from `k` on that covers span `at`, or -1.
pub open spec fn link_with(links: Seq<(Target, Seq<(usize, usize)>)>, at: (usize, usize), k: int) -> int
    decreases links.len() - k,
{
    if k < 0 || k >= links.len() {
        -1
    } else if links[k].1.contains(at) {
        k
    } else {
        link_with(links, at, k + 1)
    }
}

/// The link under the cell at `col` of page line `line`.
pub open spec fn link_at_of(v: AppView, line: int, col: int) -> Option<int> {
    match v.page {
        None => None,
        Some(p) => if 0 <= line < p.lines.len() {
            let s = hit_span(p.lines[line], col, 0, 0);
            if s < 0 {
                None
            } else {
                let l = link_with(p.links, (line as usize, s as usize), 0);
                if l < 0 {
                    None
                } else {
                    Some(l)
                }
            }
        } else {
            None
        },
    }
}

proof fn lemma_hit_span_bound(spans: Seq<SpanV>, col: int, k: int, acc: int)
    ensures
        hit_span(spans, col, k, acc) < spans.len(),
        hit_span(spans, col, k, acc) >= -1,
    decreases spans.len() - k,
{
    if 0 <= k < spans.len() {
        lemma_hit_span_bound(spans, col, k + 1, acc + crate::markdown::width_of(spans[k].0));
    }
}

proof fn lemma_link_with_bound(links: Seq<(Target, Seq<(usize, usize)>)>, at: (usize, usize), k: int)
    ensures
        link_with(links, at, k) < links.len(),
        link_with(links, at, k) >= -1,
    decreases links.len() - k,
{
    if 0 <= k < links.len() {
        lemma_link_with_bound(links, at, k + 1);
    }
}

proof fn lemma_visible_bounds(v: AppView, k: int)
    ensures
        first_visible(v, k) < page_links(v).len(),
        first_visible(v, k) >= -1,
        last_visible(v, k) < page_links(v).len(),
        last_visible(v, k) >= -1,
    decreases page_links(v).len() + 1 - k,
{
    if 0 <= k < page_links(v).len() {
        lemma_visible_bounds(v, k + 1);
    }
    if 0 < k <= page_links(v).len() {
        lemma_last_visible_bound(v, k);
    }
}

proof fn lemma_last_visible_bound(v: AppView, k: int)
    ensures
        last_visible(v, k) < page_links(v).len(),
        last_visible(v, k) >= -1,
        k > 0 ==> last_visible(v, k) < k,
    decreases k,
{
    if 0 < k <= page_links(v).len() {
        lemma_last_visible_bound(v, k - 1);
    }
}

impl App {
    fn links_len(&self) -> (r: usize)
        ensures
            r as int == page_links(self@).len(),
    {
        match &self.rendered {
            Some(r) => r.links.len(),
            None => 0,
        }
    }

    fn link_line(&self, index: usize) -> (r: Option<usize>)
        ensures
            match r {
                Some(l) => link_line_of(self@, index as int) == Some(l as int),
                None => link_line_of(self@, index as int) is None,
            },
    {
        match &self.rendered {
            Some(r) => {
                if index < r.links.len() && r.links[index].spans.len() > 0 {
                    Some(r.links[index].spans[0].0)
                } else {
                    None
                }
            },
            None => None,
        }
    }

    fn is_visible(&self, i: usize) -> (r: bool)
        ensures
            r == link_visible(self@, i as int),
    {
        match self.link_line(i) {
            Some(l) => self.scroll <= l && l - self.scroll < self.content_height,
            None => false,
        }
    }

    fn first_visible_link(&self) -> (r: Option<usize>)
        ensures
            match r {
                Some(i) => first_visible(self@, 0) == i as int,
                None => first_visible(self@, 0) == -1,
            },
    {
        let n = self.links_len();
        let mut i: usize = 0;
        while i < n
            invariant
                n as int == page_links(self@).len(),
                0 <= i <= n,
                first_visible(self@, 0) == first_visible(self@, i as int),
            decreases n - i,
        {
            if self.is_visible(i) {
                return Some(i);
            }
            i = i + 1;
        }
        None
    }

    fn last_visible_link(&self) -> (r: Option<usize>)
        ensures
            match r {
                Some(i) => last_visible(self@, page_links(self@).len() as int) == i as int,
                None => last_visible(self@, page_links(self@).len() as int) == -1,
            },
    {
        let n = self.links_len();
        let mut k: usize = n;
        while k > 0
            invariant
                n as int == page_links(self@).len(),
                0 <= k <= n,
                last_visible(self@, n as int) == last_visible(self@, k as int),
            decreases k,
        {
            if self.is_visible(k - 1) {
                return Some(k - 1);
            }
            k = k - 1;
        }
        None
    }

    /// How far the page can scroll: its lines beyond one screen.
    pub fn max_scroll(&self) -> (r: usize)
        ensures
            r as int == max_scroll_of(self@),
    {
        let lines = match &self.rendered {
            Some(r) => r.lines.len(),
            None => 0,
        };
        if lines > self.content_height {
            lines - self.content_height
        } else {
            0
        }
    }

    fn scroll_wide(&mut self, delta: i128)
        requires
            -0x1_0000_0000_0000_0000 <= delta <= 0x1_0000_0000_0000_0000,
        ensures
            final(self)@ == scroll_by_of(old(self)@, delta as int),
    {
        let ghost v0 = self@;
        let max = self.max_scroll();
        let s: i128 = self.scroll as i128 + delta;
        if s < 0 {
            self.scroll = 0;
        } else if s > max as i128 {
            self.scroll = max;
        } else {
            self.scroll = s as usize;
        }
        assert(self@ =~= scroll_by_of(v0, delta as int));
    }

    /// Scroll the page by `delta` lines, staying between the top and `max_scroll`.
    pub fn scroll_by(&mut self, delta: isize)
        ensures
            final(self)@ == scroll_by_of(old(self)@, delta as int),
    {
        self.scroll_wide(delta as i128);
    }

    fn select_link(&mut self, index: usize)
        ensures
            final(self)@ == select_link_of(old(self)@, index as int),
    {
        let ghost v0 = self@;
        let line = self.link_line(index);
        self.link_sel = Some(index);
        match line {
            Some(l) => {
                if l < self.scroll || l - self.scroll >= self.content_height {
                    let third = self.content_height / 3;
                    let target = if l > third {
                        l - third
                    } else {
                        0
                    };
                    let max = self.max_scroll();
                    self.scroll = if target < max {
                        target
                    } else {
                        max
                    };
                }
            },
            None => {},
        }
        assert(self@ =~= select_link_of(v0, index as int));
    }

    /// Select the next link on the page.
    pub fn next_link(&mut self)
        ensures
            final(self)@ == next_link_of(old(self)@),
    {
        let ghost v0 = self@;
        let count = self.links_len();
        if count == 0 {
            self.status = string_of(&chars_of("No links on this page"));
            assert(self@ =~= next_link_of(v0));
            return;
        }
        let next = match self.link_sel {
            Some(i) => {
                assert((i as int + 1) % (count as int) == ((i as int % count as int) + 1) % (count as int)) by (nonlinear_arith)
                    requires count > 0;
                (i % count + 1) % count
            },
            None => match self.first_visible_link() {
                Some(f) => f,
                None => 0,
            },
        };
        self.select_link(next);
    }

    /// Select the link before the selected one.
    pub fn prev_link(&mut self)
        ensures
            final(self)@ == prev_link_of(old(self)@),
    {
        let ghost v0 = self@;
        let count = self.links_len();
        if count == 0 {
            self.status = string_of(&chars_of("No links on this page"));
            assert(self@ =~= prev_link_of(v0));
            return;
        }
        let prev = match self.link_sel {
            Some(i) => if i == 0 {
                count - 1
            } else {
                i - 1
            },
            None => match self.last_visible_link() {
                Some(l) => l,
                None => count - 1,
            },
        };
        self.select_link(prev);
    }

    /// Follow the selected link, if there is one.
    pub fn follow_selected_link(&mut self)
        requires
            app_ok(old(self)@),
        ensures
            final(self)@ == follow_selected_link_of(old(self)@),
    {
        let ghost v0 = self@;
        let target = match self.link_sel {
            Some(i) => match &self.rendered {
                Some(r) => if i < r.links.len() {
                    assert(page_links(v0)[i as int].0 == r.links@[i as int].target@);
                    Some(crate::markdown::copy_target(&r.links[i].target))
                } else {
                    None
                },
                None => None,
            },
            None => None,
        };
        match target {
            Some(t) => self.follow(&t),
            None => {
                self.status = string_of(&chars_of("Select a link first (n / p)"));
                assert(self@ =~= follow_selected_link_of(v0));
            },
        }
    }

    /// The link under the cell at column `col` of page line `line`, if any.
    pub fn link_at(&self, line: usize, col: u16) -> (r: Option<usize>)
        ensures
            match r {
                Some(i) => link_at_of(self@, line as int, col as int) == Some(i as int),
                None => link_at_of(self@, line as int, col as int) is None,
            },
    {
        let rendered = match &self.rendered {
            Some(r) => r,
            None => {
                return None;
            },
        };
        let ghost p = page_view(*rendered);
        if line >= rendered.lines.len() {
            return None;
        }
        let spans = &rendered.lines[line].spans;
        let ghost sv = p.lines[line as int];
        assert(sv == crate::markdown::spans_view(spans@));
        let c = col as usize;
        let mut acc: usize = 0;
        let mut k: usize = 0;
        let mut hit: Option<usize> = None;
        while k < spans.len()
            invariant_except_break
                hit is None,
            invariant
                sv == crate::markdown::spans_view(spans@),
                0 <= k <= spans.len(),
                acc <= c,
                c == col as usize,
                hit_span(sv, c as int, 0, 0) == hit_span(sv, c as int, k as int, acc as int),
            ensures
                match hit {
                    Some(h) => hit_span(sv, c as int, 0, 0) == h as int,
                    None => hit_span(sv, c as int, 0, 0) == -1,
                },
            decreases spans.len() - k,
        {
            let w = crate::text::text_width(&chars_of(spans[k].text.as_str()));
            assert(sv[k as int].0 == spans@[k as int].text@);
            if w > c - acc {
                hit = Some(k);
                break;
            }
            acc = acc + w;
            k = k + 1;
        }
        let s = match hit {
            Some(h) => h,
            None => {
                return None;
            },
        };
        let links = &rendered.links;
        let ghost lv = p.links;
        let mut j: usize = 0;
        while j < links.len()
            invariant
                lv == crate::markdown::links_view(links@),
                self@.page == Some(p),
                p.links == lv,
                0 <= line < p.lines.len(),
                sv == p.lines[line as int],
                hit_span(sv, col as int, 0, 0) == s as int,
                0 <= j <= links.len(),
                link_with(lv, (line, s), 0) == link_with(lv, (line, s), j as int),
            decreases links.len() - j,
        {
            let sp = &links[j].spans;
            let mut m: usize = 0;
            let mut found = false;
            while m < sp.len()
                invariant_except_break
                    !found,
                invariant
                    0 <= m <= sp.len(),
                    forall|q: int| 0 <= q < m ==> sp@[q] != (line, s),
                ensures
                    found ==> m < sp.len() && sp@[m as int] == (line, s),
                    !found ==> m == sp.len(),
                decreases sp.len() - m,
            {
                if sp[m].0 == line && sp[m].1 == s {
                    found = true;
                    break;
                }
                m = m + 1;
            }
            proof {
                assert(lv[j as int].1 == sp@);
                if !found {
                    assert(!sp@.contains((line, s)));
                } else {
                    assert(sp@[m as int] == (line, s));
                    assert(lv[j as int].1.contains((line, s)));
                    assert(link_with(lv, (line, s), j as int) == j);
                }
            }
            if found {
                assert(hit_span(sv, col as int, 0, 0) == s as int);
                assert(link_at_of(self@, line as int, col as int) == Some(j as int));
                return Some(j);
            }
            j = j + 1;
        }
        None
    }
}


// ----- the tree, the related column and the breadcrumbs, by key and mouse -------------------

/// Move the tree cursor by `delta` rows, staying on the rows.
pub open spec fn tree_move_of(v: AppView, delta: int) -> AppView {
    if v.tree.len() == 0 {
        v
    } else {
        AppView { tree_sel: clamp(v.tree_sel + delta, 0, v.tree.len() - 1), ..v }
    }
}

/// `s` without `x`.
pub open spec fn without(s: Seq<Seq<char>>, x: Seq<char>) -> Seq<Seq<char>>
    decreases s.len(),
{
    if s.len() == 0 {
        seq![]
    } else {
        let r = without(s.drop_last(), x);
        if s.last() == x {
            r
        } else {
            r.push(s.last())
        }
    }
}

/// The row under the tree cursor, if the cursor is on a row.
pub open spec fn cursor_row(v: AppView) -> Option<RowView> {
    if 0 <= v.tree_sel < v.tree.len() {
        Some(v.tree[v.tree_sel])
    } else {
        None
    }
}

/// Open or close the folder under the cursor.
pub open spec fn tree_toggle_of(v: AppView) -> AppView {
    match cursor_row(v) {
        Some(r) => if r.folder {
            let e = if v.expanded.contains(r.key) {
                without(v.expanded, r.key)
            } else {
                v.expanded.push(r.key)
            };
            rebuild_tree_of(AppView { expanded: e, ..v })
        } else {
            v
        },
        None => v,
    }
}

/// Enter on a tree row: a page opens, a folder opens or closes.
pub open spec fn tree_activate_of(v: AppView) -> AppView {
    match cursor_row(v) {
        Some(r) => if r.folder {
            tree_toggle_of(v)
        } else {
            open_of(v, r.key, true)
        },
        None => v,
    }
}

/// Right on a tree row: a closed folder opens, an open one moves the cursor down, a page opens.
pub open spec fn tree_expand_of(v: AppView) -> AppView {
    match cursor_row(v) {
        Some(r) => if r.folder && !r.expanded {
            rebuild_tree_of(AppView { expanded: with_one(v.expanded, r.key), ..v })
        } else if r.folder {
            tree_move_of(v, 1)
        } else {
            tree_activate_of(v)
        },
        None => v,
    }
}

/// The last row before `k` that is less deep than `depth`, or -1.
pub open spec fn parent_row(rows: Seq<RowView>, depth: int, k: int) -> int
    decreases k,
{
    if k <= 0 || k > rows.len() {
        -1
    } else if rows[k - 1].depth < depth {
        k - 1
    } else {
        parent_row(rows, depth, k - 1)
    }
}

/// Left on a tree row: an open folder closes, anything else moves the cursor to its folder.
pub open spec fn tree_collapse_of(v: AppView) -> AppView {
    match cursor_row(v) {
        Some(r) => if r.folder && r.expanded {
            rebuild_tree_of(AppView { expanded: without(v.expanded, r.key), ..v })
        } else if r.depth == 0 {
            v
        } else {
            let p = parent_row(v.tree, r.depth, v.tree_sel);
            if p >= 0 {
                AppView { tree_sel: p, ..v }
            } else {
                v
            }
        },
        None => v,
    }
}

/// A folder path and the folders above it: `a`, `a/b` for `a/b`.
pub open spec fn prefixes(path: Seq<char>) -> Seq<Seq<char>> {
    let parts = split_on(path, '/');
    Seq::new(parts.len(), |d: int| crate::text::join(parts.take(d + 1), "/"@))
}

/// Show the folder at `path` in the tree, opened down to it, with the cursor and the
/// keyboard on it.
pub open spec fn reveal_folder_of(v: AppView, path: Seq<char>) -> AppView {
    let folders = prefixes(path);
    let v1 = rebuild_tree_of(AppView { expanded: with_all(v.expanded, folders, folders.len() as int), ..v });
    let i = row_of(v1.tree, path, true, 0);
    AppView {
        tree_sel: if i >= 0 {
            i
        } else {
            v1.tree_sel
        },
        focus: Focus::Tree,
        ..v1
    }
}

/// The first selectable row after `i`, or -1.
pub open spec fn next_selectable(rows: Seq<RelatedView>, i: int) -> int
    decreases rows.len() - i,
{
    let j = i + 1;
    if j < 0 || j >= rows.len() {
        -1
    } else if selectable_view(rows[j]) {
        j
    } else {
        next_selectable(rows, j)
    }
}

/// The last selectable row before `i`, or -1.
pub open spec fn prev_selectable(rows: Seq<RelatedView>, i: int) -> int
    decreases i,
{
    let j = i - 1;
    if j < 0 || j >= rows.len() {
        -1
    } else if selectable_view(rows[j]) {
        j
    } else {
        prev_selectable(rows, j)
    }
}

/// Move the related selection to the next selectable row down (or up), if there is one.
pub open spec fn related_move_of(v: AppView, down: bool) -> AppView {
    let j = if down {
        next_selectable(v.related, v.related_sel)
    } else {
        prev_selectable(v.related, v.related_sel)
    };
    if j >= 0 {
        AppView { related_sel: j, ..v }
    } else {
        v
    }
}

/// Enter on a related row: follow what it names.
pub open spec fn related_activate_of(v: AppView) -> AppView {
    if 0 <= v.related_sel < v.related.len() {
        match v.related[v.related_sel] {
            RelatedView::Page(id) => follow_of(v, Target::Page(id)),
            RelatedView::Missing(r) => follow_of(v, Target::Missing(r)),
            RelatedView::External(u) => follow_of(v, Target::External(u)),
            _ => v,
        }
    } else {
        v
    }
}

/// A click on breadcrumb `index`: the root opens the landing page, a folder is shown in the
/// tree, the page itself does nothing.
pub open spec fn crumb_activate_of(v: AppView, index: int) -> AppView {
    if 0 <= index < v.crumbs.len() {
        match v.crumbs[index].folder {
            Some(f) => if f.len() == 0 {
                match v.wiki.landing() {
                    Some(h) => open_of(v, h, true),
                    None => v,
                }
            } else {
                reveal_folder_of(v, f)
            },
            None => v,
        }
    } else {
        v
    }
}

/// The next pane (or the one before): tree, content, related, round.
pub open spec fn cycle_focus_of(v: AppView, forward: bool) -> AppView {
    let f = match v.focus {
        Focus::Tree => if forward {
            Focus::Content
        } else {
            Focus::Related
        },
        Focus::Content => if forward {
            Focus::Related
        } else {
            Focus::Tree
        },
        Focus::Related => if forward {
            Focus::Tree
        } else {
            Focus::Content
        },
    };
    AppView { focus: f, ..v }
}

fn folder_prefixes(path: &str) -> (r: Vec<String>)
    ensures
        strings(r@) == prefixes(path@),
{
    let c = chars_of(path);
    let parts = split_char(&c, '/');
    let ghost pv = views(parts@);
    let sep = chars_of("/");
    let mut out: Vec<String> = Vec::new();
    let mut i: usize = 0;
    while i < parts.len()
        invariant
            pv == views(parts@),
            pv == split_on(path@, '/'),
            sep@ == "/"@,
            0 <= i <= parts.len(),
            strings(out@) == prefixes(path@).take(i as int),
        decreases parts.len() - i,
    {
        let mut prefix: Vec<Vec<char>> = Vec::new();
        let mut j: usize = 0;
        while j <= i
            invariant
                pv == views(parts@),
                i < parts.len(),
                0 <= j <= i + 1,
                views(prefix@) == pv.take(j as int),
            decreases i + 1 - j,
        {
            let ghost before = views(prefix@);
            prefix.push(parts[j].clone());
            assert(views(prefix@) =~= before.push(pv[j as int]));
            assert(pv.take(j + 1) =~= pv.take(j as int).push(pv[j as int]));
            j = j + 1;
        }
        let joined = crate::text::join_chars(&prefix, &sep);
        let ghost before = strings(out@);
        out.push(string_of(&joined));
        assert(strings(out@) =~= before.push(joined@));
        assert(prefixes(path@).take(i + 1) =~= prefixes(path@).take(i as int).push(prefixes(path@)[i as int]));
        i = i + 1;
    }
    assert(prefixes(path@).take(parts.len() as int) =~= prefixes(path@));
    out
}

fn without_exec(v: &Vec<String>, x: &String) -> (r: Vec<String>)
    ensures
        strings(r@) == without(strings(v@), x@),
{
    let xc = chars_of(x.as_str());
    let mut out: Vec<String> = Vec::new();
    let mut i: usize = 0;
    while i < v.len()
        invariant
            xc@ == x@,
            0 <= i <= v.len(),
            strings(out@) == without(strings(v@).take(i as int), x@),
        decreases v.len() - i,
    {
        let ghost sv = strings(v@);
        assert(sv.take(i + 1).drop_last() =~= sv.take(i as int));
        assert(sv.take(i + 1).last() == v@[i as int]@);
        if !crate::text::chars_eq(&chars_of(v[i].as_str()), &xc) {
            let ghost before = strings(out@);
            out.push(v[i].clone());
            assert(strings(out@) =~= before.push(v@[i as int]@));
        }
        i = i + 1;
    }
    assert(strings(v@).take(v.len() as int) =~= strings(v@));
    out
}

impl App {
    fn cursor_is(&self) -> (r: Option<(bool, bool, usize)>)
        ensures
            match r {
                Some((folder, expanded, depth)) => cursor_row(self@) matches Some(row) && row.folder == folder
                    && row.expanded == expanded && row.depth == depth as int,
                None => cursor_row(self@) is None,
            },
    {
        if self.tree_sel < self.tree.len() {
            let ghost rv = rows_view(self.tree@);
            assert(rv[self.tree_sel as int] == self.tree@[self.tree_sel as int]@);
            let row = &self.tree[self.tree_sel];
            match &row.kind {
                TreeKind::Folder { expanded, .. } => Some((true, *expanded, row.depth)),
                TreeKind::Page { .. } => Some((false, false, row.depth)),
            }
        } else {
            None
        }
    }

    fn cursor_key(&self) -> (r: String)
        requires
            cursor_row(self@) is Some,
        ensures
            cursor_row(self@) matches Some(row) && row.key == r@,
    {
        let ghost rv = rows_view(self.tree@);
        assert(rv[self.tree_sel as int] == self.tree@[self.tree_sel as int]@);
        match &self.tree[self.tree_sel].kind {
            TreeKind::Folder { path, .. } => path.clone(),
            TreeKind::Page { id } => id.clone(),
        }
    }

    fn tree_move(&mut self, delta: isize)
        ensures
            final(self)@ == tree_move_of(old(self)@, delta as int),
    {
        let ghost v0 = self@;
        let n = self.tree.len();
        if n == 0 {
            return;
        }
        let s: i128 = self.tree_sel as i128 + delta as i128;
        if s < 0 {
            self.tree_sel = 0;
        } else if s > (n - 1) as i128 {
            self.tree_sel = n - 1;
        } else {
            self.tree_sel = s as usize;
        }
        assert(self@ =~= tree_move_of(v0, delta as int));
    }

    fn tree_toggle(&mut self)
        requires
            app_ok(old(self)@),
        ensures
            final(self)@ == tree_toggle_of(old(self)@),
    {
        let ghost v0 = self@;
        match self.cursor_is() {
            Some((true, _, _)) => {
                let path = self.cursor_key();
                if contains_string(&self.expanded, &path) {
                    self.expanded = without_exec(&self.expanded, &path);
                } else {
                    let ghost e = strings(self.expanded@);
                    self.expanded.push(path);
                    assert(strings(self.expanded@) =~= e.push(path@));
                }
                self.rebuild_tree();
            },
            _ => {},
        }
    }

    fn tree_activate(&mut self)
        requires
            app_ok(old(self)@),
        ensures
            final(self)@ == tree_activate_of(old(self)@),
    {
        match self.cursor_is() {
            Some((true, _, _)) => self.tree_toggle(),
            Some((false, _, _)) => {
                let id = self.cursor_key();
                self.open(id.as_str(), true);
            },
            None => {},
        }
    }

    fn tree_expand(&mut self)
        requires
            app_ok(old(self)@),
        ensures
            final(self)@ == tree_expand_of(old(self)@),
    {
        let ghost v0 = self@;
        match self.cursor_is() {
            Some((true, false, _)) => {
                let path = self.cursor_key();
                if !contains_string(&self.expanded, &path) {
                    let ghost e = strings(self.expanded@);
                    self.expanded.push(path);
                    assert(strings(self.expanded@) =~= e.push(path@));
                }
                self.rebuild_tree();
            },
            Some((true, true, _)) => self.tree_move(1),
            Some((false, _, _)) => self.tree_activate(),
            None => {},
        }
    }

    fn tree_collapse(&mut self)
        requires
            app_ok(old(self)@),
        ensures
            final(self)@ == tree_collapse_of(old(self)@),
    {
        let ghost v0 = self@;
        match self.cursor_is() {
            Some((true, true, _)) => {
                let path = self.cursor_key();
                self.expanded = without_exec(&self.expanded, &path);
                self.rebuild_tree();
            },
            Some((_, _, depth)) => {
                if depth == 0 {
                    return;
                }
                let ghost rv = rows_view(self.tree@);
                let mut k: usize = self.tree_sel;
                while k > 0
                    invariant
                        rv == rows_view(self.tree@),
                        self@ == v0,
                        v0 == old(self)@,
                        rv == v0.tree,
                        cursor_row(v0) matches Some(row) && row.depth == depth as int && !(row.folder
                            && row.expanded) && row.depth != 0,
                        k <= self.tree_sel < self.tree.len(),
                        parent_row(rv, depth as int, self.tree_sel as int) == parent_row(rv, depth as int, k as int),
                    decreases k,
                {
                    assert(rv[k - 1] == self.tree@[k - 1]@);
                    if self.tree[k - 1].depth < depth {
                        self.tree_sel = k - 1;
                        assert(self@ =~= (AppView { tree_sel: (k - 1) as int, ..v0 }));
                        return;
                    }
                    k = k - 1;
                }
            },
            None => {},
        }
    }

    /// Show the folder at `path` in the tree, opened down to it, with the cursor and the
    /// keyboard on it.
    pub fn reveal_folder(&mut self, path: &str)
        requires
            app_ok(old(self)@),
        ensures
            final(self)@ == reveal_folder_of(old(self)@, path@),
    {
        let ghost v0 = self@;
        let folders = folder_prefixes(path);
        self.expand_folders(&folders);
        self.rebuild_tree();
        let pc = chars_of(path);
        match find_row(&self.tree, &pc, true) {
            Some(i) => {
                self.tree_sel = i;
            },
            None => {},
        }
        self.focus = Focus::Tree;
        assert(self@ =~= reveal_folder_of(v0, path@));
    }

    fn related_move(&mut self, down: bool)
        ensures
            final(self)@ == related_move_of(old(self)@, down),
    {
        let ghost v0 = self@;
        let ghost rv = related_view(self.related@);
        let n = self.related.len();
        let mut i = self.related_sel;
        if down {
            while i < n && n - i > 1
                invariant
                    rv == related_view(self.related@),
                    n == self.related.len(),
                    self@ == v0,
                    v0 == old(self)@,
                    down,
                    next_selectable(rv, v0.related_sel) == next_selectable(rv, i as int),
                decreases n - i,
            {
                assert(rv[i + 1] == self.related@[i + 1]@);
                if self.related[i + 1].selectable() {
                    self.related_sel = i + 1;
                    assert(self@ =~= related_move_of(v0, down));
                    return;
                }
                i = i + 1;
            }
        } else {
            while i > 0 && i - 1 < n
                invariant
                    rv == related_view(self.related@),
                    n == self.related.len(),
                    self@ == v0,
                    v0 == old(self)@,
                    !down,
                    prev_selectable(rv, v0.related_sel) == prev_selectable(rv, i as int),
                decreases i,
            {
                assert(rv[i - 1] == self.related@[i - 1]@);
                if self.related[i - 1].selectable() {
                    self.related_sel = i - 1;
                    assert(self@ =~= related_move_of(v0, down));
                    return;
                }
                i = i - 1;
            }
        }
    }

    fn related_activate(&mut self)
        requires
            app_ok(old(self)@),
        ensures
            final(self)@ == related_activate_of(old(self)@),
    {
        let ghost v0 = self@;
        if self.related_sel >= self.related.len() {
            return;
        }
        assert(v0.related[v0.related_sel] == self.related@[self.related_sel as int]@);
        let target = match &self.related[self.related_sel] {
            RelatedRow::Page(id) => LinkTarget::Page(id.clone()),
            RelatedRow::Missing(raw) => LinkTarget::Missing(raw.clone()),
            RelatedRow::External(url) => LinkTarget::External(url.clone()),
            _ => {
                return;
            },
        };
        self.follow(&target);
    }

    fn crumb_activate(&mut self, index: usize)
        requires
            app_ok(old(self)@),
        ensures
            final(self)@ == crumb_activate_of(old(self)@, index as int),
    {
        let ghost v0 = self@;
        if index >= self.crumbs.len() {
            return;
        }
        assert(v0.crumbs[index as int] == self.crumbs@[index as int]@);
        let folder = match &self.crumbs[index].folder {
            Some(f) => f.clone(),
            None => {
                return;
            },
        };
        if folder.as_str().unicode_len() == 0 {
            match self.wiki.landing_page() {
                Some(home) => self.open(home.as_str(), true),
                None => {},
            }
        } else {
            self.reveal_folder(folder.as_str());
        }
    }

    fn cycle_focus(&mut self, forward: bool)
        ensures
            final(self)@ == cycle_focus_of(old(self)@, forward),
    {
        let ghost v0 = self@;
        self.focus = match self.focus {
            Focus::Tree => if forward {
                Focus::Content
            } else {
                Focus::Related
            },
            Focus::Content => if forward {
                Focus::Related
            } else {
                Focus::Tree
            },
            Focus::Related => if forward {
                Focus::Tree
            } else {
                Focus::Content
            },
        };
        assert(self@ =~= cycle_focus_of(v0, forward));
    }
}


// ----- keys, mouse, start and reload --------------------------------------------------------

/// A key in the tree pane.
pub open spec fn tree_key_of(v: AppView, k: Key) -> AppView {
    match k.code {
        KeyCode::Char(c) => if c == 'j' {
            tree_move_of(v, 1)
        } else if c == 'k' {
            tree_move_of(v, -1)
        } else if c == 'g' {
            AppView { tree_sel: 0, ..v }
        } else if c == 'G' {
            AppView { tree_sel: if v.tree.len() > 0 { v.tree.len() - 1 } else { 0 }, ..v }
        } else if c == ' ' {
            tree_toggle_of(v)
        } else if c == 'l' {
            tree_expand_of(v)
        } else if c == 'h' {
            tree_collapse_of(v)
        } else {
            v
        },
        KeyCode::Down => tree_move_of(v, 1),
        KeyCode::Up => tree_move_of(v, -1),
        KeyCode::Home => AppView { tree_sel: 0, ..v },
        KeyCode::End => AppView { tree_sel: if v.tree.len() > 0 { v.tree.len() - 1 } else { 0 }, ..v },
        KeyCode::PageDown => tree_move_of(v, 10),
        KeyCode::PageUp => tree_move_of(v, -10),
        KeyCode::Enter => tree_activate_of(v),
        KeyCode::Right => tree_expand_of(v),
        KeyCode::Left => tree_collapse_of(v),
        _ => v,
    }
}

/// A key in the page pane: scrolling by lines, half screens and screens, stepping through
/// links and following the selected one.
pub open spec fn content_key_of(v: AppView, k: Key) -> AppView {
    let page = if v.content_height > 1 {
        v.content_height
    } else {
        1
    };
    match k.code {
        KeyCode::Char(c) => if c == 'j' {
            scroll_by_of(v, 1)
        } else if c == 'k' {
            scroll_by_of(v, -1)
        } else if c == 'd' && k.ctrl {
            scroll_by_of(v, page / 2)
        } else if c == 'u' && k.ctrl {
            scroll_by_of(v, -(page / 2))
        } else if c == ' ' {
            scroll_by_of(v, page - 1)
        } else if c == 'g' {
            AppView { scroll: 0, ..v }
        } else if c == 'G' {
            AppView { scroll: max_scroll_of(v), ..v }
        } else if c == 'n' {
            next_link_of(v)
        } else if c == 'p' {
            prev_link_of(v)
        } else {
            v
        },
        KeyCode::Down => scroll_by_of(v, 1),
        KeyCode::Up => scroll_by_of(v, -1),
        KeyCode::PageDown => scroll_by_of(v, page - 1),
        KeyCode::PageUp => scroll_by_of(v, -(page - 1)),
        KeyCode::Home => AppView { scroll: 0, ..v },
        KeyCode::End => AppView { scroll: max_scroll_of(v), ..v },
        KeyCode::Enter => follow_selected_link_of(v),
        KeyCode::Esc => AppView { link_sel: None, ..v },
        _ => v,
    }
}

/// A key in the related pane.
pub open spec fn related_key_of(v: AppView, k: Key) -> AppView {
    match k.code {
        KeyCode::Char(c) => if c == 'j' {
            related_move_of(v, true)
        } else if c == 'k' {
            related_move_of(v, false)
        } else {
            v
        },
        KeyCode::Down => related_move_of(v, true),
        KeyCode::Up => related_move_of(v, false),
        KeyCode::Enter => related_activate_of(v),
        _ => v,
    }
}

/// A key for the pane that has the keyboard.
pub open spec fn pane_key_of(v: AppView, k: Key) -> AppView {
    match v.focus {
        Focus::Tree => tree_key_of(v, k),
        Focus::Content => content_key_of(v, k),
        Focus::Related => related_key_of(v, k),
    }
}

/// A key press: any key closes the help; otherwise the status is cleared and the key is a
/// global command (quit, help, panes, history, reload, home) or goes to the focused pane.
pub open spec fn key_of(v: AppView, k: Key) -> AppView {
    if v.show_help {
        AppView { show_help: false, ..v }
    } else {
        let v0 = AppView { status: seq![], ..v };
        match k.code {
            KeyCode::Char(c) => if c == 'q' || (c == 'c' && k.ctrl) {
                AppView { should_quit: true, ..v0 }
            } else if c == '?' {
                AppView { show_help: true, ..v0 }
            } else if c == '1' {
                AppView { focus: Focus::Tree, ..v0 }
            } else if c == '2' {
                AppView { focus: Focus::Content, ..v0 }
            } else if c == '3' {
                AppView { focus: Focus::Related, ..v0 }
            } else if c == 'b' {
                back_of(v0)
            } else if c == 'f' {
                forward_of(v0)
            } else if c == 'r' {
                AppView { reload_wanted: true, ..v0 }
            } else if c == 'H' {
                match v0.wiki.landing() {
                    Some(h) => open_of(v0, h, true),
                    None => v0,
                }
            } else {
                pane_key_of(v0, k)
            },
            KeyCode::Tab => cycle_focus_of(v0, true),
            KeyCode::BackTab => cycle_focus_of(v0, false),
            KeyCode::Backspace => back_of(v0),
            _ => pane_key_of(v0, k),
        }
    }
}

/// `x`, at most `usize::MAX`.
pub open spec fn sat_usize(x: int) -> int {
    if x > usize::MAX {
        usize::MAX as int
    } else {
        x
    }
}

/// The first breadcrumb from `k` on whose columns hold `col`, or -1.
pub open spec fn crumb_at(cols: Seq<(u16, u16)>, col: int, k: int) -> int
    decreases cols.len() - k,
{
    if k < 0 || k >= cols.len() {
        -1
    } else if cols[k].0 <= col < cols[k].1 {
        k
    } else {
        crumb_at(cols, col, k + 1)
    }
}

/// A click on the tree pane at screen row `y`: the pane gets the keyboard and the row there
/// is activated.
pub open spec fn click_tree_of(v: AppView, y: u16) -> AppView {
    let v1 = AppView { focus: Focus::Tree, ..v };
    let row = sat_usize((y - v.rects.tree.y) + v.tree_scroll);
    if row < v.tree.len() {
        tree_activate_of(AppView { tree_sel: row, ..v1 })
    } else {
        v1
    }
}

/// A click on the breadcrumbs at screen column `x`.
pub open spec fn click_crumbs_of(v: AppView, x: u16) -> AppView {
    let i = crumb_at(v.crumb_columns, x - v.rects.crumbs.x, 0);
    if i >= 0 {
        crumb_activate_of(v, i)
    } else {
        v
    }
}

/// A click on the page at `(x, y)`: the pane gets the keyboard and a link there is followed.
pub open spec fn click_content_of(v: AppView, x: u16, y: u16) -> AppView {
    let v1 = AppView { focus: Focus::Content, ..v };
    let line = sat_usize((y - v.rects.content.y) + v.scroll);
    match link_at_of(v1, line, x - v.rects.content.x) {
        Some(i) => follow_selected_link_of(AppView { link_sel: Some(i as usize), ..v1 }),
        None => v1,
    }
}

/// A click on the related pane at screen row `y`: the pane gets the keyboard and a
/// selectable row there is followed.
pub open spec fn click_related_of(v: AppView, y: u16) -> AppView {
    let v1 = AppView { focus: Focus::Related, ..v };
    let row = sat_usize((y - v.rects.related.y) + v.related_scroll);
    if row < v.related.len() && selectable_view(v.related[row]) {
        related_activate_of(AppView { related_sel: row, ..v1 })
    } else {
        v1
    }
}

/// A left click: on a tree row it opens that row, on a breadcrumb it activates it, on a link
/// it follows the link, on a related row it follows what the row names. Clicking a pane gives
/// it the keyboard (the breadcrumbs excepted).
pub open spec fn left_click_of(v: AppView, x: u16, y: u16) -> AppView {
    let r = v.rects;
    if crate::editor::area_contains(r.tree, x, y) {
        click_tree_of(v, y)
    } else if crate::editor::area_contains(r.crumbs, x, y) {
        click_crumbs_of(v, x)
    } else if crate::editor::area_contains(r.content, x, y) {
        click_content_of(v, x, y)
    } else if crate::editor::area_contains(r.related, x, y) {
        click_related_of(v, y)
    } else {
        v
    }
}

/// A mouse event: a press closes the help; a left click acts on what is under it, a right
/// click goes back, the wheel moves the tree cursor, the related selection or the page
/// (three lines a notch), whichever pane it is over.
pub open spec fn mouse_of(v: AppView, m: Mouse) -> AppView {
    if v.show_help {
        if m.kind is LeftDown || m.kind is RightDown || m.kind is OtherDown {
            AppView { show_help: false, ..v }
        } else {
            v
        }
    } else {
        match m.kind {
            MouseKind::LeftDown => left_click_of(v, m.column, m.row),
            MouseKind::RightDown => back_of(v),
            MouseKind::ScrollDown => if crate::editor::area_contains(v.rects.tree, m.column, m.row) {
                tree_move_of(v, 1)
            } else if crate::editor::area_contains(v.rects.related, m.column, m.row) {
                related_move_of(v, true)
            } else {
                scroll_by_of(v, 3)
            },
            MouseKind::ScrollUp => if crate::editor::area_contains(v.rects.tree, m.column, m.row) {
                tree_move_of(v, -1)
            } else if crate::editor::area_contains(v.rects.related, m.column, m.row) {
                related_move_of(v, false)
            } else {
                scroll_by_of(v, -3)
            },
            _ => v,
        }
    }
}

/// The folder paths of a tree node and its descendants, each folder before its contents.
pub open spec fn node_folders(t: TreeView) -> Seq<Seq<char>>
    decreases t, 0int,
{
    match t {
        TreeView::Folder { path, children, .. } => seq![path] + forest_folders(children),
        TreeView::Page { .. } => seq![],
    }
}

/// The folder paths of some tree nodes, in order.
pub open spec fn forest_folders(ts: Seq<TreeView>) -> Seq<Seq<char>>
    decreases ts, 1int,
{
    if ts.len() == 0 {
        seq![]
    } else {
        forest_folders(ts.drop_last()) + node_folders(ts.last())
    }
}

pub open spec fn no_area() -> Area {
    Area { x: 0, y: 0, width: 0, height: 0 }
}

/// What the breadcrumbs call the wiki folder: its name made readable, or "Wiki".
pub open spec fn root_label_of(root_name: Option<Seq<char>>) -> Seq<char> {
    match root_name {
        Some(n) => prettified(n),
        None => "Wiki"@,
    }
}

/// A fresh browser on wiki `w`: every folder open, the content pane focused, and page
/// `start` open, else the landing page; the status says when `start` names no page, or when
/// the wiki has no pages.
pub open spec fn new_of(w: Wiki, root_name: Option<Seq<char>>, start: Option<Seq<char>>) -> AppView {
    let v0 = AppView {
        wiki: w,
        tree: seq![],
        expanded: forest_folders(wiki_tree(w.pages@)),
        tree_sel: 0,
        tree_scroll: 0,
        current: None,
        history: seq![],
        future: seq![],
        page: None,
        render_width: 0,
        needs_render: false,
        scroll: 0,
        link_sel: None,
        content_height: 0,
        related: seq![],
        related_sel: 0,
        related_scroll: 0,
        focus: Focus::Content,
        status: seq![],
        show_help: false,
        should_quit: false,
        rects: Rects { tree: no_area(), crumbs: no_area(), content: no_area(), related: no_area() },
        crumbs: seq![],
        crumb_columns: seq![],
        root_label: root_label_of(root_name),
        open_url: None,
        reload_wanted: false,
    };
    let v1 = rebuild_tree_of(v0);
    let v2 = match start {
        Some(p) => match resolved(w.ids(), seq![], p) {
            Target::Page(_) => v1,
            _ => AppView { status: "No page named '"@ + p + "'"@, ..v1 },
        },
        None => v1,
    };
    let first = match start {
        Some(p) => match resolved(w.ids(), seq![], p) {
            Target::Page(id) => Some(id),
            _ => w.landing(),
        },
        None => w.landing(),
    };
    match first {
        Some(id) => open_of(v2, id, false),
        None => AppView { status: "No .md files in "@ + w.root@, ..v2 },
    }
}

/// After the wiki is reread: the tree again; the current page stays (scroll kept on the page)
/// if it still exists, else the landing page opens, else nothing is shown.
pub open spec fn reloaded_of(v: AppView) -> AppView {
    let v1 = rebuild_tree_of(v);
    match v1.current {
        Some(id) => if crate::wiki::position(v1.wiki.ids(), id, 0) >= 0 {
            let v2 = render_current_of(v1);
            let v3 = if v2.needs_render {
                v2
            } else {
                AppView { scroll: min_of(v1.scroll, max_scroll_of(v2)), ..v2 }
            };
            reveal_in_tree_of(rebuild_crumbs_of(rebuild_related_of(AppView { link_sel: None, ..v3 })), id)
        } else {
            landing_or_nothing(v1)
        },
        None => landing_or_nothing(v1),
    }
}

pub open spec fn landing_or_nothing(v: AppView) -> AppView {
    match v.wiki.landing() {
        Some(id) => open_of(v, id, false),
        None => AppView { current: None, page: None, related: seq![], crumbs: seq![], ..v },
    }
}

/// The wiki reread (or the error that stopped it): after `r` was pressed the status says
/// "Reloaded" in either case.
pub open spec fn reload_done_of(v: AppView, r: Result<Wiki, Seq<char>>) -> AppView {
    let v1 = match r {
        Ok(w) => reloaded_of(AppView { wiki: w, ..v }),
        Err(e) => AppView { status: "Reload failed: "@ + e, ..v },
    };
    if v.reload_wanted {
        AppView { status: "Reloaded"@, reload_wanted: false, ..v1 }
    } else {
        AppView { reload_wanted: false, ..v1 }
    }
}

pub open spec fn reload_view(r: Result<Wiki, String>) -> Result<Wiki, Seq<char>> {
    match r {
        Ok(w) => Ok(w),
        Err(e) => Err(e@),
    }
}

/// A new content width: the page is to be rendered again, the scroll kept on it and the link
/// selection dropped.
pub open spec fn set_width_of(v: AppView, width: u16) -> AppView {
    if width != v.render_width {
        let v1 = render_current_of(AppView { render_width: width, ..v });
        let v2 = if v1.needs_render {
            v1
        } else {
            AppView { scroll: min_of(v.scroll, max_scroll_of(v1)), ..v1 }
        };
        AppView { link_sel: None, ..v2 }
    } else {
        v
    }
}

/// The rendered current page arrives: it is shown, the scroll kept on it.
pub open spec fn set_rendered_of(v: AppView, p: PageV) -> AppView {
    let v1 = AppView { page: Some(p), needs_render: false, link_sel: None, ..v };
    AppView { scroll: min_of(v.scroll, max_scroll_of(v1)), ..v1 }
}

fn push_node_folders(t: &TreeNode, out: &mut Vec<String>)
    ensures
        strings(final(out)@) == strings(old(out)@) + node_folders(node_view(*t)),
    decreases tsize(node_view(*t)), 0int,
{
    match t {
        TreeNode::Folder { path, children, .. } => {
            let ghost before = strings(out@);
            out.push(path.clone());
            assert(strings(out@) =~= before.push(path@));
            assert(tsize(node_view(*t)) == 1 + fsize(forest_view(children@)));
            push_forest_folders(children, out);
            assert(strings(out@) =~= before + node_folders(node_view(*t)));
        },
        TreeNode::Page { .. } => {
            assert(strings(out@) =~= strings(out@) + node_folders(node_view(*t)));
        },
    }
}

fn push_forest_folders(ts: &Vec<TreeNode>, out: &mut Vec<String>)
    ensures
        strings(final(out)@) == strings(old(out)@) + forest_folders(forest_view(ts@)),
    decreases fsize(forest_view(ts@)), 1int,
{
    let ghost fv = forest_view(ts@);
    let ghost before = strings(out@);
    let mut i: usize = 0;
    while i < ts.len()
        invariant
            fv == forest_view(ts@),
            0 <= i <= ts.len(),
            strings(out@) == before + forest_folders(fv.take(i as int)),
        decreases ts.len() - i,
    {
        proof {
            lemma_node_view_at(ts@, i as int);
            lemma_tsize_le(fv, i as int);
            assert(fv.take(i + 1).drop_last() =~= fv.take(i as int));
        }
        let ghost mid = strings(out@);
        push_node_folders(&ts[i], out);
        assert(strings(out@) =~= before + forest_folders(fv.take(i + 1)));
        i = i + 1;
    }
    proof {
        if ts.len() > 0 {
            lemma_node_view_at(ts@, ts.len() - 1);
        }
        assert(fv.take(ts.len() as int) =~= fv);
    }
}

fn node_count(t: &TreeNode) -> (r: Option<usize>)
    ensures
        match r {
            Some(n) => n as int == tsize(node_view(*t)),
            None => tsize(node_view(*t)) >= usize::MAX,
        },
    decreases tsize(node_view(*t)), 0int,
{
    match t {
        TreeNode::Folder { children, .. } => {
            assert(tsize(node_view(*t)) == 1 + fsize(forest_view(children@)));
            match forest_count(children) {
                Some(n) => if n < usize::MAX {
                    Some(n + 1)
                } else {
                    None
                },
                None => None,
            }
        },
        TreeNode::Page { .. } => Some(1),
    }
}

fn forest_count(ts: &Vec<TreeNode>) -> (r: Option<usize>)
    ensures
        match r {
            Some(n) => n as int == fsize(forest_view(ts@)),
            None => fsize(forest_view(ts@)) >= usize::MAX,
        },
    decreases fsize(forest_view(ts@)), 1int,
{
    let ghost fv = forest_view(ts@);
    let mut total: usize = 0;
    let mut i: usize = 0;
    while i < ts.len()
        invariant
            fv == forest_view(ts@),
            0 <= i <= ts.len(),
            total as int == fsize(fv.take(i as int)),
        decreases ts.len() - i,
    {
        proof {
            lemma_node_view_at(ts@, i as int);
            lemma_tsize_le(fv, i as int);
            assert(fv.take(i + 1).drop_last() =~= fv.take(i as int));
        }
        match node_count(&ts[i]) {
            Some(n) => {
                if n >= usize::MAX - total {
                    return None;
                }
                total = total + n;
            },
            None => {
                return None;
            },
        }
        i = i + 1;
    }
    proof {
        if ts.len() > 0 {
            lemma_node_view_at(ts@, ts.len() - 1);
        }
        assert(fv.take(ts.len() as int) =~= fv);
    }
    Some(total)
}

/// Whether the wiki's page tree has fewer than `usize::MAX` nodes, as a browser on it needs.
pub fn tree_fits(wiki: &Wiki) -> (r: bool)
    ensures
        r == (fsize(wiki_tree(wiki.pages@)) < usize::MAX),
{
    let t = wiki.tree();
    match forest_count(&t) {
        Some(n) => n < usize::MAX,
        None => false,
    }
}

impl App {
    /// A browser on `wiki`, whose folder is called `root_name` (when it has a name), with page
    /// `start` open, else the landing page.
    pub fn new(wiki: Wiki, root_name: Option<&str>, start: Option<&str>) -> (r: App)
        requires
            wiki.wf(),
            fsize(wiki_tree(wiki.pages@)) < usize::MAX,
        ensures
            r@ == new_of(wiki, match root_name {
                Some(n) => Some(n@),
                None => None,
            }, match start {
                Some(p) => Some(p@),
                None => None,
            }),
            app_ok(r@),
    {
        let ghost w = wiki;
        let root_label = match root_name {
            Some(n) => prettify(n),
            None => string_of(&chars_of("Wiki")),
        };
        let t = wiki.tree();
        let mut expanded: Vec<String> = Vec::new();
        push_forest_folders(&t, &mut expanded);
        assert(strings(expanded@) =~= forest_folders(wiki_tree(w.pages@)));
        let z = Area { x: 0, y: 0, width: 0, height: 0 };
        let mut app = App {
            wiki,
            tree: Vec::new(),
            expanded,
            tree_sel: 0,
            tree_scroll: 0,
            current: None,
            history: Vec::new(),
            future: Vec::new(),
            rendered: None,
            render_width: 0,
            needs_render: false,
            scroll: 0,
            link_sel: None,
            content_height: 0,
            related: Vec::new(),
            related_sel: 0,
            related_scroll: 0,
            focus: Focus::Content,
            status: string_of(&Vec::new()),
            show_help: false,
            should_quit: false,
            rects: Rects { tree: z, crumbs: z, content: z, related: z },
            crumbs: Vec::new(),
            crumb_columns: Vec::new(),
            root_label,
            open_url: None,
            reload_wanted: false,
        };
        let ghost rn = match root_name {
            Some(n) => Some(n@),
            None => None,
        };
        let ghost st = match start {
            Some(p) => Some(p@),
            None => None,
        };
        proof {
            assert(rows_view(app.tree@) =~= Seq::<RowView>::empty());
            assert(strings(app.history@) =~= Seq::<Seq<char>>::empty());
            assert(strings(app.future@) =~= Seq::<Seq<char>>::empty());
            assert(related_view(app.related@) =~= Seq::<RelatedView>::empty());
            assert(crumbs_view(app.crumbs@) =~= Seq::<CrumbView>::empty());
            assert(app@.rects == Rects { tree: no_area(), crumbs: no_area(), content: no_area(), related: no_area() });
        }
        app.rebuild_tree();
        let mut first: Option<String> = None;
        match start {
            Some(p) => {
                let t = app.wiki.resolve("", p);
                proof {
                    reveal_strlit("");
                    assert(""@ =~= Seq::<char>::empty());
                }
                match t {
                    LinkTarget::Page(id) => {
                        first = Some(id);
                    },
                    _ => {
                        let mut m: Vec<char> = chars_of("No page named '");
                        push_str(&mut m, p);
                        push_str(&mut m, "'");
                        app.status = string_of(&m);
                    },
                }
            },
            None => {},
        }
        if first.is_none() {
            first = app.wiki.landing_page();
        }
        match first {
            Some(id) => app.open(id.as_str(), false),
            None => {
                let mut m: Vec<char> = chars_of("No .md files in ");
                push_str(&mut m, app.wiki.root.as_str());
                app.status = string_of(&m);
            },
        }
        assert(app@ =~= new_of(w, rn, st));
        app
    }

    /// The content width the current page is to be rendered at.
    pub fn render_width(&self) -> (r: u16)
        ensures
            r == self@.render_width,
    {
        self.render_width
    }

    /// The title of the page shown, or the program's name.
    pub fn page_title(&self) -> (r: String)
        ensures
            r@ == match self@.current {
                Some(id) => self@.wiki.title_for(id),
                None => "wikiBits"@,
            },
    {
        match &self.current {
            Some(id) => self.wiki.title(id.as_str()),
            None => string_of(&chars_of("wikiBits")),
        }
    }

    /// The state after the wiki folder was reread into `result` (or failed to be).
    pub fn reload_done(&mut self, result: Result<Wiki, String>)
        requires
            result matches Ok(w) ==> w.wf() && fsize(wiki_tree(w.pages@)) < usize::MAX,
        ensures
            final(self)@ == reload_done_of(old(self)@, reload_view(result)),
    {
        let ghost v0 = self@;
        let ghost rv = reload_view(result);
        match result {
            Ok(w) => {
                self.wiki = w;
                self.reloaded();
            },
            Err(e) => {
                let mut m: Vec<char> = chars_of("Reload failed: ");
                push_str(&mut m, e.as_str());
                self.status = string_of(&m);
            },
        }
        let ghost v1 = self@;
        if self.reload_wanted {
            self.status = string_of(&chars_of("Reloaded"));
        }
        self.reload_wanted = false;
        assert(self@ =~= reload_done_of(v0, rv));
    }

    fn reloaded(&mut self)
        requires
            app_ok(old(self)@),
        ensures
            final(self)@ == reloaded_of(old(self)@),
    {
        let ghost v0 = self@;
        self.rebuild_tree();
        let ghost v1 = self@;
        let id = match &self.current {
            Some(id) => id.clone(),
            None => {
                self.landing_or_nothing();
                return;
            },
        };
        let c = chars_of(id.as_str());
        if self.wiki.position_of(&c).is_some() {
            let scroll = self.scroll;
            self.render_current();
            if !self.needs_render {
                let max = self.max_scroll();
                self.scroll = if scroll < max {
                    scroll
                } else {
                    max
                };
            }
            self.link_sel = None;
            self.rebuild_related();
            self.rebuild_crumbs();
            self.reveal_in_tree(id.as_str());
        } else {
            self.landing_or_nothing();
        }
    }

    fn landing_or_nothing(&mut self)
        requires
            app_ok(old(self)@),
        ensures
            final(self)@ == landing_or_nothing(old(self)@),
    {
        let ghost v0 = self@;
        match self.wiki.landing_page() {
            Some(id) => self.open(id.as_str(), false),
            None => {
                self.current = None;
                self.rendered = None;
                self.related = Vec::new();
                self.crumbs = Vec::new();
                assert(related_view(self.related@) =~= Seq::<RelatedView>::empty());
                assert(crumbs_view(self.crumbs@) =~= Seq::<CrumbView>::empty());
                assert(self@ =~= landing_or_nothing(v0));
            },
        }
    }

    /// A new content width, from the draw code.
    pub fn set_width(&mut self, width: u16)
        ensures
            final(self)@ == set_width_of(old(self)@, width),
    {
        let ghost v0 = self@;
        if width != self.render_width {
            self.render_width = width;
            let scroll = self.scroll;
            self.render_current();
            if !self.needs_render {
                let max = self.max_scroll();
                self.scroll = if scroll < max {
                    scroll
                } else {
                    max
                };
            }
            self.link_sel = None;
            assert(self@ =~= set_width_of(v0, width));
        }
    }

    /// The current page, rendered at the content width by the program.
    pub fn set_rendered(&mut self, r: Rendered)
        ensures
            final(self)@ == set_rendered_of(old(self)@, page_view(r)),
    {
        let ghost v0 = self@;
        let scroll = self.scroll;
        self.rendered = Some(r);
        self.needs_render = false;
        self.link_sel = None;
        let max = self.max_scroll();
        self.scroll = if scroll < max {
            scroll
        } else {
            max
        };
        assert(self@ =~= set_rendered_of(v0, page_view(r)));
    }

    fn pane_key(&mut self, key: Key)
        requires
            app_ok(old(self)@),
        ensures
            final(self)@ == pane_key_of(old(self)@, key),
    {
        match self.focus {
            Focus::Tree => self.tree_key(key),
            Focus::Content => self.content_key(key),
            Focus::Related => self.related_key(key),
        }
    }

    fn tree_key(&mut self, key: Key)
        requires
            app_ok(old(self)@),
        ensures
            final(self)@ == tree_key_of(old(self)@, key),
    {
        let ghost v0 = self@;
        let n = self.tree.len();
        let last = if n > 0 {
            n - 1
        } else {
            0
        };
        match key.code {
            KeyCode::Char(c) => {
                if c == 'j' {
                    self.tree_move(1);
                } else if c == 'k' {
                    self.tree_move(-1);
                } else if c == 'g' {
                    self.tree_sel = 0;
                    assert(self@ =~= tree_key_of(v0, key));
                } else if c == 'G' {
                    self.tree_sel = last;
                    assert(self@ =~= tree_key_of(v0, key));
                } else if c == ' ' {
                    self.tree_toggle();
                } else if c == 'l' {
                    self.tree_expand();
                } else if c == 'h' {
                    self.tree_collapse();
                }
            },
            KeyCode::Down => self.tree_move(1),
            KeyCode::Up => self.tree_move(-1),
            KeyCode::Home => {
                self.tree_sel = 0;
                assert(self@ =~= tree_key_of(v0, key));
            },
            KeyCode::End => {
                self.tree_sel = last;
                assert(self@ =~= tree_key_of(v0, key));
            },
            KeyCode::PageDown => self.tree_move(10),
            KeyCode::PageUp => self.tree_move(-10),
            KeyCode::Enter => self.tree_activate(),
            KeyCode::Right => self.tree_expand(),
            KeyCode::Left => self.tree_collapse(),
            _ => {},
        }
    }

    fn content_key(&mut self, key: Key)
        requires
            app_ok(old(self)@),
        ensures
            final(self)@ == content_key_of(old(self)@, key),
    {
        let ghost v0 = self@;
        let page: i128 = if self.content_height > 1 {
            self.content_height as i128
        } else {
            1
        };
        match key.code {
            KeyCode::Char(c) => {
                if c == 'j' {
                    self.scroll_wide(1);
                } else if c == 'k' {
                    self.scroll_wide(-1);
                } else if c == 'd' && key.ctrl {
                    self.scroll_wide(page / 2);
                } else if c == 'u' && key.ctrl {
                    self.scroll_wide(-(page / 2));
                } else if c == ' ' {
                    self.scroll_wide(page - 1);
                } else if c == 'g' {
                    self.scroll = 0;
                    assert(self@ =~= content_key_of(v0, key));
                } else if c == 'G' {
                    self.scroll = self.max_scroll();
                    assert(self@ =~= content_key_of(v0, key));
                } else if c == 'n' {
                    self.next_link();
                } else if c == 'p' {
                    self.prev_link();
                }
            },
            KeyCode::Down => self.scroll_wide(1),
            KeyCode::Up => self.scroll_wide(-1),
            KeyCode::PageDown => self.scroll_wide(page - 1),
            KeyCode::PageUp => self.scroll_wide(-(page - 1)),
            KeyCode::Home => {
                self.scroll = 0;
                assert(self@ =~= content_key_of(v0, key));
            },
            KeyCode::End => {
                self.scroll = self.max_scroll();
                assert(self@ =~= content_key_of(v0, key));
            },
            KeyCode::Enter => self.follow_selected_link(),
            KeyCode::Esc => {
                self.link_sel = None;
                assert(self@ =~= content_key_of(v0, key));
            },
            _ => {},
        }
    }

    fn related_key(&mut self, key: Key)
        requires
            app_ok(old(self)@),
        ensures
            final(self)@ == related_key_of(old(self)@, key),
    {
        match key.code {
            KeyCode::Char(c) => {
                if c == 'j' {
                    self.related_move(true);
                } else if c == 'k' {
                    self.related_move(false);
                }
            },
            KeyCode::Down => self.related_move(true),
            KeyCode::Up => self.related_move(false),
            KeyCode::Enter => self.related_activate(),
            _ => {},
        }
    }

    /// A key press.
    pub fn handle_key(&mut self, key: Key)
        requires
            app_ok(old(self)@),
        ensures
            final(self)@ == key_of(old(self)@, key),
    {
        let ghost v0 = self@;
        if self.show_help {
            self.show_help = false;
            assert(self@ =~= key_of(v0, key));
            return;
        }
        self.status = string_of(&Vec::new());
        let ghost v1 = self@;
        assert(v1 =~= (AppView { status: seq![], ..v0 }));
        match key.code {
            KeyCode::Char(c) => {
                if c == 'q' || (c == 'c' && key.ctrl) {
                    self.should_quit = true;
                    assert(self@ =~= key_of(v0, key));
                } else if c == '?' {
                    self.show_help = true;
                    assert(self@ =~= key_of(v0, key));
                } else if c == '1' {
                    self.focus = Focus::Tree;
                    assert(self@ =~= key_of(v0, key));
                } else if c == '2' {
                    self.focus = Focus::Content;
                    assert(self@ =~= key_of(v0, key));
                } else if c == '3' {
                    self.focus = Focus::Related;
                    assert(self@ =~= key_of(v0, key));
                } else if c == 'b' {
                    self.back();
                } else if c == 'f' {
                    self.forward();
                } else if c == 'r' {
                    self.reload_wanted = true;
                    assert(self@ =~= key_of(v0, key));
                } else if c == 'H' {
                    match self.wiki.landing_page() {
                        Some(home) => self.open(home.as_str(), true),
                        None => {},
                    }
                } else {
                    self.pane_key(key);
                }
            },
            KeyCode::Tab => self.cycle_focus(true),
            KeyCode::BackTab => self.cycle_focus(false),
            KeyCode::Backspace => self.back(),
            _ => self.pane_key(key),
        }
    }

    fn click_tree(&mut self, y: u16)
        requires
            app_ok(old(self)@),
            old(self)@.rects.tree.y <= y,
        ensures
            final(self)@ == click_tree_of(old(self)@, y),
    {
        let ghost v0 = self@;
        self.focus = Focus::Tree;
        let d = (y - self.rects.tree.y) as usize;
        let row = if self.tree_scroll > usize::MAX - d {
            usize::MAX
        } else {
            d + self.tree_scroll
        };
        if row < self.tree.len() {
            self.tree_sel = row;
            self.tree_activate();
        } else {
            assert(self@ =~= click_tree_of(v0, y));
        }
    }

    fn click_crumbs(&mut self, x: u16)
        requires
            app_ok(old(self)@),
            old(self)@.rects.crumbs.x <= x,
        ensures
            final(self)@ == click_crumbs_of(old(self)@, x),
    {
        let ghost v0 = self@;
        let col = x - self.rects.crumbs.x;
        let ghost cols = self.crumb_columns@;
        let mut i: usize = 0;
        while i < self.crumb_columns.len()
            invariant
                cols == self.crumb_columns@,
                self@ == v0,
                v0 == old(self)@,
                app_ok(v0),
                col == x - v0.rects.crumbs.x,
                0 <= i <= cols.len(),
                crumb_at(cols, col as int, 0) == crumb_at(cols, col as int, i as int),
            decreases cols.len() - i,
        {
            let (s, e) = self.crumb_columns[i];
            if s <= col && col < e {
                self.crumb_activate(i);
                return;
            }
            i = i + 1;
        }
    }

    fn click_content(&mut self, x: u16, y: u16)
        requires
            app_ok(old(self)@),
            old(self)@.rects.content.x <= x,
            old(self)@.rects.content.y <= y,
        ensures
            final(self)@ == click_content_of(old(self)@, x, y),
    {
        let ghost v0 = self@;
        self.focus = Focus::Content;
        let d = (y - self.rects.content.y) as usize;
        let line = if self.scroll > usize::MAX - d {
            usize::MAX
        } else {
            d + self.scroll
        };
        match self.link_at(line, x - self.rects.content.x) {
            Some(i) => {
                self.link_sel = Some(i);
                self.follow_selected_link();
            },
            None => {
                assert(self@ =~= click_content_of(v0, x, y));
            },
        }
    }

    fn click_related(&mut self, y: u16)
        requires
            app_ok(old(self)@),
            old(self)@.rects.related.y <= y,
        ensures
            final(self)@ == click_related_of(old(self)@, y),
    {
        let ghost v0 = self@;
        self.focus = Focus::Related;
        let d = (y - self.rects.related.y) as usize;
        let row = if self.related_scroll > usize::MAX - d {
            usize::MAX
        } else {
            d + self.related_scroll
        };
        if row < self.related.len() && self.related[row].selectable() {
            assert(v0.related[row as int] == self.related@[row as int]@);
            self.related_sel = row;
            self.related_activate();
        } else {
            proof {
                if row < self.related.len() {
                    assert(v0.related[row as int] == self.related@[row as int]@);
                }
            }
            assert(self@ =~= click_related_of(v0, y));
        }
    }

    fn left_click(&mut self, x: u16, y: u16)
        requires
            app_ok(old(self)@),
        ensures
            final(self)@ == left_click_of(old(self)@, x, y),
    {
        let r = self.rects;
        if area_has(r.tree, x, y) {
            self.click_tree(y);
        } else if area_has(r.crumbs, x, y) {
            self.click_crumbs(x);
        } else if area_has(r.content, x, y) {
            self.click_content(x, y);
        } else if area_has(r.related, x, y) {
            self.click_related(y);
        }
    }

    /// A mouse event.
    pub fn handle_mouse(&mut self, mouse: Mouse)
        requires
            app_ok(old(self)@),
        ensures
            final(self)@ == mouse_of(old(self)@, mouse),
    {
        let ghost v0 = self@;
        if self.show_help {
            match mouse.kind {
                MouseKind::LeftDown | MouseKind::RightDown | MouseKind::OtherDown => {
                    self.show_help = false;
                    assert(self@ =~= mouse_of(v0, mouse));
                },
                _ => {},
            }
            return;
        }
        let (x, y) = (mouse.column, mouse.row);
        match mouse.kind {
            MouseKind::LeftDown => self.left_click(x, y),
            MouseKind::RightDown => self.back(),
            MouseKind::ScrollDown => {
                if area_has(self.rects.tree, x, y) {
                    self.tree_move(1);
                } else if area_has(self.rects.related, x, y) {
                    self.related_move(true);
                } else {
                    self.scroll_wide(3);
                }
            },
            MouseKind::ScrollUp => {
                if area_has(self.rects.tree, x, y) {
                    self.tree_move(-1);
                } else if area_has(self.rects.related, x, y) {
                    self.related_move(false);
                } else {
                    self.scroll_wide(-3);
                }
            },
            _ => {},
        }
    }
}


// ----- laws of navigation -------------------------------------------------------------------

/// Going back after following a link to another page returns to the page left, with the
/// history as it was and the page left from ready to go forward to.
pub proof fn back_returns_to_the_page_left(v: AppView, id: Seq<char>)
    requires
        v.current is Some,
        v.current != Some(id),
    ensures
        back_of(open_of(v, id, true)).current == v.current,
        back_of(open_of(v, id, true)).history == v.history,
        back_of(open_of(v, id, true)).future == seq![id],
{
    let w = open_of(v, id, true);
    assert(w.current == Some(id));
    assert(w.history == v.history.push(v.current.unwrap()));
    assert(w.future == Seq::<Seq<char>>::empty());
    assert(w.history.drop_last() =~= v.history);
    assert(Seq::<Seq<char>>::empty().push(id) =~= seq![id]);
}

/// Going forward after going back returns to the page gone back from, with the history and
/// the pages ahead as they were.
pub proof fn forward_undoes_back(v: AppView)
    requires
        v.history.len() > 0,
        v.current is Some,
    ensures
        forward_of(back_of(v)).current == v.current,
        forward_of(back_of(v)).history == v.history,
        forward_of(back_of(v)).future == v.future,
{
    let w = back_of(v);
    assert(w.current == Some(v.history.last()));
    assert(w.history == v.history.drop_last());
    assert(w.future == v.future.push(v.current.unwrap()));
    assert(w.future.drop_last() =~= v.future);
    assert(w.history.push(v.history.last()) =~= v.history);
}

/// Opening a page shows it: it becomes the current page, at the top, with no link selected,
/// the status cleared and the breadcrumbs ending in its title.
pub proof fn open_shows_the_page(v: AppView, id: Seq<char>, record: bool)
    ensures
        open_of(v, id, record).current == Some(id),
        open_of(v, id, record).scroll == 0,
        open_of(v, id, record).link_sel is None,
        open_of(v, id, record).status == Seq::<char>::empty(),
        open_of(v, id, record).crumbs.last() == (CrumbView { label: v.wiki.title_for(id), folder: None }),
        open_of(v, id, record).wiki == v.wiki,
{
}

/// Scrolling never leaves the page: the first line shown is between the top and
/// `max_scroll_of`.
pub proof fn scrolling_stays_on_the_page(v: AppView, delta: int)
    ensures
        0 <= scroll_by_of(v, delta).scroll <= max_scroll_of(scroll_by_of(v, delta)),
{
}

/// Whatever key is pressed while the help is shown, the help closes and nothing else changes.
pub proof fn any_key_closes_the_help(v: AppView, k: Key)
    requires
        v.show_help,
    ensures
        key_of(v, k) == (AppView { show_help: false, ..v }),
{
}

} // verus!
