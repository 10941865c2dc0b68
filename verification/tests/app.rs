use wikibits::app::{area_has, crumb_columns, tree_fits, App, Focus, RelatedRow, TreeKind};
use wikibits::editor::{Area, Key, KeyCode, Mouse, MouseKind};
use wikibits::markdown::{render, Context};
use wikibits::wiki::{LinkTarget, Wiki};

fn files(list: &[(&str, &str)]) -> Vec<(String, String)> {
    list.iter()
        .map(|(p, t)| (format!("/w/{p}"), t.to_string()))
        .collect()
}

fn sample() -> Wiki {
    Wiki::load(
        "/w",
        files(&[
            ("index.md", "# Home\n\nSee [[projects/calc]] and [[nowhere]].\n"),
            ("projects/calc.md", "# Calc\n\nBack [[/]] and <https://example.org>\n"),
            ("projects/index.md", "# Projects\n\n[[calc]]\n"),
            ("notes.md", "# Notes\n\nnothing\n"),
        ]),
    )
}

fn browser() -> App {
    let wiki = sample();
    assert!(tree_fits(&wiki));
    App::new(wiki, Some("my-wiki"), None)
}

fn key(code: KeyCode) -> Key {
    Key { code, ctrl: false, shift: false }
}

fn ch(c: char) -> Key {
    key(KeyCode::Char(c))
}

struct Ctx<'a> {
    wiki: &'a Wiki,
    page: String,
}

impl Context for Ctx<'_> {
    fn resolve(&self, raw: &str) -> LinkTarget {
        self.wiki.resolve(&self.page, raw)
    }
    fn title(&self, id: &str) -> String {
        self.wiki.title(id)
    }
    fn image_path(&self, _raw: &str) -> Option<String> {
        None
    }
    fn image_size(&mut self, _path: &str, _w: u16, _h: u16) -> Option<(u16, u16)> {
        None
    }
}

/// Renders the current page as the program does when the browser asks for it.
fn render_now(app: &mut App) {
    let id = app.current.clone().unwrap();
    let text = app.wiki.pages.iter().find(|p| p.id == id).unwrap().text.clone();
    let r = {
        let mut ctx = Ctx { wiki: &app.wiki, page: id };
        render(&text, 60, 20, &mut ctx)
    };
    app.set_rendered(r);
}

#[test]
fn a_new_browser_opens_the_home_page_with_every_folder_open() {
    let app = browser();
    assert_eq!(app.current.as_deref(), Some("index"));
    assert_eq!(app.focus, Focus::Content);
    assert_eq!(app.expanded, vec!["projects".to_string()]);
    let labels: Vec<&str> = app.tree.iter().map(|r| r.label.as_str()).collect();
    assert_eq!(labels, vec!["Home", "Notes", "Projects", "Calc"]);
    assert!(matches!(&app.tree[app.tree_sel].kind, TreeKind::Page { id } if id == "index"));
    let crumbs: Vec<&str> = app.crumbs.iter().map(|c| c.label.as_str()).collect();
    assert_eq!(crumbs, vec!["My wiki", "Home"]);
    assert_eq!(app.page_title(), "Home");
}

#[test]
fn a_start_page_that_does_not_exist_falls_back_to_home() {
    let app = App::new(sample(), None, Some("missing/page"));
    assert_eq!(app.current.as_deref(), Some("index"));
    // Opening the home page clears the complaint, as it did before.
    assert_eq!(app.status, "");
    let app = App::new(sample(), None, Some("projects/calc"));
    assert_eq!(app.current.as_deref(), Some("projects/calc"));
    let crumbs: Vec<(&str, Option<&str>)> = app
        .crumbs
        .iter()
        .map(|c| (c.label.as_str(), c.folder.as_deref()))
        .collect();
    assert_eq!(
        crumbs,
        vec![("Wiki", Some("")), ("Projects", Some("projects")), ("Calc", None)]
    );
}

#[test]
fn an_empty_wiki_says_so() {
    let app = App::new(Wiki::load("/w", Vec::new()), None, None);
    assert_eq!(app.current, None);
    assert_eq!(app.status, "No .md files in /w");
    assert_eq!(app.page_title(), "wikiBits");
}

#[test]
fn the_related_column_lists_backlinks_and_links() {
    let mut app = browser();
    app.open("projects/calc", true);
    let rows: Vec<String> = app
        .related
        .iter()
        .map(|r| match r {
            RelatedRow::Header(h) => format!("# {h}"),
            RelatedRow::Page(p) => format!("page {p}"),
            RelatedRow::Missing(m) => format!("missing {m}"),
            RelatedRow::External(u) => format!("web {u}"),
            RelatedRow::Empty => "-".to_string(),
        })
        .collect();
    assert_eq!(
        rows,
        vec![
            "# Backlinks",
            "page index",
            "page projects/index",
            "# Links on this page",
            "page index",
            "web https://example.org",
        ]
    );
    assert_eq!(app.related_sel, 1);
}

#[test]
fn back_and_forward_walk_the_history() {
    let mut app = browser();
    app.open("projects/calc", true);
    app.open("notes", true);
    app.handle_key(ch('b'));
    assert_eq!(app.current.as_deref(), Some("projects/calc"));
    app.handle_key(key(KeyCode::Backspace));
    assert_eq!(app.current.as_deref(), Some("index"));
    app.handle_key(ch('b'));
    assert_eq!(app.status, "Nothing to go back to");
    app.handle_key(ch('f'));
    assert_eq!(app.current.as_deref(), Some("projects/calc"));
    app.handle_key(ch('f'));
    assert_eq!(app.current.as_deref(), Some("notes"));
    app.handle_key(ch('f'));
    assert_eq!(app.status, "Nothing to go forward to");
}

#[test]
fn reopening_the_same_page_adds_no_history() {
    let mut app = browser();
    app.open("index", true);
    app.handle_key(ch('b'));
    assert_eq!(app.status, "Nothing to go back to");
}

#[test]
fn any_key_closes_the_help_and_does_nothing_else() {
    let mut app = browser();
    app.handle_key(ch('?'));
    assert!(app.show_help);
    app.handle_key(ch('q'));
    assert!(!app.show_help);
    assert!(!app.should_quit);
    app.handle_key(ch('q'));
    assert!(app.should_quit);
}

#[test]
fn tab_cycles_the_panes() {
    let mut app = browser();
    app.handle_key(key(KeyCode::Tab));
    assert_eq!(app.focus, Focus::Related);
    app.handle_key(key(KeyCode::Tab));
    assert_eq!(app.focus, Focus::Tree);
    app.handle_key(key(KeyCode::BackTab));
    assert_eq!(app.focus, Focus::Related);
    app.handle_key(ch('2'));
    assert_eq!(app.focus, Focus::Content);
}

#[test]
fn following_links_from_the_related_column() {
    let mut app = browser();
    app.handle_key(ch('3'));
    // Backlinks: one from projects/calc; then the links: calc and the missing page.
    app.handle_key(ch('j'));
    app.handle_key(ch('j'));
    app.handle_key(key(KeyCode::Enter));
    assert_eq!(app.status, "No page 'nowhere' (yet)");
    app.handle_key(ch('k'));
    app.handle_key(key(KeyCode::Enter));
    assert_eq!(app.current.as_deref(), Some("projects/calc"));
}

#[test]
fn web_links_are_handed_to_the_program() {
    let mut app = browser();
    app.follow(&LinkTarget::External("https://example.org".into()));
    assert_eq!(app.open_url.as_deref(), Some("https://example.org"));
    assert_eq!(app.current.as_deref(), Some("index"));
}

#[test]
fn the_tree_folds_and_moves() {
    let mut app = browser();
    app.handle_key(ch('1'));
    app.handle_key(ch('G'));
    assert_eq!(app.tree_sel, 3);
    app.handle_key(ch('h'));
    assert_eq!(app.tree_sel, 2);
    app.handle_key(ch('h'));
    assert_eq!(app.tree.len(), 3);
    assert!(app.expanded.is_empty());
    app.handle_key(ch('l'));
    assert_eq!(app.tree.len(), 4);
    app.handle_key(ch('g'));
    assert_eq!(app.tree_sel, 0);
    app.handle_key(key(KeyCode::PageDown));
    assert_eq!(app.tree_sel, 3);
    app.handle_key(key(KeyCode::Enter));
    assert_eq!(app.current.as_deref(), Some("projects/calc"));
}

#[test]
fn a_page_asks_to_be_rendered_once_there_is_a_width() {
    let mut app = browser();
    assert!(!app.needs_render);
    app.set_width(60);
    assert!(app.needs_render);
    render_now(&mut app);
    assert!(!app.needs_render);
    assert!(app.rendered.is_some());
}

#[test]
fn links_are_stepped_through_and_followed() {
    let mut app = browser();
    app.content_height = 20;
    app.handle_key(ch('n'));
    assert_eq!(app.status, "No links on this page");
    app.set_width(60);
    render_now(&mut app);
    let count = app.rendered.as_ref().unwrap().links.len();
    assert_eq!(count, 2);
    app.handle_key(ch('n'));
    assert_eq!(app.link_sel, Some(0));
    app.handle_key(ch('n'));
    assert_eq!(app.link_sel, Some(1));
    app.handle_key(ch('n'));
    assert_eq!(app.link_sel, Some(0));
    app.handle_key(ch('p'));
    assert_eq!(app.link_sel, Some(1));
    app.handle_key(key(KeyCode::Esc));
    assert_eq!(app.link_sel, None);
    app.handle_key(key(KeyCode::Enter));
    assert_eq!(app.status, "Select a link first (n / p)");
    app.handle_key(ch('n'));
    app.handle_key(key(KeyCode::Enter));
    assert_eq!(app.current.as_deref(), Some("projects/calc"));
}

#[test]
fn scrolling_stays_on_the_page() {
    let mut app = browser();
    let mut text = String::from("# Long\n\n");
    for i in 0..50 {
        text.push_str(&format!("line {i}\n\n"));
    }
    let wiki = Wiki::load("/w", files(&[("index.md", text.as_str())]));
    app.reload_done(Ok(wiki));
    app.content_height = 10;
    app.set_width(40);
    render_now(&mut app);
    let lines = app.rendered.as_ref().unwrap().lines.len();
    assert_eq!(app.max_scroll(), lines - 10);
    app.scroll_by(-5);
    assert_eq!(app.scroll, 0);
    app.scroll_by(1000);
    assert_eq!(app.scroll, lines - 10);
    app.handle_key(ch('g'));
    assert_eq!(app.scroll, 0);
    app.handle_key(key(KeyCode::PageDown));
    assert_eq!(app.scroll, 9);
    app.handle_key(Key { code: KeyCode::Char('u'), ctrl: true, shift: false });
    assert_eq!(app.scroll, 4);
    app.handle_key(key(KeyCode::End));
    assert_eq!(app.scroll, lines - 10);
}

#[test]
fn reloading_keeps_the_page_or_goes_home() {
    let mut app = browser();
    app.open("notes", true);
    app.handle_key(ch('r'));
    assert!(app.reload_wanted);
    app.reload_done(Ok(sample()));
    assert!(!app.reload_wanted);
    assert_eq!(app.status, "Reloaded");
    assert_eq!(app.current.as_deref(), Some("notes"));
    let smaller = Wiki::load("/w", files(&[("index.md", "# Home")]));
    app.reload_done(Ok(smaller));
    assert_eq!(app.current.as_deref(), Some("index"));
    app.reload_done(Err("gone".to_string()));
    assert_eq!(app.status, "Reload failed: gone");
    app.reload_done(Ok(Wiki::load("/w", Vec::new())));
    assert_eq!(app.current, None);
    assert!(app.crumbs.is_empty());
}

#[test]
fn clicks_open_tree_rows_and_breadcrumbs() {
    let mut app = App::new(sample(), None, Some("projects/calc"));
    app.rects.tree = Area { x: 0, y: 1, width: 20, height: 10 };
    app.rects.crumbs = Area { x: 21, y: 0, width: 40, height: 1 };
    app.crumb_columns = vec![(0, 4), (7, 15), (18, 22)];
    assert!(area_has(app.rects.tree, 0, 1));
    assert!(!area_has(app.rects.tree, 20, 1));
    app.handle_mouse(Mouse { kind: MouseKind::LeftDown, column: 3, row: 2 });
    assert_eq!(app.focus, Focus::Tree);
    assert_eq!(app.current.as_deref(), Some("notes"));
    app.handle_mouse(Mouse { kind: MouseKind::RightDown, column: 50, row: 30 });
    assert_eq!(app.current.as_deref(), Some("projects/calc"));
    // The second breadcrumb is the folder: it shows it in the tree.
    app.handle_mouse(Mouse { kind: MouseKind::LeftDown, column: 30, row: 0 });
    assert_eq!(app.focus, Focus::Tree);
    assert!(matches!(&app.tree[app.tree_sel].kind, TreeKind::Folder { path, .. } if path == "projects"));
    // The first is the wiki root: it opens the home page.
    app.handle_mouse(Mouse { kind: MouseKind::LeftDown, column: 22, row: 0 });
    assert_eq!(app.current.as_deref(), Some("index"));
}

#[test]
fn the_wheel_moves_what_it_is_over() {
    let mut app = browser();
    app.rects.tree = Area { x: 0, y: 0, width: 20, height: 10 };
    app.handle_mouse(Mouse { kind: MouseKind::ScrollDown, column: 1, row: 1 });
    assert_eq!(app.tree_sel, 1);
    app.handle_mouse(Mouse { kind: MouseKind::ScrollUp, column: 1, row: 1 });
    assert_eq!(app.tree_sel, 0);
}

#[test]
fn breadcrumb_columns_follow_the_labels() {
    let app = App::new(sample(), None, Some("projects/calc"));
    // "Wiki" › "Projects" › "Calc"
    assert_eq!(crumb_columns(&app.crumbs), vec![(0, 4), (7, 15), (18, 22)]);
}
