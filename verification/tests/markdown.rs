use wikibits::markdown::{render, render_raw, Context, Item, Rendered};
use wikibits::wiki::LinkTarget;

struct Ctx;

impl Context for Ctx {
    fn resolve(&self, raw: &str) -> LinkTarget {
        match raw {
            "a/b" => LinkTarget::Page("a/b".into()),
            r if r.contains("://") => LinkTarget::External(r.into()),
            r => LinkTarget::Missing(r.into()),
        }
    }
    fn title(&self, _id: &str) -> String {
        "Page B".into()
    }
    fn image_path(&self, raw: &str) -> Option<String> {
        Some(raw.to_string())
    }
    fn image_size(&mut self, _: &str, w: u16, h: u16) -> Option<(u16, u16)> {
        Some((10.min(w), 3.min(h)))
    }
}

fn text(r: &Rendered) -> Vec<String> {
    r.lines.iter().map(|l| l.text()).collect()
}

#[test]
fn raw_view_keeps_source_lines() {
    let r = render_raw("# T\n\n- [[a/b]] and *more*\n0123456789abc", 10);
    assert_eq!(
        text(&r),
        vec!["# T", "", "- [[a/b]] ", "and *more*", "0123456789", "abc"]
    );
    assert!(r.links.is_empty());
}

#[test]
fn raw_view_still_finds_headings() {
    let r = render_raw(
        "# Top\n\n```\n# not a heading\n```\n## Two ##\n#nope\n###### Six",
        80,
    );
    let got: Vec<(u8, &str, usize)> = r
        .headings
        .iter()
        .map(|h| (h.level, h.text.as_str(), h.line))
        .collect();
    assert_eq!(got, vec![(1, "Top", 0), (2, "Two", 5), (6, "Six", 7)]);
}

#[test]
fn the_title_heading_is_in_the_outline_but_not_drawn() {
    let r = render("# Title here\n\ntext\n\n# Another h1", 80, 40, &mut Ctx);
    assert_eq!(text(&r), vec!["text", "", "Another h1"]);
    let got: Vec<(u8, &str, usize)> = r
        .headings
        .iter()
        .map(|h| (h.level, h.text.as_str(), h.line))
        .collect();
    assert_eq!(got, vec![(1, "Title here", 0), (1, "Another h1", 2)]);
}

#[test]
fn headings_are_collected_with_their_lines() {
    let r = render(
        "intro\n\n# Top\n\ntext\n\n## Two *words*\n\n### Deep",
        80,
        40,
        &mut Ctx,
    );
    let got: Vec<(u8, &str, usize)> = r
        .headings
        .iter()
        .map(|h| (h.level, h.text.as_str(), h.line))
        .collect();
    assert_eq!(
        got,
        vec![(1, "Top", 2), (2, "Two words", 6), (3, "Deep", 8)]
    );
}

#[test]
fn wraps_words() {
    let r = render("one two three four five", 10, 40, &mut Ctx);
    assert_eq!(text(&r), vec!["one two", "three four", "five"]);
}

#[test]
fn wiki_links_show_titles_and_are_tracked() {
    let r = render(
        "See [[a/b]] and [[a/b|that]] or [[nope]].",
        80,
        40,
        &mut Ctx,
    );
    assert_eq!(text(&r), vec!["See Page B and that or nope."]);
    assert_eq!(r.links.len(), 3);
    assert_eq!(r.links[0].target, LinkTarget::Page("a/b".into()));
    assert_eq!(r.links[2].target, LinkTarget::Missing("nope".into()));
    let (line, span) = r.links[1].spans[0];
    assert_eq!(r.lines[line].spans[span].text, "that");
}

#[test]
fn a_blank_line_follows_a_nested_list() {
    let r = render(
        "* One\n* Two\n  * Two A\n  * Two B\n* Three\n* Four\n\n1. Main\n2. Parent\n   1. Child\n   2. Child\n3. Main\n4. Main",
        80,
        40,
        &mut Ctx,
    );
    assert_eq!(
        text(&r),
        vec![
            "• One",
            "• Two",
            "  • Two A",
            "  • Two B",
            "",
            "• Three",
            "• Four",
            "",
            "1. Main",
            "2. Parent",
            "   1. Child",
            "   2. Child",
            "",
            "3. Main",
            "4. Main",
        ]
    );
}

#[test]
fn nested_list_at_the_end_adds_no_blank() {
    let r = render("* One\n  * Deep\n\nAfter", 80, 40, &mut Ctx);
    assert_eq!(text(&r), vec!["• One", "  • Deep", "", "After"]);
}

#[test]
fn task_items_use_checkbox_bullets() {
    let src = "- [ ] open item\n- [x] done item here";
    let r = render(src, 14, 40, &mut Ctx);
    assert_eq!(text(&r), vec!["⬛ open item", "✅ done item", "   here"]);
    assert_eq!(r.items, vec![Item::Task(0), Item::Task(1)]);
    let t = &r.tasks[1];
    assert_eq!((t.line, &src[t.source.clone()]), (1, "[x]"));
    assert_eq!(r.lines[t.line].spans[t.span].text, "✅ ");
}

#[test]
fn loose_list_items_keep_their_bullets() {
    let r = render("- one\n\n- [x] two\n\n  more", 80, 40, &mut Ctx);
    assert_eq!(text(&r), vec!["• one", "✅ two", "", "   more"]);
}

#[test]
fn lists_and_quotes_get_prefixes() {
    let r = render(
        "- one\n- two\n  - nested\n\n> quoted\n> text",
        80,
        40,
        &mut Ctx,
    );
    assert_eq!(
        text(&r),
        vec!["• one", "• two", "  • nested", "", "│ quoted text"]
    );
}

#[test]
fn images_get_a_frame_and_join_the_items() {
    let r = render(
        "before [[a/b]]\n\n![alt](pic.png)\n\nafter",
        80,
        40,
        &mut Ctx,
    );
    assert_eq!(r.images.len(), 1);
    let slot = &r.images[0];
    assert_eq!((slot.line, slot.x, slot.width, slot.height), (2, 1, 10, 3));
    assert_eq!(
        text(&r),
        vec![
            "before Page B",
            "",
            "╭──────────╮",
            "│          │",
            "│          │",
            "│          │",
            "╰──────────╯",
            "alt",
            "",
            "after"
        ]
    );
    assert_eq!(r.items, vec![Item::Link(0), Item::Image(0)]);
}

/// Reports whatever bound it is given, like a huge image scaled down to fit.
struct Huge;

impl Context for Huge {
    fn resolve(&self, raw: &str) -> LinkTarget {
        Ctx.resolve(raw)
    }
    fn title(&self, id: &str) -> String {
        Ctx.title(id)
    }
    fn image_path(&self, raw: &str) -> Option<String> {
        Ctx.image_path(raw)
    }
    fn image_size(&mut self, _: &str, w: u16, h: u16) -> Option<(u16, u16)> {
        Some((w, h))
    }
}

#[test]
fn images_are_bounded_by_the_page_area_minus_the_frame() {
    let r = render("![alt](pic.png)", 80, 6, &mut Huge);
    assert_eq!((r.images[0].width, r.images[0].height), (78, 4));
    assert_eq!(r.lines[0].text().len(), "╭╮".len() + 78 * "─".len());
}

#[test]
fn tables_line_up() {
    let r = render("| a | bb |\n|---|---|\n| ccc | d |", 80, 40, &mut Ctx);
    assert_eq!(text(&r), vec!["a   │ bb", "────┼───", "ccc │ d "]);
}

// ----- more cases -------------------------------------------------------------------------

/// Finds no images.
struct NoImages;

impl Context for NoImages {
    fn resolve(&self, raw: &str) -> LinkTarget {
        Ctx.resolve(raw)
    }
    fn title(&self, id: &str) -> String {
        Ctx.title(id)
    }
    fn image_path(&self, _: &str) -> Option<String> {
        None
    }
    fn image_size(&mut self, _: &str, _: u16, _: u16) -> Option<(u16, u16)> {
        None
    }
}

#[test]
fn images_that_cannot_be_shown_leave_a_placeholder() {
    let r = render("![](pic.png) and ![cat](c.png)", 80, 40, &mut NoImages);
    assert_eq!(text(&r), vec!["[image: pic.png] and [image: cat]"]);
    assert!(r.images.is_empty());
}

#[test]
fn code_rules_and_quotes_are_drawn() {
    let r = render("```rust\nlet x = 1;\n```\n\n---\n\nuse `code` here", 20, 40, &mut Ctx);
    assert_eq!(
        text(&r),
        vec![
            "rust ",
            "  let x = 1;",
            "",
            "────────────────────",
            "",
            "use code here"
        ]
    );
}

#[test]
fn external_links_are_remembered_with_their_spans() {
    let r = render("go [there](https://x.y) now", 80, 40, &mut Ctx);
    assert_eq!(text(&r), vec!["go there now"]);
    assert_eq!(r.links[0].target, LinkTarget::External("https://x.y".into()));
    assert_eq!(r.links[0].spans, vec![(0, 1)]);
    assert_eq!(r.items, vec![Item::Link(0)]);
}
