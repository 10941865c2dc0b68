use wikibits::wiki::{
    ancestor_folders, contains, image_candidate, is_page_file, extract_links, extract_title, lower_chars, normalize, prettify,
    rewrite_links, LinkTarget, TreeNode, Wiki,
};

fn files(list: &[(&str, &str)]) -> Vec<(String, String)> {
    list.iter()
        .map(|(p, t)| (format!("/w/{p}"), t.to_string()))
        .collect()
}

#[test]
fn title_comes_from_first_heading() {
    assert_eq!(
        extract_title("intro\n\n# My Page #\n## sub").as_deref(),
        Some("My Page")
    );
    assert_eq!(
        extract_title("---\ntitle: x\n---\n# Real").as_deref(),
        Some("Real")
    );
    assert_eq!(extract_title("## only h2"), None);
}

#[test]
fn slugs_become_readable() {
    assert_eq!(prettify("my-wiki-page"), "My wiki page");
    assert_eq!(prettify("projects/calc_bits"), "Calc bits");
}

#[test]
fn links_are_collected_once() {
    let links = extract_links("[[a/b]] and [[a/b|again]] then [c](c.md) <https://x.y>");
    assert_eq!(links, vec!["a/b", "c.md", "https://x.y"]);
}

#[test]
fn normalize_collapses_dots() {
    assert_eq!(normalize("a/./b/../c"), "a/c");
    assert_eq!(normalize("/x//y/"), "x/y");
}

#[test]
fn folder_links_open_the_folder_index() {
    let wiki = Wiki::load(
        "/w",
        files(&[
            ("index.md", "# Home\n[[/projects]] [[/]]"),
            ("projects/calc.md", "# Calc"),
            ("projects/index.md", "# Projects\n[[calc]]"),
        ]),
    );
    assert_eq!(
        wiki.resolve("index", "/projects"),
        LinkTarget::Page("projects/index".into())
    );
    assert_eq!(
        wiki.resolve("projects/calc", "/"),
        LinkTarget::Page("index".into())
    );
    assert_eq!(
        wiki.resolve("projects/calc", "Projects/"),
        LinkTarget::Page("projects/index".into())
    );
    assert_eq!(
        wiki.resolve("projects/index", "calc"),
        LinkTarget::Page("projects/calc".into())
    );
    assert_eq!(wiki.folder_index(""), Some("index".into()));
    assert_eq!(wiki.folder_index("nope"), None);
    assert_eq!(wiki.backlinks_of("projects/index"), ["index"]);

    let tree = wiki.tree();
    assert!(matches!(&tree[0], TreeNode::Page { id, .. } if id == "index"));
    let TreeNode::Folder {
        name,
        index,
        children,
        ..
    } = &tree[1]
    else {
        panic!("expected the folder after the home page");
    };
    assert_eq!(name, "Projects");
    assert_eq!(index.as_deref(), Some("projects/index"));
    assert_eq!(children.len(), 1);
}

#[test]
fn search_matches_titles_and_text() {
    let wiki = Wiki::load(
        "/w",
        files(&[
            ("apples.md", "# Apples\n\nGreen ones."),
            ("index.md", "# Home\n\nNothing here."),
            (
                "pie.md",
                "# Pie\n\nBest made with Apples and cinnamon, baked slowly.",
            ),
        ]),
    );
    let hits = wiki.search("apple");
    let got: Vec<(&str, bool, &str)> = hits
        .iter()
        .map(|h| (h.id.as_str(), h.in_title, h.snippet.as_str()))
        .collect();
    assert_eq!(
        got,
        vec![
            ("apples", true, "# Apples"),
            (
                "pie",
                false,
                "Best made with Apples and cinnamon, baked slowly."
            ),
        ]
    );
    assert!(wiki.search("   ").is_empty());
    assert_eq!(
        contains(&lower_chars("Éclair"), &lower_chars("éCL")),
        Some(0)
    );
}

#[test]
fn pages_are_kept_in_id_order_with_titles() {
    let wiki = Wiki::load(
        "/w",
        files(&[
            ("zeta.md", "no heading here"),
            ("alpha.md", "# Alpha Page"),
            ("notes/my-list.md", "text"),
        ]),
    );
    let ids: Vec<&str> = wiki.pages.iter().map(|p| p.id.as_str()).collect();
    assert_eq!(ids, vec!["alpha", "notes/my-list", "zeta"]);
    assert_eq!(wiki.title("alpha"), "Alpha Page");
    assert_eq!(wiki.title("zeta"), "Zeta");
    assert_eq!(wiki.title("notes/my-list"), "My list");
    assert_eq!(wiki.title("not/there-yet"), "There yet");
    assert_eq!(wiki.landing_page(), Some("alpha".to_string()));
}

#[test]
fn the_landing_page_prefers_index_home_readme() {
    let wiki = Wiki::load("/w", files(&[("a.md", ""), ("README.md", ""), ("Home.md", "")]));
    assert_eq!(wiki.landing_page(), Some("Home".to_string()));
    let empty = Wiki::load("/w", Vec::new());
    assert_eq!(empty.landing_page(), None);
}

#[test]
fn ids_come_from_paths_under_the_root() {
    let wiki = Wiki::load("/w", Vec::new());
    assert_eq!(wiki.id_for("/w/a/b.md"), Some("a/b".to_string()));
    assert_eq!(wiki.id_for("/w/notes.v2.md"), Some("notes.v2".to_string()));
    assert_eq!(wiki.id_for("/elsewhere/a.md"), None);
    assert_eq!(wiki.id_for("/w"), None);
}

#[test]
fn links_resolve_relative_by_name_and_outward() {
    let wiki = Wiki::load(
        "/w",
        files(&[
            ("a/deep/page.md", "[[../other]]"),
            ("a/other.md", ""),
            ("b/unique-name.md", ""),
        ]),
    );
    assert_eq!(
        wiki.resolve("a/deep/page", "../other"),
        LinkTarget::Page("a/other".into())
    );
    assert_eq!(
        wiki.resolve("x", "Unique-Name.md#part"),
        LinkTarget::Page("b/unique-name".into())
    );
    assert_eq!(
        wiki.resolve("x", " https://example.org "),
        LinkTarget::External("https://example.org".into())
    );
    assert_eq!(
        wiki.resolve("x", "mailto:me@example.org"),
        LinkTarget::External("mailto:me@example.org".into())
    );
    assert_eq!(wiki.resolve("x", "#top"), LinkTarget::Missing("#top".into()));
    assert_eq!(wiki.resolve("x", "ghost"), LinkTarget::Missing("ghost".into()));
    assert_eq!(wiki.backlinks_of("a/other"), ["a/deep/page"]);
    assert!(wiki.backlinks_of("b/unique-name").is_empty());
}

#[test]
fn rewriting_replaces_only_what_is_asked() {
    let text = "# Home\n[[old/thing]] [[/old/thing|it]] [a](old/thing.md) [[other]]";
    let out = rewrite_links(text, |t| {
        if t.trim_start_matches('/').starts_with("old/thing") {
            Some(if t.ends_with(".md") {
                "new/place.md".to_string()
            } else {
                "new/place".to_string()
            })
        } else {
            None
        }
    });
    assert_eq!(
        out,
        "# Home\n[[new/place]] [[new/place|it]] [a](new/place.md) [[other]]"
    );
    assert_eq!(rewrite_links(text, |_| None), text);
    assert_eq!(rewrite_links("[[open", |_| Some("x".into())), "[[open");
}

#[test]
fn lower_chars_keeps_positions() {
    let low = lower_chars("ÀbC");
    assert_eq!(low, vec!['à', 'b', 'c']);
    assert_eq!(contains(&['a', 'b'], &[]), None);
    assert_eq!(contains(&['a', 'b', 'a', 'b'], &['a', 'b']), Some(0));
    assert_eq!(contains(&['x', 'a', 'b'], &['a', 'b']), Some(1));
    assert_eq!(contains(&['a'], &['a', 'b']), None);
}

#[test]
fn a_renamed_page_takes_its_links_along() {
    let wiki = Wiki::load(
        "/w",
        files(&[
            (
                "index.md",
                "# Home\n[[old/thing]] [[/old/thing|it]] [a](old/thing.md) [[other]]",
            ),
            ("old/thing.md", "# Thing"),
            ("other.md", "# Other"),
        ]),
    );
    let linkers: Vec<String> = wiki.backlinks_of("old/thing").to_vec();
    let moves = vec![("old/thing".to_string(), "new/place".to_string())];
    let changed = wiki.relinked(&linkers, &moves);
    assert_eq!(
        changed,
        vec![(
            "index".to_string(),
            "# Home\n[[new/place]] [[new/place|it]] [a](new/place.md) [[other]]".to_string()
        )]
    );
}

#[test]
fn folders_above_a_new_page_are_listed_outermost_first() {
    assert_eq!(ancestor_folders("backlog/history"), vec!["backlog"]);
    assert_eq!(ancestor_folders("a/b/c"), vec!["a", "a/b"]);
    assert!(ancestor_folders("top").is_empty());
}

#[test]
fn links_through_a_demoted_folder_need_no_rewriting() {
    let wiki = Wiki::load(
        "/w",
        files(&[
            ("index.md", "# Home\n[[backlog/index]] [[backlog]] [[keep]]"),
            ("backlog/index.md", "# Backlog"),
            ("keep/index.md", "# Keep"),
            ("keep/child.md", "# Child"),
        ]),
    );
    let ids: Vec<String> = wiki.pages.iter().map(|p| p.id.clone()).collect();
    let moves = vec![("backlog/index".to_string(), "backlog".to_string())];
    // [[backlog]] already names the page by its folder; [[backlog/index]] leads nowhere.
    assert_eq!(wiki.relinked(&ids, &moves), Vec::<(String, String)>::new());
    let moves = vec![("keep/child".to_string(), "kept/child".to_string())];
    let wiki2 = Wiki::load(
        "/w",
        files(&[("index.md", "[[keep/child]] and [[Keep/Child.md]]"), ("keep/child.md", "x")]),
    );
    let ids: Vec<String> = wiki2.pages.iter().map(|p| p.id.clone()).collect();
    assert_eq!(
        wiki2.relinked(&ids, &moves),
        vec![("index".to_string(), "[[kept/child]] and [[kept/child.md]]".to_string())]
    );
}

#[test]
fn a_direct_link_to_an_index_page_is_missing() {
    let wiki = Wiki::load(
        "/w",
        files(&[
            ("index.md", "# Home\n[[/projects]] [[/]]"),
            ("projects/calc.md", "# Calc"),
            ("projects/index.md", "# Projects\n[[calc]]"),
        ]),
    );
    assert_eq!(
        wiki.resolve("index", "projects/index"),
        LinkTarget::Missing("projects/index".into())
    );
    assert_eq!(wiki.resolve("projects/calc", "Index.md"), LinkTarget::Missing("Index.md".into()));
    assert_eq!(wiki.resolve("index", "projects"), LinkTarget::Page("projects/index".into()));
}

#[test]
fn images_no_page_names_are_unused() {
    let wiki = Wiki::load("/w", files(&[("index.md", "# Home\n![used](assets/used.png)")]));
    let found = vec![
        ("/w/assets/used.png".to_string(), "used.png".to_string(), Some("png".to_string())),
        ("/w/assets/unused.PNG".to_string(), "unused.PNG".to_string(), Some("PNG".to_string())),
        ("/w/old/stale.jpg".to_string(), "stale.jpg".to_string(), Some("jpg".to_string())),
        ("/w/notes.txt".to_string(), "notes.txt".to_string(), Some("txt".to_string())),
        ("/w/README".to_string(), "README".to_string(), None),
    ];
    assert_eq!(
        wiki.unreferenced_images(&found),
        vec!["/w/assets/unused.PNG", "/w/old/stale.jpg"]
    );
}

#[test]
fn only_md_files_outside_hidden_folders_are_pages() {
    let wiki = Wiki::load(
        "/w",
        files(&[
            ("b.md", "# B"),
            ("notes.txt", "# Not a page"),
            (".trash/old.md", "# Old"),
            ("a/.hidden/x.md", "# Hidden"),
            ("a/y.MD", "# Upper"),
            ("a/z.md", "# Z"),
        ]),
    );
    let ids: Vec<&str> = wiki.pages.iter().map(|p| p.id.as_str()).collect();
    assert_eq!(ids, vec!["a/z", "b"]);
    assert!(is_page_file("/w", "/w/a/z.md"));
    assert!(!is_page_file("/w", "/elsewhere/z.md"));
    assert!(!is_page_file("/w", "/w/.git/x.md"));
}

#[test]
fn a_hidden_wiki_folder_holds_no_pages() {
    assert!(!is_page_file("/home/u/.notes", "/home/u/.notes/a.md"));
    assert!(is_page_file("/home/u/notes", "/home/u/notes/a.md"));
    let wiki = Wiki::load("/home/u/.notes", vec![("/home/u/.notes/a.md".to_string(), "# A".to_string())]);
    assert!(wiki.pages.is_empty());
}

#[test]
fn image_destinations_name_files() {
    assert_eq!(image_candidate(" /assets/a.png#top ").as_deref(), Some("assets/a.png"));
    assert_eq!(image_candidate("pic.png").as_deref(), Some("pic.png"));
    assert_eq!(image_candidate("https://x.y/a.png"), None);
}

#[test]
fn replacing_targets_with_themselves_keeps_the_text() {
    let text = "See [[a/b|label]], [c](c.md) and [[d]].";
    assert_eq!(rewrite_links(text, |t| Some(t.to_string())), text);
    assert_eq!(rewrite_links(text, |t| if t == "d" { Some("d".to_string()) } else { None }), text);
}
