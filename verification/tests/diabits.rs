use unicode_width::UnicodeWidthStr;
use wikibits::diabits::render;

fn joined(lines: &[String]) -> String {
    lines.join("\n")
}

#[test]
fn two_boxes_in_a_column() {
    let out = render("one[One]\ntwo[Two]\none --> two").unwrap();
    assert_eq!(
        joined(&out),
        "┌─────┐\n│ One │\n└─────┘\n   │\n   ▼\n┌─────┐\n│ Two │\n└─────┘"
    );
}

#[test]
fn the_pet_store() {
    let src = "diaType: flowchart\nstart(Start)\na[Go to the pet store]\nb<Cats or dogs?>\nc[Buy a cat], d[Buy a dog]\nend(End)\n\nstart --> a --> b\nb --> c | Cats\nb --> d | Dogs\nc --> end\nd --> end\n";
    let out = render(src).unwrap();
    let text = joined(&out);
    println!("{text}");
    assert!(text.contains("╭───────╮"), "pill");
    assert!(text.contains("⟨"), "diamond");
    assert!(
        text.contains("┬") && text.contains("┴"),
        "fan out and merge buses"
    );
    assert!(
        text.contains("│ Cats") || text.contains("│  Cats"),
        "label on the branch"
    );
    assert_eq!(text.matches('▼').count(), 5, "one arrow head per line");
    assert!(out.iter().all(|l| l.width() <= 60));
}

#[test]
fn arrows_lines_and_side_channels() {
    let src = "a[A]\nb[B]\nc[C]\na <-> b\nb --- c\na --> c | later";
    let out = render(src).unwrap();
    let text = joined(&out);
    println!("{text}");
    assert!(text.contains('▲') && text.contains('▼'), "two-way arrow");
    assert!(
        text.contains("┐") && text.contains("◀"),
        "side channel with an arrow head"
    );
    assert!(text.contains("later"));
    let side_rows: Vec<&str> = out
        .iter()
        .map(|s| s.as_str())
        .filter(|l| l.ends_with('┐') || l.contains("┘"))
        .collect();
    assert!(!side_rows.is_empty());
}

#[test]
fn errors_are_explained() {
    assert!(render("a[A]\na --> zz")
        .unwrap_err()
        .contains("no shape named 'zz'"));
    assert!(render("diaType: pie\na[A]")
        .unwrap_err()
        .contains("unknown diaType"));
    assert!(render("a[A]\nb[B]\na --> b ==> a")
        .unwrap_err()
        .contains("not one of"));
    assert!(render("hello").unwrap_err().contains("is not id[label]"));
    assert!(render("a[A], b[B]\na -- b").is_err());
}

#[test]
fn same_row_neighbours_join_horizontally() {
    let out = render("a[A], b[B]\na --> b").unwrap();
    assert_eq!(out[1], "│ A │───▶│ B │");
}

#[test]
fn error_messages_name_the_line() {
    assert_eq!(
        render("a[A]\n\na --> zz").unwrap_err(),
        "line 3: no shape named 'zz' (define it first)"
    );
    assert_eq!(
        render("diaType: flowchart\ndiaType: flowchart\na[A]").unwrap_err(),
        "line 2: diaType given twice"
    );
    assert_eq!(
        render("diaType: pie").unwrap_err(),
        "line 1: unknown diaType 'pie' (only flowchart for now)"
    );
    assert_eq!(render("").unwrap_err(), "no shapes: add lines like id[label]");
    assert_eq!(render("a[A], a[B]").unwrap_err(), "line 1: 'a' is defined twice");
    assert_eq!(
        render("a[A]\na --> a").unwrap_err(),
        "line 2: a line from a shape to itself"
    );
    assert_eq!(
        render("a[A]\na -->").unwrap_err(),
        "line 2: expected 'id --> id' (chains allowed)"
    );
    assert_eq!(render(" , ,").unwrap_err(), "line 1: nothing defined");
}

#[test]
fn pills_and_diamonds_are_framed() {
    let out = render("p(Hi)\nq<Ok?>").unwrap();
    assert_eq!(out[0], " ╭────╮");
    assert_eq!(out[1], " │ Hi │");
    assert_eq!(out[2], " ╰────╯");
    assert_eq!(out[3], "");
    assert_eq!(out[4], "");
    assert_eq!(out[5], " ╱‾‾‾‾‾╲");
    assert_eq!(out[6], "⟨  Ok?  ⟩");
    assert_eq!(out[7], " ╲_____╱");
}

#[test]
fn a_label_on_a_straight_line() {
    let out = render("one[One]\ntwo[Two]\none --> two | go").unwrap();
    assert_eq!(joined(&out[3..6]), "   │\n   │ go\n   ▼");
}

#[test]
fn columns_are_as_wide_as_their_widest_shape() {
    let out = render("a[A], b[B]\nc[C], d[Dddd]").unwrap();
    assert_eq!(out[1], "│ A │     │ B │");
    let c = out.iter().position(|l| l.contains("│ C │")).unwrap();
    assert!(c >= 1 + 3);
    assert_eq!(out[c], "│ C │    │ Dddd │");
}

#[test]
fn empty_slots_pick_the_column() {
    let out = render("a[A], b[B], c[C]\n,, z[Z]").unwrap();
    assert_eq!(out[1], "│ A │    │ B │    │ C │");
    let z = out.iter().position(|l| l.contains("│ Z │")).unwrap();
    assert_eq!(out[z], format!("{}│ Z │", " ".repeat(18)));
}

#[test]
fn a_shorter_row_is_centred_over_the_columns() {
    let out = render("a[A], b[B]\nc[C]").unwrap();
    let c = out.iter().position(|l| l.contains("│ C │")).unwrap();
    assert_eq!(out[c], "    │ C │");
}

#[test]
fn nine_thousand_rows_are_drawn() {
    let src: Vec<String> = (0..9000).map(|i| format!("n{i}[K]")).collect();
    let out = render(&src.join("\n")).unwrap();
    assert_eq!(out.len(), 9000 * 5 - 2);
    assert_eq!(out[0], "┌───┐");
    assert_eq!(out[1], "│ K │");
    assert_eq!(out[out.len() - 1], "└───┘");
}

#[test]
fn a_row_of_nine_thousand_shapes_is_drawn() {
    let src: Vec<String> = (0..9000).map(|i| format!("n{i}[K]")).collect();
    let out = render(&src.join(", ")).unwrap();
    assert_eq!(out.len(), 3);
    assert_eq!(out[1].chars().count(), 9000 * 5 + 8999 * 4);
    assert!(out[1].starts_with("│ K │    │ K │"));
}
