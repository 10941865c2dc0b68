use wikibits::editor::{
    fenced_lines, list_prefix, markdown_styles, next_list_marker, pos_at, row_runs, visual_of, wrap_rows,
    Action, Area, Editor, Key, KeyCode, Mark, Mouse, MouseKind, Pos, Row,
};

fn key(code: KeyCode) -> Key {
    Key {
        code,
        ctrl: false,
        shift: false,
    }
}

fn ctrl(c: char) -> Key {
    Key {
        code: KeyCode::Char(c),
        ctrl: true,
        shift: false,
    }
}

fn shift(code: KeyCode) -> Key {
    Key {
        code,
        ctrl: false,
        shift: true,
    }
}

fn ctrl_key(code: KeyCode) -> Key {
    Key {
        code,
        ctrl: true,
        shift: false,
    }
}

#[test]
fn link_completion() {
    let mut e = Editor::new("see [[pro");
    e.handle_key(key(KeyCode::End));
    let (start, typed) = e.link_context().unwrap();
    assert_eq!((start, typed.as_str()), (Pos { line: 0, col: 6 }, "pro"));
    e.complete_link(start, "projects/calcbits");
    assert_eq!(e.text(), "see [[projects/calcbits]]\n");
    assert_eq!(e.cursor(), Pos { line: 0, col: 25 });
    assert!(e.link_context().is_none(), "closed links do not complete");

    let mut e = Editor::new("[[a]] and [[b");
    e.handle_key(key(KeyCode::End));
    assert_eq!(e.link_context().unwrap().1, "b");
}

#[test]
fn lists_continue_on_enter_and_end_on_an_empty_item() {
    let mut e = Editor::new("- [x] done\n1. first");
    e.handle_key(key(KeyCode::End));
    e.handle_key(key(KeyCode::Enter));
    e.handle_key(key(KeyCode::Char('n')));
    assert_eq!(e.text(), "- [x] done\n- [ ] n\n1. first\n");
    e.handle_key(ctrl_key(KeyCode::End));
    e.handle_key(key(KeyCode::Enter));
    assert_eq!(e.text(), "- [x] done\n- [ ] n\n1. first\n2. \n");
    e.handle_key(key(KeyCode::Enter));
    assert_eq!(
        e.text(),
        "- [x] done\n- [ ] n\n1. first\n\n",
        "an empty item ends the list"
    );
}

#[test]
fn find_and_replace() {
    let mut e = Editor::new("Foo bar foo\nfoo");
    e.handle_key(ctrl('f'));
    for c in "foo".chars() {
        e.handle_key(key(KeyCode::Char(c)));
    }
    assert_eq!(
        e.selection(),
        Some((Pos::default(), Pos { line: 0, col: 3 }))
    );
    e.handle_key(key(KeyCode::Enter));
    assert_eq!(
        e.selection(),
        Some((Pos { line: 0, col: 8 }, Pos { line: 0, col: 11 }))
    );
    e.handle_key(ctrl('r'));
    for c in "baz".chars() {
        e.handle_key(key(KeyCode::Char(c)));
    }
    e.handle_key(key(KeyCode::Enter));
    assert_eq!(e.text(), "Foo bar baz\nfoo\n");
    e.handle_key(ctrl('a'));
    assert_eq!(e.text(), "baz bar baz\nbaz\n");
    e.handle_key(key(KeyCode::Esc));
    assert!(e.find.is_none());
    assert_eq!(list_prefix("  - [ ] x"), ("  ".into(), "- [ ] ".into()));
    assert_eq!(list_prefix("  plain"), (String::new(), String::new()));
    assert_eq!(list_prefix("12.x"), (String::new(), String::new()));
    assert_eq!(next_list_marker("9. "), "10. ");
    assert_eq!(
        fenced_lines(&[
            "a".into(),
            "```".into(),
            "b".into(),
            "```".into(),
            "c".into()
        ]),
        vec![false, true, true, true, false]
    );
}

#[test]
fn typing_and_undo() {
    let mut e = Editor::new("ab\n");
    e.handle_key(key(KeyCode::End));
    e.handle_key(key(KeyCode::Char('c')));
    e.handle_key(key(KeyCode::Char('d')));
    assert_eq!(e.text(), "abcd\n");
    assert!(e.modified());
    e.handle_key(ctrl('z'));
    assert_eq!(e.text(), "ab\n", "a typing run undoes as one step");
    e.handle_key(ctrl('y'));
    assert_eq!(e.text(), "abcd\n");
    assert_eq!(e.handle_key(key(KeyCode::Esc)), Action::Nothing);
    assert!(e.confirm);
    assert_eq!(e.handle_key(key(KeyCode::Char('n'))), Action::Discard);
}

#[test]
fn selection_cut_and_paste() {
    let mut e = Editor::new("hello world");
    for _ in 0..5 {
        e.handle_key(shift(KeyCode::Right));
    }
    assert_eq!(
        e.selection(),
        Some((Pos::default(), Pos { line: 0, col: 5 }))
    );
    e.handle_key(ctrl('x'));
    assert_eq!(e.text(), " world\n");
    e.handle_key(key(KeyCode::End));
    e.paste("!\nnext");
    assert_eq!(e.text(), " world!\nnext\n");
    assert_eq!(e.cursor(), Pos { line: 1, col: 4 });
    e.handle_key(key(KeyCode::Backspace));
    e.handle_key(key(KeyCode::Backspace));
    assert_eq!(e.text(), " world!\nne\n");
}

#[test]
fn newline_keeps_indentation_and_words_wrap() {
    let mut e = Editor::new("  - item");
    e.handle_key(key(KeyCode::End));
    e.handle_key(key(KeyCode::Enter));
    e.handle_key(key(KeyCode::Char('x')));
    assert_eq!(e.text(), "  - item\n  - x\n", "the list continues");

    let lines = vec!["one two three".to_string(), "".to_string()];
    let rows = wrap_rows(&lines, 8);
    assert_eq!(
        rows,
        vec![
            Row {
                line: 0,
                start: 0,
                end: 8
            },
            Row {
                line: 0,
                start: 8,
                end: 13
            },
            Row {
                line: 1,
                start: 0,
                end: 0
            },
        ]
    );
    assert_eq!(visual_of(&lines, &rows, Pos { line: 0, col: 9 }), (1, 1));
    assert_eq!(pos_at(&lines, rows[1], 3), Pos { line: 0, col: 11 });
}

// ----- more cases -------------------------------------------------------------------------

#[test]
fn undo_restores_text_and_cursor_and_redo_brings_the_edit_back() {
    let mut e = Editor::new("one\ntwo");
    e.handle_key(ctrl_key(KeyCode::End));
    e.handle_key(key(KeyCode::Enter));
    e.handle_key(key(KeyCode::Char('3')));
    assert_eq!(e.text(), "one\ntwo\n3\n");
    e.handle_key(ctrl('z'));
    assert_eq!(e.text(), "one\ntwo\n\n");
    e.handle_key(ctrl('z'));
    assert_eq!(e.text(), "one\ntwo\n");
    assert_eq!(e.cursor(), Pos { line: 1, col: 3 });
    e.handle_key(ctrl('y'));
    assert_eq!(e.text(), "one\ntwo\n\n");
    // Nothing left to undo: undo changes nothing.
    let mut f = Editor::new("x");
    f.handle_key(ctrl('z'));
    assert_eq!(f.text(), "x\n");
    assert!(!f.modified());
}

#[test]
fn words_and_lines_are_walked() {
    let mut e = Editor::new("foo_bar, baz\nnext");
    e.handle_key(ctrl_key(KeyCode::Right));
    assert_eq!(e.cursor(), Pos { line: 0, col: 9 });
    e.handle_key(ctrl_key(KeyCode::Right));
    assert_eq!(e.cursor(), Pos { line: 0, col: 12 });
    e.handle_key(ctrl_key(KeyCode::Right));
    assert_eq!(e.cursor(), Pos { line: 1, col: 0 });
    e.handle_key(ctrl_key(KeyCode::Left));
    assert_eq!(e.cursor(), Pos { line: 0, col: 12 });
    e.handle_key(ctrl_key(KeyCode::Left));
    assert_eq!(e.cursor(), Pos { line: 0, col: 9 });
    e.handle_key(key(KeyCode::Home));
    assert_eq!(e.cursor(), Pos { line: 0, col: 0 });
    e.handle_key(ctrl('a'));
    assert_eq!(
        e.selection(),
        Some((Pos::default(), Pos { line: 1, col: 4 }))
    );
    e.handle_key(key(KeyCode::Delete));
    assert_eq!(e.text(), "\n");
}

#[test]
fn keys_that_leave_or_hand_over() {
    let mut e = Editor::new("a");
    assert_eq!(e.handle_key(ctrl('s')), Action::Save);
    assert_eq!(e.handle_key(ctrl('v')), Action::Paste);
    assert_eq!(e.handle_key(ctrl('p')), Action::PickImage);
    assert_eq!(e.handle_key(key(KeyCode::Esc)), Action::Discard);
    e.handle_key(key(KeyCode::Char('b')));
    assert_eq!(e.handle_key(key(KeyCode::Esc)), Action::Nothing);
    assert_eq!(e.handle_key(key(KeyCode::Enter)), Action::Save);
    assert!(!e.confirm);
}

#[test]
fn copy_fills_the_clipboard_for_pasting_back() {
    let mut e = Editor::new("abc");
    e.handle_key(shift(KeyCode::Right));
    e.handle_key(shift(KeyCode::Right));
    e.handle_key(ctrl('c'));
    assert_eq!(e.copied.as_deref(), Some("ab"));
    e.handle_key(key(KeyCode::End));
    e.paste_internal();
    assert_eq!(e.text(), "abcab\n");
    e.paste("x\r\ny\rz");
    assert_eq!(e.text(), "abcabx\ny\nz\n");
}

#[test]
fn replacing_with_text_that_still_matches_goes_over_the_text_once() {
    let mut e = Editor::new("a a");
    e.handle_key(ctrl('f'));
    e.handle_key(key(KeyCode::Char('a')));
    e.handle_key(ctrl('r'));
    e.handle_key(key(KeyCode::Char('a')));
    e.handle_key(key(KeyCode::Char('b')));
    e.handle_key(ctrl('a'));
    assert_eq!(e.text(), "abb ab\n");
}

#[test]
fn the_mouse_places_and_selects() {
    let mut e = Editor::new("hello world\nsecond");
    let rows = e.place(Area {
        x: 2,
        y: 1,
        width: 20,
        height: 5,
    });
    assert_eq!(rows.len(), 2);
    e.handle_mouse(Mouse {
        kind: MouseKind::LeftDown,
        column: 4,
        row: 1,
    });
    assert_eq!(e.cursor(), Pos { line: 0, col: 2 });
    e.handle_mouse(Mouse {
        kind: MouseKind::LeftDrag,
        column: 5,
        row: 2,
    });
    assert_eq!(
        e.selection(),
        Some((Pos { line: 0, col: 2 }, Pos { line: 1, col: 3 }))
    );
    e.handle_mouse(Mouse {
        kind: MouseKind::ScrollDown,
        column: 0,
        row: 0,
    });
    assert_eq!(e.scroll_top(), 3);
    e.handle_mouse(Mouse {
        kind: MouseKind::ScrollUp,
        column: 0,
        row: 0,
    });
    assert_eq!(e.scroll_top(), 0);
}

#[test]
fn drawing_scrolls_to_the_cursor() {
    let mut e = Editor::new("1\n2\n3\n4\n5\n6");
    e.handle_key(ctrl_key(KeyCode::End));
    e.place(Area {
        x: 0,
        y: 0,
        width: 10,
        height: 3,
    });
    assert_eq!(e.scroll_top(), 3);
    assert_eq!(e.cursor_screen, (1, 2));
    e.handle_key(key(KeyCode::PageUp));
    assert_eq!(e.cursor(), Pos { line: 2, col: 1 });
}

#[test]
fn highlighting_marks_headings_and_code() {
    let chars: Vec<char> = "## Hi".chars().collect();
    assert_eq!(markdown_styles(&chars, false), vec![Mark::Heading2; 5]);
    assert_eq!(markdown_styles(&chars, true), vec![Mark::Code; 5]);
    assert_eq!(next_list_marker("- [x] "), "- [ ] ");
    let mut e = Editor::new("18446744073709551615. x");
    e.handle_key(key(KeyCode::End));
    assert!(!e.key_allowed(key(KeyCode::Enter)));
    assert!(e.key_allowed(key(KeyCode::Char('y'))));
}

#[test]
fn enter_on_a_plain_indented_line_keeps_the_indentation() {
    let mut e = Editor::new("  plain");
    e.handle_key(key(KeyCode::End));
    e.handle_key(key(KeyCode::Enter));
    e.handle_key(key(KeyCode::Char('x')));
    assert_eq!(e.text(), "  plain\n  x\n");
}

#[test]
fn every_position_leads_back_from_the_screen() {
    let lines = vec!["one two three".to_string(), "".to_string(), "wide 日本 text".to_string()];
    let rows = wrap_rows(&lines, 8);
    for (line, text) in lines.iter().enumerate() {
        for col in 0..=text.chars().count() {
            let pos = Pos { line, col };
            let (r, c) = visual_of(&lines, &rows, pos);
            assert_eq!(pos_at(&lines, rows[r], c), pos, "{pos:?}");
        }
    }
}

fn runs_of(chars: &str, marks: &[Mark], row: Row, sel: Option<(Pos, Pos)>) -> Vec<(String, Mark, bool)> {
    let cs: Vec<char> = chars.chars().collect();
    row_runs(&cs, marks, row, sel)
        .into_iter()
        .map(|r| (r.text, r.mark, r.selected))
        .collect()
}

#[test]
fn a_row_is_drawn_in_runs_of_one_look() {
    let marks = [Mark::Plain, Mark::Plain, Mark::Code, Mark::Code];
    let row = Row { line: 0, start: 0, end: 4 };
    let sel = Some((Pos { line: 0, col: 1 }, Pos { line: 0, col: 3 }));
    assert_eq!(
        runs_of("abcd", &marks, row, sel),
        vec![
            ("a".to_string(), Mark::Plain, false),
            ("b".to_string(), Mark::Plain, true),
            ("c".to_string(), Mark::Code, true),
            ("d".to_string(), Mark::Code, false),
        ]
    );
    assert_eq!(
        runs_of("abcd", &marks, row, None),
        vec![("ab".to_string(), Mark::Plain, false), ("cd".to_string(), Mark::Code, false)]
    );
    let across = Some((Pos { line: 0, col: 3 }, Pos { line: 1, col: 0 }));
    assert_eq!(
        runs_of("abcd", &marks, row, across),
        vec![
            ("ab".to_string(), Mark::Plain, false),
            ("c".to_string(), Mark::Code, false),
            ("d".to_string(), Mark::Code, true),
            (" ".to_string(), Mark::Plain, true),
        ]
    );
    let first = Row { line: 0, start: 0, end: 2 };
    assert_eq!(runs_of("abcd", &marks, first, across), vec![("ab".to_string(), Mark::Plain, false)]);
}
