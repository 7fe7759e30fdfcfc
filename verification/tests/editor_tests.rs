use mw::editor::{
    decode_key, load_lines, prompt_key, text_to_lines, utf8_seq_len, Action, Editor, Key, Mode,
    PromptEvent,
};
use mw::screen::{disp_col, expand_tabs_display};

fn chars(s: &str) -> Vec<char> {
    s.chars().collect()
}

fn editor(text: &[&str]) -> Editor {
    Editor::new("t.txt", text.iter().map(|l| chars(l)).collect())
}

fn text(e: &Editor) -> Vec<String> {
    e.lines.iter().map(|l| l.iter().collect()).collect()
}

/// Types the keys as the program does: Escape leaves insert mode, other keys go to the
/// mode's handler. Returns the action of the last normal-mode key.
fn keys(e: &mut Editor, s: &str) -> Action {
    let mut last = Action::Continue;
    for c in s.chars() {
        assert!(e.is_ready());
        if c == '\u{1b}' {
            e.handle_esc([0, 0]);
        } else if e.mode == Mode::Normal {
            assert!(e.key_ok(Key::Ch(c)));
            last = e.normal_key(Key::Ch(c));
        } else {
            e.insert_key(Key::Ch(c));
        }
    }
    last
}

#[test]
fn x_deletes_under_the_cursor() {
    let mut e = editor(&["hello"]);
    keys(&mut e, "x");
    assert_eq!(text(&e), vec!["ello"]);
    keys(&mut e, "3x");
    assert_eq!(text(&e), vec!["o"]);
}

#[test]
fn dw_deletes_a_word() {
    let mut e = editor(&["foo bar"]);
    keys(&mut e, "dw");
    assert_eq!(text(&e), vec!["bar"]);
    assert_eq!((e.cursor_r, e.cursor_c), (0, 0));
}

#[test]
fn dd_deletes_lines_and_the_last_clears_the_buffer() {
    let mut e = editor(&["a", "b", "c"]);
    keys(&mut e, "jdd");
    assert_eq!(text(&e), vec!["a", "c"]);
    assert_eq!(e.cursor_r, 1);
    keys(&mut e, "ggdG");
    assert_eq!(text(&e), vec![""]);
    assert_eq!(e.status_msg.iter().collect::<String>(), "Buffer cleared");
}

#[test]
fn yy_and_a_counted_paste() {
    let mut e = editor(&["a", "b"]);
    keys(&mut e, "yy2p");
    assert_eq!(text(&e), vec!["a", "a", "a", "b"]);
    assert_eq!(e.cursor_r, 2);
}

#[test]
fn undo_and_redo_take_each_other_back() {
    let mut e = editor(&["hello"]);
    keys(&mut e, "x");
    assert_eq!(text(&e), vec!["ello"]);
    keys(&mut e, "u");
    assert_eq!(text(&e), vec!["hello"]);
    assert_eq!(e.status_msg.iter().collect::<String>(), "Undone");
    keys(&mut e, "\u{12}");
    assert_eq!(text(&e), vec!["ello"]);
    keys(&mut e, "uu");
    assert_eq!(text(&e), vec!["hello"]);
    assert_eq!(e.status_msg.iter().collect::<String>(), "Already at oldest change");
}

#[test]
fn join_toggle_and_replace() {
    let mut e = editor(&["a", "b"]);
    keys(&mut e, "J");
    assert_eq!(text(&e), vec!["a b"]);
    let mut t = editor(&["ab"]);
    keys(&mut t, "~");
    assert_eq!(text(&t), vec!["Ab"]);
    assert_eq!(t.cursor_c, 1);
    keys(&mut t, "rx");
    assert_eq!(text(&t), vec!["Ax"]);
}

#[test]
fn insert_and_open_lines() {
    let mut e = editor(&["ac"]);
    keys(&mut e, "lib\u{1b}");
    assert_eq!(text(&e), vec!["abc"]);
    assert_eq!(e.mode, Mode::Normal);
    keys(&mut e, "od\u{1b}");
    assert_eq!(text(&e), vec!["abc", "d"]);
    keys(&mut e, "Ox\u{1b}");
    assert_eq!(text(&e), vec!["abc", "x", "d"]);
}

#[test]
fn motions_with_counts() {
    let mut e = editor(&["0", "1", "2", "3", "4"]);
    keys(&mut e, "G");
    assert_eq!(e.cursor_r, 4);
    keys(&mut e, "gg");
    assert_eq!(e.cursor_r, 0);
    keys(&mut e, "3j");
    assert_eq!(e.cursor_r, 3);
    keys(&mut e, "2G");
    assert_eq!(e.cursor_r, 1);
}

#[test]
fn find_repeat_and_brackets() {
    let mut e = editor(&["a,b,c"]);
    keys(&mut e, "f,");
    assert_eq!(e.cursor_c, 1);
    keys(&mut e, ";");
    assert_eq!(e.cursor_c, 3);
    let mut b = editor(&["(a)"]);
    keys(&mut b, "%");
    assert_eq!(b.cursor_c, 2);
}

#[test]
fn marks_jump_back() {
    let mut e = editor(&["a", "b", "c"]);
    keys(&mut e, "jmaG'a");
    assert_eq!(e.cursor_r, 1);
}

#[test]
fn prompts_and_saving_are_actions() {
    let mut e = editor(&["a"]);
    assert_eq!(keys(&mut e, ":"), Action::CommandPrompt);
    assert_eq!(keys(&mut e, "/"), Action::SearchPrompt(1));
    assert_eq!(keys(&mut e, "?"), Action::SearchPrompt(-1));
    assert_eq!(keys(&mut e, "ZZ"), Action::SaveAndQuit);
}

#[test]
fn commands() {
    let mut e = editor(&["a", "b", "c"]);
    assert!(e.command_fits(&chars("3")));
    assert_eq!(e.execute_command(&chars("3")), Action::Continue);
    assert_eq!(e.cursor_r, 2);
    assert_eq!(e.status_msg.iter().collect::<String>(), "line 3");
    assert_eq!(e.execute_command(&chars("w")), Action::Save);
    assert_eq!(e.execute_command(&chars("q!")), Action::Quit);
    assert_eq!(e.execute_command(&chars("x")), Action::SaveAndQuit);
    assert_eq!(e.execute_command(&chars("zz")), Action::Continue);
    assert_eq!(e.status_msg.iter().collect::<String>(), "Unknown command: :zz");
    e.mark_saved();
    assert_eq!(e.status_msg.iter().collect::<String>(), "\"t.txt\" written");
}

#[test]
fn search_finds_ignoring_case() {
    let mut e = editor(&["alpha", "Beta"]);
    e.finish_search(chars("bet"), 1);
    assert_eq!((e.cursor_r, e.cursor_c), (1, 0));
}

#[test]
fn prompt_line_editing() {
    let mut buf: Vec<char> = Vec::new();
    assert_eq!(prompt_key(&mut buf, Key::Ch('a')), PromptEvent::Typed('a'));
    assert_eq!(prompt_key(&mut buf, Key::Ch('b')), PromptEvent::Typed('b'));
    assert_eq!(prompt_key(&mut buf, Key::Ch('\u{7f}')), PromptEvent::Erased);
    assert_eq!(buf, vec!['a']);
    assert_eq!(prompt_key(&mut buf, Key::Ch('\n')), PromptEvent::Submit);
    assert_eq!(prompt_key(&mut buf, Key::Ch('\u{1b}')), PromptEvent::Cancel);
    assert!(buf.is_empty());
    assert_eq!(prompt_key(&mut buf, Key::Ch('\u{08}')), PromptEvent::Unchanged);
}

#[test]
fn loading_and_saving_text() {
    let l = load_lines(b"a\n\nb\n");
    assert_eq!(l, vec![chars("a"), chars(""), chars("b")]);
    assert!(load_lines(b"").is_empty());
    assert_eq!(load_lines(&[0x61, 0xff]), vec![chars("a\u{fffd}")]);
    assert_eq!(text_to_lines(&chars("x\ny")), vec![chars("x"), chars("y")]);
    let e = editor(&["a", "b"]);
    assert_eq!(e.file_content(), "a\nb\n");
}

#[test]
fn keys_from_bytes() {
    assert_eq!(decode_key(&[0xc3, 0xa9]), 'é');
    assert_eq!(decode_key(&[0xff]), '\u{ff}');
    assert_eq!(decode_key(&[0x41]), 'A');
    assert_eq!(utf8_seq_len(0x41), 1);
    assert_eq!(utf8_seq_len(0xc3), 2);
    assert_eq!(utf8_seq_len(0xe2), 3);
    assert_eq!(utf8_seq_len(0xf0), 4);
    assert_eq!(utf8_seq_len(0x80), 1);
}

#[test]
fn tabs_and_columns() {
    assert_eq!(expand_tabs_display(&chars("\tx")), chars("    x"));
    assert_eq!(expand_tabs_display(&chars("ab\tc")), chars("ab  c"));
    assert_eq!(expand_tabs_display(&chars("abcd\te")), chars("abcd    e"));
    assert_eq!(disp_col(&chars("\tx"), 1), 4);
    assert_eq!(disp_col(&chars("ab\tc"), 3), 4);
    assert_eq!(disp_col(&chars("ab"), 5), 2);
}

#[test]
fn size_hint_units() {
    let e = editor(&["x"]);
    assert_eq!(e.file_size_hint(), "2 B");
    let big = editor(&[&"y".repeat(2047)]);
    assert_eq!(big.file_size_hint(), "2 KiB");
    let mib = editor(&[&"z".repeat(3 * 1024 * 1024)]);
    assert_eq!(mib.file_size_hint(), "3 MiB");
}

#[test]
fn redraw_writes_the_whole_screen() {
    let mut e = editor(&["x"]);
    assert!(e.can_draw(5));
    let s = e.redraw(5);
    let expected = format!(
        "\x1b[2 q\x1b[H\x1b[1;1H\x1b[Kx\x1b[2;1H\x1b[K~\x1b[3;1H\x1b[K~\x1b[4;1H{}\x1b[K\x1b[5;1H\x1b[7m -- NORMAL -- | t.txt [plain 2 B] | 1 lines\x1b[K\x1b[0m\x1b[1;1H",
        "-".repeat(56)
    );
    assert_eq!(s, expected);
    assert_eq!(e.view_height, 3);
}

#[test]
fn redraw_scrolls_to_the_cursor() {
    let mut e = editor(&["a", "b", "c", "d", "e"]);
    keys(&mut e, "G");
    let _ = e.redraw(4);
    assert_eq!(e.scroll_top, 3);
    keys(&mut e, "gg");
    let _ = e.redraw(4);
    assert_eq!(e.scroll_top, 0);
    assert!(!e.can_draw(2));
}

#[test]
fn key_checks_refuse_faulting_keys() {
    let mut e = editor(&["a", "b"]);
    keys(&mut e, "j");
    e.normal_key(Key::Ch('y'));
    assert!(!e.key_ok(Key::Ch('k')));
    assert!(e.key_ok(Key::Ch('j')));
}

#[test]
fn one_undo_takes_back_each_change() {
    for cmd in ["x", "dd", "dw", "J", "D", "rz", "yyp", "o", "X"] {
        let mut e = editor(&["ab cd", "ef"]);
        keys(&mut e, "l");
        let before = text(&e);
        keys(&mut e, cmd);
        if e.mode == Mode::Insert {
            keys(&mut e, "\u{1b}");
        }
        assert_ne!(text(&e), before, "{} changes the text", cmd);
        keys(&mut e, "u");
        assert_eq!(text(&e), before, "u takes back {}", cmd);
    }
}

#[test]
fn deleting_every_line_leaves_one() {
    let mut e = editor(&["a"]);
    keys(&mut e, "dd");
    assert_eq!(text(&e), vec![""]);
    keys(&mut e, "dd");
    assert_eq!(text(&e), vec![""]);
    assert!(e.is_ready());
}

#[test]
fn saved_text_loads_back() {
    for buf in [vec!["a", "", "b"], vec![""], vec!["x", ""], vec!["é\tz"]] {
        let e = editor(&buf);
        let loaded = load_lines(e.file_content().as_bytes());
        assert_eq!(loaded, e.lines);
    }
}

#[test]
fn half_page_down_on_a_short_buffer_leaves_it() {
    let mut e = editor(&["a", "b", "c", "d", "e"]);
    assert!(e.key_ok(Key::Ch('\u{04}')));
    e.normal_key(Key::Ch('\u{04}'));
    assert_eq!((e.scroll_top, e.cursor_r), (11, 22));
    assert!(!e.is_ready());
}

#[test]
fn jump_to_a_mark_past_the_end_leaves_the_buffer() {
    let mut e = editor(&["a", "b", "c"]);
    keys(&mut e, "Gmadd");
    assert_eq!(text(&e), vec!["a", "b"]);
    keys(&mut e, "'a");
    assert_eq!(e.cursor_r, 2);
    assert!(!e.is_ready());
}

#[test]
fn dd_is_pasted_with_2p() {
    let mut e = editor(&["a", "b"]);
    keys(&mut e, "dd2p");
    assert_eq!(text(&e), vec!["b", "a", "a"]);
    let mut f = editor(&["x", "y", "z"]);
    keys(&mut f, "d2dP");
    assert_eq!(text(&f), vec!["x", "y", "z"]);
}

#[test]
fn w_stops_at_the_first_word_of_the_next_line() {
    let mut e = editor(&["foo bar", "baz qux"]);
    e.cursor_c = 4;
    e.word_fwd();
    assert_eq!((e.cursor_r, e.cursor_c), (1, 0));
    let mut f = editor(&["foo bar", "baz qux"]);
    f.word_fwd();
    assert_eq!((f.cursor_r, f.cursor_c), (0, 4));
    let mut g = editor(&["a", "   ", "  b"]);
    g.word_fwd();
    assert_eq!((g.cursor_r, g.cursor_c), (2, 2));
    let mut h = editor(&["a", "", "b"]);
    h.word_fwd();
    assert_eq!((h.cursor_r, h.cursor_c), (2, 0));
    let mut z = editor(&["a", ""]);
    z.word_fwd();
    assert_eq!((z.cursor_r, z.cursor_c), (1, 0));
    let mut l = editor(&["a", "  "]);
    l.word_fwd();
    assert_eq!((l.cursor_r, l.cursor_c), (1, 2));
}

#[test]
fn backspace_takes_back_typing() {
    let mut e = editor(&["abc"]);
    keys(&mut e, "li");
    let before = (text(&e), e.cursor_r, e.cursor_c);
    e.insert_key(Key::Ch('x'));
    e.insert_key(Key::Ch('\u{7f}'));
    assert_eq!((text(&e), e.cursor_r, e.cursor_c), before);
    e.insert_key(Key::Ch('\n'));
    assert_eq!(text(&e), vec!["a", "bc"]);
    e.insert_key(Key::Ch('\u{7f}'));
    assert_eq!((text(&e), e.cursor_r, e.cursor_c), before);
}

#[test]
fn display_columns_follow_the_shown_text() {
    let line = chars("a\tbc\td");
    for k in 0..8 {
        let shown = expand_tabs_display(&line[..k.min(line.len())]);
        assert_eq!(disp_col(&line, k), shown.len());
    }
    assert_eq!(disp_col(&chars("abc"), 2), 2);
    assert_eq!(disp_col(&chars("abc"), 9), 3);
}
