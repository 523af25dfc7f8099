use tnote::editor::{
    background_lines, blank_row, cell_position, cell_style, cell_text, cursor_at, key_to_bytes,
    make_rect, on_input, popup_title, resolve_dim, vt100_color, EditorAction, InputEvent,
    KeyCodeIn, KeyInput, TermColor, UiColor,
};

fn key(code: KeyCodeIn) -> KeyInput {
    KeyInput { code, ctrl: false, alt: false }
}

fn ctrl(c: char) -> KeyInput {
    KeyInput { code: KeyCodeIn::Char(c), ctrl: true, alt: false }
}

fn alt(code: KeyCodeIn) -> KeyInput {
    KeyInput { code, ctrl: false, alt: true }
}

// ── key_to_bytes ─────────────────────────────────────────────────────────────

#[test]
fn test_char_keys() {
    assert_eq!(key_to_bytes(key(KeyCodeIn::Char('a'))), b"a");
    assert_eq!(key_to_bytes(key(KeyCodeIn::Char('Z'))), b"Z");
    assert_eq!(key_to_bytes(key(KeyCodeIn::Char('5'))), b"5");
}

#[test]
fn test_unicode_char() {
    let bytes = key_to_bytes(key(KeyCodeIn::Char('é')));
    assert_eq!(bytes, "é".as_bytes());
    assert_eq!(key_to_bytes(key(KeyCodeIn::Char('→'))), "→".as_bytes());
    assert_eq!(key_to_bytes(key(KeyCodeIn::Char('🦀'))), "🦀".as_bytes());
}

#[test]
fn test_ctrl_chars() {
    assert_eq!(key_to_bytes(ctrl('a')), vec![1]);
    assert_eq!(key_to_bytes(ctrl('c')), vec![3]);
    assert_eq!(key_to_bytes(ctrl('z')), vec![26]);
    assert_eq!(key_to_bytes(ctrl('Z')), vec![26]);
}

#[test]
fn test_ctrl_space() {
    assert_eq!(key_to_bytes(ctrl(' ')), vec![0]);
}

#[test]
fn test_ctrl_non_alpha_is_empty() {
    assert_eq!(key_to_bytes(ctrl('1')), Vec::<u8>::new());
}

#[test]
fn test_enter() {
    assert_eq!(key_to_bytes(key(KeyCodeIn::Enter)), vec![b'\r']);
}

#[test]
fn test_backspace() {
    assert_eq!(key_to_bytes(key(KeyCodeIn::Backspace)), vec![0x7f]);
}

#[test]
fn test_delete() {
    assert_eq!(key_to_bytes(key(KeyCodeIn::Delete)), vec![0x1b, b'[', b'3', b'~']);
}

#[test]
fn test_escape() {
    assert_eq!(key_to_bytes(key(KeyCodeIn::Esc)), vec![0x1b]);
}

#[test]
fn test_tab() {
    assert_eq!(key_to_bytes(key(KeyCodeIn::Tab)), vec![b'\t']);
}

#[test]
fn test_back_tab() {
    assert_eq!(key_to_bytes(key(KeyCodeIn::BackTab)), vec![0x1b, b'[', b'Z']);
}

#[test]
fn test_arrow_keys() {
    assert_eq!(key_to_bytes(key(KeyCodeIn::Up)), vec![0x1b, b'[', b'A']);
    assert_eq!(key_to_bytes(key(KeyCodeIn::Down)), vec![0x1b, b'[', b'B']);
    assert_eq!(key_to_bytes(key(KeyCodeIn::Right)), vec![0x1b, b'[', b'C']);
    assert_eq!(key_to_bytes(key(KeyCodeIn::Left)), vec![0x1b, b'[', b'D']);
}

#[test]
fn test_home_end() {
    assert_eq!(key_to_bytes(key(KeyCodeIn::Home)), vec![0x1b, b'[', b'H']);
    assert_eq!(key_to_bytes(key(KeyCodeIn::End)), vec![0x1b, b'[', b'F']);
}

#[test]
fn test_page_keys() {
    assert_eq!(key_to_bytes(key(KeyCodeIn::PageUp)), vec![0x1b, b'[', b'5', b'~']);
    assert_eq!(key_to_bytes(key(KeyCodeIn::PageDown)), vec![0x1b, b'[', b'6', b'~']);
}

#[test]
fn test_function_keys() {
    assert_eq!(key_to_bytes(key(KeyCodeIn::F(1))), vec![0x1b, b'O', b'P']);
    assert_eq!(key_to_bytes(key(KeyCodeIn::F(2))), vec![0x1b, b'O', b'Q']);
    assert_eq!(key_to_bytes(key(KeyCodeIn::F(3))), vec![0x1b, b'O', b'R']);
    assert_eq!(key_to_bytes(key(KeyCodeIn::F(4))), vec![0x1b, b'O', b'S']);
    assert_eq!(key_to_bytes(key(KeyCodeIn::F(5))), vec![0x1b, b'[', b'1', b'5', b'~']);
    assert_eq!(key_to_bytes(key(KeyCodeIn::F(6))), vec![0x1b, b'[', b'1', b'7', b'~']);
    assert_eq!(key_to_bytes(key(KeyCodeIn::F(7))), vec![0x1b, b'[', b'1', b'8', b'~']);
    assert_eq!(key_to_bytes(key(KeyCodeIn::F(8))), vec![0x1b, b'[', b'1', b'9', b'~']);
    assert_eq!(key_to_bytes(key(KeyCodeIn::F(9))), vec![0x1b, b'[', b'2', b'0', b'~']);
    assert_eq!(key_to_bytes(key(KeyCodeIn::F(10))), vec![0x1b, b'[', b'2', b'1', b'~']);
    assert_eq!(key_to_bytes(key(KeyCodeIn::F(11))), vec![0x1b, b'[', b'2', b'3', b'~']);
    assert_eq!(key_to_bytes(key(KeyCodeIn::F(12))), vec![0x1b, b'[', b'2', b'4', b'~']);
}

#[test]
fn test_alt_prepends_escape() {
    let bytes = key_to_bytes(alt(KeyCodeIn::Char('b')));
    assert_eq!(bytes[0], 0x1b);
    assert_eq!(&bytes[1..], b"b");
}

#[test]
fn test_alt_esc_no_double_escape() {
    let bytes = key_to_bytes(alt(KeyCodeIn::Esc));
    assert_eq!(bytes, vec![0x1b]);
}

#[test]
fn test_unknown_key_empty() {
    assert_eq!(key_to_bytes(key(KeyCodeIn::F(20))), Vec::<u8>::new());
    assert_eq!(key_to_bytes(alt(KeyCodeIn::Other)), Vec::<u8>::new());
}

// ── vt100_color / styles ─────────────────────────────────────────────────────

#[test]
fn test_vt100_color_default() {
    assert_eq!(vt100_color(TermColor::Default), UiColor::Reset);
}

#[test]
fn test_vt100_color_indexed() {
    assert_eq!(vt100_color(TermColor::Idx(42)), UiColor::Indexed(42));
}

#[test]
fn test_vt100_color_rgb() {
    assert_eq!(vt100_color(TermColor::Rgb(10, 20, 30)), UiColor::Rgb(10, 20, 30));
}

#[test]
fn cell_style_maps_colours_and_attributes() {
    let s = cell_style(TermColor::Idx(1), TermColor::Default, true, false, true, true);
    assert_eq!(s.fg, UiColor::Indexed(1));
    assert_eq!(s.bg, UiColor::Reset);
    assert!(s.bold && !s.italic && s.underlined && s.reversed);
    assert_eq!(cell_text(""), " ");
    assert_eq!(cell_text("x"), "x");
}

// ── geometry ─────────────────────────────────────────────────────────────────

#[test]
fn resolve_dim_percentages_and_columns() {
    assert_eq!(resolve_dim("75%", 200), 150);
    assert_eq!(resolve_dim(" 50 %", 81), 40);
    assert_eq!(resolve_dim("250%", 80), 80);
    assert_eq!(resolve_dim("x%", 80), 80);
    assert_eq!(resolve_dim("60", 80), 60);
    assert_eq!(resolve_dim(" 100 ", 80), 80);
    assert_eq!(resolve_dim("wide", 80), 80);
    assert_eq!(resolve_dim("100%", 65535), 65535);
}

#[test]
fn make_rect_anchors_top_right() {
    let g = make_rect("50%", "10", 120, 40);
    assert_eq!((g.rect.x, g.rect.y, g.rect.width, g.rect.height), (60, 0, 60, 10));
    assert_eq!((g.inner_w, g.inner_h), (58, 8));
    let tiny = make_rect("1", "1", 10, 10);
    assert_eq!((tiny.inner_w, tiny.inner_h), (0, 0));
    assert_eq!(tiny.rect.x, 9);
}

#[test]
fn cells_and_cursor_sit_inside_the_border() {
    let g = make_rect("20", "10", 100, 30);
    assert_eq!(cell_position(g, 0, 0), (81, 1));
    assert_eq!(cursor_at(g, false, 2, 3), Some((84, 3)));
    assert_eq!(cursor_at(g, true, 2, 3), None);
    assert_eq!(cursor_at(g, false, 8, 0), None);
    assert_eq!(cursor_at(g, false, 0, 18), None);
}

#[test]
fn drawing_helpers() {
    assert_eq!(popup_title("work"), " tnote: work ");
    assert_eq!(blank_row(3), "   ");
    assert_eq!(background_lines("a\nb\n"), vec!["a".to_string(), "b".to_string()]);
    assert_eq!(background_lines("a\n\nb"), vec!["a".to_string(), "".to_string(), "b".to_string()]);
    assert!(background_lines("").is_empty());
}

#[test]
fn input_events_become_actions() {
    match on_input(InputEvent::Key(key(KeyCodeIn::Char('q'))), "50%", "50%") {
        EditorAction::Send(b) => assert_eq!(b, b"q"),
        _ => panic!("expected bytes"),
    }
    assert!(matches!(on_input(InputEvent::Key(key(KeyCodeIn::Other)), "50%", "50%"), EditorAction::Nothing));
    match on_input(InputEvent::Resize(Some((100, 40))), "50%", "50%") {
        EditorAction::Relayout(g) => assert_eq!(g, make_rect("50%", "50%", 100, 40)),
        _ => panic!("expected a relayout"),
    }
    assert!(matches!(on_input(InputEvent::Resize(None), "50%", "50%"), EditorAction::Nothing));
    assert!(matches!(on_input(InputEvent::Other, "50%", "50%"), EditorAction::Nothing));
}
