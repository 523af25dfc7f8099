use tnote::listing::{
    annotation_command, annotation_output, archive_items, archive_row, archive_width,
    line_count_annotation, list_layout,
};
use tnote::notes::{LinkEntry, NoteFile, Notes};
use tnote::render::render_note;
use tnote::tmux::window_label_map;
use tnote::upgrade::{cargo_install_detail, is_newer, latest_release_tag, parse_version};
use tnote::viewer::{viewer_key, viewer_screen, ViewerAction, CLEAR_SCREEN};

// ── render_note ──────────────────────────────────────────────────────────────

#[test]
fn render_note_marks_tasks_rules_and_headings() {
    let out = render_note("# Plan\n- [x] done\n- [ ] first\n- [ ]  second \n---\nplain\n");
    assert_eq!(
        out,
        "\x1b[1m# Plan\x1b[0m\n\
         \x1b[32m✔\x1b[0m done\n\
         \x1b[36m→\x1b[0m first\n\
         \x1b[2m  second\x1b[0m\n\
         \x1b[2m────────────────────\x1b[0m\n\
         plain\n"
    );
}

#[test]
fn render_note_capital_x_and_empty() {
    assert_eq!(render_note("- [X] big"), "\x1b[32m✔\x1b[0m big\n");
    assert_eq!(render_note(""), "");
    assert_eq!(render_note("#nospace\n"), "#nospace\n");
}

#[test]
fn viewer_keys_and_screen() {
    assert!(matches!(viewer_key(Some(b'q')), ViewerAction::Quit));
    assert!(matches!(viewer_key(Some(b'Q')), ViewerAction::Quit));
    assert!(matches!(viewer_key(Some(27)), ViewerAction::Quit));
    assert!(matches!(viewer_key(Some(b'E')), ViewerAction::Edit));
    assert!(matches!(viewer_key(Some(b'x')), ViewerAction::Redraw));
    assert!(matches!(viewer_key(None), ViewerAction::Redraw));
    let blank = viewer_screen("  \n");
    assert!(blank.starts_with(CLEAR_SCREEN));
    assert!(blank.contains("(empty — press e to start editing)"));
    assert!(blank.ends_with("\n\x1b[2m  e  edit   q  quit\x1b[0m\n"));
    let full = viewer_screen("- [ ] a\n");
    assert_eq!(full, format!("{}\x1b[36m→\x1b[0m a\n\n\x1b[2m  e  edit   q  quit\x1b[0m\n", CLEAR_SCREEN));
}

// ── list layout ──────────────────────────────────────────────────────────────

#[test]
fn list_layout_groups_aligns_and_marks() {
    let notes = Notes::new("/n".to_string());
    let files = vec![
        NoteFile { name: "named-backend.md".to_string(), content: "a\nb\n".to_string() },
        NoteFile { name: "shell-42.md".to_string(), content: "x\ny\n".to_string() },
        NoteFile { name: "tmux-$1+@3.md".to_string(), content: "t".to_string() },
    ];
    let links = vec![
        LinkEntry { file_name: "tmux-$1+@3.link".to_string(), content: Some("backend".to_string()) },
        LinkEntry { file_name: "shell-7.link".to_string(), content: Some("backend".to_string()) },
    ];
    let labels = window_label_map("$1 @3 work+0\n");
    let list = notes.list_notes(&files, &links, &labels);
    let annotations: Vec<String> = list.iter().map(|e| line_count_annotation(e.lines)).collect();
    let groups = list_layout(&list, "/n/shell-42.md", &annotations, &labels);
    let headers: Vec<&str> = groups.iter().map(|g| g.header.as_str()).collect();
    assert_eq!(headers, vec!["named:", "tmux (session+window):", "shell (pid):"]);
    let backend = &groups[0].rows[0];
    assert_eq!(backend.label, "backend");
    assert_eq!(backend.padding, 0);
    assert_eq!(backend.annotation, "2 lines");
    assert_eq!(backend.sources, vec!["tmux - work+0".to_string(), "shell - 7".to_string()]);
    assert!(!backend.current);
    let shell = &groups[2].rows[0];
    assert_eq!(shell.label, "42");
    assert_eq!(shell.padding, 5);
    assert!(shell.current);
    assert!(shell.sources.is_empty());
    let tmux = &groups[1].rows[0];
    assert_eq!(tmux.label, "work+0");
    assert_eq!(tmux.padding, 1);
    assert_eq!(tmux.annotation, "1 lines");
}

#[test]
fn annotations() {
    assert_eq!(annotation_command("head -1 {}", "/n/a.md"), "head -1 /n/a.md");
    assert_eq!(annotation_command("diff {} {}", "p"), "diff p p");
    assert_eq!(annotation_command("echo {", "p"), "echo {");
    assert_eq!(annotation_output(true, "first\n\n"), "first");
    assert_eq!(annotation_output(false, "first\n"), "");
    assert_eq!(line_count_annotation(0), "0 lines");
}

#[test]
fn archive_listing() {
    let files = vec![
        NoteFile { name: "named-zeta.md".to_string(), content: "1\n2\n".to_string() },
        NoteFile { name: "named-a.md".to_string(), content: "".to_string() },
        NoteFile { name: "notes.txt".to_string(), content: "x".to_string() },
    ];
    let items = archive_items(&files);
    assert_eq!(items.len(), 2);
    assert_eq!(items[0].name, "a");
    assert_eq!(items[1].name, "zeta");
    let w = archive_width(&items);
    assert_eq!(w, 4);
    assert_eq!(archive_row(&items[0], w), "  a     0 lines");
    assert_eq!(archive_row(&items[1], w), "  zeta  2 lines");
}

// ── upgrade ──────────────────────────────────────────────────────────────────

#[test]
fn upgrade_versions_and_tags() {
    assert_eq!(parse_version("v1.2.3"), Some((1, 2, 3)));
    assert_eq!(parse_version("0.3.8"), Some((0, 3, 8)));
    assert_eq!(parse_version("1.2.3.4"), Some((1, 2, 3)));
    assert_eq!(parse_version("1.2"), None);
    assert_eq!(parse_version("v1.x.3"), None);
    assert!(is_newer((0, 4, 0), (0, 3, 9)));
    assert!(!is_newer((0, 3, 9), (0, 3, 9)));
    assert!(!is_newer((0, 3, 1), (1, 0, 0)));
    assert_eq!(
        latest_release_tag("https://github.com/jykim16/tnote/releases/tag/v0.4.0\n").unwrap(),
        "v0.4.0"
    );
    assert_eq!(
        latest_release_tag("https://github.com/x/releases").unwrap_err(),
        "unexpected response resolving latest release: https://github.com/x/releases"
    );
    assert_eq!(
        cargo_install_detail("ripgrep v14.0.0:\n    rg\ntnote v0.3.8 (/src/tnote):\n    tnote\n").as_deref(),
        Some("v0.3.8 (/src/tnote)")
    );
    assert_eq!(cargo_install_detail("ripgrep v14.0.0:\n"), None);
}
