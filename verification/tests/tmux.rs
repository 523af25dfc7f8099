use tnote::tmux::{
    cleanup_popup_sessions, is_popup_session, live_window_keys, name_menu_args,
    needs_window_label, new_name_prompt_command, open_popup_session, parse_version_str,
    popup_failure_message, protocol_mismatch, sessions_to_kill, shell_escape, window_display_label,
    window_key,
    window_label_map,
};

// ── shell_escape ──────────────────────────────────────────────────────────

#[test]
fn shell_escape_simple_string() {
    assert_eq!(shell_escape("hello"), "'hello'");
}

#[test]
fn shell_escape_empty_string() {
    assert_eq!(shell_escape(""), "''");
}

#[test]
fn shell_escape_single_quote() {
    // it's → 'it'\''s'
    assert_eq!(shell_escape("it's"), "'it'\\''s'");
}

#[test]
fn shell_escape_multiple_quotes() {
    assert_eq!(shell_escape("a'b'c"), "'a'\\''b'\\''c'");
}

#[test]
fn shell_escape_only_quote() {
    assert_eq!(shell_escape("'"), "''\\'''");
}

#[test]
fn shell_escape_special_chars_unchanged() {
    // Spaces, $, @, etc. are safe inside single quotes
    assert_eq!(shell_escape("foo bar $HOME"), "'foo bar $HOME'");
}

#[test]
fn test_shell_escape_simple_string() {
    assert_eq!(shell_escape("hello"), "'hello'");
}

#[test]
fn test_shell_escape_empty_string() {
    assert_eq!(shell_escape(""), "''");
}

#[test]
fn test_shell_escape_with_spaces() {
    assert_eq!(shell_escape("hello world"), "'hello world'");
}

#[test]
fn test_shell_escape_single_quote() {
    assert_eq!(shell_escape("it's"), "'it'\\''s'");
}

#[test]
fn test_shell_escape_multiple_single_quotes() {
    assert_eq!(shell_escape("a'b'c"), "'a'\\''b'\\''c'");
}

#[test]
fn test_shell_escape_special_chars() {
    assert_eq!(shell_escape("$VAR"), "'$VAR'");
    assert_eq!(shell_escape("~/path"), "'~/path'");
}

// ── parse_version_str ─────────────────────────────────────────────────────

#[test]
fn parse_version_simple() {
    assert_eq!(parse_version_str("3.2"), Some((3, 2)));
}

#[test]
fn parse_version_with_suffix() {
    // tmux sometimes releases versions like "3.2a"
    assert_eq!(parse_version_str("3.2a"), Some((3, 2)));
}

#[test]
fn parse_version_major_only_treated_as_minor_zero() {
    assert_eq!(parse_version_str("3"), Some((3, 0)));
}

#[test]
fn parse_version_old_version() {
    assert_eq!(parse_version_str("2.9"), Some((2, 9)));
}

#[test]
fn parse_version_trims_whitespace() {
    assert_eq!(parse_version_str("  3.3\n"), Some((3, 3)));
}

#[test]
fn parse_version_empty_string_returns_none() {
    assert_eq!(parse_version_str(""), None);
}

#[test]
fn parse_version_non_numeric_returns_none() {
    assert_eq!(parse_version_str("invalid"), None);
}

#[test]
fn parse_version_satisfies_popup_requirement() {
    // display-popup requires >= 3.2
    let requires = |(maj, min): (u32, u32)| maj > 3 || (maj == 3 && min >= 2);
    assert!(requires(parse_version_str("3.2").unwrap()));
    assert!(requires(parse_version_str("3.2a").unwrap()));
    assert!(requires(parse_version_str("3.3").unwrap()));
    assert!(requires(parse_version_str("4.0").unwrap()));
    assert!(!requires(parse_version_str("3.1").unwrap()));
    assert!(!requires(parse_version_str("2.9").unwrap()));
    assert!(!requires(parse_version_str("3.0").unwrap()));
}

#[test]
fn parse_version_unreadable_minor_is_zero() {
    assert_eq!(parse_version_str("next-3.4"), None);
    assert_eq!(parse_version_str("3.x"), Some((3, 0)));
}

// ── naming menu ───────────────────────────────────────────────────────────

#[test]
fn name_menu_args_include_new_name_entry() {
    let args = name_menu_args(&vec![]);
    assert_eq!(args[0], "display-menu");
    assert!(args.iter().any(|arg| arg == "New name..."));
    assert!(args.iter().any(|arg| arg.contains("command-prompt")));
}

#[test]
fn name_menu_args_include_existing_names() {
    let args = name_menu_args(&vec!["alpha".to_string(), "beta project".to_string()]);
    assert!(args.iter().any(|arg| arg == "alpha"));
    assert!(args.iter().any(|arg| arg == "beta project"));
    assert!(args.iter().any(|arg| arg.contains("run-shell")));
}

#[test]
fn name_menu_entry_runs_tnote_name_with_the_quoted_name() {
    let args = name_menu_args(&vec!["it's".to_string()]);
    assert_eq!(args.len(), 9);
    assert_eq!(args[5], new_name_prompt_command());
    assert_eq!(args[6], "it's");
    assert_eq!(args[7], "");
    assert_eq!(args[8], "run-shell 'tnote name '\\''it'\\''\\'\\'''\\''s'\\'''");
}

// ── reading tmux's answers ────────────────────────────────────────────────

#[test]
fn window_key_from_display_message() {
    assert_eq!(window_key("$1+@3\n").as_deref(), Some("tmux-$1+@3"));
    assert_eq!(window_key("  \n"), None);
    assert!(is_popup_session("tnote-popup-x\n"));
    assert!(!is_popup_session("work\n"));
}

#[test]
fn test_live_window_keys_empty_outside_tmux() {
    assert!(live_window_keys("").is_empty());
    assert_eq!(live_window_keys("$1+@3\n$2+@5\n"), vec!["tmux-$1+@3".to_string(), "tmux-$2+@5".to_string()]);
}

#[test]
fn test_window_label_map_returns_empty_outside_tmux() {
    assert!(window_label_map("").is_empty());
    let map = window_label_map("$1 @3 work+0\n$2 @5 play+1 \nbroken\n");
    assert_eq!(map.len(), 2);
    assert_eq!(map[0].key, "tmux-$1+@3");
    assert_eq!(map[0].label, "work+0");
    assert_eq!(map[1].label, "play+1");
}

#[test]
fn test_window_display_label_returns_none_outside_tmux() {
    let empty = window_label_map("");
    assert!(window_display_label(&empty, "tmux-$1+@3").is_none());
    let map = window_label_map("$1 @3 work+0\n$1 @3 renamed+0\n");
    assert_eq!(window_display_label(&map, "tmux-$1+@3").as_deref(), Some("renamed+0"));
}

// ── the popup ─────────────────────────────────────────────────────────────

#[test]
fn open_popup_session_builds_display_popup() {
    let cmd = open_popup_session("tmux-$1+@3", "tmux-$1+@3", Some("work+0"), "vim", "100%", "50%");
    assert_eq!(cmd.session, "tnote-popup-tmux-_1__3");
    assert_eq!(cmd.args[0], "display-popup");
    assert_eq!(&cmd.args[1..5], &["-x", "R", "-y", "T"]);
    assert_eq!(cmd.args[6], "100%");
    assert_eq!(cmd.args[8], "50%");
    assert_eq!(cmd.args[12], " tmux tnote - work+0 ");
    assert_eq!(
        cmd.args[14],
        "tmux attach-session -t 'tnote-popup-tmux-_1__3' 2>/dev/null || tmux new-session -s 'tnote-popup-tmux-_1__3' -e TNOTE_WINDOW_KEY='tmux-$1+@3' -e EDITOR='vim' tnote popup"
    );
    assert!(needs_window_label("tmux-$1+@3"));
}

#[test]
fn popup_titles_by_note_kind() {
    let named = open_popup_session("named-work", "shell-1", None, "vim", "80", "22");
    assert_eq!(named.args[12], " named tnote - work ");
    let shell = open_popup_session("shell-42", "shell-42", None, "vim", "80", "22");
    assert_eq!(shell.args[12], " shell tnote - 42 ");
    let tmux = open_popup_session("tmux-$1+@3", "tmux-$1+@3", None, "vim", "80", "22");
    assert_eq!(tmux.args[12], " tmux tnote - $1+@3 ");
    let other = open_popup_session("misc", "shell-1", None, "vim", "80", "22");
    assert_eq!(other.args[12], " tnote - misc ");
    assert!(!needs_window_label("named-work"));
}

#[test]
fn popup_failure_messages() {
    assert!(protocol_mismatch("open terminal failed: protocol version mismatch (client 8, server 7)"));
    assert!(!protocol_mismatch("no server running"));
    assert!(popup_failure_message(true, None).starts_with("tmux popup: protocol version mismatch"));
    assert_eq!(
        popup_failure_message(false, Some((3, 1))),
        "tmux popup: display-popup requires tmux 3.2+ (server is 3.1); please upgrade tmux"
    );
    assert_eq!(popup_failure_message(false, Some((3, 4))), "tmux popup: display-popup failed");
    assert_eq!(popup_failure_message(false, None), "tmux popup: display-popup failed");
}

#[test]
fn cleanup_popup_sessions_kills_detached_orphans() {
    let files = vec!["tmux-$1+@3.md".to_string(), "named-a+b.md".to_string(), "notes.txt".to_string()];
    let sessions = "tnote-popup-tmux-_1__3:0\ntnote-popup-tmux-$1_@3:0\ntnote-popup-named-a_b:0\ntnote-popup-orphan:0\ntnote-popup-busy:1\nwork:0\nbad line\n";
    let killed = cleanup_popup_sessions(&files, sessions);
    assert_eq!(killed, vec!["tnote-popup-tmux-$1_@3".to_string(), "tnote-popup-orphan".to_string()]);
}

#[test]
fn current_window_key_is_among_live_keys() {
    let listing = "$1+@3\n$2+@5\n";
    let key = window_key("$2+@5\n").unwrap();
    assert!(live_window_keys(listing).contains(&key));
}

#[test]
fn opened_popup_session_survives_sweep_while_note_exists() {
    let cmd = open_popup_session("named-api+v2", "tmux-$1+@3", None, "vim", "62", "22");
    assert_eq!(cmd.session, "tnote-popup-named-api_v2");
    let listing = format!("{}:0\n", cmd.session);
    assert!(cleanup_popup_sessions(&vec!["named-api+v2.md".to_string()], &listing).is_empty());
    assert_eq!(cleanup_popup_sessions(&vec![], &listing), vec![cmd.session.clone()]);
}

#[test]
fn tmux_note_popup_session_survives_sweep() {
    let cmd = open_popup_session("tmux-$1+@3", "tmux-$1+@3", Some("work+0"), "vim", "62", "22");
    assert_eq!(cmd.session, "tnote-popup-tmux-_1__3");
    let listing = format!("{}:0\n", cmd.session);
    assert!(cleanup_popup_sessions(&vec!["tmux-$1+@3.md".to_string()], &listing).is_empty());
    assert_eq!(cleanup_popup_sessions(&vec![], &listing), vec![cmd.session.clone()]);
}

#[test]
fn shell_escape_length_counts_quotes() {
    let s = "it's a 'test'";
    let e = shell_escape(s);
    assert_eq!(e.chars().count(), s.chars().count() + 2 + 3 * 3);
    assert_eq!(e, "'it'\\''s a '\\''test'\\'''");
}

#[test]
fn sweep_kills_nothing_on_dry_run() {
    let files = vec!["tmux-$1+@3.md".to_string()];
    let stale = cleanup_popup_sessions(&files, "tnote-popup-tmux-_1__3:0\ntnote-popup-gone:0\n");
    assert_eq!(stale, vec!["tnote-popup-gone".to_string()]);
    assert!(sessions_to_kill(&stale, true).is_empty());
    assert_eq!(sessions_to_kill(&stale, false), stale);
}
