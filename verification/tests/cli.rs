use tnote::cli::{
    annotation_setting, bash_completions, clean_named_verb, clean_note_verb, clean_session_verb,
    editor_choice, editor_menu_line, fish_completions, glob_match, help_text, is_digits,
    is_tmux_window_id, migrated_message, name_step, named_message, no_bindings_message,
    no_match_message, normalize_bind_target, not_bound_message, not_found_message, prompt_answer,
    resolve_bind_target, show_header, show_target, status_message, unbound_message,
    zsh_completions, EditorChoice, NameStep, ShowTarget, CURRENT_TARGET_SENTINEL,
};

#[test]
fn glob_exact_match() {
    assert!(glob_match("foo", "foo"));
    assert!(!glob_match("foo", "bar"));
}

#[test]
fn glob_trailing_wildcard() {
    assert!(glob_match("proj-*", "proj-auth-login"));
    assert!(glob_match("proj-*", "proj-"));
    assert!(!glob_match("proj-*", "other-auth-login"));
}

#[test]
fn glob_leading_wildcard() {
    assert!(glob_match("*-login", "proj-auth-login"));
    assert!(!glob_match("*-login", "proj-auth-logout"));
}

#[test]
fn glob_mid_wildcard() {
    assert!(glob_match("proj-*-login", "proj-auth-login"));
    assert!(glob_match("proj-*-login", "proj-api-login"));
    assert!(!glob_match("proj-*-login", "proj-auth-logout"));
}

#[test]
fn glob_star_only() {
    assert!(glob_match("*", "anything"));
    assert!(glob_match("*", ""));
}

#[test]
fn glob_several_wildcards_and_suffix() {
    assert!(glob_match("a*b*c", "axxbyyc"));
    assert!(!glob_match("a*b*c", "axxbyy"));
    assert!(glob_match("a*", "a"));
    assert!(!glob_match("*ab", "a"));
}

#[test]
fn bind_digits_validation() {
    assert!(is_digits("4242"));
    assert!(!is_digits(""));
    assert!(!is_digits("42a"));
}

#[test]
fn bind_tmux_window_id_validation() {
    assert!(is_tmux_window_id("$255+@278"));
    assert!(!is_tmux_window_id("255+@278"));
    assert!(!is_tmux_window_id("$255+278"));
    assert!(!is_tmux_window_id("$abc+@278"));
}

#[test]
fn bind_target_normalization_accepts_supported_forms() {
    assert_eq!(normalize_bind_target("4242").unwrap(), "shell-4242");
    assert_eq!(normalize_bind_target("shell-4242").unwrap(), "shell-4242");
    assert_eq!(normalize_bind_target("$255+@278").unwrap(), "tmux-$255+@278");
    assert_eq!(normalize_bind_target("tmux-$255+@278").unwrap(), "tmux-$255+@278");
}

#[test]
fn bind_target_normalization_rejects_invalid_forms() {
    assert!(normalize_bind_target("not-a-key").is_err());
    assert!(normalize_bind_target("shell-notapid").is_err());
    assert!(normalize_bind_target("tmux-$255+278").is_err());
}

#[test]
fn bind_target_error_message_names_the_target() {
    assert_eq!(
        normalize_bind_target("bogus").unwrap_err(),
        "invalid bind target 'bogus'; expected shell-<pid>, <pid>, tmux-$SESSION+@WINDOW, or $SESSION+@WINDOW"
    );
}

#[test]
fn resolve_bind_target_uses_current_key_for_boolean_flag() {
    let expected = "shell-777";
    assert_eq!(resolve_bind_target(Some(CURRENT_TARGET_SENTINEL), expected).unwrap(), expected);
    assert_eq!(resolve_bind_target(None, expected).unwrap(), expected);
    assert_eq!(resolve_bind_target(Some("9"), expected).unwrap(), "shell-9");
}

// ── tnote name ─────────────────────────────────────────────────────────────

#[test]
fn name_step_without_name() {
    assert!(matches!(name_step(None, None, None, true, "tmux-$1+@2"), NameStep::Menu));
    assert!(matches!(name_step(None, None, None, false, "shell-1"), NameStep::MissingName));
}

#[test]
fn name_step_binds_current_or_given_target() {
    match name_step(Some("proj"), None, None, true, "tmux-$1+@2") {
        NameStep::Bind { name, key, rename_window } => {
            assert_eq!(name, "proj");
            assert_eq!(key, "tmux-$1+@2");
            assert!(rename_window);
        }
        _ => panic!("expected a binding"),
    }
    match name_step(Some("proj"), Some("$9+@17"), None, true, "tmux-$1+@2") {
        NameStep::Bind { key, rename_window, .. } => {
            assert_eq!(key, "tmux-$9+@17");
            assert!(!rename_window);
        }
        _ => panic!("expected a binding"),
    }
    match name_step(Some("proj"), Some(CURRENT_TARGET_SENTINEL), None, false, "shell-5") {
        NameStep::Bind { key, rename_window, .. } => {
            assert_eq!(key, "shell-5");
            assert!(!rename_window);
        }
        _ => panic!("expected a binding"),
    }
}

#[test]
fn name_step_unbinds() {
    assert!(matches!(
        name_step(Some("p"), None, Some(CURRENT_TARGET_SENTINEL), false, "shell-5"),
        NameStep::UnbindAll { .. }
    ));
    match name_step(Some("p"), None, Some("4242"), false, "shell-5") {
        NameStep::UnbindKey { name, key } => {
            assert_eq!(name, "p");
            assert_eq!(key, "shell-4242");
        }
        _ => panic!("expected an unbinding"),
    }
    match name_step(Some("p"), None, Some("junk"), false, "shell-5") {
        NameStep::Invalid { message } => assert!(message.starts_with("tnote name: invalid bind target 'junk'")),
        _ => panic!("expected an error"),
    }
}

#[test]
fn name_messages() {
    assert_eq!(unbound_message("shell-1", "p"), "tnote name: unbound shell-1 from 'p'");
    assert_eq!(no_bindings_message("p"), "tnote name: no windows bound to 'p'");
    assert_eq!(not_bound_message("shell-1", "p"), "tnote name: shell-1 is not bound to 'p'");
    assert_eq!(migrated_message("p"), "tnote name: migrated existing notes → p");
    assert_eq!(named_message("p"), "tnote name: window note named 'p'");
    assert_eq!(status_message("p"), "tnote: note named 'p'");
}

// ── show / clean ───────────────────────────────────────────────────────────

#[test]
fn show_target_chooses_glob_name_or_current() {
    assert!(matches!(show_target(Some("proj-*")), ShowTarget::Matching(g) if g == "proj-*"));
    assert!(matches!(show_target(Some("todo")), ShowTarget::Named(n) if n == "todo"));
    assert!(matches!(show_target(None), ShowTarget::Current));
}

#[test]
fn show_and_clean_messages() {
    assert_eq!(show_header("work", "/n/named-work.md"), "── work: /n/named-work.md ──");
    assert_eq!(no_match_message("x*"), "tnote show: no notes matching 'x*'");
    assert_eq!(not_found_message("tnote show", "ghost"), "tnote show: named note 'ghost' not found");
    assert_eq!(clean_named_verb(true, false, true), "would unarchive");
    assert_eq!(clean_named_verb(false, true, false), "archived");
    assert_eq!(clean_named_verb(false, false, false), "removed");
    assert_eq!(clean_note_verb(true), "would remove");
    assert_eq!(clean_session_verb(false), "killed");
}

// ── setup prompts ──────────────────────────────────────────────────────────

#[test]
fn prompts_and_editor_choice() {
    assert_eq!(prompt_answer("  \n", "vim"), "vim");
    assert_eq!(prompt_answer(" nano \n", "vim"), "nano");
    let available = vec!["nvim".to_string(), "vim".to_string()];
    assert!(matches!(editor_choice("\n", "vi", &available), EditorChoice::Pick(e) if e == "vi"));
    assert!(matches!(editor_choice("2\n", "vi", &available), EditorChoice::Pick(e) if e == "vim"));
    assert!(matches!(
        editor_choice("3", "vi", &available),
        EditorChoice::Retry(m) if m == "  please enter a number between 1 and 2"
    ));
    assert!(matches!(editor_choice("/opt/ed", "vi", &available), EditorChoice::Pick(e) if e == "/opt/ed"));
    assert_eq!(editor_menu_line(0, "nvim", "vim"), "    1. nvim");
    assert_eq!(editor_menu_line(1, "vim", "vim"), "    2. vim ◀");
    assert_eq!(annotation_setting(""), None);
    assert_eq!(annotation_setting("head -1 {}").as_deref(), Some("head -1 {}"));
}

// ── help and completions ───────────────────────────────────────────────────

#[test]
fn help_shows_usage() {
    let out = help_text();
    assert!(out.contains("USAGE"));
    assert!(out.contains("tnote clean"));
    assert!(out.contains("Use {} as the note file path placeholder."));
}

#[test]
fn completions_bash_include_dynamic_named_note_helper() {
    let out = bash_completions();
    assert!(out.contains("__complete-named-notes"));
    assert!(out.contains("complete -F _tnote tnote"));
}

#[test]
fn completions_zsh_include_dynamic_named_note_helper() {
    let out = zsh_completions();
    assert!(out.contains("__complete-named-notes"));
    assert!(out.contains("compdef _tnote tnote"));
}

#[test]
fn completions_fish_include_dynamic_named_note_helper() {
    let out = fish_completions();
    assert!(out.contains("__complete-named-notes"));
    assert!(out.contains("complete -c tnote"));
}
