use tnote::install::{
    add_shell_binding, add_source_line, cleared_tmux_conf, detect_shell, old_bind_key,
    remove_shell_binding, remove_shell_block, remove_source_line, shell_binding, shell_rc,
    stale_bind_key, tmux_conf, tmux_run_shell, user_tmux_conf, SHELL_END_MARKER, SHELL_MARKER,
};

// ── shell_binding ─────────────────────────────────────────────────────────

#[test]
fn shell_binding_zsh() {
    let b = shell_binding("zsh", "t").unwrap();
    assert!(b.contains("bindkey"));
    assert!(b.contains("\\C-t"));
    assert!(b.contains("TMUX"));
    assert!(b.contains("_tnote_toggle"));
    assert!(b.contains("_tnote_precmd"));
    assert!(b.contains(SHELL_END_MARKER));
}

#[test]
fn shell_binding_bash() {
    let b = shell_binding("bash", "t").unwrap();
    assert!(b.contains("bind"));
    assert!(b.contains("\\C-t"));
    assert!(b.contains("TMUX"));
    assert!(b.contains("_tnote_toggle"));
    assert!(b.contains("_tnote_precmd"));
    assert!(b.contains(SHELL_END_MARKER));
}

#[test]
fn shell_binding_fish() {
    let b = shell_binding("fish", "t").unwrap();
    assert!(b.contains("bind \\ct"));
    assert!(b.contains("TMUX"));
    assert!(b.contains("_tnote_toggle"));
    assert!(b.contains("_tnote_precmd"));
    assert!(b.contains(SHELL_END_MARKER));
}

#[test]
fn shell_binding_unknown_returns_none() {
    assert!(shell_binding("powershell", "t").is_none());
}

#[test]
fn shell_binding_starts_and_ends_with_markers() {
    let b = shell_binding("zsh", "g").unwrap();
    assert!(b.starts_with(&format!("{}\n_tnote_toggle() {{\n", SHELL_MARKER)));
    assert!(b.ends_with(&format!("bindkey '\\C-g' _tnote_toggle; fi\n{}", SHELL_END_MARKER)));
    let f = shell_binding("fish", "g").unwrap();
    assert!(f.contains("if not set -q TMUX; bind \\cg '_tnote_toggle'; end\n"));
    let bash = shell_binding("bash", "g").unwrap();
    assert!(bash.contains("bind -x '\"\\C-g\":\"_tnote_toggle\"'; fi\n"));
}

// ── remove_shell_block ────────────────────────────────────────────────────

#[test]
fn remove_shell_block_removes_end_marked_block() {
    let content = format!(
        "before\n{}\n_tnote_toggle() {{}}\nbindkey stuff\n{}\nafter\n",
        SHELL_MARKER, SHELL_END_MARKER
    );
    let result = remove_shell_block(&content);
    assert_eq!(result, "before\nafter\n");
    assert!(!result.contains("_tnote_toggle"));
    assert!(!result.contains(SHELL_END_MARKER));
}

#[test]
fn remove_shell_block_removes_marker_and_next_line() {
    let content = format!(
        "alias ls='ls -la'\n{}\nbindkey -s '\\C-t' 'tnote\\n'\nexport FOO=1\n",
        SHELL_MARKER
    );
    let result = remove_shell_block(&content);
    assert_eq!(result, "alias ls='ls -la'\nexport FOO=1\n");
}

#[test]
fn remove_shell_block_noop_when_no_marker() {
    let content = "alias ls='ls -la'\nexport FOO=1\n";
    assert_eq!(remove_shell_block(content), content);
}

#[test]
fn remove_shell_block_handles_marker_at_end() {
    let content = format!("alias ls='ls -la'\n{}\nbindkey stuff\n", SHELL_MARKER);
    let result = remove_shell_block(&content);
    assert_eq!(result, "alias ls='ls -la'\n");
}

#[test]
fn remove_shell_block_empty_content() {
    assert_eq!(remove_shell_block(""), "");
}

#[test]
fn remove_shell_block_drops_trailing_newline_when_nothing_is_left() {
    let content = format!("{}\nbindkey stuff\n", SHELL_MARKER);
    assert_eq!(remove_shell_block(&content), "");
}

#[test]
fn remove_shell_block_keeps_missing_trailing_newline() {
    let content = format!("a\n{}\nx\n{}\nb", SHELL_MARKER, SHELL_END_MARKER);
    assert_eq!(remove_shell_block(&content), "a\nb");
}

// ── add_shell_binding / remove_shell_binding ──────────────────────────────

#[test]
fn add_shell_binding_creates_file() {
    let content = add_shell_binding(
        "",
        "# tnote keybinding — managed by 'tnote setup' / 'tnote uninstall'\nbindkey stuff",
    );
    assert!(content.contains(SHELL_MARKER));
    assert!(content.contains("bindkey stuff"));
    assert_eq!(content, format!("{}\nbindkey stuff\n", SHELL_MARKER));
}

#[test]
fn add_shell_binding_appends_to_existing() {
    let content = add_shell_binding(
        "export PATH=/usr/bin\n",
        "# tnote keybinding — managed by 'tnote setup' / 'tnote uninstall'\nbindkey stuff",
    );
    assert!(content.starts_with("export PATH=/usr/bin\n"));
    assert!(content.contains("bindkey stuff"));
}

#[test]
fn add_shell_binding_replaces_existing_block() {
    let old = format!("before\n{}\nold binding\nafter\n", SHELL_MARKER);
    let content = add_shell_binding(
        &old,
        "# tnote keybinding — managed by 'tnote setup' / 'tnote uninstall'\nnew binding",
    );
    assert!(!content.contains("old binding"));
    assert!(content.contains("new binding"));
    assert!(content.contains("before"));
    assert!(content.contains("after"));
}

#[test]
fn add_shell_binding_separates_from_unterminated_content() {
    assert_eq!(add_shell_binding("export A=1", "X"), "export A=1\nX\n");
}

#[test]
fn remove_shell_binding_removes_block() {
    let old = format!("before\n{}\nbindkey stuff\nafter\n", SHELL_MARKER);
    let content = remove_shell_binding(Some(&old)).unwrap();
    assert!(!content.contains(SHELL_MARKER));
    assert!(!content.contains("bindkey stuff"));
    assert!(content.contains("before"));
    assert!(content.contains("after"));
}

#[test]
fn remove_shell_binding_returns_false_when_no_block() {
    assert!(remove_shell_binding(Some("export FOO=1\n")).is_none());
}

#[test]
fn remove_shell_binding_returns_false_when_file_missing() {
    assert!(remove_shell_binding(None).is_none());
}

// ── add_source_line / remove_source_line ──────────────────────────────────

#[test]
fn add_source_line_creates_file_if_absent() {
    let content = add_source_line("", "/home/u/.tnote/meta/tmux.conf").unwrap();
    assert!(content.contains("source-file /home/u/.tnote/meta/tmux.conf"));
    assert_eq!(content, "source-file /home/u/.tnote/meta/tmux.conf\n");
}

#[test]
fn add_source_line_appends_to_existing_content() {
    let content = add_source_line("set -g mouse on\n", "/x/meta/tmux.conf").unwrap();
    assert!(content.starts_with("set -g mouse on\n"));
    assert!(content.contains("source-file /x/meta/tmux.conf"));
}

#[test]
fn add_source_line_is_idempotent() {
    let once = add_source_line("", "/x/meta/tmux.conf").unwrap();
    assert!(add_source_line(&once, "/x/meta/tmux.conf").is_none());
    let count = once
        .lines()
        .filter(|l| l.trim() == "source-file /x/meta/tmux.conf")
        .count();
    assert_eq!(count, 1);
}

#[test]
fn add_source_line_adds_newline_before_if_file_lacks_trailing_newline() {
    let content = add_source_line("set -g mouse on", "/x/meta/tmux.conf").unwrap();
    assert!(content.contains("\nsource-file /x/meta/tmux.conf"));
    assert_eq!(content, "set -g mouse on\nsource-file /x/meta/tmux.conf\n");
}

#[test]
fn test_add_source_line_idempotent() {
    let once = add_source_line("# existing config\n", "/d/tnote.conf").unwrap();
    assert!(add_source_line(&once, "/d/tnote.conf").is_none());
    assert_eq!(once.matches("source-file").count(), 1);
}

#[test]
fn remove_source_line_removes_the_line() {
    let content = remove_source_line(
        Some("set -g mouse on\nsource-file /x/meta/tmux.conf\n"),
        "/x/meta/tmux.conf",
    )
    .unwrap();
    assert!(!content.contains("source-file /x/meta/tmux.conf"));
    assert!(content.contains("set -g mouse on"));
}

#[test]
fn remove_source_line_noop_when_line_absent() {
    assert!(remove_source_line(Some("set -g mouse on\n"), "/x/meta/tmux.conf").is_none());
}

#[test]
fn remove_source_line_ok_when_file_does_not_exist() {
    assert!(remove_source_line(None, "/x/meta/tmux.conf").is_none());
}

#[test]
fn test_remove_source_line_missing_file_is_ok() {
    assert!(remove_source_line(None, "/d/tnote.conf").is_none());
}

#[test]
fn remove_source_line_preserves_trailing_newline() {
    let content = remove_source_line(
        Some("a\nsource-file /x/meta/tmux.conf\nb\n"),
        "/x/meta/tmux.conf",
    )
    .unwrap();
    assert!(content.ends_with('\n'));
    assert_eq!(content, "a\nb\n");
}

#[test]
fn test_remove_source_line_preserves_trailing_newline() {
    let content = remove_source_line(Some("source-file /d/tnote.conf\n"), "/d/tnote.conf").unwrap();
    assert!(content.ends_with('\n'));
    assert_eq!(content, "\n");
}

#[test]
fn remove_source_line_undoes_add_source_line() {
    let base = "set -g mouse on\nbind r source-file ~/.tmux.conf\n";
    let added = add_source_line(base, "/x/meta/tmux.conf").unwrap();
    assert_eq!(remove_source_line(Some(&added), "/x/meta/tmux.conf").unwrap(), base);
}

// ── shells and paths ──────────────────────────────────────────────────────

#[test]
fn detect_shell_returns_some() {
    assert_eq!(detect_shell(Some("/usr/bin/zsh")).as_deref(), Some("zsh"));
    assert_eq!(detect_shell(Some("fish")).as_deref(), Some("fish"));
    assert_eq!(detect_shell(None), None);
}

#[test]
fn shell_rc_zsh_returns_zshrc() {
    assert_eq!(shell_rc("zsh", Some("/home/u")).as_deref(), Some("/home/u/.zshrc"));
}

#[test]
fn shell_rc_bash_returns_bashrc() {
    assert_eq!(shell_rc("bash", Some("/home/u")).as_deref(), Some("/home/u/.bashrc"));
}

#[test]
fn shell_rc_unknown_returns_none() {
    assert_eq!(shell_rc("powershell", Some("/home/u")), None);
}

#[test]
fn shell_rc_fish_and_missing_home() {
    assert_eq!(
        shell_rc("fish", Some("/home/u")).as_deref(),
        Some("/home/u/.config/fish/config.fish")
    );
    assert_eq!(shell_rc("zsh", None), None);
    assert_eq!(user_tmux_conf(Some("/home/u/")).as_deref(), Some("/home/u/.tmux.conf"));
}

// ── tmux configuration ────────────────────────────────────────────────────

#[test]
fn tmux_run_shell_quotes_its_command() {
    assert_eq!(tmux_run_shell("/usr/bin/tnote"), "run-shell '/usr/bin/tnote'");
    assert_eq!(tmux_run_shell("it's"), "run-shell 'it'\\''s'");
}

#[test]
fn tmux_conf_binds_key_and_aliases() {
    let conf = tmux_conf("t", "/bin/tnote");
    assert!(conf.starts_with(
        "# tnote key bindings — managed by 'tnote setup' / 'tnote uninstall'\nunbind-key t\nbind-key t run-shell '/bin/tnote'\n"
    ));
    assert!(conf.contains("set -s command-alias[100] \"tnote=run-shell '/bin/tnote'\"\n"));
    assert!(conf.contains(
        "set -s command-alias[101] \"tnote-show=run-shell ''\\''/bin/tnote'\\'' show'\"\n"
    ));
    assert!(conf.ends_with(
        "set -s command-alias[107] \"tnote-ls=run-shell ''\\''/bin/tnote'\\'' ls'\"\n"
    ));
    assert_eq!(conf.lines().count(), 11);
}

#[test]
fn cleared_tmux_conf_unsets_everything() {
    let conf = cleared_tmux_conf("t");
    assert!(conf.starts_with("# tnote key bindings — cleared by 'tnote uninstall'\nunbind-key t\n"));
    assert!(conf.contains("set -su command-alias[108]\n"));
    assert_eq!(conf.lines().count(), 11);
}

#[test]
fn old_bind_key_reads_first_binding() {
    let conf = tmux_conf("g", "/bin/tnote");
    assert_eq!(old_bind_key(&conf).as_deref(), Some("g"));
    assert_eq!(old_bind_key("# nothing\n"), None);
    assert_eq!(old_bind_key("bind-key    x  y\nbind-key z\n").as_deref(), Some("x"));
    assert_eq!(stale_bind_key(Some(&conf), "t").as_deref(), Some("g"));
    assert_eq!(stale_bind_key(Some(&conf), "g"), None);
    assert_eq!(stale_bind_key(None, "g"), None);
}

#[test]
fn uninstall_undoes_setup_for_each_shell() {
    for shell in ["zsh", "bash", "fish"] {
        let block = shell_binding(shell, "t").unwrap();
        for content in ["", "export A=1\n", "export A=1\n# keep me\n\nalias x=y\n"] {
            let installed = add_shell_binding(content, &block);
            let removed = remove_shell_binding(Some(&installed)).unwrap();
            assert_eq!(removed, remove_shell_block(content));
        }
    }
}

#[test]
fn remove_after_setup_gives_back_rc_text() {
    for shell in ["zsh", "bash", "fish"] {
        let block = shell_binding(shell, "t").unwrap();
        for content in ["", "export A=1\n", "export A=1\n\nalias x=y\n"] {
            let installed = add_shell_binding(content, &block);
            assert_eq!(remove_shell_block(&installed), content);
        }
    }
}
