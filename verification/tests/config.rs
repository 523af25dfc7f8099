use tnote::config::{
    dir_migration, legacy_dirs, ls_annotation, notes_dir, parse_str, parse_u16, read_config_file,
    Config, ConfigEnv, DirMigration,
};

fn no_env() -> ConfigEnv {
    ConfigEnv { width: None, height: None, key: None, editor: None, ls_annotation: None }
}

// ── read_config_file ──────────────────────────────────────────────────────

#[test]
fn read_config_file_returns_empty_for_missing_file() {
    let map = read_config_file(None);
    assert!(map.is_empty());
}

#[test]
fn test_read_config_file_missing_returns_empty() {
    let map = read_config_file(None);
    assert!(map.is_empty());
    assert_eq!(map.len(), 0);
}

#[test]
fn read_config_file_parses_key_value_pairs() {
    let map = read_config_file(Some("editor=nvim\nwidth=80\n"));
    assert_eq!(map.get("editor").as_deref(), Some("nvim"));
    assert_eq!(map.get("width").as_deref(), Some("80"));
}

#[test]
fn test_read_config_file_parses_key_value() {
    let map = read_config_file(Some("editor=nvim\nkey=t\nwidth=80\n"));
    assert_eq!(map.get("editor").as_deref(), Some("nvim"));
    assert_eq!(map.get("key").as_deref(), Some("t"));
    assert_eq!(map.get("width").as_deref(), Some("80"));
}

#[test]
fn read_config_file_trims_whitespace() {
    let map = read_config_file(Some("  key  =  t  \n"));
    assert_eq!(map.get("key").as_deref(), Some("t"));
}

#[test]
fn test_read_config_file_trims_whitespace() {
    let map = read_config_file(Some(" editor = nvim \n"));
    assert_eq!(map.get("editor").as_deref(), Some("nvim"));
}

#[test]
fn read_config_file_ignores_lines_without_equals() {
    let map = read_config_file(Some("# comment\neditor=vim\n"));
    assert!(!map.contains_key("# comment"));
    assert_eq!(map.get("editor").as_deref(), Some("vim"));
}

#[test]
fn test_read_config_file_ignores_invalid_lines() {
    let map = read_config_file(Some("not_a_key_value\neditor=vim\n"));
    assert_eq!(map.len(), 1);
    assert_eq!(map.get("editor").as_deref(), Some("vim"));
}

#[test]
fn read_config_file_later_line_wins_and_splits_at_first_equals() {
    let map = read_config_file(Some("editor=vim\r\nls_annotation=grep -c x= {}\neditor=hx\n"));
    assert_eq!(map.len(), 2);
    assert_eq!(map.get("editor").as_deref(), Some("hx"));
    assert_eq!(map.get("ls_annotation").as_deref(), Some("grep -c x= {}"));
}

// ── parse_u16 / parse_str ─────────────────────────────────────────────────

#[test]
fn parse_u16_uses_file_val_when_env_absent() {
    assert_eq!(parse_u16(None, Some("42"), 0), 42);
}

#[test]
fn parse_u16_uses_default_when_both_absent() {
    assert_eq!(parse_u16(None, None, 99), 99);
}

#[test]
fn parse_u16_falls_back_to_default_on_invalid_file_val() {
    assert_eq!(parse_u16(None, Some("bad"), 7), 7);
}

#[test]
fn parse_u16_falls_back_to_default_on_overflow_file_val() {
    assert_eq!(parse_u16(None, Some("99999"), 7), 7);
}

#[test]
fn parse_u16_prefers_a_readable_environment_value() {
    assert_eq!(parse_u16(Some("12"), Some("42"), 7), 12);
    assert_eq!(parse_u16(Some("x"), Some("42"), 7), 42);
}

#[test]
fn parse_str_uses_file_val_when_env_absent() {
    assert_eq!(parse_str(None, Some("nvim"), "vim"), "nvim");
}

#[test]
fn parse_str_uses_default_when_both_absent() {
    assert_eq!(parse_str(None, None, "vim"), "vim");
}

#[test]
fn test_parse_str_env_takes_precedence() {
    assert_eq!(parse_str(Some("helix"), Some("vim"), "nano"), "helix");
}

#[test]
fn test_parse_str_file_fallback() {
    assert_eq!(parse_str(None, Some("micro"), "nano"), "micro");
}

#[test]
fn test_parse_str_default() {
    assert_eq!(parse_str(None, None, "fallback"), "fallback");
}

// ── saving and loading ────────────────────────────────────────────────────

fn config(editor: &str, key: &str, width: &str, height: &str) -> Config {
    Config {
        dir: "/tmp/n".to_string(),
        editor: editor.to_string(),
        key: key.to_string(),
        width: width.to_string(),
        height: height.to_string(),
    }
}

#[test]
fn config_save_writes_all_fields() {
    let content = config("nano", "n", "100", "30").save_text(None);
    assert!(content.contains("editor=nano"));
    assert!(content.contains("key=n"));
    assert!(content.contains("width=100"));
    assert!(content.contains("height=30"));
}

#[test]
fn test_save_writes_correct_format() {
    let content = config("nvim", "n", "100", "30").save_text(None);
    assert_eq!(content, "editor=nvim\nkey=n\nwidth=100\nheight=30\n");
    let with = config("nvim", "n", "100", "30").save_text(Some("head -1 {}"));
    assert_eq!(with, "editor=nvim\nkey=n\nwidth=100\nheight=30\nls_annotation=head -1 {}\n");
}

#[test]
fn config_save_round_trips_via_read_config_file() {
    let cfg = config("hx", "g", "70", "25");
    let map = read_config_file(Some(&cfg.save_text(None)));
    assert_eq!(map.get("editor").as_deref(), Some("hx"));
    assert_eq!(map.get("key").as_deref(), Some("g"));
    assert_eq!(map.get("width").as_deref(), Some("70"));
    assert_eq!(map.get("height").as_deref(), Some("25"));
}

#[test]
fn test_save_round_trip() {
    let cfg = config("nano", "u", "50", "15");
    let file = read_config_file(Some(&cfg.save_text(None)));
    let loaded = Config::from_env("/tmp/n".to_string(), &no_env(), &file);
    assert_eq!(loaded.editor, "nano");
    assert_eq!(loaded.key, "u");
    assert_eq!(loaded.width, "50");
    assert_eq!(loaded.height, "15");
    assert_eq!(cfg.config_path(), "/tmp/n/meta/config");
}

#[test]
fn test_from_env_defaults_when_no_config_file() {
    let cfg = Config::from_env("/tmp/n".to_string(), &no_env(), &read_config_file(None));
    assert_eq!(cfg.width, "100%");
    assert_eq!(cfg.height, "50%");
    assert_eq!(cfg.key, "t");
    assert_eq!(cfg.editor, "vim");
    assert_eq!(cfg.dir, "/tmp/n");
}

#[test]
fn from_env_environment_overrides_file() {
    let file = read_config_file(Some("editor=nano\nwidth=80\nls_annotation=wc -l {}\n"));
    let env = ConfigEnv { width: Some("75%".to_string()), editor: None, ..no_env() };
    let cfg = Config::from_env("/d".to_string(), &env, &file);
    assert_eq!(cfg.width, "75%");
    assert_eq!(cfg.editor, "nano");
    assert_eq!(ls_annotation(&env, &file).as_deref(), Some("wc -l {}"));
    let env = ConfigEnv { ls_annotation: Some("head -1 {}".to_string()), ..no_env() };
    assert_eq!(ls_annotation(&env, &file).as_deref(), Some("head -1 {}"));
}

// ── the notes directory ───────────────────────────────────────────────────

#[test]
fn test_from_env_migration_tnotes_to_tnote() {
    assert!(matches!(dir_migration(false, true, false), DirMigration::FromTnotes));
    assert!(matches!(dir_migration(false, true, true), DirMigration::FromTnotes));
    assert_eq!(notes_dir(None, Some("/home/u")), "/home/u/.tnote");
    assert_eq!(legacy_dirs(Some("/home/u")).0, "/home/u/.tnotes");
}

#[test]
fn test_from_env_migration_termnotes_to_tnote() {
    assert!(matches!(dir_migration(false, false, true), DirMigration::FromTermnotes));
    assert_eq!(legacy_dirs(Some("/home/u")).1, "/home/u/.termnotes");
}

#[test]
fn test_from_env_no_migration_when_tnote_exists() {
    assert!(matches!(dir_migration(true, true, true), DirMigration::Keep));
    assert!(matches!(dir_migration(false, false, false), DirMigration::Keep));
}

#[test]
fn notes_dir_prefers_tnote_dir() {
    assert_eq!(notes_dir(Some("/x/y"), Some("/home/u")), "/x/y");
    assert_eq!(notes_dir(None, None), "./.tnote");
}
