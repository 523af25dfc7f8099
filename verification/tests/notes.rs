use tnote::notes::{
    shell_pid, shell_session_key, ClearScope, LinkEntry, NoteFile, Notes, Orphan,
};
use tnote::tmux::window_label_map;

fn notes() -> Notes {
    Notes::new("/tmp/notes".to_string())
}

fn link(file: &str, content: &str) -> LinkEntry {
    LinkEntry { file_name: file.to_string(), content: Some(content.to_string()) }
}

fn file(name: &str, content: &str) -> NoteFile {
    NoteFile { name: name.to_string(), content: content.to_string() }
}

fn names(v: &[&str]) -> Vec<String> {
    v.iter().map(|s| s.to_string()).collect()
}

fn stems(v: &[Orphan]) -> Vec<String> {
    v.iter().map(|o| o.stem.clone()).collect()
}

// ── paths ─────────────────────────────────────────────────────────────────

#[test]
fn meta_dir_and_files() {
    let n = notes();
    assert_eq!(n.meta_dir(), "/tmp/notes/meta");
    assert_eq!(n.key_file("shell-1"), "/tmp/notes/shell-1.md");
    assert_eq!(n.named_file("work"), "/tmp/notes/named-work.md");
    assert_eq!(n.link_file("tmux-$1+@3"), "/tmp/notes/meta/tmux-$1+@3.link");
    assert_eq!(n.pid_file("tmux-$1+@3"), "/tmp/notes/meta/tmux-$1+@3.pid");
    assert_eq!(Notes::new("/tmp/notes/".to_string()).meta_dir(), "/tmp/notes/meta");
    assert_eq!(n.archived_file("work"), "/tmp/notes/archive/named-work.md");
}

#[test]
fn file_for_key_no_link_returns_key_md() {
    assert_eq!(notes().file_for_key("tmux-$1+@3", None), "/tmp/notes/tmux-$1+@3.md");
}

#[test]
fn test_file_for_key_no_link() {
    let n = notes();
    assert_eq!(n.file_for_key("tmux-$1+@3", None), n.key_file("tmux-$1+@3"));
}

#[test]
fn file_for_key_follows_link_file() {
    assert_eq!(notes().file_for_key("tmux-$1+@3", Some("myproject")), "/tmp/notes/named-myproject.md");
}

#[test]
fn test_file_for_key_follows_link() {
    let n = notes();
    assert_eq!(n.file_for_key("tmux-$1+@3", Some("myproject")), n.named_file("myproject"));
}

#[test]
fn file_for_key_link_trims_whitespace() {
    assert_eq!(notes().file_for_key("tmux-$1+@3", Some("  myproject\n")), "/tmp/notes/named-myproject.md");
}

// ── labels ────────────────────────────────────────────────────────────────

#[test]
fn label_for_key_no_link_returns_key() {
    assert_eq!(notes().label_for_key("shell-1234", None, &vec![]), "shell-1234");
}

#[test]
fn test_label_for_key_no_link_returns_key() {
    assert_eq!(notes().label_for_key("shell-12345", None, &vec![]), "shell-12345");
}

#[test]
fn label_for_key_with_link_returns_name() {
    assert_eq!(notes().label_for_key("tmux-$1+@3", Some("api-server"), &vec![]), "api-server");
}

#[test]
fn test_label_for_key_with_link_returns_name() {
    assert_eq!(notes().label_for_key("tmux-$1+@3", Some("api-server\n"), &vec![]), "api-server");
}

#[test]
fn label_for_key_uses_tmux_window_label() {
    let labels = window_label_map("$1 @3 work+0\n");
    assert_eq!(notes().label_for_key("tmux-$1+@3", None, &labels), "work+0");
    assert_eq!(notes().label_for_key("tmux-$9+@9", None, &labels), "tmux-$9+@9");
}

// ── name_window ───────────────────────────────────────────────────────────

#[test]
fn name_window_creates_link_no_content() {
    let plan = notes().name_window("tmux-$1+@3", "work", false, false);
    assert!(!plan.migrate);
    assert!(plan.create_empty);
    assert_eq!(plan.link_file, "/tmp/notes/meta/tmux-$1+@3.link");
    assert_eq!(plan.link_content, "work");
}

#[test]
fn test_name_window_creates_link() {
    let plan = notes().name_window("tmux-$1+@3", "backend", false, false);
    assert!(!plan.migrate);
    assert_eq!(plan.link_content.trim(), "backend");
}

#[test]
fn name_window_migrates_non_empty_unnamed_note() {
    let plan = notes().name_window("tmux-$1+@3", "work", true, false);
    assert!(plan.migrate);
    assert!(!plan.create_empty);
    assert_eq!(plan.old_file, "/tmp/notes/tmux-$1+@3.md");
    assert_eq!(plan.new_file, "/tmp/notes/named-work.md");
}

#[test]
fn test_name_window_migrates_existing_content() {
    let plan = notes().name_window("tmux-$1+@3", "backend", true, false);
    assert!(plan.migrate);
    assert_eq!(plan.new_file, "/tmp/notes/named-backend.md");
}

#[test]
fn name_window_skips_migration_if_named_file_already_exists() {
    let plan = notes().name_window("tmux-$1+@3", "work", true, true);
    assert!(!plan.migrate);
    assert!(!plan.create_empty);
}

#[test]
fn test_name_window_no_migrate_when_target_exists() {
    let plan = notes().name_window("tmux-$1+@3", "backend", true, true);
    assert!(!plan.migrate);
}

#[test]
fn name_window_skips_migration_for_empty_unnamed_note() {
    let plan = notes().name_window("tmux-$1+@3", "work", false, false);
    assert!(!plan.migrate);
}

#[test]
fn test_name_window_no_migrate_when_note_empty() {
    let plan = notes().name_window("tmux-$1+@3", "backend", false, false);
    assert!(!plan.migrate);
    assert!(plan.create_empty);
}

// ── remove_named / unbinding ──────────────────────────────────────────────

#[test]
fn remove_named_returns_false_when_not_found() {
    let plan = notes().remove_named("ghost", false, &vec![], false);
    assert!(!plan.found);
    assert!(!plan.remove_note);
}

#[test]
fn test_remove_named_returns_false_when_not_found() {
    assert!(!notes().remove_named("ghost", false, &vec![link("tmux-$1+@3.link", "ghost")], false).found);
}

#[test]
fn remove_named_deletes_file() {
    let plan = notes().remove_named("work", true, &vec![], false);
    assert!(plan.found);
    assert!(plan.remove_note);
    assert_eq!(plan.note_file, "/tmp/notes/named-work.md");
}

#[test]
fn test_remove_named_deletes_file() {
    let plan = notes().remove_named("project", true, &vec![], false);
    assert!(plan.found && plan.remove_note);
}

#[test]
fn remove_named_dry_run_leaves_file() {
    let plan = notes().remove_named("work", true, &vec![link("tmux-$1+@3.link", "work")], true);
    assert!(plan.found);
    assert!(!plan.remove_note);
    assert!(plan.remove_links.is_empty());
}

#[test]
fn test_remove_named_dryrun_does_not_delete() {
    let plan = notes().remove_named("project", true, &vec![link("tmux-$1+@3.link", "project")], true);
    assert!(plan.found && !plan.remove_note && plan.remove_links.is_empty());
}

#[test]
fn remove_named_also_removes_pointing_links() {
    let links = vec![link("tmux-$1+@3.link", "work"), link("tmux-$1+@5.link", "other")];
    let plan = notes().remove_named("work", true, &links, false);
    assert_eq!(plan.remove_links, vec!["/tmp/notes/meta/tmux-$1+@3.link".to_string()]);
}

#[test]
fn test_remove_named_also_removes_links() {
    let links = vec![
        link("tmux-$1+@3.link", "project"),
        link("tmux-$2+@5.link", " project\n"),
        link(".link", "project"),
        LinkEntry { file_name: "x.link".to_string(), content: None },
    ];
    let plan = notes().remove_named("project", true, &links, false);
    assert_eq!(
        plan.remove_links,
        vec!["/tmp/notes/meta/tmux-$1+@3.link".to_string(), "/tmp/notes/meta/tmux-$2+@5.link".to_string()]
    );
}

#[test]
fn unbinding_keys() {
    let n = notes();
    assert_eq!(n.unbind_key("shell-1", false, None), None);
    assert_eq!(n.unbind_key("shell-1", true, Some(" work\n")).as_deref(), Some("work"));
    assert_eq!(n.unbind_key("shell-1", true, None).as_deref(), Some(""));
    let links = vec![link("tmux-work+0.link", "myproj"), link("tmux-work+1.link", "myproj"), link("shell-9.link", "x")];
    assert_eq!(n.unbind_named("myproj", &links), names(&["tmux-work+0", "tmux-work+1"]));
    assert!(n.unbind_named("nothing", &links).is_empty());
    assert!(n.unbind_named_key("myproj", "shell-4242", Some("myproj")));
    assert!(!n.unbind_named_key("boundproj", "shell-4242", Some("other")));
    assert!(!n.unbind_named_key("boundproj", "shell-4242", None));
}

// ── cleanup_orphaned ──────────────────────────────────────────────────────

#[test]
fn cleanup_orphaned_removes_dead_shell_note() {
    let removed = notes().cleanup_orphaned(None, &names(&["shell-999999.md"]), &vec![], &vec![], &vec![]);
    assert!(stems(&removed).contains(&"shell-999999".to_string()));
}

#[test]
fn test_cleanup_removes_dead_shell_note() {
    let removed = notes().cleanup_orphaned(None, &names(&["shell-4242.md", "meta"]), &vec![], &vec![], &vec![7]);
    assert_eq!(stems(&removed), names(&["shell-4242"]));
}

#[test]
fn cleanup_orphaned_keeps_alive_shell_note() {
    let removed = notes().cleanup_orphaned(None, &names(&["shell-4242.md"]), &vec![], &vec![], &vec![4242]);
    assert!(removed.is_empty());
}

#[test]
fn test_cleanup_keeps_live_shell_note() {
    let removed = notes().cleanup_orphaned(None, &names(&["shell-12.md"]), &names(&["shell-12.pid"]), &vec![], &vec![12]);
    assert!(!stems(&removed).contains(&"shell-12".to_string()));
}

#[test]
fn cleanup_orphaned_dry_run_leaves_files() {
    let removed = notes().cleanup_orphaned(None, &names(&["shell-5.md"]), &vec![], &vec![], &vec![]);
    assert_eq!(stems(&removed), names(&["shell-5"]));
}

#[test]
fn test_cleanup_dryrun_does_not_delete() {
    let removed = notes().cleanup_orphaned(None, &names(&["shell-5.md"]), &vec![], &vec![], &vec![]);
    assert!(stems(&removed).contains(&"shell-5".to_string()));
}

#[test]
fn cleanup_orphaned_named_not_removed_without_scope() {
    let removed = notes().cleanup_orphaned(None, &names(&["named-work.md"]), &vec![], &vec![], &vec![]);
    assert!(!removed.iter().any(|o| o.stem.starts_with("named-")));
}

#[test]
fn test_cleanup_keeps_named_note_by_default() {
    let removed = notes().cleanup_orphaned(None, &names(&["named-docs.md"]), &vec![], &vec![], &vec![]);
    assert!(!stems(&removed).contains(&"named-docs".to_string()));
}

#[test]
fn cleanup_orphaned_named_removed_with_named_scope() {
    let removed = notes().cleanup_orphaned(Some(ClearScope::Named), &names(&["named-work.md"]), &vec![], &vec![], &vec![]);
    assert!(stems(&removed).contains(&"named-work".to_string()));
}

#[test]
fn test_cleanup_scope_named_removes_named() {
    let removed = notes().cleanup_orphaned(Some(ClearScope::Named), &names(&["named-docs.md"]), &vec![], &vec![], &vec![]);
    assert!(stems(&removed).contains(&"named-docs".to_string()));
}

#[test]
fn cleanup_orphaned_tmux_dead_window_removed() {
    let removed = notes().cleanup_orphaned(None, &names(&["tmux-$99+@99.md"]), &vec![], &vec![], &vec![]);
    assert!(stems(&removed).contains(&"tmux-$99+@99".to_string()));
}

#[test]
fn test_cleanup_removes_tmux_note_outside_tmux() {
    let removed = notes().cleanup_orphaned(None, &names(&["tmux-$1+@3.md"]), &vec![], &vec![], &vec![]);
    assert!(stems(&removed).contains(&"tmux-$1+@3".to_string()));
    assert!(!removed[0].keep_link);
}

#[test]
fn cleanup_orphaned_tmux_live_window_kept() {
    let removed = notes().cleanup_orphaned(None, &names(&["tmux-$1+@3.md"]), &vec![], &names(&["tmux-$1+@3"]), &vec![]);
    assert!(removed.is_empty());
}

#[test]
fn cleanup_orphaned_tmux_superseded_removes_raw_md() {
    let removed = notes().cleanup_orphaned(
        None,
        &names(&["tmux-$1+@3.md"]),
        &names(&["tmux-$1+@3.link"]),
        &names(&["tmux-$1+@3"]),
        &vec![],
    );
    assert!(stems(&removed).contains(&"tmux-$1+@3".to_string()));
    assert!(removed[0].keep_link);
}

#[test]
fn test_cleanup_superseded_tmux_removes_md_keeps_link() {
    let removed = notes().cleanup_orphaned(
        None,
        &names(&["tmux-$1+@3.md", "named-myproject.md"]),
        &names(&["tmux-$1+@3.link"]),
        &names(&["tmux-$1+@3"]),
        &vec![],
    );
    assert_eq!(stems(&removed), names(&["tmux-$1+@3"]));
    assert!(removed[0].keep_link);
}

#[test]
fn cleanup_orphaned_all_scope_removes_everything() {
    let removed = notes().cleanup_orphaned(
        Some(ClearScope::All),
        &names(&["named-work.md", "tmux-$1+@1.md", "custom.md"]),
        &vec![],
        &names(&["tmux-$1+@1"]),
        &vec![],
    );
    assert!(stems(&removed).contains(&"named-work".to_string()));
    assert!(stems(&removed).contains(&"tmux-$1+@1".to_string()));
    assert!(stems(&removed).contains(&"custom".to_string()));
}

#[test]
fn test_cleanup_scope_all_removes_everything() {
    let removed = notes().cleanup_orphaned(
        Some(ClearScope::All),
        &names(&["shell-3.md", "tmux-$1+@3.md", "named-docs.md"]),
        &vec![],
        &vec![],
        &vec![3],
    );
    assert_eq!(stems(&removed), names(&["shell-3", "tmux-$1+@3", "named-docs"]));
}

#[test]
fn test_cleanup_scope_tmux_forces_tmux_removal() {
    let removed = notes().cleanup_orphaned(Some(ClearScope::Tmux), &names(&["tmux-$1+@3.md"]), &vec![], &names(&["tmux-$1+@3"]), &vec![]);
    assert!(stems(&removed).contains(&"tmux-$1+@3".to_string()));
}

#[test]
fn test_cleanup_scope_unprefixed() {
    let removed = notes().cleanup_orphaned(Some(ClearScope::Unprefixed), &names(&["weird-file.md"]), &vec![], &vec![], &vec![]);
    assert!(stems(&removed).contains(&"weird-file".to_string()));
    let kept = notes().cleanup_orphaned(None, &names(&["weird-file.md"]), &vec![], &vec![], &vec![]);
    assert!(kept.is_empty());
}

#[test]
fn cleanup_reports_each_stem_once() {
    let removed = notes().cleanup_orphaned(
        None,
        &names(&["tmux-$1+@3.md", "notes.txt"]),
        &names(&["tmux-$1+@3.link", "tmux-$1+@3.pid", "tmux.conf"]),
        &vec![],
        &vec![],
    );
    assert_eq!(stems(&removed), names(&["tmux-$1+@3"]));
}

// ── list_notes ────────────────────────────────────────────────────────────

#[test]
fn list_notes_empty_dir() {
    assert!(notes().list_notes(&vec![], &vec![], &vec![]).is_empty());
}

#[test]
fn test_list_notes_empty() {
    assert!(notes().list_notes(&vec![file("meta", "")], &vec![], &vec![]).is_empty());
}

#[test]
fn list_notes_categorizes_correctly() {
    let files = vec![
        file("named-work.md", "a\nb"),
        file("tmux-$1+@3.md", "c"),
        file("shell-1234.md", "d\ne\nf"),
        file("custom.md", "g"),
    ];
    let list = notes().list_notes(&files, &vec![], &vec![]);
    let cats: Vec<&str> = list.iter().map(|e| e.category.as_str()).collect();
    assert_eq!(cats, vec!["named", "other", "shell", "tmux"]);
    let work = list.iter().find(|e| e.category == "named" && e.display == "work").unwrap();
    assert_eq!(work.lines, 2);
    let shell = list.iter().find(|e| e.category == "shell").unwrap();
    assert_eq!(shell.lines, 3);
    assert_eq!(shell.display, "shell-1234");
    assert_eq!(shell.path, "/tmp/notes/shell-1234.md");
    let tmux = list.iter().find(|e| e.category == "tmux").unwrap();
    assert_eq!(tmux.display, "$1+@3");
}

#[test]
fn test_list_notes_returns_all_types() {
    let files = vec![file("tmux-$1+@3.md", "t"), file("named-project.md", "n"), file("shell-12345.md", "s")];
    let labels = window_label_map("$1 @3 work+0\n");
    let list = notes().list_notes(&files, &vec![], &labels);
    let categories: Vec<&str> = list.iter().map(|e| e.category.as_str()).collect();
    assert!(categories.contains(&"tmux"));
    assert!(categories.contains(&"named"));
    assert!(categories.contains(&"shell"));
    assert_eq!(list.iter().find(|e| e.category == "tmux").unwrap().display, "work+0");
}

#[test]
fn list_notes_ignores_non_md_files() {
    let files = vec![file("notes.txt", "ignored"), file("readme.md", "counted"), file(".md", "")];
    let list = notes().list_notes(&files, &vec![], &vec![]);
    assert_eq!(list.len(), 1);
}

#[test]
fn test_list_notes_line_count() {
    let list = notes().list_notes(&vec![file("named-work.md", "line1\nline2\nline3\n")], &vec![], &vec![]);
    assert_eq!(list[0].lines, 3);
}

#[test]
fn list_notes_named_includes_sources() {
    let list = notes().list_notes(&vec![file("named-work.md", "content")], &vec![link("tmux-$1+@3.link", "work")], &vec![]);
    let work = list.iter().find(|e| e.category == "named" && e.display == "work").unwrap();
    assert_eq!(work.sources, vec!["tmux-$1+@3"]);
}

#[test]
fn test_list_notes_sources_for_named() {
    let list = notes().list_notes(&vec![file("named-project.md", "content")], &vec![link("tmux-$1+@3.link", "project")], &vec![]);
    assert!(!list[0].sources.is_empty());
}

#[test]
fn list_notes_sorted_by_category_then_name() {
    let files = vec![file("named-b.md", ""), file("named-a.md", ""), file("custom.md", "")];
    let list = notes().list_notes(&files, &vec![], &vec![]);
    let shown: Vec<(&str, &str)> = list.iter().map(|e| (e.category.as_str(), e.display.as_str())).collect();
    assert_eq!(shown, vec![("named", "a"), ("named", "b"), ("other", "custom")]);
}

#[test]
fn test_link_sources_builds_reverse_map() {
    let links = vec![link("tmux-$1+@3.link", "api"), link("tmux-$2+@5.link", "api"), link("tmux-$1+@7.link", "ui")];
    let map = notes().link_sources(&links);
    assert_eq!(map.len(), 2);
    let api = map.iter().find(|s| s.name == "api").unwrap();
    assert_eq!(api.keys.len(), 2);
    let ui = map.iter().find(|s| s.name == "ui").unwrap();
    assert_eq!(ui.keys, vec!["tmux-$1+@7".to_string()]);
}

// ── migration and keys ────────────────────────────────────────────────────

#[test]
fn migrate_to_meta_moves_link_and_pid_files() {
    let moves = notes().migrate_to_meta(&names(&["tmux-$1+@2.link", "tmux-$1+@2.pid", "tmux-$1+@2.md"]));
    assert_eq!(moves, names(&["tmux-$1+@2.link", "tmux-$1+@2.pid"]));
}

#[test]
fn test_get_shell_pid_returns_some() {
    assert_eq!(shell_pid(4242), Some(4242));
    assert_eq!(shell_pid(0), None);
    assert_eq!(shell_pid(-1), None);
}

#[test]
fn test_shell_session_key_format() {
    assert_eq!(shell_session_key(Some(4242), 7), "shell-4242");
    assert_eq!(shell_session_key(None, 7), "pid-7");
    let key = shell_session_key(shell_pid(99), 1);
    assert!(key.starts_with("shell-") || key.starts_with("pid-"));
}

#[test]
fn named_note_names_sorted_and_filtered() {
    let files = names(&["named-beta.md", "named-alpha.md", "shell-123.md", "named-.md.txt"]);
    assert_eq!(notes().named_note_names(&files, None), names(&["alpha", "beta"]));
    let files = names(&["named-proj-auth-login.md", "named-proj-auth-session.md", "named-other-api-search.md"]);
    assert_eq!(
        notes().named_note_names(&files, Some("proj-*")),
        names(&["proj-auth-login", "proj-auth-session"])
    );
}

#[test]
fn naming_binds_key_to_named_note() {
    let n = notes();
    let plan = n.name_window("tmux-$1+@3", "api", true, false);
    let link = plan.link_content.clone();
    assert_eq!(n.file_for_key("tmux-$1+@3", Some(&link)), plan.new_file);
    assert_eq!(n.label_for_key("tmux-$1+@3", Some(&link), &vec![]), "api");
}

#[test]
fn cleanup_dry_run_deletes_nothing_and_reports_the_same() {
    let n = notes();
    let root = names(&["shell-5.md", "tmux-$1+@3.md"]);
    let meta = names(&["tmux-$1+@3.link", "shell-5.pid"]);
    let live = names(&["tmux-$1+@3"]);
    let first = n.cleanup_orphaned(None, &root, &meta, &live, &vec![]);
    let second = n.cleanup_orphaned(None, &root, &meta, &live, &vec![]);
    assert_eq!(stems(&first), stems(&second));
    assert!(n.removal_files(&first, true).is_empty());
    let files = n.removal_files(&first, false);
    assert!(files.contains(&n.key_file("shell-5")));
    assert!(files.contains(&n.pid_file("shell-5")));
    assert!(files.contains(&n.key_file("tmux-$1+@3")));
    assert!(!files.contains(&n.link_file("tmux-$1+@3")));
}
