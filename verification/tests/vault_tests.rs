use obsidian_mcp::config::Config;
use obsidian_mcp::parse::frontmatter::{parse, Frontmatter};
use obsidian_mcp::parse::wikilink::relative_path;
use obsidian_mcp::paths::join_path;
use obsidian_mcp::vault::{
    applied_template, build_note_content, daily_note_content, existing_template, frontmatter_set, link_name_of,
    listing_depth, note_matches_query, serialize_frontmatter, template_names, template_path,
    updated_content, with_frontmatter, DailyNote, Vault, VaultError,
};

const NOTE1: &str = "---\ntags: project, test\nstatus: active\n---\n# Note 1\n\nThis is test note one. It links to [[note2]] and [[note3|Note Three]].\n\n#project #test\n";
const NOTE2: &str = "---\ntags: test\n---\n# Note 2\n\nThis links back to [[note1]].\n";
const NOTE3: &str = "# Note 3\n\nNo frontmatter here. Links to [[note1]] and [[nonexistent]].\n";
const MEETING: &str = "---\ntype: meeting\ndate: \"\"\nattendees: \"\"\n---\n# Meeting Notes\n\n## Agenda\n\n\n## Action Items\n\n";

fn vault() -> Vault {
    Vault::new(Config { vault_path: "/vault".to_string() })
}

fn files() -> Vec<(String, String)> {
    vec![
        ("/vault/note1.md".to_string(), NOTE1.to_string()),
        ("/vault/note2.md".to_string(), NOTE2.to_string()),
        ("/vault/note3.md".to_string(), NOTE3.to_string()),
        ("/vault/templates/meeting.md".to_string(), MEETING.to_string()),
    ]
}

fn fields(pairs: &[(&str, &str)]) -> Frontmatter {
    Frontmatter::from_pairs(pairs.iter().map(|(k, v)| (k.to_string(), v.to_string())).collect())
}

fn paths(notes: &[obsidian_mcp::vault::NoteInfo]) -> Vec<String> {
    notes.iter().map(|n| n.path.clone()).collect()
}

#[test]
fn test_vault_read_note() {
    let note = vault().note_info("/vault/note1.md", NOTE1);
    assert_eq!(note.path, "note1.md");
    assert!(note.body.contains("Note 1"));
    assert!(note.tags.contains(&"project".to_string()));
    assert!(note.tags.contains(&"test".to_string()));
    assert_eq!(note.tags.len(), 2);
    assert_eq!(note.links, vec!["note2".to_string(), "note3".to_string()]);
    assert_eq!(note.frontmatter.get("status").unwrap(), "active");
    assert!(note.backlinks.is_empty());
}

#[test]
fn test_vault_search() {
    let results = vault().search_notes(&files(), "test note", 10);
    assert!(results.len() >= 1);
    assert_eq!(paths(&results), vec!["note1.md"]);
}

#[test]
fn search_ignores_case_and_keeps_walk_order() {
    let v = vault();
    assert_eq!(paths(&v.search_notes(&files(), "NOTE", 10)), vec!["note1.md", "note2.md", "note3.md", "templates/meeting.md"]);
    assert_eq!(paths(&v.search_notes(&files(), "note", 2)), vec!["note1.md", "note2.md"]);
    assert!(v.search_notes(&files(), "no such words", 10).is_empty());
    assert!(note_matches_query("ÄRGER", "ärger"));
    assert!(!note_matches_query("abc", "abd"));
    assert!(note_matches_query("abc", ""));
}

#[test]
fn search_with_limit_zero_returns_nothing() {
    assert!(vault().search_notes(&files(), "note", 0).is_empty());
    assert_eq!(paths(&vault().search_notes(&files(), "note", 1)), vec!["note1.md"]);
}

#[test]
fn search_by_tag_any_and_all() {
    let v = vault();
    let f = files();
    let want = |t: &[&str]| t.iter().map(|s| s.to_string()).collect::<Vec<String>>();
    assert_eq!(paths(&v.search_by_tag(&f, &want(&["project"]), "any")), vec!["note1.md"]);
    assert_eq!(paths(&v.search_by_tag(&f, &want(&["test"]), "any")), vec!["note1.md", "note2.md"]);
    assert_eq!(paths(&v.search_by_tag(&f, &want(&["project", "test"]), "all")), vec!["note1.md"]);
    assert_eq!(paths(&v.search_by_tag(&f, &want(&["project", "nope"]), "all")), Vec::<String>::new());
    assert_eq!(paths(&v.search_by_tag(&f, &want(&["project", "nope"]), "other")), vec!["note1.md"]);
    assert_eq!(v.search_by_tag(&f, &want(&[]), "all").len(), 4);
    assert_eq!(v.search_by_tag(&f, &want(&[]), "any").len(), 0);
}

#[test]
fn search_by_frontmatter_needs_every_filter() {
    let v = vault();
    let f = files();
    assert_eq!(paths(&v.search_by_frontmatter(&f, &fields(&[("status", "active")]))), vec!["note1.md"]);
    assert_eq!(paths(&v.search_by_frontmatter(&f, &fields(&[("tags", "test")]))), vec!["note2.md"]);
    assert_eq!(paths(&v.search_by_frontmatter(&f, &fields(&[("type", "meeting"), ("date", "")]))), vec!["templates/meeting.md"]);
    assert!(v.search_by_frontmatter(&f, &fields(&[("status", "active"), ("tags", "test")])).is_empty());
    assert_eq!(v.search_by_frontmatter(&f, &Frontmatter::new()).len(), 4);
}

#[test]
fn test_backlinks() {
    let backlinks = vault().backlinks(&files(), "note1.md");
    assert!(backlinks.len() >= 2);
    assert_eq!(backlinks, vec!["note2.md", "note3.md"]);
    assert_eq!(vault().backlinks(&files(), "folder/note2.md"), vec!["note1.md"]);
    assert_eq!(vault().backlinks(&files(), "nonexistent"), vec!["note3.md"]);
    assert!(vault().backlinks(&files(), "zzz").is_empty());
    assert_eq!(link_name_of("a/b/c.md"), "c");
    assert_eq!(link_name_of(""), "");
}

#[test]
fn test_vault_create_and_read() {
    let v = vault();
    let fm = fields(&[("status", "new")]);
    let path = v.note_path("_test-created.md").unwrap();
    assert_eq!(path, "/vault/_test-created.md");
    let content = build_note_content("Created by test", Some(&fm));
    assert_eq!(content, "---\nstatus: new\n---\nCreated by test");
    let note = v.note_info(&path, &content);
    assert_eq!(note.frontmatter.get("status").unwrap(), "new");
    assert_eq!(note.body, "Created by test");
    assert_eq!(note.path, "_test-created.md");
}

#[test]
fn new_notes_without_fields_are_just_the_body() {
    assert_eq!(build_note_content("body", None), "body");
    assert_eq!(build_note_content("body", Some(&Frontmatter::new())), "body");
    assert_eq!(serialize_frontmatter(&fields(&[("a", "1"), ("b", "x y")])), "a: 1\nb: x y\n");
    assert_eq!(with_frontmatter(&fields(&[("a", "1")]), "b"), "---\na: 1\n---\nb");
}

#[test]
fn note_paths_cannot_leave_the_vault() {
    let v = vault();
    for p in ["../x.md", "a/../../x.md", "/etc/passwd", "\\x", "C:x", "a\\..\\..\\b", "..", "./../x", "a//../.."] {
        match v.note_path(p) {
            Err(VaultError::OutsideVault { path }) => assert_eq!(path, p),
            _ => panic!("accepted {}", p),
        }
    }
    assert!(v.note_path("a/..b/c.md").is_ok());
    // `..` that stays inside the vault is accepted.
    assert_eq!(v.note_path("a/../note1.md").unwrap(), "/vault/a/../note1.md");
    assert_eq!(v.note_path("a\\..\\b").unwrap(), "/vault/a\\..\\b");
    assert!(v.note_path("a/b/../../c.md").is_ok());
    assert!(v.note_path("a/./../b").is_ok());
    assert!(v.note_path("a/..").is_ok());
    assert!(v.note_path("a:b.md").is_err());
    assert_eq!(v.note_path("1:b.md").unwrap(), "/vault/1:b.md");
    assert_eq!(v.note_path("ab:c.md").unwrap(), "/vault/ab:c.md");
    assert!(v.note_path("a/b..").is_ok());
    assert_eq!(v.note_path("").unwrap(), "/vault/");
}

#[test]
fn resolve_note_path_tries_the_path_then_with_md() {
    let v = vault();
    let (a, b) = v.note_path_candidates("note1").unwrap();
    assert_eq!(a, "/vault/note1");
    assert_eq!(b, "/vault/note1.md");
    assert_eq!(v.resolve_note_path("note1", true, true).unwrap(), "/vault/note1");
    assert_eq!(v.resolve_note_path("note1", false, true).unwrap(), "/vault/note1.md");
    match v.resolve_note_path("note1", false, false) {
        Err(e) => {
            assert_eq!(e.message(), "Note not found: note1");
            assert!(matches!(e, VaultError::NotFound { .. }));
        },
        Ok(_) => panic!("found a missing note"),
    }
    match v.resolve_note_path("../x", true, true) {
        Err(e) => assert_eq!(e.message(), "Path leads outside the vault: ../x"),
        Ok(_) => panic!("left the vault"),
    }
}

#[test]
fn created_notes_read_back_under_their_path() {
    for vault_path in ["/vault", "/vault/", "C:\\vault", ""] {
        let v = Vault::new(Config { vault_path: vault_path.to_string() });
        for p in ["a.md", "dir/b.md", "dir\\c.md"] {
            let full = v.note_path(p).unwrap();
            assert_eq!(relative_path(&full, vault_path), p.replace('\\', "/"));
        }
    }
    let v = vault();
    assert_eq!(relative_path(&v.note_path("a/").unwrap(), "/vault"), "a");
}

#[test]
fn update_append_adds_a_line() {
    assert_eq!(updated_content("old", "new", "append").ok().unwrap(), "old\nnew");
}

#[test]
fn update_replace_keeps_the_frontmatter() {
    let out = updated_content(NOTE2, "fresh body", "replace").ok().unwrap();
    assert_eq!(out, "---\ntags: test\n---\nfresh body");
    let parsed = parse(&out);
    assert_eq!(parsed.frontmatter.get("tags").unwrap(), "test");
    assert_eq!(parsed.body, "fresh body");
    assert_eq!(updated_content(NOTE3, "fresh", "replace").ok().unwrap(), "fresh");
}

#[test]
fn update_with_another_mode_is_refused() {
    match updated_content("old", "new", "prepend") {
        Err(e) => {
            assert_eq!(e.message(), "Invalid mode: prepend (use 'append' or 'replace')");
            assert!(matches!(e, VaultError::InvalidMode { .. }));
        },
        Ok(_) => panic!("accepted a bad mode"),
    }
}

#[test]
fn set_frontmatter_merges_fields() {
    let out = frontmatter_set(NOTE2, &fields(&[("status", "done"), ("tags", "x")]));
    assert_eq!(out, "---\ntags: x\nstatus: done\n---\n# Note 2\n\nThis links back to [[note1]].\n");
    let out = frontmatter_set(NOTE3, &fields(&[("a", "b")]));
    assert_eq!(out, format!("---\na: b\n---\n{}", NOTE3));
    assert_eq!(frontmatter_set(NOTE3, &Frontmatter::new()), NOTE3);
}

#[test]
fn applying_a_template_keeps_the_note_fields_and_body() {
    let existing = "---\ntype: idea\n---\nmy body";
    let out = applied_template(MEETING, existing);
    assert_eq!(out, "---\ntype: idea\ndate: \nattendees: \n---\nmy body");
    let blank = "---\nstatus: new\n---\n \n\t";
    let out = applied_template(MEETING, blank);
    assert_eq!(out, "---\ntype: meeting\ndate: \nattendees: \nstatus: new\n---\n# Meeting Notes\n\n## Agenda\n\n\n## Action Items\n\n");
    assert_eq!(applied_template("plain template", ""), "plain template");
}

#[test]
fn listing_is_sorted_and_marks_directories() {
    let v = vault();
    let walked = vec![
        ("/vault".to_string(), true),
        ("/vault/b.md".to_string(), false),
        ("/vault/a".to_string(), true),
        ("/vault/a/z.md".to_string(), false),
        ("/vault/a/pic.png".to_string(), false),
        ("/vault/A.md".to_string(), false),
        ("/vault/.md".to_string(), false),
    ];
    assert_eq!(v.listing(&walked), vec!["A.md", "a/", "a/z.md", "b.md"]);
    assert_eq!(v.list_start(None).ok().unwrap(), "/vault");
    assert_eq!(v.list_start(Some("a")).ok().unwrap(), "/vault/a");
    assert!(v.list_start(Some("../a")).is_err());
}

#[test]
fn listing_depth_defaults_to_10_and_is_capped_at_20() {
    assert_eq!(listing_depth(None), 10);
    assert_eq!(listing_depth(Some(3)), 3);
    assert_eq!(listing_depth(Some(20)), 20);
    assert_eq!(listing_depth(Some(500)), 20);
}

#[test]
fn templates_are_listed_by_sorted_stem() {
    let walked = vec![
        "/vault/templates".to_string(),
        "/vault/templates/meeting.md".to_string(),
        "/vault/templates/daily.md".to_string(),
        "/vault/templates/sub/Zeta.md".to_string(),
        "/vault/templates/notes.txt".to_string(),
    ];
    assert_eq!(template_names(&walked), vec!["Zeta", "daily", "meeting"]);
}

#[test]
fn template_files_stay_in_the_templates_directory() {
    assert_eq!(template_path("/vault/templates", "meeting").ok().unwrap(), "/vault/templates/meeting.md");
    match template_path("/vault/templates", "../note1") {
        Err(e) => assert_eq!(e.message(), "Template lies outside the templates directory: ../note1"),
        Ok(_) => panic!("left the templates directory"),
    }
    let e = VaultError::TemplateNotFound { name: "x".to_string() };
    assert_eq!(e.message(), "Template not found: x");
    let e = VaultError::AlreadyExists { path: "a.md".to_string() };
    assert_eq!(e.message(), "Note already exists: a.md");
}

#[test]
fn the_templates_directory_is_chosen_in_order() {
    let v = vault();
    assert_eq!(v.template_dir_candidates(), ("/vault/templates".to_string(), "/vault/Templates".to_string()));
    assert_eq!(v.templates_dir(true, true, Some("/vault/att"), true), "/vault/templates");
    assert_eq!(v.templates_dir(false, true, Some("/vault/att"), true), "/vault/Templates");
    assert_eq!(v.templates_dir(false, false, Some("/vault/att"), true), "/vault/att");
    assert_eq!(v.templates_dir(false, false, Some("/vault/att"), false), "/vault/Templates");
    assert_eq!(v.templates_dir(false, false, None, false), "/vault/Templates");
}

#[test]
fn the_attachment_folder_comes_from_obsidian_settings() {
    let v = vault();
    assert_eq!(v.attachment_dir(r#"{"attachmentFolderPath": "files", "x": 1}"#), Some("/vault/files".to_string()));
    assert_eq!(v.attachment_dir(r#"{"attachmentFolderPath": 3}"#), None);
    assert_eq!(v.attachment_dir(r#"{"other": "files"}"#), None);
    assert_eq!(v.attachment_dir("not json"), None);
    assert_eq!(v.attachment_dir(r#"["attachmentFolderPath"]"#), None);
    // A folder that would lead out of the vault is not taken.
    assert_eq!(v.attachment_dir(r#"{"attachmentFolderPath": "../elsewhere"}"#), None);
    assert_eq!(v.attachment_dir(r#"{"attachmentFolderPath": "/etc"}"#), None);
    assert_eq!(v.attachment_dir(r#"{"attachmentFolderPath": "a/../files"}"#), Some("/vault/a/../files".to_string()));
}

#[test]
fn daily_notes_are_looked_for_in_order() {
    let v = vault();
    let c = v.daily_note_candidates("2024-01-02").ok().unwrap();
    assert_eq!(c, vec!["/vault/daily/2024-01-02.md", "/vault/Daily Notes/2024-01-02.md", "/vault/2024-01-02.md"]);
    assert!(v.daily_note_candidates("../x").is_err());
    match v.daily_note_plan("2024-01-02", (false, true, true), false, false) {
        Ok(DailyNote::Existing { path }) => assert_eq!(path, "/vault/Daily Notes/2024-01-02.md"),
        _ => panic!("wrong plan"),
    }
    match v.daily_note_plan("2024-01-02", (false, false, true), true, true) {
        Ok(DailyNote::Existing { path }) => assert_eq!(path, "/vault/2024-01-02.md"),
        _ => panic!("wrong plan"),
    }
}

#[test]
fn daily_notes_are_created_with_a_heading() {
    let v = vault();
    assert_eq!(daily_note_content("2024-01-02"), "# 2024-01-02\n\n");
    let dirs = v.daily_dirs();
    assert_eq!(dirs, ("/vault/daily".to_string(), "/vault/Daily Notes".to_string()));
    for (d1, d2, want) in [(true, true, "/vault/daily"), (false, true, "/vault/Daily Notes"), (false, false, "/vault/daily")] {
        match v.daily_note_plan("2024-01-02", (false, false, false), d1, d2) {
            Ok(DailyNote::Create { dir, path, content }) => {
                assert_eq!(dir, want);
                assert_eq!(path, join_path(want, "2024-01-02.md"));
                assert_eq!(content, "# 2024-01-02\n\n");
            },
            _ => panic!("wrong plan"),
        }
    }
}

#[test]
fn new_notes_need_a_free_place_in_the_vault() {
    let v = vault();
    assert_eq!(v.new_note_path("n.md", false).ok().unwrap(), "/vault/n.md");
    match v.new_note_path("n.md", true) {
        Err(e) => assert_eq!(e.message(), "Note already exists: n.md"),
        Ok(_) => panic!("overwrote a note"),
    }
    match v.new_note_path("../n.md", false) {
        Err(e) => assert!(matches!(e, VaultError::OutsideVault { .. })),
        Ok(_) => panic!("left the vault"),
    }
}

#[test]
fn templates_must_exist_to_be_applied() {
    assert_eq!(existing_template("/t", "m", true).ok().unwrap(), "/t/m.md");
    match existing_template("/t", "m", false) {
        Err(e) => assert_eq!(e.message(), "Template not found: m"),
        Ok(_) => panic!("missing template accepted"),
    }
    match existing_template("/t", "/abs", true) {
        Err(e) => assert!(matches!(e, VaultError::OutsideTemplates { .. })),
        Ok(_) => panic!("left the templates directory"),
    }
}

#[test]
fn denied_write_message_names_the_path() {
    let e = VaultError::WriteDenied { path: "/vault/a.md".to_string() };
    assert_eq!(e.message(), "Cannot write: permission denied for /vault/a.md");
}
