use std::collections::HashMap;
use std::sync::Arc;

use obsidian_mcp::config::{Config, ConfigError};
use obsidian_mcp::text::sort_texts;
use obsidian_mcp::tools::links::{LinkGraph, LinkGraphRequest, LinkTools};
use obsidian_mcp::tools::read::ReadTools;
use obsidian_mcp::tools::search::{preview, SearchByTagRequest, SearchNotesRequest};
use obsidian_mcp::tools::templates::TemplateTools;
use obsidian_mcp::tools::write::{CreateNoteRequest, WriteTools};
use obsidian_mcp::vault::Vault;

fn vault() -> Arc<Vault> {
    Arc::new(Vault::new(Config { vault_path: "/vault".to_string() }))
}

#[test]
fn tools_share_the_vault() {
    let v = vault();
    assert_eq!(LinkTools::new(v.clone()).vault.config.vault_path, "/vault");
    assert_eq!(ReadTools::new(v.clone()).vault.config.vault_path, "/vault");
    assert_eq!(TemplateTools::new(v.clone()).vault.config.vault_path, "/vault");
    assert_eq!(WriteTools::new(v.clone()).vault.config.vault_path, "/vault");
    assert!(Arc::ptr_eq(&LinkTools::new(v.clone()).vault, &v));
}

#[test]
fn request_defaults() {
    assert_eq!(SearchNotesRequest { query: "x".to_string(), limit: None }.limit_or_default(), 20);
    assert_eq!(SearchNotesRequest { query: "x".to_string(), limit: Some(3) }.limit_or_default(), 3);
    assert_eq!(LinkGraphRequest { path: "a".to_string(), depth: None }.depth_or_default(), 1);
    assert_eq!(LinkGraphRequest { path: "a".to_string(), depth: Some(4) }.depth_or_default(), 4);
    assert_eq!(SearchByTagRequest { tags: vec![], match_mode: None }.mode_or_default(), "any");
    assert_eq!(SearchByTagRequest { tags: vec![], match_mode: Some("all".to_string()) }.mode_or_default(), "all");
    assert_eq!(CreateNoteRequest { path: "p".to_string(), content: None, frontmatter: None }.content_or_empty(), "");
    assert_eq!(CreateNoteRequest { path: "p".to_string(), content: Some("c".to_string()), frontmatter: None }.content_or_empty(), "c");
}

#[test]
fn previews_keep_the_first_200_characters() {
    assert_eq!(preview("short"), "short");
    let long = "é".repeat(250);
    assert_eq!(preview(&long), "é".repeat(200));
}

/// Runs an exploration over notes held in memory: each note's links.
fn explore(start: &str, depth: usize, notes: &HashMap<&str, Vec<&str>>) -> (Vec<String>, Vec<(String, String)>, Vec<String>) {
    let v = vault();
    let mut g = LinkGraph::new(start, depth);
    let mut reads = Vec::new();
    while let Some(p) = g.next_read() {
        reads.push(p.clone());
        match notes.get(p.as_str()) {
            Some(links) => {
                let body: String = links.iter().map(|l| format!("[[{}]] ", l)).collect();
                let info = v.note_info(&format!("/vault/{}.md", p), &body);
                g.record(Some(&info));
            },
            None => g.record(None),
        }
    }
    let nodes = g.nodes().iter().map(|(p, _)| p.clone()).collect();
    (nodes, g.edges().clone(), reads)
}

#[test]
fn link_graph_explores_level_by_level_once_per_note() {
    let mut notes = HashMap::new();
    notes.insert("a", vec!["b", "c"]);
    notes.insert("b", vec!["a", "d"]);
    notes.insert("c", vec!["d"]);
    notes.insert("d", vec!["a"]);
    let (nodes, edges, reads) = explore("a", 1, &notes);
    assert_eq!(reads, vec!["a", "b", "c"]);
    assert_eq!(nodes, vec!["a.md", "b.md", "c.md"]);
    let e: Vec<(&str, &str)> = edges.iter().map(|(s, t)| (s.as_str(), t.as_str())).collect();
    assert_eq!(e, vec![("a", "b"), ("a", "c"), ("b", "a"), ("b", "d"), ("c", "d")]);
    let (nodes, _, reads) = explore("a", 5, &notes);
    assert_eq!(reads, vec!["a", "b", "c", "d"]);
    assert_eq!(nodes.len(), 4);
    let (nodes, edges, _) = explore("a", 0, &notes);
    assert_eq!(nodes, vec!["a.md"]);
    assert_eq!(edges.len(), 2);
}

#[test]
fn link_graph_reaches_every_note_within_the_depth() {
    let mut notes = HashMap::new();
    notes.insert("A", vec!["B", "C"]);
    notes.insert("B", vec!["C"]);
    notes.insert("C", vec!["D"]);
    notes.insert("D", vec![]);
    let (nodes, _, _) = explore("A", 2, &notes);
    assert_eq!(nodes, vec!["A.md", "B.md", "C.md", "D.md"]);
}

#[test]
fn link_graph_skips_notes_that_cannot_be_read() {
    let mut notes = HashMap::new();
    notes.insert("a", vec!["missing", "b"]);
    notes.insert("b", vec![]);
    let (nodes, edges, reads) = explore("a", 3, &notes);
    assert_eq!(reads, vec!["a", "missing", "b"]);
    assert_eq!(nodes, vec!["a.md", "b.md"]);
    assert_eq!(edges.len(), 2);
}

#[test]
fn config_checks_the_vault_path() {
    assert!(matches!(Config::from_values(None, false, false), Err(ConfigError::NotSet)));
    match Config::from_values(Some("/nope".to_string()), false, false) {
        Err(e) => assert_eq!(e.message(), "Vault not found at /nope. Check OBSIDIAN_VAULT path."),
        Ok(_) => panic!("accepted"),
    }
    match Config::from_values(Some("/file".to_string()), true, false) {
        Err(e) => assert_eq!(e.message(), "OBSIDIAN_VAULT (/file) is not a directory."),
        Ok(_) => panic!("accepted"),
    }
    assert_eq!(Config::from_values(Some("/v".to_string()), true, true).ok().unwrap().vault_path, "/v");
    assert_eq!(
        ConfigError::NotSet.message(),
        "OBSIDIAN_VAULT environment variable not set. Set it to your Obsidian vault path in MCP config."
    );
}

#[test]
fn texts_sort_by_code_point() {
    let v: Vec<String> = ["b", "a", "B", "ab", "", "é", "a"].iter().map(|s| s.to_string()).collect();
    let mut want = v.clone();
    want.sort();
    assert_eq!(sort_texts(v), want);
}

/// The notes at most `max` hops from `start`, found the plain way: the start, then each
/// round adds what the links of the notes found so far lead to.
fn within_hops(start: &str, max: usize, notes: &HashMap<&str, Vec<&str>>) -> Vec<String> {
    let mut found: Vec<String> = vec![start.to_string()];
    for _ in 0..max {
        let mut more = found.clone();
        for x in &found {
            if let Some(links) = notes.get(x.as_str()) {
                for l in links {
                    if !more.contains(&l.to_string()) {
                        more.push(l.to_string());
                    }
                }
            }
        }
        found = more;
    }
    found.sort();
    found
}

#[test]
fn link_graph_asks_for_exactly_the_notes_within_the_depth() {
    let mut notes = HashMap::new();
    notes.insert("a", vec!["b", "c", "e", "b"]);
    notes.insert("b", vec!["d", "a", "x"]);
    notes.insert("c", vec!["c", "d", "f"]);
    notes.insert("d", vec!["g", "b"]);
    notes.insert("f", vec!["g", "a"]);
    notes.insert("g", vec![]);
    for start in ["a", "c", "x", "g"] {
        for max in 0..5 {
            let (nodes, _, reads) = explore(start, max, &notes);
            let mut asked = reads.clone();
            asked.sort();
            let before = asked.len();
            asked.dedup();
            assert_eq!(asked.len(), before, "a note asked twice from {} to depth {}", start, max);
            assert_eq!(asked, within_hops(start, max, &notes), "from {} to depth {}", start, max);
            let readable: Vec<String> = reads.iter().filter(|r| notes.contains_key(r.as_str())).map(|r| format!("{}.md", r)).collect();
            assert_eq!(nodes, readable);
        }
    }
}
