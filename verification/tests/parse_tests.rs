use obsidian_mcp::parse::frontmatter::{frontmatter_of_documents, parse, Frontmatter, YamlNode};
use obsidian_mcp::parse::tags::{all_tags, extract_tags, extract_tags_from_frontmatter, is_white_space};
use obsidian_mcp::parse::wikilink::{extract_wikilinks, relative_path, resolve_wikilink, wikilink_candidate};

fn sorted(mut v: Vec<String>) -> Vec<String> {
    v.sort();
    v
}

#[test]
fn test_frontmatter_parsing() {
    let content = "---\ntags: project, test\nstatus: active\n---\n# Note 1\n\nBody here.";
    let parsed = parse(content);
    assert_eq!(parsed.frontmatter.get("tags").unwrap(), "project, test");
    assert_eq!(parsed.frontmatter.get("status").unwrap(), "active");
    assert!(parsed.body.contains("# Note 1"));
    assert_eq!(parsed.body, "# Note 1\n\nBody here.");
    assert_eq!(parsed.raw, content);
}

#[test]
fn frontmatter_absent_keeps_whole_body() {
    let content = "# Title\n\ntext";
    let parsed = parse(content);
    assert!(parsed.frontmatter.is_empty());
    assert_eq!(parsed.body, content);
}

#[test]
fn frontmatter_without_closing_is_all_body() {
    let content = "---\ntitle: x\nno closing line";
    let parsed = parse(content);
    assert!(parsed.frontmatter.is_empty());
    assert_eq!(parsed.body, content);
}

#[test]
fn frontmatter_body_loses_leading_newlines_only() {
    let parsed = parse("---\na: 1\n---\n\n\n  body\n");
    assert_eq!(parsed.body, "  body\n");
    assert_eq!(parsed.frontmatter.get("a").unwrap(), "1");
}

#[test]
fn frontmatter_over_the_size_limit_is_not_parsed() {
    let yaml = format!("\na: {}\n", "x".repeat(9000));
    let content = format!("---{}---\nbody", yaml);
    let parsed = parse(&content);
    assert!(parsed.frontmatter.is_empty());
    assert_eq!(parsed.body, "body");
    assert_eq!(parsed.raw, content);
}

#[test]
fn frontmatter_at_the_size_limit_is_parsed() {
    // "\na: " + value + "\n" is exactly 8192 bytes.
    let value = "y".repeat(8192 - 5);
    let content = format!("---\na: {}\n---\nbody", value);
    let parsed = parse(&content);
    assert_eq!(parsed.frontmatter.get("a").unwrap(), &value);
    assert_eq!(parsed.body, "body");
    // One byte more and the block gives no fields; the body is still what follows it.
    let content = format!("---\na: {}y\n---\nbody", value);
    let parsed = parse(&content);
    assert!(parsed.frontmatter.is_empty());
    assert_eq!(parsed.body, "body");
}

#[test]
fn frontmatter_values_of_other_kinds_become_text() {
    let content = "---\nn: 5\nr: 1.50\nb: true\nz:\nlist:\n  - a\n  - 2\nmap:\n  k: v\n---\nx";
    let parsed = parse(content);
    assert_eq!(parsed.frontmatter.get("n").unwrap(), "5");
    assert_eq!(parsed.frontmatter.get("r").unwrap(), "1.50");
    assert_eq!(parsed.frontmatter.get("b").unwrap(), "true");
    assert_eq!(parsed.frontmatter.get("z").unwrap(), "");
    assert_eq!(parsed.frontmatter.get("list").unwrap(), "a, 2");
    assert!(parsed.frontmatter.get("map").is_none());
    assert_eq!(parsed.frontmatter.len(), 5);
}

#[test]
fn frontmatter_that_is_no_yaml_mapping_has_no_fields() {
    let parsed = parse("---\n[unclosed\n---\nbody");
    assert!(parsed.frontmatter.is_empty());
    assert_eq!(parsed.body, "body");
    let parsed = parse("---\njust text\n---\nbody");
    assert!(parsed.frontmatter.is_empty());
}

#[test]
fn frontmatter_keeps_field_order_and_one_value_per_key() {
    let mut fm = Frontmatter::new();
    fm.insert("a".to_string(), "1".to_string());
    fm.insert("b".to_string(), "2".to_string());
    fm.insert("a".to_string(), "3".to_string());
    assert_eq!(fm.len(), 2);
    assert_eq!(fm.get("a").unwrap(), "3");
    let pairs = fm.to_pairs();
    assert_eq!(pairs, vec![("a".to_string(), "3".to_string()), ("b".to_string(), "2".to_string())]);
    let again = Frontmatter::from_pairs(vec![("x".to_string(), "1".to_string()), ("x".to_string(), "2".to_string())]);
    assert_eq!(again.len(), 1);
    assert_eq!(again.get("x").unwrap(), "2");
}

#[test]
fn test_wikilink_extraction() {
    let content = "Link to [[note2]] and [[note3|Note Three]].";
    let links = extract_wikilinks(content);
    assert_eq!(links.len(), 2);
    assert_eq!(links[0].target, "note2");
    assert_eq!(links[1].target, "note3");
    assert_eq!(links[1].alias, Some("Note Three".to_string()));
    assert_eq!(links[0].alias, None);
    assert_eq!(links[1].raw, "[[note3|Note Three]]");
}

#[test]
fn wikilinks_match_the_regex_of_the_original() {
    let re = regex::Regex::new(r"\[\[([^\]|]+?)(?:\|([^\]]+?))?\]\]").unwrap();
    let samples = [
        "[[a]] [[b|c]] [[]] [[d|]] [[e|f|g]] [[h]",
        "[[[x]]] [[a]b]] [[é|ü]] text [[x|y]]z]]",
        "[[a\nb]] [[|x]] [[p|q]] ]] [[",
    ];
    for s in samples {
        let ours: Vec<(String, Option<String>, String)> = extract_wikilinks(s)
            .into_iter()
            .map(|l| (l.target, l.alias, l.raw))
            .collect();
        let theirs: Vec<(String, Option<String>, String)> = re
            .captures_iter(s)
            .map(|c| (c[1].to_string(), c.get(2).map(|m| m.as_str().to_string()), c[0].to_string()))
            .collect();
        assert_eq!(ours, theirs, "on {:?}", s);
    }
}

#[test]
fn test_tag_extraction() {
    let content = "Some text #project #test/tags here.";
    let tags = extract_tags(content);
    assert!(tags.contains("project"));
    assert!(tags.contains("test/tags"));
    assert_eq!(tags.len(), 2);
}

#[test]
fn tags_match_the_regex_with_its_look_behind() {
    // The pattern `(?<![#\w\[])#([\w/-]+)`: `regex` has no look-behind, so each match of the
    // rest is kept when the character before its `#` is not `#`, `[` or a word character.
    // A match never holds a `#`, so no match that the look-behind keeps is hidden.
    let re = regex::Regex::new(r"#([\w/-]+)").unwrap();
    let word = regex::Regex::new(r"^\w$").unwrap();
    let samples = ["#a #b-c #d/e ## #café x#y #_1 #-", "#日本語 #a.b #a,b #ﬁ", "a#b and [[Note#Sec]] [#x (#y) ##z #p#q #r-#s"];
    for s in samples {
        let ours = sorted(extract_tags(s).to_vec());
        let mut theirs: Vec<String> = re
            .captures_iter(s)
            .filter(|c| {
                let at = c.get(0).unwrap().start();
                match s[..at].chars().last() {
                    None => true,
                    Some(p) => p != '#' && p != '[' && !word.is_match(&p.to_string()),
                }
            })
            .map(|c| c[1].to_string())
            .collect();
        theirs.sort();
        theirs.dedup();
        assert_eq!(ours, theirs, "on {:?}", s);
    }
}

#[test]
fn no_tag_follows_a_word_character_or_a_bracket() {
    assert!(extract_tags("a#b and [[Note#Sec]]").to_vec().is_empty());
    assert_eq!(sorted(extract_tags("(#y) [#x #r-#s").to_vec()), vec!["r-", "s", "y"]);
}

#[test]
fn tags_from_frontmatter_are_split_and_trimmed() {
    let mut fm = Frontmatter::new();
    fm.insert("tags".to_string(), " #a, b ,, ##c\t".to_string());
    fm.insert("tag".to_string(), "d".to_string());
    fm.insert("other".to_string(), "e".to_string());
    let tags = sorted(extract_tags_from_frontmatter(&fm).to_vec());
    assert_eq!(tags, vec!["a", "b", "c", "d"]);
}

#[test]
fn all_tags_joins_text_and_frontmatter_tags() {
    let content = "---\ntags: alpha\n---\ntext #beta #alpha";
    let parsed = parse(content);
    let tags = sorted(all_tags(content, &parsed.frontmatter).to_vec());
    assert_eq!(tags, vec!["alpha", "beta"]);
}

#[test]
fn relative_path_strips_the_vault_and_turns_backslashes() {
    assert_eq!(relative_path("C:\\vault\\notes\\a.md", "C:\\vault"), "notes/a.md");
    assert_eq!(relative_path("/vault/notes/a.md", "/vault/"), "notes/a.md");
    assert_eq!(relative_path("/vault", "/vault"), "");
    assert_eq!(relative_path("/vaultx/a.md", "/vault"), "/vaultx/a.md");
    assert_eq!(relative_path("/other/x\\y.md", "/vault"), "/other/x/y.md");
}

#[test]
fn relative_path_drops_empty_and_dot_parts_at_its_ends() {
    assert_eq!(relative_path("/v/a/", "/v"), "a");
    assert_eq!(relative_path("/v//./a/.", "/v"), "a");
    assert_eq!(relative_path("/v/./", "/v"), "");
    assert_eq!(relative_path("/v/a/./b", "/v"), "a/./b");
    assert_eq!(relative_path("/v/.hidden/..x", "/v"), ".hidden/..x");
    assert_eq!(relative_path("/v/a.", "/v"), "a.");
}

#[test]
fn resolve_wikilink_prefers_the_direct_file() {
    let files = vec!["/v/sub/Note2.md".to_string()];
    assert_eq!(wikilink_candidate("note2", "/v"), Some("/v/note2.md".to_string()));
    assert_eq!(resolve_wikilink("note2", "/v", true, &files), Some("/v/note2.md".to_string()));
}

#[test]
fn resolve_wikilink_finds_a_stem_case_aside() {
    let files = vec![
        "/v/a.txt".to_string(),
        "/v/sub/NOTE2.txt".to_string(),
        "/v/sub/Note2.md".to_string(),
        "/v/other/note2.md".to_string(),
    ];
    assert_eq!(resolve_wikilink("note2", "/v", false, &files), Some("/v/sub/Note2.md".to_string()));
    assert_eq!(resolve_wikilink("ÄBC", "/v", false, &vec!["/v/äbc.md".to_string()]), Some("/v/äbc.md".to_string()));
    assert_eq!(resolve_wikilink("missing", "/v", false, &files), None);
}

#[test]
fn resolve_wikilink_never_leads_out_of_the_vault() {
    assert_eq!(wikilink_candidate("../secret", "/v"), None);
    let files = vec!["/v/secret.md".to_string()];
    assert_eq!(resolve_wikilink("../secret", "/v", true, &files), None);
}

#[test]
fn fields_come_from_the_first_mapping_document() {
    let s = |x: &str| YamlNode::Str(x.to_string());
    let doc = YamlNode::Hash(vec![
        (s("a"), s("x")),
        (s("n"), YamlNode::Integer(-42)),
        (YamlNode::Integer(1), s("ignored")),
        (s("list"), YamlNode::Array(vec![s("p"), YamlNode::Hash(vec![]), YamlNode::Boolean(false)])),
        (s("h"), YamlNode::Hash(vec![])),
        (s("a"), s("y")),
    ]);
    let fm = frontmatter_of_documents(&Some(vec![doc, YamlNode::Hash(vec![(s("b"), s("z"))])]));
    assert_eq!(fm.to_pairs(), vec![
        ("a".to_string(), "y".to_string()),
        ("n".to_string(), "-42".to_string()),
        ("list".to_string(), "p, false".to_string()),
    ]);
    assert!(frontmatter_of_documents(&None).is_empty());
    assert!(frontmatter_of_documents(&Some(vec![])).is_empty());
    assert!(frontmatter_of_documents(&Some(vec![s("text")])).is_empty());
}

#[test]
fn white_space_is_what_char_is_whitespace_says() {
    for u in 0u32..0x110000 {
        if let Some(c) = char::from_u32(u) {
            assert_eq!(is_white_space(c), c.is_whitespace(), "at U+{:04X}", u);
        }
    }
}
