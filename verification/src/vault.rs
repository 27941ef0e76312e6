use vstd::prelude::*;

use crate::config::Config;
use crate::parse::frontmatter::{
    dashes_at, documents_frontmatter, find_dashes, frontmatter_block, has_key, keys_distinct,
    lemma_find_dashes, lemma_pairs_insert, pairs_get, pairs_insert_all, parse, block_fields,
    trim_leading_newlines, utf8_len, yaml_documents, Frontmatter, FRONTMATTER_LIMIT,
};
use crate::parse::tags::{all_tags, frontmatter_tags, is_white_space, text_tags, white_space};
use crate::parse::wikilink::{extract_wikilinks, links_from, relative_path, Wikilink};
use crate::paths::{
    file_stem, forward_slashes, is_markdown, law_join_then_relative, lemma_plain_ends, path_join,
    plain_ends, relative_to, safe_relative, strip_dir_prefix, trim_parts,
};
use crate::paths::{file_stem_of, is_markdown_path, is_safe_relative, join_path};
use crate::text::{
    cat, chars_of, contains_chars, contains_text, lowercase, lowercase_of, sort_texts,
    string_from_chars, string_of, texts_sorted, views,
};

verus! {

// ----------------------------------------------------------------------------
// Writing frontmatter: one `key: value` line per field, between two `---` lines.
// ----------------------------------------------------------------------------

/// The line that holds one field.
pub open spec fn field_line(k: Seq<char>, v: Seq<char>) -> Seq<char> {
    k + seq![':', ' '] + v + seq!['\n']
}

/// The lines of all fields, in order.
pub open spec fn serialized(fm: Seq<(Seq<char>, Seq<char>)>) -> Seq<char>
    decreases fm.len(),
{
    if fm.len() == 0 {
        Seq::empty()
    } else {
        serialized(fm.drop_last()) + field_line(fm.last().0, fm.last().1)
    }
}

/// A note made of a frontmatter block with these fields and then `body`.
pub open spec fn note_text(fm: Seq<(Seq<char>, Seq<char>)>, body: Seq<char>) -> Seq<char> {
    seq!['-', '-', '-', '\n'] + serialized(fm) + seq!['-', '-', '-', '\n'] + body
}

/// What a new note holds: its fields in a block when there are any, then the body.
pub open spec fn built_note(body: Seq<char>, fields: Option<Seq<(Seq<char>, Seq<char>)>>) -> Seq<char> {
    match fields {
        Some(f) => if f.len() > 0 {
            note_text(f, body)
        } else {
            body
        },
        None => body,
    }
}

/// No `---` starts anywhere in `s`.
pub open spec fn free_of_dashes(s: Seq<char>) -> bool {
    forall|i: int| !#[trigger] dashes_at(s, i)
}

proof fn lemma_serialized_ends(fm: Seq<(Seq<char>, Seq<char>)>)
    ensures
        fm.len() > 0 ==> serialized(fm).len() > 0 && serialized(fm).last() == '\n',
{
}

/// The lines of the fields, as `serialized` says.
pub fn serialize_frontmatter(fields: &Frontmatter) -> (r: String)
    ensures
        r@ == serialized(fields@),
{
    let pairs = fields.to_pairs();
    let ghost ps = pairs@.map_values(|e: (String, String)| (e.0@, e.1@));
    let mut out: Vec<char> = Vec::new();
    let mut i: usize = 0;
    proof {
        assert(ps.subrange(0, 0) =~= Seq::<(Seq<char>, Seq<char>)>::empty());
    }
    while i < pairs.len()
        invariant
            i <= pairs.len(),
            ps == pairs@.map_values(|e: (String, String)| (e.0@, e.1@)),
            out@ == serialized(ps.subrange(0, i as int)),
        decreases pairs.len() - i,
    {
        let mut k = chars_of(pairs[i].0.as_str());
        let mut v = chars_of(pairs[i].1.as_str());
        let ghost before = out@;
        out.append(&mut k);
        out.push(':');
        out.push(' ');
        out.append(&mut v);
        out.push('\n');
        proof {
            assert(ps[i as int] == (pairs@[i as int].0@, pairs@[i as int].1@));
            assert(ps.subrange(0, i + 1).drop_last() =~= ps.subrange(0, i as int));
            assert(out@ =~= before + field_line(ps[i as int].0, ps[i as int].1));
        }
        i += 1;
    }
    proof {
        assert(ps.subrange(0, pairs.len() as int) =~= ps);
    }
    string_from_chars(out.as_slice())
}

/// A note made of a frontmatter block with `fields` and then `body`, as `note_text` says.
pub fn with_frontmatter(fields: &Frontmatter, body: &str) -> (r: String)
    ensures
        r@ == note_text(fields@, body@),
{
    let s = serialize_frontmatter(fields);
    let mut out: Vec<char> = Vec::new();
    out.push('-');
    out.push('-');
    out.push('-');
    out.push('\n');
    let mut sc = chars_of(s.as_str());
    out.append(&mut sc);
    out.push('-');
    out.push('-');
    out.push('-');
    out.push('\n');
    let mut bc = chars_of(body);
    out.append(&mut bc);
    proof {
        assert(out@ =~= note_text(fields@, body@));
    }
    string_from_chars(out.as_slice())
}

/// The text of a new note: a frontmatter block when `frontmatter_fields` holds any field,
/// then `body`.
pub fn build_note_content(body: &str, frontmatter_fields: Option<&Frontmatter>) -> (r: String)
    ensures
        r@ == built_note(
            body@,
            match frontmatter_fields {
                Some(f) => Some(f@),
                None => None,
            },
        ),
{
    match frontmatter_fields {
        Some(fields) => {
            if !fields.is_empty() {
                with_frontmatter(fields, body)
            } else {
                string_from_chars(chars_of(body).as_slice())
            }
        },
        None => string_from_chars(chars_of(body).as_slice()),
    }
}

/// A note written with fields and a body reads back with a frontmatter block that holds
/// exactly those field lines, and then that body, as long as no field line holds `---`.
pub proof fn law_written_block(fm: Seq<(Seq<char>, Seq<char>)>, body: Seq<char>)
    requires
        free_of_dashes(serialized(fm)),
    ensures
        frontmatter_block(note_text(fm, body)) == Some(
            (seq!['\n'] + serialized(fm), seq!['\n'] + body),
        ),
{
    let ser = serialized(fm);
    let l = ser.len() as int;
    let s = note_text(fm, body);
    lemma_serialized_ends(fm);
    assert(s.len() == 8 + l + body.len());
    assert forall|x: int| 0 <= x < l implies s[4 + x] == #[trigger] ser[x] by {}
    assert(s[3] == '\n');
    assert(s[4 + l] == '-' && s[5 + l] == '-' && s[6 + l] == '-' && s[7 + l] == '\n');
    assert forall|j: int| 3 <= j < 4 + l implies !#[trigger] dashes_at(s, j) by {
        if j == 3 {
        } else if j + 3 <= 4 + l {
            if dashes_at(s, j) {
                assert(dashes_at(ser, j - 4));
            }
        } else if j == l + 3 {
            assert(s[j] == ser[l - 1]);
        } else {
            assert(s[j + 1] == ser[l - 1]);
        }
    }
    lemma_find_dashes(s, 3, 4 + l);
    assert(dashes_at(s, 0));
    assert(dashes_at(s, 4 + l));
    assert(find_dashes(s, 4 + l) == Some(4 + l));
    assert(s.subrange(3, 4 + l) =~= seq!['\n'] + ser);
    assert(s.subrange(7 + l, s.len() as int) =~= seq!['\n'] + body);
}

/// Setting the fields `q` on the fields `p`: each key of `q` then has its value from `q`;
/// each other key keeps its value from `p`; no key occurs twice.
pub proof fn law_merged_fields(p: Seq<(Seq<char>, Seq<char>)>, q: Seq<(Seq<char>, Seq<char>)>, k: Seq<char>)
    requires
        keys_distinct(p),
        keys_distinct(q),
    ensures
        keys_distinct(pairs_insert_all(p, q)),
        pairs_get(pairs_insert_all(p, q), k) == (if has_key(q, k) {
            pairs_get(q, k)
        } else {
            pairs_get(p, k)
        }),
    decreases q.len(),
{
    if q.len() > 0 {
        let q0 = q.drop_last();
        assert(keys_distinct(q0));
        law_merged_fields(p, q0, k);
        let m0 = pairs_insert_all(p, q0);
        lemma_pairs_insert(m0, q.last().0, q.last().1);
        if k == q.last().0 {
            crate::parse::frontmatter::lemma_key_index(q, k, q.len() - 1);
        } else {
            if has_key(q, k) {
                let j = crate::parse::frontmatter::key_index(q, k);
                assert(j < q.len() - 1);
                crate::parse::frontmatter::lemma_key_index(q0, k, j);
                crate::parse::frontmatter::lemma_key_index(q, k, j);
            }
            if has_key(q0, k) {
                let j = crate::parse::frontmatter::key_index(q0, k);
                assert(q[j] == q0[j]);
            }
        }
    }
}

} // verus!

verus! {

// ----------------------------------------------------------------------------
// Notes as they are read.
// ----------------------------------------------------------------------------

/// The fields of a note's frontmatter, as `parse` finds them.
pub open spec fn note_fields(content: Seq<char>) -> Seq<(Seq<char>, Seq<char>)> {
    match frontmatter_block(content) {
        Some((y, _)) => block_fields(y),
        None => Seq::empty(),
    }
}

/// The body of a note, as `parse` finds it.
pub open spec fn note_body(content: Seq<char>) -> Seq<char> {
    match frontmatter_block(content) {
        Some((_, rest)) => trim_leading_newlines(rest),
        None => content,
    }
}

/// The tags of a note: those of its text and those of its frontmatter.
pub open spec fn note_tags(content: Seq<char>) -> Set<Seq<char>> {
    text_tags(content).union(frontmatter_tags(note_fields(content)))
}

/// The targets of the links of a note, in order.
pub open spec fn link_targets(content: Seq<char>) -> Seq<Seq<char>> {
    links_from(content, 0).map_values(|l: (Seq<char>, Option<Seq<char>>, Seq<char>)| l.0)
}

/// The fields of a note hold each key once.
pub proof fn lemma_note_fields_distinct(content: Seq<char>)
    ensures
        keys_distinct(note_fields(content)),
{
    if let Some((y, _)) = frontmatter_block(content) {
        if utf8_len(y) <= FRONTMATTER_LIMIT {
            crate::parse::frontmatter::lemma_documents_distinct(yaml_documents(y));
        }
    }
}

/// A note as the server reports it.
#[derive(Debug)]
pub struct NoteInfo {
    pub path: String,
    pub frontmatter: Frontmatter,
    pub body: String,
    pub tags: Vec<String>,
    pub links: Vec<String>,
    pub backlinks: Vec<String>,
}

/// `info` is what reading the file `full_path`, which holds `content`, from the vault at
/// `vault` gives: its path relative to the vault, its fields, body, tags (each once) and
/// link targets, and no backlinks.
pub open spec fn describes(info: NoteInfo, vault: Seq<char>, full_path: Seq<char>, content: Seq<char>) -> bool {
    &&& info.path@ == relative_to(full_path, vault)
    &&& info.frontmatter@ == note_fields(content)
    &&& info.body@ == note_body(content)
    &&& views(info.tags@).no_duplicates()
    &&& views(info.tags@).to_set() == note_tags(content)
    &&& views(info.links@) == link_targets(content)
    &&& info.backlinks@.len() == 0
}

/// What can go wrong with a request on the vault.
#[derive(Debug)]
pub enum VaultError {
    /// No note at this path, with or without `.md`.
    NotFound { path: String },
    /// A note is already there.
    AlreadyExists { path: String },
    /// An update mode other than `append` and `replace`.
    InvalidMode { mode: String },
    /// No template of this name.
    TemplateNotFound { name: String },
    /// The path would lead out of the vault.
    OutsideVault { path: String },
    /// The template name would lead out of the templates directory.
    OutsideTemplates { name: String },
    /// Writing the file at this path was not permitted.
    WriteDenied { path: String },
}

/// The message of an error.
pub open spec fn error_message(e: VaultError) -> Seq<char> {
    match e {
        VaultError::NotFound { path } => "Note not found: "@ + path@,
        VaultError::AlreadyExists { path } => "Note already exists: "@ + path@,
        VaultError::InvalidMode { mode } => "Invalid mode: "@ + mode@ + " (use 'append' or 'replace')"@,
        VaultError::TemplateNotFound { name } => "Template not found: "@ + name@,
        VaultError::OutsideVault { path } => "Path leads outside the vault: "@ + path@,
        VaultError::OutsideTemplates { name } => "Template lies outside the templates directory: "@ + name@,
        VaultError::WriteDenied { path } => "Cannot write: permission denied for "@ + path@,
    }
}

impl VaultError {
    /// The message to show for this error.
    pub fn message(&self) -> (r: String)
        ensures
            r@ == error_message(*self),
    {
        match self {
            VaultError::NotFound { path } => cat("Note not found: ", path.as_str()),
            VaultError::AlreadyExists { path } => cat("Note already exists: ", path.as_str()),
            VaultError::InvalidMode { mode } => {
                let a = cat("Invalid mode: ", mode.as_str());
                cat(a.as_str(), " (use 'append' or 'replace')")
            },
            VaultError::TemplateNotFound { name } => cat("Template not found: ", name.as_str()),
            VaultError::OutsideVault { path } => cat("Path leads outside the vault: ", path.as_str()),
            VaultError::OutsideTemplates { name } => cat(
                "Template lies outside the templates directory: ",
                name.as_str(),
            ),
            VaultError::WriteDenied { path } => cat("Cannot write: permission denied for ", path.as_str()),
        }
    }
}

/// `e` refuses the path `p` as leading out of the vault.
pub open spec fn refused_path(e: VaultError, p: Seq<char>) -> bool {
    match e {
        VaultError::OutsideVault { path } => path@ == p,
        _ => false,
    }
}

/// `e` refuses the template name `n` as leading out of the templates directory.
pub open spec fn refused_template(e: VaultError, n: Seq<char>) -> bool {
    match e {
        VaultError::OutsideTemplates { name } => name@ == n,
        _ => false,
    }
}

/// `e` says that a note is already at `p`.
pub open spec fn already_exists(e: VaultError, p: Seq<char>) -> bool {
    match e {
        VaultError::AlreadyExists { path } => path@ == p,
        _ => false,
    }
}

/// `e` says that there is no template named `n`.
pub open spec fn no_template(e: VaultError, n: Seq<char>) -> bool {
    match e {
        VaultError::TemplateNotFound { name } => name@ == n,
        _ => false,
    }
}

/// `e` says that no note is found at `p`.
pub open spec fn not_found(e: VaultError, p: Seq<char>) -> bool {
    match e {
        VaultError::NotFound { path } => path@ == p,
        _ => false,
    }
}

/// `.md`.
pub open spec fn md_ext() -> Seq<char> {
    seq!['.', 'm', 'd']
}

/// `s` with `.md` after it.
fn with_md(s: &str) -> (r: String)
    ensures
        r@ == s@ + md_ext(),
{
    let mut v = chars_of(s);
    v.push('.');
    v.push('m');
    v.push('d');
    proof {
        assert(v@ =~= s@ + md_ext());
    }
    string_from_chars(v.as_slice())
}

/// A vault of notes.
pub struct Vault {
    pub config: Config,
}

impl Vault {
    pub fn new(config: Config) -> (r: Self)
        ensures
            r.config == config,
    {
        Self { config }
    }

    /// What reading the file `full_path`, which holds `content`, gives: as `describes` says.
    pub fn note_info(&self, full_path: &str, content: &str) -> (r: NoteInfo)
        ensures
            describes(r, self.config.vault_path@, full_path@, content@),
    {
        let parsed = parse(content);
        let tags = all_tags(content, &parsed.frontmatter).to_vec();
        let found = extract_wikilinks(content);
        let mut links: Vec<String> = Vec::new();
        let mut i: usize = 0;
        let ghost lv = found@.map_values(|l: Wikilink| crate::parse::wikilink::link_view(l));
        while i < found.len()
            invariant
                i <= found.len(),
                lv == found@.map_values(|l: Wikilink| crate::parse::wikilink::link_view(l)),
                views(links@) =~= lv.subrange(0, i as int).map_values(
                    |l: (Seq<char>, Option<Seq<char>>, Seq<char>)| l.0,
                ),
            decreases found.len() - i,
        {
            let t = found[i].target.clone();
            let ghost before = links@;
            links.push(t);
            proof {
                assert(views(links@) =~= views(before).push(t@));
                assert(lv.subrange(0, i + 1).map_values(
                    |l: (Seq<char>, Option<Seq<char>>, Seq<char>)| l.0,
                ) =~= lv.subrange(0, i as int).map_values(
                    |l: (Seq<char>, Option<Seq<char>>, Seq<char>)| l.0,
                ).push(lv[i as int].0));
                assert(lv[i as int].0 == found@[i as int].target@);
                assert(lv.subrange(0, i + 1) =~= lv.subrange(0, i as int).push(lv[i as int]));
            }
            i += 1;
        }
        proof {
            assert(lv.subrange(0, found.len() as int) =~= lv);
        }
        NoteInfo {
            path: relative_path(full_path, self.config.vault_path.as_str()),
            frontmatter: parsed.frontmatter,
            body: parsed.body,
            tags,
            links,
            backlinks: Vec::new(),
        }
    }

    /// The full path of `note_path` in the vault; refused when `note_path` would lead out of
    /// the vault (it starts at a root or a drive, or has a `..` component).
    pub fn note_path(&self, note_path: &str) -> (r: Result<String, VaultError>)
        ensures
            match r {
                Ok(p) => safe_relative(note_path@) && p@ == path_join(self.config.vault_path@, note_path@),
                Err(e) => !safe_relative(note_path@) && refused_path(e, note_path@),
            },
    {
        if is_safe_relative(note_path) {
            Ok(join_path(self.config.vault_path.as_str(), note_path))
        } else {
            Err(VaultError::OutsideVault { path: string_of(note_path) })
        }
    }

    /// The two files that `note_path` may name: the path itself, and the path with `.md`;
    /// refused as `note_path` refuses.
    pub fn note_path_candidates(&self, note_path: &str) -> (r: Result<(String, String), VaultError>)
        ensures
            match r {
                Ok((a, b)) => safe_relative(note_path@) && a@ == path_join(self.config.vault_path@, note_path@)
                    && b@ == path_join(self.config.vault_path@, note_path@ + md_ext()),
                Err(e) => !safe_relative(note_path@) && refused_path(e, note_path@),
            },
    {
        let a = self.note_path(note_path)?;
        let m = with_md(note_path);
        Ok((a, join_path(self.config.vault_path.as_str(), m.as_str())))
    }

    /// The file that `note_path` names, given whether each of its two candidates exists: the
    /// path itself when that exists, else the path with `.md` when that exists, else the note
    /// is not found. Refused as `note_path` refuses.
    pub fn resolve_note_path(&self, note_path: &str, direct_exists: bool, with_ext_exists: bool) -> (r: Result<String, VaultError>)
        ensures
            r is Ok <==> safe_relative(note_path@) && (direct_exists || with_ext_exists),
            match r {
                Ok(p) => if direct_exists {
                    p@ == path_join(self.config.vault_path@, note_path@)
                } else {
                    p@ == path_join(self.config.vault_path@, note_path@ + md_ext())
                },
                Err(e) => if safe_relative(note_path@) {
                    not_found(e, note_path@)
                } else {
                    refused_path(e, note_path@)
                },
            },
    {
        let (a, b) = self.note_path_candidates(note_path)?;
        if direct_exists {
            Ok(a)
        } else if with_ext_exists {
            Ok(b)
        } else {
            Err(VaultError::NotFound { path: string_of(note_path) })
        }
    }

    /// The file for a new note at `note_path`, given whether something is there already:
    /// refused as `note_path` refuses, and when the place is taken.
    pub fn new_note_path(&self, note_path: &str, taken: bool) -> (r: Result<String, VaultError>)
        ensures
            r is Ok <==> safe_relative(note_path@) && !taken,
            match r {
                Ok(p) => p@ == path_join(self.config.vault_path@, note_path@),
                Err(e) => if safe_relative(note_path@) {
                    already_exists(e, note_path@)
                } else {
                    refused_path(e, note_path@)
                },
            },
    {
        let p = self.note_path(note_path)?;
        if taken {
            Err(VaultError::AlreadyExists { path: string_of(note_path) })
        } else {
            Ok(p)
        }
    }
}

} // verus!

verus! {

// ----------------------------------------------------------------------------
// Changing notes.
// ----------------------------------------------------------------------------

/// Whether `s` is the text `t`.
pub fn text_is(s: &str, t: &[char]) -> (r: bool)
    ensures
        r == (s@ == t@),
{
    let cs = chars_of(s);
    if cs.len() != t.len() {
        return false;
    }
    let mut i: usize = 0;
    while i < cs.len()
        invariant
            i <= cs.len(),
            cs.len() == t.len(),
            cs@ == s@,
            forall|j: int| 0 <= j < i ==> cs@[j] == t@[j],
        decreases cs.len() - i,
    {
        if cs[i] != t[i] {
            proof {
                assert(cs@[i as int] != t@[i as int]);
            }
            return false;
        }
        i += 1;
    }
    proof {
        assert(cs@ =~= t@);
    }
    true
}

/// `append`.
pub open spec fn append_mode() -> Seq<char> {
    seq!['a', 'p', 'p', 'e', 'n', 'd']
}

/// `replace`.
pub open spec fn replace_mode() -> Seq<char> {
    seq!['r', 'e', 'p', 'l', 'a', 'c', 'e']
}

/// What a note holds after an update with `content` in `mode`: `append` adds a newline and
/// the content; `replace` keeps the frontmatter fields, when there are any, and puts the
/// content in place of the body; any other mode is refused (None).
pub open spec fn updated_text(existing: Seq<char>, content: Seq<char>, mode: Seq<char>) -> Option<Seq<char>> {
    if mode == append_mode() {
        Some(existing + seq!['\n'] + content)
    } else if mode == replace_mode() {
        if note_fields(existing).len() > 0 {
            Some(note_text(note_fields(existing), content))
        } else {
            Some(content)
        }
    } else {
        None
    }
}

/// `e` refuses the update mode `m`.
pub open spec fn invalid_mode(e: VaultError, m: Seq<char>) -> bool {
    match e {
        VaultError::InvalidMode { mode } => mode@ == m,
        _ => false,
    }
}

/// The text of a note after an update, as `updated_text` says; the mode is refused when it
/// is neither `append` nor `replace`.
pub fn updated_content(existing: &str, content: &str, mode: &str) -> (r: Result<String, VaultError>)
    ensures
        match r {
            Ok(t) => updated_text(existing@, content@, mode@) == Some(t@),
            Err(e) => updated_text(existing@, content@, mode@) is None && invalid_mode(e, mode@),
        },
{
    if text_is(mode, &['a', 'p', 'p', 'e', 'n', 'd']) {
        proof {
            assert(mode@ =~= append_mode());
        }
        let mut v = chars_of(existing);
        v.push('\n');
        let mut c = chars_of(content);
        v.append(&mut c);
        proof {
            assert(v@ =~= existing@ + seq!['\n'] + content@);
        }
        Ok(string_from_chars(v.as_slice()))
    } else if text_is(mode, &['r', 'e', 'p', 'l', 'a', 'c', 'e']) {
        proof {
            assert(mode@ =~= replace_mode());
            assert(mode@ != append_mode());
        }
        let parsed = parse(existing);
        if !parsed.frontmatter.is_empty() {
            Ok(with_frontmatter(&parsed.frontmatter, content))
        } else {
            Ok(string_of(content))
        }
    } else {
        proof {
            if mode@ == append_mode() {
                assert(mode@ =~= seq!['a', 'p', 'p', 'e', 'n', 'd']);
            }
            if mode@ == replace_mode() {
                assert(mode@ =~= seq!['r', 'e', 'p', 'l', 'a', 'c', 'e']);
            }
        }
        Err(VaultError::InvalidMode { mode: string_of(mode) })
    }
}

/// What a note holds after its fields are set to `fields`: the fields merged (a given field
/// replaces the one of the same key, the others are added after the existing ones), in a
/// block before the body; the note unchanged when it ends up with no fields at all.
pub open spec fn fields_set_text(content: Seq<char>, fields: Seq<(Seq<char>, Seq<char>)>) -> Seq<char> {
    let merged = pairs_insert_all(note_fields(content), fields);
    if merged.len() == 0 {
        content
    } else {
        note_text(merged, note_body(content))
    }
}

/// The text of a note after its fields are set to `fields`, as `fields_set_text` says.
pub fn frontmatter_set(content: &str, fields: &Frontmatter) -> (r: String)
    ensures
        r@ == fields_set_text(content@, fields@),
{
    let parsed = parse(content);
    let merged = parsed.frontmatter.merged_with(fields);
    if merged.is_empty() {
        string_of(content)
    } else {
        with_frontmatter(&merged, parsed.body.as_str())
    }
}

/// `s` holds white space only (so `str::trim` leaves nothing of it).
pub open spec fn is_blank(s: Seq<char>) -> bool {
    forall|i: int| 0 <= i < s.len() ==> white_space(#[trigger] s[i])
}

/// Whether `s` holds white space only, as `is_blank` says.
pub fn blank(s: &str) -> (r: bool)
    ensures
        r == is_blank(s@),
{
    let cs = chars_of(s);
    let mut i: usize = 0;
    while i < cs.len()
        invariant
            i <= cs.len(),
            cs@ == s@,
            forall|j: int| 0 <= j < i ==> white_space(#[trigger] cs@[j]),
        decreases cs.len() - i,
    {
        if !is_white_space(cs[i]) {
            return false;
        }
        i += 1;
    }
    true
}

/// What a note holds after a template is applied to it: the template's fields with the
/// note's own fields set over them; the note's body, or the template's when the note's body
/// is blank; a frontmatter block only when there is any field.
pub open spec fn applied_text(template: Seq<char>, existing: Seq<char>) -> Seq<char> {
    let merged = pairs_insert_all(note_fields(template), note_fields(existing));
    let body = if is_blank(note_body(existing)) {
        note_body(template)
    } else {
        note_body(existing)
    };
    if merged.len() == 0 {
        body
    } else {
        note_text(merged, body)
    }
}

/// The text of a note after the template `template_content` is applied to it, as
/// `applied_text` says.
pub fn applied_template(template_content: &str, existing: &str) -> (r: String)
    ensures
        r@ == applied_text(template_content@, existing@),
{
    let parsed_existing = parse(existing);
    let parsed_template = parse(template_content);
    let merged = parsed_template.frontmatter.merged_with(&parsed_existing.frontmatter);
    let body = if blank(parsed_existing.body.as_str()) {
        parsed_template.body
    } else {
        parsed_existing.body
    };
    if merged.is_empty() {
        body
    } else {
        with_frontmatter(&merged, body.as_str())
    }
}

} // verus!

verus! {

// ----------------------------------------------------------------------------
// Searching the notes of the vault. Each search is handed the markdown files of the vault,
// in the order in which the walk found them, as pairs of full path and content.
// ----------------------------------------------------------------------------

/// The text of each file: its full path and its content.
pub open spec fn file_views(files: Seq<(String, String)>) -> Seq<(Seq<char>, Seq<char>)> {
    files.map_values(|f: (String, String)| (f.0@, f.1@))
}

/// The positions of `v` as integers.
pub open spec fn as_ints(v: Seq<usize>) -> Seq<int> {
    v.map_values(|x: usize| x as int)
}

/// The positions, in order, at which `hits` holds.
pub open spec fn positions_where(hits: Seq<bool>) -> Seq<int>
    decreases hits.len(),
{
    if hits.len() == 0 {
        Seq::empty()
    } else {
        let p = positions_where(hits.drop_last());
        if hits.last() {
            p.push(hits.len() - 1)
        } else {
            p
        }
    }
}

/// The first positions at which `hits` holds, `limit` of them at most.
pub open spec fn first_positions(hits: Seq<bool>, limit: nat) -> Seq<int> {
    let p = positions_where(hits);
    if p.len() <= limit {
        p
    } else {
        p.take(limit as int)
    }
}

/// `infos` are the notes of the files at `pos`, in order, read from the vault at `vault`.
pub open spec fn reports(infos: Seq<NoteInfo>, vault: Seq<char>, files: Seq<(Seq<char>, Seq<char>)>, pos: Seq<int>) -> bool {
    &&& infos.len() == pos.len()
    &&& forall|i: int|
        0 <= i < pos.len() ==> describes(#[trigger] infos[i], vault, files[pos[i]].0, files[pos[i]].1)
}

/// The content of a note holds the query, case aside (both taken by `str::to_lowercase`).
pub open spec fn matches_query(content: Seq<char>, query: Seq<char>) -> bool {
    contains_text(lowercase(content), lowercase(query))
}

/// Which files match the query.
pub open spec fn query_hits(files: Seq<(Seq<char>, Seq<char>)>, query: Seq<char>) -> Seq<bool> {
    files.map_values(|f: (Seq<char>, Seq<char>)| matches_query(f.1, query))
}

/// A note's tags hold every wanted tag (`all`) or at least one of them.
pub open spec fn tags_match(tags: Set<Seq<char>>, wanted: Seq<Seq<char>>, all: bool) -> bool {
    if all {
        forall|i: int| 0 <= i < wanted.len() ==> tags.contains(#[trigger] wanted[i])
    } else {
        exists|i: int| 0 <= i < wanted.len() && tags.contains(#[trigger] wanted[i])
    }
}

/// Which files have the wanted tags.
pub open spec fn tag_hits(files: Seq<(Seq<char>, Seq<char>)>, wanted: Seq<Seq<char>>, all: bool) -> Seq<bool> {
    files.map_values(|f: (Seq<char>, Seq<char>)| tags_match(note_tags(f.1), wanted, all))
}

/// `all`.
pub open spec fn all_mode() -> Seq<char> {
    seq!['a', 'l', 'l']
}

/// The fields hold every filter: each filter's key with the filter's value.
pub open spec fn fields_match(fm: Seq<(Seq<char>, Seq<char>)>, filters: Seq<(Seq<char>, Seq<char>)>) -> bool {
    forall|i: int| 0 <= i < filters.len() ==> pairs_get(fm, #[trigger] filters[i].0) == Some(filters[i].1)
}

/// Which files have fields that hold every filter.
pub open spec fn field_hits(files: Seq<(Seq<char>, Seq<char>)>, filters: Seq<(Seq<char>, Seq<char>)>) -> Seq<bool> {
    files.map_values(|f: (Seq<char>, Seq<char>)| fields_match(note_fields(f.1), filters))
}

/// The name that links to a note use: the note's file stem, or the path as given when it
/// has none.
pub open spec fn link_name(note_path: Seq<char>) -> Seq<char> {
    match file_stem(note_path) {
        Some(s) => s,
        None => note_path,
    }
}

/// Which files hold a link whose target is `name`.
pub open spec fn link_hits(files: Seq<(Seq<char>, Seq<char>)>, name: Seq<char>) -> Seq<bool> {
    files.map_values(|f: (Seq<char>, Seq<char>)| link_targets(f.1).contains(name))
}

/// The positions at which `hits` holds, as `positions_where` says.
fn positions_of(hits: &Vec<bool>) -> (r: Vec<usize>)
    ensures
        as_ints(r@) == positions_where(hits@),
        forall|i: int| 0 <= i < r.len() ==> #[trigger] r@[i] < hits.len(),
{
    let mut r: Vec<usize> = Vec::new();
    let mut i: usize = 0;
    proof {
        assert(hits@.subrange(0, 0) =~= Seq::<bool>::empty());
        assert(as_ints(r@) =~= Seq::<int>::empty());
    }
    while i < hits.len()
        invariant
            i <= hits.len(),
            as_ints(r@) == positions_where(hits@.subrange(0, i as int)),
            forall|j: int| 0 <= j < r.len() ==> #[trigger] r@[j] < i,
        decreases hits.len() - i,
    {
        let ghost before = r@;
        if hits[i] {
            r.push(i);
        }
        proof {
            assert(hits@.subrange(0, i + 1).drop_last() =~= hits@.subrange(0, i as int));
            if hits@[i as int] {
                assert(as_ints(r@) =~= as_ints(before).push(i as int));
            } else {
                assert(as_ints(r@) =~= as_ints(before));
            }
        }
        i += 1;
    }
    proof {
        assert(hits@.subrange(0, hits.len() as int) =~= hits@);
    }
    r
}

/// Whether the content holds the query, case aside, as `matches_query` says.
pub fn note_matches_query(content: &str, query: &str) -> (r: bool)
    ensures
        r == matches_query(content@, query@),
{
    let c = lowercase_of(content);
    let q = lowercase_of(query);
    contains_chars(&chars_of(c.as_str()), &chars_of(q.as_str()))
}

/// Whether a note with these tags has the wanted tags, as `tags_match` says.
fn tags_match_exec(tags: &crate::parse::tags::TagSet, wanted: &Vec<String>, all: bool) -> (r: bool)
    ensures
        r == tags_match(tags@, views(wanted@), all),
{
    let mut i: usize = 0;
    while i < wanted.len()
        invariant
            i <= wanted.len(),
            all ==> forall|j: int| 0 <= j < i ==> tags@.contains(#[trigger] views(wanted@)[j]),
            !all ==> forall|j: int| 0 <= j < i ==> !tags@.contains(#[trigger] views(wanted@)[j]),
        decreases wanted.len() - i,
    {
        let present = tags.contains(wanted[i].as_str());
        proof {
            assert(views(wanted@)[i as int] == wanted@[i as int]@);
        }
        if all && !present {
            return false;
        }
        if !all && present {
            return true;
        }
        i += 1;
    }
    all
}

/// Whether the fields hold every filter, as `fields_match` says.
fn fields_match_exec(fm: &Frontmatter, filters: &Frontmatter) -> (r: bool)
    ensures
        r == fields_match(fm@, filters@),
{
    let pairs = filters.to_pairs();
    let ghost ps = pairs@.map_values(|e: (String, String)| (e.0@, e.1@));
    let mut i: usize = 0;
    while i < pairs.len()
        invariant
            i <= pairs.len(),
            ps == filters@,
            ps == pairs@.map_values(|e: (String, String)| (e.0@, e.1@)),
            forall|j: int| 0 <= j < i ==> pairs_get(fm@, #[trigger] ps[j].0) == Some(ps[j].1),
        decreases pairs.len() - i,
    {
        let got = fm.get(pairs[i].0.as_str());
        proof {
            assert(ps[i as int] == (pairs@[i as int].0@, pairs@[i as int].1@));
        }
        let ok = match got {
            Some(v) => *v == pairs[i].1,
            None => false,
        };
        if !ok {
            proof {
                assert(pairs_get(fm@, filters@[i as int].0) != Some(filters@[i as int].1));
            }
            return false;
        }
        i += 1;
    }
    true
}

/// Whether a link of the content has the target `name`.
fn links_to(content: &str, name: &String) -> (r: bool)
    ensures
        r == link_targets(content@).contains(name@),
{
    let links = extract_wikilinks(content);
    let ghost lv = links@.map_values(|l: Wikilink| crate::parse::wikilink::link_view(l));
    let ghost ts = link_targets(content@);
    proof {
        assert(ts =~= lv.map_values(|l: (Seq<char>, Option<Seq<char>>, Seq<char>)| l.0));
    }
    let mut i: usize = 0;
    while i < links.len()
        invariant
            i <= links.len(),
            lv == links@.map_values(|l: Wikilink| crate::parse::wikilink::link_view(l)),
            ts == lv.map_values(|l: (Seq<char>, Option<Seq<char>>, Seq<char>)| l.0),
            ts == link_targets(content@),
            forall|j: int| 0 <= j < i ==> ts[j] != name@,
        decreases links.len() - i,
    {
        proof {
            assert(ts[i as int] == links@[i as int].target@);
        }
        if links[i].target == *name {
            proof {
                assert(ts.len() == links.len());
                assert(ts[i as int] == name@);
                assert(ts.contains(name@));
            }
            return true;
        }
        i += 1;
    }
    false
}

/// The name that links to the note at `note_path` use, as `link_name` says.
pub fn link_name_of(note_path: &str) -> (r: String)
    ensures
        r@ == link_name(note_path@),
{
    match file_stem_of(note_path) {
        Some(s) => s,
        None => string_of(note_path),
    }
}

impl Vault {
    /// The notes of the files at `pos`, in order.
    fn infos_at(&self, files: &Vec<(String, String)>, pos: &Vec<usize>) -> (r: Vec<NoteInfo>)
        requires
            forall|i: int| 0 <= i < pos.len() ==> #[trigger] pos@[i] < files.len(),
        ensures
            reports(r@, self.config.vault_path@, file_views(files@), as_ints(pos@)),
    {
        let mut r: Vec<NoteInfo> = Vec::new();
        let mut i: usize = 0;
        while i < pos.len()
            invariant
                i <= pos.len(),
                forall|j: int| 0 <= j < pos.len() ==> #[trigger] pos@[j] < files.len(),
                r.len() == i,
                forall|j: int|
                    0 <= j < i ==> describes(
                        #[trigger] r@[j],
                        self.config.vault_path@,
                        file_views(files@)[as_ints(pos@)[j]].0,
                        file_views(files@)[as_ints(pos@)[j]].1,
                    ),
            decreases pos.len() - i,
        {
            let k = pos[i];
            let info = self.note_info(files[k].0.as_str(), files[k].1.as_str());
            r.push(info);
            proof {
                assert(as_ints(pos@)[i as int] == k as int);
                assert(file_views(files@)[k as int] == (files@[k as int].0@, files@[k as int].1@));
            }
            i += 1;
        }
        r
    }

    /// The notes whose content holds `query`, case aside: the first of them in walk order,
    /// `limit` at most.
    pub fn search_notes(&self, files: &Vec<(String, String)>, query: &str, limit: usize) -> (r: Vec<NoteInfo>)
        ensures
            reports(
                r@,
                self.config.vault_path@,
                file_views(files@),
                first_positions(query_hits(file_views(files@), query@), limit as nat),
            ),
    {
        let mut hits: Vec<bool> = Vec::new();
        let mut i: usize = 0;
        while i < files.len()
            invariant
                i <= files.len(),
                hits@ =~= query_hits(file_views(files@), query@).subrange(0, i as int),
            decreases files.len() - i,
        {
            let h = note_matches_query(files[i].1.as_str(), query);
            hits.push(h);
            i += 1;
        }
        proof {
            assert(hits@ =~= query_hits(file_views(files@), query@));
        }
        let mut pos = positions_of(&hits);
        if pos.len() > limit {
            pos.truncate(limit);
            proof {
                assert(as_ints(pos@) =~= positions_where(hits@).take(limit as int));
            }
        }
        self.infos_at(files, &pos)
    }

    /// The notes that have the tags `search_tags`: every one of them when `match_mode` is
    /// `all`, at least one of them for any other mode; in walk order.
    pub fn search_by_tag(&self, files: &Vec<(String, String)>, search_tags: &Vec<String>, match_mode: &str) -> (r: Vec<NoteInfo>)
        ensures
            reports(
                r@,
                self.config.vault_path@,
                file_views(files@),
                positions_where(tag_hits(file_views(files@), views(search_tags@), match_mode@ == all_mode())),
            ),
    {
        let all = text_is(match_mode, &['a', 'l', 'l']);
        proof {
            if match_mode@ == all_mode() {
                assert(match_mode@ =~= seq!['a', 'l', 'l']);
            }
        }
        let mut hits: Vec<bool> = Vec::new();
        let mut i: usize = 0;
        while i < files.len()
            invariant
                i <= files.len(),
                all == (match_mode@ == all_mode()),
                hits@ =~= tag_hits(file_views(files@), views(search_tags@), all).subrange(0, i as int),
            decreases files.len() - i,
        {
            let content = files[i].1.as_str();
            let parsed = parse(content);
            let tags = all_tags(content, &parsed.frontmatter);
            let h = tags_match_exec(&tags, search_tags, all);
            hits.push(h);
            i += 1;
        }
        proof {
            assert(hits@ =~= tag_hits(file_views(files@), views(search_tags@), all));
        }
        let pos = positions_of(&hits);
        self.infos_at(files, &pos)
    }

    /// The notes whose fields hold every filter, in walk order.
    pub fn search_by_frontmatter(&self, files: &Vec<(String, String)>, filters: &Frontmatter) -> (r: Vec<NoteInfo>)
        ensures
            reports(
                r@,
                self.config.vault_path@,
                file_views(files@),
                positions_where(field_hits(file_views(files@), filters@)),
            ),
    {
        let mut hits: Vec<bool> = Vec::new();
        let mut i: usize = 0;
        while i < files.len()
            invariant
                i <= files.len(),
                hits@ =~= field_hits(file_views(files@), filters@).subrange(0, i as int),
            decreases files.len() - i,
        {
            let parsed = parse(files[i].1.as_str());
            let h = fields_match_exec(&parsed.frontmatter, filters);
            hits.push(h);
            i += 1;
        }
        proof {
            assert(hits@ =~= field_hits(file_views(files@), filters@));
        }
        let pos = positions_of(&hits);
        self.infos_at(files, &pos)
    }

    /// The paths, relative to the vault, of the notes that link to the note at `note_path`
    /// by its name (as `link_name` says), in walk order.
    pub fn backlinks(&self, files: &Vec<(String, String)>, note_path: &str) -> (r: Vec<String>)
        ensures
            views(r@) == positions_where(link_hits(file_views(files@), link_name(note_path@))).map_values(
                |i: int| relative_to(file_views(files@)[i].0, self.config.vault_path@),
            ),
    {
        let name = link_name_of(note_path);
        let mut hits: Vec<bool> = Vec::new();
        let mut i: usize = 0;
        while i < files.len()
            invariant
                i <= files.len(),
                hits@ =~= link_hits(file_views(files@), name@).subrange(0, i as int),
            decreases files.len() - i,
        {
            let h = links_to(files[i].1.as_str(), &name);
            hits.push(h);
            i += 1;
        }
        proof {
            assert(hits@ =~= link_hits(file_views(files@), name@));
        }
        let pos = positions_of(&hits);
        let mut r: Vec<String> = Vec::new();
        let mut j: usize = 0;
        let ghost want = as_ints(pos@).map_values(
            |i: int| relative_to(file_views(files@)[i].0, self.config.vault_path@),
        );
        while j < pos.len()
            invariant
                j <= pos.len(),
                forall|x: int| 0 <= x < pos.len() ==> #[trigger] pos@[x] < files.len(),
                want == as_ints(pos@).map_values(
                    |i: int| relative_to(file_views(files@)[i].0, self.config.vault_path@),
                ),
                views(r@) =~= want.subrange(0, j as int),
            decreases pos.len() - j,
        {
            let k = pos[j];
            let rel = relative_path(files[k].0.as_str(), self.config.vault_path.as_str());
            let ghost before = r@;
            r.push(rel);
            proof {
                assert(file_views(files@)[k as int].0 == files@[k as int].0@);
                assert(views(r@) =~= views(before).push(rel@));
                assert(want.subrange(0, j + 1) =~= want.subrange(0, j as int).push(want[j as int]));
            }
            j += 1;
        }
        proof {
            assert(want.subrange(0, pos.len() as int) =~= want);
        }
        r
    }
}

} // verus!

verus! {

// ----------------------------------------------------------------------------
// Listing the vault.
// ----------------------------------------------------------------------------

/// How deep a listing goes when no depth is asked for.
pub const DEFAULT_LISTING_DEPTH: usize = 10;

/// How deep a listing may go at most.
pub const LISTING_DEPTH_LIMIT: usize = 20;

/// The depth of a listing: the one asked for, or the default, and never past the limit.
pub fn listing_depth(depth: Option<usize>) -> (r: usize)
    ensures
        r == (match depth {
            Some(d) => if d < LISTING_DEPTH_LIMIT {
                d
            } else {
                LISTING_DEPTH_LIMIT
            },
            None => DEFAULT_LISTING_DEPTH,
        }),
        r <= LISTING_DEPTH_LIMIT,
{
    let d = match depth {
        Some(d) => d,
        None => DEFAULT_LISTING_DEPTH,
    };
    if d < LISTING_DEPTH_LIMIT {
        d
    } else {
        LISTING_DEPTH_LIMIT
    }
}

/// The entry that a walked path gives in a listing: a directory as its path relative to the
/// vault with a `/` after it; a markdown file as its relative path; nothing for other files
/// or for the vault itself.
pub open spec fn listing_entry(vault: Seq<char>, path: Seq<char>, is_dir: bool) -> Option<Seq<char>> {
    let rel = relative_to(path, vault);
    if rel.len() == 0 {
        None
    } else if is_dir {
        Some(rel.push('/'))
    } else if is_markdown(path) {
        Some(rel)
    } else {
        None
    }
}

/// The entries that the walked paths give, in walk order.
pub open spec fn listing_entries(vault: Seq<char>, walked: Seq<(Seq<char>, bool)>) -> Seq<Seq<char>>
    decreases walked.len(),
{
    if walked.len() == 0 {
        Seq::empty()
    } else {
        let prev = listing_entries(vault, walked.drop_last());
        match listing_entry(vault, walked.last().0, walked.last().1) {
            Some(e) => prev.push(e),
            None => prev,
        }
    }
}

/// The text of each walked path, with whether it is a directory.
pub open spec fn walked_views(walked: Seq<(String, bool)>) -> Seq<(Seq<char>, bool)> {
    walked.map_values(|w: (String, bool)| (w.0@, w.1))
}

impl Vault {
    /// Where a listing starts: the vault, or `subpath` in it; refused as `note_path` refuses.
    pub fn list_start(&self, subpath: Option<&str>) -> (r: Result<String, VaultError>)
        ensures
            match subpath {
                None => r matches Ok(p) && p@ == self.config.vault_path@,
                Some(s) => match r {
                    Ok(p) => safe_relative(s@) && p@ == path_join(self.config.vault_path@, s@),
                    Err(e) => !safe_relative(s@) && refused_path(e, s@),
                },
            },
    {
        match subpath {
            None => Ok(string_of(self.config.vault_path.as_str())),
            Some(s) => self.note_path(s),
        }
    }

    /// The entry that a walked path gives, as `listing_entry` says.
    pub fn listing_entry(&self, path: &str, is_dir: bool) -> (r: Option<String>)
        ensures
            listing_entry(self.config.vault_path@, path@, is_dir) == (match r {
                Some(e) => Some(e@),
                None => None,
            }),
    {
        let rel = relative_path(path, self.config.vault_path.as_str());
        let mut cs = chars_of(rel.as_str());
        if cs.len() == 0 {
            None
        } else if is_dir {
            cs.push('/');
            Some(string_from_chars(cs.as_slice()))
        } else if is_markdown_path(path) {
            Some(rel)
        } else {
            None
        }
    }

    /// The listing of the walked paths: their entries, sorted.
    pub fn listing(&self, walked: &Vec<(String, bool)>) -> (r: Vec<String>)
        ensures
            texts_sorted(views(r@)),
            views(r@).to_multiset() == listing_entries(self.config.vault_path@, walked_views(walked@)).to_multiset(),
    {
        let mut entries: Vec<String> = Vec::new();
        let mut i: usize = 0;
        proof {
            assert(walked_views(walked@).subrange(0, 0) =~= Seq::<(Seq<char>, bool)>::empty());
            assert(views(entries@) =~= Seq::<Seq<char>>::empty());
        }
        while i < walked.len()
            invariant
                i <= walked.len(),
                views(entries@) == listing_entries(
                    self.config.vault_path@,
                    walked_views(walked@).subrange(0, i as int),
                ),
            decreases walked.len() - i,
        {
            let e = self.listing_entry(walked[i].0.as_str(), walked[i].1);
            let ghost ev: Option<Seq<char>> = match &e {
                Some(x) => Some(x@),
                None => None,
            };
            let ghost before = entries@;
            match e {
                Some(x) => {
                    entries.push(x);
                },
                None => {},
            }
            proof {
                let w = walked_views(walked@);
                assert(w.subrange(0, i + 1).drop_last() =~= w.subrange(0, i as int));
                assert(w[i as int] == (walked@[i as int].0@, walked@[i as int].1));
                match ev {
                    Some(x) => assert(views(entries@) =~= views(before).push(x)),
                    None => assert(views(entries@) =~= views(before)),
                }
            }
            i += 1;
        }
        proof {
            assert(walked_views(walked@).subrange(0, walked.len() as int) =~= walked_views(walked@));
        }
        sort_texts(entries)
    }
}

// ----------------------------------------------------------------------------
// Templates.
// ----------------------------------------------------------------------------

/// The member `key` of the JSON object in `text`, when `text` is JSON whose top value is an
/// object with that member holding a string: that string.
pub uninterp spec fn json_string_member(text: Seq<char>, key: Seq<char>) -> Option<Seq<char>>;

/// Reads the string member `key` of the JSON object in `text` with `serde_json::from_str`
/// into a `serde_json::Value`, then `Value::get` and `Value::as_str`. Claimed: the result is
/// `json_string_member(text, key)`, which depends on `text` and `key` alone; None when the
/// text is no JSON, its top value no object, or the member missing or no string.
#[verifier::external_body]
fn json_member(text: &str, key: &str) -> (r: Option<String>)
    ensures
        json_string_member(text@, key@) == (match r {
            Some(v) => Some(v@),
            None => None,
        }),
{
    match serde_json::from_str::<serde_json::Value>(text) {
        Ok(v) => v.get(key).and_then(|m| m.as_str()).map(|m| m.to_string()),
        Err(_) => None,
    }
}

/// `templates`.
pub open spec fn lower_templates() -> Seq<char> {
    seq!['t', 'e', 'm', 'p', 'l', 'a', 't', 'e', 's']
}

/// `Templates`.
pub open spec fn upper_templates() -> Seq<char> {
    seq!['T', 'e', 'm', 'p', 'l', 'a', 't', 'e', 's']
}

/// `attachmentFolderPath`.
pub open spec fn attachment_key() -> Seq<char> {
    seq![
        'a', 't', 't', 'a', 'c', 'h', 'm', 'e', 'n', 't', 'F', 'o', 'l', 'd', 'e', 'r', 'P',
        'a', 't', 'h',
    ]
}

/// The name of a template: the stem of a markdown file in the templates directory.
pub open spec fn template_entry(path: Seq<char>) -> Option<Seq<char>> {
    if is_markdown(path) {
        file_stem(path)
    } else {
        None
    }
}

/// The template names that the walked paths give, in walk order.
pub open spec fn template_entries(paths: Seq<Seq<char>>) -> Seq<Seq<char>>
    decreases paths.len(),
{
    if paths.len() == 0 {
        Seq::empty()
    } else {
        let prev = template_entries(paths.drop_last());
        match template_entry(paths.last()) {
            Some(e) => prev.push(e),
            None => prev,
        }
    }
}

/// The names of the templates among the walked paths of the templates directory, sorted.
pub fn template_names(paths: &Vec<String>) -> (r: Vec<String>)
    ensures
        texts_sorted(views(r@)),
        views(r@).to_multiset() == template_entries(views(paths@)).to_multiset(),
{
    let mut names: Vec<String> = Vec::new();
    let mut i: usize = 0;
    proof {
        assert(views(paths@).subrange(0, 0) =~= Seq::<Seq<char>>::empty());
        assert(views(names@) =~= Seq::<Seq<char>>::empty());
    }
    while i < paths.len()
        invariant
            i <= paths.len(),
            views(names@) == template_entries(views(paths@).subrange(0, i as int)),
        decreases paths.len() - i,
    {
        let ghost before = names@;
        let p = paths[i].as_str();
        let e = if is_markdown_path(p) {
            file_stem_of(p)
        } else {
            None
        };
        let ghost ev: Option<Seq<char>> = match &e {
            Some(x) => Some(x@),
            None => None,
        };
        match e {
            Some(x) => {
                names.push(x);
            },
            None => {},
        }
        proof {
            let w = views(paths@);
            assert(w.subrange(0, i + 1).drop_last() =~= w.subrange(0, i as int));
            assert(w[i as int] == paths@[i as int]@);
            match ev {
                Some(x) => assert(views(names@) =~= views(before).push(x)),
                None => assert(views(names@) =~= views(before)),
            }
        }
        i += 1;
    }
    proof {
        assert(views(paths@).subrange(0, paths.len() as int) =~= views(paths@));
    }
    sort_texts(names)
}

/// The file of the template `name` in the templates directory `dir`; refused when the name
/// would lead out of that directory.
pub fn template_path(dir: &str, name: &str) -> (r: Result<String, VaultError>)
    ensures
        match r {
            Ok(p) => safe_relative(name@) && p@ == path_join(dir@, name@ + md_ext()),
            Err(e) => !safe_relative(name@) && refused_template(e, name@),
        },
{
    if is_safe_relative(name) {
        let m = with_md(name);
        Ok(join_path(dir, m.as_str()))
    } else {
        Err(VaultError::OutsideTemplates { name: string_of(name) })
    }
}

/// The file of the template `name` in `dir`, given whether it exists: refused as
/// `template_path` refuses, and when there is no such template.
pub fn existing_template(dir: &str, name: &str, exists: bool) -> (r: Result<String, VaultError>)
    ensures
        r is Ok <==> safe_relative(name@) && exists,
        match r {
            Ok(p) => p@ == path_join(dir@, name@ + md_ext()),
            Err(e) => if safe_relative(name@) {
                no_template(e, name@)
            } else {
                refused_template(e, name@)
            },
        },
{
    let p = template_path(dir, name)?;
    if exists {
        Ok(p)
    } else {
        Err(VaultError::TemplateNotFound { name: string_of(name) })
    }
}

impl Vault {
    /// The two usual templates directories: `templates` and `Templates` in the vault.
    pub fn template_dir_candidates(&self) -> (r: (String, String))
        ensures
            r.0@ == path_join(self.config.vault_path@, lower_templates()),
            r.1@ == path_join(self.config.vault_path@, upper_templates()),
    {
        let a = string_from_chars(&['t', 'e', 'm', 'p', 'l', 'a', 't', 'e', 's']);
        let b = string_from_chars(&['T', 'e', 'm', 'p', 'l', 'a', 't', 'e', 's']);
        proof {
            assert(a@ =~= lower_templates());
            assert(b@ =~= upper_templates());
        }
        (join_path(self.config.vault_path.as_str(), a.as_str()), join_path(self.config.vault_path.as_str(), b.as_str()))
    }

    /// The directory that Obsidian's settings (`app_json`, the text of `.obsidian/app.json`)
    /// name as the attachment folder, in the vault; none when they name none, or one that
    /// would lead out of the vault.
    pub fn attachment_dir(&self, app_json: &str) -> (r: Option<String>)
        ensures
            match json_string_member(app_json@, attachment_key()) {
                Some(f) => if safe_relative(f) {
                    r matches Some(d) && d@ == path_join(self.config.vault_path@, f)
                } else {
                    r is None
                },
                None => r is None,
            },
    {
        let key = string_from_chars(
            &[
                'a', 't', 't', 'a', 'c', 'h', 'm', 'e', 'n', 't', 'F', 'o', 'l', 'd', 'e', 'r',
                'P', 'a', 't', 'h',
            ],
        );
        proof {
            assert(key@ =~= attachment_key());
        }
        match json_member(app_json, key.as_str()) {
            Some(f) => if is_safe_relative(f.as_str()) {
                Some(join_path(self.config.vault_path.as_str(), f.as_str()))
            } else {
                None
            },
            None => None,
        }
    }

    /// The templates directory: `templates` when it exists, else `Templates` when it exists,
    /// else the attachment folder of Obsidian's settings when there is one and it exists,
    /// else `Templates`.
    pub fn templates_dir(&self, lower_exists: bool, upper_exists: bool, attachment: Option<&str>, attachment_exists: bool) -> (r: String)
        ensures
            r@ == (if lower_exists {
                path_join(self.config.vault_path@, lower_templates())
            } else if upper_exists {
                path_join(self.config.vault_path@, upper_templates())
            } else {
                match attachment {
                    Some(d) => if attachment_exists {
                        d@
                    } else {
                        path_join(self.config.vault_path@, upper_templates())
                    },
                    None => path_join(self.config.vault_path@, upper_templates()),
                }
            }),
    {
        let (a, b) = self.template_dir_candidates();
        if lower_exists {
            a
        } else if upper_exists {
            b
        } else {
            match attachment {
                Some(d) => if attachment_exists {
                    string_of(d)
                } else {
                    b
                },
                None => b,
            }
        }
    }
}

} // verus!

verus! {

// ----------------------------------------------------------------------------
// Daily notes.
// ----------------------------------------------------------------------------

/// `daily`.
pub open spec fn daily_name() -> Seq<char> {
    seq!['d', 'a', 'i', 'l', 'y']
}

/// `Daily Notes`.
pub open spec fn daily_notes_name() -> Seq<char> {
    seq!['D', 'a', 'i', 'l', 'y', ' ', 'N', 'o', 't', 'e', 's']
}

/// What a new daily note holds: a heading with its date.
pub open spec fn daily_note_text(date: Seq<char>) -> Seq<char> {
    seq!['#', ' '] + date + seq!['\n', '\n']
}

/// What to do for a daily note: open the one that exists, or create one.
#[derive(Debug)]
pub enum DailyNote {
    Existing { path: String },
    Create { dir: String, path: String, content: String },
}

/// The text of a new daily note for `date`, as `daily_note_text` says.
pub fn daily_note_content(date: &str) -> (r: String)
    ensures
        r@ == daily_note_text(date@),
{
    let mut v: Vec<char> = Vec::new();
    v.push('#');
    v.push(' ');
    let mut d = chars_of(date);
    v.append(&mut d);
    v.push('\n');
    v.push('\n');
    proof {
        assert(v@ =~= daily_note_text(date@));
    }
    string_from_chars(v.as_slice())
}

impl Vault {
    /// The two daily notes directories: `daily` and `Daily Notes` in the vault.
    pub fn daily_dirs(&self) -> (r: (String, String))
        ensures
            r.0@ == path_join(self.config.vault_path@, daily_name()),
            r.1@ == path_join(self.config.vault_path@, daily_notes_name()),
    {
        let a = string_from_chars(&['d', 'a', 'i', 'l', 'y']);
        let b = string_from_chars(&['D', 'a', 'i', 'l', 'y', ' ', 'N', 'o', 't', 'e', 's']);
        proof {
            assert(a@ =~= daily_name());
            assert(b@ =~= daily_notes_name());
        }
        (join_path(self.config.vault_path.as_str(), a.as_str()), join_path(self.config.vault_path.as_str(), b.as_str()))
    }

    /// Where the daily note for `date` may lie, in the order in which they are tried:
    /// `daily/{date}.md`, `Daily Notes/{date}.md`, `{date}.md`; refused when `date` would
    /// lead out of the vault.
    pub fn daily_note_candidates(&self, date: &str) -> (r: Result<Vec<String>, VaultError>)
        ensures
            match r {
                Ok(c) => safe_relative(date@) && views(c@) == seq![
                    path_join(path_join(self.config.vault_path@, daily_name()), date@ + md_ext()),
                    path_join(path_join(self.config.vault_path@, daily_notes_name()), date@ + md_ext()),
                    path_join(self.config.vault_path@, date@ + md_ext()),
                ],
                Err(e) => !safe_relative(date@) && refused_path(e, date@),
            },
    {
        if !is_safe_relative(date) {
            return Err(VaultError::OutsideVault { path: string_of(date) });
        }
        let (d1, d2) = self.daily_dirs();
        let file = with_md(date);
        let mut c: Vec<String> = Vec::new();
        c.push(join_path(d1.as_str(), file.as_str()));
        c.push(join_path(d2.as_str(), file.as_str()));
        c.push(join_path(self.config.vault_path.as_str(), file.as_str()));
        proof {
            assert(views(c@) =~= seq![
                path_join(path_join(self.config.vault_path@, daily_name()), date@ + md_ext()),
                path_join(path_join(self.config.vault_path@, daily_notes_name()), date@ + md_ext()),
                path_join(self.config.vault_path@, date@ + md_ext()),
            ]);
        }
        Ok(c)
    }

    /// What to do for the daily note of `date`, given which of its candidates exist and
    /// whether the two daily notes directories exist: open the first candidate that exists;
    /// else create the note in `daily` when that exists, else in `Daily Notes` when that
    /// exists, else in `daily`, with a heading for its date. Refused when `date` would lead
    /// out of the vault.
    pub fn daily_note_plan(&self, date: &str, found: (bool, bool, bool), daily_exists: bool, daily_notes_exists: bool) -> (r: Result<DailyNote, VaultError>)
        ensures
            r is Ok <==> safe_relative(date@),
            match r {
                Ok(DailyNote::Existing { path }) => {
                    &&& found.0 || found.1 || found.2
                    &&& found.0 ==> path@ == path_join(path_join(self.config.vault_path@, daily_name()), date@ + md_ext())
                    &&& !found.0 && found.1 ==> path@ == path_join(path_join(self.config.vault_path@, daily_notes_name()), date@ + md_ext())
                    &&& !found.0 && !found.1 ==> path@ == path_join(self.config.vault_path@, date@ + md_ext())
                },
                Ok(DailyNote::Create { dir, path, content }) => {
                    &&& !found.0 && !found.1 && !found.2
                    &&& dir@ == (if !daily_exists && daily_notes_exists {
                        path_join(self.config.vault_path@, daily_notes_name())
                    } else {
                        path_join(self.config.vault_path@, daily_name())
                    })
                    &&& path@ == path_join(dir@, date@ + md_ext())
                    &&& content@ == daily_note_text(date@)
                },
                Err(e) => refused_path(e, date@),
            },
    {
        let c = match self.daily_note_candidates(date) {
            Ok(c) => c,
            Err(e) => {
                return Err(e);
            },
        };
        proof {
            assert(views(c@).len() == 3);
            assert(c@[0]@ == views(c@)[0]);
            assert(c@[1]@ == views(c@)[1]);
            assert(c@[2]@ == views(c@)[2]);
        }
        if found.0 {
            return Ok(DailyNote::Existing { path: c[0].clone() });
        }
        if found.1 {
            return Ok(DailyNote::Existing { path: c[1].clone() });
        }
        if found.2 {
            return Ok(DailyNote::Existing { path: c[2].clone() });
        }
        let (d1, d2) = self.daily_dirs();
        let dir = if !daily_exists && daily_notes_exists {
            d2
        } else {
            d1
        };
        let file = with_md(date);
        let path = join_path(dir.as_str(), file.as_str());
        Ok(DailyNote::Create { dir, path, content: daily_note_content(date) })
    }
}

} // verus!

verus! {

// ----------------------------------------------------------------------------
// Laws.
// ----------------------------------------------------------------------------

/// A note path that the vault accepts is joined under the vault, and the note there is
/// reported under that same path (with forward slashes), less any empty or `.` components at
/// its ends.
pub proof fn law_accepted_paths_stay_inside(vault: Seq<char>, p: Seq<char>)
    requires
        safe_relative(p),
        vault.len() > 0,
    ensures
        relative_to(path_join(vault, p), vault) == forward_slashes(trim_parts(p)),
        plain_ends(p) ==> relative_to(path_join(vault, p), vault) == forward_slashes(p),
        strip_dir_prefix(path_join(vault, p), vault) is Some,
{
    law_join_then_relative(vault, p);
    if plain_ends(p) {
        lemma_plain_ends(p);
    }
}

/// The positions at which `hits` holds are exactly those, each once, in increasing order.
pub proof fn law_positions_where(hits: Seq<bool>)
    ensures
        forall|i: int|
            0 <= i < positions_where(hits).len() ==> 0 <= #[trigger] positions_where(hits)[i] < hits.len()
                && hits[positions_where(hits)[i]],
        forall|i: int, j: int|
            0 <= i < j < positions_where(hits).len() ==> #[trigger] positions_where(hits)[i] < #[trigger] positions_where(hits)[j],
        forall|k: int| 0 <= k < hits.len() && hits[k] ==> #[trigger] positions_where(hits).contains(k),
    decreases hits.len(),
{
    if hits.len() > 0 {
        let h0 = hits.drop_last();
        law_positions_where(h0);
        let p0 = positions_where(h0);
        assert forall|k: int| 0 <= k < hits.len() && hits[k] implies #[trigger] positions_where(hits).contains(k) by {
            if k < hits.len() - 1 {
                assert(h0[k] == hits[k]);
                assert(p0.contains(k));
                let j = choose|j: int| 0 <= j < p0.len() && p0[j] == k;
                assert(positions_where(hits)[j] == k);
            } else {
                assert(positions_where(hits).last() == k);
            }
        }
        assert forall|i: int| 0 <= i < positions_where(hits).len() implies 0 <= #[trigger] positions_where(hits)[i] < hits.len()
            && hits[positions_where(hits)[i]] by {
            if i < p0.len() {
                assert(h0[p0[i]] == hits[p0[i]]);
            }
        }
    }
}

/// A full-text search returns matching notes only, in walk order, no more than its limit,
/// and all matching notes when they are no more than that.
pub proof fn law_search_limit(hits: Seq<bool>, limit: nat)
    ensures
        first_positions(hits, limit).len() <= limit,
        forall|i: int|
            0 <= i < first_positions(hits, limit).len() ==> 0 <= #[trigger] first_positions(hits, limit)[i]
                < hits.len() && hits[first_positions(hits, limit)[i]],
        forall|i: int, j: int|
            0 <= i < j < first_positions(hits, limit).len() ==> #[trigger] first_positions(hits, limit)[i]
                < #[trigger] first_positions(hits, limit)[j],
        positions_where(hits).len() <= limit ==> first_positions(hits, limit) == positions_where(hits),
{
    law_positions_where(hits);
    let p = positions_where(hits);
    let f = first_positions(hits, limit);
    assert forall|i: int| 0 <= i < f.len() implies #[trigger] f[i] == p[i] by {}
}

/// Replacing the content of a note that has frontmatter fields writes those fields back, in a
/// block of their own, with the new content after it (as long as no field line holds `---`).
pub proof fn law_replace_keeps_frontmatter(existing: Seq<char>, content: Seq<char>)
    requires
        note_fields(existing).len() > 0,
        free_of_dashes(serialized(note_fields(existing))),
    ensures
        updated_text(existing, content, replace_mode()) == Some(note_text(note_fields(existing), content)),
        frontmatter_block(note_text(note_fields(existing), content)) == Some(
            (seq!['\n'] + serialized(note_fields(existing)), seq!['\n'] + content),
        ),
{
    assert(replace_mode()[0] != append_mode()[0]);
    law_written_block(note_fields(existing), content);
}

/// Setting fields on a note writes the merged fields back, in a block of their own, before
/// the note's body (as long as no field line holds `---`); each given field has its given
/// value, each other field keeps its own.
pub proof fn law_set_fields_written(content: Seq<char>, fields: Seq<(Seq<char>, Seq<char>)>, k: Seq<char>)
    requires
        keys_distinct(fields),
        pairs_insert_all(note_fields(content), fields).len() > 0,
        free_of_dashes(serialized(pairs_insert_all(note_fields(content), fields))),
    ensures
        frontmatter_block(fields_set_text(content, fields)) == Some(
            (
                seq!['\n'] + serialized(pairs_insert_all(note_fields(content), fields)),
                seq!['\n'] + note_body(content),
            ),
        ),
        pairs_get(pairs_insert_all(note_fields(content), fields), k) == (if has_key(fields, k) {
            pairs_get(fields, k)
        } else {
            pairs_get(note_fields(content), k)
        }),
{
    lemma_note_fields_distinct(content);
    law_written_block(pairs_insert_all(note_fields(content), fields), note_body(content));
    law_merged_fields(note_fields(content), fields, k);
}

/// Applying a template keeps the note's own fields over the template's: each field of the
/// note keeps its value, each other field of the template is added with its value; the
/// note's body stays unless it is blank.
pub proof fn law_template_keeps_note(template: Seq<char>, existing: Seq<char>, k: Seq<char>)
    ensures
        keys_distinct(pairs_insert_all(note_fields(template), note_fields(existing))),
        pairs_get(pairs_insert_all(note_fields(template), note_fields(existing)), k) == (if has_key(
            note_fields(existing),
            k,
        ) {
            pairs_get(note_fields(existing), k)
        } else {
            pairs_get(note_fields(template), k)
        }),
        !is_blank(note_body(existing)) ==> applied_text(template, existing) == (if pairs_insert_all(
            note_fields(template),
            note_fields(existing),
        ).len() == 0 {
            note_body(existing)
        } else {
            note_text(pairs_insert_all(note_fields(template), note_fields(existing)), note_body(existing))
        }),
{
    lemma_note_fields_distinct(template);
    lemma_note_fields_distinct(existing);
    law_merged_fields(note_fields(template), note_fields(existing), k);
}

/// A block written with the fields `fm` is read as a frontmatter block: it holds no `---`
/// and fits the size limit.
pub open spec fn writable(fm: Seq<(Seq<char>, Seq<char>)>) -> bool {
    free_of_dashes(serialized(fm)) && utf8_len(seq!['\n'] + serialized(fm)) <= FRONTMATTER_LIMIT
}

/// The YAML loader reads the block written with the fields `fm` back as `fm`.
pub open spec fn reads_back(fm: Seq<(Seq<char>, Seq<char>)>) -> bool {
    documents_frontmatter(yaml_documents(seq!['\n'] + serialized(fm))) == fm
}

proof fn lemma_trim_newlines_twice(s: Seq<char>)
    ensures
        trim_leading_newlines(trim_leading_newlines(s)) == trim_leading_newlines(s),
        trim_leading_newlines(seq!['\n'] + s) == trim_leading_newlines(s),
        is_blank(trim_leading_newlines(s)) == is_blank(s),
    decreases s.len(),
{
    assert((seq!['\n'] + s).subrange(1, (s.len() + 1) as int) =~= s);
    if s.len() > 0 && s[0] == '\n' {
        let t = s.subrange(1, s.len() as int);
        lemma_trim_newlines_twice(t);
        assert(is_blank(s) == is_blank(t)) by {
            if is_blank(t) {
                assert forall|i: int| 0 <= i < s.len() implies white_space(#[trigger] s[i]) by {
                    if i > 0 {
                        assert(s[i] == t[i - 1]);
                    }
                }
            }
            if is_blank(s) {
                assert forall|i: int| 0 <= i < t.len() implies white_space(#[trigger] t[i]) by {
                    assert(t[i] == s[i + 1]);
                }
            }
        }
    }
}

proof fn lemma_written_note(fm: Seq<(Seq<char>, Seq<char>)>, body: Seq<char>)
    requires
        writable(fm),
        reads_back(fm),
    ensures
        note_fields(note_text(fm, body)) == fm,
        note_body(note_text(fm, body)) == trim_leading_newlines(body),
{
    law_written_block(fm, body);
    lemma_trim_newlines_twice(body);
}

proof fn lemma_insert_all_again(q: Seq<(Seq<char>, Seq<char>)>, f: Seq<(Seq<char>, Seq<char>)>)
    requires
        keys_distinct(q),
        forall|i: int| 0 <= i < f.len() ==> pairs_get(q, #[trigger] f[i].0) == Some(f[i].1),
    ensures
        pairs_insert_all(q, f) == q,
    decreases f.len(),
{
    if f.len() > 0 {
        let f0 = f.drop_last();
        assert forall|i: int| 0 <= i < f0.len() implies pairs_get(q, #[trigger] f0[i].0) == Some(f0[i].1) by {
            assert(f0[i] == f[i]);
        }
        lemma_insert_all_again(q, f0);
        let (k, v) = f.last();
        assert(pairs_get(q, f[f.len() - 1].0) == Some(f[f.len() - 1].1));
        assert(has_key(q, k));
        let j = crate::parse::frontmatter::key_index(q, k);
        assert(q[j] == (k, v));
        assert(q.update(j, (k, v)) =~= q);
    }
}

/// Setting the same fields twice changes nothing more than setting them once: the note
/// keeps the same fields and body, as long as the block written holds no `---`, fits the
/// size limit, and is read back by the YAML loader as the fields written.
pub proof fn law_set_fields_twice(content: Seq<char>, fields: Seq<(Seq<char>, Seq<char>)>)
    requires
        keys_distinct(fields),
        pairs_insert_all(note_fields(content), fields).len() > 0,
        writable(pairs_insert_all(note_fields(content), fields)),
        reads_back(pairs_insert_all(note_fields(content), fields)),
    ensures
        note_fields(fields_set_text(fields_set_text(content, fields), fields)) == note_fields(
            fields_set_text(content, fields),
        ),
        note_body(fields_set_text(fields_set_text(content, fields), fields)) == note_body(
            fields_set_text(content, fields),
        ),
{
    let m = pairs_insert_all(note_fields(content), fields);
    let x1 = fields_set_text(content, fields);
    lemma_note_fields_distinct(content);
    assert(keys_distinct(m)) by {
        law_merged_fields(note_fields(content), fields, seq![]);
    }
    lemma_written_note(m, note_body(content));
    assert forall|i: int| 0 <= i < fields.len() implies pairs_get(m, #[trigger] fields[i].0) == Some(fields[i].1) by {
        law_merged_fields(note_fields(content), fields, fields[i].0);
        crate::parse::frontmatter::lemma_key_index(fields, fields[i].0, i);
    }
    lemma_insert_all_again(m, fields);
    assert(note_fields(x1) == m);
    lemma_written_note(m, note_body(x1));
    lemma_trim_newlines_twice(note_body(content));
}

/// Applying a template twice changes nothing more than applying it once: the note keeps the
/// same value for every field and the same body, as long as each block written holds no
/// `---`, fits the size limit, and is read back by the YAML loader as the fields written.
pub proof fn law_template_twice(template: Seq<char>, existing: Seq<char>, k: Seq<char>)
    requires
        pairs_insert_all(note_fields(template), note_fields(existing)).len() > 0,
        writable(pairs_insert_all(note_fields(template), note_fields(existing))),
        reads_back(pairs_insert_all(note_fields(template), note_fields(existing))),
        writable(pairs_insert_all(note_fields(template), pairs_insert_all(note_fields(template), note_fields(existing)))),
        reads_back(pairs_insert_all(note_fields(template), pairs_insert_all(note_fields(template), note_fields(existing)))),
    ensures
        pairs_get(note_fields(applied_text(template, applied_text(template, existing))), k) == pairs_get(
            note_fields(applied_text(template, existing)),
            k,
        ),
        note_body(applied_text(template, applied_text(template, existing))) == note_body(
            applied_text(template, existing),
        ),
{
    let t = note_fields(template);
    let m1 = pairs_insert_all(t, note_fields(existing));
    let m2 = pairs_insert_all(t, m1);
    let b1 = if is_blank(note_body(existing)) {
        note_body(template)
    } else {
        note_body(existing)
    };
    let x1 = applied_text(template, existing);
    assert(x1 == note_text(m1, b1));
    lemma_written_note(m1, b1);
    lemma_note_fields_distinct(template);
    lemma_note_fields_distinct(existing);
    law_merged_fields(t, note_fields(existing), k);
    law_merged_fields(t, m1, k);
    assert(m2.len() > 0) by {
        let k0 = m1[0].0;
        assert(has_key(m1, k0));
        law_merged_fields(t, m1, k0);
        if m2.len() == 0 {
            assert(!has_key(m2, k0));
        }
    }
    let b2 = if is_blank(note_body(x1)) {
        note_body(template)
    } else {
        note_body(x1)
    };
    assert(applied_text(template, x1) == note_text(m2, b2));
    lemma_written_note(m2, b2);
    lemma_trim_newlines_twice(b1);
    lemma_trim_newlines_twice(note_body(template));
    lemma_trim_newlines_twice(note_body(existing));
    if has_key(m1, k) {
    } else {
        assert(!has_key(t, k)) by {
            if has_key(t, k) {
                law_merged_fields(t, note_fields(existing), k);
            }
        }
    }
}

} // verus!

verus! {

// ----------------------------------------------------------------------------
// What the searches look at.
// ----------------------------------------------------------------------------

/// A note is a tag hit exactly when its whole tag set, the `#tags` of its text together with
/// the tags of its frontmatter, holds every wanted tag (`all`) or at least one of them; so a
/// note whose text holds `#t` is a hit for `t` whatever its frontmatter says.
pub proof fn law_tag_hits_see_every_tag(
    files: Seq<(Seq<char>, Seq<char>)>,
    wanted: Seq<Seq<char>>,
    all: bool,
    f: int,
)
    requires
        0 <= f < files.len(),
    ensures
        tag_hits(files, wanted, all).len() == files.len(),
        tag_hits(files, wanted, all)[f] == (if all {
            forall|i: int|
                0 <= i < wanted.len() ==> text_tags(files[f].1).contains(#[trigger] wanted[i])
                    || frontmatter_tags(note_fields(files[f].1)).contains(wanted[i])
        } else {
            exists|i: int|
                0 <= i < wanted.len() && (text_tags(files[f].1).contains(#[trigger] wanted[i])
                    || frontmatter_tags(note_fields(files[f].1)).contains(wanted[i]))
        }),
        forall|t: Seq<char>|
            text_tags(files[f].1).contains(t) ==> #[trigger] tag_hits(files, seq![t], false)[f],
{
    assert forall|t: Seq<char>| text_tags(files[f].1).contains(t) implies #[trigger] tag_hits(
        files,
        seq![t],
        false,
    )[f] by {
        assert(seq![t][0] == t);
        assert(note_tags(files[f].1).contains(seq![t][0]));
    }
}

/// Full-text search looks at the whole text of a note, its frontmatter block included: a
/// note is a hit exactly when its text, lower-cased, holds the lower-cased query.
pub proof fn law_query_hits_whole_text(files: Seq<(Seq<char>, Seq<char>)>, query: Seq<char>, f: int)
    requires
        0 <= f < files.len(),
    ensures
        query_hits(files, query).len() == files.len(),
        query_hits(files, query)[f] == contains_text(lowercase(files[f].1), lowercase(query)),
{
}

/// `fm` holds the entry `e`: its key with its value.
pub open spec fn has_entry(fm: Seq<(Seq<char>, Seq<char>)>, e: (Seq<char>, Seq<char>)) -> bool {
    exists|j: int| 0 <= j < fm.len() && fm[j] == e
}

/// A note matches the filters exactly when, for each filter, its frontmatter holds that
/// filter's key with exactly that filter's value.
pub proof fn law_field_hits_exact(
    files: Seq<(Seq<char>, Seq<char>)>,
    filters: Seq<(Seq<char>, Seq<char>)>,
    f: int,
)
    requires
        0 <= f < files.len(),
    ensures
        field_hits(files, filters).len() == files.len(),
        field_hits(files, filters)[f] == forall|i: int|
            0 <= i < filters.len() ==> has_entry(note_fields(files[f].1), #[trigger] filters[i]),
{
    let fm = note_fields(files[f].1);
    lemma_note_fields_distinct(files[f].1);
    assert forall|i: int| 0 <= i < filters.len() implies (pairs_get(fm, #[trigger] filters[i].0) == Some(
        filters[i].1,
    )) == has_entry(fm, filters[i]) by {
        let k = filters[i].0;
        if pairs_get(fm, k) == Some(filters[i].1) {
            let j = crate::parse::frontmatter::key_index(fm, k);
            assert(fm[j] == filters[i]);
        }
        if exists|j: int| 0 <= j < fm.len() && #[trigger] fm[j] == filters[i] {
            let j = choose|j: int| 0 <= j < fm.len() && #[trigger] fm[j] == filters[i];
            assert(has_key(fm, k));
            let x = crate::parse::frontmatter::key_index(fm, k);
            if x != j {
                if x < j {
                    assert(fm[x].0 != fm[j].0);
                } else {
                    assert(fm[j].0 != fm[x].0);
                }
            }
        }
    }
    assert(field_hits(files, filters)[f] == fields_match(fm, filters));
    if fields_match(fm, filters) {
        assert forall|i: int| 0 <= i < filters.len() implies has_entry(fm, #[trigger] filters[i]) by {
            assert(pairs_get(fm, filters[i].0) == Some(filters[i].1));
        }
    }
    if forall|i: int| 0 <= i < filters.len() ==> has_entry(fm, #[trigger] filters[i]) {
        assert forall|i: int| 0 <= i < filters.len() implies pairs_get(fm, #[trigger] filters[i].0) == Some(filters[i].1) by {
            assert(has_entry(fm, filters[i]));
        }
    }
}

/// Backlinks are matched by the note's file stem as it is written, case kept (or the path
/// itself when it names no file): a note is reported exactly when one of its links targets
/// that name.
pub proof fn law_backlink_name_is_stem(files: Seq<(Seq<char>, Seq<char>)>, note_path: Seq<char>, f: int)
    requires
        0 <= f < files.len(),
    ensures
        link_hits(files, link_name(note_path)).len() == files.len(),
        match file_stem(note_path) {
            Some(s) => link_name(note_path) == s && link_hits(files, link_name(note_path))[f]
                == link_targets(files[f].1).contains(s),
            None => link_name(note_path) == note_path && link_hits(files, link_name(note_path))[f]
                == link_targets(files[f].1).contains(note_path),
        },
{
}

} // verus!
