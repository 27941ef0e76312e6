use vstd::prelude::*;

use crate::text::{chars_of, decimal, decimal_chars, join, string_from_chars, string_of};

verus! {

/// A YAML value, as the YAML loader hands it out.
pub enum YamlNode {
    /// A floating-point number, kept as the text it was written with.
    Real(String),
    Integer(i64),
    Str(String),
    Boolean(bool),
    Array(Vec<YamlNode>),
    /// A mapping, in the order of its entries.
    Hash(Vec<(YamlNode, YamlNode)>),
    Alias(usize),
    Null,
    BadValue,
}

/// The mathematical value of a `YamlNode`.
pub enum YamlTree {
    Real(Seq<char>),
    Integer(int),
    Str(Seq<char>),
    Boolean(bool),
    Array(Seq<YamlTree>),
    Hash(Seq<(YamlTree, YamlTree)>),
    Alias(int),
    Null,
    BadValue,
}

pub open spec fn tree_of(n: YamlNode) -> YamlTree
    decreases n,
{
    match n {
        YamlNode::Real(s) => YamlTree::Real(s@),
        YamlNode::Integer(i) => YamlTree::Integer(i as int),
        YamlNode::Str(s) => YamlTree::Str(s@),
        YamlNode::Boolean(b) => YamlTree::Boolean(b),
        YamlNode::Array(v) => YamlTree::Array(trees_of(v@)),
        YamlNode::Hash(v) => YamlTree::Hash(tree_pairs_of(v@)),
        YamlNode::Alias(a) => YamlTree::Alias(a as int),
        YamlNode::Null => YamlTree::Null,
        YamlNode::BadValue => YamlTree::BadValue,
    }
}

pub open spec fn trees_of(s: Seq<YamlNode>) -> Seq<YamlTree>
    decreases s,
{
    if s.len() == 0 {
        Seq::empty()
    } else {
        seq![tree_of(s[0])] + trees_of(s.subrange(1, s.len() as int))
    }
}

pub open spec fn tree_pairs_of(s: Seq<(YamlNode, YamlNode)>) -> Seq<(YamlTree, YamlTree)>
    decreases s,
{
    if s.len() == 0 {
        Seq::empty()
    } else {
        seq![(tree_of(s[0].0), tree_of(s[0].1))] + tree_pairs_of(s.subrange(1, s.len() as int))
    }
}

} // verus!

verus! {

#[verifier::external_type_specification]
#[verifier::external_body]
pub struct ExYaml(yaml_rust2::Yaml);

/// What `yaml_rust2::YamlLoader::load_from_str` makes of `text`: the documents it holds, or
/// none when the text is not valid YAML.
pub uninterp spec fn yaml_documents(text: Seq<char>) -> Option<Seq<YamlTree>>;

/// Loads YAML with `yaml_rust2::YamlLoader::load_from_str`. Claimed: the documents handed
/// back, read as trees, are `yaml_documents(text)`, and an error of the loader gives `None`.
#[verifier::external_body]
fn load_yaml(text: &str) -> (r: Option<Vec<YamlNode>>)
    ensures
        yaml_documents(text@) == (match r {
            Some(d) => Some(trees_of(d@)),
            None => None,
        }),
{
    yaml_rust2::YamlLoader::load_from_str(text).ok().map(|docs| docs.iter().map(yaml_node).collect())
}

/// The node of the loader's tree in the library's form, variant for variant; the part of
/// `load_yaml` that walks the tree, and nothing else.
#[verifier::external_body]
fn yaml_node(y: &yaml_rust2::Yaml) -> YamlNode {
    match y {
        yaml_rust2::Yaml::Real(s) => YamlNode::Real(s.clone()),
        yaml_rust2::Yaml::Integer(i) => YamlNode::Integer(*i),
        yaml_rust2::Yaml::String(s) => YamlNode::Str(s.clone()),
        yaml_rust2::Yaml::Boolean(b) => YamlNode::Boolean(*b),
        yaml_rust2::Yaml::Array(a) => YamlNode::Array(a.iter().map(yaml_node).collect()),
        yaml_rust2::Yaml::Hash(h) => YamlNode::Hash(
            h.iter().map(|(k, v)| (yaml_node(k), yaml_node(v))).collect(),
        ),
        yaml_rust2::Yaml::Alias(n) => YamlNode::Alias(*n),
        yaml_rust2::Yaml::Null => YamlNode::Null,
        yaml_rust2::Yaml::BadValue => YamlNode::BadValue,
    }
}

} // verus!

verus! {

/// The text a YAML value stands for in the frontmatter: scalars as written (numbers in
/// decimal, `true`/`false`, empty for null), a sequence as the texts of its items that have
/// one, joined by ", ". Mappings and the rest have none.
pub open spec fn yaml_text(t: YamlTree) -> Option<Seq<char>>
    decreases t,
{
    match t {
        YamlTree::Str(s) => Some(s),
        YamlTree::Integer(i) => Some(decimal(i)),
        YamlTree::Real(s) => Some(s),
        YamlTree::Boolean(b) => Some(
            if b {
                seq!['t', 'r', 'u', 'e']
            } else {
                seq!['f', 'a', 'l', 's', 'e']
            },
        ),
        YamlTree::Null => Some(Seq::empty()),
        YamlTree::Array(items) => Some(join(item_texts(items), seq![',', ' '])),
        _ => None,
    }
}

/// The texts of the items that have one, in order.
pub open spec fn item_texts(items: Seq<YamlTree>) -> Seq<Seq<char>>
    decreases items,
{
    if items.len() == 0 {
        Seq::empty()
    } else {
        let prev = item_texts(items.subrange(0, items.len() - 1));
        match yaml_text(items[items.len() - 1]) {
            Some(t) => prev.push(t),
            None => prev,
        }
    }
}

proof fn lemma_trees_of(s: Seq<YamlNode>)
    ensures
        trees_of(s).len() == s.len(),
        forall|i: int| 0 <= i < s.len() ==> #[trigger] trees_of(s)[i] == tree_of(s[i]),
    decreases s.len(),
{
    if s.len() > 0 {
        lemma_trees_of(s.subrange(1, s.len() as int));
        assert forall|i: int| 0 <= i < s.len() implies #[trigger] trees_of(s)[i] == tree_of(s[i]) by {
            if i > 0 {
                assert(s.subrange(1, s.len() as int)[i - 1] == s[i]);
            }
        }
    }
}

proof fn lemma_tree_pairs_of(s: Seq<(YamlNode, YamlNode)>)
    ensures
        tree_pairs_of(s).len() == s.len(),
        forall|i: int|
            0 <= i < s.len() ==> #[trigger] tree_pairs_of(s)[i] == (tree_of(s[i].0), tree_of(s[i].1)),
    decreases s.len(),
{
    if s.len() > 0 {
        lemma_tree_pairs_of(s.subrange(1, s.len() as int));
        assert forall|i: int| 0 <= i < s.len() implies #[trigger] tree_pairs_of(s)[i] == (
        tree_of(s[i].0), tree_of(s[i].1)) by {
            if i > 0 {
                assert(s.subrange(1, s.len() as int)[i - 1] == s[i]);
            }
        }
    }
}

proof fn lemma_join_push(parts: Seq<Seq<char>>, sep: Seq<char>, t: Seq<char>)
    ensures
        join(parts.push(t), sep) == if parts.len() == 0 {
            t
        } else {
            join(parts, sep) + sep + t
        },
{
    assert(parts.push(t).drop_last() =~= parts);
}

/// The text of a YAML value, as `yaml_text` says.
fn yaml_text_of(y: &YamlNode) -> (r: Option<Vec<char>>)
    ensures
        yaml_text(tree_of(*y)) == (match r {
            Some(v) => Some(v@),
            None => None,
        }),
    decreases y,
{
    match y {
        YamlNode::Str(s) => Some(chars_of(s.as_str())),
        YamlNode::Integer(i) => Some(decimal_chars(*i)),
        YamlNode::Real(s) => Some(chars_of(s.as_str())),
        YamlNode::Boolean(b) => {
            if *b {
                Some(vec!['t', 'r', 'u', 'e'])
            } else {
                Some(vec!['f', 'a', 'l', 's', 'e'])
            }
        },
        YamlNode::Null => Some(Vec::new()),
        YamlNode::Array(items) => {
            let ghost ts = trees_of(items@);
            proof {
                lemma_trees_of(items@);
            }
            let mut out: Vec<char> = Vec::new();
            let ghost mut texts: Seq<Seq<char>> = Seq::empty();
            let mut any = false;
            let mut i: usize = 0;
            proof {
                assert(ts.subrange(0, 0) =~= Seq::<YamlTree>::empty());
            }
            while i < items.len()
                invariant
                    *y == YamlNode::Array(*items),
                    ts == trees_of(items@),
                    ts.len() == items.len(),
                    forall|j: int| 0 <= j < items.len() ==> #[trigger] ts[j] == tree_of(items@[j]),
                    i <= items.len(),
                    texts == item_texts(ts.subrange(0, i as int)),
                    out@ == join(texts, seq![',', ' ']),
                    any == (texts.len() > 0),
                decreases items.len() - i,
            {
                proof {
                    assert(decreases_to!(*y => y->Array_0));
                    assert(y->Array_0 == *items);
                    assert(decreases_to!(*y => *items));
                    assert(decreases_to!(*items => items@));
                    assert(decreases_to!(items@ => items@[i as int]));
                    assert(decreases_to!(*y => items@[i as int]));
                }
                let t = yaml_text_of(&items[i]);
                proof {
                    let sub = ts.subrange(0, i + 1);
                    assert(sub.subrange(0, i as int) =~= ts.subrange(0, i as int));
                    assert(sub[i as int] == tree_of(items@[i as int]));
                }
                match t {
                    Some(v) => {
                        proof {
                            lemma_join_push(texts, seq![',', ' '], v@);
                        }
                        if any {
                            out.push(',');
                            out.push(' ');
                        }
                        any = true;
                        let mut w = v;
                        let ghost out0 = out@;
                        out.append(&mut w);
                        proof {
                            texts = texts.push(v@);
                            if texts.len() > 1 {
                                assert(out@ =~= join(texts.drop_last(), seq![',', ' ']) + seq![',', ' '] + v@);
                            }
                        }
                    },
                    None => {},
                }
                i += 1;
            }
            proof {
                assert(ts.subrange(0, items.len() as int) =~= ts);
            }
            Some(out)
        },
        _ => None,
    }
}

} // verus!

verus! {

// ----------------------------------------------------------------------------
// Frontmatter fields: keys with their values, each key once, in order.
// ----------------------------------------------------------------------------

/// No key occurs twice.
pub open spec fn keys_distinct(p: Seq<(Seq<char>, Seq<char>)>) -> bool {
    forall|i: int, j: int| 0 <= i < j < p.len() ==> p[i].0 != p[j].0
}

pub open spec fn has_key(p: Seq<(Seq<char>, Seq<char>)>, k: Seq<char>) -> bool {
    exists|i: int| 0 <= i < p.len() && p[i].0 == k
}

/// Where key `k` stands.
pub open spec fn key_index(p: Seq<(Seq<char>, Seq<char>)>, k: Seq<char>) -> int {
    choose|i: int| 0 <= i < p.len() && p[i].0 == k
}

/// The value of key `k`, if it has one.
pub open spec fn pairs_get(p: Seq<(Seq<char>, Seq<char>)>, k: Seq<char>) -> Option<Seq<char>> {
    if has_key(p, k) {
        Some(p[key_index(p, k)].1)
    } else {
        None
    }
}

/// `p` with `k` set to `v`: in place when `k` is there, else at the end.
pub open spec fn pairs_insert(p: Seq<(Seq<char>, Seq<char>)>, k: Seq<char>, v: Seq<char>) -> Seq<
    (Seq<char>, Seq<char>),
> {
    if has_key(p, k) {
        p.update(key_index(p, k), (k, v))
    } else {
        p.push((k, v))
    }
}

/// `p` with every field of `q` set, in the order of `q`.
pub open spec fn pairs_insert_all(p: Seq<(Seq<char>, Seq<char>)>, q: Seq<(Seq<char>, Seq<char>)>) -> Seq<
    (Seq<char>, Seq<char>),
>
    decreases q.len(),
{
    if q.len() == 0 {
        p
    } else {
        pairs_insert(pairs_insert_all(p, q.drop_last()), q.last().0, q.last().1)
    }
}

/// In fields that hold each key once, the key at `i` is found at `i`.
pub proof fn lemma_key_index(p: Seq<(Seq<char>, Seq<char>)>, k: Seq<char>, i: int)
    requires
        keys_distinct(p),
        0 <= i < p.len(),
        p[i].0 == k,
    ensures
        has_key(p, k),
        key_index(p, k) == i,
{
    let j = key_index(p, k);
    assert(p[j].0 == k);
}

/// Setting a key gives it the value, leaves every other key's value as it was, and keeps
/// each key once.
pub proof fn lemma_pairs_insert(p: Seq<(Seq<char>, Seq<char>)>, k: Seq<char>, v: Seq<char>)
    requires
        keys_distinct(p),
    ensures
        keys_distinct(pairs_insert(p, k, v)),
        pairs_get(pairs_insert(p, k, v), k) == Some(v),
        forall|x: Seq<char>| x != k ==> #[trigger] pairs_get(pairs_insert(p, k, v), x) == pairs_get(p, x),
{
    let r = pairs_insert(p, k, v);
    if has_key(p, k) {
        let i = key_index(p, k);
        assert(keys_distinct(r));
        lemma_key_index(r, k, i);
        assert forall|x: Seq<char>| x != k implies #[trigger] pairs_get(r, x) == pairs_get(p, x) by {
            if has_key(p, x) {
                let j = key_index(p, x);
                lemma_key_index(r, x, j);
            }
            if has_key(r, x) {
                let j = key_index(r, x);
                lemma_key_index(p, x, j);
            }
        }
    } else {
        assert(keys_distinct(r));
        lemma_key_index(r, k, p.len() as int);
        assert forall|x: Seq<char>| x != k implies #[trigger] pairs_get(r, x) == pairs_get(p, x) by {
            if has_key(p, x) {
                let j = key_index(p, x);
                lemma_key_index(r, x, j);
            }
            if has_key(r, x) {
                let j = key_index(r, x);
                lemma_key_index(p, x, j);
            }
        }
    }
}

/// The fields of a note's frontmatter, in order, each key once.
#[derive(Debug)]
pub struct Frontmatter {
    entries: Vec<(String, String)>,
}

impl View for Frontmatter {
    type V = Seq<(Seq<char>, Seq<char>)>;

    closed spec fn view(&self) -> Seq<(Seq<char>, Seq<char>)> {
        self.entries@.map_values(|e: (String, String)| (e.0@, e.1@))
    }
}

impl Frontmatter {
    #[verifier::type_invariant]
    spec fn keys_once(self) -> bool {
        keys_distinct(self@)
    }

    /// The number of fields; no key occurs twice.
    pub fn len(&self) -> (r: usize)
        ensures
            r == self@.len(),
            keys_distinct(self@),
    {
        proof {
            use_type_invariant(self);
        }
        self.entries.len()
    }

    pub fn new() -> (r: Self)
        ensures
            r@ == Seq::<(Seq<char>, Seq<char>)>::empty(),
    {
        let r = Frontmatter { entries: Vec::new() };
        proof {
            assert(r@ =~= Seq::<(Seq<char>, Seq<char>)>::empty());
        }
        r
    }

    pub fn is_empty(&self) -> (r: bool)
        ensures
            r == (self@.len() == 0),
    {
        self.entries.len() == 0
    }

    /// The position of `key`, if the frontmatter has it.
    fn position(&self, key: &String) -> (r: Option<usize>)
        ensures
            match r {
                Some(i) => i < self@.len() && self@[i as int].0 == key@ && key_index(self@, key@) == i
                    && has_key(self@, key@),
                None => !has_key(self@, key@),
            },
    {
        proof {
            use_type_invariant(self);
        }
        let mut i: usize = 0;
        while i < self.entries.len()
            invariant
                i <= self.entries.len(),
                self@.len() == self.entries.len(),
                keys_distinct(self@),
                forall|j: int| 0 <= j < i ==> self@[j].0 != key@,
            decreases self.entries.len() - i,
        {
            if self.entries[i].0 == *key {
                proof {
                    lemma_key_index(self@, key@, i as int);
                }
                return Some(i);
            }
            i += 1;
        }
        None
    }

    /// The value of `key`, if the frontmatter has it.
    pub fn get(&self, key: &str) -> (r: Option<&String>)
        ensures
            pairs_get(self@, key@) == (match r {
                Some(v) => Some(v@),
                None => None,
            }),
    {
        let k = string_of(key);
        match self.position(&k) {
            Some(i) => Some(&self.entries[i].1),
            None => None,
        }
    }

    /// Sets `key` to `value`: in place when the key is there, else as a new last field.
    pub fn insert(&mut self, key: String, value: String)
        ensures
            final(self)@ == pairs_insert(old(self)@, key@, value@),
    {
        proof {
            use_type_invariant(&*self);
            lemma_pairs_insert(self@, key@, value@);
        }
        let pos = self.position(&key);
        let ghost k = key@;
        let ghost v = value@;
        let mut entries: Vec<(String, String)> = Vec::new();
        std::mem::swap(&mut entries, &mut self.entries);
        match pos {
            Some(i) => {
                entries.set(i, (key, value));
            },
            None => {
                entries.push((key, value));
            },
        }
        proof {
            let r = Frontmatter { entries };
            match pos {
                Some(i) => assert(r@ =~= old(self)@.update(i as int, (k, v))),
                None => assert(r@ =~= old(self)@.push((k, v))),
            }
        }
        self.entries = entries;
    }

    /// The fields, as pairs of strings.
    pub fn to_pairs(&self) -> (r: Vec<(String, String)>)
        ensures
            r@.map_values(|e: (String, String)| (e.0@, e.1@)) == self@,
    {
        let mut r: Vec<(String, String)> = Vec::new();
        let mut i: usize = 0;
        while i < self.entries.len()
            invariant
                i <= self.entries.len(),
                self@.len() == self.entries.len(),
                r@.map_values(|e: (String, String)| (e.0@, e.1@)) =~= self@.subrange(0, i as int),
            decreases self.entries.len() - i,
        {
            let k = self.entries[i].0.clone();
            let v = self.entries[i].1.clone();
            let ghost r0 = r@;
            r.push((k, v));
            proof {
                assert(self@[i as int] == (k@, v@));
                assert(r@.map_values(|e: (String, String)| (e.0@, e.1@)) =~= r0.map_values(
                    |e: (String, String)| (e.0@, e.1@),
                ).push((k@, v@)));
                assert(self@.subrange(0, i + 1) =~= self@.subrange(0, i as int).push(self@[i as int]));
            }
            i += 1;
        }
        proof {
            assert(self@.subrange(0, self@.len() as int) =~= self@);
        }
        r
    }

    /// A frontmatter with the given fields set in order, a later field winning over an
    /// earlier one with the same key.
    pub fn from_pairs(pairs: Vec<(String, String)>) -> (r: Self)
        ensures
            r@ == pairs_insert_all(Seq::empty(), pairs@.map_values(|e: (String, String)| (e.0@, e.1@))),
    {
        let mut r = Frontmatter::new();
        let ghost ps = pairs@.map_values(|e: (String, String)| (e.0@, e.1@));
        let mut i: usize = 0;
        proof {
            assert(ps.subrange(0, 0) =~= Seq::<(Seq<char>, Seq<char>)>::empty());
        }
        while i < pairs.len()
            invariant
                i <= pairs.len(),
                ps == pairs@.map_values(|e: (String, String)| (e.0@, e.1@)),
                r@ == pairs_insert_all(Seq::empty(), ps.subrange(0, i as int)),
            decreases pairs.len() - i,
        {
            let k = pairs[i].0.clone();
            let v = pairs[i].1.clone();
            r.insert(k, v);
            proof {
                assert(ps.subrange(0, i + 1).drop_last() =~= ps.subrange(0, i as int));
            }
            i += 1;
        }
        proof {
            assert(ps.subrange(0, pairs.len() as int) =~= ps);
        }
        r
    }

    /// This frontmatter with every field of `other` set, in the order of `other`.
    pub fn merged_with(&self, other: &Frontmatter) -> (r: Self)
        ensures
            r@ == pairs_insert_all(self@, other@),
    {
        let pairs = self.to_pairs();
        proof {
            use_type_invariant(self);
        }
        let mut r = Frontmatter { entries: pairs };
        proof {
            assert(r@ =~= self@);
        }
        let mut i: usize = 0;
        proof {
            assert(other@.subrange(0, 0) =~= Seq::<(Seq<char>, Seq<char>)>::empty());
        }
        while i < other.entries.len()
            invariant
                i <= other.entries.len(),
                other@.len() == other.entries.len(),
                r@ == pairs_insert_all(self@, other@.subrange(0, i as int)),
            decreases other.entries.len() - i,
        {
            let k = other.entries[i].0.clone();
            let v = other.entries[i].1.clone();
            r.insert(k, v);
            proof {
                assert(other@.subrange(0, i + 1).drop_last() =~= other@.subrange(0, i as int));
            }
            i += 1;
        }
        proof {
            assert(other@.subrange(0, other@.len() as int) =~= other@);
        }
        r
    }
}

} // verus!

verus! {

// ----------------------------------------------------------------------------
// From YAML to fields.
// ----------------------------------------------------------------------------

/// The fields of a mapping: each entry with a string key and a value that has a text, set in
/// order (a later entry wins over an earlier one with the same key).
pub open spec fn entries_frontmatter(e: Seq<(YamlTree, YamlTree)>) -> Seq<(Seq<char>, Seq<char>)>
    decreases e.len(),
{
    if e.len() == 0 {
        Seq::empty()
    } else {
        let prev = entries_frontmatter(e.drop_last());
        match (e.last().0, yaml_text(e.last().1)) {
            (YamlTree::Str(k), Some(v)) => pairs_insert(prev, k, v),
            _ => prev,
        }
    }
}

/// The fields of loaded YAML: those of its first document when that is a mapping, else none.
pub open spec fn documents_frontmatter(docs: Option<Seq<YamlTree>>) -> Seq<(Seq<char>, Seq<char>)> {
    match docs {
        Some(d) => if d.len() > 0 {
            match d[0] {
                YamlTree::Hash(e) => entries_frontmatter(e),
                _ => Seq::empty(),
            }
        } else {
            Seq::empty()
        },
        None => Seq::empty(),
    }
}

/// The fields that loaded YAML gives hold each key once.
pub proof fn lemma_documents_distinct(docs: Option<Seq<YamlTree>>)
    ensures
        keys_distinct(documents_frontmatter(docs)),
{
    if let Some(d) = docs {
        if d.len() > 0 {
            if let YamlTree::Hash(e) = d[0] {
                lemma_entries_distinct(e);
            }
        }
    }
}

proof fn lemma_entries_distinct(e: Seq<(YamlTree, YamlTree)>)
    ensures
        keys_distinct(entries_frontmatter(e)),
    decreases e.len(),
{
    if e.len() > 0 {
        lemma_entries_distinct(e.drop_last());
        if let (YamlTree::Str(k), Some(v)) = (e.last().0, yaml_text(e.last().1)) {
            lemma_pairs_insert(entries_frontmatter(e.drop_last()), k, v);
        }
    }
}

/// The fields that the YAML `text` gives.
fn parse_yaml(text: &str) -> (r: Frontmatter)
    ensures
        r@ == documents_frontmatter(yaml_documents(text@)),
{
    let docs = load_yaml(text);
    frontmatter_of_documents(&docs)
}

/// The fields that the loaded YAML documents give, as `documents_frontmatter` says: the
/// entries of the first document when it is a mapping, each with a string key and a value
/// that has a text (as `yaml_text` says), a later entry winning over an earlier one with the
/// same key; none otherwise.
pub fn frontmatter_of_documents(docs: &Option<Vec<YamlNode>>) -> (r: Frontmatter)
    ensures
        r@ == documents_frontmatter(
            match docs {
                Some(d) => Some(trees_of(d@)),
                None => None,
            },
        ),
{
    let mut r = Frontmatter::new();
    match docs {
        Some(d) => {
            proof {
                lemma_trees_of(d@);
            }
            if d.len() > 0 {
                match &d[0] {
                    YamlNode::Hash(entries) => {
                        let ghost te = tree_pairs_of(entries@);
                        proof {
                            lemma_tree_pairs_of(entries@);
                            assert(te.subrange(0, 0) =~= Seq::<(YamlTree, YamlTree)>::empty());
                        }
                        let mut i: usize = 0;
                        while i < entries.len()
                            invariant
                                i <= entries.len(),
                                te == tree_pairs_of(entries@),
                                te.len() == entries.len(),
                                forall|j: int|
                                    0 <= j < entries.len() ==> #[trigger] te[j] == (
                                        tree_of(entries@[j].0),
                                        tree_of(entries@[j].1),
                                    ),
                                r@ == entries_frontmatter(te.subrange(0, i as int)),
                            decreases entries.len() - i,
                        {
                            proof {
                                assert(te.subrange(0, i + 1).drop_last() =~= te.subrange(0, i as int));
                                assert(te.subrange(0, i + 1).last() == te[i as int]);
                            }
                            match &entries[i].0 {
                                YamlNode::Str(k) => {
                                    match yaml_text_of(&entries[i].1) {
                                        Some(v) => {
                                            let value = string_from_chars(v.as_slice());
                                            r.insert(k.clone(), value);
                                        },
                                        None => {},
                                    }
                                },
                                _ => {},
                            }
                            i += 1;
                        }
                        proof {
                            assert(te.subrange(0, entries.len() as int) =~= te);
                        }
                    },
                    _ => {},
                }
            }
        },
        None => {},
    }
    r
}

// ----------------------------------------------------------------------------
// Splitting a note.
// ----------------------------------------------------------------------------

/// The most bytes of YAML that a frontmatter block may hold to be parsed.
pub const FRONTMATTER_LIMIT: usize = 8192;

/// `---` starts at position `i` of `s`.
pub open spec fn dashes_at(s: Seq<char>, i: int) -> bool {
    0 <= i && i + 3 <= s.len() && s[i] == '-' && s[i + 1] == '-' && s[i + 2] == '-'
}

/// The first position from `i` on where `---` starts.
pub open spec fn find_dashes(s: Seq<char>, i: int) -> Option<int>
    decreases s.len() - i,
{
    if i < 0 || i + 3 > s.len() {
        None
    } else if dashes_at(s, i) {
        Some(i)
    } else {
        find_dashes(s, i + 1)
    }
}

/// The YAML text between an opening `---` at the very start and the next `---`, and what
/// follows the closing one.
pub open spec fn frontmatter_block(s: Seq<char>) -> Option<(Seq<char>, Seq<char>)> {
    if dashes_at(s, 0) {
        match find_dashes(s, 3) {
            Some(e) => Some((s.subrange(3, e), s.subrange(e + 3, s.len() as int))),
            None => None,
        }
    } else {
        None
    }
}

/// The bytes that UTF-8 takes for `c`.
pub open spec fn utf8_width(c: char) -> nat {
    if (c as u32) < 0x80 {
        1
    } else if (c as u32) < 0x800 {
        2
    } else if (c as u32) < 0x10000 {
        3
    } else {
        4
    }
}

/// The bytes that UTF-8 takes for `s`.
pub open spec fn utf8_len(s: Seq<char>) -> nat
    decreases s.len(),
{
    if s.len() == 0 {
        0
    } else {
        utf8_len(s.drop_last()) + utf8_width(s.last())
    }
}

/// The fields read from the YAML text `y` of a frontmatter block: those the YAML loader
/// finds in it when it fits in `FRONTMATTER_LIMIT` bytes, and none when it is larger.
pub open spec fn block_fields(y: Seq<char>) -> Seq<(Seq<char>, Seq<char>)> {
    if utf8_len(y) <= FRONTMATTER_LIMIT {
        documents_frontmatter(yaml_documents(y))
    } else {
        Seq::empty()
    }
}

/// `s` without the newlines it starts with.
pub open spec fn trim_leading_newlines(s: Seq<char>) -> Seq<char>
    decreases s.len(),
{
    if s.len() > 0 && s[0] == '\n' {
        trim_leading_newlines(s.subrange(1, s.len() as int))
    } else {
        s
    }
}

/// A note split into its frontmatter fields and its body.
#[derive(Debug)]
pub struct NoteContent {
    pub frontmatter: Frontmatter,
    pub body: String,
    pub raw: String,
}

/// Whether the UTF-8 form of `cs[from..to]` fits in `limit` bytes.
fn utf8_fits(cs: &Vec<char>, from: usize, to: usize, limit: usize) -> (r: bool)
    requires
        from <= to <= cs.len(),
    ensures
        r == (utf8_len(cs@.subrange(from as int, to as int)) <= limit),
{
    let mut total: usize = 0;
    let mut i = from;
    proof {
        assert(cs@.subrange(from as int, from as int) =~= Seq::<char>::empty());
    }
    while i < to
        invariant
            from <= i <= to <= cs.len(),
            total == utf8_len(cs@.subrange(from as int, i as int)),
            total <= limit,
        decreases to - i,
    {
        let c = cs[i] as u32;
        let w: usize = if c < 0x80 {
            1
        } else if c < 0x800 {
            2
        } else if c < 0x10000 {
            3
        } else {
            4
        };
        proof {
            assert(cs@.subrange(from as int, i + 1).drop_last() =~= cs@.subrange(from as int, i as int));
        }
        if w > limit - total {
            proof {
                lemma_utf8_len_mono(cs@.subrange(from as int, to as int), (i + 1 - from) as int);
                assert(cs@.subrange(from as int, to as int).subrange(0, (i + 1 - from) as int) =~= cs@.subrange(from as int, i + 1));
            }
            return false;
        }
        total = total + w;
        i += 1;
    }
    true
}

proof fn lemma_utf8_len_mono(s: Seq<char>, k: int)
    requires
        0 <= k <= s.len(),
    ensures
        utf8_len(s.subrange(0, k)) <= utf8_len(s),
    decreases s.len() - k,
{
    if k < s.len() {
        lemma_utf8_len_mono(s, k + 1);
        assert(s.subrange(0, k + 1).drop_last() =~= s.subrange(0, k));
    } else {
        assert(s.subrange(0, k) =~= s);
    }
}

pub proof fn lemma_find_dashes(s: Seq<char>, i: int, e: int)
    requires
        0 <= i <= e,
        forall|j: int| i <= j < e ==> !dashes_at(s, j),
    ensures
        find_dashes(s, i) == find_dashes(s, e),
    decreases e - i,
{
    if i < e {
        lemma_find_dashes(s, i + 1, e);
    }
}

proof fn lemma_trim_skip(s: Seq<char>, j: int)
    requires
        0 <= j <= s.len(),
        forall|k: int| 0 <= k < j ==> s[k] == '\n',
    ensures
        trim_leading_newlines(s) == trim_leading_newlines(s.subrange(j, s.len() as int)),
    decreases j,
{
    if j > 0 {
        let t = s.subrange(1, s.len() as int);
        assert(s[0] == '\n');
        assert(trim_leading_newlines(s) == trim_leading_newlines(t));
        lemma_trim_skip(t, j - 1);
        assert(t.subrange(j - 1, t.len() as int) =~= s.subrange(j, s.len() as int));
    } else {
        assert(s.subrange(0, s.len() as int) =~= s);
    }
}

/// The first position from `from` on where `---` starts.
fn find_dashes_from(cs: &Vec<char>, from: usize) -> (r: Option<usize>)
    ensures
        find_dashes(cs@, from as int) == (match r {
            Some(e) => Some(e as int),
            None => None,
        }),
        r matches Some(e) ==> from <= e && dashes_at(cs@, e as int),
{
    let n = cs.len();
    let mut e = from;
    while e <= n && n - e >= 3
        invariant
            n == cs.len(),
            from <= e,
            forall|j: int| from <= j < e ==> !dashes_at(cs@, j),
        decreases n + 1 - e,
    {
        if cs[e] == '-' && cs[e + 1] == '-' && cs[e + 2] == '-' {
            proof {
                lemma_find_dashes(cs@, from as int, e as int);
            }
            return Some(e);
        }
        e += 1;
    }
    proof {
        lemma_find_dashes(cs@, from as int, e as int);
    }
    None
}

/// Splits a note into frontmatter and body. A note that starts with `---` and has another
/// `---` later holds a frontmatter block: the YAML between the two, whose fields are parsed
/// when it fits in `FRONTMATTER_LIMIT` bytes (a larger block gives no fields), and the body
/// after the closing `---`, without its leading newlines. Any other note is all body.
pub fn parse(content: &str) -> (r: NoteContent)
    ensures
        r.raw@ == content@,
        match frontmatter_block(content@) {
            Some((y, rest)) => r.frontmatter@ == block_fields(y) && r.body@ == trim_leading_newlines(
                rest,
            ),
            None => r.frontmatter@ == Seq::<(Seq<char>, Seq<char>)>::empty() && r.body@ == content@,
        },
{
    let raw = string_of(content);
    let cs = chars_of(content);
    let n = cs.len();
    if n >= 3 && cs[0] == '-' && cs[1] == '-' && cs[2] == '-' {
        let found = find_dashes_from(&cs, 3);
        if let Some(e) = found {
            let frontmatter = if utf8_fits(&cs, 3, e, FRONTMATTER_LIMIT) {
                let yaml = string_from_chars(vstd::slice::slice_subrange(cs.as_slice(), 3, e));
                parse_yaml(yaml.as_str())
            } else {
                Frontmatter::new()
            };
            let mut j = e + 3;
            while j < n && cs[j] == '\n'
                invariant
                    e + 3 <= j <= n,
                    n == cs.len(),
                    forall|k: int| e + 3 <= k < j ==> cs@[k] == '\n',
                decreases n - j,
            {
                j += 1;
            }
            let body = string_from_chars(vstd::slice::slice_subrange(cs.as_slice(), j, n));
            proof {
                let rest = cs@.subrange(e + 3, n as int);
                lemma_trim_skip(rest, j - (e + 3));
                assert(rest.subrange(j - (e + 3), rest.len() as int) =~= cs@.subrange(j as int, n as int));
                if j < n {
                    assert(cs@.subrange(j as int, n as int)[0] != '\n');
                }
            }
            return NoteContent { frontmatter, body, raw };
        }
    }
    let body = string_of(content);
    NoteContent { frontmatter: Frontmatter::new(), body, raw }
}

} // verus!
