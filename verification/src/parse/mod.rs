pub mod frontmatter;
pub mod wikilink;
pub mod tags;
