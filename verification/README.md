# obsidian_mcp

A Model Context Protocol server for an Obsidian vault, with its core proved in Verus.

- `src/` is the verified library: splitting notes into frontmatter and body (YAML read
  with `yaml-rust2`; a block over 8 KB gives no fields), finding `[[wikilinks]]` and `#tags`,
  paths inside the vault (every accepted path stays in it; `..` only where it stays inside), listing, searching, merging
  frontmatter, templates, daily notes, the breadth-first link-graph exploration (exactly the notes within N hops), and connected
  components and shortest paths (the one a breadth-first search in link order finds) over
  Obsidian's `graph.json`.
- `app/` is the server around it: `rmcp` over stdio, the file system walks, reads and
  writes (each to a file beside the note, then renamed over it), the JSON of requests and answers, and the clock for today's daily note.
- `tests/` runs the library on concrete vaults held in memory.
