# notal

The verified core of a lean MCP server for Obsidian vaults.

`src/` is the library, checked by Verus:

- `text` — characters, Unicode white space, trimming and line splitting
  (`str::lines`), with their specifications.
- `parser` — a note's frontmatter block, its lines outside fenced code
  blocks, wikilinks (`[[target#heading|alias]]`), inline tags (`#tag`),
  the title heading, and tags listed in frontmatter.
- `link_laws` — laws of wikilink extraction over whole notes: joining
  notes joins their links, and a closed fenced block adds none.
- `frontmatter` — frontmatter YAML decoded (`serde_yaml`, then
  `serde_json`) into values as the logic reads them, field lookup and value
  matching.
- `vault` — resolving a note name to a path confined to the vault, paths
  relative to the vault, tilde expansion, vault errors.
- `search` — line-by-line search with context for a regex or literal query.
- `tools` — the decisions of the tools: the body a read returns, listing
  filters and order, backlinks, frontmatter queries.

`app/` is the server program around it: the MCP protocol (`rmcp`), the
command line, the file system (walking the vault with `ignore`, reading and
writing notes) and the JSON output of the tools (`serde_json`).
