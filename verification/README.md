# astro_parser

A verified parser for Astro components. It splits a file into its frontmatter and its template,
finds the imports, declarations, elements, attributes and interpolations in them, and puts out a
tree of nodes as JSON.

- `src/text.rs`, `src/lines.rs`, `src/numerals.rs`: characters, lines, words and numerals
- `src/hash.rs`: the content hash of a block
- `src/document.rs`: splitting a component into its blocks
- `src/node.rs`: the nodes of the tree
- `src/frontmatter.rs`, `src/template.rs`: the nodes of the two blocks
- `src/component.rs`: the tree of a whole component
- `src/json.rs`: the tree as JSON, through `serde_json`
- `src/plugin.rs`: the entry points of the plugin
- `src/laws/`: what holds of the library as a whole
- `app/`: the exports that the plugin's host calls; building them takes the host's interface file
  `wit/plugin.wit`, the metadata file `plugin_metadata.info` and the plugin SDK

Every function states what it returns over sequences of characters. Line numbers are kept to
thirty-two bits; `component::check_line_numbers` tells whether those of a source fit, which they do
in every source of up to 2^31 lines.
