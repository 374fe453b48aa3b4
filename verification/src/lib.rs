//! Parser for Astro components: single files with an optional frontmatter between `---` fences,
//! which holds imports and server-side code, and a template of HTML-like markup after it.
//!
//! The parser builds a tree:
//!
//! - `astro_component`, the root, labelled by the stem of the file name;
//! - `frontmatter_block`, the code between the fences, with its imports and declarations;
//! - `template_body`, everything after the closing fence, with its elements and interpolations.
//!
//! `plugin::AstroParser` holds the entry points, and `component` the tree of a whole file. What
//! holds of the library as a whole is stated and proved in `laws`.

pub mod component;
pub mod document;
pub mod frontmatter;
pub mod hash;
pub mod json;
pub mod laws;
pub mod lines;
pub mod node;
pub mod numerals;
pub mod plugin;
pub mod template;
pub mod text;
