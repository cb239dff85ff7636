//! Source-oriented scanning of Crustal macros (`render!`, `css!`,
//! `global_css!`) for editor diagnostics and hovers, and the pure parts of
//! the blog helpers (front matter, post ordering, output paths).

pub mod bytes;
pub mod text;
pub mod scan;
pub mod line_index;
pub mod report;
pub mod render;
pub mod css;
pub mod analysis;
pub mod store;
pub mod blog;

pub use analysis::{
    analyzable, analyze, hover_at, hoverable, Analysis, Diagnostic, DiagnosticSeverity, Hover,
};
pub use blog::{
    get_frontmatter, output_path, post_id_number, read_post, read_posts, remove_frontmatter,
    sort_posts_desc, Frontmatter, Post, PostMeta,
};
pub use line_index::{LineIndex, Position, Range};
pub use scan::{scan_macros, ByteRange, MacroInvocation, MacroKind};
pub use store::DocumentStore;
