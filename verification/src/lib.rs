//! Renders a selection of Markdown text as a self-contained HTML preview page.
//!
//! - `text`: searching, trimming and splitting characters;
//! - `escape`: HTML escaping;
//! - `math`: detection of TeX math delimiters;
//! - `inline`: code spans and emphasis;
//! - `block`: headings, lists, quotes, fenced code and paragraphs;
//! - `paragraph`: how paragraphs and lists are gathered and ended;
//! - `json`: JSON string literals, made safe for a script element and read back;
//! - `page`: the fixed text of the preview page;
//! - `preview`: the selection check, script-safe JSON and the page itself.

pub mod text;
pub mod escape;
pub mod math;
pub mod inline;
pub mod block;
pub mod paragraph;
pub mod json;
pub mod page;
pub mod preview;

pub use block::markdown_to_html;
pub use escape::escape_html;
pub use math::contains_math_delimiter;
pub use preview::{preview_for_selection, render_preview_html, selection_text_for_preview};
