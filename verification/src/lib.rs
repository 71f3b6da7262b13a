//! Core logic of a PDF manipulation tool: a page-range parser that turns a
//! user-supplied selection expression into a canonical page list, and a
//! document structure recovery engine that rebuilds headings and paragraph
//! structure from raw text extracted out of a PDF.

pub mod classify;
pub mod headings;
pub mod options;
pub mod page_range;
pub mod render;
pub mod text;

pub use classify::{classify_line, is_list_item, LineClass};
pub use headings::assign_heading_levels;
pub use options::{
    gs_device, image_extension, is_markdown_extension, page_list_string, strip_extension,
    u32_to_string, valid_quality,
};
pub use page_range::{parse_page_range, RangeError};
pub use render::{collapse_blank_lines, format_as_markdown};
