//! A bridge between a plain-text bookmark file and a generic list selector.
//!
//! The library parses a Markdown bulleted link list into `Bookmark` records,
//! derives the display line of each record, and resolves a selected display
//! line back to the record whose URL should be opened.  File reading, process
//! arguments and the actual URL launch live outside the library.

pub mod bookmark;
pub mod lookup;
pub mod parse;
pub mod text;

pub use bookmark::display_view;
pub use bookmark::lemma_display_derivation;
pub use bookmark::Bookmark;
pub use bookmark::BookmarkView;
pub use lookup::decide;
pub use lookup::display_lines;
pub use lookup::find_bookmark;
pub use lookup::lemma_lookup_miss;
pub use lookup::lemma_round_trip_lookup;
pub use lookup::lookup_spec;
pub use lookup::Action;
pub use parse::lemma_parse_line_exclusion;
pub use parse::lemma_parse_lines_append;
pub use parse::lemma_parse_well_formed_line;
pub use parse::parse_content;
pub use parse::parse_line;
pub use parse::parse_line_spec;
pub use parse::parse_lines;
pub use parse::parse_markdown;
pub use parse::split_lines;
pub use text::trim_spec;
pub use text::trim_str;
