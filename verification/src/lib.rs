//! Slug generator for filenames and arbitrary text.
//!
//! `slugify` is filename-aware: it preserves extensions, dotfiles, compound
//! extensions (`.tar.gz`) and version numbers (`1.2.3`). `slugify_string`
//! treats its input as plain text.
pub mod extension;
pub mod laws;
pub mod options;
pub mod slug;
pub mod text;
pub mod truncate;
pub mod unicode;
pub mod version;
pub mod word_laws;
pub mod words;

pub use extension::split_extension;
pub use options::{SlugifyOptions, Style};
pub use slug::{
    slug_filename_from_text, slug_from_text, slug_string_from_text, slugify, slugify_string,
    MAX_FILENAME_BYTES, MAX_SLUG_BYTES,
};
pub use truncate::truncate_base;
pub use version::{preserve_version_dots, restore_version_dots, VERSION_DOT};
pub use words::{join_words, slug_words};
