//! Options of the slug pipeline.
use vstd::prelude::*;

verus! {

/// Word separator style for slugified filenames.
#[derive(Debug, Clone, Copy, PartialEq, Eq, Hash, Default, Structural)]
pub enum Style {
    /// `my-cool-file.txt` (default)
    #[default]
    Kebab,
    /// `my_cool_file.txt`
    Snake,
    /// `MyCoolFile.txt`
    Pascal,
}

/// Options controlling the slug pipeline.
#[derive(Debug, Clone, PartialEq, Eq, Structural)]
pub struct SlugifyOptions {
    /// Word separator style (kebab, snake, or pascal).
    pub style: Style,
    /// When `true`, skip ASCII transliteration and preserve unicode characters.
    pub keep_unicode: bool,
}

impl Default for SlugifyOptions {
    /// Kebab case with ASCII transliteration.
    fn default() -> (r: Self)
        ensures
            r.style == Style::Kebab,
            !r.keep_unicode,
    {
        Self { style: Style::Kebab, keep_unicode: false }
    }
}

} // verus!
