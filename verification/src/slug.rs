//! The slug pipelines for filenames and for plain text.
use std::borrow::Cow;
use vstd::prelude::*;
use crate::extension::{extension_start, lemma_extension_start_bounds, split_extension};
use crate::options::{SlugifyOptions, Style};
use crate::laws::{
    all_slug_chars, law_slugify_ascii_shape, law_slugify_keeps_extension, law_slugify_length,
    law_slug_string_idempotent, law_slugify_string_ascii_shape, law_slugify_string_length,
    lemma_slug_string_of_empty, separators_well_placed,
    slug_base_of,
};
use crate::text::{push_char, same_text, utf8_len};
use crate::truncate::{truncate_base, truncated_base};
use crate::version::{restore_version_dots, unmark_version_dots, VERSION_DOT};
use vstd::utf8::is_ascii_chars;
use crate::words::{join_words, joined, normalized_words, slug_words};

verus! {

/// Maximum filename length in bytes (common filesystem limit).
pub const MAX_FILENAME_BYTES: usize = 255;

/// Maximum slug length in bytes for plain text slugification.
pub const MAX_SLUG_BYTES: usize = 1024;

/// What `any_ascii::any_ascii` returns for a string with the characters `s`.
pub uninterp spec fn transliteration(s: Seq<char>) -> Seq<char>;

/// ASCII transliteration of `s`.
///
/// Trusted: calls `any_ascii::any_ascii`. The contract names its result and
/// states what the crate documents: the result is ASCII, ASCII characters
/// are left unchanged (so an ASCII text comes back as it is), and every other
/// character is replaced by printable ASCII, so a control character such as
/// [`VERSION_DOT`] appears in the result only where it stood in `s`. That
/// the conversion goes character by character is left unsaid.
#[verifier::external_body]
fn transliterate(s: &str) -> (r: String)
    ensures
        r@ == transliteration(s@),
        is_ascii_chars(r@),
        is_ascii_chars(s@) ==> r@ == s@,
        !s@.contains(VERSION_DOT) ==> !r@.contains(VERSION_DOT),
{
    any_ascii::any_ascii(s)
}

/// The slug of a (transliterated) text before any length limit: its
/// lowercased words joined in the chosen style, with version dots restored;
/// `None` when the text has no word.
pub open spec fn spec_slug_from_text(text: Seq<char>, options: SlugifyOptions) -> Option<
    Seq<char>,
> {
    let words = normalized_words(text, options.keep_unicode);
    if words.len() == 0 {
        None
    } else {
        Some(unmark_version_dots(joined(words, options.style, options.keep_unicode)))
    }
}

/// The text that the words are taken from: the input itself when unicode is
/// kept, its transliteration otherwise.
pub open spec fn source_text(s: Seq<char>, options: SlugifyOptions) -> Seq<char> {
    if options.keep_unicode {
        s
    } else {
        transliteration(s)
    }
}

/// The plain-text slug of a text that is already transliterated (or kept as
/// unicode): its slug cut to [`MAX_SLUG_BYTES`] bytes, or empty.
pub open spec fn spec_slug_string_from_text(text: Seq<char>, options: SlugifyOptions) -> Seq<
    char,
> {
    match spec_slug_from_text(text, options) {
        None => seq![],
        Some(slug) => truncated_base(slug, seq![], MAX_SLUG_BYTES as int),
    }
}

/// What [`slugify_string`] returns.
pub open spec fn spec_slugify_string(input: Seq<char>, options: SlugifyOptions) -> Seq<char> {
    if input.len() == 0 {
        seq![]
    } else {
        spec_slug_string_from_text(source_text(input, options), options)
    }
}

/// The slugified filename built from the words of `text` (the transliterated
/// base), the dotfile flag of the base and the extension: the extension alone
/// when there is no word; otherwise the slug, with a leading dot for a
/// dotfile, cut so that it fits with the extension in
/// [`MAX_FILENAME_BYTES`] bytes, followed by the extension.
pub open spec fn spec_slug_filename_from_text(
    text: Seq<char>,
    is_dotfile: bool,
    ext: Seq<char>,
    options: SlugifyOptions,
) -> Seq<char> {
    match spec_slug_from_text(text, options) {
        None => ext,
        Some(slug) => {
            let slug = if is_dotfile {
                seq!['.'] + slug
            } else {
                slug
            };
            truncated_base(slug, ext, MAX_FILENAME_BYTES as int) + ext
        },
    }
}

/// What [`slugify`] returns.
pub open spec fn spec_slugify(filename: Seq<char>, options: SlugifyOptions) -> Seq<char> {
    if filename.len() == 0 {
        seq![]
    } else {
        let k = extension_start(filename);
        let base = filename.take(k);
        let ext = filename.skip(k);
        if base.len() == 0 {
            filename
        } else {
            spec_slug_filename_from_text(source_text(base, options), base[0] == '.', ext, options)
        }
    }
}

/// The slug of a text before any length limit (see [`spec_slug_from_text`]).
pub fn slug_from_text(text: &str, options: &SlugifyOptions) -> (res: Option<String>)
    ensures
        match res {
            None => spec_slug_from_text(text@, *options) is None,
            Some(r) => spec_slug_from_text(text@, *options) == Some(r@),
        },
{
    let words = slug_words(text, options.keep_unicode);
    if words.len() == 0 {
        return None;
    }
    let slugified = join_words(&words, options.style, options.keep_unicode);
    Some(restore_version_dots(&slugified))
}

/// The plain-text slug of an already transliterated text (see
/// [`spec_slug_string_from_text`]).
pub fn slug_string_from_text(text: &str, options: &SlugifyOptions) -> (res: String)
    ensures
        res@ == spec_slug_string_from_text(text@, *options),
{
    match slug_from_text(text, options) {
        None => String::new(),
        Some(slug) => {
            proof {
                reveal_strlit("");
            }
            truncate_base(&slug, "", MAX_SLUG_BYTES)
        },
    }
}

/// The slugified filename built from an already transliterated base (see
/// [`spec_slug_filename_from_text`]).
pub fn slug_filename_from_text(
    text: &str,
    is_dotfile: bool,
    ext: &str,
    options: &SlugifyOptions,
) -> (res: String)
    ensures
        res@ == spec_slug_filename_from_text(text@, is_dotfile, ext@, *options),
{
    match slug_from_text(text, options) {
        None => ext.to_owned(),
        Some(slug) => {
            // Restore the leading dot of a dotfile (e.g. .env.local).
            let slug = if is_dotfile {
                let mut dotted = String::new();
                push_char(&mut dotted, '.');
                dotted.append(slug.as_str());
                dotted
            } else {
                slug
            };
            // Truncate if the filename would exceed the filesystem limit,
            // then rejoin the extension.
            let mut out = truncate_base(&slug, ext, MAX_FILENAME_BYTES);
            out.append(ext);
            out
        },
    }
}

/// Slugify a filename according to the given options.
///
/// Converts a filename to a clean, shell-safe slug while preserving its
/// extension, dotfile status, and any embedded version numbers. Returns
/// `Cow::Borrowed` exactly when the input is already clean (e.g. dotfiles).
///
/// Names exceeding 255 bytes are truncated at a word boundary.
pub fn slugify<'a>(filename: &'a str, options: &SlugifyOptions) -> (res: Cow<'a, str>)
    ensures
        res@ == spec_slugify(filename@, *options),
        res is Borrowed <==> res@ == filename@,
        res@ == slug_base_of(filename@, *options) + filename@.skip(extension_start(filename@)),
        utf8_len(res@) <= MAX_FILENAME_BYTES || res@ == filename@.skip(
            extension_start(filename@),
        ),
        !options.keep_unicode ==> all_slug_chars(slug_base_of(filename@, *options), options.style)
            && separators_well_placed(slug_base_of(filename@, *options)),
        !options.keep_unicode && is_ascii_chars(filename@) && filename@.len() > 0
            && extension_start(filename@) > 0 ==> res@ == spec_slug_filename_from_text(
            filename@.take(extension_start(filename@)),
            filename@[0] == '.',
            filename@.skip(extension_start(filename@)),
            *options,
        ),
{
    proof {
        law_slugify_keeps_extension(filename@, *options);
        law_slugify_length(filename@, *options);
        lemma_extension_start_bounds(filename@);
        if !options.keep_unicode {
            law_slugify_ascii_shape(filename@, *options);
        }
    }
    if filename.is_empty() {
        proof {
            reveal_strlit("");
            assert(filename@ =~= ""@);
        }
        return Cow::Borrowed("");
    }
    let (base, ext) = split_extension(filename);

    // Dotfiles with no base: return as-is
    if base.is_empty() {
        return Cow::Borrowed(filename);
    }

    // Remember if the original base starts with '.' (dotfile with extension
    // like .env.local)
    let is_dotfile = base.get_char(0) == '.';

    let text = if options.keep_unicode {
        base.to_owned()
    } else {
        proof {
            assert(is_ascii_chars(filename@) ==> is_ascii_chars(base@)) by {
                if is_ascii_chars(filename@) {
                    assert forall|i: int| 0 <= i < base@.len() implies '\0' <= #[trigger] base@[i]
                        <= '\u{7f}' by {
                        assert(base@[i] == filename@[i]);
                    }
                }
            }
        }
        transliterate(base)
    };
    let slugified = slug_filename_from_text(&text, is_dotfile, ext, options);
    // A name that is already clean is handed back as it is.
    if same_text(slugified.as_str(), filename) {
        Cow::Borrowed(filename)
    } else {
        Cow::Owned(slugified)
    }
}

/// Slugify an arbitrary string (not a filename).
///
/// Unlike [`slugify`], this treats the entire input as plain text: no
/// extension splitting, no dotfile preservation. Use this for generating URL
/// slugs, identifiers, or other non-filename use cases.
pub fn slugify_string(input: &str, options: &SlugifyOptions) -> (res: String)
    ensures
        res@ == spec_slugify_string(input@, *options),
        utf8_len(res@) <= MAX_SLUG_BYTES,
        !options.keep_unicode ==> all_slug_chars(res@, options.style) && separators_well_placed(
            res@,
        ) && is_ascii_chars(res@),
        !options.keep_unicode && is_ascii_chars(input@) ==> res@ == spec_slug_string_from_text(
            input@,
            *options,
        ),
        !options.keep_unicode && options.style != Style::Pascal && !input@.contains(VERSION_DOT)
            && (res@.len() == 0 || res@.last() != '.') ==> spec_slug_string_from_text(
            res@,
            *options,
        ) == res@,
{
    proof {
        law_slugify_string_length(input@, *options);
        lemma_slug_string_of_empty(*options);
        if !options.keep_unicode {
            law_slugify_string_ascii_shape(input@, *options);
        }
    }
    if input.is_empty() {
        assert(input@ =~= Seq::<char>::empty());
        return String::new();
    }
    let text = if options.keep_unicode {
        input.to_owned()
    } else {
        transliterate(input)
    };
    proof {
        if !options.keep_unicode && options.style != Style::Pascal && !input@.contains(
            VERSION_DOT,
        ) {
            let s1 = spec_slug_string_from_text(text@, *options);
            if s1.len() == 0 || s1.last() != '.' {
                law_slug_string_idempotent(text@, *options);
            }
        }
    }
    slug_string_from_text(&text, options)
}

} // verus!
