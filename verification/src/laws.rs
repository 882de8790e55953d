//! Properties of the slug pipelines as a whole: the length limits, the kept
//! extension, the shape of ASCII slugs, and that slugifying a slug again
//! gives it back.
use vstd::prelude::*;
use vstd::utf8::is_ascii_chars;
use crate::extension::{extension_start, lemma_extension_start_bounds};
use crate::options::{SlugifyOptions, Style};
use crate::slug::{
    source_text, spec_slug_filename_from_text, spec_slug_from_text, spec_slug_string_from_text,
    spec_slugify, spec_slugify_string, MAX_FILENAME_BYTES, MAX_SLUG_BYTES,
};
use crate::text::{
    lemma_utf8_len_concat, spec_ascii_lower, spec_ascii_upper, spec_is_ascii_lower,
    spec_is_ascii_upper, spec_is_digit, utf8_len,
};
use crate::truncate::{
    base_budget, is_cut_separator, last_cut_separator, lemma_last_cut_separator,
    lemma_truncated_base_fits, lemma_fitting_prefix,
    truncated_base, fitting_prefix_len,
};
use crate::version::{is_version_dot_at, unmark_version_dots, VERSION_DOT};
use crate::words::{
    capitalized, concat_capitalized, is_word_char, join_with, joined, normalized_words,
    words_of, lowercase_word, strip_brackets, lemma_words_of_ends_in_word,
};
use crate::version::mark_version_dots;

verus! {

/// A character that an ASCII slug in the given style may hold: lowercase
/// letters, digits and version dots, plus the style's separator (`-` for
/// kebab, `_` for snake) or uppercase letters (pascal).
pub open spec fn is_slug_char(c: char, style: Style) -> bool {
    ||| spec_is_ascii_lower(c)
    ||| spec_is_digit(c)
    ||| c == '.'
    ||| match style {
        Style::Kebab => c == '-',
        Style::Snake => c == '_',
        Style::Pascal => spec_is_ascii_upper(c),
    }
}

/// Every character of `s` may stand in an ASCII slug of the given style.
pub open spec fn all_slug_chars(s: Seq<char>, style: Style) -> bool {
    forall|i: int| 0 <= i < s.len() ==> is_slug_char(#[trigger] s[i], style)
}

/// `s` neither starts nor ends with a `-` or `_`, and never holds two of them
/// in a row.
pub open spec fn separators_well_placed(s: Seq<char>) -> bool {
    &&& s.len() > 0 ==> !is_cut_separator(s[0]) && !is_cut_separator(s.last())
    &&& forall|i: int|
        0 <= i < s.len() - 1 ==> !(is_cut_separator(#[trigger] s[i]) && is_cut_separator(
            s[i + 1],
        ))
}

proof fn lemma_slug_chars_ascii(s: Seq<char>, style: Style)
    requires
        all_slug_chars(s, style),
    ensures
        is_ascii_chars(s),
{
    assert forall|i: int| 0 <= i < s.len() implies '\0' <= #[trigger] s[i] <= '\u{7f}' by {
        assert(is_slug_char(s[i], style));
    }
}

/// A character of a lowercased ASCII word.
spec fn is_lower_word_char(c: char) -> bool {
    spec_is_ascii_lower(c) || spec_is_digit(c) || c == VERSION_DOT
}

/// The character set of a joined slug before version dots are restored.
spec fn is_raw_slug_char(c: char, style: Style) -> bool {
    ||| is_lower_word_char(c)
    ||| match style {
        Style::Kebab => c == '-',
        Style::Snake => c == '_',
        Style::Pascal => spec_is_ascii_upper(c),
    }
}

/// Words that are non-empty and made of lowercased ASCII word characters.
spec fn lower_words(ws: Seq<Seq<char>>) -> bool {
    forall|j: int|
        0 <= j < ws.len() ==> (#[trigger] ws[j]).len() > 0 && forall|k: int|
            0 <= k < ws[j].len() ==> is_lower_word_char(#[trigger] ws[j][k])
}

/// Every word is non-empty and made only of word characters, and of
/// characters of the text: any property that all characters of the text have,
/// all characters of its words have too.
pub proof fn lemma_words_of_shape(s: Seq<char>, keep_unicode: bool, pred: spec_fn(char) -> bool)
    requires
        forall|i: int| 0 <= i < s.len() ==> pred(#[trigger] s[i]),
    ensures
        forall|j: int|
            0 <= j < words_of(s, keep_unicode).len() ==> (#[trigger] words_of(
                s,
                keep_unicode,
            )[j]).len() > 0 && forall|k: int|
                0 <= k < words_of(s, keep_unicode)[j].len() ==> is_word_char(
                    #[trigger] words_of(s, keep_unicode)[j][k],
                    keep_unicode,
                ) && pred(words_of(s, keep_unicode)[j][k]),
    decreases s.len(),
{
    if s.len() > 0 {
        let prev = words_of(s.drop_last(), keep_unicode);
        let w = words_of(s, keep_unicode);
        let c = s.last();
        assert forall|i: int| 0 <= i < s.drop_last().len() implies pred(#[trigger] s.drop_last()[i]) by {
            assert(s.drop_last()[i] == s[i]);
        }
        lemma_words_of_shape(s.drop_last(), keep_unicode, pred);
        let extend = is_word_char(c, keep_unicode) && s.len() >= 2 && is_word_char(
            s[s.len() - 2],
            keep_unicode,
        );
        if extend {
            assert(s.drop_last().last() == s[s.len() - 2]);
            lemma_words_of_ends_in_word(s.drop_last(), keep_unicode);
        }
        assert forall|j: int| 0 <= j < w.len() implies (#[trigger] w[j]).len() > 0 && forall|k: int|
            0 <= k < w[j].len() ==> is_word_char(#[trigger] w[j][k], keep_unicode) && pred(
                w[j][k],
            ) by {
            if !is_word_char(c, keep_unicode) {
                assert(w[j] == prev[j]);
            } else if extend {
                if j == prev.len() - 1 {
                    assert(w[j] == prev[j].push(c));
                    assert forall|k: int| 0 <= k < w[j].len() implies is_word_char(
                        #[trigger] w[j][k],
                        keep_unicode,
                    ) && pred(w[j][k]) by {
                        if k < prev[j].len() {
                            assert(w[j][k] == prev[j][k]);
                        }
                    }
                } else {
                    assert(w[j] == prev[j]);
                }
            } else {
                if j == prev.len() {
                    assert(w[j] == seq![c]);
                } else {
                    assert(w[j] == prev[j]);
                }
            }
        }
    }
}

proof fn lemma_normalized_ascii(text: Seq<char>)
    ensures
        lower_words(normalized_words(text, false)),
{
    let s = mark_version_dots(strip_brackets(text));
    let raw = words_of(s, false);
    lemma_words_of_shape(s, false, |c: char| true);
    let ws = normalized_words(text, false);
    assert forall|j: int| 0 <= j < ws.len() implies (#[trigger] ws[j]).len() > 0 && forall|k: int|
        0 <= k < ws[j].len() ==> is_lower_word_char(#[trigger] ws[j][k]) by {
        assert(ws[j] == lowercase_word(raw[j], false));
        assert forall|k: int| 0 <= k < ws[j].len() implies is_lower_word_char(
            #[trigger] ws[j][k],
        ) by {
            assert(ws[j][k] == spec_ascii_lower(raw[j][k]));
            assert(is_word_char(raw[j][k], false));
        }
    }
}

proof fn lemma_join_shape(ws: Seq<Seq<char>>, sep: char, style: Style)
    requires
        lower_words(ws),
        (style == Style::Kebab && sep == '-') || (style == Style::Snake && sep == '_'),
    ensures
        ws.len() > 0 ==> join_with(ws, sep).len() > 0,
        forall|i: int|
            0 <= i < join_with(ws, sep).len() ==> is_raw_slug_char(
                #[trigger] join_with(ws, sep)[i],
                style,
            ),
        separators_well_placed(join_with(ws, sep)),
    decreases ws.len(),
{
    let j = join_with(ws, sep);
    if ws.len() == 1 {
        assert(j == ws[0]);
        assert(ws[0].len() > 0);
    } else if ws.len() > 1 {
        let pw = ws.drop_last();
        assert(lower_words(pw)) by {
            assert forall|a: int| 0 <= a < pw.len() implies (#[trigger] pw[a]).len() > 0
                && forall|k: int| 0 <= k < pw[a].len() ==> is_lower_word_char(#[trigger] pw[a][k]) by {
                assert(pw[a] == ws[a]);
            }
        }
        lemma_join_shape(pw, sep, style);
        let prev = join_with(pw, sep);
        let last = ws.last();
        assert(last == ws[ws.len() - 1]);
        assert(last.len() > 0);
        assert(j == prev.push(sep) + last);
        assert forall|i: int| 0 <= i < j.len() implies is_raw_slug_char(#[trigger] j[i], style) by {
            if i < prev.len() {
                assert(j[i] == prev[i]);
            } else if i == prev.len() {
                assert(j[i] == sep);
            } else {
                assert(j[i] == last[i - prev.len() - 1]);
            }
        }
        assert(j[0] == prev[0]);
        assert(j.last() == last.last());
        assert forall|i: int| 0 <= i < j.len() - 1 implies !(is_cut_separator(#[trigger] j[i])
            && is_cut_separator(j[i + 1])) by {
            if i < prev.len() - 1 {
                assert(j[i] == prev[i]);
                assert(j[i + 1] == prev[i + 1]);
            } else if i == prev.len() - 1 {
                assert(j[i] == prev.last());
            } else if i == prev.len() {
                assert(j[i + 1] == last[0]);
            } else {
                assert(j[i] == last[i - prev.len() - 1]);
            }
        }
    }
}

proof fn lemma_concat_capitalized_shape(ws: Seq<Seq<char>>)
    requires
        lower_words(ws),
    ensures
        forall|i: int|
            0 <= i < concat_capitalized(ws, false).len() ==> is_raw_slug_char(
                #[trigger] concat_capitalized(ws, false)[i],
                Style::Pascal,
            ) && !is_cut_separator(concat_capitalized(ws, false)[i]),
    decreases ws.len(),
{
    if ws.len() > 0 {
        let pw = ws.drop_last();
        assert(lower_words(pw)) by {
            assert forall|a: int| 0 <= a < pw.len() implies (#[trigger] pw[a]).len() > 0
                && forall|k: int| 0 <= k < pw[a].len() ==> is_lower_word_char(#[trigger] pw[a][k]) by {
                assert(pw[a] == ws[a]);
            }
        }
        lemma_concat_capitalized_shape(pw);
        let prev = concat_capitalized(pw, false);
        let last = ws.last();
        assert(last == ws[ws.len() - 1]);
        let cap = capitalized(last, false);
        let all = concat_capitalized(ws, false);
        assert(all == prev + cap);
        assert forall|i: int| 0 <= i < all.len() implies is_raw_slug_char(
            #[trigger] all[i],
            Style::Pascal,
        ) && !is_cut_separator(all[i]) by {
            if i < prev.len() {
                assert(all[i] == prev[i]);
            } else {
                let k = i - prev.len();
                assert(all[i] == cap[k]);
                if k == 0 {
                    assert(cap[0] == spec_ascii_upper(last[0]));
                } else {
                    assert(cap[k] == last[k]);
                }
            }
        }
    }
}

proof fn lemma_unmark_shape(s: Seq<char>, style: Style)
    requires
        forall|i: int| 0 <= i < s.len() ==> is_raw_slug_char(#[trigger] s[i], style),
        separators_well_placed(s),
    ensures
        all_slug_chars(unmark_version_dots(s), style),
        separators_well_placed(unmark_version_dots(s)),
{
    let u = unmark_version_dots(s);
    assert forall|i: int| 0 <= i < u.len() implies is_slug_char(#[trigger] u[i], style) by {
        assert(is_raw_slug_char(s[i], style));
    }
    assert forall|i: int| 0 <= i < u.len() - 1 implies !(is_cut_separator(#[trigger] u[i])
        && is_cut_separator(u[i + 1])) by {
        assert(u[i + 1] == if s[i + 1] == VERSION_DOT { '.' } else { s[i + 1] });
    }
    if u.len() > 0 {
        assert(u.last() == u[u.len() - 1]);
        assert(s.last() == s[s.len() - 1]);
    }
}

/// The slug of a text in ASCII mode, before any length limit, holds only slug
/// characters and has its separators well placed.
proof fn lemma_slug_from_text_shape(text: Seq<char>, options: SlugifyOptions)
    requires
        !options.keep_unicode,
    ensures
        spec_slug_from_text(text, options) matches Some(slug) ==> all_slug_chars(
            slug,
            options.style,
        ) && separators_well_placed(slug),
{
    let ws = normalized_words(text, false);
    lemma_normalized_ascii(text);
    if ws.len() > 0 {
        let j = joined(ws, options.style, false);
        match options.style {
            Style::Kebab => {
                lemma_join_shape(ws, '-', options.style);
            },
            Style::Snake => {
                lemma_join_shape(ws, '_', options.style);
            },
            Style::Pascal => {
                lemma_concat_capitalized_shape(ws);
                if j.len() > 0 {
                    assert(j.last() == j[j.len() - 1]);
                }
            },
        }
        lemma_unmark_shape(j, options.style);
    }
}

/// Cutting a slug keeps its characters and keeps its separators well placed.
proof fn lemma_truncated_shape(s: Seq<char>, ext: Seq<char>, max_bytes: int, style: Style)
    requires
        max_bytes >= 0,
        all_slug_chars(s, style),
        separators_well_placed(s),
    ensures
        all_slug_chars(truncated_base(s, ext, max_bytes), style),
        separators_well_placed(truncated_base(s, ext, max_bytes)),
{
    lemma_truncated_base_fits(s, ext, max_bytes);
    let r = truncated_base(s, ext, max_bytes);
    assert forall|i: int| 0 <= i < r.len() implies is_slug_char(#[trigger] r[i], style) by {
        assert(r[i] == s[i]);
    }
    assert forall|i: int| 0 <= i < r.len() - 1 implies !(is_cut_separator(#[trigger] r[i])
        && is_cut_separator(r[i + 1])) by {
        assert(r[i] == s[i]);
        assert(r[i + 1] == s[i + 1]);
    }
    if r.len() > 0 && r != s {
        let budget = base_budget(ext, max_bytes);
        lemma_fitting_prefix(s, budget);
        let cut = s.take(fitting_prefix_len(s, budget) as int);
        lemma_last_cut_separator(cut);
        let pos = last_cut_separator(cut);
        assert(r[0] == s[0]);
        if pos > 0 {
            assert(r.len() == pos);
            assert(r.last() == s[pos - 1]);
            assert(cut[pos] == s[pos]);
        } else {
            assert(r == cut);
            assert(pos == -1);
            assert(r.last() == cut[r.len() - 1]);
        }
    }
}

/// In ASCII mode, a plain-text slug is made only of lowercase ASCII letters,
/// digits, dots and the style's separator (uppercase letters in place of a
/// separator for pascal case), and it neither starts nor ends with a
/// separator nor holds two in a row.
pub proof fn law_slugify_string_ascii_shape(input: Seq<char>, options: SlugifyOptions)
    requires
        !options.keep_unicode,
    ensures
        all_slug_chars(spec_slugify_string(input, options), options.style),
        separators_well_placed(spec_slugify_string(input, options)),
        is_ascii_chars(spec_slugify_string(input, options)),
{
    if input.len() > 0 {
        let text = source_text(input, options);
        lemma_slug_from_text_shape(text, options);
        if let Some(slug) = spec_slug_from_text(text, options) {
            lemma_truncated_shape(slug, seq![], MAX_SLUG_BYTES as int, options.style);
        }
    }
    lemma_slug_chars_ascii(spec_slugify_string(input, options), options.style);
}

/// A plain-text slug never exceeds [`MAX_SLUG_BYTES`] bytes of UTF-8.
pub proof fn law_slugify_string_length(input: Seq<char>, options: SlugifyOptions)
    ensures
        utf8_len(spec_slugify_string(input, options)) <= MAX_SLUG_BYTES,
{
    if input.len() > 0 {
        let text = source_text(input, options);
        if let Some(slug) = spec_slug_from_text(text, options) {
            lemma_truncated_base_fits(slug, seq![], MAX_SLUG_BYTES as int);
            assert(utf8_len(Seq::<char>::empty()) == 0);
        }
    }
}

/// The part of a slugified filename that stands before its extension.
pub open spec fn slug_base_of(filename: Seq<char>, options: SlugifyOptions) -> Seq<char> {
    let r = spec_slugify(filename, options);
    let ext = filename.skip(extension_start(filename));
    r.take(r.len() - ext.len())
}

/// A slugified filename ends with the extension of the name it was made
/// from, unchanged: it is the slug base followed by that extension.
pub proof fn law_slugify_keeps_extension(filename: Seq<char>, options: SlugifyOptions)
    ensures
        spec_slugify(filename, options) == slug_base_of(filename, options) + filename.skip(
            extension_start(filename),
        ),
{
    lemma_extension_start_bounds(filename);
    let r = spec_slugify(filename, options);
    let k = extension_start(filename);
    let ext = filename.skip(k);
    if filename.len() == 0 {
        assert(r =~= ext);
    } else if filename.take(k).len() == 0 {
        assert(ext =~= filename);
    } else {
        let base = filename.take(k);
        let text = source_text(base, options);
        match spec_slug_from_text(text, options) {
            None => {},
            Some(slug) => {
                let slug2 = if base[0] == '.' { seq!['.'] + slug } else { slug };
                let t = truncated_base(slug2, ext, MAX_FILENAME_BYTES as int);
                assert(r == t + ext);
                assert((t + ext).take(t.len() as int) =~= t);
            },
        }
    }
    assert(r.take(r.len() - ext.len()) + ext =~= r);
}

/// A slugified filename fits in [`MAX_FILENAME_BYTES`] bytes of UTF-8,
/// unless it is exactly the extension of the name (a name that is all
/// extension, such as a long dotfile, or whose extension alone is too long).
pub proof fn law_slugify_length(filename: Seq<char>, options: SlugifyOptions)
    ensures
        utf8_len(spec_slugify(filename, options)) <= MAX_FILENAME_BYTES || spec_slugify(
            filename,
            options,
        ) == filename.skip(extension_start(filename)),
{
    lemma_extension_start_bounds(filename);
    let r = spec_slugify(filename, options);
    let k = extension_start(filename);
    let ext = filename.skip(k);
    if filename.len() == 0 {
        assert(utf8_len(r) == 0);
    } else if filename.take(k).len() == 0 {
        assert(ext =~= filename);
    } else {
        let base = filename.take(k);
        let text = source_text(base, options);
        match spec_slug_from_text(text, options) {
            None => {},
            Some(slug) => {
                let slug2 = if base[0] == '.' { seq!['.'] + slug } else { slug };
                let t = truncated_base(slug2, ext, MAX_FILENAME_BYTES as int);
                lemma_truncated_base_fits(slug2, ext, MAX_FILENAME_BYTES as int);
                lemma_utf8_len_concat(t, ext);
                if utf8_len(ext) > MAX_FILENAME_BYTES {
                    assert(utf8_len(t) == 0);
                    assert(t.len() == 0) by {
                        if t.len() > 0 {
                            crate::text::lemma_utf8_len_at_least_len(t);
                        }
                    }
                    assert(t + ext =~= ext);
                }
            },
        }
    }
}

/// In ASCII mode, the part of a slugified filename before its extension is
/// made only of lowercase ASCII letters, digits, dots and the style's
/// separator (uppercase letters in place of a separator for pascal case),
/// and it neither starts nor ends with a separator nor holds two in a row.
pub proof fn law_slugify_ascii_shape(filename: Seq<char>, options: SlugifyOptions)
    requires
        !options.keep_unicode,
    ensures
        all_slug_chars(slug_base_of(filename, options), options.style),
        separators_well_placed(slug_base_of(filename, options)),
        is_ascii_chars(slug_base_of(filename, options)),
{
    law_slugify_keeps_extension(filename, options);
    lemma_extension_start_bounds(filename);
    let r = spec_slugify(filename, options);
    let k = extension_start(filename);
    let ext = filename.skip(k);
    let b = slug_base_of(filename, options);
    if filename.len() == 0 || filename.take(k).len() == 0 {
        assert(b.len() == 0);
    } else {
        let base = filename.take(k);
        let text = source_text(base, options);
        lemma_slug_from_text_shape(text, options);
        match spec_slug_from_text(text, options) {
            None => {
                assert(b.len() == 0);
            },
            Some(slug) => {
                let slug2 = if base[0] == '.' { seq!['.'] + slug } else { slug };
                if base[0] == '.' {
                    assert forall|i: int| 0 <= i < slug2.len() implies is_slug_char(
                        #[trigger] slug2[i],
                        options.style,
                    ) by {
                        if i > 0 {
                            assert(slug2[i] == slug[i - 1]);
                        }
                    }
                    assert forall|i: int| 0 <= i < slug2.len() - 1 implies !(is_cut_separator(
                        #[trigger] slug2[i],
                    ) && is_cut_separator(slug2[i + 1])) by {
                        if i > 0 {
                            assert(slug2[i] == slug[i - 1]);
                            assert(slug2[i + 1] == slug[i]);
                        }
                    }
                    if slug.len() > 0 {
                        assert(slug2.last() == slug.last());
                    }
                }
                lemma_truncated_shape(slug2, ext, MAX_FILENAME_BYTES as int, options.style);
                let t = truncated_base(slug2, ext, MAX_FILENAME_BYTES as int);
                assert(r == t + ext);
                assert(b =~= t);
            },
        }
    }
    lemma_slug_chars_ascii(b, options.style);
}

proof fn lemma_join_extend(ws: Seq<Seq<char>>, sep: char, c: char)
    requires
        ws.len() > 0,
    ensures
        join_with(ws.update(ws.len() - 1, ws.last().push(c)), sep) == join_with(ws, sep).push(c),
{
    let u = ws.update(ws.len() - 1, ws.last().push(c));
    if ws.len() == 1 {
        assert(u[0] == ws[0].push(c));
    } else {
        assert(u.drop_last() =~= ws.drop_last());
        assert(u.last() == ws.last().push(c));
        assert(join_with(u, sep) =~= join_with(ws, sep).push(c));
    }
}

/// Splitting a slug into its words and joining them again with its separator
/// gives the slug back.
proof fn lemma_join_words_of(s: Seq<char>, sep: char)
    requires
        sep == '-' || sep == '_',
        s.len() > 0,
        forall|i: int| 0 <= i < s.len() ==> is_word_char(#[trigger] s[i], false) || s[i] == sep,
        !is_cut_separator(s[0]),
        forall|i: int|
            0 <= i < s.len() - 1 ==> !(is_cut_separator(#[trigger] s[i]) && is_cut_separator(
                s[i + 1],
            )),
    ensures
        words_of(s, false).len() > 0,
        join_with(words_of(s, false), sep) == if s.last() == sep {
            s.drop_last()
        } else {
            s
        },
    decreases s.len(),
{
    let p = s.drop_last();
    let c = s.last();
    assert(c == s[s.len() - 1]);
    if s.len() == 1 {
        assert(p =~= Seq::<char>::empty());
        assert(words_of(s, false) =~= seq![seq![c]]);
        assert(s =~= seq![c]);
    } else {
        assert forall|i: int| 0 <= i < p.len() implies is_word_char(#[trigger] p[i], false)
            || p[i] == sep by {
            assert(p[i] == s[i]);
        }
        assert forall|i: int| 0 <= i < p.len() - 1 implies !(is_cut_separator(#[trigger] p[i])
            && is_cut_separator(p[i + 1])) by {
            assert(p[i] == s[i]);
            assert(p[i + 1] == s[i + 1]);
        }
        assert(p[0] == s[0]);
        lemma_join_words_of(p, sep);
        let w = words_of(p, false);
        assert(p.last() == s[s.len() - 2]);
        if c == sep {
            assert(!is_word_char(c, false));
            assert(words_of(s, false) == w);
        } else if is_word_char(p.last(), false) {
            assert(words_of(s, false) == w.update(w.len() - 1, w.last().push(c)));
            lemma_join_extend(w, sep, c);
            assert(s =~= p.push(c));
        } else {
            assert(p.last() == sep);
            assert(words_of(s, false) == w.push(seq![c]));
            assert(w.push(seq![c]).drop_last() =~= w);
            assert(w.push(seq![c]).last() == seq![c]);
            assert(s =~= p.drop_last().push(sep) + seq![c]);
        }
    }
}

/// Every protected version dot of `w` has a digit before it and a digit
/// after it; only when `open` may it end `w` (its digit not read yet).
spec fn vd_ok(w: Seq<char>, open: bool) -> bool {
    forall|k: int|
        0 <= k < w.len() && #[trigger] w[k] == VERSION_DOT ==> 0 < k && spec_is_digit(w[k - 1])
            && (k + 1 < w.len() ==> spec_is_digit(w[k + 1])) && (k + 1 == w.len() ==> open)
}

proof fn lemma_words_vd_prefix(m: Seq<char>, n: int)
    requires
        vd_ok(m, false),
        0 <= n <= m.len(),
    ensures
        n > 0 && is_word_char(m[n - 1], false) ==> words_of(m.take(n), false).len() > 0
            && words_of(m.take(n), false).last().len() > 0 && words_of(
            m.take(n),
            false,
        ).last().last() == m[n - 1],
        forall|j: int|
            0 <= j < words_of(m.take(n), false).len() ==> vd_ok(
                #[trigger] words_of(m.take(n), false)[j],
                n > 0 && is_word_char(m[n - 1], false) && j == words_of(m.take(n), false).len()
                    - 1,
            ),
    decreases n,
{
    if n == 0 {
        assert(m.take(0) =~= Seq::<char>::empty());
    } else {
        let p = m.take(n - 1);
        let t = m.take(n);
        assert(t.drop_last() =~= p);
        let c = m[n - 1];
        assert(t.last() == c);
        lemma_words_vd_prefix(m, n - 1);
        let w = words_of(p, false);
        let ws = words_of(t, false);
        let open_prev = n - 1 > 0 && is_word_char(m[n - 2], false);
        let open = is_word_char(c, false);
        if n >= 2 {
            assert(t[t.len() - 2] == m[n - 2]);
        }
        if !open {
            assert(ws == w);
            assert forall|j: int| 0 <= j < ws.len() implies vd_ok(#[trigger] ws[j], false) by {
                if open_prev && j == w.len() - 1 {
                    let x = w[j];
                    assert forall|k: int| 0 <= k < x.len() && #[trigger] x[k] == VERSION_DOT implies 0
                        < k && spec_is_digit(x[k - 1]) && (k + 1 < x.len() ==> spec_is_digit(
                        x[k + 1],
                    )) && (k + 1 == x.len() ==> false) by {
                        if k + 1 == x.len() {
                            assert(x[k] == x.last());
                            assert(m[n - 2] == VERSION_DOT);
                            assert(m[(n - 2) + 1] == c);
                        }
                    }
                }
            }
        } else if open_prev {
            assert(ws == w.update(w.len() - 1, w.last().push(c)));
            assert forall|j: int| 0 <= j < ws.len() implies vd_ok(
                #[trigger] ws[j],
                j == ws.len() - 1,
            ) by {
                if j == ws.len() - 1 {
                    let x = w[j];
                    let y = ws[j];
                    assert(y == x.push(c));
                    assert(x.last() == m[n - 2]);
                    assert forall|k: int| 0 <= k < y.len() && #[trigger] y[k] == VERSION_DOT implies 0
                        < k && spec_is_digit(y[k - 1]) && (k + 1 < y.len() ==> spec_is_digit(
                        y[k + 1],
                    )) && (k + 1 == y.len() ==> true) by {
                        if k < x.len() {
                            assert(y[k] == x[k]);
                            assert(x[k] == VERSION_DOT);
                            if k + 1 < x.len() {
                                assert(y[k + 1] == x[k + 1]);
                            } else {
                                assert(x[k] == x.last());
                                assert(m[(n - 2) + 1] == c);
                            }
                            assert(y[k - 1] == x[k - 1]);
                        } else {
                            assert(c == VERSION_DOT);
                            assert(y[k - 1] == x.last());
                        }
                    }
                } else {
                    assert(ws[j] == w[j]);
                }
            }
        } else {
            assert(ws == w.push(seq![c]));
            if c == VERSION_DOT {
                assert(spec_is_digit(m[n - 2]));
            }
            assert forall|j: int| 0 <= j < ws.len() implies vd_ok(
                #[trigger] ws[j],
                j == ws.len() - 1,
            ) by {
                if j < w.len() {
                    assert(ws[j] == w[j]);
                } else {
                    assert(ws[j] == seq![c]);
                }
            }
        }
    }
}

/// In the words of a text whose version dots all sit between digits, each
/// version dot sits between two digits of its word.
proof fn lemma_words_vd(m: Seq<char>)
    requires
        vd_ok(m, false),
    ensures
        forall|j: int|
            0 <= j < words_of(m, false).len() ==> vd_ok(#[trigger] words_of(m, false)[j], false),
{
    let n = m.len() as int;
    lemma_words_vd_prefix(m, n);
    assert(m.take(n) =~= m);
    let ws = words_of(m, false);
    assert forall|j: int| 0 <= j < ws.len() implies vd_ok(#[trigger] ws[j], false) by {
        if n > 0 && is_word_char(m[n - 1], false) && j == ws.len() - 1 {
            let x = ws[j];
            assert forall|k: int| 0 <= k < x.len() && #[trigger] x[k] == VERSION_DOT implies 0 < k
                && spec_is_digit(x[k - 1]) && (k + 1 < x.len() ==> spec_is_digit(x[k + 1])) && (k
                + 1 == x.len() ==> false) by {
                if k + 1 == x.len() {
                    assert(x[k] == x.last());
                    assert(m[n - 1] == VERSION_DOT);
                }
            }
        }
    }
}

/// Every dot of `s` sits between two digits.
spec fn dots_between_digits(s: Seq<char>) -> bool {
    forall|i: int| 0 <= i < s.len() && #[trigger] s[i] == '.' ==> is_version_dot_at(s, i)
}

proof fn lemma_normalized_vd(text: Seq<char>)
    requires
        !text.contains(VERSION_DOT),
    ensures
        forall|j: int|
            0 <= j < normalized_words(text, false).len() ==> vd_ok(
                #[trigger] normalized_words(text, false)[j],
                false,
            ),
{
    let st = strip_brackets(text);
    let m = mark_version_dots(st);
    assert forall|k: int| 0 <= k < m.len() && #[trigger] m[k] == VERSION_DOT implies 0 < k
        && spec_is_digit(m[k - 1]) && (k + 1 < m.len() ==> spec_is_digit(m[k + 1])) && (k + 1
        == m.len() ==> false) by {
        if !is_version_dot_at(st, k) {
            assert(st[k] == VERSION_DOT);
            assert(text[k] == VERSION_DOT);
            assert(text.contains(VERSION_DOT));
        }
        assert(st[k - 1] != '.');
        assert(st[k + 1] != '.');
    }
    lemma_words_vd(m);
    let raw = words_of(m, false);
    let ws = normalized_words(text, false);
    assert forall|j: int| 0 <= j < ws.len() implies vd_ok(#[trigger] ws[j], false) by {
        let x = raw[j];
        let y = ws[j];
        assert(vd_ok(x, false));
        assert(y == lowercase_word(x, false));
        assert forall|k: int| 0 <= k < y.len() && #[trigger] y[k] == VERSION_DOT implies 0 < k
            && spec_is_digit(y[k - 1]) && (k + 1 < y.len() ==> spec_is_digit(y[k + 1])) && (k + 1
            == y.len() ==> false) by {
            assert(y[k] == spec_ascii_lower(x[k]));
            assert(x[k] == VERSION_DOT);
            assert(y[k - 1] == spec_ascii_lower(x[k - 1]));
            if k + 1 < y.len() {
                assert(y[k + 1] == spec_ascii_lower(x[k + 1]));
            }
        }
    }
}

proof fn lemma_join_vd(ws: Seq<Seq<char>>, sep: char)
    requires
        sep == '-' || sep == '_',
        forall|j: int| 0 <= j < ws.len() ==> vd_ok(#[trigger] ws[j], false),
    ensures
        vd_ok(join_with(ws, sep), false),
    decreases ws.len(),
{
    if ws.len() == 1 {
        assert(vd_ok(ws[0], false));
    } else if ws.len() > 1 {
        let pw = ws.drop_last();
        assert forall|j: int| 0 <= j < pw.len() implies vd_ok(#[trigger] pw[j], false) by {
            assert(pw[j] == ws[j]);
        }
        lemma_join_vd(pw, sep);
        let p = join_with(pw, sep);
        let l = ws.last();
        assert(vd_ok(l, false)) by {
            assert(l == ws[ws.len() - 1]);
        }
        let j = join_with(ws, sep);
        assert(j == p.push(sep) + l);
        assert forall|i: int| 0 <= i < j.len() && #[trigger] j[i] == VERSION_DOT implies 0 < i
            && spec_is_digit(j[i - 1]) && (i + 1 < j.len() ==> spec_is_digit(j[i + 1])) && (i + 1
            == j.len() ==> false) by {
            if i < p.len() {
                assert(j[i] == p[i]);
                assert(j[i - 1] == p[i - 1]);
                assert(j[i + 1] == p[i + 1]);
            } else if i == p.len() {
                assert(j[i] == sep);
            } else {
                let k = i - p.len() - 1;
                assert(j[i] == l[k]);
                assert(j[i - 1] == l[k - 1]);
                assert(j[i + 1] == l[k + 1]);
            }
        }
    }
}

/// Plain-text slugs in ASCII mode keep their dots between digits, except
/// where a cut leaves one at the very end.
proof fn lemma_slug_dots(text: Seq<char>, options: SlugifyOptions)
    requires
        !options.keep_unicode,
        options.style != Style::Pascal,
        !text.contains(VERSION_DOT),
    ensures
        spec_slug_from_text(text, options) matches Some(slug) ==> dots_between_digits(slug),
{
    let ws = normalized_words(text, false);
    if ws.len() > 0 {
        let sep = if options.style == Style::Kebab { '-' } else { '_' };
        let j = joined(ws, options.style, false);
        assert(j == join_with(ws, sep));
        lemma_normalized_ascii(text);
        lemma_join_shape(ws, sep, options.style);
        lemma_normalized_vd(text);
        lemma_join_vd(ws, sep);
        let s = unmark_version_dots(j);
        assert forall|i: int| 0 <= i < s.len() && #[trigger] s[i] == '.' implies is_version_dot_at(
            s,
            i,
        ) by {
            assert(is_raw_slug_char(j[i], options.style));
            assert(j[i] == VERSION_DOT);
            assert(s[i - 1] == j[i - 1]);
            assert(s[i + 1] == j[i + 1]);
        }
    }
}

/// Slugifying a plain-text slug again gives it back: in ASCII mode with a
/// separator style, for a text without the placeholder character, whenever
/// the slug does not end with a dot (a dot left last by the length cut would
/// turn into a separator).
pub proof fn law_slug_string_idempotent(text: Seq<char>, options: SlugifyOptions)
    requires
        !options.keep_unicode,
        options.style != Style::Pascal,
        !text.contains(VERSION_DOT),
        spec_slug_string_from_text(text, options).len() == 0 || spec_slug_string_from_text(
            text,
            options,
        ).last() != '.',
    ensures
        spec_slug_string_from_text(spec_slug_string_from_text(text, options), options)
            == spec_slug_string_from_text(text, options),
{
    let s1 = spec_slug_string_from_text(text, options);
    if s1.len() == 0 {
        lemma_slug_string_of_empty(options);
    } else {
        lemma_slug_string_resluggable(text, options);
    }
}

/// An empty text has an empty slug.
pub(crate) proof fn lemma_slug_string_of_empty(options: SlugifyOptions)
    ensures
        spec_slug_string_from_text(seq![], options) == Seq::<char>::empty(),
{
    let e = Seq::<char>::empty();
    assert(strip_brackets(e) =~= e);
    assert(mark_version_dots(e) =~= e);
    assert(words_of(e, options.keep_unicode) =~= Seq::<Seq<char>>::empty());
}

/// The non-empty case of [`law_slug_string_idempotent`].
proof fn lemma_slug_string_resluggable(text: Seq<char>, options: SlugifyOptions)
    requires
        !options.keep_unicode,
        options.style != Style::Pascal,
        !text.contains(VERSION_DOT),
        spec_slug_string_from_text(text, options).len() > 0,
        spec_slug_string_from_text(text, options).last() != '.',
    ensures
        spec_slug_string_from_text(spec_slug_string_from_text(text, options), options)
            == spec_slug_string_from_text(text, options),
{
    let s1 = spec_slug_string_from_text(text, options);
    let sep = if options.style == Style::Kebab { '-' } else { '_' };
    let slug = spec_slug_from_text(text, options)->0;
    lemma_slug_from_text_shape(text, options);
    lemma_slug_dots(text, options);
    lemma_truncated_shape(slug, seq![], MAX_SLUG_BYTES as int, options.style);
    lemma_truncated_base_fits(slug, seq![], MAX_SLUG_BYTES as int);
    assert(utf8_len(Seq::<char>::empty()) == 0);
    // Every dot of the cut slug still sits between digits.
    assert(dots_between_digits(s1)) by {
        assert forall|i: int| 0 <= i < s1.len() && #[trigger] s1[i] == '.' implies is_version_dot_at(
            s1,
            i,
        ) by {
            assert(s1[i] == slug[i]);
            assert(i != s1.len() - 1);
            assert(s1[i - 1] == slug[i - 1]);
            assert(s1[i + 1] == slug[i + 1]);
        }
    }
    assert(!s1.contains(VERSION_DOT)) by {
        if s1.contains(VERSION_DOT) {
            let i = choose|i: int| 0 <= i < s1.len() && s1[i] == VERSION_DOT;
            assert(is_slug_char(s1[i], options.style));
        }
    }
    // Slugifying it again: no brackets, every dot protected.
    assert(strip_brackets(s1) =~= s1) by {
        assert forall|i: int| 0 <= i < s1.len() implies strip_brackets(s1)[i] == s1[i] by {
            assert(is_slug_char(s1[i], options.style));
        }
    }
    let m = mark_version_dots(s1);
    assert forall|i: int| 0 <= i < m.len() implies (is_word_char(#[trigger] m[i], false) || m[i]
        == sep) && !spec_is_ascii_upper(m[i]) by {
        assert(is_slug_char(s1[i], options.style));
        if s1[i] == '.' {
            assert(is_version_dot_at(s1, i));
        }
    }
    assert(m[0] == s1[0]) by {
        assert(!is_version_dot_at(s1, 0));
    }
    assert(m.last() == s1.last()) by {
        assert(!is_version_dot_at(s1, m.len() - 1));
    }
    assert forall|i: int| 0 <= i < m.len() - 1 implies !(is_cut_separator(#[trigger] m[i])
        && is_cut_separator(m[i + 1])) by {
        assert(is_cut_separator(m[i]) ==> m[i] == s1[i]);
        assert(is_cut_separator(m[i + 1]) ==> m[i + 1] == s1[i + 1]);
    }
    lemma_join_words_of(m, sep);
    lemma_words_of_shape(m, false, |c: char| !spec_is_ascii_upper(c));
    let w = words_of(m, false);
    assert(normalized_words(s1, false) =~= w) by {
        assert forall|j: int| 0 <= j < w.len() implies lowercase_word(#[trigger] w[j], false)
            == w[j] by {
            assert(lowercase_word(w[j], false) =~= w[j]);
        }
    }
    assert(joined(w, options.style, false) == join_with(w, sep));
    crate::version::lemma_restore_undoes_preserve(s1);
    assert(spec_slug_from_text(s1, options) == Some(s1));
    lemma_truncated_base_fits(s1, seq![], MAX_SLUG_BYTES as int);
}

} // verus!
