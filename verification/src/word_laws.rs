//! What the word and extension steps do, stated in terms of their inputs:
//! Unicode lowercasing of words, version dots kept inside words, separators
//! and capitals of each style, and extensions found in any letter case.
use vstd::prelude::*;
use crate::extension::{
    compound_extension, ends_with_ignore_ascii_case, extension_start, is_bare_dotfile,
    last_index_of,
};
use crate::options::Style;
use crate::text::{spec_is_ascii_alphanumeric, spec_ascii_lower, spec_ascii_upper, spec_is_ascii_upper};
use crate::unicode::{unicode_is_alphanumeric, unicode_lowercase, unicode_uppercase};
use crate::version::{mark_version_dots, VERSION_DOT};
use crate::words::{is_word_char, join_with, joined, normalized_words, strip_brackets, words_of};

verus! {

/// Number of occurrences of `c` in `s`.
pub open spec fn count_char(s: Seq<char>, c: char) -> nat
    decreases s.len(),
{
    if s.len() == 0 {
        0
    } else {
        count_char(s.drop_last(), c) + if s.last() == c {
            1nat
        } else {
            0nat
        }
    }
}

/// The words written one after the other, with nothing between them.
pub open spec fn concat_all(ws: Seq<Seq<char>>) -> Seq<char>
    decreases ws.len(),
{
    if ws.len() == 0 {
        seq![]
    } else {
        concat_all(ws.drop_last()) + ws.last()
    }
}

/// In Unicode mode every word is lowercased by the Unicode rules: word `j`
/// of the normalized text is what `str::to_lowercase` gives for word `j` of
/// the text (brackets blanked, version dots protected).
pub proof fn law_unicode_words_are_unicode_lowercase(text: Seq<char>)
    ensures
        normalized_words(text, true).len() == words_of(
            mark_version_dots(strip_brackets(text)),
            true,
        ).len(),
        forall|j: int|
            0 <= j < normalized_words(text, true).len() ==> #[trigger] normalized_words(text, true)[j]
                == unicode_lowercase(words_of(mark_version_dots(strip_brackets(text)), true)[j]),
{
}

/// In ASCII mode every word is lowercased character by character with the
/// ASCII mapping.
pub proof fn law_ascii_words_are_ascii_lowercase(text: Seq<char>)
    ensures
        forall|j: int|
            0 <= j < normalized_words(text, false).len() ==> #[trigger] normalized_words(
                text,
                false,
            )[j] == words_of(mark_version_dots(strip_brackets(text)), false)[j].map_values(
                |c: char| spec_ascii_lower(c),
            ),
{
}

proof fn lemma_concat_all_push(ws: Seq<Seq<char>>, w: Seq<char>)
    ensures
        concat_all(ws.push(w)) == concat_all(ws) + w,
{
    assert(ws.push(w).drop_last() =~= ws);
}

proof fn lemma_concat_all_extend(ws: Seq<Seq<char>>, c: char)
    requires
        ws.len() > 0,
    ensures
        concat_all(ws.update(ws.len() - 1, ws.last().push(c))) == concat_all(ws).push(c),
{
    let u = ws.update(ws.len() - 1, ws.last().push(c));
    assert(u.drop_last() =~= ws.drop_last());
    assert(u.last() == ws.last().push(c));
    assert(concat_all(u) =~= concat_all(ws).push(c));
}

proof fn lemma_count_char_push(s: Seq<char>, c: char, x: char)
    ensures
        count_char(s.push(c), x) == count_char(s, x) + if c == x {
            1nat
        } else {
            0nat
        },
{
    assert(s.push(c).drop_last() =~= s);
}

/// What counts as a word character: ASCII letters and digits in ASCII mode,
/// Unicode alphanumerics when unicode is kept, and the version-dot
/// placeholder in both modes.
pub proof fn law_word_characters(c: char)
    ensures
        is_word_char(c, false) <==> (spec_is_ascii_alphanumeric(c) || c == VERSION_DOT),
        is_word_char(c, true) <==> (unicode_is_alphanumeric(c) || c == VERSION_DOT),
{
}

/// Whatever the mode, splitting into words never drops a protected version
/// dot: the words together hold exactly as many placeholders as the text, so
/// a version number such as `1.2.3` stays inside one word.
pub proof fn law_words_keep_version_dots(s: Seq<char>, keep_unicode: bool)
    ensures
        count_char(concat_all(words_of(s, keep_unicode)), VERSION_DOT) == count_char(
            s,
            VERSION_DOT,
        ),
    decreases s.len(),
{
    if s.len() > 0 {
        let p = s.drop_last();
        let c = s.last();
        law_words_keep_version_dots(p, keep_unicode);
        let w = words_of(p, keep_unicode);
        assert(s == p.push(c));
        lemma_count_char_push(p, c, VERSION_DOT);
        if s.len() >= 2 {
            assert(p.last() == s[s.len() - 2]);
        }
        if c != VERSION_DOT && !crate::words::is_word_char(c, keep_unicode) {
        } else if s.len() >= 2 && crate::words::is_word_char(s[s.len() - 2], keep_unicode) {
            crate::words::lemma_words_of_ends_in_word(p, keep_unicode);
            lemma_concat_all_extend(w, c);
            lemma_count_char_push(concat_all(w), c, VERSION_DOT);
        } else {
            lemma_concat_all_push(w, seq![c]);
            assert(concat_all(w) + seq![c] =~= concat_all(w).push(c));
            lemma_count_char_push(concat_all(w), c, VERSION_DOT);
        }
    }
}

/// Splitting into words keeps every word character of the text and nothing
/// else: written one after the other, the words hold each character as often
/// as the text does when it is a word character, and never otherwise.
pub proof fn law_words_hold_the_word_characters(s: Seq<char>, keep_unicode: bool, c: char)
    ensures
        count_char(concat_all(words_of(s, keep_unicode)), c) == if is_word_char(c, keep_unicode) {
            count_char(s, c)
        } else {
            0
        },
    decreases s.len(),
{
    if s.len() > 0 {
        let p = s.drop_last();
        let x = s.last();
        law_words_hold_the_word_characters(p, keep_unicode, c);
        let w = words_of(p, keep_unicode);
        assert(s == p.push(x));
        lemma_count_char_push(p, x, c);
        if s.len() >= 2 {
            assert(p.last() == s[s.len() - 2]);
        }
        if !is_word_char(x, keep_unicode) {
        } else if s.len() >= 2 && is_word_char(s[s.len() - 2], keep_unicode) {
            crate::words::lemma_words_of_ends_in_word(p, keep_unicode);
            lemma_concat_all_extend(w, x);
            lemma_count_char_push(concat_all(w), x, c);
        } else {
            lemma_concat_all_push(w, seq![x]);
            assert(concat_all(w) + seq![x] =~= concat_all(w).push(x));
            lemma_count_char_push(concat_all(w), x, c);
        }
    }
}

/// Kebab slugs put `-` and snake slugs put `_` between consecutive words,
/// in either mode: the separator does not depend on whether unicode is kept.
pub proof fn law_separator_styles(ws: Seq<Seq<char>>, keep_unicode: bool)
    ensures
        joined(ws, Style::Kebab, keep_unicode) == join_with(ws, '-'),
        joined(ws, Style::Snake, keep_unicode) == join_with(ws, '_'),
        ws.len() >= 2 ==> joined(ws, Style::Snake, keep_unicode) == joined(
            ws.drop_last(),
            Style::Snake,
            keep_unicode,
        ).push('_') + ws.last(),
        ws.len() >= 2 ==> joined(ws, Style::Kebab, keep_unicode) == joined(
            ws.drop_last(),
            Style::Kebab,
            keep_unicode,
        ).push('-') + ws.last(),
        joined(ws, Style::Snake, true) == joined(ws, Style::Snake, false),
        joined(ws, Style::Kebab, true) == joined(ws, Style::Kebab, false),
{
}

/// A pascal slug is each word, in order, with its first character replaced by
/// its uppercase form (Unicode rules when unicode is kept, ASCII otherwise)
/// and the rest of the word unchanged, whatever the word's length.
pub proof fn law_pascal_capitalizes_every_word(ws: Seq<Seq<char>>, keep_unicode: bool)
    requires
        ws.len() > 0,
        ws.last().len() > 0,
    ensures
        joined(ws, Style::Pascal, keep_unicode) == joined(
            ws.drop_last(),
            Style::Pascal,
            keep_unicode,
        ) + (if keep_unicode {
            unicode_uppercase(ws.last()[0])
        } else {
            seq![spec_ascii_upper(ws.last()[0])]
        }) + ws.last().skip(1),
{
    assert(joined(ws, Style::Pascal, keep_unicode) =~= joined(
        ws.drop_last(),
        Style::Pascal,
        keep_unicode,
    ) + ((if keep_unicode {
        unicode_uppercase(ws.last()[0])
    } else {
        seq![spec_ascii_upper(ws.last()[0])]
    }) + ws.last().skip(1)));
}

/// ASCII lowercase form of a name.
pub open spec fn ascii_lowercased(s: Seq<char>) -> Seq<char> {
    s.map_values(|c: char| spec_ascii_lower(c))
}

proof fn lemma_last_index_of_dot_lower(s: Seq<char>)
    ensures
        last_index_of(s, '.') == last_index_of(ascii_lowercased(s), '.'),
    decreases s.len(),
{
    if s.len() > 0 {
        assert(ascii_lowercased(s).drop_last() =~= ascii_lowercased(s.drop_last()));
        lemma_last_index_of_dot_lower(s.drop_last());
    }
}

proof fn lemma_ends_with_lower(s: Seq<char>, suffix: Seq<char>)
    ensures
        ends_with_ignore_ascii_case(s, suffix) == ends_with_ignore_ascii_case(
            ascii_lowercased(s),
            suffix,
        ),
{
    let l = ascii_lowercased(s);
    if suffix.len() <= s.len() {
        assert forall|j: int| 0 <= j < suffix.len() implies spec_ascii_lower(
            #[trigger] l[l.len() - suffix.len() + j],
        ) == spec_ascii_lower(s[s.len() - suffix.len() + j]) by {
            let c = s[s.len() - suffix.len() + j];
            if spec_is_ascii_upper(c) {
                assert((((c as u32) + 32) as char) as u32 == (c as u32) + 32);
            }
        }
        if ends_with_ignore_ascii_case(s, suffix) {
            assert forall|j: int| 0 <= j < suffix.len() implies spec_ascii_lower(
                #[trigger] l[l.len() - suffix.len() + j],
            ) == suffix[j] by {
                assert(spec_ascii_lower(s[s.len() - suffix.len() + j]) == suffix[j]);
            }
        }
        if ends_with_ignore_ascii_case(l, suffix) {
            assert forall|j: int| 0 <= j < suffix.len() implies spec_ascii_lower(
                #[trigger] s[s.len() - suffix.len() + j],
            ) == suffix[j] by {
                assert(spec_ascii_lower(l[l.len() - suffix.len() + j]) == suffix[j]);
            }
        }
    }
}

/// Letter case does not move an extension: a name and its ASCII-lowercased
/// form have their extension at the same place, so `Backup.TAR.BZ2` splits
/// like `backup.tar.bz2`.
pub proof fn law_extension_ignores_ascii_case(s: Seq<char>)
    ensures
        extension_start(s) == extension_start(ascii_lowercased(s)),
{
    let l = ascii_lowercased(s);
    lemma_last_index_of_dot_lower(s);
    lemma_ends_with_lower(s, compound_extension(0));
    lemma_ends_with_lower(s, compound_extension(1));
    lemma_ends_with_lower(s, compound_extension(2));
    lemma_ends_with_lower(s, compound_extension(3));
    if s.len() > 0 {
        assert(l.skip(1) =~= ascii_lowercased(s.skip(1)));
        assert(s.skip(1).contains('.') == l.skip(1).contains('.')) by {
            if s.skip(1).contains('.') {
                let i = choose|i: int| 0 <= i < s.skip(1).len() && s.skip(1)[i] == '.';
                assert(l.skip(1)[i] == '.');
            }
            if l.skip(1).contains('.') {
                let i = choose|i: int| 0 <= i < l.skip(1).len() && l.skip(1)[i] == '.';
                assert(spec_ascii_lower(s.skip(1)[i]) == '.');
            }
        }
        assert(l[0] == spec_ascii_lower(s[0]));
    }
    assert(is_bare_dotfile(s) == is_bare_dotfile(l));
}

/// A name that ends with a compound extension written in lowercase, and is
/// not a bare dotfile, has that whole compound as its extension.
pub proof fn law_compound_extension_found(base: Seq<char>, i: int)
    requires
        0 <= i < 4,
        !is_bare_dotfile(base + compound_extension(i)),
    ensures
        extension_start(base + compound_extension(i)) == base.len(),
{
    reveal_strlit(".tar.gz");
    reveal_strlit(".tar.bz2");
    reveal_strlit(".tar.xz");
    reveal_strlit(".tar.zst");
    let e = compound_extension(i);
    let s = base + e;
    assert forall|j: int| 0 <= j < e.len() implies spec_ascii_lower(
        #[trigger] s[s.len() - e.len() + j],
    ) == e[j] by {
        assert(s[s.len() - e.len() + j] == e[j]);
    }
    assert(ends_with_ignore_ascii_case(s, e));
    // No compound extension listed before it matches as well.
    let n = s.len();
    if i >= 1 {
        let e0 = compound_extension(0);
        assert(s[n - 2] == e[e.len() - 2]);
        assert(spec_ascii_lower(s[n - e0.len() + 5]) != e0[5]);
        assert(!ends_with_ignore_ascii_case(s, e0));
    }
    if i >= 2 {
        let e1 = compound_extension(1);
        assert(s[n - 1] == e[e.len() - 1]);
        assert(spec_ascii_lower(s[n - e1.len() + 7]) != e1[7]);
        assert(!ends_with_ignore_ascii_case(s, e1));
    }
    if i >= 3 {
        let e2 = compound_extension(2);
        assert(s[n - 1] == e[e.len() - 1]);
        assert(spec_ascii_lower(s[n - e2.len() + 6]) != e2[6]);
        assert(!ends_with_ignore_ascii_case(s, e2));
    }
}

/// A non-empty extension starts with a dot. Without a compound extension
/// and unless the name is a bare dotfile, the extension holds no other dot
/// (it begins at the last dot), and a name with no extension has no dot past
/// its first character.
pub proof fn law_extension_starts_at_a_dot(s: Seq<char>)
    ensures
        0 <= extension_start(s) <= s.len(),
        extension_start(s) < s.len() ==> s[extension_start(s)] == '.',
        !is_bare_dotfile(s) && !ends_with_ignore_ascii_case(s, compound_extension(0))
            && !ends_with_ignore_ascii_case(s, compound_extension(1))
            && !ends_with_ignore_ascii_case(s, compound_extension(2))
            && !ends_with_ignore_ascii_case(s, compound_extension(3)) ==> forall|i: int|
            extension_start(s) < i < s.len() ==> s[i] != '.',
        !is_bare_dotfile(s) && extension_start(s) == s.len() ==> forall|i: int|
            0 < i < s.len() ==> s[i] != '.',
{
    reveal_strlit(".tar.gz");
    reveal_strlit(".tar.bz2");
    reveal_strlit(".tar.xz");
    reveal_strlit(".tar.zst");
    crate::extension::lemma_extension_start_bounds(s);
    crate::extension::lemma_last_index_of_props(s, '.');
    let k = extension_start(s);
    if k < s.len() && !is_bare_dotfile(s) {
        let n = s.len();
        if ends_with_ignore_ascii_case(s, compound_extension(0)) {
            assert(spec_ascii_lower(s[n - compound_extension(0).len() + 0]) == compound_extension(0)[0]);
        } else if ends_with_ignore_ascii_case(s, compound_extension(1)) {
            assert(spec_ascii_lower(s[n - compound_extension(1).len() + 0]) == compound_extension(1)[0]);
        } else if ends_with_ignore_ascii_case(s, compound_extension(2)) {
            assert(spec_ascii_lower(s[n - compound_extension(2).len() + 0]) == compound_extension(2)[0]);
        } else if ends_with_ignore_ascii_case(s, compound_extension(3)) {
            assert(spec_ascii_lower(s[n - compound_extension(3).len() + 0]) == compound_extension(3)[0]);
        }
    }
}

} // verus!
