//! Turning text into lowercase words and joining them in a style.
use vstd::prelude::*;
use crate::options::Style;
use crate::text::{
    ascii_lower, ascii_upper, chars_of, is_ascii_alphanumeric, push_char, spec_ascii_lower,
    spec_ascii_upper, spec_is_ascii_alphanumeric,
};
use crate::unicode::{
    is_alphanumeric, push_uppercase, to_lowercase, unicode_is_alphanumeric, unicode_lowercase,
    unicode_uppercase,
};
use crate::version::{mark_version_dots, preserve_version_dots, VERSION_DOT};

verus! {

/// Bracket characters, which are blanked out while their contents are kept.
pub open spec fn is_bracket(c: char) -> bool {
    c == '(' || c == ')' || c == '[' || c == ']' || c == '{' || c == '}'
}

/// `s` with every bracket replaced by a space.
pub open spec fn strip_brackets(s: Seq<char>) -> Seq<char> {
    Seq::new(s.len(), |i: int| if is_bracket(s[i]) { ' ' } else { s[i] })
}

/// A character that belongs to a word: a letter or digit (ASCII ones only,
/// unless unicode is kept) or a protected version dot.
pub open spec fn is_word_char(c: char, keep_unicode: bool) -> bool {
    ||| c == VERSION_DOT
    ||| (keep_unicode && unicode_is_alphanumeric(c))
    ||| (!keep_unicode && spec_is_ascii_alphanumeric(c))
}

/// The words of `s`: its maximal non-empty runs of word characters, in order.
pub open spec fn words_of(s: Seq<char>, keep_unicode: bool) -> Seq<Seq<char>>
    decreases s.len(),
{
    if s.len() == 0 {
        seq![]
    } else {
        let prev = words_of(s.drop_last(), keep_unicode);
        let c = s.last();
        if !is_word_char(c, keep_unicode) {
            prev
        } else if s.len() >= 2 && is_word_char(s[s.len() - 2], keep_unicode) {
            prev.update(prev.len() - 1, prev.last().push(c))
        } else {
            prev.push(seq![c])
        }
    }
}

/// The lowercase form of a word: ASCII lowercase in ASCII mode (where words
/// are ASCII), the Unicode lowercase form otherwise.
pub open spec fn lowercase_word(w: Seq<char>, keep_unicode: bool) -> Seq<char> {
    if keep_unicode {
        unicode_lowercase(w)
    } else {
        w.map_values(|c: char| spec_ascii_lower(c))
    }
}

/// The lowercased words of a text, after brackets are blanked out and
/// version dots protected.
pub open spec fn normalized_words(text: Seq<char>, keep_unicode: bool) -> Seq<Seq<char>> {
    words_of(mark_version_dots(strip_brackets(text)), keep_unicode).map_values(
        |w: Seq<char>| lowercase_word(w, keep_unicode),
    )
}

/// `words` joined with `sep` between consecutive words.
pub open spec fn join_with(words: Seq<Seq<char>>, sep: char) -> Seq<char>
    decreases words.len(),
{
    if words.len() == 0 {
        seq![]
    } else if words.len() == 1 {
        words[0]
    } else {
        join_with(words.drop_last(), sep).push(sep) + words.last()
    }
}

/// The uppercase form of a word's first character.
pub open spec fn uppercase_first(c: char, keep_unicode: bool) -> Seq<char> {
    if keep_unicode {
        unicode_uppercase(c)
    } else {
        seq![spec_ascii_upper(c)]
    }
}

/// A word with its first character in uppercase.
pub open spec fn capitalized(w: Seq<char>, keep_unicode: bool) -> Seq<char> {
    if w.len() == 0 {
        seq![]
    } else {
        uppercase_first(w[0], keep_unicode) + w.skip(1)
    }
}

/// The words capitalized and written one after the other.
pub open spec fn concat_capitalized(words: Seq<Seq<char>>, keep_unicode: bool) -> Seq<char>
    decreases words.len(),
{
    if words.len() == 0 {
        seq![]
    } else {
        concat_capitalized(words.drop_last(), keep_unicode) + capitalized(
            words.last(),
            keep_unicode,
        )
    }
}

/// The words joined in the given style.
pub open spec fn joined(words: Seq<Seq<char>>, style: Style, keep_unicode: bool) -> Seq<char> {
    match style {
        Style::Kebab => join_with(words, '-'),
        Style::Snake => join_with(words, '_'),
        Style::Pascal => concat_capitalized(words, keep_unicode),
    }
}

/// A text whose last character is a word character has at least one word.
pub proof fn lemma_words_of_ends_in_word(s: Seq<char>, keep_unicode: bool)
    requires
        s.len() > 0,
        is_word_char(s.last(), keep_unicode),
    ensures
        words_of(s, keep_unicode).len() > 0,
    decreases s.len(),
{
    if s.len() >= 2 && is_word_char(s[s.len() - 2], keep_unicode) {
        assert(s.drop_last().last() == s[s.len() - 2]);
        lemma_words_of_ends_in_word(s.drop_last(), keep_unicode);
    }
}

/// Replace bracket characters by spaces, keeping their contents.
pub fn replace_brackets(s: &str) -> (res: String)
    ensures
        res@ == strip_brackets(s@),
{
    let chars = chars_of(s);
    let ghost target = strip_brackets(s@);
    let mut result = String::new();
    let mut i: usize = 0;
    while i < chars.len()
        invariant
            i <= chars.len(),
            chars@ == s@,
            target == strip_brackets(s@),
            result@ == target.take(i as int),
        decreases chars.len() - i,
    {
        let c = chars[i];
        if c == '(' || c == ')' || c == '[' || c == ']' || c == '{' || c == '}' {
            push_char(&mut result, ' ');
        } else {
            push_char(&mut result, c);
        }
        assert(target.take(i + 1) =~= target.take(i as int).push(target[i as int]));
        i += 1;
    }
    assert(target.take(chars.len() as int) =~= target);
    result
}

/// Executable form of [`is_word_char`].
fn word_char(c: char, keep_unicode: bool) -> (b: bool)
    ensures
        b == is_word_char(c, keep_unicode),
{
    if c == VERSION_DOT {
        true
    } else if keep_unicode {
        is_alphanumeric(c)
    } else {
        is_ascii_alphanumeric(c)
    }
}

/// Split `s` into its words (see [`words_of`]).
pub fn split_words(s: &str, keep_unicode: bool) -> (words: Vec<String>)
    ensures
        words.deep_view() == words_of(s@, keep_unicode),
{
    let chars = chars_of(s);
    let mut words: Vec<String> = Vec::new();
    let mut i: usize = 0;
    let mut prev_in_word = false;
    assert(s@.take(0) =~= Seq::<char>::empty());
    while i < chars.len()
        invariant
            i <= chars.len(),
            chars@ == s@,
            words.deep_view() == words_of(s@.take(i as int), keep_unicode),
            prev_in_word == (i > 0 && is_word_char(s@[i - 1], keep_unicode)),
        decreases chars.len() - i,
    {
        let c = chars[i];
        let ghost t = s@.take(i + 1);
        assert(t.drop_last() =~= s@.take(i as int));
        assert(t.last() == c);
        let in_word = word_char(c, keep_unicode);
        if in_word {
            let ghost before = words.deep_view();
            if prev_in_word {
                assert(t[t.len() - 2] == s@[i - 1]);
                proof {
                    lemma_words_of_ends_in_word(s@.take(i as int), keep_unicode);
                    assert(s@.take(i as int).last() == s@[i - 1]);
                }
                let mut last = words.pop().unwrap();
                push_char(&mut last, c);
                words.push(last);
                assert(words.deep_view() =~= before.update(before.len() - 1, before.last().push(c)));
            } else {
                let mut w = String::new();
                push_char(&mut w, c);
                words.push(w);
                assert(words.deep_view() =~= before.push(seq![c]));
            }
        }
        assert(words.deep_view() =~= words_of(t, keep_unicode));
        prev_in_word = in_word;
        i += 1;
    }
    assert(s@.take(chars.len() as int) =~= s@);
    words
}

/// The lowercase form of a word (see [`lowercase_word`]).
pub fn lowercase(w: &str, keep_unicode: bool) -> (res: String)
    ensures
        res@ == lowercase_word(w@, keep_unicode),
{
    if keep_unicode {
        return to_lowercase(w);
    }
    let chars = chars_of(w);
    let ghost target = lowercase_word(w@, false);
    let mut result = String::new();
    let mut i: usize = 0;
    while i < chars.len()
        invariant
            i <= chars.len(),
            chars@ == w@,
            target == lowercase_word(w@, false),
            result@ == target.take(i as int),
        decreases chars.len() - i,
    {
        let c = ascii_lower(chars[i]);
        push_char(&mut result, c);
        assert(target.take(i + 1) =~= target.take(i as int).push(target[i as int]));
        i += 1;
    }
    assert(target.take(chars.len() as int) =~= target);
    result
}

/// The lowercased words of `text` (see [`normalized_words`]).
pub fn slug_words(text: &str, keep_unicode: bool) -> (words: Vec<String>)
    ensures
        words.deep_view() == normalized_words(text@, keep_unicode),
{
    let stripped = replace_brackets(text);
    let marked = preserve_version_dots(&stripped);
    let raw = split_words(&marked, keep_unicode);
    let ghost raw_view = raw.deep_view();
    let mut words: Vec<String> = Vec::new();
    let mut i: usize = 0;
    while i < raw.len()
        invariant
            i <= raw.len(),
            raw_view == raw.deep_view(),
            words.deep_view() == raw_view.take(i as int).map_values(
                |w: Seq<char>| lowercase_word(w, keep_unicode),
            ),
        decreases raw.len() - i,
    {
        let lw = lowercase(raw[i].as_str(), keep_unicode);
        let ghost before = words.deep_view();
        let ghost lw_view = lw@;
        words.push(lw);
        assert(words.deep_view() =~= before.push(lw_view));
        assert(raw_view[i as int] == raw[i as int]@);
        assert(words.deep_view() =~= raw_view.take(i + 1).map_values(
            |w: Seq<char>| lowercase_word(w, keep_unicode),
        ));
        i += 1;
    }
    assert(raw_view.take(raw.len() as int) =~= raw_view);
    words
}

/// Join the words in the given style (see [`joined`]).
pub fn join_words(words: &Vec<String>, style: Style, keep_unicode: bool) -> (res: String)
    ensures
        res@ == joined(words.deep_view(), style, keep_unicode),
{
    let ghost ws = words.deep_view();
    let mut result = String::new();
    let mut i: usize = 0;
    match style {
        Style::Kebab | Style::Snake => {
            let sep = match style {
                Style::Kebab => '-',
                _ => '_',
            };
            assert(joined(ws, style, keep_unicode) == join_with(ws, sep));
            while i < words.len()
                invariant
                    i <= words.len(),
                    ws == words.deep_view(),
                    result@ == join_with(ws.take(i as int), sep),
                decreases words.len() - i,
            {
                assert(ws.take(i + 1).drop_last() =~= ws.take(i as int));
                if i > 0 {
                    push_char(&mut result, sep);
                } else {
                    assert(ws.take(0) =~= Seq::<Seq<char>>::empty());
                }
                result.append(words[i].as_str());
                i += 1;
            }
        },
        Style::Pascal => {
            while i < words.len()
                invariant
                    i <= words.len(),
                    ws == words.deep_view(),
                    style == Style::Pascal,
                    result@ == concat_capitalized(ws.take(i as int), keep_unicode),
                decreases words.len() - i,
            {
                assert(ws.take(i + 1).drop_last() =~= ws.take(i as int));
                let word = words[i].as_str();
                let chars = chars_of(word);
                if chars.len() > 0 {
                    let first = chars[0];
                    if keep_unicode {
                        push_uppercase(&mut result, first);
                    } else {
                        push_char(&mut result, ascii_upper(first));
                    }
                    let rest = word.substring_char(1, chars.len());
                    result.append(rest);
                }
                assert(result@ =~= concat_capitalized(ws.take(i + 1), keep_unicode));
                i += 1;
            }
        },
    }
    assert(ws.take(words.len() as int) =~= ws);
    result
}

} // verus!
