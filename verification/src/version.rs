//! Protection of dots inside version numbers (`0.8.34`) while words are split.
use vstd::prelude::*;
use crate::text::{chars_of, is_digit, push_char, spec_is_digit};

verus! {

/// Placeholder that stands for a dot inside a version number while the text
/// is split into words.
pub const VERSION_DOT: char = '\x01';

/// The dot at index `i` of `s` lies between two digits, i.e. inside a
/// version-like sequence `\d+(\.\d+)+`.
pub open spec fn is_version_dot_at(s: Seq<char>, i: int) -> bool {
    &&& 0 < i
    &&& i + 1 < s.len()
    &&& s[i] == '.'
    &&& spec_is_digit(s[i - 1])
    &&& spec_is_digit(s[i + 1])
}

/// `s` with every version dot replaced by [`VERSION_DOT`].
pub open spec fn mark_version_dots(s: Seq<char>) -> Seq<char> {
    Seq::new(s.len(), |i: int| if is_version_dot_at(s, i) { VERSION_DOT } else { s[i] })
}

/// `s` with every [`VERSION_DOT`] turned back into a dot.
pub open spec fn unmark_version_dots(s: Seq<char>) -> Seq<char> {
    Seq::new(s.len(), |i: int| if s[i] == VERSION_DOT { '.' } else { s[i] })
}

/// Every character of `s[start..end]` is a digit or a version dot.
spec fn run_of_version(s: Seq<char>, start: int, end: int) -> bool {
    forall|k: int| start <= k < end ==> spec_is_digit(#[trigger] s[k]) || is_version_dot_at(s, k)
}

/// Every character of `s[start..end]` is a digit.
spec fn run_of_digits(s: Seq<char>, start: int, end: int) -> bool {
    forall|k: int| start <= k < end ==> spec_is_digit(#[trigger] s[k])
}

/// Scanning may resume at `i`: the character there neither continues a digit
/// group nor starts a version dot after one.
spec fn at_scan_point(s: Seq<char>, i: int) -> bool {
    ||| i == 0
    ||| i >= s.len()
    ||| !spec_is_digit(s[i - 1])
    ||| (!spec_is_digit(s[i]) && !is_version_dot_at(s, i))
}

/// Replace dots inside version-like sequences (e.g. "0.8.34") with
/// [`VERSION_DOT`] so that splitting into words keeps them together.
///
/// A version sequence is `\d+(\.\d+)+`: two or more digit groups separated
/// by dots. Every other character is copied unchanged.
pub fn preserve_version_dots(input: &str) -> (res: String)
    ensures
        res@ == mark_version_dots(input@),
{
    let chars = chars_of(input);
    let len = chars.len();
    let ghost s = input@;
    let ghost marked = mark_version_dots(s);
    let mut result = String::new();
    let mut i: usize = 0;

    while i < len
        invariant
            i <= len,
            len == s.len(),
            chars@ == s,
            marked == mark_version_dots(s),
            result@ == marked.take(i as int),
            at_scan_point(s, i as int),
        decreases len - i,
    {
        if is_digit(chars[i]) {
            let start = i;

            // Consume the first digit group.
            while i < len && is_digit(chars[i])
                invariant
                    start <= i <= len,
                    len == s.len(),
                    chars@ == s,
                    spec_is_digit(s[start as int]),
                    run_of_digits(s, start as int, i as int),
                decreases len - i,
            {
                i += 1;
            }

            // Consume one or more `.digits` groups.
            let mut dot_count: usize = 0;
            while i < len && chars[i] == '.'
                invariant_except_break
                    i == len || !spec_is_digit(s[i as int]),
                invariant
                    start < i <= len,
                    len == s.len(),
                    chars@ == s,
                    dot_count <= i,
                    spec_is_digit(s[i - 1]),
                    run_of_version(s, start as int, i as int),
                    dot_count == 0 ==> run_of_digits(s, start as int, i as int),
                ensures
                    start < i <= len,
                    run_of_version(s, start as int, i as int),
                    dot_count == 0 ==> run_of_digits(s, start as int, i as int),
                    i == len || (!spec_is_digit(s[i as int]) && !is_version_dot_at(s, i as int)),
                decreases len - i,
            {
                let dot_pos = i;
                i += 1;
                if i < len && is_digit(chars[i]) {
                    while i < len && is_digit(chars[i])
                        invariant
                            dot_pos < i <= len,
                            len == s.len(),
                            chars@ == s,
                            s[dot_pos as int] == '.',
                            spec_is_digit(s[dot_pos + 1]),
                            spec_is_digit(s[dot_pos - 1]),
                            dot_pos > start,
                            run_of_version(s, start as int, dot_pos as int),
                            run_of_digits(s, dot_pos + 1, i as int),
                        decreases len - i,
                    {
                        i += 1;
                    }
                    dot_count += 1;
                    assert(is_version_dot_at(s, dot_pos as int));
                    assert(run_of_version(s, start as int, i as int)) by {
                        assert forall|k: int| start <= k < i implies spec_is_digit(#[trigger] s[k])
                            || is_version_dot_at(s, k) by {
                            if k > dot_pos {
                                assert(run_of_digits(s, dot_pos + 1, i as int));
                            }
                        }
                    }
                } else {
                    i = dot_pos;
                    break;
                }
            }

            let ghost pushed_from = result@;
            let mut k = start;
            while k < i
                invariant
                    start <= k <= i <= len,
                    len == s.len(),
                    chars@ == s,
                    marked == mark_version_dots(s),
                    result@ == marked.take(k as int),
                    run_of_version(s, start as int, i as int),
                    dot_count == 0 ==> run_of_digits(s, start as int, i as int),
                decreases i - k,
            {
                let b = chars[k];
                if dot_count >= 1 && b == '.' {
                    push_char(&mut result, VERSION_DOT);
                } else {
                    push_char(&mut result, b);
                }
                assert(marked.take(k + 1) =~= marked.take(k as int).push(marked[k as int]));
                k += 1;
            }
        } else {
            // A character outside any digit group is copied as it is.
            let ch = chars[i];
            push_char(&mut result, ch);
            assert(marked.take(i + 1) =~= marked.take(i as int).push(marked[i as int]));
            i += 1;
        }
    }
    assert(marked.take(len as int) =~= marked);
    result
}

/// Restore [`VERSION_DOT`] placeholders back to dots after slugification.
pub fn restore_version_dots(input: &str) -> (res: String)
    ensures
        res@ == unmark_version_dots(input@),
{
    let chars = chars_of(input);
    let ghost target = unmark_version_dots(input@);
    let mut result = String::new();
    let mut i: usize = 0;
    while i < chars.len()
        invariant
            i <= chars.len(),
            chars@ == input@,
            target == unmark_version_dots(input@),
            result@ == target.take(i as int),
        decreases chars.len() - i,
    {
        let c = chars[i];
        if c == VERSION_DOT {
            push_char(&mut result, '.');
        } else {
            push_char(&mut result, c);
        }
        assert(target.take(i + 1) =~= target.take(i as int).push(target[i as int]));
        i += 1;
    }
    assert(target.take(chars.len() as int) =~= target);
    result
}

/// Restoring undoes preserving: for any text without the placeholder
/// character, marking version dots and then unmarking them gives the text
/// back.
pub proof fn lemma_restore_undoes_preserve(s: Seq<char>)
    requires
        !s.contains(VERSION_DOT),
    ensures
        unmark_version_dots(mark_version_dots(s)) == s,
{
    let m = mark_version_dots(s);
    assert forall|i: int| 0 <= i < s.len() implies unmark_version_dots(m)[i] == s[i] by {
        if s[i] == VERSION_DOT {
            assert(s.contains(VERSION_DOT));
        }
    }
    assert(unmark_version_dots(m) =~= s);
}

/// Preserving version dots changes nothing but dots: the text keeps its
/// length and every changed position held a `.` that became the placeholder.
pub proof fn lemma_preserve_changes_only_dots(s: Seq<char>)
    ensures
        mark_version_dots(s).len() == s.len(),
        forall|i: int|
            0 <= i < s.len() && #[trigger] mark_version_dots(s)[i] != s[i] ==> s[i] == '.'
                && mark_version_dots(s)[i] == VERSION_DOT,
{
}

} // verus!
