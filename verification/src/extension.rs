//! Splitting a filename into its base and its extension.
use vstd::prelude::*;
use crate::text::{ascii_lower, chars_of, spec_ascii_lower};

verus! {

/// `s` ends with `suffix` when ASCII letters of `s` are compared without
/// regard to case (`suffix` is written in lowercase).
pub open spec fn ends_with_ignore_ascii_case(s: Seq<char>, suffix: Seq<char>) -> bool {
    &&& suffix.len() <= s.len()
    &&& forall|j: int|
        0 <= j < suffix.len() ==> spec_ascii_lower(#[trigger] s[s.len() - suffix.len() + j])
            == suffix[j]
}

/// Index of the last occurrence of `c` in `s`, or `-1` when there is none.
pub open spec fn last_index_of(s: Seq<char>, c: char) -> int
    decreases s.len(),
{
    if s.len() == 0 {
        -1
    } else if s.last() == c {
        s.len() - 1
    } else {
        last_index_of(s.drop_last(), c)
    }
}

/// A dotfile with no further extension (`.gitignore`, `.env`): a leading dot
/// and no other dot.
pub open spec fn is_bare_dotfile(s: Seq<char>) -> bool {
    s.len() > 0 && s[0] == '.' && !s.skip(1).contains('.')
}

/// The compound extensions, recognised in this order.
pub open spec fn compound_extension(i: int) -> Seq<char> {
    if i == 0 {
        ".tar.gz"@
    } else if i == 1 {
        ".tar.bz2"@
    } else if i == 2 {
        ".tar.xz"@
    } else {
        ".tar.zst"@
    }
}

/// Character index at which the extension of `s` begins (`s.len()` when
/// there is no extension).
///
/// A bare dotfile is all extension. Otherwise a compound extension is
/// matched at the end regardless of ASCII case; otherwise the extension
/// starts at the last dot, unless that dot is the first character.
pub open spec fn extension_start(s: Seq<char>) -> int {
    if is_bare_dotfile(s) {
        0
    } else if ends_with_ignore_ascii_case(s, compound_extension(0)) {
        s.len() - compound_extension(0).len()
    } else if ends_with_ignore_ascii_case(s, compound_extension(1)) {
        s.len() - compound_extension(1).len()
    } else if ends_with_ignore_ascii_case(s, compound_extension(2)) {
        s.len() - compound_extension(2).len()
    } else if ends_with_ignore_ascii_case(s, compound_extension(3)) {
        s.len() - compound_extension(3).len()
    } else if last_index_of(s, '.') > 0 {
        last_index_of(s, '.')
    } else {
        s.len() as int
    }
}

proof fn lemma_last_index_of(s: Seq<char>, c: char)
    ensures
        -1 <= last_index_of(s, c) < s.len(),
        last_index_of(s, c) >= 0 ==> s[last_index_of(s, c)] == c,
        forall|k: int| last_index_of(s, c) < k < s.len() ==> s[k] != c,
    decreases s.len(),
{
    if s.len() > 0 && s.last() != c {
        lemma_last_index_of(s.drop_last(), c);
        assert forall|k: int| last_index_of(s, c) < k < s.len() implies s[k] != c by {
            if k < s.len() - 1 {
                assert(s.drop_last()[k] == s[k]);
            }
        }
    }
}

proof fn lemma_last_index_of_unique(s: Seq<char>, c: char, p: int)
    requires
        -1 <= p < s.len(),
        p >= 0 ==> s[p] == c,
        forall|k: int| p < k < s.len() ==> s[k] != c,
    ensures
        last_index_of(s, c) == p,
    decreases s.len(),
{
    if s.len() > 0 && s.last() != c {
        lemma_last_index_of_unique(s.drop_last(), c, p);
    }
}

/// The last occurrence of `c` is an occurrence, and none follows it.
pub proof fn lemma_last_index_of_props(s: Seq<char>, c: char)
    ensures
        -1 <= last_index_of(s, c) < s.len(),
        last_index_of(s, c) >= 0 ==> s[last_index_of(s, c)] == c,
        forall|k: int| last_index_of(s, c) < k < s.len() ==> s[k] != c,
{
    lemma_last_index_of(s, c);
}

/// The extension starts inside the name (or at its end).
pub proof fn lemma_extension_start_bounds(s: Seq<char>)
    ensures
        0 <= extension_start(s) <= s.len(),
{
    lemma_last_index_of(s, '.');
}

/// Checks whether `chars` ends with `suffix`, ignoring ASCII case.
fn ends_with_ignoring_ascii_case(chars: &Vec<char>, suffix: &str) -> (b: bool)
    ensures
        b == ends_with_ignore_ascii_case(chars@, suffix@),
{
    let m = suffix.unicode_len();
    let n = chars.len();
    if m > n {
        return false;
    }
    let mut j: usize = 0;
    while j < m
        invariant
            m == suffix@.len(),
            n == chars@.len(),
            m <= n,
            j <= m,
            forall|t: int|
                0 <= t < j ==> spec_ascii_lower(#[trigger] chars@[n - m + t]) == suffix@[t],
        decreases m - j,
    {
        if ascii_lower(chars[n - m + j]) != suffix.get_char(j) {
            return false;
        }
        j += 1;
    }
    true
}

/// Index of the last `c` in `chars`, if any.
fn rfind_char(chars: &Vec<char>, c: char) -> (r: Option<usize>)
    ensures
        match r {
            Some(p) => p as int == last_index_of(chars@, c),
            None => last_index_of(chars@, c) == -1,
        },
{
    let mut i = chars.len();
    while i > 0
        invariant
            i <= chars@.len(),
            forall|k: int| i <= k < chars@.len() ==> chars@[k] != c,
        decreases i,
    {
        if chars[i - 1] == c {
            proof {
                lemma_last_index_of_unique(chars@, c, i - 1);
            }
            return Some(i - 1);
        }
        i -= 1;
    }
    proof {
        lemma_last_index_of_unique(chars@, c, -1);
    }
    None
}

/// Split a filename into `(base, extension)`.
///
/// Handles compound extensions (`.tar.gz`, `.tar.bz2`, `.tar.xz`,
/// `.tar.zst`), dotfiles, and files with no extension. Dotfiles like
/// `.gitignore` are treated as having no base: the entire name is the
/// "extension". Compound extensions are recognised in any letter case
/// (`Archive.TAR.GZ`), and the extension keeps its original case.
pub fn split_extension(filename: &str) -> (res: (&str, &str))
    ensures
        0 <= extension_start(filename@) <= filename@.len(),
        res.0@ == filename@.take(extension_start(filename@)),
        res.1@ == filename@.skip(extension_start(filename@)),
        res.0@ + res.1@ == filename@,
{
    let chars = chars_of(filename);
    let n = chars.len();
    let ghost s = filename@;
    proof {
        lemma_last_index_of(s, '.');
        lemma_last_index_of(s.skip(1), '.');
        assert(s.take(n as int) =~= s);
        assert(s.take(0) + s.skip(0) =~= s);
    }

    // Dotfiles with no further extension: .gitignore, .env, .bashrc
    if n > 0 && chars[0] == '.' {
        let rest = filename.substring_char(1, n);
        let rest_chars = chars_of(rest);
        let dot = rfind_char(&rest_chars, '.');
        proof {
            assert(rest@ =~= s.skip(1));
            lemma_last_index_of(rest@, '.');
        }
        if dot.is_none() {
            assert(!s.skip(1).contains('.'));
            return (filename.substring_char(0, 0), filename.substring_char(0, n));
        }
        assert(s.skip(1).contains('.'));
    }
    let k: usize;
    proof {
        reveal_strlit(".tar.gz");
        reveal_strlit(".tar.bz2");
        reveal_strlit(".tar.xz");
        reveal_strlit(".tar.zst");
    }
    // Compound extensions
    if ends_with_ignoring_ascii_case(&chars, ".tar.gz") {
        k = n - 7;
    } else if ends_with_ignoring_ascii_case(&chars, ".tar.bz2") {
        k = n - 8;
    } else if ends_with_ignoring_ascii_case(&chars, ".tar.xz") {
        k = n - 7;
    } else if ends_with_ignoring_ascii_case(&chars, ".tar.zst") {
        k = n - 8;
    } else {
        // Simple extension: split at last dot
        match rfind_char(&chars, '.') {
            Some(pos) if pos > 0 => {
                k = pos;
            },
            _ => {
                k = n;
            },
        }
    }
    assert(k == extension_start(s));
    assert(s.take(k as int) + s.skip(k as int) =~= s);
    (filename.substring_char(0, k), filename.substring_char(k, n))
}

} // verus!
