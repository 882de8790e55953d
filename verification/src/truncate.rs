//! Shortening a slug so that slug and extension fit in a byte budget.
use vstd::prelude::*;
use crate::text::{
    char_utf8_len, chars_of, lemma_utf8_len_concat, spec_char_utf8_len, str_byte_len, utf8_len,
};

verus! {

/// A character at which a slug may be cut without breaking a word.
pub open spec fn is_cut_separator(c: char) -> bool {
    c == '-' || c == '_'
}

/// Index of the last `-` or `_` in `s`, or `-1` when there is none.
pub open spec fn last_cut_separator(s: Seq<char>) -> int
    decreases s.len(),
{
    if s.len() == 0 {
        -1
    } else if is_cut_separator(s.last()) {
        s.len() - 1
    } else {
        last_cut_separator(s.drop_last())
    }
}

/// Number of leading characters of `s` whose UTF-8 encoding fits in
/// `budget` bytes: the longest prefix that ends on a character boundary
/// within the budget.
pub open spec fn fitting_prefix_len(s: Seq<char>, budget: int) -> nat
    decreases s.len(),
{
    if s.len() == 0 || spec_char_utf8_len(s[0]) > budget {
        0
    } else {
        1 + fitting_prefix_len(s.drop_first(), budget - spec_char_utf8_len(s[0]))
    }
}

/// Bytes left for the base once the extension is counted (never negative).
pub open spec fn base_budget(ext: Seq<char>, max_bytes: int) -> int {
    if utf8_len(ext) <= max_bytes {
        max_bytes - utf8_len(ext)
    } else {
        0
    }
}

/// `base` cut so that `base + ext` fits in `max_bytes` bytes.
///
/// A base that fits is kept. Otherwise it is cut to the longest prefix that
/// fits, and then, where that prefix holds a `-` or `_` after its first
/// character, at the last such separator.
pub open spec fn truncated_base(base: Seq<char>, ext: Seq<char>, max_bytes: int) -> Seq<char> {
    let budget = base_budget(ext, max_bytes);
    if utf8_len(base) <= budget {
        base
    } else {
        let cut = base.take(fitting_prefix_len(base, budget) as int);
        let pos = last_cut_separator(cut);
        if pos > 0 {
            cut.take(pos)
        } else {
            cut
        }
    }
}

pub proof fn lemma_last_cut_separator(s: Seq<char>)
    ensures
        -1 <= last_cut_separator(s) < s.len(),
        last_cut_separator(s) >= 0 ==> is_cut_separator(s[last_cut_separator(s)]),
        forall|k: int| last_cut_separator(s) < k < s.len() ==> !is_cut_separator(#[trigger] s[k]),
    decreases s.len(),
{
    if s.len() > 0 && !is_cut_separator(s.last()) {
        lemma_last_cut_separator(s.drop_last());
        assert forall|k: int| last_cut_separator(s) < k < s.len() implies !is_cut_separator(
            #[trigger] s[k],
        ) by {
            if k < s.len() - 1 {
                assert(s.drop_last()[k] == s[k]);
            }
        }
    }
}

proof fn lemma_last_cut_separator_unique(s: Seq<char>, p: int)
    requires
        -1 <= p < s.len(),
        p >= 0 ==> is_cut_separator(s[p]),
        forall|k: int| p < k < s.len() ==> !is_cut_separator(#[trigger] s[k]),
    ensures
        last_cut_separator(s) == p,
    decreases s.len(),
{
    if s.len() > 0 && !is_cut_separator(s.last()) {
        assert forall|k: int| p < k < s.drop_last().len() implies !is_cut_separator(
            #[trigger] s.drop_last()[k],
        ) by {
            assert(s.drop_last()[k] == s[k]);
        }
        lemma_last_cut_separator_unique(s.drop_last(), p);
    }
}

/// The fitting prefix is the longest prefix that fits in the budget: it
/// fits, and one more character would not.
pub proof fn lemma_fitting_prefix(s: Seq<char>, budget: int)
    requires
        budget >= 0,
    ensures
        fitting_prefix_len(s, budget) <= s.len(),
        utf8_len(s.take(fitting_prefix_len(s, budget) as int)) <= budget,
        fitting_prefix_len(s, budget) < s.len() ==> utf8_len(
            s.take(fitting_prefix_len(s, budget) + 1int),
        ) > budget,
    decreases s.len(),
{
    let k = fitting_prefix_len(s, budget);
    if s.len() == 0 || spec_char_utf8_len(s[0]) > budget {
        assert(s.take(0) =~= Seq::<char>::empty());
        if s.len() > 0 {
            assert(s.take(1).drop_first() =~= Seq::<char>::empty());
            assert(s.take(1)[0] == s[0]);
        }
    } else {
        let c = s[0];
        lemma_fitting_prefix(s.drop_first(), budget - spec_char_utf8_len(c));
        assert(s.take(k as int).drop_first() =~= s.drop_first().take(k - 1));
        if k < s.len() {
            assert(s.take(k + 1int).drop_first() =~= s.drop_first().take(k as int));
            assert(s.take(k + 1int)[0] == c);
        }
    }
}

/// A prefix takes no more bytes than the whole.
pub proof fn lemma_utf8_len_prefix(s: Seq<char>, k: int)
    requires
        0 <= k <= s.len(),
    ensures
        utf8_len(s.take(k)) <= utf8_len(s),
{
    lemma_utf8_len_concat(s.take(k), s.skip(k));
    assert(s.take(k) + s.skip(k) =~= s);
}

/// Truncate `base` so that `base + ext` fits within `max_bytes` bytes.
///
/// Prefers cutting at a separator boundary (dash, underscore) to avoid
/// broken words, and never cuts inside a multi-byte character. Returns the
/// base unchanged if it already fits.
pub fn truncate_base(base: &str, ext: &str, max_bytes: usize) -> (res: String)
    ensures
        res@ == truncated_base(base@, ext@, max_bytes as int),
{
    let ext_len = str_byte_len(ext);
    let budget = max_bytes.saturating_sub(ext_len);
    assert(budget == base_budget(ext@, max_bytes as int));
    if str_byte_len(base) <= budget {
        return base.to_owned();
    }
    let chars = chars_of(base);
    let ghost s = base@;

    // Floor the budget to a character boundary.
    let mut k: usize = 0;
    let mut rem: usize = budget;
    assert(s.skip(0) =~= s);
    while k < chars.len() && char_utf8_len(chars[k]) <= rem
        invariant
            chars@ == s,
            s == base@,
            k <= chars.len(),
            fitting_prefix_len(s, budget as int) == k + fitting_prefix_len(
                s.skip(k as int),
                rem as int,
            ),
        decreases chars.len() - k,
    {
        assert(s.skip(k as int).drop_first() =~= s.skip(k + 1));
        rem = rem - char_utf8_len(chars[k]);
        k += 1;
    }
    assert(fitting_prefix_len(s, budget as int) == k);
    let ghost cut = s.take(k as int);

    // Look for the last separator within the budget.
    let mut i = k;
    while i > 0
        invariant
            i <= k <= chars.len(),
            chars@ == s,
            s == base@,
            budget == base_budget(ext@, max_bytes as int),
            utf8_len(s) > budget,
            fitting_prefix_len(s, budget as int) == k,
            cut == s.take(k as int),
            forall|j: int| i <= j < k ==> !is_cut_separator(#[trigger] cut[j]),
        decreases i,
    {
        let c = chars[i - 1];
        if c == '-' || c == '_' {
            proof {
                lemma_last_cut_separator_unique(cut, i - 1);
            }
            if i - 1 > 0 {
                assert(cut.take(i - 1) =~= s.take(i - 1));
                return base.substring_char(0, i - 1).to_owned();
            }
            return base.substring_char(0, k).to_owned();
        }
        i -= 1;
    }
    proof {
        lemma_last_cut_separator_unique(cut, -1);
    }
    // No separator found: hard truncate at the budget.
    base.substring_char(0, k).to_owned()
}

/// Truncation keeps a prefix of the base; a base that fits is kept whole;
/// and when the extension itself fits, base and extension together fit in
/// the limit.
pub proof fn lemma_truncated_base_fits(base: Seq<char>, ext: Seq<char>, max_bytes: int)
    requires
        max_bytes >= 0,
    ensures
        truncated_base(base, ext, max_bytes).len() <= base.len(),
        truncated_base(base, ext, max_bytes) == base.take(
            truncated_base(base, ext, max_bytes).len() as int,
        ),
        utf8_len(truncated_base(base, ext, max_bytes)) <= base_budget(ext, max_bytes),
        utf8_len(ext) <= max_bytes ==> utf8_len(truncated_base(base, ext, max_bytes)) + utf8_len(
            ext,
        ) <= max_bytes,
        utf8_len(base) + utf8_len(ext) <= max_bytes ==> truncated_base(base, ext, max_bytes)
            == base,
{
    let budget = base_budget(ext, max_bytes);
    let r = truncated_base(base, ext, max_bytes);
    if utf8_len(base) <= budget {
        assert(base.take(base.len() as int) =~= base);
    } else {
        lemma_fitting_prefix(base, budget);
        let k = fitting_prefix_len(base, budget) as int;
        let cut = base.take(k);
        lemma_last_cut_separator(cut);
        let pos = last_cut_separator(cut);
        if pos > 0 {
            lemma_utf8_len_prefix(cut, pos);
            assert(cut.take(pos) =~= base.take(pos));
        }
        assert(r =~= base.take(r.len() as int));
    }
}

} // verus!
