//! Wildcard matching and the quote-aware character search.
use crate::text::{as_ints, str_to_chars};
use vstd::prelude::*;
use vstd::slice::slice_subrange;

verus! {

/// Where a scan stands with respect to quotes and backslashes.
pub struct QuoteState {
    /// An odd number of backslashes has been read.
    pub escaped: bool,
    /// A double quote has been opened and not closed.
    pub quoted: bool,
}

/// The state after `s` has been read. A backslash flips `escaped`, wherever it stands;
/// a double quote flips `quoted` unless `escaped` is set.
pub open spec fn quote_state(s: Seq<char>) -> QuoteState
    decreases s.len(),
{
    if s.len() == 0 {
        QuoteState { escaped: false, quoted: false }
    } else {
        let before = quote_state(s.drop_last());
        if s.last() == '\\' {
            QuoteState { escaped: !before.escaped, quoted: before.quoted }
        } else if s.last() == '"' && !before.escaped {
            QuoteState { escaped: false, quoted: !before.quoted }
        } else {
            before
        }
    }
}

/// Whether position `i` of `s` holds `needle` outside quotes: the state before it is
/// neither escaped nor quoted. A backslash or a double quote is never found.
pub open spec fn is_outside_quotes(s: Seq<char>, i: int, needle: char) -> bool {
    &&& 0 <= i < s.len()
    &&& s[i] == needle
    &&& needle != '\\'
    &&& needle != '"'
    &&& !quote_state(s.take(i)).escaped
    &&& !quote_state(s.take(i)).quoted
}

/// The positions of `s` that hold `needle` outside quotes, in ascending order.
pub open spec fn outside_quotes(s: Seq<char>, needle: char) -> Seq<int>
    decreases s.len(),
{
    if s.len() == 0 {
        Seq::empty()
    } else if is_outside_quotes(s, s.len() - 1, needle) {
        outside_quotes(s.drop_last(), needle).push(s.len() - 1)
    } else {
        outside_quotes(s.drop_last(), needle)
    }
}

/// Finds every occurrence of `needle` in `str` that stands outside double quotes.
pub fn find_all_outside_quotes(str: &str, needle: char) -> (indexes: Vec<usize>)
    ensures
        as_ints(indexes@) == outside_quotes(str@, needle),
{
    let chars = str_to_chars(str);
    let mut indexes: Vec<usize> = Vec::new();
    let mut quoted = false;
    let mut escaped = false;
    let mut i: usize = 0;
    assert(chars@.take(0) =~= Seq::empty());
    assert(as_ints(indexes@) =~= Seq::empty());
    while i < chars.len()
        invariant
            i <= chars.len(),
            chars@ == str@,
            quote_state(chars@.take(i as int)) == (QuoteState { escaped, quoted }),
            as_ints(indexes@) == outside_quotes(chars@.take(i as int), needle),
        decreases chars.len() - i,
    {
        let c = chars[i];
        let ghost before = indexes@;
        proof {
            let next = chars@.take(i as int + 1);
            assert(next.drop_last() =~= chars@.take(i as int));
            assert(next.take(i as int) =~= chars@.take(i as int));
            assert(next.last() == c);
        }
        if c == '\\' {
            escaped = !escaped;
        } else if !escaped && !quoted {
            if c == '"' {
                quoted = true;
            } else if c == needle {
                indexes.push(i);
                assert(as_ints(indexes@) =~= as_ints(before).push(i as int));
            }
        } else if !escaped && quoted && c == '"' {
            quoted = false;
        }
        i += 1;
    }
    assert(chars@.take(chars.len() as int) =~= chars@);
    indexes
}

/// Whether `haystack` is matched by the wildcard pattern `needle`: `*` stands for any
/// run of characters, the empty one included, `?` for exactly one character, and any
/// other character for itself.
pub open spec fn wildcard_matches(haystack: Seq<char>, needle: Seq<char>) -> bool
    decreases needle.len(), haystack.len(),
{
    if needle.len() == 0 {
        haystack.len() == 0
    } else if needle[0] == '*' {
        wildcard_matches(haystack, needle.drop_first()) || (haystack.len() > 0 && wildcard_matches(
            haystack.drop_first(),
            needle,
        ))
    } else {
        haystack.len() > 0 && (needle[0] == '?' || needle[0] == haystack[0]) && wildcard_matches(
            haystack.drop_first(),
            needle.drop_first(),
        )
    }
}

/// Backtracking matcher. Literal characters and `?` are consumed in a loop; only a `*`
/// recurses, so the call depth is bounded by the number of `*` in `needle`.
pub fn wildcard_match_internal(haystack: &[char], needle: &[char]) -> (r: bool)
    ensures
        r == wildcard_matches(haystack@, needle@),
    decreases needle.len(),
{
    let mut hi: usize = 0;
    let mut ni: usize = 0;
    assert(haystack@.skip(0) == haystack@);
    assert(needle@.skip(0) == needle@);
    while ni < needle.len()
        invariant
            hi <= haystack.len(),
            ni <= needle.len(),
            wildcard_matches(haystack@, needle@) == wildcard_matches(
                haystack@.skip(hi as int),
                needle@.skip(ni as int),
            ),
        decreases needle.len() - ni, haystack.len() - hi,
    {
        let c = needle[ni];
        proof {
            assert(needle@.skip(ni as int)[0] == c);
            assert(needle@.skip(ni as int).drop_first() == needle@.skip(ni as int + 1));
            if hi < haystack.len() {
                assert(haystack@.skip(hi as int)[0] == haystack@[hi as int]);
                assert(haystack@.skip(hi as int).drop_first() == haystack@.skip(hi as int + 1));
            }
        }
        if c == '*' {
            let rest_h = slice_subrange(haystack, hi, haystack.len());
            let rest_n = slice_subrange(needle, ni + 1, needle.len());
            assert(rest_h@ == haystack@.skip(hi as int));
            assert(rest_n@ == needle@.skip(ni as int + 1));
            if wildcard_match_internal(rest_h, rest_n) {
                return true;
            }
            if hi == haystack.len() {
                return false;
            }
            hi += 1;
        } else {
            if hi == haystack.len() {
                return false;
            }
            if c != '?' && c != haystack[hi] {
                return false;
            }
            hi += 1;
            ni += 1;
        }
    }
    hi == haystack.len()
}

/// Whether `haystack` is matched by the wildcard pattern `needle`.
pub fn wildcard_match(haystack: &str, needle: &str) -> (r: bool)
    ensures
        r == wildcard_matches(haystack@, needle@),
{
    let haystack_chars = str_to_chars(haystack);
    let needle_chars = str_to_chars(needle);
    wildcard_match_internal(haystack_chars.as_slice(), needle_chars.as_slice())
}

/// The pattern `*` matches every string.
pub proof fn lemma_star_matches_all(s: Seq<char>)
    ensures
        wildcard_matches(s, seq!['*']),
    decreases s.len(),
{
    let star = seq!['*'];
    if s.len() == 0 {
        assert(star.drop_first().len() == 0);
        assert(wildcard_matches(s, star.drop_first()));
    } else {
        lemma_star_matches_all(s.drop_first());
    }
}

/// Every string, read as a pattern, matches itself.
pub proof fn lemma_matches_itself(s: Seq<char>)
    ensures
        wildcard_matches(s, s),
    decreases s.len(),
{
    if s.len() > 0 {
        lemma_matches_itself(s.drop_first());
        if s[0] == '*' {
            // the star takes the first character; what is left is `s.drop_first()`
            // against `s`, where the star then takes nothing
            assert(wildcard_matches(s.drop_first(), s));
        }
    }
}

/// A run of two `*` matches exactly what a single `*` matches.
pub proof fn lemma_double_star_collapses(haystack: Seq<char>, before: Seq<char>, after: Seq<char>)
    ensures
        wildcard_matches(haystack, before + seq!['*', '*'] + after) == wildcard_matches(
            haystack,
            before + seq!['*'] + after,
        ),
    decreases before.len(), haystack.len(),
{
    let two = before + seq!['*', '*'] + after;
    let one = before + seq!['*'] + after;
    if before.len() == 0 {
        assert(two.drop_first() == one);
        assert(two[0] == '*');
        assert(one[0] == '*');
        if haystack.len() > 0 {
            lemma_double_star_collapses(haystack.drop_first(), before, after);
        }
    } else {
        assert(two[0] == before[0]);
        assert(one[0] == before[0]);
        assert(two.drop_first() == before.drop_first() + seq!['*', '*'] + after);
        assert(one.drop_first() == before.drop_first() + seq!['*'] + after);
        lemma_double_star_collapses(haystack, before.drop_first(), after);
        if haystack.len() > 0 {
            lemma_double_star_collapses(haystack.drop_first(), before.drop_first(), after);
            if before[0] == '*' {
                lemma_double_star_collapses(haystack.drop_first(), before, after);
            }
        }
    }
}

} // verus!
