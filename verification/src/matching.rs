//! The subsequence matcher and the whitespace word splitter that the search
//! is built on, together with their mathematical definitions.

use vstd::prelude::*;

verus! {

/// The characters on which a description is split into words: the Unicode
/// White_Space set.
pub open spec fn is_whitespace(c: char) -> bool {
    ||| c == '\u{0009}'  // tab
    ||| c == '\u{000A}'  // line feed
    ||| c == '\u{000B}'  // vertical tab
    ||| c == '\u{000C}'  // form feed
    ||| c == '\u{000D}'  // carriage return
    ||| c == '\u{0020}'  // space
    ||| c == '\u{0085}'  // next line
    ||| c == '\u{00A0}'  // no-break space
    ||| c == '\u{1680}'  // ogham space mark
    ||| c == '\u{2000}'  // en quad
    ||| c == '\u{2001}'  // em quad
    ||| c == '\u{2002}'  // en space
    ||| c == '\u{2003}'  // em space
    ||| c == '\u{2004}'  // three-per-em space
    ||| c == '\u{2005}'  // four-per-em space
    ||| c == '\u{2006}'  // six-per-em space
    ||| c == '\u{2007}'  // figure space
    ||| c == '\u{2008}'  // punctuation space
    ||| c == '\u{2009}'  // thin space
    ||| c == '\u{200A}'  // hair space
    ||| c == '\u{2028}'  // line separator
    ||| c == '\u{2029}'  // paragraph separator
    ||| c == '\u{202F}'  // narrow no-break space
    ||| c == '\u{205F}'  // medium mathematical space
    ||| c == '\u{3000}'  // ideographic space
}

/// Exec mirror of [`is_whitespace`].
pub fn is_whitespace_char(c: char) -> (r: bool)
    ensures
        r == is_whitespace(c),
{
    c == '\u{0009}' || c == '\u{000A}' || c == '\u{000B}' || c == '\u{000C}' || c == '\u{000D}'
        || c == '\u{0020}' || c == '\u{0085}' || c == '\u{00A0}' || c == '\u{1680}' || c
        == '\u{2000}' || c == '\u{2001}' || c == '\u{2002}' || c == '\u{2003}' || c == '\u{2004}'
        || c == '\u{2005}' || c == '\u{2006}' || c == '\u{2007}' || c == '\u{2008}' || c
        == '\u{2009}' || c == '\u{200A}' || c == '\u{2028}' || c == '\u{2029}' || c == '\u{202F}'
        || c == '\u{205F}' || c == '\u{3000}'
}

/// `needle` appears in `haystack` in the same relative order, not necessarily
/// contiguously: the classic subsequence (not substring) relation, with exact
/// character comparison and no normalization.
pub open spec fn is_subsequence(haystack: Seq<char>, needle: Seq<char>) -> bool
    decreases haystack.len(),
{
    if needle.len() == 0 {
        true
    } else if haystack.len() == 0 {
        false
    } else if haystack[0] == needle[0] {
        is_subsequence(haystack.skip(1), needle.skip(1))
    } else {
        is_subsequence(haystack.skip(1), needle)
    }
}

/// The empty needle matches every haystack.
pub proof fn lemma_empty_needle_matches(haystack: Seq<char>)
    ensures
        is_subsequence(haystack, Seq::<char>::empty()),
{
}

/// A strictly increasing choice of positions at which `needle`'s characters
/// appear in `haystack`, one per needle character, in order.
pub open spec fn is_embedding(pos: Seq<int>, haystack: Seq<char>, needle: Seq<char>) -> bool {
    &&& pos.len() == needle.len()
    &&& (forall|k: int| 0 <= k < pos.len() ==> 0 <= #[trigger] pos[k] < haystack.len())
    &&& (forall|k: int| 0 <= k < pos.len() ==> haystack[#[trigger] pos[k]] == needle[k])
    &&& (forall|k: int| 0 <= k < pos.len() - 1 ==> #[trigger] pos[k] < pos[k + 1])
}

#[verifier::rlimit(50)]
proof fn lemma_subsequence_gives_embedding(haystack: Seq<char>, needle: Seq<char>)
    requires
        is_subsequence(haystack, needle),
    ensures
        exists|pos: Seq<int>| is_embedding(pos, haystack, needle),
    decreases haystack.len(),
{
    if needle.len() == 0 {
        let pos = Seq::<int>::empty();
        assert(is_embedding(pos, haystack, needle));
    } else if haystack[0] == needle[0] {
        lemma_subsequence_gives_embedding(haystack.skip(1), needle.skip(1));
        let rest = choose|p: Seq<int>| is_embedding(p, haystack.skip(1), needle.skip(1));
        let pos = seq![0int] + rest.map_values(|x: int| x + 1);
        assert forall|k: int| 0 <= k < pos.len() implies 0 <= #[trigger] pos[k] < haystack.len()
            && haystack[pos[k]] == needle[k] by {
            if k > 0 {
                assert(pos[k] == rest[k - 1] + 1);
                assert(haystack.skip(1)[rest[k - 1]] == needle.skip(1)[k - 1]);
            }
        }
        assert forall|k: int| 0 <= k < pos.len() - 1 implies #[trigger] pos[k] < pos[k + 1] by {
            if k > 0 {
                assert(rest[k - 1] < rest[k]);
            }
        }
        assert(is_embedding(pos, haystack, needle));
    } else {
        lemma_subsequence_gives_embedding(haystack.skip(1), needle);
        let rest = choose|p: Seq<int>| is_embedding(p, haystack.skip(1), needle);
        let pos = rest.map_values(|x: int| x + 1);
        assert forall|k: int| 0 <= k < pos.len() implies 0 <= #[trigger] pos[k] < haystack.len()
            && haystack[pos[k]] == needle[k] by {
            assert(haystack.skip(1)[rest[k]] == needle[k]);
        }
        assert forall|k: int| 0 <= k < pos.len() - 1 implies #[trigger] pos[k] < pos[k + 1] by {
            assert(rest[k] < rest[k + 1]);
        }
        assert(is_embedding(pos, haystack, needle));
    }
}

proof fn lemma_embedding_gives_subsequence(haystack: Seq<char>, needle: Seq<char>, pos: Seq<int>)
    requires
        is_embedding(pos, haystack, needle),
    ensures
        is_subsequence(haystack, needle),
    decreases haystack.len(),
{
    if needle.len() == 0 {
    } else {
        assert(0 <= pos[0] < haystack.len());
        if haystack[0] == needle[0] {
            let rest = pos.skip(1).map_values(|x: int| x - 1);
            assert forall|k: int| 0 <= k < rest.len() implies 0 <= #[trigger] rest[k]
                < haystack.skip(1).len() && haystack.skip(1)[rest[k]] == needle.skip(1)[k] by {
                assert(rest[k] == pos[k + 1] - 1);
                assert(pos[k] < pos[k + 1]);
                assert(pos[k] >= 0);
                assert(haystack[pos[k + 1]] == needle[k + 1]);
            }
            assert forall|k: int| 0 <= k < rest.len() - 1 implies #[trigger] rest[k] < rest[k
                + 1] by {
                assert(pos[k + 1] < pos[k + 2]);
            }
            assert(is_embedding(rest, haystack.skip(1), needle.skip(1)));
            lemma_embedding_gives_subsequence(haystack.skip(1), needle.skip(1), rest);
        } else {
            assert(haystack[pos[0]] == needle[0]);
            assert(pos[0] >= 1);
            let rest = pos.map_values(|x: int| x - 1);
            assert forall|k: int| 0 <= k < rest.len() implies 0 <= #[trigger] rest[k]
                < haystack.skip(1).len() && haystack.skip(1)[rest[k]] == needle[k] by {
                if k > 0 {
                    assert(pos[k - 1] < pos[k]);
                    assert(pos[k - 1] >= 0);
                }
                assert(pos[k] >= 1);
                assert(haystack[pos[k]] == needle[k]);
            }
            assert forall|k: int| 0 <= k < rest.len() - 1 implies #[trigger] rest[k] < rest[k
                + 1] by {
                assert(pos[k] < pos[k + 1]);
            }
            assert(is_embedding(rest, haystack.skip(1), needle));
            lemma_embedding_gives_subsequence(haystack.skip(1), needle, rest);
        }
    }
}

/// The scanning definition of the subsequence relation coincides with the
/// declarative one: `needle` is a subsequence of `haystack` exactly when its
/// characters occur in `haystack` in the same order, possibly with gaps.
pub proof fn lemma_subsequence_iff_embedding(haystack: Seq<char>, needle: Seq<char>)
    ensures
        is_subsequence(haystack, needle) <==> exists|pos: Seq<int>|
            is_embedding(pos, haystack, needle),
{
    if is_subsequence(haystack, needle) {
        lemma_subsequence_gives_embedding(haystack, needle);
    }
    if exists|pos: Seq<int>| is_embedding(pos, haystack, needle) {
        let pos = choose|pos: Seq<int>| is_embedding(pos, haystack, needle);
        lemma_embedding_gives_subsequence(haystack, needle, pos);
    }
}

/// The length of the leading run of non-whitespace characters.
pub open spec fn word_run(s: Seq<char>) -> int
    decreases s.len(),
{
    if s.len() == 0 || is_whitespace(s[0]) {
        0
    } else {
        1 + word_run(s.skip(1))
    }
}

pub proof fn lemma_word_run_bounds(s: Seq<char>)
    ensures
        0 <= word_run(s) <= s.len(),
    decreases s.len(),
{
    if s.len() > 0 && !is_whitespace(s[0]) {
        lemma_word_run_bounds(s.skip(1));
    }
}

/// `word_run` is pinned down by its boundary: `k` non-whitespace characters
/// followed by the end of the text or a whitespace character.
pub proof fn lemma_word_run_value(s: Seq<char>, k: int)
    requires
        0 <= k <= s.len(),
        forall|i: int| 0 <= i < k ==> !is_whitespace(s[i]),
        k == s.len() || is_whitespace(s[k]),
    ensures
        word_run(s) == k,
    decreases k,
{
    if k == 0 {
    } else {
        assert(!is_whitespace(s[0]));
        let t = s.skip(1);
        assert forall|i: int| 0 <= i < k - 1 implies !is_whitespace(t[i]) by {
            assert(t[i] == s[i + 1]);
        }
        if k - 1 < t.len() {
            assert(t[k - 1] == s[k]);
        }
        lemma_word_run_value(t, k - 1);
    }
}

/// The whitespace-delimited words of `s`, in order, each non-empty.
pub open spec fn split_ws(s: Seq<char>) -> Seq<Seq<char>>
    decreases s.len(),
    via split_ws_decreases
{
    if s.len() == 0 {
        Seq::empty()
    } else if is_whitespace(s[0]) {
        split_ws(s.skip(1))
    } else {
        seq![s.take(word_run(s))] + split_ws(s.skip(word_run(s)))
    }
}

#[via_fn]
proof fn split_ws_decreases(s: Seq<char>) {
    if s.len() > 0 && !is_whitespace(s[0]) {
        lemma_word_run_bounds(s);
        lemma_word_run_bounds(s.skip(1));
        assert(word_run(s) == 1 + word_run(s.skip(1)));
    }
}

/// The views of a sequence of owned strings, in order.
pub open spec fn string_models(ws: Seq<String>) -> Seq<Seq<char>> {
    ws.map_values(|w: String| w@)
}

/// Splits `s` into its whitespace-delimited words.
pub fn split_words(s: &str) -> (r: Vec<String>)
    ensures
        string_models(r@) == split_ws(s@),
{
    let n: usize = s.unicode_len();
    let mut words: Vec<String> = Vec::new();
    let mut i: usize = 0;
    proof {
        assert(s@.skip(0) =~= s@);
        assert(string_models(words@) + split_ws(s@) =~= split_ws(s@));
    }
    while i < n
        invariant
            i <= n,
            n == s@.len(),
            split_ws(s@) == string_models(words@) + split_ws(s@.skip(i as int)),
        decreases n - i,
    {
        let c = s.get_char(i);
        if is_whitespace_char(c) {
            proof {
                let t = s@.skip(i as int);
                assert(t[0] == s@[i as int]);
                assert(t.skip(1) =~= s@.skip(i + 1));
            }
            i = i + 1;
        } else {
            let mut j: usize = i + 1;
            while j < n && !is_whitespace_char(s.get_char(j))
                invariant
                    i < j <= n,
                    n == s@.len(),
                    forall|k: int| i <= k < j ==> !is_whitespace(s@[k]),
                decreases n - j,
            {
                j = j + 1;
            }
            let w = s.substring_char(i, j);
            let ghost prev_words = words@;
            words.push(w.to_owned());
            proof {
                let t = s@.skip(i as int);
                assert forall|k: int| 0 <= k < j - i implies !is_whitespace(t[k]) by {
                    assert(t[k] == s@[i + k]);
                }
                if j < n {
                    assert(t[j - i] == s@[j as int]);
                }
                lemma_word_run_value(t, j - i);
                assert(t[0] == s@[i as int]);
                assert(split_ws(t) == seq![t.take(j - i)] + split_ws(t.skip(j - i)));
                assert(t.take(j - i) =~= s@.subrange(i as int, j as int));
                assert(t.skip(j - i) =~= s@.skip(j as int));
                assert(string_models(words@) =~= string_models(prev_words).push(
                    s@.subrange(i as int, j as int),
                ));
                assert(string_models(prev_words) + (seq![s@.subrange(i as int, j as int)]
                    + split_ws(s@.skip(j as int))) =~= string_models(words@) + split_ws(
                    s@.skip(j as int),
                ));
            }
            i = j;
        }
    }
    proof {
        assert(s@.skip(n as int) =~= Seq::<char>::empty());
        assert(string_models(words@) =~= string_models(words@) + split_ws(
            s@.skip(n as int),
        ));
    }
    words
}

/// At least one word of `desc_words` contains `sw` as a subsequence.
pub open spec fn word_matches(desc_words: Seq<Seq<char>>, sw: Seq<char>) -> bool {
    exists|m: int| 0 <= m < desc_words.len() && is_subsequence(desc_words[m], sw)
}

/// Every search word finds some whitespace-delimited word of the description
/// that contains it as a subsequence (AND over search words, OR over the
/// description's words).
pub open spec fn desc_matches(desc: Seq<char>, search_words: Seq<Seq<char>>) -> bool {
    forall|k: int|
        0 <= k < search_words.len() ==> word_matches(split_ws(desc), search_words[k])
}

/// Every search tag finds some tag of the item that contains it as a
/// subsequence (AND over search tags, OR over the item's tags).
pub open spec fn tags_match(item_tags: Seq<Seq<char>>, search_tags: Seq<Seq<char>>) -> bool {
    forall|k: int|
        0 <= k < search_tags.len() ==> word_matches(item_tags, search_tags[k])
}

} // verus!
