//! Speech-recognition vocabulary and corrections: text normalisation,
//! learning corrections from a user's edit of a transcript, building the
//! recogniser's prompt, and applying stored corrections.
use vstd::prelude::*;

use vstd::utf8::encode_utf8;

use crate::text::{
    ascii_lower_chars, ascii_lower_seq, char_is_alphanumeric, char_is_whitespace,
    char_to_lowercase, chars_to_string, is_alphanumeric_char, opt_str_view,
    is_whitespace_char, lowercase_chars, push_char, push_str, str_chars, str_eq, trim_chars,
    trim_spec,
};

verus! {

/// Scope used when none is given.
pub const DEFAULT_SCOPE: &'static str = "global";

/// Longest recogniser prompt, in bytes.
pub const MAX_PROMPT_CHARS: usize = 240;

/// Most vocabulary terms in a recogniser prompt.
pub const MAX_PROMPT_TERMS: usize = 24;

/// Longest learned replacement, in words.
pub const MAX_REPLACEMENT_WORDS: usize = 5;

/// Confidence of a learned correction, in percent.
pub const LEARNED_CONFIDENCE_PERCENT: u32 = 75;

/// Confidence given to a stored correction that has none, in percent.
pub const DEFAULT_CORRECTION_CONFIDENCE_PERCENT: u32 = 75;

/// An owned copy of a string slice.
pub fn owned(s: &str) -> (r: String)
    ensures
        r@ == s@,
{
    let v = str_chars(s);
    chars_to_string(v.as_slice())
}

// ---------------------------------------------------------------------------
// Normalisation
// ---------------------------------------------------------------------------

/// Whether `c` belongs to a token. Words (`words == true`) are made of
/// letters, digits and apostrophes; otherwise a token is any run of
/// non-whitespace characters.
pub open spec fn token_char(words: bool, c: char) -> bool {
    if words {
        char_is_alphanumeric(c) || c == '\''
    } else {
        !char_is_whitespace(c)
    }
}

/// The tokens completed so far in `s`, and the token still being read.
pub open spec fn split_state(s: Seq<char>, words: bool) -> (Seq<Seq<char>>, Seq<char>)
    decreases s.len(),
{
    if s.len() == 0 {
        (Seq::empty(), Seq::empty())
    } else {
        let prev = split_state(s.drop_last(), words);
        let c = s.last();
        if token_char(words, c) {
            (prev.0, prev.1.push(c))
        } else if prev.1.len() > 0 {
            (prev.0.push(prev.1), Seq::empty())
        } else {
            prev
        }
    }
}

/// The maximal runs of token characters of `s`, in order.
pub open spec fn split_tokens(s: Seq<char>, words: bool) -> Seq<Seq<char>> {
    let st = split_state(s, words);
    if st.1.len() > 0 {
        st.0.push(st.1)
    } else {
        st.0
    }
}

/// The parts joined with `sep` between consecutive parts.
pub open spec fn join_spec(parts: Seq<Seq<char>>, sep: Seq<char>) -> Seq<char>
    decreases parts.len(),
{
    if parts.len() == 0 {
        Seq::empty()
    } else if parts.len() == 1 {
        parts[0]
    } else {
        join_spec(parts.drop_last(), sep) + sep + parts.last()
    }
}

fn is_token_char(words: bool, c: char) -> (r: bool)
    ensures
        r == token_char(words, c),
{
    if words {
        is_alphanumeric_char(c) || c == '\''
    } else {
        !is_whitespace_char(c)
    }
}

/// A completed token takes at least one token character and the character
/// that ends it.
proof fn lemma_split_count(s: Seq<char>, words: bool)
    ensures
        2 * split_state(s, words).0.len() + (if split_state(s, words).1.len() > 0 {
            1int
        } else {
            0int
        }) <= s.len(),
    decreases s.len(),
{
    if s.len() > 0 {
        lemma_split_count(s.drop_last(), words);
    }
}

fn split_token_chars(text: &[char], words: bool) -> (r: Vec<String>)
    ensures
        strings_view(r@) == split_tokens(text@, words),
        2 * r@.len() <= text@.len() + 1,
{
    let mut out: Vec<String> = Vec::new();
    let mut current = String::new();
    let mut has_current = false;
    let mut i: usize = 0;
    while i < text.len()
        invariant
            i <= text.len(),
            (strings_view(out@), current@) == split_state(text@.take(i as int), words),
            has_current == (current@.len() > 0),
        decreases text.len() - i,
    {
        let c = text[i];
        assert(text@.take(i + 1).drop_last() =~= text@.take(i as int));
        assert(text@.take(i + 1).last() == c);
        if is_token_char(words, c) {
            push_char(&mut current, c);
            has_current = true;
        } else if has_current {
            let ghost before = out@;
            out.push(current.clone());
            assert(strings_view(out@) =~= strings_view(before).push(current@));
            current = String::new();
            has_current = false;
        }
        i += 1;
    }
    assert(text@.take(text.len() as int) =~= text@);
    proof {
        lemma_split_count(text@, words);
    }
    if has_current {
        let ghost before = out@;
        out.push(current);
        assert(strings_view(out@) =~= strings_view(before).push(current@));
    }
    out
}

/// Joins the parts with `sep` between consecutive parts.
pub fn join_strings(parts: &[String], sep: &str) -> (r: String)
    ensures
        r@ == join_spec(strings_view(parts@), sep@),
{
    let mut out = String::new();
    let mut i: usize = 0;
    while i < parts.len()
        invariant
            i <= parts.len(),
            out@ == join_spec(strings_view(parts@).take(i as int), sep@),
        decreases parts.len() - i,
    {
        let ghost before = strings_view(parts@).take(i as int);
        if i > 0 {
            push_str(&mut out, sep);
        }
        push_str(&mut out, parts[i].as_str());
        i += 1;
        let ghost now = strings_view(parts@).take(i as int);
        assert(now.drop_last() =~= before);
        assert(now.last() == parts@[i - 1]@);
        assert(out@ =~= join_spec(now, sep@));
    }
    assert(strings_view(parts@).take(parts.len() as int) =~= strings_view(parts@));
    out
}

/// `split_whitespace` joined with single spaces.
pub open spec fn normalize_whitespace_spec(s: Seq<char>) -> Seq<char> {
    join_spec(split_tokens(s, false), seq![' '])
}

/// Collapses every run of whitespace to one space and trims both ends.
pub fn normalize_whitespace(text: &str) -> (r: String)
    ensures
        r@ == normalize_whitespace_spec(text@),
{
    let chars = str_chars(text);
    let parts = split_token_chars(chars.as_slice(), false);
    proof {
        reveal_strlit(" ");
        assert(" "@ =~= seq![' ']);
    }
    join_strings(parts.as_slice(), " ")
}

/// The words of a transcript: maximal runs of letters, digits and
/// apostrophes.
pub fn tokenize_words(text: &str) -> (r: Vec<String>)
    ensures
        strings_view(r@) == split_tokens(text@, true),
        r@.len() < usize::MAX,
{
    let chars = str_chars(text);
    let _len = chars.len();
    split_token_chars(chars.as_slice(), true)
}

/// Lowercased alphanumerics with every other run of characters turned into
/// one space, before trimming; and whether the output ends in such a space.
pub open spec fn lookup_raw(s: Seq<char>) -> (Seq<char>, bool)
    decreases s.len(),
{
    if s.len() == 0 {
        (Seq::empty(), true)
    } else {
        let prev = lookup_raw(s.drop_last());
        let c = s.last();
        if char_is_alphanumeric(c) {
            (prev.0 + char_to_lowercase(c), false)
        } else if !prev.1 {
            (prev.0.push(' '), true)
        } else {
            prev
        }
    }
}

/// The key text is looked up by: lowercase alphanumerics separated by
/// single spaces.
pub open spec fn normalize_lookup_spec(s: Seq<char>) -> Seq<char> {
    trim_spec(lookup_raw(s).0)
}

fn normalize_lookup_chars(text: &[char]) -> (r: Vec<char>)
    ensures
        r@ == normalize_lookup_spec(text@),
{
    let mut out: Vec<char> = Vec::new();
    let mut last_was_space = true;
    let mut i: usize = 0;
    while i < text.len()
        invariant
            i <= text.len(),
            (out@, last_was_space) == lookup_raw(text@.take(i as int)),
        decreases text.len() - i,
    {
        let c = text[i];
        assert(text@.take(i + 1).drop_last() =~= text@.take(i as int));
        if is_alphanumeric_char(c) {
            let lower = lowercase_chars(c);
            let mut k: usize = 0;
            let ghost base = out@;
            while k < lower.len()
                invariant
                    k <= lower.len(),
                    out@ == base + lower@.take(k as int),
                decreases lower.len() - k,
            {
                out.push(lower[k]);
                k += 1;
                assert(lower@.take(k as int) =~= lower@.take(k - 1).push(lower@[k - 1]));
            }
            assert(lower@.take(lower.len() as int) =~= lower@);
            last_was_space = false;
        } else if !last_was_space {
            out.push(' ');
            last_was_space = true;
        }
        i += 1;
    }
    assert(text@.take(text.len() as int) =~= text@);
    trim_chars(out.as_slice())
}

pub fn normalize_lookup_text(text: &str) -> (r: String)
    ensures
        r@ == normalize_lookup_spec(text@),
{
    let chars = str_chars(text);
    let n = normalize_lookup_chars(chars.as_slice());
    chars_to_string(n.as_slice())
}


/// A scope name: trimmed and ASCII-lowercased; `global` when absent or blank.
pub open spec fn normalize_scope_spec(scope: Option<Seq<char>>) -> Seq<char> {
    let value = trim_spec(
        match scope {
            Some(s) => s,
            None => DEFAULT_SCOPE@,
        },
    );
    if value.len() == 0 {
        DEFAULT_SCOPE@
    } else {
        ascii_lower_seq(value)
    }
}

pub fn normalize_scope(scope: Option<&str>) -> (r: String)
    ensures
        r@ == normalize_scope_spec(opt_str_view(scope)),
{
    let raw = match scope {
        Some(s) => str_chars(s),
        None => str_chars(DEFAULT_SCOPE),
    };
    let value = trim_chars(raw.as_slice());
    if value.len() == 0 {
        owned(DEFAULT_SCOPE)
    } else {
        let lower = ascii_lower_chars(value.as_slice());
        chars_to_string(lower.as_slice())
    }
}

/// A language code: trimmed and ASCII-lowercased; none when absent or blank.
pub open spec fn normalize_language_spec(language: Option<Seq<char>>) -> Option<Seq<char>> {
    match language {
        Some(s) => {
            let value = trim_spec(s);
            if value.len() == 0 {
                None
            } else {
                Some(ascii_lower_seq(value))
            }
        },
        None => None,
    }
}

pub open spec fn opt_string_view(o: Option<String>) -> Option<Seq<char>> {
    match o {
        Some(s) => Some(s@),
        None => None,
    }
}

pub fn normalize_language(language: Option<&str>) -> (r: Option<String>)
    ensures
        opt_string_view(r) == normalize_language_spec(opt_str_view(language)),
{
    match language {
        Some(s) => {
            let raw = str_chars(s);
            let value = trim_chars(raw.as_slice());
            if value.len() == 0 {
                None
            } else {
                let lower = ascii_lower_chars(value.as_slice());
                Some(chars_to_string(lower.as_slice()))
            }
        },
        None => None,
    }
}

pub open spec fn strings_view(v: Seq<String>) -> Seq<Seq<char>> {
    v.map_values(|s: String| s@)
}

/// The scopes a query covers: `global` when none is given.
pub open spec fn scopes_for_query_spec(scopes: Seq<String>) -> Seq<Seq<char>> {
    if scopes.len() == 0 {
        seq![DEFAULT_SCOPE@]
    } else {
        scopes.map_values(|s: String| normalize_scope_spec(Some(s@)))
    }
}

pub fn map_scopes_for_query(scopes: &[String]) -> (r: Vec<String>)
    ensures
        strings_view(r@) == scopes_for_query_spec(scopes@),
{
    let mut out: Vec<String> = Vec::new();
    if scopes.len() == 0 {
        out.push(owned(DEFAULT_SCOPE));
        assert(strings_view(out@) =~= seq![DEFAULT_SCOPE@]);
        return out;
    }
    let mut i: usize = 0;
    while i < scopes.len()
        invariant
            i <= scopes.len(),
            out@.len() == i,
            strings_view(out@) == scopes@.take(i as int).map_values(|s: String| normalize_scope_spec(Some(s@))),
        decreases scopes.len() - i,
    {
        let s = normalize_scope(Some(scopes[i].as_str()));
        assert(s@ == normalize_scope_spec(Some(scopes@[i as int]@)));
        let ghost prev = out@;
        out.push(s);
        i += 1;
        assert forall|k: int| 0 <= k < i implies #[trigger] strings_view(out@)[k]
            == normalize_scope_spec(Some(scopes@[k]@)) by {
            if k < i - 1 {
                assert(out@[k] == prev[k]);
                assert(strings_view(prev)[k] == scopes@.take(i - 1).map_values(|s: String| normalize_scope_spec(Some(s@)))[k]);
            }
        }
        assert(strings_view(out@) =~= scopes@.take(i as int).map_values(|s: String| normalize_scope_spec(Some(s@))));
    }
    assert(scopes@.take(scopes.len() as int) =~= scopes@);
    out
}

/// `?, ?, …` with `n` placeholders.
pub open spec fn placeholders(n: int) -> Seq<char>
    decreases n,
{
    if n <= 0 {
        Seq::empty()
    } else if n == 1 {
        seq!['?']
    } else {
        placeholders(n - 1) + seq![',', ' ', '?']
    }
}

/// The SQL condition selecting rows in `n` scopes.
pub open spec fn scope_clause_spec(n: int) -> Seq<char> {
    "scope IN ("@ + placeholders(n) + ")"@
}

pub fn query_scope_clause(scopes_len: usize) -> (r: String)
    ensures
        r@ == scope_clause_spec(scopes_len as int),
{
    let mut out = owned("scope IN (");
    let ghost head = out@;
    let mut i: usize = 0;
    while i < scopes_len
        invariant
            i <= scopes_len,
            out@ == head + placeholders(i as int),
        decreases scopes_len - i,
    {
        if i > 0 {
            push_char(&mut out, ',');
            push_char(&mut out, ' ');
        }
        push_char(&mut out, '?');
        i += 1;
        assert(out@ =~= head + placeholders(i as int));
    }
    push_str(&mut out, ")");
    out
}

} // verus!
verus! {

// ---------------------------------------------------------------------------
// Common words
// ---------------------------------------------------------------------------

pub open spec fn strs_view(v: Seq<&'static str>) -> Seq<Seq<char>> {
    v.map_values(|s: &'static str| s@)
}

/// Words too common to be worth learning a correction for.
pub open spec fn stopword_list() -> Seq<Seq<char>> {
    seq![
        "a"@, "an"@, "and"@, "are"@, "be"@, "but"@, "can"@, "did"@, "do"@, "for"@, "from"@,
        "go"@, "have"@, "he"@, "her"@, "him"@, "i"@, "in"@, "is"@, "it"@, "its"@, "me"@, "my"@,
        "not"@, "of"@, "on"@, "or"@, "our"@, "she"@, "that"@, "the"@, "their"@, "them"@,
        "there"@, "they"@, "this"@, "to"@, "us"@, "was"@, "we"@, "were"@, "with"@, "you"@,
        "your"@,
    ]
}

/// The common words, in alphabetical order.
pub fn stopwords() -> (r: Vec<&'static str>)
    ensures
        strs_view(r@) == stopword_list(),
{
    let r = vec![
        "a", "an", "and", "are", "be", "but", "can", "did", "do", "for", "from", "go", "have",
        "he", "her", "him", "i", "in", "is", "it", "its", "me", "my", "not", "of", "on", "or",
        "our", "she", "that", "the", "their", "them", "there", "they", "this", "to", "us", "was",
        "we", "were", "with", "you", "your",
    ];
    assert(strs_view(r@) =~= stopword_list());
    r
}

/// Whether `word` is one of the common words.
pub fn is_stopword(word: &str) -> (r: bool)
    ensures
        r == stopword_list().contains(word@),
{
    let words = stopwords();
    let mut i: usize = 0;
    while i < words.len()
        invariant
            i <= words.len(),
            strs_view(words@) == stopword_list(),
            forall|k: int| 0 <= k < i ==> stopword_list()[k] != word@,
        decreases words.len() - i,
    {
        if str_eq(word, words[i]) {
            assert(stopword_list()[i as int] == word@);
            return true;
        }
        i += 1;
    }
    proof {
        if stopword_list().contains(word@) {
            let k = choose|k: int| 0 <= k < stopword_list().len() && stopword_list()[k] == word@;
            assert(stopword_list()[k] != word@);
        }
    }
    false
}

/// Every token of `tokens`, normalised, is a common word.
pub open spec fn all_common(tokens: Seq<Seq<char>>) -> bool {
    forall|k: int| 0 <= k < tokens.len() ==> stopword_list().contains(
        #[trigger] normalize_lookup_spec(tokens[k]),
    )
}

fn all_tokens_common(tokens: &[String]) -> (r: bool)
    ensures
        r == all_common(strings_view(tokens@)),
{
    let mut i: usize = 0;
    while i < tokens.len()
        invariant
            i <= tokens.len(),
            forall|k: int| 0 <= k < i ==> stopword_list().contains(
                #[trigger] normalize_lookup_spec(strings_view(tokens@)[k]),
            ),
        decreases tokens.len() - i,
    {
        let key = normalize_lookup_text(tokens[i].as_str());
        if !is_stopword(key.as_str()) {
            assert(strings_view(tokens@)[i as int] == tokens@[i as int]@);
            return false;
        }
        i += 1;
    }
    true
}

/// A replacement of common words by common words, which is not worth
/// learning.
pub fn is_low_value_replacement(before: &[String], after: &[String]) -> (r: bool)
    ensures
        r == (all_common(strings_view(before@)) && all_common(strings_view(after@))),
{
    let b = all_tokens_common(before);
    let a = all_tokens_common(after);
    b && a
}

} // verus!
verus! {

// ---------------------------------------------------------------------------
// Longest common subsequence of two token lists
// ---------------------------------------------------------------------------

/// Length of a longest common subsequence of `a[i..]` and `b[j..]`.
pub open spec fn lcs_len(a: Seq<Seq<char>>, b: Seq<Seq<char>>, i: int, j: int) -> nat
    decreases a.len() - i + b.len() - j,
{
    if i < 0 || j < 0 || i >= a.len() || j >= b.len() {
        0
    } else if a[i] == b[j] {
        1 + lcs_len(a, b, i + 1, j + 1)
    } else {
        let down = lcs_len(a, b, i + 1, j);
        let right = lcs_len(a, b, i, j + 1);
        if down >= right {
            down
        } else {
            right
        }
    }
}

/// The pairs of matched positions read back from the table of `lcs_len`,
/// preferring to skip a token of `a` on ties.
pub open spec fn lcs_trace(a: Seq<Seq<char>>, b: Seq<Seq<char>>, i: int, j: int) -> Seq<(int, int)>
    decreases a.len() - i + b.len() - j,
{
    if i < 0 || j < 0 || i >= a.len() || j >= b.len() {
        Seq::empty()
    } else if a[i] == b[j] {
        seq![(i, j)] + lcs_trace(a, b, i + 1, j + 1)
    } else if lcs_len(a, b, i + 1, j) >= lcs_len(a, b, i, j + 1) {
        lcs_trace(a, b, i + 1, j)
    } else {
        lcs_trace(a, b, i, j + 1)
    }
}

/// `p` pairs equal tokens of `a` and `b`, at positions from `i` and `j` on,
/// strictly increasing in both lists.
pub open spec fn common_from(
    a: Seq<Seq<char>>,
    b: Seq<Seq<char>>,
    p: Seq<(int, int)>,
    i: int,
    j: int,
) -> bool {
    &&& forall|k: int|
        0 <= k < p.len() ==> i <= (#[trigger] p[k]).0 < a.len() && j <= p[k].1 < b.len() && a[p[k].0]
            == b[p[k].1]
    &&& forall|k: int, l: int|
        0 <= k < l < p.len() ==> (#[trigger] p[k]).0 < (#[trigger] p[l]).0 && p[k].1 < p[l].1
}

pub open spec fn pairs_view(v: Seq<(usize, usize)>) -> Seq<(int, int)> {
    v.map_values(|p: (usize, usize)| (p.0 as int, p.1 as int))
}

proof fn lemma_lcs_len_bound(a: Seq<Seq<char>>, b: Seq<Seq<char>>, i: int, j: int)
    requires
        0 <= i <= a.len(),
        0 <= j <= b.len(),
    ensures
        lcs_len(a, b, i, j) <= a.len() - i,
    decreases a.len() - i + b.len() - j,
{
    if i < a.len() && j < b.len() {
        lemma_lcs_len_bound(a, b, i + 1, j + 1);
        lemma_lcs_len_bound(a, b, i + 1, j);
        lemma_lcs_len_bound(a, b, i, j + 1);
    }
}

/// The trace is a common subsequence whose length is `lcs_len`.
proof fn lemma_lcs_trace(a: Seq<Seq<char>>, b: Seq<Seq<char>>, i: int, j: int)
    requires
        0 <= i <= a.len(),
        0 <= j <= b.len(),
    ensures
        common_from(a, b, lcs_trace(a, b, i, j), i, j),
        lcs_trace(a, b, i, j).len() == lcs_len(a, b, i, j),
    decreases a.len() - i + b.len() - j,
{
    if i < a.len() && j < b.len() {
        if a[i] == b[j] {
            lemma_lcs_trace(a, b, i + 1, j + 1);
            let rest = lcs_trace(a, b, i + 1, j + 1);
            let t = seq![(i, j)] + rest;
            assert forall|k: int| 0 <= k < t.len() implies i <= (#[trigger] t[k]).0 < a.len() && j
                <= t[k].1 < b.len() && a[t[k].0] == b[t[k].1] by {
                if k > 0 {
                    assert(t[k] == rest[k - 1]);
                }
            }
            assert forall|k: int, l: int| 0 <= k < l < t.len() implies (#[trigger] t[k]).0 < (
            #[trigger] t[l]).0 && t[k].1 < t[l].1 by {
                assert(t[l] == rest[l - 1]);
                if k > 0 {
                    assert(t[k] == rest[k - 1]);
                }
            }
        } else if lcs_len(a, b, i + 1, j) >= lcs_len(a, b, i, j + 1) {
            lemma_lcs_trace(a, b, i + 1, j);
        } else {
            lemma_lcs_trace(a, b, i, j + 1);
        }
    }
}

/// No common subsequence of `a[i..]` and `b[j..]` is longer than `lcs_len`.
proof fn lemma_lcs_maximal(
    a: Seq<Seq<char>>,
    b: Seq<Seq<char>>,
    p: Seq<(int, int)>,
    i: int,
    j: int,
)
    requires
        0 <= i <= a.len(),
        0 <= j <= b.len(),
        common_from(a, b, p, i, j),
    ensures
        p.len() <= lcs_len(a, b, i, j),
    decreases a.len() - i + b.len() - j,
{
    if p.len() == 0 {
    } else if i >= a.len() || j >= b.len() {
        assert(i <= p[0].0 < a.len() && j <= p[0].1 < b.len());
    } else {
        let first = p[0];
        let rest = p.drop_first();
        if a[i] == b[j] {
            assert forall|k: int| 0 <= k < rest.len() implies i + 1 <= (#[trigger] rest[k]).0
                < a.len() && j + 1 <= rest[k].1 < b.len() && a[rest[k].0] == b[rest[k].1] by {
                assert(rest[k] == p[k + 1]);
                assert(p[0].0 < p[k + 1].0 && p[0].1 < p[k + 1].1);
            }
            assert forall|k: int, l: int| 0 <= k < l < rest.len() implies (#[trigger] rest[k]).0 < (
            #[trigger] rest[l]).0 && rest[k].1 < rest[l].1 by {
                assert(rest[k] == p[k + 1] && rest[l] == p[l + 1]);
            }
            lemma_lcs_maximal(a, b, rest, i + 1, j + 1);
        } else if first.0 > i {
            assert forall|k: int| 0 <= k < p.len() implies i + 1 <= (#[trigger] p[k]).0 < a.len()
                && j <= p[k].1 < b.len() && a[p[k].0] == b[p[k].1] by {
                if k > 0 {
                    assert(p[0].0 < p[k].0);
                }
            }
            lemma_lcs_maximal(a, b, p, i + 1, j);
        } else {
            assert(first.1 != j);
            assert forall|k: int| 0 <= k < p.len() implies i <= (#[trigger] p[k]).0 < a.len()
                && j + 1 <= p[k].1 < b.len() && a[p[k].0] == b[p[k].1] by {
                if k > 0 {
                    assert(p[0].1 < p[k].1);
                }
            }
            lemma_lcs_maximal(a, b, p, i, j + 1);
        }
    }
}

fn zeros(len: usize) -> (r: Vec<usize>)
    ensures
        r@.len() == len,
        forall|t: int| 0 <= t < len ==> r@[t] == 0,
{
    let mut r: Vec<usize> = Vec::new();
    let mut j: usize = 0;
    while j < len
        invariant
            j <= len,
            r@.len() == j,
            forall|t: int| 0 <= t < j ==> r@[t] == 0,
        decreases len - j,
    {
        r.push(0);
        j += 1;
    }
    r
}

/// The matched positions of a longest common subsequence of the two token
/// lists, read greedily from the front.
pub fn lcs_matches(before: &[String], after: &[String]) -> (r: Vec<(usize, usize)>)
    requires
        before.len() < usize::MAX,
        after.len() < usize::MAX,
    ensures
        pairs_view(r@) == lcs_trace(strings_view(before@), strings_view(after@), 0, 0),
{
    let ghost a = strings_view(before@);
    let ghost b = strings_view(after@);
    let n = before.len();
    let m = after.len();
    // rows[k][t] holds lcs_len(a, b, n - k, t) for every t in 0..=m.
    let mut rows: Vec<Vec<usize>> = Vec::new();
    rows.push(zeros(m + 1));
    while rows.len() <= n
        invariant
            n == before.len(),
            m == after.len(),
            n < usize::MAX,
            m < usize::MAX,
            a == strings_view(before@),
            b == strings_view(after@),
            1 <= rows.len() <= n + 1,
            forall|k: int| 0 <= k < rows.len() ==> (#[trigger] rows@[k]).len() == m + 1,
            forall|k: int, t: int|
                0 <= k < rows.len() && 0 <= t <= m ==> #[trigger] rows@[k]@[t] == lcs_len(
                    a,
                    b,
                    n - k,
                    t,
                ),
        decreases n + 1 - rows.len(),
    {
        let k = rows.len();
        let i = n - k;
        let mut row = zeros(m + 1);
        let mut jj: usize = m;
        assert(rows@[k - 1]@.len() == m + 1);
        while jj > 0
            invariant
                n == before.len(),
                m == after.len(),
                n < usize::MAX,
                a == strings_view(before@),
                b == strings_view(after@),
                k == rows.len(),
                1 <= k <= n,
                i == n - k,
                jj <= m,
                row@.len() == m + 1,
                rows@[k - 1]@.len() == m + 1,
                forall|t: int| 0 <= t <= m ==> (#[trigger] rows@[k - 1]@[t]) == lcs_len(a, b, i + 1, t),
                forall|t: int| jj <= t <= m ==> (#[trigger] row@[t]) == lcs_len(a, b, i as int, t),
            decreases jj,
        {
            jj -= 1;
            let v: usize = if before[i] == after[jj] {
                proof {
                    lemma_lcs_len_bound(a, b, i + 1, jj + 1);
                }
                rows[k - 1][jj + 1] + 1
            } else {
                let down = rows[k - 1][jj];
                let right = row[jj + 1];
                if down >= right {
                    down
                } else {
                    right
                }
            };
            row[jj] = v;
        }
        rows.push(row);
    }
    let mut matches: Vec<(usize, usize)> = Vec::new();
    let mut i: usize = 0;
    let mut j: usize = 0;
    while i < n && j < m
        invariant
            n == before.len(),
            m == after.len(),
            a == strings_view(before@),
            b == strings_view(after@),
            i <= n,
            j <= m,
            rows.len() == n + 1,
            forall|k: int| 0 <= k < rows.len() ==> (#[trigger] rows@[k]).len() == m + 1,
            forall|k: int, t: int|
                0 <= k < rows.len() && 0 <= t <= m ==> #[trigger] rows@[k]@[t] == lcs_len(
                    a,
                    b,
                    n - k,
                    t,
                ),
            pairs_view(matches@) + lcs_trace(a, b, i as int, j as int) == lcs_trace(a, b, 0, 0),
        decreases (n - i) + (m - j),
    {
        let ghost before_view = pairs_view(matches@);
        if before[i] == after[j] {
            matches.push((i, j));
            assert(pairs_view(matches@) =~= before_view.push((i as int, j as int)));
            assert(lcs_trace(a, b, i as int, j as int) == seq![(i as int, j as int)] + lcs_trace(
                a,
                b,
                i + 1,
                j + 1,
            ));
            assert(before_view.push((i as int, j as int)) + lcs_trace(a, b, i + 1, j + 1)
                =~= before_view + lcs_trace(a, b, i as int, j as int));
            i += 1;
            j += 1;
        } else {
            let down = rows[n - (i + 1)][j];
            let right = rows[n - i][j + 1];
            if down >= right {
                i += 1;
            } else {
                j += 1;
            }
        }
    }
    assert(pairs_view(matches@) =~= pairs_view(matches@) + lcs_trace(a, b, i as int, j as int));
    matches
}

/// The positions `lcs_matches` returns pair equal tokens of the two lists in
/// increasing order, and no such pairing is longer.
pub proof fn law_lcs_matches_are_a_longest_common_subsequence(
    before: Seq<Seq<char>>,
    after: Seq<Seq<char>>,
    other: Seq<(int, int)>,
)
    requires
        common_from(before, after, other, 0, 0),
    ensures
        common_from(before, after, lcs_trace(before, after, 0, 0), 0, 0),
        other.len() <= lcs_trace(before, after, 0, 0).len(),
{
    lemma_lcs_trace(before, after, 0, 0);
    lemma_lcs_maximal(before, after, other, 0, 0);
}

} // verus!
verus! {

// ---------------------------------------------------------------------------
// Learning corrections from an edited transcript
// ---------------------------------------------------------------------------

/// A correction learned from an edit. Its confidence is given in percent.
pub struct AsrLearnedSuggestion {
    pub wrong: String,
    pub normalized_wrong: String,
    pub correct: String,
    pub normalized_correct: String,
    pub language: Option<String>,
    pub scope: String,
    pub confidence_percent: u32,
}

/// A learned pair: the words as transcribed, their lookup key, the words as
/// corrected, and their lookup key.
pub type LearnedPair = (Seq<char>, Seq<char>, Seq<char>, Seq<char>);

pub open spec fn learned_pair(wrong: Seq<char>, correct: Seq<char>) -> LearnedPair {
    (wrong, normalize_lookup_spec(wrong), correct, normalize_lookup_spec(correct))
}

pub open spec fn suggestion_view(s: AsrLearnedSuggestion) -> LearnedPair {
    (s.wrong@, s.normalized_wrong@, s.correct@, s.normalized_correct@)
}

pub open spec fn suggestions_view(v: Seq<AsrLearnedSuggestion>) -> Seq<LearnedPair> {
    v.map_values(|s: AsrLearnedSuggestion| suggestion_view(s))
}

/// Some pair in `out` has these two lookup keys.
pub open spec fn pair_seen(out: Seq<LearnedPair>, nw: Seq<char>, nc: Seq<char>) -> bool {
    exists|k: int| 0 <= k < out.len() && (#[trigger] out[k]).1 == nw && out[k].3 == nc
}

/// What the words between two matches teach: the words of `bt[lb..m.0]`
/// replaced by those of `at[la..m.1]`, when both sides have one to
/// `MAX_REPLACEMENT_WORDS` words, not all of them common, with distinct
/// non-empty keys not learned before.
pub open spec fn learn_gap(
    bt: Seq<Seq<char>>,
    at: Seq<Seq<char>>,
    lb: int,
    la: int,
    m: (int, int),
    out: Seq<LearnedPair>,
) -> Seq<LearnedPair> {
    let bs = bt.subrange(lb, m.0);
    let cs = at.subrange(la, m.1);
    if 0 < bs.len() <= MAX_REPLACEMENT_WORDS && 0 < cs.len() <= MAX_REPLACEMENT_WORDS && !(
    all_common(bs) && all_common(cs)) {
        let p = learned_pair(join_spec(bs, seq![' ']), join_spec(cs, seq![' ']));
        if p.1.len() > 0 && p.3.len() > 0 && p.1 != p.3 && !pair_seen(out, p.1, p.3) {
            out.push(p)
        } else {
            out
        }
    } else {
        out
    }
}

/// Walks the matched positions `ms` in order: the position just after the
/// last match in each list, and the pairs learned so far.
pub open spec fn learn_state(bt: Seq<Seq<char>>, at: Seq<Seq<char>>, ms: Seq<(int, int)>) -> (
    int,
    int,
    Seq<LearnedPair>,
)
    decreases ms.len(),
{
    if ms.len() == 0 {
        (0, 0, Seq::empty())
    } else {
        let prev = learn_state(bt, at, ms.drop_last());
        let m = ms.last();
        (m.0 + 1, m.1 + 1, learn_gap(bt, at, prev.0, prev.1, m, prev.2))
    }
}

pub open spec fn lookup_keys(tokens: Seq<Seq<char>>) -> Seq<Seq<char>> {
    tokens.map_values(|t: Seq<char>| normalize_lookup_spec(t))
}

/// The matches of a longest common subsequence of the two texts' word keys,
/// followed by the ends of both texts.
pub open spec fn edit_anchors(before: Seq<char>, after: Seq<char>) -> Seq<(int, int)> {
    let bt = split_tokens(before, true);
    let at = split_tokens(after, true);
    lcs_trace(lookup_keys(bt), lookup_keys(at), 0, 0).push((bt.len() as int, at.len() as int))
}

/// The corrections learned from editing `before` into `after`.
pub open spec fn learned_from_edit(before: Seq<char>, after: Seq<char>) -> Seq<LearnedPair> {
    learn_state(split_tokens(before, true), split_tokens(after, true), edit_anchors(before, after)).2
}

fn normalize_all(tokens: &[String]) -> (r: Vec<String>)
    ensures
        strings_view(r@) == lookup_keys(strings_view(tokens@)),
{
    let mut out: Vec<String> = Vec::new();
    let mut i: usize = 0;
    while i < tokens.len()
        invariant
            i <= tokens.len(),
            out@.len() == i,
            forall|k: int| 0 <= k < i ==> (#[trigger] out@[k])@ == normalize_lookup_spec(tokens@[k]@),
        decreases tokens.len() - i,
    {
        out.push(normalize_lookup_text(tokens[i].as_str()));
        i += 1;
    }
    assert(strings_view(out@) =~= lookup_keys(strings_view(tokens@)));
    out
}

fn sub_strings(v: &[String], lo: usize, hi: usize) -> (r: Vec<String>)
    requires
        lo <= hi <= v.len(),
    ensures
        strings_view(r@) == strings_view(v@).subrange(lo as int, hi as int),
{
    let mut out: Vec<String> = Vec::new();
    let mut i: usize = lo;
    while i < hi
        invariant
            lo <= i <= hi <= v.len(),
            out@.len() == i - lo,
            forall|k: int| 0 <= k < i - lo ==> (#[trigger] out@[k])@ == v@[lo + k]@,
        decreases hi - i,
    {
        out.push(v[i].clone());
        i += 1;
    }
    assert(strings_view(out@) =~= strings_view(v@).subrange(lo as int, hi as int));
    out
}

fn seen_before(out: &[AsrLearnedSuggestion], nw: &String, nc: &String) -> (r: bool)
    ensures
        r == pair_seen(suggestions_view(out@), nw@, nc@),
{
    let ghost sv = suggestions_view(out@);
    let mut i: usize = 0;
    while i < out.len()
        invariant
            i <= out.len(),
            sv == suggestions_view(out@),
            forall|k: int| 0 <= k < i ==> !((#[trigger] sv[k]).1 == nw@ && sv[k].3 == nc@),
        decreases out.len() - i,
    {
        if out[i].normalized_wrong == *nw && out[i].normalized_correct == *nc {
            assert(sv[i as int].1 == nw@ && sv[i as int].3 == nc@);
            return true;
        }
        i += 1;
    }
    false
}

fn opt_as_str(o: &Option<String>) -> (r: Option<&str>)
    ensures
        opt_str_view(r) == opt_string_view(*o),
{
    match o {
        Some(s) => Some(s.as_str()),
        None => None,
    }
}

/// Every suggestion in `v` carries this language, scope and confidence.
pub open spec fn tagged(
    v: Seq<AsrLearnedSuggestion>,
    language: Option<String>,
    scope: Option<String>,
) -> bool {
    forall|k: int|
        0 <= k < v.len() ==> opt_string_view((#[trigger] v[k]).language) == normalize_language_spec(
            opt_string_view(language),
        ) && v[k].scope@ == normalize_scope_spec(opt_string_view(scope)) && v[k].confidence_percent
            == LEARNED_CONFIDENCE_PERCENT
}

fn learn_from_gap(
    bt: &[String],
    at: &[String],
    lb: usize,
    la: usize,
    bm: usize,
    am: usize,
    out: &mut Vec<AsrLearnedSuggestion>,
    language: &Option<String>,
    scope: &Option<String>,
)
    requires
        lb <= bm <= bt.len(),
        la <= am <= at.len(),
        tagged(old(out)@, *language, *scope),
    ensures
        suggestions_view(final(out)@) == learn_gap(
            strings_view(bt@),
            strings_view(at@),
            lb as int,
            la as int,
            (bm as int, am as int),
            suggestions_view(old(out)@),
        ),
        tagged(final(out)@, *language, *scope),
{
    let ghost bs = strings_view(bt@).subrange(lb as int, bm as int);
    let ghost cs = strings_view(at@).subrange(la as int, am as int);
    let nb = bm - lb;
    let nc = am - la;
    if nb == 0 || nc == 0 || nb > MAX_REPLACEMENT_WORDS || nc > MAX_REPLACEMENT_WORDS {
        return;
    }
    let before_slice = sub_strings(bt, lb, bm);
    let after_slice = sub_strings(at, la, am);
    if is_low_value_replacement(before_slice.as_slice(), after_slice.as_slice()) {
        return;
    }
    proof {
        reveal_strlit(" ");
        assert(" "@ =~= seq![' ']);
    }
    let wrong = join_strings(before_slice.as_slice(), " ");
    let correct = join_strings(after_slice.as_slice(), " ");
    let normalized_wrong = normalize_lookup_text(wrong.as_str());
    let normalized_correct = normalize_lookup_text(correct.as_str());
    if normalized_wrong.as_str().is_empty() || normalized_correct.as_str().is_empty() {
        return;
    }
    if normalized_wrong == normalized_correct {
        return;
    }
    if seen_before(out.as_slice(), &normalized_wrong, &normalized_correct) {
        return;
    }
    let ghost before_out = out@;
    out.push(
        AsrLearnedSuggestion {
            wrong,
            normalized_wrong,
            correct,
            normalized_correct,
            language: normalize_language(opt_as_str(language)),
            scope: normalize_scope(opt_as_str(scope)),
            confidence_percent: LEARNED_CONFIDENCE_PERCENT,
        },
    );
    assert(suggestions_view(out@) =~= suggestions_view(before_out).push(
        suggestion_view(out@.last()),
    ));
}

} // verus!
verus! {

/// Learns corrections from a user's edit of a transcript: the words that
/// changed between the stretches the two texts share, one suggestion per
/// distinct pair of lookup keys, in the order the changes occur.
pub fn asr_suggest_corrections_from_edit(
    before: String,
    after: String,
    language: Option<String>,
    scope: Option<String>,
) -> (r: Result<Vec<AsrLearnedSuggestion>, String>)
    ensures
        r is Ok,
        r matches Ok(v) ==> suggestions_view(v@) == learned_from_edit(before@, after@) && tagged(
            v@,
            language,
            scope,
        ),
{
    let before_raw = tokenize_words(before.as_str());
    let after_raw = tokenize_words(after.as_str());
    let before_keys = normalize_all(before_raw.as_slice());
    let after_keys = normalize_all(after_raw.as_slice());
    let ghost bt = strings_view(before_raw@);
    let ghost at = strings_view(after_raw@);
    let ghost bn = lookup_keys(bt);
    let ghost an = lookup_keys(at);
    let matches = lcs_matches(before_keys.as_slice(), after_keys.as_slice());
    let n = before_raw.len();
    let m = after_raw.len();
    let ghost ms = pairs_view(matches@);
    let ghost anchors = ms.push((n as int, m as int));
    proof {
        lemma_lcs_trace(bn, an, 0, 0);
        lemma_lcs_len_bound(bn, an, 0, 0);
        assert(anchors == edit_anchors(before@, after@));
    }
    let mut suggestions: Vec<AsrLearnedSuggestion> = Vec::new();
    let mut last_before: usize = 0;
    let mut last_after: usize = 0;
    let mut idx: usize = 0;
    while idx <= matches.len()
        invariant
            n == before_raw.len(),
            m == after_raw.len(),
            n < usize::MAX,
            m < usize::MAX,
            bt == strings_view(before_raw@),
            at == strings_view(after_raw@),
            ms == pairs_view(matches@),
            anchors == ms.push((n as int, m as int)),
            common_from(lookup_keys(bt), lookup_keys(at), ms, 0, 0),
            idx <= matches.len() + 1,
            matches.len() <= n,
            idx <= matches.len() ==> last_before <= anchors[idx as int].0 && last_after
                <= anchors[idx as int].1,
            forall|k: int| idx <= k < ms.len() ==> last_before <= (#[trigger] ms[k]).0 && last_after <= ms[k].1,
            (last_before as int, last_after as int, suggestions_view(suggestions@)) == learn_state(
                bt,
                at,
                anchors.take(idx as int),
            ),
            tagged(suggestions@, language, scope),
        decreases matches.len() + 1 - idx,
    {
        let (bm, am) = if idx < matches.len() {
            matches[idx]
        } else {
            (n, m)
        };
        assert(anchors[idx as int] == (bm as int, am as int));
        assert(bm <= n && am <= m);
        let ghost prev = suggestions_view(suggestions@);
        if bm > last_before || am > last_after {
            learn_from_gap(
                before_raw.as_slice(),
                after_raw.as_slice(),
                last_before,
                last_after,
                bm,
                am,
                &mut suggestions,
                &language,
                &scope,
            );
        } else {
            assert(bt.subrange(last_before as int, bm as int).len() == 0);
        }
        assert(anchors.take(idx + 1).drop_last() =~= anchors.take(idx as int));
        last_before = bm.saturating_add(1);
        last_after = am.saturating_add(1);
        idx += 1;
        assert forall|k: int| idx <= k < ms.len() implies last_before <= (#[trigger] ms[k]).0
            && last_after <= ms[k].1 by {
            assert(ms[idx - 1].0 < ms[k].0 && ms[idx - 1].1 < ms[k].1);
        }
    }
    assert(anchors.take(anchors.len() as int) =~= anchors);
    Ok(suggestions)
}

/// The first correction learned from what the recogniser heard, as edited
/// into the expected text; none when nothing is learned.
pub fn asr_voice_example_suggest_correction(
    whisper_output: String,
    expected_text: String,
    language: Option<String>,
    scope: Option<String>,
) -> (r: Result<Option<AsrLearnedSuggestion>, String>)
    ensures
        r is Ok,
        r matches Ok(o) ==> match o {
            Some(s) => learned_from_edit(whisper_output@, expected_text@).len() > 0
                && suggestion_view(s) == learned_from_edit(whisper_output@, expected_text@)[0]
                && tagged(seq![s], language, scope),
            None => learned_from_edit(whisper_output@, expected_text@).len() == 0,
        },
{
    let all = asr_suggest_corrections_from_edit(whisper_output, expected_text, language, scope);
    match all {
        Ok(mut v) => {
            if v.len() == 0 {
                Ok(None)
            } else {
                let ghost sv = suggestions_view(v@);
                let ghost first = v@[0];
                assert(sv[0] == suggestion_view(first));
                let s = v.remove(0);
                assert(tagged(seq![s], language, scope)) by {
                    assert(seq![s][0] == s);
                }
                Ok(Some(s))
            }
        },
        Err(e) => Err(e),
    }
}

} // verus!
verus! {

/// Each learned pair has distinct non-empty lookup keys computed from its
/// two sides, and each side is one to `MAX_REPLACEMENT_WORDS` words of its
/// text joined by spaces.
pub open spec fn learned_pair_ok(p: LearnedPair, bt: Seq<Seq<char>>, at: Seq<Seq<char>>) -> bool {
    &&& p.1 == normalize_lookup_spec(p.0)
    &&& p.3 == normalize_lookup_spec(p.2)
    &&& p.1.len() > 0
    &&& p.3.len() > 0
    &&& p.1 != p.3
    &&& exists|lo: int, hi: int|
        0 <= lo < hi <= bt.len() && hi - lo <= MAX_REPLACEMENT_WORDS && p.0 == join_spec(
            #[trigger] bt.subrange(lo, hi),
            seq![' '],
        )
    &&& exists|lo: int, hi: int|
        0 <= lo < hi <= at.len() && hi - lo <= MAX_REPLACEMENT_WORDS && p.2 == join_spec(
            #[trigger] at.subrange(lo, hi),
            seq![' '],
        )
}

pub open spec fn learned_ok(out: Seq<LearnedPair>, bt: Seq<Seq<char>>, at: Seq<Seq<char>>) -> bool {
    &&& forall|k: int| 0 <= k < out.len() ==> learned_pair_ok(#[trigger] out[k], bt, at)
    &&& forall|k: int, l: int|
        0 <= k < l < out.len() ==> !((#[trigger] out[k]).1 == (#[trigger] out[l]).1 && out[k].3
            == out[l].3)
}

proof fn lemma_learn_state_ok(bt: Seq<Seq<char>>, at: Seq<Seq<char>>, ms: Seq<(int, int)>)
    requires
        forall|k: int| 0 <= k < ms.len() ==> 0 <= (#[trigger] ms[k]).0 <= bt.len() && 0 <= ms[k].1 <= at.len(),
        forall|k: int| 0 < k < ms.len() ==> ms[k - 1].0 < (#[trigger] ms[k]).0 && ms[k - 1].1 < ms[k].1,
    ensures
        learned_ok(learn_state(bt, at, ms).2, bt, at),
        ms.len() > 0 ==> learn_state(bt, at, ms).0 == ms.last().0 + 1 && learn_state(bt, at, ms).1
            == ms.last().1 + 1,
    decreases ms.len(),
{
    if ms.len() > 0 {
        let init = ms.drop_last();
        lemma_learn_state_ok(bt, at, init);
        let prev = learn_state(bt, at, init);
        let m = ms.last();
        let out = prev.2;
        assert(0 <= prev.0 && 0 <= prev.1) by {
            if init.len() > 0 {
                assert(init.last() == ms[ms.len() - 2]);
            }
        }
        let bs = bt.subrange(prev.0, m.0);
        let cs = at.subrange(prev.1, m.1);
        let next = learn_gap(bt, at, prev.0, prev.1, m, out);
        if next != out {
            let p = learned_pair(join_spec(bs, seq![' ']), join_spec(cs, seq![' ']));
            assert(next == out.push(p));
            assert(learned_pair_ok(p, bt, at)) by {
                assert(0 <= prev.0 < m.0 <= bt.len());
                assert(0 <= prev.1 < m.1 <= at.len());
            }
            assert forall|k: int, l: int| 0 <= k < l < next.len() implies !((
            #[trigger] next[k]).1 == (#[trigger] next[l]).1 && next[k].3 == next[l].3) by {
                if l == next.len() - 1 {
                    assert(next[k] == out[k]);
                    if next[k].1 == next[l].1 && next[k].3 == next[l].3 {
                        assert(pair_seen(out, p.1, p.3));
                    }
                } else {
                    assert(next[k] == out[k] && next[l] == out[l]);
                }
            }
            assert forall|k: int| 0 <= k < next.len() implies learned_pair_ok(
                #[trigger] next[k],
                bt,
                at,
            ) by {
                if k < out.len() {
                    assert(next[k] == out[k]);
                }
            }
        }
    }
}

/// Every correction learned from an edit has distinct, non-empty lookup keys
/// derived from its two sides, each side is one to five consecutive words of
/// its text, and no two learned corrections share both keys.
pub proof fn law_learned_corrections_are_well_formed(before: Seq<char>, after: Seq<char>)
    ensures
        learned_ok(
            learned_from_edit(before, after),
            split_tokens(before, true),
            split_tokens(after, true),
        ),
{
    let bt = split_tokens(before, true);
    let at = split_tokens(after, true);
    let bn = lookup_keys(bt);
    let an = lookup_keys(at);
    let tr = lcs_trace(bn, an, 0, 0);
    lemma_lcs_trace(bn, an, 0, 0);
    let ms = edit_anchors(before, after);
    assert(ms == tr.push((bt.len() as int, at.len() as int)));
    assert forall|k: int| 0 <= k < ms.len() implies 0 <= (#[trigger] ms[k]).0 <= bt.len() && 0
        <= ms[k].1 <= at.len() by {
        if k < tr.len() {
            assert(ms[k] == tr[k]);
        }
    }
    assert forall|k: int| 0 < k < ms.len() implies ms[k - 1].0 < (#[trigger] ms[k]).0 && ms[k
        - 1].1 < ms[k].1 by {
        assert(ms[k - 1] == tr[k - 1]);
        if k < tr.len() {
            assert(ms[k] == tr[k]);
        }
    }
    lemma_learn_state_ok(bt, at, ms);
}

proof fn lemma_trace_diagonal(s: Seq<Seq<char>>, i: int)
    requires
        0 <= i <= s.len(),
    ensures
        lcs_trace(s, s, i, i) == Seq::new((s.len() - i) as nat, |t: int| (i + t, i + t)),
    decreases s.len() - i,
{
    if i < s.len() {
        lemma_trace_diagonal(s, i + 1);
        assert(lcs_trace(s, s, i, i) =~= Seq::new((s.len() - i) as nat, |t: int| (i + t, i + t)));
    } else {
        assert(lcs_trace(s, s, i, i) =~= Seq::new((s.len() - i) as nat, |t: int| (i + t, i + t)));
    }
}

proof fn lemma_learn_diagonal(bt: Seq<Seq<char>>, k: nat)
    requires
        k <= bt.len(),
    ensures
        learn_state(bt, bt, Seq::new(k, |t: int| (t, t))) == (k as int, k as int, Seq::<
            LearnedPair,
        >::empty()),
    decreases k,
{
    if k > 0 {
        let ms = Seq::new(k, |t: int| (t, t));
        assert(ms.drop_last() =~= Seq::new((k - 1) as nat, |t: int| (t, t)));
        lemma_learn_diagonal(bt, (k - 1) as nat);
        assert(bt.subrange(k - 1, k - 1).len() == 0);
    }
}

/// A transcript left as it was teaches no correction.
pub proof fn law_unchanged_transcript_learns_nothing(text: Seq<char>)
    ensures
        learned_from_edit(text, text).len() == 0,
{
    let bt = split_tokens(text, true);
    let keys = lookup_keys(bt);
    lemma_trace_diagonal(keys, 0);
    let diag = Seq::new(bt.len(), |t: int| (t, t));
    assert(lcs_trace(keys, keys, 0, 0) =~= diag);
    let ms = edit_anchors(text, text);
    assert(ms.drop_last() =~= diag);
    lemma_learn_diagonal(bt, bt.len());
    assert(bt.subrange(bt.len() as int, bt.len() as int).len() == 0);
}

} // verus!
verus! {

// ---------------------------------------------------------------------------
// The recogniser prompt
// ---------------------------------------------------------------------------

/// A vocabulary term the recogniser should be primed with.
pub struct AsrVocabularyTerm {
    pub id: Option<i64>,
    pub term: String,
    pub normalized_term: Option<String>,
    pub language: Option<String>,
    pub category: Option<String>,
    pub scope: Option<String>,
    pub priority: Option<i64>,
    pub use_count: Option<i64>,
    pub created_at: Option<String>,
    pub updated_at: Option<String>,
}

/// While building a prompt: the terms taken, the lookup keys seen, the
/// prompt's length in bytes so far, and whether it is full.
pub type PromptState = (Seq<Seq<char>>, Seq<Seq<char>>, int, bool);

/// Offers one more term to the prompt. Blank terms and terms whose key was
/// seen are skipped; the first term that would exceed `MAX_PROMPT_TERMS`
/// terms or `MAX_PROMPT_CHARS` bytes (counting ", " between terms) ends
/// the prompt.
pub open spec fn prompt_step(st: PromptState, term: Seq<char>) -> PromptState {
    if st.3 {
        st
    } else {
        let cand = normalize_whitespace_spec(term);
        let key = normalize_lookup_spec(cand);
        if cand.len() == 0 || key.len() == 0 || st.1.contains(key) {
            st
        } else {
            let seen = st.1.push(key);
            let sep: int = if st.0.len() == 0 {
                0
            } else {
                2
            };
            let bytes = encode_utf8(cand).len();
            if st.0.len() >= MAX_PROMPT_TERMS || st.2 + sep + bytes > MAX_PROMPT_CHARS {
                (st.0, seen, st.2, true)
            } else {
                (st.0.push(cand), seen, st.2 + sep + bytes, false)
            }
        }
    }
}

pub open spec fn prompt_state(terms: Seq<Seq<char>>) -> PromptState
    decreases terms.len(),
{
    if terms.len() == 0 {
        (Seq::empty(), Seq::empty(), 0, false)
    } else {
        prompt_step(prompt_state(terms.drop_last()), terms.last())
    }
}

/// The prompt: the terms taken, joined by ", " and ended by ".", or empty.
pub open spec fn prompt_spec(terms: Seq<Seq<char>>) -> Seq<char> {
    let taken = prompt_state(terms).0;
    if taken.len() == 0 {
        Seq::empty()
    } else {
        join_spec(taken, seq![',', ' ']) + seq!['.']
    }
}

pub open spec fn term_texts(terms: Seq<AsrVocabularyTerm>) -> Seq<Seq<char>> {
    terms.map_values(|t: AsrVocabularyTerm| t.term@)
}

proof fn lemma_prompt_stopped(terms: Seq<Seq<char>>, i: int)
    requires
        0 <= i <= terms.len(),
        prompt_state(terms.take(i)).3,
    ensures
        prompt_state(terms) == prompt_state(terms.take(i)),
    decreases terms.len(),
{
    if i < terms.len() {
        assert(terms.drop_last().take(i) =~= terms.take(i));
        lemma_prompt_stopped(terms.drop_last(), i);
    } else {
        assert(terms.take(i) =~= terms);
    }
}

proof fn lemma_encode_utf8_concat(a: Seq<char>, b: Seq<char>)
    ensures
        encode_utf8(a + b) == encode_utf8(a) + encode_utf8(b),
    decreases a.len(),
{
    if a.len() > 0 {
        lemma_encode_utf8_concat(a.drop_first(), b);
        assert((a + b).drop_first() =~= a.drop_first() + b);
        assert(encode_utf8(a + b) =~= encode_utf8(a) + encode_utf8(b));
    } else {
        assert(a + b =~= b);
        assert(encode_utf8(a) + encode_utf8(b) =~= encode_utf8(b));
    }
}

proof fn lemma_ascii_encode_len(c: char)
    requires
        (c as u32) < 128,
    ensures
        encode_utf8(seq![c]).len() == 1,
{
    assert(seq![c].drop_first() =~= Seq::<char>::empty());
    assert(encode_utf8(seq![c]) == vstd::utf8::encode_scalar(c as u32) + encode_utf8(
        Seq::<char>::empty(),
    ));
}

/// The byte count kept while building is that of the joined terms, and the
/// limits hold.
proof fn lemma_prompt_bounds(terms: Seq<Seq<char>>)
    ensures
        prompt_state(terms).0.len() <= MAX_PROMPT_TERMS,
        0 <= prompt_state(terms).2 <= MAX_PROMPT_CHARS,
        encode_utf8(join_spec(prompt_state(terms).0, seq![',', ' '])).len() == prompt_state(terms).2,
    decreases terms.len(),
{
    if terms.len() > 0 {
        lemma_prompt_bounds(terms.drop_last());
        let st = prompt_state(terms.drop_last());
        let next = prompt_state(terms);
        if next.0.len() > st.0.len() {
            let cand = normalize_whitespace_spec(terms.last());
            assert(next.0 == st.0.push(cand));
            assert(next.0.drop_last() =~= st.0);
            if st.0.len() > 0 {
                let j = join_spec(st.0, seq![',', ' ']);
                lemma_encode_utf8_concat(j + seq![',', ' '], cand);
                lemma_encode_utf8_concat(j, seq![',', ' ']);
                lemma_encode_utf8_concat(seq![','], seq![' ']);
                lemma_ascii_encode_len(',');
                lemma_ascii_encode_len(' ');
                assert(seq![','] + seq![' '] =~= seq![',', ' ']);
            }
        }
    }
}

fn contains_string(v: &[String], s: &String) -> (r: bool)
    ensures
        r == strings_view(v@).contains(s@),
{
    let mut i: usize = 0;
    while i < v.len()
        invariant
            i <= v.len(),
            forall|k: int| 0 <= k < i ==> v@[k]@ != s@,
        decreases v.len() - i,
    {
        if v[i] == *s {
            assert(strings_view(v@)[i as int] == s@);
            return true;
        }
        i += 1;
    }
    proof {
        if strings_view(v@).contains(s@) {
            let k = choose|k: int| 0 <= k < strings_view(v@).len() && strings_view(v@)[k] == s@;
            assert(v@[k]@ == s@);
        }
    }
    false
}

/// The recogniser prompt for these vocabulary terms, in the order given.
/// It holds at most `MAX_PROMPT_TERMS` terms and `MAX_PROMPT_CHARS` bytes
/// before its final full stop.
pub fn build_prompt(terms: &[AsrVocabularyTerm]) -> (r: String)
    ensures
        r@ == prompt_spec(term_texts(terms@)),
        prompt_state(term_texts(terms@)).0.len() <= MAX_PROMPT_TERMS,
        encode_utf8(r@).len() <= MAX_PROMPT_CHARS + 1,
{
    let ghost texts = term_texts(terms@);
    let mut prompt_terms: Vec<String> = Vec::new();
    let mut seen: Vec<String> = Vec::new();
    let mut current_len: usize = 0;
    let mut i: usize = 0;
    assert(texts.take(terms.len() as int) =~= texts);
    while i < terms.len()
        invariant_except_break
            (strings_view(prompt_terms@), strings_view(seen@), current_len as int, false)
                == prompt_state(texts.take(i as int)),
        invariant
            i <= terms.len(),
            texts == term_texts(terms@),
            texts.take(terms.len() as int) == texts,
            0 <= current_len <= MAX_PROMPT_CHARS,
        ensures
            prompt_state(texts).0 == strings_view(prompt_terms@),
        decreases terms.len() - i,
    {
        proof {
            lemma_prompt_bounds(texts.take(i as int));
            assert(texts.take(i + 1).drop_last() =~= texts.take(i as int));
            assert(texts.take(i + 1).last() == terms@[i as int].term@);
        }
        let candidate = normalize_whitespace(terms[i].term.as_str());
        if candidate.as_str().is_empty() {
            i += 1;
            continue;
        }
        let key = normalize_lookup_text(candidate.as_str());
        if key.as_str().is_empty() || contains_string(seen.as_slice(), &key) {
            i += 1;
            continue;
        }
        let ghost seen_before = strings_view(seen@);
        let ghost taken_before = strings_view(prompt_terms@);
        seen.push(key);
        assert(strings_view(seen@) =~= seen_before.push(key@));
        let separator: usize = if prompt_terms.len() == 0 {
            0
        } else {
            2
        };
        let cand_len = candidate.as_str().as_bytes().len();
        if prompt_terms.len() >= MAX_PROMPT_TERMS || current_len + separator > MAX_PROMPT_CHARS
            || cand_len > MAX_PROMPT_CHARS - (current_len + separator) {
            proof {
                lemma_prompt_stopped(texts, i + 1);
            }
            break;
        }
        current_len = current_len + separator + cand_len;
        prompt_terms.push(candidate);
        assert(strings_view(prompt_terms@) =~= taken_before.push(candidate@));
        i += 1;
    }
    proof {
        if i == terms.len() {
            assert(texts.take(i as int) =~= texts);
        }
        lemma_prompt_bounds(texts);
    }
    if prompt_terms.len() == 0 {
        String::new()
    } else {
        proof {
            reveal_strlit(", ");
            assert(", "@ =~= seq![',', ' ']);
        }
        let mut out = join_strings(prompt_terms.as_slice(), ", ");
        proof {
            lemma_encode_utf8_concat(out@, seq!['.']);
            lemma_ascii_encode_len('.');
            assert(out@.push('.') =~= out@ + seq!['.']);
        }
        push_char(&mut out, '.');
        out
    }
}

} // verus!
verus! {

// ---------------------------------------------------------------------------
// Validating and normalising stored entries
// ---------------------------------------------------------------------------

/// Priority of a vocabulary term that has none.
pub const DEFAULT_TERM_PRIORITY: i64 = 50;

/// Use count of a new vocabulary term.
pub const DEFAULT_TERM_USE_COUNT: i64 = 0;

/// Use count of a new correction.
pub const DEFAULT_CORRECTION_USE_COUNT: i64 = 1;

pub open spec fn opt_or<T>(o: Option<T>, d: T) -> T {
    match o {
        Some(v) => v,
        None => d,
    }
}

/// The vocabulary term as it is stored: its lookup key, language and scope
/// normalised, priority and use count defaulted, timestamps left to the
/// store. A term whose lookup key is empty is refused.
pub fn prepare_vocabulary_term(term: AsrVocabularyTerm) -> (r: Result<AsrVocabularyTerm, String>)
    ensures
        normalize_lookup_spec(term.term@).len() == 0 <==> r is Err,
        r matches Err(e) ==> e@ == "Vocabulary term cannot be empty"@,
        r matches Ok(t) ==> {
            &&& t.id == term.id
            &&& t.term@ == term.term@
            &&& opt_string_view(t.normalized_term) == Some(normalize_lookup_spec(term.term@))
            &&& opt_string_view(t.language) == normalize_language_spec(
                opt_string_view(term.language),
            )
            &&& opt_string_view(t.category) == opt_string_view(term.category)
            &&& opt_string_view(t.scope) == Some(normalize_scope_spec(opt_string_view(term.scope)))
            &&& t.priority == Some(opt_or(term.priority, DEFAULT_TERM_PRIORITY))
            &&& t.use_count == Some(opt_or(term.use_count, DEFAULT_TERM_USE_COUNT))
            &&& t.created_at.is_none()
            &&& t.updated_at.is_none()
        },
{
    let normalized_term = normalize_lookup_text(term.term.as_str());
    if normalized_term.as_str().is_empty() {
        return Err(owned("Vocabulary term cannot be empty"));
    }
    let language = normalize_language(opt_as_str(&term.language));
    let scope = normalize_scope(opt_as_str(&term.scope));
    let priority = match term.priority {
        Some(p) => p,
        None => DEFAULT_TERM_PRIORITY,
    };
    let use_count = match term.use_count {
        Some(c) => c,
        None => DEFAULT_TERM_USE_COUNT,
    };
    Ok(
        AsrVocabularyTerm {
            id: term.id,
            term: term.term,
            normalized_term: Some(normalized_term),
            language,
            category: term.category,
            scope: Some(scope),
            priority: Some(priority),
            use_count: Some(use_count),
            created_at: None,
            updated_at: None,
        },
    )
}

/// A correction as it is stored, apart from its confidence.
pub struct PreparedCorrection {
    pub wrong: String,
    pub normalized_wrong: String,
    pub correct: String,
    pub normalized_correct: String,
    pub language: Option<String>,
    pub scope: String,
    pub use_count: i64,
    pub user_approved: bool,
}

/// Validates and normalises a correction: both sides must have a non-empty
/// lookup key; language and scope are normalised, the use count defaults to
/// one and approval to false.
pub fn prepare_correction(
    wrong: String,
    correct: String,
    language: Option<String>,
    scope: Option<String>,
    use_count: Option<i64>,
    user_approved: Option<bool>,
) -> (r: Result<PreparedCorrection, String>)
    ensures
        (normalize_lookup_spec(wrong@).len() == 0 || normalize_lookup_spec(correct@).len() == 0)
            <==> r is Err,
        r matches Err(e) ==> e@ == "Correction wrong/correct values cannot be empty"@,
        r matches Ok(c) ==> {
            &&& c.wrong@ == wrong@
            &&& c.normalized_wrong@ == normalize_lookup_spec(wrong@)
            &&& c.correct@ == correct@
            &&& c.normalized_correct@ == normalize_lookup_spec(correct@)
            &&& opt_string_view(c.language) == normalize_language_spec(opt_string_view(language))
            &&& c.scope@ == normalize_scope_spec(opt_string_view(scope))
            &&& c.use_count == opt_or(use_count, DEFAULT_CORRECTION_USE_COUNT)
            &&& c.user_approved == opt_or(user_approved, false)
        },
{
    let normalized_wrong = normalize_lookup_text(wrong.as_str());
    let normalized_correct = normalize_lookup_text(correct.as_str());
    if normalized_wrong.as_str().is_empty() || normalized_correct.as_str().is_empty() {
        return Err(owned("Correction wrong/correct values cannot be empty"));
    }
    let language = normalize_language(opt_as_str(&language));
    let scope = normalize_scope(opt_as_str(&scope));
    let use_count = match use_count {
        Some(c) => c,
        None => DEFAULT_CORRECTION_USE_COUNT,
    };
    let user_approved = match user_approved {
        Some(a) => a,
        None => false,
    };
    Ok(
        PreparedCorrection {
            wrong,
            normalized_wrong,
            correct,
            normalized_correct,
            language,
            scope,
            use_count,
            user_approved,
        },
    )
}

/// A recorded voice example: what was said, and what the recogniser heard.
pub struct AsrVoiceExample {
    pub id: Option<i64>,
    pub audio_path: String,
    pub expected_text: String,
    pub normalized_expected_text: Option<String>,
    pub whisper_output: Option<String>,
    pub normalized_whisper_output: Option<String>,
    pub language: Option<String>,
    pub scope: Option<String>,
    pub term_id: Option<i64>,
    pub correction_id: Option<i64>,
    pub created_at: Option<String>,
}

/// The lookup key of the recogniser's output, when there is one and it is
/// not empty.
pub open spec fn whisper_key(o: Option<Seq<char>>) -> Option<Seq<char>> {
    match o {
        Some(w) => if normalize_lookup_spec(w).len() > 0 {
            Some(normalize_lookup_spec(w))
        } else {
            None
        },
        None => None,
    }
}

/// The voice example as it is stored: lookup keys of both texts, language
/// and scope normalised. An example whose expected text has an empty
/// lookup key is refused.
pub fn prepare_voice_example(example: AsrVoiceExample) -> (r: Result<AsrVoiceExample, String>)
    ensures
        normalize_lookup_spec(example.expected_text@).len() == 0 <==> r is Err,
        r matches Err(e) ==> e@ == "Voice example expected text cannot be empty"@,
        r matches Ok(x) ==> {
            &&& x.id == example.id
            &&& x.audio_path@ == example.audio_path@
            &&& x.expected_text@ == example.expected_text@
            &&& opt_string_view(x.normalized_expected_text) == Some(
                normalize_lookup_spec(example.expected_text@),
            )
            &&& opt_string_view(x.whisper_output) == opt_string_view(example.whisper_output)
            &&& opt_string_view(x.normalized_whisper_output) == whisper_key(
                opt_string_view(example.whisper_output),
            )
            &&& opt_string_view(x.language) == normalize_language_spec(
                opt_string_view(example.language),
            )
            &&& opt_string_view(x.scope) == Some(
                normalize_scope_spec(opt_string_view(example.scope)),
            )
            &&& x.term_id == example.term_id
            &&& x.correction_id == example.correction_id
            &&& x.created_at.is_none()
        },
{
    let normalized_expected_text = normalize_lookup_text(example.expected_text.as_str());
    if normalized_expected_text.as_str().is_empty() {
        return Err(owned("Voice example expected text cannot be empty"));
    }
    let normalized_whisper_output = match &example.whisper_output {
        Some(w) => {
            let key = normalize_lookup_text(w.as_str());
            if key.as_str().is_empty() {
                None
            } else {
                Some(key)
            }
        },
        None => None,
    };
    let language = normalize_language(opt_as_str(&example.language));
    let scope = normalize_scope(opt_as_str(&example.scope));
    Ok(
        AsrVoiceExample {
            id: example.id,
            audio_path: example.audio_path,
            expected_text: example.expected_text,
            normalized_expected_text: Some(normalized_expected_text),
            whisper_output: example.whisper_output,
            normalized_whisper_output,
            language,
            scope: Some(scope),
            term_id: example.term_id,
            correction_id: example.correction_id,
            created_at: None,
        },
    )
}

} // verus!
verus! {

// ---------------------------------------------------------------------------
// Applying stored corrections (matching is done by the `regex` crate)
// ---------------------------------------------------------------------------

/// The characters `regex::escape` puts a backslash before.
pub open spec fn regex_meta_char(c: char) -> bool {
    c == '\\' || c == '.' || c == '+' || c == '*' || c == '?' || c == '(' || c == ')' || c == '|'
        || c == '[' || c == ']' || c == '{' || c == '}' || c == '^' || c == '$' || c == '#' || c
        == '&' || c == '-' || c == '~'
}

/// `text` with a backslash before every meta character, so that it matches
/// literally.
pub open spec fn regex_escape(text: Seq<char>) -> Seq<char>
    decreases text.len(),
{
    if text.len() == 0 {
        Seq::empty()
    } else {
        regex_escape(text.drop_last()) + if regex_meta_char(text.last()) {
            seq!['\\', text.last()]
        } else {
            seq![text.last()]
        }
    }
}

/// The texts of the successive non-overlapping matches that
/// `regex::Regex::find_iter` yields for `pattern`, compiled, in `haystack`.
pub uninterp spec fn regex_find_all(pattern: Seq<char>, haystack: Seq<char>) -> Seq<Seq<char>>;

/// What `regex::Regex::replace_all` returns for `pattern`, compiled, on
/// `haystack` with the replacement string `replacement` (in which `$` names
/// a capture group).
pub uninterp spec fn regex_replace_all(
    pattern: Seq<char>,
    haystack: Seq<char>,
    replacement: Seq<char>,
) -> Seq<char>;

/// Calls `regex::escape`, which puts a backslash before each meta character
/// and copies every other character.
#[verifier::external_body]
fn escape_literal(text: &str) -> (r: String)
    ensures
        r@ == regex_escape(text@),
{
    regex::escape(text)
}

/// Compiles `pattern` with `regex::Regex::new` and collects the texts of
/// the matches `find_iter` yields in `haystack`. Compiling can fail, also on
/// the size limit, which depends on the machine: then the error's message
/// comes back, and nothing is stated of when that happens or of its text.
#[verifier::external_body]
fn regex_find_matches(pattern: &str, haystack: &str) -> (r: Result<Vec<String>, String>)
    ensures
        r matches Ok(v) ==> strings_view(v@) == regex_find_all(pattern@, haystack@),
{
    match regex::Regex::new(pattern) {
        Ok(re) => Ok(re.find_iter(haystack).map(|m| m.as_str().to_string()).collect()),
        Err(e) => Err(e.to_string()),
    }
}

/// Compiles `pattern` with `regex::Regex::new` and calls `replace_all` on
/// `haystack` with the replacement string. When compiling fails the error's
/// message comes back, and nothing is stated of when that happens or of its
/// text.
#[verifier::external_body]
fn regex_replace_matches(pattern: &str, haystack: &str, replacement: &str) -> (r: Result<
    String,
    String,
>)
    ensures
        r matches Ok(t) ==> t@ == regex_replace_all(pattern@, haystack@, replacement@),
{
    match regex::Regex::new(pattern) {
        Ok(re) => Ok(re.replace_all(haystack, replacement).to_string()),
        Err(e) => Err(e.to_string()),
    }
}

pub open spec fn escaped_words(words: Seq<Seq<char>>) -> Seq<Seq<char>> {
    words.map_values(|w: Seq<char>| regex_escape(w))
}

/// The expression that finds a phrase: its words, escaped, separated by any
/// whitespace, between word boundaries, ignoring case.
pub open spec fn phrase_pattern(phrase: Seq<char>) -> Seq<char> {
    seq!['(', '?', 'i', ')', '\\', 'b'] + join_spec(
        escaped_words(split_tokens(phrase, false)),
        seq!['\\', 's', '+'],
    ) + seq!['\\', 'b']
}

/// The expression that finds `phrase` in a transcript.
pub fn correction_pattern_for_phrase(phrase: &str) -> (r: String)
    ensures
        r@ == phrase_pattern(phrase@),
{
    let chars = str_chars(phrase);
    let words = split_token_chars(chars.as_slice(), false);
    let mut escaped: Vec<String> = Vec::new();
    let mut i: usize = 0;
    while i < words.len()
        invariant
            i <= words.len(),
            escaped@.len() == i,
            forall|k: int| 0 <= k < i ==> (#[trigger] escaped@[k])@ == regex_escape(words@[k]@),
        decreases words.len() - i,
    {
        escaped.push(escape_literal(words[i].as_str()));
        i += 1;
    }
    assert(strings_view(escaped@) =~= escaped_words(split_tokens(phrase@, false)));
    proof {
        reveal_strlit("(?i)\\b");
        reveal_strlit("\\s+");
        reveal_strlit("\\b");
        assert("(?i)\\b"@ =~= seq!['(', '?', 'i', ')', '\\', 'b']);
        assert("\\s+"@ =~= seq!['\\', 's', '+']);
        assert("\\b"@ =~= seq!['\\', 'b']);
    }
    let mut pattern = owned("(?i)\\b");
    let body = join_strings(escaped.as_slice(), "\\s+");
    push_str(&mut pattern, body.as_str());
    push_str(&mut pattern, "\\b");
    pattern
}

/// A stored correction, as the corrections are applied.
pub struct StoredCorrection {
    pub id: i64,
    pub wrong: String,
    pub correct: String,
}

/// One replacement made in a transcript.
pub struct AsrCorrectionApplication {
    pub correction_id: i64,
    pub wrong: String,
    pub correct: String,
    pub match_text: String,
}

/// A transcript before and after the corrections, and what was replaced.
pub struct AsrCorrectionResult {
    pub raw_text: String,
    pub corrected_text: String,
    pub applied: Vec<AsrCorrectionApplication>,
}

/// A replacement: the correction's id, wrong and correct texts, and the text
/// that matched.
pub type ApplicationView = (i64, Seq<char>, Seq<char>, Seq<char>);

pub open spec fn application_view(a: AsrCorrectionApplication) -> ApplicationView {
    (a.correction_id, a.wrong@, a.correct@, a.match_text@)
}

pub open spec fn applications_view(v: Seq<AsrCorrectionApplication>) -> Seq<ApplicationView> {
    v.map_values(|a: AsrCorrectionApplication| application_view(a))
}

pub open spec fn correction_view(c: StoredCorrection) -> (i64, Seq<char>, Seq<char>) {
    (c.id, c.wrong@, c.correct@)
}

/// Applies one correction to the text so far: every match of its phrase is
/// replaced and recorded.
pub open spec fn apply_step(
    st: (Seq<char>, Seq<ApplicationView>),
    c: (i64, Seq<char>, Seq<char>),
) -> (Seq<char>, Seq<ApplicationView>) {
    let p = phrase_pattern(c.1);
    let found = regex_find_all(p, st.0);
    if found.len() == 0 {
        st
    } else {
        (regex_replace_all(p, st.0, c.2), st.1 + found.map_values(|m: Seq<char>| (c.0, c.1, c.2, m)))
    }
}

pub open spec fn apply_state(raw: Seq<char>, cs: Seq<(i64, Seq<char>, Seq<char>)>) -> (
    Seq<char>,
    Seq<ApplicationView>,
)
    decreases cs.len(),
{
    if cs.len() == 0 {
        (raw, Seq::empty())
    } else {
        apply_step(apply_state(raw, cs.drop_last()), cs.last())
    }
}

pub open spec fn corrections_view(cs: Seq<StoredCorrection>) -> Seq<(i64, Seq<char>, Seq<char>)> {
    cs.map_values(|c: StoredCorrection| correction_view(c))
}

pub open spec fn found_applications(c: (i64, Seq<char>, Seq<char>), found: Seq<Seq<char>>) -> Seq<
    ApplicationView,
> {
    found.map_values(|m: Seq<char>| (c.0, c.1, c.2, m))
}

/// One correction applied to the text so far, given the texts matching its
/// phrase found there and the text with them replaced: nothing changes when
/// nothing was found; otherwise the replaced text is taken and every match
/// is recorded, in order.
pub fn record_matches(
    text: String,
    applied: Vec<AsrCorrectionApplication>,
    c: &StoredCorrection,
    found: Vec<String>,
    replaced: String,
) -> (r: (String, Vec<AsrCorrectionApplication>))
    ensures
        found@.len() == 0 ==> r.0@ == text@ && applications_view(r.1@) == applications_view(
            applied@,
        ),
        found@.len() > 0 ==> r.0@ == replaced@ && applications_view(r.1@) == applications_view(
            applied@,
        ) + found_applications(correction_view(*c), strings_view(found@)),
{
    if found.len() == 0 {
        return (text, applied);
    }
    let mut applied = applied;
    let ghost applied_before = applications_view(applied@);
    let mut k: usize = 0;
    while k < found.len()
        invariant
            k <= found.len(),
            applications_view(applied@) == applied_before + found_applications(
                correction_view(*c),
                strings_view(found@).take(k as int),
            ),
        decreases found.len() - k,
    {
        let ghost prev = applications_view(applied@);
        applied.push(
            AsrCorrectionApplication {
                correction_id: c.id,
                wrong: c.wrong.clone(),
                correct: c.correct.clone(),
                match_text: found[k].clone(),
            },
        );
        assert(applications_view(applied@) =~= prev.push(
            (c.id, c.wrong@, c.correct@, found@[k as int]@),
        ));
        k += 1;
        assert(strings_view(found@).take(k as int) =~= strings_view(found@).take(k - 1).push(
            found@[k - 1]@,
        ));
        assert(applications_view(applied@) =~= applied_before + found_applications(
            correction_view(*c),
            strings_view(found@).take(k as int),
        ));
    }
    assert(strings_view(found@).take(found.len() as int) =~= strings_view(found@));
    (replaced, applied)
}

/// Applies the corrections in order to a transcript. With no corrections it
/// returns the transcript unchanged. Otherwise it fails, with the message of
/// `regex`, when the expression of a correction does not compile, which
/// depends on the machine's limits as well as on the expression.
pub fn apply_corrections(raw_text: String, corrections: &[StoredCorrection]) -> (r: Result<
    AsrCorrectionResult,
    String,
>)
    ensures
        corrections@.len() == 0 ==> (r matches Ok(res) && res.raw_text@ == raw_text@
            && res.corrected_text@ == raw_text@ && res.applied@.len() == 0),
        r is Err ==> corrections@.len() > 0,
        r matches Ok(res) ==> {
            &&& res.raw_text@ == raw_text@
            &&& (res.corrected_text@, applications_view(res.applied@)) == apply_state(
                raw_text@,
                corrections_view(corrections@),
            )
        },
{
    let ghost cs = corrections_view(corrections@);
    let mut corrected = raw_text.clone();
    let mut applied: Vec<AsrCorrectionApplication> = Vec::new();
    let mut i: usize = 0;
    while i < corrections.len()
        invariant
            i <= corrections.len(),
            cs == corrections_view(corrections@),
            apply_state(raw_text@, cs.take(i as int)) == (corrected@, applications_view(applied@)),
        decreases corrections.len() - i,
    {
        proof {
            assert(cs.take(i + 1).drop_last() =~= cs.take(i as int));
            assert(cs.take(i + 1).last() == correction_view(corrections@[i as int]));
        }
        let c = &corrections[i];
        let pattern = correction_pattern_for_phrase(c.wrong.as_str());
        let found = match regex_find_matches(pattern.as_str(), corrected.as_str()) {
            Ok(v) => v,
            Err(e) => {
                return Err(e);
            },
        };
        if found.len() == 0 {
            i += 1;
            continue;
        }
        let replaced = match regex_replace_matches(
            pattern.as_str(),
            corrected.as_str(),
            c.correct.as_str(),
        ) {
            Ok(t) => t,
            Err(e) => {
                return Err(e);
            },
        };
        let (next_text, next_applied) = record_matches(corrected, applied, c, found, replaced);
        corrected = next_text;
        applied = next_applied;
        i += 1;
    }
    assert(cs.take(corrections.len() as int) =~= cs);
    assert(applications_view(applied@).len() == applied@.len());
    Ok(AsrCorrectionResult { raw_text, corrected_text: corrected, applied })
}

} // verus!
verus! {

/// A gap between two matches is learned when each side has one to
/// `MAX_REPLACEMENT_WORDS` words, some word on either side is not a common
/// word, and the two lookup keys are non-empty, differ and are new; the
/// learned pair is the words on each side joined by single spaces.
/// In particular a misheard common word whose correction is not common is
/// learned.
pub proof fn law_gap_with_an_uncommon_word_is_learned(
    bt: Seq<Seq<char>>,
    at: Seq<Seq<char>>,
    lb: int,
    la: int,
    m: (int, int),
    out: Seq<LearnedPair>,
    k: int,
    on_corrected_side: bool,
)
    requires
        0 <= lb < m.0 <= bt.len(),
        0 <= la < m.1 <= at.len(),
        m.0 - lb <= MAX_REPLACEMENT_WORDS,
        m.1 - la <= MAX_REPLACEMENT_WORDS,
        on_corrected_side ==> la <= k < m.1 && !stopword_list().contains(
            normalize_lookup_spec(at[k]),
        ),
        !on_corrected_side ==> lb <= k < m.0 && !stopword_list().contains(
            normalize_lookup_spec(bt[k]),
        ),
        ({
            let wrong = join_spec(bt.subrange(lb, m.0), seq![' ']);
            let correct = join_spec(at.subrange(la, m.1), seq![' ']);
            &&& normalize_lookup_spec(wrong).len() > 0
            &&& normalize_lookup_spec(correct).len() > 0
            &&& normalize_lookup_spec(wrong) != normalize_lookup_spec(correct)
            &&& forall|j: int|
                0 <= j < out.len() ==> !((#[trigger] out[j]).1 == normalize_lookup_spec(wrong)
                    && out[j].3 == normalize_lookup_spec(correct))
        }),
    ensures
        ({
            let wrong = join_spec(bt.subrange(lb, m.0), seq![' ']);
            let correct = join_spec(at.subrange(la, m.1), seq![' ']);
            learn_gap(bt, at, lb, la, m, out) == out.push(
                (wrong, normalize_lookup_spec(wrong), correct, normalize_lookup_spec(correct)),
            )
        }),
{
    let bs = bt.subrange(lb, m.0);
    let cs = at.subrange(la, m.1);
    if on_corrected_side {
        assert(cs[k - la] == at[k]);
        assert(!all_common(cs));
    } else {
        assert(bs[k - lb] == bt[k]);
        assert(!all_common(bs));
    }
}

} // verus!
