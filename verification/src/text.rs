//! Character-level building blocks shared by the text-processing modules:
//! conversion between strings and character vectors, ASCII case folding,
//! Unicode-aware trimming, and the few `char` classifications of std that
//! the library relies on.
use vstd::prelude::*;

verus! {

// ---------------------------------------------------------------------------
// Names for the results of std's Unicode classifications.
// ---------------------------------------------------------------------------

/// Whether std's `char::is_whitespace` holds of `c` (the Unicode White_Space
/// property).
pub uninterp spec fn char_is_whitespace(c: char) -> bool;

/// Whether std's `char::is_alphanumeric` holds of `c` (Unicode alphabetic or
/// numeric).
pub uninterp spec fn char_is_alphanumeric(c: char) -> bool;

/// The characters that std's `char::to_lowercase` yields for `c`.
pub uninterp spec fn char_to_lowercase(c: char) -> Seq<char>;

/// Calls std's `char::is_whitespace`; the result is the named property of `c`.
#[verifier::external_body]
pub fn is_whitespace_char(c: char) -> (r: bool)
    ensures
        r == char_is_whitespace(c),
{
    c.is_whitespace()
}

/// Calls std's `char::is_alphanumeric`; the result is the named property of `c`.
#[verifier::external_body]
pub fn is_alphanumeric_char(c: char) -> (r: bool)
    ensures
        r == char_is_alphanumeric(c),
{
    c.is_alphanumeric()
}

/// Calls std's `char::to_lowercase` and collects the characters it yields.
#[verifier::external_body]
pub fn lowercase_chars(c: char) -> (r: Vec<char>)
    ensures
        r@ == char_to_lowercase(c),
{
    c.to_lowercase().collect()
}

/// Calls std's `String::push`, which appends one character.
#[verifier::external_body]
pub fn push_char(s: &mut String, c: char)
    ensures
        final(s)@ == old(s)@.push(c),
{
    s.push(c);
}

/// The characters of an optional string slice.
pub open spec fn opt_str_view<'a>(o: Option<&'a str>) -> Option<Seq<char>> {
    match o {
        Some(s) => Some(s@),
        None => None,
    }
}

// ---------------------------------------------------------------------------
// ASCII case folding
// ---------------------------------------------------------------------------

/// `char::to_ascii_lowercase`: `A`..=`Z` map to `a`..=`z`, all else is kept.
pub open spec fn ascii_lower(c: char) -> char {
    if 'A' <= c && c <= 'Z' {
        ((c as u32) + 32) as char
    } else {
        c
    }
}

/// `str::to_ascii_lowercase`, character by character.
pub open spec fn ascii_lower_seq(s: Seq<char>) -> Seq<char> {
    s.map_values(|c: char| ascii_lower(c))
}

pub fn char_ascii_lower(c: char) -> (r: char)
    ensures
        r == ascii_lower(c),
{
    if 'A' <= c && c <= 'Z' {
        let v: u32 = c as u32;
        ((v + 32) as u8) as char
    } else {
        c
    }
}

/// Whether two characters are equal ignoring ASCII case.
pub open spec fn eq_ignore_ascii_case_seq(a: Seq<char>, b: Seq<char>) -> bool {
    ascii_lower_seq(a) == ascii_lower_seq(b)
}

/// `str::eq_ignore_ascii_case`.
pub fn eq_ignore_ascii_case(a: &str, b: &str) -> (r: bool)
    ensures
        r == eq_ignore_ascii_case_seq(a@, b@),
{
    let av = str_chars(a);
    let bv = str_chars(b);
    let al = ascii_lower_chars(av.as_slice());
    let bl = ascii_lower_chars(bv.as_slice());
    chars_eq(al.as_slice(), bl.as_slice())
}

pub fn ascii_lower_chars(s: &[char]) -> (r: Vec<char>)
    ensures
        r@ == ascii_lower_seq(s@),
{
    let mut out: Vec<char> = Vec::new();
    let mut i: usize = 0;
    while i < s.len()
        invariant
            i <= s.len(),
            out@ == ascii_lower_seq(s@.take(i as int)),
        decreases s.len() - i,
    {
        let c = char_ascii_lower(s[i]);
        out.push(c);
        i += 1;
        assert(ascii_lower_seq(s@.take(i as int)) =~= ascii_lower_seq(s@.take(i - 1)).push(
            ascii_lower(s@[i - 1]),
        ));
    }
    assert(s@.take(s.len() as int) =~= s@);
    out
}

// ---------------------------------------------------------------------------
// Conversions
// ---------------------------------------------------------------------------

pub fn str_chars(s: &str) -> (r: Vec<char>)
    ensures
        r@ == s@,
{
    broadcast use vstd::string::group_string_axioms;

    let mut out: Vec<char> = Vec::new();
    for c in it: s.chars()
        invariant
            out@ == it.seq().take(it.index() as int),
            it.seq() == s@,
    {
        out.push(c);
    }
    out
}

pub fn chars_to_string(v: &[char]) -> (r: String)
    ensures
        r@ == v@,
{
    let mut s = String::new();
    let mut i: usize = 0;
    while i < v.len()
        invariant
            i <= v.len(),
            s@ == v@.take(i as int),
        decreases v.len() - i,
    {
        push_char(&mut s, v[i]);
        i += 1;
        assert(v@.take(i as int) =~= v@.take(i - 1).push(v@[i - 1]));
    }
    assert(v@.take(v.len() as int) =~= v@);
    s
}

/// Appends the characters of `v` to `s`.
pub fn push_chars(s: &mut String, v: &[char])
    ensures
        final(s)@ == old(s)@ + v@,
{
    let mut i: usize = 0;
    while i < v.len()
        invariant
            i <= v.len(),
            s@ == old(s)@ + v@.take(i as int),
        decreases v.len() - i,
    {
        push_char(s, v[i]);
        i += 1;
        assert(v@.take(i as int) =~= v@.take(i - 1).push(v@[i - 1]));
    }
    assert(v@.take(v.len() as int) =~= v@);
}

/// Appends the characters of `t` to `s`.
pub fn push_str(s: &mut String, t: &str)
    ensures
        final(s)@ == old(s)@ + t@,
{
    let v = str_chars(t);
    push_chars(s, v.as_slice());
}

pub fn chars_eq(a: &[char], b: &[char]) -> (r: bool)
    ensures
        r == (a@ == b@),
{
    if a.len() != b.len() {
        return false;
    }
    let mut i: usize = 0;
    while i < a.len()
        invariant
            a.len() == b.len(),
            i <= a.len(),
            forall|k: int| 0 <= k < i ==> a@[k] == b@[k],
        decreases a.len() - i,
    {
        if a[i] != b[i] {
            return false;
        }
        i += 1;
    }
    assert(a@ =~= b@);
    true
}

/// Whether the characters of `a` spell exactly the string `b`.
pub fn chars_eq_str(a: &[char], b: &str) -> (r: bool)
    ensures
        r == (a@ == b@),
{
    let bv = str_chars(b);
    chars_eq(a, bv.as_slice())
}

pub fn str_eq(a: &str, b: &str) -> (r: bool)
    ensures
        r == (a@ == b@),
{
    let av = str_chars(a);
    chars_eq_str(av.as_slice(), b)
}

// ---------------------------------------------------------------------------
// Trimming (`str::trim`: leading and trailing Unicode whitespace removed)
// ---------------------------------------------------------------------------

pub open spec fn trim_start_spec(s: Seq<char>) -> Seq<char>
    decreases s.len(),
{
    if s.len() > 0 && char_is_whitespace(s[0]) {
        trim_start_spec(s.drop_first())
    } else {
        s
    }
}

pub open spec fn trim_end_spec(s: Seq<char>) -> Seq<char>
    decreases s.len(),
{
    if s.len() > 0 && char_is_whitespace(s.last()) {
        trim_end_spec(s.drop_last())
    } else {
        s
    }
}

pub open spec fn trim_spec(s: Seq<char>) -> Seq<char> {
    trim_end_spec(trim_start_spec(s))
}

proof fn lemma_trim_start_skip(s: Seq<char>, a: int)
    requires
        0 <= a <= s.len(),
        forall|k: int| 0 <= k < a ==> char_is_whitespace(#[trigger] s[k]),
        a == s.len() || !char_is_whitespace(s[a]),
    ensures
        trim_start_spec(s) == s.skip(a),
    decreases a,
{
    if a == 0 {
        assert(s.skip(0) =~= s);
    } else {
        assert(char_is_whitespace(s[0]));
        let t = s.drop_first();
        assert forall|k: int| 0 <= k < a - 1 implies char_is_whitespace(#[trigger] t[k]) by {
            assert(t[k] == s[k + 1]);
        }
        if a - 1 < t.len() {
            assert(t[a - 1] == s[a]);
        }
        lemma_trim_start_skip(t, a - 1);
        assert(t.skip(a - 1) =~= s.skip(a));
    }
}

proof fn lemma_trim_end_take(s: Seq<char>, b: int)
    requires
        0 <= b <= s.len(),
        forall|k: int| b <= k < s.len() ==> char_is_whitespace(#[trigger] s[k]),
        b == 0 || !char_is_whitespace(s[b - 1]),
    ensures
        trim_end_spec(s) == s.take(b),
    decreases s.len() - b,
{
    if b == s.len() {
        assert(s.take(b) =~= s);
        if s.len() > 0 {
            assert(s.last() == s[b - 1]);
        }
    } else {
        assert(char_is_whitespace(s[s.len() - 1]));
        let t = s.drop_last();
        assert forall|k: int| b <= k < t.len() implies char_is_whitespace(#[trigger] t[k]) by {
            assert(t[k] == s[k]);
        }
        if b > 0 {
            assert(t[b - 1] == s[b - 1]);
        }
        lemma_trim_end_take(t, b);
        assert(t.take(b) =~= s.take(b));
    }
}

proof fn lemma_trim_start_idempotent(s: Seq<char>)
    ensures
        trim_start_spec(trim_start_spec(s)) == trim_start_spec(s),
        trim_start_spec(s).len() > 0 ==> !char_is_whitespace(trim_start_spec(s)[0]),
    decreases s.len(),
{
    if s.len() > 0 && char_is_whitespace(s[0]) {
        lemma_trim_start_idempotent(s.drop_first());
    }
}

proof fn lemma_trim_end_keeps_start(s: Seq<char>)
    requires
        s.len() > 0 ==> !char_is_whitespace(s[0]),
    ensures
        trim_end_spec(s).len() > 0 ==> !char_is_whitespace(trim_end_spec(s)[0]),
        trim_end_spec(s).len() > 0 ==> !char_is_whitespace(trim_end_spec(s).last()),
        trim_end_spec(trim_end_spec(s)) == trim_end_spec(s),
    decreases s.len(),
{
    if s.len() > 0 && char_is_whitespace(s.last()) {
        let t = s.drop_last();
        if t.len() > 0 {
            assert(t[0] == s[0]);
        }
        lemma_trim_end_keeps_start(t);
    }
}

/// Trimming trimmed text changes nothing: it neither starts nor ends with
/// whitespace.
pub proof fn law_trim_idempotent(s: Seq<char>)
    ensures
        trim_spec(trim_spec(s)) == trim_spec(s),
        trim_spec(s).len() > 0 ==> !char_is_whitespace(trim_spec(s)[0]) && !char_is_whitespace(
            trim_spec(s).last(),
        ),
{
    let a = trim_start_spec(s);
    lemma_trim_start_idempotent(s);
    lemma_trim_end_keeps_start(a);
    let t = trim_end_spec(a);
    assert(trim_start_spec(t) == t) by {
        if t.len() > 0 {
            assert(!char_is_whitespace(t[0]));
        }
    }
}

pub fn trim_chars(s: &[char]) -> (r: Vec<char>)
    ensures
        r@ == trim_spec(s@),
{
    let n = s.len();
    let mut a: usize = 0;
    while a < n && is_whitespace_char(s[a])
        invariant
            n == s.len(),
            a <= n,
            forall|k: int| 0 <= k < a ==> char_is_whitespace(#[trigger] s@[k]),
        decreases n - a,
    {
        a += 1;
    }
    proof {
        lemma_trim_start_skip(s@, a as int);
    }
    let ghost t = s@.skip(a as int);
    let mut b: usize = n;
    while b > a && is_whitespace_char(s[b - 1])
        invariant
            n == s.len(),
            a <= b <= n,
            forall|k: int| b <= k < n ==> char_is_whitespace(#[trigger] s@[k]),
        decreases b - a,
    {
        b -= 1;
    }
    proof {
        assert forall|k: int| (b - a) <= k < t.len() implies char_is_whitespace(#[trigger] t[k]) by {
            assert(t[k] == s@[k + a]);
        }
        if b > a {
            assert(t[b - a - 1] == s@[b - 1]);
        }
        lemma_trim_end_take(t, (b - a) as int);
    }
    let mut out: Vec<char> = Vec::new();
    let mut i: usize = a;
    while i < b
        invariant
            a <= i <= b <= n,
            n == s.len(),
            out@ == s@.subrange(a as int, i as int),
        decreases b - i,
    {
        out.push(s[i]);
        i += 1;
        assert(s@.subrange(a as int, i as int) =~= s@.subrange(a as int, i - 1).push(s@[i - 1]));
    }
    assert(out@ =~= t.take(b - a));
    out
}

/// `str::trim` on a string slice, as an owned string.
pub fn trim_str(s: &str) -> (r: String)
    ensures
        r@ == trim_spec(s@),
{
    let v = str_chars(s);
    let t = trim_chars(v.as_slice());
    chars_to_string(t.as_slice())
}

} // verus!
