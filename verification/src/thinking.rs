//! Separation of model "reasoning" from visible content.
//!
//! Reasoning is delimited by tag pairs such as `<think>` / `</think>`, matched
//! without regard to ASCII case. Text may arrive in chunks; the stream parser
//! holds back any tail that could still grow into a tag, so that a tag split
//! across chunks is still recognised.
use vstd::prelude::*;

use crate::text::{
    ascii_lower, ascii_lower_chars, ascii_lower_seq, chars_eq, push_chars, push_char, str_chars,
    trim_chars, trim_spec, chars_to_string, opt_str_view,
};

verus! {

// ---------------------------------------------------------------------------
// The tag table
// ---------------------------------------------------------------------------

/// Number of recognised reasoning tag pairs.
pub const TAG_PAIR_COUNT: usize = 6;

/// The opening tag of pair `t` (`0 <= t < 6`).
#[verifier::opaque]
pub open spec fn open_tag(t: int) -> Seq<char> {
    if t == 0 {
        seq!['<', 't', 'h', 'i', 'n', 'k', '>']
    } else if t == 1 {
        seq!['<', 't', 'h', 'i', 'n', 'k', 'i', 'n', 'g', '>']
    } else if t == 2 {
        seq!['<', 'r', 'e', 'a', 's', 'o', 'n', '>']
    } else if t == 3 {
        seq!['<', 'r', 'e', 'a', 's', 'o', 'n', 'i', 'n', 'g', '>']
    } else if t == 4 {
        seq!['<', '|', 'c', 'h', 'a', 'n', 'n', 'e', 'l', '>', 't', 'h', 'o', 'u', 'g', 'h', 't']
    } else {
        seq!['<', '|', 'c', 'h', 'a', 'n', 'n', 'e', 'l', '>']
    }
}

/// The closing tag of pair `t` (`0 <= t < 6`).
#[verifier::opaque]
pub open spec fn close_tag(t: int) -> Seq<char> {
    if t == 0 {
        seq!['<', '/', 't', 'h', 'i', 'n', 'k', '>']
    } else if t == 1 {
        seq!['<', '/', 't', 'h', 'i', 'n', 'k', 'i', 'n', 'g', '>']
    } else if t == 2 {
        seq!['<', '/', 'r', 'e', 'a', 's', 'o', 'n', '>']
    } else if t == 3 {
        seq!['<', '/', 'r', 'e', 'a', 's', 'o', 'n', 'i', 'n', 'g', '>']
    } else {
        seq!['<', 'c', 'h', 'a', 'n', 'n', 'e', 'l', '|', '>']
    }
}

pub proof fn lemma_open_tag_nonempty(t: int)
    ensures
        open_tag(t).len() > 0,
        close_tag(t).len() > 0,
{
    reveal(open_tag);
    reveal(close_tag);
}

/// All opening tags, in table order.
pub open spec fn open_tags() -> Seq<Seq<char>> {
    seq![open_tag(0), open_tag(1), open_tag(2), open_tag(3), open_tag(4), open_tag(5)]
}

fn tag_pair(t: usize) -> (r: (&'static str, &'static str))
    requires
        t < TAG_PAIR_COUNT,
    ensures
        r.0@ == open_tag(t as int),
        r.1@ == close_tag(t as int),
{
    proof {
        reveal(open_tag);
        reveal(close_tag);
        reveal_strlit("<think>");
        reveal_strlit("</think>");
        reveal_strlit("<thinking>");
        reveal_strlit("</thinking>");
        reveal_strlit("<reason>");
        reveal_strlit("</reason>");
        reveal_strlit("<reasoning>");
        reveal_strlit("</reasoning>");
        reveal_strlit("<|channel>thought");
        reveal_strlit("<channel|>");
        reveal_strlit("<|channel>");
    }
    if t == 0 {
        ("<think>", "</think>")
    } else if t == 1 {
        ("<thinking>", "</thinking>")
    } else if t == 2 {
        ("<reason>", "</reason>")
    } else if t == 3 {
        ("<reasoning>", "</reasoning>")
    } else if t == 4 {
        ("<|channel>thought", "<channel|>")
    } else {
        ("<|channel>", "<channel|>")
    }
}

// ---------------------------------------------------------------------------
// Searching
// ---------------------------------------------------------------------------

/// `needle` occurs in `hay` starting at index `i`.
pub open spec fn occurs_at(hay: Seq<char>, needle: Seq<char>, i: int) -> bool {
    0 <= i && i + needle.len() <= hay.len() && hay.subrange(i, i + needle.len()) == needle
}

/// The lowest index at which `needle` occurs in `hay` (`str::find`).
#[verifier::opaque]
pub open spec fn first_occurrence(hay: Seq<char>, needle: Seq<char>) -> Option<int> {
    if exists|i: int| #[trigger] occurs_at(hay, needle, i) {
        Some(
            choose|i: int|
                #[trigger] occurs_at(hay, needle, i) && forall|j: int|
                    0 <= j < i ==> !occurs_at(hay, needle, j),
        )
    } else {
        None
    }
}

pub proof fn lemma_first_occurrence_is(hay: Seq<char>, needle: Seq<char>, i: int)
    requires
        occurs_at(hay, needle, i),
        forall|j: int| 0 <= j < i ==> !occurs_at(hay, needle, j),
    ensures
        first_occurrence(hay, needle) == Some(i),
{
    reveal(first_occurrence);
    let k = choose|k: int|
        #[trigger] occurs_at(hay, needle, k) && forall|j: int| 0 <= j < k ==> !occurs_at(hay, needle, j);
    assert(occurs_at(hay, needle, k) && forall|j: int| 0 <= j < k ==> !occurs_at(hay, needle, j));
    if k < i {
        assert(!occurs_at(hay, needle, k));
    }
    if i < k {
        assert(!occurs_at(hay, needle, i));
    }
}

pub proof fn lemma_first_occurrence_facts(hay: Seq<char>, needle: Seq<char>)
    ensures
        first_occurrence(hay, needle) matches Some(i) ==> occurs_at(hay, needle, i) && forall|j: int|
            0 <= j < i ==> !occurs_at(hay, needle, j),
        first_occurrence(hay, needle) is None ==> forall|j: int| !occurs_at(hay, needle, j),
{
    reveal(first_occurrence);
    if exists|i: int| #[trigger] occurs_at(hay, needle, i) {
        let w = choose|i: int| #[trigger] occurs_at(hay, needle, i);
        lemma_minimal_occurrence_exists(hay, needle, w);
    }
}

proof fn lemma_minimal_occurrence_exists(hay: Seq<char>, needle: Seq<char>, w: int)
    requires
        occurs_at(hay, needle, w),
    ensures
        exists|i: int|
            #[trigger] occurs_at(hay, needle, i) && forall|j: int|
                0 <= j < i ==> !occurs_at(hay, needle, j),
    decreases w,
{
    if exists|j: int| 0 <= j < w && #[trigger] occurs_at(hay, needle, j) {
        let j = choose|j: int| 0 <= j < w && #[trigger] occurs_at(hay, needle, j);
        lemma_minimal_occurrence_exists(hay, needle, j);
    } else {
        assert(occurs_at(hay, needle, w) && forall|j: int| 0 <= j < w ==> !occurs_at(hay, needle, j));
    }
}

fn matches_at(hay: &[char], needle: &[char], i: usize) -> (r: bool)
    requires
        i + needle.len() <= hay.len(),
    ensures
        r == occurs_at(hay@, needle@, i as int),
{
    let mut k: usize = 0;
    while k < needle.len()
        invariant
            i + needle.len() <= hay.len(),
            k <= needle.len(),
            forall|x: int| 0 <= x < k ==> hay@[i + x] == needle@[x],
        decreases needle.len() - k,
    {
        if hay[i + k] != needle[k] {
            assert(hay@.subrange(i as int, i + needle.len())[k as int] != needle@[k as int]);
            return false;
        }
        k += 1;
    }
    assert(hay@.subrange(i as int, i + needle.len()) =~= needle@);
    true
}

/// `str::find`: the first index where `needle` occurs in `hay`.
fn find_chars(hay: &[char], needle: &[char]) -> (r: Option<usize>)
    ensures
        match r {
            Some(i) => first_occurrence(hay@, needle@) == Some(i as int),
            None => first_occurrence(hay@, needle@) is None,
        },
{
    if needle.len() > hay.len() {
        assert(forall|j: int| !#[trigger] occurs_at(hay@, needle@, j));
        proof {
            reveal(first_occurrence);
        }
        return None;
    }
    let last = hay.len() - needle.len();
    let mut i: usize = 0;
    loop
        invariant
            last == hay.len() - needle.len(),
            i <= last,
            forall|j: int| 0 <= j < i ==> !occurs_at(hay@, needle@, j),
        decreases last - i,
    {
        if matches_at(hay, needle, i) {
            proof {
                lemma_first_occurrence_is(hay@, needle@, i as int);
            }
            return Some(i);
        }
        if i == last {
            assert(forall|j: int| !#[trigger] occurs_at(hay@, needle@, j));
            proof {
                reveal(first_occurrence);
            }
            return None;
        }
        i += 1;
    }
}

/// The earliest opening tag among the first `n` pairs, as (index, pair);
/// on equal index the pair listed first wins (`min_by_key`).
pub open spec fn earliest_open_upto(buf: Seq<char>, n: int) -> Option<(int, int)>
    decreases n,
{
    if n <= 0 {
        None
    } else {
        let prev = earliest_open_upto(buf, n - 1);
        match first_occurrence(ascii_lower_seq(buf), open_tag(n - 1)) {
            None => prev,
            Some(i) => match prev {
                None => Some((i, n - 1)),
                Some(p) => if i < p.0 {
                    Some((i, n - 1))
                } else {
                    prev
                },
            },
        }
    }
}

/// The earliest opening tag in `buf`, matched without ASCII case.
pub open spec fn earliest_open(buf: Seq<char>) -> Option<(int, int)> {
    earliest_open_upto(buf, 6)
}

pub proof fn lemma_earliest_open_upto_facts(buf: Seq<char>, n: int)
    requires
        0 <= n <= 6,
    ensures
        earliest_open_upto(buf, n) matches Some(p) ==> 0 <= p.1 < n && first_occurrence(
            ascii_lower_seq(buf),
            open_tag(p.1),
        ) == Some(p.0),
    decreases n,
{
    if n > 0 {
        lemma_earliest_open_upto_facts(buf, n - 1);
    }
}

pub open spec fn index_pair_view(o: Option<(usize, usize)>) -> Option<(int, int)> {
    match o {
        Some(x) => Some((x.0 as int, x.1 as int)),
        None => None,
    }
}

fn earliest_open_tag(buffer: &[char]) -> (r: Option<(usize, &'static str, &'static str)>)
    ensures
        match (r, earliest_open(buffer@)) {
            (Some(x), Some(p)) => x.0 == p.0 && x.1@ == open_tag(p.1) && x.2@ == close_tag(p.1)
                && 0 <= p.1 < 6,
            (None, None) => true,
            _ => false,
        },
{
    let lower = ascii_lower_chars(buffer);
    let mut best: Option<(usize, usize)> = None;
    let mut t: usize = 0;
    while t < TAG_PAIR_COUNT
        invariant
            t <= 6,
            lower@ == ascii_lower_seq(buffer@),
            index_pair_view(best) == earliest_open_upto(buffer@, t as int),
            best matches Some(b) ==> b.1 < t,
        decreases 6 - t,
    {
        let (open, _close) = tag_pair(t);
        let open_chars = str_chars(open);
        let found = find_chars(lower.as_slice(), open_chars.as_slice());
        match found {
            Some(i) => {
                let better = match best {
                    None => true,
                    Some(b) => i < b.0,
                };
                if better {
                    best = Some((i, t));
                }
            },
            None => {},
        }
        t += 1;
    }
    match best {
        Some(b) => {
            let (open, close) = tag_pair(b.1);
            Some((b.0, open, close))
        },
        None => None,
    }
}

// ---------------------------------------------------------------------------
// Held-back tails
// ---------------------------------------------------------------------------

/// The last `k` characters of `buf`, ASCII-lowercased, are the first `k`
/// characters of `tag`.
pub open spec fn tail_starts_tag(buf: Seq<char>, tag: Seq<char>, k: int) -> bool {
    0 <= k <= buf.len() && k <= tag.len() && ascii_lower_seq(buf).subrange(buf.len() - k, buf.len() as int)
        == tag.take(k)
}

pub open spec fn held_from(buf: Seq<char>, tag: Seq<char>, k: int) -> int
    decreases k,
{
    if k <= 0 {
        0
    } else if tail_starts_tag(buf, tag, k) {
        k
    } else {
        held_from(buf, tag, k - 1)
    }
}

/// Length of the longest tail of `buf` that is a proper prefix of `tag`
/// (compared without ASCII case): text that may still become `tag`.
pub open spec fn held_len(buf: Seq<char>, tag: Seq<char>) -> int {
    if tag.len() == 0 {
        0
    } else if buf.len() < tag.len() - 1 {
        held_from(buf, tag, buf.len() as int)
    } else {
        held_from(buf, tag, tag.len() - 1)
    }
}

/// The longest held-back tail over a list of tags.
pub open spec fn held_any(buf: Seq<char>, tags: Seq<Seq<char>>) -> int
    decreases tags.len(),
{
    if tags.len() == 0 {
        0
    } else {
        let a = held_any(buf, tags.drop_last());
        let b = held_len(buf, tags.last());
        if a < b {
            b
        } else {
            a
        }
    }
}

pub proof fn lemma_held_from_bounds(buf: Seq<char>, tag: Seq<char>, k: int)
    ensures
        0 <= held_from(buf, tag, k),
        k >= 0 ==> held_from(buf, tag, k) <= k,
    decreases k,
{
    if k > 0 {
        lemma_held_from_bounds(buf, tag, k - 1);
    }
}

pub proof fn lemma_held_len_bounds(buf: Seq<char>, tag: Seq<char>)
    ensures
        0 <= held_len(buf, tag) <= buf.len(),
        tag.len() > 0 ==> held_len(buf, tag) < tag.len(),
{
    if tag.len() > 0 {
        if buf.len() < tag.len() - 1 {
            lemma_held_from_bounds(buf, tag, buf.len() as int);
        } else {
            lemma_held_from_bounds(buf, tag, tag.len() - 1);
        }
    }
}

pub proof fn lemma_held_any_bounds(buf: Seq<char>, tags: Seq<Seq<char>>)
    ensures
        0 <= held_any(buf, tags) <= buf.len(),
    decreases tags.len(),
{
    if tags.len() > 0 {
        lemma_held_any_bounds(buf, tags.drop_last());
        lemma_held_len_bounds(buf, tags.last());
    }
}

fn tail_matches(lower: &[char], tag: &[char], k: usize) -> (r: bool)
    requires
        k <= lower.len(),
        k <= tag.len(),
    ensures
        r == (lower@.subrange(lower.len() - k, lower.len() as int) == tag@.take(k as int)),
{
    let start = lower.len() - k;
    let mut x: usize = 0;
    while x < k
        invariant
            start == lower.len() - k,
            k <= lower.len(),
            k <= tag.len(),
            x <= k,
            forall|y: int| 0 <= y < x ==> lower@[start + y] == tag@[y],
        decreases k - x,
    {
        if lower[start + x] != tag[x] {
            assert(lower@.subrange(start as int, lower.len() as int)[x as int] != tag@.take(
                k as int,
            )[x as int]);
            return false;
        }
        x += 1;
    }
    assert(lower@.subrange(start as int, lower.len() as int) =~= tag@.take(k as int));
    true
}

/// Length of the longest tail of `buffer` that is a proper prefix of `tag`.
fn partial_suffix_len(buffer: &[char], tag: &[char]) -> (r: usize)
    ensures
        r == held_len(buffer@, tag@),
{
    if tag.len() == 0 {
        return 0;
    }
    let lower = ascii_lower_chars(buffer);
    let m: usize = if buffer.len() < tag.len() - 1 {
        buffer.len()
    } else {
        tag.len() - 1
    };
    let mut k: usize = m;
    while k > 0
        invariant
            k <= m,
            m <= buffer.len(),
            m < tag.len(),
            lower@ == ascii_lower_seq(buffer@),
            held_len(buffer@, tag@) == held_from(buffer@, tag@, k as int),
        decreases k,
    {
        if tail_matches(lower.as_slice(), tag, k) {
            return k;
        }
        k -= 1;
    }
    0
}

/// The longest tail of `buffer` that is a proper prefix of one of `tags`.
fn partial_suffix_len_any(buffer: &[char], tags: &[&'static str]) -> (r: usize)
    ensures
        r == held_any(buffer@, tags@.map_values(|t: &'static str| t@)),
{
    let ghost views = tags@.map_values(|t: &'static str| t@);
    let mut best: usize = 0;
    let mut i: usize = 0;
    while i < tags.len()
        invariant
            i <= tags.len(),
            views == tags@.map_values(|t: &'static str| t@),
            best == held_any(buffer@, views.take(i as int)),
        decreases tags.len() - i,
    {
        let tag_chars = str_chars(tags[i]);
        let len = partial_suffix_len(buffer, tag_chars.as_slice());
        proof {
            let s = views.take(i + 1);
            assert(s.drop_last() =~= views.take(i as int));
            assert(s.last() == tags@[i as int]@);
        }
        if best < len {
            best = len;
        }
        i += 1;
    }
    assert(views.take(tags.len() as int) =~= views);
    best
}

fn open_tag_list() -> (r: Vec<&'static str>)
    ensures
        r@.map_values(|t: &'static str| t@) == open_tags(),
{
    let mut v: Vec<&'static str> = Vec::new();
    let mut t: usize = 0;
    while t < TAG_PAIR_COUNT
        invariant
            t <= 6,
            v@.len() == t,
            forall|k: int| 0 <= k < t ==> (#[trigger] v@[k])@ == open_tag(k),
        decreases 6 - t,
    {
        let (open, _close) = tag_pair(t);
        v.push(open);
        t += 1;
    }
    assert(v@.map_values(|t: &'static str| t@) =~= open_tags());
    v
}

// ---------------------------------------------------------------------------
// The parser and its semantics
// ---------------------------------------------------------------------------

/// Content and reasoning text separated out of model output.
#[derive(Debug, Clone, PartialEq, Eq)]
pub struct ThinkingSplit {
    pub content: String,
    pub reasoning: String,
}

impl Default for ThinkingSplit {
    fn default() -> (r: Self)
        ensures
            r.content@ == Seq::<char>::empty(),
            r.reasoning@ == Seq::<char>::empty(),
    {
        ThinkingSplit { content: String::new(), reasoning: String::new() }
    }
}

/// The abstract state of a stream parser.
pub struct ParserView {
    /// Inside a reasoning block.
    pub in_think: bool,
    /// The closing tag awaited inside a reasoning block.
    pub close: Option<Seq<char>>,
    /// Text held back because it may still become a tag.
    pub pending: Seq<char>,
}

/// Streaming splitter of reasoning and content.
#[derive(Debug, Clone)]
pub struct ThinkingTagStreamParser {
    in_think: bool,
    close_tag: Option<&'static str>,
    pending: Vec<char>,
}


impl View for ThinkingTagStreamParser {
    type V = ParserView;

    closed spec fn view(&self) -> ParserView {
        ParserView { in_think: self.in_think, close: opt_str_view(self.close_tag), pending: self.pending@ }
    }
}

/// Result of running the parser over its pending text: the new state, the
/// content emitted and the reasoning emitted.
pub open spec fn drive(in_think: bool, close: Option<Seq<char>>, p: Seq<char>) -> (
    ParserView,
    Seq<char>,
    Seq<char>,
)
    decreases p.len() * 2 + (if in_think {
        1int
    } else {
        0int
    }),
{
    if in_think {
        match close {
            Some(c) => match first_occurrence(ascii_lower_seq(p), c) {
                Some(i) => {
                    if 0 <= i && i + c.len() <= p.len() {
                        let r = drive(false, None, p.skip(i + c.len()));
                        (r.0, r.1, p.take(i) + r.2)
                    } else {
                        (ParserView { in_think, close, pending: p }, Seq::empty(), Seq::empty())
                    }
                },
                None => {
                    let e = p.len() - held_len(p, c);
                    (
                        ParserView { in_think: true, close: Some(c), pending: p.skip(e) },
                        Seq::empty(),
                        p.take(e),
                    )
                },
            },
            None => (ParserView { in_think, close, pending: p }, Seq::empty(), Seq::empty()),
        }
    } else {
        match earliest_open(p) {
            Some(x) => {
                let o = open_tag(x.1);
                if 0 <= x.0 && x.0 + o.len() <= p.len() && o.len() > 0 {
                    let r = drive(true, Some(close_tag(x.1)), p.skip(x.0 + o.len()));
                    (r.0, p.take(x.0) + r.1, r.2)
                } else {
                    (ParserView { in_think, close, pending: p }, Seq::empty(), Seq::empty())
                }
            },
            None => {
                let e = p.len() - held_any(p, open_tags());
                (
                    ParserView { in_think: false, close, pending: p.skip(e) },
                    p.take(e),
                    Seq::empty(),
                )
            },
        }
    }
}

/// What `drive` makes of a state extended by the emitted prefixes.
pub open spec fn drive_after(
    content: Seq<char>,
    reasoning: Seq<char>,
    in_think: bool,
    close: Option<Seq<char>>,
    p: Seq<char>,
) -> (ParserView, Seq<char>, Seq<char>) {
    let r = drive(in_think, close, p);
    (r.0, content + r.1, reasoning + r.2)
}

fn take_chars(v: &[char], n: usize) -> (r: Vec<char>)
    requires
        n <= v.len(),
    ensures
        r@ == v@.take(n as int),
{
    let mut out: Vec<char> = Vec::new();
    let mut i: usize = 0;
    while i < n
        invariant
            i <= n <= v.len(),
            out@ == v@.take(i as int),
        decreases n - i,
    {
        out.push(v[i]);
        i += 1;
        assert(v@.take(i as int) =~= v@.take(i - 1).push(v@[i - 1]));
    }
    out
}

fn skip_chars(v: &[char], n: usize) -> (r: Vec<char>)
    requires
        n <= v.len(),
    ensures
        r@ == v@.skip(n as int),
{
    let mut out: Vec<char> = Vec::new();
    let mut i: usize = n;
    while i < v.len()
        invariant
            n <= i <= v.len(),
            out@ == v@.subrange(n as int, i as int),
        decreases v.len() - i,
    {
        out.push(v[i]);
        i += 1;
        assert(v@.subrange(n as int, i as int) =~= v@.subrange(n as int, i - 1).push(v@[i - 1]));
    }
    out
}

impl ThinkingTagStreamParser {
    /// The parser can take more input: inside a reasoning block it knows the
    /// closing tag to wait for.
    pub open spec fn wf(&self) -> bool {
        self@.in_think ==> self@.close is Some
    }

    /// A parser outside any reasoning block with nothing pending.
    pub fn new() -> (r: Self)
        ensures
            r@ == (ParserView { in_think: false, close: None, pending: Seq::empty() }),
            r.wf(),
    {
        ThinkingTagStreamParser { in_think: false, close_tag: None, pending: Vec::new() }
    }

    /// Start already inside a reasoning block. Used for "forced-open thinking"
    /// templates whose generation prefix emits the opening `<think>` into the
    /// prompt, so the model output carries only the reasoning body and a
    /// trailing `</think>` with no opening tag for the parser to key off.
    pub fn started_in_reasoning(close_tag: &'static str) -> (r: Self)
        ensures
            r@ == (ParserView { in_think: true, close: Some(close_tag@), pending: Seq::empty() }),
            r.wf(),
    {
        ThinkingTagStreamParser { in_think: true, close_tag: Some(close_tag), pending: Vec::new() }
    }

    /// The close tag still awaited if this parser ended inside an unclosed
    /// reasoning block, otherwise `None`.
    pub fn ends_in_reasoning(&self) -> (r: Option<&'static str>)
        ensures
            opt_str_view(r) == (if self@.in_think {
                self@.close
            } else {
                None
            }),
    {
        if self.in_think {
            self.close_tag
        } else {
            None
        }
    }

    /// Feeds a chunk of text; returns the content and reasoning that can be
    /// emitted now. A tail that may still grow into a tag is held back.
    pub fn feed(&mut self, chunk: &str) -> (split: ThinkingSplit)
        requires
            old(self).wf(),
        ensures
            final(self).wf(),
            drive(old(self)@.in_think, old(self)@.close, old(self)@.pending + chunk@) == (
                final(self)@,
                split.content@,
                split.reasoning@,
            ),
    {
        let chunk_chars = str_chars(chunk);
        let mut i: usize = 0;
        while i < chunk_chars.len()
            invariant
                i <= chunk_chars.len(),
                self@.in_think == old(self)@.in_think,
                self@.close == old(self)@.close,
                self@.pending == old(self)@.pending + chunk@.take(i as int),
                chunk_chars@ == chunk@,
            decreases chunk_chars.len() - i,
        {
            self.pending.push(chunk_chars[i]);
            i += 1;
            assert(chunk@.take(i as int) =~= chunk@.take(i - 1).push(chunk@[i - 1]));
        }
        assert(chunk@.take(chunk@.len() as int) =~= chunk@);
        let ghost target = drive(old(self)@.in_think, old(self)@.close, old(self)@.pending + chunk@);
        let mut split = ThinkingSplit::default();
        let open_tags_vec = open_tag_list();

        loop
            invariant_except_break
                target == drive_after(
                    split.content@,
                    split.reasoning@,
                    self@.in_think,
                    self@.close,
                    self@.pending,
                ),
            invariant
                self.wf(),
                open_tags_vec@.map_values(|t: &'static str| t@) == open_tags(),
            ensures
                target == (self@, split.content@, split.reasoning@),
            decreases self.pending@.len() * 2 + (if self.in_think {
                1int
            } else {
                0int
            }),
        {
            let ghost content0 = split.content@;
            let ghost reasoning0 = split.reasoning@;
            let ghost p = self.pending@;
            if self.in_think {
                let close = match self.close_tag {
                    Some(c) => c,
                    None => {
                        assert(false);
                        break;
                    },
                };
                let close_chars = str_chars(close);
                let lower = ascii_lower_chars(self.pending.as_slice());
                match find_chars(lower.as_slice(), close_chars.as_slice()) {
                    Some(index) => {
                        proof {
                            lemma_first_occurrence_facts(ascii_lower_seq(p), close@);
                            assert(ascii_lower_seq(p).len() == p.len());
                            assert(occurs_at(ascii_lower_seq(p), close@, index as int));
                        }
                        let head = take_chars(self.pending.as_slice(), index);
                        push_chars(&mut split.reasoning, head.as_slice());
                        let _plen = self.pending.len();
                        self.pending = skip_chars(self.pending.as_slice(), index + close_chars.len());
                        self.in_think = false;
                        self.close_tag = None;
                        assert(split.reasoning@ == reasoning0 + p.take(index as int));
                        continue ;
                    },
                    None => {},
                }
                let keep = partial_suffix_len(self.pending.as_slice(), close_chars.as_slice());
                proof {
                    lemma_held_len_bounds(p, close@);
                }
                let emit_len = self.pending.len() - keep;
                if emit_len == 0 {
                    assert(p.skip(0) =~= p);
                    assert(p.take(0) =~= Seq::<char>::empty());
                    assert(split.reasoning@ =~= reasoning0 + p.take(0));
                    assert(split.content@ =~= content0 + Seq::<char>::empty());
                    break;
                }
                let head = take_chars(self.pending.as_slice(), emit_len);
                push_chars(&mut split.reasoning, head.as_slice());
                self.pending = skip_chars(self.pending.as_slice(), emit_len);
                assert(split.content@ =~= content0 + Seq::<char>::empty());
                break;
            }
            match earliest_open_tag(self.pending.as_slice()) {
                Some((index, open_tag_str, close_tag_str)) => {
                    let ghost x = earliest_open(p)->0;
                    proof {
                        lemma_earliest_open_upto_facts(p, 6);
                        lemma_first_occurrence_facts(ascii_lower_seq(p), open_tag(x.1));
                        lemma_open_tag_nonempty(x.1);
                        assert(ascii_lower_seq(p).len() == p.len());
                        assert(occurs_at(ascii_lower_seq(p), open_tag(x.1), index as int));
                        assert(drive(false, self@.close, p) == ({
                            let r = drive(true, Some(close_tag(x.1)), p.skip(x.0 + open_tag(x.1).len()));
                            (r.0, p.take(x.0) + r.1, r.2)
                        }));
                    }
                    let _plen = self.pending.len();
                    let open_chars = str_chars(open_tag_str);
                    let head = take_chars(self.pending.as_slice(), index);
                    push_chars(&mut split.content, head.as_slice());
                    self.pending = skip_chars(self.pending.as_slice(), index + open_chars.len());
                    self.in_think = true;
                    self.close_tag = Some(close_tag_str);
                    assert(split.content@ == content0 + p.take(index as int));
                    continue ;
                },
                None => {},
            }
            let keep = partial_suffix_len_any(self.pending.as_slice(), open_tags_vec.as_slice());
            proof {
                lemma_held_any_bounds(p, open_tags());
            }
            let emit_len = self.pending.len() - keep;
            if emit_len == 0 {
                assert(p.skip(0) =~= p);
                assert(p.take(0) =~= Seq::<char>::empty());
                assert(split.content@ =~= content0 + p.take(0));
                assert(split.reasoning@ =~= reasoning0 + Seq::<char>::empty());
                break;
            }
            let head = take_chars(self.pending.as_slice(), emit_len);
            push_chars(&mut split.content, head.as_slice());
            self.pending = skip_chars(self.pending.as_slice(), emit_len);
            assert(split.reasoning@ =~= reasoning0 + Seq::<char>::empty());
            break;
        }
        split
    }

    /// Flushes whatever is pending, as reasoning inside a reasoning block and
    /// as content otherwise; the awaited closing tag is forgotten.
    pub fn finish(&mut self) -> (split: ThinkingSplit)
        ensures
            split.content@ == (if old(self)@.in_think {
                Seq::<char>::empty()
            } else {
                old(self)@.pending
            }),
            split.reasoning@ == (if old(self)@.in_think {
                old(self)@.pending
            } else {
                Seq::<char>::empty()
            }),
            final(self)@ == (ParserView {
                in_think: old(self)@.in_think,
                close: None,
                pending: Seq::empty(),
            }),
    {
        let mut split = ThinkingSplit::default();
        if self.in_think {
            push_chars(&mut split.reasoning, self.pending.as_slice());
        } else {
            push_chars(&mut split.content, self.pending.as_slice());
        }
        self.close_tag = None;
        self.pending = Vec::new();
        assert(split.content@ =~= (if old(self)@.in_think {
            Seq::<char>::empty()
        } else {
            old(self)@.pending
        }));
        assert(split.reasoning@ =~= (if old(self)@.in_think {
            old(self)@.pending
        } else {
            Seq::<char>::empty()
        }));
        split
    }
}

} // verus!

verus! {

impl Default for ThinkingTagStreamParser {
    fn default() -> (r: Self)
        ensures
            r@ == (ParserView { in_think: false, close: None, pending: Seq::empty() }),
            r.wf(),
    {
        ThinkingTagStreamParser::new()
    }
}


/// Content and reasoning of a whole text: the parser is run over it and
/// whatever it still holds back is flushed by `finish`.
pub open spec fn split_spec(text: Seq<char>, forced_open: Option<Seq<char>>) -> (Seq<char>, Seq<char>) {
    let r = match forced_open {
        Some(c) => drive(true, Some(c), text),
        None => drive(false, None, text),
    };
    if r.0.in_think {
        (r.1, r.2 + r.0.pending)
    } else {
        (r.1 + r.0.pending, r.2)
    }
}

/// The close tag awaited at the end of `prompt`, if the prompt ends inside
/// an unclosed reasoning block.
pub open spec fn trailing_tag_spec(prompt: Seq<char>) -> Option<Seq<char>> {
    let r = drive(false, None, prompt);
    if r.0.in_think {
        r.0.close
    } else {
        None
    }
}

/// Detect whether a fully rendered prompt ends inside an unclosed reasoning
/// block, returning the close tag the model output is expected to emit without a
/// matching opening tag. Balanced `<think>…</think>` pairs from prior turns are
/// ignored — only a trailing, still-open block counts.
pub fn trailing_open_reasoning_tag(prompt: &str) -> (r: Option<&'static str>)
    ensures
        opt_str_view(r) == trailing_tag_spec(prompt@),
{
    let mut parser = ThinkingTagStreamParser::new();
    assert(Seq::<char>::empty() + prompt@ =~= prompt@);
    let _ = parser.feed(prompt);
    parser.ends_in_reasoning()
}

pub fn split_thinking_tags_seeded(text: &str, forced_open: Option<&'static str>) -> (r: ThinkingSplit)
    ensures
        (r.content@, r.reasoning@) == split_spec(text@, opt_str_view(forced_open)),
{
    let mut parser = match forced_open {
        Some(close_tag) => ThinkingTagStreamParser::started_in_reasoning(close_tag),
        None => ThinkingTagStreamParser::new(),
    };
    assert(Seq::<char>::empty() + text@ =~= text@);
    let mut split = parser.feed(text);
    let tail = parser.finish();
    let content_tail = str_chars(tail.content.as_str());
    let reasoning_tail = str_chars(tail.reasoning.as_str());
    push_chars(&mut split.content, content_tail.as_slice());
    push_chars(&mut split.reasoning, reasoning_tail.as_slice());
    proof {
        let d = drive(
            if forced_open is Some { true } else { false },
            opt_str_view(forced_open),
            text@,
        );
        assert(d.2 + Seq::<char>::empty() =~= d.2);
        assert(d.1 + Seq::<char>::empty() =~= d.1);
    }
    split
}

/// Splits a complete text into content and reasoning.
pub fn split_thinking_tags(text: &str) -> (r: ThinkingSplit)
    ensures
        (r.content@, r.reasoning@) == split_spec(text@, None),
{
    split_thinking_tags_seeded(text, None)
}

/// The reasoning after folding in a separately delivered reasoning text.
pub open spec fn merged_reasoning(current: Seq<char>, explicit: Option<Seq<char>>) -> Seq<char> {
    match explicit {
        Some(e) => {
            let r = trim_spec(e);
            if r.len() == 0 {
                current
            } else if trim_spec(current).len() == 0 {
                r
            } else if trim_spec(current) != r {
                current + seq!['\n', '\n'] + r
            } else {
                current
            }
        },
        None => current,
    }
}

impl ThinkingSplit {
    /// Folds in reasoning that arrived on a separate channel: it replaces
    /// blank reasoning, is appended after a blank line to different
    /// reasoning, and is dropped when it repeats what is there.
    pub fn merge_reasoning(self, explicit_reasoning: Option<&str>) -> (r: Self)
        ensures
            r.content@ == self.content@,
            r.reasoning@ == merged_reasoning(self.reasoning@, opt_str_view(explicit_reasoning)),
    {
        let mut this = self;
        match explicit_reasoning {
            Some(text) => {
                let text_chars = str_chars(text);
                let reasoning = trim_chars(text_chars.as_slice());
                if reasoning.len() > 0 {
                    let current = str_chars(this.reasoning.as_str());
                    let current_trimmed = trim_chars(current.as_slice());
                    if current_trimmed.len() == 0 {
                        this.reasoning = chars_to_string(reasoning.as_slice());
                    } else if !chars_eq(current_trimmed.as_slice(), reasoning.as_slice()) {
                        push_char(&mut this.reasoning, '\n');
                        push_char(&mut this.reasoning, '\n');
                        push_chars(&mut this.reasoning, reasoning.as_slice());
                        assert(this.reasoning@ =~= self.reasoning@ + seq!['\n', '\n']
                            + reasoning@);
                    }
                }
            },
            None => {},
        }
        this
    }
}

/// Content and reasoning of an optional text, merged with separately
/// delivered reasoning, each trimmed.
pub open spec fn normalized_spec(
    content: Option<Seq<char>>,
    explicit: Option<Seq<char>>,
    forced_open: Option<Seq<char>>,
) -> (Seq<char>, Seq<char>) {
    let base = match content {
        Some(t) => split_spec(t, forced_open),
        None => (Seq::empty(), Seq::empty()),
    };
    (trim_spec(base.0), trim_spec(merged_reasoning(base.1, explicit)))
}

/// Splits optional content and merges explicit reasoning; both parts trimmed.
pub fn normalize_thinking_content(content: Option<&str>, explicit_reasoning: Option<&str>) -> (r:
    ThinkingSplit)
    ensures
        (r.content@, r.reasoning@) == normalized_spec(
            opt_str_view(content),
            opt_str_view(explicit_reasoning),
            None,
        ),
{
    normalize_thinking_content_seeded(content, explicit_reasoning, None)
}

/// Like [`normalize_thinking_content`], but when `forced_open` is `Some` the
/// content channel is parsed as if it already began inside a reasoning block —
/// for templates that emit the opening `<think>` into the prompt.
pub fn normalize_thinking_content_seeded(
    content: Option<&str>,
    explicit_reasoning: Option<&str>,
    forced_open: Option<&'static str>,
) -> (r: ThinkingSplit)
    ensures
        (r.content@, r.reasoning@) == normalized_spec(
            opt_str_view(content),
            opt_str_view(explicit_reasoning),
            opt_str_view(forced_open),
        ),
{
    let base = match content {
        Some(text) => split_thinking_tags_seeded(text, forced_open),
        None => ThinkingSplit::default(),
    };
    let merged = base.merge_reasoning(explicit_reasoning);
    let content_chars = str_chars(merged.content.as_str());
    let reasoning_chars = str_chars(merged.reasoning.as_str());
    let content_trimmed = trim_chars(content_chars.as_slice());
    let reasoning_trimmed = trim_chars(reasoning_chars.as_slice());
    ThinkingSplit {
        content: chars_to_string(content_trimmed.as_slice()),
        reasoning: chars_to_string(reasoning_trimmed.as_slice()),
    }
}

} // verus!
