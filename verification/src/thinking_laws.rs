//! Laws of the reasoning-tag parser: how its results behave when text is
//! split into chunks, and that normalised parts are trimmed.
use vstd::prelude::*;

use crate::text::{ascii_lower, ascii_lower_seq, trim_spec};
use crate::thinking::{
    close_tag, drive, earliest_open, earliest_open_upto, first_occurrence, held_any, held_from,
    held_len, lemma_earliest_open_upto_facts, lemma_first_occurrence_facts,
    lemma_first_occurrence_is, lemma_held_from_bounds, lemma_held_len_bounds,
    lemma_open_tag_nonempty, merged_reasoning, normalized_spec, occurs_at, open_tag, open_tags,
    split_spec, tail_starts_tag, trailing_tag_spec, ParserView,
};

verus! {

// ---------------------------------------------------------------------------
// Lowercasing and occurrences
// ---------------------------------------------------------------------------

proof fn lemma_lower_append(x: Seq<char>, y: Seq<char>)
    ensures
        ascii_lower_seq(x + y) == ascii_lower_seq(x) + ascii_lower_seq(y),
{
    assert(ascii_lower_seq(x + y) =~= ascii_lower_seq(x) + ascii_lower_seq(y));
}

proof fn lemma_lower_skip(x: Seq<char>, n: int)
    requires
        0 <= n <= x.len(),
    ensures
        ascii_lower_seq(x.skip(n)) == ascii_lower_seq(x).skip(n),
{
    assert(ascii_lower_seq(x.skip(n)) =~= ascii_lower_seq(x).skip(n));
}

proof fn lemma_lower_len(x: Seq<char>)
    ensures
        ascii_lower_seq(x).len() == x.len(),
{
}

/// An occurrence that ends inside `x` is an occurrence in `x + y` and back.
proof fn lemma_occurs_prefix(x: Seq<char>, y: Seq<char>, n: Seq<char>, i: int)
    requires
        0 <= i,
        i + n.len() <= x.len(),
    ensures
        occurs_at(x + y, n, i) == occurs_at(x, n, i),
{
    assert((x + y).subrange(i, i + n.len()) =~= x.subrange(i, i + n.len()));
}

/// Occurrences in a suffix are occurrences in the whole, shifted.
proof fn lemma_occurs_skip(x: Seq<char>, n: Seq<char>, k: int, i: int)
    requires
        0 <= k <= x.len(),
        0 <= i,
    ensures
        occurs_at(x.skip(k), n, i) == occurs_at(x, n, i + k),
{
    if i + n.len() <= x.len() - k {
        assert(x.skip(k).subrange(i, i + n.len()) =~= x.subrange(i + k, i + k + n.len()));
    }
}

/// The first occurrence of `n` in `x` stays first when text is appended.
proof fn lemma_first_occurrence_extend(x: Seq<char>, y: Seq<char>, n: Seq<char>)
    requires
        first_occurrence(x, n) is Some,
    ensures
        first_occurrence(x + y, n) == first_occurrence(x, n),
{
    lemma_first_occurrence_facts(x, n);
    let i = first_occurrence(x, n)->0;
    lemma_occurs_prefix(x, y, n, i);
    assert forall|j: int| 0 <= j < i implies !occurs_at(x + y, n, j) by {
        lemma_occurs_prefix(x, y, n, j);
    }
    lemma_first_occurrence_is(x + y, n, i);
}

/// When every occurrence in `z + y` starts after `z`, the first occurrence is
/// the first occurrence in `y`, shifted by `|z|`.
proof fn lemma_first_occurrence_shift(z: Seq<char>, y: Seq<char>, n: Seq<char>)
    requires
        forall|j: int| occurs_at(z + y, n, j) ==> j >= z.len(),
    ensures
        match first_occurrence(y, n) {
            Some(k) => first_occurrence(z + y, n) == Some(k + z.len()),
            None => first_occurrence(z + y, n) is None,
        },
{
    let x = z + y;
    assert(x.skip(z.len() as int) =~= y);
    lemma_first_occurrence_facts(y, n);
    lemma_first_occurrence_facts(x, n);
    match first_occurrence(y, n) {
        Some(k) => {
            lemma_occurs_skip(x, n, z.len() as int, k);
            assert forall|j: int| 0 <= j < k + z.len() implies !occurs_at(x, n, j) by {
                if j >= z.len() {
                    lemma_occurs_skip(x, n, z.len() as int, j - z.len());
                }
            }
            lemma_first_occurrence_is(x, n, k + z.len());
        },
        None => {
            if first_occurrence(x, n) is Some {
                let j = first_occurrence(x, n)->0;
                lemma_occurs_skip(x, n, z.len() as int, j - z.len());
                assert(false);
            }
        },
    }
}

// ---------------------------------------------------------------------------
// Held-back tails
// ---------------------------------------------------------------------------

proof fn lemma_held_from_max(buf: Seq<char>, tag: Seq<char>, m: int, k: int)
    requires
        0 < k <= m,
        tail_starts_tag(buf, tag, k),
    ensures
        held_from(buf, tag, m) >= k,
    decreases m,
{
    if !tail_starts_tag(buf, tag, m) {
        lemma_held_from_max(buf, tag, m - 1, k);
    }
}

proof fn lemma_held_from_tail(buf: Seq<char>, tag: Seq<char>, m: int)
    ensures
        held_from(buf, tag, m) == 0 || tail_starts_tag(buf, tag, held_from(buf, tag, m)),
    decreases m,
{
    if m > 0 && !tail_starts_tag(buf, tag, m) {
        lemma_held_from_tail(buf, tag, m - 1);
    }
}

/// The held-back tail is the longest tail that is a proper prefix of `tag`.
proof fn lemma_held_len_max(buf: Seq<char>, tag: Seq<char>, k: int)
    requires
        0 < k <= buf.len(),
        k < tag.len(),
        tail_starts_tag(buf, tag, k),
    ensures
        held_len(buf, tag) >= k,
{
    if buf.len() < tag.len() - 1 {
        lemma_held_from_max(buf, tag, buf.len() as int, k);
    } else {
        lemma_held_from_max(buf, tag, tag.len() - 1, k);
    }
}

proof fn lemma_held_len_tail(buf: Seq<char>, tag: Seq<char>)
    ensures
        held_len(buf, tag) == 0 || tail_starts_tag(buf, tag, held_len(buf, tag)),
{
    if tag.len() > 0 {
        if buf.len() < tag.len() - 1 {
            lemma_held_from_tail(buf, tag, buf.len() as int);
        } else {
            lemma_held_from_tail(buf, tag, tag.len() - 1);
        }
    }
}

/// A tail of `y` is a tail of `z + y`.
proof fn lemma_tail_extend(z: Seq<char>, y: Seq<char>, tag: Seq<char>, k: int)
    requires
        0 <= k <= y.len(),
    ensures
        tail_starts_tag(z + y, tag, k) == tail_starts_tag(y, tag, k),
{
    lemma_lower_append(z, y);
    let x = z + y;
    assert(ascii_lower_seq(x).subrange(x.len() - k, x.len() as int) =~= ascii_lower_seq(y).subrange(
        y.len() - k,
        y.len() as int,
    ));
}

/// Held tails agree on `z + y` and `y` while the one of `z + y` fits in `y`.
proof fn lemma_held_len_suffix(z: Seq<char>, y: Seq<char>, tag: Seq<char>)
    requires
        held_len(z + y, tag) <= y.len(),
    ensures
        held_len(z + y, tag) == held_len(y, tag),
{
    let x = z + y;
    lemma_held_len_bounds(x, tag);
    lemma_held_len_bounds(y, tag);
    let hx = held_len(x, tag);
    let hy = held_len(y, tag);
    lemma_held_len_tail(x, tag);
    lemma_held_len_tail(y, tag);
    if hy > 0 {
        lemma_tail_extend(z, y, tag, hy);
        lemma_held_len_max(x, tag, hy);
    }
    if hx > 0 {
        lemma_tail_extend(z, y, tag, hx);
        lemma_held_len_max(y, tag, hx);
    }
}

/// Appending `b` grows the held tail by at most `|b|`.
proof fn lemma_held_len_append(q: Seq<char>, b: Seq<char>, tag: Seq<char>)
    ensures
        held_len(q + b, tag) <= held_len(q, tag) + b.len(),
{
    let x = q + b;
    let k = held_len(x, tag);
    lemma_held_len_bounds(x, tag);
    lemma_held_len_bounds(q, tag);
    if k > b.len() {
        lemma_held_len_tail(x, tag);
        let k2 = k - b.len();
        lemma_lower_append(q, b);
        let lx = ascii_lower_seq(x);
        let lq = ascii_lower_seq(q);
        assert(lx.subrange(x.len() - k, x.len() - b.len()) =~= lq.subrange(q.len() - k2, q.len() as int));
        assert(lx.subrange(x.len() - k, x.len() as int).take(k2) =~= lx.subrange(
            x.len() - k,
            x.len() - b.len(),
        ));
        assert(tag.take(k).take(k2) =~= tag.take(k2));
        assert(tail_starts_tag(q, tag, k2));
        lemma_held_len_max(q, tag, k2);
    }
}

/// An occurrence in `q + b` that does not end inside `q` starts within the
/// tail of `q` that is held back.
proof fn lemma_occurrence_after_emit(q: Seq<char>, b: Seq<char>, tag: Seq<char>, j: int)
    requires
        occurs_at(ascii_lower_seq(q + b), tag, j),
        j + tag.len() > q.len(),
    ensures
        j >= q.len() - held_len(q, tag),
{
    lemma_held_len_bounds(q, tag);
    if j < q.len() {
        let k = q.len() - j;
        lemma_lower_append(q, b);
        let lx = ascii_lower_seq(q + b);
        let lq = ascii_lower_seq(q);
        assert(lq.subrange(j, q.len() as int) =~= lx.subrange(j, j + tag.len()).take(k));
        assert(tag.take(k) =~= lx.subrange(j, j + tag.len()).take(k));
        assert(tail_starts_tag(q, tag, k));
        lemma_held_len_max(q, tag, k);
    }
}

// ---------------------------------------------------------------------------
// Shape of the tag table
// ---------------------------------------------------------------------------

/// Every opening tag starts with `<` and has no other `<`.
proof fn lemma_open_tag_angle(u: int, k: int)
    requires
        0 <= u < 6,
        0 <= k < open_tag(u).len(),
    ensures
        open_tag(u)[0] == '<',
        k > 0 ==> open_tag(u)[k] != '<',
{
    reveal(open_tag);
}

/// The only opening tag that is a proper prefix of another is `<|channel>`,
/// of `<|channel>thought`.
proof fn lemma_open_tag_prefix(t: int, u: int)
    requires
        0 <= t < 6,
        0 <= u < 6,
        open_tag(t).len() < open_tag(u).len(),
        open_tag(u).take(open_tag(t).len() as int) == open_tag(t),
    ensures
        t == 5 && u == 4,
{
    reveal(open_tag);
    let a = open_tag(t);
    let b = open_tag(u);
    assert(b.take(a.len() as int)[1] == a[1]);
    assert(b.take(a.len() as int)[6] == a[6]);
    if a.len() > 7 {
        assert(b.take(a.len() as int)[7] == a[7]);
    }
}

/// While the parser reads `q` from this state, it takes a `<|channel>` tag
/// that `b`, read after `q`, would have made `<|channel>thought`.
pub open spec fn channel_cut(in_think: bool, close: Option<Seq<char>>, q: Seq<char>, b: Seq<char>) -> bool
    decreases q.len() * 2 + (if in_think {
        1int
    } else {
        0int
    }),
{
    if in_think {
        match close {
            Some(c) => match first_occurrence(ascii_lower_seq(q), c) {
                Some(i) => if 0 <= i && i + c.len() <= q.len() {
                    channel_cut(false, None, q.skip(i + c.len()), b)
                } else {
                    false
                },
                None => false,
            },
            None => false,
        }
    } else {
        match earliest_open(q) {
            Some(x) => {
                let o = open_tag(x.1);
                if 0 <= x.0 && x.0 + o.len() <= q.len() && o.len() > 0 {
                    (x.1 == 5 && occurs_at(ascii_lower_seq(q + b), open_tag(4), x.0)) || channel_cut(
                        true,
                        Some(close_tag(x.1)),
                        q.skip(x.0 + o.len()),
                        b,
                    )
                } else {
                    false
                }
            },
            None => false,
        }
    }
}

// ---------------------------------------------------------------------------
// The earliest opening tag
// ---------------------------------------------------------------------------

pub open spec fn earliest_ok(buf: Seq<char>, n: int, i: int, t: int) -> bool {
    &&& 0 <= t < n
    &&& first_occurrence(ascii_lower_seq(buf), open_tag(t)) == Some(i)
    &&& forall|u: int|
        0 <= u < n && #[trigger] first_occurrence(ascii_lower_seq(buf), open_tag(u)) is Some ==> {
            let j = first_occurrence(ascii_lower_seq(buf), open_tag(u))->0;
            j > i || (j == i && u >= t)
        }
}

proof fn lemma_earliest_upto_char(buf: Seq<char>, n: int)
    requires
        0 <= n,
    ensures
        earliest_open_upto(buf, n) matches Some(p) ==> earliest_ok(buf, n, p.0, p.1),
        earliest_open_upto(buf, n) is None ==> forall|u: int|
            0 <= u < n ==> #[trigger] first_occurrence(ascii_lower_seq(buf), open_tag(u)) is None,
    decreases n,
{
    if n > 0 {
        lemma_earliest_upto_char(buf, n - 1);
    }
}

proof fn lemma_earliest_ok_unique(buf: Seq<char>, n: int, i: int, t: int)
    requires
        earliest_ok(buf, n, i, t),
    ensures
        earliest_open_upto(buf, n) == Some((i, t)),
{
    lemma_earliest_upto_char(buf, n);
    match earliest_open_upto(buf, n) {
        Some(p) => {
            assert(first_occurrence(ascii_lower_seq(buf), open_tag(p.1)) is Some);
            assert(first_occurrence(ascii_lower_seq(buf), open_tag(t)) is Some);
        },
        None => {
            assert(first_occurrence(ascii_lower_seq(buf), open_tag(t)) is Some);
        },
    }
}

// ---------------------------------------------------------------------------
// Emission: text given out before a held tail is given out the same way
// when more text follows
// ---------------------------------------------------------------------------

proof fn lemma_think_emit(c: Seq<char>, q: Seq<char>, b: Seq<char>)
    requires
        first_occurrence(ascii_lower_seq(q), c) is None,
    ensures
        ({
            let e = q.len() - held_len(q, c);
            let r2 = drive(true, Some(c), q.skip(e) + b);
            drive(true, Some(c), q + b) == (r2.0, r2.1, q.take(e) + r2.2)
        }),
{
    lemma_first_occurrence_facts(ascii_lower_seq(q), c);
    if c.len() == 0 {
        assert(ascii_lower_seq(q).subrange(0, 0) =~= c);
        assert(occurs_at(ascii_lower_seq(q), c, 0));
    }
    lemma_held_len_bounds(q, c);
    let e = q.len() - held_len(q, c);
    let x = q + b;
    let z = q.take(e);
    let y = q.skip(e) + b;
    assert(x =~= z + y);
    lemma_lower_append(z, y);
    lemma_lower_append(q, b);
    assert forall|j: int| occurs_at(ascii_lower_seq(z) + ascii_lower_seq(y), c, j) implies j
        >= ascii_lower_seq(z).len() by {
        if j + c.len() <= q.len() {
            lemma_occurs_prefix(ascii_lower_seq(q), ascii_lower_seq(b), c, j);
        } else {
            lemma_occurrence_after_emit(q, b, c, j);
        }
    }
    lemma_first_occurrence_shift(ascii_lower_seq(z), ascii_lower_seq(y), c);
    lemma_first_occurrence_facts(ascii_lower_seq(y), c);
    lemma_first_occurrence_facts(ascii_lower_seq(x), c);
    match first_occurrence(ascii_lower_seq(y), c) {
        Some(k) => {
            assert(x.skip(k + e + c.len()) =~= y.skip(k + c.len()));
            assert(x.take(k + e) =~= z + y.take(k));
            let r = drive(false, None, y.skip(k + c.len()));
            assert(drive(true, Some(c), y) == (r.0, r.1, y.take(k) + r.2));
            assert(drive(true, Some(c), x) == (r.0, r.1, x.take(k + e) + r.2));
            assert(x.take(k + e) + r.2 =~= z + (y.take(k) + r.2));
        },
        None => {
            lemma_held_len_append(q, b, c);
            lemma_held_len_suffix(z, y, c);
            lemma_held_len_bounds(y, c);
            let hy = held_len(y, c);
            assert(x.skip(x.len() - hy) =~= y.skip(y.len() - hy));
            assert(x.take(x.len() - hy) =~= z + y.take(y.len() - hy));
        },
    }
}

proof fn lemma_held_any_ge(buf: Seq<char>, tags: Seq<Seq<char>>, u: int)
    requires
        0 <= u < tags.len(),
    ensures
        held_any(buf, tags) >= held_len(buf, tags[u]),
    decreases tags.len(),
{
    if u < tags.len() - 1 {
        assert(tags.drop_last()[u] == tags[u]);
        lemma_held_any_ge(buf, tags.drop_last(), u);
    }
}

proof fn lemma_held_any_eq(x: Seq<char>, y: Seq<char>, tags: Seq<Seq<char>>)
    requires
        forall|u: int| 0 <= u < tags.len() ==> held_len(x, #[trigger] tags[u]) == held_len(y, tags[u]),
    ensures
        held_any(x, tags) == held_any(y, tags),
    decreases tags.len(),
{
    if tags.len() > 0 {
        let t = tags.drop_last();
        assert forall|u: int| 0 <= u < t.len() implies held_len(x, #[trigger] t[u]) == held_len(y, t[u]) by {
            assert(t[u] == tags[u]);
        }
        lemma_held_any_eq(x, y, t);
        assert(tags.last() == tags[tags.len() - 1]);
    }
}

pub open spec fn shift_pair(o: Option<(int, int)>, d: int) -> Option<(int, int)> {
    match o {
        Some(p) => Some((p.0 + d, p.1)),
        None => None,
    }
}

pub open spec fn shift_index(o: Option<int>, d: int) -> Option<int> {
    match o {
        Some(i) => Some(i + d),
        None => None,
    }
}

proof fn lemma_earliest_shift(z: Seq<char>, y: Seq<char>, n: int)
    requires
        0 <= n <= 6,
        forall|u: int|
            0 <= u < 6 ==> #[trigger] first_occurrence(ascii_lower_seq(z + y), open_tag(u))
                == shift_index(first_occurrence(ascii_lower_seq(y), open_tag(u)), z.len() as int),
    ensures
        earliest_open_upto(z + y, n) == shift_pair(earliest_open_upto(y, n), z.len() as int),
    decreases n,
{
    if n > 0 {
        lemma_earliest_shift(z, y, n - 1);
        assert(first_occurrence(ascii_lower_seq(z + y), open_tag(n - 1)) == shift_index(
            first_occurrence(ascii_lower_seq(y), open_tag(n - 1)),
            z.len() as int,
        ));
    }
}

proof fn lemma_open_emit(cl: Option<Seq<char>>, q: Seq<char>, b: Seq<char>)
    requires
        earliest_open(q) is None,
    ensures
        ({
            let e = q.len() - held_any(q, open_tags());
            let r2 = drive(false, cl, q.skip(e) + b);
            drive(false, cl, q + b) == (r2.0, q.take(e) + r2.1, r2.2)
        }),
{
    let tags = open_tags();
    lemma_earliest_upto_char(q, 6);
    crate::thinking::lemma_held_any_bounds(q, tags);
    let e = q.len() - held_any(q, tags);
    let x = q + b;
    let z = q.take(e);
    let y = q.skip(e) + b;
    assert(x =~= z + y);
    lemma_lower_append(z, y);
    lemma_lower_append(q, b);
    assert forall|u: int| 0 <= u < 6 implies #[trigger] first_occurrence(ascii_lower_seq(z + y), open_tag(u))
        == shift_index(first_occurrence(ascii_lower_seq(y), open_tag(u)), z.len() as int) by {
        let o = open_tag(u);
        assert(tags[u] == o);
        lemma_held_any_ge(q, tags, u);
        lemma_first_occurrence_facts(ascii_lower_seq(q), o);
        assert forall|j: int| occurs_at(ascii_lower_seq(z) + ascii_lower_seq(y), o, j) implies j
            >= ascii_lower_seq(z).len() by {
            if j + o.len() <= q.len() {
                lemma_occurs_prefix(ascii_lower_seq(q), ascii_lower_seq(b), o, j);
            } else {
                lemma_occurrence_after_emit(q, b, o, j);
            }
        }
        lemma_first_occurrence_shift(ascii_lower_seq(z), ascii_lower_seq(y), o);
    }
    lemma_earliest_shift(z, y, 6);
    lemma_earliest_open_upto_facts(y, 6);
    match earliest_open(y) {
        Some(p) => {
            let o = open_tag(p.1);
            lemma_first_occurrence_facts(ascii_lower_seq(y), o);
            lemma_open_tag_nonempty(p.1);
            assert(x.skip(p.0 + e + o.len()) =~= y.skip(p.0 + o.len()));
            let r = drive(true, Some(close_tag(p.1)), y.skip(p.0 + o.len()));
            assert(drive(false, cl, y) == (r.0, y.take(p.0) + r.1, r.2));
            assert(drive(false, cl, x) == (r.0, x.take(p.0 + e) + r.1, r.2));
            assert(x.take(p.0 + e) + r.1 =~= z + (y.take(p.0) + r.1));
        },
        None => {
            assert forall|u: int| 0 <= u < tags.len() implies held_len(x, #[trigger] tags[u])
                == held_len(y, tags[u]) by {
                lemma_held_any_ge(q, tags, u);
                lemma_held_len_append(q, b, tags[u]);
                lemma_held_len_suffix(z, y, tags[u]);
            }
            lemma_held_any_eq(x, y, tags);
            crate::thinking::lemma_held_any_bounds(y, tags);
            let hy = held_any(y, tags);
            assert(x.skip(x.len() - hy) =~= y.skip(y.len() - hy));
            assert(x.take(x.len() - hy) =~= z + y.take(y.len() - hy));
        },
    }
}

proof fn lemma_earliest_extend(q: Seq<char>, b: Seq<char>)
    requires
        earliest_open(q) is Some,
        !(earliest_open(q) matches Some(x) && x.1 == 5 && occurs_at(
            ascii_lower_seq(q + b),
            open_tag(4),
            x.0,
        )),
    ensures
        earliest_open(q + b) == earliest_open(q),
{
    let p = earliest_open(q)->0;
    let i = p.0;
    let t = p.1;
    lemma_earliest_upto_char(q, 6);
    lemma_lower_append(q, b);
    let lq = ascii_lower_seq(q);
    let lx = ascii_lower_seq(q + b);
    let ot = open_tag(t);
    lemma_first_occurrence_facts(lq, ot);
    lemma_open_tag_nonempty(t);
    lemma_first_occurrence_extend(lq, ascii_lower_seq(b), ot);
    assert forall|u: int|
        0 <= u < 6 && #[trigger] first_occurrence(lx, open_tag(u)) is Some implies ({
        let j = first_occurrence(lx, open_tag(u))->0;
        j > i || (j == i && u >= t)
    }) by {
        let ou = open_tag(u);
        let j = first_occurrence(lx, ou)->0;
        lemma_first_occurrence_facts(lx, ou);
        lemma_first_occurrence_facts(lq, ou);
        if first_occurrence(lq, ou) is Some {
            lemma_first_occurrence_extend(lq, ascii_lower_seq(b), ou);
            assert(first_occurrence(lq, ou) is Some);
        } else {
            if j + ou.len() <= q.len() {
                lemma_occurs_prefix(lq, ascii_lower_seq(b), ou, j);
                assert(false);
            }
            lemma_open_tag_angle(t, 0);
            assert(lq.subrange(i, i + ot.len())[0] == ot[0]);
            assert(lx[i] == lq[i]);
            if j < i {
                lemma_open_tag_angle(u, i - j);
                assert(lx.subrange(j, j + ou.len())[i - j] == lx[i]);
                assert(false);
            } else if j == i {
                assert(ou.take(ot.len() as int) =~= lx.subrange(i, i + ot.len()));
                assert(lx.subrange(i, i + ot.len()) =~= lq.subrange(i, i + ot.len()));
                lemma_open_tag_prefix(t, u);
                assert(occurs_at(lx, open_tag(4), i));
                assert(false);
            }
        }
    }
    assert(earliest_ok(q + b, 6, i, t));
    lemma_earliest_ok_unique(q + b, 6, i, t);
}

/// Running the parser over `q + b` gives what running it over `q`, then over
/// the held tail followed by `b`, gives together — unless, reading `q`, it
/// takes a `<|channel>` that `b` turns into `<|channel>thought`.
pub proof fn lemma_drive_compose(in_think: bool, close: Option<Seq<char>>, q: Seq<char>, b: Seq<char>)
    requires
        !channel_cut(in_think, close, q, b),
    ensures
        ({
            let r1 = drive(in_think, close, q);
            let r2 = drive(r1.0.in_think, r1.0.close, r1.0.pending + b);
            drive(in_think, close, q + b) == (r2.0, r1.1 + r2.1, r1.2 + r2.2)
        }),
    decreases q.len() * 2 + (if in_think {
        1int
    } else {
        0int
    }),
{
    let e: Seq<char> = Seq::empty();
    if in_think {
        match close {
            None => {
                assert(e + e =~= e);
            },
            Some(c) => {
                let lq = ascii_lower_seq(q);
                lemma_first_occurrence_facts(lq, c);
                match first_occurrence(lq, c) {
                    Some(i) => {
                        let q2 = q.skip(i + c.len());
                        lemma_drive_compose(false, None, q2, b);
                        lemma_lower_append(q, b);
                        lemma_first_occurrence_extend(lq, ascii_lower_seq(b), c);
                        assert((q + b).skip(i + c.len()) =~= q2 + b);
                        assert((q + b).take(i) =~= q.take(i));
                        let r = drive(false, None, q2);
                        let r2 = drive(r.0.in_think, r.0.close, r.0.pending + b);
                        assert(q.take(i) + (r.2 + r2.2) =~= (q.take(i) + r.2) + r2.2);
                    },
                    None => {
                        lemma_think_emit(c, q, b);
                        let h = q.len() - held_len(q, c);
                        let r2 = drive(true, Some(c), q.skip(h) + b);
                        assert(e + r2.1 =~= r2.1);
                    },
                }
            },
        }
    } else {
        lemma_earliest_upto_char(q, 6);
        match earliest_open(q) {
            Some(p) => {
                let o = open_tag(p.1);
                lemma_earliest_open_upto_facts(q, 6);
                lemma_first_occurrence_facts(ascii_lower_seq(q), o);
                lemma_open_tag_nonempty(p.1);
                let q2 = q.skip(p.0 + o.len());
                lemma_drive_compose(true, Some(close_tag(p.1)), q2, b);
                lemma_earliest_extend(q, b);
                assert((q + b).skip(p.0 + o.len()) =~= q2 + b);
                assert((q + b).take(p.0) =~= q.take(p.0));
                let r = drive(true, Some(close_tag(p.1)), q2);
                let r2 = drive(r.0.in_think, r.0.close, r.0.pending + b);
                assert(q.take(p.0) + (r.1 + r2.1) =~= (q.take(p.0) + r.1) + r2.1);
            },
            None => {
                lemma_open_emit(close, q, b);
                let h = q.len() - held_any(q, open_tags());
                let r2 = drive(false, close, q.skip(h) + b);
                assert(e + r2.2 =~= r2.2);
            },
        }
    }
}

// ---------------------------------------------------------------------------
// Laws
// ---------------------------------------------------------------------------

/// Feeding `a` and then `b` gives, taken together, the content and reasoning
/// that feeding `a + b` at once gives, and leaves the parser in the same
/// state — except when, reading `a`, the parser takes a `<|channel>` tag
/// that `b` continues into `<|channel>thought`.
pub proof fn law_feed_in_chunks(s: ParserView, a: Seq<char>, b: Seq<char>)
    requires
        !channel_cut(s.in_think, s.close, s.pending + a, b),
    ensures
        ({
            let r1 = drive(s.in_think, s.close, s.pending + a);
            let r2 = drive(r1.0.in_think, r1.0.close, r1.0.pending + b);
            drive(s.in_think, s.close, s.pending + (a + b)) == (r2.0, r1.1 + r2.1, r1.2 + r2.2)
        }),
{
    lemma_drive_compose(s.in_think, s.close, s.pending + a, b);
    assert(s.pending + a + b =~= s.pending + (a + b));
}

/// The state a fresh parser starts in, seeded or not.
pub open spec fn initial_state(forced_open: Option<Seq<char>>) -> ParserView {
    match forced_open {
        Some(c) => ParserView { in_think: true, close: Some(c), pending: Seq::empty() },
        None => ParserView { in_think: false, close: None, pending: Seq::empty() },
    }
}

/// Streaming two chunks through a fresh parser and finishing yields the same
/// content and reasoning as splitting the whole text at once (unless the
/// chunks part a `<|channel>thought` tag the parser takes after
/// `<|channel>`).
pub proof fn law_stream_matches_split(forced_open: Option<Seq<char>>, a: Seq<char>, b: Seq<char>)
    requires
        !channel_cut(
            initial_state(forced_open).in_think,
            initial_state(forced_open).close,
            a,
            b,
        ),
    ensures
        ({
            let s0 = initial_state(forced_open);
            let r1 = drive(s0.in_think, s0.close, s0.pending + a);
            let r2 = drive(r1.0.in_think, r1.0.close, r1.0.pending + b);
            let tail_content = if r2.0.in_think {
                Seq::<char>::empty()
            } else {
                r2.0.pending
            };
            let tail_reasoning = if r2.0.in_think {
                r2.0.pending
            } else {
                Seq::<char>::empty()
            };
            (r1.1 + r2.1 + tail_content, r1.2 + r2.2 + tail_reasoning) == split_spec(a + b, forced_open)
        }),
{
    let s0 = initial_state(forced_open);
    assert(s0.pending + a =~= a);
    lemma_drive_compose(s0.in_think, s0.close, a, b);
    let r1 = drive(s0.in_think, s0.close, a);
    let r2 = drive(r1.0.in_think, r1.0.close, r1.0.pending + b);
    let e: Seq<char> = Seq::empty();
    assert(r1.1 + r2.1 + e =~= r1.1 + r2.1);
    assert(r1.2 + r2.2 + e =~= r1.2 + r2.2);
}

/// Text in which no opening tag occurs is all content.
pub proof fn law_untagged_text_is_content(text: Seq<char>)
    requires
        earliest_open(text) is None,
    ensures
        split_spec(text, None) == (text, Seq::<char>::empty()),
{
    crate::thinking::lemma_held_any_bounds(text, open_tags());
    let h = text.len() - held_any(text, open_tags());
    assert(text.take(h) + text.skip(h) =~= text);
}

/// Seeded output in which the closing tag never occurs is all reasoning.
pub proof fn law_unclosed_seeded_text_is_reasoning(text: Seq<char>, close: Seq<char>)
    requires
        first_occurrence(ascii_lower_seq(text), close) is None,
    ensures
        split_spec(text, Some(close)) == (Seq::<char>::empty(), text),
{
    lemma_held_len_bounds(text, close);
    let h = text.len() - held_len(text, close);
    assert(text.take(h) + text.skip(h) =~= text);
}

/// The chunks joined in order.
pub open spec fn concat_chunks(chunks: Seq<Seq<char>>) -> Seq<char>
    decreases chunks.len(),
{
    if chunks.len() == 0 {
        Seq::empty()
    } else {
        concat_chunks(chunks.drop_last()) + chunks.last()
    }
}

/// The parser's state, and the content and reasoning it emits, after being
/// fed each chunk in turn from state `s`.
pub open spec fn feed_chunks(s: ParserView, chunks: Seq<Seq<char>>) -> (ParserView, Seq<char>, Seq<
    char,
>)
    decreases chunks.len(),
{
    if chunks.len() == 0 {
        (s, Seq::empty(), Seq::empty())
    } else {
        let r = feed_chunks(s, chunks.drop_last());
        let d = drive(r.0.in_think, r.0.close, r.0.pending + chunks.last());
        (d.0, r.1 + d.1, r.2 + d.2)
    }
}

/// No chunk completes a `<|channel>thought` tag of which the parser, reading
/// the text before that chunk, took the `<|channel>` part.
pub open spec fn no_channel_cut(s: ParserView, chunks: Seq<Seq<char>>) -> bool {
    forall|k: int|
        0 <= k < chunks.len() ==> !channel_cut(
            s.in_think,
            s.close,
            s.pending + concat_chunks(chunks.take(k)),
            #[trigger] chunks[k],
        )
}

/// Feeding one or more chunks in turn gives, taken together, the content
/// and reasoning of feeding their concatenation at once, and leaves the
/// parser in the same state, unless a chunk completes a `<|channel>thought`
/// tag whose `<|channel>` the parser already took.
pub proof fn law_feed_any_chunks(s: ParserView, chunks: Seq<Seq<char>>)
    requires
        chunks.len() >= 1,
        no_channel_cut(s, chunks),
    ensures
        feed_chunks(s, chunks) == drive(s.in_think, s.close, s.pending + concat_chunks(chunks)),
    decreases chunks.len(),
{
    let init = chunks.drop_last();
    let last = chunks.last();
    let e: Seq<char> = Seq::empty();
    if chunks.len() == 1 {
        assert(concat_chunks(init) =~= e);
        assert(concat_chunks(chunks) =~= last);
        let d = drive(s.in_think, s.close, s.pending + last);
        assert(e + d.1 =~= d.1);
        assert(e + d.2 =~= d.2);
        assert(s.pending + concat_chunks(chunks) =~= s.pending + last);
        assert(feed_chunks(s, init) == (s, e, e));
        assert(feed_chunks(s, chunks) == d);
    } else {
        assert forall|k: int| 0 <= k < init.len() implies !channel_cut(
            s.in_think,
            s.close,
            s.pending + concat_chunks(init.take(k)),
            #[trigger] init[k],
        ) by {
            assert(init.take(k) =~= chunks.take(k));
            assert(init[k] == chunks[k]);
        }
        law_feed_any_chunks(s, init);
        let p = concat_chunks(init);
        assert(chunks.take(init.len() as int) =~= init);
        assert(chunks[init.len() as int] == last);
        lemma_drive_compose(s.in_think, s.close, s.pending + p, last);
        assert(s.pending + p + last =~= s.pending + concat_chunks(chunks));
        let r1 = drive(s.in_think, s.close, s.pending + p);
        assert(feed_chunks(s, init) == r1);
        let r2 = drive(r1.0.in_think, r1.0.close, r1.0.pending + last);
        assert(feed_chunks(s, chunks) == (r2.0, r1.1 + r2.1, r1.2 + r2.2));
        assert(drive(s.in_think, s.close, s.pending + concat_chunks(chunks)) == (
            r2.0,
            r1.1 + r2.1,
            r1.2 + r2.2,
        ));
    }
}

/// What `finish` flushes from a state: the pending text, as reasoning inside
/// a reasoning block and as content otherwise.
pub open spec fn flush(st: ParserView) -> (Seq<char>, Seq<char>) {
    if st.in_think {
        (Seq::empty(), st.pending)
    } else {
        (st.pending, Seq::empty())
    }
}

/// Streaming one or more chunks through a fresh parser, seeded or not, and
/// finishing yields the content and reasoning of splitting the whole text at
/// once, however the text was cut into chunks (unless a chunk completes a
/// `<|channel>thought` tag whose `<|channel>` the parser already took).
pub proof fn law_stream_any_chunks_matches_split(
    forced_open: Option<Seq<char>>,
    chunks: Seq<Seq<char>>,
)
    requires
        chunks.len() >= 1,
        no_channel_cut(initial_state(forced_open), chunks),
    ensures
        ({
            let r = feed_chunks(initial_state(forced_open), chunks);
            (r.1 + flush(r.0).0, r.2 + flush(r.0).1) == split_spec(
                concat_chunks(chunks),
                forced_open,
            )
        }),
{
    let s0 = initial_state(forced_open);
    law_feed_any_chunks(s0, chunks);
    assert(s0.pending + concat_chunks(chunks) =~= concat_chunks(chunks));
    let r = feed_chunks(s0, chunks);
    let e: Seq<char> = Seq::empty();
    assert(r.1 + e =~= r.1);
    assert(r.2 + e =~= r.2);
}

/// No `<|channel>` tag, in any ASCII case, occurs in `t`.
pub open spec fn no_channel_tag(t: Seq<char>) -> bool {
    forall|i: int| !#[trigger] occurs_at(ascii_lower_seq(t), open_tag(5), i)
}

proof fn lemma_no_tag_no_cut(in_think: bool, close: Option<Seq<char>>, q: Seq<char>, b: Seq<char>)
    requires
        no_channel_tag(q),
    ensures
        !channel_cut(in_think, close, q, b),
    decreases q.len() * 2 + (if in_think {
        1int
    } else {
        0int
    }),
{
    if in_think {
        match close {
            Some(c) => match first_occurrence(ascii_lower_seq(q), c) {
                Some(i) => {
                    if 0 <= i && i + c.len() <= q.len() {
                        let k = i + c.len();
                        lemma_no_tag_skip(q, k);
                        lemma_no_tag_no_cut(false, None, q.skip(k), b);
                    }
                },
                None => {},
            },
            None => {},
        }
    } else {
        lemma_earliest_upto_char(q, 6);
        match earliest_open(q) {
            Some(x) => {
                let o = open_tag(x.1);
                if 0 <= x.0 && x.0 + o.len() <= q.len() && o.len() > 0 {
                    if x.1 == 5 {
                        lemma_first_occurrence_facts(ascii_lower_seq(q), open_tag(5));
                        assert(occurs_at(ascii_lower_seq(q), open_tag(5), x.0));
                    }
                    let k = x.0 + o.len();
                    lemma_no_tag_skip(q, k);
                    lemma_no_tag_no_cut(true, Some(close_tag(x.1)), q.skip(k), b);
                }
            },
            None => {},
        }
    }
}

proof fn lemma_no_tag_skip(q: Seq<char>, k: int)
    requires
        0 <= k <= q.len(),
        no_channel_tag(q),
    ensures
        no_channel_tag(q.skip(k)),
{
    lemma_lower_skip(q, k);
    assert forall|i: int| !#[trigger] occurs_at(ascii_lower_seq(q.skip(k)), open_tag(5), i) by {
        if 0 <= i {
            lemma_occurs_skip(ascii_lower_seq(q), open_tag(5), k, i);
        }
    }
}

proof fn lemma_no_tag_prefix(q: Seq<char>, y: Seq<char>)
    requires
        no_channel_tag(q + y),
    ensures
        no_channel_tag(q),
{
    lemma_lower_append(q, y);
    assert forall|i: int| !#[trigger] occurs_at(ascii_lower_seq(q), open_tag(5), i) by {
        if occurs_at(ascii_lower_seq(q), open_tag(5), i) {
            lemma_occurs_prefix(ascii_lower_seq(q), ascii_lower_seq(y), open_tag(5), i);
            assert(occurs_at(ascii_lower_seq(q + y), open_tag(5), i));
        }
    }
}

proof fn lemma_concat_split(chunks: Seq<Seq<char>>, k: int)
    requires
        0 <= k <= chunks.len(),
    ensures
        concat_chunks(chunks.take(k)) + concat_chunks(chunks.skip(k)) == concat_chunks(chunks),
    decreases chunks.len(),
{
    if k == chunks.len() {
        assert(chunks.take(k) =~= chunks);
        assert(chunks.skip(k) =~= Seq::<Seq<char>>::empty());
        assert(concat_chunks(chunks) + Seq::<char>::empty() =~= concat_chunks(chunks));
    } else {
        let init = chunks.drop_last();
        lemma_concat_split(init, k);
        assert(chunks.take(k) =~= init.take(k));
        assert(chunks.skip(k).drop_last() =~= init.skip(k));
        assert(chunks.skip(k).last() == chunks.last());
        assert(concat_chunks(init.take(k)) + (concat_chunks(init.skip(k)) + chunks.last())
            =~= (concat_chunks(init.take(k)) + concat_chunks(init.skip(k))) + chunks.last());
    }
}

/// Streamed text in which no `<|channel>` tag occurs splits the same
/// however it is cut into chunks: streaming the chunks through a fresh
/// parser and finishing yields the split of the whole text.
pub proof fn law_stream_without_channel_tags_matches_split(
    forced_open: Option<Seq<char>>,
    chunks: Seq<Seq<char>>,
)
    requires
        chunks.len() >= 1,
        no_channel_tag(concat_chunks(chunks)),
    ensures
        ({
            let r = feed_chunks(initial_state(forced_open), chunks);
            (r.1 + flush(r.0).0, r.2 + flush(r.0).1) == split_spec(
                concat_chunks(chunks),
                forced_open,
            )
        }),
{
    let s0 = initial_state(forced_open);
    assert forall|k: int| 0 <= k < chunks.len() implies !channel_cut(
        s0.in_think,
        s0.close,
        s0.pending + concat_chunks(chunks.take(k)),
        #[trigger] chunks[k],
    ) by {
        lemma_concat_split(chunks, k);
        lemma_no_tag_prefix(concat_chunks(chunks.take(k)), concat_chunks(chunks.skip(k)));
        assert(s0.pending + concat_chunks(chunks.take(k)) =~= concat_chunks(chunks.take(k)));
        lemma_no_tag_no_cut(s0.in_think, s0.close, concat_chunks(chunks.take(k)), chunks[k]);
    }
    law_stream_any_chunks_matches_split(forced_open, chunks);
}

/// The parts `normalize_thinking_content` and its seeded form return are
/// already trimmed: trimming them again changes nothing.
pub proof fn law_normalized_parts_are_trimmed(
    content: Option<Seq<char>>,
    explicit: Option<Seq<char>>,
    forced_open: Option<Seq<char>>,
)
    ensures
        trim_spec(normalized_spec(content, explicit, forced_open).0) == normalized_spec(
            content,
            explicit,
            forced_open,
        ).0,
        trim_spec(normalized_spec(content, explicit, forced_open).1) == normalized_spec(
            content,
            explicit,
            forced_open,
        ).1,
{
    let base = match content {
        Some(t) => split_spec(t, forced_open),
        None => (Seq::empty(), Seq::empty()),
    };
    crate::text::law_trim_idempotent(base.0);
    crate::text::law_trim_idempotent(merged_reasoning(base.1, explicit));
}

proof fn lemma_open_tag_lower(t: int)
    requires
        0 <= t < 6,
    ensures
        ascii_lower_seq(open_tag(t)) == open_tag(t),
{
    reveal(open_tag);
    assert(ascii_lower_seq(open_tag(t)) =~= open_tag(t));
}

proof fn lemma_open_tags_distinct(u: int, v: int)
    requires
        0 <= u < 6,
        0 <= v < 6,
        u != v,
    ensures
        open_tag(u) != open_tag(v),
{
    reveal(open_tag);
    if open_tag(u) == open_tag(v) {
        assert(open_tag(u).len() == open_tag(v).len());
        assert(open_tag(u)[1] == open_tag(v)[1]);
        assert(open_tag(u)[2] == open_tag(v)[2]);
    }
}

proof fn lemma_close_tags_of_channel()
    ensures
        close_tag(4) == close_tag(5),
        open_tag(4).len() == open_tag(5).len() + 7,
{
    reveal(open_tag);
    reveal(close_tag);
}

/// A prompt that opens a reasoning block with `open_tag(t)`, after text in
/// which no opening tag occurs, and never closes it, leaves open exactly the
/// closing tag paired with `open_tag(t)`.
pub proof fn law_trailing_tag_is_the_partner_of_the_open_tag(x: Seq<char>, t: int, y: Seq<char>)
    requires
        0 <= t < 6,
        forall|u: int, i: int| 0 <= u < 6 ==> !#[trigger] occurs_at(ascii_lower_seq(x), open_tag(u), i),
        forall|i: int| !#[trigger] occurs_at(ascii_lower_seq(y), close_tag(t), i),
    ensures
        trailing_tag_spec(x + open_tag(t) + y) == Some(close_tag(t)),
{
    let o = open_tag(t);
    let p = x + o + y;
    let n = x.len() as int;
    let lx = ascii_lower_seq(x);
    let ly = ascii_lower_seq(y);
    lemma_open_tag_lower(t);
    lemma_open_tag_nonempty(t);
    lemma_lower_append(x + o, y);
    lemma_lower_append(x, o);
    let l = ascii_lower_seq(p);
    assert(l =~= lx + o + ly);
    assert(l.subrange(n, n + o.len()) =~= o);
    assert(occurs_at(l, o, n));
    // No opening tag starts before `n`.
    assert forall|u: int, j: int| 0 <= u < 6 && 0 <= j < n implies !#[trigger] occurs_at(
        l,
        open_tag(u),
        j,
    ) by {
        let ou = open_tag(u);
        if occurs_at(l, ou, j) {
            if j + ou.len() <= n {
                lemma_occurs_prefix(lx, o + ly, ou, j);
                assert(l == lx + (o + ly));
                assert(occurs_at(lx, ou, j));
            } else {
                lemma_open_tag_angle(u, n - j);
                lemma_open_tag_angle(t, 0);
                assert(l.subrange(j, j + ou.len())[n - j] == l[n]);
                assert(l[n] == o[0]);
            }
        }
    }
    lemma_first_occurrence_is(l, o, n);
    lemma_earliest_upto_char(p, 6);
    assert(earliest_open(p) is Some) by {
        if earliest_open(p) is None {
            assert(first_occurrence(l, open_tag(t)) is None);
        }
    }
    let e = earliest_open(p)->0;
    let e1 = e.1;
    let a = open_tag(e1);
    lemma_first_occurrence_facts(l, a);
    assert(occurs_at(l, a, e.0));
    assert(e.0 >= n);
    assert(e.0 == n && e1 <= t);
    lemma_close_tags_of_channel();
    lemma_open_tag_nonempty(e1);
    if e1 != t {
        if a.len() < o.len() {
            assert(o.take(a.len() as int) =~= l.subrange(n, n + a.len()));
            lemma_open_tag_prefix(e1, t);
        } else if a.len() > o.len() {
            assert(a.take(o.len() as int) =~= l.subrange(n, n + o.len()));
            lemma_open_tag_prefix(t, e1);
        } else {
            assert(a =~= o);
            lemma_open_tags_distinct(e1, t);
        }
    }
    assert(close_tag(e1) == close_tag(t));
    let k = n + a.len();
    let rest = p.skip(k);
    let d = if e1 == t {
        0int
    } else {
        7int
    };
    assert(k == n + o.len() + d);
    assert(d <= y.len());
    assert(rest =~= y.skip(d));
    lemma_lower_skip(y, d);
    let c = close_tag(t);
    assert forall|i: int| !#[trigger] occurs_at(ascii_lower_seq(rest), c, i) by {
        if 0 <= i {
            lemma_occurs_skip(ly, c, d, i);
        }
    }
    lemma_first_occurrence_facts(ascii_lower_seq(rest), c);
    assert(first_occurrence(ascii_lower_seq(rest), c) is None);
    let r = drive(true, Some(c), rest);
    assert(r.0.in_think && r.0.close == Some(c));
    assert(drive(false, None, p).0 == r.0);
}

} // verus!
