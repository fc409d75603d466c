//! Replacing every non-overlapping occurrence of a pattern, left to right, as
//! `str::replace` does, on bytes.

use vstd::prelude::*;
use vstd::utf8::*;

use crate::find::{find_first, lemma_find_first, occurs_at};
use crate::lines::{join_lines, lemma_encode_join_starts, lf};

verus! {

/// `b` with each occurrence of `p` that a left-to-right scan finds (the first
/// one, then the first one after it, and so on) replaced by `r`.
pub open spec fn replace_occurrences(b: Seq<u8>, p: Seq<u8>, r: Seq<u8>) -> Seq<u8>
    decreases b.len(),
{
    if p.len() == 0 {
        b
    } else {
        proof {
            lemma_find_first(b, p);
        }
        match find_first(b, p) {
            None => b,
            Some(k) => b.subrange(0, k) + r + replace_occurrences(
                b.subrange(k + p.len(), b.len() as int),
                p,
                r,
            ),
        }
    }
}

/// The first occurrence is the one at `t` when none starts before it.
pub proof fn lemma_find_first_is(h: Seq<u8>, p: Seq<u8>, t: int)
    requires
        occurs_at(h, p, t),
        forall|y: int| 0 <= y < t ==> !#[trigger] occurs_at(h, p, y),
    ensures
        find_first(h, p) == Some(t),
{
    lemma_find_first(h, p);
    if let Some(k) = find_first(h, p) {
        if k < t {
            assert(!occurs_at(h, p, k));
        }
        if k > t {
            assert(!occurs_at(h, p, t));
        }
    }
}

/// An occurrence in the bytes of `l` from `s` on is one in `l`, shifted.
pub proof fn lemma_occurs_shift(l: Seq<u8>, p: Seq<u8>, s: int, y: int)
    requires
        0 <= s <= l.len(),
        0 <= y,
    ensures
        occurs_at(l.subrange(s, l.len() as int), p, y) == occurs_at(l, p, s + y),
{
    let h = l.subrange(s, l.len() as int);
    if y + p.len() <= h.len() {
        assert(h.subrange(y, y + p.len()) =~= l.subrange(s + y, s + y + p.len()));
    }
}

/// Without an occurrence from `s` on, the rest of `l` is left as it is.
pub proof fn lemma_replace_none(l: Seq<u8>, p: Seq<u8>, r: Seq<u8>, s: int)
    requires
        0 <= s <= l.len(),
        forall|y: int| s <= y ==> !#[trigger] occurs_at(l, p, y),
    ensures
        replace_occurrences(l.subrange(s, l.len() as int), p, r) == l.subrange(s, l.len() as int),
{
    let h = l.subrange(s, l.len() as int);
    lemma_find_first(h, p);
    if p.len() > 0 {
        if let Some(k) = find_first(h, p) {
            lemma_occurs_shift(l, p, s, k);
            assert(!occurs_at(l, p, s + k));
        }
    }
}

/// From an occurrence at `c`, the pattern is replaced and the scan goes on
/// after it.
pub proof fn lemma_replace_at(l: Seq<u8>, p: Seq<u8>, r: Seq<u8>, c: int)
    requires
        p.len() > 0,
        occurs_at(l, p, c),
    ensures
        replace_occurrences(l.subrange(c, l.len() as int), p, r) == r + replace_occurrences(
            l.subrange(c + p.len(), l.len() as int),
            p,
            r,
        ),
{
    let h = l.subrange(c, l.len() as int);
    lemma_occurs_shift(l, p, c, 0);
    lemma_find_first_is(h, p, 0);
    assert(h.subrange(0, 0) + r =~= r);
    assert(h.subrange(p.len() as int, h.len() as int) =~= l.subrange(c + p.len(), l.len() as int));
}

/// From `s`, bytes up to the next occurrence `t` are kept as they are.
pub proof fn lemma_replace_gap(l: Seq<u8>, p: Seq<u8>, r: Seq<u8>, s: int, t: int)
    requires
        p.len() > 0,
        0 <= s <= t,
        occurs_at(l, p, t),
        forall|y: int| s <= y < t ==> !#[trigger] occurs_at(l, p, y),
    ensures
        replace_occurrences(l.subrange(s, l.len() as int), p, r) == l.subrange(s, t)
            + replace_occurrences(l.subrange(t, l.len() as int), p, r),
{
    let h = l.subrange(s, l.len() as int);
    lemma_occurs_shift(l, p, s, t - s);
    assert forall|y: int| 0 <= y < t - s implies !#[trigger] occurs_at(h, p, y) by {
        lemma_occurs_shift(l, p, s, y);
    }
    lemma_find_first_is(h, p, t - s);
    lemma_replace_at(l, p, r, t);
    assert(h.subrange(0, t - s) =~= l.subrange(s, t));
    assert(h.subrange(t - s + p.len(), h.len() as int) =~= l.subrange(t + p.len(), l.len() as int));
    assert(l.subrange(s, t) + r + replace_occurrences(
        l.subrange(t + p.len(), l.len() as int),
        p,
        r,
    ) =~= l.subrange(s, t) + (r + replace_occurrences(
        l.subrange(t + p.len(), l.len() as int),
        p,
        r,
    )));
}

/// Replacing in a line, a line feed, and more text is replacing in each, when
/// neither the line nor the pattern holds a line feed.
pub proof fn lemma_replace_across_lf(a: Seq<u8>, c: Seq<u8>, p: Seq<u8>, r: Seq<u8>)
    requires
        p.len() > 0,
        forall|k: int| 0 <= k < p.len() ==> #[trigger] p[k] != lf(),
        forall|k: int| 0 <= k < a.len() ==> #[trigger] a[k] != lf(),
    ensures
        replace_occurrences(a + seq![lf()] + c, p, r) == replace_occurrences(a, p, r) + seq![lf()]
            + replace_occurrences(c, p, r),
    decreases a.len(),
{
    let h = a + seq![lf()] + c;
    // An occurrence in `h` never covers the line feed.
    assert forall|y: int| 0 <= y <= a.len() && #[trigger] occurs_at(h, p, y) implies y + p.len()
        <= a.len() && occurs_at(a, p, y) by {
        if y + p.len() > a.len() {
            assert(h.subrange(y, y + p.len())[a.len() - y] == h[a.len() as int]);
            assert(p[a.len() - y] == lf());
        }
        assert(h.subrange(y, y + p.len()) =~= a.subrange(y, y + p.len()));
    }
    assert forall|y: int| 0 <= y && #[trigger] occurs_at(a, p, y) implies occurs_at(h, p, y) by {
        assert(h.subrange(y, y + p.len()) =~= a.subrange(y, y + p.len()));
    }
    lemma_find_first(a, p);
    match find_first(a, p) {
        Some(t) => {
            lemma_find_first_is(h, p, t);
            let a2 = a.subrange(t + p.len(), a.len() as int);
            lemma_replace_across_lf(a2, c, p, r);
            assert(h.subrange(t + p.len(), h.len() as int) =~= a2 + seq![lf()] + c);
            assert(h.subrange(0, t) =~= a.subrange(0, t));
            assert(a.subrange(0, t) + r + (replace_occurrences(a2, p, r) + seq![lf()]
                + replace_occurrences(c, p, r)) =~= a.subrange(0, t) + r + replace_occurrences(
                a2,
                p,
                r,
            ) + seq![lf()] + replace_occurrences(c, p, r));
        },
        None => {
            let s: int = a.len() as int + 1;
            assert(h.subrange(s, h.len() as int) =~= c);
            assert forall|y: int| 0 <= y && #[trigger] occurs_at(c, p, y) implies occurs_at(
                h,
                p,
                s + y,
            ) by {
                lemma_occurs_shift(h, p, s, y);
            }
            lemma_find_first(c, p);
            match find_first(c, p) {
                Some(u) => {
                    assert forall|y: int| 0 <= y < s + u implies !#[trigger] occurs_at(h, p, y) by {
                        if y > a.len() {
                            lemma_occurs_shift(h, p, s, y - s);
                        }
                    }
                    lemma_find_first_is(h, p, s + u);
                    assert(h.subrange(0, s + u) =~= a + seq![lf()] + c.subrange(0, u));
                    assert(h.subrange(s + u + p.len(), h.len() as int) =~= c.subrange(
                        u + p.len(),
                        c.len() as int,
                    ));
                    assert(a + seq![lf()] + c.subrange(0, u) + r + replace_occurrences(
                        c.subrange(u + p.len(), c.len() as int),
                        p,
                        r,
                    ) =~= a + seq![lf()] + (c.subrange(0, u) + r + replace_occurrences(
                        c.subrange(u + p.len(), c.len() as int),
                        p,
                        r,
                    )));
                },
                None => {
                    assert forall|y: int| 0 <= y implies !#[trigger] occurs_at(h, p, y) by {
                        if y > a.len() {
                            lemma_occurs_shift(h, p, s, y - s);
                        }
                    }
                    lemma_find_first(h, p);
                },
            }
        },
    }
}

/// Replacing keeps a text free of line feeds and carriage returns when the
/// replacement is.
pub proof fn lemma_replace_no_break(l: Seq<u8>, p: Seq<u8>, r: Seq<u8>)
    requires
        forall|k: int| 0 <= k < l.len() ==> #[trigger] l[k] != lf() && l[k] != 13u8,
        forall|k: int| 0 <= k < r.len() ==> #[trigger] r[k] != lf() && r[k] != 13u8,
    ensures
        forall|k: int|
            0 <= k < replace_occurrences(l, p, r).len() ==> #[trigger] replace_occurrences(l, p, r)[k]
                != lf() && replace_occurrences(l, p, r)[k] != 13u8,
        l.len() > 0 && r.len() > 0 ==> replace_occurrences(l, p, r).len() > 0,
    decreases l.len(),
{
    if p.len() > 0 {
        lemma_find_first(l, p);
        if let Some(k) = find_first(l, p) {
            let rest = l.subrange(k + p.len(), l.len() as int);
            lemma_replace_no_break(rest, p, r);
            let a = l.subrange(0, k);
            let out = a + r + replace_occurrences(rest, p, r);
            assert forall|i: int| 0 <= i < out.len() implies #[trigger] out[i] != lf() && out[i]
                != 13u8 by {
                if i < a.len() {
                    assert(out[i] == l[i]);
                } else if i < a.len() + r.len() {
                    assert(out[i] == r[i - a.len()]);
                } else {
                    assert(out[i] == replace_occurrences(rest, p, r)[i - a.len() - r.len()]);
                }
            }
        }
    }
}

/// Lines joined by line feeds, each replaced on its own, are the joined lines
/// replaced, when neither the lines nor the pattern hold a line feed.
pub proof fn lemma_join_replaced(ls: Seq<Seq<char>>, ks: Seq<Seq<char>>, p: Seq<u8>, r: Seq<u8>)
    requires
        ks.len() == ls.len(),
        p.len() > 0,
        forall|k: int| 0 <= k < p.len() ==> #[trigger] p[k] != lf(),
        forall|i: int|
            0 <= i < ls.len() ==> #[trigger] encode_utf8(ks[i]) == replace_occurrences(
                encode_utf8(ls[i]),
                p,
                r,
            ),
        forall|i: int, k: int|
            0 <= i < ls.len() && 0 <= k < encode_utf8(ls[i]).len() ==> #[trigger] encode_utf8(
                ls[i],
            )[k] != lf(),
    ensures
        encode_utf8(join_lines(ks)) == replace_occurrences(encode_utf8(join_lines(ls)), p, r),
    decreases ls.len(),
{
    if ls.len() == 0 {
        let e = encode_utf8(join_lines(ls));
        assert(e =~= Seq::<u8>::empty());
        assert(encode_utf8(join_lines(ks)) =~= Seq::<u8>::empty());
        lemma_find_first(e, p);
        if let Some(k) = find_first(e, p) {
            assert(occurs_at(e, p, k));
        }
    } else if ls.len() == 1 {
        assert(join_lines(ls) == ls[0]);
        assert(join_lines(ks) == ks[0]);
    } else {
        lemma_encode_join_starts(ls);
        lemma_encode_join_starts(ks);
        let a = encode_utf8(ls[0]);
        let c = encode_utf8(join_lines(ls.drop_first()));
        assert forall|i: int| 0 <= i < ls.drop_first().len() implies #[trigger] encode_utf8(
            ks.drop_first()[i],
        ) == replace_occurrences(encode_utf8(ls.drop_first()[i]), p, r) by {
            assert(ks.drop_first()[i] == ks[i + 1] && ls.drop_first()[i] == ls[i + 1]);
        }
        assert forall|i: int, k: int|
            0 <= i < ls.drop_first().len() && 0 <= k < encode_utf8(ls.drop_first()[i]).len()
                implies #[trigger] encode_utf8(ls.drop_first()[i])[k] != lf() by {
            assert(ls.drop_first()[i] == ls[i + 1]);
        }
        lemma_join_replaced(ls.drop_first(), ks.drop_first(), p, r);
        assert forall|k: int| 0 <= k < a.len() implies #[trigger] a[k] != lf() by {
            assert(encode_utf8(ls[0])[k] != lf());
        }
        lemma_replace_across_lf(a, c, p, r);
        assert(a + (seq![lf()] + c) =~= a + seq![lf()] + c);
        assert(replace_occurrences(a, p, r) + seq![lf()] + replace_occurrences(c, p, r)
            =~= replace_occurrences(a, p, r) + (seq![lf()] + replace_occurrences(c, p, r)));
    }
}

} // verus!
