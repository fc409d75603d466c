//! The lines of a text, as `str::lines` splits them, on the UTF-8 bytes of the
//! text; and the joining of lines with `'\n'`.

use itertools::Itertools;
use vstd::prelude::*;
use vstd::string::*;
use vstd::utf8::*;

use crate::utf8_facts::{
    lemma_ascii_is_boundary, lemma_boundary_after_ascii, lemma_boundary_in_prefix, lemma_encode_concat,
};

verus! {

/// The byte of a line feed.
pub open spec fn lf() -> u8 {
    10u8
}

/// The byte of a carriage return.
pub open spec fn cr() -> u8 {
    13u8
}

/// The index of the first line feed at or after `i`, or the length of `b` if
/// there is none.
pub open spec fn next_newline(b: Seq<u8>, i: int) -> int
    decreases b.len() - i,
{
    if i >= b.len() {
        b.len() as int
    } else if b[i] == lf() {
        i
    } else {
        next_newline(b, i + 1)
    }
}

/// Where the line that starts at `start` and is ended by the line feed (or the
/// end of the text) at `nl` stops: a carriage return right before a line feed
/// is not part of the line.
pub open spec fn line_end(b: Seq<u8>, start: int, nl: int) -> int {
    if nl < b.len() && nl > start && b[nl - 1] == cr() {
        nl - 1
    } else {
        nl
    }
}

/// The first line feed at or after `i` lies between `i` and the end, and no
/// byte before it holds one.
pub proof fn lemma_next_newline(b: Seq<u8>, i: int)
    requires
        0 <= i <= b.len(),
    ensures
        i <= next_newline(b, i) <= b.len(),
        next_newline(b, i) < b.len() ==> b[next_newline(b, i)] == lf(),
        forall|j: int| i <= j < next_newline(b, i) ==> b[j] != lf(),
    decreases b.len() - i,
{
    if i < b.len() && b[i] != lf() {
        lemma_next_newline(b, i + 1);
    }
}

/// The lines of the text `b` from byte `start` on.
pub open spec fn lines_from(b: Seq<u8>, start: int) -> Seq<Seq<u8>>
    decreases b.len() + 1 - start,
{
    if start < 0 || start >= b.len() {
        seq![]
    } else {
        let nl = next_newline(b, start);
        proof {
            lemma_next_newline(b, start);
        }
        seq![b.subrange(start, line_end(b, start, nl))] + lines_from(b, nl + 1)
    }
}

/// The lines of a text, given by its bytes, as `str::lines` yields them: the
/// text is cut at each line feed, a carriage return right before a line feed
/// is dropped with it, and a final line feed does not start an empty line.
pub open spec fn spec_lines(b: Seq<u8>) -> Seq<Seq<u8>> {
    lines_from(b, 0)
}

/// `b` holds neither a line feed nor a carriage return.
pub open spec fn no_line_break(b: Seq<u8>) -> bool {
    forall|k: int| 0 <= k < b.len() ==> #[trigger] b[k] != lf() && b[k] != cr()
}

/// The UTF-8 encodings of the lines `ls`.
pub open spec fn encode_lines(ls: Seq<Seq<char>>) -> Seq<Seq<u8>> {
    ls.map_values(|l: Seq<char>| encode_utf8(l))
}

/// The lines of a text are valid encodings without line feeds, each at most
/// as long as the text, and there are at most as many lines as bytes.
pub proof fn lemma_lines_from_facts(b: Seq<u8>, start: int)
    requires
        valid_utf8(b),
        0 <= start <= b.len(),
        is_char_boundary(b, start),
    ensures
        lines_from(b, start).len() <= b.len() - start,
        forall|q: int|
            0 <= q < lines_from(b, start).len() ==> valid_utf8(#[trigger] lines_from(b, start)[q])
                && lines_from(b, start)[q].len() <= b.len() && forall|k: int|
                0 <= k < lines_from(b, start)[q].len() ==> lines_from(b, start)[q][k] != lf(),
    decreases b.len() + 1 - start,
{
    if start < b.len() {
        let nl = next_newline(b, start);
        lemma_next_newline(b, start);
        let end = line_end(b, start, nl);
        if nl < b.len() {
            lemma_ascii_is_boundary(b, nl);
            lemma_boundary_after_ascii(b, nl);
            if end < nl {
                lemma_ascii_is_boundary(b, end);
            }
            lemma_lines_from_facts(b, nl + 1);
        } else {
            is_char_boundary_start_end_of_seq(b);
        }
        lemma_boundary_in_prefix(b, start, end);
        let prefix = b.subrange(0, end);
        valid_utf8_split(prefix, start);
        is_char_boundary_start_end_of_seq(prefix);
        assert(prefix.subrange(start, prefix.len() as int) =~= b.subrange(start, end));
        let line = b.subrange(start, end);
        let ls = lines_from(b, start);
        assert(ls == seq![line] + lines_from(b, nl + 1));
        assert forall|q: int| 0 <= q < ls.len() implies valid_utf8(#[trigger] ls[q]) && ls[q].len()
            <= b.len() && forall|k: int| 0 <= k < ls[q].len() ==> ls[q][k] != lf() by {
            if q == 0 {
                assert(ls[q] == line);
                assert forall|k: int| 0 <= k < line.len() implies line[k] != lf() by {
                    assert(line[k] == b[start + k]);
                }
            } else {
                assert(ls[q] == lines_from(b, nl + 1)[q - 1]);
            }
        }
    }
}

/// The first line feed at or after `i` is at `m` when `m` holds one and no
/// byte from `i` to `m` does.
pub proof fn lemma_next_newline_at(b: Seq<u8>, i: int, m: int)
    requires
        0 <= i <= m < b.len(),
        b[m] == lf(),
        forall|j: int| i <= j < m ==> b[j] != lf(),
    ensures
        next_newline(b, i) == m,
    decreases m - i,
{
    if i < m {
        lemma_next_newline_at(b, i + 1, m);
    }
}

/// Looking for a line feed from `k + i` in `b` is looking from `i` in the
/// bytes of `b` from `k` on.
pub proof fn lemma_next_newline_shift(b: Seq<u8>, k: int, i: int)
    requires
        0 <= k <= b.len(),
        0 <= i,
    ensures
        next_newline(b, k + i) == k + next_newline(b.subrange(k, b.len() as int), i),
    decreases b.len() - (k + i),
{
    let rest = b.subrange(k, b.len() as int);
    if k + i < b.len() {
        assert(b[k + i] == rest[i]);
        if b[k + i] != lf() {
            lemma_next_newline_shift(b, k, i + 1);
        }
    }
}

/// The lines of `b` from `k + i` on are the lines, from `i` on, of the bytes
/// of `b` from `k` on.
pub proof fn lemma_lines_from_shift(b: Seq<u8>, k: int, i: int)
    requires
        0 <= k <= b.len(),
        0 <= i,
    ensures
        lines_from(b, k + i) == lines_from(b.subrange(k, b.len() as int), i),
    decreases b.len() + 1 - (k + i),
{
    let rest = b.subrange(k, b.len() as int);
    if k + i < b.len() {
        lemma_next_newline_shift(b, k, i);
        lemma_next_newline(b, k + i);
        lemma_next_newline(rest, i);
        let nl = next_newline(b, k + i);
        let nl2 = next_newline(rest, i);
        assert(nl == k + nl2);
        if nl < b.len() && nl > k + i {
            assert(b[nl - 1] == rest[nl2 - 1]);
        }
        assert(line_end(b, k + i, nl) == k + line_end(rest, i, nl2));
        assert(b.subrange(k + i, line_end(b, k + i, nl)) =~= rest.subrange(
            i,
            line_end(rest, i, nl2),
        ));
        lemma_lines_from_shift(b, k, nl2 + 1);
    }
}

/// A text without line breaks is one line, or no line when it is empty.
pub proof fn lemma_lines_single(p: Seq<u8>)
    requires
        no_line_break(p),
    ensures
        spec_lines(p) == (if p.len() == 0 {
            Seq::<Seq<u8>>::empty()
        } else {
            seq![p]
        }),
{
    if p.len() > 0 {
        lemma_next_newline(p, 0);
        if next_newline(p, 0) < p.len() {
            assert(p[next_newline(p, 0)] != lf());
        }
        assert(next_newline(p, 0) == p.len());
        assert(line_end(p, 0, p.len() as int) == p.len());
        assert(p.subrange(0, p.len() as int) =~= p);
        assert(lines_from(p, p.len() + 1int) =~= Seq::<Seq<u8>>::empty());
        assert(spec_lines(p) =~= seq![p]);
    }
}

/// A line without line breaks, a line feed, then more text: the line is the
/// first line, and the lines of the rest follow.
pub proof fn lemma_lines_cons(p: Seq<u8>, rest: Seq<u8>)
    requires
        no_line_break(p),
    ensures
        spec_lines(p + seq![lf()] + rest) == seq![p] + spec_lines(rest),
{
    let b = p + seq![lf()] + rest;
    assert forall|j: int| 0 <= j < p.len() implies b[j] != lf() by {
        assert(b[j] == p[j]);
    }
    assert(b[p.len() as int] == lf());
    lemma_next_newline_at(b, 0, p.len() as int);
    if p.len() > 0 {
        assert(b[p.len() - 1] == p[p.len() - 1]);
    }
    assert(line_end(b, 0, p.len() as int) == p.len());
    assert(b.subrange(0, p.len() as int) =~= p);
    lemma_lines_from_shift(b, p.len() + 1int, 0);
    assert(b.subrange(p.len() + 1int, b.len() as int) =~= rest);
}

/// Joining lines puts the first line, a line feed, and the rest joined.
pub proof fn lemma_join_front(ls: Seq<Seq<char>>)
    requires
        ls.len() >= 2,
    ensures
        join_lines(ls) == ls[0] + seq!['\n'] + join_lines(ls.drop_first()),
    decreases ls.len(),
{
    if ls.len() == 2 {
        assert(ls.drop_last() =~= seq![ls[0]]);
        assert(ls.drop_first() =~= seq![ls[1]]);
        assert(join_lines(ls.drop_last()) == ls[0]);
        assert(join_lines(ls.drop_first()) == ls[1]);
    } else {
        lemma_join_front(ls.drop_last());
        assert(ls.drop_last().drop_first() =~= ls.drop_first().drop_last());
        assert(ls.drop_last()[0] == ls[0]);
        assert(ls.drop_first().last() == ls.last());
        let a = ls[0] + seq!['\n'];
        let m = join_lines(ls.drop_first().drop_last());
        assert(join_lines(ls.drop_first()) == m + seq!['\n'] + ls.last());
        assert(join_lines(ls) == join_lines(ls.drop_last()) + seq!['\n'] + ls.last());
        assert(a + m + seq!['\n'] + ls.last() =~= a + (m + seq!['\n'] + ls.last()));
    }
}

/// The encoding of a line feed.
pub proof fn lemma_encode_lf()
    ensures
        encode_utf8(seq!['\n']) == seq![lf()],
{
    let s = seq!['\n'];
    assert(s.drop_first() =~= Seq::<char>::empty());
    assert(encode_utf8(s.drop_first()) =~= Seq::<u8>::empty());
    let v: u32 = '\n' as u32;
    assert(v == 10);
    assert((v & 0x7F) as u8 == 10u8) by (bit_vector)
        requires
            v == 10,
    ;
    assert(encode_scalar(v) =~= seq![10u8]);
    assert(encode_utf8(s) =~= seq![lf()]);
}

/// The lines of lines joined by line feeds are these lines again, when none
/// of them holds a line break, but for a last empty line, which joining
/// loses.
pub proof fn lemma_lines_of_join(ls: Seq<Seq<char>>)
    requires
        forall|i: int| 0 <= i < ls.len() ==> no_line_break(#[trigger] encode_utf8(ls[i])),
    ensures
        spec_lines(encode_utf8(join_lines(ls))) == (if ls.len() > 0 && ls.last().len() == 0 {
            encode_lines(ls).drop_last()
        } else {
            encode_lines(ls)
        }),
    decreases ls.len(),
{
    if ls.len() == 0 {
        assert(encode_utf8(join_lines(ls)) =~= Seq::<u8>::empty());
        lemma_lines_single(Seq::<u8>::empty());
        assert(encode_lines(ls) =~= Seq::<Seq<u8>>::empty());
    } else if ls.len() == 1 {
        lemma_lines_single(encode_utf8(ls[0]));
        if ls[0].len() == 0 {
            assert(encode_lines(ls).drop_last() =~= Seq::<Seq<u8>>::empty());
        } else {
            assert(encode_utf8(ls[0]).len() > 0) by {
                reveal_with_fuel(encode_utf8, 1);
            }
            assert(encode_lines(ls) =~= seq![encode_utf8(ls[0])]);
        }
    } else {
        let rest = ls.drop_first();
        lemma_join_front(ls);
        lemma_encode_concat(ls[0] + seq!['\n'], join_lines(rest));
        lemma_encode_concat(ls[0], seq!['\n']);
        lemma_encode_lf();
        assert forall|i: int| 0 <= i < rest.len() implies no_line_break(
            #[trigger] encode_utf8(rest[i]),
        ) by {
            assert(rest[i] == ls[i + 1]);
        }
        lemma_lines_of_join(rest);
        lemma_lines_cons(encode_utf8(ls[0]), encode_utf8(join_lines(rest)));
        assert(encode_lines(ls) =~= seq![encode_utf8(ls[0])] + encode_lines(rest));
        assert(rest.last() == ls.last());
        if ls.last().len() == 0 {
            assert(encode_lines(ls).drop_last() =~= seq![encode_utf8(ls[0])] + encode_lines(
                rest,
            ).drop_last());
        }
    }
}

/// The characters that the encodings `ls` encode.
pub open spec fn decode_lines(ls: Seq<Seq<u8>>) -> Seq<Seq<char>> {
    ls.map_values(|l: Seq<u8>| decode_utf8(l))
}

/// The text `b` holds no carriage return and does not end with a line feed:
/// its lines, joined by line feeds, give it back.
pub open spec fn plain_line_ends(b: Seq<u8>) -> bool {
    &&& forall|k: int| 0 <= k < b.len() ==> #[trigger] b[k] != cr()
    &&& (b.len() == 0 || b.last() != lf())
}

/// Joining the lines of a text from a line start `s` on gives the text from
/// `s` on, when it holds no carriage return and does not end with a line
/// feed.
proof fn lemma_join_lines_from(b: Seq<u8>, s: int)
    requires
        valid_utf8(b),
        plain_line_ends(b),
        0 <= s <= b.len(),
        is_char_boundary(b, s),
        s == b.len() ==> s == 0,
    ensures
        encode_utf8(join_lines(decode_lines(lines_from(b, s)))) == b.subrange(s, b.len() as int),
    decreases b.len() + 1 - s,
{
    let ls = lines_from(b, s);
    lemma_lines_from_facts(b, s);
    if s == b.len() {
        assert(decode_lines(ls) =~= Seq::<Seq<char>>::empty());
        assert(b.subrange(s, b.len() as int) =~= Seq::<u8>::empty());
        assert(encode_utf8(Seq::<char>::empty()) =~= Seq::<u8>::empty());
    } else {
        let nl = next_newline(b, s);
        lemma_next_newline(b, s);
        if nl > s && nl < b.len() {
            assert(b[nl - 1] != cr());
        }
        assert(line_end(b, s, nl) == nl);
        let first = b.subrange(s, nl);
        assert(ls == seq![first] + lines_from(b, nl + 1));
        assert(ls[0] == first);
        decode_utf8_encode_utf8(first);
        if nl == b.len() {
            assert(lines_from(b, nl + 1) =~= Seq::<Seq<u8>>::empty());
            assert(decode_lines(ls) =~= seq![decode_utf8(first)]);
        } else {
            assert(b[nl] == lf());
            assert(nl + 1 < b.len());
            lemma_ascii_is_boundary(b, nl);
            lemma_boundary_after_ascii(b, nl);
            lemma_join_lines_from(b, nl + 1);
            lemma_lines_from_facts(b, nl + 1);
            let rest = lines_from(b, nl + 1);
            assert(rest.len() > 0);
            let dl = decode_lines(ls);
            assert(dl.drop_first() =~= decode_lines(rest));
            assert(dl[0] == decode_utf8(first));
            lemma_join_front(dl);
            lemma_encode_concat(dl[0] + seq!['\n'], join_lines(dl.drop_first()));
            lemma_encode_concat(dl[0], seq!['\n']);
            lemma_encode_lf();
            assert(first + seq![lf()] + b.subrange(nl + 1, b.len() as int) =~= b.subrange(
                s,
                b.len() as int,
            ));
        }
    }
}

/// The lines of a text that holds no carriage return and does not end with a
/// line feed, joined by line feeds, are the text again.
pub proof fn lemma_join_of_lines(data: Seq<char>)
    requires
        plain_line_ends(encode_utf8(data)),
    ensures
        join_lines(decode_lines(spec_lines(encode_utf8(data)))) == data,
{
    let b = encode_utf8(data);
    encode_utf8_valid_utf8(data);
    is_char_boundary_start_end_of_seq(b);
    lemma_join_lines_from(b, 0);
    assert(b.subrange(0, b.len() as int) =~= b);
    let j = join_lines(decode_lines(spec_lines(b)));
    encode_utf8_decode_utf8(j);
    encode_utf8_decode_utf8(data);
}

/// Joining lines encodes as the first line, then (when there are more) a line
/// feed and the rest joined.
pub proof fn lemma_encode_join_starts(ls: Seq<Seq<char>>)
    requires
        ls.len() >= 1,
    ensures
        encode_utf8(join_lines(ls)) == encode_utf8(ls[0]) + (if ls.len() >= 2 {
            seq![lf()] + encode_utf8(join_lines(ls.drop_first()))
        } else {
            Seq::<u8>::empty()
        }),
{
    if ls.len() == 1 {
        assert(join_lines(ls) == ls[0]);
        assert(encode_utf8(ls[0]) + Seq::<u8>::empty() =~= encode_utf8(ls[0]));
    } else {
        lemma_join_front(ls);
        lemma_encode_concat(ls[0] + seq!['\n'], join_lines(ls.drop_first()));
        lemma_encode_concat(ls[0], seq!['\n']);
        lemma_encode_lf();
        assert(encode_utf8(ls[0]) + seq![lf()] + encode_utf8(join_lines(ls.drop_first()))
            =~= encode_utf8(ls[0]) + (seq![lf()] + encode_utf8(join_lines(ls.drop_first()))));
    }
}

/// The lines of joined lines start with the first `r` of them, when none of
/// these holds a line break; the lines of the rest joined follow.
pub proof fn lemma_lines_join_prefix(ls: Seq<Seq<char>>, r: int)
    requires
        0 <= r < ls.len(),
        forall|q: int| 0 <= q < r ==> no_line_break(#[trigger] encode_utf8(ls[q])),
    ensures
        spec_lines(encode_utf8(join_lines(ls))) == encode_lines(ls.take(r)) + spec_lines(
            encode_utf8(join_lines(ls.skip(r))),
        ),
    decreases r,
{
    if r == 0 {
        assert(ls.skip(0) =~= ls);
        assert(encode_lines(ls.take(0)) =~= Seq::<Seq<u8>>::empty());
        assert(Seq::<Seq<u8>>::empty() + spec_lines(encode_utf8(join_lines(ls))) =~= spec_lines(
            encode_utf8(join_lines(ls)),
        ));
    } else {
        let rest = ls.drop_first();
        lemma_encode_join_starts(ls);
        lemma_lines_cons(encode_utf8(ls[0]), encode_utf8(join_lines(rest)));
        assert(encode_utf8(ls[0]) + (seq![lf()] + encode_utf8(join_lines(rest))) =~= encode_utf8(
            ls[0],
        ) + seq![lf()] + encode_utf8(join_lines(rest)));
        assert forall|q: int| 0 <= q < r - 1 implies no_line_break(
            #[trigger] encode_utf8(rest[q]),
        ) by {
            assert(rest[q] == ls[q + 1]);
        }
        lemma_lines_join_prefix(rest, r - 1);
        assert(rest.skip(r - 1) =~= ls.skip(r));
        assert(encode_lines(ls.take(r)) =~= seq![encode_utf8(ls[0])] + encode_lines(
            rest.take(r - 1),
        ));
    }
}

/// The first line of a text that starts with `alen` bytes without line breaks
/// reaches at least past them.
pub proof fn lemma_first_line(b: Seq<u8>, alen: int)
    requires
        0 <= alen <= b.len(),
        b.len() > 0,
        forall|k: int| 0 <= k < alen ==> #[trigger] b[k] != lf() && b[k] != cr(),
    ensures
        spec_lines(b).len() > 0,
        spec_lines(b)[0] == b.subrange(0, line_end(b, 0, next_newline(b, 0))),
        alen <= line_end(b, 0, next_newline(b, 0)) <= b.len(),
        line_end(b, 0, next_newline(b, 0)) < b.len() ==> (b[line_end(b, 0, next_newline(b, 0))]
            == lf() || b[line_end(b, 0, next_newline(b, 0))] == cr()),
{
    lemma_next_newline(b, 0);
    let nl = next_newline(b, 0);
    if nl < alen {
        assert(b[nl] != lf());
    }
    if nl > 0 && nl < b.len() && b[nl - 1] == cr() {
        assert(nl - 1 >= alen);
    }
}

/// The bytes of each string of a sequence.
pub open spec fn bytes_of_strs(ls: Seq<&str>) -> Seq<Seq<u8>> {
    ls.map_values(|l: &str| l.spec_bytes())
}

/// The characters of each string of a sequence.
pub open spec fn chars_of_strings(ls: Seq<String>) -> Seq<Seq<char>> {
    ls.map_values(|l: String| l@)
}

/// The lines `ls` joined into one text, with a line feed between each two.
pub open spec fn join_lines(ls: Seq<Seq<char>>) -> Seq<char>
    decreases ls.len(),
{
    if ls.len() == 0 {
        seq![]
    } else if ls.len() == 1 {
        ls[0]
    } else {
        join_lines(ls.drop_last()) + seq!['\n'] + ls.last()
    }
}

/// The part of `s` between two character boundaries, given in bytes.
pub fn str_slice<'a>(s: &'a str, start: usize, end: usize) -> (r: &'a str)
    requires
        start <= end <= s.spec_bytes().len(),
        is_char_boundary(s.spec_bytes(), start as int),
        is_char_boundary(s.spec_bytes(), end as int),
    ensures
        r.spec_bytes() == s.spec_bytes().subrange(start as int, end as int),
{
    let ghost b = s.spec_bytes();
    proof {
        encode_utf8_valid_utf8(s@);
        lemma_boundary_in_prefix(b, start as int, end as int);
    }
    let (prefix, _) = s.split_at(end);
    let (_, r) = prefix.split_at(start);
    assert(r.spec_bytes() =~= b.subrange(start as int, end as int));
    r
}

/// Splits `s` into its lines, as `str::lines` does.
pub fn split_lines<'a>(s: &'a str) -> (lines: Vec<&'a str>)
    ensures
        bytes_of_strs(lines@) == spec_lines(s.spec_bytes()),
{
    let bytes = s.as_bytes();
    let n = bytes.len();
    let ghost b = s.spec_bytes();
    proof {
        encode_utf8_valid_utf8(s@);
        is_char_boundary_start_end_of_seq(b);
    }
    let mut lines: Vec<&'a str> = Vec::new();
    let mut start: usize = 0;
    let mut i: usize = 0;
    assert(bytes_of_strs(lines@) + lines_from(b, 0) =~= spec_lines(b));
    while i < n
        invariant
            b == s.spec_bytes(),
            bytes@ == b,
            n == b.len(),
            valid_utf8(b),
            start <= i <= n,
            is_char_boundary(b, start as int),
            next_newline(b, start as int) == next_newline(b, i as int),
            bytes_of_strs(lines@) + lines_from(b, start as int) == spec_lines(b),
        decreases n - i,
    {
        if bytes[i] == 10u8 {
            let end: usize = if i > start && bytes[i - 1] == 13u8 {
                i - 1
            } else {
                i
            };
            proof {
                lemma_ascii_is_boundary(b, end as int);
                lemma_ascii_is_boundary(b, i as int);
                lemma_boundary_after_ascii(b, i as int);
                assert(line_end(b, start as int, i as int) == end);
            }
            let line = str_slice(s, start, end);
            let ghost old_lines = lines@;
            lines.push(line);
            assert(bytes_of_strs(lines@) =~= bytes_of_strs(old_lines).push(line.spec_bytes()));
            assert(lines_from(b, start as int) == seq![line.spec_bytes()] + lines_from(
                b,
                i + 1,
            ));
            assert(bytes_of_strs(lines@) + lines_from(b, i + 1) =~= bytes_of_strs(old_lines)
                + lines_from(b, start as int));
            start = i + 1;
        }
        i += 1;
    }
    if start < n {
        proof {
            assert(line_end(b, start as int, n as int) == n);
        }
        let line = str_slice(s, start, n);
        let ghost old_lines = lines@;
        lines.push(line);
        assert(lines_from(b, start as int) == seq![line.spec_bytes()] + lines_from(
            b,
            n + 1,
        ));
        assert(bytes_of_strs(lines@) =~= bytes_of_strs(old_lines).push(line.spec_bytes()));
        assert(bytes_of_strs(lines@) =~= bytes_of_strs(old_lines) + lines_from(b, start as int));
    } else {
        assert(bytes_of_strs(lines@) =~= bytes_of_strs(lines@) + lines_from(b, start as int));
    }
    lines
}

/// `Itertools::join` with the separator `"\n"`, on the lines `lines`: writes
/// each line's text with a line feed between each two lines, and an empty
/// string where there is no line.
#[verifier::external_body]
pub(crate) fn join_with_newlines(lines: &Vec<String>) -> (joined: String)
    ensures
        joined@ == join_lines(chars_of_strings(lines@)),
{
    lines.iter().join("\n")
}

} // verus!
