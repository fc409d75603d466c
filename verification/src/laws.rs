//! What holds of every search and of the replacement of what it found.

use vstd::prelude::*;
use vstd::utf8::*;

use crate::find::{find_first, lemma_find_first, occurs_at};
use crate::lines::{
    cr, decode_lines, encode_lines, join_lines, lemma_encode_join_starts, lemma_first_line,
    lemma_join_of_lines, lemma_lines_from_facts, lemma_lines_join_prefix, lemma_lines_of_join,
    lemma_next_newline, lf, line_end, lines_from, next_newline, no_line_break, plain_line_ends,
    spec_lines,
};
use crate::occurrences::{
    lemma_join_replaced, lemma_replace_at, lemma_replace_gap, lemma_replace_no_break,
    lemma_replace_none, replace_occurrences,
};
use crate::matching::{regex_spans, MatchingMode, SearchRegex};
use crate::text::{
    can_replace, can_replace_all, haystack, matches_at, matches_upto, pattern_columns, replace_all,
    regex_row, replace_all_edits, replace_lines, replace_text, replaced_line, search_spec, MatchView,
};
use crate::utf8_facts::{
    lemma_boundary_after_valid, lemma_boundary_common_prefix, lemma_boundary_in_prefix,
    lemma_encode_concat,
};

verus! {

/// The match `e` is an occurrence of `p` in the line of its row, from one
/// character boundary to another, and records that line and the length of
/// `p`.
pub open spec fn is_occurrence(lines: Seq<Seq<u8>>, p: Seq<u8>, e: MatchView) -> bool {
    let r = e.1 as int;
    let c = e.0 as int;
    &&& 0 <= r < lines.len()
    &&& e.3 == decode_utf8(lines[r])
    &&& e.2 as int == p.len()
    &&& occurs_at(lines[r], p, c)
    &&& is_char_boundary(lines[r], c)
    &&& is_char_boundary(lines[r], c + p.len())
}

/// The match `e` comes before the match `f`: in an earlier row, or in the
/// same row and ending at or before the column of `f`.
pub open spec fn comes_before(e: MatchView, f: MatchView) -> bool {
    ||| e.1 < f.1
    ||| (e.1 == f.1 && e.0 + e.2 <= f.0)
}

/// Byte `j` of row `r` lies in one of the matches `ms` (each `len` bytes
/// long).
pub open spec fn covered(ms: Seq<MatchView>, r: int, j: int, len: int) -> bool {
    exists|i: int| 0 <= i < ms.len() && #[trigger] ms[i].1 == r && ms[i].0 <= j < ms[i].0 + len
}

/// The first byte of a valid non-empty encoding starts a character.
proof fn lemma_first_byte_not_continuation(p: Seq<u8>)
    requires
        valid_utf8(p),
        p.len() > 0,
    ensures
        !is_continuation_byte(p[0]),
{
    assert(valid_first_scalar(p));
}

/// The columns `cols` are occurrences of `p` in `line` from `c` on, between
/// character boundaries.
#[verifier::opaque]
pub open spec fn columns_sound(line: Seq<u8>, p: Seq<u8>, c: int, cols: Seq<int>) -> bool {
    forall|k: int|
        0 <= k < cols.len() ==> {
            let x = #[trigger] cols[k];
            &&& c <= x
            &&& x + p.len() <= line.len()
            &&& occurs_at(line, p, x)
            &&& is_char_boundary(line, x)
            &&& is_char_boundary(line, x + p.len())
        }
}

/// Each of the columns `cols` ends (a match being `len` bytes long) before
/// the next one starts.
#[verifier::opaque]
pub open spec fn columns_ordered(cols: Seq<int>, len: int) -> bool {
    forall|i: int, k: int| 0 <= i < k < cols.len() ==> #[trigger] cols[i] + len <= #[trigger] cols[k]
}

/// Every occurrence of `p` in `line` from `c` on lies in a match at one of
/// the columns `cols`.
#[verifier::opaque]
pub open spec fn columns_complete(line: Seq<u8>, p: Seq<u8>, c: int, cols: Seq<int>) -> bool {
    forall|j: int|
        c <= j && #[trigger] occurs_at(line, p, j) ==> exists|k: int|
            0 <= k < cols.len() && #[trigger] cols[k] <= j < cols[k] + p.len()
}

/// One step of a case-sensitive plain-pattern search in a line: the first
/// occurrence from the character boundary `c` on, when there is one, is
/// reported, between character boundaries, and the search goes on after it.
proof fn lemma_pattern_columns_step(line: Seq<u8>, p: Seq<u8>, c: int)
    requires
        valid_utf8(line),
        valid_utf8(p),
        p.len() > 0,
        0 <= c <= line.len(),
        is_char_boundary(line, c),
    ensures
        ({
            let cols = pattern_columns(line, p, true, c);
            match find_first(line.subrange(c, line.len() as int), p) {
                None => cols.len() == 0 && forall|j: int| c <= j ==> !#[trigger] occurs_at(line, p, j),
                Some(pos) => {
                    let x = c + pos;
                    let next = x + p.len();
                    &&& 0 <= pos
                    &&& next <= line.len()
                    &&& occurs_at(line, p, x)
                    &&& is_char_boundary(line, x)
                    &&& is_char_boundary(line, next)
                    &&& forall|j: int| c <= j < x ==> !#[trigger] occurs_at(line, p, j)
                    &&& cols == seq![x] + pattern_columns(line, p, true, next)
                },
            }
        }),
{
    reveal_with_fuel(pattern_columns, 1);
    let hay = line.subrange(c, line.len() as int);
    assert(haystack(line, c, true) == hay);
    lemma_find_first(hay, p);
    match find_first(hay, p) {
        None => {
            assert forall|j: int| c <= j implies !#[trigger] occurs_at(line, p, j) by {
                if occurs_at(line, p, j) {
                    assert(hay.subrange(j - c, j - c + p.len()) =~= line.subrange(j, j + p.len()));
                    assert(occurs_at(hay, p, j - c));
                }
            }
        },
        Some(pos) => {
            let x = c + pos;
            let next = x + p.len();
            assert(hay.subrange(pos, pos + p.len()) =~= line.subrange(x, next));
            assert(line[x] == p[0]) by {
                assert(line.subrange(x, next)[0] == line[x]);
            }
            lemma_first_byte_not_continuation(p);
            is_char_boundary_iff_not_is_continuation_byte(line, x);
            lemma_boundary_after_valid(line, x, next);
            assert forall|j: int| c <= j < x implies !#[trigger] occurs_at(line, p, j) by {
                if occurs_at(line, p, j) {
                    assert(hay.subrange(j - c, j - c + p.len()) =~= line.subrange(j, j + p.len()));
                    assert(occurs_at(hay, p, j - c));
                }
            }
        },
    }
}

/// What a case-sensitive plain-pattern search reports in one line from a
/// character boundary `c` on are occurrences of the pattern between character
/// boundaries.
proof fn lemma_pattern_columns_sound(line: Seq<u8>, p: Seq<u8>, c: int)
    requires
        valid_utf8(line),
        valid_utf8(p),
        p.len() > 0,
        0 <= c <= line.len(),
        is_char_boundary(line, c),
    ensures
        columns_sound(line, p, c, pattern_columns(line, p, true, c)),
    decreases line.len() + 1 - c,
{
    reveal(columns_sound);
    reveal(columns_ordered);
    reveal(columns_complete);
    let cols = pattern_columns(line, p, true, c);
    lemma_pattern_columns_step(line, p, c);
    if let Some(pos) = find_first(line.subrange(c, line.len() as int), p) {
        let next = c + pos + p.len();
        lemma_pattern_columns_sound(line, p, next);
        let rest = pattern_columns(line, p, true, next);
        assert forall|k: int| 0 <= k < cols.len() implies {
            let y = #[trigger] cols[k];
            &&& c <= y
            &&& y + p.len() <= line.len()
            &&& occurs_at(line, p, y)
            &&& is_char_boundary(line, y)
            &&& is_char_boundary(line, y + p.len())
        } by {
            if k > 0 {
                assert(cols[k] == rest[k - 1]);
            }
        }
    }
}

/// The matches that a case-sensitive plain-pattern search reports in one
/// line each end before the next one starts.
proof fn lemma_pattern_columns_ordered(line: Seq<u8>, p: Seq<u8>, c: int)
    requires
        valid_utf8(line),
        valid_utf8(p),
        p.len() > 0,
        0 <= c <= line.len(),
        is_char_boundary(line, c),
    ensures
        columns_ordered(pattern_columns(line, p, true, c), p.len() as int),
    decreases line.len() + 1 - c,
{
    reveal(columns_sound);
    reveal(columns_ordered);
    reveal(columns_complete);
    let cols = pattern_columns(line, p, true, c);
    lemma_pattern_columns_step(line, p, c);
    if let Some(pos) = find_first(line.subrange(c, line.len() as int), p) {
        let next = c + pos + p.len();
        lemma_pattern_columns_ordered(line, p, next);
        lemma_pattern_columns_sound(line, p, next);
        let rest = pattern_columns(line, p, true, next);
        assert forall|i: int, k: int| 0 <= i < k < cols.len() implies #[trigger] cols[i] + p.len()
            <= #[trigger] cols[k] by {
            assert(cols[k] == rest[k - 1]);
            if i > 0 {
                assert(cols[i] == rest[i - 1]);
            }
        }
    }
}

/// Every occurrence of the pattern from a character boundary `c` on lies in
/// a match that a case-sensitive plain-pattern search reports in the line.
proof fn lemma_pattern_columns_complete(line: Seq<u8>, p: Seq<u8>, c: int)
    requires
        valid_utf8(line),
        valid_utf8(p),
        p.len() > 0,
        0 <= c <= line.len(),
        is_char_boundary(line, c),
    ensures
        columns_complete(line, p, c, pattern_columns(line, p, true, c)),
    decreases line.len() + 1 - c,
{
    reveal(columns_sound);
    reveal(columns_ordered);
    reveal(columns_complete);
    let cols = pattern_columns(line, p, true, c);
    lemma_pattern_columns_step(line, p, c);
    if let Some(pos) = find_first(line.subrange(c, line.len() as int), p) {
        let x = c + pos;
        let next = x + p.len();
        lemma_pattern_columns_complete(line, p, next);
        let rest = pattern_columns(line, p, true, next);
        assert forall|j: int| c <= j && #[trigger] occurs_at(line, p, j) implies exists|k: int|
            0 <= k < cols.len() && #[trigger] cols[k] <= j < cols[k] + p.len() by {
            if j < next {
                assert(cols[0] == x);
            } else {
                let k = choose|k: int|
                    0 <= k < rest.len() && #[trigger] rest[k] <= j < rest[k] + p.len();
                assert(cols[k + 1] == rest[k]);
            }
        }
    }
}

/// The lines `lines` are valid encodings short enough for their columns,
/// rows and lengths to be recorded exactly in a match.
pub open spec fn lines_fit(lines: Seq<Seq<u8>>) -> bool {
    &&& lines.len() <= i64::MAX
    &&& forall|q: int|
        0 <= q < lines.len() ==> valid_utf8(#[trigger] lines[q]) && lines[q].len() <= i64::MAX
}

/// The matches of a case-sensitive plain-pattern search in the first `n`
/// lines.
pub open spec fn plain_matches(lines: Seq<Seq<u8>>, p: Seq<u8>, n: int) -> Seq<MatchView> {
    matches_upto(lines, p, true, MatchingMode::Pattern, n)
}

/// The matches of a case-sensitive plain-pattern search in the line of row
/// `n`.
proof fn lemma_plain_row(lines: Seq<Seq<u8>>, p: Seq<u8>, n: int)
    requires
        lines_fit(lines),
        valid_utf8(p),
        0 <= n < lines.len(),
    ensures
        plain_matches(lines, p, n + 1) == plain_matches(lines, p, n) + matches_at(
            pattern_columns(lines[n], p, true, 0),
            lines[n],
            n,
            p.len() as int,
        ),
        p.len() == 0 ==> pattern_columns(lines[n], p, true, 0).len() == 0,
        p.len() > 0 ==> {
            let cols = pattern_columns(lines[n], p, true, 0);
            &&& columns_sound(lines[n], p, 0, cols)
            &&& columns_ordered(cols, p.len() as int)
            &&& columns_complete(lines[n], p, 0, cols)
        },
{
    reveal_with_fuel(pattern_columns, 1);
    is_char_boundary_start_end_of_seq(lines[n]);
    if p.len() > 0 {
        lemma_pattern_columns_sound(lines[n], p, 0);
        lemma_pattern_columns_ordered(lines[n], p, 0);
        lemma_pattern_columns_complete(lines[n], p, 0);
    }
}

/// Each match of a case-sensitive plain-pattern search in the first `n`
/// lines is an occurrence of the pattern in one of them.
proof fn lemma_plain_sound(lines: Seq<Seq<u8>>, p: Seq<u8>, n: int)
    requires
        lines_fit(lines),
        valid_utf8(p),
        0 <= n <= lines.len(),
    ensures
        forall|i: int|
            0 <= i < plain_matches(lines, p, n).len() ==> is_occurrence(
                lines,
                p,
                #[trigger] plain_matches(lines, p, n)[i],
            ) && plain_matches(lines, p, n)[i].1 < n,
    decreases n,
{
    if n > 0 {
        lemma_plain_sound(lines, p, n - 1);
        lemma_plain_row(lines, p, n - 1);
        let before = plain_matches(lines, p, n - 1);
        let cols = pattern_columns(lines[n - 1], p, true, 0);
        let ms = plain_matches(lines, p, n);
        reveal(columns_sound);
        assert forall|i: int| 0 <= i < ms.len() implies is_occurrence(lines, p, #[trigger] ms[i])
            && ms[i].1 < n by {
            if i >= before.len() {
                let k = i - before.len();
                let x = cols[k];
                assert(ms[i] == (x as u64, (n - 1) as u64, p.len() as i64, decode_utf8(
                    lines[n - 1],
                )));
                assert(0 <= x && x + p.len() <= lines[n - 1].len());
            }
        }
    }
}

/// The matches of a case-sensitive plain-pattern search come row by row, and
/// in a row each one ends before the next one starts.
proof fn lemma_plain_ordered(lines: Seq<Seq<u8>>, p: Seq<u8>, n: int)
    requires
        lines_fit(lines),
        valid_utf8(p),
        0 <= n <= lines.len(),
    ensures
        forall|i: int, j: int|
            0 <= i < j < plain_matches(lines, p, n).len() ==> comes_before(
                #[trigger] plain_matches(lines, p, n)[i],
                #[trigger] plain_matches(lines, p, n)[j],
            ),
    decreases n,
{
    if n > 0 {
        lemma_plain_ordered(lines, p, n - 1);
        lemma_plain_sound(lines, p, n - 1);
        lemma_plain_row(lines, p, n - 1);
        let before = plain_matches(lines, p, n - 1);
        let cols = pattern_columns(lines[n - 1], p, true, 0);
        let ms = plain_matches(lines, p, n);
        reveal(columns_sound);
        reveal(columns_ordered);
        assert forall|i: int, j: int| 0 <= i < j < ms.len() implies comes_before(
            #[trigger] ms[i],
            #[trigger] ms[j],
        ) by {
            if j >= before.len() {
                let k = j - before.len();
                assert(0 <= cols[k] && cols[k] + p.len() <= lines[n - 1].len());
                assert(ms[j].1 == n - 1);
                if i >= before.len() {
                    let h = i - before.len();
                    assert(0 <= cols[h] && cols[h] + p.len() <= lines[n - 1].len());
                    assert(cols[h] + p.len() <= cols[k]);
                } else {
                    assert(ms[i] == before[i]);
                    assert(before[i].1 < n - 1);
                }
            } else {
                assert(ms[i] == before[i] && ms[j] == before[j]);
            }
        }
    }
}

/// A byte that lies in one of the matches `a` lies in one of `a + b`.
proof fn lemma_covered_append(a: Seq<MatchView>, b: Seq<MatchView>, r: int, j: int, len: int)
    requires
        covered(a, r, j, len),
    ensures
        covered(a + b, r, j, len),
{
    let i = choose|i: int| 0 <= i < a.len() && #[trigger] a[i].1 == r && a[i].0 <= j < a[i].0 + len;
    assert((a + b)[i] == a[i]);
}

/// A byte of row `row` in the match at `cols[k]` lies in one of the matches
/// appended for that row.
proof fn lemma_covered_row(
    a: Seq<MatchView>,
    cols: Seq<int>,
    line: Seq<u8>,
    row: int,
    len: int,
    k: int,
    j: int,
)
    requires
        0 <= k < cols.len(),
        0 <= cols[k] <= i64::MAX,
        0 <= row <= i64::MAX,
        0 <= len <= i64::MAX,
        cols[k] <= j < cols[k] + len,
    ensures
        covered(a + matches_at(cols, line, row, len), row, j, len),
{
    let ms = a + matches_at(cols, line, row, len);
    let i = a.len() + k;
    assert(ms[i] == (cols[k] as u64, row as u64, len as i64, decode_utf8(line)));
    assert(ms[i].1 == row);
    assert(ms[i].0 == cols[k]);
    assert(0 <= i < ms.len() && ms[i].1 == row && ms[i].0 <= j < ms[i].0 + len);
}

/// Every occurrence of the pattern in the first `n` lines lies in a match of
/// a case-sensitive plain-pattern search.
proof fn lemma_plain_complete(lines: Seq<Seq<u8>>, p: Seq<u8>, n: int)
    requires
        lines_fit(lines),
        valid_utf8(p),
        p.len() > 0,
        0 <= n <= lines.len(),
    ensures
        forall|r: int, j: int|
            0 <= r < n && #[trigger] occurs_at(lines[r], p, j) ==> covered(
                plain_matches(lines, p, n),
                r,
                j,
                p.len() as int,
            ),
    decreases n,
{
    if n > 0 {
        lemma_plain_complete(lines, p, n - 1);
        lemma_plain_row(lines, p, n - 1);
        let before = plain_matches(lines, p, n - 1);
        let cols = pattern_columns(lines[n - 1], p, true, 0);
        assert forall|r: int, j: int| 0 <= r < n && #[trigger] occurs_at(lines[r], p, j) implies covered(
            plain_matches(lines, p, n),
            r,
            j,
            p.len() as int,
        ) by {
            if r < n - 1 {
                lemma_covered_append(
                    before,
                    matches_at(cols, lines[n - 1], n - 1, p.len() as int),
                    r,
                    j,
                    p.len() as int,
                );
            } else {
                assert(columns_complete(lines[n - 1], p, 0, cols));
                reveal(columns_complete);
                reveal(columns_sound);
                let k = choose|k: int|
                    0 <= k < cols.len() && #[trigger] cols[k] <= j < cols[k] + p.len();
                assert(columns_sound(lines[n - 1], p, 0, cols));
                assert(0 <= cols[k] && cols[k] + p.len() <= lines[n - 1].len());
                lemma_covered_row(before, cols, lines[n - 1], n - 1, p.len() as int, k, j);
            }
        }
    }
}

/// No line of `lines` holds a carriage return.
pub open spec fn no_cr_in_lines(lines: Seq<Seq<u8>>) -> bool {
    forall|q: int, k: int| 0 <= q < lines.len() && 0 <= k < lines[q].len() ==> #[trigger] lines[q][k] != 13u8
}

/// The match `e` can be replaced in a text of lines `lines`: when its row is
/// one of them, its byte range lies in that line, between character
/// boundaries.
pub open spec fn fits_lines(lines: Seq<Seq<u8>>, e: MatchView) -> bool {
    e.1 < lines.len() ==> {
        let line = lines[e.1 as int];
        &&& 0 <= e.2
        &&& e.0 + e.2 <= line.len()
        &&& is_char_boundary(line, e.0 as int)
        &&& is_char_boundary(line, e.0 + e.2)
    }
}

/// The lines of the text once the match `m` is replaced, when the lines
/// before its row, and its line up to its column, hold no line break: the
/// lines before its row stay as they are, and its line keeps its bytes up to
/// the match's column, which stays a character boundary.
proof fn lemma_row_after_replace(data: Seq<char>, m: MatchView, rp: Seq<char>)
    requires
        m.1 < spec_lines(encode_utf8(data)).len(),
        fits_lines(spec_lines(encode_utf8(data)), m),
        forall|q: int| 0 <= q < m.1 ==> no_line_break(#[trigger] spec_lines(encode_utf8(data))[q]),
        no_line_break(spec_lines(encode_utf8(data))[m.1 as int].subrange(0, m.0 as int)),
    ensures
        ({
            let old_lines = spec_lines(encode_utf8(data));
            let new_lines = spec_lines(encode_utf8(replace_text(data, m, rp)));
            let r = m.1 as int;
            let c = m.0 as int;
            &&& new_lines.len() >= r
            &&& forall|q: int| 0 <= q < r ==> #[trigger] new_lines[q] == old_lines[q]
            &&& r < new_lines.len() ==> {
                &&& c <= new_lines[r].len()
                &&& new_lines[r].subrange(0, c) == old_lines[r].subrange(0, c)
                &&& is_char_boundary(new_lines[r], c)
            }
        }),
{
    let b0 = encode_utf8(data);
    let old_lines = spec_lines(b0);
    encode_utf8_valid_utf8(data);
    is_char_boundary_start_end_of_seq(b0);
    lemma_lines_from_facts(b0, 0);
    let r = m.1 as int;
    let c = m.0 as int;
    let e = m.0 + m.2;
    let x = replace_lines(old_lines, m, rp);
    assert forall|q: int| 0 <= q < r implies no_line_break(#[trigger] encode_utf8(x[q])) by {
        decode_utf8_encode_utf8(old_lines[q]);
    }
    lemma_lines_join_prefix(x, r);
    let text = replace_text(data, m, rp);
    let new_lines = spec_lines(encode_utf8(text));
    let y = x.skip(r);
    let s = spec_lines(encode_utf8(join_lines(y)));
    assert(new_lines == encode_lines(x.take(r)) + s);
    assert forall|q: int| 0 <= q < r implies #[trigger] new_lines[q] == old_lines[q] by {
        assert(new_lines[q] == encode_utf8(x[q]));
        decode_utf8_encode_utf8(old_lines[q]);
    }
    // The line of the match, replaced, encodes as its part before the match,
    // the replacement, and its part after the match.
    let line = old_lines[r];
    let a = line.subrange(0, c);
    let z = line.subrange(e, line.len() as int);
    valid_utf8_split(line, c);
    valid_utf8_split(line, e);
    decode_utf8_encode_utf8(a);
    decode_utf8_encode_utf8(z);
    assert(x[r] == replaced_line(line, c, m.2 as int, rp));
    lemma_encode_concat(decode_utf8(a) + rp, decode_utf8(z));
    lemma_encode_concat(decode_utf8(a), rp);
    assert(encode_utf8(x[r]) == a + encode_utf8(rp) + z);
    assert(y[0] == x[r]);
    lemma_encode_join_starts(y);
    let tail = if y.len() >= 2 {
        seq![lf()] + encode_utf8(join_lines(y.drop_first()))
    } else {
        Seq::<u8>::empty()
    };
    let w = encode_utf8(rp) + z + tail;
    let b = encode_utf8(join_lines(y));
    assert(b =~= a + w);
    if b.len() > 0 {
        assert forall|k: int| 0 <= k < a.len() implies #[trigger] b[k] != lf() && b[k] != cr() by {
            assert(b[k] == a[k]);
        }
        lemma_first_line(b, c);
        assert(new_lines[r] == s[0]);
        let end = line_end(b, 0, next_newline(b, 0));
        assert(new_lines[r] == b.subrange(0, end));
        assert(new_lines[r].subrange(0, c) =~= a);
        encode_utf8_valid_utf8(text);
        is_char_boundary_start_end_of_seq(encode_utf8(text));
        lemma_lines_from_facts(encode_utf8(text), 0);
        assert(valid_utf8(new_lines[r]));
        if end == c {
            is_char_boundary_start_end_of_seq(new_lines[r]);
        } else {
            assert(new_lines[r][c] == w[0]);
            if encode_utf8(rp).len() > 0 {
                encode_utf8_valid_utf8(rp);
                lemma_first_byte_not_continuation(encode_utf8(rp));
                assert(w[0] == encode_utf8(rp)[0]);
            } else if z.len() > 0 {
                lemma_first_byte_not_continuation(z);
                assert(w[0] == z[0]);
            } else {
                assert(tail.len() > 0);
                assert(w[0] == tail[0]);
                assert(tail[0] == lf());
            }
            is_char_boundary_iff_not_is_continuation_byte(new_lines[r], c);
        }
    } else {
        assert(s =~= Seq::<Seq<u8>>::empty());
    }
}

/// Replacing, from the last to the first, matches that come in order and lie
/// in the lines `lines` of an earlier text (lines without carriage returns)
/// is safe in the text `data` that replacements made of it, given that the
/// rows before `frontier` are still the lines of `lines`, and that each
/// remaining match's line still starts as it did, up to the match's end.
proof fn lemma_replace_all_from(
    data: Seq<char>,
    ms: Seq<MatchView>,
    rp: Seq<char>,
    lines: Seq<Seq<u8>>,
    frontier: int,
)
    requires
        no_cr_in_lines(lines),
        forall|q: int| 0 <= q < lines.len() ==> valid_utf8(#[trigger] lines[q]) && forall|k: int|
            0 <= k < lines[q].len() ==> lines[q][k] != lf(),
        frontier <= lines.len(),
        forall|i: int|
            0 <= i < ms.len() ==> #[trigger] ms[i].1 < lines.len() && fits_lines(lines, ms[i])
                && ms[i].1 <= frontier,
        forall|i: int, j: int| 0 <= i < j < ms.len() ==> comes_before(#[trigger] ms[i], #[trigger] ms[j]),
        forall|q: int|
            0 <= q < frontier && q < spec_lines(encode_utf8(data)).len() ==> #[trigger] spec_lines(
                encode_utf8(data),
            )[q] == lines[q],
        forall|i: int|
            0 <= i < ms.len() && #[trigger] ms[i].1 < spec_lines(encode_utf8(data)).len() ==> {
                let cur = spec_lines(encode_utf8(data))[ms[i].1 as int];
                let end = ms[i].0 + ms[i].2;
                &&& end <= cur.len()
                &&& cur.subrange(0, end) == lines[ms[i].1 as int].subrange(0, end)
                &&& is_char_boundary(cur, end)
            },
    ensures
        can_replace_all(data, ms, rp),
    decreases ms.len(),
{
    if ms.len() > 0 {
        let m = ms.last();
        let rest = ms.drop_last();
        let r = m.1 as int;
        let c = m.0 as int;
        let e = m.0 + m.2;
        let cur_lines = spec_lines(encode_utf8(data));
        encode_utf8_valid_utf8(data);
        is_char_boundary_start_end_of_seq(encode_utf8(data));
        lemma_lines_from_facts(encode_utf8(data), 0);
        assert(ms[ms.len() - 1] == m);
        assert(fits_lines(lines, m));
        // The last match can be replaced.
        if r < cur_lines.len() {
            lemma_boundary_common_prefix(lines[r], cur_lines[r], e, c);
        }
        assert(can_replace(data, m));
        let next = replace_text(data, m, rp);
        let next_lines = spec_lines(encode_utf8(next));
        encode_utf8_valid_utf8(next);
        is_char_boundary_start_end_of_seq(encode_utf8(next));
        lemma_lines_from_facts(encode_utf8(next), 0);
        assert forall|i: int| 0 <= i < rest.len() implies #[trigger] rest[i].1 <= r by {
            assert(rest[i] == ms[i]);
            assert(comes_before(ms[i], ms[ms.len() - 1]));
        }
        if r < cur_lines.len() {
            assert forall|q: int| 0 <= q < r implies no_line_break(#[trigger] cur_lines[q]) by {
                assert(cur_lines[q] == lines[q]);
            }
            assert(cur_lines[r].subrange(0, c) =~= lines[r].subrange(0, c)) by {
                assert(cur_lines[r].subrange(0, e).subrange(0, c) =~= cur_lines[r].subrange(0, c));
                assert(lines[r].subrange(0, e).subrange(0, c) =~= lines[r].subrange(0, c));
            }
            lemma_row_after_replace(data, m, rp);
            assert forall|i: int|
                0 <= i < rest.len() && #[trigger] rest[i].1 < next_lines.len() implies {
                let now = next_lines[rest[i].1 as int];
                let end = rest[i].0 + rest[i].2;
                &&& end <= now.len()
                &&& now.subrange(0, end) == lines[rest[i].1 as int].subrange(0, end)
                &&& is_char_boundary(now, end)
            } by {
                let f = rest[i];
                let q = f.1 as int;
                assert(f == ms[i]);
                assert(comes_before(ms[i], ms[ms.len() - 1]));
                assert(fits_lines(lines, f));
                let end = f.0 + f.2;
                if q < r {
                    assert(next_lines[q] == cur_lines[q]);
                    assert(cur_lines[q] == lines[q]);
                } else {
                    assert(end <= c);
                    let now = next_lines[r];
                    assert(now.subrange(0, end) =~= now.subrange(0, c).subrange(0, end));
                    assert(lines[r].subrange(0, end) =~= lines[r].subrange(0, c).subrange(0, end));
                    lemma_boundary_common_prefix(lines[r], now, c, end);
                }
            }
            assert forall|q: int| 0 <= q < r && q < next_lines.len() implies #[trigger] next_lines[q]
                == lines[q] by {
                assert(next_lines[q] == cur_lines[q]);
            }
        } else {
            let x = replace_lines(cur_lines, m, rp);
            assert forall|i: int| 0 <= i < x.len() implies no_line_break(#[trigger] encode_utf8(x[i])) by {
                decode_utf8_encode_utf8(cur_lines[i]);
                assert(cur_lines[i] == lines[i]);
            }
            lemma_lines_of_join(x);
            assert forall|q: int| 0 <= q < next_lines.len() implies #[trigger] next_lines[q]
                == lines[q] by {
                decode_utf8_encode_utf8(cur_lines[q]);
                assert(next_lines[q] == encode_utf8(x[q]));
                assert(cur_lines[q] == lines[q]);
            }
            assert forall|i: int|
                0 <= i < rest.len() && #[trigger] rest[i].1 < next_lines.len() implies {
                let now = next_lines[rest[i].1 as int];
                let end = rest[i].0 + rest[i].2;
                &&& end <= now.len()
                &&& now.subrange(0, end) == lines[rest[i].1 as int].subrange(0, end)
                &&& is_char_boundary(now, end)
            } by {
                assert(rest[i] == ms[i]);
                assert(fits_lines(lines, rest[i]));
            }
        }
        assert forall|i: int, j: int| 0 <= i < j < rest.len() implies comes_before(
            #[trigger] rest[i],
            #[trigger] rest[j],
        ) by {
            assert(rest[i] == ms[i] && rest[j] == ms[j]);
        }
        assert forall|i: int| 0 <= i < rest.len() implies #[trigger] rest[i].1 < lines.len()
            && fits_lines(lines, rest[i]) && rest[i].1 <= r by {
            assert(rest[i] == ms[i]);
        }
        lemma_replace_all_from(next, rest, rp, lines, r);
    }
}

/// Matches that each lie in a line of a text whose lines hold no carriage
/// return, and that each come before the next (in an earlier row, or ending
/// at or before the next one's column in the same row), can all be replaced,
/// from the last to the first, by any replacement: replacing one never moves
/// the ones still to be replaced.
pub proof fn law_replace_all_in_order(data: Seq<char>, ms: Seq<MatchView>, rp: Seq<char>)
    requires
        no_cr_in_lines(spec_lines(encode_utf8(data))),
        forall|i: int|
            0 <= i < ms.len() ==> #[trigger] ms[i].1 < spec_lines(encode_utf8(data)).len()
                && fits_lines(spec_lines(encode_utf8(data)), ms[i]),
        forall|i: int, j: int| 0 <= i < j < ms.len() ==> comes_before(#[trigger] ms[i], #[trigger] ms[j]),
    ensures
        can_replace_all(data, ms, rp),
{
    let lines = spec_lines(encode_utf8(data));
    encode_utf8_valid_utf8(data);
    is_char_boundary_start_end_of_seq(encode_utf8(data));
    lemma_lines_from_facts(encode_utf8(data), 0);
    lemma_replace_all_from(data, ms, rp, lines, lines.len() as int);
}

/// The lines of a text that spans at most `isize::MAX` bytes are valid
/// encodings short enough to be recorded in matches.
proof fn lemma_text_lines_fit(contents: Seq<char>)
    requires
        encode_utf8(contents).len() <= isize::MAX,
    ensures
        lines_fit(spec_lines(encode_utf8(contents))),
{
    let b = encode_utf8(contents);
    encode_utf8_valid_utf8(contents);
    is_char_boundary_start_end_of_seq(b);
    lemma_lines_from_facts(b, 0);
    assert(isize::MAX <= i64::MAX);
}

/// Each match that a case-sensitive plain-pattern search reports is an
/// occurrence of the pattern in the line of its row, from one character
/// boundary to another; the match records that line, and the pattern's
/// length.
pub proof fn law_search_finds_occurrences(contents: Seq<char>, pattern: Seq<char>)
    requires
        encode_utf8(contents).len() <= isize::MAX,
    ensures
        forall|i: int|
            0 <= i < search_spec(contents, pattern, true, MatchingMode::Pattern).len() ==> is_occurrence(
                spec_lines(encode_utf8(contents)),
                encode_utf8(pattern),
                #[trigger] search_spec(contents, pattern, true, MatchingMode::Pattern)[i],
            ),
{
    let lines = spec_lines(encode_utf8(contents));
    lemma_text_lines_fit(contents);
    encode_utf8_valid_utf8(pattern);
    lemma_plain_sound(lines, encode_utf8(pattern), lines.len() as int);
    assert(search_spec(contents, pattern, true, MatchingMode::Pattern) == plain_matches(
        lines,
        encode_utf8(pattern),
        lines.len() as int,
    ));
}

/// The matches of a case-sensitive plain-pattern search come row by row, and
/// within a row from left to right, each one ending before the next one
/// starts.
pub proof fn law_search_in_order(contents: Seq<char>, pattern: Seq<char>)
    requires
        encode_utf8(contents).len() <= isize::MAX,
    ensures
        forall|i: int, j: int|
            0 <= i < j < search_spec(contents, pattern, true, MatchingMode::Pattern).len() ==> comes_before(
                #[trigger] search_spec(contents, pattern, true, MatchingMode::Pattern)[i],
                #[trigger] search_spec(contents, pattern, true, MatchingMode::Pattern)[j],
            ),
{
    let lines = spec_lines(encode_utf8(contents));
    lemma_text_lines_fit(contents);
    encode_utf8_valid_utf8(pattern);
    lemma_plain_ordered(lines, encode_utf8(pattern), lines.len() as int);
    assert(search_spec(contents, pattern, true, MatchingMode::Pattern) == plain_matches(
        lines,
        encode_utf8(pattern),
        lines.len() as int,
    ));
}

/// A case-sensitive plain-pattern search misses no occurrence of a non-empty
/// pattern: each one lies in (usually is) a match reported for its row.
pub proof fn law_search_misses_nothing(contents: Seq<char>, pattern: Seq<char>)
    requires
        encode_utf8(contents).len() <= isize::MAX,
        pattern.len() > 0,
    ensures
        forall|r: int, j: int|
            0 <= r < spec_lines(encode_utf8(contents)).len() && #[trigger] occurs_at(
                spec_lines(encode_utf8(contents))[r],
                encode_utf8(pattern),
                j,
            ) ==> covered(
                search_spec(contents, pattern, true, MatchingMode::Pattern),
                r,
                j,
                encode_utf8(pattern).len() as int,
            ),
{
    let lines = spec_lines(encode_utf8(contents));
    lemma_text_lines_fit(contents);
    encode_utf8_valid_utf8(pattern);
    assert(encode_utf8(pattern).len() > 0) by {
        reveal_with_fuel(encode_utf8, 1);
    }
    lemma_plain_complete(lines, encode_utf8(pattern), lines.len() as int);
    assert(search_spec(contents, pattern, true, MatchingMode::Pattern) == plain_matches(
        lines,
        encode_utf8(pattern),
        lines.len() as int,
    ));
}

/// Each match that a case-sensitive plain-pattern search reports can be
/// replaced in the text it was found in.
pub proof fn law_found_match_can_be_replaced(contents: Seq<char>, pattern: Seq<char>)
    requires
        encode_utf8(contents).len() <= isize::MAX,
    ensures
        forall|i: int|
            0 <= i < search_spec(contents, pattern, true, MatchingMode::Pattern).len() ==> can_replace(
                contents,
                #[trigger] search_spec(contents, pattern, true, MatchingMode::Pattern)[i],
            ),
{
    law_search_finds_occurrences(contents, pattern);
}

/// All the matches that a case-sensitive plain-pattern search reports can be
/// replaced, from the last to the first, by any replacement, in a text whose
/// lines hold no carriage return (its carriage returns, if any, being those of
/// CRLF line ends).
pub proof fn law_replace_all_found_matches(contents: Seq<char>, pattern: Seq<char>, replacement: Seq<char>)
    requires
        encode_utf8(contents).len() <= isize::MAX,
        no_cr_in_lines(spec_lines(encode_utf8(contents))),
    ensures
        can_replace_all(
            contents,
            search_spec(contents, pattern, true, MatchingMode::Pattern),
            replacement,
        ),
{
    let ms = search_spec(contents, pattern, true, MatchingMode::Pattern);
    law_search_finds_occurrences(contents, pattern);
    law_search_in_order(contents, pattern);
    assert forall|i: int| 0 <= i < ms.len() implies #[trigger] ms[i].1 < spec_lines(
        encode_utf8(contents),
    ).len() && fits_lines(spec_lines(encode_utf8(contents)), ms[i]) by {
        assert(is_occurrence(spec_lines(encode_utf8(contents)), encode_utf8(pattern), ms[i]));
    }
    law_replace_all_in_order(contents, ms, replacement);
}

/// Replacing no match leaves the text as it is, and reports no edit.
pub proof fn law_replace_nothing(data: Seq<char>, replacement: Seq<char>)
    ensures
        replace_all(data, Seq::<MatchView>::empty(), replacement) == data,
        !replace_all_edits(data, Seq::<MatchView>::empty(), replacement),
        can_replace_all(data, Seq::<MatchView>::empty(), replacement),
{
}

/// The match `e` covers, in its line of `lines`, exactly the bytes `r`.
pub open spec fn covers_bytes(lines: Seq<Seq<u8>>, e: MatchView, r: Seq<u8>) -> bool {
    e.1 < lines.len() ==> lines[e.1 as int].subrange(e.0 as int, e.0 + e.2) == r
}

/// Replacing a match by the very text it covers leaves a text that holds no
/// carriage return and does not end with a line feed as it is.
proof fn lemma_replace_identity(data: Seq<char>, m: MatchView, rp: Seq<char>)
    requires
        plain_line_ends(encode_utf8(data)),
        fits_lines(spec_lines(encode_utf8(data)), m),
        covers_bytes(spec_lines(encode_utf8(data)), m, encode_utf8(rp)),
    ensures
        replace_text(data, m, rp) == data,
{
    let b = encode_utf8(data);
    let lines = spec_lines(b);
    encode_utf8_valid_utf8(data);
    is_char_boundary_start_end_of_seq(b);
    lemma_lines_from_facts(b, 0);
    let x = replace_lines(lines, m, rp);
    assert forall|q: int| 0 <= q < lines.len() implies #[trigger] x[q] == decode_lines(lines)[q] by {
        if q == m.1 {
            let line = lines[q];
            let c = m.0 as int;
            let e = m.0 + m.2;
            let prefix = line.subrange(0, e);
            encode_utf8_decode_utf8(rp);
            assert(decode_utf8(line.subrange(c, e)) == rp);
            lemma_boundary_in_prefix(line, c, e);
            is_char_boundary_start_end_of_seq(line);
            decode_utf8_split(prefix, c);
            assert(prefix.subrange(0, c) =~= line.subrange(0, c));
            assert(prefix.subrange(c, prefix.len() as int) =~= line.subrange(c, e));
            decode_utf8_split(line, e);
        }
    }
    assert(x =~= decode_lines(lines));
    lemma_join_of_lines(data);
}

/// Replacing matches, each by the very text it covers, leaves a text that
/// holds no carriage return and does not end with a line feed as it is, and
/// reports no edit.
proof fn lemma_replace_all_identity(data: Seq<char>, ms: Seq<MatchView>, rp: Seq<char>)
    requires
        plain_line_ends(encode_utf8(data)),
        forall|i: int|
            0 <= i < ms.len() ==> fits_lines(spec_lines(encode_utf8(data)), #[trigger] ms[i])
                && covers_bytes(spec_lines(encode_utf8(data)), ms[i], encode_utf8(rp)),
    ensures
        replace_all(data, ms, rp) == data,
        !replace_all_edits(data, ms, rp),
    decreases ms.len(),
{
    if ms.len() > 0 {
        lemma_replace_identity(data, ms.last(), rp);
        lemma_replace_all_identity(data, ms.drop_last(), rp);
    }
}

/// Replacing every match of a case-sensitive plain-pattern search by the
/// pattern itself leaves a text that holds no carriage return and does not
/// end with a line feed as it is, and reports no edit.
pub proof fn law_replace_by_pattern_is_no_edit(contents: Seq<char>, pattern: Seq<char>)
    requires
        encode_utf8(contents).len() <= isize::MAX,
        plain_line_ends(encode_utf8(contents)),
    ensures
        replace_all(
            contents,
            search_spec(contents, pattern, true, MatchingMode::Pattern),
            pattern,
        ) == contents,
        !replace_all_edits(
            contents,
            search_spec(contents, pattern, true, MatchingMode::Pattern),
            pattern,
        ),
{
    let ms = search_spec(contents, pattern, true, MatchingMode::Pattern);
    let lines = spec_lines(encode_utf8(contents));
    law_search_finds_occurrences(contents, pattern);
    assert forall|i: int| 0 <= i < ms.len() implies fits_lines(lines, #[trigger] ms[i])
        && covers_bytes(lines, ms[i], encode_utf8(pattern)) by {
        assert(is_occurrence(lines, encode_utf8(pattern), ms[i]));
    }
    lemma_replace_all_identity(contents, ms, pattern);
}

/// What replacing matches does, whether it is safe and whether it edits the
/// text depend on each match's column, row and length only: the line of text
/// that a match records plays no part.
pub proof fn law_replace_ignores_line_text(
    data: Seq<char>,
    ms1: Seq<MatchView>,
    ms2: Seq<MatchView>,
    rp: Seq<char>,
)
    requires
        ms1.len() == ms2.len(),
        forall|i: int|
            0 <= i < ms1.len() ==> #[trigger] ms1[i].0 == ms2[i].0 && ms1[i].1 == ms2[i].1 && ms1[i].2
                == ms2[i].2,
    ensures
        replace_all(data, ms1, rp) == replace_all(data, ms2, rp),
        replace_all_edits(data, ms1, rp) == replace_all_edits(data, ms2, rp),
        can_replace_all(data, ms1, rp) == can_replace_all(data, ms2, rp),
    decreases ms1.len(),
{
    if ms1.len() > 0 {
        let m1 = ms1.last();
        let m2 = ms2.last();
        assert(m1 == ms1[ms1.len() - 1] && m2 == ms2[ms2.len() - 1]);
        let lines = spec_lines(encode_utf8(data));
        assert(replace_lines(lines, m1, rp) =~= replace_lines(lines, m2, rp));
        assert(replace_text(data, m1, rp) == replace_text(data, m2, rp));
        assert(can_replace(data, m1) == can_replace(data, m2));
        let next = replace_text(data, m1, rp);
        assert forall|i: int| 0 <= i < ms1.drop_last().len() implies #[trigger] ms1.drop_last()[i].0
            == ms2.drop_last()[i].0 && ms1.drop_last()[i].1 == ms2.drop_last()[i].1
            && ms1.drop_last()[i].2 == ms2.drop_last()[i].2 by {
            assert(ms1.drop_last()[i] == ms1[i] && ms2.drop_last()[i] == ms2[i]);
        }
        law_replace_ignores_line_text(next, ms1.drop_last(), ms2.drop_last(), rp);
    }
}

// ---------------------------------------------------------------------------
// Replacing what a search found is replacing every occurrence.
// ---------------------------------------------------------------------------

/// The lines of a text without carriage returns hold none.
proof fn lemma_lines_no_cr(b: Seq<u8>, start: int)
    requires
        0 <= start,
        forall|k: int| 0 <= k < b.len() ==> #[trigger] b[k] != cr(),
    ensures
        no_cr_in_lines(lines_from(b, start)),
    decreases b.len() + 1 - start,
{
    if start < b.len() {
        let nl = next_newline(b, start);
        lemma_next_newline(b, start);
        lemma_lines_no_cr(b, nl + 1);
        let ls = lines_from(b, start);
        let end = line_end(b, start, nl);
        assert(ls == seq![b.subrange(start, end)] + lines_from(b, nl + 1));
        assert forall|q: int, k: int| 0 <= q < ls.len() && 0 <= k < ls[q].len() implies #[trigger] ls[q][k]
            != 13u8 by {
            if q == 0 {
                assert(ls[q][k] == b[start + k]);
            } else {
                assert(ls[q] == lines_from(b, nl + 1)[q - 1]);
            }
        }
    }
}

/// The last line of a non-empty text that does not end with a line feed is
/// not empty.
proof fn lemma_last_line_nonempty(b: Seq<u8>, start: int)
    requires
        plain_line_ends(b),
        0 <= start < b.len(),
    ensures
        lines_from(b, start).len() > 0,
        lines_from(b, start).last().len() > 0,
    decreases b.len() - start,
{
    let nl = next_newline(b, start);
    lemma_next_newline(b, start);
    let ls = lines_from(b, start);
    assert(ls == seq![b.subrange(start, line_end(b, start, nl))] + lines_from(b, nl + 1));
    if nl + 1 < b.len() {
        lemma_last_line_nonempty(b, nl + 1);
        assert(ls.last() == lines_from(b, nl + 1).last());
    } else {
        if nl < b.len() {
            assert(b[nl] == lf());
        }
        assert(lines_from(b, nl + 1) =~= Seq::<Seq<u8>>::empty());
        assert(ls.last() == b.subrange(start, nl));
    }
}

/// The matches `ms` are occurrences of `p` in the lines `lines`, in order,
/// and every occurrence lies in one of them.
spec fn lists_occurrences(lines: Seq<Seq<u8>>, p: Seq<u8>, ms: Seq<MatchView>) -> bool {
    &&& forall|i: int| 0 <= i < ms.len() ==> is_occurrence(lines, p, #[trigger] ms[i])
    &&& forall|i: int, k: int| 0 <= i < k < ms.len() ==> comes_before(#[trigger] ms[i], #[trigger] ms[k])
    &&& forall|q: int, y: int|
        0 <= q < lines.len() && #[trigger] occurs_at(lines[q], p, y) ==> covered(ms, q, y, p.len() as int)
}

/// No occurrence starts after the end of match `j` (or at all, for `j` of
/// -1) and before the start of the match after it (if there is one).
#[verifier::spinoff_prover]
proof fn lemma_no_occurrence_between(
    lines: Seq<Seq<u8>>,
    p: Seq<u8>,
    ms: Seq<MatchView>,
    j: int,
    q: int,
    y: int,
)
    requires
        lists_occurrences(lines, p, ms),
        -1 <= j < ms.len(),
        0 <= q < lines.len(),
        j >= 0 ==> q > ms[j].1 || (q == ms[j].1 && y >= ms[j].0 + ms[j].2),
        j + 1 < ms.len() ==> q < ms[j + 1].1 || (q == ms[j + 1].1 && y < ms[j + 1].0),
    ensures
        !occurs_at(lines[q], p, y),
{
    if occurs_at(lines[q], p, y) {
        assert(covered(ms, q, y, p.len() as int));
        let i = choose|i: int|
            0 <= i < ms.len() && #[trigger] ms[i].1 == q && ms[i].0 <= y < ms[i].0 + p.len() as int;
        assert(is_occurrence(lines, p, ms[i]));
        if i < j {
            assert(comes_before(ms[i], ms[j]));
        }
        if i > j + 1 {
            assert(comes_before(ms[j + 1], ms[i]));
        }
    }
}

/// Row `q`, holding the line `line` of the original text, once every
/// occurrence of `p` from row `r`, byte `c` on is replaced by `rb`: rows
/// before `r` as they were, row `r` replaced from byte `c` on, and later rows
/// replaced whole.
spec fn replaced_from(line: Seq<u8>, q: int, r: int, c: int, p: Seq<u8>, rb: Seq<u8>) -> Seq<u8> {
    if q < r {
        line
    } else if q == r {
        line.subrange(0, c) + replace_occurrences(line.subrange(c, line.len() as int), p, rb)
    } else {
        replace_occurrences(line, p, rb)
    }
}

/// The row of the match `j` of `ms`, or `n` past the last match.
spec fn cut_row(ms: Seq<MatchView>, n: int, j: int) -> int {
    if j < ms.len() {
        ms[j].1 as int
    } else {
        n
    }
}

/// The column of the match `j` of `ms`, or 0 past the last match.
spec fn cut_col(ms: Seq<MatchView>, j: int) -> int {
    if j < ms.len() {
        ms[j].0 as int
    } else {
        0
    }
}

/// A row replaced from some point on holds no line break.
proof fn lemma_replaced_from_facts(line: Seq<u8>, q: int, r: int, c: int, p: Seq<u8>, rb: Seq<u8>)
    requires
        no_line_break(line),
        no_line_break(rb),
        q == r ==> 0 <= c <= line.len(),
    ensures
        no_line_break(replaced_from(line, q, r, c, p, rb)),
{
    if q == r {
        let a = line.subrange(0, c);
        let z = line.subrange(c, line.len() as int);
        assert forall|k: int| 0 <= k < z.len() implies #[trigger] z[k] != lf() && z[k] != 13u8 by {
            assert(z[k] == line[c + k]);
        }
        lemma_replace_no_break(z, p, rb);
        let out = a + replace_occurrences(z, p, rb);
        assert forall|k: int| 0 <= k < out.len() implies #[trigger] out[k] != lf() && out[k] != cr() by {
            if k < a.len() {
                assert(out[k] == line[k]);
            } else {
                assert(out[k] == replace_occurrences(z, p, rb)[k - a.len()]);
            }
        }
    } else if q > r {
        assert forall|k: int| 0 <= k < line.len() implies #[trigger] line[k] != lf() && line[k]
            != 13u8 by {}
        lemma_replace_no_break(line, p, rb);
    }
}

/// The lines of rows `xs` joined by line feeds, when each row encodes as the
/// row of the text replaced from row `r`, byte `c` on: these rows, but for a
/// last row that is empty, which joining loses.
proof fn lemma_replaced_lines(
    lines: Seq<Seq<u8>>,
    p: Seq<u8>,
    rb: Seq<u8>,
    xs: Seq<Seq<char>>,
    r: int,
    c: int,
)
    requires
        forall|q: int| 0 <= q < lines.len() ==> no_line_break(#[trigger] lines[q]),
        no_line_break(rb),
        0 <= r < lines.len() ==> 0 <= c <= lines[r].len(),
        xs.len() == lines.len(),
        forall|q: int|
            0 <= q < lines.len() ==> encode_utf8(#[trigger] xs[q]) == replaced_from(
                lines[q],
                q,
                r,
                c,
                p,
                rb,
            ),
    ensures
        ({
            let rows = Seq::new(lines.len(), |q: int| replaced_from(lines[q], q, r, c, p, rb));
            spec_lines(encode_utf8(join_lines(xs))) == (if rows.len() > 0 && rows.last().len() == 0 {
                rows.drop_last()
            } else {
                rows
            })
        }),
{
    let rows = Seq::new(lines.len(), |q: int| replaced_from(lines[q], q, r, c, p, rb));
    assert forall|i: int| 0 <= i < xs.len() implies no_line_break(#[trigger] encode_utf8(xs[i])) by {
        lemma_replaced_from_facts(lines[i], i, r, c, p, rb);
    }
    assert(encode_lines(xs) =~= rows);
    lemma_lines_of_join(xs);
    if xs.len() > 0 {
        let n = xs.len() - 1;
        assert(xs.last() == xs[n]);
        assert(rows.last() == encode_utf8(xs[n]));
        if xs.last().len() == 0 {
            assert(encode_utf8(xs.last()) =~= Seq::<u8>::empty());
        } else {
            assert(encode_utf8(xs.last()).len() > 0) by {
                reveal_with_fuel(encode_utf8, 1);
            }
        }
    }
}

/// One row, replaced from match `(r, c)` on, made from the same row replaced
/// from the next match `(r2, c2)` on: the match `(r, c)` is an occurrence,
/// and no occurrence starts between its end and the next match. The row of
/// the match is its line up to `c`, then the pattern, then the rest replaced;
/// once replaced, the replacement stands in place of the pattern.
proof fn lemma_row_step(
    line: Seq<u8>,
    cur: Seq<u8>,
    q: int,
    r: int,
    c: int,
    r2: int,
    c2: int,
    p: Seq<u8>,
    rp: Seq<char>,
)
    requires
        valid_utf8(line),
        valid_utf8(cur),
        p.len() > 0,
        cur == replaced_from(line, q, r2, c2, p, encode_utf8(rp)),
        r < r2 || (r == r2 && c + p.len() <= c2),
        q == r ==> occurs_at(line, p, c) && is_char_boundary(line, c) && is_char_boundary(
            line,
            c + p.len(),
        ),
        q == r2 ==> occurs_at(line, p, c2) && is_char_boundary(line, c2),
        forall|y: int|
            (q > r || (q == r && y >= c + p.len())) && (q < r2 || (q == r2 && y < c2))
                ==> !#[trigger] occurs_at(line, p, y),
    ensures
        encode_utf8(
            if q == r {
                replaced_line(cur, c, p.len() as int, rp)
            } else {
                decode_utf8(cur)
            },
        ) == replaced_from(line, q, r, c, p, encode_utf8(rp)),
        q == r ==> {
            let a = line.subrange(0, c);
            let z = replace_occurrences(
                line.subrange(c + p.len(), line.len() as int),
                p,
                encode_utf8(rp),
            );
            &&& cur == a + p + z
            &&& replaced_from(line, q, r, c, p, encode_utf8(rp)) == a + encode_utf8(rp) + z
        },
{
    let rb = encode_utf8(rp);
    let e = c + p.len();
    let whole = line.subrange(0, line.len() as int);
    assert(whole =~= line);
    if q == r {
        let a = line.subrange(0, c);
        let rest = line.subrange(e, line.len() as int);
        let z = replace_occurrences(rest, p, rb);
        assert(line.subrange(c, e) =~= p);
        if r < r2 {
            assert forall|y: int| e <= y implies !#[trigger] occurs_at(line, p, y) by {}
            lemma_replace_none(line, p, rb, e);
            assert(cur == line);
            assert(cur =~= a + p + z);
        } else {
            assert forall|y: int| e <= y < c2 implies !#[trigger] occurs_at(line, p, y) by {}
            lemma_replace_gap(line, p, rb, e, c2);
            let tail = replace_occurrences(line.subrange(c2, line.len() as int), p, rb);
            assert(cur == line.subrange(0, c2) + tail);
            assert(line.subrange(0, c2) =~= a + p + line.subrange(e, c2));
            assert(cur =~= a + p + z);
            // The match's ends stay character boundaries of the row.
            valid_utf8_split(line, c2);
            is_char_boundary_start_end_of_seq(cur);
            assert(cur.subrange(0, c2) =~= line.subrange(0, c2));
            lemma_boundary_after_valid(cur, 0, c2);
            lemma_boundary_common_prefix(line, cur, c2, c);
            lemma_boundary_common_prefix(line, cur, c2, e);
        }
        valid_utf8_split(cur, c);
        valid_utf8_split(cur, e);
        assert(cur.subrange(0, c) =~= a);
        assert(cur.subrange(e, cur.len() as int) =~= z);
        decode_utf8_encode_utf8(a);
        decode_utf8_encode_utf8(z);
        lemma_encode_concat(decode_utf8(a) + rp, decode_utf8(z));
        lemma_encode_concat(decode_utf8(a), rp);
        lemma_replace_at(line, p, rb, c);
        assert(a + (rb + z) =~= a + rb + z);
    } else {
        decode_utf8_encode_utf8(cur);
        if q > r {
            if q < r2 {
                assert forall|y: int| 0 <= y implies !#[trigger] occurs_at(line, p, y) by {}
                lemma_replace_none(line, p, rb, 0);
            } else if q == r2 {
                assert forall|y: int| 0 <= y < c2 implies !#[trigger] occurs_at(line, p, y) by {}
                lemma_replace_gap(line, p, rb, 0, c2);
            }
        }
    }
}

/// In a text of lines `lines` replaced from match `j` on (not the first),
/// the last row is not empty: the last line is not, and it does not vanish
/// when replaced unless it is the only one.
proof fn lemma_last_row_kept(lines: Seq<Seq<u8>>, p: Seq<u8>, rb: Seq<u8>, ms: Seq<MatchView>, j: int)
    requires
        lists_occurrences(lines, p, ms),
        lines.len() > 0,
        lines.last().len() > 0,
        lines.len() <= 1 || replace_occurrences(lines.last(), p, rb).len() > 0,
        p.len() > 0,
        1 <= j <= ms.len(),
    ensures
        replaced_from(
            lines[lines.len() - 1],
            lines.len() - 1,
            cut_row(ms, lines.len() as int, j),
            cut_col(ms, j),
            p,
            rb,
        ).len() > 0,
{
    let n = lines.len() as int;
    let last = n - 1;
    let r2 = cut_row(ms, n, j);
    let c2 = cut_col(ms, j);
    let l = lines[last];
    assert(lines.last() == l);
    assert(is_occurrence(lines, p, ms[j - 1]));
    if j < ms.len() {
        assert(is_occurrence(lines, p, ms[j]));
        assert(comes_before(ms[j - 1], ms[j]));
    }
    if r2 == last {
        let row = replaced_from(l, last, r2, c2, p, rb);
        assert(l.subrange(0, l.len() as int) =~= l);
        if c2 > 0 {
            assert(row[0] == l[0]);
        } else if n == 1 {
            assert(ms[j - 1].1 == 0);
        }
    }
}

/// The text whose rows are the original lines replaced from the first match
/// on is the original text with every occurrence replaced.
#[verifier::spinoff_prover]
proof fn lemma_replace_stages_done(
    lines: Seq<Seq<u8>>,
    ms: Seq<MatchView>,
    p: Seq<u8>,
    rb: Seq<u8>,
    xs: Seq<Seq<char>>,
)
    requires
        lists_occurrences(lines, p, ms),
        forall|q: int| 0 <= q < lines.len() ==> valid_utf8(#[trigger] lines[q]) && no_line_break(lines[q]),
        p.len() > 0,
        forall|k: int| 0 <= k < p.len() ==> #[trigger] p[k] != lf(),
        xs.len() == lines.len(),
        forall|q: int|
            0 <= q < lines.len() ==> encode_utf8(#[trigger] xs[q]) == replaced_from(
                lines[q],
                q,
                cut_row(ms, lines.len() as int, 0),
                cut_col(ms, 0),
                p,
                rb,
            ),
    ensures
        encode_utf8(join_lines(xs)) == replace_occurrences(
            encode_utf8(join_lines(decode_lines(lines))),
            p,
            rb,
        ),
{
    let n = lines.len() as int;
    let ls = decode_lines(lines);
    assert forall|q: int| 0 <= q < n implies #[trigger] encode_utf8(xs[q]) == replace_occurrences(
        encode_utf8(ls[q]),
        p,
        rb,
    ) by {
        let line = lines[q];
        decode_utf8_encode_utf8(line);
        assert(ls[q] == decode_utf8(line));
        assert(line.subrange(0, line.len() as int) =~= line);
        if ms.len() > 0 && q == ms[0].1 {
            assert(is_occurrence(lines, p, ms[0]));
            assert forall|y: int| 0 <= y < ms[0].0 implies !#[trigger] occurs_at(line, p, y) by {
                lemma_no_occurrence_between(lines, p, ms, -1, q, y);
            }
            lemma_replace_gap(line, p, rb, 0, ms[0].0 as int);
        } else if ms.len() == 0 || q < ms[0].1 {
            assert forall|y: int| 0 <= y implies !#[trigger] occurs_at(line, p, y) by {
                lemma_no_occurrence_between(lines, p, ms, -1, q, y);
            }
            lemma_replace_none(line, p, rb, 0);
        }
    }
    assert forall|i: int, k: int| 0 <= i < n && 0 <= k < encode_utf8(ls[i]).len() implies #[trigger] encode_utf8(
        ls[i],
    )[k] != lf() by {
        decode_utf8_encode_utf8(lines[i]);
    }
    lemma_join_replaced(ls, xs, p, rb);
}

/// One replacement, of match `j - 1`, in a text whose rows are the original
/// lines replaced from match `j` on: each row of the result is the original
/// line replaced from match `j - 1` on; in the row of the match, the pattern
/// gives way to the replacement.
#[verifier::spinoff_prover]
proof fn lemma_stage_step(
    lines: Seq<Seq<u8>>,
    ms: Seq<MatchView>,
    p: Seq<u8>,
    rp: Seq<char>,
    xs: Seq<Seq<char>>,
    ys: Seq<Seq<u8>>,
    j: int,
)
    requires
        lists_occurrences(lines, p, ms),
        forall|q: int| 0 <= q < lines.len() ==> valid_utf8(#[trigger] lines[q]) && no_line_break(lines[q]),
        p.len() > 0,
        1 <= j <= ms.len(),
        xs.len() == lines.len(),
        ys.len() == lines.len(),
        forall|q: int|
            0 <= q < lines.len() ==> encode_utf8(#[trigger] xs[q]) == replaced_from(
                lines[q],
                q,
                cut_row(ms, lines.len() as int, j),
                cut_col(ms, j),
                p,
                encode_utf8(rp),
            ),
        forall|q: int| 0 <= q < lines.len() ==> #[trigger] ys[q] == encode_utf8(xs[q]),
    ensures
        ({
            let m = ms[j - 1];
            let r = m.1 as int;
            let c = m.0 as int;
            let e = c + p.len();
            let rb = encode_utf8(rp);
            let x = replace_lines(ys, m, rp);
            &&& forall|q: int|
                0 <= q < lines.len() ==> #[trigger] encode_utf8(x[q]) == replaced_from(
                    lines[q],
                    q,
                    r,
                    c,
                    p,
                    rb,
                )
            &&& ys[r] == lines[r].subrange(0, c) + p + replace_occurrences(
                lines[r].subrange(e, lines[r].len() as int),
                p,
                rb,
            )
            &&& replaced_from(lines[r], r, r, c, p, rb) == lines[r].subrange(0, c) + rb
                + replace_occurrences(lines[r].subrange(e, lines[r].len() as int), p, rb)
        }),
{
    let n = lines.len() as int;
    let rb = encode_utf8(rp);
    let m = ms[j - 1];
    let r = m.1 as int;
    let c = m.0 as int;
    let e = c + p.len();
    let r2 = cut_row(ms, n, j);
    let c2 = cut_col(ms, j);
    let x = replace_lines(ys, m, rp);
    assert(is_occurrence(lines, p, m));
    if j < ms.len() {
        assert(is_occurrence(lines, p, ms[j]));
        assert(comes_before(ms[j - 1], ms[j]));
    }
    assert forall|q: int| 0 <= q < n implies #[trigger] encode_utf8(x[q]) == replaced_from(
        lines[q],
        q,
        r,
        c,
        p,
        rb,
    ) && (q == r ==> {
        let a = lines[q].subrange(0, c);
        let z = replace_occurrences(lines[q].subrange(e, lines[q].len() as int), p, rb);
        &&& ys[q] == a + p + z
        &&& replaced_from(lines[q], q, r, c, p, rb) == a + rb + z
    }) by {
        let line = lines[q];
        assert(ys[q] == replaced_from(line, q, r2, c2, p, rb));
        encode_utf8_valid_utf8(xs[q]);
        assert forall|y: int|
            (q > r || (q == r && y >= e)) && (q < r2 || (q == r2 && y < c2)) implies !#[trigger] occurs_at(
            line,
            p,
            y,
        ) by {
            lemma_no_occurrence_between(lines, p, ms, j - 1, q, y);
        }
        lemma_row_step(line, ys[q], q, r, c, r2, c2, p, rp);
    }
    assert(encode_utf8(x[r]) == replaced_from(lines[r], r, r, c, p, rb));
}

/// Replacing the first `j` matches of `ms`, from the last to the first, in a
/// text `d` whose rows are those of the original lines replaced from match `j`
/// on, gives the original text with every occurrence replaced; and when the
/// replacement differs from the pattern, each such replacement edits.
#[verifier::spinoff_prover]
proof fn lemma_replace_stages(
    lines: Seq<Seq<u8>>,
    ms: Seq<MatchView>,
    pattern: Seq<char>,
    rp: Seq<char>,
    d: Seq<char>,
    xs: Seq<Seq<char>>,
    j: int,
)
    requires
        lists_occurrences(lines, encode_utf8(pattern), ms),
        forall|q: int| 0 <= q < lines.len() ==> valid_utf8(#[trigger] lines[q]) && no_line_break(lines[q]),
        lines.len() > 0 ==> lines.last().len() > 0,
        encode_utf8(pattern).len() > 0,
        forall|k: int| 0 <= k < encode_utf8(pattern).len() ==> #[trigger] encode_utf8(pattern)[k] != lf(),
        no_line_break(encode_utf8(rp)),
        lines.len() <= 1 || replace_occurrences(lines.last(), encode_utf8(pattern), encode_utf8(rp)).len()
            > 0,
        0 <= j <= ms.len(),
        d == join_lines(xs),
        xs.len() == lines.len(),
        forall|q: int|
            0 <= q < lines.len() ==> encode_utf8(#[trigger] xs[q]) == replaced_from(
                lines[q],
                q,
                cut_row(ms, lines.len() as int, j),
                cut_col(ms, j),
                encode_utf8(pattern),
                encode_utf8(rp),
            ),
    ensures
        encode_utf8(replace_all(d, ms.take(j), rp)) == replace_occurrences(
            encode_utf8(join_lines(decode_lines(lines))),
            encode_utf8(pattern),
            encode_utf8(rp),
        ),
        j > 0 && rp != pattern ==> replace_all_edits(d, ms.take(j), rp),
    decreases j,
{
    let p = encode_utf8(pattern);
    let rb = encode_utf8(rp);
    let n = lines.len() as int;
    if j == 0 {
        assert(ms.take(0) =~= Seq::<MatchView>::empty());
        lemma_replace_stages_done(lines, ms, p, rb, xs);
    } else {
        let m = ms[j - 1];
        let r = m.1 as int;
        let c = m.0 as int;
        let e = c + p.len();
        let r2 = cut_row(ms, n, j);
        let c2 = cut_col(ms, j);
        assert(is_occurrence(lines, p, m));
        if j < ms.len() {
            assert(is_occurrence(lines, p, ms[j]));
            assert(comes_before(ms[j - 1], ms[j]));
        }
        let old_rows = Seq::new(lines.len(), |q: int| replaced_from(lines[q], q, r2, c2, p, rb));
        assert(old_rows.last() == replaced_from(lines[n - 1], n - 1, r2, c2, p, rb));
        lemma_last_row_kept(lines, p, rb, ms, j);
        lemma_replaced_lines(lines, p, rb, xs, r2, c2);
        let ys = spec_lines(encode_utf8(d));
        let x = replace_lines(ys, m, rp);
        let d2 = replace_text(d, m, rp);
        assert forall|q: int| 0 <= q < n implies #[trigger] ys[q] == encode_utf8(xs[q]) by {}
        lemma_stage_step(lines, ms, p, rp, xs, ys, j);
        let ms_j = ms.take(j);
        assert(ms_j.last() == m);
        assert(ms_j.drop_last() =~= ms.take(j - 1));
        lemma_replace_stages(lines, ms, pattern, rp, d2, x, j - 1);
        assert(rp == pattern || d2 != d) by {
            if rp != pattern && d2 == d {
                lemma_replaced_lines(lines, p, rb, x, r, c);
                let new_rows = Seq::new(lines.len(), |q: int| replaced_from(lines[q], q, r, c, p, rb));
                if new_rows.last().len() == 0 {
                    assert(spec_lines(encode_utf8(d2)).len() == n - 1);
                    assert(ys.len() == n);
                }
                let a = lines[r].subrange(0, c);
                let z = replace_occurrences(lines[r].subrange(e, lines[r].len() as int), p, rb);
                assert(encode_utf8(x[r]) == replaced_from(lines[r], r, r, c, p, rb));
                assert(d2 == join_lines(x));
                assert(ys[r] == replaced_from(lines[r], r, r, c, p, rb));
                assert(a + p + z == a + rb + z);
                assert(p.len() == rb.len());
                assert forall|k: int| 0 <= k < p.len() implies p[k] == rb[k] by {
                    assert((a + p + z)[a.len() + k] == p[k]);
                    assert((a + rb + z)[a.len() + k] == rb[k]);
                }
                assert(p =~= rb);
                encode_utf8_decode_utf8(pattern);
                encode_utf8_decode_utf8(rp);
            }
        }
    }
}

/// Replacing, from the last to the first, every match that a case-sensitive
/// plain-pattern search reports is replacing every occurrence of the pattern
/// in the text, as a scan from left to right finds them (which is what
/// `str::replace` does): for a non-empty pattern without a line feed, a
/// replacement without a line break (the empty one too), and a text that holds
/// no carriage return and does not end with a line feed, whose last line does
/// not vanish when replaced unless it is the only one (joining lines would
/// lose that empty last line with its line feed). The replacement is always
/// safe, and it edits the text exactly when something was found and the
/// replacement differs from the pattern.
pub proof fn law_replace_found_matches_is_replace_occurrences(
    contents: Seq<char>,
    pattern: Seq<char>,
    replacement: Seq<char>,
)
    requires
        encode_utf8(contents).len() <= isize::MAX,
        plain_line_ends(encode_utf8(contents)),
        pattern.len() > 0,
        forall|k: int| 0 <= k < encode_utf8(pattern).len() ==> #[trigger] encode_utf8(pattern)[k] != lf(),
        no_line_break(encode_utf8(replacement)),
        spec_lines(encode_utf8(contents)).len() <= 1 || replace_occurrences(
            spec_lines(encode_utf8(contents)).last(),
            encode_utf8(pattern),
            encode_utf8(replacement),
        ).len() > 0,
    ensures
        can_replace_all(
            contents,
            search_spec(contents, pattern, true, MatchingMode::Pattern),
            replacement,
        ),
        encode_utf8(
            replace_all(
                contents,
                search_spec(contents, pattern, true, MatchingMode::Pattern),
                replacement,
            ),
        ) == replace_occurrences(
            encode_utf8(contents),
            encode_utf8(pattern),
            encode_utf8(replacement),
        ),
        replace_all_edits(
            contents,
            search_spec(contents, pattern, true, MatchingMode::Pattern),
            replacement,
        ) == (search_spec(contents, pattern, true, MatchingMode::Pattern).len() > 0 && replacement
            != pattern),
{
    let ms = search_spec(contents, pattern, true, MatchingMode::Pattern);
    let b = encode_utf8(contents);
    let lines = spec_lines(b);
    let p = encode_utf8(pattern);
    let rb = encode_utf8(replacement);
    encode_utf8_valid_utf8(contents);
    is_char_boundary_start_end_of_seq(b);
    lemma_lines_from_facts(b, 0);
    lemma_lines_no_cr(b, 0);
    if b.len() > 0 {
        lemma_last_line_nonempty(b, 0);
    }
    assert(p.len() > 0) by {
        reveal_with_fuel(encode_utf8, 1);
    }
    law_search_finds_occurrences(contents, pattern);
    law_search_in_order(contents, pattern);
    law_search_misses_nothing(contents, pattern);
    assert(lists_occurrences(lines, p, ms));
    assert forall|q: int| 0 <= q < lines.len() implies valid_utf8(#[trigger] lines[q]) && no_line_break(
        lines[q],
    ) by {
        assert forall|k: int| 0 <= k < lines[q].len() implies #[trigger] lines[q][k] != lf()
            && lines[q][k] != cr() by {}
    }
    law_replace_all_found_matches(contents, pattern, replacement);
    let xs = decode_lines(lines);
    lemma_join_of_lines(contents);
    assert forall|q: int| 0 <= q < lines.len() implies encode_utf8(#[trigger] xs[q]) == replaced_from(
        lines[q],
        q,
        cut_row(ms, lines.len() as int, ms.len() as int),
        cut_col(ms, ms.len() as int),
        p,
        rb,
    ) by {
        decode_utf8_encode_utf8(lines[q]);
    }
    lemma_replace_stages(lines, ms, pattern, replacement, contents, xs, ms.len() as int);
    assert(ms.take(ms.len() as int) =~= ms);
    if replacement == pattern {
        law_replace_by_pattern_is_no_edit(contents, pattern);
    }
}

// ---------------------------------------------------------------------------
// What a sequence of replacements is made of.
// ---------------------------------------------------------------------------

/// Replacing a single match is replacing it in the text: it is safe when that
/// match can be replaced, and it edits when the text changes.
pub proof fn law_replace_one(data: Seq<char>, m: MatchView, rp: Seq<char>)
    ensures
        replace_all(data, seq![m], rp) == replace_text(data, m, rp),
        replace_all_edits(data, seq![m], rp) == (replace_text(data, m, rp) != data),
        can_replace_all(data, seq![m], rp) == can_replace(data, m),
{
    let ms = seq![m];
    let t = replace_text(data, m, rp);
    let none = Seq::<MatchView>::empty();
    assert(ms.last() == m);
    assert(ms.drop_last() =~= none);
    assert(replace_all(t, none, rp) == t);
    assert(!replace_all_edits(t, none, rp));
    assert(can_replace_all(t, none, rp));
}

/// Replacing the matches `ms1 + ms2`, from the last to the first, is
/// replacing those of `ms2`, then those of `ms1` in the text that gives: it
/// is safe when both are, and it edits when either edits.
pub proof fn law_replace_in_two_batches(
    data: Seq<char>,
    ms1: Seq<MatchView>,
    ms2: Seq<MatchView>,
    rp: Seq<char>,
)
    ensures
        replace_all(data, ms1 + ms2, rp) == replace_all(replace_all(data, ms2, rp), ms1, rp),
        replace_all_edits(data, ms1 + ms2, rp) == (replace_all_edits(data, ms2, rp)
            || replace_all_edits(replace_all(data, ms2, rp), ms1, rp)),
        can_replace_all(data, ms1 + ms2, rp) == (can_replace_all(data, ms2, rp) && can_replace_all(
            replace_all(data, ms2, rp),
            ms1,
            rp,
        )),
    decreases ms2.len(),
{
    if ms2.len() == 0 {
        assert(ms1 + ms2 =~= ms1);
    } else {
        let all = ms1 + ms2;
        assert(all.last() == ms2.last());
        assert(all.drop_last() =~= ms1 + ms2.drop_last());
        law_replace_in_two_batches(replace_text(data, ms2.last(), rp), ms1, ms2.drop_last(), rp);
    }
}

/// Replacing matches that changes the text reports an edit.
pub proof fn law_replace_change_is_edit(data: Seq<char>, ms: Seq<MatchView>, rp: Seq<char>)
    ensures
        replace_all(data, ms, rp) != data ==> replace_all_edits(data, ms, rp),
    decreases ms.len(),
{
    if ms.len() > 0 {
        law_replace_change_is_edit(replace_text(data, ms.last(), rp), ms.drop_last(), rp);
    }
}

// ---------------------------------------------------------------------------
// What a regular-expression search reports in each row.
// ---------------------------------------------------------------------------

/// Keeping the elements of `s` that `pred` keeps keeps all of them when it
/// keeps each, and none when it keeps none.
proof fn lemma_filter_all_or_none(s: Seq<MatchView>, pred: spec_fn(MatchView) -> bool)
    ensures
        (forall|i: int| 0 <= i < s.len() ==> pred(#[trigger] s[i])) ==> s.filter(pred) == s,
        (forall|i: int| 0 <= i < s.len() ==> !pred(#[trigger] s[i])) ==> s.filter(pred) == Seq::<
            MatchView,
        >::empty(),
    decreases s.len(),
{
    reveal(Seq::filter);
    if s.len() > 0 {
        lemma_filter_all_or_none(s.drop_last(), pred);
        if forall|i: int| 0 <= i < s.len() ==> pred(#[trigger] s[i]) {
            assert forall|i: int| 0 <= i < s.drop_last().len() implies pred(
                #[trigger] s.drop_last()[i],
            ) by {
                assert(s.drop_last()[i] == s[i]);
            }
            assert(pred(s[s.len() - 1]));
            assert(s.drop_last().push(s.last()) =~= s);
        }
        if forall|i: int| 0 <= i < s.len() ==> !pred(#[trigger] s[i]) {
            assert forall|i: int| 0 <= i < s.drop_last().len() implies !pred(
                #[trigger] s.drop_last()[i],
            ) by {
                assert(s.drop_last()[i] == s[i]);
            }
            assert(!pred(s[s.len() - 1]));
        }
    }
}

/// The matches of row `r` among those of a regular-expression search in the
/// first `n` lines.
proof fn lemma_regex_rows_upto(
    lines: Seq<Seq<u8>>,
    p: Seq<u8>,
    case_sensitive: bool,
    re: SearchRegex,
    n: int,
    r: int,
    pred: spec_fn(MatchView) -> bool,
)
    requires
        lines.len() <= u64::MAX,
        0 <= n <= lines.len(),
        0 <= r,
        forall|e: MatchView| #[trigger] pred(e) == (e.1 == r),
    ensures
        matches_upto(lines, p, case_sensitive, MatchingMode::Regex(re), n).filter(pred) == (if r < n {
            regex_row(lines[r], r, re@)
        } else {
            Seq::<MatchView>::empty()
        }),
    decreases n,
{
    let mode = MatchingMode::Regex(re);
    if n == 0 {
        reveal(Seq::filter);
    } else {
        lemma_regex_rows_upto(lines, p, case_sensitive, re, n - 1, r, pred);
        let before = matches_upto(lines, p, case_sensitive, mode, n - 1);
        let row = regex_row(lines[n - 1], n - 1, re@);
        assert(matches_upto(lines, p, case_sensitive, mode, n) == before + row);
        Seq::filter_distributes_over_add(before, row, pred);
        assert forall|i: int| 0 <= i < row.len() implies #[trigger] row[i].1 == n - 1 by {}
        lemma_filter_all_or_none(row, pred);
        if r == n - 1 {
            assert(forall|i: int| 0 <= i < row.len() ==> pred(#[trigger] row[i]));
            assert(Seq::<MatchView>::empty() + row =~= row);
        } else {
            assert(forall|i: int| 0 <= i < row.len() ==> !pred(#[trigger] row[i]));
            assert(before.filter(pred) + Seq::<MatchView>::empty() =~= before.filter(pred));
        }
    }
}

/// A regular-expression search reports, for each line of the text (an empty
/// one too), exactly one match per span that `find_iter` yields on it, in
/// the same order: the span's start as column, the line's row, the span's
/// length, and the line; whatever the pattern and the case flag.
pub proof fn law_regex_search_rows(
    contents: Seq<char>,
    pattern: Seq<char>,
    case_sensitive: bool,
    re: SearchRegex,
    r: int,
)
    requires
        encode_utf8(contents).len() <= isize::MAX,
        0 <= r < spec_lines(encode_utf8(contents)).len(),
    ensures
        search_spec(contents, pattern, case_sensitive, MatchingMode::Regex(re)).filter(
            |e: MatchView| e.1 == r,
        ) == regex_spans(re@, decode_utf8(spec_lines(encode_utf8(contents))[r])).map_values(
            |sp: (usize, usize)|
                (
                    sp.0 as u64,
                    r as u64,
                    (sp.1 - sp.0) as i64,
                    decode_utf8(spec_lines(encode_utf8(contents))[r]),
                ),
        ),
{
    let lines = spec_lines(encode_utf8(contents));
    lemma_text_lines_fit(contents);
    let pred = |e: MatchView| e.1 == r;
    lemma_regex_rows_upto(
        lines,
        encode_utf8(pattern),
        case_sensitive,
        re,
        lines.len() as int,
        r,
        pred,
    );
    let line = lines[r];
    assert(regex_row(line, r, re@) =~= regex_spans(re@, decode_utf8(line)).map_values(
        |sp: (usize, usize)| (sp.0 as u64, r as u64, (sp.1 - sp.0) as i64, decode_utf8(line)),
    ));
}

/// A plain-pattern search in a line, ignoring case or not, reports columns
/// from where it starts on, each at least a pattern's length after the one
/// before: after each match it goes on right after the match, so that the
/// matches never overlap.
pub proof fn law_pattern_search_goes_on_after_each_match(
    line: Seq<u8>,
    p: Seq<u8>,
    case_sensitive: bool,
    c: int,
)
    requires
        p.len() > 0,
    ensures
        forall|k: int|
            0 <= k < pattern_columns(line, p, case_sensitive, c).len() ==> c <= #[trigger] pattern_columns(
                line,
                p,
                case_sensitive,
                c,
            )[k],
        forall|i: int, k: int|
            0 <= i < k < pattern_columns(line, p, case_sensitive, c).len() ==> #[trigger] pattern_columns(
                line,
                p,
                case_sensitive,
                c,
            )[i] + p.len() <= #[trigger] pattern_columns(line, p, case_sensitive, c)[k],
    decreases line.len() + 1 - c,
{
    reveal_with_fuel(pattern_columns, 1);
    let cols = pattern_columns(line, p, case_sensitive, c);
    if !(c < 0 || c > line.len() || !is_char_boundary(line, c)) {
        let hay = haystack(line, c, case_sensitive);
        lemma_find_first(hay, p);
        if let Some(pos) = find_first(hay, p) {
            let next = c + pos + p.len();
            if next <= line.len() {
                law_pattern_search_goes_on_after_each_match(line, p, case_sensitive, next);
                let rest = pattern_columns(line, p, case_sensitive, next);
                assert(cols == seq![c + pos] + rest);
                assert forall|i: int, k: int| 0 <= i < k < cols.len() implies #[trigger] cols[i]
                    + p.len() <= #[trigger] cols[k] by {
                    assert(cols[k] == rest[k - 1]);
                    if i > 0 {
                        assert(cols[i] == rest[i - 1]);
                    }
                }
                assert forall|k: int| 0 <= k < cols.len() implies c <= #[trigger] cols[k] by {
                    if k > 0 {
                        assert(cols[k] == rest[k - 1]);
                    }
                }
            }
        }
    }
}

} // verus!
