//! The matches of a search within a text file, the search itself, and the
//! replacement of matches.

use vstd::prelude::*;
use vstd::string::*;
use vstd::utf8::*;

use crate::find::{find_bytes, find_first, lemma_find_first, lowercase, str_len, to_lowercase};
use crate::lines::{
    bytes_of_strs, chars_of_strings, join_lines, join_with_newlines, spec_lines, split_lines,
};
use crate::laws::{
    comes_before, fits_lines, law_replace_change_is_edit, law_search_finds_occurrences,
    law_search_in_order, is_occurrence,
};
use crate::matching::{regex_spans, MatchingMode};
use crate::search_regex::regex_match_spans;

verus! {

/// What a match is made of: the column (in bytes) of its first byte in its
/// line, its row, its length in bytes, and the text of the line.
pub type MatchView = (u64, u64, i64, Seq<char>);

/// All the matches of a search within one text file.
#[derive(Debug, Clone)]
pub struct TextMatches {
    /// The path of the file.
    path: String,
    /// The list of matches within the file.
    matches: Vec<TextMatch>,
}

/// One match of a search within a line of a text file.
#[derive(Debug, Clone, PartialEq, Eq)]
pub struct TextMatch {
    /// Column (byte offset in its line) of the first byte of the match.
    column: u64,
    /// Row of the line of the match.
    row: u64,
    /// Length of the match, in bytes.
    len: i64,
    /// The line of text that holds the match.
    text: String,
}

/// A text file: its contents.
pub struct Text {
    contents: String,
}

impl View for TextMatch {
    type V = MatchView;

    closed spec fn view(&self) -> MatchView {
        (self.column, self.row, self.len, self.text@)
    }
}

/// The views of a sequence of matches.
pub open spec fn match_views(ms: Seq<TextMatch>) -> Seq<MatchView> {
    ms.map_values(|m: TextMatch| m@)
}

impl View for TextMatches {
    type V = (Seq<char>, Seq<MatchView>);

    closed spec fn view(&self) -> (Seq<char>, Seq<MatchView>) {
        (self.path@, match_views(self.matches@))
    }
}

impl View for Text {
    type V = Seq<char>;

    closed spec fn view(&self) -> Seq<char> {
        self.contents@
    }
}

// ---------------------------------------------------------------------------
// What a search finds.
// ---------------------------------------------------------------------------

/// What a search looks in, in the line `line` from the byte `column` on: the
/// rest of the line as it is, or lower-cased when the search ignores case.
pub open spec fn haystack(line: Seq<u8>, column: int, case_sensitive: bool) -> Seq<u8> {
    let rest = line.subrange(column, line.len() as int);
    if case_sensitive {
        rest
    } else {
        encode_utf8(lowercase(decode_utf8(rest)))
    }
}

/// The columns at which a plain-pattern search reports matches in `line`,
/// looking from byte `column` on: it looks for the first occurrence of the
/// pattern from there, reports it, and goes on right after it; it stops when
/// the pattern no longer occurs or when the column is past the end of the
/// line or not on a character boundary.
#[verifier::opaque]
pub open spec fn pattern_columns(line: Seq<u8>, pattern: Seq<u8>, case_sensitive: bool, column: int) -> Seq<int>
    decreases line.len() + 1 - column,
{
    if column < 0 || column > line.len() || pattern.len() == 0 || !is_char_boundary(line, column) {
        seq![]
    } else {
        let hay = haystack(line, column, case_sensitive);
        proof {
            lemma_find_first(hay, pattern);
        }
        match find_first(hay, pattern) {
            None => seq![],
            Some(pos) => {
                let next = column + pos + pattern.len();
                if next <= line.len() {
                    seq![column + pos] + pattern_columns(line, pattern, case_sensitive, next)
                } else {
                    seq![column + pos]
                }
            },
        }
    }
}

/// The matches, at the columns `columns`, of a pattern of `len` bytes in the
/// line `line` of row `row`.
pub open spec fn matches_at(columns: Seq<int>, line: Seq<u8>, row: int, len: int) -> Seq<MatchView> {
    columns.map_values(|c: int| (c as u64, row as u64, len as i64, decode_utf8(line)))
}

/// The matches of a plain-pattern search in the line `line` of row `row`.
pub open spec fn pattern_row(line: Seq<u8>, row: int, pattern: Seq<u8>, case_sensitive: bool) -> Seq<MatchView> {
    matches_at(pattern_columns(line, pattern, case_sensitive, 0), line, row, pattern.len() as int)
}

/// The matches of a regular-expression search in the line `line` of row
/// `row`.
pub open spec fn regex_row(line: Seq<u8>, row: int, regex: Seq<char>) -> Seq<MatchView> {
    regex_spans(regex, decode_utf8(line)).map_values(
        |sp: (usize, usize)| (sp.0 as u64, row as u64, (sp.1 - sp.0) as i64, decode_utf8(line)),
    )
}

/// The matches of a search in the line `line` of row `row`.
pub open spec fn row_matches(
    line: Seq<u8>,
    row: int,
    pattern: Seq<u8>,
    case_sensitive: bool,
    mode: MatchingMode,
) -> Seq<MatchView> {
    match mode {
        MatchingMode::Regex(re) => regex_row(line, row, re@),
        MatchingMode::Pattern => pattern_row(line, row, pattern, case_sensitive),
    }
}

/// The matches of a search in the first `n` lines of `lines`, row by row.
pub open spec fn matches_upto(
    lines: Seq<Seq<u8>>,
    pattern: Seq<u8>,
    case_sensitive: bool,
    mode: MatchingMode,
    n: int,
) -> Seq<MatchView>
    decreases n,
{
    if n <= 0 {
        seq![]
    } else {
        matches_upto(lines, pattern, case_sensitive, mode, n - 1) + row_matches(
            lines[n - 1],
            n - 1,
            pattern,
            case_sensitive,
            mode,
        )
    }
}

/// The matches of a search for `pattern` in the text `contents`.
pub open spec fn search_spec(
    contents: Seq<char>,
    pattern: Seq<char>,
    case_sensitive: bool,
    mode: MatchingMode,
) -> Seq<MatchView> {
    let lines = spec_lines(encode_utf8(contents));
    matches_upto(lines, encode_utf8(pattern), case_sensitive, mode, lines.len() as int)
}

/// The matches `ms` of row `row` lie in the line `line`, between character
/// boundaries, each ending before the next one starts.
pub open spec fn row_fits(line: Seq<u8>, row: int, ms: Seq<MatchView>) -> bool {
    &&& forall|k: int|
        0 <= k < ms.len() ==> {
            let e = #[trigger] ms[k];
            &&& e.1 == row
            &&& 0 <= e.2
            &&& e.0 + e.2 <= line.len()
            &&& is_char_boundary(line, e.0 as int)
            &&& is_char_boundary(line, e.0 + e.2)
        }
    &&& forall|k: int, h: int| 0 <= k < h < ms.len() ==> #[trigger] ms[k].0 + ms[k].2 <= #[trigger] ms[h].0
}

/// The matches `ms` each lie in a line of `lines`, fit it, and each comes
/// before the next: replacing them from the last to the first is safe.
pub open spec fn replaceable_in_order(lines: Seq<Seq<u8>>, ms: Seq<MatchView>) -> bool {
    &&& forall|i: int| 0 <= i < ms.len() ==> #[trigger] ms[i].1 < lines.len() && fits_lines(lines, ms[i])
    &&& forall|i: int, j: int| 0 <= i < j < ms.len() ==> comes_before(#[trigger] ms[i], #[trigger] ms[j])
}

/// A search ends: a plain-pattern search for the empty pattern runs forever
/// on a text that has a line.
pub open spec fn search_ends(contents: Seq<char>, pattern: Seq<char>, mode: MatchingMode) -> bool {
    mode is Pattern && pattern.len() == 0 ==> spec_lines(encode_utf8(contents)).len() == 0
}

// ---------------------------------------------------------------------------
// What a replacement does.
// ---------------------------------------------------------------------------

/// The line `line` (its bytes) with the bytes from `column` to
/// `column + len` replaced by `replacement`.
pub open spec fn replaced_line(line: Seq<u8>, column: int, len: int, replacement: Seq<char>) -> Seq<char> {
    decode_utf8(line.subrange(0, column)) + replacement + decode_utf8(
        line.subrange(column + len, line.len() as int),
    )
}

/// The lines `lines` (their bytes), with the match `m` replaced by
/// `replacement` in the line of its row.
pub open spec fn replace_lines(lines: Seq<Seq<u8>>, m: MatchView, replacement: Seq<char>) -> Seq<Seq<char>> {
    Seq::new(
        lines.len(),
        |r: int|
            if r == m.1 {
                replaced_line(lines[r], m.0 as int, m.2 as int, replacement)
            } else {
                decode_utf8(lines[r])
            },
    )
}

/// The text `data` once the match `m` is replaced by `replacement`: its lines,
/// with the match replaced in the line of its row, joined by line feeds.
pub open spec fn replace_text(data: Seq<char>, m: MatchView, replacement: Seq<char>) -> Seq<char> {
    join_lines(replace_lines(spec_lines(encode_utf8(data)), m, replacement))
}

/// The match `m` can be replaced in `data`: when its row is a line of `data`,
/// its byte range lies in that line and starts and ends on character
/// boundaries (replacing it panics otherwise).
pub open spec fn can_replace(data: Seq<char>, m: MatchView) -> bool {
    let lines = spec_lines(encode_utf8(data));
    m.1 < lines.len() ==> {
        let line = lines[m.1 as int];
        &&& 0 <= m.2
        &&& m.0 + m.2 <= line.len()
        &&& is_char_boundary(line, m.0 as int)
        &&& is_char_boundary(line, m.0 + m.2)
    }
}

/// The text `data` once the matches `ms` are replaced by `replacement`, one
/// after the other from the last to the first.
pub open spec fn replace_all(data: Seq<char>, ms: Seq<MatchView>, replacement: Seq<char>) -> Seq<char>
    decreases ms.len(),
{
    if ms.len() == 0 {
        data
    } else {
        replace_all(replace_text(data, ms.last(), replacement), ms.drop_last(), replacement)
    }
}

/// Each of the matches `ms`, replaced from the last to the first, can be
/// replaced in the text as the replacements before it left it.
pub open spec fn can_replace_all(data: Seq<char>, ms: Seq<MatchView>, replacement: Seq<char>) -> bool
    decreases ms.len(),
{
    ms.len() == 0 || (can_replace(data, ms.last()) && can_replace_all(
        replace_text(data, ms.last(), replacement),
        ms.drop_last(),
        replacement,
    ))
}

/// One of the replacements of `ms`, from the last to the first, changes the
/// text that it is made in.
pub open spec fn replace_all_edits(data: Seq<char>, ms: Seq<MatchView>, replacement: Seq<char>) -> bool
    decreases ms.len(),
{
    ms.len() > 0 && (replace_text(data, ms.last(), replacement) != data || replace_all_edits(
        replace_text(data, ms.last(), replacement),
        ms.drop_last(),
        replacement,
    ))
}

impl TextMatches {
    /// An empty list of matches for the file at `path`.
    pub fn new(path: &str) -> (r: Self)
        ensures
            r@.0 == path@,
            r@.1 == Seq::<MatchView>::empty(),
    {
        let r = Self { path: path.to_owned(), matches: Vec::new() };
        assert(match_views(r.matches@) =~= Seq::<MatchView>::empty());
        r
    }

    /// The path of the file.
    pub fn path(&self) -> (p: &String)
        ensures
            p@ == self@.0,
    {
        &self.path
    }

    /// The matches within the file.
    pub fn matches(&self) -> (ms: &Vec<TextMatch>)
        ensures
            match_views(ms@) == self@.1,
    {
        &self.matches
    }

    /// The path of the file, to change it.
    pub fn path_mut(&mut self) -> (p: &mut String)
        ensures
            p@ == old(self)@.0,
            final(self)@.0 == final(p)@,
            final(self)@.1 == old(self)@.1,
    {
        &mut self.path
    }

    /// The matches within the file, to change them.
    pub fn matches_mut(&mut self) -> (ms: &mut Vec<TextMatch>)
        ensures
            match_views(ms@) == old(self)@.1,
            final(self)@.1 == match_views(final(ms)@),
            final(self)@.0 == old(self)@.0,
    {
        &mut self.matches
    }
}

impl TextMatch {
    /// A match with the given column, row, length and line of text.
    pub fn new(column: u64, row: u64, len: i64, text: String) -> (r: Self)
        ensures
            r@ == (column, row, len, text@),
    {
        Self { column, row, len, text }
    }

    /// The column (byte offset in its line) of the first byte of the match.
    pub fn column(&self) -> (c: &u64)
        ensures
            *c == self@.0,
    {
        &self.column
    }

    /// The row of the line of the match.
    pub fn row(&self) -> (r: &u64)
        ensures
            *r == self@.1,
    {
        &self.row
    }

    /// The length of the match, in bytes.
    pub fn len(&self) -> (l: &i64)
        ensures
            *l == self@.2,
    {
        &self.len
    }

    /// The line of text that holds the match.
    pub fn text(&self) -> (t: &String)
        ensures
            t@ == self@.3,
    {
        &self.text
    }

    /// The column of the match, to change it.
    pub fn column_mut(&mut self) -> (c: &mut u64)
        ensures
            *c == old(self)@.0,
            final(self)@ == (*final(c), old(self)@.1, old(self)@.2, old(self)@.3),
    {
        &mut self.column
    }

    /// The row of the match, to change it.
    pub fn row_mut(&mut self) -> (r: &mut u64)
        ensures
            *r == old(self)@.1,
            final(self)@ == (old(self)@.0, *final(r), old(self)@.2, old(self)@.3),
    {
        &mut self.row
    }

    /// The length of the match, to change it.
    pub fn len_mut(&mut self) -> (l: &mut i64)
        ensures
            *l == old(self)@.2,
            final(self)@ == (old(self)@.0, old(self)@.1, *final(l), old(self)@.3),
    {
        &mut self.len
    }

    /// The line of text of the match, to change it.
    pub fn text_mut(&mut self) -> (t: &mut String)
        ensures
            t@ == old(self)@.3,
            final(self)@ == (old(self)@.0, old(self)@.1, old(self)@.2, final(t)@),
    {
        &mut self.text
    }

    /// Replaces this match by `replace_pattern` in the text `data`: the line
    /// of the match's row gets `replace_pattern` in place of the match's byte
    /// range, and the lines are joined again by line feeds. `data` is only
    /// written when that changes it; the result says whether it did.
    pub fn replace(&self, replace_pattern: &str, data: &mut String) -> (edited: bool)
        requires
            can_replace(old(data)@, self@),
        ensures
            final(data)@ == replace_text(old(data)@, self@, replace_pattern@),
            edited == (final(data)@ != old(data)@),
    {
        let ghost ls = spec_lines(encode_utf8(data@));
        let ghost target = replace_lines(ls, self@, replace_pattern@);
        let lines = split_lines(data.as_str());
        let mut new_lines: Vec<String> = Vec::new();
        let mut r: usize = 0;
        while r < lines.len()
            invariant
                bytes_of_strs(lines@) == ls,
                target == replace_lines(ls, self@, replace_pattern@),
                can_replace(old(data)@, self@),
                ls == spec_lines(encode_utf8(old(data)@)),
                r <= lines@.len(),
                chars_of_strings(new_lines@) == target.take(r as int),
            decreases lines@.len() - r,
        {
            let line = lines[r];
            assert(line.spec_bytes() == ls[r as int]);
            proof {
                encode_utf8_valid_utf8(line@);
                encode_utf8_decode_utf8(line@);
            }
            let ghost before = new_lines@;
            let next_line = if self.row == r as u64 {
                assert(self@.1 == r);
                assert(ls[self@.1 as int] == line.spec_bytes());
                let line_len = line.as_bytes().len();
                assert(0 <= self.len && self.column + self.len <= line_len);
                let start = self.column as usize;
                let end = start + self.len as usize;
                let (left, _) = line.split_at(start);
                let (_, right) = line.split_at(end);
                proof {
                    encode_utf8_decode_utf8(left@);
                    encode_utf8_decode_utf8(right@);
                }
                let mut new_line = left.to_owned();
                new_line.append(replace_pattern);
                new_line.append(right);
                assert(new_line@ == target[r as int]);
                new_line
            } else {
                let kept = line.to_owned();
                assert(kept@ == target[r as int]);
                kept
            };
            new_lines.push(next_line);
            assert(chars_of_strings(new_lines@) =~= chars_of_strings(before).push(next_line@));
            assert(chars_of_strings(new_lines@) =~= target.take(r + 1));
            r += 1;
        }
        assert(target.take(r as int) =~= target);
        let new_data = join_with_newlines(&new_lines);
        if new_data == *data {
            false
        } else {
            *data = new_data;
            true
        }
    }
}

/// Appends to `out` the matches of the regular expression `re` in the line
/// `data` of row `row`.
fn push_regex_matches(
    re: &crate::matching::SearchRegex,
    data: &str,
    row: usize,
    out: &mut Vec<TextMatch>,
)
    ensures
        match_views(final(out)@) == match_views(old(out)@) + regex_row(
            data.spec_bytes(),
            row as int,
            re@,
        ),
        row_fits(data.spec_bytes(), row as int, regex_row(data.spec_bytes(), row as int, re@)),
{
    proof {
        encode_utf8_decode_utf8(data@);
    }
    let dlen = str_len(data);
    let spans = regex_match_spans(re, data);
    proof {
        let line = data.spec_bytes();
        let rr = regex_row(line, row as int, re@);
        assert(spans@.len() == rr.len());
        assert forall|k: int| 0 <= k < rr.len() implies {
            let e = #[trigger] rr[k];
            &&& e.1 == row
            &&& 0 <= e.2
            &&& e.0 + e.2 <= line.len()
            &&& is_char_boundary(line, e.0 as int)
            &&& is_char_boundary(line, e.0 + e.2)
        } by {
            let sp = spans@[k];
            assert(sp.0 <= sp.1 <= dlen);
            assert(rr[k] == (sp.0 as u64, row as u64, (sp.1 - sp.0) as i64, decode_utf8(line)));
        }
        assert forall|k: int, h: int| 0 <= k < h < rr.len() implies #[trigger] rr[k].0 + rr[k].2
            <= #[trigger] rr[h].0 by {
            let sp = spans@[k];
            let sq = spans@[h];
            assert(sp.0 <= sp.1 <= dlen);
            assert(sp.1 <= sq.0);
            assert(rr[k] == (sp.0 as u64, row as u64, (sp.1 - sp.0) as i64, decode_utf8(line)));
            assert(rr[h] == (sq.0 as u64, row as u64, (sq.1 - sq.0) as i64, decode_utf8(line)));
        }
    }
    let ghost target = match_views(old(out)@) + regex_row(data.spec_bytes(), row as int, re@);
    let mut k: usize = 0;
    while k < spans.len()
        invariant
            k <= spans@.len(),
            spans@ == regex_spans(re@, data@),
            data@ == decode_utf8(data.spec_bytes()),
            forall|i: int| 0 <= i < spans@.len() ==> #[trigger] spans@[i].0 <= spans@[i].1,
            target == match_views(old(out)@) + regex_row(data.spec_bytes(), row as int, re@),
            match_views(out@) == match_views(old(out)@) + regex_row(
                data.spec_bytes(),
                row as int,
                re@,
            ).take(k as int),
        decreases spans@.len() - k,
    {
        let (start, end) = spans[k];
        assert(spans@[k as int].0 <= spans@[k as int].1);
        let m = TextMatch::new(start as u64, row as u64, (end - start) as i64, data.to_owned());
        let ghost before = out@;
        out.push(m);
        assert(match_views(out@) =~= match_views(before).push(m@));
        assert(regex_row(data.spec_bytes(), row as int, re@).take(k + 1) =~= regex_row(
            data.spec_bytes(),
            row as int,
            re@,
        ).take(k as int).push(m@));
        k += 1;
    }
    assert(regex_row(data.spec_bytes(), row as int, re@).take(k as int) =~= regex_row(
        data.spec_bytes(),
        row as int,
        re@,
    ));
}

/// Appends to `out` the matches of the plain pattern `pattern` in the line
/// `data` of row `row`.
fn push_pattern_matches(
    data: &str,
    pattern: &str,
    case_sensitive: bool,
    row: usize,
    out: &mut Vec<TextMatch>,
)
    requires
        pattern.spec_bytes().len() > 0,
    ensures
        match_views(final(out)@) == match_views(old(out)@) + pattern_row(
            data.spec_bytes(),
            row as int,
            pattern.spec_bytes(),
            case_sensitive,
        ),
        forall|k: int|
            old(out)@.len() <= k < final(out)@.len() ==> #[trigger] match_views(final(out)@)[k].1
                == row,
        forall|i: int, k: int|
            old(out)@.len() <= i < k < final(out)@.len() ==> #[trigger] match_views(final(out)@)[i].0
                + match_views(final(out)@)[i].2 <= #[trigger] match_views(final(out)@)[k].0,
{
    reveal_with_fuel(pattern_columns, 1);
    let ghost line = data.spec_bytes();
    let ghost p = pattern.spec_bytes();
    let ghost target = match_views(old(out)@) + pattern_row(line, row as int, p, case_sensitive);
    let pbytes = pattern.as_bytes();
    let length = pbytes.len();
    let dlen = str_len(data);
    let mut column: usize = 0;
    let ghost start = old(out)@.len();
    proof {
        encode_utf8_decode_utf8(data@);
        encode_utf8_valid_utf8(data@);
    }
    loop
        invariant_except_break
            forall|k: int|
                start <= k < out@.len() ==> #[trigger] match_views(out@)[k].1 == row
                    && match_views(out@)[k].0 + match_views(out@)[k].2 <= column,
        invariant
            start == old(out)@.len(),
            start <= out@.len(),
            forall|k: int| start <= k < out@.len() ==> #[trigger] match_views(out@)[k].1 == row,
            forall|i: int, k: int|
                start <= i < k < out@.len() ==> #[trigger] match_views(out@)[i].0 + match_views(
                    out@,
                )[i].2 <= #[trigger] match_views(out@)[k].0,
            line == data.spec_bytes(),
            p == pattern.spec_bytes(),
            pbytes@ == p,
            length == p.len(),
            length > 0,
            dlen == line.len(),
            dlen <= isize::MAX,
            valid_utf8(line),
            data@ == decode_utf8(line),
            target == match_views(old(out)@) + pattern_row(line, row as int, p, case_sensitive),
            match_views(out@) + matches_at(
                pattern_columns(line, p, case_sensitive, column as int),
                line,
                row as int,
                length as int,
            ) == target,
        ensures
            match_views(out@) == target,
            start <= out@.len(),
            forall|k: int| start <= k < out@.len() ==> #[trigger] match_views(out@)[k].1 == row,
            forall|i: int, k: int|
                start <= i < k < out@.len() ==> #[trigger] match_views(out@)[i].0 + match_views(
                    out@,
                )[i].2 <= #[trigger] match_views(out@)[k].0,
        decreases (if column <= dlen {
            dlen + 1 - column
        } else {
            0
        }),
    {
        reveal_with_fuel(pattern_columns, 1);
        if !data.is_char_boundary(column) {
            assert(pattern_columns(line, p, case_sensitive, column as int) =~= Seq::<int>::empty());
            assert(match_views(out@) =~= match_views(out@) + matches_at(
                Seq::<int>::empty(),
                line,
                row as int,
                length as int,
            ));
            break ;
        }
        let (_, text) = data.split_at(column);
        let ghost hay = haystack(line, column as int, case_sensitive);
        proof {
            encode_utf8_decode_utf8(text@);
        }
        let found = if case_sensitive {
            assert(text.spec_bytes() =~= hay);
            find_bytes(text.as_bytes(), pbytes)
        } else {
            let lower = to_lowercase(text);
            let lowered = lower.as_str();
            let n = str_len(lowered);
            assert(text.spec_bytes() =~= line.subrange(column as int, line.len() as int));
            assert(lowered.spec_bytes() == hay);
            find_bytes(lowered.as_bytes(), pbytes)
        };
        assert(hay.len() <= isize::MAX);
        proof {
            lemma_find_first(hay, p);
        }
        match found {
            None => {
                assert(pattern_columns(line, p, case_sensitive, column as int) =~= Seq::<int>::empty());
                assert(match_views(out@) =~= match_views(out@) + matches_at(
                    Seq::<int>::empty(),
                    line,
                    row as int,
                    length as int,
                ));
                break ;
            },
            Some(position) => {
                let m = TextMatch::new(
                    column as u64 + position as u64,
                    row as u64,
                    length as i64,
                    data.to_owned(),
                );
                let ghost before = out@;
                let ghost old_column = column as int;
                out.push(m);
                column = column + position + length;
                assert(pattern_columns(line, p, case_sensitive, column as int) == (if column
                    <= dlen {
                    pattern_columns(line, p, case_sensitive, column as int)
                } else {
                    Seq::<int>::empty()
                }));
                assert(pattern_columns(line, p, case_sensitive, old_column) == seq![
                    old_column + position,
                ] + pattern_columns(line, p, case_sensitive, column as int));
                assert(m@ == ((old_column + position) as u64, row as u64, length as i64, decode_utf8(line)));
                assert(match_views(out@) =~= match_views(before).push(m@));
                assert(m@.0 == old_column + position && m@.2 == length && m@.1 == row);
                assert forall|k: int| start <= k < out@.len() implies #[trigger] match_views(out@)[k].1
                    == row && match_views(out@)[k].0 + match_views(out@)[k].2 <= column by {
                    if k < before.len() {
                        assert(match_views(out@)[k] == match_views(before)[k]);
                        assert(match_views(before)[k].1 == row);
                    }
                }
                assert forall|i: int, k: int| start <= i < k < out@.len() implies #[trigger] match_views(
                    out@,
                )[i].0 + match_views(out@)[i].2 <= #[trigger] match_views(out@)[k].0 by {
                    assert(match_views(out@)[i] == match_views(before)[i]);
                    assert(match_views(before)[i].1 == row);
                    if k < before.len() {
                        assert(match_views(out@)[k] == match_views(before)[k]);
                    }
                }
                assert(matches_at(
                    pattern_columns(line, p, case_sensitive, old_column),
                    line,
                    row as int,
                    length as int,
                ) =~= seq![m@] + matches_at(
                    pattern_columns(line, p, case_sensitive, column as int),
                    line,
                    row as int,
                    length as int,
                ));
                assert(match_views(out@) + matches_at(
                    pattern_columns(line, p, case_sensitive, column as int),
                    line,
                    row as int,
                    length as int,
                ) =~= match_views(before) + matches_at(
                    pattern_columns(line, p, case_sensitive, old_column),
                    line,
                    row as int,
                    length as int,
                ));
            },
        }
    }
}

impl Text {
    /// A text file with the contents `contents`.
    pub fn new(contents: String) -> (t: Self)
        ensures
            t@ == contents@,
    {
        Text { contents }
    }

    /// The contents of the file.
    pub fn contents(&self) -> (c: &String)
        ensures
            c@ == self@,
    {
        &self.contents
    }

    /// The matches of `pattern` in the text, line by line: with a regular
    /// expression, each match that it finds in a line; with a plain pattern,
    /// each occurrence of the pattern in a line, left to right, the search
    /// going on right after each match (in the line lower-cased when the
    /// search ignores case; the pattern is taken as it is).
    pub fn search(
        &self,
        file_path: &str,
        pattern: &str,
        case_sensitive: bool,
        matching_mode: &MatchingMode,
    ) -> (matches: TextMatches)
        requires
            search_ends(self@, pattern@, *matching_mode),
        ensures
            matches@.0 == file_path@,
            matches@.1 == search_spec(self@, pattern@, case_sensitive, *matching_mode),
            case_sensitive || matching_mode is Regex ==> replaceable_in_order(
                spec_lines(encode_utf8(self@)),
                matches@.1,
            ),
            forall|i: int, j: int|
                0 <= i < j < matches@.1.len() ==> comes_before(
                    #[trigger] matches@.1[i],
                    #[trigger] matches@.1[j],
                ),
    {
        let text_len = str_len(self.contents.as_str());
        let mut matches = TextMatches::new(file_path);
        let lines = split_lines(self.contents.as_str());
        let ghost ls = spec_lines(encode_utf8(self@));
        let ghost p = encode_utf8(pattern@);
        let mut row: usize = 0;
        assert(match_views(matches.matches@) =~= matches_upto(ls, p, case_sensitive, *matching_mode, 0));
        while row < lines.len()
            invariant
                bytes_of_strs(lines@) == ls,
                p == pattern.spec_bytes(),
                search_ends(self@, pattern@, *matching_mode),
                ls == spec_lines(encode_utf8(self@)),
                row <= lines@.len(),
                matches.path@ == file_path@,
                match_views(matches.matches@) == matches_upto(
                    ls,
                    p,
                    case_sensitive,
                    *matching_mode,
                    row as int,
                ),
                matching_mode is Regex ==> replaceable_in_order(ls, match_views(matches.matches@)),
                forall|i: int|
                    0 <= i < matches.matches@.len() ==> #[trigger] match_views(matches.matches@)[i].1
                        < row,
                forall|i: int, j: int|
                    0 <= i < j < matches.matches@.len() ==> comes_before(
                        #[trigger] match_views(matches.matches@)[i],
                        #[trigger] match_views(matches.matches@)[j],
                    ),
            decreases lines@.len() - row,
        {
            let data = lines[row];
            assert(data.spec_bytes() == ls[row as int]);
            match matching_mode {
                MatchingMode::Regex(re) => {
                    let ghost before = match_views(matches.matches@);
                    push_regex_matches(re, data, row, &mut matches.matches);
                    proof {
                        let rr = regex_row(ls[row as int], row as int, re@);
                        let now = match_views(matches.matches@);
                        assert(now == before + rr);
                        assert forall|i: int| 0 <= i < now.len() implies fits_lines(
                            ls,
                            #[trigger] now[i],
                        ) && now[i].1 < row + 1 by {
                            if i >= before.len() {
                                assert(now[i] == rr[i - before.len()]);
                            } else {
                                assert(now[i] == before[i]);
                            }
                        }
                        assert forall|i: int, j: int| 0 <= i < j < now.len() implies comes_before(
                            #[trigger] now[i],
                            #[trigger] now[j],
                        ) by {
                            if j >= before.len() {
                                assert(now[j] == rr[j - before.len()]);
                                if i >= before.len() {
                                    assert(now[i] == rr[i - before.len()]);
                                } else {
                                    assert(now[i] == before[i]);
                                }
                            } else {
                                assert(now[i] == before[i] && now[j] == before[j]);
                            }
                        }
                    }
                },
                MatchingMode::Pattern => {
                    assert(pattern@.len() > 0);
                    assert(p.len() > 0) by {
                        reveal_with_fuel(encode_utf8, 1);
                    }
                    let ghost before = match_views(matches.matches@);
                    push_pattern_matches(data, pattern, case_sensitive, row, &mut matches.matches);
                    proof {
                        let now = match_views(matches.matches@);
                        assert(now.len() == matches.matches@.len());
                        assert forall|i: int| 0 <= i < now.len() implies #[trigger] now[i].1 < row + 1 by {
                            if i < before.len() {
                                assert(now[i] == before[i]);
                            }
                        }
                        assert forall|i: int, j: int| 0 <= i < j < now.len() implies comes_before(
                            #[trigger] now[i],
                            #[trigger] now[j],
                        ) by {
                            if j >= before.len() {
                                if i < before.len() {
                                    assert(now[i] == before[i]);
                                    assert(before[i].1 < row);
                                }
                            } else {
                                assert(now[i] == before[i] && now[j] == before[j]);
                            }
                        }
                    }
                },
            }
            row += 1;
        }
        proof {
            if case_sensitive && matching_mode is Pattern {
                let ms = match_views(matches.matches@);
                assert(encode_utf8(self@).len() <= isize::MAX);
                law_search_finds_occurrences(self@, pattern@);
                law_search_in_order(self@, pattern@);
                assert(*matching_mode == MatchingMode::Pattern);
                assert(ms == search_spec(self@, pattern@, true, MatchingMode::Pattern));
                assert forall|i: int| 0 <= i < ms.len() implies fits_lines(ls, #[trigger] ms[i]) by {
                    assert(is_occurrence(ls, p, ms[i]));
                }
            }
        }
        matches
    }

    /// Replaces the matches `search_matches` by `replace_pattern`, from the
    /// last to the first (so that replacing one does not move the ones before
    /// it in its line); the result says whether any replacement changed the
    /// text. The pattern, the case sensitivity and the matching mode of the
    /// search are not used.
    pub fn replace(
        &mut self,
        _pattern: &str,
        replace_pattern: &str,
        _case_sensitive: bool,
        _matching_mode: &MatchingMode,
        search_matches: &TextMatches,
    ) -> (edited: bool)
        requires
            can_replace_all(old(self)@, search_matches@.1, replace_pattern@),
        ensures
            final(self)@ == replace_all(old(self)@, search_matches@.1, replace_pattern@),
            edited == replace_all_edits(old(self)@, search_matches@.1, replace_pattern@),
            final(self)@ != old(self)@ ==> edited,
    {
        let ghost ms = match_views(search_matches.matches@);
        let ghost rp = replace_pattern@;
        let mut edited = false;
        let mut i = search_matches.matches.len();
        assert(ms.take(i as int) =~= ms);
        while i > 0
            invariant
                ms == match_views(search_matches.matches@),
                rp == replace_pattern@,
                i <= ms.len(),
                can_replace_all(self.contents@, ms.take(i as int), rp),
                replace_all(self.contents@, ms.take(i as int), rp) == replace_all(
                    old(self).contents@,
                    ms,
                    rp,
                ),
                replace_all_edits(old(self).contents@, ms, rp) == (edited
                    || replace_all_edits(self.contents@, ms.take(i as int), rp)),
            decreases i,
        {
            let ghost prefix = ms.take(i as int);
            i -= 1;
            assert(prefix.last() == search_matches.matches@[i as int]@);
            assert(prefix.drop_last() =~= ms.take(i as int));
            let changed = search_matches.matches[i].replace(replace_pattern, &mut self.contents);
            edited = edited || changed;
        }
        proof {
            law_replace_change_is_edit(old(self).contents@, ms, rp);
        }
        edited
    }
}

} // verus!
