//! Facts about UTF-8 encodings that the line splitting and the replacement of
//! byte ranges rely on.

use vstd::prelude::*;
use vstd::utf8::*;

verus! {

/// The UTF-8 encoding of a concatenation is the concatenation of the encodings.
pub proof fn lemma_encode_concat(a: Seq<char>, b: Seq<char>)
    ensures
        encode_utf8(a + b) == encode_utf8(a) + encode_utf8(b),
    decreases a.len(),
{
    if a.len() == 0 {
        assert(a + b =~= b);
        assert(encode_utf8(a) =~= Seq::<u8>::empty());
        assert(encode_utf8(a) + encode_utf8(b) =~= encode_utf8(b));
    } else {
        let ab = a + b;
        assert(ab[0] == a[0]);
        assert(ab.drop_first() =~= a.drop_first() + b);
        lemma_encode_concat(a.drop_first(), b);
        let s = encode_scalar(a[0] as u32);
        assert(encode_utf8(ab) == s + encode_utf8(ab.drop_first()));
        assert(encode_utf8(a) == s + encode_utf8(a.drop_first()));
        assert(s + (encode_utf8(a.drop_first()) + encode_utf8(b)) =~= (s + encode_utf8(
            a.drop_first(),
        )) + encode_utf8(b));
    }
}

/// The position right after a one-byte (ASCII) character that starts at a
/// character boundary is a character boundary too.
pub proof fn lemma_boundary_after_ascii(bytes: Seq<u8>, i: int)
    requires
        valid_utf8(bytes),
        0 <= i < bytes.len(),
        is_char_boundary(bytes, i),
        is_leading_byte_width_1(bytes[i]),
    ensures
        is_char_boundary(bytes, i + 1),
    decreases bytes.len(),
{
    reveal_with_fuel(is_char_boundary, 2);
    let first = length_of_first_scalar(bytes);
    let rest = pop_first_scalar(bytes);
    assert(valid_first_scalar(bytes) && valid_utf8(rest));
    if i == 0 {
        assert(first == 1);
        assert(is_char_boundary(rest, 0));
    } else {
        assert(is_char_boundary(rest, i - first));
        assert(i - first >= 0);
        assert(rest.len() == bytes.len() - first);
        assert(rest[i - first] == bytes[i]);
        lemma_boundary_after_ascii(rest, i - first);
    }
}

/// A character boundary of a valid encoding that lies before another boundary
/// `end` is a character boundary of the prefix that ends at `end`.
pub proof fn lemma_boundary_in_prefix(bytes: Seq<u8>, k: int, end: int)
    requires
        valid_utf8(bytes),
        0 <= k <= end,
        is_char_boundary(bytes, k),
        is_char_boundary(bytes, end),
    ensures
        valid_utf8(bytes.subrange(0, end)),
        is_char_boundary(bytes.subrange(0, end), k),
{
    reveal_with_fuel(is_char_boundary, 1);
    valid_utf8_split(bytes, end);
    let prefix = bytes.subrange(0, end);
    if k == end {
        is_char_boundary_start_end_of_seq(prefix);
    } else {
        assert(end <= bytes.len());
        is_char_boundary_iff_not_is_continuation_byte(bytes, k);
        is_char_boundary_iff_not_is_continuation_byte(prefix, k);
        assert(prefix[k] == bytes[k]);
    }
}

/// An index of a valid encoding that holds a one-byte (ASCII) character is a
/// character boundary.
pub proof fn lemma_ascii_is_boundary(bytes: Seq<u8>, i: int)
    requires
        valid_utf8(bytes),
        0 <= i < bytes.len(),
        is_leading_byte_width_1(bytes[i]),
    ensures
        is_char_boundary(bytes, i),
{
    is_char_boundary_iff_not_is_continuation_byte(bytes, i);
}

/// From a character boundary before the end, the next character boundary is
/// one encoded scalar further on.
pub proof fn lemma_boundary_next_scalar(bytes: Seq<u8>, i: int)
    requires
        valid_utf8(bytes),
        0 <= i < bytes.len(),
        is_char_boundary(bytes, i),
    ensures
        valid_first_scalar(bytes.subrange(i, bytes.len() as int)),
        i + length_of_first_scalar(bytes.subrange(i, bytes.len() as int)) <= bytes.len(),
        is_char_boundary(bytes, i + length_of_first_scalar(bytes.subrange(i, bytes.len() as int))),
    decreases bytes.len(),
{
    reveal_with_fuel(is_char_boundary, 2);
    valid_utf8_split(bytes, i);
    let suffix = bytes.subrange(i, bytes.len() as int);
    assert(valid_first_scalar(suffix));
    let first = length_of_first_scalar(bytes);
    let rest = pop_first_scalar(bytes);
    assert(valid_first_scalar(bytes) && valid_utf8(rest));
    if i == 0 {
        assert(suffix =~= bytes);
        assert(is_char_boundary(rest, 0));
    } else {
        assert(is_char_boundary(rest, i - first));
        assert(i - first >= 0);
        assert(rest.subrange(i - first, rest.len() as int) =~= suffix);
        lemma_boundary_next_scalar(rest, i - first);
    }
}

/// When the bytes from a character boundary `i` up to `j` form a valid
/// encoding, `j` is a character boundary too.
pub proof fn lemma_boundary_after_valid(bytes: Seq<u8>, i: int, j: int)
    requires
        valid_utf8(bytes),
        0 <= i <= j <= bytes.len(),
        is_char_boundary(bytes, i),
        valid_utf8(bytes.subrange(i, j)),
    ensures
        is_char_boundary(bytes, j),
    decreases j - i,
{
    if i < j {
        let s = bytes.subrange(i, j);
        lemma_boundary_next_scalar(bytes, i);
        let suffix = bytes.subrange(i, bytes.len() as int);
        assert(s[0] == suffix[0]);
        let n = length_of_first_scalar(s);
        assert(n == length_of_first_scalar(suffix));
        assert(valid_first_scalar(s) && valid_utf8(pop_first_scalar(s)));
        assert(pop_first_scalar(s) =~= bytes.subrange(i + n, j));
        lemma_boundary_after_valid(bytes, i + n, j);
    }
}

/// A character boundary of `a` is a character boundary of `a + b`.
pub proof fn lemma_boundary_concat(a: Seq<u8>, b: Seq<u8>, i: int)
    requires
        valid_utf8(a),
        valid_utf8(b),
        is_char_boundary(a, i),
    ensures
        valid_utf8(a + b),
        is_char_boundary(a + b, i),
    decreases a.len(),
{
    reveal_with_fuel(is_char_boundary, 2);
    valid_utf8_concat(a, b);
    if i != 0 {
        let first = length_of_first_scalar(a);
        assert(valid_first_scalar(a) && valid_utf8(pop_first_scalar(a)));
        let ab = a + b;
        assert(ab[0] == a[0]);
        assert(length_of_first_scalar(ab) == first);
        assert(pop_first_scalar(ab) =~= pop_first_scalar(a) + b);
        lemma_boundary_concat(pop_first_scalar(a), b, i - first);
    }
}

/// Where two valid encodings agree on their bytes up to a character boundary
/// `end` of both, they have the same character boundaries up to `end`.
pub proof fn lemma_boundary_common_prefix(a: Seq<u8>, b: Seq<u8>, end: int, i: int)
    requires
        valid_utf8(a),
        valid_utf8(b),
        0 <= i <= end,
        end <= a.len(),
        end <= b.len(),
        a.subrange(0, end) == b.subrange(0, end),
        is_char_boundary(a, end),
        is_char_boundary(b, end),
        is_char_boundary(a, i),
    ensures
        is_char_boundary(b, i),
{
    lemma_boundary_in_prefix(a, i, end);
    valid_utf8_split(b, end);
    lemma_boundary_concat(b.subrange(0, end), b.subrange(end, b.len() as int), i);
    assert(b.subrange(0, end) + b.subrange(end, b.len() as int) =~= b);
}

} // verus!
