//! Work on text: trimming, splitting at newlines, joining, and writing a
//! number in decimal.

use vstd::prelude::*;
use vstd::string::*;
use vstd::utf8::*;

verus! {

/// Whether `c` is white space, as Unicode defines the property.
pub open spec fn is_space(c: char) -> bool {
    let n = c as u32;
    ||| 0x09 <= n <= 0x0d
    ||| n == 0x20
    ||| n == 0x85
    ||| n == 0xa0
    ||| n == 0x1680
    ||| 0x2000 <= n <= 0x200a
    ||| n == 0x2028
    ||| n == 0x2029
    ||| n == 0x202f
    ||| n == 0x205f
    ||| n == 0x3000
}

/// `s` without the white space it starts with.
pub open spec fn without_leading_space(s: Seq<char>) -> Seq<char>
    decreases s.len(),
{
    if s.len() > 0 && is_space(s[0]) {
        without_leading_space(s.drop_first())
    } else {
        s
    }
}

/// `s` without the white space it ends with.
pub open spec fn without_trailing_space(s: Seq<char>) -> Seq<char>
    decreases s.len(),
{
    if s.len() > 0 && is_space(s.last()) {
        without_trailing_space(s.drop_last())
    } else {
        s
    }
}

/// `s` without the white space at either end.
pub open spec fn trimmed(s: Seq<char>) -> Seq<char> {
    without_trailing_space(without_leading_space(s))
}

/// The pieces between the newlines of `s`: one more than there are newlines,
/// any of them possibly empty.
pub open spec fn split_at_newlines(s: Seq<char>) -> Seq<Seq<char>>
    decreases s.len(),
{
    if s.len() == 0 {
        seq![Seq::<char>::empty()]
    } else if s.last() == '\n' {
        split_at_newlines(s.drop_last()).push(Seq::<char>::empty())
    } else {
        let before = split_at_newlines(s.drop_last());
        before.drop_last().push(before.last().push(s.last()))
    }
}

/// The parts one after another, with `sep` between each two.
pub open spec fn joined(parts: Seq<Seq<char>>, sep: Seq<char>) -> Seq<char>
    decreases parts.len(),
{
    if parts.len() == 0 {
        Seq::<char>::empty()
    } else if parts.len() == 1 {
        parts[0]
    } else {
        joined(parts.drop_last(), sep) + sep + parts.last()
    }
}

/// The digits of `n` in base ten, without leading zeros.
pub open spec fn digits(n: nat) -> Seq<char>
    decreases n,
{
    if n < 10 {
        seq!["0123456789"@[n as int]]
    } else {
        digits(n / 10).push("0123456789"@[(n % 10) as int])
    }
}

/// `n` written in decimal, with a minus sign where it is negative.
pub open spec fn decimal(n: int) -> Seq<char> {
    if n < 0 {
        seq!['-'] + digits((-n) as nat)
    } else {
        digits(n as nat)
    }
}

/// Each string of `v` as its sequence of characters.
pub open spec fn views(v: Seq<String>) -> Seq<Seq<char>> {
    v.map_values(|s: String| s@)
}

/// Each string slice of `v` as its sequence of characters.
pub open spec fn slice_views(v: Seq<&str>) -> Seq<Seq<char>> {
    v.map_values(|s: &str| s@)
}

/// Where the first `n` characters are white space and the next one is not,
/// the leading white space is those `n` characters.
pub proof fn lemma_leading_space(s: Seq<char>, n: int)
    requires
        0 <= n <= s.len(),
        forall|j: int| 0 <= j < n ==> is_space(#[trigger] s[j]),
        n < s.len() ==> !is_space(s[n]),
    ensures
        without_leading_space(s) == s.skip(n),
    decreases n,
{
    if n > 0 {
        let rest = s.drop_first();
        assert forall|j: int| 0 <= j < n - 1 implies is_space(#[trigger] rest[j]) by {
            assert(rest[j] == s[j + 1]);
        }
        lemma_leading_space(rest, n - 1);
    }
}

/// Where all from place `n` on is white space and the character before is
/// not, the trailing white space is all from place `n` on.
pub proof fn lemma_trailing_space(s: Seq<char>, n: int)
    requires
        0 <= n <= s.len(),
        forall|j: int| n <= j < s.len() ==> is_space(#[trigger] s[j]),
        0 < n ==> !is_space(s[n - 1]),
    ensures
        without_trailing_space(s) == s.take(n),
    decreases s.len() - n,
{
    if n < s.len() {
        let rest = s.drop_last();
        assert forall|j: int| n <= j < rest.len() implies is_space(#[trigger] rest[j]) by {
            assert(rest[j] == s[j]);
        }
        lemma_trailing_space(rest, n);
    }
}

/// Splitting always gives at least one piece.
pub proof fn lemma_split_has_pieces(s: Seq<char>)
    ensures
        split_at_newlines(s).len() > 0,
    decreases s.len(),
{
    if s.len() > 0 {
        lemma_split_has_pieces(s.drop_last());
    }
}

/// Text without a newline, put after `s`, only makes the last piece longer.
pub proof fn lemma_split_append_plain(s: Seq<char>, t: Seq<char>)
    requires
        !t.contains('\n'),
    ensures
        split_at_newlines(s).len() > 0,
        split_at_newlines(s + t) == split_at_newlines(s).drop_last().push(
            split_at_newlines(s).last() + t,
        ),
    decreases t.len(),
{
    lemma_split_has_pieces(s);
    let pieces = split_at_newlines(s);
    if t.len() > 0 {
        let head = t.drop_last();
        assert(!head.contains('\n')) by {
            if head.contains('\n') {
                let i = choose|i: int| 0 <= i < head.len() && head[i] == '\n';
                assert(t[i] == '\n');
            }
        }
        lemma_split_append_plain(s, head);
        assert((s + t).drop_last() =~= s + head);
        assert((pieces.last() + head).push(t.last()) =~= pieces.last() + t);
    }
}

/// Whether `c` is white space.
pub fn is_whitespace(c: char) -> (b: bool)
    ensures
        b == is_space(c),
{
    let n: u32 = c as u32;
    (0x09 <= n && n <= 0x0d) || n == 0x20 || n == 0x85 || n == 0xa0 || n == 0x1680 || (0x2000 <= n
        && n <= 0x200a) || n == 0x2028 || n == 0x2029 || n == 0x202f || n == 0x205f || n == 0x3000
}

/// The part of `s` between its leading and its trailing white space.
pub fn trim(s: &str) -> (t: &str)
    ensures
        t@ == trimmed(s@),
{
    let len = s.unicode_len();
    // `start`: the place of the first character that is no white space;
    // `end`: the place after the last such character.
    let mut start: usize = 0;
    let mut end: usize = 0;
    let mut seen = false;
    let mut i: usize = 0;
    for c in it: s.chars()
        invariant
            it.seq() == s@,
            len == s@.len(),
            i == it.index(),
            i <= len,
            !seen ==> start == 0 && end == 0,
            !seen ==> forall|j: int| 0 <= j < i ==> is_space(#[trigger] s@[j]),
            seen ==> start < end <= i,
            seen ==> forall|j: int| 0 <= j < start ==> is_space(#[trigger] s@[j]),
            seen ==> !is_space(s@[start as int]) && !is_space(s@[end - 1]),
            seen ==> forall|j: int| end <= j < i ==> is_space(#[trigger] s@[j]),
    {
        if !is_whitespace(c) {
            if !seen {
                start = i;
                seen = true;
            }
            end = i + 1;
        }
        i = i + 1;
    }
    if !seen {
        start = len;
        end = len;
    }
    proof {
        lemma_leading_space(s@, start as int);
        let rest = s@.skip(start as int);
        assert forall|j: int| end - start <= j < rest.len() implies is_space(
            #[trigger] rest[j],
        ) by {
            assert(rest[j] == s@[j + start]);
        }
        lemma_trailing_space(rest, end - start);
    }
    s.substring_char(start, end)
}

/// The newline as a byte of UTF-8 text.
pub const NEWLINE: u8 = 10;

/// Alone, the newline is encoded as its one byte.
pub proof fn lemma_newline_encoding()
    ensures
        encode_utf8(seq!['\n']) == seq![NEWLINE],
{
    let c = seq!['\n'];
    assert((10u32 & 0x7F) as u8 == 10u8) by (bit_vector);
    assert(encode_utf8(c.drop_first()) =~= Seq::<u8>::empty());
}

/// Text that holds a newline holds the newline's byte in its encoding.
pub proof fn lemma_newline_has_byte(s: Seq<char>)
    requires
        s.contains('\n'),
    ensures
        encode_utf8(s).contains(NEWLINE),
    decreases s.len(),
{
    let i = choose|i: int| 0 <= i < s.len() && s[i] == '\n';
    let first = encode_scalar(s[0] as u32);
    let rest = encode_utf8(s.drop_first());
    if i == 0 {
        assert((10u32 & 0x7F) as u8 == 10u8) by (bit_vector);
        assert((first + rest)[0] == NEWLINE);
    } else {
        assert(s.drop_first()[i - 1] == '\n');
        lemma_newline_has_byte(s.drop_first());
        let j = choose|j: int| 0 <= j < rest.len() && rest[j] == NEWLINE;
        assert((first + rest)[first.len() + j] == NEWLINE);
    }
}

/// Text without a newline is one piece.
pub proof fn lemma_split_plain(s: Seq<char>)
    requires
        !s.contains('\n'),
    ensures
        split_at_newlines(s) == seq![s],
{
    lemma_split_append_plain(Seq::<char>::empty(), s);
}

/// Up to its first newline a text is one piece; the other pieces are those of
/// what follows that newline.
pub proof fn lemma_split_first(piece: Seq<char>, after: Seq<char>)
    requires
        !piece.contains('\n'),
    ensures
        split_at_newlines(piece + seq!['\n'] + after) == seq![piece] + split_at_newlines(after),
    decreases after.len(),
{
    let s = piece + seq!['\n'] + after;
    if after.len() == 0 {
        assert(s.drop_last() =~= piece);
        lemma_split_plain(piece);
    } else {
        let head = after.drop_last();
        lemma_split_first(piece, head);
        lemma_split_has_pieces(head);
        assert(s.drop_last() =~= piece + seq!['\n'] + head);
        let before = seq![piece] + split_at_newlines(head);
        if after.last() != '\n' {
            assert(before.drop_last().push(before.last().push(after.last())) =~= seq![piece]
                + split_at_newlines(after));
        }
    }
}

/// The place of the first `wanted` among `bytes`, or their number where
/// there is none.
fn position(bytes: &[u8], wanted: u8) -> (i: usize)
    ensures
        i <= bytes@.len(),
        forall|j: int| 0 <= j < i ==> bytes@[j] != wanted,
        i < bytes@.len() ==> bytes@[i as int] == wanted,
{
    let n = bytes.len();
    let mut i: usize = 0;
    while i < n && bytes[i] != wanted
        invariant
            i <= n,
            n == bytes@.len(),
            forall|j: int| 0 <= j < i ==> bytes@[j] != wanted,
        decreases n - i,
    {
        i = i + 1;
    }
    i
}

/// What stands before the first newline of `s`, and what stands after it.
/// `None` where `s` holds no newline.
fn cut_at_newline(s: &str) -> (r: Option<(&str, &str)>)
    ensures
        match r {
            Some((piece, after)) => !piece@.contains('\n') && s@ == piece@ + seq!['\n'] + after@,
            None => !s@.contains('\n'),
        },
{
    broadcast use {encode_utf8_valid_utf8, encode_utf8_decode_utf8};

    let bytes = s.as_bytes();
    let i = position(bytes, NEWLINE);
    if i == bytes.len() {
        proof {
            if s@.contains('\n') {
                lemma_newline_has_byte(s@);
            }
        }
        return None;
    }
    proof {
        encode_utf8_valid_utf8(s@);
        is_char_boundary_iff_not_is_continuation_byte(bytes@, i as int);
    }
    let (piece, tail) = s.split_at(i);
    proof {
        decode_utf8_split(bytes@, i as int);
        if piece@.contains('\n') {
            lemma_newline_has_byte(piece@);
            let j = choose|j: int|
                0 <= j < encode_utf8(piece@).len() && encode_utf8(piece@)[j] == NEWLINE;
            assert(bytes@[j] == NEWLINE);
        }
        let rest = tail.spec_bytes();
        assert(is_char_boundary(rest, 1)) by {
            reveal_with_fuel(is_char_boundary, 2);
            reveal_with_fuel(valid_utf8, 2);
        }
    }
    let (newline, after) = tail.split_at(1);
    proof {
        decode_utf8_split(tail.spec_bytes(), 1);
        lemma_newline_encoding();
        assert(newline@ == seq!['\n']);
    }
    Some((piece, after))
}

/// The pieces of `s` between its newlines, as `str::split` gives them for a
/// newline: an empty piece where two newlines meet or one stands at an end.
pub fn split_newlines(s: &str) -> (pieces: Vec<String>)
    ensures
        views(pieces@) == split_at_newlines(s@),
{
    let mut pieces: Vec<String> = Vec::new();
    let mut rest: &str = s;
    loop
        invariant
            split_at_newlines(s@) == views(pieces@) + split_at_newlines(rest@),
        decreases rest@.len(),
    {
        match cut_at_newline(rest) {
            Some((piece, after)) => {
                let piece = piece.to_owned();
                proof {
                    lemma_split_first(piece@, after@);
                    assert(views(pieces@.push(piece)) + split_at_newlines(after@) =~= views(
                        pieces@,
                    ) + split_at_newlines(rest@));
                }
                pieces.push(piece);
                rest = after;
            },
            None => {
                let piece = rest.to_owned();
                proof {
                    lemma_split_plain(rest@);
                    assert(views(pieces@.push(piece)) =~= views(pieces@) + split_at_newlines(
                        rest@,
                    ));
                }
                pieces.push(piece);
                return pieces;
            },
        }
    }
}

/// The parts one after another, with `sep` between each two.
pub fn join(parts: &[&str], sep: &str) -> (r: String)
    ensures
        r@ == joined(slice_views(parts@), sep@),
{
    let mut r = String::new();
    let n = parts.len();
    let mut i: usize = 0;
    while i < n
        invariant
            i <= n,
            n == parts@.len(),
            r@ == joined(slice_views(parts@).take(i as int), sep@),
        decreases n - i,
    {
        proof {
            let upto = slice_views(parts@).take(i + 1);
            assert(upto.drop_last() =~= slice_views(parts@).take(i as int));
        }
        if i > 0 {
            r.append(sep);
        }
        r.append(parts[i]);
        i = i + 1;
    }
    proof {
        assert(slice_views(parts@).take(n as int) =~= slice_views(parts@));
    }
    r
}

/// The digit that stands for `d`.
fn digit(d: u64) -> (s: &'static str)
    requires
        d < 10,
    ensures
        s@ == seq!["0123456789"@[d as int]],
{
    proof {
        reveal_strlit("0123456789");
        reveal_strlit("0");
        reveal_strlit("1");
        reveal_strlit("2");
        reveal_strlit("3");
        reveal_strlit("4");
        reveal_strlit("5");
        reveal_strlit("6");
        reveal_strlit("7");
        reveal_strlit("8");
        reveal_strlit("9");
    }
    let s = if d == 0 {
        "0"
    } else if d == 1 {
        "1"
    } else if d == 2 {
        "2"
    } else if d == 3 {
        "3"
    } else if d == 4 {
        "4"
    } else if d == 5 {
        "5"
    } else if d == 6 {
        "6"
    } else if d == 7 {
        "7"
    } else if d == 8 {
        "8"
    } else {
        "9"
    };
    s
}

/// `n` written in decimal, as `to_string` writes an integer.
pub fn decimal_string(n: i32) -> (r: String)
    ensures
        r@ == decimal(n as int),
{
    // The magnitude of the least `i32` does not fit in an `i32`.
    let wide: i64 = n as i64;
    let mut rest: u64 = if wide < 0 {
        (-wide) as u64
    } else {
        wide as u64
    };
    let ghost magnitude: nat = rest as nat;
    let mut r = String::from_str(digit(rest % 10));
    rest = rest / 10;
    // `r` holds the digits written so far, the lowest ones.
    let ghost mut low: Seq<char> = r@;
    while rest > 0
        invariant
            r@ == low,
            digits(magnitude) == if rest == 0 {
                low
            } else {
                digits(rest as nat) + low
            },
        decreases rest,
    {
        let d = String::from_str(digit(rest % 10));
        proof {
            low = seq!["0123456789"@[(rest % 10) as int]] + low;
        }
        r = d.concat(r.as_str());
        rest = rest / 10;
    }
    if n < 0 {
        proof {
            reveal_strlit("-");
        }
        r = String::from_str("-").concat(r.as_str());
    }
    r
}

} // verus!
