//! Text as sequences of characters: conversion from and to strings, lines,
//! blank-separated fields and hexadecimal numbers.

use vstd::prelude::*;

verus! {

/// `String::push` appends one character to the end of the string.
pub assume_specification[ String::push ](s: &mut String, c: char)
    ensures
        final(s)@ == old(s)@.push(c),
;

/// The views of the elements of a sequence, in order.
pub open spec fn views<T: View>(s: Seq<T>) -> Seq<T::V> {
    s.map_values(|t: T| t@)
}

/// Appending an element appends its view.
pub proof fn lemma_views_push<T: View>(s: Seq<T>, t: T)
    ensures
        views(s.push(t)) == views(s).push(t@),
{
    assert(views(s.push(t)) =~= views(s).push(t@));
}

/// The characters of a string, in order.
pub fn chars_of(s: &str) -> (v: Vec<char>)
    ensures
        v@ == s@,
{
    let mut v: Vec<char> = Vec::new();
    for c in it: s.chars()
        invariant
            v@ == it.seq().take(it.index() as int),
            it.seq() == s@,
    {
        v.push(c);
    }
    v
}

/// The string made of the characters `chars[from..to]`.
pub fn string_of(chars: &[char], from: usize, to: usize) -> (s: String)
    requires
        from <= to <= chars@.len(),
    ensures
        s@ == chars@.subrange(from as int, to as int),
{
    let mut s = String::new();
    let mut k: usize = from;
    while k < to
        invariant
            from <= k <= to <= chars@.len(),
            s@ == chars@.subrange(from as int, k as int),
        decreases to - k,
    {
        s.push(chars[k]);
        k += 1;
        assert(chars@.subrange(from as int, k as int) =~= chars@.subrange(
            from as int,
            k - 1 as int,
        ).push(chars@[k - 1]));
    }
    s
}

/// An owned copy of a string.
pub fn string_of_str(s: &str) -> (r: String)
    ensures
        r@ == s@,
{
    let mut r = String::new();
    for c in it: s.chars()
        invariant
            r@ == it.seq().take(it.index() as int),
            it.seq() == s@,
    {
        r.push(c);
    }
    r
}

/// Whether the characters spell exactly the string `lit`.
pub fn spells(chars: &[char], lit: &str) -> (b: bool)
    ensures
        b == (chars@ == lit@),
{
    let w = chars_of(lit);
    if w.len() != chars.len() {
        return false;
    }
    let mut k: usize = 0;
    while k < w.len()
        invariant
            w@ == lit@,
            w@.len() == chars@.len(),
            k <= w@.len(),
            forall|j: int| 0 <= j < k ==> chars@[j] == w@[j],
        decreases w@.len() - k,
    {
        if chars[k] != w[k] {
            return false;
        }
        k += 1;
    }
    assert(chars@ =~= w@);
    true
}


/// The position of the first line feed in `s`, or the length of `s` if it has none.
pub open spec fn first_newline(s: Seq<char>) -> int
    decreases s.len(),
{
    if s.len() == 0 || s[0] == '\n' {
        0
    } else {
        1 + first_newline(s.drop_first())
    }
}

/// `s` without a carriage return at its end.
pub open spec fn strip_cr(s: Seq<char>) -> Seq<char> {
    if s.len() > 0 && s.last() == '\r' {
        s.drop_last()
    } else {
        s
    }
}

/// The lines of a text. A line ends at a line feed, which is dropped together
/// with a carriage return directly before it. What follows the last line feed
/// is a line of its own unless it is empty.
pub open spec fn lines_of(s: Seq<char>) -> Seq<Seq<char>>
    decreases s.len(),
{
    if s.len() == 0 {
        Seq::empty()
    } else {
        let k = first_newline(s);
        if k < 0 || k >= s.len() {
            seq![s]
        } else {
            seq![strip_cr(s.take(k))] + lines_of(s.skip(k + 1))
        }
    }
}

/// The first line feed is a line feed, and no character before it is one.
pub proof fn lemma_first_newline(s: Seq<char>)
    ensures
        0 <= first_newline(s) <= s.len(),
        forall|j: int| 0 <= j < first_newline(s) ==> s[j] != '\n',
        first_newline(s) < s.len() ==> s[first_newline(s)] == '\n',
    decreases s.len(),
{
    if s.len() == 0 || s[0] == '\n' {
    } else {
        lemma_first_newline(s.drop_first());
        assert forall|j: int| 0 <= j < first_newline(s) implies s[j] != '\n' by {
            if j > 0 {
                assert(s[j] == s.drop_first()[j - 1]);
            }
        }
        if first_newline(s) < s.len() {
            assert(s.drop_first()[first_newline(s.drop_first())] == s[first_newline(s)]);
        }
    }
}

/// A position is the first line feed if it holds one and nothing before it does.
pub proof fn lemma_first_newline_is(s: Seq<char>, k: int)
    requires
        0 <= k <= s.len(),
        forall|j: int| 0 <= j < k ==> s[j] != '\n',
        k < s.len() ==> s[k] == '\n',
    ensures
        first_newline(s) == k,
{
    lemma_first_newline(s);
    let f = first_newline(s);
    if f < k {
        assert(s[f] == '\n');
    } else if f > k {
        assert(s[k] != '\n');
    }
}

/// Copies `chars[from..to]`.
pub fn slice_of(chars: &[char], from: usize, to: usize) -> (v: Vec<char>)
    requires
        from <= to <= chars@.len(),
    ensures
        v@ == chars@.subrange(from as int, to as int),
{
    let mut v: Vec<char> = Vec::new();
    let mut k: usize = from;
    while k < to
        invariant
            from <= k <= to <= chars@.len(),
            v@ == chars@.subrange(from as int, k as int),
        decreases to - k,
    {
        v.push(chars[k]);
        k += 1;
        assert(chars@.subrange(from as int, k as int) =~= chars@.subrange(
            from as int,
            k - 1 as int,
        ).push(chars@[k - 1]));
    }
    v
}

/// Splits a text into its lines.
pub fn split_lines(text: &[char]) -> (lines: Vec<Vec<char>>)
    ensures
        views(lines@) == lines_of(text@),
{
    let mut lines: Vec<Vec<char>> = Vec::new();
    let n = text.len();
    let mut pos: usize = 0;
    assert(text@.skip(0) =~= text@);
    assert(views(lines@) =~= Seq::<Seq<char>>::empty());
    while pos < n
        invariant
            n == text@.len(),
            pos <= n,
            lines_of(text@) == views(lines@) + lines_of(text@.skip(pos as int)),
        decreases n - pos,
    {
        let ghost rest = text@.skip(pos as int);
        let ghost before = views(lines@);
        let mut end: usize = pos;
        while end < n && text[end] != '\n'
            invariant
                n == text@.len(),
                pos <= end <= n,
                forall|j: int| pos <= j < end ==> text@[j] != '\n',
            decreases n - end,
        {
            end += 1;
        }
        proof {
            assert forall|j: int| 0 <= j < end - pos implies rest[j] != '\n' by {
                assert(rest[j] == text@[pos + j]);
            }
            lemma_first_newline_is(rest, end - pos);
        }
        if end == n {
            let line = slice_of(text, pos, n);
            assert(line@ =~= rest);
            proof {
                lemma_views_push(lines@, line);
            }
            lines.push(line);
            pos = n;
            assert(text@.skip(n as int) =~= Seq::<char>::empty());
            assert(lines_of(text@.skip(n as int)) =~= Seq::<Seq<char>>::empty());
            assert(before + seq![rest] =~= before.push(rest));
        } else {
            let stop: usize = if end > pos && text[end - 1] == '\r' {
                end - 1
            } else {
                end
            };
            let line = slice_of(text, pos, stop);
            assert(line@ =~= strip_cr(rest.take(end - pos)));
            proof {
                lemma_views_push(lines@, line);
            }
            lines.push(line);
            assert(rest.skip(end - pos + 1) =~= text@.skip(end + 1));
            assert(before + (seq![line@] + lines_of(text@.skip(end + 1))) =~= before.push(line@)
                + lines_of(text@.skip(end + 1)));
            pos = end + 1;
        }
    }
    assert(text@.skip(n as int) =~= Seq::<char>::empty());
    assert(views(lines@) + Seq::<Seq<char>>::empty() =~= views(lines@));
    lines
}


/// Whether a character separates fields. With `ascii` only tab, line feed,
/// form feed, carriage return and space do; without it every character that
/// Unicode classes as white space does.
pub open spec fn is_blank(c: char, ascii: bool) -> bool {
    let u = c as u32;
    if ascii {
        u == 0x09 || u == 0x0A || u == 0x0C || u == 0x0D || u == 0x20
    } else {
        (0x09 <= u <= 0x0D) || u == 0x20 || u == 0x85 || u == 0xA0 || u == 0x1680 || (0x2000 <= u
            <= 0x200A) || u == 0x2028 || u == 0x2029 || u == 0x202F || u == 0x205F || u == 0x3000
    }
}

/// Decides `is_blank`.
pub fn blank(c: char, ascii: bool) -> (b: bool)
    ensures
        b == is_blank(c, ascii),
{
    let u: u32 = c as u32;
    if ascii {
        u == 0x09 || u == 0x0A || u == 0x0C || u == 0x0D || u == 0x20
    } else {
        (0x09 <= u && u <= 0x0D) || u == 0x20 || u == 0x85 || u == 0xA0 || u == 0x1680 || (0x2000
            <= u && u <= 0x200A) || u == 0x2028 || u == 0x2029 || u == 0x202F || u == 0x205F || u
            == 0x3000
    }
}

/// The length of the longest prefix of `s` that holds no blank.
pub open spec fn word_len(s: Seq<char>, ascii: bool) -> int
    decreases s.len(),
{
    if s.len() == 0 || is_blank(s[0], ascii) {
        0
    } else {
        1 + word_len(s.drop_first(), ascii)
    }
}

/// The words of a line: its maximal runs of characters that are not blank.
pub open spec fn words_of(s: Seq<char>, ascii: bool) -> Seq<Seq<char>>
    decreases s.len(),
{
    if s.len() == 0 {
        Seq::empty()
    } else if is_blank(s[0], ascii) {
        words_of(s.drop_first(), ascii)
    } else {
        let n = word_len(s, ascii);
        if n <= 0 || n > s.len() {
            Seq::empty()
        } else {
            seq![s.take(n)] + words_of(s.skip(n), ascii)
        }
    }
}

/// A word ends at a place if the place holds a blank or is the end, and no place before it holds a blank.
pub proof fn lemma_word_len_is(s: Seq<char>, ascii: bool, k: int)
    requires
        0 <= k <= s.len(),
        forall|j: int| 0 <= j < k ==> !is_blank(s[j], ascii),
        k < s.len() ==> is_blank(s[k], ascii),
    ensures
        word_len(s, ascii) == k,
    decreases s.len(),
{
    if s.len() == 0 || is_blank(s[0], ascii) {
        if k > 0 {
            assert(!is_blank(s[0], ascii));
        }
    } else {
        let t = s.drop_first();
        assert forall|j: int| 0 <= j < k - 1 implies !is_blank(t[j], ascii) by {
            assert(t[j] == s[j + 1]);
        }
        if k < s.len() {
            assert(t[k - 1] == s[k]);
        }
        lemma_word_len_is(t, ascii, k - 1);
    }
}

/// Splits a line into its words.
pub fn split_words(line: &[char], ascii: bool) -> (words: Vec<Vec<char>>)
    ensures
        views(words@) == words_of(line@, ascii),
{
    let mut words: Vec<Vec<char>> = Vec::new();
    let n = line.len();
    let mut pos: usize = 0;
    assert(line@.skip(0) =~= line@);
    assert(views(words@) =~= Seq::<Seq<char>>::empty());
    while pos < n
        invariant
            n == line@.len(),
            pos <= n,
            words_of(line@, ascii) == views(words@) + words_of(line@.skip(pos as int), ascii),
        decreases n - pos,
    {
        let ghost rest = line@.skip(pos as int);
        let ghost before = views(words@);
        if blank(line[pos], ascii) {
            assert(rest.drop_first() =~= line@.skip(pos + 1));
            pos += 1;
        } else {
            let mut end: usize = pos + 1;
            while end < n && !blank(line[end], ascii)
                invariant
                    n == line@.len(),
                    pos < end <= n,
                    forall|j: int| pos <= j < end ==> !is_blank(line@[j], ascii),
                decreases n - end,
            {
                end += 1;
            }
            proof {
                assert forall|j: int| 0 <= j < end - pos implies !is_blank(rest[j], ascii) by {
                    assert(rest[j] == line@[pos + j]);
                }
                lemma_word_len_is(rest, ascii, end - pos);
            }
            let word = slice_of(line, pos, end);
            assert(word@ =~= rest.take(end - pos));
            proof {
                lemma_views_push(words@, word);
            }
            words.push(word);
            assert(rest.skip(end - pos) =~= line@.skip(end as int));
            assert(before + (seq![word@] + words_of(line@.skip(end as int), ascii)) =~= before.push(
                word@,
            ) + words_of(line@.skip(end as int), ascii));
            pos = end;
        }
    }
    assert(line@.skip(n as int) =~= Seq::<char>::empty());
    assert(views(words@) + Seq::<Seq<char>>::empty() =~= views(words@));
    words
}

/// The position of the first space in `s`, or the length of `s` if it has none.
pub open spec fn first_space(s: Seq<char>) -> int
    decreases s.len(),
{
    if s.len() == 0 || s[0] == ' ' {
        0
    } else {
        1 + first_space(s.drop_first())
    }
}

/// The pieces between the spaces of a line; two spaces in a row hold an empty piece.
pub open spec fn pieces_of(s: Seq<char>) -> Seq<Seq<char>>
    decreases s.len(),
{
    let k = first_space(s);
    if k < 0 || k >= s.len() {
        seq![s]
    } else {
        seq![s.take(k)] + pieces_of(s.skip(k + 1))
    }
}

/// `s` without the blanks at its start.
pub open spec fn trim_start(s: Seq<char>) -> Seq<char>
    decreases s.len(),
{
    if s.len() > 0 && is_blank(s[0], false) {
        trim_start(s.drop_first())
    } else {
        s
    }
}

/// `s` without the blanks at its end.
pub open spec fn trim_end(s: Seq<char>) -> Seq<char>
    decreases s.len(),
{
    if s.len() > 0 && is_blank(s.last(), false) {
        trim_end(s.drop_last())
    } else {
        s
    }
}

/// `s` without the blanks at its start and at its end.
pub open spec fn trim(s: Seq<char>) -> Seq<char> {
    trim_end(trim_start(s))
}

/// The fields of a line that separates them by single spaces: its pieces, each trimmed.
pub open spec fn fields_of(s: Seq<char>) -> Seq<Seq<char>> {
    pieces_of(s).map_values(|p: Seq<char>| trim(p))
}

/// A place is the first space if it holds a space or is the end, and no place before it holds a space.
pub proof fn lemma_first_space_is(s: Seq<char>, k: int)
    requires
        0 <= k <= s.len(),
        forall|j: int| 0 <= j < k ==> s[j] != ' ',
        k < s.len() ==> s[k] == ' ',
    ensures
        first_space(s) == k,
    decreases s.len(),
{
    if s.len() == 0 || s[0] == ' ' {
        if k > 0 {
            assert(s[0] != ' ');
        }
    } else {
        let t = s.drop_first();
        assert forall|j: int| 0 <= j < k - 1 implies t[j] != ' ' by {
            assert(t[j] == s[j + 1]);
        }
        if k < s.len() {
            assert(t[k - 1] == s[k]);
        }
        lemma_first_space_is(t, k - 1);
    }
}

/// Copies `chars[from..to]` without the blanks at either end.
pub fn trimmed(chars: &[char], from: usize, to: usize) -> (v: Vec<char>)
    requires
        from <= to <= chars@.len(),
    ensures
        v@ == trim(chars@.subrange(from as int, to as int)),
{
    let mut a: usize = from;
    while a < to && blank(chars[a], false)
        invariant
            from <= a <= to <= chars@.len(),
            trim_start(chars@.subrange(from as int, to as int)) == trim_start(
                chars@.subrange(a as int, to as int),
            ),
        decreases to - a,
    {
        assert(chars@.subrange(a as int, to as int).drop_first() =~= chars@.subrange(
            a + 1,
            to as int,
        ));
        a += 1;
    }
    assert(trim_start(chars@.subrange(a as int, to as int)) == chars@.subrange(a as int, to as int));
    let mut b: usize = to;
    while b > a && blank(chars[b - 1], false)
        invariant
            a <= b <= to <= chars@.len(),
            trim_end(chars@.subrange(a as int, to as int)) == trim_end(
                chars@.subrange(a as int, b as int),
            ),
        decreases b - a,
    {
        assert(chars@.subrange(a as int, b as int).drop_last() =~= chars@.subrange(
            a as int,
            b - 1,
        ));
        b -= 1;
    }
    assert(trim_end(chars@.subrange(a as int, b as int)) == chars@.subrange(a as int, b as int));
    slice_of(chars, a, b)
}

/// Splits a line at its spaces and trims each piece.
pub fn split_fields(line: &[char]) -> (fields: Vec<Vec<char>>)
    ensures
        views(fields@) == fields_of(line@),
        fields@.len() >= 1,
{
    let mut fields: Vec<Vec<char>> = Vec::new();
    let n = line.len();
    let mut pos: usize = 0;
    let ghost mut done: Seq<Seq<char>> = Seq::empty();
    assert(line@.skip(0) =~= line@);
    loop
        invariant_except_break
            n == line@.len(),
            pos <= n,
            pieces_of(line@) == done + pieces_of(line@.skip(pos as int)),
            views(fields@) == done.map_values(|p: Seq<char>| trim(p)),
        ensures
            views(fields@) == fields_of(line@),
            fields@.len() >= 1,
        decreases n - pos,
    {
        let ghost rest = line@.skip(pos as int);
        let mut end: usize = pos;
        while end < n && line[end] != ' '
            invariant
                n == line@.len(),
                pos <= end <= n,
                forall|j: int| pos <= j < end ==> line@[j] != ' ',
            decreases n - end,
        {
            end += 1;
        }
        proof {
            assert forall|j: int| 0 <= j < end - pos implies rest[j] != ' ' by {
                assert(rest[j] == line@[pos + j]);
            }
            lemma_first_space_is(rest, end - pos);
        }
        let field = trimmed(line, pos, end);
        let ghost piece = line@.subrange(pos as int, end as int);
        assert(piece =~= rest.take(end - pos));
        proof {
            lemma_views_push(fields@, field);
            assert(done.push(piece).map_values(|p: Seq<char>| trim(p)) =~= done.map_values(
                |p: Seq<char>| trim(p),
            ).push(trim(piece)));
        }
        fields.push(field);
        if end == n {
            assert(rest.take(end - pos) =~= rest);
            assert(done + seq![rest] =~= done.push(piece));
            break;
        }
        assert(rest.skip(end - pos + 1) =~= line@.skip(end + 1));
        assert(done + (seq![piece] + pieces_of(line@.skip(end + 1))) =~= done.push(piece)
            + pieces_of(line@.skip(end + 1)));
        proof {
            done = done.push(piece);
        }
        pos = end + 1;
    }
    fields
}


/// The value of a hexadecimal digit, in either case.
pub open spec fn hex_digit(c: char) -> Option<int> {
    let u = c as u32;
    if 0x30 <= u <= 0x39 {
        Some(u - 0x30)
    } else if 0x41 <= u <= 0x46 {
        Some(u - 0x41 + 10)
    } else if 0x61 <= u <= 0x66 {
        Some(u - 0x61 + 10)
    } else {
        None
    }
}

/// Whether `s` is a non-empty run of hexadecimal digits.
pub open spec fn is_hex(s: Seq<char>) -> bool {
    s.len() > 0 && forall|j: int| 0 <= j < s.len() ==> (#[trigger] hex_digit(s[j])) is Some
}

/// The number that a run of hexadecimal digits stands for.
pub open spec fn hex_value(s: Seq<char>) -> int
    decreases s.len(),
{
    if s.len() == 0 {
        0
    } else {
        16 * hex_value(s.drop_last()) + match hex_digit(s.last()) {
            Some(d) => d,
            None => 0,
        }
    }
}

/// `s` without a sign at its start; `minus` says whether a minus sign counts as one.
pub open spec fn unsigned_part(s: Seq<char>, minus: bool) -> Seq<char> {
    if s.len() > 0 && (s[0] == '+' || (minus && s[0] == '-')) {
        s.drop_first()
    } else {
        s
    }
}

/// The number that `s` stands for as an unsigned hexadecimal number of at most
/// `max`: an optional plus sign, then digits only.
pub open spec fn unsigned_hex(s: Seq<char>, max: int) -> Option<int> {
    let d = unsigned_part(s, false);
    if is_hex(d) && hex_value(d) <= max {
        Some(hex_value(d))
    } else {
        None
    }
}

/// The number that `s` stands for as a signed hexadecimal number of 32 bits:
/// an optional sign, then digits only, the value within the range of `i32`.
pub open spec fn signed_hex(s: Seq<char>) -> Option<int> {
    let d = unsigned_part(s, true);
    let v = if s.len() > 0 && s[0] == '-' {
        -hex_value(d)
    } else {
        hex_value(d)
    };
    if is_hex(d) && i32::MIN <= v <= i32::MAX {
        Some(v)
    } else {
        None
    }
}

/// The number that digits stand for is not negative.
pub proof fn lemma_hex_value_nonneg(s: Seq<char>)
    ensures
        hex_value(s) >= 0,
    decreases s.len(),
{
    if s.len() > 0 {
        lemma_hex_value_nonneg(s.drop_last());
    }
}

fn digit_of(c: char) -> (r: Option<u8>)
    ensures
        match r {
            Some(d) => hex_digit(c) == Some(d as int) && d < 16,
            None => hex_digit(c) is None,
        },
{
    let u: u32 = c as u32;
    if 0x30 <= u && u <= 0x39 {
        Some((u - 0x30) as u8)
    } else if 0x41 <= u && u <= 0x46 {
        Some((u - 0x41 + 10) as u8)
    } else if 0x61 <= u && u <= 0x66 {
        Some((u - 0x61 + 10) as u8)
    } else {
        None
    }
}

/// Reads the digits `chars[from..]`. The result is exact up to the largest
/// 64-bit number; a larger result only says that the number is larger.
fn magnitude(chars: &[char], from: usize) -> (r: Option<u128>)
    requires
        from <= chars@.len(),
    ensures
        r is Some <==> is_hex(chars@.skip(from as int)),
        match r {
            Some(v) => if v <= u64::MAX {
                v == hex_value(chars@.skip(from as int))
            } else {
                hex_value(chars@.skip(from as int)) > u64::MAX
            },
            None => true,
        },
{
    let n = chars.len();
    if from >= n {
        return None;
    }
    let ghost d = chars@.skip(from as int);
    let mut acc: u128 = 0;
    let mut k: usize = from;
    assert(d.take(0) =~= Seq::<char>::empty());
    while k < n
        invariant
            n == chars@.len(),
            from <= k <= n,
            from < n,
            d == chars@.skip(from as int),
            forall|j: int| 0 <= j < k - from ==> (#[trigger] hex_digit(d[j])) is Some,
            acc <= u64::MAX ==> acc == hex_value(d.take(k - from)),
            acc > u64::MAX ==> hex_value(d.take(k - from)) > u64::MAX,
            acc <= 0xFFFF_FFFF_FFFF_FFFF_FF,
        decreases n - k,
    {
        let ghost prefix = d.take(k - from);
        let ghost next = d.take(k + 1 - from);
        assert(next.drop_last() =~= prefix);
        assert(next.last() == chars@[k as int]);
        match digit_of(chars[k]) {
            None => {
                assert(hex_digit(d[k - from]) is None);
                return None;
            },
            Some(digit) => {
                proof {
                    lemma_hex_value_nonneg(prefix);
                }
                if acc <= 0xFFFF_FFFF_FFFF_FFFF {
                    acc = acc * 16 + digit as u128;
                }
            },
        }
        k += 1;
    }
    assert(d.take(n - from) =~= d);
    Some(acc)
}

/// Reads an unsigned hexadecimal number of at most `max`.
pub fn parse_unsigned_hex(chars: &[char], max: u64) -> (r: Option<u64>)
    ensures
        match r {
            Some(v) => unsigned_hex(chars@, max as int) == Some(v as int),
            None => unsigned_hex(chars@, max as int) is None,
        },
{
    let from: usize = if chars.len() > 0 && chars[0] == '+' {
        1
    } else {
        0
    };
    assert(chars@.skip(from as int) =~= unsigned_part(chars@, false));
    match magnitude(chars, from) {
        None => None,
        Some(v) => if v <= max as u128 {
            Some(v as u64)
        } else {
            None
        },
    }
}

/// Reads a signed hexadecimal number of 32 bits.
pub fn parse_signed_hex(chars: &[char]) -> (r: Option<i32>)
    ensures
        match r {
            Some(v) => signed_hex(chars@) == Some(v as int),
            None => signed_hex(chars@) is None,
        },
{
    let negative = chars.len() > 0 && chars[0] == '-';
    let from: usize = if chars.len() > 0 && (chars[0] == '+' || chars[0] == '-') {
        1
    } else {
        0
    };
    assert(chars@.skip(from as int) =~= unsigned_part(chars@, true));
    match magnitude(chars, from) {
        None => None,
        Some(v) => if negative {
            if v <= 0x8000_0000 {
                Some((-(v as i64)) as i32)
            } else {
                None
            }
        } else {
            if v <= 0x7FFF_FFFF {
                Some(v as i32)
            } else {
                None
            }
        },
    }
}

/// The upper-case hexadecimal digit of a number below 16.
pub open spec fn digit_char(d: int) -> char {
    if d < 10 {
        ((0x30 + d) as u8) as char
    } else {
        ((0x41 + d - 10) as u8) as char
    }
}

/// The upper-case hexadecimal digits of `n`, without leading zeros.
pub open spec fn hex_digits(n: nat) -> Seq<char>
    decreases n,
{
    if n < 16 {
        seq![digit_char(n as int)]
    } else {
        hex_digits(n / 16).push(digit_char((n % 16) as int))
    }
}

/// The two upper-case hexadecimal digits of a byte.
pub open spec fn hex_byte(b: u8) -> Seq<char> {
    seq![digit_char((b / 16) as int), digit_char((b % 16) as int)]
}

/// The upper-case hexadecimal digits of the 32-bit pattern of a signed number.
pub open spec fn hex_i32(i: int) -> Seq<char> {
    hex_digits(
        (if i < 0 {
            i + 0x1_0000_0000
        } else {
            i
        }) as nat,
    )
}

fn char_of_digit(d: u8) -> (c: char)
    requires
        d < 16,
    ensures
        c == digit_char(d as int),
        hex_digit(c) == Some(d as int),
{
    if d < 10 {
        (0x30 + d) as char
    } else {
        (0x41 + d - 10) as char
    }
}

/// Appends the hexadecimal digits of `n`.
pub fn push_hex(out: &mut Vec<char>, n: u128)
    ensures
        final(out)@ == old(out)@ + hex_digits(n as nat),
    decreases n,
{
    if n >= 16 {
        push_hex(out, n / 16);
    }
    out.push(char_of_digit((n % 16) as u8));
    proof {
        if n >= 16 {
            assert(final(out)@ =~= old(out)@ + hex_digits(n as nat));
        } else {
            assert(final(out)@ =~= old(out)@ + hex_digits(n as nat));
        }
    }
}

/// Appends the hexadecimal digits of the 32-bit pattern of `i`.
pub fn push_hex_i32(out: &mut Vec<char>, i: i32)
    ensures
        final(out)@ == old(out)@ + hex_i32(i as int),
{
    let u: u128 = if i < 0 {
        ((i as i64) + 0x1_0000_0000) as u128
    } else {
        i as u128
    };
    push_hex(out, u);
}

/// Appends the two hexadecimal digits of a byte.
pub fn push_hex_byte(out: &mut Vec<char>, b: u8)
    ensures
        final(out)@ == old(out)@ + hex_byte(b),
{
    out.push(char_of_digit(b / 16));
    out.push(char_of_digit(b % 16));
    assert(final(out)@ =~= old(out)@ + hex_byte(b));
}

/// Appends the characters of `s`.
pub fn push_str(out: &mut Vec<char>, s: &str)
    ensures
        final(out)@ == old(out)@ + s@,
{
    let ghost start = out@;
    for c in it: s.chars()
        invariant
            out@ == start + it.seq().take(it.index() as int),
            it.seq() == s@,
    {
        out.push(c);
        assert(start + s@.take(it.index() + 1) =~= (start + s@.take(it.index() as int)).push(c));
    }
    assert(s@.take(s@.len() as int) =~= s@);
}

/// Appends the characters of `s`.
pub fn push_chars(out: &mut Vec<char>, s: &[char])
    ensures
        final(out)@ == old(out)@ + s@,
{
    let ghost start = out@;
    let mut k: usize = 0;
    while k < s.len()
        invariant
            k <= s@.len(),
            out@ == start + s@.take(k as int),
        decreases s@.len() - k,
    {
        out.push(s[k]);
        assert(start + s@.take(k + 1) =~= (start + s@.take(k as int)).push(s@[k as int]));
        k += 1;
    }
    assert(s@.take(s@.len() as int) =~= s@);
}

/// What is printed in hexadecimal reads back as the same number.
pub proof fn lemma_hex_round_trip(n: nat)
    ensures
        is_hex(hex_digits(n)),
        hex_value(hex_digits(n)) == n,
    decreases n,
{
    let d = hex_digits(n);
    if n < 16 {
        assert(d.drop_last() =~= Seq::<char>::empty());
        assert(hex_digit(digit_char(n as int)) == Some(n as int));
        assert(hex_value(d.drop_last()) == 0);
    } else {
        lemma_hex_round_trip(n / 16);
        assert(d.drop_last() =~= hex_digits(n / 16));
        assert(hex_digit(digit_char((n % 16) as int)) == Some((n % 16) as int));
        assert forall|j: int| 0 <= j < d.len() implies (#[trigger] hex_digit(d[j])) is Some by {
            if j < d.len() - 1 {
                assert(d[j] == hex_digits(n / 16)[j]);
            }
        }
    }
}


/// The parts in a row, with `sep` between each two.
pub open spec fn join(parts: Seq<Seq<char>>, sep: Seq<char>) -> Seq<char>
    decreases parts.len(),
{
    if parts.len() == 0 {
        Seq::empty()
    } else if parts.len() == 1 {
        parts[0]
    } else {
        join(parts.drop_last(), sep) + sep + parts.last()
    }
}

/// The lines in a row, with a line feed between each two.
pub open spec fn join_lines(lines: Seq<Seq<char>>) -> Seq<char> {
    join(lines, seq!['\n'])
}

/// Puts the parts in a row, with `sep` between each two.
pub fn join_with(parts: &Vec<Vec<char>>, sep: char) -> (out: Vec<char>)
    ensures
        out@ == join(views(parts@), seq![sep]),
{
    let mut out: Vec<char> = Vec::new();
    let ghost rows = views(parts@);
    let mut k: usize = 0;
    assert(rows.take(0) =~= Seq::<Seq<char>>::empty());
    while k < parts.len()
        invariant
            k <= parts@.len(),
            rows == views(parts@),
            out@ == join(rows.take(k as int), seq![sep]),
        decreases parts@.len() - k,
    {
        let ghost before = out@;
        if k > 0 {
            out.push(sep);
        }
        push_chars(&mut out, parts[k].as_slice());
        proof {
            let t = rows.take(k + 1);
            assert(t.drop_last() =~= rows.take(k as int));
            assert(t.last() == parts@[k as int]@);
            if k > 0 {
                assert(before.push(sep) =~= before + seq![sep]);
            } else {
                assert(before + parts@[k as int]@ =~= parts@[k as int]@);
            }
        }
        k += 1;
    }
    assert(rows.take(parts@.len() as int) =~= rows);
    out
}


/// The decimal digits of `n`, without leading zeros.
pub open spec fn dec_digits(n: nat) -> Seq<char>
    decreases n,
{
    if n < 10 {
        seq![digit_char(n as int)]
    } else {
        dec_digits(n / 10).push(digit_char((n % 10) as int))
    }
}

/// Appends the decimal digits of `n`.
pub fn push_dec(out: &mut Vec<char>, n: usize)
    ensures
        final(out)@ == old(out)@ + dec_digits(n as nat),
    decreases n,
{
    if n >= 10 {
        push_dec(out, n / 10);
    }
    out.push(char_of_digit((n % 10) as u8));
    proof {
        assert(final(out)@ =~= old(out)@ + dec_digits(n as nat));
    }
}


/// Whether no character of `s` is `c`.
pub open spec fn lacks(s: Seq<char>, c: char) -> bool {
    forall|i: int| 0 <= i < s.len() ==> s[i] != c
}

/// Whether `w` can stand as a word: it is not empty and holds no blank.
pub open spec fn is_word(w: Seq<char>, ascii: bool) -> bool {
    w.len() > 0 && forall|i: int| 0 <= i < w.len() ==> !is_blank(#[trigger] w[i], ascii)
}

/// Whether each of the words can stand as a word.
pub open spec fn are_words(words: Seq<Seq<char>>, ascii: bool) -> bool {
    forall|i: int| 0 <= i < words.len() ==> is_word(#[trigger] words[i], ascii)
}

/// Joining puts the first part in front of the rest.
pub proof fn lemma_join_front(parts: Seq<Seq<char>>, sep: Seq<char>)
    requires
        parts.len() > 0,
    ensures
        join(parts, sep) == if parts.len() == 1 {
            parts[0]
        } else {
            parts[0] + sep + join(parts.drop_first(), sep)
        },
    decreases parts.len(),
{
    if parts.len() == 2 {
        assert(parts.drop_last() =~= seq![parts[0]]);
        assert(parts.drop_first() =~= seq![parts[1]]);
        assert(join(parts.drop_last(), sep) == parts[0]);
        assert(join(parts.drop_first(), sep) == parts[1]);
    } else if parts.len() > 2 {
        let front = parts.drop_last();
        lemma_join_front(front, sep);
        let rest = parts.drop_first();
        assert(rest.drop_last() =~= front.drop_first());
        assert(rest.last() == parts.last());
        assert(front[0] == parts[0]);
        assert(join(parts, sep) =~= parts[0] + sep + join(rest, sep));
    }
}

/// Splitting a line that was joined from words with single spaces gives the words back.
pub proof fn lemma_words_of_join(words: Seq<Seq<char>>, ascii: bool)
    requires
        are_words(words, ascii),
    ensures
        words_of(join(words, seq![' ']), ascii) == words,
    decreases words.len(),
{
    let sep = seq![' '];
    let line = join(words, sep);
    if words.len() == 0 {
        assert(words =~= Seq::<Seq<char>>::empty());
    } else {
        lemma_join_front(words, sep);
        let w = words[0];
        assert(is_word(w, ascii));
        let rest = words.drop_first();
        assert(are_words(rest, ascii)) by {
            assert forall|i: int| 0 <= i < rest.len() implies is_word(#[trigger] rest[i], ascii) by {
                assert(rest[i] == words[i + 1]);
            }
        }
        assert(line[0] == w[0]);
        assert(!is_blank(w[0], ascii));
        assert forall|j: int| 0 <= j < w.len() implies !is_blank(line[j], ascii) by {
            assert(line[j] == w[j]);
        }
        if words.len() == 1 {
            lemma_word_len_is(line, ascii, w.len() as int);
            assert(line.take(w.len() as int) =~= w);
            assert(line.skip(w.len() as int) =~= Seq::<char>::empty());
            assert(words_of(Seq::<char>::empty(), ascii) =~= Seq::<Seq<char>>::empty());
            assert(seq![w] + Seq::<Seq<char>>::empty() =~= words);
        } else {
            let tail = join(rest, sep);
            assert(line == w + sep + tail);
            assert(line[w.len() as int] == ' ');
            assert(is_blank(' ', ascii));
            lemma_word_len_is(line, ascii, w.len() as int);
            assert(line.take(w.len() as int) =~= w);
            let after = line.skip(w.len() as int);
            assert(after =~= sep + tail);
            assert(after[0] == ' ');
            assert(after.drop_first() =~= tail);
            lemma_words_of_join(rest, ascii);
            assert(words_of(after, ascii) == words_of(tail, ascii));
            assert(seq![w] + rest =~= words);
        }
    }
}

/// Whether `l` can stand as a line: it holds no line feed and does not end
/// with a carriage return.
pub open spec fn is_line(l: Seq<char>) -> bool {
    lacks(l, '\n') && (l.len() > 0 ==> l.last() != '\r')
}

/// Whether each of the lines can stand as a line.
pub open spec fn are_lines(lines: Seq<Seq<char>>) -> bool {
    forall|i: int| 0 <= i < lines.len() ==> is_line(#[trigger] lines[i])
}

/// Splitting a text that was joined from lines gives the lines back, unless
/// the last line is empty.
pub proof fn lemma_lines_of_join(lines: Seq<Seq<char>>)
    requires
        are_lines(lines),
        lines.len() > 0 ==> lines.last().len() > 0,
    ensures
        lines_of(join_lines(lines)) == lines,
    decreases lines.len(),
{
    let sep = seq!['\n'];
    let text = join(lines, sep);
    if lines.len() == 0 {
        assert(lines =~= Seq::<Seq<char>>::empty());
    } else {
        lemma_join_front(lines, sep);
        let l = lines[0];
        assert(is_line(l));
        if lines.len() == 1 {
            assert(text == l);
            assert(l == lines.last());
            lemma_first_newline_is(text, text.len() as int);
            assert(seq![text] =~= lines);
        } else {
            let rest = lines.drop_first();
            let tail = join(rest, sep);
            assert(are_lines(rest)) by {
                assert forall|i: int| 0 <= i < rest.len() implies is_line(#[trigger] rest[i]) by {
                    assert(rest[i] == lines[i + 1]);
                }
            }
            assert(rest.last() == lines.last());
            assert(text == l + sep + tail);
            assert forall|j: int| 0 <= j < l.len() implies text[j] != '\n' by {
                assert(text[j] == l[j]);
            }
            assert(text[l.len() as int] == '\n');
            lemma_first_newline_is(text, l.len() as int);
            assert(text.take(l.len() as int) =~= l);
            assert(strip_cr(l) == l);
            assert(text.skip((l.len() + 1) as int) =~= tail);
            lemma_lines_of_join(rest);
            assert(seq![l] + rest =~= lines);
        }
    }
}

/// The digits of a number are digits: none of them is a blank, a line feed,
/// a sign or a dot, and there is at least one.
pub proof fn lemma_hex_digits_are_digits(n: nat)
    ensures
        hex_digits(n).len() > 0,
        forall|i: int|
            0 <= i < hex_digits(n).len() ==> (#[trigger] hex_digit(hex_digits(n)[i])) is Some,
    decreases n,
{
    lemma_hex_round_trip(n);
}

/// A hexadecimal digit is no blank and none of the characters that end a line.
pub proof fn lemma_digit_is_plain(c: char)
    requires
        hex_digit(c) is Some,
    ensures
        !is_blank(c, true),
        !is_blank(c, false),
        c != '\n',
        c != '\r',
        c != '+',
        c != '-',
        c != '.',
{
}

/// What is printed in hexadecimal for a number that is not negative reads
/// back as that number, as a signed number of 32 bits and as an unsigned one.
pub proof fn lemma_hex_reads_back(v: int)
    requires
        0 <= v,
    ensures
        v <= i32::MAX ==> signed_hex(hex_digits(v as nat)) == Some(v),
        v <= i32::MAX ==> hex_i32(v) == hex_digits(v as nat),
        forall|max: int|
            v <= max ==> (#[trigger] unsigned_hex(hex_digits(v as nat), max)) == Some(v),
        is_word(hex_digits(v as nat), true),
        is_word(hex_digits(v as nat), false),
        is_line(hex_digits(v as nat)),
{
    let d = hex_digits(v as nat);
    lemma_hex_round_trip(v as nat);
    assert forall|i: int| 0 <= i < d.len() implies !is_blank(#[trigger] d[i], true) && !is_blank(
        d[i],
        false,
    ) && d[i] != '\n' && d[i] != '\r' && d[i] != '+' && d[i] != '-' by {
        assert(hex_digit(d[i]) is Some);
        lemma_digit_is_plain(d[i]);
    }
    assert(hex_digit(d[0]) is Some);
    assert(hex_digit(d.last()) is Some);
    assert(unsigned_part(d, true) == d);
    assert(unsigned_part(d, false) == d);
}

/// The two digits of a byte read back as the byte.
pub proof fn lemma_hex_byte_reads_back(b: u8)
    ensures
        unsigned_hex(hex_byte(b), 255) == Some(b as int),
        is_word(hex_byte(b), true),
        is_word(hex_byte(b), false),
        hex_byte(b).len() == 2,
{
    let d = hex_byte(b);
    let hi = (b / 16) as int;
    let lo = (b % 16) as int;
    assert(hex_digit(digit_char(hi)) == Some(hi));
    assert(hex_digit(digit_char(lo)) == Some(lo));
    assert(d[0] == digit_char(hi) && d[1] == digit_char(lo));
    lemma_digit_is_plain(d[0]);
    lemma_digit_is_plain(d[1]);
    assert(unsigned_part(d, false) == d);
    assert(d.drop_last() =~= seq![digit_char(hi)]);
    assert(d.drop_last().drop_last() =~= Seq::<char>::empty());
    assert(hex_value(d.drop_last().drop_last()) == 0);
    assert(hex_value(d.drop_last()) == hi);
    assert(hex_value(d) == 16 * hi + lo);
    assert forall|j: int| 0 <= j < d.len() implies (#[trigger] hex_digit(d[j])) is Some by {
        if j == 0 {
        } else {
            assert(j == 1);
        }
    }
}


/// Joining two rows of parts, one after the other, joins what each row joins to.
pub proof fn lemma_join_concat(a: Seq<Seq<char>>, b: Seq<Seq<char>>, sep: Seq<char>)
    requires
        a.len() > 0,
        b.len() > 0,
    ensures
        join(a + b, sep) == join(a, sep) + sep + join(b, sep),
    decreases b.len(),
{
    let all = a + b;
    assert(all.last() == b.last());
    if b.len() == 1 {
        assert(all.drop_last() =~= a);
    } else {
        assert(all.drop_last() =~= a + b.drop_last());
        lemma_join_concat(a, b.drop_last(), sep);
        assert(join(all, sep) =~= join(a, sep) + sep + join(b, sep));
    }
}

/// Whether `w` can stand as a field: it holds no space, and no blank at either end.
pub open spec fn is_field(w: Seq<char>) -> bool {
    lacks(w, ' ') && (w.len() > 0 ==> !is_blank(w[0], false) && !is_blank(w.last(), false))
}

/// Whether each of the fields can stand as a field.
pub open spec fn are_fields(fields: Seq<Seq<char>>) -> bool {
    forall|i: int| 0 <= i < fields.len() ==> is_field(#[trigger] fields[i])
}

/// A word without blanks is a field.
pub proof fn lemma_word_is_field(w: Seq<char>)
    requires
        is_word(w, false),
    ensures
        is_field(w),
{
    assert forall|i: int| 0 <= i < w.len() implies w[i] != ' ' by {
        assert(!is_blank(w[i], false));
    }
    assert(!is_blank(w[0], false));
    assert(!is_blank(w.last(), false));
}

/// Splitting a line that was joined from fields with single spaces gives the fields back.
pub proof fn lemma_pieces_of_join(fields: Seq<Seq<char>>)
    requires
        fields.len() > 0,
        forall|i: int| 0 <= i < fields.len() ==> lacks(#[trigger] fields[i], ' '),
    ensures
        pieces_of(join(fields, seq![' '])) == fields,
    decreases fields.len(),
{
    let sep = seq![' '];
    let line = join(fields, sep);
    lemma_join_front(fields, sep);
    let w = fields[0];
    assert(lacks(w, ' '));
    if fields.len() == 1 {
        lemma_first_space_is(line, line.len() as int);
        assert(seq![line] =~= fields);
    } else {
        let rest = fields.drop_first();
        let tail = join(rest, sep);
        assert forall|i: int| 0 <= i < rest.len() implies lacks(#[trigger] rest[i], ' ') by {
            assert(rest[i] == fields[i + 1]);
        }
        assert(line == w + sep + tail);
        assert forall|j: int| 0 <= j < w.len() implies line[j] != ' ' by {
            assert(line[j] == w[j]);
        }
        assert(line[w.len() as int] == ' ');
        lemma_first_space_is(line, w.len() as int);
        assert(line.take(w.len() as int) =~= w);
        assert(line.skip((w.len() + 1) as int) =~= tail);
        lemma_pieces_of_join(rest);
        assert(seq![w] + rest =~= fields);
    }
}

/// Splitting a line that was joined from fields with single spaces, and
/// trimming each piece, gives the fields back.
pub proof fn lemma_fields_of_join(fields: Seq<Seq<char>>)
    requires
        fields.len() > 0,
        are_fields(fields),
    ensures
        fields_of(join(fields, seq![' '])) == fields,
{
    assert forall|i: int| 0 <= i < fields.len() implies lacks(#[trigger] fields[i], ' ') by {
        assert(is_field(fields[i]));
    }
    lemma_pieces_of_join(fields);
    assert forall|i: int| 0 <= i < fields.len() implies trim(#[trigger] fields[i])
        == fields[i] by {
        assert(is_field(fields[i]));
    }
    assert(fields.map_values(|p: Seq<char>| trim(p)) =~= fields);
}

/// A line that is joined from fields holds no line feed and does not end
/// with a carriage return, if no field holds a line feed or carriage return.
pub proof fn lemma_join_fields_is_line(fields: Seq<Seq<char>>)
    requires
        forall|i: int|
            0 <= i < fields.len() ==> lacks(#[trigger] fields[i], '\n') && lacks(fields[i], '\r'),
    ensures
        lacks(join(fields, seq![' ']), '\n'),
        lacks(join(fields, seq![' ']), '\r'),
        is_line(join(fields, seq![' '])),
    decreases fields.len(),
{
    let sep = seq![' '];
    let line = join(fields, sep);
    if fields.len() == 1 {
        assert(lacks(fields[0], '\n') && lacks(fields[0], '\r'));
    } else if fields.len() > 1 {
        let front = fields.drop_last();
        let last = fields.last();
        assert(lacks(last, '\n') && lacks(last, '\r'));
        assert forall|i: int| 0 <= i < front.len() implies lacks(#[trigger] front[i], '\n')
            && lacks(front[i], '\r') by {
            assert(front[i] == fields[i]);
        }
        lemma_join_fields_is_line(front);
        let head = join(front, sep);
        assert(line == head + sep + last);
        assert forall|i: int| 0 <= i < line.len() implies line[i] != '\n' && line[i] != '\r' by {
            if i < head.len() {
                assert(line[i] == head[i]);
            } else if i == head.len() {
                assert(line[i] == ' ');
            } else {
                assert(line[i] == last[i - head.len() - 1]);
            }
        }
    }
}


/// Two parts join to the one, the separator, and the other.
pub proof fn lemma_join_two(a: Seq<char>, b: Seq<char>, sep: Seq<char>)
    ensures
        join(seq![a, b], sep) == a + sep + b,
{
    let parts = seq![a, b];
    assert(parts.drop_last() =~= seq![a]);
    assert(join(seq![a], sep) == a);
}

/// Three parts join to the parts with the separator between each two.
pub proof fn lemma_join_three(a: Seq<char>, b: Seq<char>, c: Seq<char>, sep: Seq<char>)
    ensures
        join(seq![a, b, c], sep) == a + sep + b + sep + c,
{
    let parts = seq![a, b, c];
    assert(parts.drop_last() =~= seq![a, b]);
    lemma_join_two(a, b, sep);
}

} // verus!
