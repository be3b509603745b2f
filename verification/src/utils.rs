//! Address arithmetic and the fixed-width big-endian byte codec.

use crate::text::chars_of;
use vstd::prelude::*;

verus! {

/// The smallest multiple of `n` that is not below `x`; `x` itself when `n` is 0.
pub open spec fn align_up(x: int, n: int) -> int {
    if n == 0 || x % n == 0 {
        x
    } else {
        x + (n - x % n)
    }
}

/// The four bytes of `u`, most significant first.
pub open spec fn be_bytes4(u: int) -> Seq<u8> {
    seq![
        ((u / 0x100_0000) % 0x100) as u8,
        ((u / 0x1_0000) % 0x100) as u8,
        ((u / 0x100) % 0x100) as u8,
        (u % 0x100) as u8,
    ]
}

/// The unsigned number that four bytes stand for, most significant first.
pub open spec fn be_value4(b: Seq<u8>) -> int {
    b[0] as int * 0x100_0000 + b[1] as int * 0x1_0000 + b[2] as int * 0x100 + b[3] as int
}

/// The unsigned number that two bytes stand for, most significant first.
pub open spec fn be_value2(b: Seq<u8>) -> int {
    b[0] as int * 0x100 + b[1] as int
}

/// The 32-bit pattern of a signed number, read as unsigned.
pub open spec fn unsigned32(i: int) -> int {
    if i < 0 {
        i + 0x1_0000_0000
    } else {
        i
    }
}

/// The signed number that a 32-bit pattern stands for in two's complement.
pub open spec fn signed32(u: int) -> int {
    if u >= 0x8000_0000 {
        u - 0x1_0000_0000
    } else {
        u
    }
}

/// The signed number that a 16-bit pattern stands for in two's complement.
pub open spec fn signed16(u: int) -> int {
    if u >= 0x8000 {
        u - 0x1_0000
    } else {
        u
    }
}

/// The encoding of an absolute address: defined for the numbers that fit 32 unsigned bits.
pub open spec fn addr4(u: int) -> Option<Seq<u8>> {
    if 0 <= u <= 0xFFFF_FFFF {
        Some(be_bytes4(u))
    } else {
        None
    }
}

/// The two's-complement encoding of a signed 32-bit number.
pub open spec fn int4(i: int) -> Seq<u8> {
    be_bytes4(unsigned32(i))
}

/// The signed number that a byte string of length four encodes.
pub open spec fn decode4(b: Seq<u8>) -> Option<int> {
    if b.len() == 4 {
        Some(signed32(be_value4(b)))
    } else {
        None
    }
}

/// The signed number that a byte string of length two encodes.
pub open spec fn decode2(b: Seq<u8>) -> Option<int> {
    if b.len() == 2 {
        Some(signed16(be_value2(b)))
    } else {
        None
    }
}

/// Rounds `i` up to the next multiple of `n`, in 64 bits.
pub fn align_wide(i: i64, n: i64) -> (r: i64)
    requires
        0 <= n <= 0x1_0000_0000,
        -0x100_0000_0000 <= i <= 0x100_0000_0000,
    ensures
        r == align_up(i as int, n as int),
{
    if n == 0 {
        return i;
    }
    let rem: i64 = if i >= 0 {
        i % n
    } else {
        // the remainder that is never negative
        let m: i64 = (-(i + 1)) % n;
        n - 1 - m
    };
    assert(rem == (i as int) % (n as int)) by (nonlinear_arith)
        requires
            n > 0,
            i >= 0 ==> rem == (i as int) % (n as int),
            i < 0 ==> rem == n - 1 - ((-(i + 1)) % (n as int)),
    {
        if i < 0 {
            let k = -(i + 1);
            let q = k / (n as int);
            let m = k % (n as int);
            assert(k == q * n + m);
            assert(0 <= m < n);
            assert(i == (-q - 1) * n + (n - 1 - m));
            assert(0 <= n - 1 - m < n);
            vstd::arithmetic::div_mod::lemma_fundamental_div_mod_converse(
                i as int,
                n as int,
                -q - 1,
                n - 1 - m,
            );
        }
    }
    if rem == 0 {
        i
    } else {
        i + (n - rem)
    }
}

/// Rounds `i` up to the next multiple of `n`.
pub fn find_seg_start(i: i32, n: i32) -> (r: i32)
    requires
        n >= 0,
        align_up(i as int, n as int) <= i32::MAX,
    ensures
        r == align_up(i as int, n as int),
{
    proof {
        lemma_align_up(i as int, n as int);
    }
    align_wide(i as i64, n as i64) as i32
}

/// Alignment never moves an address down, lands on a multiple of the boundary,
/// leaves the address alone for a boundary of 0, and moves it by less than
/// the boundary.
pub proof fn lemma_align_up(x: int, n: int)
    requires
        n >= 0,
    ensures
        align_up(x, n) >= x,
        n > 0 ==> align_up(x, n) % n == 0,
        align_up(x, 0) == x,
        n > 0 ==> align_up(x, n) - x < n,
{
    if n > 0 {
        let r = x % n;
        assert(0 <= r < n);
        if r != 0 {
            assert((x + (n - r)) % n == 0) by (nonlinear_arith)
                requires
                    n > 0,
                    r == x % n,
            {
                let q = x / n;
                assert(x == q * n + r);
                assert(x + (n - r) == (q + 1) * n + 0);
                vstd::arithmetic::div_mod::lemma_fundamental_div_mod_converse(x + (n - r), n, q + 1, 0);
            }
        }
    }
}


fn be_bytes(u: u32) -> (v: Vec<u8>)
    ensures
        v@ == be_bytes4(u as int),
{
    let mut v: Vec<u8> = Vec::new();
    v.push((u / 0x100_0000) as u8);
    v.push(((u / 0x1_0000) % 0x100) as u8);
    v.push(((u / 0x100) % 0x100) as u8);
    v.push((u % 0x100) as u8);
    assert(v@ =~= be_bytes4(u as int));
    v
}

/// Encodes an absolute address in four bytes; there is no encoding above 32 bits.
pub fn mk_addr_4(i: usize) -> (r: Option<Vec<u8>>)
    ensures
        r is Some <==> i <= 0xFFFF_FFFF,
        r is Some ==> Some(r->0@) == addr4(i as int),
        r is None ==> addr4(i as int) is None,
{
    if i > 0xFFFF_FFFF {
        return None;
    }
    Some(be_bytes(i as u32))
}

/// Encodes a signed number in four bytes, two's complement.
pub fn mk_i_4(i: i32) -> (v: Vec<u8>)
    ensures
        v@ == int4(i as int),
{
    let u: u32 = if i < 0 {
        ((i as i64) + 0x1_0000_0000) as u32
    } else {
        i as u32
    };
    be_bytes(u)
}

/// Decodes four bytes into a signed number; any other length has no value.
pub fn x_to_i4(bytes: &[u8]) -> (r: Option<i32>)
    ensures
        r is Some <==> bytes@.len() == 4,
        match r {
            Some(i) => decode4(bytes@) == Some(i as int),
            None => decode4(bytes@) is None,
        },
{
    if bytes.len() != 4 {
        return None;
    }
    let u: i64 = (bytes[0] as i64) * 0x100_0000 + (bytes[1] as i64) * 0x1_0000 + (bytes[2] as i64)
        * 0x100 + (bytes[3] as i64);
    if u >= 0x8000_0000 {
        Some((u - 0x1_0000_0000) as i32)
    } else {
        Some(u as i32)
    }
}

/// Decodes two bytes into a signed number; any other length has no value.
pub fn x_to_i2(bytes: &[u8]) -> (r: Option<i16>)
    ensures
        r is Some <==> bytes@.len() == 2,
        match r {
            Some(i) => decode2(bytes@) == Some(i as int),
            None => decode2(bytes@) is None,
        },
{
    if bytes.len() != 2 {
        return None;
    }
    let u: i32 = (bytes[0] as i32) * 0x100 + (bytes[1] as i32);
    if u >= 0x8000 {
        Some((u - 0x1_0000) as i16)
    } else {
        Some(u as i16)
    }
}

/// The pairs of neighbours of `a`, the second of each lowered by one.
pub open spec fn range_pairs_of(a: Seq<i32>) -> Seq<(i32, i32)> {
    Seq::new(
        if a.len() == 0 {
            0
        } else {
            (a.len() - 1) as nat
        },
        |k: int| (a[k], (a[k + 1] - 1) as i32),
    )
}

/// Turns a list of ascending bounds into closed ranges.
pub fn range_pairs(array: &[i32]) -> (result: Vec<(i32, i32)>)
    requires
        forall|k: int| 1 <= k < array@.len() ==> array@[k] > i32::MIN,
    ensures
        result@ == range_pairs_of(array@),
{
    let mut result: Vec<(i32, i32)> = Vec::new();
    if array.len() < 2 {
        assert(result@ =~= range_pairs_of(array@));
        return result;
    }
    let mut k: usize = 0;
    let last: usize = array.len() - 1;
    while k < last
        invariant
            array@.len() >= 2,
            last == array@.len() - 1,
            k <= last,
            result@.len() == k,
            forall|j: int| 1 <= j < array@.len() ==> array@[j] > i32::MIN,
            forall|j: int| 0 <= j < k ==> result@[j] == range_pairs_of(array@)[j],
        decreases array@.len() - k,
    {
        result.push((array[k], array[k + 1] - 1));
        k += 1;
    }
    assert(result@ =~= range_pairs_of(array@));
    result
}

/// The number of line feeds among the first `n` characters of a text.
pub open spec fn newlines(s: Seq<char>, n: int) -> nat
    decreases n,
{
    if n <= 0 {
        0
    } else {
        newlines(s, n - 1) + if s[n - 1] == '\n' {
            1nat
        } else {
            0
        }
    }
}

/// The line feeds of two texts in a row are those of the one and those of the other.
pub proof fn lemma_newlines_concat(a: Seq<char>, b: Seq<char>, n: int)
    requires
        0 <= n <= b.len(),
    ensures
        newlines(a + b, a.len() + n) == newlines(a, a.len() as int) + newlines(b, n),
    decreases n,
{
    if n > 0 {
        lemma_newlines_concat(a, b, n - 1);
        assert((a + b)[a.len() + n - 1] == b[n - 1]);
    } else {
        lemma_newlines_prefix(a + b, a, a.len() as int);
    }
}

/// The line feeds among the first characters of a text depend on those characters only.
pub proof fn lemma_newlines_prefix(s: Seq<char>, t: Seq<char>, n: int)
    requires
        0 <= n <= s.len(),
        n <= t.len(),
        forall|i: int| 0 <= i < n ==> s[i] == t[i],
    ensures
        newlines(s, n) == newlines(t, n),
    decreases n,
{
    if n > 0 {
        lemma_newlines_prefix(s, t, n - 1);
    }
}

/// A text without a line feed has none to count.
pub proof fn lemma_newlines_none(s: Seq<char>, n: int)
    requires
        0 <= n <= s.len(),
        forall|i: int| 0 <= i < s.len() ==> s[i] != '\n',
    ensures
        newlines(s, n) == 0,
    decreases n,
{
    if n > 0 {
        lemma_newlines_none(s, n - 1);
    }
}

/// Counts the line feeds of a text.
pub fn count_new_lines(s: &str) -> (n: usize)
    ensures
        n == newlines(s@, s@.len() as int),
{
    let chars = chars_of(s);
    count_line_feeds(&chars)
}

/// Counts the line feeds among the characters.
pub fn count_line_feeds(chars: &Vec<char>) -> (n: usize)
    ensures
        n == newlines(chars@, chars@.len() as int),
{
    let mut n: usize = 0;
    let mut k: usize = 0;
    while k < chars.len()
        invariant
            k <= chars@.len(),
            n <= k,
            n == newlines(chars@, k as int),
        decreases chars@.len() - k,
    {
        if chars[k] == '\n' {
            n += 1;
        }
        k += 1;
    }
    n
}

/// The bytes of a 32-bit number stand for that number.
pub proof fn lemma_be_bytes4(u: int)
    requires
        0 <= u <= 0xFFFF_FFFF,
    ensures
        be_bytes4(u).len() == 4,
        be_value4(be_bytes4(u)) == u,
{
    let w = u as u64;
    assert(((w / 0x100_0000) % 0x100) * 0x100_0000 + ((w / 0x1_0000) % 0x100) * 0x1_0000 + ((w
        / 0x100) % 0x100) * 0x100 + (w % 0x100) == w) by (bit_vector)
        requires
            w <= 0xFFFF_FFFF,
    ;
}

/// The round trip of the signed codec: decoding what was encoded gives the number back.
pub proof fn lemma_int4_round_trip(i: i32)
    ensures
        decode4(int4(i as int)) == Some(i as int),
{
    lemma_be_bytes4(unsigned32(i as int));
}

/// An absolute address has an encoding exactly when it fits 32 unsigned bits,
/// and the encoding decodes to the same 32-bit pattern.
pub proof fn lemma_addr4_defined(u: int)
    ensures
        addr4(u) is Some <==> 0 <= u <= 0xFFFF_FFFF,
        addr4(u) is Some ==> addr4(u)->0.len() == 4 && be_value4(addr4(u)->0) == u,
{
    if 0 <= u <= 0xFFFF_FFFF {
        lemma_be_bytes4(u);
    }
}

} // verus!
