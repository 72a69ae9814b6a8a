//! Small executable string utilities shared by the rest of the library:
//! character-level equality and ordering on `&str`, suffix tests, and the
//! few standard-library calls that need trusted contracts.

use vstd::prelude::*;
use vstd::string::StringSliceAdditionalSpecFns;

verus! {

/// Relies on `String::push`: appends the given character to the end of the
/// string.
#[verifier::external_body]
pub(crate) fn push_char(s: &mut String, c: char)
    ensures
        final(s)@ == old(s)@.push(c),
{
    s.push(c);
}

/// Relies on `char::from_u32`: returns `Some` exactly for valid Unicode
/// scalar values (everything in `0..=0x10FFFF` except the surrogate range
/// `0xD800..=0xDFFF`), and the resulting character has the given value.
#[verifier::external_body]
pub(crate) fn char_from_u32(v: u32) -> (r: Option<char>)
    ensures
        r is Some <==> (v < 0xD800 || (0xE000 <= v && v <= 0x10FFFF)),
        r is Some ==> r->0 as u32 == v,
{
    char::from_u32(v)
}

/// Character-level string equality.
pub fn str_eq(a: &str, b: &str) -> (r: bool)
    ensures
        r == (a@ == b@),
{
    let alen = a.unicode_len();
    let blen = b.unicode_len();
    if alen != blen {
        return false;
    }
    let mut i: usize = 0;
    while i < alen
        invariant
            i <= alen,
            alen == a@.len(),
            alen == b@.len(),
            forall|j: int| 0 <= j < i ==> a@[j] == b@[j],
        decreases alen - i,
    {
        if a.get_char(i) != b.get_char(i) {
            return false;
        }
        i += 1;
    }
    proof {
        assert(a@ =~= b@);
    }
    true
}

/// Strict lexicographic order on character sequences: the first differing
/// character decides; a proper prefix comes first.
pub open spec fn lex_lt(a: Seq<char>, b: Seq<char>) -> bool
    decreases a.len(),
{
    if b.len() == 0 {
        false
    } else if a.len() == 0 {
        true
    } else if a[0] != b[0] {
        (a[0] as u32) < (b[0] as u32)
    } else {
        lex_lt(a.drop_first(), b.drop_first())
    }
}

/// `lex_lt` is trichotomous: of two sequences, either one is strictly
/// smaller or they are equal.
pub proof fn lemma_lex_lt_trichotomy(a: Seq<char>, b: Seq<char>)
    ensures
        lex_lt(a, b) || lex_lt(b, a) || a == b,
    decreases a.len(),
{
    if b.len() == 0 {
        if a.len() == 0 {
            assert(a =~= b);
        }
    } else if a.len() == 0 {
    } else if a[0] != b[0] {
        vstd::utf8::char_u32_cast(a[0], a[0] as u32);
        vstd::utf8::char_u32_cast(b[0], b[0] as u32);
        assert(a[0] as u32 != b[0] as u32);
    } else {
        lemma_lex_lt_trichotomy(a.drop_first(), b.drop_first());
        if a.drop_first() == b.drop_first() {
            assert(a.drop_first().len() == b.drop_first().len());
            assert forall|i: int| 0 <= i < a.len() implies a[i] == b[i] by {
                if i > 0 {
                    assert(a[i] == a.drop_first()[i - 1]);
                    assert(b[i] == b.drop_first()[i - 1]);
                }
            }
            assert(a =~= b);
        }
    }
}

/// `lex_lt` is transitive.
pub proof fn lemma_lex_lt_transitive(a: Seq<char>, b: Seq<char>, c: Seq<char>)
    requires
        lex_lt(a, b),
        lex_lt(b, c),
    ensures
        lex_lt(a, c),
    decreases a.len(),
{
    if c.len() == 0 {
    } else if a.len() == 0 {
    } else {
        if b.len() == 0 {
        } else {
            if a[0] == b[0] && b[0] == c[0] {
                lemma_lex_lt_transitive(a.drop_first(), b.drop_first(), c.drop_first());
            }
        }
    }
}

/// Decides `lex_lt` on two string slices.
pub fn str_lt(a: &str, b: &str) -> (r: bool)
    ensures
        r == lex_lt(a@, b@),
    decreases a@.len(),
{
    let blen = b.unicode_len();
    if blen == 0 {
        return false;
    }
    let alen = a.unicode_len();
    if alen == 0 {
        return true;
    }
    let ca = a.get_char(0);
    let cb = b.get_char(0);
    if ca != cb {
        (ca as u32) < (cb as u32)
    } else {
        let ra = a.substring_char(1, alen);
        let rb = b.substring_char(1, blen);
        proof {
            assert(ra@ =~= a@.drop_first());
            assert(rb@ =~= b@.drop_first());
        }
        str_lt(ra, rb)
    }
}

/// The length of a string in UTF-8 bytes: the unit the lookup-key and
/// entry orderings measure surface strings in.
pub open spec fn byte_len(s: Seq<char>) -> int {
    vstd::utf8::encode_utf8(s).len() as int
}

/// A single character encodes to one to four bytes.
pub proof fn lemma_byte_len_single(s: Seq<char>)
    requires
        s.len() == 1,
    ensures
        1 <= byte_len(s) <= 4,
{
    assert(s.drop_first() =~= Seq::<char>::empty());
    assert(vstd::utf8::encode_utf8(s.drop_first()).len() == 0);
}

/// Characters at or above U+0800 — all of Japanese text — encode to at
/// least three bytes each.
pub proof fn lemma_byte_len_wide(s: Seq<char>)
    requires
        forall|i: int| 0 <= i < s.len() ==> (s[i] as u32) >= 0x800,
    ensures
        byte_len(s) >= 3 * s.len(),
    decreases s.len(),
{
    if s.len() > 0 {
        let rest = s.drop_first();
        assert forall|i: int| 0 <= i < rest.len() implies (rest[i] as u32) >= 0x800 by {
            assert(rest[i] == s[i + 1]);
        }
        lemma_byte_len_wide(rest);
        assert(vstd::utf8::encode_scalar(s[0] as u32).len() >= 3);
    }
}

/// The character for one decimal digit.
pub open spec fn dec_digit(d: int) -> char {
    ((0x30 + d) as u32) as char
}

/// The decimal rendering of a non-negative integer, most significant
/// digit first, with no leading zeros (a lone zero for 0).
pub open spec fn dec_rep(n: int) -> Seq<char>
    decreases n,
{
    if n < 10 {
        seq![dec_digit(n)]
    } else {
        dec_rep(n / 10).push(dec_digit(n % 10))
    }
}

/// Renders an integer in decimal.
pub fn u32_to_string(x: u32) -> (r: String)
    ensures
        r@ == dec_rep(x as int),
    decreases x,
{
    if x < 10 {
        let c = match char_from_u32(0x30 + x) {
            Some(c) => c,
            None => {
                proof {
                    assert(false);
                }
                '0'
            },
        };
        proof {
            vstd::utf8::char_u32_cast(c, (0x30 + x) as u32);
        }
        let mut s = String::new();
        push_char(&mut s, c);
        proof {
            assert(s@ =~= dec_rep(x as int));
        }
        s
    } else {
        let mut s = u32_to_string(x / 10);
        let d = x % 10;
        let c = match char_from_u32(0x30 + d) {
            Some(c) => c,
            None => {
                proof {
                    assert(false);
                }
                '0'
            },
        };
        proof {
            vstd::utf8::char_u32_cast(c, (0x30 + d) as u32);
        }
        push_char(&mut s, c);
        s
    }
}

/// A character with the Unicode `White_Space` property.
pub open spec fn is_whitespace_char(c: char) -> bool {
    let v = c as u32;
    (0x09 <= v && v <= 0x0d) || v == 0x20 || v == 0x85 || v == 0xa0 || v == 0x1680 || (0x2000 <= v
        && v <= 0x200a) || v == 0x2028 || v == 0x2029 || v == 0x202f || v == 0x205f || v == 0x3000
}

/// Classifies one character as whitespace, by the fixed list of code
/// points carrying the Unicode `White_Space` property.
pub fn is_whitespace(ch: char) -> (r: bool)
    ensures
        r == is_whitespace_char(ch),
{
    let v = ch as u32;
    (0x09 <= v && v <= 0x0d) || v == 0x20 || v == 0x85 || v == 0xa0 || v == 0x1680 || (0x2000 <= v
        && v <= 0x200a) || v == 0x2028 || v == 0x2029 || v == 0x202f || v == 0x205f || v == 0x3000
}

/// The string without its leading and trailing whitespace.
pub open spec fn trimmed(s: Seq<char>) -> Seq<char>
    decreases s.len(),
{
    if s.len() == 0 {
        s
    } else if is_whitespace_char(s[0]) {
        trimmed(s.drop_first())
    } else if is_whitespace_char(s.last()) {
        trimmed(s.drop_last())
    } else {
        s
    }
}

/// A subrange whose outside is all whitespace and whose ends are not is
/// exactly the trimmed string.
proof fn lemma_trimmed_subrange(s: Seq<char>, a: int, b: int)
    requires
        0 <= a <= b <= s.len(),
        forall|i: int| 0 <= i < a ==> is_whitespace_char(s[i]),
        forall|i: int| b <= i < s.len() ==> is_whitespace_char(s[i]),
        a < b ==> !is_whitespace_char(s[a]) && !is_whitespace_char(s[b - 1]),
    ensures
        trimmed(s) == s.subrange(a, b),
    decreases s.len(),
{
    if s.len() == 0 {
        assert(trimmed(s) =~= s.subrange(a, b));
    } else if is_whitespace_char(s[0]) {
        let t = s.drop_first();
        if a > 0 {
            lemma_trimmed_subrange(t, a - 1, b - 1);
            assert(t.subrange(a - 1, b - 1) =~= s.subrange(a, b));
        } else {
            // a == 0: s[0] is whitespace, so a == b == 0 and all of s is
            // whitespace
            assert(a == b);
            lemma_trimmed_subrange(t, 0, 0);
            assert(t.subrange(0, 0) =~= s.subrange(a, b));
        }
    } else if is_whitespace_char(s.last()) {
        let t = s.drop_last();
        if b < s.len() {
            lemma_trimmed_subrange(t, a, b);
            assert(t.subrange(a, b) =~= s.subrange(a, b));
        } else {
            // b == s.len() is impossible: either the last character is
            // within (a, b) and then not whitespace, or a == b and then
            // the first character is whitespace
            if a < b {
                assert(!is_whitespace_char(s[b - 1]));
            } else {
                assert(is_whitespace_char(s[0]));
            }
            assert(false);
        }
    } else {
        assert(a == 0 && b == s.len());
        assert(trimmed(s) =~= s.subrange(a, b));
    }
}

/// The slice without its leading and trailing whitespace.
pub fn str_trim(s: &str) -> (r: &str)
    ensures
        r@ == trimmed(s@),
{
    let n = s.unicode_len();
    let mut start: usize = 0;
    while start < n && is_whitespace(s.get_char(start))
        invariant
            start <= n,
            n == s@.len(),
            forall|i: int| 0 <= i < start ==> is_whitespace_char(s@[i]),
        decreases n - start,
    {
        start += 1;
    }
    let mut end: usize = n;
    while end > start && is_whitespace(s.get_char(end - 1))
        invariant
            start <= end <= n,
            n == s@.len(),
            forall|i: int| end <= i < n ==> is_whitespace_char(s@[i]),
        decreases end,
    {
        end -= 1;
    }
    proof {
        lemma_trimmed_subrange(s@, start as int, end as int);
    }
    s.substring_char(start, end)
}

/// True when `a` ends with the characters of `t`.
pub open spec fn ends_with(a: Seq<char>, t: Seq<char>) -> bool {
    a.len() >= t.len() && a.subrange(a.len() - t.len(), a.len() as int) == t
}

/// Decides `ends_with` on two string slices.
pub fn str_ends_with(a: &str, t: &str) -> (r: bool)
    ensures
        r == ends_with(a@, t@),
{
    let alen = a.unicode_len();
    let tlen = t.unicode_len();
    if alen < tlen {
        return false;
    }
    let tail = a.substring_char(alen - tlen, alen);
    str_eq(tail, t)
}

/// Relies on `str::from_utf8`: succeeds exactly on well-formed UTF-8, and
/// the resulting slice consists of those bytes.
#[verifier::external_body]
fn utf8_to_str(bytes: &[u8]) -> (r: Option<&str>)
    ensures
        r is Some <==> vstd::utf8::valid_utf8(bytes@),
        r is Some ==> r->0.spec_bytes() == bytes@,
{
    std::str::from_utf8(bytes).ok()
}

/// The characters encoded by a well-formed UTF-8 byte sequence.
pub fn bytes_to_str(bytes: &[u8]) -> (r: &str)
    requires
        vstd::utf8::valid_utf8(bytes@),
    ensures
        r@ == vstd::utf8::decode_utf8(bytes@),
{
    match utf8_to_str(bytes) {
        Some(s) => {
            proof {
                vstd::utf8::encode_utf8_decode_utf8(s@);
            }
            s
        },
        None => {
            proof {
                assert(false);
            }
            ""
        },
    }
}

/// The characters encoded by a well-formed UTF-8 byte sequence, as an
/// owned string.
pub fn bytes_to_string(bytes: &[u8]) -> (r: String)
    requires
        vstd::utf8::valid_utf8(bytes@),
    ensures
        r@ == vstd::utf8::decode_utf8(bytes@),
{
    bytes_to_str(bytes).to_owned()
}

} // verus!
