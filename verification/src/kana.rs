//! Script classification and conversion for the two Japanese phonetic
//! scripts (hiragana and katakana).
//!
//! Classification goes by fixed code point ranges; conversion between the
//! scripts adds or subtracts a fixed offset on the convertible ranges and
//! leaves every other character untouched, so converting a string back
//! restores it exactly.

use vstd::prelude::*;

use crate::text::{char_from_u32, push_char};

verus! {

/// Offset between a hiragana character and its katakana counterpart.
pub const KANA_OFFSET: u32 = 0x60;

/// A character of either phonetic script, including the combining and
/// iteration marks and the prolonged sound mark.
pub open spec fn is_kana_char(c: char) -> bool {
    let v = c as u32;
    (0x3041 <= v && v <= 0x3096)  // hiragana
    || (0x3099 <= v && v <= 0x309c)  // combining marks
    || (0x309d <= v && v <= 0x309e)  // hiragana iteration marks
    || (0x30a1 <= v && v <= 0x30f6)  // katakana
    || v == 0x30fc  // prolonged sound mark
    || (0x30fd <= v && v <= 0x30fe)  // katakana iteration marks
}

/// A hiragana character, a mark usable inside hiragana text, or the
/// prolonged sound mark.
pub open spec fn is_hiragana_char(c: char) -> bool {
    let v = c as u32;
    (0x3041 <= v && v <= 0x3096)  // hiragana
    || (0x3099 <= v && v <= 0x309c)  // combining marks
    || (0x309d <= v && v <= 0x309e)  // hiragana iteration marks
    || v == 0x30fc  // prolonged sound mark
    || (0x30fd <= v && v <= 0x30fe)  // katakana iteration marks
}

/// A character that `hiragana_to_katakana` converts: hiragana proper or a
/// hiragana iteration mark.
pub open spec fn h_convertible(c: char) -> bool {
    let v = c as u32;
    (0x3041 <= v && v <= 0x3096) || (0x309d <= v && v <= 0x309e)
}

/// A character that `katakana_to_hiragana` converts: katakana proper or a
/// katakana iteration mark.
pub open spec fn k_convertible(c: char) -> bool {
    let v = c as u32;
    (0x30a1 <= v && v <= 0x30f6) || (0x30fd <= v && v <= 0x30fe)
}

/// The katakana counterpart of one character.
pub open spec fn h2k_char(c: char) -> char {
    if h_convertible(c) {
        (c as u32 + KANA_OFFSET) as char
    } else {
        c
    }
}

/// The hiragana counterpart of one character.
pub open spec fn k2h_char(c: char) -> char {
    if k_convertible(c) {
        (c as u32 - KANA_OFFSET) as char
    } else {
        c
    }
}

/// The katakana rendering of a string, character by character.
pub open spec fn h2k(s: Seq<char>) -> Seq<char> {
    s.map_values(|c: char| h2k_char(c))
}

/// The hiragana rendering of a string, character by character.
pub open spec fn k2h(s: Seq<char>) -> Seq<char> {
    s.map_values(|c: char| k2h_char(c))
}

/// Every character of the string is phonetic (vacuously true when empty).
pub open spec fn all_kana(s: Seq<char>) -> bool {
    forall|i: int| 0 <= i < s.len() ==> is_kana_char(s[i])
}

/// Every character of the string is usable in hiragana text.
pub open spec fn all_hiragana(s: Seq<char>) -> bool {
    forall|i: int| 0 <= i < s.len() ==> is_hiragana_char(s[i])
}

/// The string with every non-phonetic character removed.
pub open spec fn kana_only(s: Seq<char>) -> Seq<char> {
    s.filter(|c: char| is_kana_char(c))
}

/// Classifies one character as phonetic-script or not.
pub fn is_kana(ch: char) -> (r: bool)
    ensures
        r == is_kana_char(ch),
{
    let c = ch as u32;
    (c >= 0x3041 && c <= 0x3096) || (c >= 0x3099 && c <= 0x309c) || (c >= 0x309d && c <= 0x309e)
        || (c >= 0x30a1 && c <= 0x30f6) || c == 0x30fc || (c >= 0x30fd && c <= 0x30fe)
}

/// Classifies one character as usable in hiragana text or not.
pub fn is_hiragana(ch: char) -> (r: bool)
    ensures
        r == is_hiragana_char(ch),
{
    let c = ch as u32;
    (c >= 0x3041 && c <= 0x3096) || (c >= 0x3099 && c <= 0x309c) || (c >= 0x309d && c <= 0x309e)
        || c == 0x30fc || (c >= 0x30fd && c <= 0x30fe)
}

/// Removes every non-phonetic character from `text`.
pub fn strip_non_kana(text: &str) -> (r: String)
    ensures
        r@ == kana_only(text@),
{
    let n = text.unicode_len();
    let mut out = String::new();
    let mut i: usize = 0;
    proof {
        reveal_with_fuel(Seq::filter, 1);
        assert(text@.subrange(0, 0).filter(|c: char| is_kana_char(c)) =~= Seq::<char>::empty());
    }
    while i < n
        invariant
            i <= n,
            n == text@.len(),
            out@ == text@.subrange(0, i as int).filter(|c: char| is_kana_char(c)),
        decreases n - i,
    {
        let ch = text.get_char(i);
        if is_kana(ch) {
            push_char(&mut out, ch);
        }
        proof {
            reveal_with_fuel(Seq::filter, 1);
            let pred = |c: char| is_kana_char(c);
            let pre = text@.subrange(0, i as int);
            let post = text@.subrange(0, i + 1);
            assert(post =~= pre.push(text@[i as int]));
            assert(post.drop_last() =~= pre);
            assert(post.last() == text@[i as int]);
        }
        i += 1;
    }
    proof {
        assert(text@.subrange(0, n as int) =~= text@);
    }
    out
}

/// Converts every hiragana character of `text` to its katakana
/// counterpart, leaving all other characters unchanged.
pub fn hiragana_to_katakana(text: &str) -> (r: String)
    ensures
        r@ == h2k(text@),
{
    let n = text.unicode_len();
    let mut out = String::new();
    let mut i: usize = 0;
    proof {
        assert(text@.subrange(0, 0).map_values(|c: char| h2k_char(c)) =~= Seq::<char>::empty());
    }
    while i < n
        invariant
            i <= n,
            n == text@.len(),
            out@ == text@.subrange(0, i as int).map_values(|c: char| h2k_char(c)),
        decreases n - i,
    {
        let ch = text.get_char(i);
        let c = ch as u32;
        let nc: char = if (c >= 0x3041 && c <= 0x3096) || (c >= 0x309d && c <= 0x309e) {
            match char_from_u32(c + KANA_OFFSET) {
                Some(conv) => conv,
                None => {
                    proof {
                        assert(false);
                    }
                    ch
                },
            }
        } else {
            ch
        };
        proof {
            if (c >= 0x3041 && c <= 0x3096) || (c >= 0x309d && c <= 0x309e) {
                vstd::utf8::char_u32_cast(nc, (c + KANA_OFFSET) as u32);
            }
            assert(nc == h2k_char(ch));
        }
        push_char(&mut out, nc);
        proof {
            assert(text@.subrange(0, i + 1) =~= text@.subrange(0, i as int).push(
                text@[i as int],
            ));
            assert(out@ =~= text@.subrange(0, i + 1).map_values(|c: char| h2k_char(c)));
        }
        i += 1;
    }
    proof {
        assert(text@.subrange(0, n as int) =~= text@);
    }
    out
}

/// Converts every katakana character of `text` to its hiragana
/// counterpart, leaving all other characters unchanged.
pub fn katakana_to_hiragana(text: &str) -> (r: String)
    ensures
        r@ == k2h(text@),
{
    let n = text.unicode_len();
    let mut out = String::new();
    let mut i: usize = 0;
    proof {
        assert(text@.subrange(0, 0).map_values(|c: char| k2h_char(c)) =~= Seq::<char>::empty());
    }
    while i < n
        invariant
            i <= n,
            n == text@.len(),
            out@ == text@.subrange(0, i as int).map_values(|c: char| k2h_char(c)),
        decreases n - i,
    {
        let ch = text.get_char(i);
        let c = ch as u32;
        let nc: char = if (c >= 0x30a1 && c <= 0x30f6) || (c >= 0x30fd && c <= 0x30fe) {
            match char_from_u32(c - KANA_OFFSET) {
                Some(conv) => conv,
                None => {
                    proof {
                        assert(false);
                    }
                    ch
                },
            }
        } else {
            ch
        };
        proof {
            if (c >= 0x30a1 && c <= 0x30f6) || (c >= 0x30fd && c <= 0x30fe) {
                vstd::utf8::char_u32_cast(nc, (c - KANA_OFFSET) as u32);
            }
            assert(nc == k2h_char(ch));
        }
        push_char(&mut out, nc);
        proof {
            assert(text@.subrange(0, i + 1) =~= text@.subrange(0, i as int).push(
                text@[i as int],
            ));
            assert(out@ =~= text@.subrange(0, i + 1).map_values(|c: char| k2h_char(c)));
        }
        i += 1;
    }
    proof {
        assert(text@.subrange(0, n as int) =~= text@);
    }
    out
}

/// True when every character of `text` is phonetic.
pub fn is_all_kana(text: &str) -> (r: bool)
    ensures
        r == all_kana(text@),
{
    let n = text.unicode_len();
    let mut i: usize = 0;
    while i < n
        invariant
            i <= n,
            n == text@.len(),
            forall|j: int| 0 <= j < i ==> is_kana_char(text@[j]),
        decreases n - i,
    {
        if !is_kana(text.get_char(i)) {
            return false;
        }
        i += 1;
    }
    true
}

/// True when every character of `text` is usable in hiragana text.
pub fn is_all_hiragana(text: &str) -> (r: bool)
    ensures
        r == all_hiragana(text@),
{
    let n = text.unicode_len();
    let mut i: usize = 0;
    while i < n
        invariant
            i <= n,
            n == text@.len(),
            forall|j: int| 0 <= j < i ==> is_hiragana_char(text@[j]),
        decreases n - i,
    {
        if !is_hiragana(text.get_char(i)) {
            return false;
        }
        i += 1;
    }
    true
}

/// Converting a character to hiragana and back restores it, provided it is
/// not itself a convertible hiragana character.
pub proof fn lemma_char_round_trip(c: char)
    requires
        !h_convertible(c),
    ensures
        h2k_char(k2h_char(c)) == c,
{
}

/// Round trip of whole strings: text with no convertible hiragana in it —
/// katakana text in particular — survives conversion to hiragana and back
/// unchanged.
pub proof fn lemma_round_trip(s: Seq<char>)
    requires
        forall|i: int| 0 <= i < s.len() ==> !h_convertible(s[i]),
    ensures
        h2k(k2h(s)) == s,
{
    assert forall|i: int| 0 <= i < s.len() implies h2k_char(k2h_char(s[i])) == s[i] by {
        lemma_char_round_trip(s[i]);
    }
    assert(h2k(k2h(s)) =~= s);
}

/// Conversion to katakana is idempotent: a converted string has no
/// convertible hiragana left, so converting it again changes nothing.
pub proof fn lemma_h2k_idempotent(s: Seq<char>)
    ensures
        h2k(h2k(s)) == h2k(s),
{
    assert forall|i: int| 0 <= i < s.len() implies h2k_char(h2k_char(s[i])) == h2k_char(s[i]) by {
    }
    assert(h2k(h2k(s)) =~= h2k(s));
}

/// Conversion to hiragana is idempotent.
pub proof fn lemma_k2h_idempotent(s: Seq<char>)
    ensures
        k2h(k2h(s)) == k2h(s),
{
    assert forall|i: int| 0 <= i < s.len() implies k2h_char(k2h_char(s[i])) == k2h_char(s[i]) by {
    }
    assert(k2h(k2h(s)) =~= k2h(s));
}

/// A concatenation is all-phonetic exactly when both parts are.
pub proof fn lemma_all_kana_concat(a: Seq<char>, b: Seq<char>)
    ensures
        all_kana(a + b) <==> all_kana(a) && all_kana(b),
{
    if all_kana(a + b) {
        assert forall|i: int| 0 <= i < a.len() implies is_kana_char(a[i]) by {
            assert((a + b)[i] == a[i]);
        }
        assert forall|i: int| 0 <= i < b.len() implies is_kana_char(b[i]) by {
            assert((a + b)[a.len() + i] == b[i]);
        }
    }
    if all_kana(a) && all_kana(b) {
        assert forall|i: int| 0 <= i < (a + b).len() implies is_kana_char((a + b)[i]) by {
            if i < a.len() {
                assert((a + b)[i] == a[i]);
            } else {
                assert((a + b)[i] == b[i - a.len()]);
            }
        }
    }
}

/// Conversion keeps a string phonetic: the katakana rendering of an
/// all-phonetic string is still all-phonetic.
pub proof fn lemma_h2k_keeps_kana(s: Seq<char>)
    requires
        all_kana(s),
    ensures
        all_kana(h2k(s)),
{
}

} // verus!
