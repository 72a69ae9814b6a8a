//! Morphological key expansion: from one word entry to the full set of
//! ranked lookup keys, including rule-based conjugated forms and the
//! katakana double of every all-phonetic form.
//!
//! The result is canonical: strictly sorted by (priority, byte length,
//! lexicographic) with duplicates removed, so its contents and order are
//! pinned by the key set alone.

use vstd::prelude::*;

use crate::conjugation::{rules_for, spec_rules};
use crate::kana::{all_kana, h2k, hiragana_to_katakana, is_all_kana};
use crate::records::WordEntry;
use crate::text::{byte_len, ends_with, lex_lt, str_ends_with, str_eq, str_lt};
use crate::text::{lemma_lex_lt_transitive, lemma_lex_lt_trichotomy};

verus! {

/// Ranking order on lookup keys: lower priority value first, then shorter
/// surface string (in UTF-8 bytes), then lexicographically smaller string
/// (code-point order, which coincides with byte order under UTF-8).
pub open spec fn spec_key_lt(a: (Seq<char>, u32), b: (Seq<char>, u32)) -> bool {
    a.1 < b.1 || (a.1 == b.1 && (byte_len(a.0) < byte_len(b.0) || (byte_len(a.0) == byte_len(b.0)
        && lex_lt(a.0, b.0))))
}

/// Strictly ascending by `spec_key_lt`; in particular duplicate-free.
pub open spec fn keys_sorted(s: Seq<(Seq<char>, u32)>) -> bool {
    forall|i: int, j: int| 0 <= i < j < s.len() ==> spec_key_lt(s[i], s[j])
}

/// Of two distinct keys one ranks strictly below the other.
pub proof fn lemma_key_lt_trichotomy(a: (Seq<char>, u32), b: (Seq<char>, u32))
    ensures
        spec_key_lt(a, b) || spec_key_lt(b, a) || a == b,
{
    if a.1 == b.1 && byte_len(a.0) == byte_len(b.0) {
        lemma_lex_lt_trichotomy(a.0, b.0);
    }
}

/// The ranking order is transitive.
pub proof fn lemma_key_lt_transitive(a: (Seq<char>, u32), b: (Seq<char>, u32), c: (Seq<char>, u32))
    requires
        spec_key_lt(a, b),
        spec_key_lt(b, c),
    ensures
        spec_key_lt(a, c),
{
    if a.1 == b.1 && b.1 == c.1 && byte_len(a.0) == byte_len(b.0) && byte_len(b.0) == byte_len(
        c.0,
    ) {
        lemma_lex_lt_transitive(a.0, b.0, c.0);
    }
}

/// Decides the ranking order on two owned keys.
fn key_lt(a: &(String, u32), b: &(String, u32)) -> (r: bool)
    ensures
        r == spec_key_lt(a.deep_view(), b.deep_view()),
{
    if a.1 < b.1 {
        true
    } else if a.1 > b.1 {
        false
    } else {
        let al = a.0.as_str().as_bytes().len();
        let bl = b.0.as_str().as_bytes().len();
        proof {
            assert(al as int == byte_len(a.0@));
            assert(bl as int == byte_len(b.0@));
        }
        if al < bl {
            true
        } else if al > bl {
            false
        } else {
            str_lt(a.0.as_str(), b.0.as_str())
        }
    }
}

/// Membership in a concatenation is membership in either part.
pub proof fn lemma_concat_contains<A>(s: Seq<A>, t: Seq<A>)
    ensures
        forall|k: A| #[trigger] (s + t).contains(k) <==> s.contains(k) || t.contains(k),
{
    assert forall|k: A| #[trigger] (s + t).contains(k) implies s.contains(k) || t.contains(k) by {
        let i = choose|i: int| 0 <= i < (s + t).len() && (s + t)[i] == k;
        if i < s.len() {
            assert(s[i] == k);
        } else {
            assert(t[i - s.len()] == k);
        }
    }
    assert forall|k: A| s.contains(k) || t.contains(k) implies #[trigger] (s + t).contains(k) by {
        if s.contains(k) {
            let i = choose|i: int| 0 <= i < s.len() && s[i] == k;
            assert((s + t)[i] == k);
        } else {
            let i = choose|i: int| 0 <= i < t.len() && t[i] == k;
            assert((s + t)[s.len() + i] == k);
        }
    }
}

/// Membership after an insertion is membership before, or the new element.
pub proof fn lemma_insert_contains<A>(s: Seq<A>, i: int, x: A)
    requires
        0 <= i <= s.len(),
    ensures
        forall|k: A| #[trigger] s.insert(i, x).contains(k) <==> s.contains(k) || k == x,
{
    let t = s.insert(i, x);
    s.insert_ensures(i, x);
    assert forall|k: A| #[trigger] t.contains(k) implies s.contains(k) || k == x by {
        let j = choose|j: int| 0 <= j < t.len() && t[j] == k;
        if j < i {
            assert(s[j] == k);
        } else if j == i {
        } else {
            assert(s[j - 1] == k);
        }
    }
    assert forall|k: A| s.contains(k) || k == x implies #[trigger] t.contains(k) by {
        if s.contains(k) {
            let j = choose|j: int| 0 <= j < s.len() && s[j] == k;
            if j < i {
                assert(t[j] == k);
            } else {
                assert(t[j + 1] == k);
            }
        } else {
            assert(t[i] == k);
        }
    }
}

/// Inserts one key at its rank, unless an equal key is already present.
fn insert_key(keys: &mut Vec<(String, u32)>, v: String, pri: u32)
    requires
        keys_sorted(old(keys).deep_view()),
    ensures
        keys_sorted(final(keys).deep_view()),
        forall|k: (Seq<char>, u32)|
            #[trigger] final(keys).deep_view().contains(k) <==> old(keys).deep_view().contains(k)
                || k == (v@, pri),
{
    let x = (v, pri);
    proof {
        assert(x.deep_view() == (x.0@, pri));
    }
    let n = keys.len();
    let mut i: usize = 0;
    while i < n && key_lt(&keys[i], &x)
        invariant
            i <= n,
            n == keys.len(),
            *keys == *old(keys),
            forall|j: int| 0 <= j < i ==> spec_key_lt(keys.deep_view()[j], x.deep_view()),
        decreases n - i,
    {
        proof {
            assert(keys.deep_view()[i as int] == (keys@[i as int].0@, keys@[i as int].1));
        }
        i += 1;
    }
    if i < n {
        let dup = x.1 == keys[i].1 && str_eq(x.0.as_str(), keys[i].0.as_str());
        if dup {
            proof {
                assert(keys.deep_view()[i as int] == (keys@[i as int].0@, keys@[i as int].1));
                assert(keys.deep_view()[i as int] == x.deep_view());
                assert(keys.deep_view().contains(x.deep_view()));
            }
            return;
        }
    }
    proof {
        let s = keys.deep_view();
        let dvx = x.deep_view();
        if i < n {
            assert(s[i as int] == (keys@[i as int].0@, keys@[i as int].1));
            assert(s[i as int] != dvx);
            assert(!spec_key_lt(s[i as int], dvx));
            lemma_key_lt_trichotomy(dvx, s[i as int]);
            assert(spec_key_lt(dvx, s[i as int]));
        }
        assert forall|j: int| i <= j < n implies spec_key_lt(dvx, s[j]) by {
            if j > i {
                lemma_key_lt_transitive(dvx, s[i as int], s[j]);
            }
        }
    }
    let ghost s = keys.deep_view();
    let ghost dvx = x.deep_view();
    keys.insert(i, x);
    proof {
        assert(keys.deep_view() =~= s.insert(i as int, dvx));
        s.insert_ensures(i as int, dvx);
        lemma_insert_contains(s, i as int, dvx);
        let t = keys.deep_view();
        assert forall|a: int, b: int| 0 <= a < b < t.len() implies spec_key_lt(t[a], t[b]) by {
            if b < i {
                assert(t[a] == s[a] && t[b] == s[b]);
            } else if a > i {
                assert(t[a] == s[a - 1] && t[b] == s[b - 1]);
            } else if a < i && b == i {
                assert(t[a] == s[a] && t[b] == dvx);
            } else if a == i {
                assert(t[a] == dvx && t[b] == s[b - 1]);
            } else {
                // a < i < b
                assert(t[a] == s[a] && t[b] == s[b - 1]);
            }
        }
    }
}

/// The keys one surface form contributes: the form itself, preceded by its
/// katakana double when the form is all phonetic.
pub open spec fn variant_keys(v: Seq<char>, pri: u32) -> Seq<(Seq<char>, u32)> {
    if all_kana(v) {
        seq![(h2k(v), pri), (v, pri)]
    } else {
        seq![(v, pri)]
    }
}

/// Inserts the keys of one surface form.
fn push_variant_keys(keys: &mut Vec<(String, u32)>, v: String, pri: u32)
    requires
        keys_sorted(old(keys).deep_view()),
    ensures
        keys_sorted(final(keys).deep_view()),
        forall|k: (Seq<char>, u32)|
            #[trigger] final(keys).deep_view().contains(k) <==> old(keys).deep_view().contains(k)
                || variant_keys(v@, pri).contains(k),
{
    let ghost vv = v@;
    if is_all_kana(v.as_str()) {
        let kat = hiragana_to_katakana(v.as_str());
        insert_key(keys, kat, pri);
        insert_key(keys, v, pri);
        proof {
            let vs = variant_keys(vv, pri);
            assert(vs[0] == (h2k(vv), pri));
            assert(vs[1] == (vv, pri));
            assert forall|k: (Seq<char>, u32)| vs.contains(k) implies k == (h2k(vv), pri) || k == (
                vv,
                pri,
            ) by {
                let j = choose|j: int| 0 <= j < vs.len() && vs[j] == k;
            }
            assert(vs.contains(vs[0]));
            assert(vs.contains(vs[1]));
        }
    } else {
        insert_key(keys, v, pri);
        proof {
            let vs = variant_keys(vv, pri);
            assert(vs[0] == (vv, pri));
            assert forall|k: (Seq<char>, u32)| vs.contains(k) implies k == (vv, pri) by {
                let j = choose|j: int| 0 <= j < vs.len() && vs[j] == k;
            }
            assert(vs.contains(vs[0]));
        }
    }
}

/// The priority a base form confers on all keys derived from it: the
/// entry's own priority, divided by eight for the phonetic spelling of a
/// word usually written phonetically.
pub open spec fn key_priority(e: WordEntry, word: Seq<char>) -> u32 {
    if all_kana(word) && e.usually_kana {
        (e.priority / 8) as u32
    } else {
        e.priority
    }
}

/// The base form with the rule's trailing suffix stripped.
pub open spec fn stem_of(word: Seq<char>, trail: Seq<char>) -> Seq<char> {
    word.subrange(0, word.len() - trail.len())
}

/// The surface forms one rule derives from a base form: the base form
/// itself and, when the rule applies (non-empty suffix that the form ends
/// with), each replacement attached to the stem.
pub open spec fn rule_variants(word: Seq<char>, rule: (Seq<char>, Seq<Seq<char>>)) -> Seq<
    Seq<char>,
> {
    if rule.0.len() > 0 && ends_with(word, rule.0) {
        seq![word] + rule.1.map_values(|en: Seq<char>| stem_of(word, rule.0) + en)
    } else {
        seq![word]
    }
}

/// The keys of a list of surface forms, in order.
pub open spec fn variants_keys(vs: Seq<Seq<char>>, pri: u32) -> Seq<(Seq<char>, u32)>
    decreases vs.len(),
{
    if vs.len() == 0 {
        Seq::empty()
    } else {
        variants_keys(vs.drop_last(), pri) + variant_keys(vs.last(), pri)
    }
}

/// All keys one rule contributes for one base form.
pub open spec fn keys_for_rule(
    e: WordEntry,
    word: Seq<char>,
    rule: (Seq<char>, Seq<Seq<char>>),
) -> Seq<(Seq<char>, u32)> {
    variants_keys(rule_variants(word, rule), key_priority(e, word))
}

/// All keys a list of rules contributes for one base form.
pub open spec fn rules_keys(
    e: WordEntry,
    word: Seq<char>,
    rules: Seq<(Seq<char>, Seq<Seq<char>>)>,
) -> Seq<(Seq<char>, u32)>
    decreases rules.len(),
{
    if rules.len() == 0 {
        Seq::empty()
    } else {
        rules_keys(e, word, rules.drop_last()) + keys_for_rule(e, word, rules.last())
    }
}

/// All keys one base form contributes under the entry's conjugation class.
pub open spec fn keys_for_word(e: WordEntry, word: Seq<char>) -> Seq<(Seq<char>, u32)> {
    rules_keys(e, word, spec_rules(e.conj))
}

/// The base forms of an entry: every writing, together with every reading
/// for a word usually written phonetically, or the canonical first reading
/// alone otherwise.
pub open spec fn base_forms(e: WordEntry) -> Seq<Seq<char>> {
    e.writings.deep_view() + (if e.usually_kana {
        e.readings.deep_view()
    } else {
        seq![e.readings.deep_view()[0]]
    })
}

/// All keys a list of base forms contributes.
pub open spec fn forms_keys(e: WordEntry, ws: Seq<Seq<char>>) -> Seq<(Seq<char>, u32)>
    decreases ws.len(),
{
    if ws.len() == 0 {
        Seq::empty()
    } else {
        forms_keys(e, ws.drop_last()) + keys_for_word(e, ws.last())
    }
}

/// Every lookup key of the entry, with repetitions, before the canonical
/// sort and deduplication.
pub open spec fn all_lookup_keys(e: WordEntry) -> Seq<(Seq<char>, u32)> {
    forms_keys(e, base_forms(e))
}

/// Applies one rule to one base form, inserting the base form's keys and
/// the keys of each inflected variant.
#[verifier::rlimit(50)]
fn end_replace_push(
    e: &WordEntry,
    word: &str,
    trail: &str,
    endings: &Vec<&str>,
    keys: &mut Vec<(String, u32)>,
)
    requires
        keys_sorted(old(keys).deep_view()),
    ensures
        keys_sorted(final(keys).deep_view()),
        forall|k: (Seq<char>, u32)|
            #[trigger] final(keys).deep_view().contains(k) <==> old(keys).deep_view().contains(k)
                || keys_for_rule(*e, word@, (trail@, endings.deep_view())).contains(k),
{
    let ghost rule = (trail@, endings.deep_view());
    let ghost rv = rule_variants(word@, rule);
    let priority: u32 = if is_all_kana(word) && e.usually_kana {
        e.priority / 8
    } else {
        e.priority
    };
    proof {
        assert(priority == key_priority(*e, word@));
    }
    push_variant_keys(keys, word.to_owned(), priority);
    proof {
        assert(rv[0] == word@);
        let t1 = rv.take(1);
        assert(t1.drop_last() =~= Seq::<Seq<char>>::empty());
        assert(t1.last() == word@);
        assert(variants_keys(t1.drop_last(), priority) == Seq::<(Seq<char>, u32)>::empty());
        assert(variants_keys(t1, priority) == variants_keys(t1.drop_last(), priority)
            + variant_keys(word@, priority));
        assert(Seq::<(Seq<char>, u32)>::empty() + variant_keys(word@, priority) =~= variant_keys(
            word@,
            priority,
        ));
        assert(variants_keys(rv.take(1), priority) == variant_keys(word@, priority));
    }
    let tlen = trail.unicode_len();
    let applies = tlen > 0 && str_ends_with(word, trail);
    if applies {
        let wlen = word.unicode_len();
        let stem = word.substring_char(0, wlen - tlen);
        proof {
            assert(stem@ =~= stem_of(word@, trail@));
            assert(rv =~= seq![word@] + endings.deep_view().map_values(
                |en: Seq<char>| stem_of(word@, trail@) + en,
            ));
            assert(rv.len() == 1 + endings.len());
        }
        let n = endings.len();
        let mut j: usize = 0;
        while j < n
            invariant
                j <= n,
                n == endings.len(),
                rv == rule_variants(word@, (trail@, endings.deep_view())),
                rv.len() == 1 + n,
                stem@ == stem_of(word@, trail@),
                priority == key_priority(*e, word@),
                forall|m: int| 0 <= m < n ==> rv[m + 1] == stem@ + endings.deep_view()[m],
                keys_sorted(keys.deep_view()),
                forall|k: (Seq<char>, u32)|
                    #[trigger] keys.deep_view().contains(k) <==> old(
                        keys,
                    ).deep_view().contains(k) || variants_keys(
                        rv.take(1 + j),
                        key_priority(*e, word@),
                    ).contains(k),
            decreases n - j,
        {
            let mut variant = stem.to_owned();
            variant.append(endings[j]);
            proof {
                assert(variant@ == rv[j + 1]);
            }
            push_variant_keys(keys, variant, priority);
            proof {
                let taken = rv.take(1 + j + 1);
                assert(taken.drop_last() =~= rv.take(1 + j));
                assert(taken.last() == rv[j + 1]);
                assert(variants_keys(taken, priority) == variants_keys(rv.take(1 + j), priority)
                    + variant_keys(rv[j + 1], priority));
                lemma_concat_contains(
                    variants_keys(rv.take(1 + j), priority),
                    variant_keys(rv[j + 1], priority),
                );
            }
            j += 1;
        }
        proof {
            assert(rv.take(1 + n) =~= rv);
        }
    } else {
        proof {
            assert(!(trail@.len() > 0 && ends_with(word@, trail@)));
            assert(rv =~= seq![word@]);
            assert(rv.take(1) =~= rv);
        }
    }
}

/// Inserts every key one base form contributes.
fn expand_word_into(e: &WordEntry, word: &str, keys: &mut Vec<(String, u32)>)
    requires
        keys_sorted(old(keys).deep_view()),
    ensures
        keys_sorted(final(keys).deep_view()),
        forall|k: (Seq<char>, u32)|
            #[trigger] final(keys).deep_view().contains(k) <==> old(keys).deep_view().contains(k)
                || keys_for_word(*e, word@).contains(k),
{
    let rules = rules_for(e.conj);
    let ghost srules = spec_rules(e.conj);
    let n = rules.len();
    let mut i: usize = 0;
    while i < n
        invariant
            i <= n,
            n == rules.len(),
            rules.deep_view() == srules,
            srules == spec_rules(e.conj),
            keys_sorted(keys.deep_view()),
            forall|k: (Seq<char>, u32)|
                #[trigger] keys.deep_view().contains(k) <==> old(keys).deep_view().contains(k)
                    || rules_keys(*e, word@, srules.take(i as int)).contains(k),
        decreases n - i,
    {
        let trail: &str = rules[i].0;
        let endings = &rules[i].1;
        proof {
            let ri = rules@[i as int];
            assert(rules.deep_view()[i as int] == (ri.0@, ri.1.deep_view()));
            assert((trail@, endings.deep_view()) == srules[i as int]);
        }
        end_replace_push(e, word, trail, endings, keys);
        proof {
            let taken = srules.take(i + 1);
            assert(taken.drop_last() =~= srules.take(i as int));
            assert(taken.last() == srules[i as int]);
            assert(rules_keys(*e, word@, taken) == rules_keys(*e, word@, srules.take(i as int))
                + keys_for_rule(*e, word@, srules[i as int]));
            lemma_concat_contains(
                rules_keys(*e, word@, srules.take(i as int)),
                keys_for_rule(*e, word@, srules[i as int]),
            );
        }
        i += 1;
    }
    proof {
        assert(srules.take(n as int) =~= srules);
    }
}

/// Every list of surface forms contributes at least one key.
proof fn lemma_variants_keys_nonempty(vs: Seq<Seq<char>>, pri: u32)
    requires
        vs.len() > 0,
    ensures
        variants_keys(vs, pri).len() > 0,
{
    assert(variant_keys(vs.last(), pri).len() > 0);
}

/// Every entry contributes at least one lookup key.
proof fn lemma_all_lookup_keys_nonempty(e: WordEntry)
    requires
        e.wf(),
    ensures
        all_lookup_keys(e).len() > 0,
{
    let forms = base_forms(e);
    assert(forms.len() > 0);
    let word = forms.last();
    let rules = spec_rules(e.conj);
    assert(rules.len() > 0);
    let rule = rules.last();
    assert(rule_variants(word, rule).len() > 0);
    lemma_variants_keys_nonempty(rule_variants(word, rule), key_priority(e, word));
    assert(keys_for_rule(e, word, rule).len() > 0);
    assert(rules_keys(e, word, rules).len() >= keys_for_rule(e, word, rule).len());
    assert(keys_for_word(e, word).len() > 0);
    assert(forms_keys(e, forms).len() >= keys_for_word(e, word).len());
}

/// A key of one surface form is the form under its priority, or the
/// katakana double of an all-phonetic form.
proof fn lemma_variant_keys_cases(v: Seq<char>, pri: u32, k: (Seq<char>, u32))
    ensures
        variant_keys(v, pri).contains(k) <==> (k == (v, pri) || (all_kana(v) && k == (h2k(v), pri))),
{
    let vs = variant_keys(v, pri);
    if vs.contains(k) {
        let j = choose|j: int| 0 <= j < vs.len() && vs[j] == k;
    }
    if all_kana(v) {
        assert(vs[0] == (h2k(v), pri));
        assert(vs[1] == (v, pri));
    } else {
        assert(vs[0] == (v, pri));
    }
}

/// Membership in the keys of a list of surface forms is membership in the
/// keys of one of them.
proof fn lemma_variants_keys_contains(vs: Seq<Seq<char>>, pri: u32, k: (Seq<char>, u32))
    ensures
        variants_keys(vs, pri).contains(k) <==> exists|i: int|
            0 <= i < vs.len() && variant_keys(#[trigger] vs[i], pri).contains(k),
    decreases vs.len(),
{
    if vs.len() == 0 {
    } else {
        let d = vs.drop_last();
        lemma_variants_keys_contains(d, pri, k);
        lemma_concat_contains(variants_keys(d, pri), variant_keys(vs.last(), pri));
        if variants_keys(vs, pri).contains(k) {
            if variants_keys(d, pri).contains(k) {
                let i = choose|i: int|
                    0 <= i < d.len() && variant_keys(#[trigger] d[i], pri).contains(k);
                assert(vs[i] == d[i]);
                assert(variant_keys(vs[i], pri).contains(k));
            } else {
                assert(variant_keys(vs[vs.len() - 1], pri).contains(k));
            }
        }
        if exists|i: int| 0 <= i < vs.len() && variant_keys(#[trigger] vs[i], pri).contains(k) {
            let i = choose|i: int|
                0 <= i < vs.len() && variant_keys(#[trigger] vs[i], pri).contains(k);
            if i < vs.len() - 1 {
                assert(d[i] == vs[i]);
                assert(variant_keys(d[i], pri).contains(k));
            }
        }
    }
}

/// Membership in the keys of a list of rules is membership in the keys of
/// one of them.
proof fn lemma_rules_keys_contains(
    e: WordEntry,
    word: Seq<char>,
    rules: Seq<(Seq<char>, Seq<Seq<char>>)>,
    k: (Seq<char>, u32),
)
    ensures
        rules_keys(e, word, rules).contains(k) <==> exists|i: int|
            0 <= i < rules.len() && keys_for_rule(e, word, #[trigger] rules[i]).contains(k),
    decreases rules.len(),
{
    if rules.len() == 0 {
    } else {
        let d = rules.drop_last();
        lemma_rules_keys_contains(e, word, d, k);
        lemma_concat_contains(rules_keys(e, word, d), keys_for_rule(e, word, rules.last()));
        if rules_keys(e, word, rules).contains(k) {
            if rules_keys(e, word, d).contains(k) {
                let i = choose|i: int|
                    0 <= i < d.len() && keys_for_rule(e, word, #[trigger] d[i]).contains(k);
                assert(rules[i] == d[i]);
                assert(keys_for_rule(e, word, rules[i]).contains(k));
            } else {
                assert(keys_for_rule(e, word, rules[rules.len() - 1]).contains(k));
            }
        }
        if exists|i: int|
            0 <= i < rules.len() && keys_for_rule(e, word, #[trigger] rules[i]).contains(k) {
            let i = choose|i: int|
                0 <= i < rules.len() && keys_for_rule(e, word, #[trigger] rules[i]).contains(k);
            if i < rules.len() - 1 {
                assert(d[i] == rules[i]);
                assert(keys_for_rule(e, word, d[i]).contains(k));
            }
        }
    }
}

/// Membership in the keys of a list of base forms is membership in the
/// keys of one of them.
proof fn lemma_forms_keys_contains(e: WordEntry, ws: Seq<Seq<char>>, k: (Seq<char>, u32))
    ensures
        forms_keys(e, ws).contains(k) <==> exists|i: int|
            0 <= i < ws.len() && keys_for_word(e, #[trigger] ws[i]).contains(k),
    decreases ws.len(),
{
    if ws.len() == 0 {
    } else {
        let d = ws.drop_last();
        lemma_forms_keys_contains(e, d, k);
        lemma_concat_contains(forms_keys(e, d), keys_for_word(e, ws.last()));
        if forms_keys(e, ws).contains(k) {
            if forms_keys(e, d).contains(k) {
                let i = choose|i: int|
                    0 <= i < d.len() && keys_for_word(e, #[trigger] d[i]).contains(k);
                assert(ws[i] == d[i]);
                assert(keys_for_word(e, ws[i]).contains(k));
            } else {
                assert(keys_for_word(e, ws[ws.len() - 1]).contains(k));
            }
        }
        if exists|i: int| 0 <= i < ws.len() && keys_for_word(e, #[trigger] ws[i]).contains(k) {
            let i = choose|i: int|
                0 <= i < ws.len() && keys_for_word(e, #[trigger] ws[i]).contains(k);
            if i < ws.len() - 1 {
                assert(d[i] == ws[i]);
                assert(keys_for_word(e, d[i]).contains(k));
            }
        }
    }
}

/// A base form that a rule applies to splits into its stem and the rule's
/// trailing suffix.
proof fn lemma_stem_split(word: Seq<char>, trail: Seq<char>)
    requires
        ends_with(word, trail),
    ensures
        word == stem_of(word, trail) + trail,
{
    assert(word =~= stem_of(word, trail) + word.subrange(
        word.len() - trail.len(),
        word.len() as int,
    ));
}

/// A surface form a rule derives is all-phonetic exactly when its base
/// form is: the rule table mixes scripts in no rule.
proof fn lemma_variant_kana_ties_word(
    e: WordEntry,
    word: Seq<char>,
    rule: (Seq<char>, Seq<Seq<char>>),
    vi: int,
)
    requires
        crate::conjugation::rule_all_kana(rule) || crate::conjugation::rule_no_kana(rule),
        0 <= vi < rule_variants(word, rule).len(),
    ensures
        all_kana(rule_variants(word, rule)[vi]) <==> all_kana(word),
{
    let rv = rule_variants(word, rule);
    if vi == 0 {
        assert(rv[0] == word);
    } else {
        // the rule applied: the variant is stem + ending, the word is
        // stem + trail
        let stem = stem_of(word, rule.0);
        let ending = rule.1[vi - 1];
        assert(rv[vi] == stem + ending);
        lemma_stem_split(word, rule.0);
        crate::kana::lemma_all_kana_concat(stem, rule.0);
        crate::kana::lemma_all_kana_concat(stem, ending);
        if crate::conjugation::rule_all_kana(rule) {
            assert(all_kana(rule.0));
            assert(all_kana(ending));
        } else {
            assert(!all_kana(rule.0));
            assert(!all_kana(ending));
        }
    }
}

/// For an entry usually written in phonetic script, every all-phonetic
/// lookup key carries the priority divided by eight, and every other key
/// the undivided priority.
pub proof fn lemma_usually_kana_priority(e: WordEntry, k: (Seq<char>, u32))
    requires
        e.wf(),
        e.usually_kana,
        all_lookup_keys(e).contains(k),
    ensures
        all_kana(k.0) ==> k.1 == e.priority / 8,
        !all_kana(k.0) ==> k.1 == e.priority,
{
    lemma_forms_keys_contains(e, base_forms(e), k);
    let wi = choose|i: int|
        0 <= i < base_forms(e).len() && keys_for_word(e, #[trigger] base_forms(e)[i]).contains(k);
    let word = base_forms(e)[wi];
    lemma_rules_keys_contains(e, word, spec_rules(e.conj), k);
    let ri = choose|i: int|
        0 <= i < spec_rules(e.conj).len() && keys_for_rule(
            e,
            word,
            #[trigger] spec_rules(e.conj)[i],
        ).contains(k);
    let rule = spec_rules(e.conj)[ri];
    crate::conjugation::lemma_rules_classified(e.conj);
    let pri = key_priority(e, word);
    let rv = rule_variants(word, rule);
    lemma_variants_keys_contains(rv, pri, k);
    let vi = choose|i: int| 0 <= i < rv.len() && variant_keys(#[trigger] rv[i], pri).contains(k);
    let v = rv[vi];
    lemma_variant_keys_cases(v, pri, k);
    lemma_variant_kana_ties_word(e, word, rule, vi);
    if k == (v, pri) {
    } else {
        assert(all_kana(v) && k == (h2k(v), pri));
        crate::kana::lemma_h2k_keeps_kana(v);
    }
}

/// A positive priority strictly outranks its eighth: the phonetic key of a
/// usually-phonetic entry ranks strictly higher than any other key of the
/// same entry.
pub proof fn lemma_divided_priority_ranks_higher(p: u32)
    requires
        p > 0,
    ensures
        p / 8 < p,
{
    assert(p / 8 < p) by (nonlinear_arith)
        requires
            p > 0,
    ;
}

/// With no inflection rule, an entry's lookup keys are exactly its
/// deduplicated base forms and their katakana doubles, each under the
/// entry's derived priority — no inflected variants.
pub proof fn lemma_no_inflection_base_forms_only(e: WordEntry, k: (Seq<char>, u32))
    requires
        e.wf(),
        e.conj == crate::records::ConjugationClass::Other,
    ensures
        all_lookup_keys(e).contains(k) <==> exists|i: int|
            0 <= i < base_forms(e).len() && variant_keys(
                #[trigger] base_forms(e)[i],
                key_priority(e, base_forms(e)[i]),
            ).contains(k),
{
    reveal_strlit("");
    lemma_forms_keys_contains(e, base_forms(e), k);
    assert forall|i: int| 0 <= i < base_forms(e).len() implies keys_for_word(
        e,
        #[trigger] base_forms(e)[i],
    ) == variant_keys(base_forms(e)[i], key_priority(e, base_forms(e)[i])) by {
        lemma_keys_for_word_no_inflection(e, base_forms(e)[i]);
    }
}

/// With no inflection rule, one base form contributes exactly its own
/// keys.
proof fn lemma_keys_for_word_no_inflection(e: WordEntry, word: Seq<char>)
    requires
        e.conj == crate::records::ConjugationClass::Other,
    ensures
        keys_for_word(e, word) == variant_keys(word, key_priority(e, word)),
{
    reveal_strlit("");
    let rules = spec_rules(e.conj);
    assert(rules.len() == 1);
    let d = rules.drop_last();
    assert(d =~= Seq::<(Seq<char>, Seq<Seq<char>>)>::empty());
    assert(rules_keys(e, word, d) == Seq::<(Seq<char>, u32)>::empty());
    assert(rules_keys(e, word, rules) == rules_keys(e, word, d) + keys_for_rule(
        e,
        word,
        rules[0],
    ));
    let rule = rules[0];
    assert(rule.0 == ""@);
    assert(rule.0.len() == 0);
    let rv = rule_variants(word, rule);
    assert(rv =~= seq![word]);
    let pri = key_priority(e, word);
    assert(rv.drop_last() =~= Seq::<Seq<char>>::empty());
    assert(variants_keys(rv.drop_last(), pri) == Seq::<(Seq<char>, u32)>::empty());
    assert(variants_keys(rv, pri) == variants_keys(rv.drop_last(), pri) + variant_keys(word, pri));
    assert(Seq::<(Seq<char>, u32)>::empty() + variant_keys(word, pri) =~= variant_keys(word, pri));
    assert(rules_keys(e, word, d) + keys_for_rule(e, word, rules[0]) =~= keys_for_rule(
        e,
        word,
        rules[0],
    ));
}

/// Generates the ranked lookup keys for one word entry: every base form,
/// every conjugated variant the entry's class licenses, and the katakana
/// double of every all-phonetic form, each under its derived priority —
/// deduplicated and strictly sorted by rank.
pub fn generate_lookup_keys(jm_entry: &WordEntry) -> (r: Vec<(String, u32)>)
    requires
        jm_entry.wf(),
    ensures
        keys_sorted(r.deep_view()),
        forall|k: (Seq<char>, u32)|
            #[trigger] r.deep_view().contains(k) <==> all_lookup_keys(*jm_entry).contains(k),
        r.len() > 0,
{
    let mut keys: Vec<(String, u32)> = Vec::new();
    let ghost forms = base_forms(*jm_entry);
    let nw = jm_entry.writings.len();
    let mut i: usize = 0;
    while i < nw
        invariant
            i <= nw,
            nw == jm_entry.writings.len(),
            jm_entry.wf(),
            forms == base_forms(*jm_entry),
            keys_sorted(keys.deep_view()),
            forall|k: (Seq<char>, u32)|
                #[trigger] keys.deep_view().contains(k) <==> forms_keys(
                    *jm_entry,
                    forms.take(i as int),
                ).contains(k),
        decreases nw - i,
    {
        proof {
            assert(forms[i as int] == jm_entry.writings.deep_view()[i as int]);
        }
        expand_word_into(jm_entry, jm_entry.writings[i].as_str(), &mut keys);
        proof {
            let taken = forms.take(i + 1);
            assert(taken.drop_last() =~= forms.take(i as int));
            assert(taken.last() == jm_entry.writings[i as int]@);
            assert(forms_keys(*jm_entry, taken) == forms_keys(*jm_entry, forms.take(i as int))
                + keys_for_word(*jm_entry, forms[i as int]));
            lemma_concat_contains(
                forms_keys(*jm_entry, forms.take(i as int)),
                keys_for_word(*jm_entry, forms[i as int]),
            );
        }
        i += 1;
    }
    let nr = if jm_entry.usually_kana {
        jm_entry.readings.len()
    } else {
        1
    };
    let mut j: usize = 0;
    while j < nr
        invariant
            j <= nr,
            nw == jm_entry.writings.len(),
            jm_entry.wf(),
            forms == base_forms(*jm_entry),
            forms.len() == nw + nr,
            nr == if jm_entry.usually_kana {
                jm_entry.readings.len()
            } else {
                1
            },
            keys_sorted(keys.deep_view()),
            forall|k: (Seq<char>, u32)|
                #[trigger] keys.deep_view().contains(k) <==> forms_keys(
                    *jm_entry,
                    forms.take(nw + j),
                ).contains(k),
        decreases nr - j,
    {
        proof {
            assert(forms[nw + j] == jm_entry.readings.deep_view()[j as int]);
        }
        expand_word_into(jm_entry, jm_entry.readings[j].as_str(), &mut keys);
        proof {
            let taken = forms.take(nw + j + 1);
            assert(taken.drop_last() =~= forms.take(nw + j));
            assert(taken.last() == jm_entry.readings[j as int]@);
            assert(forms_keys(*jm_entry, taken) == forms_keys(*jm_entry, forms.take(nw + j))
                + keys_for_word(*jm_entry, forms[nw + j]));
            lemma_concat_contains(
                forms_keys(*jm_entry, forms.take(nw + j)),
                keys_for_word(*jm_entry, forms[nw + j]),
            );
        }
        j += 1;
    }
    proof {
        assert(forms.take(nw + nr) =~= forms);
        lemma_all_lookup_keys_nonempty(*jm_entry);
        let k0 = all_lookup_keys(*jm_entry)[0];
        assert(all_lookup_keys(*jm_entry).contains(k0));
        assert(keys.deep_view().contains(k0));
        if keys.len() == 0 {
            assert(false);
        }
    }
    keys
}

} // verus!
