//! Entry text synthesis: pure construction of the header and body markup
//! of one merged entry, and of auxiliary name and kanji entries.

use vstd::prelude::*;

use crate::kana::{h2k, hiragana_to_katakana, k2h, katakana_to_hiragana};
use crate::records::{ConjugationClass, KanjiEntry, NativeEntry, PartOfSpeech, TermEntry, WordEntry};
use crate::text::{dec_rep, u32_to_string};

verus! {

/// Opening markup of the small italic tag span.
pub open spec fn word_type_start() -> Seq<char> {
    " <span style=\"font-size: 0.8em; font-style: italic; margin-left: 0; white-space: nowrap;\">"@
}

/// Closing markup of the tag span.
pub open spec fn word_type_end() -> Seq<char> {
    "</span>"@
}

/// The items of a list, each wrapped in list-item markup, concatenated in
/// order.
pub open spec fn list_items(defs: Seq<Seq<char>>) -> Seq<char>
    decreases defs.len(),
{
    if defs.len() == 0 {
        Seq::empty()
    } else {
        list_items(defs.drop_last()) + "<li>"@ + defs.last() + "</li>"@
    }
}

/// The items joined by the separator.
pub open spec fn joined(items: Seq<Seq<char>>, sep: Seq<char>) -> Seq<char>
    decreases items.len(),
{
    if items.len() == 0 {
        Seq::empty()
    } else if items.len() == 1 {
        items[0]
    } else {
        joined(items.drop_last(), sep) + sep + items.last()
    }
}

/// Appends every definition as one list item.
fn append_list_items(out: &mut String, defs: &Vec<String>)
    ensures
        final(out)@ == old(out)@ + list_items(defs.deep_view()),
{
    let ghost dv = defs.deep_view();
    let n = defs.len();
    let mut i: usize = 0;
    proof {
        assert(old(out)@ + list_items(dv.take(0)) =~= old(out)@);
    }
    while i < n
        invariant
            i <= n,
            n == defs.len(),
            dv == defs.deep_view(),
            out@ == old(out)@ + list_items(dv.take(i as int)),
        decreases n - i,
    {
        out.append("<li>");
        out.append(defs[i].as_str());
        out.append("</li>");
        proof {
            let t = dv.take(i + 1);
            assert(t.drop_last() =~= dv.take(i as int));
            assert(t.last() == dv[i as int]);
            assert(list_items(t) == list_items(dv.take(i as int)) + "<li>"@ + dv[i as int]
                + "</li>"@);
            assert(out@ =~= old(out)@ + list_items(t));
        }
        i += 1;
    }
    proof {
        assert(dv.take(n as int) =~= dv);
    }
}

/// Appends the items joined by the separator.
fn append_joined(out: &mut String, items: &Vec<&str>, sep: &str)
    ensures
        final(out)@ == old(out)@ + joined(items.deep_view(), sep@),
{
    let ghost dv = items.deep_view();
    let n = items.len();
    let mut i: usize = 0;
    proof {
        assert(old(out)@ + joined(dv.take(0), sep@) =~= old(out)@);
    }
    while i < n
        invariant
            i <= n,
            n == items.len(),
            dv == items.deep_view(),
            out@ == old(out)@ + joined(dv.take(i as int), sep@),
        decreases n - i,
    {
        if i > 0 {
            out.append(sep);
        }
        out.append(items[i]);
        proof {
            let t = dv.take(i + 1);
            assert(t.last() == dv[i as int]);
            if i == 0 {
                assert(t.len() == 1);
                assert(t[0] == dv[0]);
                assert(joined(t, sep@) == dv[0]);
                assert(out@ =~= old(out)@ + joined(t, sep@));
            } else {
                assert(t.drop_last() =~= dv.take(i as int));
                assert(joined(t, sep@) == joined(dv.take(i as int), sep@) + sep@ + dv[i as int]);
                assert(out@ =~= old(out)@ + joined(t, sep@));
            }
        }
        i += 1;
    }
    proof {
        assert(dv.take(n as int) =~= dv);
    }
}

/// The bracketed accent markers, concatenated without separator.
pub open spec fn accent_markers(accents: Seq<u32>) -> Seq<char>
    decreases accents.len(),
{
    if accents.len() == 0 {
        Seq::empty()
    } else {
        accent_markers(accents.drop_last()) + "["@ + dec_rep(accents.last() as int) + "]"@
    }
}

/// The inflection-family label of a verb's conjugation class.
pub open spec fn verb_class_label(c: ConjugationClass) -> Seq<char> {
    match c {
        ConjugationClass::IchidanVerb => ", ichidan"@,
        ConjugationClass::GodanVerbU => ", godan"@,
        ConjugationClass::GodanVerbTsu => ", godan"@,
        ConjugationClass::GodanVerbRu => ", godan"@,
        ConjugationClass::GodanVerbKu => ", godan"@,
        ConjugationClass::GodanVerbGu => ", godan"@,
        ConjugationClass::GodanVerbNu => ", godan"@,
        ConjugationClass::GodanVerbBu => ", godan"@,
        ConjugationClass::GodanVerbMu => ", godan"@,
        ConjugationClass::GodanVerbSu => ", godan"@,
        ConjugationClass::SuruVerb => ", irregular"@,
        ConjugationClass::SuruVerbSC => ", irregular"@,
        ConjugationClass::KuruVerb => ", irregular"@,
        ConjugationClass::IkuVerb => ", irregular"@,
        ConjugationClass::KureruVerb => ", irregular"@,
        ConjugationClass::AruVerb => ", irregular"@,
        ConjugationClass::SharuVerb => ", irregular"@,
        ConjugationClass::GodanVerbHu => ", irregular"@,
        ConjugationClass::IrregularVerb => ", irregular"@,
        _ => ""@,
    }
}

/// The transitivity label: decided by the transitive/intransitive tags,
/// empty when neither or both are present, worded by the label style.
pub open spec fn transitivity_label(e: WordEntry, use_move_terms: bool) -> Seq<char> {
    let t = e.spec_has_tag("pos:vt"@);
    let i = e.spec_has_tag("pos:vi"@);
    if t && !i {
        if use_move_terms {
            ", other-move"@
        } else {
            ", transitive"@
        }
    } else if !t && i {
        if use_move_terms {
            ", self-move"@
        } else {
            ", intransitive"@
        }
    } else {
        ""@
    }
}

/// The label of an adjective's conjugation class.
pub open spec fn adjective_label(c: ConjugationClass) -> Seq<char> {
    match c {
        ConjugationClass::IAdjective => "i-adjective"@,
        ConjugationClass::IrregularIAdjective => "i-adjective, irregular"@,
        _ => "adjective"@,
    }
}

/// The grammatical tag span of the header, by part of speech.
pub open spec fn pos_span(e: WordEntry, use_move_terms: bool) -> Seq<char> {
    match e.pos {
        PartOfSpeech::Verb => word_type_start() + "verb"@ + verb_class_label(e.conj)
            + transitivity_label(e, use_move_terms) + word_type_end(),
        PartOfSpeech::Adjective => word_type_start() + adjective_label(e.conj) + word_type_end(),
        PartOfSpeech::Expression => word_type_start() + "expression"@ + word_type_end(),
        PartOfSpeech::Other => ""@,
    }
}

/// The display headwords: the canonical reading alone for an entry that
/// is usually phonetic or has no writings, else every writing.
pub open spec fn display_heads(e: WordEntry) -> Seq<Seq<char>> {
    if e.usually_kana || e.writings.len() == 0 {
        seq![e.readings.deep_view()[0]]
    } else {
        e.writings.deep_view()
    }
}

/// The view of an optional accent list.
pub open spec fn accents_view(a: Option<&Vec<u32>>) -> Option<Seq<u32>> {
    match a {
        Some(v) => Some(v@),
        None => None,
    }
}

/// The accent portion of the header: a space and the bracketed markers
/// when any accents matched, nothing otherwise.
pub open spec fn accent_part(accents: Option<Seq<u32>>) -> Seq<char> {
    match accents {
        Some(l) => if l.len() > 0 {
            " "@ + accent_markers(l)
        } else {
            Seq::<char>::empty()
        },
        None => Seq::<char>::empty(),
    }
}

/// The header markup of one merged entry: the reading in the configured
/// script, the accent markers if any matched, the bracketed headword list,
/// and the grammatical tag span.
pub open spec fn spec_header_text(
    use_katakana: bool,
    use_move_terms: bool,
    kana: Seq<char>,
    accents: Option<Seq<u32>>,
    e: WordEntry,
) -> Seq<char> {
    (if use_katakana {
        h2k(kana)
    } else {
        k2h(kana)
    }) + accent_part(accents) + " &nbsp;&nbsp;&mdash; \u{3010}"@ + joined(
        display_heads(e),
        "\u{ff0f}"@,
    ) + "\u{3011}"@ + pos_span(e, use_move_terms)
}

/// Appends the accent portion of the header.
fn append_accent_part(out: &mut String, pitch_accent: Option<&Vec<u32>>)
    ensures
        final(out)@ == old(out)@ + accent_part(accents_view(pitch_accent)),
{
    if let Some(accent_list) = pitch_accent {
        let n = accent_list.len();
        if n > 0 {
            out.append(" ");
            let ghost base = out@;
            let mut i: usize = 0;
            proof {
                assert(base + accent_markers(accent_list@.take(0)) =~= base);
            }
            while i < n
                invariant
                    i <= n,
                    n == accent_list.len(),
                    out@ == base + accent_markers(accent_list@.take(i as int)),
                decreases n - i,
            {
                out.append("[");
                let num = u32_to_string(accent_list[i]);
                out.append(num.as_str());
                out.append("]");
                proof {
                    let t = accent_list@.take(i + 1);
                    assert(t.drop_last() =~= accent_list@.take(i as int));
                    assert(t.last() == accent_list@[i as int]);
                    assert(accent_markers(t) == accent_markers(accent_list@.take(i as int)) + "["@
                        + dec_rep(accent_list@[i as int] as int) + "]"@);
                    assert(out@ =~= base + accent_markers(t));
                }
                i += 1;
            }
            proof {
                assert(accent_list@.take(n as int) =~= accent_list@);
                assert(out@ =~= old(out)@ + accent_part(accents_view(pitch_accent)));
            }
            return;
        }
    }
    proof {
        assert(out@ =~= old(out)@ + accent_part(accents_view(pitch_accent)));
    }
}

/// Appends the joined display headwords.
fn append_heads(out: &mut String, jm_entry: &WordEntry)
    requires
        jm_entry.wf(),
    ensures
        final(out)@ == old(out)@ + joined(display_heads(*jm_entry), "\u{ff0f}"@),
{
    let mut heads: Vec<&str> = Vec::new();
    if jm_entry.usually_kana || jm_entry.writings.len() == 0 {
        heads.push(jm_entry.readings[0].as_str());
    } else {
        let nw = jm_entry.writings.len();
        let mut i: usize = 0;
        while i < nw
            invariant
                i <= nw,
                nw == jm_entry.writings.len(),
                heads.deep_view() =~= jm_entry.writings.deep_view().take(i as int),
            decreases nw - i,
        {
            let ghost pre = heads.deep_view();
            heads.push(jm_entry.writings[i].as_str());
            proof {
                assert(heads.deep_view() =~= pre.push(jm_entry.writings.deep_view()[i as int]));
                assert(heads.deep_view() =~= jm_entry.writings.deep_view().take(i + 1));
            }
            i += 1;
        }
        proof {
            assert(jm_entry.writings.deep_view().take(nw as int)
                =~= jm_entry.writings.deep_view());
        }
    }
    proof {
        assert(heads.deep_view() =~= display_heads(*jm_entry));
    }
    append_joined(out, &heads, "\u{ff0f}");
}

/// Appends the grammatical tag span.
fn append_pos_span(out: &mut String, jm_entry: &WordEntry, use_move_terms: bool)
    ensures
        final(out)@ == old(out)@ + pos_span(*jm_entry, use_move_terms),
{
    proof {
        reveal_strlit("");
    }
    match jm_entry.pos {
        PartOfSpeech::Verb => {
            out.append(
                " <span style=\"font-size: 0.8em; font-style: italic; margin-left: 0; white-space: nowrap;\">",
            );
            out.append("verb");
            let class_label: &str = match jm_entry.conj {
                ConjugationClass::IchidanVerb => ", ichidan",
                ConjugationClass::GodanVerbU => ", godan",
                ConjugationClass::GodanVerbTsu => ", godan",
                ConjugationClass::GodanVerbRu => ", godan",
                ConjugationClass::GodanVerbKu => ", godan",
                ConjugationClass::GodanVerbGu => ", godan",
                ConjugationClass::GodanVerbNu => ", godan",
                ConjugationClass::GodanVerbBu => ", godan",
                ConjugationClass::GodanVerbMu => ", godan",
                ConjugationClass::GodanVerbSu => ", godan",
                ConjugationClass::SuruVerb => ", irregular",
                ConjugationClass::SuruVerbSC => ", irregular",
                ConjugationClass::KuruVerb => ", irregular",
                ConjugationClass::IkuVerb => ", irregular",
                ConjugationClass::KureruVerb => ", irregular",
                ConjugationClass::AruVerb => ", irregular",
                ConjugationClass::SharuVerb => ", irregular",
                ConjugationClass::GodanVerbHu => ", irregular",
                ConjugationClass::IrregularVerb => ", irregular",
                _ => "",
            };
            proof {
                assert(class_label@ == verb_class_label(jm_entry.conj));
            }
            out.append(class_label);
            let transitive = jm_entry.has_tag("pos:vt");
            let intransitive = jm_entry.has_tag("pos:vi");
            if transitive && !intransitive {
                if use_move_terms {
                    out.append(", other-move");
                } else {
                    out.append(", transitive");
                }
            } else if !transitive && intransitive {
                if use_move_terms {
                    out.append(", self-move");
                } else {
                    out.append(", intransitive");
                }
            }
            out.append("</span>");
            proof {
                assert(out@ =~= old(out)@ + pos_span(*jm_entry, use_move_terms));
            }
        },
        PartOfSpeech::Adjective => {
            out.append(
                " <span style=\"font-size: 0.8em; font-style: italic; margin-left: 0; white-space: nowrap;\">",
            );
            match jm_entry.conj {
                ConjugationClass::IAdjective => out.append("i-adjective"),
                ConjugationClass::IrregularIAdjective => out.append("i-adjective, irregular"),
                _ => out.append("adjective"),
            }
            out.append("</span>");
            proof {
                assert(out@ =~= old(out)@ + pos_span(*jm_entry, use_move_terms));
            }
        },
        PartOfSpeech::Expression => {
            out.append(
                " <span style=\"font-size: 0.8em; font-style: italic; margin-left: 0; white-space: nowrap;\">",
            );
            out.append("expression");
            out.append("</span>");
            proof {
                assert(out@ =~= old(out)@ + pos_span(*jm_entry, use_move_terms));
            }
        },
        PartOfSpeech::Other => {
            proof {
                assert(out@ =~= old(out)@ + pos_span(*jm_entry, use_move_terms));
            }
        },
    }
}

/// Renders the header markup of one merged entry.
pub fn generate_header_text(
    use_katakana: bool,
    use_move_terms: bool,
    kana: &str,
    pitch_accent: Option<&Vec<u32>>,
    jm_entry: &WordEntry,
) -> (r: String)
    requires
        jm_entry.wf(),
    ensures
        r@ == spec_header_text(
            use_katakana,
            use_move_terms,
            kana@,
            accents_view(pitch_accent),
            *jm_entry,
        ),
{
    let mut out = if use_katakana {
        hiragana_to_katakana(kana)
    } else {
        katakana_to_hiragana(kana)
    };
    append_accent_part(&mut out, pitch_accent);
    out.append(" &nbsp;&nbsp;&mdash; \u{3010}");
    append_heads(&mut out, jm_entry);
    out.append("\u{3011}");
    append_pos_span(&mut out, jm_entry, use_move_terms);
    out
}

/// The markup of one auxiliary name entry: the reading in the configured
/// script when present, the bracketed writing, a name tag span listing the
/// entry's tags, and an unordered gloss list if any.
pub open spec fn spec_name_entry_text(use_katakana: bool, t: TermEntry) -> Seq<char> {
    (if crate::text::trimmed(t.reading@).len() > 0 {
        (if use_katakana {
            h2k(t.reading@)
        } else {
            k2h(t.reading@)
        }) + " &nbsp;&nbsp;&mdash; "@
    } else {
        Seq::<char>::empty()
    }) + "\u{3010}"@ + t.writing@ + "\u{3011}"@ + word_type_start() + "name"@ + (if t.tags.len()
        > 0 {
        ": "@ + joined(t.tags.deep_view(), ", "@)
    } else {
        Seq::<char>::empty()
    }) + word_type_end() + (if t.definitions.len() > 0 {
        "<p><ul>"@ + list_items(t.definitions.deep_view()) + "</ul></p>"@
    } else {
        Seq::<char>::empty()
    })
}

/// Appends the items of a string list joined by the separator.
fn append_joined_strings(out: &mut String, items: &Vec<String>, sep: &str)
    ensures
        final(out)@ == old(out)@ + joined(items.deep_view(), sep@),
{
    let ghost dv = items.deep_view();
    let n = items.len();
    let mut i: usize = 0;
    proof {
        assert(old(out)@ + joined(dv.take(0), sep@) =~= old(out)@);
    }
    while i < n
        invariant
            i <= n,
            n == items.len(),
            dv == items.deep_view(),
            out@ == old(out)@ + joined(dv.take(i as int), sep@),
        decreases n - i,
    {
        if i > 0 {
            out.append(sep);
        }
        out.append(items[i].as_str());
        proof {
            let t = dv.take(i + 1);
            assert(t.last() == dv[i as int]);
            if i == 0 {
                assert(t.len() == 1);
                assert(t[0] == dv[0]);
                assert(joined(t, sep@) == dv[0]);
                assert(out@ =~= old(out)@ + joined(t, sep@));
            } else {
                assert(t.drop_last() =~= dv.take(i as int));
                assert(joined(t, sep@) == joined(dv.take(i as int), sep@) + sep@ + dv[i as int]);
                assert(out@ =~= old(out)@ + joined(t, sep@));
            }
        }
        i += 1;
    }
    proof {
        assert(dv.take(n as int) =~= dv);
    }
}

/// Renders the markup of one auxiliary name entry.
pub fn generate_name_entry_text(use_katakana: bool, entry: &TermEntry) -> (r: String)
    ensures
        r@ == spec_name_entry_text(use_katakana, *entry),
{
    let mut text = String::new();
    let trimmed_reading = crate::text::str_trim(entry.reading.as_str());
    if !trimmed_reading.is_empty() {
        let converted = if use_katakana {
            hiragana_to_katakana(entry.reading.as_str())
        } else {
            katakana_to_hiragana(entry.reading.as_str())
        };
        text.append(converted.as_str());
        text.append(" &nbsp;&nbsp;&mdash; ");
    }
    text.append("\u{3010}");
    text.append(entry.writing.as_str());
    text.append("\u{3011}");
    text.append(
        " <span style=\"font-size: 0.8em; font-style: italic; margin-left: 0; white-space: nowrap;\">",
    );
    text.append("name");
    if entry.tags.len() > 0 {
        text.append(": ");
        append_joined_strings(&mut text, &entry.tags, ", ");
    }
    text.append("</span>");
    if entry.definitions.len() > 0 {
        text.append("<p><ul>");
        append_list_items(&mut text, &entry.definitions);
        text.append("</ul></p>");
    }
    proof {
        assert(text@ =~= spec_name_entry_text(use_katakana, *entry));
    }
    text
}

/// The markup of one auxiliary kanji entry: the character at enlarged
/// scale with its comma-joined meanings, then one line each for the
/// on-readings and kun-readings, slash-joined, when non-empty.
pub open spec fn spec_kanji_entry_text(k: KanjiEntry) -> Seq<char> {
    "<p style=\"margin-left: 2.5em; margin-bottom: 0.7em; text-indent: -2.5em;\"><span style=\"font-size: 1.5em;\">"@
        + k.kanji@ + (if k.meanings.len() > 0 {
        "</span>\u{3000}"@ + joined(k.meanings.deep_view(), ", "@)
    } else {
        Seq::<char>::empty()
    }) + "</p>"@ + (if k.onyomi.len() > 0 {
        "<p style=\"margin-left: 2.5em; text-indent: -2.5em;\">\u{97f3}:\u{3000}"@ + joined(
            k.onyomi.deep_view(),
            "\u{ff0f}"@,
        ) + "</p>"@
    } else {
        Seq::<char>::empty()
    }) + (if k.kunyomi.len() > 0 {
        "<p style=\"margin-left: 2.5em; text-indent: -2.5em;\">\u{8a13}:\u{3000}"@ + joined(
            k.kunyomi.deep_view(),
            "\u{ff0f}"@,
        ) + "</p>"@
    } else {
        Seq::<char>::empty()
    })
}

/// Renders the markup of one auxiliary kanji entry.
pub fn generate_kanji_entry_text(entry: &KanjiEntry) -> (r: String)
    ensures
        r@ == spec_kanji_entry_text(*entry),
{
    let mut text = String::new();
    text.append(
        "<p style=\"margin-left: 2.5em; margin-bottom: 0.7em; text-indent: -2.5em;\"><span style=\"font-size: 1.5em;\">",
    );
    text.append(entry.kanji.as_str());
    if entry.meanings.len() > 0 {
        text.append("</span>\u{3000}");
        append_joined_strings(&mut text, &entry.meanings, ", ");
    }
    text.append("</p>");
    if entry.onyomi.len() > 0 {
        text.append("<p style=\"margin-left: 2.5em; text-indent: -2.5em;\">\u{97f3}:\u{3000}");
        append_joined_strings(&mut text, &entry.onyomi, "\u{ff0f}");
        text.append("</p>");
    }
    if entry.kunyomi.len() > 0 {
        text.append("<p style=\"margin-left: 2.5em; text-indent: -2.5em;\">\u{8a13}:\u{3000}");
        append_joined_strings(&mut text, &entry.kunyomi, "\u{ff0f}");
        text.append("</p>");
    }
    proof {
        assert(text@ =~= spec_kanji_entry_text(*entry));
    }
    text
}

/// The labeled definition block of one auxiliary term entry.
pub open spec fn term_block(t: TermEntry) -> Seq<char> {
    "<p>"@ + t.dict_name@ + ":<br/><ol>"@ + list_items(t.definitions.deep_view()) + "</ol></p>"@
}

/// The blocks of a list of term entries, in order.
pub open spec fn term_blocks(ts: Seq<TermEntry>) -> Seq<char>
    decreases ts.len(),
{
    if ts.len() == 0 {
        Seq::empty()
    } else {
        term_blocks(ts.drop_last()) + term_block(ts.last())
    }
}

/// The primary numbered gloss block of one word entry.
pub open spec fn primary_block(e: WordEntry) -> Seq<char> {
    "<p style=\"margin-top: 0.7em; margin-bottom: 0.7em;\"><ol>"@ + list_items(
        e.definitions.deep_view(),
    ) + "</ol></p>"@
}

/// The body markup of one merged entry: the primary glosses, one labeled
/// block per matched auxiliary term entry, and the first matched
/// native-language definition verbatim (further matches are discarded).
pub open spec fn spec_definition_text(
    e: WordEntry,
    yomi: Seq<TermEntry>,
    native: Seq<NativeEntry>,
) -> Seq<char> {
    primary_block(e) + term_blocks(yomi) + (if native.len() > 0 {
        native[0].definition@
    } else {
        Seq::<char>::empty()
    })
}

/// With no matched auxiliary records the body is the primary gloss list
/// alone: no auxiliary block or native-definition markup appears.
pub proof fn lemma_definition_text_without_aux(e: WordEntry)
    ensures
        spec_definition_text(e, Seq::empty(), Seq::empty()) == primary_block(e),
{
    assert(term_blocks(Seq::empty()) == Seq::<char>::empty());
    assert(primary_block(e) + Seq::<char>::empty() + Seq::<char>::empty() =~= primary_block(e));
}

/// Appends the labeled block of one auxiliary term entry.
fn append_term_block(out: &mut String, t: &TermEntry)
    ensures
        final(out)@ == old(out)@ + term_block(*t),
{
    out.append("<p>");
    out.append(t.dict_name.as_str());
    out.append(":<br/><ol>");
    append_list_items(out, &t.definitions);
    out.append("</ol></p>");
    proof {
        assert(out@ =~= old(out)@ + term_block(*t));
    }
}

/// Renders the body markup of one merged entry.
pub fn generate_definition_text(
    jm_entry: &WordEntry,
    yomi_entries: &Vec<TermEntry>,
    kobo_entries: &Vec<NativeEntry>,
) -> (r: String)
    ensures
        r@ == spec_definition_text(*jm_entry, yomi_entries@, kobo_entries@),
{
    let mut out = String::new();
    out.append("<p style=\"margin-top: 0.7em; margin-bottom: 0.7em;\"><ol>");
    append_list_items(&mut out, &jm_entry.definitions);
    out.append("</ol></p>");
    proof {
        assert(out@ =~= primary_block(*jm_entry));
    }
    let ghost base = out@;
    let n = yomi_entries.len();
    let mut i: usize = 0;
    proof {
        assert(base + term_blocks(yomi_entries@.take(0)) =~= base);
    }
    while i < n
        invariant
            i <= n,
            n == yomi_entries.len(),
            out@ == base + term_blocks(yomi_entries@.take(i as int)),
        decreases n - i,
    {
        append_term_block(&mut out, &yomi_entries[i]);
        proof {
            let t = yomi_entries@.take(i + 1);
            assert(t.drop_last() =~= yomi_entries@.take(i as int));
            assert(t.last() == yomi_entries@[i as int]);
            assert(term_blocks(t) == term_blocks(yomi_entries@.take(i as int)) + term_block(
                yomi_entries@[i as int],
            ));
            assert(out@ =~= base + term_blocks(t));
        }
        i += 1;
    }
    proof {
        assert(yomi_entries@.take(n as int) =~= yomi_entries@);
    }
    if kobo_entries.len() > 0 {
        out.append(kobo_entries[0].definition.as_str());
    }
    proof {
        assert(out@ =~= spec_definition_text(*jm_entry, yomi_entries@, kobo_entries@));
    }
    out
}

} // verus!
