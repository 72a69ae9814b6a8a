use kanadict::assemble::{
    generate_entries, sort_entries, synthesize_kanji_entry, synthesize_name_entry,
    synthesize_word_entry,
};
use kanadict::expand::generate_lookup_keys;
use kanadict::index::{
    build_kanji_index, build_native_index, build_pitch_index, build_term_index, build_word_index,
    derive_pitch_key, derive_term_key, derive_word_key, PairIndex,
};
use kanadict::kana::{
    hiragana_to_katakana, is_all_hiragana, is_all_kana, is_hiragana, is_kana, katakana_to_hiragana,
    strip_non_kana,
};
use kanadict::records::{
    ConjugationClass, KanjiEntry, NativeEntry, OutputEntry, PartOfSpeech, PitchAccentEntry,
    TermEntry, WordEntry,
};
use kanadict::render::{
    generate_definition_text, generate_header_text, generate_kanji_entry_text,
    generate_name_entry_text,
};
use kanadict::text::{bytes_to_str, bytes_to_string, str_ends_with, str_eq, str_lt, str_trim,
    u32_to_string};

const WTS: &str =
    " <span style=\"font-size: 0.8em; font-style: italic; margin-left: 0; white-space: nowrap;\">";

fn taberu_entry() -> WordEntry {
    WordEntry {
        writings: vec!["食べる".to_string()],
        readings: vec!["たべる".to_string()],
        definitions: vec!["to eat".to_string()],
        pos: PartOfSpeech::Verb,
        conj: ConjugationClass::IchidanVerb,
        usually_kana: false,
        tags: vec!["pos:vt".to_string()],
        priority: 1000,
    }
}

fn has_key(keys: &[(String, u32)], s: &str, p: u32) -> bool {
    keys.iter().any(|(k, q)| k == s && *q == p)
}

#[test]
fn char_classification() {
    assert!(is_kana('た'));
    assert!(is_kana('タ'));
    assert!(is_kana('ー'));
    assert!(!is_kana('食'));
    assert!(!is_kana('a'));
    assert!(is_hiragana('た'));
    assert!(!is_hiragana('タ'));
    assert!(is_hiragana('ー'));
}

#[test]
fn conversions() {
    assert_eq!(hiragana_to_katakana("たべる"), "タベル");
    assert_eq!(katakana_to_hiragana("タベル"), "たべる");
    assert_eq!(hiragana_to_katakana("食べる"), "食ベル");
    assert_eq!(katakana_to_hiragana("abcタ"), "abcた");
    assert_eq!(hiragana_to_katakana("ゝ"), "ヽ");
    assert_eq!(katakana_to_hiragana("ヽ"), "ゝ");
}

#[test]
fn conversion_round_trip() {
    // katakana survives the round trip unchanged
    let original = "タベル・ショク";
    assert_eq!(hiragana_to_katakana(&katakana_to_hiragana(original)), original);
    // idempotence on text already in the target script
    let once = hiragana_to_katakana("たべ食る");
    assert_eq!(hiragana_to_katakana(&once), once);
    let back = katakana_to_hiragana("タベル");
    assert_eq!(katakana_to_hiragana(&back), back);
}

#[test]
fn strip_and_classify_strings() {
    assert_eq!(strip_non_kana("食べる"), "べる");
    assert_eq!(strip_non_kana("abc"), "");
    assert!(is_all_kana("たべタベー"));
    assert!(!is_all_kana("食べる"));
    assert!(is_all_kana(""));
    assert!(is_all_hiragana("たべる"));
    assert!(!is_all_hiragana("タベル"));
}

#[test]
fn string_utilities() {
    assert!(str_eq("たべる", "たべる"));
    assert!(!str_eq("たべる", "たべろ"));
    assert!(str_lt("あ", "い"));
    assert!(!str_lt("い", "あ"));
    assert!(str_lt("あ", "ああ"));
    assert!(str_ends_with("食べる", "る"));
    assert!(!str_ends_with("食べる", "た"));
    assert!(str_ends_with("る", "る"));
    assert!(!str_ends_with("", "る"));
    assert_eq!(str_trim("  たべる\u{3000}"), "たべる");
    assert_eq!(str_trim("   "), "");
    assert_eq!(str_trim("abc"), "abc");
}

#[test]
fn decimal_rendering() {
    assert_eq!(u32_to_string(0), "0");
    assert_eq!(u32_to_string(7), "7");
    assert_eq!(u32_to_string(1234), "1234");
    assert_eq!(u32_to_string(u32::MAX), "4294967295");
}

#[test]
fn utf8_decoding() {
    assert_eq!(bytes_to_string("たべる".as_bytes()), "たべる");
    assert_eq!(bytes_to_str(b"abc"), "abc");
    assert_eq!(bytes_to_string(b""), "");
}

#[test]
fn tag_membership() {
    let e = taberu_entry();
    assert!(e.has_tag("pos:vt"));
    assert!(!e.has_tag("pos:vi"));
}

#[test]
fn ichidan_expansion() {
    let keys = generate_lookup_keys(&taberu_entry());
    for form in ["食べる", "食べ", "食べられ", "食べさせ", "食べろ", "食べて", "食べた"] {
        assert!(has_key(&keys, form, 1000), "missing {}", form);
    }
    for form in ["たべる", "たべ", "たべられ", "たべて", "たべた"] {
        assert!(has_key(&keys, form, 1000), "missing {}", form);
    }
    // all-phonetic forms are doubled in katakana
    assert!(has_key(&keys, "タベル", 1000));
    assert!(has_key(&keys, "タベテ", 1000));
    // no polite forms for an ichidan verb
    assert!(!has_key(&keys, "食べました", 1000));
}

#[test]
fn expansion_is_sorted_and_deduplicated() {
    let keys = generate_lookup_keys(&taberu_entry());
    for w in keys.windows(2) {
        let a = &w[0];
        let b = &w[1];
        let ord = a.1 < b.1
            || (a.1 == b.1 && (a.0.len() < b.0.len() || (a.0.len() == b.0.len() && a.0 < b.0)));
        assert!(ord, "out of order: {:?} {:?}", a, b);
    }
}

#[test]
fn no_inflection_keeps_base_forms_only() {
    let e = WordEntry {
        writings: vec!["山".to_string()],
        readings: vec!["やま".to_string()],
        definitions: vec!["mountain".to_string()],
        pos: PartOfSpeech::Other,
        conj: ConjugationClass::Other,
        usually_kana: false,
        tags: vec![],
        priority: 5,
    };
    let keys = generate_lookup_keys(&e);
    assert!(has_key(&keys, "山", 5));
    assert!(has_key(&keys, "やま", 5));
    assert!(has_key(&keys, "ヤマ", 5));
    assert_eq!(keys.len(), 3);
}

#[test]
fn usually_kana_priorities() {
    let e = WordEntry {
        writings: vec!["矢張り".to_string()],
        readings: vec!["やはり".to_string()],
        definitions: vec!["as expected".to_string()],
        pos: PartOfSpeech::Other,
        conj: ConjugationClass::Other,
        usually_kana: true,
        tags: vec![],
        priority: 80,
    };
    let keys = generate_lookup_keys(&e);
    assert!(has_key(&keys, "やはり", 10));
    assert!(has_key(&keys, "ヤハリ", 10));
    assert!(has_key(&keys, "矢張り", 80));
    // the divided priority ranks the phonetic keys first
    assert_eq!(keys[0].1, 10);
    assert_eq!(keys.last().unwrap().0, "矢張り");
}

#[test]
fn suru_expansion() {
    let e = WordEntry {
        writings: vec!["勉強する".to_string()],
        readings: vec!["べんきょうする".to_string()],
        definitions: vec!["to study".to_string()],
        pos: PartOfSpeech::Verb,
        conj: ConjugationClass::SuruVerb,
        usually_kana: false,
        tags: vec![],
        priority: 100,
    };
    let keys = generate_lookup_keys(&e);
    for form in ["勉強する", "勉強しな", "勉強しろ", "勉強します", "勉強しません"] {
        assert!(has_key(&keys, form, 100), "missing {}", form);
    }
}

#[test]
fn kuru_dual_spelling_expansion() {
    let e = WordEntry {
        writings: vec!["来る".to_string()],
        readings: vec!["くる".to_string()],
        definitions: vec!["to come".to_string()],
        pos: PartOfSpeech::Verb,
        conj: ConjugationClass::KuruVerb,
        usually_kana: false,
        tags: vec![],
        priority: 40,
    };
    let keys = generate_lookup_keys(&e);
    for form in ["来る", "来ない", "来て", "来ました"] {
        assert!(has_key(&keys, form, 40), "missing {}", form);
    }
    for form in ["くる", "こない", "きて", "きました"] {
        assert!(has_key(&keys, form, 40), "missing {}", form);
    }
}

#[test]
fn word_key_fallback_to_reading() {
    let e = WordEntry {
        writings: vec![],
        readings: vec!["たべる".to_string()],
        definitions: vec!["to eat".to_string()],
        pos: PartOfSpeech::Verb,
        conj: ConjugationClass::IchidanVerb,
        usually_kana: true,
        tags: vec![],
        priority: 1,
    };
    let (w, r) = derive_word_key(&e);
    assert_eq!(w, "たべる");
    assert_eq!(r, "タベル");
    let idx = build_word_index(vec![e]);
    let found = idx.get("たべる", "タベル");
    assert!(found.is_some());
    assert_eq!(found.unwrap().len(), 1);
}

#[test]
fn word_index_groups_and_misses() {
    let e1 = taberu_entry();
    let mut e2 = taberu_entry();
    e2.definitions = vec!["to live on".to_string()];
    let idx = build_word_index(vec![e1, e2]);
    let found = idx.get("食べる", "タベル");
    assert!(found.is_some());
    assert_eq!(found.unwrap().len(), 2);
    assert!(idx.get("飲む", "ノム").is_none());
}

#[test]
fn pitch_index_last_line_wins() {
    let p1 = PitchAccentEntry {
        writing: "食べる".to_string(),
        reading: "たべる".to_string(),
        accents: vec![2],
    };
    let p2 = PitchAccentEntry {
        writing: "食べる".to_string(),
        reading: "たべる".to_string(),
        accents: vec![0, 3],
    };
    let (w, r) = derive_pitch_key(&p1);
    assert_eq!((w.as_str(), r.as_str()), ("食べる", "タベル"));
    let idx = build_pitch_index(vec![p1, p2]);
    assert_eq!(idx.get("食べる", "タベル").unwrap(), &vec![0u32, 3]);
}

#[test]
fn pitch_key_kana_only_line() {
    let p = PitchAccentEntry {
        writing: "たべる".to_string(),
        reading: "".to_string(),
        accents: vec![2],
    };
    let (w, r) = derive_pitch_key(&p);
    assert_eq!((w.as_str(), r.as_str()), ("たべる", "タベル"));
}

#[test]
fn term_key_blank_writing_falls_back() {
    let t = TermEntry {
        writing: " ".to_string(),
        reading: " たべる ".to_string(),
        definitions: vec![],
        dict_name: "aux".to_string(),
        tags: vec![],
    };
    let (w, r) = derive_term_key(&t);
    assert_eq!(w, "たべる");
    assert_eq!(r, "タベル");
    let idx = build_term_index(vec![t]);
    assert_eq!(idx.get("たべる", "タベル").unwrap().len(), 1);
}

#[test]
fn header_text_verb() {
    let e = taberu_entry();
    let accents = vec![2u32];
    let header = generate_header_text(false, false, "タベル", Some(&accents), &e);
    let expected = format!(
        "たべる [2] &nbsp;&nbsp;&mdash; 【食べる】{}verb, ichidan, transitive</span>",
        WTS
    );
    assert_eq!(header, expected);
}

#[test]
fn header_text_variants() {
    let mut e = taberu_entry();
    e.tags = vec!["pos:vt".to_string(), "pos:vi".to_string()];
    let header = generate_header_text(true, true, "タベル", None, &e);
    // both transitivity tags cancel out; katakana display
    let expected = format!("タベル &nbsp;&nbsp;&mdash; 【食べる】{}verb, ichidan</span>", WTS);
    assert_eq!(header, expected);

    let mut adj = taberu_entry();
    adj.pos = PartOfSpeech::Adjective;
    adj.conj = ConjugationClass::IAdjective;
    adj.writings = vec!["旨い".to_string()];
    adj.readings = vec!["うまい".to_string()];
    let header = generate_header_text(false, false, "ウマイ", None, &adj);
    let expected = format!("うまい &nbsp;&nbsp;&mdash; 【旨い】{}i-adjective</span>", WTS);
    assert_eq!(header, expected);
}

#[test]
fn header_text_usually_kana_shows_reading_alone() {
    let mut e = taberu_entry();
    e.usually_kana = true;
    e.pos = PartOfSpeech::Other;
    e.conj = ConjugationClass::Other;
    let header = generate_header_text(false, false, "タベル", None, &e);
    assert_eq!(header, "たべる &nbsp;&nbsp;&mdash; 【たべる】");
}

#[test]
fn definition_text_without_aux_is_primary_only() {
    let e = taberu_entry();
    let body = generate_definition_text(&e, &Vec::new(), &Vec::new());
    assert_eq!(
        body,
        "<p style=\"margin-top: 0.7em; margin-bottom: 0.7em;\"><ol><li>to eat</li></ol></p>"
    );
    assert!(!body.contains("<br/>"));
}

#[test]
fn definition_text_with_aux() {
    let e = taberu_entry();
    let term = TermEntry {
        writing: "食べる".to_string(),
        reading: "たべる".to_string(),
        definitions: vec!["to consume".to_string(), "to live on".to_string()],
        dict_name: "aux-dict".to_string(),
        tags: vec![],
    };
    let native1 = NativeEntry {
        key: "食べる".to_string(),
        kana: "タベル".to_string(),
        definition: "<p>first native block</p>".to_string(),
    };
    let native2 = NativeEntry {
        key: "食べる".to_string(),
        kana: "タベル".to_string(),
        definition: "<p>second native block</p>".to_string(),
    };
    let body = generate_definition_text(&e, &vec![term], &vec![native1, native2]);
    let expected = "<p style=\"margin-top: 0.7em; margin-bottom: 0.7em;\"><ol><li>to eat</li></ol></p>\
<p>aux-dict:<br/><ol><li>to consume</li><li>to live on</li></ol></p>\
<p>first native block</p>";
    assert_eq!(body, expected);
    // only the first native match is appended
    assert!(!body.contains("second native block"));
}

#[test]
fn name_entry_text() {
    let t = TermEntry {
        writing: "山田".to_string(),
        reading: "やまだ".to_string(),
        definitions: vec!["Yamada".to_string()],
        dict_name: "names".to_string(),
        tags: vec!["surname".to_string(), "given".to_string()],
    };
    let text = generate_name_entry_text(false, &t);
    let expected = format!(
        "やまだ &nbsp;&nbsp;&mdash; 【山田】{}name: surname, given</span><p><ul><li>Yamada</li></ul></p>",
        WTS
    );
    assert_eq!(text, expected);
}

#[test]
fn name_entry_text_blank_reading() {
    let t = TermEntry {
        writing: "山田".to_string(),
        reading: "  ".to_string(),
        definitions: vec![],
        dict_name: "names".to_string(),
        tags: vec![],
    };
    let text = generate_name_entry_text(true, &t);
    let expected = format!("【山田】{}name</span>", WTS);
    assert_eq!(text, expected);
}

#[test]
fn kanji_entry_text() {
    let k = KanjiEntry {
        kanji: "食".to_string(),
        meanings: vec!["eat".to_string(), "food".to_string()],
        onyomi: vec!["ショク".to_string(), "ジキ".to_string()],
        kunyomi: vec!["た.べる".to_string()],
    };
    let text = generate_kanji_entry_text(&k);
    let expected = "<p style=\"margin-left: 2.5em; margin-bottom: 0.7em; text-indent: -2.5em;\">\
<span style=\"font-size: 1.5em;\">食</span>\u{3000}eat, food</p>\
<p style=\"margin-left: 2.5em; text-indent: -2.5em;\">音:\u{3000}ショク／ジキ</p>\
<p style=\"margin-left: 2.5em; text-indent: -2.5em;\">訓:\u{3000}た.べる</p>";
    assert_eq!(text, expected);
}

#[test]
fn name_output_sorts_after_and_kanji_first() {
    let name = TermEntry {
        writing: "山田".to_string(),
        reading: "やまだ".to_string(),
        definitions: vec![],
        dict_name: "names".to_string(),
        tags: vec![],
    };
    let o = synthesize_name_entry(false, "山田", &name);
    assert_eq!(o.keys, vec![("山田".to_string(), u32::MAX)]);
    let k = KanjiEntry {
        kanji: "食".to_string(),
        meanings: vec![],
        onyomi: vec![],
        kunyomi: vec![],
    };
    let ok = synthesize_kanji_entry("食", &k);
    assert_eq!(ok.keys, vec![("食".to_string(), 0)]);
}

#[test]
fn stable_sort_by_first_key_length() {
    let mk = |key: &str, pri: u32, def: &str| OutputEntry {
        keys: vec![(key.to_string(), pri)],
        definition: def.to_string(),
    };
    let mut v = vec![mk("ああ", 1, "A"), mk("い", 1, "B"), mk("うう", 1, "C"), mk("え", 1, "D")];
    sort_entries(&mut v);
    let defs: Vec<&str> = v.iter().map(|e| e.definition.as_str()).collect();
    assert_eq!(defs, vec!["B", "D", "A", "C"]);
}

#[test]
fn full_pipeline() {
    let word_index = build_word_index(vec![taberu_entry()]);
    let pitch_index = build_pitch_index(vec![PitchAccentEntry {
        writing: "食べる".to_string(),
        reading: "たべる".to_string(),
        accents: vec![2],
    }]);
    let term_index = build_term_index(vec![]);
    let name_index = build_term_index(vec![TermEntry {
        writing: "山田".to_string(),
        reading: "やまだ".to_string(),
        definitions: vec!["Yamada".to_string()],
        dict_name: "names".to_string(),
        tags: vec![],
    }]);
    let kanji_index = build_kanji_index(vec![KanjiEntry {
        kanji: "食".to_string(),
        meanings: vec!["eat".to_string()],
        onyomi: vec![],
        kunyomi: vec![],
    }]);
    let native_index = build_native_index(vec![]);
    let entries = generate_entries(
        false,
        false,
        &word_index,
        &pitch_index,
        &term_index,
        &name_index,
        &kanji_index,
        &native_index,
    );
    assert_eq!(entries.len(), 3);
    // ascending by first-key length
    let mut last = 0;
    for e in &entries {
        let l = e.keys[0].0.len();
        assert!(l >= last);
        last = l;
    }
    // the word entry's markup carries the accent and the merged header
    let word = entries.iter().find(|e| e.definition.contains("verb")).unwrap();
    assert!(word.definition.starts_with("<hr/>たべる [2]"));
    assert!(word.definition.contains("<li>to eat</li>"));
    // the name entry sorts behind everything at lookup level
    let name = entries.iter().find(|e| e.keys[0].1 == u32::MAX).unwrap();
    assert!(name.definition.contains("name"));
}

#[test]
fn word_output_merges_matching_sources() {
    let e = taberu_entry();
    let pa = build_pitch_index(vec![]);
    let terms = build_term_index(vec![TermEntry {
        writing: "食べる".to_string(),
        reading: "たべる".to_string(),
        definitions: vec!["to consume".to_string()],
        dict_name: "aux-dict".to_string(),
        tags: vec![],
    }]);
    let natives: PairIndex<NativeEntry> = build_native_index(vec![]);
    let o = synthesize_word_entry(false, false, "食べる", "タベル", &e, &pa, &terms, &natives);
    assert!(o.definition.contains("aux-dict:<br/>"));
    assert!(o.definition.contains("<li>to consume</li>"));
    assert!(has_key(&o.keys, "食べられ", 1000));
}
