//! The inflection rule table.
//!
//! Each conjugation class maps to a fixed list of rules; a rule is a
//! trailing suffix to strip and the replacement suffixes to attach to the
//! stem. Classes with no inflection map to one rule with an empty suffix,
//! which keeps the base form alone. The two irregular verbs that allow a
//! second spelling carry two rules.

use vstd::prelude::*;

use crate::kana::all_kana;
use crate::records::ConjugationClass;

verus! {

/// The rules for one conjugation class, each a (trailing suffix,
/// replacement suffixes) pair.
pub open spec fn spec_rules(c: ConjugationClass) -> Seq<(Seq<char>, Seq<Seq<char>>)> {
    match c {
        ConjugationClass::IchidanVerb => seq![
            ("る"@, seq![""@, "られ"@, "させ"@, "ろ"@, "て"@, "た"@]),
        ],
        ConjugationClass::GodanVerbU => seq![
            ("う"@, seq!["わ"@, "い"@, "え"@, "お"@, "って"@, "った"@]),
        ],
        ConjugationClass::GodanVerbTsu => seq![
            ("つ"@, seq!["た"@, "ち"@, "て"@, "と"@, "って"@, "った"@]),
        ],
        ConjugationClass::GodanVerbRu => seq![
            ("ち"@, seq!["ら"@, "り"@, "れ"@, "ろ"@, "って"@, "った"@]),
        ],
        ConjugationClass::GodanVerbKu => seq![
            ("く"@, seq!["か"@, "き"@, "け"@, "こ"@, "いて"@, "いた"@]),
        ],
        ConjugationClass::GodanVerbGu => seq![
            ("ぐ"@, seq!["が"@, "ぎ"@, "げ"@, "ご"@, "いで"@, "いだ"@]),
        ],
        ConjugationClass::GodanVerbNu => seq![
            ("ぬ"@, seq!["な"@, "に"@, "ね"@, "の"@, "んで"@, "んだ"@]),
        ],
        ConjugationClass::GodanVerbBu => seq![
            ("ぶ"@, seq!["ば"@, "び"@, "べ"@, "ぼ"@, "んで"@, "んだ"@]),
        ],
        ConjugationClass::GodanVerbMu => seq![
            ("む"@, seq!["ま"@, "み"@, "め"@, "も"@, "んで"@, "んだ"@]),
        ],
        ConjugationClass::GodanVerbSu => seq![
            ("す"@, seq!["さ"@, "し"@, "せ"@, "そ"@, "して"@, "した"@]),
        ],
        ConjugationClass::IkuVerb => seq![
            ("く"@, seq!["か"@, "き"@, "け"@, "こ"@, "って"@, "った"@]),
        ],
        ConjugationClass::KuruVerb => seq![
            (
                "くる"@,
                seq![
                    "こない"@,
                    "こなかった"@,
                    "こなくて"@,
                    "きて"@,
                    "きた"@,
                    "こられ"@,
                    "こさせ"@,
                    "こい"@,
                    "きます"@,
                    "きません"@,
                    "きました"@,
                ],
            ),
            (
                "来る"@,
                seq![
                    "来ない"@,
                    "来なかった"@,
                    "来なくて"@,
                    "来て"@,
                    "来た"@,
                    "来られ"@,
                    "来させ"@,
                    "来い"@,
                    "来ます"@,
                    "来ません"@,
                    "来ました"@,
                ],
            ),
        ],
        ConjugationClass::SuruVerb => seq![
            (
                "する"@,
                seq![
                    "しな"@,
                    "しろ"@,
                    "させ"@,
                    "され"@,
                    "でき"@,
                    "した"@,
                    "して"@,
                    "します"@,
                    "しません"@,
                ],
            ),
        ],
        ConjugationClass::IAdjective => seq![
            ("い"@, seq![""@, "く"@, "け"@, "かった"@, "かって"@]),
        ],
        _ => seq![(""@, Seq::<Seq<char>>::empty())],
    }
}

/// The rule table as executable data, matching `spec_rules`.
pub fn rules_for(c: ConjugationClass) -> (r: Vec<(&'static str, Vec<&'static str>)>)
    ensures
        r.deep_view() == spec_rules(c),
{
    let r: Vec<(&'static str, Vec<&'static str>)> = match c {
        ConjugationClass::IchidanVerb => vec![
            ("る", vec!["", "られ", "させ", "ろ", "て", "た"]),
        ],
        ConjugationClass::GodanVerbU => vec![("う", vec!["わ", "い", "え", "お", "って", "った"])],
        ConjugationClass::GodanVerbTsu => vec![
            ("つ", vec!["た", "ち", "て", "と", "って", "った"]),
        ],
        ConjugationClass::GodanVerbRu => vec![("ち", vec!["ら", "り", "れ", "ろ", "って", "った"])],
        ConjugationClass::GodanVerbKu => vec![("く", vec!["か", "き", "け", "こ", "いて", "いた"])],
        ConjugationClass::GodanVerbGu => vec![("ぐ", vec!["が", "ぎ", "げ", "ご", "いで", "いだ"])],
        ConjugationClass::GodanVerbNu => vec![("ぬ", vec!["な", "に", "ね", "の", "んで", "んだ"])],
        ConjugationClass::GodanVerbBu => vec![("ぶ", vec!["ば", "び", "べ", "ぼ", "んで", "んだ"])],
        ConjugationClass::GodanVerbMu => vec![("む", vec!["ま", "み", "め", "も", "んで", "んだ"])],
        ConjugationClass::GodanVerbSu => vec![("す", vec!["さ", "し", "せ", "そ", "して", "した"])],
        ConjugationClass::IkuVerb => vec![("く", vec!["か", "き", "け", "こ", "って", "った"])],
        ConjugationClass::KuruVerb => vec![
            (
                "くる",
                vec![
                    "こない",
                    "こなかった",
                    "こなくて",
                    "きて",
                    "きた",
                    "こられ",
                    "こさせ",
                    "こい",
                    "きます",
                    "きません",
                    "きました",
                ],
            ),
            (
                "来る",
                vec![
                    "来ない",
                    "来なかった",
                    "来なくて",
                    "来て",
                    "来た",
                    "来られ",
                    "来させ",
                    "来い",
                    "来ます",
                    "来ません",
                    "来ました",
                ],
            ),
        ],
        ConjugationClass::SuruVerb => vec![
            (
                "する",
                vec!["しな", "しろ", "させ", "され", "でき", "した", "して", "します", "しません"],
            ),
        ],
        ConjugationClass::IAdjective => vec![("い", vec!["", "く", "け", "かった", "かって"])],
        _ => vec![("", Vec::<&'static str>::new())],
    };
    proof {
        assert forall|i: int| 0 <= i < r.len() implies #[trigger] r.deep_view()[i]
            == spec_rules(c)[i] by {
            assert(r.deep_view()[i].1 =~= spec_rules(c)[i].1);
        }
        assert(r.deep_view() =~= spec_rules(c));
    }
    r
}

/// Every suffix of the rule is phonetic-script text.
pub open spec fn rule_all_kana(r: (Seq<char>, Seq<Seq<char>>)) -> bool {
    all_kana(r.0) && forall|i: int| 0 <= i < r.1.len() ==> all_kana(r.1[i])
}

/// The stripped suffix and every replacement contain a non-phonetic
/// character, so no inflected variant the rule produces can be all
/// phonetic, nor can a base form it applies to.
pub open spec fn rule_no_kana(r: (Seq<char>, Seq<Seq<char>>)) -> bool {
    !all_kana(r.0) && forall|i: int| 0 <= i < r.1.len() ==> !all_kana(r.1[i])
}

/// Every rule of the table either works in phonetic script alone or has a
/// non-phonetic character in its suffix and in every replacement. This is
/// what ties a produced key's script to its base form's script.
pub proof fn lemma_rules_classified(c: ConjugationClass)
    ensures
        forall|i: int|
            0 <= i < spec_rules(c).len() ==> rule_all_kana(#[trigger] spec_rules(c)[i])
                || rule_no_kana(spec_rules(c)[i]),
{
    reveal_strlit("");
    reveal_strlit("る");
    reveal_strlit("られ");
    reveal_strlit("させ");
    reveal_strlit("ろ");
    reveal_strlit("て");
    reveal_strlit("た");
    reveal_strlit("う");
    reveal_strlit("わ");
    reveal_strlit("い");
    reveal_strlit("え");
    reveal_strlit("お");
    reveal_strlit("って");
    reveal_strlit("った");
    reveal_strlit("つ");
    reveal_strlit("ち");
    reveal_strlit("と");
    reveal_strlit("ら");
    reveal_strlit("り");
    reveal_strlit("れ");
    reveal_strlit("く");
    reveal_strlit("か");
    reveal_strlit("き");
    reveal_strlit("け");
    reveal_strlit("こ");
    reveal_strlit("いて");
    reveal_strlit("いた");
    reveal_strlit("ぐ");
    reveal_strlit("が");
    reveal_strlit("ぎ");
    reveal_strlit("げ");
    reveal_strlit("ご");
    reveal_strlit("いで");
    reveal_strlit("いだ");
    reveal_strlit("ぬ");
    reveal_strlit("な");
    reveal_strlit("に");
    reveal_strlit("ね");
    reveal_strlit("の");
    reveal_strlit("んで");
    reveal_strlit("んだ");
    reveal_strlit("ぶ");
    reveal_strlit("ば");
    reveal_strlit("び");
    reveal_strlit("べ");
    reveal_strlit("ぼ");
    reveal_strlit("む");
    reveal_strlit("ま");
    reveal_strlit("み");
    reveal_strlit("め");
    reveal_strlit("も");
    reveal_strlit("す");
    reveal_strlit("さ");
    reveal_strlit("し");
    reveal_strlit("せ");
    reveal_strlit("そ");
    reveal_strlit("して");
    reveal_strlit("した");
    reveal_strlit("くる");
    reveal_strlit("こない");
    reveal_strlit("こなかった");
    reveal_strlit("こなくて");
    reveal_strlit("きて");
    reveal_strlit("きた");
    reveal_strlit("こられ");
    reveal_strlit("こさせ");
    reveal_strlit("こい");
    reveal_strlit("きます");
    reveal_strlit("きません");
    reveal_strlit("きました");
    reveal_strlit("来る");
    reveal_strlit("来ない");
    reveal_strlit("来なかった");
    reveal_strlit("来なくて");
    reveal_strlit("来て");
    reveal_strlit("来た");
    reveal_strlit("来られ");
    reveal_strlit("来させ");
    reveal_strlit("来い");
    reveal_strlit("来ます");
    reveal_strlit("来ません");
    reveal_strlit("来ました");
    reveal_strlit("する");
    reveal_strlit("しな");
    reveal_strlit("しろ");
    reveal_strlit("され");
    reveal_strlit("でき");
    reveal_strlit("します");
    reveal_strlit("しません");
    reveal_strlit("かった");
    reveal_strlit("かって");
    match c {
        ConjugationClass::KuruVerb => {
            assert(rule_all_kana(spec_rules(c)[0]));
            assert(!crate::kana::is_kana_char("来る"@[0]));
            assert(!all_kana("来る"@));
            assert forall|i: int| 0 <= i < spec_rules(c)[1].1.len() implies !all_kana(
                #[trigger] spec_rules(c)[1].1[i],
            ) by {
                assert(!crate::kana::is_kana_char(spec_rules(c)[1].1[i][0]));
            }
            assert(rule_no_kana(spec_rules(c)[1]));
        },
        _ => {
            assert forall|i: int| 0 <= i < spec_rules(c).len() implies rule_all_kana(
                #[trigger] spec_rules(c)[i],
            ) by {
                assert(all_kana(spec_rules(c)[i].0));
            }
        },
    }
}

} // verus!
