//! The normalized in-memory shape of each source's records, as handed in
//! by the external parsers, and the output entry shape handed to the
//! external packager.

use vstd::prelude::*;

verus! {

/// Part-of-speech tag of a primary-dictionary word entry.
#[derive(Clone, Copy, PartialEq, Eq, Structural, Debug)]
pub enum PartOfSpeech {
    Verb,
    Adjective,
    Expression,
    Other,
}

/// The closed set of inflection patterns the primary dictionary assigns.
/// `Other` covers every class with no inflection rule (nouns, expressions,
/// unclassified entries).
#[derive(Clone, Copy, PartialEq, Eq, Structural, Debug)]
pub enum ConjugationClass {
    IchidanVerb,
    GodanVerbU,
    GodanVerbTsu,
    GodanVerbRu,
    GodanVerbKu,
    GodanVerbGu,
    GodanVerbNu,
    GodanVerbBu,
    GodanVerbMu,
    GodanVerbSu,
    GodanVerbHu,
    IkuVerb,
    KuruVerb,
    SuruVerb,
    SuruVerbSC,
    KureruVerb,
    AruVerb,
    SharuVerb,
    IrregularVerb,
    IAdjective,
    IrregularIAdjective,
    Other,
}

/// One entry of the primary word-sense dictionary.
#[derive(Clone, Debug)]
pub struct WordEntry {
    /// Headword writings, possibly logographic; may be empty.
    pub writings: Vec<String>,
    /// Phonetic readings; non-empty, the first is canonical.
    pub readings: Vec<String>,
    /// Gloss strings, in source order.
    pub definitions: Vec<String>,
    pub pos: PartOfSpeech,
    pub conj: ConjugationClass,
    /// The word is usually written in phonetic script alone.
    pub usually_kana: bool,
    /// Free-form descriptive tags, such as transitivity markers.
    pub tags: Vec<String>,
    /// Higher means more common; feeds lookup-key ranking.
    pub priority: u32,
}

impl WordEntry {
    /// Every record handed in by the parser has at least one reading.
    pub open spec fn wf(self) -> bool {
        self.readings.len() > 0
    }

    /// The entry carries the given tag.
    pub open spec fn spec_has_tag(self, tag: Seq<char>) -> bool {
        exists|i: int| 0 <= i < self.tags.len() && self.tags[i]@ == tag
    }

    /// Membership test on the tag set.
    pub fn has_tag(&self, tag: &str) -> (r: bool)
        ensures
            r == self.spec_has_tag(tag@),
    {
        let n = self.tags.len();
        let mut i: usize = 0;
        while i < n
            invariant
                i <= n,
                n == self.tags.len(),
                forall|j: int| 0 <= j < i ==> self.tags[j]@ != tag@,
            decreases n - i,
        {
            if crate::text::str_eq(self.tags[i].as_str(), tag) {
                return true;
            }
            i += 1;
        }
        false
    }
}

/// One entry of an auxiliary term or name dictionary.
#[derive(Clone, Debug)]
pub struct TermEntry {
    pub writing: String,
    pub reading: String,
    /// Gloss strings, in source order.
    pub definitions: Vec<String>,
    /// Display name of the dictionary this record came from.
    pub dict_name: String,
    /// Free-form tags (name dictionaries use them for name kinds).
    pub tags: Vec<String>,
}

/// One entry of an auxiliary kanji dictionary.
#[derive(Clone, Debug)]
pub struct KanjiEntry {
    /// The single logographic character described.
    pub kanji: String,
    pub meanings: Vec<String>,
    pub onyomi: Vec<String>,
    pub kunyomi: Vec<String>,
}

/// One entry of the native-language auxiliary dictionary: a pre-rendered
/// definition block under a (key, reading) pair.
#[derive(Clone, Debug)]
pub struct NativeEntry {
    pub key: String,
    pub kana: String,
    /// Pre-rendered definition markup, appended verbatim.
    pub definition: String,
}

/// One line of the pitch-accent table, already split into fields.
#[derive(Clone, Debug)]
pub struct PitchAccentEntry {
    pub writing: String,
    pub reading: String,
    /// Accepted accent positions, in source order.
    pub accents: Vec<u32>,
}

/// One finished output entry: ranked lookup keys plus rendered definition
/// markup. The first key drives the global output ordering.
#[derive(Clone, Debug)]
pub struct OutputEntry {
    /// (surface string, priority) pairs; lower priority ranks higher.
    pub keys: Vec<(String, u32)>,
    /// Rendered definition markup.
    pub definition: String,
}

impl OutputEntry {
    /// Assembly never produces an entry without keys.
    pub open spec fn wf(self) -> bool {
        self.keys.len() > 0
    }
}

} // verus!
