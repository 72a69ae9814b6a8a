//! Entry assembly and ranking: one output entry per merged word entry,
//! per auxiliary name record and per kanji character, and the final global
//! ordering — a stable sort on the first lookup key's byte length, so that the
//! output order is fully determined by the indexes' insertion order.

use vstd::prelude::*;

use crate::expand::{all_lookup_keys, generate_lookup_keys, keys_sorted, spec_key_lt};
use crate::index::PairIndex;
use crate::records::{KanjiEntry, NativeEntry, OutputEntry, TermEntry, WordEntry};
use crate::render::{
    accent_part, accents_view, generate_definition_text, generate_header_text,
    generate_kanji_entry_text, generate_name_entry_text, spec_definition_text, spec_header_text,
    spec_kanji_entry_text, spec_name_entry_text,
};

verus! {

broadcast use vstd::seq::group_seq_axioms;

/// The global sort key of an output entry: the UTF-8 byte length of its
/// first lookup key's surface string.
pub open spec fn entry_sort_len(o: OutputEntry) -> int {
    crate::text::byte_len(o.keys.deep_view()[0].0)
}

/// Ascending by sort key.
pub open spec fn entries_sorted(s: Seq<OutputEntry>) -> bool {
    forall|i: int, j: int| 0 <= i < j < s.len() ==> entry_sort_len(s[i]) <= entry_sort_len(s[j])
}

/// The subsequence of entries with one given sort key, in order.
pub open spec fn len_class(s: Seq<OutputEntry>, len: int) -> Seq<OutputEntry> {
    s.filter(|o: OutputEntry| entry_sort_len(o) == len)
}

/// `sorted` is `pre` stably sorted: ascending, and within each sort-key
/// class the original order is kept.
pub open spec fn sorted_stable_of(sorted: Seq<OutputEntry>, pre: Seq<OutputEntry>) -> bool {
    &&& entries_sorted(sorted)
    &&& forall|len: int| #[trigger] len_class(sorted, len) == len_class(pre, len)
}

/// A name-entry key always ranks after every key of lower priority,
/// whatever the lengths of their surface strings: name entries carry the
/// maximum priority, so they sort last among lookup keys.
pub proof fn lemma_name_keys_sort_last(name_key: (Seq<char>, u32), other: (Seq<char>, u32))
    requires
        name_key.1 == u32::MAX,
        other.1 < u32::MAX,
    ensures
        spec_key_lt(other, name_key),
{
}

/// A kanji-entry key — a single character at top priority — ranks before
/// any multi-character key of equal or greater priority whose characters
/// lie at or above U+0800, as all of Japanese text does: one character
/// takes at most four UTF-8 bytes, two such characters at least six.
pub proof fn lemma_kanji_keys_sort_first(kanji_key: (Seq<char>, u32), other: (Seq<char>, u32))
    requires
        kanji_key.1 == 0,
        kanji_key.0.len() == 1,
        other.0.len() >= 2,
        forall|i: int| 0 <= i < other.0.len() ==> (#[trigger] other.0[i] as u32) >= 0x800,
    ensures
        spec_key_lt(kanji_key, other),
{
    crate::text::lemma_byte_len_single(kanji_key.0);
    crate::text::lemma_byte_len_wide(other.0);
}

/// The output entry of one merged word entry: its canonical lookup keys,
/// and markup made of a rule, the header, and the body with every matched
/// auxiliary record merged in.
pub open spec fn is_word_output(
    o: OutputEntry,
    use_katakana: bool,
    use_move_terms: bool,
    w: Seq<char>,
    r: Seq<char>,
    e: WordEntry,
    pa: PairIndex<u32>,
    terms: PairIndex<TermEntry>,
    natives: PairIndex<NativeEntry>,
) -> bool {
    &&& keys_sorted(o.keys.deep_view())
    &&& (forall|k: (Seq<char>, u32)|
        #[trigger] o.keys.deep_view().contains(k) <==> all_lookup_keys(e).contains(k))
    &&& o.keys.len() > 0
    &&& o.definition@ == "<hr/>"@ + spec_header_text(
        use_katakana,
        use_move_terms,
        r,
        Some(pa.spec_get(w, r)),
        e,
    ) + spec_definition_text(e, terms.spec_get(w, r), natives.spec_get(w, r))
}

/// The output entry of one auxiliary name record: a single key — the
/// writing at the maximum priority, so it sorts last — and its rendered
/// markup.
pub open spec fn is_name_output(o: OutputEntry, use_katakana: bool, w: Seq<char>, item: TermEntry) -> bool {
    &&& o.keys.deep_view() == seq![(w, u32::MAX as u32)]
    &&& o.definition@ == "<hr/>"@ + spec_name_entry_text(use_katakana, item)
}

/// The output entry of one kanji character: a single key — the character
/// at top priority — and the rendering of the character's first record.
pub open spec fn is_kanji_output(o: OutputEntry, w: Seq<char>, item: KanjiEntry) -> bool {
    &&& o.keys.deep_view() == seq![(w, 0u32)]
    &&& o.definition@ == "<hr/>"@ + spec_kanji_entry_text(item)
}

/// Synthesizes the output entry of one word entry under its index key,
/// merging the matched pitch-accent, term and native records.
pub fn synthesize_word_entry(
    use_katakana: bool,
    use_move_terms: bool,
    writing: &str,
    reading: &str,
    jm_entry: &WordEntry,
    pa: &PairIndex<u32>,
    terms: &PairIndex<TermEntry>,
    natives: &PairIndex<NativeEntry>,
) -> (o: OutputEntry)
    requires
        jm_entry.wf(),
        pa.wf(),
        terms.wf(),
        natives.wf(),
    ensures
        is_word_output(
            o,
            use_katakana,
            use_move_terms,
            writing@,
            reading@,
            *jm_entry,
            *pa,
            *terms,
            *natives,
        ),
{
    let pitch = pa.get(writing, reading);
    proof {
        assert(accent_part(accents_view(pitch)) == accent_part(
            Some(pa.spec_get(writing@, reading@)),
        ));
    }
    let empty_terms: Vec<TermEntry> = Vec::new();
    let yomi: &Vec<TermEntry> = match terms.get(writing, reading) {
        Some(v) => v,
        None => &empty_terms,
    };
    let empty_natives: Vec<NativeEntry> = Vec::new();
    let kobo: &Vec<NativeEntry> = match natives.get(writing, reading) {
        Some(v) => v,
        None => &empty_natives,
    };
    let mut text = String::new();
    text.append("<hr/>");
    let header = generate_header_text(use_katakana, use_move_terms, reading, pitch, jm_entry);
    text.append(header.as_str());
    let body = generate_definition_text(jm_entry, yomi, kobo);
    text.append(body.as_str());
    let keys = generate_lookup_keys(jm_entry);
    OutputEntry { keys, definition: text }
}

/// Synthesizes the output entry of one auxiliary name record.
pub fn synthesize_name_entry(use_katakana: bool, writing: &str, item: &TermEntry) -> (o:
    OutputEntry)
    ensures
        is_name_output(o, use_katakana, writing@, *item),
        o.wf(),
{
    let mut text = String::new();
    text.append("<hr/>");
    let body = generate_name_entry_text(use_katakana, item);
    text.append(body.as_str());
    let mut keys: Vec<(String, u32)> = Vec::new();
    keys.push((writing.to_owned(), u32::MAX));
    proof {
        assert(keys.deep_view() =~= seq![(writing@, u32::MAX as u32)]);
    }
    OutputEntry { keys, definition: text }
}

/// Synthesizes the output entry of one kanji character.
pub fn synthesize_kanji_entry(kanji: &str, item: &KanjiEntry) -> (o: OutputEntry)
    ensures
        is_kanji_output(o, kanji@, *item),
        o.wf(),
{
    let mut text = String::new();
    text.append("<hr/>");
    let body = generate_kanji_entry_text(item);
    text.append(body.as_str());
    let mut keys: Vec<(String, u32)> = Vec::new();
    keys.push((kanji.to_owned(), 0));
    proof {
        assert(keys.deep_view() =~= seq![(kanji@, 0u32)]);
    }
    OutputEntry { keys, definition: text }
}

/// The sort key of one entry, executably.
fn entry_len(e: &OutputEntry) -> (l: usize)
    requires
        e.wf(),
    ensures
        l as int == entry_sort_len(*e),
{
    proof {
        assert(e.keys.deep_view()[0] == (e.keys@[0].0@, e.keys@[0].1));
    }
    e.keys[0].0.as_str().as_bytes().len()
}

/// Swapping adjacent entries of different sort keys leaves every sort-key
/// class unchanged.
proof fn lemma_swap_adjacent_filter(pre: Seq<OutputEntry>, post: Seq<OutputEntry>, j: int)
    requires
        1 <= j < pre.len(),
        entry_sort_len(pre[j - 1]) != entry_sort_len(pre[j]),
        post == pre.update(j - 1, pre[j]).update(j, pre[j - 1]),
    ensures
        forall|len: int| #[trigger] len_class(post, len) == len_class(pre, len),
{
    let s1 = pre.take(j - 1);
    let s2 = pre.skip(j + 1);
    let a = pre[j - 1];
    let b = pre[j];
    assert(pre =~= s1 + seq![a, b] + s2);
    assert(post =~= s1 + seq![b, a] + s2);
    assert forall|len: int| #[trigger] len_class(post, len) == len_class(pre, len) by {
        let pred = |o: OutputEntry| entry_sort_len(o) == len;
        reveal_with_fuel(Seq::filter, 3);
        assert(seq![a, b].drop_last() =~= seq![a]);
        assert(seq![a].drop_last() =~= Seq::<OutputEntry>::empty());
        assert(seq![b, a].drop_last() =~= seq![b]);
        assert(seq![b].drop_last() =~= Seq::<OutputEntry>::empty());
        assert(seq![a, b].filter(pred) =~= seq![b, a].filter(pred));
        Seq::filter_distributes_over_add(s1, seq![a, b], pred);
        Seq::filter_distributes_over_add(s1 + seq![a, b], s2, pred);
        Seq::filter_distributes_over_add(s1, seq![b, a], pred);
        Seq::filter_distributes_over_add(s1 + seq![b, a], s2, pred);
    }
}

/// Sorts the entries by their first key's length, ascending and stable:
/// entries of equal sort key keep their relative order, so the output
/// order is deterministic given the input order.
pub fn sort_entries(entries: &mut Vec<OutputEntry>)
    requires
        forall|i: int| 0 <= i < old(entries).len() ==> (#[trigger] old(entries)@[i]).wf(),
    ensures
        forall|i: int| 0 <= i < final(entries).len() ==> (#[trigger] final(entries)@[i]).wf(),
        sorted_stable_of(final(entries)@, old(entries)@),
{
    let n = entries.len();
    let mut i: usize = 1;
    proof {
        assert forall|len: int| #[trigger] len_class(entries@, len) == len_class(
            old(entries)@,
            len,
        ) by {}
    }
    while i < n
        invariant
            1 <= i <= n || (n == 0 && i == 1),
            n == entries.len(),
            forall|a: int| 0 <= a < entries@.len() ==> (#[trigger] entries@[a]).wf(),
            forall|a: int, b: int|
                0 <= a < b < i ==> entry_sort_len(entries@[a]) <= entry_sort_len(entries@[b]),
            forall|len: int| #[trigger] len_class(entries@, len) == len_class(old(entries)@, len),
        decreases n - i,
    {
        let mut j: usize = i;
        while j > 0 && entry_len(&entries[j]) < entry_len(&entries[j - 1])
            invariant
                0 <= j <= i < n,
                n == entries.len(),
                forall|a: int| 0 <= a < entries@.len() ==> (#[trigger] entries@[a]).wf(),
                forall|a: int, b: int|
                    0 <= a < b <= i && a != j && b != j ==> entry_sort_len(entries@[a])
                        <= entry_sort_len(entries@[b]),
                forall|b: int|
                    j < b <= i ==> entry_sort_len(entries@[j as int]) < entry_sort_len(
                        entries@[b],
                    ),
                forall|len: int|
                    #[trigger] len_class(entries@, len) == len_class(old(entries)@, len),
            decreases j,
        {
            let ghost pre = entries@;
            let moved = entries.remove(j);
            entries.insert(j - 1, moved);
            proof {
                let post = entries@;
                assert(post =~= pre.update(j - 1, pre[j as int]).update(j as int, pre[j - 1]));
                lemma_swap_adjacent_filter(pre, post, j as int);
                assert forall|len: int| #[trigger] len_class(post, len) == len_class(
                    old(entries)@,
                    len,
                ) by {
                    assert(len_class(post, len) == len_class(pre, len));
                }
            }
            j -= 1;
        }
        i += 1;
    }
    proof {
        if n > 0 {
            assert forall|a: int, b: int| 0 <= a < b < entries@.len() implies entry_sort_len(
                entries@[a],
            ) <= entry_sort_len(entries@[b]) by {}
        }
    }
}

/// The number of records held by the buckets before bucket `i`.
pub open spec fn items_before<T>(buckets: Seq<crate::index::Bucket<T>>, i: int) -> int
    decreases i,
{
    if i <= 0 {
        0
    } else {
        items_before(buckets, i - 1) + buckets[i - 1].items.len()
    }
}

/// Record counts are monotone in the bucket prefix.
proof fn lemma_items_before_mono<T>(buckets: Seq<crate::index::Bucket<T>>, i: int, j: int)
    requires
        0 <= i <= j,
    ensures
        items_before(buckets, i) <= items_before(buckets, j),
    decreases j - i,
{
    if i < j {
        lemma_items_before_mono(buckets, i, j - 1);
    }
}

/// Every bucket holds at least one record.
pub open spec fn buckets_nonempty<T>(idx: PairIndex<T>) -> bool {
    forall|i: int| 0 <= i < idx.buckets.len() ==> (#[trigger] idx.buckets[i]).items.len() > 0
}

/// Every word entry in the index is well formed.
pub open spec fn index_entries_wf(idx: PairIndex<WordEntry>) -> bool {
    forall|i: int, j: int|
        0 <= i < idx.buckets.len() && 0 <= j < idx.buckets[i].items.len()
            ==> (#[trigger] idx.buckets[i].items[j]).wf()
}

/// `pre` is exactly the unsorted entry list the indexes give rise to: one
/// word output per word entry, bucket by bucket in index order; then one
/// name output per name record; then one kanji output per kanji bucket,
/// rendered from the bucket's first record.
pub open spec fn assembled_from(
    pre: Seq<OutputEntry>,
    use_katakana: bool,
    use_move_terms: bool,
    words: PairIndex<WordEntry>,
    pa: PairIndex<u32>,
    terms: PairIndex<TermEntry>,
    names: PairIndex<TermEntry>,
    kanji: PairIndex<KanjiEntry>,
    natives: PairIndex<NativeEntry>,
) -> bool {
    let wb = words.buckets@;
    let nb = names.buckets@;
    let kb = kanji.buckets@;
    let wtotal = items_before(wb, wb.len() as int);
    let ntotal = items_before(nb, nb.len() as int);
    &&& pre.len() == wtotal + ntotal + kb.len()
    &&& (forall|bi: int, j: int|
        0 <= bi < wb.len() && 0 <= j < wb[bi].items.len() ==> is_word_output(
            #[trigger] pre[items_before(wb, bi) + j],
            use_katakana,
            use_move_terms,
            wb[bi].writing@,
            wb[bi].reading@,
            wb[bi].items[j],
            pa,
            terms,
            natives,
        ))
    &&& (forall|bi: int, j: int|
        0 <= bi < nb.len() && 0 <= j < nb[bi].items.len() ==> is_name_output(
            #[trigger] pre[wtotal + items_before(nb, bi) + j],
            use_katakana,
            nb[bi].writing@,
            nb[bi].items[j],
        ))
    &&& (forall|bi: int|
        0 <= bi < kb.len() && kb[bi].items.len() > 0 ==> is_kanji_output(
            #[trigger] pre[wtotal + ntotal + bi],
            kb[bi].writing@,
            kb[bi].items[0],
        ))
}

/// Runs the whole synthesis pass: one output entry per merged word entry,
/// per auxiliary name record and per kanji character, stably sorted by the
/// first lookup key's byte length.
pub fn generate_entries(
    use_katakana: bool,
    use_move_terms: bool,
    words: &PairIndex<WordEntry>,
    pa: &PairIndex<u32>,
    terms: &PairIndex<TermEntry>,
    names: &PairIndex<TermEntry>,
    kanji: &PairIndex<KanjiEntry>,
    natives: &PairIndex<NativeEntry>,
) -> (r: Vec<OutputEntry>)
    requires
        words.wf(),
        pa.wf(),
        terms.wf(),
        names.wf(),
        kanji.wf(),
        natives.wf(),
        index_entries_wf(*words),
        buckets_nonempty(*kanji),
    ensures
        exists|pre: Seq<OutputEntry>|
            #[trigger] assembled_from(
                pre,
                use_katakana,
                use_move_terms,
                *words,
                *pa,
                *terms,
                *names,
                *kanji,
                *natives,
            ) && sorted_stable_of(r@, pre),
{
    let mut out: Vec<OutputEntry> = Vec::new();
    let ghost wb = words.buckets@;
    let ghost nb = names.buckets@;
    let ghost kb = kanji.buckets@;
    let nw = words.buckets.len();
    let mut bi: usize = 0;
    while bi < nw
        invariant
            bi <= nw,
            nw == words.buckets.len(),
            words.wf(),
            pa.wf(),
            terms.wf(),
            natives.wf(),
            index_entries_wf(*words),
            wb == words.buckets@,
            out.len() == items_before(wb, bi as int),
            forall|b2: int, j: int|
                0 <= b2 < bi && 0 <= j < wb[b2].items.len() ==> is_word_output(
                    #[trigger] out@[items_before(wb, b2) + j],
                    use_katakana,
                    use_move_terms,
                    wb[b2].writing@,
                    wb[b2].reading@,
                    wb[b2].items[j],
                    *pa,
                    *terms,
                    *natives,
                ),
        decreases nw - bi,
    {
        let ni = words.buckets[bi].items.len();
        proof {
            lemma_items_before_mono(wb, bi + 1, nw as int);
        }
        let mut j: usize = 0;
        while j < ni
            invariant
                j <= ni,
                bi < nw,
                ni == words.buckets[bi as int].items.len(),
                nw == words.buckets.len(),
                words.wf(),
                pa.wf(),
                terms.wf(),
                natives.wf(),
                index_entries_wf(*words),
                wb == words.buckets@,
                out.len() == items_before(wb, bi as int) + j,
                forall|b2: int, jj: int|
                    0 <= b2 < bi && 0 <= jj < wb[b2].items.len() ==> is_word_output(
                        #[trigger] out@[items_before(wb, b2) + jj],
                        use_katakana,
                        use_move_terms,
                        wb[b2].writing@,
                        wb[b2].reading@,
                        wb[b2].items[jj],
                        *pa,
                        *terms,
                        *natives,
                    ),
                forall|jj: int|
                    0 <= jj < j ==> is_word_output(
                        #[trigger] out@[items_before(wb, bi as int) + jj],
                        use_katakana,
                        use_move_terms,
                        wb[bi as int].writing@,
                        wb[bi as int].reading@,
                        wb[bi as int].items[jj],
                        *pa,
                        *terms,
                        *natives,
                    ),
            decreases ni - j,
        {
            let b = &words.buckets[bi];
            let o = synthesize_word_entry(
                use_katakana,
                use_move_terms,
                b.writing.as_str(),
                b.reading.as_str(),
                &b.items[j],
                pa,
                terms,
                natives,
            );
            let ghost pre_out = out@;
            out.push(o);
            proof {
                lemma_items_before_mono(wb, 0, bi as int);
                assert(out@ =~= pre_out.push(o));
                assert forall|b2: int, jj: int|
                    0 <= b2 < bi && 0 <= jj < wb[b2].items.len() implies is_word_output(
                    #[trigger] out@[items_before(wb, b2) + jj],
                    use_katakana,
                    use_move_terms,
                    wb[b2].writing@,
                    wb[b2].reading@,
                    wb[b2].items[jj],
                    *pa,
                    *terms,
                    *natives,
                ) by {
                    lemma_items_before_mono(wb, 0, b2);
                    assert(items_before(wb, b2 + 1) == items_before(wb, b2) + wb[b2].items.len());
                    lemma_items_before_mono(wb, b2 + 1, bi as int);
                    assert(items_before(wb, b2) + jj < pre_out.len());
                    assert(pre_out.push(o)[items_before(wb, b2) + jj] == pre_out[items_before(wb, b2) + jj]);
                    assert(out@[items_before(wb, b2) + jj] == pre_out[items_before(wb, b2) + jj]);
                }
                assert forall|jj: int| 0 <= jj < j + 1 implies is_word_output(
                    #[trigger] out@[items_before(wb, bi as int) + jj],
                    use_katakana,
                    use_move_terms,
                    wb[bi as int].writing@,
                    wb[bi as int].reading@,
                    wb[bi as int].items[jj],
                    *pa,
                    *terms,
                    *natives,
                ) by {
                    lemma_items_before_mono(wb, 0, bi as int);
                    if jj < j {
                        assert(pre_out.push(o)[items_before(wb, bi as int) + jj] == pre_out[
                            items_before(wb, bi as int) + jj
                        ]);
                        assert(out@[items_before(wb, bi as int) + jj] == pre_out[items_before(
                            wb,
                            bi as int,
                        ) + jj]);
                    } else {
                        assert(pre_out.push(o)[items_before(wb, bi as int) + jj] == o);
                        assert(out@[items_before(wb, bi as int) + jj] == o);
                    }
                }
            }
            j += 1;
        }
        proof {
            assert(items_before(wb, bi + 1) == items_before(wb, bi as int) + wb[
                bi as int
            ].items.len());
            assert forall|b2: int, jj: int|
                0 <= b2 < bi + 1 && 0 <= jj < wb[b2].items.len() implies is_word_output(
                #[trigger] out@[items_before(wb, b2) + jj],
                use_katakana,
                use_move_terms,
                wb[b2].writing@,
                wb[b2].reading@,
                wb[b2].items[jj],
                *pa,
                *terms,
                *natives,
            ) by {
                if b2 == bi {
                }
            }
        }
        bi += 1;
    }
    let ghost wtotal = items_before(wb, nw as int);
    let nn = names.buckets.len();
    let mut bi2: usize = 0;
    while bi2 < nn
        invariant
            bi2 <= nn,
            nn == names.buckets.len(),
            nb == names.buckets@,
            out.len() == wtotal + items_before(nb, bi2 as int),
            wtotal == items_before(wb, wb.len() as int),
            forall|b2: int, j: int|
                0 <= b2 < wb.len() && 0 <= j < wb[b2].items.len() ==> is_word_output(
                    #[trigger] out@[items_before(wb, b2) + j],
                    use_katakana,
                    use_move_terms,
                    wb[b2].writing@,
                    wb[b2].reading@,
                    wb[b2].items[j],
                    *pa,
                    *terms,
                    *natives,
                ),
            forall|b2: int, j: int|
                0 <= b2 < bi2 && 0 <= j < nb[b2].items.len() ==> is_name_output(
                    #[trigger] out@[wtotal + items_before(nb, b2) + j],
                    use_katakana,
                    nb[b2].writing@,
                    nb[b2].items[j],
                ),
        decreases nn - bi2,
    {
        let ni = names.buckets[bi2].items.len();
        proof {
            lemma_items_before_mono(wb, 0, wb.len() as int);
            lemma_items_before_mono(nb, 0, bi2 as int);
        }
        let mut j: usize = 0;
        while j < ni
            invariant
                j <= ni,
                bi2 < nn,
                ni == names.buckets[bi2 as int].items.len(),
                nn == names.buckets.len(),
                nb == names.buckets@,
                out.len() == wtotal + items_before(nb, bi2 as int) + j,
                wtotal == items_before(wb, wb.len() as int),
                forall|b2: int, jj: int|
                    0 <= b2 < wb.len() && 0 <= jj < wb[b2].items.len() ==> is_word_output(
                        #[trigger] out@[items_before(wb, b2) + jj],
                        use_katakana,
                        use_move_terms,
                        wb[b2].writing@,
                        wb[b2].reading@,
                        wb[b2].items[jj],
                        *pa,
                        *terms,
                        *natives,
                    ),
                forall|b2: int, jj: int|
                    0 <= b2 < bi2 && 0 <= jj < nb[b2].items.len() ==> is_name_output(
                        #[trigger] out@[wtotal + items_before(nb, b2) + jj],
                        use_katakana,
                        nb[b2].writing@,
                        nb[b2].items[jj],
                    ),
                forall|jj: int|
                    0 <= jj < j ==> is_name_output(
                        #[trigger] out@[wtotal + items_before(nb, bi2 as int) + jj],
                        use_katakana,
                        nb[bi2 as int].writing@,
                        nb[bi2 as int].items[jj],
                    ),
            decreases ni - j,
        {
            let b = &names.buckets[bi2];
            let o = synthesize_name_entry(use_katakana, b.writing.as_str(), &b.items[j]);
            let ghost pre_out = out@;
            out.push(o);
            proof {
                lemma_items_before_mono(nb, 0, bi2 as int);
                assert(out@ =~= pre_out.push(o));
                assert forall|b2: int, jj: int|
                    0 <= b2 < wb.len() && 0 <= jj < wb[b2].items.len() implies is_word_output(
                    #[trigger] out@[items_before(wb, b2) + jj],
                    use_katakana,
                    use_move_terms,
                    wb[b2].writing@,
                    wb[b2].reading@,
                    wb[b2].items[jj],
                    *pa,
                    *terms,
                    *natives,
                ) by {
                    lemma_items_before_mono(wb, 0, b2);
                    assert(items_before(wb, b2 + 1) == items_before(wb, b2) + wb[b2].items.len());
                    lemma_items_before_mono(wb, b2 + 1, wb.len() as int);
                    lemma_items_before_mono(nb, 0, bi2 as int);
                    assert(items_before(wb, b2) + jj < pre_out.len());
                    assert(pre_out.push(o)[items_before(wb, b2) + jj] == pre_out[items_before(wb, b2) + jj]);
                    assert(out@[items_before(wb, b2) + jj] == pre_out[items_before(wb, b2) + jj]);
                }
                assert forall|b2: int, jj: int|
                    0 <= b2 < bi2 && 0 <= jj < nb[b2].items.len() implies is_name_output(
                    #[trigger] out@[wtotal + items_before(nb, b2) + jj],
                    use_katakana,
                    nb[b2].writing@,
                    nb[b2].items[jj],
                ) by {
                    lemma_items_before_mono(wb, 0, wb.len() as int);
                    lemma_items_before_mono(nb, 0, b2);
                    assert(items_before(nb, b2 + 1) == items_before(nb, b2) + nb[b2].items.len());
                    lemma_items_before_mono(nb, b2 + 1, bi2 as int);
                    assert(wtotal + items_before(nb, b2) + jj < pre_out.len());
                    assert(pre_out.push(o)[wtotal + items_before(nb, b2) + jj] == pre_out[wtotal
                        + items_before(nb, b2) + jj]);
                    assert(out@[wtotal + items_before(nb, b2) + jj] == pre_out[wtotal
                        + items_before(nb, b2) + jj]);
                }
                assert forall|jj: int| 0 <= jj < j + 1 implies is_name_output(
                    #[trigger] out@[wtotal + items_before(nb, bi2 as int) + jj],
                    use_katakana,
                    nb[bi2 as int].writing@,
                    nb[bi2 as int].items[jj],
                ) by {
                    lemma_items_before_mono(wb, 0, wb.len() as int);
                    lemma_items_before_mono(nb, 0, bi2 as int);
                    if jj < j {
                        assert(pre_out.push(o)[wtotal + items_before(nb, bi2 as int) + jj] == pre_out[
                            wtotal + items_before(nb, bi2 as int) + jj
                        ]);
                        assert(out@[wtotal + items_before(nb, bi2 as int) + jj] == pre_out[wtotal
                            + items_before(nb, bi2 as int) + jj]);
                    } else {
                        assert(pre_out.push(o)[wtotal + items_before(nb, bi2 as int) + jj] == o);
                        assert(out@[wtotal + items_before(nb, bi2 as int) + jj] == o);
                    }
                }
            }
            j += 1;
        }
        proof {
            assert(items_before(nb, bi2 + 1) == items_before(nb, bi2 as int) + nb[
                bi2 as int
            ].items.len());
            assert forall|b2: int, jj: int|
                0 <= b2 < bi2 + 1 && 0 <= jj < nb[b2].items.len() implies is_name_output(
                #[trigger] out@[wtotal + items_before(nb, b2) + jj],
                use_katakana,
                nb[b2].writing@,
                nb[b2].items[jj],
            ) by {
                if b2 == bi2 {
                }
            }
        }
        bi2 += 1;
    }
    let ghost ntotal = items_before(nb, nn as int);
    let nk = kanji.buckets.len();
    let mut bi3: usize = 0;
    while bi3 < nk
        invariant
            bi3 <= nk,
            nk == kanji.buckets.len(),
            kb == kanji.buckets@,
            buckets_nonempty(*kanji),
            out.len() == wtotal + ntotal + bi3,
            wtotal == items_before(wb, wb.len() as int),
            ntotal == items_before(nb, nb.len() as int),
            forall|b2: int, j: int|
                0 <= b2 < wb.len() && 0 <= j < wb[b2].items.len() ==> is_word_output(
                    #[trigger] out@[items_before(wb, b2) + j],
                    use_katakana,
                    use_move_terms,
                    wb[b2].writing@,
                    wb[b2].reading@,
                    wb[b2].items[j],
                    *pa,
                    *terms,
                    *natives,
                ),
            forall|b2: int, j: int|
                0 <= b2 < nb.len() && 0 <= j < nb[b2].items.len() ==> is_name_output(
                    #[trigger] out@[wtotal + items_before(nb, b2) + j],
                    use_katakana,
                    nb[b2].writing@,
                    nb[b2].items[j],
                ),
            forall|b2: int|
                0 <= b2 < bi3 ==> is_kanji_output(
                    #[trigger] out@[wtotal + ntotal + b2],
                    kb[b2].writing@,
                    kb[b2].items[0],
                ),
        decreases nk - bi3,
    {
        let b = &kanji.buckets[bi3];
        let o = synthesize_kanji_entry(b.writing.as_str(), &b.items[0]);
        let ghost pre_out = out@;
        out.push(o);
        proof {
            assert(out@ =~= pre_out.push(o));
            assert forall|b2: int, jj: int|
                0 <= b2 < wb.len() && 0 <= jj < wb[b2].items.len() implies is_word_output(
                #[trigger] out@[items_before(wb, b2) + jj],
                use_katakana,
                use_move_terms,
                wb[b2].writing@,
                wb[b2].reading@,
                wb[b2].items[jj],
                *pa,
                *terms,
                *natives,
            ) by {
                lemma_items_before_mono(wb, 0, b2);
                assert(items_before(wb, b2 + 1) == items_before(wb, b2) + wb[b2].items.len());
                lemma_items_before_mono(wb, b2 + 1, wb.len() as int);
                lemma_items_before_mono(nb, 0, nb.len() as int);
                assert(items_before(wb, b2) + jj < pre_out.len());
                assert(pre_out.push(o)[items_before(wb, b2) + jj] == pre_out[items_before(wb, b2) + jj]);
                    assert(out@[items_before(wb, b2) + jj] == pre_out[items_before(wb, b2) + jj]);
            }
            assert forall|b2: int, jj: int|
                0 <= b2 < nb.len() && 0 <= jj < nb[b2].items.len() implies is_name_output(
                #[trigger] out@[wtotal + items_before(nb, b2) + jj],
                use_katakana,
                nb[b2].writing@,
                nb[b2].items[jj],
            ) by {
                lemma_items_before_mono(wb, 0, wb.len() as int);
                lemma_items_before_mono(nb, 0, b2);
                assert(items_before(nb, b2 + 1) == items_before(nb, b2) + nb[b2].items.len());
                lemma_items_before_mono(nb, b2 + 1, nb.len() as int);
                assert(wtotal + items_before(nb, b2) + jj < pre_out.len());
                assert(pre_out.push(o)[wtotal + items_before(nb, b2) + jj] == pre_out[wtotal
                    + items_before(nb, b2) + jj]);
                assert(out@[wtotal + items_before(nb, b2) + jj] == pre_out[wtotal + items_before(
                    nb,
                    b2,
                ) + jj]);
            }
            assert forall|b2: int| 0 <= b2 < bi3 + 1 implies is_kanji_output(
                #[trigger] out@[wtotal + ntotal + b2],
                kb[b2].writing@,
                kb[b2].items[0],
            ) by {
                lemma_items_before_mono(wb, 0, wb.len() as int);
                lemma_items_before_mono(nb, 0, nb.len() as int);
                if b2 < bi3 {
                    assert(pre_out.push(o)[wtotal + ntotal + b2] == pre_out[wtotal + ntotal + b2]);
                    assert(out@[wtotal + ntotal + b2] == pre_out[wtotal + ntotal + b2]);
                } else {
                    assert(pre_out.push(o)[wtotal + ntotal + b2] == o);
                    assert(out@[wtotal + ntotal + b2] == o);
                }
            }
        }
        bi3 += 1;
    }
    let ghost pre = out@;
    proof {
        assert(assembled_from(
            pre,
            use_katakana,
            use_move_terms,
            *words,
            *pa,
            *terms,
            *names,
            *kanji,
            *natives,
        ));
        assert forall|i: int| 0 <= i < out@.len() implies (#[trigger] out@[i]).wf() by {
            lemma_assembled_wf(
                pre,
                use_katakana,
                use_move_terms,
                *words,
                *pa,
                *terms,
                *names,
                *kanji,
                *natives,
                i,
            );
        }
    }
    sort_entries(&mut out);
    out
}

/// Every assembled entry has at least one key.
proof fn lemma_assembled_wf(
    pre: Seq<OutputEntry>,
    use_katakana: bool,
    use_move_terms: bool,
    words: PairIndex<WordEntry>,
    pa: PairIndex<u32>,
    terms: PairIndex<TermEntry>,
    names: PairIndex<TermEntry>,
    kanji: PairIndex<KanjiEntry>,
    natives: PairIndex<NativeEntry>,
    i: int,
)
    requires
        buckets_nonempty(kanji),
        assembled_from(pre, use_katakana, use_move_terms, words, pa, terms, names, kanji, natives),
        0 <= i < pre.len(),
    ensures
        pre[i].wf(),
{
    let wb = words.buckets@;
    let nb = names.buckets@;
    let kb = kanji.buckets@;
    let wtotal = items_before(wb, wb.len() as int);
    let ntotal = items_before(nb, nb.len() as int);
    if i < wtotal {
        lemma_flat_position(wb, i);
        let bi = flat_bucket(wb, i);
        let j = i - items_before(wb, bi);
        assert(is_word_output(
            pre[items_before(wb, bi) + j],
            use_katakana,
            use_move_terms,
            wb[bi].writing@,
            wb[bi].reading@,
            wb[bi].items[j],
            pa,
            terms,
            natives,
        ));
    } else if i < wtotal + ntotal {
        lemma_flat_position(nb, i - wtotal);
        let bi = flat_bucket(nb, i - wtotal);
        let j = i - wtotal - items_before(nb, bi);
        assert(is_name_output(
            pre[wtotal + items_before(nb, bi) + j],
            use_katakana,
            nb[bi].writing@,
            nb[bi].items[j],
        ));
        assert(pre[i].keys.deep_view().len() == 1);
    } else {
        let bi = i - wtotal - ntotal;
        assert(is_kanji_output(pre[wtotal + ntotal + bi], kb[bi].writing@, kb[bi].items[0]));
        assert(pre[i].keys.deep_view().len() == 1);
    }
}

/// The bucket that holds flat position `i`.
pub open spec fn flat_bucket<T>(buckets: Seq<crate::index::Bucket<T>>, i: int) -> int {
    choose|bi: int|
        #![trigger items_before(buckets, bi)]
        0 <= bi < buckets.len() && items_before(buckets, bi) <= i < items_before(buckets, bi)
            + buckets[bi].items.len()
}

/// Every flat position below the total count falls inside some bucket.
proof fn lemma_flat_position<T>(buckets: Seq<crate::index::Bucket<T>>, i: int)
    requires
        0 <= i < items_before(buckets, buckets.len() as int),
    ensures
        ({
            let bi = flat_bucket(buckets, i);
            0 <= bi < buckets.len() && items_before(buckets, bi) <= i < items_before(buckets, bi)
                + buckets[bi].items.len()
        }),
{
    lemma_flat_position_exists(buckets, buckets.len() as int, i);
}

/// Helper for [`lemma_flat_position`]: searches the bucket prefix.
proof fn lemma_flat_position_exists<T>(buckets: Seq<crate::index::Bucket<T>>, n: int, i: int)
    requires
        0 <= n <= buckets.len(),
        0 <= i < items_before(buckets, n),
    ensures
        exists|bi: int|
            #![trigger items_before(buckets, bi)]
            0 <= bi < n && items_before(buckets, bi) <= i && i < items_before(buckets, bi)
                + buckets[bi].items.len(),
    decreases n,
{
    if i >= items_before(buckets, n - 1) {
        assert(items_before(buckets, n - 1) <= i < items_before(buckets, n - 1) + buckets[n
            - 1].items.len());
    } else {
        lemma_flat_position_exists(buckets, n - 1, i);
    }
}

} // verus!
