//! The multi-source index: one mapping per source type from a derived
//! (writing, reading) key — or the bare character for kanji — to the list
//! of matching records, in source order. Buckets keep first-insertion
//! order, so every later pass over the index is deterministic. A miss
//! yields an empty list, never an absent one.

use vstd::prelude::*;

use crate::kana::{h2k, hiragana_to_katakana, kana_only, strip_non_kana};
use crate::records::{KanjiEntry, NativeEntry, PitchAccentEntry, TermEntry, WordEntry};
use crate::text::{str_eq, str_trim, trimmed};

verus! {

/// One bucket of a pair-keyed index: the records filed under one
/// (writing, reading) key, in insertion order.
pub struct Bucket<T> {
    pub writing: String,
    pub reading: String,
    pub items: Vec<T>,
}

/// A pair-keyed index with buckets in first-insertion order.
pub struct PairIndex<T> {
    pub buckets: Vec<Bucket<T>>,
}

impl<T> PairIndex<T> {
    /// The key of bucket `i`.
    pub open spec fn key_at(self, i: int) -> (Seq<char>, Seq<char>) {
        (self.buckets[i].writing@, self.buckets[i].reading@)
    }

    /// Keys are unique across buckets.
    pub open spec fn wf(self) -> bool {
        forall|i: int, j: int|
            0 <= i < j < self.buckets.len() ==> self.key_at(i) != self.key_at(j)
    }

    /// The bucket keys, in insertion order.
    pub open spec fn keys(self) -> Seq<(Seq<char>, Seq<char>)> {
        Seq::new(self.buckets.len() as nat, |i: int| self.key_at(i))
    }

    /// A key is present.
    pub open spec fn has_key(self, w: Seq<char>, r: Seq<char>) -> bool {
        exists|i: int| 0 <= i < self.buckets.len() && self.key_at(i) == (w, r)
    }

    /// The bucket position of a present key.
    pub open spec fn key_index(self, w: Seq<char>, r: Seq<char>) -> int {
        choose|i: int| 0 <= i < self.buckets.len() && self.key_at(i) == (w, r)
    }

    /// The records under a key; empty when the key is absent.
    pub open spec fn spec_get(self, w: Seq<char>, r: Seq<char>) -> Seq<T> {
        if self.has_key(w, r) {
            self.buckets[self.key_index(w, r)].items@
        } else {
            Seq::empty()
        }
    }

    /// An empty index.
    pub fn new() -> (res: Self)
        ensures
            res.wf(),
            res.buckets.len() == 0,
            forall|w: Seq<char>, r: Seq<char>| res.spec_get(w, r) == Seq::<T>::empty(),
            res.keys() =~= Seq::<(Seq<char>, Seq<char>)>::empty(),
    {
        PairIndex { buckets: Vec::new() }
    }

    /// The bucket position holding the key, if any.
    fn find(&self, w: &str, r: &str) -> (res: Option<usize>)
        ensures
            match res {
                Some(i) => i < self.buckets.len() && self.key_at(i as int) == (w@, r@),
                None => !self.has_key(w@, r@),
            },
    {
        let n = self.buckets.len();
        let mut i: usize = 0;
        while i < n
            invariant
                i <= n,
                n == self.buckets.len(),
                forall|j: int| 0 <= j < i ==> self.key_at(j) != (w@, r@),
            decreases n - i,
        {
            if str_eq(self.buckets[i].writing.as_str(), w) && str_eq(
                self.buckets[i].reading.as_str(),
                r,
            ) {
                return Some(i);
            }
            i += 1;
        }
        None
    }

    /// Looks a key up; `None` stands for the empty record list.
    pub fn get<'a>(&'a self, w: &str, r: &str) -> (res: Option<&'a Vec<T>>)
        requires
            self.wf(),
        ensures
            match res {
                Some(v) => v@ == self.spec_get(w@, r@),
                None => self.spec_get(w@, r@) == Seq::<T>::empty(),
            },
    {
        match self.find(w, r) {
            Some(i) => {
                proof {
                    assert(self.has_key(w@, r@));
                    let ki = self.key_index(w@, r@);
                    assert(self.key_at(ki) == (w@, r@));
                    assert(ki == i as int);
                }
                Some(&self.buckets[i].items)
            },
            None => None,
        }
    }

    /// Files one record under a key: appended to the key's bucket, or
    /// opening a new bucket at the end.
    pub fn push_item(&mut self, w: String, r: String, item: T)
        requires
            old(self).wf(),
        ensures
            final(self).wf(),
            final(self).spec_get(w@, r@) == old(self).spec_get(w@, r@).push(item),
            forall|w2: Seq<char>, r2: Seq<char>|
                (w2, r2) != (w@, r@) ==> final(self).spec_get(w2, r2) == old(self).spec_get(
                    w2,
                    r2,
                ),
            final(self).keys() == if old(self).has_key(w@, r@) {
                old(self).keys()
            } else {
                old(self).keys().push((w@, r@))
            },
    {
        let found = self.find(w.as_str(), r.as_str());
        match found {
            Some(i) => {
                proof {
                    assert(old(self).has_key(w@, r@));
                    assert(old(self).key_index(w@, r@) == i as int);
                }
                let mut b = self.buckets.remove(i);
                b.items.push(item);
                self.buckets.insert(i, b);
                proof {
                    let pre = old(self).buckets@;
                    let post = self.buckets@;
                    assert(post.len() == pre.len());
                    assert forall|j: int| 0 <= j < post.len() && j != i implies post[j]
                        == pre[j] by {
                        assert(pre.remove(i as int).insert(i as int, post[i as int])[j] == pre[j]);
                    }
                    assert(post[i as int].writing == pre[i as int].writing);
                    assert(post[i as int].reading == pre[i as int].reading);
                    assert(post[i as int].items@ == pre[i as int].items@.push(item));
                    assert forall|j: int| 0 <= j < post.len() implies self.key_at(j) == old(
                        self,
                    ).key_at(j) by {}
                    assert(final(self).keys() =~= old(self).keys());
                    lemma_get_after_update(*old(self), *self, i as int, w@, r@, item);
                }
            },
            None => {
                self.buckets.push(Bucket { writing: w, reading: r, items: vec![item] });
                proof {
                    let pre = old(self).buckets@;
                    let post = self.buckets@;
                    assert(post.len() == pre.len() + 1);
                    assert forall|j: int| 0 <= j < pre.len() implies post[j] == pre[j] by {}
                    assert(self.key_at(pre.len() as int) == (w@, r@));
                    assert(post[pre.len() as int].items@ =~= seq![item]);
                    assert(final(self).keys() =~= old(self).keys().push((w@, r@)));
                    lemma_get_after_append(*old(self), *self, w@, r@, item);
                }
            },
        }
    }
}

impl<T> PairIndex<T> {
    /// Files one record under a key, replacing whatever the key held: the
    /// bucket's records become exactly the given list.
    pub fn put_items(&mut self, w: String, r: String, items: Vec<T>)
        requires
            old(self).wf(),
        ensures
            final(self).wf(),
            final(self).spec_get(w@, r@) == items@,
            forall|w2: Seq<char>, r2: Seq<char>|
                (w2, r2) != (w@, r@) ==> final(self).spec_get(w2, r2) == old(self).spec_get(
                    w2,
                    r2,
                ),
            final(self).keys() == if old(self).has_key(w@, r@) {
                old(self).keys()
            } else {
                old(self).keys().push((w@, r@))
            },
    {
        let found = self.find(w.as_str(), r.as_str());
        match found {
            Some(i) => {
                proof {
                    assert(old(self).has_key(w@, r@));
                    assert(old(self).key_index(w@, r@) == i as int);
                }
                let mut b = self.buckets.remove(i);
                b.items = items;
                self.buckets.insert(i, b);
                proof {
                    let pre = old(self).buckets@;
                    let post = self.buckets@;
                    assert(post.len() == pre.len());
                    assert forall|j: int| 0 <= j < post.len() && j != i implies post[j]
                        == pre[j] by {
                        assert(pre.remove(i as int).insert(i as int, post[i as int])[j] == pre[j]);
                    }
                    assert(post[i as int].writing == pre[i as int].writing);
                    assert(post[i as int].reading == pre[i as int].reading);
                    assert forall|j: int| 0 <= j < post.len() implies self.key_at(j) == old(
                        self,
                    ).key_at(j) by {}
                    assert(final(self).keys() =~= old(self).keys());
                    lemma_get_after_replace(*old(self), *self, i as int, w@, r@);
                }
            },
            None => {
                self.buckets.push(Bucket { writing: w, reading: r, items });
                proof {
                    let pre = old(self).buckets@;
                    let post = self.buckets@;
                    assert(post.len() == pre.len() + 1);
                    assert forall|j: int| 0 <= j < pre.len() implies post[j] == pre[j] by {}
                    assert(self.key_at(pre.len() as int) == (w@, r@));
                    assert(final(self).keys() =~= old(self).keys().push((w@, r@)));
                    lemma_get_after_replace_append(*old(self), *self, w@, r@);
                }
            },
        }
    }
}

/// After replacing the records at a present key, every other key's records
/// are unchanged.
proof fn lemma_get_after_replace<T>(
    pre: PairIndex<T>,
    post: PairIndex<T>,
    i: int,
    w: Seq<char>,
    r: Seq<char>,
)
    requires
        pre.wf(),
        0 <= i < pre.buckets.len(),
        pre.key_at(i) == (w, r),
        post.buckets.len() == pre.buckets.len(),
        forall|j: int| 0 <= j < post.buckets.len() ==> post.key_at(j) == pre.key_at(j),
        forall|j: int|
            0 <= j < post.buckets.len() && j != i ==> post.buckets[j].items@
                == pre.buckets[j].items@,
    ensures
        post.wf(),
        post.spec_get(w, r) == post.buckets[i].items@,
        forall|w2: Seq<char>, r2: Seq<char>|
            (w2, r2) != (w, r) ==> post.spec_get(w2, r2) == pre.spec_get(w2, r2),
{
    assert(post.has_key(w, r));
    assert(post.key_index(w, r) == i);
    assert forall|w2: Seq<char>, r2: Seq<char>| (w2, r2) != (w, r) implies post.spec_get(w2, r2)
        == pre.spec_get(w2, r2) by {
        if pre.has_key(w2, r2) {
            let j = pre.key_index(w2, r2);
            assert(post.key_at(j) == (w2, r2));
            assert(post.has_key(w2, r2));
            assert(post.key_index(w2, r2) == j);
            assert(j != i);
        } else {
            if post.has_key(w2, r2) {
                let j = post.key_index(w2, r2);
                assert(pre.key_at(j) == (w2, r2));
            }
        }
    }
}

/// After opening a new bucket at an absent key, every other key's records
/// are unchanged.
proof fn lemma_get_after_replace_append<T>(
    pre: PairIndex<T>,
    post: PairIndex<T>,
    w: Seq<char>,
    r: Seq<char>,
)
    requires
        pre.wf(),
        !pre.has_key(w, r),
        post.buckets.len() == pre.buckets.len() + 1,
        forall|j: int| 0 <= j < pre.buckets.len() ==> post.buckets[j] == pre.buckets[j],
        post.key_at(pre.buckets.len() as int) == (w, r),
    ensures
        post.wf(),
        post.spec_get(w, r) == post.buckets[pre.buckets.len() as int].items@,
        forall|w2: Seq<char>, r2: Seq<char>|
            (w2, r2) != (w, r) ==> post.spec_get(w2, r2) == pre.spec_get(w2, r2),
{
    let n = pre.buckets.len() as int;
    assert forall|a: int, b: int| 0 <= a < b < post.buckets.len() implies post.key_at(a)
        != post.key_at(b) by {
        if b < n {
            assert(pre.key_at(a) != pre.key_at(b));
        } else {
            assert(post.key_at(b) == (w, r));
            assert(post.key_at(a) == pre.key_at(a));
        }
    }
    assert(post.has_key(w, r));
    assert(post.key_index(w, r) == n);
    assert forall|w2: Seq<char>, r2: Seq<char>| (w2, r2) != (w, r) implies post.spec_get(w2, r2)
        == pre.spec_get(w2, r2) by {
        if pre.has_key(w2, r2) {
            let j = pre.key_index(w2, r2);
            assert(post.key_at(j) == (w2, r2));
            assert(post.has_key(w2, r2));
            assert(post.key_index(w2, r2) == j);
        } else {
            if post.has_key(w2, r2) {
                let j = post.key_index(w2, r2);
                assert(j != n);
                assert(pre.key_at(j) == (w2, r2));
            }
        }
    }
}

/// After appending to the bucket at a present key, that key's records grow
/// by the item and every other key's records are unchanged.
proof fn lemma_get_after_update<T>(
    pre: PairIndex<T>,
    post: PairIndex<T>,
    i: int,
    w: Seq<char>,
    r: Seq<char>,
    item: T,
)
    requires
        pre.wf(),
        0 <= i < pre.buckets.len(),
        pre.key_at(i) == (w, r),
        post.buckets.len() == pre.buckets.len(),
        forall|j: int| 0 <= j < post.buckets.len() ==> post.key_at(j) == pre.key_at(j),
        forall|j: int|
            0 <= j < post.buckets.len() && j != i ==> post.buckets[j].items@
                == pre.buckets[j].items@,
        post.buckets[i].items@ == pre.buckets[i].items@.push(item),
    ensures
        post.wf(),
        post.spec_get(w, r) == pre.spec_get(w, r).push(item),
        forall|w2: Seq<char>, r2: Seq<char>|
            (w2, r2) != (w, r) ==> post.spec_get(w2, r2) == pre.spec_get(w2, r2),
{
    assert(post.has_key(w, r));
    assert(pre.has_key(w, r));
    assert(post.key_index(w, r) == i);
    assert(pre.key_index(w, r) == i);
    assert forall|w2: Seq<char>, r2: Seq<char>| (w2, r2) != (w, r) implies post.spec_get(w2, r2)
        == pre.spec_get(w2, r2) by {
        if pre.has_key(w2, r2) {
            let j = pre.key_index(w2, r2);
            assert(post.key_at(j) == (w2, r2));
            assert(post.has_key(w2, r2));
            assert(post.key_index(w2, r2) == j);
            assert(j != i);
        } else {
            if post.has_key(w2, r2) {
                let j = post.key_index(w2, r2);
                assert(pre.key_at(j) == (w2, r2));
            }
        }
    }
}

/// After opening a new bucket of one item at an absent key, that key's
/// records are the one item and every other key's records are unchanged.
proof fn lemma_get_after_append<T>(
    pre: PairIndex<T>,
    post: PairIndex<T>,
    w: Seq<char>,
    r: Seq<char>,
    item: T,
)
    requires
        pre.wf(),
        !pre.has_key(w, r),
        post.buckets.len() == pre.buckets.len() + 1,
        forall|j: int| 0 <= j < pre.buckets.len() ==> post.buckets[j] == pre.buckets[j],
        post.key_at(pre.buckets.len() as int) == (w, r),
        post.buckets[pre.buckets.len() as int].items@ == seq![item],
    ensures
        post.wf(),
        post.spec_get(w, r) == pre.spec_get(w, r).push(item),
        forall|w2: Seq<char>, r2: Seq<char>|
            (w2, r2) != (w, r) ==> post.spec_get(w2, r2) == pre.spec_get(w2, r2),
{
    let n = pre.buckets.len() as int;
    assert forall|a: int, b: int| 0 <= a < b < post.buckets.len() implies post.key_at(a)
        != post.key_at(b) by {
        if b < n {
            assert(pre.key_at(a) != pre.key_at(b));
        } else {
            assert(post.key_at(b) == (w, r));
            assert(post.key_at(a) == pre.key_at(a));
        }
    }
    assert(post.has_key(w, r));
    assert(post.key_index(w, r) == n);
    assert(pre.spec_get(w, r) == Seq::<T>::empty());
    assert(post.spec_get(w, r) =~= pre.spec_get(w, r).push(item));
    assert forall|w2: Seq<char>, r2: Seq<char>| (w2, r2) != (w, r) implies post.spec_get(w2, r2)
        == pre.spec_get(w2, r2) by {
        if pre.has_key(w2, r2) {
            let j = pre.key_index(w2, r2);
            assert(post.key_at(j) == (w2, r2));
            assert(post.has_key(w2, r2));
            assert(post.key_index(w2, r2) == j);
        } else {
            if post.has_key(w2, r2) {
                let j = post.key_index(w2, r2);
                assert(j != n);
                assert(pre.key_at(j) == (w2, r2));
            }
        }
    }
}

/// The index key of a primary word entry: its first writing (or, with no
/// writings, the trimmed first reading), paired with the first reading
/// trimmed, converted to katakana and stripped to phonetic characters.
pub open spec fn word_key(e: WordEntry) -> (Seq<char>, Seq<char>) {
    (
        if e.writings.len() > 0 {
            e.writings.deep_view()[0]
        } else {
            trimmed(e.readings.deep_view()[0])
        },
        kana_only(h2k(trimmed(e.readings.deep_view()[0]))),
    )
}

/// Derives the index key of a primary word entry.
pub fn derive_word_key(e: &WordEntry) -> (res: (String, String))
    requires
        e.wf(),
    ensures
        (res.0@, res.1@) == word_key(*e),
{
    let trimmed_reading = str_trim(e.readings[0].as_str());
    let converted = hiragana_to_katakana(trimmed_reading);
    let reading = strip_non_kana(converted.as_str());
    let writing = if e.writings.len() > 0 {
        e.writings[0].clone()
    } else {
        trimmed_reading.to_owned()
    };
    (writing, reading)
}

/// The index key of an auxiliary term or name entry: the trimmed writing
/// (or, when blank, the trimmed reading), paired with the normalized
/// reading.
pub open spec fn term_key(t: TermEntry) -> (Seq<char>, Seq<char>) {
    (
        if trimmed(t.writing@).len() == 0 {
            trimmed(t.reading@)
        } else {
            trimmed(t.writing@)
        },
        kana_only(h2k(trimmed(t.reading@))),
    )
}

/// Derives the index key of an auxiliary term or name entry.
pub fn derive_term_key(t: &TermEntry) -> (res: (String, String))
    ensures
        (res.0@, res.1@) == term_key(*t),
{
    let trimmed_reading = str_trim(t.reading.as_str());
    let converted = hiragana_to_katakana(trimmed_reading);
    let reading = strip_non_kana(converted.as_str());
    let trimmed_writing = str_trim(t.writing.as_str());
    let writing = if trimmed_writing.is_empty() {
        trimmed_reading.to_owned()
    } else {
        trimmed_writing.to_owned()
    };
    (writing, reading)
}

/// The index key of a pitch-accent line: the writing field, paired with
/// the katakana form of the writing itself when it is all-phonetic and the
/// reading field is blank, else of the reading field.
pub open spec fn pitch_key(p: PitchAccentEntry) -> (Seq<char>, Seq<char>) {
    if crate::kana::all_kana(p.writing@) && p.reading@.len() == 0 {
        (p.writing@, h2k(p.writing@))
    } else {
        (p.writing@, h2k(p.reading@))
    }
}

/// Derives the index key of a pitch-accent line.
pub fn derive_pitch_key(p: &PitchAccentEntry) -> (res: (String, String))
    ensures
        (res.0@, res.1@) == pitch_key(*p),
{
    if crate::kana::is_all_kana(p.writing.as_str()) && p.reading.as_str().unicode_len() == 0 {
        (p.writing.clone(), hiragana_to_katakana(p.writing.as_str()))
    } else {
        (p.writing.clone(), hiragana_to_katakana(p.reading.as_str()))
    }
}

/// The word entries filed under one key, in source order.
pub open spec fn fold_get_word(items: Seq<WordEntry>, w: Seq<char>, r: Seq<char>) -> Seq<WordEntry>
    decreases items.len(),
{
    if items.len() == 0 {
        Seq::empty()
    } else {
        fold_get_word(items.drop_last(), w, r) + (if word_key(items.last()) == (w, r) {
            seq![items.last()]
        } else {
            Seq::empty()
        })
    }
}

/// The word-entry keys, in first-appearance order.
pub open spec fn fold_keys_word(items: Seq<WordEntry>) -> Seq<(Seq<char>, Seq<char>)>
    decreases items.len(),
{
    if items.len() == 0 {
        Seq::empty()
    } else {
        let ks = fold_keys_word(items.drop_last());
        if ks.contains(word_key(items.last())) {
            ks
        } else {
            ks.push(word_key(items.last()))
        }
    }
}

/// A key is present exactly when some bucket carries it.
proof fn lemma_has_key_iff_keys_contains<T>(idx: PairIndex<T>, w: Seq<char>, r: Seq<char>)
    ensures
        idx.has_key(w, r) <==> idx.keys().contains((w, r)),
{
    if idx.has_key(w, r) {
        let i = choose|i: int| 0 <= i < idx.buckets.len() && idx.key_at(i) == (w, r);
        assert(idx.keys()[i] == (w, r));
    }
    if idx.keys().contains((w, r)) {
        let i = choose|i: int| 0 <= i < idx.keys().len() && idx.keys()[i] == (w, r);
        assert(idx.key_at(i) == (w, r));
    }
}

/// Builds the primary word index: each entry filed under its derived key,
/// buckets in first-insertion order, entries within a bucket in source
/// order.
pub fn build_word_index(entries: Vec<WordEntry>) -> (res: PairIndex<WordEntry>)
    requires
        forall|i: int| 0 <= i < entries.len() ==> (#[trigger] entries[i]).wf(),
    ensures
        res.wf(),
        forall|w: Seq<char>, r: Seq<char>|
            #[trigger] res.spec_get(w, r) == fold_get_word(entries@, w, r),
        res.keys() == fold_keys_word(entries@),
{
    let ghost all = entries@;
    let mut entries = entries;
    let n_total = entries.len();
    let ghost n = n_total as int;
    let mut idx = PairIndex::<WordEntry>::new();
    let mut i: usize = 0;
    proof {
        assert forall|w: Seq<char>, r: Seq<char>|
            #[trigger] idx.spec_get(w, r) == fold_get_word(all.take(0), w, r) by {
            assert(fold_get_word(all.take(0), w, r) == Seq::<WordEntry>::empty());
        }
        assert(idx.keys() =~= fold_keys_word(all.take(0)));
    }
    while entries.len() > 0
        invariant
            i <= n,
            n <= usize::MAX,
            entries@ =~= all.skip(i as int),
            n == all.len(),
            forall|j: int| 0 <= j < all.len() ==> (#[trigger] all[j]).wf(),
            idx.wf(),
            forall|w: Seq<char>, r: Seq<char>|
                #[trigger] idx.spec_get(w, r) == fold_get_word(all.take(i as int), w, r),
            idx.keys() == fold_keys_word(all.take(i as int)),
        decreases n - i,
    {
        let e = entries.remove(0);
        proof {
            assert(e == all[i as int]);
            assert(entries@ =~= all.skip(i + 1));
        }
        let key = derive_word_key(&e);
        let ghost k = word_key(e);
        proof {
            lemma_has_key_iff_keys_contains(idx, k.0, k.1);
        }
        let ghost pre = idx;
        idx.push_item(key.0, key.1, e);
        proof {
            let t = all.take(i + 1);
            assert(t.drop_last() =~= all.take(i as int));
            assert(t.last() == all[i as int]);
            assert forall|w: Seq<char>, r: Seq<char>|
                #[trigger] idx.spec_get(w, r) == fold_get_word(t, w, r) by {
                if (w, r) == k {
                    assert(fold_get_word(t, w, r) == fold_get_word(all.take(i as int), w, r)
                        + seq![e]);
                    assert(pre.spec_get(w, r).push(e) =~= pre.spec_get(w, r) + seq![e]);
                } else {
                    assert(fold_get_word(t, w, r) =~= fold_get_word(all.take(i as int), w, r)
                        + Seq::<WordEntry>::empty());
                }
            }
            assert(idx.keys() == fold_keys_word(t));
        }
        i += 1;
    }
    proof {
        assert(all.take(n as int) =~= all);
    }
    idx
}

/// The term or name entries filed under one key, in source order.
pub open spec fn fold_get_term(items: Seq<TermEntry>, w: Seq<char>, r: Seq<char>) -> Seq<TermEntry>
    decreases items.len(),
{
    if items.len() == 0 {
        Seq::empty()
    } else {
        fold_get_term(items.drop_last(), w, r) + (if term_key(items.last()) == (w, r) {
            seq![items.last()]
        } else {
            Seq::empty()
        })
    }
}

/// The term or name keys, in first-appearance order.
pub open spec fn fold_keys_term(items: Seq<TermEntry>) -> Seq<(Seq<char>, Seq<char>)>
    decreases items.len(),
{
    if items.len() == 0 {
        Seq::empty()
    } else {
        let ks = fold_keys_term(items.drop_last());
        if ks.contains(term_key(items.last())) {
            ks
        } else {
            ks.push(term_key(items.last()))
        }
    }
}

/// Builds an auxiliary term or name index: each entry filed under its
/// derived key, buckets in first-insertion order.
pub fn build_term_index(entries: Vec<TermEntry>) -> (res: PairIndex<TermEntry>)
    ensures
        res.wf(),
        forall|w: Seq<char>, r: Seq<char>|
            #[trigger] res.spec_get(w, r) == fold_get_term(entries@, w, r),
        res.keys() == fold_keys_term(entries@),
{
    let ghost all = entries@;
    let mut entries = entries;
    let n_total = entries.len();
    let ghost n = n_total as int;
    let mut idx = PairIndex::<TermEntry>::new();
    let mut i: usize = 0;
    proof {
        assert forall|w: Seq<char>, r: Seq<char>|
            #[trigger] idx.spec_get(w, r) == fold_get_term(all.take(0), w, r) by {
            assert(fold_get_term(all.take(0), w, r) == Seq::<TermEntry>::empty());
        }
        assert(idx.keys() =~= fold_keys_term(all.take(0)));
    }
    while entries.len() > 0
        invariant
            i <= n,
            n <= usize::MAX,
            entries@ =~= all.skip(i as int),
            n == all.len(),
            idx.wf(),
            forall|w: Seq<char>, r: Seq<char>|
                #[trigger] idx.spec_get(w, r) == fold_get_term(all.take(i as int), w, r),
            idx.keys() == fold_keys_term(all.take(i as int)),
        decreases n - i,
    {
        let e = entries.remove(0);
        proof {
            assert(e == all[i as int]);
            assert(entries@ =~= all.skip(i + 1));
        }
        let key = derive_term_key(&e);
        let ghost k = term_key(e);
        proof {
            lemma_has_key_iff_keys_contains(idx, k.0, k.1);
        }
        let ghost pre = idx;
        idx.push_item(key.0, key.1, e);
        proof {
            let t = all.take(i + 1);
            assert(t.drop_last() =~= all.take(i as int));
            assert(t.last() == all[i as int]);
            assert forall|w: Seq<char>, r: Seq<char>|
                #[trigger] idx.spec_get(w, r) == fold_get_term(t, w, r) by {
                if (w, r) == k {
                    assert(fold_get_term(t, w, r) == fold_get_term(all.take(i as int), w, r)
                        + seq![e]);
                    assert(pre.spec_get(w, r).push(e) =~= pre.spec_get(w, r) + seq![e]);
                } else {
                    assert(fold_get_term(t, w, r) =~= fold_get_term(all.take(i as int), w, r)
                        + Seq::<TermEntry>::empty());
                }
            }
            assert(idx.keys() == fold_keys_term(t));
        }
        i += 1;
    }
    proof {
        assert(all.take(n as int) =~= all);
    }
    idx
}

/// The accent list the last matching pitch line left under one key; empty
/// when no line matches (later lines replace earlier ones).
pub open spec fn fold_get_pitch(items: Seq<PitchAccentEntry>, w: Seq<char>, r: Seq<char>) -> Seq<
    u32,
>
    decreases items.len(),
{
    if items.len() == 0 {
        Seq::empty()
    } else if pitch_key(items.last()) == (w, r) {
        items.last().accents@
    } else {
        fold_get_pitch(items.drop_last(), w, r)
    }
}

/// The pitch keys, in first-appearance order.
pub open spec fn fold_keys_pitch(items: Seq<PitchAccentEntry>) -> Seq<(Seq<char>, Seq<char>)>
    decreases items.len(),
{
    if items.len() == 0 {
        Seq::empty()
    } else {
        let ks = fold_keys_pitch(items.drop_last());
        if ks.contains(pitch_key(items.last())) {
            ks
        } else {
            ks.push(pitch_key(items.last()))
        }
    }
}

/// Builds the pitch-accent index: each line's accents filed under its
/// derived key, a later line replacing an earlier one with the same key.
pub fn build_pitch_index(entries: Vec<PitchAccentEntry>) -> (res: PairIndex<u32>)
    ensures
        res.wf(),
        forall|w: Seq<char>, r: Seq<char>|
            #[trigger] res.spec_get(w, r) == fold_get_pitch(entries@, w, r),
        res.keys() == fold_keys_pitch(entries@),
{
    let ghost all = entries@;
    let mut entries = entries;
    let n_total = entries.len();
    let ghost n = n_total as int;
    let mut idx = PairIndex::<u32>::new();
    let mut i: usize = 0;
    proof {
        assert forall|w: Seq<char>, r: Seq<char>|
            #[trigger] idx.spec_get(w, r) == fold_get_pitch(all.take(0), w, r) by {
            assert(fold_get_pitch(all.take(0), w, r) == Seq::<u32>::empty());
        }
        assert(idx.keys() =~= fold_keys_pitch(all.take(0)));
    }
    while entries.len() > 0
        invariant
            i <= n,
            n <= usize::MAX,
            entries@ =~= all.skip(i as int),
            n == all.len(),
            idx.wf(),
            forall|w: Seq<char>, r: Seq<char>|
                #[trigger] idx.spec_get(w, r) == fold_get_pitch(all.take(i as int), w, r),
            idx.keys() == fold_keys_pitch(all.take(i as int)),
        decreases n - i,
    {
        let e = entries.remove(0);
        proof {
            assert(e == all[i as int]);
            assert(entries@ =~= all.skip(i + 1));
        }
        let key = derive_pitch_key(&e);
        let ghost k = pitch_key(e);
        proof {
            lemma_has_key_iff_keys_contains(idx, k.0, k.1);
        }
        let ghost pre = idx;
        let accents = e.accents;
        idx.put_items(key.0, key.1, accents);
        proof {
            let t = all.take(i + 1);
            assert(t.drop_last() =~= all.take(i as int));
            assert(t.last() == all[i as int]);
            assert forall|w: Seq<char>, r: Seq<char>|
                #[trigger] idx.spec_get(w, r) == fold_get_pitch(t, w, r) by {
                if (w, r) == k {
                    assert(fold_get_pitch(t, w, r) == all[i as int].accents@);
                } else {
                    assert(fold_get_pitch(t, w, r) == fold_get_pitch(all.take(i as int), w, r));
                }
            }
            assert(idx.keys() == fold_keys_pitch(t));
        }
        i += 1;
    }
    proof {
        assert(all.take(n as int) =~= all);
    }
    idx
}

/// The index key of a native-language entry: its key and kana fields as
/// given (the external parser already normalized them).
pub open spec fn native_key(t: NativeEntry) -> (Seq<char>, Seq<char>) {
    (t.key@, t.kana@)
}

/// The native entries filed under one key, in source order.
pub open spec fn fold_get_native(items: Seq<NativeEntry>, w: Seq<char>, r: Seq<char>) -> Seq<
    NativeEntry,
>
    decreases items.len(),
{
    if items.len() == 0 {
        Seq::empty()
    } else {
        fold_get_native(items.drop_last(), w, r) + (if native_key(items.last()) == (w, r) {
            seq![items.last()]
        } else {
            Seq::empty()
        })
    }
}

/// The native-entry keys, in first-appearance order.
pub open spec fn fold_keys_native(items: Seq<NativeEntry>) -> Seq<(Seq<char>, Seq<char>)>
    decreases items.len(),
{
    if items.len() == 0 {
        Seq::empty()
    } else {
        let ks = fold_keys_native(items.drop_last());
        if ks.contains(native_key(items.last())) {
            ks
        } else {
            ks.push(native_key(items.last()))
        }
    }
}

/// Builds the native-language dictionary index.
pub fn build_native_index(entries: Vec<NativeEntry>) -> (res: PairIndex<NativeEntry>)
    ensures
        res.wf(),
        forall|w: Seq<char>, r: Seq<char>|
            #[trigger] res.spec_get(w, r) == fold_get_native(entries@, w, r),
        res.keys() == fold_keys_native(entries@),
{
    let ghost all = entries@;
    let mut entries = entries;
    let n_total = entries.len();
    let ghost n = n_total as int;
    let mut idx = PairIndex::<NativeEntry>::new();
    let mut i: usize = 0;
    proof {
        assert forall|w: Seq<char>, r: Seq<char>|
            #[trigger] idx.spec_get(w, r) == fold_get_native(all.take(0), w, r) by {
            assert(fold_get_native(all.take(0), w, r) == Seq::<NativeEntry>::empty());
        }
        assert(idx.keys() =~= fold_keys_native(all.take(0)));
    }
    while entries.len() > 0
        invariant
            i <= n,
            n <= usize::MAX,
            entries@ =~= all.skip(i as int),
            n == all.len(),
            idx.wf(),
            forall|w: Seq<char>, r: Seq<char>|
                #[trigger] idx.spec_get(w, r) == fold_get_native(all.take(i as int), w, r),
            idx.keys() == fold_keys_native(all.take(i as int)),
        decreases n - i,
    {
        let e = entries.remove(0);
        proof {
            assert(e == all[i as int]);
            assert(entries@ =~= all.skip(i + 1));
        }
        let w = e.key.clone();
        let r = e.kana.clone();
        let ghost k = native_key(e);
        proof {
            lemma_has_key_iff_keys_contains(idx, k.0, k.1);
        }
        let ghost pre = idx;
        idx.push_item(w, r, e);
        proof {
            let t = all.take(i + 1);
            assert(t.drop_last() =~= all.take(i as int));
            assert(t.last() == all[i as int]);
            assert forall|w2: Seq<char>, r2: Seq<char>|
                #[trigger] idx.spec_get(w2, r2) == fold_get_native(t, w2, r2) by {
                if (w2, r2) == k {
                    assert(fold_get_native(t, w2, r2) == fold_get_native(all.take(i as int), w2, r2)
                        + seq![all[i as int]]);
                    assert(pre.spec_get(w2, r2).push(all[i as int]) =~= pre.spec_get(w2, r2)
                        + seq![all[i as int]]);
                } else {
                    assert(fold_get_native(t, w2, r2) =~= fold_get_native(
                        all.take(i as int),
                        w2,
                        r2,
                    ) + Seq::<NativeEntry>::empty());
                }
            }
            assert(idx.keys() == fold_keys_native(t));
        }
        i += 1;
    }
    proof {
        assert(all.take(n as int) =~= all);
    }
    idx
}

/// The index key of a kanji entry: the character alone; the reading slot
/// of the pair index stays empty.
pub open spec fn kanji_key(t: KanjiEntry) -> (Seq<char>, Seq<char>) {
    (t.kanji@, Seq::empty())
}

/// The kanji entries filed under one character, in source order.
pub open spec fn fold_get_kanji(items: Seq<KanjiEntry>, w: Seq<char>) -> Seq<KanjiEntry>
    decreases items.len(),
{
    if items.len() == 0 {
        Seq::empty()
    } else {
        fold_get_kanji(items.drop_last(), w) + (if items.last().kanji@ == w {
            seq![items.last()]
        } else {
            Seq::empty()
        })
    }
}

/// The kanji keys, in first-appearance order.
pub open spec fn fold_keys_kanji(items: Seq<KanjiEntry>) -> Seq<(Seq<char>, Seq<char>)>
    decreases items.len(),
{
    if items.len() == 0 {
        Seq::empty()
    } else {
        let ks = fold_keys_kanji(items.drop_last());
        if ks.contains(kanji_key(items.last())) {
            ks
        } else {
            ks.push(kanji_key(items.last()))
        }
    }
}

/// Builds the kanji index, keyed by the bare character.
pub fn build_kanji_index(entries: Vec<KanjiEntry>) -> (res: PairIndex<KanjiEntry>)
    ensures
        res.wf(),
        forall|w: Seq<char>|
            #[trigger] res.spec_get(w, Seq::empty()) == fold_get_kanji(entries@, w),
        forall|w: Seq<char>, r: Seq<char>|
            r.len() > 0 ==> #[trigger] res.spec_get(w, r) == Seq::<KanjiEntry>::empty(),
        res.keys() == fold_keys_kanji(entries@),
{
    let ghost all = entries@;
    let mut entries = entries;
    let n_total = entries.len();
    let ghost n = n_total as int;
    let mut idx = PairIndex::<KanjiEntry>::new();
    let mut i: usize = 0;
    proof {
        assert forall|w: Seq<char>|
            #[trigger] idx.spec_get(w, Seq::empty()) == fold_get_kanji(all.take(0), w) by {
            assert(fold_get_kanji(all.take(0), w) == Seq::<KanjiEntry>::empty());
        }
        assert(idx.keys() =~= fold_keys_kanji(all.take(0)));
    }
    while entries.len() > 0
        invariant
            i <= n,
            n <= usize::MAX,
            entries@ =~= all.skip(i as int),
            n == all.len(),
            idx.wf(),
            forall|w: Seq<char>|
                #[trigger] idx.spec_get(w, Seq::empty()) == fold_get_kanji(all.take(i as int), w),
            forall|w: Seq<char>, r: Seq<char>|
                r.len() > 0 ==> #[trigger] idx.spec_get(w, r) == Seq::<KanjiEntry>::empty(),
            idx.keys() == fold_keys_kanji(all.take(i as int)),
        decreases n - i,
    {
        let e = entries.remove(0);
        proof {
            assert(e == all[i as int]);
            assert(entries@ =~= all.skip(i + 1));
        }
        let w = e.kanji.clone();
        let ghost k = kanji_key(e);
        proof {
            lemma_has_key_iff_keys_contains(idx, k.0, k.1);
        }
        let ghost pre = idx;
        idx.push_item(w, String::new(), e);
        proof {
            let t = all.take(i + 1);
            assert(t.drop_last() =~= all.take(i as int));
            assert(t.last() == all[i as int]);
            assert forall|w2: Seq<char>|
                #[trigger] idx.spec_get(w2, Seq::empty()) == fold_get_kanji(t, w2) by {
                if w2 == k.0 {
                    assert(fold_get_kanji(t, w2) == fold_get_kanji(all.take(i as int), w2)
                        + seq![all[i as int]]);
                    assert(pre.spec_get(w2, Seq::empty()).push(all[i as int]) =~= pre.spec_get(
                        w2,
                        Seq::empty(),
                    ) + seq![all[i as int]]);
                } else {
                    assert(fold_get_kanji(t, w2) =~= fold_get_kanji(all.take(i as int), w2)
                        + Seq::<KanjiEntry>::empty());
                }
            }
            assert forall|w2: Seq<char>, r2: Seq<char>| r2.len() > 0 implies #[trigger] idx.spec_get(
                w2,
                r2,
            ) == Seq::<KanjiEntry>::empty() by {
                assert((w2, r2) != k);
            }
            assert(idx.keys() == fold_keys_kanji(t));
        }
        i += 1;
    }
    proof {
        assert(all.take(n as int) =~= all);
    }
    idx
}

} // verus!
