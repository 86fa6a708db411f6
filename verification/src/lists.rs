//! My Lists: named vocabulary lists, and the rules that keep the stored
//! document in shape.
//!
//! A list entry carries the Chinese plus the two readings a learner drills
//! against, copied from the course at the moment the word is added. Every edit
//! here is a plain function of the document; reading and writing it to the
//! browser, and the clock and the random bits a new list's id is made from, are
//! the caller's.

use vstd::prelude::*;

use crate::chars::{append_chars, chars_of, str_eq, string_from_chars};
use crate::hsk;
use crate::text::{decimal, decimal_string};

verus! {

// ── Cleaning ────────────────────────────────────────────────────────────────

/// Guard rails, so one runaway paste cannot fill the storage quota.
pub const MAX_LISTS: usize = 120;
pub const MAX_WORDS: usize = 600;
pub const MAX_TITLE: usize = 80;
pub const MAX_GLOSS: usize = 140;
pub const MAX_PINYIN: usize = 60;
/// Headwords are words, not sentences. Anything longer is a mistake.
pub const MAX_HEADWORD: usize = 12;

/// The characters a headword keeps: CJK unified ideographs and their extension
/// A, the iteration mark 々, and the compatibility ideographs.
pub open spec fn is_han_spec(c: char) -> bool {
    ('\u{3400}' <= c && c <= '\u{9fff}') || c == '\u{3005}' || ('\u{f900}' <= c && c <= '\u{faff}')
}

pub fn is_han(c: char) -> (r: bool)
    ensures
        r == is_han_spec(c),
{
    ('\u{3400}' <= c && c <= '\u{9fff}') || c == '\u{3005}' || ('\u{f900}' <= c && c <= '\u{faff}')
}

/// Unicode's `White_Space` property, which is what `char::is_whitespace`
/// reports.
pub open spec fn is_whitespace_spec(c: char) -> bool {
    ||| ('\u{9}' <= c && c <= '\u{d}')
    ||| c == ' '
    ||| c == '\u{85}'
    ||| c == '\u{a0}'
    ||| c == '\u{1680}'
    ||| ('\u{2000}' <= c && c <= '\u{200a}')
    ||| c == '\u{2028}'
    ||| c == '\u{2029}'
    ||| c == '\u{202f}'
    ||| c == '\u{205f}'
    ||| c == '\u{3000}'
}

pub fn is_whitespace(c: char) -> (r: bool)
    ensures
        r == is_whitespace_spec(c),
{
    ('\u{9}' <= c && c <= '\u{d}') || c == ' ' || c == '\u{85}' || c == '\u{a0}' || c
        == '\u{1680}' || ('\u{2000}' <= c && c <= '\u{200a}') || c == '\u{2028}' || c
        == '\u{2029}' || c == '\u{202f}' || c == '\u{205f}' || c == '\u{3000}'
}

/// Reading `s` left to right: the text kept so far, and whether a run of
/// whitespace is waiting to become one space before the next word.
pub open spec fn collapse_state(s: Seq<char>) -> (Seq<char>, bool)
    decreases s.len(),
{
    if s.len() == 0 {
        (Seq::empty(), false)
    } else {
        let (kept, pending) = collapse_state(s.drop_last());
        let c = s.last();
        if is_whitespace_spec(c) {
            (kept, kept.len() > 0)
        } else if pending {
            (kept.push(' ').push(c), false)
        } else {
            (kept.push(c), false)
        }
    }
}

/// `s`'s words joined by single spaces: whitespace runs collapsed, and none at
/// either end.
pub open spec fn collapse(s: Seq<char>) -> Seq<char> {
    collapse_state(s).0
}

/// At most the first `n` elements of `s`.
pub open spec fn at_most<T>(s: Seq<T>, n: nat) -> Seq<T> {
    if s.len() <= n {
        s
    } else {
        s.subrange(0, n as int)
    }
}

pub open spec fn clamp_spec(s: Seq<char>, max: nat) -> Seq<char> {
    at_most(collapse(s), max)
}

/// Whitespace collapsed, then cut to `max` characters.
pub fn clamp(value: &str, max: usize) -> (r: String)
    ensures
        r@ == clamp_spec(value@, max as nat),
{
    let cs = chars_of(value);
    let mut kept: Vec<char> = Vec::new();
    let mut pending = false;
    let mut i: usize = 0;
    while i < cs.len()
        invariant
            i <= cs.len(),
            cs@ == value@,
            (kept@, pending) == collapse_state(cs@.subrange(0, i as int)),
        decreases cs.len() - i,
    {
        let c = cs[i];
        proof {
            assert(cs@.subrange(0, i + 1).drop_last() =~= cs@.subrange(0, i as int));
        }
        if is_whitespace(c) {
            pending = kept.len() > 0;
        } else {
            if pending {
                kept.push(' ');
            }
            kept.push(c);
            pending = false;
        }
        i = i + 1;
    }
    assert(cs@.subrange(0, cs.len() as int) =~= value@);
    let mut out: Vec<char> = Vec::new();
    let mut j: usize = 0;
    while j < kept.len() && j < max
        invariant
            j <= kept.len(),
            j <= max,
            out@ == kept@.subrange(0, j as int),
        decreases kept.len() - j,
    {
        out.push(kept[j]);
        j = j + 1;
    }
    assert(out@ =~= at_most(kept@, max as nat));
    string_from_chars(&out)
}

/// What an empty title becomes.
pub open spec fn untitled() -> Seq<char> {
    seq!['U', 'n', 't', 'i', 't', 'l', 'e', 'd', ' ', 'l', 'i', 's', 't']
}

pub open spec fn clean_title_spec(s: Seq<char>) -> Seq<char> {
    if clamp_spec(s, MAX_TITLE as nat).len() == 0 {
        untitled()
    } else {
        clamp_spec(s, MAX_TITLE as nat)
    }
}

/// A title with its whitespace collapsed and its length capped; never empty.
pub fn clean_title(value: &str) -> (r: String)
    ensures
        r@ == clean_title_spec(value@),
{
    let title = clamp(value, MAX_TITLE);
    if title.as_str().is_empty() {
        let v: Vec<char> = vec!['U', 'n', 't', 'i', 't', 'l', 'e', 'd', ' ', 'l', 'i', 's', 't'];
        let r = string_from_chars(&v);
        assert(r@ =~= untitled());
        r
    } else {
        title
    }
}

/// The Han characters of `s`, in order.
pub open spec fn han_only(s: Seq<char>) -> Seq<char>
    decreases s.len(),
{
    if s.len() == 0 {
        Seq::empty()
    } else if is_han_spec(s.last()) {
        han_only(s.drop_last()).push(s.last())
    } else {
        han_only(s.drop_last())
    }
}

pub open spec fn clean_headword_spec(s: Seq<char>) -> Seq<char> {
    at_most(han_only(s), MAX_HEADWORD as nat)
}

/// The Han characters in a headword, dropping spaces, latin and punctuation, and
/// at most twelve of them.
pub fn clean_headword(value: &str) -> (r: String)
    ensures
        r@ == clean_headword_spec(value@),
{
    let cs = chars_of(value);
    let mut han: Vec<char> = Vec::new();
    let mut i: usize = 0;
    while i < cs.len()
        invariant
            i <= cs.len(),
            cs@ == value@,
            han@ == han_only(cs@.subrange(0, i as int)),
        decreases cs.len() - i,
    {
        proof {
            assert(cs@.subrange(0, i + 1).drop_last() =~= cs@.subrange(0, i as int));
        }
        if is_han(cs[i]) {
            han.push(cs[i]);
        }
        i = i + 1;
    }
    assert(cs@.subrange(0, cs.len() as int) =~= value@);
    let mut out: Vec<char> = Vec::new();
    let mut j: usize = 0;
    while j < han.len() && j < MAX_HEADWORD
        invariant
            j <= han.len(),
            j <= MAX_HEADWORD,
            out@ == han@.subrange(0, j as int),
        decreases han.len() - j,
    {
        out.push(han[j]);
        j = j + 1;
    }
    assert(out@ =~= at_most(han@, MAX_HEADWORD as nat));
    string_from_chars(&out)
}

/// Whether `k` is where the first `-` of `s` stands.
pub open spec fn is_first_dash(s: Seq<char>, k: int) -> bool {
    0 <= k < s.len() && s[k] == '-' && forall|j: int| 0 <= j < k ==> s[j] != '-'
}

/// `"3-07"` -> `"07"`: what follows the first `-`, or all of `s` without one.
pub open spec fn position_of_spec(s: Seq<char>) -> Seq<char> {
    if exists|k: int| is_first_dash(s, k) {
        let k = choose|k: int| is_first_dash(s, k);
        s.subrange(k + 1, s.len() as int)
    } else {
        s
    }
}

/// `"3-07"` -> `"07"`, for a source label.
pub fn position_of(unit_id: &str) -> (r: &str)
    ensures
        r@ == position_of_spec(unit_id@),
{
    let len = unit_id.unicode_len();
    let mut i: usize = 0;
    while i < len
        invariant
            len == unit_id@.len(),
            i <= len,
            forall|j: int| 0 <= j < i ==> unit_id@[j] != '-',
        decreases len - i,
    {
        if unit_id.get_char(i) == '-' {
            proof {
                assert(is_first_dash(unit_id@, i as int));
                let k = choose|k: int| is_first_dash(unit_id@, k);
                assert(k == i);
            }
            return unit_id.substring_char(i + 1, len);
        }
        i = i + 1;
    }
    assert(!exists|k: int| is_first_dash(unit_id@, k));
    unit_id
}


// ── The document ────────────────────────────────────────────────────────────

/// One word of a list: the Chinese plus the two readings a learner drills
/// against, copied from the course when the word was added.
pub struct ListWord {
    /// Simplified headword. Identifies the entry within its list.
    pub word: String,
    pub pinyin: String,
    pub gloss: String,
    /// HSK band, when the word came from the course.
    pub level: Option<u8>,
    /// Milliseconds since the epoch at which the word was added.
    pub added_at: u64,
}

#[verifier::ext_equal]
pub struct ListWordView {
    pub word: Seq<char>,
    pub pinyin: Seq<char>,
    pub gloss: Seq<char>,
    pub level: Option<u8>,
    pub added_at: u64,
}

impl View for ListWord {
    type V = ListWordView;

    open spec fn view(&self) -> ListWordView {
        ListWordView {
            word: self.word@,
            pinyin: self.pinyin@,
            gloss: self.gloss@,
            level: self.level,
            added_at: self.added_at,
        }
    }
}

/// Where a list came from, so a card can say more than its title.
pub enum ListSource {
    HskUnit { level: u8, unit_id: String, unit_title: String },
    /// Built by hand, or from a source this version does not understand.
    Custom,
}

#[verifier::ext_equal]
pub enum SourceView {
    HskUnit { level: u8, unit_id: Seq<char>, unit_title: Seq<char> },
    Custom,
}

impl View for ListSource {
    type V = SourceView;

    open spec fn view(&self) -> SourceView {
        match self {
            ListSource::HskUnit { level, unit_id, unit_title } => SourceView::HskUnit {
                level: *level,
                unit_id: unit_id@,
                unit_title: unit_title@,
            },
            ListSource::Custom => SourceView::Custom,
        }
    }
}

pub struct WordList {
    pub id: String,
    pub title: String,
    pub source: ListSource,
    pub words: Vec<ListWord>,
    pub created_at: u64,
    pub updated_at: u64,
}

#[verifier::ext_equal]
pub struct WordListView {
    pub id: Seq<char>,
    pub title: Seq<char>,
    pub source: SourceView,
    pub words: Seq<ListWordView>,
    pub created_at: u64,
    pub updated_at: u64,
}

pub open spec fn words_view(words: Seq<ListWord>) -> Seq<ListWordView> {
    words.map_values(|w: ListWord| w@)
}

impl View for WordList {
    type V = WordListView;

    open spec fn view(&self) -> WordListView {
        WordListView {
            id: self.id@,
            title: self.title@,
            source: self.source@,
            words: words_view(self.words@),
            created_at: self.created_at,
            updated_at: self.updated_at,
        }
    }
}

/// Every list, newest first, as stored under one key.
pub struct ListsDoc {
    pub version: u8,
    pub lists: Vec<WordList>,
    pub updated_at: u64,
}

#[verifier::ext_equal]
pub struct ListsDocView {
    pub version: u8,
    pub lists: Seq<WordListView>,
    pub updated_at: u64,
}

pub open spec fn lists_view(lists: Seq<WordList>) -> Seq<WordListView> {
    lists.map_values(|l: WordList| l@)
}

impl View for ListsDoc {
    type V = ListsDocView;

    open spec fn view(&self) -> ListsDocView {
        ListsDocView { version: self.version, lists: lists_view(self.lists@), updated_at: self.updated_at }
    }
}

// ── Finding things ──────────────────────────────────────────────────────────

/// The index of the first element of `s` that satisfies `p`.
pub open spec fn first_where<T>(s: Seq<T>, p: spec_fn(T) -> bool) -> Option<int>
    decreases s.len(),
{
    if s.len() == 0 {
        None
    } else {
        match first_where(s.drop_last(), p) {
            Some(i) => Some(i),
            None => if p(s.last()) {
                Some(s.len() - 1)
            } else {
                None
            },
        }
    }
}

pub proof fn lemma_first_where<T>(s: Seq<T>, p: spec_fn(T) -> bool)
    ensures
        match first_where(s, p) {
            Some(i) => 0 <= i < s.len() && p(s[i]) && forall|j: int| 0 <= j < i ==> !p(s[j]),
            None => forall|j: int| 0 <= j < s.len() ==> !p(s[j]),
        },
    decreases s.len(),
{
    if s.len() > 0 {
        lemma_first_where(s.drop_last(), p);
        assert forall|j: int| 0 <= j < s.len() - 1 implies s.drop_last()[j] == s[j] by {}
    }
}

/// `first_where` is the one index that satisfies `p` after none before it did.
pub proof fn lemma_first_where_at<T>(s: Seq<T>, p: spec_fn(T) -> bool, i: int)
    requires
        0 <= i < s.len(),
        p(s[i]),
        forall|j: int| 0 <= j < i ==> !p(s[j]),
    ensures
        first_where(s, p) == Some(i),
{
    lemma_first_where(s, p);
    match first_where(s, p) {
        Some(k) => {
            if k < i {
                assert(!p(s[k]));
            } else if k > i {
                assert(!p(s[i]));
            }
        },
        None => {
            assert(!p(s[i]));
        },
    }
}

pub open spec fn has_id(id: Seq<char>) -> spec_fn(WordListView) -> bool {
    |l: WordListView| l.id == id
}

/// Whether `l` was imported from the unit `unit` of `level`, named by its full id
/// or by its position within the level.
pub open spec fn is_from_unit_spec(l: WordListView, level: u8, unit: Seq<char>) -> bool {
    match l.source {
        SourceView::HskUnit { level: from, unit_id, .. } => from == level && (unit_id == unit
            || position_of_spec(unit_id) == unit),
        SourceView::Custom => false,
    }
}

pub open spec fn from_unit_pred(level: u8, unit: Seq<char>) -> spec_fn(WordListView) -> bool {
    |l: WordListView| is_from_unit_spec(l, level, unit)
}

/// The index of the first list with the given id.
fn find_id(lists: &Vec<WordList>, id: &str) -> (r: Option<usize>)
    ensures
        r matches Some(i) ==> i < lists@.len() && first_where(lists_view(lists@), has_id(id@))
            == Some(i as int),
        r is None ==> first_where(lists_view(lists@), has_id(id@)) is None,
{
    let ghost v = lists_view(lists@);
    let mut i: usize = 0;
    while i < lists.len()
        invariant
            i <= lists.len(),
            v == lists_view(lists@),
            forall|j: int| 0 <= j < i ==> !has_id(id@)(v[j]),
        decreases lists.len() - i,
    {
        if str_eq(lists[i].id.as_str(), id) {
            proof {
                lemma_first_where_at(v, has_id(id@), i as int);
            }
            return Some(i);
        }
        i = i + 1;
    }
    proof {
        lemma_first_where(v, has_id(id@));
        if first_where(v, has_id(id@)) is Some {
            let k = first_where(v, has_id(id@))->0;
            assert(!has_id(id@)(v[k]));
        }
    }
    None
}

// ── Words ───────────────────────────────────────────────────────────────────

impl ListWord {
    /// A course word, copied into a list exactly as the unit teaches it.
    pub fn from_course(word: &hsk::Word, now: u64) -> (r: ListWord)
        ensures
            r@ == from_course_spec(word.word@, word.pinyin@, word.gloss@, word.level, now),
    {
        ListWord {
            word: word.word.clone(),
            pinyin: word.pinyin.clone(),
            gloss: word.gloss.clone(),
            level: Some(word.level),
            added_at: now,
        }
    }

    /// A copy with the same contents.
    pub fn duplicate(&self) -> (r: ListWord)
        ensures
            r@ == self@,
    {
        ListWord {
            word: self.word.clone(),
            pinyin: self.pinyin.clone(),
            gloss: self.gloss.clone(),
            level: self.level,
            added_at: self.added_at,
        }
    }
}

pub open spec fn from_course_spec(
    word: Seq<char>,
    pinyin: Seq<char>,
    gloss: Seq<char>,
    level: u8,
    now: u64,
) -> ListWordView {
    ListWordView { word, pinyin, gloss, level: Some(level), added_at: now }
}

/// Whether some word of `words` has the headword `w`.
pub open spec fn has_word(words: Seq<ListWordView>, w: Seq<char>) -> bool {
    exists|i: int| 0 <= i < words.len() && words[i].word == w
}

/// `existing` followed by the words of `incoming` it did not have yet, in order,
/// skipping empty headwords and stopping at [`MAX_WORDS`].
pub open spec fn merged(existing: Seq<ListWordView>, incoming: Seq<ListWordView>) -> Seq<
    ListWordView,
>
    decreases incoming.len(),
{
    if incoming.len() == 0 {
        existing
    } else {
        let m = merged(existing, incoming.drop_last());
        let w = incoming.last();
        if w.word.len() == 0 || has_word(m, w.word) || m.len() >= MAX_WORDS {
            m
        } else {
            m.push(w)
        }
    }
}

fn contains_word(words: &Vec<ListWord>, w: &str) -> (r: bool)
    ensures
        r == has_word(words_view(words@), w@),
{
    let mut i: usize = 0;
    while i < words.len()
        invariant
            i <= words.len(),
            forall|j: int| 0 <= j < i ==> words@[j].word@ != w@,
        decreases words.len() - i,
    {
        if str_eq(words[i].word.as_str(), w) {
            assert(words_view(words@)[i as int].word == w@);
            return true;
        }
        i = i + 1;
    }
    proof {
        if has_word(words_view(words@), w@) {
            let k = choose|k: int|
                0 <= k < words_view(words@).len() && words_view(words@)[k].word == w@;
            assert(words@[k].word@ == w@);
        }
    }
    false
}

/// Append the words a list does not already have, up to [`MAX_WORDS`]. Returns
/// how many were added. The dedupe is what makes re-importing a unit a no-op
/// rather than a second copy of it.
pub fn merge(existing: &mut Vec<ListWord>, incoming: Vec<ListWord>) -> (added: usize)
    ensures
        words_view(final(existing)@) == merged(words_view(old(existing)@), words_view(incoming@)),
        added == final(existing)@.len() - old(existing)@.len(),
{
    let ghost start = words_view(existing@);
    let ghost inc = words_view(incoming@);
    let mut added: usize = 0;
    let mut i: usize = 0;
    proof {
        assert(inc.subrange(0, 0) =~= Seq::<ListWordView>::empty());
    }
    while i < incoming.len()
        invariant
            i <= incoming.len(),
            inc == words_view(incoming@),
            words_view(existing@) == merged(start, inc.subrange(0, i as int)),
            existing@.len() == start.len() + added,
            added <= i,
        decreases incoming.len() - i,
    {
        proof {
            assert(inc.subrange(0, i + 1).drop_last() =~= inc.subrange(0, i as int));
            assert(inc.subrange(0, i + 1).last() == incoming@[i as int]@);
        }
        let w = &incoming[i];
        if !w.word.as_str().is_empty() && !contains_word(existing, w.word.as_str())
            && existing.len() < MAX_WORDS {
            existing.push(w.duplicate());
            added = added + 1;
            proof {
                assert(words_view(existing@) =~= merged(start, inc.subrange(0, i as int)).push(
                    incoming@[i as int]@,
                ));
            }
        }
        i = i + 1;
    }
    proof {
        assert(inc.subrange(0, incoming.len() as int) =~= inc);
    }
    added
}


// ── Sources and lists ───────────────────────────────────────────────────────

/// `"HSK "` + level + `" · "`.
pub open spec fn hsk_prefix(level: u8) -> Seq<char> {
    seq!['H', 'S', 'K', ' '] + decimal(level as nat) + seq![' ', '\u{b7}', ' ']
}

/// `"Your own list"`.
pub open spec fn own_list_label() -> Seq<char> {
    seq!['Y', 'o', 'u', 'r', ' ', 'o', 'w', 'n', ' ', 'l', 'i', 's', 't']
}

pub open spec fn label_spec(s: SourceView) -> Seq<char> {
    match s {
        SourceView::Custom => own_list_label(),
        SourceView::HskUnit { level, unit_id, .. } => hsk_prefix(level) + seq![
            'U',
            'n',
            'i',
            't',
            ' ',
        ] + position_of_spec(unit_id),
    }
}

/// `"HSK 1 · "`.
fn hsk_prefix_string(level: u8) -> (r: String)
    ensures
        r@ == hsk_prefix(level),
{
    let mut out = string_from_chars(&vec!['H', 'S', 'K', ' ']);
    let d = decimal_string(level as usize);
    out.append(d.as_str());
    append_chars(&mut out, &vec![' ', '\u{b7}', ' ']);
    assert(out@ =~= hsk_prefix(level));
    out
}

impl ListSource {
    pub fn from_unit(level: u8, unit: &hsk::Unit) -> (r: ListSource)
        ensures
            r@ == (SourceView::HskUnit { level, unit_id: unit.id@, unit_title: unit.title@ }),
    {
        ListSource::HskUnit { level, unit_id: unit.id.clone(), unit_title: unit.title.clone() }
    }

    /// A copy with the same contents.
    pub fn duplicate(&self) -> (r: ListSource)
        ensures
            r@ == self@,
    {
        match self {
            ListSource::HskUnit { level, unit_id, unit_title } => ListSource::HskUnit {
                level: *level,
                unit_id: unit_id.clone(),
                unit_title: unit_title.clone(),
            },
            ListSource::Custom => ListSource::Custom,
        }
    }

    /// Human label for a list's origin, shown under its title:
    /// `"HSK 1 · Unit 01"`, or `"Your own list"`.
    pub fn label(&self) -> (r: String)
        ensures
            r@ == label_spec(self@),
    {
        match self {
            ListSource::Custom => {
                let r = string_from_chars(
                    &vec!['Y', 'o', 'u', 'r', ' ', 'o', 'w', 'n', ' ', 'l', 'i', 's', 't'],
                );
                assert(r@ =~= own_list_label());
                r
            },
            ListSource::HskUnit { level, unit_id, .. } => {
                let mut out = hsk_prefix_string(*level);
                append_chars(&mut out, &vec!['U', 'n', 'i', 't', ' ']);
                out.append(position_of(unit_id.as_str()));
                assert(out@ =~= label_spec(self@));
                out
            },
        }
    }
}

impl WordList {
    /// True when this list was imported from the given course unit. Accepts the
    /// unit's position as well as its full id, since a route carries the former.
    pub fn is_from_unit(&self, level: u8, unit: &str) -> (r: bool)
        ensures
            r == is_from_unit_spec(self@, level, unit@),
    {
        match &self.source {
            ListSource::HskUnit { level: from, unit_id, .. } => *from == level && (str_eq(
                unit_id.as_str(),
                unit,
            ) || str_eq(position_of(unit_id.as_str()), unit)),
            ListSource::Custom => false,
        }
    }

    /// The characters the list's words are written with, for stroke practice:
    /// each Han character once, in the order it first appears.
    pub fn characters(&self) -> (cs: Vec<char>)
        ensures
            cs@ == hsk::characters_spec(self@.words.map_values(|w: ListWordView| w.word)),
    {
        let ghost views = self@.words.map_values(|w: ListWordView| w.word);
        let mut out: Vec<char> = Vec::new();
        let mut i: usize = 0;
        assert(hsk::distinct(Seq::empty()) =~= Seq::<char>::empty());
        assert(hsk::han_chars(hsk::joined(views.subrange(0, 0))) =~= Seq::<char>::empty());
        while i < self.words.len()
            invariant
                i <= self.words.len(),
                views == self@.words.map_values(|w: ListWordView| w.word),
                views.len() == self.words@.len(),
                out@ == hsk::distinct(hsk::han_chars(hsk::joined(views.subrange(0, i as int)))),
            decreases self.words.len() - i,
        {
            let ghost before = hsk::han_chars(hsk::joined(views.subrange(0, i as int)));
            hsk::add_characters(&mut out, self.words[i].word.as_str(), Ghost(before));
            proof {
                let next = views.subrange(0, i + 1);
                assert(next.drop_last() =~= views.subrange(0, i as int));
                assert(next.last() == self.words@[i as int].word@);
                hsk::lemma_han_chars_append(
                    hsk::joined(views.subrange(0, i as int)),
                    self.words@[i as int].word@,
                );
            }
            i = i + 1;
        }
        assert(views.subrange(0, self.words.len() as int) =~= views);
        out
    }
}

/// The list-store's caps and the lists' own rule: at most [`MAX_LISTS`] lists, and
/// in each at most [`MAX_WORDS`] words, none with an empty or repeated headword.
pub open spec fn in_shape(d: ListsDocView) -> bool {
    &&& d.lists.len() <= MAX_LISTS
    &&& forall|i: int| 0 <= i < d.lists.len() ==> #[trigger] words_in_shape(d.lists[i].words)
}

pub open spec fn words_in_shape(words: Seq<ListWordView>) -> bool {
    &&& words.len() <= MAX_WORDS
    &&& forall|i: int| 0 <= i < words.len() ==> #[trigger] words[i].word.len() > 0
    &&& forall|i: int, j: int|
        0 <= i < j < words.len() ==> #[trigger] words[i].word != #[trigger] words[j].word
}

pub open spec fn total_words_spec(lists: Seq<WordListView>) -> nat
    decreases lists.len(),
{
    if lists.len() == 0 {
        0
    } else {
        total_words_spec(lists.drop_last()) + lists.last().words.len()
    }
}

/// The units of `level` that lists were imported from, in list order.
pub open spec fn imported_units_spec(lists: Seq<WordListView>, level: u8) -> Seq<Seq<char>>
    decreases lists.len(),
{
    if lists.len() == 0 {
        Seq::empty()
    } else {
        let rest = imported_units_spec(lists.drop_last(), level);
        match lists.last().source {
            SourceView::HskUnit { level: at, unit_id, .. } => if at == level {
                rest.push(unit_id)
            } else {
                rest
            },
            SourceView::Custom => rest,
        }
    }
}

impl Default for ListsDoc {
    /// An empty document, at version 1.
    fn default() -> (d: ListsDoc)
        ensures
            d@ == (ListsDocView { version: 1, lists: Seq::empty(), updated_at: 0 }),
    {
        ListsDoc { version: 1, lists: Vec::new(), updated_at: 0 }
    }
}

impl ListsDoc {
    /// An empty document.
    pub fn new() -> (d: ListsDoc)
        ensures
            d@ == (ListsDocView { version: 1, lists: Seq::empty(), updated_at: 0 }),
    {
        ListsDoc { version: 1, lists: Vec::new(), updated_at: 0 }
    }

    /// The list with the given id, if there is one.
    pub fn get(&self, id: &str) -> (r: Option<&WordList>)
        ensures
            match first_where(self@.lists, has_id(id@)) {
                Some(i) => r matches Some(l) && l@ == self@.lists[i],
                None => r is None,
            },
    {
        match find_id(&self.lists, id) {
            Some(i) => Some(&self.lists[i]),
            None => None,
        }
    }

    /// The list already imported from a unit, if there is one. This is what makes
    /// "add this lesson" idempotent.
    pub fn list_for_unit(&self, level: u8, unit: &str) -> (r: Option<&WordList>)
        ensures
            match first_where(self@.lists, from_unit_pred(level, unit@)) {
                Some(i) => r matches Some(l) && l@ == self@.lists[i],
                None => r is None,
            },
    {
        let ghost v = self@.lists;
        let mut i: usize = 0;
        while i < self.lists.len()
            invariant
                i <= self.lists.len(),
                v == self@.lists,
                forall|j: int| 0 <= j < i ==> !from_unit_pred(level, unit@)(v[j]),
            decreases self.lists.len() - i,
        {
            if self.lists[i].is_from_unit(level, unit) {
                proof {
                    lemma_first_where_at(v, from_unit_pred(level, unit@), i as int);
                }
                return Some(&self.lists[i]);
            }
            i = i + 1;
        }
        proof {
            lemma_first_where(v, from_unit_pred(level, unit@));
            if first_where(v, from_unit_pred(level, unit@)) is Some {
                let k = first_where(v, from_unit_pred(level, unit@))->0;
                assert(!from_unit_pred(level, unit@)(v[k]));
            }
        }
        None
    }

    /// Which of a level's units have already been imported, for the "Added"
    /// markers on a level page.
    pub fn imported_units(&self, level: u8) -> (r: Vec<String>)
        ensures
            r@.map_values(|s: String| s@) == imported_units_spec(self@.lists, level),
    {
        let ghost v = self@.lists;
        let mut out: Vec<String> = Vec::new();
        let mut i: usize = 0;
        assert(v.subrange(0, 0) =~= Seq::<WordListView>::empty());
        assert(out@.map_values(|s: String| s@) =~= Seq::<Seq<char>>::empty());
        while i < self.lists.len()
            invariant
                i <= self.lists.len(),
                v == self@.lists,
                out@.map_values(|s: String| s@) == imported_units_spec(v.subrange(0, i as int), level),
            decreases self.lists.len() - i,
        {
            proof {
                assert(v.subrange(0, i + 1).drop_last() =~= v.subrange(0, i as int));
                assert(v.subrange(0, i + 1).last() == self.lists@[i as int]@);
            }
            let ghost before = out@;
            match &self.lists[i].source {
                ListSource::HskUnit { level: at, unit_id, .. } => {
                    if *at == level {
                        out.push(unit_id.clone());
                        assert(out@.map_values(|s: String| s@) =~= before.map_values(
                            |s: String| s@,
                        ).push(unit_id@));
                    }
                },
                ListSource::Custom => {},
            }
            i = i + 1;
        }
        assert(v.subrange(0, self.lists.len() as int) =~= v);
        out
    }

    /// How many words all the lists hold together.
    pub fn total_words(&self) -> (n: usize)
        requires
            total_words_spec(self@.lists) <= usize::MAX,
        ensures
            n == total_words_spec(self@.lists),
    {
        let ghost v = self@.lists;
        let mut n: usize = 0;
        let mut i: usize = 0;
        proof {
            assert(v.subrange(0, 0) =~= Seq::<WordListView>::empty());
        }
        while i < self.lists.len()
            invariant
                i <= self.lists.len(),
                v == self@.lists,
                total_words_spec(v) <= usize::MAX,
                n == total_words_spec(v.subrange(0, i as int)),
            decreases self.lists.len() - i,
        {
            proof {
                assert(v.subrange(0, i + 1).drop_last() =~= v.subrange(0, i as int));
                lemma_total_words_prefix(v, i + 1);
            }
            n = n + self.lists[i].words.len();
            i = i + 1;
        }
        assert(v.subrange(0, self.lists.len() as int) =~= v);
        n
    }

    /// Whether there is no room for another list.
    pub fn is_full(&self) -> (r: bool)
        ensures
            r == (self@.lists.len() >= MAX_LISTS),
    {
        self.lists.len() >= MAX_LISTS
    }
}

proof fn lemma_total_words_prefix(v: Seq<WordListView>, k: int)
    requires
        0 <= k <= v.len(),
    ensures
        total_words_spec(v.subrange(0, k)) <= total_words_spec(v),
    decreases v.len(),
{
    if k < v.len() {
        assert(v.drop_last().subrange(0, k) =~= v.subrange(0, k));
        lemma_total_words_prefix(v.drop_last(), k);
    } else {
        assert(v.subrange(0, k) =~= v);
    }
}


// ── Keeping a document in shape ─────────────────────────────────────────────

/// A word with its headword cleaned and its readings clamped.
pub open spec fn shape_word(w: ListWordView) -> ListWordView {
    ListWordView {
        word: clean_headword_spec(w.word),
        pinyin: clamp_spec(w.pinyin, MAX_PINYIN as nat),
        gloss: clamp_spec(w.gloss, MAX_GLOSS as nat),
        level: w.level,
        added_at: w.added_at,
    }
}

/// `words` without empty headwords and without any repeat of an earlier
/// headword.
pub open spec fn kept_words(words: Seq<ListWordView>) -> Seq<ListWordView>
    decreases words.len(),
{
    if words.len() == 0 {
        Seq::empty()
    } else {
        let k = kept_words(words.drop_last());
        let w = words.last();
        if w.word.len() == 0 || has_word(k, w.word) {
            k
        } else {
            k.push(w)
        }
    }
}

pub open spec fn shape_list(l: WordListView) -> WordListView {
    WordListView {
        title: clean_title_spec(l.title),
        words: kept_words(at_most(l.words, MAX_WORDS as nat).map_values(|w: ListWordView| shape_word(w))),
        ..l
    }
}

/// Every list with an id, each put in shape.
pub open spec fn shape_lists(lists: Seq<WordListView>) -> Seq<WordListView>
    decreases lists.len(),
{
    if lists.len() == 0 {
        Seq::empty()
    } else if lists.last().id.len() == 0 {
        shape_lists(lists.drop_last())
    } else {
        shape_lists(lists.drop_last()).push(shape_list(lists.last()))
    }
}

/// A stored document clamped into shape: version 1, the first [`MAX_LISTS`]
/// lists less those without an id, each titled cleanly, with its first
/// [`MAX_WORDS`] words cleaned and the empty and repeated ones dropped.
pub open spec fn into_shape_spec(d: ListsDocView) -> ListsDocView {
    ListsDocView {
        version: 1,
        lists: shape_lists(at_most(d.lists, MAX_LISTS as nat)),
        updated_at: d.updated_at,
    }
}

fn shape_words(words: &Vec<ListWord>) -> (r: Vec<ListWord>)
    ensures
        words_view(r@) == kept_words(
            at_most(words_view(words@), MAX_WORDS as nat).map_values(|w: ListWordView| shape_word(w)),
        ),
{
    let ghost all = at_most(words_view(words@), MAX_WORDS as nat).map_values(
        |w: ListWordView| shape_word(w),
    );
    let n = if words.len() < MAX_WORDS {
        words.len()
    } else {
        MAX_WORDS
    };
    let mut out: Vec<ListWord> = Vec::new();
    let mut i: usize = 0;
    assert(all.subrange(0, 0) =~= Seq::<ListWordView>::empty());
    while i < n
        invariant
            n <= words.len(),
            n == all.len(),
            i <= n,
            all == at_most(words_view(words@), MAX_WORDS as nat).map_values(
                |w: ListWordView| shape_word(w),
            ),
            words_view(out@) == kept_words(all.subrange(0, i as int)),
        decreases n - i,
    {
        let w = &words[i];
        let shaped = ListWord {
            word: clean_headword(w.word.as_str()),
            pinyin: clamp(w.pinyin.as_str(), MAX_PINYIN),
            gloss: clamp(w.gloss.as_str(), MAX_GLOSS),
            level: w.level,
            added_at: w.added_at,
        };
        proof {
            assert(all.subrange(0, i + 1).drop_last() =~= all.subrange(0, i as int));
            assert(all.subrange(0, i + 1).last() == all[i as int]);
            assert(all[i as int] == shape_word(words@[i as int]@));
            assert(shaped@ == all[i as int]);
        }
        if !shaped.word.as_str().is_empty() && !contains_word(&out, shaped.word.as_str()) {
            let ghost before = out@;
            out.push(shaped);
            proof {
                assert(words_view(out@) =~= words_view(before).push(all[i as int]));
            }
        }
        i = i + 1;
    }
    assert(all.subrange(0, n as int) =~= all);
    out
}

/// Clamp a stored document into shape, keeping whatever is intelligible.
///
/// Anything stored may have been hand-edited or written by a newer version of the
/// app, and losing every list to one bad field would be the worst possible
/// outcome — so a list that does parse is clamped into shape rather than
/// refused.
pub fn into_shape(doc: ListsDoc) -> (r: ListsDoc)
    ensures
        r@ == into_shape_spec(doc@),
        in_shape(r@),
{
    let ghost all = at_most(doc@.lists, MAX_LISTS as nat);
    let n = if doc.lists.len() < MAX_LISTS {
        doc.lists.len()
    } else {
        MAX_LISTS
    };
    let mut lists: Vec<WordList> = Vec::new();
    let mut i: usize = 0;
    assert(all.subrange(0, 0) =~= Seq::<WordListView>::empty());
    while i < n
        invariant
            n <= doc.lists.len(),
            n == all.len(),
            i <= n,
            all == at_most(doc@.lists, MAX_LISTS as nat),
            lists_view(lists@) == shape_lists(all.subrange(0, i as int)),
        decreases n - i,
    {
        let l = &doc.lists[i];
        proof {
            assert(all.subrange(0, i + 1).drop_last() =~= all.subrange(0, i as int));
            assert(all.subrange(0, i + 1).last() == all[i as int]);
            assert(all[i as int] == l@);
        }
        if !l.id.as_str().is_empty() {
            let shaped = WordList {
                id: l.id.clone(),
                title: clean_title(l.title.as_str()),
                source: l.source.duplicate(),
                words: shape_words(&l.words),
                created_at: l.created_at,
                updated_at: l.updated_at,
            };
            let ghost before = lists@;
            lists.push(shaped);
            proof {
                assert(shaped@ =~= shape_list(l@));
                assert(lists_view(lists@) =~= lists_view(before).push(shaped@));
            }
        }
        i = i + 1;
    }
    assert(all.subrange(0, n as int) =~= all);
    let r = ListsDoc { version: 1, lists, updated_at: doc.updated_at };
    proof {
        lemma_into_shape_in_shape(doc@);
    }
    r
}

// ── Edits ───────────────────────────────────────────────────────────────────

pub open spec fn opt_view(r: Option<String>) -> Option<Seq<char>> {
    match r {
        Some(s) => Some(s@),
        None => None,
    }
}

pub open spec fn new_list_spec(
    id: Seq<char>,
    now: u64,
    title: Seq<char>,
    source: SourceView,
    words: Seq<ListWordView>,
) -> WordListView {
    WordListView {
        id,
        title: clean_title_spec(title),
        source,
        words: merged(Seq::empty(), words),
        created_at: now,
        updated_at: now,
    }
}

/// A new list, first in the document, or nothing when there is no room for one.
pub open spec fn create_spec(
    d: ListsDocView,
    id: Seq<char>,
    now: u64,
    title: Seq<char>,
    source: SourceView,
    words: Seq<ListWordView>,
) -> (ListsDocView, Option<Seq<char>>) {
    if d.lists.len() >= MAX_LISTS {
        (d, None)
    } else {
        (
            ListsDocView {
                lists: d.lists.insert(0, new_list_spec(id, now, title, source, words)),
                updated_at: now,
                ..d
            },
            Some(id),
        )
    }
}

/// Create a list with the given id, first in the document, and return its id,
/// or `None` (and change nothing) when there is no room for another.
///
/// `id` and `now` come from the caller, who owns the clock and the random bits
/// an id is made from; see [`new_id`].
pub fn create(
    doc: &mut ListsDoc,
    id: String,
    now: u64,
    title: &str,
    source: ListSource,
    words: Vec<ListWord>,
) -> (r: Option<String>)
    ensures
        (final(doc)@, opt_view(r)) == create_spec(old(doc)@, id@, now, title@, source@, words_view(words@)),
{
    if doc.is_full() {
        return None;
    }
    let mut list = WordList {
        id: id.clone(),
        title: clean_title(title),
        source,
        words: Vec::new(),
        created_at: now,
        updated_at: now,
    };
    merge(&mut list.words, words);
    assert(words_view(Seq::<ListWord>::empty()) =~= Seq::<ListWordView>::empty());
    let ghost before = doc.lists@;
    doc.lists.insert(0, list);
    doc.updated_at = now;
    proof {
        assert(lists_view(doc.lists@) =~= lists_view(before).insert(0, list@));
    }
    Some(id)
}

/// Stamp `list` as edited at `now`, with a new title.
pub open spec fn retitled(l: WordListView, title: Seq<char>, now: u64) -> WordListView {
    WordListView { title, updated_at: now, ..l }
}

pub open spec fn rename_spec(d: ListsDocView, id: Seq<char>, title: Seq<char>, now: u64) -> ListsDocView {
    let t = clean_title_spec(title);
    let lists = match first_where(d.lists, has_id(id)) {
        Some(i) => if d.lists[i].title != t {
            d.lists.update(i, retitled(d.lists[i], t, now))
        } else {
            d.lists
        },
        None => d.lists,
    };
    ListsDocView { lists, updated_at: now, ..d }
}

/// Give the list with the given id a new, cleaned title.
pub fn rename(doc: &mut ListsDoc, id: &str, title: &str, now: u64)
    ensures
        final(doc)@ == rename_spec(old(doc)@, id@, title@, now),
{
    let title = clean_title(title);
    match find_id(&doc.lists, id) {
        Some(i) => {
            if !str_eq(doc.lists[i].title.as_str(), title.as_str()) {
                let ghost before = doc.lists@;
                doc.lists[i].title = title;
                doc.lists[i].updated_at = now;
                proof {
                    assert(lists_view(doc.lists@) =~= lists_view(before).update(
                        i as int,
                        retitled(lists_view(before)[i as int], title@, now),
                    ));
                }
            }
        },
        None => {},
    }
    doc.updated_at = now;
}

/// `lists` less those with the given id.
pub open spec fn without_id(lists: Seq<WordListView>, id: Seq<char>) -> Seq<WordListView>
    decreases lists.len(),
{
    if lists.len() == 0 {
        Seq::empty()
    } else if lists.last().id == id {
        without_id(lists.drop_last(), id)
    } else {
        without_id(lists.drop_last(), id).push(lists.last())
    }
}

pub open spec fn delete_spec(d: ListsDocView, id: Seq<char>, now: u64) -> ListsDocView {
    ListsDocView { lists: without_id(d.lists, id), updated_at: now, ..d }
}

/// Delete every list with the given id.
pub fn delete(doc: &mut ListsDoc, id: &str, now: u64)
    ensures
        final(doc)@ == delete_spec(old(doc)@, id@, now),
{
    let mut taken: Vec<WordList> = Vec::new();
    std::mem::swap(&mut doc.lists, &mut taken);
    let ghost all = lists_view(taken@);
    let _total = taken.len();
    let mut kept: Vec<WordList> = Vec::new();
    let mut i: usize = 0;
    assert(all.subrange(0, 0) =~= Seq::<WordListView>::empty());
    while taken.len() > 0
        invariant
            all.len() == i + taken@.len(),
            all.len() <= usize::MAX,
            lists_view(taken@) == all.subrange(i as int, all.len() as int),
            lists_view(kept@) == without_id(all.subrange(0, i as int), id@),
        decreases taken.len(),
    {
        let ghost prev = taken@;
        let l = taken.remove(0);
        proof {
            assert(lists_view(prev)[0] == l@);
            assert(all[i as int] == lists_view(prev)[0]);
            assert(all.subrange(0, i + 1).drop_last() =~= all.subrange(0, i as int));
            assert(all.subrange(0, i + 1).last() == l@);
            assert forall|k: int| 0 <= k < taken@.len() implies lists_view(taken@)[k] == all[i
                + 1 + k] by {
                assert(taken@[k] == prev[k + 1]);
                assert(lists_view(prev)[k + 1] == all[i + 1 + k]);
            }
            assert(lists_view(taken@) =~= all.subrange(i + 1, all.len() as int));
        }
        if !str_eq(l.id.as_str(), id) {
            let ghost before = kept@;
            kept.push(l);
            proof {
                assert(lists_view(kept@) =~= lists_view(before).push(l@));
            }
        }
        i = i + 1;
    }
    assert(all.subrange(0, i as int) =~= all);
    doc.lists = kept;
    doc.updated_at = now;
}

/// `words` less those with the given headword.
pub open spec fn without_word(words: Seq<ListWordView>, word: Seq<char>) -> Seq<ListWordView>
    decreases words.len(),
{
    if words.len() == 0 {
        Seq::empty()
    } else if words.last().word == word {
        without_word(words.drop_last(), word)
    } else {
        without_word(words.drop_last(), word).push(words.last())
    }
}

pub open spec fn pruned(l: WordListView, word: Seq<char>, now: u64) -> WordListView {
    WordListView { words: without_word(l.words, word), updated_at: now, ..l }
}

pub open spec fn remove_word_spec(d: ListsDocView, id: Seq<char>, word: Seq<char>, now: u64) -> ListsDocView {
    let lists = match first_where(d.lists, has_id(id)) {
        Some(i) => if without_word(d.lists[i].words, word).len() != d.lists[i].words.len() {
            d.lists.update(i, pruned(d.lists[i], word, now))
        } else {
            d.lists
        },
        None => d.lists,
    };
    ListsDocView { lists, updated_at: now, ..d }
}

proof fn lemma_without_word_len(words: Seq<ListWordView>, word: Seq<char>)
    ensures
        without_word(words, word).len() <= words.len(),
        without_word(words, word).len() == words.len() ==> without_word(words, word) == words,
    decreases words.len(),
{
    if words.len() > 0 {
        lemma_without_word_len(words.drop_last(), word);
        if without_word(words, word).len() == words.len() {
            assert(words.last().word != word);
            assert(without_word(words, word) =~= words.drop_last().push(words.last()));
            assert(words.drop_last().push(words.last()) =~= words);
        }
    }
}

/// Remove a headword from the list with the given id.
pub fn remove_word(doc: &mut ListsDoc, id: &str, word: &str, now: u64)
    ensures
        final(doc)@ == remove_word_spec(old(doc)@, id@, word@, now),
{
    match find_id(&doc.lists, id) {
        Some(i) => {
            let ghost before = doc.lists@;
            let mut taken: Vec<ListWord> = Vec::new();
            std::mem::swap(&mut doc.lists[i].words, &mut taken);
            let ghost all = words_view(taken@);
            proof {
                assert(all == lists_view(before)[i as int].words);
            }
            let before_len = taken.len();
            let mut kept: Vec<ListWord> = Vec::new();
            let mut j: usize = 0;
            assert(all.subrange(0, 0) =~= Seq::<ListWordView>::empty());
            while taken.len() > 0
                invariant
                    all.len() == j + taken@.len(),
                    all.len() <= usize::MAX,
                    words_view(taken@) == all.subrange(j as int, all.len() as int),
                    words_view(kept@) == without_word(all.subrange(0, j as int), word@),
                decreases taken.len(),
            {
                let ghost prev = taken@;
                let w = taken.remove(0);
                proof {
                    assert(words_view(prev)[0] == w@);
                    assert(all[j as int] == words_view(prev)[0]);
                    assert(all.subrange(0, j + 1).drop_last() =~= all.subrange(0, j as int));
                    assert(all.subrange(0, j + 1).last() == w@);
                    assert forall|k: int| 0 <= k < taken@.len() implies words_view(taken@)[k]
                        == all[j + 1 + k] by {
                        assert(taken@[k] == prev[k + 1]);
                        assert(words_view(prev)[k + 1] == all[j + 1 + k]);
                    }
                    assert(words_view(taken@) =~= all.subrange(j + 1, all.len() as int));
                }
                if !str_eq(w.word.as_str(), word) {
                    let ghost b = kept@;
                    kept.push(w);
                    proof {
                        assert(words_view(kept@) =~= words_view(b).push(w@));
                    }
                }
                j = j + 1;
            }
            assert(all.subrange(0, j as int) =~= all);
            let changed = kept.len() != before_len;
            doc.lists[i].words = kept;
            if changed {
                doc.lists[i].updated_at = now;
            }
            proof {
                lemma_without_word_len(all, word@);
                if changed {
                    assert(lists_view(doc.lists@) =~= lists_view(before).update(
                        i as int,
                        pruned(lists_view(before)[i as int], word@, now),
                    ));
                } else {
                    assert(lists_view(doc.lists@) =~= lists_view(before));
                }
            }
        },
        None => {},
    }
    doc.updated_at = now;
}


// ── Course imports ──────────────────────────────────────────────────────────

pub open spec fn unit_list_title_spec(level: u8, unit_title: Seq<char>) -> Seq<char> {
    clean_title_spec(hsk_prefix(level) + unit_title)
}

/// The title an imported unit gets: `"HSK 1 · Greetings & courtesy"`.
pub fn unit_list_title(level: u8, unit: &hsk::Unit) -> (r: String)
    ensures
        r@ == unit_list_title_spec(level, unit.title@),
{
    let mut raw = hsk_prefix_string(level);
    raw.append(unit.title.as_str());
    clean_title(raw.as_str())
}

/// The course words, as list entries added at `now`.
pub open spec fn course_words_spec(words: Seq<hsk::Word>, now: u64) -> Seq<ListWordView> {
    words.map_values(|w: hsk::Word| from_course_spec(w.word@, w.pinyin@, w.gloss@, w.level, now))
}

/// Import a unit, or return the list it was already imported into, unchanged.
pub open spec fn import_unit_spec(
    d: ListsDocView,
    level: u8,
    unit_id: Seq<char>,
    unit_title: Seq<char>,
    words: Seq<hsk::Word>,
    id: Seq<char>,
    now: u64,
) -> (ListsDocView, Option<Seq<char>>) {
    match first_where(d.lists, from_unit_pred(level, unit_id)) {
        Some(i) => (d, Some(d.lists[i].id)),
        None => create_spec(
            d,
            id,
            now,
            unit_list_title_spec(level, unit_title),
            SourceView::HskUnit { level, unit_id, unit_title },
            course_words_spec(words, now),
        ),
    }
}

/// Import a unit into a new list with the given id, or return the id of the
/// list it was already imported into.
///
/// Tapping "add this lesson" twice has to be safe: the second tap finds the
/// first list rather than making another one, and a list the learner has since
/// pruned is left alone.
pub fn import_unit(
    doc: &mut ListsDoc,
    level: u8,
    unit: &hsk::Unit,
    words: &Vec<hsk::Word>,
    id: String,
    now: u64,
) -> (r: Option<String>)
    ensures
        (final(doc)@, opt_view(r)) == import_unit_spec(
            old(doc)@,
            level,
            unit.id@,
            unit.title@,
            words@,
            id@,
            now,
        ),
{
    match doc.list_for_unit(level, unit.id.as_str()) {
        Some(existing) => {
            return Some(existing.id.clone());
        },
        None => {},
    }
    let mut entries: Vec<ListWord> = Vec::new();
    let mut i: usize = 0;
    while i < words.len()
        invariant
            i <= words.len(),
            entries@.len() == i,
            words_view(entries@) == course_words_spec(words@, now).subrange(0, i as int),
        decreases words.len() - i,
    {
        let ghost before = entries@;
        entries.push(ListWord::from_course(&words[i], now));
        proof {
            let target = course_words_spec(words@, now).subrange(0, i + 1);
            assert forall|k: int| 0 <= k < i + 1 implies words_view(entries@)[k] == target[k] by {
                if k < i {
                    assert(entries@[k] == before[k]);
                    assert(words_view(before)[k] == course_words_spec(words@, now).subrange(
                        0,
                        i as int,
                    )[k]);
                }
            }
            assert(words_view(entries@) =~= target);
        }
        i = i + 1;
    }
    assert(course_words_spec(words@, now).subrange(0, words.len() as int) =~= course_words_spec(
        words@,
        now,
    ));
    let title = unit_list_title(level, unit);
    create(doc, id, now, title.as_str(), ListSource::from_unit(level, unit), entries)
}

// ── Ids ─────────────────────────────────────────────────────────────────────

/// The lower-case hexadecimal digit for `d`, which is below sixteen.
pub open spec fn hex_char(d: nat) -> char {
    if d < 10 {
        (d + 48) as char
    } else {
        (d + 87) as char
    }
}

/// `n` in lower-case hexadecimal, without leading zeros.
pub open spec fn hex(n: nat) -> Seq<char>
    decreases n,
{
    if n < 16 {
        seq![hex_char(n)]
    } else {
        hex(n / 16).push(hex_char(n % 16))
    }
}

/// `n` in exactly four lower-case hexadecimal digits.
pub open spec fn hex4(n: nat) -> Seq<char> {
    seq![hex_char(n / 4096), hex_char((n / 256) % 16), hex_char((n / 16) % 16), hex_char(n % 16)]
}

fn hex_digit(d: u64) -> (c: char)
    requires
        d < 16,
    ensures
        c == hex_char(d as nat),
{
    if d < 10 {
        ((d as u8) + 48) as char
    } else {
        ((d as u8) + 87) as char
    }
}

fn push_hex(out: &mut Vec<char>, n: u64)
    ensures
        final(out)@ == old(out)@ + hex(n as nat),
    decreases n,
{
    if n < 16 {
        out.push(hex_digit(n));
        assert(old(out)@ + hex(n as nat) =~= old(out)@.push(hex_char(n as nat)));
    } else {
        push_hex(out, n / 16);
        out.push(hex_digit(n % 16));
        assert(final(out)@ =~= old(out)@ + hex(n as nat));
    }
}

pub open spec fn new_id_spec(millis: u64, salt: u16) -> Seq<char> {
    seq!['l'] + hex(millis as nat) + hex4(salt as nat)
}

/// A list id: the millisecond it was made, in hex, then 16 random bits as four
/// hex digits, after an `l`. Unique enough: two lists made in the same
/// millisecond are a double tap.
pub fn new_id(millis: u64, salt: u16) -> (r: String)
    ensures
        r@ == new_id_spec(millis, salt),
{
    let mut out: Vec<char> = vec!['l'];
    push_hex(&mut out, millis);
    let s = salt as u64;
    out.push(hex_digit(s / 4096));
    out.push(hex_digit((s / 256) % 16));
    out.push(hex_digit((s / 16) % 16));
    out.push(hex_digit(s % 16));
    assert(out@ =~= new_id_spec(millis, salt));
    string_from_chars(&out)
}

// ── Laws ────────────────────────────────────────────────────────────────────

/// Dropping empty and repeated headwords leaves no empty or repeated headword,
/// and never more words than there were.
pub proof fn lemma_kept_words_shape(words: Seq<ListWordView>)
    ensures
        kept_words(words).len() <= words.len(),
        forall|i: int| 0 <= i < kept_words(words).len() ==> #[trigger] kept_words(words)[i].word.len() > 0,
        forall|i: int, j: int|
            0 <= i < j < kept_words(words).len() ==> #[trigger] kept_words(words)[i].word
                != #[trigger] kept_words(words)[j].word,
    decreases words.len(),
{
    if words.len() > 0 {
        lemma_kept_words_shape(words.drop_last());
        let k = kept_words(words.drop_last());
        let w = words.last();
        if !(w.word.len() == 0 || has_word(k, w.word)) {
            let r = k.push(w);
            assert forall|i: int, j: int| 0 <= i < j < r.len() implies #[trigger] r[i].word
                != #[trigger] r[j].word by {
                if j == r.len() - 1 {
                    assert(r[i] == k[i]);
                }
            }
        }
    }
}

proof fn lemma_shape_lists(lists: Seq<WordListView>)
    ensures
        shape_lists(lists).len() <= lists.len(),
        forall|i: int|
            0 <= i < shape_lists(lists).len() ==> #[trigger] words_in_shape(shape_lists(lists)[i].words),
    decreases lists.len(),
{
    if lists.len() > 0 {
        lemma_shape_lists(lists.drop_last());
        let l = lists.last();
        if l.id.len() > 0 {
            let ws = at_most(l.words, MAX_WORDS as nat).map_values(|w: ListWordView| shape_word(w));
            lemma_kept_words_shape(ws);
            let r = shape_lists(lists);
            assert(r[r.len() - 1] == shape_list(l));
            assert(words_in_shape(shape_list(l).words));
            assert forall|i: int| 0 <= i < r.len() implies #[trigger] words_in_shape(r[i].words) by {
                if i < r.len() - 1 {
                    assert(r[i] == shape_lists(lists.drop_last())[i]);
                }
            }
        }
    }
}

/// A document read back from storage is always in shape: at most
/// [`MAX_LISTS`] lists, each with at most [`MAX_WORDS`] words, none of them
/// empty or repeated.
pub proof fn lemma_into_shape_in_shape(d: ListsDocView)
    ensures
        in_shape(into_shape_spec(d)),
{
    lemma_shape_lists(at_most(d.lists, MAX_LISTS as nat));
}


/// Merging keeps a list in shape: still no empty or repeated headword, and no
/// more than [`MAX_WORDS`] words once it has been merged into.
pub proof fn lemma_merged_in_shape(existing: Seq<ListWordView>, incoming: Seq<ListWordView>)
    requires
        words_in_shape(existing),
    ensures
        words_in_shape(merged(existing, incoming)),
        existing.len() <= merged(existing, incoming).len(),
        forall|i: int| 0 <= i < existing.len() ==> merged(existing, incoming)[i] == existing[i],
    decreases incoming.len(),
{
    if incoming.len() > 0 {
        lemma_merged_in_shape(existing, incoming.drop_last());
        let m = merged(existing, incoming.drop_last());
        let w = incoming.last();
        if !(w.word.len() == 0 || has_word(m, w.word) || m.len() >= MAX_WORDS) {
            let r = m.push(w);
            assert forall|i: int, j: int| 0 <= i < j < r.len() implies #[trigger] r[i].word
                != #[trigger] r[j].word by {
                if j == r.len() - 1 {
                    assert(r[i] == m[i]);
                }
            }
        }
    }
}

/// Every word merged in is already there afterwards, unless the list was full.
proof fn lemma_merged_covers(existing: Seq<ListWordView>, incoming: Seq<ListWordView>)
    ensures
        forall|k: int|
            0 <= k < incoming.len() ==> (#[trigger] incoming[k]).word.len() == 0 || has_word(
                merged(existing, incoming),
                incoming[k].word,
            ) || merged(existing, incoming).len() >= MAX_WORDS,
    decreases incoming.len(),
{
    if incoming.len() > 0 {
        let rest = incoming.drop_last();
        lemma_merged_covers(existing, rest);
        let m = merged(existing, rest);
        let r = merged(existing, incoming);
        let w = incoming.last();
        assert(forall|i: int| 0 <= i < m.len() ==> r[i] == m[i]);
        assert forall|k: int| 0 <= k < incoming.len() implies (#[trigger] incoming[k]).word.len()
            == 0 || has_word(r, incoming[k].word) || r.len() >= MAX_WORDS by {
            if k < incoming.len() - 1 {
                assert(incoming[k] == rest[k]);
                if has_word(m, rest[k].word) {
                    let i = choose|i: int| 0 <= i < m.len() && m[i].word == rest[k].word;
                    assert(r[i] == m[i]);
                }
            } else if !(w.word.len() == 0 || has_word(m, w.word) || m.len() >= MAX_WORDS) {
                assert(r[r.len() - 1] == w);
            } else if has_word(m, w.word) {
                let i = choose|i: int| 0 <= i < m.len() && m[i].word == w.word;
                assert(r[i] == m[i]);
            }
        }
    }
}

/// Merging into a list whose words already cover `incoming` changes nothing.
proof fn lemma_merged_noop(existing: Seq<ListWordView>, incoming: Seq<ListWordView>)
    requires
        forall|k: int|
            0 <= k < incoming.len() ==> (#[trigger] incoming[k]).word.len() == 0 || has_word(
                existing,
                incoming[k].word,
            ) || existing.len() >= MAX_WORDS,
    ensures
        merged(existing, incoming) == existing,
    decreases incoming.len(),
{
    if incoming.len() > 0 {
        let rest = incoming.drop_last();
        assert forall|k: int| 0 <= k < rest.len() implies (#[trigger] rest[k]).word.len() == 0
            || has_word(existing, rest[k].word) || existing.len() >= MAX_WORDS by {
            assert(rest[k] == incoming[k]);
        }
        lemma_merged_noop(existing, rest);
        assert(incoming.last() == incoming[incoming.len() - 1]);
    }
}

/// Merging the same words twice is merging them once: re-importing adds
/// nothing.
pub proof fn lemma_merge_twice(existing: Seq<ListWordView>, incoming: Seq<ListWordView>)
    ensures
        merged(merged(existing, incoming), incoming) == merged(existing, incoming),
{
    lemma_merged_covers(existing, incoming);
    lemma_merged_noop(merged(existing, incoming), incoming);
}

/// Creating a list keeps the document in shape.
pub proof fn lemma_create_in_shape(
    d: ListsDocView,
    id: Seq<char>,
    now: u64,
    title: Seq<char>,
    source: SourceView,
    words: Seq<ListWordView>,
)
    requires
        in_shape(d),
    ensures
        in_shape(create_spec(d, id, now, title, source, words).0),
{
    if d.lists.len() < MAX_LISTS {
        lemma_merged_in_shape(Seq::empty(), words);
        let r = create_spec(d, id, now, title, source, words).0;
        assert forall|i: int| 0 <= i < r.lists.len() implies #[trigger] words_in_shape(
            r.lists[i].words,
        ) by {
            if i > 0 {
                assert(r.lists[i] == d.lists[i - 1]);
            }
        }
    }
}

/// Renaming a list keeps the document in shape.
pub proof fn lemma_rename_in_shape(d: ListsDocView, id: Seq<char>, title: Seq<char>, now: u64)
    requires
        in_shape(d),
    ensures
        in_shape(rename_spec(d, id, title, now)),
{
    lemma_first_where(d.lists, has_id(id));
    let r = rename_spec(d, id, title, now);
    assert forall|i: int| 0 <= i < r.lists.len() implies #[trigger] words_in_shape(r.lists[i].words) by {
        assert(r.lists[i].words == d.lists[i].words);
    }
}

proof fn lemma_without_id_sub(lists: Seq<WordListView>, id: Seq<char>)
    ensures
        without_id(lists, id).len() <= lists.len(),
        forall|i: int|
            0 <= i < without_id(lists, id).len() ==> exists|j: int|
                0 <= j < lists.len() && #[trigger] without_id(lists, id)[i] == lists[j],
    decreases lists.len(),
{
    if lists.len() > 0 {
        let rest = lists.drop_last();
        lemma_without_id_sub(rest, id);
        let r = without_id(lists, id);
        assert forall|i: int| 0 <= i < r.len() implies exists|j: int|
            0 <= j < lists.len() && #[trigger] r[i] == lists[j] by {
            if i < without_id(rest, id).len() {
                let j = choose|j: int| 0 <= j < rest.len() && without_id(rest, id)[i] == rest[j];
                assert(r[i] == without_id(rest, id)[i]);
                assert(lists[j] == rest[j]);
            } else {
                assert(r[i] == lists[lists.len() - 1]);
            }
        }
    }
}

/// Deleting a list keeps the document in shape.
pub proof fn lemma_delete_in_shape(d: ListsDocView, id: Seq<char>, now: u64)
    requires
        in_shape(d),
    ensures
        in_shape(delete_spec(d, id, now)),
{
    lemma_without_id_sub(d.lists, id);
    let r = delete_spec(d, id, now);
    assert forall|i: int| 0 <= i < r.lists.len() implies #[trigger] words_in_shape(r.lists[i].words) by {
        let j = choose|j: int| 0 <= j < d.lists.len() && r.lists[i] == d.lists[j];
        assert(words_in_shape(d.lists[j].words));
    }
}

proof fn lemma_without_word_shape(words: Seq<ListWordView>, word: Seq<char>)
    requires
        words_in_shape(words),
    ensures
        words_in_shape(without_word(words, word)),
        forall|i: int|
            0 <= i < without_word(words, word).len() ==> exists|j: int|
                0 <= j < words.len() && #[trigger] without_word(words, word)[i] == words[j],
    decreases words.len(),
{
    if words.len() > 0 {
        let rest = words.drop_last();
        assert(words_in_shape(rest)) by {
            assert forall|i: int, j: int| 0 <= i < j < rest.len() implies #[trigger] rest[i].word
                != #[trigger] rest[j].word by {
                assert(rest[i] == words[i] && rest[j] == words[j]);
            }
            assert forall|i: int| 0 <= i < rest.len() implies #[trigger] rest[i].word.len() > 0 by {
                assert(rest[i] == words[i]);
            }
        }
        lemma_without_word_shape(rest, word);
        lemma_without_word_len(words, word);
        let r0 = without_word(rest, word);
        let r = without_word(words, word);
        let last = words.last();
        assert forall|i: int| 0 <= i < r0.len() implies exists|j: int|
            0 <= j < rest.len() && #[trigger] r0[i] == words[j] by {
            let j = choose|j: int| 0 <= j < rest.len() && r0[i] == rest[j];
            assert(rest[j] == words[j]);
        }
        if last.word != word {
            assert forall|i: int, j: int| 0 <= i < j < r.len() implies #[trigger] r[i].word
                != #[trigger] r[j].word by {
                if j == r.len() - 1 {
                    let k = choose|k: int| 0 <= k < rest.len() && r0[i] == words[k];
                    assert(r[i] == r0[i]);
                    assert(words[k].word != words[words.len() - 1].word);
                } else {
                    assert(r[i] == r0[i] && r[j] == r0[j]);
                }
            }
            assert forall|i: int| 0 <= i < r.len() implies exists|j: int|
                0 <= j < words.len() && #[trigger] r[i] == words[j] by {
                if i == r.len() - 1 {
                    assert(r[i] == words[words.len() - 1]);
                } else {
                    assert(r[i] == r0[i]);
                    let k = choose|k: int| 0 <= k < rest.len() && r0[i] == words[k];
                }
            }
            assert forall|i: int| 0 <= i < r.len() implies #[trigger] r[i].word.len() > 0 by {
                if i < r.len() - 1 {
                    assert(r[i] == r0[i]);
                }
            }
        }
    }
}

/// Removing a word keeps the document in shape.
pub proof fn lemma_remove_word_in_shape(d: ListsDocView, id: Seq<char>, word: Seq<char>, now: u64)
    requires
        in_shape(d),
    ensures
        in_shape(remove_word_spec(d, id, word, now)),
{
    lemma_first_where(d.lists, has_id(id));
    let r = remove_word_spec(d, id, word, now);
    match first_where(d.lists, has_id(id)) {
        Some(k) => {
            assert(words_in_shape(d.lists[k].words));
            lemma_without_word_shape(d.lists[k].words, word);
            assert forall|i: int| 0 <= i < r.lists.len() implies #[trigger] words_in_shape(
                r.lists[i].words,
            ) by {
                if i != k {
                    assert(r.lists[i] == d.lists[i]);
                }
            }
        },
        None => {},
    }
}

/// Importing a unit keeps the document in shape.
pub proof fn lemma_import_unit_in_shape(
    d: ListsDocView,
    level: u8,
    unit_id: Seq<char>,
    unit_title: Seq<char>,
    words: Seq<hsk::Word>,
    id: Seq<char>,
    now: u64,
)
    requires
        in_shape(d),
    ensures
        in_shape(import_unit_spec(d, level, unit_id, unit_title, words, id, now).0),
{
    lemma_create_in_shape(
        d,
        id,
        now,
        unit_list_title_spec(level, unit_title),
        SourceView::HskUnit { level, unit_id, unit_title },
        course_words_spec(words, now),
    );
}

/// Importing a unit a second time changes nothing and answers with the list the
/// first import made or found — whatever id and time the second call brings.
pub proof fn lemma_import_unit_twice(
    d: ListsDocView,
    level: u8,
    unit_id: Seq<char>,
    unit_title: Seq<char>,
    words: Seq<hsk::Word>,
    id1: Seq<char>,
    now1: u64,
    id2: Seq<char>,
    now2: u64,
)
    ensures
        ({
            let (d1, r1) = import_unit_spec(d, level, unit_id, unit_title, words, id1, now1);
            let (d2, r2) = import_unit_spec(d1, level, unit_id, unit_title, words, id2, now2);
            d2 == d1 && r2 == r1
        }),
{
    let p = from_unit_pred(level, unit_id);
    let (d1, r1) = import_unit_spec(d, level, unit_id, unit_title, words, id1, now1);
    match first_where(d.lists, p) {
        Some(i) => {},
        None => {
            if d.lists.len() < MAX_LISTS {
                let l = d1.lists[0];
                assert(p(l));
                lemma_first_where_at(d1.lists, p, 0);
            }
        },
    }
}


// ── The full shape of a clamped document ───────────────────────────────────

/// `out` is `f` applied to elements of `inp` picked at the strictly increasing
/// positions `idx`: what survives keeps its stored order.
pub open spec fn picks<A, B>(out: Seq<B>, inp: Seq<A>, f: spec_fn(A) -> B, idx: Seq<int>) -> bool {
    &&& idx.len() == out.len()
    &&& forall|j: int|
        0 <= j < idx.len() ==> 0 <= #[trigger] idx[j] < inp.len() && out[j] == f(inp[idx[j]])
    &&& forall|i: int, j: int| 0 <= i < j < idx.len() ==> #[trigger] idx[i] < #[trigger] idx[j]
}

/// The clamped words of `l` are its stored words, cleaned, picked at `idx`.
pub open spec fn words_kept_in_order(l: WordListView, idx: Seq<int>) -> bool {
    picks(shape_list(l).words, l.words, |w: ListWordView| shape_word(w), idx)
}

/// The lists of the clamped `d` are its stored lists, clamped, picked at `idx`.
pub open spec fn lists_kept_in_order(d: ListsDocView, idx: Seq<int>) -> bool {
    picks(into_shape_spec(d).lists, d.lists, |l: WordListView| shape_list(l), idx)
}

/// Every character of `s` is a Han character.
pub open spec fn all_han(s: Seq<char>) -> bool {
    forall|i: int| 0 <= i < s.len() ==> #[trigger] is_han_spec(s[i])
}

/// One word as a clamped document holds it.
pub open spec fn word_fully_shaped(w: ListWordView) -> bool {
    &&& 1 <= w.word.len() <= MAX_HEADWORD
    &&& all_han(w.word)
    &&& w.pinyin.len() <= MAX_PINYIN
    &&& w.gloss.len() <= MAX_GLOSS
}

/// One list as a clamped document holds it.
pub open spec fn list_fully_shaped(l: WordListView) -> bool {
    &&& l.id.len() > 0
    &&& 1 <= l.title.len() <= MAX_TITLE
    &&& words_in_shape(l.words)
    &&& forall|j: int| 0 <= j < l.words.len() ==> #[trigger] word_fully_shaped(l.words[j])
}

proof fn lemma_han_only(s: Seq<char>)
    ensures
        all_han(han_only(s)),
    decreases s.len(),
{
    if s.len() > 0 {
        lemma_han_only(s.drop_last());
        let h = han_only(s.drop_last());
        if is_han_spec(s.last()) {
            assert forall|i: int| 0 <= i < h.len() + 1 implies #[trigger] is_han_spec(
                h.push(s.last())[i],
            ) by {
                if i < h.len() {
                    assert(h.push(s.last())[i] == h[i]);
                }
            }
        }
    }
}

proof fn lemma_clean_title_len(s: Seq<char>)
    ensures
        1 <= clean_title_spec(s).len() <= MAX_TITLE,
{
    assert(untitled().len() == 13);
}

/// A clean word: Han-only headword of at most twelve characters, readings within
/// their caps.
proof fn lemma_shape_word(w: ListWordView)
    requires
        shape_word(w).word.len() > 0,
    ensures
        word_fully_shaped(shape_word(w)),
{
    lemma_han_only(w.word);
    let h = han_only(w.word);
    let c = clean_headword_spec(w.word);
    assert forall|i: int| 0 <= i < c.len() implies #[trigger] is_han_spec(c[i]) by {
        assert(c[i] == h[i]);
    }
}

/// Dropping empty and repeated headwords keeps the order of what is left.
proof fn lemma_kept_words_order(words: Seq<ListWordView>) -> (idx: Seq<int>)
    ensures
        picks(kept_words(words), words, |w: ListWordView| w, idx),
    decreases words.len(),
{
    if words.len() == 0 {
        Seq::empty()
    } else {
        let rest = words.drop_last();
        let idx0 = lemma_kept_words_order(rest);
        let k = kept_words(rest);
        let w = words.last();
        assert forall|j: int| 0 <= j < idx0.len() implies words[idx0[j]] == rest[idx0[j]] by {}
        if w.word.len() == 0 || has_word(k, w.word) {
            idx0
        } else {
            let idx = idx0.push(words.len() - 1);
            let out = k.push(w);
            assert forall|j: int| 0 <= j < idx.len() implies 0 <= #[trigger] idx[j] < words.len()
                && out[j] == (|w: ListWordView| w)(words[idx[j]]) by {
                if j < idx0.len() {
                    assert(idx[j] == idx0[j]);
                    assert(out[j] == k[j]);
                }
            }
            idx
        }
    }
}

/// The words of a clamped list are its stored words, cleaned, in stored order;
/// and a list with an id comes out fully in shape.
pub proof fn lemma_shape_list_words(l: WordListView)
    ensures
        exists|idx: Seq<int>| #[trigger] words_kept_in_order(l, idx),
        list_fully_shaped(shape_list(l)) || l.id.len() == 0,
{
    let m = at_most(l.words, MAX_WORDS as nat).map_values(|w: ListWordView| shape_word(w));
    let idx = lemma_kept_words_order(m);
    let out = shape_list(l).words;
    assert(out == kept_words(m));
    assert forall|j: int| 0 <= j < idx.len() implies 0 <= #[trigger] idx[j] < l.words.len()
        && out[j] == (|w: ListWordView| shape_word(w))(l.words[idx[j]]) by {
        assert(out[j] == m[idx[j]]);
        assert(at_most(l.words, MAX_WORDS as nat)[idx[j]] == l.words[idx[j]]);
    }
    assert(picks(out, l.words, |w: ListWordView| shape_word(w), idx));
    assert(words_kept_in_order(l, idx));
    lemma_kept_words_shape(m);
    lemma_clean_title_len(l.title);
    assert forall|j: int| 0 <= j < out.len() implies #[trigger] word_fully_shaped(out[j]) by {
        assert(out[j] == shape_word(l.words[idx[j]]));
        assert(out[j].word.len() > 0);
        lemma_shape_word(l.words[idx[j]]);
    }
}

/// The lists of a clamped document are stored lists with an id, each clamped,
/// in stored order.
proof fn lemma_shape_lists_order(lists: Seq<WordListView>) -> (idx: Seq<int>)
    ensures
        picks(shape_lists(lists), lists, |l: WordListView| shape_list(l), idx),
        forall|j: int| 0 <= j < idx.len() ==> (#[trigger] lists[idx[j]]).id.len() > 0,
    decreases lists.len(),
{
    if lists.len() == 0 {
        Seq::empty()
    } else {
        let rest = lists.drop_last();
        let idx0 = lemma_shape_lists_order(rest);
        let k = shape_lists(rest);
        let l = lists.last();
        assert forall|j: int| 0 <= j < idx0.len() implies lists[idx0[j]] == rest[idx0[j]] by {}
        if l.id.len() == 0 {
            idx0
        } else {
            let idx = idx0.push(lists.len() - 1);
            let out = k.push(shape_list(l));
            assert forall|j: int| 0 <= j < idx.len() implies 0 <= #[trigger] idx[j] < lists.len()
                && out[j] == (|l: WordListView| shape_list(l))(lists[idx[j]]) by {
                if j < idx0.len() {
                    assert(idx[j] == idx0[j]);
                    assert(out[j] == k[j]);
                }
            }
            assert forall|j: int| 0 <= j < idx.len() implies (#[trigger] lists[idx[j]]).id.len() > 0 by {
                if j < idx0.len() {
                    assert(idx[j] == idx0[j]);
                }
            }
            idx
        }
    }
}

/// Whatever was stored, the document read back is version 1 with at most
/// [`MAX_LISTS`] lists; every list has an id, a title of 1 to [`MAX_TITLE`]
/// characters, and at most [`MAX_WORDS`] words with distinct headwords of 1 to
/// [`MAX_HEADWORD`] Han characters, pinyin of at most [`MAX_PINYIN`] and a gloss of
/// at most [`MAX_GLOSS`] characters; and the lists are stored ones, clamped, in
/// the order they were stored. [`lemma_shape_list_words`] says the same of the
/// words in each list.
pub proof fn lemma_into_shape_full(d: ListsDocView)
    ensures
        into_shape_spec(d).version == 1,
        into_shape_spec(d).lists.len() <= MAX_LISTS,
        forall|i: int|
            0 <= i < into_shape_spec(d).lists.len() ==> #[trigger] list_fully_shaped(
                into_shape_spec(d).lists[i],
            ),
        exists|idx: Seq<int>| #[trigger] lists_kept_in_order(d, idx),
{
    let a = at_most(d.lists, MAX_LISTS as nat);
    let r = into_shape_spec(d).lists;
    let idx = lemma_shape_lists_order(a);
    lemma_shape_lists(a);
    assert forall|j: int| 0 <= j < idx.len() implies 0 <= #[trigger] idx[j] < d.lists.len() && r[j]
        == (|l: WordListView| shape_list(l))(d.lists[idx[j]]) by {
        assert(a[idx[j]] == d.lists[idx[j]]);
    }
    assert(picks(r, d.lists, |l: WordListView| shape_list(l), idx));
    assert(lists_kept_in_order(d, idx));
    assert forall|i: int| 0 <= i < r.len() implies #[trigger] list_fully_shaped(r[i]) by {
        assert(r[i] == shape_list(a[idx[i]]));
        assert(a[idx[i]].id.len() > 0);
        lemma_shape_list_words(a[idx[i]]);
    }
}

// ── Merging, in closed form ─────────────────────────────────────────────────

/// The words of `incoming` that `existing` does not have, each headword once and
/// none empty, in the order they come.
pub open spec fn fresh_words(existing: Seq<ListWordView>, incoming: Seq<ListWordView>) -> Seq<
    ListWordView,
>
    decreases incoming.len(),
{
    if incoming.len() == 0 {
        Seq::empty()
    } else {
        let f = fresh_words(existing, incoming.drop_last());
        let w = incoming.last();
        if w.word.len() == 0 || has_word(existing, w.word) || has_word(f, w.word) {
            f
        } else {
            f.push(w)
        }
    }
}

/// Room left under [`MAX_WORDS`].
pub open spec fn room(existing: Seq<ListWordView>) -> nat {
    if existing.len() < MAX_WORDS {
        (MAX_WORDS - existing.len()) as nat
    } else {
        0
    }
}

proof fn lemma_has_word_append(a: Seq<ListWordView>, b: Seq<ListWordView>, w: Seq<char>)
    ensures
        has_word(a + b, w) <==> has_word(a, w) || has_word(b, w),
{
    if has_word(a + b, w) {
        let i = choose|i: int| 0 <= i < (a + b).len() && (a + b)[i].word == w;
        if i >= a.len() {
            assert(b[i - a.len()] == (a + b)[i]);
        }
    }
    if has_word(a, w) {
        let i = choose|i: int| 0 <= i < a.len() && a[i].word == w;
        assert((a + b)[i] == a[i]);
    }
    if has_word(b, w) {
        let i = choose|i: int| 0 <= i < b.len() && b[i].word == w;
        assert((a + b)[a.len() + i] == b[i]);
    }
}

/// Merging appends the new distinct, non-empty headwords of `incoming`, in order,
/// as many as fit under [`MAX_WORDS`].
pub proof fn lemma_merged_closed_form(existing: Seq<ListWordView>, incoming: Seq<ListWordView>)
    ensures
        merged(existing, incoming) == existing + at_most(fresh_words(existing, incoming), room(existing)),
    decreases incoming.len(),
{
    let e = existing;
    let rm = room(e);
    if incoming.len() == 0 {
        assert(e + at_most(Seq::<ListWordView>::empty(), rm) =~= e);
    } else {
        let rest = incoming.drop_last();
        lemma_merged_closed_form(e, rest);
        let f0 = fresh_words(e, rest);
        let m0 = merged(e, rest);
        let p0 = at_most(f0, rm);
        let w = incoming.last();
        assert(m0 == e + p0);
        lemma_has_word_append(e, p0, w.word);
        if w.word.len() == 0 || has_word(e, w.word) {
        } else if has_word(f0, w.word) {
            if !has_word(p0, w.word) {
                let i = choose|i: int| 0 <= i < f0.len() && f0[i].word == w.word;
                if f0.len() <= rm {
                    assert(p0 == f0);
                }
                assert(p0.len() == rm);
                assert(m0.len() >= MAX_WORDS);
            }
        } else {
            let f = f0.push(w);
            assert(fresh_words(e, incoming) == f);
            assert(!has_word(p0, w.word)) by {
                if has_word(p0, w.word) {
                    let i = choose|i: int| 0 <= i < p0.len() && p0[i].word == w.word;
                    assert(f0[i] == p0[i]);
                }
            }
            if m0.len() >= MAX_WORDS {
                assert(f0.len() >= rm);
                assert(at_most(f, rm) =~= p0);
            } else {
                assert(f0.len() < rm);
                assert(p0 == f0);
                assert(at_most(f, rm) == f);
                assert(m0.push(w) =~= e + f);
            }
        }
    }
}

// ── Imported units are found again ─────────────────────────────────────────

proof fn lemma_imported_units_come_from(lists: Seq<WordListView>, level: u8)
    ensures
        forall|j: int|
            0 <= j < imported_units_spec(lists, level).len() ==> exists|k: int|
                0 <= k < lists.len() && is_from_unit_spec(
                    lists[k],
                    level,
                    #[trigger] imported_units_spec(lists, level)[j],
                ),
    decreases lists.len(),
{
    if lists.len() > 0 {
        let rest = lists.drop_last();
        lemma_imported_units_come_from(rest, level);
        let r0 = imported_units_spec(rest, level);
        let r = imported_units_spec(lists, level);
        assert forall|j: int| 0 <= j < r.len() implies exists|k: int|
            0 <= k < lists.len() && is_from_unit_spec(lists[k], level, #[trigger] r[j]) by {
            if j < r0.len() {
                assert(r[j] == r0[j]);
                let k = choose|k: int| 0 <= k < rest.len() && is_from_unit_spec(rest[k], level, r0[j]);
                assert(lists[k] == rest[k]);
            } else {
                let k = lists.len() - 1;
                assert(lists[k] == lists.last());
                assert(is_from_unit_spec(lists[k], level, r[j]));
            }
        }
    }
}

/// Every unit a level page marks as added is found again when its lesson asks
/// for the list it was imported into.
pub proof fn lemma_imported_units_found(lists: Seq<WordListView>, level: u8, j: int)
    requires
        0 <= j < imported_units_spec(lists, level).len(),
    ensures
        first_where(lists, from_unit_pred(level, imported_units_spec(lists, level)[j])) is Some,
{
    lemma_imported_units_come_from(lists, level);
    let u = imported_units_spec(lists, level)[j];
    let k = choose|k: int| 0 <= k < lists.len() && is_from_unit_spec(lists[k], level, u);
    lemma_first_where(lists, from_unit_pred(level, u));
    if first_where(lists, from_unit_pred(level, u)) is None {
        assert(from_unit_pred(level, u)(lists[k]));
    }
}


// ── What each edit does to the lists ───────────────────────────────────────

/// Whether `k` is where the first list with the given id stands.
pub open spec fn is_first_id(lists: Seq<WordListView>, id: Seq<char>, k: int) -> bool {
    &&& 0 <= k < lists.len()
    &&& lists[k].id == id
    &&& forall|j: int| 0 <= j < k ==> lists[j].id != id
}

/// `idx` picks, in order, exactly the positions of `inp` whose list has an id
/// other than `id`, and `out` holds those lists.
pub open spec fn keeps_other_ids(
    out: Seq<WordListView>,
    inp: Seq<WordListView>,
    id: Seq<char>,
    idx: Seq<int>,
) -> bool {
    &&& picks(out, inp, |l: WordListView| l, idx)
    &&& forall|k: int|
        0 <= k < inp.len() && inp[k].id != id ==> exists|j: int|
            0 <= j < idx.len() && #[trigger] idx[j] == k
}

proof fn lemma_without_id_exact(lists: Seq<WordListView>, id: Seq<char>) -> (idx: Seq<int>)
    ensures
        keeps_other_ids(without_id(lists, id), lists, id, idx),
        forall|i: int| 0 <= i < without_id(lists, id).len() ==> (#[trigger] without_id(lists, id)[i]).id != id,
    decreases lists.len(),
{
    if lists.len() == 0 {
        Seq::empty()
    } else {
        let rest = lists.drop_last();
        let idx0 = lemma_without_id_exact(rest, id);
        let w0 = without_id(rest, id);
        let l = lists.last();
        let last = lists.len() - 1;
        assert forall|j: int| 0 <= j < idx0.len() implies lists[idx0[j]] == rest[idx0[j]] by {}
        if l.id == id {
            assert forall|k: int| 0 <= k < lists.len() && lists[k].id != id implies exists|j: int|
                0 <= j < idx0.len() && #[trigger] idx0[j] == k by {
                assert(k < last);
                assert(rest[k] == lists[k]);
            }
            idx0
        } else {
            let idx = idx0.push(last);
            let out = w0.push(l);
            assert forall|j: int| 0 <= j < idx.len() implies 0 <= #[trigger] idx[j] < lists.len()
                && out[j] == (|l: WordListView| l)(lists[idx[j]]) by {
                if j < idx0.len() {
                    assert(idx[j] == idx0[j]);
                    assert(out[j] == w0[j]);
                }
            }
            assert forall|i: int, j: int| 0 <= i < j < idx.len() implies #[trigger] idx[i]
                < #[trigger] idx[j] by {
                if j == idx.len() - 1 {
                    assert(idx[i] == idx0[i]);
                } else {
                    assert(idx[i] == idx0[i] && idx[j] == idx0[j]);
                }
            }
            assert forall|k: int| 0 <= k < lists.len() && lists[k].id != id implies exists|j: int|
                0 <= j < idx.len() && #[trigger] idx[j] == k by {
                if k == last {
                    assert(idx[idx.len() - 1] == k);
                } else {
                    assert(rest[k] == lists[k]);
                    let j = choose|j: int| 0 <= j < idx0.len() && #[trigger] idx0[j] == k;
                    assert(idx[j] == idx0[j]);
                }
            }
            assert forall|i: int| 0 <= i < out.len() implies (#[trigger] out[i]).id != id by {
                if i < w0.len() {
                    assert(out[i] == w0[i]);
                }
            }
            idx
        }
    }
}

/// Creating a list, when there is room, puts it first and pushes the others
/// back unchanged; it carries the given id, source and creation time, the
/// cleaned title, and the given words merged into an empty list. With no room
/// the document is left as it was and no id comes back.
pub proof fn lemma_create_exact(
    d: ListsDocView,
    id: Seq<char>,
    now: u64,
    title: Seq<char>,
    source: SourceView,
    words: Seq<ListWordView>,
)
    ensures
        d.lists.len() >= MAX_LISTS ==> create_spec(d, id, now, title, source, words) == (d, None::<
            Seq<char>,
        >),
        d.lists.len() < MAX_LISTS ==> {
            let (r, res) = create_spec(d, id, now, title, source, words);
            let l = r.lists[0];
            &&& res == Some(id)
            &&& r.lists.len() == d.lists.len() + 1
            &&& r.lists.subrange(1, r.lists.len() as int) == d.lists
            &&& r.version == d.version
            &&& r.updated_at == now
            &&& l.id == id
            &&& l.title == clean_title_spec(title)
            &&& l.source == source
            &&& l.words == merged(Seq::empty(), words)
            &&& l.created_at == now
            &&& l.updated_at == now
        },
{
    if d.lists.len() < MAX_LISTS {
        let r = create_spec(d, id, now, title, source, words).0;
        assert(r.lists.subrange(1, r.lists.len() as int) =~= d.lists);
    }
}

/// Deleting removes exactly the lists with that id: none is left, every list
/// with another id stays, in its order, and the document is stamped.
pub proof fn lemma_delete_exact(d: ListsDocView, id: Seq<char>, now: u64)
    ensures
        delete_spec(d, id, now).version == d.version,
        delete_spec(d, id, now).updated_at == now,
        forall|i: int|
            0 <= i < delete_spec(d, id, now).lists.len() ==> (#[trigger] delete_spec(
                d,
                id,
                now,
            ).lists[i]).id != id,
        exists|idx: Seq<int>| #[trigger] keeps_other_ids(delete_spec(d, id, now).lists, d.lists, id, idx),
{
    let idx = lemma_without_id_exact(d.lists, id);
    assert(keeps_other_ids(delete_spec(d, id, now).lists, d.lists, id, idx));
}

/// Renaming retitles the first list with that id, and only it: its title
/// becomes the cleaned title, its id, source, words and creation time stay, and
/// every other list is untouched.
pub proof fn lemma_rename_exact(d: ListsDocView, id: Seq<char>, title: Seq<char>, now: u64)
    ensures
        rename_spec(d, id, title, now).lists.len() == d.lists.len(),
        rename_spec(d, id, title, now).version == d.version,
        rename_spec(d, id, title, now).updated_at == now,
        forall|k: int|
            #[trigger] is_first_id(d.lists, id, k) ==> {
                let r = rename_spec(d, id, title, now).lists[k];
                &&& r.title == clean_title_spec(title)
                &&& r.id == d.lists[k].id
                &&& r.source == d.lists[k].source
                &&& r.words == d.lists[k].words
                &&& r.created_at == d.lists[k].created_at
                &&& (d.lists[k].title != clean_title_spec(title) ==> r.updated_at == now)
                &&& (d.lists[k].title == clean_title_spec(title) ==> r == d.lists[k])
            },
        forall|i: int|
            0 <= i < d.lists.len() && !is_first_id(d.lists, id, i) ==> #[trigger] rename_spec(
                d,
                id,
                title,
                now,
            ).lists[i] == d.lists[i],
{
    lemma_first_where(d.lists, has_id(id));
    let r = rename_spec(d, id, title, now).lists;
    match first_where(d.lists, has_id(id)) {
        Some(f) => {
            assert(is_first_id(d.lists, id, f));
            assert forall|k: int| #[trigger] is_first_id(d.lists, id, k) implies k == f by {
                if k < f {
                    assert(!has_id(id)(d.lists[k]));
                }
                if f < k {
                    assert(d.lists[f].id != id);
                }
            }
        },
        None => {
            assert forall|k: int| !(#[trigger] is_first_id(d.lists, id, k)) by {
                if 0 <= k < d.lists.len() {
                    assert(!has_id(id)(d.lists[k]));
                }
            }
        },
    }
}

/// `idx` picks, in order, exactly the positions of `inp` whose headword is not
/// `word`, and `out` holds those words.
pub open spec fn keeps_other_words(
    out: Seq<ListWordView>,
    inp: Seq<ListWordView>,
    word: Seq<char>,
    idx: Seq<int>,
) -> bool {
    &&& picks(out, inp, |w: ListWordView| w, idx)
    &&& forall|k: int|
        0 <= k < inp.len() && inp[k].word != word ==> exists|j: int|
            0 <= j < idx.len() && #[trigger] idx[j] == k
    &&& forall|i: int| 0 <= i < out.len() ==> (#[trigger] out[i]).word != word
}

proof fn lemma_without_word_exact(words: Seq<ListWordView>, word: Seq<char>) -> (idx: Seq<int>)
    ensures
        keeps_other_words(without_word(words, word), words, word, idx),
    decreases words.len(),
{
    if words.len() == 0 {
        Seq::empty()
    } else {
        let rest = words.drop_last();
        let idx0 = lemma_without_word_exact(rest, word);
        let w0 = without_word(rest, word);
        let w = words.last();
        let last = words.len() - 1;
        assert forall|j: int| 0 <= j < idx0.len() implies words[idx0[j]] == rest[idx0[j]] by {}
        if w.word == word {
            assert forall|k: int| 0 <= k < words.len() && words[k].word != word implies exists|j: int|
                0 <= j < idx0.len() && #[trigger] idx0[j] == k by {
                assert(k < last);
                assert(rest[k] == words[k]);
            }
            idx0
        } else {
            let idx = idx0.push(last);
            let out = w0.push(w);
            assert(without_word(words, word) == out);
            assert forall|j: int| 0 <= j < idx.len() implies 0 <= #[trigger] idx[j] < words.len()
                && out[j] == (|w: ListWordView| w)(words[idx[j]]) by {
                if j < idx0.len() {
                    assert(idx[j] == idx0[j]);
                    assert(out[j] == w0[j]);
                }
            }
            assert forall|i: int, j: int| 0 <= i < j < idx.len() implies #[trigger] idx[i]
                < #[trigger] idx[j] by {
                if j == idx.len() - 1 {
                    assert(idx[i] == idx0[i]);
                } else {
                    assert(idx[i] == idx0[i] && idx[j] == idx0[j]);
                }
            }
            assert forall|k: int| 0 <= k < words.len() && words[k].word != word implies exists|j: int|
                0 <= j < idx.len() && #[trigger] idx[j] == k by {
                if k == last {
                    assert(idx[idx.len() - 1] == k);
                } else {
                    assert(rest[k] == words[k]);
                    let j = choose|j: int| 0 <= j < idx0.len() && #[trigger] idx0[j] == k;
                    assert(idx[j] == idx0[j]);
                }
            }
            assert forall|i: int| 0 <= i < out.len() implies (#[trigger] out[i]).word != word by {
                if i < w0.len() {
                    assert(out[i] == w0[i]);
                }
            }
            idx
        }
    }
}

/// Removing a word prunes only the first list with that id: every entry with
/// that headword goes, every other entry stays in its order, the list is
/// stamped only when something went, and every other list is untouched.
pub proof fn lemma_remove_word_exact(d: ListsDocView, id: Seq<char>, word: Seq<char>, now: u64)
    ensures
        remove_word_spec(d, id, word, now).lists.len() == d.lists.len(),
        remove_word_spec(d, id, word, now).version == d.version,
        remove_word_spec(d, id, word, now).updated_at == now,
        forall|k: int|
            #[trigger] is_first_id(d.lists, id, k) ==> {
                let r = remove_word_spec(d, id, word, now).lists[k];
                let l = d.lists[k];
                &&& r.id == l.id
                &&& r.title == l.title
                &&& r.source == l.source
                &&& r.created_at == l.created_at
                &&& exists|idx: Seq<int>| #[trigger] keeps_other_words(r.words, l.words, word, idx)
                &&& (r.words.len() != l.words.len() ==> r.updated_at == now)
                &&& (r.words.len() == l.words.len() ==> r == l)
            },
        forall|i: int|
            0 <= i < d.lists.len() && !is_first_id(d.lists, id, i) ==> #[trigger] remove_word_spec(
                d,
                id,
                word,
                now,
            ).lists[i] == d.lists[i],
{
    lemma_first_where(d.lists, has_id(id));
    let r = remove_word_spec(d, id, word, now).lists;
    match first_where(d.lists, has_id(id)) {
        Some(f) => {
            assert(is_first_id(d.lists, id, f));
            assert forall|k: int| #[trigger] is_first_id(d.lists, id, k) implies k == f by {
                if k < f {
                    assert(!has_id(id)(d.lists[k]));
                }
                if f < k {
                    assert(d.lists[f].id != id);
                }
            }
            let l = d.lists[f];
            let idx = lemma_without_word_exact(l.words, word);
            if without_word(l.words, word).len() == l.words.len() {
                assert(keeps_other_words(l.words, l.words, word, idx)) by {
                    let o = without_word(l.words, word);
                    assert forall|j: int| 0 <= j < o.len() implies o[j] == l.words[j] by {
                        lemma_picks_all(idx, l.words.len() as int, j);
                        assert(o[j] == (|w: ListWordView| w)(l.words[idx[j]]));
                    }
                    assert(o =~= l.words);
                }
            } else {
                assert(keeps_other_words(r[f].words, l.words, word, idx));
            }
        },
        None => {
            assert forall|k: int| !(#[trigger] is_first_id(d.lists, id, k)) by {
                if 0 <= k < d.lists.len() {
                    assert(!has_id(id)(d.lists[k]));
                }
            }
        },
    }
}

/// Strictly increasing positions below `n`, as many as `n`, are `0, 1, …`.
proof fn lemma_picks_all(idx: Seq<int>, n: int, j: int)
    requires
        idx.len() == n,
        forall|i: int| 0 <= i < idx.len() ==> 0 <= #[trigger] idx[i] < n,
        forall|a: int, b: int| 0 <= a < b < idx.len() ==> #[trigger] idx[a] < #[trigger] idx[b],
        0 <= j < n,
    ensures
        idx[j] == j,
    decreases n - j,
{
    if j + 1 < n {
        lemma_picks_all(idx, n, j + 1);
        assert(idx[j] < idx[j + 1]);
    } else {
        assert(idx[j] <= n - 1);
    }
    lemma_picks_at_least(idx, j);
}

proof fn lemma_picks_at_least(idx: Seq<int>, j: int)
    requires
        forall|i: int| 0 <= i < idx.len() ==> 0 <= #[trigger] idx[i],
        forall|a: int, b: int| 0 <= a < b < idx.len() ==> #[trigger] idx[a] < #[trigger] idx[b],
        0 <= j < idx.len(),
    ensures
        idx[j] >= j,
    decreases j,
{
    if j > 0 {
        lemma_picks_at_least(idx, j - 1);
        assert(idx[j - 1] < idx[j]);
    }
}

// ── Collapsing whitespace ───────────────────────────────────────────────────

/// Every character of `s` is whitespace.
pub open spec fn all_whitespace(s: Seq<char>) -> bool {
    forall|i: int| 0 <= i < s.len() ==> #[trigger] is_whitespace_spec(s[i])
}

/// Reading `t` on from the state `st` that some earlier text left.
pub open spec fn collapse_from(st: (Seq<char>, bool), t: Seq<char>) -> (Seq<char>, bool)
    decreases t.len(),
{
    if t.len() == 0 {
        st
    } else {
        let (kept, pending) = collapse_from(st, t.drop_last());
        let c = t.last();
        if is_whitespace_spec(c) {
            (kept, kept.len() > 0)
        } else if pending {
            (kept.push(' ').push(c), false)
        } else {
            (kept.push(c), false)
        }
    }
}

proof fn lemma_collapse_state_basic(s: Seq<char>)
    ensures
        collapse_state(s).0.len() == 0 <==> all_whitespace(s),
        collapse_state(s).0.len() == 0 ==> !collapse_state(s).1,
        collapse_state(s).0.len() > 0 ==> (collapse_state(s).1 <==> is_whitespace_spec(s.last())),
    decreases s.len(),
{
    if s.len() > 0 {
        let rest = s.drop_last();
        lemma_collapse_state_basic(rest);
        let c = s.last();
        assert forall|i: int| 0 <= i < rest.len() implies rest[i] == s[i] by {}
        if all_whitespace(s) {
            assert forall|i: int| 0 <= i < rest.len() implies #[trigger] is_whitespace_spec(rest[i]) by {
                assert(is_whitespace_spec(s[i]));
            }
            assert(is_whitespace_spec(s[s.len() - 1]));
        }
        if is_whitespace_spec(c) && all_whitespace(rest) {
            assert forall|i: int| 0 <= i < s.len() implies #[trigger] is_whitespace_spec(s[i]) by {
                if i < rest.len() {
                    assert(is_whitespace_spec(rest[i]));
                }
            }
        }
        if !is_whitespace_spec(c) {
            assert(!is_whitespace_spec(s[s.len() - 1]));
        }
    }
}

proof fn lemma_collapse_from_state(a: Seq<char>, b: Seq<char>)
    ensures
        collapse_from(collapse_state(a), b) == collapse_state(a + b),
    decreases b.len(),
{
    if b.len() == 0 {
        assert(a + b =~= a);
    } else {
        lemma_collapse_from_state(a, b.drop_last());
        assert((a + b).drop_last() =~= a + b.drop_last());
        assert((a + b).last() == b.last());
    }
}

proof fn lemma_collapse_from_kept(k: Seq<char>, p: bool, b: Seq<char>)
    requires
        k.len() > 0,
    ensures
        collapse_from((k, p), b) == if collapse(b).len() == 0 {
            (k, p || b.len() > 0)
        } else if p || is_whitespace_spec(b[0]) {
            (k + seq![' '] + collapse(b), collapse_state(b).1)
        } else {
            (k + collapse(b), collapse_state(b).1)
        },
    decreases b.len(),
{
    if b.len() > 0 {
        let rest = b.drop_last();
        let c = b.last();
        lemma_collapse_from_kept(k, p, rest);
        lemma_collapse_state_basic(rest);
        lemma_collapse_state_basic(b);
        let cr = collapse(rest);
        if cr.len() == 0 {
            assert(collapse_state(rest) == (Seq::<char>::empty(), false)) by {
                assert(cr =~= Seq::<char>::empty());
            }
            if !is_whitespace_spec(c) {
                assert(collapse(b) =~= seq![c]);
                if rest.len() > 0 {
                    assert(is_whitespace_spec(rest[0]));
                    assert(b[0] == rest[0]);
                } else {
                    assert(b[0] == c);
                }
            } else {
                assert(collapse(b).len() == 0);
            }
        } else {
            assert(rest.len() > 0);
            assert(b[0] == rest[0]);
            if !is_whitespace_spec(c) {
                if collapse_state(rest).1 {
                    assert(collapse(b) == cr.push(' ').push(c));
                    assert(k + seq![' '] + cr.push(' ').push(c) =~= (k + seq![' '] + cr).push(' ').push(c));
                    assert(k + cr.push(' ').push(c) =~= (k + cr).push(' ').push(c));
                } else {
                    assert(collapse(b) == cr.push(c));
                    assert(k + seq![' '] + cr.push(c) =~= (k + seq![' '] + cr).push(c));
                    assert(k + cr.push(c) =~= (k + cr).push(c));
                }
            }
        }
    }
}

/// Collapsing drops a blank text entirely, and keeps a text with anything but
/// whitespace in it non-blank.
pub proof fn lemma_collapse_blank(s: Seq<char>)
    ensures
        collapse(s).len() == 0 <==> all_whitespace(s),
{
    lemma_collapse_state_basic(s);
}

/// A single character stays as it is unless it is whitespace, which goes.
pub proof fn lemma_collapse_char(c: char)
    ensures
        !is_whitespace_spec(c) ==> collapse(seq![c]) == seq![c],
        is_whitespace_spec(c) ==> collapse(seq![c]).len() == 0,
{
    let s = seq![c];
    let e = Seq::<char>::empty();
    assert(s.drop_last() =~= e);
    assert(s.last() == c);
    assert(collapse_state(e) == (e, false));
    assert(collapse_state(s) == if is_whitespace_spec(c) {
        (e, false)
    } else {
        (e.push(c), false)
    });
    if !is_whitespace_spec(c) {
        assert(Seq::<char>::empty().push(c) =~= seq![c]);
    }
}

/// Collapsing two texts run together collapses each, and joins them with one
/// space when both keep something and whitespace stood where they meet, or
/// with nothing when they touch without it.
pub proof fn lemma_collapse_concat(a: Seq<char>, b: Seq<char>)
    ensures
        collapse(a + b) == if collapse(a).len() == 0 {
            collapse(b)
        } else if collapse(b).len() == 0 {
            collapse(a)
        } else if is_whitespace_spec(a.last()) || is_whitespace_spec(b[0]) {
            collapse(a) + seq![' '] + collapse(b)
        } else {
            collapse(a) + collapse(b)
        },
{
    lemma_collapse_from_state(a, b);
    lemma_collapse_state_basic(a);
    if collapse(a).len() == 0 {
        let e = Seq::<char>::empty();
        lemma_collapse_from_state(e, b);
        assert(collapse_state(e) == (e, false));
        assert(collapse_state(a) == (e, false)) by {
            assert(collapse(a) =~= e);
        }
        assert(e + b =~= b);
    } else {
        lemma_collapse_from_kept(collapse(a), collapse_state(a).1, b);
    }
}

// ── Importing copies the course words as taught ─────────────────────────────

/// A list word holds the course word `w` exactly as taught, added at `now`.
pub open spec fn copied_from_course(v: ListWordView, w: hsk::Word, now: u64) -> bool {
    &&& v.word == w.word@
    &&& v.pinyin == w.pinyin@
    &&& v.gloss == w.gloss@
    &&& v.level == Some(w.level)
    &&& v.added_at == now
}

/// `out` holds course words copied exactly as taught, picked from `words` at the
/// strictly increasing positions `idx`.
pub open spec fn copied_in_order(
    out: Seq<ListWordView>,
    words: Seq<hsk::Word>,
    now: u64,
    idx: Seq<int>,
) -> bool {
    &&& idx.len() == out.len()
    &&& forall|j: int|
        0 <= j < idx.len() ==> 0 <= #[trigger] idx[j] < words.len() && copied_from_course(
            out[j],
            words[idx[j]],
            now,
        )
    &&& forall|i: int, j: int| 0 <= i < j < idx.len() ==> #[trigger] idx[i] < #[trigger] idx[j]
}

/// `w` has a headword, and one that `existing` does not have yet.
pub open spec fn is_new_headword(existing: Seq<ListWordView>, w: ListWordView) -> bool {
    w.word.len() > 0 && !has_word(existing, w.word)
}

/// `out` holds, in their order and without repeats, words of `incoming` picked
/// at the strictly increasing positions `idx`, each with a headword that
/// `existing` lacks; each such headword of `incoming` is picked where it first
/// comes, unless `out` already holds `cap` words and it comes after all of them.
pub open spec fn merge_picks_new(
    out: Seq<ListWordView>,
    existing: Seq<ListWordView>,
    incoming: Seq<ListWordView>,
    cap: nat,
    idx: Seq<int>,
) -> bool {
    &&& picks(out, incoming, |w: ListWordView| w, idx)
    &&& forall|j: int| 0 <= j < out.len() ==> is_new_headword(existing, #[trigger] out[j])
    &&& forall|i: int, j: int|
        0 <= i < j < out.len() ==> (#[trigger] out[i]).word != (#[trigger] out[j]).word
    &&& forall|k: int|
        0 <= k < incoming.len() && #[trigger] is_new_headword(existing, incoming[k]) ==> (exists|j: int|
            0 <= j < idx.len() && #[trigger] idx[j] <= k && out[j].word == incoming[k].word) || (
        out.len() == cap && forall|j: int| 0 <= j < idx.len() ==> #[trigger] idx[j] < k)
}

/// Merging keeps the list's words as they were and appends, in the order they
/// come, the first entry of each new headword of `incoming`, skipping blanks,
/// headwords the list has and repeats; it stops only when the list is full.
pub proof fn lemma_merge_exact(existing: Seq<ListWordView>, incoming: Seq<ListWordView>)
    ensures
        merged(existing, incoming).len() >= existing.len(),
        merged(existing, incoming).subrange(0, existing.len() as int) == existing,
        exists|idx: Seq<int>|
            #[trigger] merge_picks_new(
                merged(existing, incoming).subrange(
                    existing.len() as int,
                    merged(existing, incoming).len() as int,
                ),
                existing,
                incoming,
                room(existing),
                idx,
            ),
{
    lemma_merged_closed_form(existing, incoming);
    let f = fresh_words(existing, incoming);
    let fidx = lemma_fresh_words_order(existing, incoming);
    let m = merged(existing, incoming);
    let kept = at_most(f, room(existing));
    assert(m == existing + kept);
    let out = m.subrange(existing.len() as int, m.len() as int);
    assert(out =~= kept);
    assert(m.subrange(0, existing.len() as int) =~= existing);
    let n = kept.len();
    let idx = fidx.subrange(0, n as int);
    assert forall|j: int| 0 <= j < n implies kept[j] == f[j] by {}
    assert forall|j: int| 0 <= j < idx.len() implies 0 <= #[trigger] idx[j] < incoming.len()
        && out[j] == (|w: ListWordView| w)(incoming[idx[j]]) by {
        assert(idx[j] == fidx[j]);
        assert(out[j] == f[j]);
    }
    assert forall|i: int, j: int| 0 <= i < j < idx.len() implies #[trigger] idx[i] < #[trigger] idx[j] by {
        assert(idx[i] == fidx[i] && idx[j] == fidx[j]);
    }
    assert forall|j: int| 0 <= j < out.len() implies is_new_headword(existing, #[trigger] out[j]) by {
        assert(out[j] == f[j]);
    }
    assert forall|i: int, j: int| 0 <= i < j < out.len() implies (#[trigger] out[i]).word != (
    #[trigger] out[j]).word by {
        assert(out[i] == f[i] && out[j] == f[j]);
    }
    assert forall|k: int|
        0 <= k < incoming.len() && #[trigger] is_new_headword(existing, incoming[k]) implies (exists|j: int|
        0 <= j < idx.len() && #[trigger] idx[j] <= k && out[j].word == incoming[k].word) || (out.len()
        == room(existing) && forall|j: int| 0 <= j < idx.len() ==> #[trigger] idx[j] < k) by {
        let j0 = choose|j: int|
            0 <= j < fidx.len() && #[trigger] fidx[j] <= k && f[j].word == incoming[k].word;
        if j0 < n {
            assert(idx[j0] == fidx[j0]);
            assert(out[j0] == f[j0]);
        } else {
            assert(out.len() == room(existing));
            assert forall|j: int| 0 <= j < idx.len() implies #[trigger] idx[j] < k by {
                assert(idx[j] == fidx[j]);
                assert(fidx[j] < fidx[j0]);
            }
        }
    }
    assert(merge_picks_new(out, existing, incoming, room(existing), idx));
}

proof fn lemma_fresh_words_order(existing: Seq<ListWordView>, incoming: Seq<ListWordView>) -> (idx: Seq<int>)
    ensures
        picks(fresh_words(existing, incoming), incoming, |w: ListWordView| w, idx),
        fresh_words(existing, incoming).len() <= incoming.len(),
        forall|j: int|
            0 <= j < fresh_words(existing, incoming).len() ==> is_new_headword(
                existing,
                #[trigger] fresh_words(existing, incoming)[j],
            ),
        forall|i: int, j: int|
            0 <= i < j < fresh_words(existing, incoming).len() ==> (#[trigger] fresh_words(
                existing,
                incoming,
            )[i]).word != (#[trigger] fresh_words(existing, incoming)[j]).word,
        forall|k: int|
            0 <= k < incoming.len() && #[trigger] is_new_headword(existing, incoming[k]) ==> exists|j: int|
                0 <= j < idx.len() && #[trigger] idx[j] <= k && fresh_words(existing, incoming)[j].word
                    == incoming[k].word,
        forall|k: int|
            0 <= k < incoming.len() ==> (#[trigger] incoming[k]).word.len() == 0 || has_word(
                existing,
                incoming[k].word,
            ) || has_word(fresh_words(existing, incoming), incoming[k].word),
    decreases incoming.len(),
{
    if incoming.len() == 0 {
        Seq::empty()
    } else {
        let rest = incoming.drop_last();
        let idx0 = lemma_fresh_words_order(existing, rest);
        let f0 = fresh_words(existing, rest);
        let w = incoming.last();
        let last = incoming.len() - 1;
        assert forall|j: int| 0 <= j < idx0.len() implies incoming[idx0[j]] == rest[idx0[j]] by {}
        let f = fresh_words(existing, incoming);
        let idx = if w.word.len() == 0 || has_word(existing, w.word) || has_word(f0, w.word) {
            idx0
        } else {
            idx0.push(last)
        };
        if !(w.word.len() == 0 || has_word(existing, w.word) || has_word(f0, w.word)) {
            assert forall|j: int| 0 <= j < idx.len() implies 0 <= #[trigger] idx[j] < incoming.len()
                && f[j] == (|w: ListWordView| w)(incoming[idx[j]]) by {
                if j < idx0.len() {
                    assert(idx[j] == idx0[j]);
                    assert(f[j] == f0[j]);
                }
            }
            assert forall|i: int, j: int| 0 <= i < j < idx.len() implies #[trigger] idx[i]
                < #[trigger] idx[j] by {
                if j == idx.len() - 1 {
                    assert(idx[i] == idx0[i]);
                } else {
                    assert(idx[i] == idx0[i] && idx[j] == idx0[j]);
                }
            }
        }
        assert forall|k: int| 0 <= k < incoming.len() implies (#[trigger] incoming[k]).word.len()
            == 0 || has_word(existing, incoming[k].word) || has_word(f, incoming[k].word) by {
            if k < last {
                assert(rest[k] == incoming[k]);
                if has_word(f0, rest[k].word) {
                    let i = choose|i: int| 0 <= i < f0.len() && f0[i].word == rest[k].word;
                    assert(f[i] == f0[i]);
                }
            } else if !(w.word.len() == 0 || has_word(existing, w.word) || has_word(f0, w.word)) {
                assert(f[f.len() - 1] == w);
            } else if has_word(f0, w.word) {
                let i = choose|i: int| 0 <= i < f0.len() && f0[i].word == w.word;
                assert(f[i] == f0[i]);
            }
        }
        let pushed = !(w.word.len() == 0 || has_word(existing, w.word) || has_word(f0, w.word));
        assert forall|j: int| 0 <= j < f.len() implies is_new_headword(existing, #[trigger] f[j]) by {
            if j < f0.len() {
                assert(f[j] == f0[j]);
            }
        }
        assert forall|i: int, j: int| 0 <= i < j < f.len() implies (#[trigger] f[i]).word != (
        #[trigger] f[j]).word by {
            assert(f[i] == f0[i]);
            if j < f0.len() {
                assert(f[j] == f0[j]);
            } else {
                assert(f[j] == w);
                if f0[i].word == w.word {
                    assert(has_word(f0, w.word));
                }
            }
        }
        assert forall|k: int|
            0 <= k < incoming.len() && #[trigger] is_new_headword(existing, incoming[k]) implies exists|j: int|
            0 <= j < idx.len() && #[trigger] idx[j] <= k && f[j].word == incoming[k].word by {
            if k < last {
                assert(rest[k] == incoming[k]);
                assert(is_new_headword(existing, rest[k]));
                let j = choose|j: int|
                    0 <= j < idx0.len() && #[trigger] idx0[j] <= k && f0[j].word == rest[k].word;
                assert(idx[j] == idx0[j]);
                assert(f[j] == f0[j]);
            } else if pushed {
                assert(idx[idx.len() - 1] == last);
                assert(f[f.len() - 1] == w);
            } else {
                let i = choose|i: int| 0 <= i < f0.len() && f0[i].word == w.word;
                assert(f[i] == f0[i]);
                assert(idx[i] == idx0[i]);
                assert(idx0[i] < rest.len());
            }
        }
        idx
    }
}

/// Importing a unit that has no list yet, into a document with room, makes a
/// new list first in the document, named after the unit and marked as coming
/// from it, whose words are course words copied exactly as taught — headword,
/// pinyin, gloss and level — in course order; when the unit has no more words
/// than a list can hold, every course word with a headword is there. The other
/// lists follow, unchanged.
pub proof fn lemma_import_unit_copies_course(
    d: ListsDocView,
    level: u8,
    unit_id: Seq<char>,
    unit_title: Seq<char>,
    words: Seq<hsk::Word>,
    id: Seq<char>,
    now: u64,
)
    requires
        first_where(d.lists, from_unit_pred(level, unit_id)) is None,
        d.lists.len() < MAX_LISTS,
    ensures
        ({
            let (r, res) = import_unit_spec(d, level, unit_id, unit_title, words, id, now);
            let l = r.lists[0];
            &&& res == Some(id)
            &&& r.lists.len() == d.lists.len() + 1
            &&& r.lists.subrange(1, r.lists.len() as int) == d.lists
            &&& l.id == id
            &&& l.title == clean_title_spec(unit_list_title_spec(level, unit_title))
            &&& l.source == (SourceView::HskUnit { level, unit_id, unit_title })
            &&& l.created_at == now
            &&& r.updated_at == now
            &&& exists|idx: Seq<int>| #[trigger] copied_in_order(l.words, words, now, idx)
            &&& (words.len() <= MAX_WORDS ==> forall|k: int|
                0 <= k < words.len() && (#[trigger] words[k]).word@.len() > 0 ==> has_word(
                    l.words,
                    words[k].word@,
                ))
        }),
{
    let inc = course_words_spec(words, now);
    let e = Seq::<ListWordView>::empty();
    let (r, res) = import_unit_spec(d, level, unit_id, unit_title, words, id, now);
    let l = r.lists[0];
    assert(r.lists.subrange(1, r.lists.len() as int) =~= d.lists);
    lemma_merged_closed_form(e, inc);
    let f = fresh_words(e, inc);
    let fidx = lemma_fresh_words_order(e, inc);
    assert(room(e) == MAX_WORDS);
    assert(l.words == at_most(f, MAX_WORDS as nat)) by {
        assert(e + at_most(f, MAX_WORDS as nat) =~= at_most(f, MAX_WORDS as nat));
    }
    let n = l.words.len();
    let idx = fidx.subrange(0, n as int);
    assert forall|j: int| 0 <= j < idx.len() implies 0 <= #[trigger] idx[j] < words.len()
        && copied_from_course(l.words[j], words[idx[j]], now) by {
        assert(idx[j] == fidx[j]);
        assert(l.words[j] == f[j]);
        assert(f[j] == inc[fidx[j]]);
        assert(inc[fidx[j]] == from_course_spec(
            words[fidx[j]].word@,
            words[fidx[j]].pinyin@,
            words[fidx[j]].gloss@,
            words[fidx[j]].level,
            now,
        ));
    }
    assert forall|i: int, j: int| 0 <= i < j < idx.len() implies #[trigger] idx[i] < #[trigger] idx[j] by {
        assert(idx[i] == fidx[i] && idx[j] == fidx[j]);
    }
    assert(copied_in_order(l.words, words, now, idx));
    if words.len() <= MAX_WORDS {
        assert(f.len() <= MAX_WORDS);
        assert(l.words == f);
        assert forall|k: int| 0 <= k < words.len() && (#[trigger] words[k]).word@.len() > 0 implies has_word(
            l.words,
            words[k].word@,
        ) by {
            assert(inc[k].word == words[k].word@);
            assert(!has_word(e, inc[k].word));
            assert(has_word(f, inc[k].word));
        }
    }
}

} // verus!
