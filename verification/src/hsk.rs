//! The HSK course as the lists see it: units, their words, and the characters
//! those words are written with.

use vstd::prelude::*;

use crate::lists::{is_han, is_han_spec, position_of, position_of_spec};

verus! {

/// One themed unit of a level, in teaching order.
pub struct Unit {
    /// `"<level>-<position>"`, such as `"1-07"`.
    pub id: String,
    pub title: String,
    pub topic: String,
    /// Headwords, in the order the unit teaches them.
    pub words: Vec<String>,
}

/// One course word: its headword and the readings a learner drills against.
pub struct Word {
    pub word: String,
    pub pinyin: String,
    pub gloss: String,
    /// The HSK band the word belongs to.
    pub level: u8,
}

impl Unit {
    /// The unit's position within its level, as a route carries it: `"1-07"` ->
    /// `"07"`.
    pub fn number(&self) -> (n: &str)
        ensures
            n@ == position_of_spec(self.id@),
    {
        position_of(self.id.as_str())
    }
}

/// Whether the course has units for `level`: HSK 1 to 6.
pub open spec fn is_level_spec(level: u8) -> bool {
    1 <= level <= 6
}

pub fn is_level(level: u8) -> (r: bool)
    ensures
        r == is_level_spec(level),
{
    1 <= level && level <= 6
}

/// The name of a band of characters: `HSK 1` to `HSK 6`, and `HSK 7-9` for the
/// three top levels, which share one vocabulary list.
pub open spec fn band_label_spec(band: u8) -> Option<Seq<char>> {
    if 1 <= band <= 6 {
        Some(seq!['H', 'S', 'K', ' '] + crate::text::decimal(band as nat))
    } else if band == 7 {
        Some(seq!['H', 'S', 'K', ' ', '7', '-', '9'])
    } else {
        None
    }
}

pub fn band_label(band: u8) -> (r: Option<String>)
    ensures
        match r {
            Some(s) => band_label_spec(band) == Some(s@),
            None => band_label_spec(band) is None,
        },
{
    if 1 <= band && band <= 6 {
        let mut s = crate::chars::string_from_chars(&vec!['H', 'S', 'K', ' ']);
        let d = crate::text::decimal_string(band as usize);
        s.append(d.as_str());
        Some(s)
    } else if band == 7 {
        let s = crate::chars::string_from_chars(&vec!['H', 'S', 'K', ' ', '7', '-', '9']);
        Some(s)
    } else {
        None
    }
}

/// The Han characters of `s`, in order.
pub open spec fn han_chars(s: Seq<char>) -> Seq<char>
    decreases s.len(),
{
    if s.len() == 0 {
        Seq::empty()
    } else if is_han_spec(s.last()) {
        han_chars(s.drop_last()).push(s.last())
    } else {
        han_chars(s.drop_last())
    }
}

/// `s` with every repeat of an earlier character dropped.
pub open spec fn distinct(s: Seq<char>) -> Seq<char>
    decreases s.len(),
{
    if s.len() == 0 {
        Seq::empty()
    } else if distinct(s.drop_last()).contains(s.last()) {
        distinct(s.drop_last())
    } else {
        distinct(s.drop_last()).push(s.last())
    }
}

/// The headwords run together, one after another.
pub open spec fn joined(words: Seq<Seq<char>>) -> Seq<char>
    decreases words.len(),
{
    if words.len() == 0 {
        Seq::empty()
    } else {
        joined(words.drop_last()) + words.last()
    }
}

/// The characters a run of headwords is written with: each Han character once,
/// in the order it first appears.
pub open spec fn characters_spec(words: Seq<Seq<char>>) -> Seq<char> {
    distinct(han_chars(joined(words)))
}

pub(crate) proof fn lemma_han_chars_append(a: Seq<char>, b: Seq<char>)
    ensures
        han_chars(a + b) == han_chars(a) + han_chars(b),
    decreases b.len(),
{
    if b.len() == 0 {
        assert(a + b =~= a);
        assert(han_chars(b) =~= Seq::<char>::empty());
        assert(han_chars(a) + han_chars(b) =~= han_chars(a));
    } else {
        lemma_han_chars_append(a, b.drop_last());
        assert((a + b).drop_last() =~= a + b.drop_last());
        assert((a + b).last() == b.last());
        if is_han_spec(b.last()) {
            assert(han_chars(a) + han_chars(b) =~= (han_chars(a) + han_chars(b.drop_last())).push(
                b.last(),
            ));
        } else {
            assert(han_chars(a) + han_chars(b) =~= han_chars(a) + han_chars(b.drop_last()));
        }
    }
}

proof fn lemma_distinct_push(s: Seq<char>, c: char)
    ensures
        distinct(s.push(c)) == if distinct(s).contains(c) {
            distinct(s)
        } else {
            distinct(s).push(c)
        },
{
    assert(s.push(c).drop_last() =~= s);
}

/// Adds the Han characters of `word` that `out` does not hold yet, in order.
pub(crate) fn add_characters(out: &mut Vec<char>, word: &str, Ghost(before): Ghost<Seq<char>>)
    requires
        old(out)@ == distinct(before),
    ensures
        final(out)@ == distinct(before + han_chars(word@)),
{
    let ghost mut seen: Seq<char> = before;
    let mut i: usize = 0;
    let cs = crate::chars::chars_of(word);
    while i < cs.len()
        invariant
            i <= cs.len(),
            cs@ == word@,
            seen == before + han_chars(cs@.subrange(0, i as int)),
            out@ == distinct(seen),
        decreases cs.len() - i,
    {
        let c = cs[i];
        proof {
            assert(cs@.subrange(0, i + 1).drop_last() =~= cs@.subrange(0, i as int));
        }
        if is_han(c) {
            proof {
                lemma_distinct_push(seen, c);
                assert(before + han_chars(cs@.subrange(0, i + 1)) =~= seen.push(c));
            }
            let mut found = false;
            let mut j: usize = 0;
            while j < out.len()
                invariant
                    j <= out.len(),
                    found <==> exists|k: int| 0 <= k < j && out@[k] == c,
                decreases out.len() - j,
            {
                if out[j] == c {
                    found = true;
                }
                j = j + 1;
            }
            proof {
                if distinct(seen).contains(c) {
                    let k = choose|k: int| 0 <= k < distinct(seen).len() && distinct(seen)[k] == c;
                    assert(out@[k] == c);
                }
            }
            if !found {
                out.push(c);
            }
            proof {
                seen = seen.push(c);
            }
        } else {
            proof {
                assert(before + han_chars(cs@.subrange(0, i + 1)) =~= seen);
            }
        }
        i = i + 1;
    }
    assert(cs@.subrange(0, cs.len() as int) =~= word@);
}

/// The characters a run of headwords is written with: each Han character once,
/// in the order it first appears.
pub fn characters(words: &Vec<String>) -> (cs: Vec<char>)
    ensures
        cs@ == characters_spec(words@.map_values(|w: String| w@)),
{
    let ghost views = words@.map_values(|w: String| w@);
    let mut out: Vec<char> = Vec::new();
    let mut i: usize = 0;
    assert(distinct(Seq::empty()) =~= Seq::<char>::empty());
    assert(han_chars(joined(views.subrange(0, 0))) =~= Seq::<char>::empty());
    while i < words.len()
        invariant
            i <= words.len(),
            views == words@.map_values(|w: String| w@),
            out@ == distinct(han_chars(joined(views.subrange(0, i as int)))),
        decreases words.len() - i,
    {
        let ghost before = han_chars(joined(views.subrange(0, i as int)));
        add_characters(&mut out, words[i].as_str(), Ghost(before));
        proof {
            let next = views.subrange(0, i + 1);
            assert(next.drop_last() =~= views.subrange(0, i as int));
            assert(next.last() == words@[i as int]@);
            lemma_han_chars_append(joined(views.subrange(0, i as int)), words@[i as int]@);
        }
        i = i + 1;
    }
    assert(views.subrange(0, words.len() as int) =~= views);
    out
}

// ── What the character list holds ───────────────────────────────────────────

/// `c` stands somewhere in `t` before position `q`.
pub open spec fn seen_before(t: Seq<char>, c: char, q: int) -> bool {
    exists|p: int| 0 <= p < q && t[p] == c
}

proof fn lemma_distinct_exact(t: Seq<char>)
    ensures
        forall|i: int, j: int|
            0 <= i < j < distinct(t).len() ==> #[trigger] distinct(t)[i] != #[trigger] distinct(t)[j],
        forall|c: char| distinct(t).contains(c) <==> t.contains(c),
        forall|i: int, j: int, q: int|
            #![trigger t[q], distinct(t)[j], distinct(t)[i]]
            0 <= i < j < distinct(t).len() && 0 <= q < t.len() && t[q] == distinct(t)[j]
                ==> seen_before(t, distinct(t)[i], q),
    decreases t.len(),
{
    if t.len() > 0 {
        let rest = t.drop_last();
        lemma_distinct_exact(rest);
        let r0 = distinct(rest);
        let r = distinct(t);
        let c = t.last();
        let last = t.len() - 1;
        assert forall|x: char| r0.contains(x) <==> rest.contains(x) by {}
        if r0.contains(c) {
            assert(r == r0);
            assert forall|x: char| r.contains(x) <==> t.contains(x) by {
                if t.contains(x) {
                    let k = choose|k: int| 0 <= k < t.len() && t[k] == x;
                    if k < last {
                        assert(rest[k] == x);
                    }
                }
                if rest.contains(x) {
                    let k = choose|k: int| 0 <= k < rest.len() && rest[k] == x;
                    assert(t[k] == x);
                }
            }
            assert forall|i: int, j: int, q: int|
                #![trigger t[q], r[j], r[i]]
                0 <= i < j < r.len() && 0 <= q < t.len() && t[q] == r[j] implies seen_before(t, r[i], q) by {
                if q < last {
                    assert(rest[q] == t[q]);
                    assert(seen_before(rest, r0[i], q));
                    let p = choose|p: int| 0 <= p < q && rest[p] == r0[i];
                    assert(t[p] == rest[p]);
                } else {
                    assert(rest.contains(c));
                    let q2 = choose|q2: int| 0 <= q2 < rest.len() && rest[q2] == c;
                    assert(rest[q2] == r0[j]);
                    assert(seen_before(rest, r0[i], q2));
                    let p = choose|p: int| 0 <= p < q2 && rest[p] == r0[i];
                    assert(t[p] == rest[p]);
                }
            }
        } else {
            assert(r == r0.push(c));
            assert(!rest.contains(c));
            assert forall|i: int, j: int| 0 <= i < j < r.len() implies #[trigger] r[i] != #[trigger] r[j] by {
                assert(r[i] == r0[i]);
                if j < r0.len() {
                    assert(r[j] == r0[j]);
                } else if r0[i] == c {
                    assert(r0.contains(c));
                }
            }
            assert forall|x: char| r.contains(x) <==> t.contains(x) by {
                if t.contains(x) {
                    let k = choose|k: int| 0 <= k < t.len() && t[k] == x;
                    if k < last {
                        assert(rest[k] == x);
                        assert(rest.contains(x));
                        let m = choose|m: int| 0 <= m < r0.len() && r0[m] == x;
                        assert(r[m] == x);
                    } else {
                        assert(r[r.len() - 1] == x);
                    }
                }
                if r.contains(x) {
                    let m = choose|m: int| 0 <= m < r.len() && r[m] == x;
                    if m < r0.len() {
                        assert(r0[m] == x);
                        assert(r0.contains(x));
                        let k = choose|k: int| 0 <= k < rest.len() && rest[k] == x;
                        assert(t[k] == x);
                    } else {
                        assert(t[last] == x);
                    }
                }
            }
            assert forall|i: int, j: int, q: int|
                #![trigger t[q], r[j], r[i]]
                0 <= i < j < r.len() && 0 <= q < t.len() && t[q] == r[j] implies seen_before(t, r[i], q) by {
                assert(r[i] == r0[i]);
                if j < r0.len() {
                    assert(r[j] == r0[j]);
                    if q < last {
                        assert(rest[q] == t[q]);
                        assert(seen_before(rest, r0[i], q));
                        let p = choose|p: int| 0 <= p < q && rest[p] == r0[i];
                        assert(t[p] == rest[p]);
                    } else {
                        assert(r0.contains(c)) by {
                            assert(r0[j] == c);
                        }
                    }
                } else {
                    assert(r0.contains(r0[i]));
                    let p = choose|p: int| 0 <= p < rest.len() && rest[p] == r0[i];
                    assert(t[p] == rest[p]);
                    if q < last {
                        assert(rest[q] == c);
                        assert(rest.contains(c));
                    }
                }
            }
        }
    }
}

/// `han_chars(s)` is `s` at the strictly increasing positions `idx`, which are
/// exactly the positions of its Han characters.
pub open spec fn picks_han(s: Seq<char>, idx: Seq<int>) -> bool {
    &&& idx.len() == han_chars(s).len()
    &&& forall|j: int|
        0 <= j < idx.len() ==> 0 <= #[trigger] idx[j] < s.len() && han_chars(s)[j] == s[idx[j]]
    &&& forall|i: int, j: int| 0 <= i < j < idx.len() ==> #[trigger] idx[i] < #[trigger] idx[j]
    &&& forall|q: int|
        0 <= q < s.len() && #[trigger] is_han_spec(s[q]) ==> exists|j: int|
            0 <= j < idx.len() && #[trigger] idx[j] == q
    &&& forall|j: int| 0 <= j < han_chars(s).len() ==> #[trigger] is_han_spec(han_chars(s)[j])
}

proof fn lemma_han_chars_exact(s: Seq<char>) -> (idx: Seq<int>)
    ensures
        picks_han(s, idx),
    decreases s.len(),
{
    if s.len() == 0 {
        Seq::empty()
    } else {
        let rest = s.drop_last();
        let idx0 = lemma_han_chars_exact(rest);
        let h0 = han_chars(rest);
        let h = han_chars(s);
        let c = s.last();
        let last = s.len() - 1;
        assert forall|j: int| 0 <= j < idx0.len() implies s[idx0[j]] == rest[idx0[j]] by {}
        if is_han_spec(c) {
            let idx = idx0.push(last);
            assert(h == h0.push(c));
            assert forall|j: int| 0 <= j < idx.len() implies 0 <= #[trigger] idx[j] < s.len()
                && h[j] == s[idx[j]] by {
                if j < idx0.len() {
                    assert(idx[j] == idx0[j]);
                    assert(h[j] == h0[j]);
                }
            }
            assert forall|i: int, j: int| 0 <= i < j < idx.len() implies #[trigger] idx[i]
                < #[trigger] idx[j] by {
                assert(idx[i] == idx0[i]);
                if j < idx0.len() {
                    assert(idx[j] == idx0[j]);
                }
            }
            assert forall|q: int| 0 <= q < s.len() && #[trigger] is_han_spec(s[q]) implies exists|j: int|
                0 <= j < idx.len() && #[trigger] idx[j] == q by {
                if q == last {
                    assert(idx[idx.len() - 1] == q);
                } else {
                    assert(rest[q] == s[q]);
                    let j = choose|j: int| 0 <= j < idx0.len() && #[trigger] idx0[j] == q;
                    assert(idx[j] == idx0[j]);
                }
            }
            assert forall|j: int| 0 <= j < h.len() implies #[trigger] is_han_spec(h[j]) by {
                if j < h0.len() {
                    assert(h[j] == h0[j]);
                }
            }
            idx
        } else {
            assert(h == h0);
            assert forall|q: int| 0 <= q < s.len() && #[trigger] is_han_spec(s[q]) implies exists|j: int|
                0 <= j < idx0.len() && #[trigger] idx0[j] == q by {
                assert(q != last);
                assert(rest[q] == s[q]);
            }
            idx0
        }
    }
}

proof fn lemma_joined_contains(words: Seq<Seq<char>>, c: char)
    ensures
        joined(words).contains(c) <==> exists|w: int| 0 <= w < words.len() && #[trigger] words[w].contains(c),
    decreases words.len(),
{
    if words.len() > 0 {
        let rest = words.drop_last();
        lemma_joined_contains(rest, c);
        let a = joined(rest);
        let b = words.last();
        let j = joined(words);
        assert(j == a + b);
        if j.contains(c) {
            let k = choose|k: int| 0 <= k < j.len() && j[k] == c;
            if k < a.len() {
                assert(a[k] == c);
                assert(a.contains(c));
                let w = choose|w: int| 0 <= w < rest.len() && #[trigger] rest[w].contains(c);
                assert(words[w] == rest[w]);
            } else {
                assert(b[k - a.len()] == c);
                assert(words[words.len() - 1].contains(c));
            }
        }
        if exists|w: int| 0 <= w < words.len() && #[trigger] words[w].contains(c) {
            let w = choose|w: int| 0 <= w < words.len() && #[trigger] words[w].contains(c);
            if w < rest.len() {
                assert(rest[w] == words[w]);
                assert(a.contains(c));
                let k = choose|k: int| 0 <= k < a.len() && a[k] == c;
                assert(j[k] == c);
            } else {
                let k = choose|k: int| 0 <= k < b.len() && b[k] == c;
                assert(j[a.len() + k] == c);
            }
        }
    }
}

/// The characters of a run of headwords are Han characters, each listed once;
/// a character is listed exactly when it is a Han character some headword is
/// written with; and they come in the order they first appear in the run.
pub proof fn lemma_characters_exact(words: Seq<Seq<char>>)
    ensures
        forall|i: int|
            0 <= i < characters_spec(words).len() ==> #[trigger] is_han_spec(characters_spec(words)[i]),
        forall|i: int, j: int|
            0 <= i < j < characters_spec(words).len() ==> #[trigger] characters_spec(words)[i]
                != #[trigger] characters_spec(words)[j],
        forall|c: char|
            #[trigger] characters_spec(words).contains(c) <==> is_han_spec(c) && exists|w: int|
                0 <= w < words.len() && #[trigger] words[w].contains(c),
        forall|i: int, j: int, q: int|
            #![trigger joined(words)[q], characters_spec(words)[j], characters_spec(words)[i]]
            0 <= i < j < characters_spec(words).len() && 0 <= q < joined(words).len() && joined(
                words,
            )[q] == characters_spec(words)[j] ==> seen_before(joined(words), characters_spec(words)[i], q),
{
    let s = joined(words);
    let h = han_chars(s);
    let r = characters_spec(words);
    lemma_distinct_exact(h);
    let idx = lemma_han_chars_exact(s);
    assert forall|i: int| 0 <= i < r.len() implies #[trigger] is_han_spec(r[i]) by {
        assert(r.contains(r[i]));
        assert(h.contains(r[i]));
        let k = choose|k: int| 0 <= k < h.len() && h[k] == r[i];
    }
    assert forall|c: char| #[trigger] r.contains(c) <==> is_han_spec(c) && exists|w: int|
        0 <= w < words.len() && #[trigger] words[w].contains(c) by {
        lemma_joined_contains(words, c);
        if h.contains(c) {
            let k = choose|k: int| 0 <= k < h.len() && h[k] == c;
            assert(h[k] == s[idx[k]]);
            assert(s.contains(c));
        }
        if is_han_spec(c) && s.contains(c) {
            let q = choose|q: int| 0 <= q < s.len() && s[q] == c;
            assert(is_han_spec(s[q]));
            let j = choose|j: int| 0 <= j < idx.len() && #[trigger] idx[j] == q;
            assert(h[j] == c);
        }
    }
    assert forall|i: int, j: int, q: int|
        #![trigger s[q], r[j], r[i]]
        0 <= i < j < r.len() && 0 <= q < s.len() && s[q] == r[j] implies seen_before(s, r[i], q) by {
        assert(r.contains(r[j]));
        assert(h.contains(r[j]));
        let k0 = choose|k: int| 0 <= k < h.len() && h[k] == r[j];
        assert(is_han_spec(h[k0]));
        assert(is_han_spec(s[q]));
        let jq = choose|jj: int| 0 <= jj < idx.len() && #[trigger] idx[jj] == q;
        assert(h[jq] == r[j]);
        assert(seen_before(h, r[i], jq));
        let p = choose|p: int| 0 <= p < jq && h[p] == r[i];
        assert(idx[p] < idx[jq]);
        assert(s[idx[p]] == r[i]);
    }
}

} // verus!
