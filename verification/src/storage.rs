//! What the browser remembers for us: recently viewed and saved characters, and
//! which character the handwriting pad opened.
//!
//! Characters are stored as a plain string of the characters themselves, which
//! keeps them small and readable in devtools. Reading and writing the browser's
//! storage is the caller's; these functions decide what goes in and what comes
//! out.

use vstd::prelude::*;

use crate::chars::{chars_of, push_char, string_from_chars};
use crate::lists::at_most;

verus! {

/// Enough history to be useful without turning the Lists tab into a wall.
pub const MAX_RECENT: usize = 36;

/// The characters a stored string holds, or none when nothing was stored.
pub open spec fn stored_chars(stored: Option<Seq<char>>) -> Seq<char> {
    match stored {
        Some(s) => s,
        None => Seq::empty(),
    }
}

pub open spec fn opt_str_view(stored: Option<&str>) -> Option<Seq<char>> {
    match stored {
        Some(s) => Some(s@),
        None => None,
    }
}

fn read(stored: Option<&str>) -> (r: Vec<char>)
    ensures
        r@ == stored_chars(opt_str_view(stored)),
{
    match stored {
        Some(raw) => chars_of(raw),
        None => Vec::new(),
    }
}

/// The recently viewed characters, newest first, from what storage held under
/// their key.
pub fn recent(stored: Option<&str>) -> (r: Vec<char>)
    ensures
        r@ == stored_chars(opt_str_view(stored)),
{
    read(stored)
}

/// The saved characters, newest first, from what storage held under their key.
pub fn saved(stored: Option<&str>) -> (r: Vec<char>)
    ensures
        r@ == stored_chars(opt_str_view(stored)),
{
    read(stored)
}

/// The string a list of characters is stored as.
pub fn stored_text(chars: &Vec<char>) -> (r: String)
    ensures
        r@ == chars@,
{
    string_from_chars(chars)
}

/// `list` without any `glyph`.
pub open spec fn without(list: Seq<char>, glyph: char) -> Seq<char>
    decreases list.len(),
{
    if list.len() == 0 {
        Seq::empty()
    } else if list.last() == glyph {
        without(list.drop_last(), glyph)
    } else {
        without(list.drop_last(), glyph).push(list.last())
    }
}

/// A visit recorded: the character first, the others after it in their order,
/// at most [`MAX_RECENT`] in all.
pub open spec fn push_recent_spec(list: Seq<char>, glyph: char) -> Seq<char> {
    at_most(seq![glyph] + without(list, glyph), MAX_RECENT as nat)
}

/// Record a visit, moving the character to the front if it was already there.
pub fn push_recent(list: &mut Vec<char>, glyph: char)
    ensures
        final(list)@ == push_recent_spec(old(list)@, glyph),
{
    let ghost all = list@;
    let mut kept: Vec<char> = vec![glyph];
    let mut i: usize = 0;
    assert(all.subrange(0, 0) =~= Seq::<char>::empty());
    while i < list.len()
        invariant
            i <= list.len(),
            all == list@,
            kept@ == seq![glyph] + without(all.subrange(0, i as int), glyph),
        decreases list.len() - i,
    {
        proof {
            assert(all.subrange(0, i + 1).drop_last() =~= all.subrange(0, i as int));
        }
        if list[i] != glyph {
            kept.push(list[i]);
        }
        i = i + 1;
        assert(kept@ =~= seq![glyph] + without(all.subrange(0, i as int), glyph));
    }
    assert(all.subrange(0, list.len() as int) =~= all);
    kept.truncate(MAX_RECENT);
    assert(kept@ =~= push_recent_spec(all, glyph));
    *list = kept;
}

/// The note the handwriting pad leaves for the character it opens.
pub fn mark_from_draw(glyph: char) -> (note: String)
    ensures
        note@ == seq![glyph],
{
    let mut note = String::new();
    push_char(&mut note, glyph);
    note
}

/// Whether the note names `glyph`, and whether it should be dropped.
pub open spec fn came_from_draw_spec(note: Option<Seq<char>>, glyph: char) -> (bool, bool) {
    let came = note matches Some(n) && n.len() > 0 && n[0] == glyph;
    (came, note is Some && !came)
}

/// Whether `glyph` is the character the pad opened, from the note it left (if
/// any), and whether that note should now be dropped: a note about any other
/// character was left by an earlier visit, and must not claim that a later
/// arrival came from the pad.
pub fn came_from_draw(note: Option<&str>, glyph: char) -> (r: (bool, bool))
    ensures
        r == came_from_draw_spec(opt_str_view(note), glyph),
{
    match note {
        None => (false, false),
        Some(marked) => {
            if !marked.is_empty() && marked.get_char(0) == glyph {
                (true, false)
            } else {
                (false, true)
            }
        },
    }
}

/// Whether `glyph` is among the saved characters.
pub fn is_saved(saved: &Vec<char>, glyph: char) -> (r: bool)
    ensures
        r == saved@.contains(glyph),
{
    let mut i: usize = 0;
    while i < saved.len()
        invariant
            i <= saved.len(),
            forall|j: int| 0 <= j < i ==> saved@[j] != glyph,
        decreases saved.len() - i,
    {
        if saved[i] == glyph {
            return true;
        }
        i = i + 1;
    }
    false
}

/// The first position of `glyph` in `list`.
pub open spec fn is_first_at(list: Seq<char>, glyph: char, k: int) -> bool {
    0 <= k < list.len() && list[k] == glyph && forall|j: int| 0 <= j < k ==> list[j] != glyph
}

pub open spec fn toggle_saved_spec(list: Seq<char>, glyph: char) -> (Seq<char>, bool) {
    if list.contains(glyph) {
        let k = choose|k: int| is_first_at(list, glyph, k);
        (list.remove(k), false)
    } else {
        (list.insert(0, glyph), true)
    }
}

/// Add or remove a character from the saved list: removed where it first stands
/// if it was there, added at the front if it was not. Returns its new state.
pub fn toggle_saved(list: &mut Vec<char>, glyph: char) -> (now_saved: bool)
    ensures
        (final(list)@, now_saved) == toggle_saved_spec(old(list)@, glyph),
{
    let mut i: usize = 0;
    while i < list.len()
        invariant
            i <= list.len(),
            list@ == old(list)@,
            forall|j: int| 0 <= j < i ==> list@[j] != glyph,
        decreases list.len() - i,
    {
        if list[i] == glyph {
            proof {
                assert(is_first_at(list@, glyph, i as int));
                let k = choose|k: int| is_first_at(list@, glyph, k);
                assert(k == i);
                assert(list@.contains(glyph));
            }
            list.remove(i);
            return false;
        }
        i = i + 1;
    }
    assert(!list@.contains(glyph));
    list.insert(0, glyph);
    true
}

// ── Laws ────────────────────────────────────────────────────────────────────

/// The character the pad opened is recognised from its note, and the note is
/// kept; any other character finds the note stale.
pub proof fn lemma_from_draw(glyph: char, other: char)
    requires
        other != glyph,
    ensures
        came_from_draw_spec(Some(seq![glyph]), glyph) == (true, false),
        came_from_draw_spec(Some(seq![glyph]), other) == (false, true),
{
}

proof fn lemma_without(list: Seq<char>, glyph: char)
    ensures
        !without(list, glyph).contains(glyph),
        without(list, glyph).len() <= list.len(),
        forall|c: char| c != glyph ==> (list.contains(c) <==> without(list, glyph).contains(c)),
        !list.contains(glyph) ==> without(list, glyph) == list,
    decreases list.len(),
{
    if list.len() > 0 {
        let rest = list.drop_last();
        lemma_without(rest, glyph);
        let w = without(rest, glyph);
        let r = without(list, glyph);
        let last = list.last();
        assert(list =~= rest.push(last));
        if last == glyph {
            assert(r == w);
            assert forall|c: char| c != glyph implies (list.contains(c) <==> r.contains(c)) by {
                if list.contains(c) {
                    let k = choose|k: int| 0 <= k < list.len() && list[k] == c;
                    assert(k < list.len() - 1);
                    assert(rest[k] == c);
                    assert(rest.contains(c));
                }
                if r.contains(c) {
                    assert(w.contains(c));
                    assert(rest.contains(c));
                    let j = choose|j: int| 0 <= j < rest.len() && rest[j] == c;
                    assert(list[j] == c);
                }
            }
        } else {
            assert(r == w.push(last));
            assert forall|c: char| c != glyph implies (list.contains(c) <==> r.contains(c)) by {
                if list.contains(c) {
                    let k = choose|k: int| 0 <= k < list.len() && list[k] == c;
                    if k < list.len() - 1 {
                        assert(rest[k] == c);
                        assert(rest.contains(c));
                        assert(w.contains(c));
                        let j = choose|j: int| 0 <= j < w.len() && w[j] == c;
                        assert(r[j] == c);
                    } else {
                        assert(r[r.len() - 1] == c);
                    }
                }
                if r.contains(c) {
                    let k = choose|k: int| 0 <= k < r.len() && r[k] == c;
                    if k < w.len() {
                        assert(w[k] == c);
                        assert(w.contains(c));
                        assert(rest.contains(c));
                        let j = choose|j: int| 0 <= j < rest.len() && rest[j] == c;
                        assert(list[j] == c);
                    } else {
                        assert(list[list.len() - 1] == c);
                    }
                }
            }
            assert(!r.contains(glyph)) by {
                if r.contains(glyph) {
                    let k = choose|k: int| 0 <= k < r.len() && r[k] == glyph;
                    if k < w.len() {
                        assert(w[k] == glyph);
                    }
                }
            }
        }
        if !list.contains(glyph) {
            assert(!rest.contains(glyph)) by {
                if rest.contains(glyph) {
                    let k = choose|k: int| 0 <= k < rest.len() && rest[k] == glyph;
                    assert(list[k] == glyph);
                }
            }
            assert(last != glyph) by {
                assert(list[list.len() - 1] == last);
            }
            assert(r =~= list);
        }
    } else {
        assert(without(list, glyph) =~= list);
    }
}

/// Recording a visit puts the character first, keeps it there once, keeps every
/// other character that fits, and never grows the history past [`MAX_RECENT`].
pub proof fn lemma_push_recent(list: Seq<char>, glyph: char)
    ensures
        push_recent_spec(list, glyph).len() >= 1,
        push_recent_spec(list, glyph)[0] == glyph,
        push_recent_spec(list, glyph).len() <= MAX_RECENT,
        forall|i: int|
            1 <= i < push_recent_spec(list, glyph).len() ==> #[trigger] push_recent_spec(list, glyph)[i]
                != glyph,
{
    lemma_without(list, glyph);
    let all = seq![glyph] + without(list, glyph);
    assert forall|i: int| 1 <= i < push_recent_spec(list, glyph).len() implies #[trigger] push_recent_spec(
        list,
        glyph,
    )[i] != glyph by {
        assert(push_recent_spec(list, glyph)[i] == all[i]);
        assert(all[i] == without(list, glyph)[i - 1]);
    }
}

/// Viewing the same character twice in a row records it once.
pub proof fn lemma_push_recent_twice(list: Seq<char>, glyph: char)
    ensures
        push_recent_spec(push_recent_spec(list, glyph), glyph) == push_recent_spec(list, glyph),
{
    let once = push_recent_spec(list, glyph);
    lemma_push_recent(list, glyph);
    let rest = once.subrange(1, once.len() as int);
    assert(once =~= seq![glyph] + rest);
    assert(!rest.contains(glyph)) by {
        if rest.contains(glyph) {
            let k = choose|k: int| 0 <= k < rest.len() && rest[k] == glyph;
            assert(once[k + 1] == glyph);
        }
    }
    lemma_without_push_front(rest, glyph);
    lemma_without(rest, glyph);
    assert(without(once, glyph) == rest);
    assert(seq![glyph] + rest =~= once);
}

proof fn lemma_without_push_front(rest: Seq<char>, glyph: char)
    ensures
        without(seq![glyph] + rest, glyph) == without(rest, glyph),
    decreases rest.len(),
{
    let s = seq![glyph] + rest;
    if rest.len() == 0 {
        assert(s.drop_last() =~= Seq::<char>::empty());
        assert(s.last() == glyph);
        assert(without(s, glyph) == without(s.drop_last(), glyph));
        assert(without(Seq::<char>::empty(), glyph) =~= Seq::<char>::empty());
        assert(rest =~= Seq::<char>::empty());
    } else {
        assert(s.drop_last() =~= seq![glyph] + rest.drop_last());
        lemma_without_push_front(rest.drop_last(), glyph);
        assert(s.last() == rest.last());
        if rest.last() == glyph {
            assert(without(s, glyph) == without(s.drop_last(), glyph));
            assert(without(rest, glyph) == without(rest.drop_last(), glyph));
        } else {
            assert(without(s, glyph) == without(s.drop_last(), glyph).push(s.last()));
            assert(without(rest, glyph) == without(rest.drop_last(), glyph).push(rest.last()));
        }
    }
}

/// Toggling answers with the new state, saved exactly when it was not before,
/// for a saved list that holds the character at most once (which toggling
/// keeps true).
pub proof fn lemma_toggle_saved(list: Seq<char>, glyph: char)
    requires
        forall|i: int, j: int|
            0 <= i < list.len() && 0 <= j < list.len() && list[i] == glyph && list[j] == glyph
                ==> i == j,
    ensures
        toggle_saved_spec(list, glyph).0.contains(glyph) == toggle_saved_spec(list, glyph).1,
        toggle_saved_spec(list, glyph).1 == !list.contains(glyph),
{
    if list.contains(glyph) {
        let k0 = choose|k: int| 0 <= k < list.len() && list[k] == glyph;
        assert(exists|k: int| is_first_at(list, glyph, k)) by {
            lemma_first_at_exists(list, glyph, k0);
        }
        let k = choose|k: int| is_first_at(list, glyph, k);
        let r = list.remove(k);
        assert(!r.contains(glyph)) by {
            if r.contains(glyph) {
                let j = choose|j: int| 0 <= j < r.len() && r[j] == glyph;
                if j < k {
                    assert(list[j] == glyph);
                } else {
                    assert(list[j + 1] == glyph);
                }
            }
        }
    } else {
        let r = list.insert(0, glyph);
        assert(r[0] == glyph);
        assert(r.contains(glyph));
    }
}

proof fn lemma_first_at_exists(list: Seq<char>, glyph: char, k0: int)
    requires
        0 <= k0 < list.len(),
        list[k0] == glyph,
    ensures
        exists|k: int| is_first_at(list, glyph, k),
    decreases k0,
{
    if exists|j: int| 0 <= j < k0 && list[j] == glyph {
        let j = choose|j: int| 0 <= j < k0 && list[j] == glyph;
        lemma_first_at_exists(list, glyph, j);
    } else {
        assert(is_first_at(list, glyph, k0));
    }
}

/// Saving a character that was not saved, then toggling it again, unsaves it and
/// gives back the list as it was.
pub proof fn lemma_toggle_saved_twice(list: Seq<char>, glyph: char)
    requires
        !list.contains(glyph),
    ensures
        toggle_saved_spec(toggle_saved_spec(list, glyph).0, glyph) == (list, false),
{
    let once = list.insert(0, glyph);
    assert(once[0] == glyph);
    assert(is_first_at(once, glyph, 0));
    let k = choose|k: int| is_first_at(once, glyph, k);
    assert(k == 0);
    assert(once.contains(glyph));
    assert(once.remove(0) =~= list);
}

// ── Recording a visit keeps the newest history ──────────────────────────────

/// `out` holds characters of `list` other than `glyph`, picked at the strictly
/// increasing positions `idx`; every other character of `list` is picked, unless
/// `out` already holds `cap` characters and it comes after everything picked.
pub open spec fn kept_newest_first(
    out: Seq<char>,
    list: Seq<char>,
    glyph: char,
    cap: nat,
    idx: Seq<int>,
) -> bool {
    &&& idx.len() == out.len()
    &&& forall|j: int|
        0 <= j < idx.len() ==> 0 <= #[trigger] idx[j] < list.len() && out[j] == list[idx[j]]
            && out[j] != glyph
    &&& forall|i: int, j: int| 0 <= i < j < idx.len() ==> #[trigger] idx[i] < #[trigger] idx[j]
    &&& forall|k: int|
        0 <= k < list.len() && #[trigger] list[k] != glyph ==> (exists|j: int|
            0 <= j < idx.len() && #[trigger] idx[j] == k) || (out.len() == cap && forall|j: int|
            0 <= j < idx.len() ==> #[trigger] idx[j] < k)
}

proof fn lemma_without_exact(list: Seq<char>, glyph: char) -> (idx: Seq<int>)
    ensures
        kept_newest_first(without(list, glyph), list, glyph, list.len() + 1, idx),
    decreases list.len(),
{
    if list.len() == 0 {
        Seq::empty()
    } else {
        let rest = list.drop_last();
        let idx0 = lemma_without_exact(rest, glyph);
        lemma_without(rest, glyph);
        lemma_without(list, glyph);
        let w0 = without(rest, glyph);
        let c = list.last();
        let last = list.len() - 1;
        assert forall|j: int| 0 <= j < idx0.len() implies list[idx0[j]] == rest[idx0[j]] by {}
        if c == glyph {
            assert forall|k: int| 0 <= k < list.len() && #[trigger] list[k] != glyph implies exists|j: int|
                0 <= j < idx0.len() && #[trigger] idx0[j] == k by {
                assert(k < last);
                assert(rest[k] == list[k]);
            }
            idx0
        } else {
            let idx = idx0.push(last);
            let out = w0.push(c);
            assert(without(list, glyph) == out);
            assert forall|j: int| 0 <= j < idx.len() implies 0 <= #[trigger] idx[j] < list.len()
                && out[j] == list[idx[j]] && out[j] != glyph by {
                if j < idx0.len() {
                    assert(idx[j] == idx0[j]);
                    assert(out[j] == w0[j]);
                }
            }
            assert forall|i: int, j: int| 0 <= i < j < idx.len() implies #[trigger] idx[i]
                < #[trigger] idx[j] by {
                if j == idx.len() - 1 {
                    assert(idx[i] == idx0[i]);
                } else {
                    assert(idx[i] == idx0[i] && idx[j] == idx0[j]);
                }
            }
            assert forall|k: int| 0 <= k < list.len() && #[trigger] list[k] != glyph implies exists|j: int|
                0 <= j < idx.len() && #[trigger] idx[j] == k by {
                if k == last {
                    assert(idx[idx.len() - 1] == k);
                } else {
                    assert(rest[k] == list[k]);
                    let j = choose|j: int| 0 <= j < idx0.len() && #[trigger] idx0[j] == k;
                    assert(idx[j] == idx0[j]);
                }
            }
            idx
        }
    }
}

/// Recording a visit puts the character first and, after it, the newest of the
/// other characters in their order: nothing is reordered, and a character is
/// dropped only when the history is full and it is older than every one kept.
pub proof fn lemma_push_recent_keeps_newest(list: Seq<char>, glyph: char)
    ensures
        push_recent_spec(list, glyph).len() >= 1,
        push_recent_spec(list, glyph)[0] == glyph,
        exists|idx: Seq<int>|
            #[trigger] kept_newest_first(
                push_recent_spec(list, glyph).subrange(1, push_recent_spec(list, glyph).len() as int),
                list,
                glyph,
                (MAX_RECENT - 1) as nat,
                idx,
            ),
{
    let w = without(list, glyph);
    let widx = lemma_without_exact(list, glyph);
    lemma_without(list, glyph);
    let r = push_recent_spec(list, glyph);
    let all = seq![glyph] + w;
    let out = r.subrange(1, r.len() as int);
    let n = out.len();
    assert(r.len() == if all.len() <= MAX_RECENT { all.len() } else { MAX_RECENT as nat });
    assert(n <= w.len());
    assert forall|j: int| 0 <= j < n implies out[j] == w[j] by {
        assert(out[j] == r[j + 1]);
        assert(r[j + 1] == all[j + 1]);
    }
    let idx = widx.subrange(0, n as int);
    let cap = (MAX_RECENT - 1) as nat;
    assert forall|j: int| 0 <= j < idx.len() implies 0 <= #[trigger] idx[j] < list.len()
        && out[j] == list[idx[j]] && out[j] != glyph by {
        assert(idx[j] == widx[j]);
    }
    assert forall|i: int, j: int| 0 <= i < j < idx.len() implies #[trigger] idx[i] < #[trigger] idx[j] by {
        assert(idx[i] == widx[i] && idx[j] == widx[j]);
    }
    assert forall|k: int| 0 <= k < list.len() && #[trigger] list[k] != glyph implies (exists|j: int|
        0 <= j < idx.len() && #[trigger] idx[j] == k) || (out.len() == cap && forall|j: int|
        0 <= j < idx.len() ==> #[trigger] idx[j] < k) by {
        let j0 = choose|j: int| 0 <= j < widx.len() && #[trigger] widx[j] == k;
        if j0 < n {
            assert(idx[j0] == k);
        } else {
            assert(n < w.len());
            assert(out.len() == cap);
            assert forall|j: int| 0 <= j < idx.len() implies #[trigger] idx[j] < k by {
                assert(idx[j] == widx[j]);
            }
        }
    }
    assert(kept_newest_first(out, list, glyph, cap, idx));
}

/// Toggling an unsaved character puts it in front of the others; toggling a
/// saved one takes out its first occurrence and nothing else, the others
/// staying in their order.
pub proof fn lemma_toggle_saved_exact(list: Seq<char>, glyph: char)
    ensures
        !list.contains(glyph) ==> toggle_saved_spec(list, glyph) == (seq![glyph] + list, true),
        forall|k: int|
            #[trigger] is_first_at(list, glyph, k) ==> toggle_saved_spec(list, glyph) == (
                list.subrange(0, k) + list.subrange(k + 1, list.len() as int),
                false,
            ),
{
    if !list.contains(glyph) {
        assert(list.insert(0, glyph) =~= seq![glyph] + list);
    }
    assert forall|k: int| #[trigger] is_first_at(list, glyph, k) implies toggle_saved_spec(
        list,
        glyph,
    ) == (list.subrange(0, k) + list.subrange(k + 1, list.len() as int), false) by {
        assert(list.contains(glyph)) by {
            assert(list[k] == glyph);
        }
        let c = choose|c: int| is_first_at(list, glyph, c);
        assert(is_first_at(list, glyph, c));
        if c < k {
            assert(list[c] != glyph);
        }
        if k < c {
            assert(list[k] != glyph);
        }
        assert(list.remove(k) =~= list.subrange(0, k) + list.subrange(k + 1, list.len() as int));
    }
}

} // verus!
