//! Where submitting the search field leads.
//!
//! A single character is unambiguous, so it goes straight to its page; anything
//! else becomes a shareable `/search` query.

use vstd::prelude::*;

use crate::chars::{chars_of, string_from_chars};
use crate::lists::{is_whitespace, is_whitespace_spec};
use crate::url::{encode, encoded};

verus! {

/// Where a submitted query leads.
pub enum SearchTarget {
    /// The character page, with the segment already percent-encoded.
    Character(String),
    /// The search page, with the trimmed query.
    Search(String),
}

pub enum SearchTargetView {
    Character(Seq<char>),
    Search(Seq<char>),
}

impl View for SearchTarget {
    type V = SearchTargetView;

    open spec fn view(&self) -> SearchTargetView {
        match self {
            SearchTarget::Character(s) => SearchTargetView::Character(s@),
            SearchTarget::Search(s) => SearchTargetView::Search(s@),
        }
    }
}

/// `s[a..b]` is `s` with its leading and trailing whitespace dropped.
pub open spec fn trims_to(s: Seq<char>, a: int, b: int) -> bool {
    &&& 0 <= a <= b <= s.len()
    &&& forall|j: int| 0 <= j < a ==> #[trigger] is_whitespace_spec(s[j])
    &&& forall|j: int| b <= j < s.len() ==> #[trigger] is_whitespace_spec(s[j])
    &&& a < b ==> !is_whitespace_spec(s[a]) && !is_whitespace_spec(s[b - 1])
}

/// `s` without leading or trailing whitespace, as `str::trim` gives it.
pub open spec fn trim_spec(s: Seq<char>) -> Seq<char> {
    let (a, b) = choose|a: int, b: int| trims_to(s, a, b);
    s.subrange(a, b)
}

pub open spec fn opt_target_view(t: Option<SearchTarget>) -> Option<SearchTargetView> {
    match t {
        Some(t) => Some(t@),
        None => None,
    }
}

/// Nothing for a blank query; the character's page for a single non-ASCII
/// character; a search for anything else.
pub open spec fn submit_spec(query: Seq<char>) -> Option<SearchTargetView> {
    let text = trim_spec(query);
    if text.len() == 0 {
        None
    } else if text.len() == 1 && text[0] as u32 >= 128 {
        Some(SearchTargetView::Character(encoded(vstd::utf8::encode_utf8(text))))
    } else {
        Some(SearchTargetView::Search(text))
    }
}

proof fn lemma_trim_unique(s: Seq<char>, a: int, b: int)
    requires
        trims_to(s, a, b),
    ensures
        trim_spec(s) == s.subrange(a, b),
{
    let (a2, b2) = choose|x: int, y: int| trims_to(s, x, y);
    assert(trims_to(s, a2, b2));
    if a < b && a2 < b2 {
        if a < a2 {
            assert(is_whitespace_spec(s[a]));
        }
        if a2 < a {
            assert(is_whitespace_spec(s[a2]));
        }
        if b < b2 {
            assert(is_whitespace_spec(s[b2 - 1]));
        }
        if b2 < b {
            assert(is_whitespace_spec(s[b - 1]));
        }
    } else if a < b {
        assert(a2 == b2);
        if a < a2 {
            assert(is_whitespace_spec(s[a]));
        } else {
            assert(is_whitespace_spec(s[a]));
        }
    } else if a2 < b2 {
        if a2 < a {
            assert(is_whitespace_spec(s[a2]));
        } else {
            assert(is_whitespace_spec(s[a2]));
        }
    } else {
        assert(s.subrange(a, b) =~= Seq::<char>::empty());
        assert(s.subrange(a2, b2) =~= Seq::<char>::empty());
    }
}

/// `s` with its leading and trailing whitespace dropped.
pub fn trim(s: &str) -> (r: Vec<char>)
    ensures
        r@ == trim_spec(s@),
{
    let cs = chars_of(s);
    let n = cs.len();
    let mut a: usize = 0;
    while a < n && is_whitespace(cs[a])
        invariant
            n == cs@.len(),
            a <= n,
            forall|j: int| 0 <= j < a ==> #[trigger] is_whitespace_spec(cs@[j]),
        decreases n - a,
    {
        a = a + 1;
    }
    let mut b: usize = n;
    while b > a && is_whitespace(cs[b - 1])
        invariant
            n == cs@.len(),
            a <= b <= n,
            forall|j: int| b <= j < n ==> #[trigger] is_whitespace_spec(cs@[j]),
        decreases b,
    {
        b = b - 1;
    }
    let mut out: Vec<char> = Vec::new();
    let mut i: usize = a;
    while i < b
        invariant
            a <= i <= b <= n,
            n == cs@.len(),
            out@ == cs@.subrange(a as int, i as int),
        decreases b - i,
    {
        out.push(cs[i]);
        i = i + 1;
        assert(out@ =~= cs@.subrange(a as int, i as int));
    }
    proof {
        if a < b {
            assert(!is_whitespace_spec(cs@[a as int]));
        }
        assert(trims_to(s@, a as int, b as int));
        lemma_trim_unique(s@, a as int, b as int);
    }
    out
}

/// Where submitting `query` leads, or nothing for a blank one.
pub fn submit_target(query: &str) -> (r: Option<SearchTarget>)
    ensures
        opt_target_view(r) == submit_spec(query@),
{
    let text = trim(query);
    if text.len() == 0 {
        return None;
    }
    if text.len() == 1 && text[0] as u32 >= 128 {
        let glyph = string_from_chars(&text);
        return Some(SearchTarget::Character(encode(glyph.as_str())));
    }
    Some(SearchTarget::Search(string_from_chars(&text)))
}

/// Submitting searches for the whole query with only its outer whitespace
/// dropped, inner spaces and all, unless it is blank (nothing happens) or one
/// non-ASCII character (its page opens): `q[a..b]` is the query without the
/// whitespace at either end.
pub proof fn lemma_submit_exact(q: Seq<char>, a: int, b: int)
    requires
        trims_to(q, a, b),
    ensures
        a == b ==> submit_spec(q) is None,
        b == a + 1 && q[a] as u32 >= 128 ==> submit_spec(q) == Some(
            SearchTargetView::Character(encoded(vstd::utf8::encode_utf8(seq![q[a]]))),
        ),
        a < b && !(b == a + 1 && q[a] as u32 >= 128) ==> submit_spec(q) == Some(
            SearchTargetView::Search(q.subrange(a, b)),
        ),
{
    lemma_trim_unique(q, a, b);
    let text = q.subrange(a, b);
    if b == a + 1 {
        assert(text =~= seq![q[a]]);
    }
}

} // verus!
