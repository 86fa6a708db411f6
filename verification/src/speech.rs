//! Choosing the voice Mandarin is spoken in.
//!
//! The browser's speech synthesiser lists whatever voices are installed; this
//! picks the best one for Mandarin. Speaking is the caller's.

use vstd::prelude::*;

use crate::chars::chars_of;
use crate::lists::{first_where, lemma_first_where, lemma_first_where_at};

verus! {

/// What the voice picker needs to know of an installed voice.
pub struct Voice {
    /// The voice's language tag, such as `zh-CN` or `cmn_Hans_CN`.
    pub lang: String,
    /// Whether the voice is synthesised on the device rather than by a service.
    pub local_service: bool,
}

pub struct VoiceView {
    pub lang: Seq<char>,
    pub local_service: bool,
}

impl View for Voice {
    type V = VoiceView;

    open spec fn view(&self) -> VoiceView {
        VoiceView { lang: self.lang@, local_service: self.local_service }
    }
}

/// What `str::to_lowercase` makes of a string.
pub uninterp spec fn lowercase(s: Seq<char>) -> Seq<char>;

/// The lower-case form of a string.
///
/// Trusted: calls `str::to_lowercase`, whose result depends on the string
/// alone (Unicode's lower-case mappings); nothing more is said of it here.
#[verifier::external_body]
fn to_lowercase(s: &str) -> (r: String)
    ensures
        r@ == lowercase(s@),
{
    s.to_lowercase()
}

/// `s` with every `_` written as `-`.
pub open spec fn dashed(s: Seq<char>) -> Seq<char> {
    s.map_values(|c: char| if c == '_' { '-' } else { c })
}

pub open spec fn starts_with(s: Seq<char>, prefix: Seq<char>) -> bool {
    prefix.len() <= s.len() && s.subrange(0, prefix.len() as int) == prefix
}

/// A voice as the picker compares it: its language tag already in lower case,
/// and whether it runs on the device.
pub struct LangKey {
    pub lowered: String,
    pub local_service: bool,
}

pub struct LangKeyView {
    pub lowered: Seq<char>,
    pub local_service: bool,
}

impl View for LangKey {
    type V = LangKeyView;

    open spec fn view(&self) -> LangKeyView {
        LangKeyView { lowered: self.lowered@, local_service: self.local_service }
    }
}

pub open spec fn is_mainland_local(v: LangKeyView) -> bool {
    starts_with(dashed(v.lowered), seq!['z', 'h', '-', 'c', 'n']) && v.local_service
}

pub open spec fn is_mainland(v: LangKeyView) -> bool {
    starts_with(dashed(v.lowered), seq!['z', 'h', '-', 'c', 'n'])
}

pub open spec fn is_mandarin(v: LangKeyView) -> bool {
    starts_with(dashed(v.lowered), seq!['c', 'm', 'n'])
}

pub open spec fn is_chinese(v: LangKeyView) -> bool {
    starts_with(dashed(v.lowered), seq!['z', 'h'])
}

pub open spec fn keys_view(keys: Seq<LangKey>) -> Seq<LangKeyView> {
    keys.map_values(|k: LangKey| k@)
}

/// The best voice among lower-cased tags, with `_` read as `-`: the first
/// mainland Chinese voice on the device, then the first mainland Chinese voice at
/// all, then the first Mandarin voice, then the first Chinese voice of any kind.
pub open spec fn pick_by_keys_spec(keys: Seq<LangKeyView>) -> Option<int> {
    match first_where(keys, |v: LangKeyView| is_mainland_local(v)) {
        Some(i) => Some(i),
        None => match first_where(keys, |v: LangKeyView| is_mainland(v)) {
            Some(i) => Some(i),
            None => match first_where(keys, |v: LangKeyView| is_mandarin(v)) {
                Some(i) => Some(i),
                None => first_where(keys, |v: LangKeyView| is_chinese(v)),
            },
        },
    }
}

/// The voices as the picker compares them, each tag lower-cased.
pub open spec fn lowered_voices(voices: Seq<VoiceView>) -> Seq<LangKeyView> {
    voices.map_values(|v: VoiceView| LangKeyView { lowered: lowercase(v.lang), local_service: v.local_service })
}

pub open spec fn voices_view(voices: Seq<Voice>) -> Seq<VoiceView> {
    voices.map_values(|v: Voice| v@)
}

/// The best installed voice: [`pick_by_keys_spec`] over the voices' lower-cased
/// tags.
pub open spec fn pick_voice_spec(voices: Seq<VoiceView>) -> Option<int> {
    pick_by_keys_spec(lowered_voices(voices))
}

fn dashed_chars(s: &str) -> (r: Vec<char>)
    ensures
        r@ == dashed(s@),
{
    let cs = chars_of(s);
    let mut out: Vec<char> = Vec::new();
    let mut i: usize = 0;
    while i < cs.len()
        invariant
            i <= cs.len(),
            cs@ == s@,
            out@ == dashed(cs@).subrange(0, i as int),
        decreases cs.len() - i,
    {
        out.push(if cs[i] == '_' { '-' } else { cs[i] });
        i = i + 1;
        assert(out@ =~= dashed(cs@).subrange(0, i as int));
    }
    assert(dashed(cs@).subrange(0, cs.len() as int) =~= dashed(cs@));
    out
}

fn has_prefix(s: &Vec<char>, prefix: &Vec<char>) -> (r: bool)
    ensures
        r == starts_with(s@, prefix@),
{
    if prefix.len() > s.len() {
        return false;
    }
    let mut i: usize = 0;
    while i < prefix.len()
        invariant
            prefix.len() <= s.len(),
            i <= prefix.len(),
            forall|j: int| 0 <= j < i ==> s@[j] == prefix@[j],
        decreases prefix.len() - i,
    {
        if s[i] != prefix[i] {
            assert(s@.subrange(0, prefix@.len() as int)[i as int] != prefix@[i as int]);
            return false;
        }
        i = i + 1;
    }
    assert(s@.subrange(0, prefix@.len() as int) =~= prefix@);
    true
}

/// Which of the four preferences voice `v` meets.
fn preferences(v: &LangKey) -> (r: (bool, bool, bool, bool))
    ensures
        r == (is_mainland_local(v@), is_mainland(v@), is_mandarin(v@), is_chinese(v@)),
{
    let key = dashed_chars(v.lowered.as_str());
    let mainland = has_prefix(&key, &vec!['z', 'h', '-', 'c', 'n']);
    let mandarin = has_prefix(&key, &vec!['c', 'm', 'n']);
    let chinese = has_prefix(&key, &vec!['z', 'h']);
    (mainland && v.local_service, mainland, mandarin, chinese)
}

pub open spec fn preference(which: u8) -> spec_fn(LangKeyView) -> bool {
    if which == 0 {
        |v: LangKeyView| is_mainland_local(v)
    } else if which == 1 {
        |v: LangKeyView| is_mainland(v)
    } else if which == 2 {
        |v: LangKeyView| is_mandarin(v)
    } else {
        |v: LangKeyView| is_chinese(v)
    }
}

/// The index of the first voice meeting preference `which` (0 to 3).
fn first_meeting(keys: &Vec<LangKey>, which: u8) -> (r: Option<usize>)
    requires
        which < 4,
    ensures
        ({
            let p = preference(which);
            match r {
                Some(i) => i < keys@.len() && first_where(keys_view(keys@), p) == Some(i as int),
                None => first_where(keys_view(keys@), p) is None,
            }
        }),
{
    let ghost p = preference(which);
    let ghost vs = keys_view(keys@);
    let mut i: usize = 0;
    while i < keys.len()
        invariant
            which < 4,
            p == preference(which),
            vs == keys_view(keys@),
            i <= keys.len(),
            forall|j: int| 0 <= j < i ==> !p(vs[j]),
        decreases keys.len() - i,
    {
        let (a, b, c, d) = preferences(&keys[i]);
        let hit = if which == 0 {
            a
        } else if which == 1 {
            b
        } else if which == 2 {
            c
        } else {
            d
        };
        assert(hit == p(vs[i as int]));
        if hit {
            proof {
                lemma_first_where_at(vs, p, i as int);
            }
            return Some(i);
        }
        i = i + 1;
    }
    proof {
        lemma_first_where(vs, p);
        if first_where(vs, p) is Some {
            let k = first_where(vs, p)->0;
            assert(!p(vs[k]));
        }
    }
    None
}

/// The best voice for Mandarin among voices whose language tags are already in
/// lower case: prefer mainland Chinese on the device, then mainland Chinese, then
/// any Mandarin, then any Chinese at all.
pub fn pick_by_lowered(keys: &Vec<LangKey>) -> (r: Option<usize>)
    ensures
        match r {
            Some(i) => pick_by_keys_spec(keys_view(keys@)) == Some(i as int),
            None => pick_by_keys_spec(keys_view(keys@)) is None,
        },
{
    match first_meeting(keys, 0) {
        Some(i) => Some(i),
        None => match first_meeting(keys, 1) {
            Some(i) => Some(i),
            None => match first_meeting(keys, 2) {
                Some(i) => Some(i),
                None => first_meeting(keys, 3),
            },
        },
    }
}

/// The best installed voice for Mandarin, by index: each language tag is
/// lower-cased, then [`pick_by_lowered`] chooses.
pub fn pick_voice(voices: &Vec<Voice>) -> (r: Option<usize>)
    ensures
        match r {
            Some(i) => pick_voice_spec(voices_view(voices@)) == Some(i as int),
            None => pick_voice_spec(voices_view(voices@)) is None,
        },
{
    let mut keys: Vec<LangKey> = Vec::new();
    let mut i: usize = 0;
    while i < voices.len()
        invariant
            i <= voices.len(),
            keys@.len() == i,
            forall|j: int| 0 <= j < i ==> (#[trigger] keys@[j])@ == lowered_voices(voices_view(voices@))[j],
        decreases voices.len() - i,
    {
        let lowered = to_lowercase(voices[i].lang.as_str());
        keys.push(LangKey { lowered, local_service: voices[i].local_service });
        i = i + 1;
    }
    assert(keys_view(keys@) =~= lowered_voices(voices_view(voices@)));
    pick_by_lowered(&keys)
}

/// How well a voice suits Mandarin, best first: 0 for mainland Chinese on the
/// device, 1 for mainland Chinese, 2 for Mandarin, 3 for other Chinese, 4 for
/// none of these.
pub open spec fn voice_rank(v: LangKeyView) -> nat {
    if is_mainland_local(v) {
        0
    } else if is_mainland(v) {
        1
    } else if is_mandarin(v) {
        2
    } else if is_chinese(v) {
        3
    } else {
        4
    }
}

/// The picker finds nothing exactly when no voice is Chinese or Mandarin;
/// otherwise it picks a voice that no other voice outranks, and the first of
/// those.
pub proof fn lemma_pick_by_keys_exact(keys: Seq<LangKeyView>)
    ensures
        pick_by_keys_spec(keys) is None <==> forall|k: int|
            0 <= k < keys.len() ==> #[trigger] voice_rank(keys[k]) == 4,
        pick_by_keys_spec(keys) matches Some(i) ==> {
            &&& 0 <= i < keys.len()
            &&& voice_rank(keys[i]) < 4
            &&& forall|k: int| 0 <= k < keys.len() ==> voice_rank(keys[i]) <= #[trigger] voice_rank(keys[k])
            &&& forall|k: int| 0 <= k < i ==> voice_rank(keys[i]) < #[trigger] voice_rank(keys[k])
        },
{
    let p0 = |v: LangKeyView| is_mainland_local(v);
    let p1 = |v: LangKeyView| is_mainland(v);
    let p2 = |v: LangKeyView| is_mandarin(v);
    let p3 = |v: LangKeyView| is_chinese(v);
    lemma_first_where(keys, p0);
    lemma_first_where(keys, p1);
    lemma_first_where(keys, p2);
    lemma_first_where(keys, p3);
    assert forall|k: int| 0 <= k < keys.len() implies (#[trigger] voice_rank(keys[k]) == 0 <==> p0(keys[k]))
        && (voice_rank(keys[k]) <= 1 <==> p1(keys[k])) && (voice_rank(keys[k]) == 2 ==> p2(keys[k]))
        && (voice_rank(keys[k]) < 4 <==> (p1(keys[k]) || p2(keys[k]) || p3(keys[k])))
        && (voice_rank(keys[k]) == 3 ==> p3(keys[k])) by {}
    if pick_by_keys_spec(keys) is None {
        assert forall|k: int| 0 <= k < keys.len() implies #[trigger] voice_rank(keys[k]) == 4 by {
            assert(!p0(keys[k]) && !p1(keys[k]) && !p2(keys[k]) && !p3(keys[k]));
        }
    } else {
        let i = pick_by_keys_spec(keys)->0;
        assert(voice_rank(keys[i]) < 4);
    }
}

} // verus!
