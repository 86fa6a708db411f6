//! Handwriting lookup's template set: the stroke medians of every character the
//! pad can recognise, parsed out of the generated `strokes.bin`.
//!
//! The file is a header — `SOSR`, a version byte, the points-per-stroke the file
//! was built with, two reserved bytes and a little-endian template count — then
//! one little-endian code point per template, then each template's stroke count
//! followed by its points, x then y, a byte per coordinate across the unit
//! square. Everything here is integer work on those bytes: the parse, and the
//! choice of which templates are worth scoring against a drawing. The scoring
//! itself is floating point and lives with the pad.

use vstd::prelude::*;
use vstd::utf8::is_scalar;

use crate::chars::{append_chars, push_char};
use crate::text::{decimal, decimal_string};

verus! {

/// The file format version this build reads.
pub const VERSION: u8 = 1;

/// Header length: magic, version, points-per-stroke, two reserved bytes, count.
pub const HEADER: usize = 12;

/// Sanity bounds on the header, so a corrupt or misrouted download fails here
/// rather than by allocating something absurd.
pub const MAX_POINTS: usize = 32;
pub const MAX_TEMPLATES: usize = 1048576;

/// How far a template's stroke count may differ from the drawing's before it is
/// not worth scoring. Three covers the usual miscounts without opening the field
/// up to everything.
pub const COUNT_WINDOW: usize = 3;

/// One character's strokes, as an offset into the template points.
#[derive(Clone, Copy)]
pub struct Template {
    pub glyph: char,
    pub strokes: usize,
    pub offset: usize,
}

/// Why a template file was refused.
#[derive(Clone, Copy, PartialEq, Eq, Debug)]
pub enum TemplateError {
    /// Too short for a header, or not `SOSR`.
    NotTemplates,
    /// A file format version this build does not read.
    Version(u8),
    /// A points-per-stroke count outside 2 to [`MAX_POINTS`].
    PointsPerStroke(usize),
    /// More templates than [`MAX_TEMPLATES`].
    TooMany(usize),
    /// The file ends before its templates do.
    Truncated,
    /// A code point that is not a character.
    NotACharacter(u32),
    /// A template with no strokes, or with fewer points than its strokes need.
    NoStrokes(char),
}

/// `n` in upper-case hexadecimal, without leading zeros.
pub open spec fn hex_upper(n: nat) -> Seq<char>
    decreases n,
{
    if n < 16 {
        seq![crate::url::upper_hex(n)]
    } else {
        hex_upper(n / 16).push(crate::url::upper_hex(n % 16))
    }
}

/// `s` with zeros in front, to at least four characters.
pub open spec fn pad4(s: Seq<char>) -> Seq<char> {
    if s.len() < 4 {
        Seq::new((4 - s.len()) as nat, |i: int| '0') + s
    } else {
        s
    }
}

fn push_hex_upper(out: &mut Vec<char>, n: u32)
    ensures
        final(out)@ == old(out)@ + hex_upper(n as nat),
    decreases n,
{
    let d = n % 16;
    let c = if d < 10 {
        ((d as u8) + 48) as char
    } else {
        ((d as u8) + 55) as char
    };
    if n < 16 {
        out.push(c);
        assert(old(out)@ + hex_upper(n as nat) =~= old(out)@.push(c));
    } else {
        push_hex_upper(out, n / 16);
        out.push(c);
        assert(final(out)@ =~= old(out)@ + hex_upper(n as nat));
    }
}

/// What a refusal says, as the pad shows it.
pub open spec fn message_spec(e: TemplateError) -> Seq<char> {
    match e {
        TemplateError::NotTemplates => "that is not a stroke template file"@,
        TemplateError::Version(v) => "stroke templates are version "@ + decimal(v as nat)
            + ", this build reads version 1"@,
        TemplateError::PointsPerStroke(p) => decimal(p as nat) + " points per stroke is not usable"@,
        TemplateError::TooMany(c) => decimal(c as nat) + " templates is more than this can be"@,
        TemplateError::Truncated => "stroke templates are truncated"@,
        TemplateError::NotACharacter(code) => "U+"@ + pad4(hex_upper(code as nat))
            + " is not a character"@,
        TemplateError::NoStrokes(g) => seq![g] + " has no usable stroke template"@,
    }
}

impl TemplateError {
    /// What the refusal says, as the pad shows it.
    pub fn message(&self) -> (r: String)
        ensures
            r@ == message_spec(*self),
    {
        match *self {
            TemplateError::NotTemplates => String::from_str("that is not a stroke template file"),
            TemplateError::Version(v) => {
                let mut r = String::from_str("stroke templates are version ");
                let d = decimal_string(v as usize);
                r.append(d.as_str());
                r.append(", this build reads version 1");
                r
            },
            TemplateError::PointsPerStroke(p) => {
                let mut r = decimal_string(p);
                r.append(" points per stroke is not usable");
                r
            },
            TemplateError::TooMany(c) => {
                let mut r = decimal_string(c);
                r.append(" templates is more than this can be");
                r
            },
            TemplateError::Truncated => String::from_str("stroke templates are truncated"),
            TemplateError::NotACharacter(code) => {
                let mut digits: Vec<char> = Vec::new();
                push_hex_upper(&mut digits, code);
                let mut padded: Vec<char> = Vec::new();
                let mut k: usize = digits.len();
                while k < 4
                    invariant
                        digits.len() <= k <= 4 || (digits.len() >= 4 && k == digits.len()),
                        padded@ == Seq::new((k - digits.len()) as nat, |i: int| '0'),
                    decreases 4 - k,
                {
                    padded.push('0');
                    k = k + 1;
                    assert(padded@ =~= Seq::new((k - digits.len()) as nat, |i: int| '0'));
                }
                let mut r = String::from_str("U+");
                append_chars(&mut r, &padded);
                append_chars(&mut r, &digits);
                r.append(" is not a character");
                proof {
                    if digits@.len() < 4 {
                        assert(padded@ + digits@ =~= pad4(hex_upper(code as nat)));
                    } else {
                        assert(padded@ =~= Seq::<char>::empty());
                        assert(padded@ + digits@ =~= pad4(hex_upper(code as nat)));
                    }
                    assert(r@ =~= "U+"@ + pad4(hex_upper(code as nat)) + " is not a character"@);
                }
                r
            },
            TemplateError::NoStrokes(g) => {
                let mut r = String::new();
                push_char(&mut r, g);
                r.append(" has no usable stroke template");
                r
            },
        }
    }
}

/// The whole template set, parsed once and kept for the session.
pub struct Templates {
    entries: Vec<Template>,
    /// The file itself: every template's points lie in it, back to back.
    points: Vec<u8>,
    points_per_stroke: usize,
}

/// The little-endian `u32` at `at`.
pub open spec fn le_u32(bytes: Seq<u8>, at: int) -> nat {
    (bytes[at] + 256 * bytes[at + 1] + 65536 * bytes[at + 2] + 16777216 * bytes[at + 3]) as nat
}

/// Where the points of the templates begin: after the header and the code
/// points.
pub open spec fn glyphs_end(count: nat) -> nat {
    HEADER as nat + count * 4
}

/// One template read: the code point of template `i`, then at `cursor` its stroke
/// count and its points.
pub open spec fn read_entry(bytes: Seq<u8>, pps: nat, i: nat, cursor: nat) -> Result<
    (Template, nat),
    TemplateError,
> {
    let code = le_u32(bytes, HEADER + i * 4);
    if !is_scalar(code as u32) {
        Err(TemplateError::NotACharacter(code as u32))
    } else if cursor >= bytes.len() {
        Err(TemplateError::Truncated)
    } else {
        let glyph = (code as u32) as char;
        let strokes = bytes[cursor as int] as nat;
        let start = cursor + 1;
        let span = strokes * pps * 2;
        if strokes == 0 || start + span > bytes.len() {
            Err(TemplateError::NoStrokes(glyph))
        } else {
            Ok(
                (
                    Template { glyph, strokes: strokes as usize, offset: start as usize },
                    start + span,
                ),
            )
        }
    }
}

/// The first `n` templates, and where the next one starts.
pub open spec fn read_entries(bytes: Seq<u8>, pps: nat, count: nat, n: nat) -> Result<
    (Seq<Template>, nat),
    TemplateError,
>
    decreases n,
{
    if n == 0 {
        Ok((Seq::empty(), glyphs_end(count)))
    } else {
        match read_entries(bytes, pps, count, (n - 1) as nat) {
            Err(e) => Err(e),
            Ok((entries, cursor)) => match read_entry(bytes, pps, (n - 1) as nat, cursor) {
                Err(e) => Err(e),
                Ok((t, next)) => Ok((entries.push(t), next)),
            },
        }
    }
}

/// What a template file holds: its points-per-stroke and its templates, or the
/// first thing wrong with it.
pub open spec fn parse_spec(bytes: Seq<u8>) -> Result<(nat, Seq<Template>), TemplateError> {
    if bytes.len() < HEADER || bytes[0] != 0x53 || bytes[1] != 0x4f || bytes[2] != 0x53
        || bytes[3] != 0x52 {
        Err(TemplateError::NotTemplates)
    } else if bytes[4] != VERSION {
        Err(TemplateError::Version(bytes[4]))
    } else if !(2 <= bytes[5] <= MAX_POINTS) {
        Err(TemplateError::PointsPerStroke(bytes[5] as usize))
    } else if le_u32(bytes, 8) > MAX_TEMPLATES {
        Err(TemplateError::TooMany(le_u32(bytes, 8) as usize))
    } else if bytes.len() < glyphs_end(le_u32(bytes, 8)) {
        Err(TemplateError::Truncated)
    } else {
        match read_entries(bytes, bytes[5] as nat, le_u32(bytes, 8), le_u32(bytes, 8)) {
            Err(e) => Err(e),
            Ok((entries, _)) => Ok((bytes[5] as nat, entries)),
        }
    }
}

/// Every template's points lie inside the file.
pub open spec fn entries_fit(entries: Seq<Template>, pps: nat, len: nat) -> bool {
    forall|i: int|
        0 <= i < entries.len() ==> #[trigger] entries[i].strokes >= 1 && entries[i].offset
            + entries[i].strokes * pps * 2 <= len
}

/// Trusted: calls `char::from_u32`, which std documents as returning the
/// character with the given code point, or `None` when the value is a surrogate
/// or lies above U+10FFFF, that is, is not a Unicode scalar value.
#[verifier::external_body]
fn char_from_u32(code: u32) -> (r: Option<char>)
    ensures
        match r {
            Some(c) => is_scalar(code) && c == code as char,
            None => !is_scalar(code),
        },
{
    char::from_u32(code)
}

fn read_u32(bytes: &Vec<u8>, at: usize) -> (r: u32)
    requires
        at + 4 <= bytes.len(),
    ensures
        r as nat == le_u32(bytes@, at as int),
{
    let v: u64 = bytes[at] as u64 + 256 * (bytes[at + 1] as u64) + 65536 * (bytes[at + 2] as u64)
        + 16777216 * (bytes[at + 3] as u64);
    v as u32
}

/// Once the reading fails, it fails the same way however far it was meant to go.
proof fn lemma_read_entries_err(bytes: Seq<u8>, pps: nat, count: nat, n: nat, m: nat)
    requires
        n <= m,
        read_entries(bytes, pps, count, n) is Err,
    ensures
        read_entries(bytes, pps, count, m) == read_entries(bytes, pps, count, n),
    decreases m - n,
{
    if n < m {
        lemma_read_entries_err(bytes, pps, count, n, (m - 1) as nat);
    }
}

proof fn lemma_read_entries_fit(bytes: Seq<u8>, pps: nat, count: nat, n: nat)
    requires
        read_entries(bytes, pps, count, n) is Ok,
    ensures
        ({
            let (entries, cursor) = read_entries(bytes, pps, count, n)->Ok_0;
            &&& entries.len() == n
            &&& entries_fit(entries, pps, bytes.len())
            &&& (n > 0 ==> cursor <= bytes.len())
        }),
    decreases n,
{
    if n > 0 {
        lemma_read_entries_fit(bytes, pps, count, (n - 1) as nat);
        let (entries, cursor) = read_entries(bytes, pps, count, (n - 1) as nat)->Ok_0;
        let (t, next) = read_entry(bytes, pps, (n - 1) as nat, cursor)->Ok_0;
        let r = entries.push(t);
        assert forall|i: int| 0 <= i < r.len() implies #[trigger] r[i].strokes >= 1 && r[i].offset
            + r[i].strokes * pps * 2 <= bytes.len() by {
            if i < entries.len() {
                assert(r[i] == entries[i]);
            }
        }
    }
}

impl Templates {
    /// The templates are well formed: a usable points-per-stroke, and every
    /// template's points inside the file.
    #[verifier::type_invariant]
    spec fn well_formed(self) -> bool {
        &&& 2 <= self.points_per_stroke <= MAX_POINTS
        &&& entries_fit(self.entries@, self.points_per_stroke as nat, self.points@.len())
    }

    pub closed spec fn entries_view(self) -> Seq<Template> {
        self.entries@
    }

    pub closed spec fn points_view(self) -> Seq<u8> {
        self.points@
    }

    pub closed spec fn points_per_stroke_view(self) -> nat {
        self.points_per_stroke as nat
    }

    /// Parse a template file.
    pub fn parse(bytes: Vec<u8>) -> (r: Result<Templates, TemplateError>)
        ensures
            match r {
                Ok(t) => parse_spec(bytes@) == Ok::<(nat, Seq<Template>), TemplateError>(
                    (t.points_per_stroke_view(), t.entries_view()),
                ) && t.points_view() == bytes@,
                Err(e) => parse_spec(bytes@) == Err::<(nat, Seq<Template>), TemplateError>(e),
            },
    {
        if bytes.len() < HEADER || bytes[0] != 0x53 || bytes[1] != 0x4f || bytes[2] != 0x53
            || bytes[3] != 0x52 {
            return Err(TemplateError::NotTemplates);
        }
        if bytes[4] != VERSION {
            return Err(TemplateError::Version(bytes[4]));
        }
        let points_per_stroke = bytes[5] as usize;
        if !(2 <= points_per_stroke && points_per_stroke <= MAX_POINTS) {
            return Err(TemplateError::PointsPerStroke(points_per_stroke));
        }
        let count = read_u32(&bytes, 8) as usize;
        if count > MAX_TEMPLATES {
            return Err(TemplateError::TooMany(count));
        }
        let glyphs = HEADER + count * 4;
        if bytes.len() < glyphs {
            return Err(TemplateError::Truncated);
        }
        let ghost pps = points_per_stroke as nat;
        let mut entries: Vec<Template> = Vec::new();
        let mut cursor = glyphs;
        let mut i: usize = 0;
        while i < count
            invariant
                2 <= points_per_stroke <= MAX_POINTS,
                pps == points_per_stroke,
                pps == bytes@[5],
                count == le_u32(bytes@, 8),
                count <= MAX_TEMPLATES,
                glyphs == glyphs_end(count as nat),
                glyphs <= bytes@.len(),
                parse_spec(bytes@) == match read_entries(bytes@, pps, count as nat, count as nat) {
                    Err(e) => Err(e),
                    Ok((es, _)) => Ok::<(nat, Seq<Template>), TemplateError>((pps, es)),
                },
                i <= count,
                read_entries(bytes@, pps, count as nat, i as nat) == Ok::<
                    (Seq<Template>, nat),
                    TemplateError,
                >((entries@, cursor as nat)),
            decreases count - i,
        {
            let at = HEADER + i * 4;
            let code = read_u32(&bytes, at);
            let glyph = match char_from_u32(code) {
                Some(c) => c,
                None => {
                    proof {
                        lemma_read_entries_err(bytes@, pps, count as nat, (i + 1) as nat, count as nat);
                    }
                    return Err(TemplateError::NotACharacter(code));
                },
            };
            if cursor >= bytes.len() {
                proof {
                    lemma_read_entries_err(bytes@, pps, count as nat, (i + 1) as nat, count as nat);
                }
                return Err(TemplateError::Truncated);
            }
            let strokes = bytes[cursor] as usize;
            cursor = cursor + 1;
            assert(strokes * points_per_stroke <= 255 * 32) by (nonlinear_arith)
                requires
                    strokes <= 255,
                    points_per_stroke <= 32,
            ;
            let span = strokes * points_per_stroke * 2;
            if strokes == 0 || span > bytes.len() - cursor {
                proof {
                    lemma_read_entries_err(bytes@, pps, count as nat, (i + 1) as nat, count as nat);
                }
                return Err(TemplateError::NoStrokes(glyph));
            }
            entries.push(Template { glyph, strokes, offset: cursor });
            cursor = cursor + span;
            i = i + 1;
        }
        proof {
            lemma_read_entries_fit(bytes@, pps, count as nat, count as nat);
        }
        Ok(Templates { entries, points: bytes, points_per_stroke })
    }

    /// How many templates there are.
    pub fn len(&self) -> (n: usize)
        ensures
            n == self.entries_view().len(),
    {
        self.entries.len()
    }

    /// Template `i`.
    pub fn entry(&self, i: usize) -> (t: Template)
        requires
            i < self.entries_view().len(),
        ensures
            t == self.entries_view()[i as int],
            t.strokes >= 1,
            t.offset + t.strokes * self.points_per_stroke_view() * 2 <= self.points_view().len(),
    {
        proof {
            use_type_invariant(self);
        }
        self.entries[i]
    }

    /// How many points each stroke was resampled to.
    pub fn points_per_stroke(&self) -> (n: usize)
        ensures
            n == self.points_per_stroke_view(),
            2 <= n <= MAX_POINTS,
    {
        proof {
            use_type_invariant(self);
        }
        self.points_per_stroke
    }

    /// How many bytes the file holds.
    pub fn points_len(&self) -> (n: usize)
        ensures
            n == self.points_view().len(),
    {
        self.points.len()
    }

    /// The quantised coordinate at `at` in the file.
    pub fn point(&self, at: usize) -> (b: u8)
        requires
            at < self.points_view().len(),
        ensures
            b == self.points_view()[at as int],
    {
        self.points[at]
    }

    /// The most strokes any template has.
    pub fn widest(&self) -> (w: usize)
        ensures
            forall|i: int| 0 <= i < self.entries_view().len() ==> #[trigger] self.entries_view()[i].strokes <= w,
            self.entries_view().len() == 0 ==> w == 0,
            self.entries_view().len() > 0 ==> exists|i: int|
                0 <= i < self.entries_view().len() && #[trigger] self.entries_view()[i].strokes == w,
    {
        let mut w: usize = 0;
        let mut i: usize = 0;
        while i < self.entries.len()
            invariant
                i <= self.entries@.len(),
                forall|j: int| 0 <= j < i ==> #[trigger] self.entries@[j].strokes <= w,
                i == 0 ==> w == 0,
                i > 0 ==> exists|j: int| 0 <= j < i && #[trigger] self.entries@[j].strokes == w,
            decreases self.entries@.len() - i,
        {
            if i == 0 || self.entries[i].strokes > w {
                w = self.entries[i].strokes;
            }
            i = i + 1;
        }
        w
    }

    /// The templates worth scoring against a drawing of `drawn` strokes: those
    /// whose stroke count is within [`COUNT_WINDOW`] of it, in file order.
    pub fn candidates(&self, drawn: usize) -> (r: Vec<usize>)
        ensures
            r@ == in_window(self.entries_view(), drawn as nat),
    {
        let ghost es = self.entries@;
        let mut out: Vec<usize> = Vec::new();
        let mut i: usize = 0;
        while i < self.entries.len()
            invariant
                es == self.entries@,
                i <= es.len(),
                out@ == in_window(es.subrange(0, i as int), drawn as nat),
            decreases es.len() - i,
        {
            proof {
                assert(es.subrange(0, i + 1).drop_last() =~= es.subrange(0, i as int));
            }
            let strokes = self.entries[i].strokes;
            let difference = if strokes > drawn {
                strokes - drawn
            } else {
                drawn - strokes
            };
            if difference <= COUNT_WINDOW {
                out.push(i);
            }
            i = i + 1;
        }
        assert(es.subrange(0, es.len() as int) =~= es);
        out
    }
}

/// The indices of the templates whose stroke count is within [`COUNT_WINDOW`] of
/// `drawn`, in order.
pub open spec fn in_window(entries: Seq<Template>, drawn: nat) -> Seq<usize>
    decreases entries.len(),
{
    if entries.len() == 0 {
        Seq::empty()
    } else {
        let rest = in_window(entries.drop_last(), drawn);
        let s = entries.last().strokes as int;
        if -(COUNT_WINDOW as int) <= s - drawn <= COUNT_WINDOW as int {
            rest.push((entries.len() - 1) as usize)
        } else {
            rest
        }
    }
}

// ── Laws ────────────────────────────────────────────────────────────────────

/// Where the last template of a file that parses ends.
pub open spec fn parse_end(bytes: Seq<u8>) -> nat {
    read_entries(bytes, bytes[5] as nat, le_u32(bytes, 8), le_u32(bytes, 8))->Ok_0.1
}

/// Reading a prefix of the file agrees with reading the whole of it, step by
/// step, until the prefix runs out.
proof fn lemma_prefix_entries(bytes: Seq<u8>, k: nat, pps: nat, count: nat, n: nat)
    requires
        k <= bytes.len(),
        glyphs_end(count) <= k,
        n <= count,
        read_entries(bytes, pps, count, count) is Ok,
    ensures
        read_entries(bytes.subrange(0, k as int), pps, count, n) is Err || read_entries(
            bytes.subrange(0, k as int),
            pps,
            count,
            n,
        ) == read_entries(bytes, pps, count, n),
    decreases n,
{
    let p = bytes.subrange(0, k as int);
    if n > 0 {
        lemma_prefix_entries(bytes, k, pps, count, (n - 1) as nat);
        if read_entries(bytes, pps, count, n) is Err {
            lemma_read_entries_err(bytes, pps, count, n, count);
        }
        if read_entries(bytes, pps, count, (n - 1) as nat) is Err {
            lemma_read_entries_err(bytes, pps, count, (n - 1) as nat, count);
        }
        if read_entries(p, pps, count, (n - 1) as nat) is Ok {
            let (es, c) = read_entries(bytes, pps, count, (n - 1) as nat)->Ok_0;
            let i = (n - 1) as nat;
            let at = HEADER + i * 4;
            assert(at + 3 < glyphs_end(count));
            assert(p[at] == bytes[at] && p[at + 1] == bytes[at + 1] && p[at + 2] == bytes[at + 2]
                && p[at + 3] == bytes[at + 3]);
            assert(le_u32(p, at) == le_u32(bytes, at));
            if c < k {
                assert(p[c as int] == bytes[c as int]);
            }
        }
    }
}

/// A file that parses and ends where its last template ends is refused when any
/// of it is cut off: every shorter prefix fails to parse.
pub proof fn lemma_truncated_rejected(bytes: Seq<u8>, k: nat)
    requires
        parse_spec(bytes) is Ok,
        parse_end(bytes) == bytes.len(),
        k < bytes.len(),
    ensures
        parse_spec(bytes.subrange(0, k as int)) is Err,
{
    let p = bytes.subrange(0, k as int);
    if k >= HEADER {
        assert(p[0] == bytes[0] && p[1] == bytes[1] && p[2] == bytes[2] && p[3] == bytes[3]);
        assert(p[4] == bytes[4] && p[5] == bytes[5]);
        assert(p[8] == bytes[8] && p[9] == bytes[9] && p[10] == bytes[10] && p[11] == bytes[11]);
        let pps = bytes[5] as nat;
        let count = le_u32(bytes, 8);
        assert(le_u32(p, 8) == count);
        if k >= glyphs_end(count) {
            lemma_prefix_entries(bytes, k, pps, count, count);
            if read_entries(p, pps, count, count) is Ok {
                lemma_read_entries_fit(p, pps, count, count);
                if count == 0 {
                    assert(parse_end(bytes) == glyphs_end(0));
                }
            }
        }
    }
}

/// Whether template `t` has a stroke count within [`COUNT_WINDOW`] of `drawn`.
pub open spec fn near_count(t: Template, drawn: nat) -> bool {
    drawn <= t.strokes + COUNT_WINDOW && t.strokes <= drawn + COUNT_WINDOW
}

/// The candidates for a drawing are exactly the templates whose stroke count is
/// within [`COUNT_WINDOW`] of the strokes drawn, each once, in file order (for
/// as many templates as a vector can hold).
pub proof fn lemma_in_window_exact(entries: Seq<Template>, drawn: nat)
    requires
        entries.len() <= usize::MAX,
    ensures
        forall|j: int|
            0 <= j < in_window(entries, drawn).len() ==> (#[trigger] in_window(entries, drawn)[j])
                < entries.len() && near_count(entries[in_window(entries, drawn)[j] as int], drawn),
        forall|i: int, j: int|
            0 <= i < j < in_window(entries, drawn).len() ==> #[trigger] in_window(entries, drawn)[i]
                < #[trigger] in_window(entries, drawn)[j],
        forall|k: int|
            0 <= k < entries.len() && #[trigger] near_count(entries[k], drawn) ==> exists|j: int|
                0 <= j < in_window(entries, drawn).len() && in_window(entries, drawn)[j] == k,
    decreases entries.len(),
{
    if entries.len() > 0 {
        let rest = entries.drop_last();
        lemma_in_window_exact(rest, drawn);
        let r0 = in_window(rest, drawn);
        let r = in_window(entries, drawn);
        let last = entries.len() - 1;
        assert forall|j: int| 0 <= j < r0.len() implies entries[r0[j] as int] == rest[r0[j] as int] by {}
        if near_count(entries[last], drawn) {
            assert(r == r0.push(last as usize));
            assert forall|j: int| 0 <= j < r.len() implies (#[trigger] r[j]) < entries.len()
                && near_count(entries[r[j] as int], drawn) by {
                if j < r0.len() {
                    assert(r[j] == r0[j]);
                }
            }
            assert forall|i: int, j: int| 0 <= i < j < r.len() implies #[trigger] r[i] < #[trigger] r[j] by {
                assert(r[i] == r0[i]);
                if j < r0.len() {
                    assert(r[j] == r0[j]);
                }
            }
            assert forall|k: int| 0 <= k < entries.len() && #[trigger] near_count(entries[k], drawn) implies exists|j: int|
                0 <= j < r.len() && r[j] == k by {
                if k == last {
                    assert(r[r.len() - 1] == k);
                } else {
                    assert(rest[k] == entries[k]);
                    let j = choose|j: int| 0 <= j < r0.len() && r0[j] == k;
                    assert(r[j] == r0[j]);
                }
            }
        } else {
            assert(r == r0);
            assert forall|k: int| 0 <= k < entries.len() && #[trigger] near_count(entries[k], drawn) implies exists|j: int|
                0 <= j < r.len() && r[j] == k by {
                assert(k != last);
                assert(rest[k] == entries[k]);
            }
        }
    }
}

} // verus!
