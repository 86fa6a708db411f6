//! Counting things readably: `5,369 words`, `1 list`.

use vstd::prelude::*;

use crate::chars::push_char;

verus! {

/// The decimal digit character for `d`, which is below ten.
pub open spec fn digit_char(d: nat) -> char {
    (d + 48) as char
}

/// The decimal representation of `n`, without separators or leading zeros.
pub open spec fn decimal(n: nat) -> Seq<char>
    decreases n,
{
    if n < 10 {
        seq![digit_char(n)]
    } else {
        decimal(n / 10).push(digit_char(n % 10))
    }
}

/// The first `k` digits of `ds`, with a comma in front of every digit after the
/// first that has a multiple of three digits after it.
pub open spec fn grouped_prefix(ds: Seq<char>, k: nat) -> Seq<char>
    decreases k,
{
    if k == 0 {
        Seq::empty()
    } else {
        let i = k - 1;
        let piece = if i > 0 && (ds.len() - i) % 3 == 0 {
            seq![',', ds[i]]
        } else {
            seq![ds[i]]
        };
        grouped_prefix(ds, (k - 1) as nat) + piece
    }
}

/// `n` in decimal, with its thousands separated by commas.
pub open spec fn grouped_spec(n: nat) -> Seq<char> {
    grouped_prefix(decimal(n), decimal(n).len())
}

/// Appends the decimal digits of `n`.
pub(crate) fn push_decimal(out: &mut Vec<char>, n: usize)
    ensures
        final(out)@ == old(out)@ + decimal(n as nat),
    decreases n,
{
    if n < 10 {
        out.push(((n as u8) + 48) as char);
        assert(old(out)@ + decimal(n as nat) =~= old(out)@.push(digit_char(n as nat)));
    } else {
        push_decimal(out, n / 10);
        let d = n % 10;
        out.push(((d as u8) + 48) as char);
        assert(final(out)@ =~= old(out)@ + decimal(n as nat));
    }
}

/// `n` in decimal.
pub fn decimal_string(n: usize) -> (s: String)
    ensures
        s@ == decimal(n as nat),
{
    let mut digits: Vec<char> = Vec::new();
    push_decimal(&mut digits, n);
    assert(digits@ =~= decimal(n as nat));
    crate::chars::string_from_chars(&digits)
}

/// `5369` -> `"5,369"`.
pub fn grouped(n: usize) -> (s: String)
    ensures
        s@ == grouped_spec(n as nat),
{
    let mut digits: Vec<char> = Vec::new();
    push_decimal(&mut digits, n);
    assert(digits@ =~= decimal(n as nat));
    let len = digits.len();
    let mut out = String::new();
    let mut i: usize = 0;
    while i < len
        invariant
            len == digits@.len(),
            digits@ == decimal(n as nat),
            i <= len,
            out@ == grouped_prefix(digits@, i as nat),
        decreases len - i,
    {
        if i > 0 && (len - i) % 3 == 0 {
            push_char(&mut out, ',');
        }
        push_char(&mut out, digits[i]);
        i = i + 1;
        assert(out@ =~= grouped_prefix(digits@, i as nat));
    }
    out
}

/// `(1, "word")` -> `"1 word"`, `(11, "word")` -> `"11 words"`. Only the plurals
/// that take an -s.
pub fn counted(n: usize, singular: &str) -> (s: String)
    ensures
        n == 1 ==> s@ == seq!['1', ' '] + singular@,
        n != 1 ==> s@ == grouped_spec(n as nat) + seq![' '] + singular@ + seq!['s'],
{
    if n == 1 {
        let mut out = String::new();
        push_char(&mut out, '1');
        push_char(&mut out, ' ');
        out.append(singular);
        assert(out@ =~= seq!['1', ' '] + singular@);
        out
    } else {
        let mut out = grouped(n);
        push_char(&mut out, ' ');
        out.append(singular);
        push_char(&mut out, 's');
        assert(out@ =~= grouped_spec(n as nat) + seq![' '] + singular@ + seq!['s']);
        out
    }
}

// ── Laws ────────────────────────────────────────────────────────────────────

proof fn lemma_grouped_prefix_extend(a: Seq<char>, b: Seq<char>, k: nat)
    requires
        k <= a.len(),
        b.len() % 3 == 0,
    ensures
        grouped_prefix(a + b, k) == grouped_prefix(a, k),
    decreases k,
{
    if k > 0 {
        lemma_grouped_prefix_extend(a, b, (k - 1) as nat);
        let i = k - 1;
        assert((a + b)[i] == a[i]);
        assert(((a + b).len() - i) % 3 == (a.len() - i) % 3) by (nonlinear_arith)
            requires
                (a + b).len() == a.len() + b.len(),
                b.len() % 3 == 0,
                i < a.len(),
        ;
    }
}

proof fn lemma_decimal_len(n: nat)
    ensures
        decimal(n).len() >= 1,
        n >= 10 ==> decimal(n).len() >= 2,
    decreases n,
{
    if n >= 10 {
        lemma_decimal_len(n / 10);
    }
}

/// Numbers below a thousand are written plainly; a larger number is its
/// thousands, grouped the same way, then a comma and its last three digits.
pub proof fn lemma_grouped_thousands(n: nat)
    ensures
        n < 1000 ==> grouped_spec(n) == decimal(n),
        n >= 1000 ==> grouped_spec(n) == grouped_spec(n / 1000) + seq![
            ',',
            digit_char((n / 100) % 10),
            digit_char((n / 10) % 10),
            digit_char(n % 10),
        ],
{
    let ds = decimal(n);
    if n < 1000 {
        lemma_decimal_len(n);
        assert(ds.len() <= 3) by {
            if n >= 10 {
                lemma_decimal_len(n / 10);
                if n / 10 >= 10 {
                    assert(n / 100 < 10);
                    assert(decimal(n / 10) == decimal(n / 100).push(digit_char((n / 10) % 10)));
                    assert((n / 10) / 10 == n / 100);
                }
            }
        }
        lemma_grouped_plain(ds, ds.len());
        assert(grouped_prefix(ds, ds.len()) =~= ds.subrange(0, ds.len() as int));
        assert(ds.subrange(0, ds.len() as int) =~= ds);
    } else {
        let q = n / 1000;
        let a = decimal(q);
        assert(n / 10 >= 100);
        assert((n / 10) / 10 == n / 100);
        assert((n / 100) / 10 == q);
        assert(n / 100 >= 10);
        let d2 = digit_char((n / 100) % 10);
        let d1 = digit_char((n / 10) % 10);
        let d0 = digit_char(n % 10);
        assert(decimal(n / 100) == a.push(d2));
        assert(decimal(n / 10) == decimal(n / 100).push(d1));
        assert(ds == decimal(n / 10).push(d0));
        let b = seq![d2, d1, d0];
        assert(ds =~= a + b);
        lemma_grouped_prefix_extend(a, b, a.len());
        lemma_decimal_len(q);
        let la = a.len();
        assert(ds[la as int] == d2 && ds[la as int + 1] == d1 && ds[la as int + 2] == d0);
        assert(grouped_prefix(ds, la + 1) == grouped_prefix(ds, la) + seq![',', d2]);
        assert(grouped_prefix(ds, la + 2) == grouped_prefix(ds, la + 1) + seq![d1]);
        assert(grouped_prefix(ds, la + 3) == grouped_prefix(ds, la + 2) + seq![d0]);
        assert(ds.len() == la + 3);
        assert(grouped_prefix(ds, la) == grouped_spec(q));
        assert(grouped_spec(n) =~= grouped_spec(q) + seq![',', d2, d1, d0]);
    }
}

proof fn lemma_grouped_plain(ds: Seq<char>, k: nat)
    requires
        k <= ds.len(),
        ds.len() <= 3,
    ensures
        grouped_prefix(ds, k) == ds.subrange(0, k as int),
    decreases k,
{
    if k > 0 {
        lemma_grouped_plain(ds, (k - 1) as nat);
        assert(ds.subrange(0, k as int) =~= ds.subrange(0, k - 1) + seq![ds[k - 1]]);
    } else {
        assert(ds.subrange(0, 0) =~= Seq::<char>::empty());
    }
}

} // verus!
