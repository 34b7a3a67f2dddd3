//! Price extraction: finds the price literal that a quote page tags with a
//! ticker-specific marker.
//!
//! The grammar: the marker `id=aq_<ticker>_c4` (ticker in ASCII lower case),
//! then one or more bytes other than `>`, then `>`, then a numeric literal
//! (one or more digits, optionally a dot and more digits), then `</span>`.
//! The first such match in document order wins.
use vstd::prelude::*;

use crate::decimal::{
    digits_value, is_digit, lemma_digits_value_nonneg, lemma_digits_value_prefix, pad_fraction,
    FRACTION_DIGITS,
};
use crate::error::FetchError;

verus! {

/// ASCII lower case of one byte; every other byte is kept.
pub open spec fn lower_byte(c: u8) -> u8 {
    if 65 <= c && c <= 90 {
        (c + 32) as u8
    } else {
        c
    }
}

pub open spec fn lower_bytes(t: Seq<u8>) -> Seq<u8> {
    Seq::new(t.len(), |i: int| lower_byte(t[i]))
}

/// `id=aq_`
pub open spec fn marker_head() -> Seq<u8> {
    seq![105u8, 100u8, 61u8, 97u8, 113u8, 95u8]
}

/// `_c4`
pub open spec fn marker_tail() -> Seq<u8> {
    seq![95u8, 99u8, 52u8]
}

/// `</span>`
pub open spec fn close_tag() -> Seq<u8> {
    seq![60u8, 47u8, 115u8, 112u8, 97u8, 110u8, 62u8]
}

/// The marker that tags the price of ticker `t`.
pub open spec fn marker(t: Seq<u8>) -> Seq<u8> {
    marker_head() + lower_bytes(t) + marker_tail()
}

pub open spec fn is_literal_byte(c: u8) -> bool {
    is_digit(c) || c == 46
}

/// The first index at or after `i` that holds `>`, or the length.
pub open spec fn skip_to_gt(b: Seq<u8>, i: int) -> int
    decreases b.len() - i,
{
    if i >= b.len() {
        b.len() as int
    } else if b[i] == 62u8 {
        i
    } else {
        skip_to_gt(b, i + 1)
    }
}

/// The first index at or after `i` that holds no literal byte, or the length.
pub open spec fn skip_literal(b: Seq<u8>, i: int) -> int
    decreases b.len() - i,
{
    if i >= b.len() {
        b.len() as int
    } else if !is_literal_byte(b[i]) {
        i
    } else {
        skip_literal(b, i + 1)
    }
}

/// One or more digits, then optionally a dot and zero or more digits.
pub open spec fn valid_literal(l: Seq<u8>) -> bool {
    &&& l.len() > 0
    &&& is_digit(l[0])
    &&& forall|i: int| 0 <= i < l.len() ==> is_literal_byte(#[trigger] l[i])
    &&& forall|i: int, j: int|
        #![trigger l[i], l[j]]
        0 <= i < j < l.len() && l[i] == 46u8 ==> l[j] != 46u8
}

/// Where the literal of a match that starts at `p` lies, if one starts there.
pub open spec fn literal_at(body: Seq<u8>, m: Seq<u8>, p: int) -> Option<(int, int)> {
    if 0 <= p && p + m.len() <= body.len() && body.subrange(p, p + m.len()) == m {
        let q = p + m.len();
        let gt = skip_to_gt(body, q);
        if q < gt && gt < body.len() {
            let e = skip_literal(body, gt + 1);
            if e + 7 <= body.len() && body.subrange(e, e + 7) == close_tag()
                && valid_literal(body.subrange(gt + 1, e)) {
                Some((gt + 1, e))
            } else {
                None
            }
        } else {
            None
        }
    } else {
        None
    }
}

/// The literal of the first match at or after `p`.
pub open spec fn first_match_from(body: Seq<u8>, m: Seq<u8>, p: int) -> Option<(int, int)>
    decreases body.len() - p,
{
    if p < 0 || p >= body.len() {
        None
    } else if literal_at(body, m, p) is Some {
        literal_at(body, m, p)
    } else {
        first_match_from(body, m, p + 1)
    }
}

/// The value, in units of 1/10000, of a numeric literal.
pub open spec fn literal_units(l: Seq<u8>) -> int {
    let d = skip_literal_digits(l);
    digits_value(l.subrange(0, d)) * 10000 + digits_value(pad_fraction(fraction_part(l, d)))
}

/// The index of the dot in a literal, or its length.
pub open spec fn skip_literal_digits(l: Seq<u8>) -> int
    decreases l.len(),
{
    if l.len() == 0 {
        0
    } else if !is_digit(l[0]) {
        0
    } else {
        1 + skip_literal_digits(l.drop_first())
    }
}

/// What `extract` gives for ticker `t` on `body`: the value of the first
/// tagged literal, or `None` where there is none or it exceeds `u64`.
pub open spec fn extract_spec(t: Seq<u8>, body: Seq<u8>) -> Option<u64> {
    match first_match_from(body, marker(t), 0) {
        Some((s, e)) => {
            let v = literal_units(body.subrange(s, e));
            if v <= u64::MAX {
                Some(v as u64)
            } else {
                None
            }
        },
        None => None,
    }
}

fn lower(c: u8) -> (r: u8)
    ensures
        r == lower_byte(c),
{
    if 65 <= c && c <= 90 {
        c + 32
    } else {
        c
    }
}

/// Builds the marker of ticker `t`.
pub fn build_marker(t: &[u8]) -> (m: Vec<u8>)
    ensures
        m@ == marker(t@),
{
    let mut m: Vec<u8> = Vec::new();
    m.push(105u8);
    m.push(100u8);
    m.push(61u8);
    m.push(97u8);
    m.push(113u8);
    m.push(95u8);
    assert(m@ =~= marker_head());
    let mut i: usize = 0;
    while i < t.len()
        invariant
            i <= t@.len(),
            m@ =~= marker_head() + lower_bytes(t@).take(i as int),
        decreases t@.len() - i,
    {
        m.push(lower(t[i]));
        assert(lower_bytes(t@).take(i as int + 1) =~= lower_bytes(t@).take(i as int).push(
            lower_byte(t@[i as int]),
        ));
        i += 1;
    }
    assert(lower_bytes(t@).take(t@.len() as int) =~= lower_bytes(t@));
    m.push(95u8);
    m.push(99u8);
    m.push(52u8);
    assert(m@ =~= marker(t@));
    m
}

/// Whether `m` occurs in `body` at `p`.
fn occurs_at(body: &[u8], m: &Vec<u8>, p: usize) -> (r: bool)
    ensures
        r == (p + m@.len() <= body@.len() && body@.subrange(p as int, p + m@.len()) == m@),
{
    let n = body.len();
    if p > n || m.len() > n - p {
        return false;
    }
    let mut k: usize = 0;
    while k < m.len()
        invariant
            n == body@.len(),
            p + m@.len() <= body@.len(),
            k <= m@.len(),
            forall|j: int| 0 <= j < k ==> body@[p + j] == m@[j],
        decreases m@.len() - k,
    {
        if body[p + k] != m[k] {
            assert(body@.subrange(p as int, p + m@.len())[k as int] != m@[k as int]);
            return false;
        }
        k += 1;
    }
    assert(body@.subrange(p as int, p + m@.len()) =~= m@);
    true
}

fn literal_byte(c: u8) -> (r: bool)
    ensures
        r == is_literal_byte(c),
{
    (48 <= c && c <= 57) || c == 46
}

/// Whether `body` holds `</span>` at `e`.
fn close_tag_at(body: &[u8], e: usize) -> (r: bool)
    requires
        e <= body@.len(),
    ensures
        r == (e + 7 <= body@.len() && body@.subrange(e as int, e + 7) == close_tag()),
{
    if body.len() - e < 7 {
        return false;
    }
    let r = body[e] == 60 && body[e + 1] == 47 && body[e + 2] == 115 && body[e + 3] == 112
        && body[e + 4] == 97 && body[e + 5] == 110 && body[e + 6] == 62;
    if r {
        assert(body@.subrange(e as int, e + 7) =~= close_tag());
    } else {
        assert(body@.subrange(e as int, e + 7) != close_tag()) by {
            let s = body@.subrange(e as int, e + 7);
            assert(s[0] == body@[e as int] && s[1] == body@[e + 1] && s[2] == body@[e + 2]);
            assert(s[3] == body@[e + 3] && s[4] == body@[e + 4] && s[5] == body@[e + 5]);
            assert(s[6] == body@[e + 6]);
        }
    }
    r
}

/// Whether `body[s..e]` is a valid literal.
fn literal_valid(body: &[u8], s: usize, e: usize) -> (r: bool)
    requires
        s <= e <= body@.len(),
        forall|i: int| s <= i < e ==> is_literal_byte(#[trigger] body@[i]),
    ensures
        r == valid_literal(body@.subrange(s as int, e as int)),
{
    let ghost l = body@.subrange(s as int, e as int);
    if s == e || body[s] == 46 {
        return false;
    }
    let mut dots: usize = 0;
    let mut k: usize = s;
    while k < e
        invariant
            s <= k <= e,
            e <= body@.len(),
            l == body@.subrange(s as int, e as int),
            l.len() > 0 && is_digit(l[0]),
            dots <= 1,
            dots == 0 ==> forall|i: int| 0 <= i < k - s ==> #[trigger] l[i] != 46u8,
            dots == 1 ==> exists|i: int| 0 <= i < k - s && #[trigger] l[i] == 46u8,
            forall|i: int, j: int|
                #![trigger l[i], l[j]]
                0 <= i < j < k - s && l[i] == 46u8 ==> l[j] != 46u8,
        decreases e - k,
    {
        if body[k] == 46 {
            if dots == 1 {
                let ghost w = choose|i: int| 0 <= i < k - s && #[trigger] l[i] == 46u8;
                assert(l[w] == 46u8 && l[k - s] == 46u8);
                assert(!valid_literal(l));
                return false;
            }
            dots = 1;
            assert(l[k - s] == 46u8);
        }
        k += 1;
    }
    assert forall|i: int| 0 <= i < l.len() implies is_literal_byte(#[trigger] l[i]) by {
        assert(l[i] == body@[s + i]);
    }
    true
}

/// Where the literal of a match at `p` lies, if a match starts there.
fn literal_at_exec(body: &[u8], m: &Vec<u8>, p: usize) -> (r: Option<(usize, usize)>)
    requires
        m@.len() > 0,
    ensures
        match r {
            Some((s, e)) => s <= e <= body@.len() && literal_at(body@, m@, p as int) == Some(
                (s as int, e as int),
            ),
            None => literal_at(body@, m@, p as int) is None,
        },
{
    let n = body.len();
    if !occurs_at(body, m, p) {
        return None;
    }
    let q = p + m.len();
    let mut gt: usize = q;
    while gt < body.len() && body[gt] != 62
        invariant
            q <= gt <= body@.len(),
            skip_to_gt(body@, q as int) == skip_to_gt(body@, gt as int),
        decreases body@.len() - gt,
    {
        gt += 1;
    }
    if gt == q || gt == body.len() {
        return None;
    }
    let s = gt + 1;
    let mut e: usize = s;
    while e < body.len() && literal_byte(body[e])
        invariant
            s <= e <= body@.len(),
            skip_literal(body@, s as int) == skip_literal(body@, e as int),
            forall|i: int| s <= i < e ==> is_literal_byte(#[trigger] body@[i]),
        decreases body@.len() - e,
    {
        e += 1;
    }
    if close_tag_at(body, e) && literal_valid(body, s, e) {
        Some((s, e))
    } else {
        None
    }
}

/// The value of the literal `body[s..e]` in units of 1/10000, where it fits.
fn literal_value(body: &[u8], s: usize, e: usize) -> (r: Option<u64>)
    requires
        s <= e <= body@.len(),
        valid_literal(body@.subrange(s as int, e as int)),
    ensures
        ({
            let v = literal_units(body@.subrange(s as int, e as int));
            match r {
                Some(x) => x as int == v,
                None => v > u64::MAX,
            }
        }),
{
    let ghost l = body@.subrange(s as int, e as int);
    let mut k: usize = s;
    let mut whole: u64 = 0;
    assert(l.subrange(0, l.len() as int) =~= l);
    assert(l.subrange(0, 0) =~= Seq::<u8>::empty());
    while k < e && body[k] != 46
        invariant
            s <= k <= e,
            e <= body@.len(),
            l == body@.subrange(s as int, e as int),
            valid_literal(l),
            forall|i: int| 0 <= i < k - s ==> is_digit(#[trigger] l[i]),
            skip_literal_digits(l) == (k - s) + skip_literal_digits(
                l.subrange(k - s, l.len() as int),
            ),
            whole as int == digits_value(l.subrange(0, k - s)),
        decreases e - k,
    {
        let ghost j = k - s;
        assert(l[j] == body@[k as int]);
        assert(is_literal_byte(l[j]));
        assert(l.subrange(j, l.len() as int).drop_first() =~= l.subrange(j + 1, l.len() as int));
        assert(l.subrange(0, j + 1).drop_last() =~= l.subrange(0, j));
        let d = (body[k] - 48) as u64;
        if whole > (u64::MAX - d) / 10 {
            proof {
                let dd = skip_literal_digits(l);
                lemma_skip_literal_digits_bounds(l.subrange(j + 1, l.len() as int));
                lemma_digits_value_prefix(l.subrange(0, dd), j + 1);
                assert(l.subrange(0, dd).take(j + 1) =~= l.subrange(0, j + 1));
                assert(whole * 10 + d > u64::MAX) by (nonlinear_arith)
                    requires
                        whole > (u64::MAX - d) / 10,
                        d <= 9,
                ;
                lemma_digits_value_nonneg(pad_fraction(fraction_part(l, dd)));
            }
            return None;
        }
        whole = whole * 10 + d;
        k += 1;
    }
    proof {
        let j = k - s;
        if k < e {
            assert(l[j] == body@[k as int]);
        }
        assert(skip_literal_digits(l) == j);
        assert(skip_literal_digits(l.subrange(j, l.len() as int)) == 0);
    }
    if whole > u64::MAX / 10000 {
        proof {
            lemma_digits_value_nonneg(pad_fraction(fraction_part(l, k - s)));
            assert(whole * 10000 > u64::MAX) by (nonlinear_arith)
                requires
                    whole > u64::MAX / 10000,
            ;
        }
        return None;
    }
    let mut frac: u64 = 0;
    let mut i: usize = 0;
    let ghost f = fraction_part(l, k - s);
    while i < FRACTION_DIGITS
        invariant
            i <= FRACTION_DIGITS,
            s <= k <= e,
            e <= body@.len(),
            l == body@.subrange(s as int, e as int),
            valid_literal(l),
            k < e ==> l[k - s] == 46u8,
            skip_literal_digits(l) == k - s,
            f == fraction_part(l, k - s),
            frac as int == digits_value(pad_fraction(f).take(i as int)),
            i == 0 ==> frac == 0,
            i == 1 ==> frac < 10,
            i == 2 ==> frac < 100,
            i == 3 ==> frac < 1000,
            i == 4 ==> frac < 10000,
        decreases FRACTION_DIGITS - i,
    {
        let d: u64 = if k < e && i < e - k - 1 {
            let pos = k + 1 + i;
            assert(f[i as int] == body@[pos as int]);
            assert(is_literal_byte(l[pos - s]));
            assert(l[k - s] == 46u8 && k - s < pos - s);
            assert(l[pos - s] != 46u8);
            (body[pos] - 48) as u64
        } else {
            0
        };
        assert(pad_fraction(f).take(i + 1).drop_last() =~= pad_fraction(f).take(i as int));
        frac = frac * 10 + d;
        i += 1;
    }
    assert(pad_fraction(f).take(4) =~= pad_fraction(f));
    let total = whole * 10000;
    if total > u64::MAX - frac {
        return None;
    }
    Some(total + frac)
}

/// The fraction digits of a literal whose dot, if any, is at `d`.
pub open spec fn fraction_part(l: Seq<u8>, d: int) -> Seq<u8> {
    if d < l.len() {
        l.subrange(d + 1, l.len() as int)
    } else {
        Seq::empty()
    }
}

proof fn lemma_skip_literal_digits_bounds(l: Seq<u8>)
    ensures
        0 <= skip_literal_digits(l) <= l.len(),
    decreases l.len(),
{
    if l.len() > 0 && is_digit(l[0]) {
        lemma_skip_literal_digits_bounds(l.drop_first());
    }
}

/// Extracts the price of ticker `ticker` from a quote page, in units of
/// 1/10000. The ticker is matched without regard to ASCII case.
pub fn extract(ticker: &[u8], body: &[u8]) -> (r: Result<u64, FetchError>)
    ensures
        match extract_spec(ticker@, body@) {
            Some(v) => r == Ok::<u64, FetchError>(v),
            None => r == Err::<u64, FetchError>(FetchError::NotFound),
        },
{
    let m = build_marker(ticker);
    let mut p: usize = 0;
    while p < body.len()
        invariant
            m@ == marker(ticker@),
            p <= body@.len(),
            first_match_from(body@, m@, 0) == first_match_from(body@, m@, p as int),
        decreases body@.len() - p,
    {
        match literal_at_exec(body, &m, p) {
            Some((s, e)) => {
                return match literal_value(body, s, e) {
                    Some(v) => Ok(v),
                    None => Err(FetchError::NotFound),
                };
            },
            None => {},
        }
        p += 1;
    }
    Err(FetchError::NotFound)
}

} // verus!

verus! {

proof fn lemma_skip_to_gt_at(b: Seq<u8>, i: int, j: int)
    requires
        0 <= i <= j < b.len(),
        b[j] == 62u8,
        forall|k: int| i <= k < j ==> b[k] != 62u8,
    ensures
        skip_to_gt(b, i) == j,
    decreases j - i,
{
    if i < j {
        lemma_skip_to_gt_at(b, i + 1, j);
    }
}

proof fn lemma_skip_literal_at(b: Seq<u8>, i: int, j: int)
    requires
        0 <= i <= j < b.len(),
        !is_literal_byte(b[j]),
        forall|k: int| i <= k < j ==> is_literal_byte(b[k]),
    ensures
        skip_literal(b, i) == j,
    decreases j - i,
{
    if i < j {
        lemma_skip_literal_at(b, i + 1, j);
    }
}

proof fn lemma_no_match_from(body: Seq<u8>, m: Seq<u8>, p: int)
    requires
        0 <= p,
        forall|q: int|
            p <= q && q + m.len() <= body.len() ==> #[trigger] body.subrange(q, q + m.len()) != m,
    ensures
        first_match_from(body, m, p) is None,
    decreases body.len() - p,
{
    if p < body.len() {
        lemma_no_match_from(body, m, p + 1);
    }
}

/// A literal tagged with the marker of ticker `u` right at the start of a
/// page is what `extract` gives for any ticker `t` equal to `u` up to ASCII
/// case, whatever follows the tag.
pub proof fn lemma_tagged_literal_found(
    t: Seq<u8>,
    u: Seq<u8>,
    filler: Seq<u8>,
    lit: Seq<u8>,
    rest: Seq<u8>,
)
    requires
        lower_bytes(u) == lower_bytes(t),
        filler.len() > 0,
        forall|i: int| 0 <= i < filler.len() ==> filler[i] != 62u8,
        valid_literal(lit),
        literal_units(lit) <= u64::MAX,
    ensures
        extract_spec(t, marker(u) + filler + seq![62u8] + lit + close_tag() + rest) == Some(
            literal_units(lit) as u64,
        ),
{
    let m = marker(t);
    assert(marker(u) == m);
    let body = m + filler + seq![62u8] + lit + close_tag() + rest;
    let q = m.len() as int;
    let gt = q + filler.len();
    let s = gt + 1;
    let e = s + lit.len();
    assert(body.subrange(0, q) =~= m);
    assert forall|k: int| q <= k < gt implies body[k] != 62u8 by {
        assert(body[k] == filler[k - q]);
    }
    assert(body[gt] == 62u8);
    lemma_skip_to_gt_at(body, q, gt);
    assert forall|k: int| s <= k < e implies is_literal_byte(body[k]) by {
        assert(body[k] == lit[k - s]);
    }
    assert(body[e] == 60u8);
    lemma_skip_literal_at(body, s, e);
    assert(body.subrange(e, e + 7) =~= close_tag());
    assert(body.subrange(s, e) =~= lit);
    assert(literal_at(body, m, 0) == Some((s, e)));
}

/// Where the marker of `t` occurs nowhere in a page, `extract` finds no
/// price, whatever markers of other tickers the page holds.
pub proof fn lemma_absent_marker_not_found(t: Seq<u8>, body: Seq<u8>)
    requires
        forall|p: int|
            0 <= p && p + marker(t).len() <= body.len() ==> #[trigger] body.subrange(
                p,
                p + marker(t).len(),
            ) != marker(t),
    ensures
        extract_spec(t, body) is None,
{
    lemma_no_match_from(body, marker(t), 0);
}

/// The price found depends on the ticker only up to ASCII case.
pub proof fn lemma_extract_case_insensitive(t: Seq<u8>, u: Seq<u8>, body: Seq<u8>)
    requires
        lower_bytes(u) == lower_bytes(t),
    ensures
        extract_spec(t, body) == extract_spec(u, body),
{
}

} // verus!
