//! The order of timestamps as text is the order of the moments they name.

use vstd::prelude::*;
use crate::bytes::{lemma_lex_le_antisym, lemma_lex_le_refl, lex_le, lex_lt};
use crate::timefmt::{
    digits,
    fits,
    lemma_fits_len,
    rfc3339_text,
    CivilTime,
    COLON,
    DASH,
    DOT,
    SPACE,
    ZERO,
    ZULU,
};

verus! {

/// A common prefix does not change how two byte strings compare.
pub proof fn lemma_common_prefix(p: Seq<u8>, x: Seq<u8>, y: Seq<u8>)
    ensures
        lex_le(p + x, p + y) == lex_le(x, y),
        (p + x == p + y) == (x == y),
    decreases p.len(),
{
    if p.len() == 0 {
        assert(p + x =~= x);
        assert(p + y =~= y);
    } else {
        let rest = p.drop_first();
        lemma_common_prefix(rest, x, y);
        assert((p + x).drop_first() =~= rest + x);
        assert((p + y).drop_first() =~= rest + y);
        if p + x == p + y {
            assert(rest + x == rest + y);
        }
    }
}

/// Of two byte strings that start with different strings of one length,
/// the one with the smaller start sorts first.
pub proof fn lemma_prefix_decides(p: Seq<u8>, q: Seq<u8>, x: Seq<u8>, y: Seq<u8>)
    requires
        p.len() == q.len(),
        lex_lt(p, q),
    ensures
        lex_lt(p + x, q + y),
    decreases p.len(),
{
    if p.len() == 0 {
        assert(p =~= q);
    } else if p[0] == q[0] {
        let ps = p.drop_first();
        let qs = q.drop_first();
        if ps == qs {
            assert forall|k: int| 0 <= k < p.len() implies p[k] == q[k] by {
                if k > 0 {
                    assert(p[k] == ps[k - 1] && q[k] == qs[k - 1]);
                }
            }
            assert(p =~= q);
        }
        lemma_prefix_decides(ps, qs, x, y);
        assert((p + x).drop_first() =~= ps + x);
        assert((q + y).drop_first() =~= qs + y);
    } else {
        assert((p + x)[0] == p[0]);
        assert((q + y)[0] == q[0]);
    }
}

/// Of two numbers written with the same count of digits, the smaller one
/// sorts first.
pub proof fn lemma_digits_order(i: nat, j: nat, w: nat)
    requires
        fits(i, w),
        fits(j, w),
        i < j,
    ensures
        lex_lt(digits(i, w), digits(j, w)),
    decreases w,
{
    if w > 0 {
        let v = (w - 1) as nat;
        let p = digits(i / 10, v);
        let q = digits(j / 10, v);
        let x = seq![(ZERO + i % 10) as u8];
        let y = seq![(ZERO + j % 10) as u8];
        assert(digits(i, w) =~= p + x);
        assert(digits(j, w) =~= q + y);
        if i / 10 == j / 10 {
            lemma_common_prefix(p, x, y);
            assert(x[0] < y[0]);
            assert(lex_le(x, y));
        } else {
            lemma_digits_order(i / 10, j / 10, v);
            lemma_fits_len(i / 10, v);
            lemma_fits_len(j / 10, v);
            lemma_prefix_decides(p, q, x, y);
        }
    }
}

/// One field of a timestamp with what follows it: the digits of `v`, the
/// separator, the rest.
pub open spec fn field(v: nat, w: nat, sep: u8, rest: Seq<u8>) -> Seq<u8> {
    digits(v, w) + (seq![sep] + rest)
}

proof fn lemma_field(v1: nat, v2: nat, w: nat, sep: u8, r1: Seq<u8>, r2: Seq<u8>)
    requires
        fits(v1, w),
        fits(v2, w),
    ensures
        v1 < v2 ==> lex_lt(field(v1, w, sep, r1), field(v2, w, sep, r2)),
        v1 == v2 ==> lex_le(field(v1, w, sep, r1), field(v2, w, sep, r2)) == lex_le(r1, r2),
        v1 == v2 ==> (field(v1, w, sep, r1) == field(v2, w, sep, r2)) == (r1 == r2),
{
    if v1 < v2 {
        lemma_digits_order(v1, v2, w);
        lemma_fits_len(v1, w);
        lemma_fits_len(v2, w);
        lemma_prefix_decides(digits(v1, w), digits(v2, w), seq![sep] + r1, seq![sep] + r2);
    } else if v1 == v2 {
        lemma_common_prefix(digits(v1, w), seq![sep] + r1, seq![sep] + r2);
        lemma_common_prefix(seq![sep], r1, r2);
    }
}

/// The milliseconds of a moment within its second.
pub open spec fn milli(t: CivilTime) -> nat {
    (t.nanosecond / 1_000_000) as nat
}

/// A moment whose text has the fixed width: its fields lie in their
/// ranges, its year has four digits, and it is no leap second.
pub open spec fn fixed_width(t: CivilTime) -> bool {
    t.in_range() && t.four_digit_year() && t.nanosecond < 1_000_000_000
}

/// `a` and `b` are written alike: they agree in every field down to the
/// millisecond.
pub open spec fn civil_same(a: CivilTime, b: CivilTime) -> bool {
    &&& a.year == b.year
    &&& a.month == b.month
    &&& a.day == b.day
    &&& a.hour == b.hour
    &&& a.minute == b.minute
    &&& a.second == b.second
    &&& milli(a) == milli(b)
}

/// `a` lies before `b` by at least the step of a millisecond: the first
/// field in which they differ, from the year down, is smaller in `a`.
pub open spec fn civil_before(a: CivilTime, b: CivilTime) -> bool {
    if a.year != b.year {
        a.year < b.year
    } else if a.month != b.month {
        a.month < b.month
    } else if a.day != b.day {
        a.day < b.day
    } else if a.hour != b.hour {
        a.hour < b.hour
    } else if a.minute != b.minute {
        a.minute < b.minute
    } else if a.second != b.second {
        a.second < b.second
    } else {
        milli(a) < milli(b)
    }
}

spec fn from_second(t: CivilTime) -> Seq<u8> {
    field(t.second as nat, 2, DOT, field(milli(t), 3, ZULU, Seq::empty()))
}

spec fn from_hour(t: CivilTime) -> Seq<u8> {
    field(t.hour as nat, 2, COLON, field(t.minute as nat, 2, COLON, from_second(t)))
}

spec fn from_year(t: CivilTime) -> Seq<u8> {
    field(
        t.year as nat,
        4,
        DASH,
        field(t.month as nat, 2, DASH, field(t.day as nat, 2, SPACE, from_hour(t))),
    )
}

proof fn lemma_text_is_fields(t: CivilTime)
    ensures
        rfc3339_text(t) == from_year(t),
{
    assert(rfc3339_text(t) =~= from_year(t));
}

proof fn lemma_before_sorts_first(a: CivilTime, b: CivilTime)
    requires
        fixed_width(a),
        fixed_width(b),
    ensures
        civil_before(a, b) ==> lex_lt(rfc3339_text(a), rfc3339_text(b)),
        civil_same(a, b) ==> rfc3339_text(a) == rfc3339_text(b),
{
    reveal_with_fuel(fits, 5);
    lemma_text_is_fields(a);
    lemma_text_is_fields(b);
    let e = Seq::<u8>::empty();
    let a6 = field(milli(a), 3, ZULU, e);
    let b6 = field(milli(b), 3, ZULU, e);
    lemma_field(milli(a), milli(b), 3, ZULU, e, e);
    lemma_field(a.second as nat, b.second as nat, 2, DOT, a6, b6);
    let a5 = from_second(a);
    let b5 = from_second(b);
    let a4 = field(a.minute as nat, 2, COLON, a5);
    let b4 = field(b.minute as nat, 2, COLON, b5);
    lemma_field(a.minute as nat, b.minute as nat, 2, COLON, a5, b5);
    lemma_field(a.hour as nat, b.hour as nat, 2, COLON, a4, b4);
    let a3 = from_hour(a);
    let b3 = from_hour(b);
    let a2 = field(a.day as nat, 2, SPACE, a3);
    let b2 = field(b.day as nat, 2, SPACE, b3);
    lemma_field(a.day as nat, b.day as nat, 2, SPACE, a3, b3);
    let a1 = field(a.month as nat, 2, DASH, a2);
    let b1 = field(b.month as nat, 2, DASH, b2);
    lemma_field(a.month as nat, b.month as nat, 2, DASH, a2, b2);
    lemma_field(a.year as nat, b.year as nat, 4, DASH, a1, b1);
}

/// Order of timestamps: of two moments whose text has the fixed width,
/// the text of the one sorts at or before the text of the other exactly
/// when the moment is written alike or lies before; and the texts are the
/// same exactly when the moments are written alike.
pub proof fn lemma_text_order(a: CivilTime, b: CivilTime)
    requires
        fixed_width(a),
        fixed_width(b),
    ensures
        lex_le(rfc3339_text(a), rfc3339_text(b)) <==> civil_before(a, b) || civil_same(a, b),
        rfc3339_text(a) == rfc3339_text(b) <==> civil_same(a, b),
{
    lemma_before_sorts_first(a, b);
    lemma_before_sorts_first(b, a);
    lemma_lex_le_refl(rfc3339_text(a));
    if lex_le(rfc3339_text(a), rfc3339_text(b)) && civil_before(b, a) {
        lemma_lex_le_antisym(rfc3339_text(a), rfc3339_text(b));
    }
}

} // verus!
