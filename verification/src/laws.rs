use vstd::prelude::*;

use crate::digits::{
    dec_digits, digit_run, digit_val, digits_val, fit_len, is_digit, lemma_dec_digits_shape,
    lemma_dec_digits_val, lemma_digit_run_concat, lemma_digit_run_is, lemma_digit_run_props,
    lemma_digits_val_mono, lemma_digits_val_step, lemma_digits_val_whole, lemma_fit_len_is,
    lemma_fit_len_props, lemma_skip_concat, lemma_take_concat,
};
use crate::fmt::{
    fmt_exp_part, fmt_exp_tail, fmt_float, fmt_frac_part, fmt_mantissa, fmt_number,
};
use crate::number::{
    finish_integer, float_wf, mantissa_of, mantissa_wf, scan_exponent, scan_number, scan_tail,
    Exponent, FloatView, MantissaView, NumberView, MAX_SCALE_EXP, MIN_I64_MAGNITUDE,
};

verus! {

/// For every magnitude representable in 64-bit unsigned form, scanning its
/// decimal text yields exactly the unsigned result of that magnitude, with
/// nothing left over.
pub proof fn lemma_scan_unsigned_text(m: u64)
    ensures
        scan_number(dec_digits(m as nat)) == Some(
            (NumberView::U64(m), Seq::<u8>::empty()),
        ),
{
    let s = dec_digits(m as nat);
    lemma_dec_digits_shape(m as nat);
    lemma_dec_digits_val(m as nat);
    lemma_digit_run_is(s, s.len() as nat);
    lemma_digits_val_whole(s);
    assert(s.take(s.len() as int) =~= s);
    assert(s.skip(s.len() as int) =~= Seq::<u8>::empty());
    assert(mantissa_of(s.take(s.len() as int)) == MantissaView::Fits(m));
}

/// Scanning a minus sign followed by the decimal text of a magnitude yields
/// the signed negation when the magnitude stays within the signed range,
/// and otherwise the floating sign-underflow form — never a wrapped
/// integer.
pub proof fn lemma_scan_signed_text(mag: u64)
    ensures
        mag <= MIN_I64_MAGNITUDE ==> scan_number(seq![45u8] + dec_digits(mag as nat)) == Some(
            (NumberView::I64((0 - mag as int) as i64), Seq::<u8>::empty()),
        ),
        mag > MIN_I64_MAGNITUDE ==> scan_number(seq![45u8] + dec_digits(mag as nat)) == Some(
            (
                NumberView::F64(
                    FloatView {
                        neg: true,
                        mantissa: MantissaView::Fits(mag),
                        frac: Seq::<u8>::empty(),
                        exp: None,
                    },
                ),
                Seq::<u8>::empty(),
            ),
        ),
{
    let d = dec_digits(mag as nat);
    let s = seq![45u8] + d;
    assert(s[0] == 45);
    assert(s.skip(1) =~= d);
    lemma_dec_digits_shape(mag as nat);
    lemma_dec_digits_val(mag as nat);
    lemma_digit_run_is(d, d.len() as nat);
    lemma_digits_val_whole(d);
    assert(d.take(d.len() as int) =~= d);
    assert(d.skip(d.len() as int) =~= Seq::<u8>::empty());
    assert(mantissa_of(d.take(d.len() as int)) == MantissaView::Fits(mag));
}

/// Splitting an all-digit integer part always yields a well-formed
/// mantissa: a promoted one keeps digits and really did overflow at the
/// first kept digit.
pub proof fn lemma_mantissa_of_wf(ds: Seq<u8>)
    requires
        forall|i: int| 0 <= i < ds.len() ==> is_digit(#[trigger] ds[i]),
    ensures
        mantissa_wf(mantissa_of(ds)),
{
    if digits_val(ds) > u64::MAX {
        lemma_fit_len_props(ds);
        let k = fit_len(ds) as int;
        lemma_digits_val_step(ds, k);
        assert(ds.skip(k)[0] == ds[k]);
        assert forall|i: int| 0 <= i < ds.skip(k).len() implies is_digit(
            #[trigger] ds.skip(k)[i],
        ) by {
            assert(ds.skip(k)[i] == ds[k + i]);
        }
    }
}

/// Every floating result the tail of the grammar produces is well formed,
/// given a well-formed mantissa for the integer part; and every signed
/// result is the negation of a magnitude, so it is never positive.
pub proof fn lemma_scan_tail_wf(pos: bool, m: MantissaView, s: Seq<u8>)
    requires
        mantissa_wf(m),
    ensures
        scan_tail(pos, m, s) matches Some((v, rest)) ==> (v matches NumberView::F64(f)
            ==> float_wf(f)),
        scan_tail(pos, m, s) matches Some((v, rest)) ==> (v matches NumberView::I64(x) ==> x
            <= 0),
{
    if s.len() > 0 && s[0] == 46 {
        let t = s.skip(1);
        if t.len() > 0 && is_digit(t[0]) {
            let n = digit_run(t) as int;
            lemma_digit_run_props(t);
            assert forall|i: int| 0 <= i < t.take(n).len() implies is_digit(
                #[trigger] t.take(n)[i],
            ) by {
                assert(t.take(n)[i] == t[i]);
            }
            assert(n >= 1);
        }
    }
}

/// Every floating result the scanner produces is well formed: its digits
/// are digits, its exponent is within bounds, a promoted mantissa really
/// overflowed, and the bare fitting form only arises from sign underflow.
/// Every signed result is the negation of a magnitude, so never positive.
pub proof fn lemma_scan_wf(s: Seq<u8>)
    ensures
        scan_number(s) matches Some((v, rest)) ==> (v matches NumberView::F64(f)
            ==> float_wf(f)),
        scan_number(s) matches Some((v, rest)) ==> (v matches NumberView::I64(x) ==> x <= 0),
{
    let pos = !(s.len() > 0 && s[0] == 45);
    let s1 = if s.len() > 0 && s[0] == 45 {
        s.skip(1)
    } else {
        s
    };
    if s1.len() > 0 && is_digit(s1[0]) && !(s1[0] == 48 && s1.len() >= 2 && is_digit(s1[1])) {
        let n = digit_run(s1) as int;
        lemma_digit_run_props(s1);
        let ds = s1.take(n);
        assert forall|i: int| 0 <= i < ds.len() implies is_digit(#[trigger] ds[i]) by {
            assert(ds[i] == s1[i]);
        }
        lemma_mantissa_of_wf(ds);
        lemma_scan_tail_wf(pos, mantissa_of(ds), s1.skip(n));
    }
}

/// Scanning the formatted text of an exponent part reads back exactly that
/// exponent, leaving nothing over.
proof fn lemma_scan_exp_fmt(pos: bool, m: MantissaView, frac: Seq<u8>, e: Exponent)
    requires
        e.value <= MAX_SCALE_EXP,
    ensures
        scan_exponent(pos, m, frac, fmt_exp_tail(e)) == Some(
            (
                NumberView::F64(FloatView { neg: !pos, mantissa: m, frac, exp: Some(e) }),
                Seq::<u8>::empty(),
            ),
        ),
{
    let d = dec_digits(e.value as nat);
    let s = fmt_exp_tail(e);
    lemma_dec_digits_shape(e.value as nat);
    lemma_dec_digits_val(e.value as nat);
    if e.neg {
        assert(s =~= seq![45u8] + d);
        assert(s[0] == 45);
        assert(s.skip(1) =~= d);
    } else {
        assert(s =~= d);
    }
    lemma_digit_run_is(d, d.len() as nat);
    lemma_digits_val_whole(d);
    assert(d.take(d.len() as int) =~= d);
    assert(d.skip(d.len() as int) =~= Seq::<u8>::empty());
}

/// Scanning the formatted fraction and exponent of a well-formed floating
/// result, from just after its integer part, reads back exactly that
/// result.
proof fn lemma_scan_after_mantissa(pos: bool, m: MantissaView, f: FloatView)
    requires
        float_wf(f),
        f.mantissa == m,
        f.neg == !pos,
    ensures
        scan_tail(pos, m, fmt_frac_part(f.frac) + fmt_exp_part(f.exp)) == Some(
            (NumberView::F64(f), Seq::<u8>::empty()),
        ),
{
    let s2 = fmt_frac_part(f.frac) + fmt_exp_part(f.exp);
    if f.frac.len() > 0 {
        assert(s2[0] == 46);
        let t = f.frac + fmt_exp_part(f.exp);
        assert(s2.skip(1) =~= t);
        assert(t[0] == f.frac[0]);
        lemma_digit_run_concat(f.frac, fmt_exp_part(f.exp));
        let n = f.frac.len() as int;
        lemma_take_concat(f.frac, fmt_exp_part(f.exp), n);
        assert(f.frac.take(n) =~= f.frac);
        lemma_skip_concat(f.frac, fmt_exp_part(f.exp));
        match f.exp {
            Some(e) => {
                assert(fmt_exp_part(f.exp)[0] == 101);
                assert(fmt_exp_part(f.exp).skip(1) =~= fmt_exp_tail(e));
                lemma_scan_exp_fmt(pos, m, f.frac, e);
                assert((FloatView { neg: !pos, mantissa: m, frac: f.frac, exp: Some(e) }) == f);
            },
            None => {
                assert((FloatView { neg: !pos, mantissa: m, frac: f.frac, exp: None }) == f);
            },
        }
    } else {
        assert(s2 =~= fmt_exp_part(f.exp));
        match f.exp {
            Some(e) => {
                assert(s2[0] == 101);
                assert(s2.skip(1) =~= fmt_exp_tail(e));
                lemma_scan_exp_fmt(pos, m, Seq::<u8>::empty(), e);
                assert(f.frac =~= Seq::<u8>::empty());
                assert((FloatView {
                    neg: !pos,
                    mantissa: m,
                    frac: Seq::<u8>::empty(),
                    exp: Some(e),
                }) == f);
            },
            None => {
                assert(s2.len() == 0);
                assert(f.frac =~= Seq::<u8>::empty());
                match m {
                    MantissaView::Promoted { .. } => {
                        assert(finish_integer(pos, m) == NumberView::F64(f));
                    },
                    MantissaView::Fits(v) => {
                        assert(f.neg && v > MIN_I64_MAGNITUDE);
                        assert(finish_integer(pos, m) == NumberView::F64(f));
                    },
                }
            },
        }
    }
}

/// The formatted text of a well-formed mantissa is a digit run that splits
/// back into exactly that mantissa, with no spurious leading zero.
proof fn lemma_mantissa_fmt(m: MantissaView)
    requires
        mantissa_wf(m),
    ensures
        fmt_mantissa(m).len() >= 1,
        forall|i: int| 0 <= i < fmt_mantissa(m).len() ==> is_digit(#[trigger] fmt_mantissa(m)[i]),
        mantissa_of(fmt_mantissa(m)) == m,
        fmt_mantissa(m)[0] == 48 ==> fmt_mantissa(m).len() == 1,
{
    match m {
        MantissaView::Fits(v) => {
            let d = dec_digits(v as nat);
            lemma_dec_digits_shape(v as nat);
            lemma_dec_digits_val(v as nat);
            lemma_digits_val_whole(d);
            assert(d.take(d.len() as int) =~= d);
            assert(mantissa_of(d) == MantissaView::Fits(v));
        },
        MantissaView::Promoted { prefix, rest } => {
            let dp = dec_digits(prefix as nat);
            let ds = dp + rest;
            lemma_dec_digits_shape(prefix as nat);
            lemma_dec_digits_val(prefix as nat);
            assert(prefix > 0) by {
                assert(digit_val(rest[0]) <= 9);
            }
            assert forall|i: int| 0 <= i < ds.len() implies is_digit(#[trigger] ds[i]) by {
                if i < dp.len() {
                    assert(ds[i] == dp[i]);
                } else {
                    assert(ds[i] == rest[i - dp.len()]);
                }
            }
            let k = dp.len() as int;
            lemma_take_concat(dp, rest, k);
            assert(dp.take(k) =~= dp);
            lemma_digits_val_whole(dp);
            assert(ds[k] == rest[0]);
            lemma_digits_val_step(ds, k);
            assert(digits_val(ds.take(k + 1)) > u64::MAX);
            lemma_digits_val_mono(ds, k + 1, ds.len() as int);
            lemma_digits_val_whole(ds);
            lemma_fit_len_is(ds, k);
            lemma_skip_concat(dp, rest);
            assert(mantissa_of(ds) == m);
        },
    }
}

/// Formatting a well-formed floating result and scanning the text back
/// reproduces exactly the same result — the parts carry no precision to
/// lose.
pub proof fn lemma_roundtrip_float(f: FloatView)
    requires
        float_wf(f),
    ensures
        scan_number(fmt_float(f)) == Some((NumberView::F64(f), Seq::<u8>::empty())),
{
    let ds = fmt_mantissa(f.mantissa);
    let s2 = fmt_frac_part(f.frac) + fmt_exp_part(f.exp);
    lemma_mantissa_fmt(f.mantissa);
    let body = ds + s2;
    let pos = !f.neg;
    assert(s2.len() == 0 || !is_digit(s2[0])) by {
        if f.frac.len() > 0 {
            assert(s2[0] == 46);
        } else if f.exp is Some {
            assert(s2 =~= fmt_exp_part(f.exp));
            assert(s2[0] == 101);
        }
    }
    if f.neg {
        assert(fmt_float(f) =~= seq![45u8] + body);
        assert((seq![45u8] + body)[0] == 45);
        assert((seq![45u8] + body).skip(1) =~= body);
    } else {
        assert(fmt_float(f) =~= body);
        assert(body[0] == ds[0]);
    }
    lemma_digit_run_concat(ds, s2);
    lemma_take_concat(ds, s2, ds.len() as int);
    assert(ds.take(ds.len() as int) =~= ds);
    lemma_skip_concat(ds, s2);
    if body.len() >= 2 && ds[0] == 48 {
        assert(body[1] == s2[0]);
    }
    lemma_scan_after_mantissa(pos, f.mantissa, f);
}

/// Round trip for the unsigned shape: formatting and re-scanning any
/// unsigned result gives it back unchanged.
pub proof fn lemma_roundtrip_unsigned(m: u64)
    ensures
        scan_number(fmt_number(NumberView::U64(m))) == Some(
            (NumberView::U64(m), Seq::<u8>::empty()),
        ),
{
    lemma_scan_unsigned_text(m);
}

/// Round trip for the signed shape: formatting and re-scanning any
/// strictly negative signed result gives it back unchanged. (Signed zero,
/// from the text `-0`, formats to `0` and re-scans as unsigned zero.)
pub proof fn lemma_roundtrip_signed(v: i64)
    requires
        v < 0,
    ensures
        scan_number(fmt_number(NumberView::I64(v))) == Some(
            (NumberView::I64(v), Seq::<u8>::empty()),
        ),
{
    let mag = (0 - v as int) as u64;
    lemma_scan_signed_text(mag);
}

} // verus!
