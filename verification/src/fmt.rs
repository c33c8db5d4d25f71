use vstd::prelude::*;

use crate::digits::dec_digits;
use crate::number::{Exponent, FloatView, Mantissa, MantissaView, Number, NumberView};

verus! {

/// The decimal text of a mantissa: the digits as the scanner read them.
pub open spec fn fmt_mantissa(m: MantissaView) -> Seq<u8> {
    match m {
        MantissaView::Fits(v) => dec_digits(v as nat),
        MantissaView::Promoted { prefix, rest } => dec_digits(prefix as nat) + rest,
    }
}

/// The fractional part of a floating result's text: a dot and the digits,
/// or nothing when there is no fraction.
pub open spec fn fmt_frac_part(frac: Seq<u8>) -> Seq<u8> {
    if frac.len() > 0 {
        seq![46u8] + frac
    } else {
        Seq::<u8>::empty()
    }
}

/// The text after an exponent marker: the optional minus sign and the
/// exponent's digits.
pub open spec fn fmt_exp_tail(e: Exponent) -> Seq<u8> {
    (if e.neg {
        seq![45u8]
    } else {
        Seq::<u8>::empty()
    }) + dec_digits(e.value as nat)
}

/// The exponent part of a floating result's text, or nothing.
pub open spec fn fmt_exp_part(exp: Option<Exponent>) -> Seq<u8> {
    match exp {
        Some(e) => seq![101u8] + fmt_exp_tail(e),
        None => Seq::<u8>::empty(),
    }
}

/// The decimal text of a floating result: sign, integer digits, fraction,
/// exponent — the same grammar the scanner accepts.
pub open spec fn fmt_float(f: FloatView) -> Seq<u8> {
    (if f.neg {
        seq![45u8]
    } else {
        Seq::<u8>::empty()
    }) + fmt_mantissa(f.mantissa) + fmt_frac_part(f.frac) + fmt_exp_part(f.exp)
}

/// The decimal text of a scanned number, in the grammar the scanner reads.
pub open spec fn fmt_number(v: NumberView) -> Seq<u8> {
    match v {
        NumberView::U64(m) => dec_digits(m as nat),
        NumberView::I64(m) => if m >= 0 {
            dec_digits(m as nat)
        } else {
            seq![45u8] + dec_digits((0 - m as int) as nat)
        },
        NumberView::F64(f) => fmt_float(f),
    }
}

/// Append the decimal digits of `n` to `out`.
fn push_dec(n: u64, out: &mut Vec<u8>)
    ensures
        final(out)@ == old(out)@ + dec_digits(n as nat),
    decreases n,
{
    if n < 10 {
        out.push(48 + n as u8);
        proof {
            assert(out@ =~= old(out)@ + dec_digits(n as nat));
        }
    } else {
        push_dec(n / 10, out);
        out.push(48 + (n % 10) as u8);
        proof {
            assert(out@ =~= old(out)@ + dec_digits(n as nat));
        }
    }
}

/// Append all of `bytes` to `out`.
fn push_all(out: &mut Vec<u8>, bytes: &Vec<u8>)
    ensures
        final(out)@ == old(out)@ + bytes@,
{
    proof {
        assert(out@ =~= old(out)@ + bytes@.take(0int));
    }
    let mut i: usize = 0;
    while i < bytes.len()
        invariant
            i <= bytes@.len(),
            out@ == old(out)@ + bytes@.take(i as int),
        decreases bytes@.len() - i,
    {
        out.push(bytes[i]);
        proof {
            assert(out@ =~= old(out)@ + bytes@.take(i + 1));
        }
        i = i + 1;
    }
    proof {
        assert(bytes@.take(bytes@.len() as int) =~= bytes@);
    }
}

impl Number {
    /// Render the number back to decimal text in the same grammar the
    /// scanner reads: the digits exactly as they were accumulated.
    #[verifier::rlimit(50)]
    pub fn to_decimal(&self) -> (r: Vec<u8>)
        ensures
            r@ == fmt_number(self@),
    {
        let mut out: Vec<u8> = Vec::new();
        match self {
            Number::U64(m) => {
                push_dec(*m, &mut out);
            },
            Number::I64(m) => {
                if *m < 0 {
                    out.push(45);
                    let mag: u64 = if *m == i64::MIN {
                        0x8000_0000_0000_0000
                    } else {
                        (-*m) as u64
                    };
                    push_dec(mag, &mut out);
                    proof {
                        assert(out@ =~= fmt_number(self@));
                    }
                } else {
                    push_dec(*m as u64, &mut out);
                    proof {
                        assert(out@ =~= fmt_number(self@));
                    }
                }
            },
            Number::F64(f) => {
                if f.neg {
                    out.push(45);
                }
                match &f.mantissa {
                    Mantissa::Fits(v) => {
                        push_dec(*v, &mut out);
                    },
                    Mantissa::Promoted { prefix, rest } => {
                        push_dec(*prefix, &mut out);
                        push_all(&mut out, rest);
                    },
                }
                proof {
                    assert(out@ =~= (if f@.neg {
                        seq![45u8]
                    } else {
                        Seq::<u8>::empty()
                    }) + fmt_mantissa(f@.mantissa));
                }
                let ghost head = out@;
                if f.frac.len() > 0 {
                    out.push(46);
                    push_all(&mut out, &f.frac);
                }
                proof {
                    assert(out@ =~= head + fmt_frac_part(f@.frac));
                }
                let ghost mid = out@;
                match &f.exp {
                    Some(e) => {
                        out.push(101);
                        if e.neg {
                            out.push(45);
                        }
                        push_dec(e.value, &mut out);
                        proof {
                            assert(out@ =~= mid + (seq![101u8] + fmt_exp_tail(*e)));
                        }
                    },
                    None => {},
                }
                proof {
                    assert(out@ =~= fmt_float(f@));
                }
            },
        }
        out
    }
}

} // verus!
