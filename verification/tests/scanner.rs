use hjson::error::ErrorCode;
use hjson::number::{Exponent, Float, Mantissa, Number, ParseNumber};

/// Reproduce the IEEE double a floating result denotes, by replaying the
/// exact accumulation order of the scanner's grammar.
fn to_f64(f: &Float) -> f64 {
    let mut res: f64 = match &f.mantissa {
        Mantissa::Fits(v) => *v as f64,
        Mantissa::Promoted { prefix, rest } => {
            let mut r = *prefix as f64;
            for d in rest {
                r = r * 10.0 + ((d - 48) as f64);
            }
            r
        }
    };
    let mut dec = 0.1_f64;
    for (i, d) in f.frac.iter().enumerate() {
        if i > 0 {
            dec /= 10.0;
        }
        res += ((d - 48) as f64) * dec;
    }
    if let Some(e) = &f.exp {
        let scale = 10_f64.powi(e.value as i32);
        if e.neg {
            res /= scale;
        } else {
            res *= scale;
        }
    }
    if f.neg {
        -res
    } else {
        res
    }
}

fn parse_all(text: &str) -> Result<Number, hjson::error::Error> {
    let mut p = ParseNumber::new(text.as_bytes().to_vec());
    p.parse(true)
}

#[test]
fn unsigned_small() {
    assert_eq!(parse_all("123").unwrap(), Number::U64(123));
}

#[test]
fn unsigned_zero() {
    assert_eq!(parse_all("0").unwrap(), Number::U64(0));
}

#[test]
fn signed_zero_stays_integer() {
    assert_eq!(parse_all("-0").unwrap(), Number::I64(0));
}

#[test]
fn signed_small() {
    assert_eq!(parse_all("-42").unwrap(), Number::I64(-42));
}

#[test]
fn unsigned_max() {
    assert_eq!(
        parse_all("18446744073709551615").unwrap(),
        Number::U64(u64::MAX)
    );
}

#[test]
fn signed_min() {
    assert_eq!(
        parse_all("-9223372036854775808").unwrap(),
        Number::I64(i64::MIN)
    );
}

#[test]
fn sign_underflow_becomes_float() {
    let n = parse_all("-9223372036854775809").unwrap();
    match &n {
        Number::F64(f) => {
            assert!(f.neg);
            assert_eq!(f.mantissa, Mantissa::Fits(9223372036854775809));
            assert!(f.frac.is_empty());
            assert!(f.exp.is_none());
            assert_eq!(to_f64(f), -(9223372036854775809u64 as f64));
        }
        _ => panic!("expected a floating result"),
    }
}

#[test]
fn unsigned_overflow_promotes() {
    // One past the unsigned maximum: a floating result, not an error and
    // not a wrapped integer.
    let n = parse_all("18446744073709551616").unwrap();
    match &n {
        Number::F64(f) => {
            assert!(!f.neg);
            assert_eq!(
                f.mantissa,
                Mantissa::Promoted {
                    prefix: 1844674407370955161,
                    rest: vec![54]
                }
            );
            let v = to_f64(f);
            assert!((v - 1.8446744073709552e19).abs() < 1e4);
        }
        _ => panic!("expected a floating result"),
    }
}

#[test]
fn float_with_fraction_and_exponent() {
    let n = parse_all("-123.456e2").unwrap();
    match &n {
        Number::F64(f) => {
            assert!(f.neg);
            assert_eq!(f.mantissa, Mantissa::Fits(123));
            assert_eq!(f.frac, vec![52, 53, 54]);
            assert_eq!(
                f.exp,
                Some(Exponent {
                    neg: false,
                    value: 2
                })
            );
            let v = to_f64(f);
            assert!((v - (-12345.6)).abs() < 1e-9);
        }
        _ => panic!("expected a floating result"),
    }
}

#[test]
fn malformed_numbers_rejected() {
    // Each fault carries the position of the bytes scanned when it was
    // detected: 1-based line, 0-based column.
    for (text, line, col) in [
        ("01", 1, 2),
        ("1.", 1, 2),
        ("1.e5", 1, 3),
        ("1e", 1, 2),
        ("--1", 1, 2),
        ("1.2.3", 1, 4),
    ] {
        let e = parse_all(text).unwrap_err();
        assert_eq!(e.code, ErrorCode::InvalidNumber, "input {:?}", text);
        assert_eq!((e.line, e.col), (line, col), "input {:?}", text);
    }
}

#[test]
fn fault_position_counts_lines() {
    let e = parse_all("\n01").unwrap_err();
    assert_eq!(e.code, ErrorCode::InvalidNumber);
    assert_eq!((e.line, e.col), (2, 0));
}

#[test]
fn exponent_overflow_bound() {
    let e = parse_all("1e400").unwrap_err();
    assert_eq!(e.code, ErrorCode::InvalidNumber);
    assert_eq!((e.line, e.col), (1, 5));

    let n = parse_all("1e300").unwrap();
    match &n {
        Number::F64(f) => {
            let v = to_f64(f);
            assert!(v.is_finite());
            assert!(v > 0.99e300 && v < 1.01e300);
        }
        _ => panic!("expected a floating result"),
    }
}

#[test]
fn huge_exponent_digits_rejected() {
    let e = parse_all("1e99999999999999999999").unwrap_err();
    assert_eq!(e.code, ErrorCode::InvalidNumber);
    assert_eq!((e.line, e.col), (1, 22));
}

#[test]
fn negative_exponent() {
    let n = parse_all("25e-2").unwrap();
    match &n {
        Number::F64(f) => {
            assert_eq!(
                f.exp,
                Some(Exponent {
                    neg: true,
                    value: 2
                })
            );
            assert!((to_f64(f) - 0.25).abs() < 1e-12);
        }
        _ => panic!("expected a floating result"),
    }
}

#[test]
fn explicit_plus_exponent() {
    let n = parse_all("5E+3").unwrap();
    match &n {
        Number::F64(f) => {
            assert_eq!(
                f.exp,
                Some(Exponent {
                    neg: false,
                    value: 3
                })
            );
            assert_eq!(to_f64(f), 5000.0);
        }
        _ => panic!("expected a floating result"),
    }
}

#[test]
fn zero_with_fraction() {
    let n = parse_all("0.5").unwrap();
    match &n {
        Number::F64(f) => {
            assert!(!f.neg);
            assert_eq!(f.mantissa, Mantissa::Fits(0));
            assert_eq!(f.frac, vec![53]);
            assert_eq!(to_f64(f), 0.5);
        }
        _ => panic!("expected a floating result"),
    }
}

#[test]
fn trailing_comment_allowed() {
    assert_eq!(parse_all("42 # trailing words").unwrap(), Number::U64(42));
}

#[test]
fn trailing_garbage_rejected() {
    let e = parse_all("1 x").unwrap_err();
    assert_eq!(e.code, ErrorCode::InvalidNumber);
    assert_eq!((e.line, e.col), (1, 3));
}

#[test]
fn unterminated_comment_after_number() {
    let e = parse_all("1 /* open").unwrap_err();
    assert_eq!(e.code, ErrorCode::TrailingCharacters);
    assert_eq!((e.line, e.col), (1, 9));
}

#[test]
fn sentinel_zero_byte_ends_scan() {
    // A literal zero byte is indistinguishable from the end of the input:
    // the bytes after it are never looked at.
    let mut p = ParseNumber::new(vec![55, 0, 50]);
    assert_eq!(p.parse(true).unwrap(), Number::U64(7));
}

#[test]
fn decimal_text_round_trips() {
    for text in ["250", "0", "-77", "-3.5e-2", "18446744073709551616", "0.125", "9e308"] {
        let first = parse_all(text).unwrap();
        let again = parse_all(std::str::from_utf8(&first.to_decimal()).unwrap()).unwrap();
        assert_eq!(first, again, "input {:?}", text);
    }
}

#[test]
fn formats_follow_grammar() {
    assert_eq!(Number::U64(250).to_decimal(), b"250".to_vec());
    assert_eq!(Number::I64(-77).to_decimal(), b"-77".to_vec());
    assert_eq!(Number::I64(i64::MIN).to_decimal(), b"-9223372036854775808".to_vec());
    let f = Number::F64(Float {
        neg: true,
        mantissa: Mantissa::Fits(3),
        frac: vec![53],
        exp: Some(Exponent {
            neg: true,
            value: 2,
        }),
    });
    assert_eq!(f.to_decimal(), b"-3.5e-2".to_vec());
}
