use vstd::prelude::*;

use crate::digits::{
    digit_run, digit_val, digits_val, fit_len, is_digit, lemma_digit_run_add,
    lemma_digit_run_at_least, lemma_digit_run_is, lemma_digit_run_props, lemma_digits_val_mono,
    lemma_digits_val_step, lemma_digits_val_whole, lemma_fit_len_is,
};
use crate::error::{Error, ErrorCode};
use crate::reader::{last_line_len, line_breaks, skip_insig, StringReader};

verus! {

/// The largest exponent magnitude the scanner accepts: the scale `10^exp`
/// must stay a finite double, and `10^309` already is not. The bound is
/// applied to the magnitude regardless of the exponent's sign, so an
/// exponent this large is rejected even when it is negative and would only
/// divide the value toward zero.
pub const MAX_SCALE_EXP: u64 = 308;

/// The magnitude of the most negative 64-bit signed integer.
pub const MIN_I64_MAGNITUDE: u64 = 0x8000_0000_0000_0000;

/// The integer-part digits of a floating result, as accumulated.
#[derive(Clone, Debug, PartialEq, Eq)]
pub enum Mantissa {
    /// The integer part fit in a 64-bit unsigned accumulator.
    Fits(u64),
    /// Decimal accumulation left the 64-bit range: `prefix` is the value
    /// accumulated just before the first overflowing digit, and `rest` holds
    /// the ASCII digits from that point on.
    Promoted { prefix: u64, rest: Vec<u8> },
}

/// The exponent of a floating result: `10^value`, inverted when `neg`.
#[derive(Clone, Copy, Debug, PartialEq, Eq, Structural)]
pub struct Exponent {
    pub neg: bool,
    pub value: u64,
}

/// A floating result, kept as the exact data the scanner read: the sign, the
/// integer-part digits, the ASCII fraction digits, and the exponent. The
/// IEEE double itself is the caller's to compute, outside this crate's
/// verified core.
#[derive(Clone, Debug, PartialEq, Eq)]
pub struct Float {
    pub neg: bool,
    pub mantissa: Mantissa,
    pub frac: Vec<u8>,
    pub exp: Option<Exponent>,
}

/// One scanned number: exactly one of the three shapes the grammar's
/// overflow-promotion rules produce.
#[derive(Clone, Debug, PartialEq, Eq)]
pub enum Number {
    U64(u64),
    I64(i64),
    F64(Float),
}

/// The mathematical image of a `Mantissa`.
pub enum MantissaView {
    Fits(u64),
    Promoted { prefix: u64, rest: Seq<u8> },
}

/// The mathematical image of a `Float`.
pub struct FloatView {
    pub neg: bool,
    pub mantissa: MantissaView,
    pub frac: Seq<u8>,
    pub exp: Option<Exponent>,
}

/// The mathematical image of a `Number`.
pub enum NumberView {
    U64(u64),
    I64(i64),
    F64(FloatView),
}

impl View for Mantissa {
    type V = MantissaView;

    open spec fn view(&self) -> MantissaView {
        match self {
            Mantissa::Fits(m) => MantissaView::Fits(*m),
            Mantissa::Promoted { prefix, rest } => MantissaView::Promoted {
                prefix: *prefix,
                rest: rest@,
            },
        }
    }
}

impl View for Float {
    type V = FloatView;

    open spec fn view(&self) -> FloatView {
        FloatView { neg: self.neg, mantissa: self.mantissa@, frac: self.frac@, exp: self.exp }
    }
}

impl View for Number {
    type V = NumberView;

    open spec fn view(&self) -> NumberView {
        match self {
            Number::U64(m) => NumberView::U64(*m),
            Number::I64(m) => NumberView::I64(*m),
            Number::F64(f) => NumberView::F64(f@),
        }
    }
}

/// What holds of every promoted mantissa the scanner builds: the kept
/// digits are digits, and the accumulation really did overflow at the first
/// of them.
pub open spec fn mantissa_wf(m: MantissaView) -> bool {
    m matches MantissaView::Promoted { prefix, rest } ==> rest.len() >= 1 && (forall|i: int|
        0 <= i < rest.len() ==> is_digit(#[trigger] rest[i])) && prefix * 10 + digit_val(rest[0])
        > u64::MAX
}

/// What holds of every floating result the scanner produces. In particular,
/// a float with a fitting mantissa and neither fraction nor exponent can
/// only be the sign-underflow form: a negative magnitude beyond the signed
/// range.
pub open spec fn float_wf(f: FloatView) -> bool {
    &&& forall|i: int| 0 <= i < f.frac.len() ==> is_digit(#[trigger] f.frac[i])
    &&& mantissa_wf(f.mantissa)
    &&& (f.exp matches Some(e) ==> e.value <= MAX_SCALE_EXP)
    &&& (f.frac.len() == 0 && f.exp is None ==> match f.mantissa {
        MantissaView::Promoted { .. } => true,
        MantissaView::Fits(v) => f.neg && v > MIN_I64_MAGNITUDE,
    })
}

/// The split of an all-digit integer part into a mantissa, promoting out of
/// the 64-bit unsigned range at the first digit whose accumulation would
/// overflow.
pub open spec fn mantissa_of(ds: Seq<u8>) -> MantissaView {
    if digits_val(ds) <= u64::MAX {
        MantissaView::Fits(digits_val(ds) as u64)
    } else {
        MantissaView::Promoted {
            prefix: digits_val(ds.take(fit_len(ds) as int)) as u64,
            rest: ds.skip(fit_len(ds) as int),
        }
    }
}

/// The result of ending a number right after its integer part: the unsigned
/// value when non-negative; otherwise the signed negation when it fits, and
/// the floating form when the magnitude leaves the signed range or already
/// overflowed the unsigned accumulator.
pub open spec fn finish_integer(pos: bool, m: MantissaView) -> NumberView {
    match m {
        MantissaView::Promoted { .. } => NumberView::F64(
            FloatView { neg: !pos, mantissa: m, frac: Seq::empty(), exp: None },
        ),
        MantissaView::Fits(v) => if pos {
            NumberView::U64(v)
        } else if v <= MIN_I64_MAGNITUDE {
            NumberView::I64((0 - v) as i64)
        } else {
            NumberView::F64(
                FloatView { neg: true, mantissa: m, frac: Seq::empty(), exp: None },
            )
        },
    }
}

/// Scan an exponent part; `s` starts just past the `e`/`E` marker. Fails
/// when no digit follows the optional sign, or when the accumulated
/// exponent leaves the bound a finite power-of-ten scale allows — a bound
/// that holds for negative exponents too (see `MAX_SCALE_EXP`).
pub open spec fn scan_exponent(pos: bool, m: MantissaView, frac: Seq<u8>, s: Seq<u8>) -> Option<
    (NumberView, Seq<u8>),
> {
    let eneg = s.len() > 0 && s[0] == 45;
    let t = if s.len() > 0 && (s[0] == 45 || s[0] == 43) {
        s.skip(1)
    } else {
        s
    };
    if t.len() == 0 || !is_digit(t[0]) {
        None
    } else {
        let n = digit_run(t) as int;
        let ev = digits_val(t.take(n));
        if ev > MAX_SCALE_EXP {
            None
        } else {
            Some(
                (
                    NumberView::F64(
                        FloatView {
                            neg: !pos,
                            mantissa: m,
                            frac,
                            exp: Some(Exponent { neg: eneg, value: ev as u64 }),
                        },
                    ),
                    t.skip(n),
                ),
            )
        }
    }
}

/// Scan a fractional part; `s` starts at the `.`. At least one digit must
/// follow the dot; an exponent may follow the digits.
pub open spec fn scan_fraction(pos: bool, m: MantissaView, s: Seq<u8>) -> Option<
    (NumberView, Seq<u8>),
> {
    let t = s.skip(1);
    if t.len() == 0 || !is_digit(t[0]) {
        None
    } else {
        let n = digit_run(t) as int;
        let frac = t.take(n);
        let rest = t.skip(n);
        if rest.len() > 0 && (rest[0] == 101 || rest[0] == 69) {
            scan_exponent(pos, m, frac, rest.skip(1))
        } else {
            Some((NumberView::F64(FloatView { neg: !pos, mantissa: m, frac, exp: None }), rest))
        }
    }
}

/// Dispatch after the integer part, whose mantissa is `m`: a fraction, an
/// exponent, or an integer result.
pub open spec fn scan_tail(pos: bool, m: MantissaView, s: Seq<u8>) -> Option<(NumberView, Seq<u8>)> {
    if s.len() > 0 && s[0] == 46 {
        scan_fraction(pos, m, s)
    } else if s.len() > 0 && (s[0] == 101 || s[0] == 69) {
        scan_exponent(pos, m, Seq::empty(), s.skip(1))
    } else {
        Some((finish_integer(pos, m), s))
    }
}

/// Scan the unsigned part of a number: the integer digits and whatever
/// follows them. A leading `0` may not be followed by another digit.
pub open spec fn scan_magnitude(pos: bool, s: Seq<u8>) -> Option<(NumberView, Seq<u8>)> {
    if s.len() == 0 || !is_digit(s[0]) {
        None
    } else if s[0] == 48 && s.len() >= 2 && is_digit(s[1]) {
        None
    } else {
        let n = digit_run(s) as int;
        scan_tail(pos, mantissa_of(s.take(n)), s.skip(n))
    }
}

/// Scan one complete number token from the front of `s`: an optional minus
/// sign, then the magnitude. Yields the value and the unconsumed suffix, or
/// nothing when the token is malformed.
pub open spec fn scan_number(s: Seq<u8>) -> Option<(NumberView, Seq<u8>)> {
    if s.len() > 0 && s[0] == 45 {
        scan_magnitude(false, s.skip(1))
    } else {
        scan_magnitude(true, s)
    }
}

/// How many bytes of `s` the scanner has examined — consumed or peeked,
/// and therefore pulled — when an exponent part starting just past its
/// marker proves malformed; meaningful when `scan_exponent` fails on `s`.
pub open spec fn exponent_fault(s: Seq<u8>) -> int {
    let sign = if s.len() > 0 && (s[0] == 45 || s[0] == 43) {
        1int
    } else {
        0int
    };
    let t = if s.len() > 0 && (s[0] == 45 || s[0] == 43) {
        s.skip(1)
    } else {
        s
    };
    if t.len() == 0 || !is_digit(t[0]) {
        sign + if t.len() > 0 {
            1int
        } else {
            0int
        }
    } else {
        let n = digit_run(t) as int;
        let ds = t.take(n);
        if digits_val(ds) > u64::MAX {
            sign + fit_len(ds) + 1
        } else {
            sign + n + if t.len() > n {
                1int
            } else {
                0int
            }
        }
    }
}

/// The scanner never examines past the end of the input: the exponent
/// fault offset stays within `s`.
pub proof fn lemma_exponent_fault_le(s: Seq<u8>)
    ensures
        0 <= exponent_fault(s) <= s.len(),
{
    let t = if s.len() > 0 && (s[0] == 45 || s[0] == 43) {
        s.skip(1)
    } else {
        s
    };
    lemma_digit_run_props(t);
    if t.len() > 0 && is_digit(t[0]) {
        let ds = t.take(digit_run(t) as int);
        if digits_val(ds) > u64::MAX {
            crate::digits::lemma_fit_len_props(ds);
        }
    }
}

/// How many bytes of `s` the scanner has examined when a fractional part
/// starting at its dot proves malformed; meaningful when `scan_fraction`
/// fails on `s`.
pub open spec fn fraction_fault(s: Seq<u8>) -> int {
    let t = s.skip(1);
    if t.len() == 0 || !is_digit(t[0]) {
        1 + if t.len() > 0 {
            1int
        } else {
            0int
        }
    } else {
        let n = digit_run(t) as int;
        let rest = t.skip(n);
        if rest.len() > 0 {
            1 + n + 1 + exponent_fault(rest.skip(1))
        } else {
            1 + n
        }
    }
}

/// The scanner never examines past the end of the input: the fraction
/// fault offset stays within `s`, and some byte of `s` is examined.
pub proof fn lemma_fraction_fault_le(s: Seq<u8>)
    requires
        s.len() > 0,
    ensures
        1 <= fraction_fault(s) <= s.len(),
{
    let t = s.skip(1);
    lemma_digit_run_props(t);
    if t.len() > 0 && is_digit(t[0]) {
        let rest = t.skip(digit_run(t) as int);
        if rest.len() > 0 {
            lemma_exponent_fault_le(rest.skip(1));
        }
    }
}

/// How many bytes of `s` the scanner has examined when the content after
/// the integer digits proves malformed; meaningful when `scan_tail` fails
/// on `s`.
pub open spec fn tail_fault(s: Seq<u8>) -> int {
    if s.len() > 0 && s[0] == 46 {
        fraction_fault(s)
    } else if s.len() > 0 && (s[0] == 101 || s[0] == 69) {
        1 + exponent_fault(s.skip(1))
    } else {
        0
    }
}

/// The scanner never examines past the end of the input: the tail fault
/// offset stays within `s`.
pub proof fn lemma_tail_fault_le(s: Seq<u8>)
    ensures
        0 <= tail_fault(s) <= s.len(),
{
    if s.len() > 0 && s[0] == 46 {
        lemma_fraction_fault_le(s);
    } else if s.len() > 0 && (s[0] == 101 || s[0] == 69) {
        lemma_exponent_fault_le(s.skip(1));
    }
}

/// How many bytes of `s` the scanner has examined when an unsigned number
/// at its front proves malformed; meaningful when `scan_magnitude` fails
/// on `s`.
pub open spec fn magnitude_fault(s: Seq<u8>) -> int {
    if s.len() == 0 {
        0
    } else if !is_digit(s[0]) {
        1
    } else if s[0] == 48 && s.len() >= 2 && is_digit(s[1]) {
        2
    } else {
        let n = digit_run(s) as int;
        n + tail_fault(s.skip(n))
    }
}

/// The scanner never examines past the end of the input: the magnitude
/// fault offset stays within `s`.
pub proof fn lemma_magnitude_fault_le(s: Seq<u8>)
    ensures
        0 <= magnitude_fault(s) <= s.len(),
{
    if s.len() > 0 && is_digit(s[0]) && !(s[0] == 48 && s.len() >= 2 && is_digit(s[1])) {
        lemma_digit_run_props(s);
        lemma_tail_fault_le(s.skip(digit_run(s) as int));
    }
}

/// How many bytes of `s` the scanner has examined when a number token at
/// its front proves malformed; meaningful when `scan_number` fails on `s`.
/// The fault's position is stamped just past the last examined byte.
pub open spec fn number_fault(s: Seq<u8>) -> int {
    if s.len() > 0 && s[0] == 45 {
        1 + magnitude_fault(s.skip(1))
    } else {
        magnitude_fault(s)
    }
}

/// The scanner never examines past the end of the input: the number fault
/// offset stays within `s`.
pub proof fn lemma_number_fault_le(s: Seq<u8>)
    ensures
        0 <= number_fault(s) <= s.len(),
{
    if s.len() > 0 && s[0] == 45 {
        lemma_magnitude_fault_le(s.skip(1));
    } else {
        lemma_magnitude_fault_le(s);
    }
}

proof fn lemma_scan_exponent_rest_le(pos: bool, m: MantissaView, frac: Seq<u8>, s: Seq<u8>)
    ensures
        scan_exponent(pos, m, frac, s) matches Some((v, rest)) ==> rest.len() <= s.len(),
{
    let t = if s.len() > 0 && (s[0] == 45 || s[0] == 43) {
        s.skip(1)
    } else {
        s
    };
    lemma_digit_run_props(t);
}

proof fn lemma_scan_tail_rest_le(pos: bool, m: MantissaView, s: Seq<u8>)
    ensures
        scan_tail(pos, m, s) matches Some((v, rest)) ==> rest.len() <= s.len(),
{
    if s.len() > 0 && s[0] == 46 {
        let t = s.skip(1);
        lemma_digit_run_props(t);
        if t.len() > 0 && is_digit(t[0]) {
            let n = digit_run(t) as int;
            let rest0 = t.skip(n);
            if rest0.len() > 0 && (rest0[0] == 101 || rest0[0] == 69) {
                lemma_scan_exponent_rest_le(pos, m, t.take(n), rest0.skip(1));
            }
        }
    } else if s.len() > 0 && (s[0] == 101 || s[0] == 69) {
        lemma_scan_exponent_rest_le(pos, m, Seq::empty(), s.skip(1));
    }
}

/// A scanned number token never reaches past the end of the input: what is
/// left over is never longer than what was there.
pub proof fn lemma_scan_rest_le(s: Seq<u8>)
    ensures
        scan_number(s) matches Some((v, rest)) ==> rest.len() <= s.len(),
{
    let s1 = if s.len() > 0 && s[0] == 45 {
        s.skip(1)
    } else {
        s
    };
    if s1.len() > 0 && is_digit(s1[0]) {
        lemma_digit_run_props(s1);
        let n = digit_run(s1) as int;
        lemma_scan_tail_rest_le(
            !(s.len() > 0 && s[0] == 45),
            mantissa_of(s1.take(n)),
            s1.skip(n),
        );
    }
}

/// Examined stretches of the same input join: the bytes examined up to a
/// handoff point, followed by the bytes a continuation examines beyond its
/// own lookahead, are one contiguous examined stretch.
proof fn lemma_examined_join(s: Seq<u8>, a: int, c: int, la: int, k2: int)
    requires
        0 <= a <= c + la,
        0 <= c,
        0 <= la <= k2,
        c + k2 <= s.len(),
        c + la <= s.len(),
    ensures
        s.subrange(a, c + la) + s.skip(c).subrange(la, k2) == s.subrange(a, c + k2),
{
    assert(s.subrange(a, c + la) + s.skip(c).subrange(la, k2) =~= s.subrange(a, c + k2));
}

/// The fault a malformed number is reported with: `InvalidNumber`, stamped
/// with the position of `scanned`, the bytes pulled from the source when
/// the fault was detected.
pub open spec fn invalid_at(scanned: Seq<u8>) -> Error {
    Error {
        code: ErrorCode::InvalidNumber,
        line: (1 + line_breaks(scanned)) as usize,
        col: last_line_len(scanned) as usize,
    }
}

/// Consumes one number token from a byte source, through a lookahead
/// reader, and produces a `Number` or a positioned syntax error.
pub struct ParseNumber {
    rdr: StringReader,
}

impl ParseNumber {
    /// The bytes not yet consumed from the scanner's reader.
    pub closed spec fn remaining(self) -> Seq<u8> {
        self.rdr.remaining()
    }

    /// The bytes the scanner's reader has pulled from its source; the
    /// position stamped on a fault follows these.
    pub closed spec fn scanned(self) -> Seq<u8> {
        self.rdr.scanned()
    }

    /// All bytes of the scanner's source.
    pub closed spec fn source(self) -> Seq<u8> {
        self.rdr.source()
    }

    /// How many unconsumed bytes the scanner has pulled ahead into its
    /// reader's lookahead buffer.
    pub closed spec fn lookahead(self) -> nat {
        self.rdr.buffered()
    }

    /// The scanner's internal consistency. The number grammar needs only
    /// one byte of lookahead, so the buffer never holds more.
    pub closed spec fn wf(self) -> bool {
        self.rdr.wf() && self.rdr.buffered() <= 1
    }

    /// Build a number scanner over a byte source: nothing pulled yet, so
    /// the position starts at line 1, column 0.
    pub fn new(input: Vec<u8>) -> (r: ParseNumber)
        requires
            input@.len() < usize::MAX,
        ensures
            r.wf(),
            r.remaining() == input@,
            r.source() == input@,
            r.scanned() == Seq::<u8>::empty(),
            r.lookahead() == 0,
    {
        ParseNumber { rdr: StringReader::new(input) }
    }

    /// Finish a number whose integer part fit in `res`: dispatch on the next
    /// byte to a fraction, an exponent, or an integer result, applying the
    /// sign with wraparound demotion to the floating form when a negative
    /// magnitude leaves the signed range.
    fn parse_num_next(&mut self, pos: bool, res: u64) -> (r: Result<Number, Error>)
        requires
            old(self).wf(),
        ensures
            final(self).wf(),
            final(self).source() == old(self).source(),
            match scan_tail(pos, MantissaView::Fits(res), old(self).remaining()) {
                None => r == Err::<Number, Error>(invalid_at(final(self).scanned()))
                    && final(self).scanned() == old(self).scanned()
                    + old(self).remaining().subrange(
                    old(self).lookahead() as int,
                    tail_fault(old(self).remaining()),
                ),
                Some((v, rest)) => r matches Ok(n) && n@ == v && final(self).remaining() == rest,
            },
    {
        let b = match self.rdr.peek_or_null() {
            Ok(b) => b,
            Err(e) => {
                return Err(e);
            },
        };
        if b == 46 {
            let ghost pre_call = *self;
            proof {
                StringReader::lemma_pulled_after(old(self).rdr, pre_call.rdr, 1);
            }
            let r = self.parse_decimal(pos, Mantissa::Fits(res));
            proof {
                lemma_fraction_fault_le(old(self).remaining());
                assert(old(self).remaining().subrange(old(self).lookahead() as int, 1)
                    + old(self).remaining().subrange(1, fraction_fault(old(self).remaining()))
                    =~= old(self).remaining().subrange(
                    old(self).lookahead() as int,
                    tail_fault(old(self).remaining()),
                ));
            }
            r
        } else if b == 101 || b == 69 {
            let ghost pre_call = *self;
            proof {
                StringReader::lemma_pulled_after(old(self).rdr, pre_call.rdr, 1);
            }
            let r = self.parse_exponent(pos, Mantissa::Fits(res), Vec::new());
            proof {
                lemma_exponent_fault_le(old(self).remaining().skip(1));
                assert(old(self).remaining().subrange(old(self).lookahead() as int, 1)
                    + old(self).remaining().subrange(
                    1,
                    1 + exponent_fault(old(self).remaining().skip(1)),
                ) =~= old(self).remaining().subrange(
                    old(self).lookahead() as int,
                    tail_fault(old(self).remaining()),
                ));
            }
            r
        } else if pos {
            Ok(Number::U64(res))
        } else if res <= 0x7fff_ffff_ffff_ffff {
            Ok(Number::I64(-(res as i64)))
        } else if res == MIN_I64_MAGNITUDE {
            Ok(Number::I64(i64::MIN))
        } else {
            Ok(Number::F64(Float { neg: true, mantissa: Mantissa::Fits(res), frac: Vec::new(), exp: None }))
        }
    }

    /// Parse an exponent part: the marker was peeked but not yet consumed.
    /// An optional sign, then at least one digit, accumulated with overflow
    /// checking; an exponent beyond `MAX_SCALE_EXP` is rejected.
    fn parse_exponent(&mut self, pos: bool, m: Mantissa, frac: Vec<u8>) -> (r: Result<Number, Error>)
        requires
            old(self).wf(),
            old(self).remaining().len() > 0,
            old(self).remaining()[0] == 101 || old(self).remaining()[0] == 69,
            old(self).rdr.buffered() >= 1,
        ensures
            final(self).wf(),
            final(self).source() == old(self).source(),
            match scan_exponent(pos, m@, frac@, old(self).remaining().skip(1)) {
                None => r == Err::<Number, Error>(invalid_at(final(self).scanned()))
                    && final(self).scanned() == old(self).scanned()
                    + old(self).remaining().subrange(
                    old(self).lookahead() as int,
                    1 + exponent_fault(old(self).remaining().skip(1)),
                ),
                Some((v, rest)) => r matches Ok(n) && n@ == v && final(self).remaining() == rest,
            },
    {
        self.rdr.eat_char();
        let ghost s = old(self).remaining().skip(1);
        let b = match self.rdr.peek_or_null() {
            Ok(b) => b,
            Err(e) => {
                return Err(e);
            },
        };
        let eneg = if b == 43 {
            self.rdr.eat_char();
            false
        } else if b == 45 {
            self.rdr.eat_char();
            true
        } else {
            false
        };
        let ghost t = self.remaining();
        proof {
            assert(t == if s.len() > 0 && (s[0] == 45 || s[0] == 43) {
                s.skip(1)
            } else {
                s
            });
        }
        let c = match self.rdr.next_char_or_null() {
            Ok(c) => c,
            Err(e) => {
                return Err(e);
            },
        };
        if !(c >= 48 && c <= 57) {
            proof {
                StringReader::lemma_pulled_after(old(self).rdr, self.rdr, 1 + exponent_fault(s));
            }
            let e = self.rdr.error(ErrorCode::InvalidNumber);
            return Err(e);
        }
        let mut exp: u64 = (c - 48) as u64;
        let ghost mut j: int = 1;
        proof {
            assert(t.take(0int) =~= Seq::<u8>::empty());
            lemma_digits_val_step(t, 0);
        }
        loop
            invariant_except_break
                self.rdr.buffered() == 0,
            invariant
                self.wf(),
                self.source() == old(self).source(),
                old(self).wf() && old(self).rdr.buffered() == 1,
                1 <= old(self).remaining().len(),
                ({
                    let s2 = old(self).remaining().skip(1);
                    t == if s2.len() > 0 && (s2[0] == 45 || s2[0] == 43) {
                        s2.skip(1)
                    } else {
                        s2
                    }
                }),
                ({
                    let s2 = old(self).remaining().skip(1);
                    eneg == (s2.len() > 0 && s2[0] == 45)
                }),
                1 <= j <= t.len(),
                forall|i: int| 0 <= i < j ==> is_digit(t[i]),
                exp == digits_val(t.take(j)),
                self.remaining() == t.skip(j),
            ensures
                self.wf(),
                1 <= digit_run(t),
                exp == digits_val(t.take(digit_run(t) as int)),
                self.remaining() == t.skip(digit_run(t) as int),
                self.rdr.buffered() == if self.remaining().len() == 0 {
                    0nat
                } else {
                    1nat
                },
            decreases t.len() - j,
        {
            let b = match self.rdr.peek_or_null() {
                Ok(b) => b,
                Err(e) => {
                    return Err(e);
                },
            };
            if b >= 48 && b <= 57 {
                proof {
                    assert(t[j] == b);
                    lemma_digits_val_step(t, j);
                }
                self.rdr.eat_char();
                proof {
                    assert(self.remaining() =~= t.skip(j + 1));
                }
                let d = (b - 48) as u64;
                let grown = match exp.checked_mul(10) {
                    Some(x) => x.checked_add(d),
                    None => None,
                };
                match grown {
                    Some(x) => {
                        exp = x;
                        proof {
                            j = j + 1;
                        }
                    },
                    None => {
                        proof {
                            lemma_digit_run_at_least(t, (j + 1) as nat);
                            lemma_digit_run_props(t);
                            lemma_digits_val_mono(t, j + 1, digit_run(t) as int);
                            let run = digit_run(t) as int;
                            let ds = t.take(run);
                            assert(ds.take(j) =~= t.take(j));
                            assert(ds.take(j + 1) =~= t.take(j + 1));
                            lemma_digits_val_mono(ds, j + 1, run);
                            lemma_digits_val_whole(ds);
                            lemma_fit_len_is(ds, j);
                            StringReader::lemma_pulled_after(
                                old(self).rdr,
                                self.rdr,
                                1 + exponent_fault(old(self).remaining().skip(1)),
                            );
                        }
                        let e = self.rdr.error(ErrorCode::InvalidNumber);
                        return Err(e);
                    },
                }
            } else {
                proof {
                    lemma_digit_run_is(t, j as nat);
                }
                break;
            }
        }
        if exp > MAX_SCALE_EXP {
            proof {
                lemma_digit_run_props(t);
                StringReader::lemma_pulled_after(old(self).rdr, self.rdr, 1 + exponent_fault(s));
            }
            let e = self.rdr.error(ErrorCode::InvalidNumber);
            return Err(e);
        }
        Ok(Number::F64(Float { neg: !pos, mantissa: m, frac, exp: Some(Exponent { neg: eneg, value: exp }) }))
    }

    /// Parse a fractional part: the `.` was peeked but not yet consumed. At
    /// least one digit must follow the dot; an exponent may follow the
    /// digits.
    fn parse_decimal(&mut self, pos: bool, m: Mantissa) -> (r: Result<Number, Error>)
        requires
            old(self).wf(),
            old(self).remaining().len() > 0,
            old(self).remaining()[0] == 46,
            old(self).rdr.buffered() >= 1,
        ensures
            final(self).wf(),
            final(self).source() == old(self).source(),
            match scan_fraction(pos, m@, old(self).remaining()) {
                None => r == Err::<Number, Error>(invalid_at(final(self).scanned()))
                    && final(self).scanned() == old(self).scanned()
                    + old(self).remaining().subrange(
                    old(self).lookahead() as int,
                    fraction_fault(old(self).remaining()),
                ),
                Some((v, rest)) => r matches Ok(n) && n@ == v && final(self).remaining() == rest,
            },
    {
        self.rdr.eat_char();
        let ghost t = old(self).remaining().skip(1);
        let c = match self.rdr.next_char_or_null() {
            Ok(c) => c,
            Err(e) => {
                return Err(e);
            },
        };
        if !(c >= 48 && c <= 57) {
            proof {
                StringReader::lemma_pulled_after(
                    old(self).rdr,
                    self.rdr,
                    fraction_fault(old(self).remaining()),
                );
            }
            let e = self.rdr.error(ErrorCode::InvalidNumber);
            return Err(e);
        }
        let mut frac: Vec<u8> = Vec::new();
        frac.push(c);
        proof {
            assert(frac@ =~= t.take(1int));
        }
        loop
            invariant_except_break
                self.rdr.buffered() == 0,
            invariant
                self.wf(),
                self.source() == old(self).source(),
                1 <= frac@.len() <= t.len(),
                frac@ == t.take(frac@.len() as int),
                forall|i: int| 0 <= i < frac@.len() ==> is_digit(t[i]),
                self.remaining() == t.skip(frac@.len() as int),
            ensures
                self.wf(),
                1 <= digit_run(t),
                frac@ == t.take(digit_run(t) as int),
                self.remaining() == t.skip(digit_run(t) as int),
                self.rdr.buffered() == if self.remaining().len() == 0 {
                    0nat
                } else {
                    1nat
                },
            decreases t.len() - frac@.len(),
        {
            let b = match self.rdr.peek_or_null() {
                Ok(b) => b,
                Err(e) => {
                    return Err(e);
                },
            };
            if b >= 48 && b <= 57 {
                let ghost jj = frac@.len() as int;
                proof {
                    assert(t[jj] == b);
                }
                self.rdr.eat_char();
                frac.push(b);
                proof {
                    assert(frac@ =~= t.take(jj + 1));
                    assert(self.remaining() =~= t.skip(jj + 1));
                }
            } else {
                proof {
                    lemma_digit_run_is(t, frac@.len() as nat);
                }
                break;
            }
        }
        let b2 = match self.rdr.peek_or_null() {
            Ok(b2) => b2,
            Err(e) => {
                return Err(e);
            },
        };
        if b2 == 101 || b2 == 69 {
            let ghost pre_call = *self;
            let ghost n = digit_run(t) as int;
            proof {
                lemma_digit_run_props(t);
                StringReader::lemma_pulled_after(old(self).rdr, pre_call.rdr, 2 + n);
            }
            let r = self.parse_exponent(pos, m, frac);
            proof {
                lemma_exponent_fault_le(pre_call.remaining().skip(1));
                assert(pre_call.remaining() =~= old(self).remaining().skip(1 + n));
                assert(old(self).remaining().subrange(old(self).lookahead() as int, 2 + n)
                    + pre_call.remaining().subrange(
                    1,
                    1 + exponent_fault(pre_call.remaining().skip(1)),
                ) =~= old(self).remaining().subrange(
                    old(self).lookahead() as int,
                    fraction_fault(old(self).remaining()),
                ));
            }
            r
        } else {
            Ok(Number::F64(Float { neg: !pos, mantissa: m, frac, exp: None }))
        }
    }

    /// Continue the integer part after decimal accumulation overflowed:
    /// `prefix` is the value accumulated before the overflowing ASCII digit
    /// `first`. The rest of the integer digits are kept as read, and the
    /// number finishes as a floating result whatever follows.
    fn parse_float(&mut self, pos: bool, prefix: u64, first: u8) -> (r: Result<Number, Error>)
        requires
            old(self).wf(),
            old(self).rdr.buffered() == 0,
            is_digit(first),
            prefix * 10 + digit_val(first) > u64::MAX,
        ensures
            final(self).wf(),
            final(self).source() == old(self).source(),
            ({
                let run = digit_run(old(self).remaining()) as int;
                match scan_tail(
                    pos,
                    MantissaView::Promoted {
                        prefix,
                        rest: seq![first] + old(self).remaining().take(run),
                    },
                    old(self).remaining().skip(run),
                ) {
                    None => r == Err::<Number, Error>(invalid_at(final(self).scanned()))
                        && final(self).scanned() == old(self).scanned()
                        + old(self).remaining().subrange(
                        0,
                        run + tail_fault(old(self).remaining().skip(run)),
                    ),
                    Some((v, rest)) => r matches Ok(n) && n@ == v && final(self).remaining()
                        == rest,
                }
            }),
    {
        let ghost t = old(self).remaining();
        let mut rest: Vec<u8> = Vec::new();
        rest.push(first);
        proof {
            assert(rest@ =~= seq![first] + t.take(0int));
        }
        loop
            invariant_except_break
                self.rdr.buffered() == 0,
            invariant
                self.wf(),
                self.source() == old(self).source(),
                1 <= rest@.len(),
                rest@.len() - 1 <= t.len(),
                rest@ == seq![first] + t.take(rest@.len() - 1),
                forall|i: int| 0 <= i < rest@.len() - 1 ==> is_digit(t[i]),
                self.remaining() == t.skip(rest@.len() - 1),
            ensures
                self.wf(),
                rest@ == seq![first] + t.take(digit_run(t) as int),
                self.remaining() == t.skip(digit_run(t) as int),
                self.rdr.buffered() == if self.remaining().len() == 0 {
                    0nat
                } else {
                    1nat
                },
            decreases t.len() + 1 - rest@.len(),
        {
            let b = match self.rdr.peek_or_null() {
                Ok(b) => b,
                Err(e) => {
                    return Err(e);
                },
            };
            if b >= 48 && b <= 57 {
                let ghost jj = rest@.len() - 1;
                proof {
                    assert(t[jj] == b);
                }
                self.rdr.eat_char();
                rest.push(b);
                proof {
                    assert(rest@ =~= seq![first] + t.take(jj + 1));
                    assert(self.remaining() =~= t.skip(jj + 1));
                }
            } else {
                proof {
                    lemma_digit_run_is(t, (rest@.len() - 1) as nat);
                }
                break;
            }
        }
        let b2 = match self.rdr.peek_or_null() {
            Ok(b2) => b2,
            Err(e) => {
                return Err(e);
            },
        };
        let ghost run = digit_run(t) as int;
        if b2 == 46 {
            let ghost pre_call = *self;
            proof {
                lemma_digit_run_props(t);
                StringReader::lemma_pulled_after(old(self).rdr, pre_call.rdr, run + 1);
            }
            let r = self.parse_decimal(pos, Mantissa::Promoted { prefix, rest });
            proof {
                lemma_fraction_fault_le(pre_call.remaining());
                assert(old(self).remaining().subrange(0, run + 1) + pre_call.remaining().subrange(
                    1,
                    fraction_fault(pre_call.remaining()),
                ) =~= old(self).remaining().subrange(
                    0,
                    run + tail_fault(old(self).remaining().skip(run)),
                ));
            }
            r
        } else if b2 == 101 || b2 == 69 {
            let ghost pre_call = *self;
            proof {
                lemma_digit_run_props(t);
                StringReader::lemma_pulled_after(old(self).rdr, pre_call.rdr, run + 1);
            }
            let r = self.parse_exponent(pos, Mantissa::Promoted { prefix, rest }, Vec::new());
            proof {
                lemma_exponent_fault_le(pre_call.remaining().skip(1));
                assert(old(self).remaining().subrange(0, run + 1) + pre_call.remaining().subrange(
                    1,
                    1 + exponent_fault(pre_call.remaining().skip(1)),
                ) =~= old(self).remaining().subrange(
                    0,
                    run + tail_fault(old(self).remaining().skip(run)),
                ));
            }
            r
        } else {
            Ok(Number::F64(Float {
                neg: !pos,
                mantissa: Mantissa::Promoted { prefix, rest },
                frac: Vec::new(),
                exp: None,
            }))
        }
    }

    /// Parse one number token: an optional minus sign, the integer part with
    /// overflow promotion, then whatever fraction or exponent follows. The
    /// input after the token is left unconsumed.
    #[verifier::rlimit(100)]
    fn parse_integer(&mut self) -> (r: Result<Number, Error>)
        requires
            old(self).wf(),
        ensures
            final(self).wf(),
            final(self).source() == old(self).source(),
            match scan_number(old(self).remaining()) {
                None => r == Err::<Number, Error>(invalid_at(final(self).scanned()))
                    && final(self).scanned() == old(self).scanned()
                    + old(self).remaining().subrange(
                    old(self).lookahead() as int,
                    number_fault(old(self).remaining()),
                ),
                Some((v, rest)) => r matches Ok(n) && n@ == v && final(self).remaining() == rest,
            },
    {
        let b0 = match self.rdr.peek_or_null() {
            Ok(b0) => b0,
            Err(e) => {
                return Err(e);
            },
        };
        let pos = if b0 == 45 {
            self.rdr.eat_char();
            false
        } else {
            true
        };
        let ghost s1 = self.remaining();
        let ghost signlen: int = if old(self).remaining().len() > 0 && old(self).remaining()[0]
            == 45 {
            1
        } else {
            0
        };
        let c = match self.rdr.next_char_or_null() {
            Ok(c) => c,
            Err(e) => {
                return Err(e);
            },
        };
        if c == 48 {
            let b = match self.rdr.peek_or_null() {
                Ok(b) => b,
                Err(e) => {
                    return Err(e);
                },
            };
            if b >= 48 && b <= 57 {
                proof {
                    StringReader::lemma_pulled_after(
                        old(self).rdr,
                        self.rdr,
                        number_fault(old(self).remaining()),
                    );
                }
                let e = self.rdr.error(ErrorCode::InvalidNumber);
                return Err(e);
            }
            proof {
                lemma_digit_run_is(s1, 1);
                assert(s1.take(0int) =~= Seq::<u8>::empty());
                lemma_digits_val_step(s1, 0);
                assert(mantissa_of(s1.take(1int)) == MantissaView::Fits(0u64));
            }
            let ghost pre_call = *self;
            proof {
                StringReader::lemma_pulled_after(
                    old(self).rdr,
                    pre_call.rdr,
                    signlen + 1 + pre_call.lookahead() as int,
                );
            }
            let r = self.parse_num_next(pos, 0);
            proof {
                if r is Err {
                    let rem2 = s1.skip(1);
                    lemma_tail_fault_le(rem2);
                    if rem2.len() > 0 && rem2[0] == 46 {
                        lemma_fraction_fault_le(rem2);
                    } else if rem2.len() > 0 && (rem2[0] == 101 || rem2[0] == 69) {
                        lemma_exponent_fault_le(rem2.skip(1));
                    }
                    assert(pre_call.remaining() =~= old(self).remaining().skip(signlen + 1));
                    lemma_examined_join(
                        old(self).remaining(),
                        old(self).lookahead() as int,
                        signlen + 1,
                        pre_call.lookahead() as int,
                        tail_fault(rem2),
                    );
                }
            }
            r
        } else if c >= 49 && c <= 57 {
            let mut res: u64 = (c - 48) as u64;
            let ghost mut j: int = 1;
            proof {
                assert(s1.take(0int) =~= Seq::<u8>::empty());
                lemma_digits_val_step(s1, 0);
            }
            loop
                invariant_except_break
                    self.rdr.buffered() == 0,
                invariant
                    self.wf(),
                    old(self).wf(),
                    self.source() == old(self).source(),
                    signlen == if old(self).remaining().len() > 0 && old(self).remaining()[0]
                        == 45 {
                        1int
                    } else {
                        0int
                    },
                    if old(self).remaining().len() > 0 && old(self).remaining()[0] == 45 {
                        s1 == old(self).remaining().skip(1) && !pos
                    } else {
                        s1 == old(self).remaining() && pos
                    },
                    1 <= j <= s1.len(),
                    forall|i: int| 0 <= i < j ==> is_digit(s1[i]),
                    49 <= s1[0] <= 57,
                    res == digits_val(s1.take(j)),
                    self.remaining() == s1.skip(j),
                ensures
                    self.wf(),
                    1 <= digit_run(s1),
                    res == digits_val(s1.take(digit_run(s1) as int)),
                    self.remaining() == s1.skip(digit_run(s1) as int),
                    self.rdr.buffered() == if self.remaining().len() == 0 {
                        0nat
                    } else {
                        1nat
                    },
                decreases s1.len() - j,
            {
                let b = match self.rdr.peek_or_null() {
                    Ok(b) => b,
                    Err(e) => {
                        return Err(e);
                    },
                };
                if b >= 48 && b <= 57 {
                    proof {
                        assert(s1[j] == b);
                        lemma_digits_val_step(s1, j);
                    }
                    self.rdr.eat_char();
                    proof {
                        assert(self.remaining() =~= s1.skip(j + 1));
                    }
                    let d = (b - 48) as u64;
                    let grown = match res.checked_mul(10) {
                        Some(x) => x.checked_add(d),
                        None => None,
                    };
                    match grown {
                        Some(x) => {
                            res = x;
                            proof {
                                j = j + 1;
                            }
                        },
                        None => {
                            proof {
                                let u = s1.skip(j + 1);
                                let run2 = digit_run(u) as int;
                                lemma_digit_run_props(u);
                                lemma_digit_run_add(s1, (j + 1) as nat);
                                let run1 = digit_run(s1) as int;
                                let ds = s1.take(run1);
                                assert(ds.take(j) =~= s1.take(j));
                                assert(ds.take(j + 1) =~= s1.take(j + 1));
                                assert(digits_val(s1.take(j + 1)) > u64::MAX);
                                lemma_digits_val_mono(ds, j + 1, run1);
                                lemma_digits_val_whole(ds);
                                lemma_fit_len_is(ds, j);
                                assert(ds.skip(j) =~= seq![b] + u.take(run2));
                                assert(s1.skip(run1) =~= u.skip(run2));
                                assert(mantissa_of(ds) == MantissaView::Promoted {
                                    prefix: res,
                                    rest: seq![b] + u.take(run2),
                                });
                            }
                            let ghost pre_call = *self;
                            proof {
                                StringReader::lemma_pulled_after(
                                    old(self).rdr,
                                    pre_call.rdr,
                                    signlen + j + 1,
                                );
                            }
                            let r = self.parse_float(pos, res, b);
                            proof {
                                let u = s1.skip(j + 1);
                                let run2 = digit_run(u) as int;
                                lemma_tail_fault_le(u.skip(run2));
                                assert(u =~= old(self).remaining().skip(signlen + j + 1));
                                lemma_examined_join(
                                    old(self).remaining(),
                                    old(self).lookahead() as int,
                                    signlen + j + 1,
                                    0,
                                    run2 + tail_fault(u.skip(run2)),
                                );
                            }
                            return r;
                        },
                    }
                } else {
                    proof {
                        lemma_digit_run_is(s1, j as nat);
                    }
                    break;
                }
            }
            proof {
                lemma_digit_run_props(s1);
                lemma_digits_val_whole(s1.take(digit_run(s1) as int));
                assert(s1.take(digit_run(s1) as int).take(digit_run(s1) as int) =~= s1.take(
                    digit_run(s1) as int,
                ));
                assert(mantissa_of(s1.take(digit_run(s1) as int)) == MantissaView::Fits(res));
            }
            let ghost pre_call = *self;
            proof {
                StringReader::lemma_pulled_after(
                    old(self).rdr,
                    pre_call.rdr,
                    signlen + digit_run(s1) as int + pre_call.lookahead() as int,
                );
            }
            let r = self.parse_num_next(pos, res);
            proof {
                if r is Err {
                    let rem2 = s1.skip(digit_run(s1) as int);
                    lemma_tail_fault_le(rem2);
                    if rem2.len() > 0 && rem2[0] == 46 {
                        lemma_fraction_fault_le(rem2);
                    } else if rem2.len() > 0 && (rem2[0] == 101 || rem2[0] == 69) {
                        lemma_exponent_fault_le(rem2.skip(1));
                    }
                    assert(pre_call.remaining() =~= old(self).remaining().skip(
                        signlen + digit_run(s1) as int,
                    ));
                    lemma_examined_join(
                        old(self).remaining(),
                        old(self).lookahead() as int,
                        signlen + digit_run(s1) as int,
                        pre_call.lookahead() as int,
                        tail_fault(rem2),
                    );
                }
            }
            r
        } else {
            proof {
                old(self).rdr.lemma_shape();
                StringReader::lemma_pulled_after(
                    old(self).rdr,
                    self.rdr,
                    number_fault(old(self).remaining()),
                );
            }
            let e = self.rdr.error(ErrorCode::InvalidNumber);
            Err(e)
        }
    }

    /// The full entry point: parse one number, skip trailing insignificant
    /// content, then require the end of the input (or its zero-byte
    /// sentinel); anything else is a fault.
    ///
    /// `stop_at_next` is a documented extension point for ending the scan at
    /// a punctuator or comment opener instead of the end of the input. It is
    /// accepted for interface compatibility but has no effect yet: the scan
    /// always requires the end of the input.
    pub fn parse(&mut self, stop_at_next: bool) -> (r: Result<Number, Error>)
        requires
            old(self).wf(),
        ensures
            final(self).wf(),
            final(self).source() == old(self).source(),
            match scan_number(old(self).remaining()) {
                None => r == Err::<Number, Error>(invalid_at(final(self).scanned()))
                    && final(self).scanned() == old(self).scanned()
                    + old(self).remaining().subrange(
                    old(self).lookahead() as int,
                    number_fault(old(self).remaining()),
                ),
                Some((v, rest)) => match skip_insig(rest) {
                    None => r == Err::<Number, Error>(
                        (Error {
                            code: ErrorCode::TrailingCharacters,
                            line: (1 + line_breaks(old(self).source())) as usize,
                            col: last_line_len(old(self).source()) as usize,
                        }),
                    ) && final(self).scanned() == old(self).source(),
                    Some(tail) => if tail.len() == 0 || tail[0] == 0 {
                        r matches Ok(n) && n@ == v
                    } else {
                        r == Err::<Number, Error>(invalid_at(final(self).scanned()))
                            && final(self).scanned() == old(self).scanned()
                            + old(self).remaining().subrange(
                            old(self).lookahead() as int,
                            old(self).remaining().len() - tail.len() + 1,
                        )
                    },
                },
            },
    {
        let _ = stop_at_next;
        let v = match self.parse_integer() {
            Ok(v) => v,
            Err(e) => {
                return Err(e);
            },
        };
        let ghost rest = self.remaining();
        match self.rdr.parse_whitespace() {
            Ok(()) => {},
            Err(e) => {
                return Err(e);
            },
        }
        let ghost tail = self.remaining();
        let ch = match self.rdr.next_char_or_null() {
            Ok(ch) => ch,
            Err(e) => {
                return Err(e);
            },
        };
        if ch == 0 {
            Ok(v)
        } else {
            proof {
                lemma_scan_rest_le(old(self).remaining());
                crate::reader::lemma_skip_insig_le(rest);
                old(self).rdr.lemma_shape();
                StringReader::lemma_pulled_after(
                    old(self).rdr,
                    self.rdr,
                    old(self).remaining().len() - tail.len() + 1,
                );
            }
            let e = self.rdr.error(ErrorCode::InvalidNumber);
            Err(e)
        }
    }
}

} // verus!
