use vstd::prelude::*;

verus! {

/// Whether `b` is an ASCII decimal digit.
pub open spec fn is_digit(b: u8) -> bool {
    48 <= b <= 57
}

/// The numeric value of an ASCII digit; zero for any other byte.
pub open spec fn digit_val(b: u8) -> nat {
    if is_digit(b) {
        (b - 48) as nat
    } else {
        0
    }
}

/// The number read from a digit sequence by left-to-right decimal
/// accumulation.
pub open spec fn digits_val(ds: Seq<u8>) -> nat
    decreases ds.len(),
{
    if ds.len() == 0 {
        0
    } else {
        digits_val(ds.drop_last()) * 10 + digit_val(ds.last())
    }
}

/// The length of the longest all-digit prefix of `s`.
pub open spec fn digit_run(s: Seq<u8>) -> nat
    decreases s.len(),
{
    if s.len() > 0 && is_digit(s[0]) {
        1 + digit_run(s.skip(1))
    } else {
        0
    }
}

/// The length of the longest prefix of `ds` whose value still fits in a
/// 64-bit unsigned integer.
pub open spec fn fit_len(ds: Seq<u8>) -> nat
    decreases ds.len(),
{
    if digits_val(ds) <= u64::MAX {
        ds.len()
    } else {
        fit_len(ds.drop_last())
    }
}

/// The ASCII decimal text of `n`, without leading zeros.
pub open spec fn dec_digits(n: nat) -> Seq<u8>
    decreases n,
{
    if n < 10 {
        seq![(48 + n) as u8]
    } else {
        dec_digits(n / 10).push((48 + n % 10) as u8)
    }
}

pub proof fn lemma_digit_run_props(s: Seq<u8>)
    ensures
        digit_run(s) <= s.len(),
        forall|i: int| 0 <= i < digit_run(s) ==> is_digit(s[i]),
        digit_run(s) < s.len() ==> !is_digit(s[digit_run(s) as int]),
    decreases s.len(),
{
    if s.len() > 0 && is_digit(s[0]) {
        lemma_digit_run_props(s.skip(1));
        assert(forall|i: int|
            0 < i < digit_run(s) ==> s[i] == s.skip(1)[i - 1] && is_digit(s.skip(1)[i - 1]));
    }
}

pub proof fn lemma_digit_run_at_least(s: Seq<u8>, j: nat)
    requires
        j <= s.len(),
        forall|i: int| 0 <= i < j ==> is_digit(s[i]),
    ensures
        digit_run(s) >= j,
    decreases j,
{
    if j > 0 {
        lemma_digit_run_at_least(s.skip(1), (j - 1) as nat);
    }
}

pub proof fn lemma_digit_run_add(s: Seq<u8>, k: nat)
    requires
        k <= s.len(),
        forall|i: int| 0 <= i < k ==> is_digit(s[i]),
    ensures
        digit_run(s) == k + digit_run(s.skip(k as int)),
    decreases k,
{
    if k > 0 {
        lemma_digit_run_add(s.skip(1), (k - 1) as nat);
        assert(s.skip(1).skip(k - 1) =~= s.skip(k as int));
    } else {
        assert(s.skip(0) =~= s);
    }
}

pub proof fn lemma_digit_run_is(s: Seq<u8>, j: nat)
    requires
        j <= s.len(),
        forall|i: int| 0 <= i < j ==> is_digit(s[i]),
        j == s.len() || !is_digit(s[j as int]),
    ensures
        digit_run(s) == j,
    decreases s.len(),
{
    if j == 0 {
    } else {
        lemma_digit_run_is(s.skip(1), (j - 1) as nat);
    }
}

pub proof fn lemma_digits_val_step(s: Seq<u8>, j: int)
    requires
        0 <= j < s.len(),
    ensures
        digits_val(s.take(j + 1)) == digits_val(s.take(j)) * 10 + digit_val(s[j]),
{
    assert(s.take(j + 1).drop_last() =~= s.take(j));
    assert(s.take(j + 1).last() == s[j]);
}

pub proof fn lemma_digits_val_mono(s: Seq<u8>, i: int, j: int)
    requires
        0 <= i <= j <= s.len(),
    ensures
        digits_val(s.take(i)) <= digits_val(s.take(j)),
    decreases j - i,
{
    if i < j {
        lemma_digits_val_mono(s, i + 1, j);
        lemma_digits_val_step(s, i);
    }
}

pub proof fn lemma_digits_val_whole(s: Seq<u8>)
    ensures
        digits_val(s.take(s.len() as int)) == digits_val(s),
{
    assert(s.take(s.len() as int) =~= s);
}

/// The fit length is exactly the split where decimal accumulation first
/// leaves the 64-bit unsigned range.
pub proof fn lemma_fit_len_is(ds: Seq<u8>, j: int)
    requires
        0 <= j < ds.len(),
        digits_val(ds.take(j)) <= u64::MAX,
        digits_val(ds.take(j + 1)) > u64::MAX,
    ensures
        fit_len(ds) == j,
    decreases ds.len(),
{
    lemma_digits_val_mono(ds, j + 1, ds.len() as int);
    lemma_digits_val_whole(ds);
    assert(digits_val(ds) > u64::MAX);
    assert(fit_len(ds) == fit_len(ds.drop_last()));
    if j + 1 == ds.len() {
        assert(ds.drop_last() =~= ds.take(j));
        assert(digits_val(ds.drop_last()) <= u64::MAX);
        assert(fit_len(ds.drop_last()) == ds.drop_last().len());
    } else {
        assert(ds.drop_last() =~= ds.take(ds.len() - 1));
        lemma_digits_val_mono(ds, j + 1, ds.len() - 1);
        assert(ds.drop_last().take(j) =~= ds.take(j));
        assert(ds.drop_last().take(j + 1) =~= ds.take(j + 1));
        lemma_fit_len_is(ds.drop_last(), j);
    }
}

pub proof fn lemma_fit_len_props(ds: Seq<u8>)
    requires
        digits_val(ds) > u64::MAX,
    ensures
        fit_len(ds) < ds.len(),
        digits_val(ds.take(fit_len(ds) as int)) <= u64::MAX,
        digits_val(ds.take(fit_len(ds) as int + 1)) > u64::MAX,
    decreases ds.len(),
{
    lemma_digits_val_whole(ds);
    if digits_val(ds.drop_last()) > u64::MAX {
        lemma_fit_len_props(ds.drop_last());
        assert(ds.drop_last() =~= ds.take(ds.len() - 1));
        assert(ds.drop_last().take(fit_len(ds) as int) =~= ds.take(fit_len(ds) as int));
        assert(ds.drop_last().take(fit_len(ds) as int + 1) =~= ds.take(fit_len(ds) as int + 1));
    } else {
        assert(ds.drop_last() =~= ds.take(ds.len() - 1));
        assert(fit_len(ds) == fit_len(ds.drop_last()));
        assert(fit_len(ds.drop_last()) == ds.drop_last().len());
        assert(fit_len(ds) == ds.len() - 1);
    }
}

pub proof fn lemma_dec_digits_val(n: nat)
    ensures
        digits_val(dec_digits(n)) == n,
    decreases n,
{
    if n < 10 {
        assert(is_digit((48 + n) as u8));
        assert(dec_digits(n).last() == (48 + n) as u8);
        assert(dec_digits(n).drop_last() =~= Seq::<u8>::empty());
        assert(digits_val(Seq::<u8>::empty()) == 0);
    } else {
        lemma_dec_digits_val(n / 10);
        assert(is_digit((48 + n % 10) as u8));
        assert(dec_digits(n).last() == (48 + n % 10) as u8);
        assert(dec_digits(n).drop_last() =~= dec_digits(n / 10));
    }
}

pub proof fn lemma_dec_digits_shape(n: nat)
    ensures
        dec_digits(n).len() >= 1,
        forall|i: int| 0 <= i < dec_digits(n).len() ==> is_digit(dec_digits(n)[i]),
        n > 0 ==> dec_digits(n)[0] != 48,
    decreases n,
{
    if n >= 10 {
        lemma_dec_digits_shape(n / 10);
    }
}

/// An all-digit block followed by a non-digit (or nothing) is exactly the
/// digit run of the concatenation.
pub proof fn lemma_digit_run_concat(ds: Seq<u8>, t: Seq<u8>)
    requires
        forall|i: int| 0 <= i < ds.len() ==> is_digit(ds[i]),
        t.len() == 0 || !is_digit(t[0]),
    ensures
        digit_run(ds + t) == ds.len(),
{
    assert forall|i: int| 0 <= i < ds.len() implies is_digit((ds + t)[i]) by {
        assert((ds + t)[i] == ds[i]);
    }
    if ds.len() < (ds + t).len() {
        assert((ds + t)[ds.len() as int] == t[0]);
    }
    lemma_digit_run_is(ds + t, ds.len());
}

pub proof fn lemma_take_concat(ds: Seq<u8>, t: Seq<u8>, j: int)
    requires
        0 <= j <= ds.len(),
    ensures
        (ds + t).take(j) == ds.take(j),
{
    assert((ds + t).take(j) =~= ds.take(j));
}

pub proof fn lemma_skip_concat(ds: Seq<u8>, t: Seq<u8>)
    ensures
        (ds + t).skip(ds.len() as int) == t,
{
    assert((ds + t).skip(ds.len() as int) =~= t);
}

} // verus!
