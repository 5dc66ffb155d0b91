//! Monetary amounts.
//!
//! An amount is held as an `i128` count of ten-thousandths of a unit, so
//! every value with at most four decimal places is represented exactly.
//! Text is read with `rust_decimal`, and only values with at most four
//! decimal places are accepted.

use vstd::prelude::*;
use std::str::FromStr;
use vstd::arithmetic::power::pow;

verus! {

/// The largest magnitude a balance may reach, in ten-thousandths: the
/// largest value a `rust_decimal::Decimal` can hold, `2^96 - 1`.
pub const MAX_UNITS: i128 = 792_281_625_142_643_375_935_439_503_350_000;

/// Why a piece of text was not accepted as an amount.
#[derive(Debug, Clone, Copy, PartialEq, Eq, Structural)]
pub enum AmountError {
    /// The text is not a decimal number.
    Unparsable,
    /// The number has more than four decimal places.
    TooManyDecimalPlaces,
}

#[verifier::external_type_specification]
#[verifier::external_body]
pub struct ExDecimalError(rust_decimal::Error);

/// What `rust_decimal` reads from a piece of text: its mantissa and scale,
/// the value being `mantissa / 10^scale`, or `None` where it refuses the text.
pub uninterp spec fn decimal_parse(text: Seq<char>) -> Option<(int, int)>;

/// Calls `<rust_decimal::Decimal as FromStr>::from_str` and hands back the
/// parsed number as its mantissa and scale. The result is the named
/// `decimal_parse` of the text; the mantissa is below `2^96` in magnitude,
/// as a `Decimal` keeps it in three 32-bit words.
#[verifier::external_body]
fn decimal_from_str(text: &str) -> (r: Result<(i128, u32), rust_decimal::Error>)
    ensures
        r is Ok <==> decimal_parse(text@) is Some,
        r matches Ok((m, sc)) ==> {
            &&& decimal_parse(text@) == Some((m as int, sc as int))
            &&& -0x1_0000_0000_0000_0000_0000_0000 < m < 0x1_0000_0000_0000_0000_0000_0000
        },
{
    match rust_decimal::Decimal::from_str(text) {
        Ok(d) => Ok((d.mantissa(), d.scale())),
        Err(e) => Err(e),
    }
}

/// `10^(4 - scale)`: what turns a mantissa of the given scale into
/// ten-thousandths.
pub open spec fn scale_factor(scale: int) -> int
    recommends
        0 <= scale <= 4,
{
    if scale == 0 {
        10_000
    } else if scale == 1 {
        1_000
    } else if scale == 2 {
        100
    } else if scale == 3 {
        10
    } else {
        1
    }
}

/// The amount, in ten-thousandths, that a parsed decimal stands for.
pub open spec fn units_from_parts(parsed: Option<(int, int)>) -> Result<int, AmountError> {
    match parsed {
        None => Err(AmountError::Unparsable),
        Some((m, sc)) => if 0 <= sc <= 4 {
            Ok(m * scale_factor(sc))
        } else {
            Err(AmountError::TooManyDecimalPlaces)
        },
    }
}

/// A decimal `m / 10^scale` with at most four decimal places is read as
/// exactly its value in ten-thousandths: the amount read, divided by
/// `10^4`, is `m / 10^scale`.
pub proof fn lemma_read_amount_is_decimal_value(m: int, scale: int)
    ensures
        0 <= scale <= 4 ==> (units_from_parts(Some((m, scale))) matches Ok(u) && u * pow(
            10,
            scale as nat,
        ) == m * 10_000),
        scale > 4 ==> units_from_parts(Some((m, scale))) == Err::<int, AmountError>(
            AmountError::TooManyDecimalPlaces,
        ),
        units_from_parts(None) == Err::<int, AmountError>(AmountError::Unparsable),
{
    reveal(pow);
    reveal_with_fuel(pow, 5);
    if 0 <= scale <= 4 {
        assert(pow(10, 0) == 1);
        assert(pow(10, 1) == 10);
        assert(pow(10, 2) == 100);
        assert(pow(10, 3) == 1000);
        assert(pow(10, 4) == 10000);
        let u = m * scale_factor(scale);
        if scale == 0 {
            assert(u * pow(10, 0) == m * 10_000);
        } else if scale == 1 {
            assert(u * pow(10, 1) == m * 10_000) by (nonlinear_arith)
                requires
                    u == m * 1000,
                    pow(10, 1) == 10,
            ;
        } else if scale == 2 {
            assert(u * pow(10, 2) == m * 10_000) by (nonlinear_arith)
                requires
                    u == m * 100,
                    pow(10, 2) == 100,
            ;
        } else if scale == 3 {
            assert(u * pow(10, 3) == m * 10_000) by (nonlinear_arith)
                requires
                    u == m * 10,
                    pow(10, 3) == 1000,
            ;
        } else {
            assert(u * pow(10, 4) == m * 10_000) by (nonlinear_arith)
                requires
                    u == m,
                    pow(10, 4) == 10000,
            ;
        }
    }
}

/// Turns a parsed decimal (mantissa and scale) into ten-thousandths:
/// refused text stays refused, more than four decimal places is an error.
pub fn amount_from_parts(parsed: Option<(i128, u32)>) -> (r: Result<i128, AmountError>)
    requires
        parsed matches Some((m, sc)) ==> -0x1_0000_0000_0000_0000_0000_0000 < m
            < 0x1_0000_0000_0000_0000_0000_0000,
    ensures
        match (r, units_from_parts(
            match parsed {
                Some((m, sc)) => Some((m as int, sc as int)),
                None => None,
            },
        )) {
            (Ok(u), Ok(v)) => u == v && -MAX_UNITS <= u <= MAX_UNITS,
            (Err(e), Err(f)) => e == f,
            _ => false,
        },
        match parsed {
            Some((m, sc)) => sc <= 4 ==> (r matches Ok(u) && u * pow(10, sc as nat) == m * 10_000),
            None => true,
        },
{
    proof {
        if let Some((m, sc)) = parsed {
            lemma_read_amount_is_decimal_value(m as int, sc as int);
        }
    }
    match parsed {
        None => Err(AmountError::Unparsable),
        Some((m, sc)) => {
            if sc > 4 {
                Err(AmountError::TooManyDecimalPlaces)
            } else {
                let factor: i128 = if sc == 0 {
                    10_000
                } else if sc == 1 {
                    1_000
                } else if sc == 2 {
                    100
                } else if sc == 3 {
                    10
                } else {
                    1
                };
                assert(-MAX_UNITS <= m * factor <= MAX_UNITS) by (nonlinear_arith)
                    requires
                        -0x1_0000_0000_0000_0000_0000_0000 < m < 0x1_0000_0000_0000_0000_0000_0000,
                        1 <= factor <= 10_000,
                ;
                Ok(m * factor)
            }
        },
    }
}


/// Unicode's `White_Space` property, the whitespace that `str::trim` removes.
pub open spec fn is_white_space(c: char) -> bool {
    let u = c as u32;
    ||| 0x9 <= u <= 0xD
    ||| u == 0x20
    ||| u == 0x85
    ||| u == 0xA0
    ||| u == 0x1680
    ||| 0x2000 <= u <= 0x200A
    ||| u == 0x2028
    ||| u == 0x2029
    ||| u == 0x202F
    ||| u == 0x205F
    ||| u == 0x3000
}

/// Whether a character is whitespace in Unicode's sense.
pub fn white_space(c: char) -> (r: bool)
    ensures
        r == is_white_space(c),
{
    let u = c as u32;
    (0x9 <= u && u <= 0xD) || u == 0x20 || u == 0x85 || u == 0xA0 || u == 0x1680 || (0x2000 <= u
        && u <= 0x200A) || u == 0x2028 || u == 0x2029 || u == 0x202F || u == 0x205F || u == 0x3000
}

/// The text without its leading whitespace.
pub open spec fn trim_start(s: Seq<char>) -> Seq<char>
    decreases s.len(),
{
    if s.len() > 0 && is_white_space(s[0]) {
        trim_start(s.drop_first())
    } else {
        s
    }
}

/// The text without its trailing whitespace.
pub open spec fn trim_end(s: Seq<char>) -> Seq<char>
    decreases s.len(),
{
    if s.len() > 0 && is_white_space(s.last()) {
        trim_end(s.drop_last())
    } else {
        s
    }
}

/// The text without whitespace at either end.
pub open spec fn trimmed(s: Seq<char>) -> Seq<char> {
    trim_end(trim_start(s))
}

proof fn lemma_trim_start_skip(s: Seq<char>, i: int)
    requires
        0 <= i <= s.len(),
        forall|k: int| 0 <= k < i ==> is_white_space(#[trigger] s[k]),
    ensures
        trim_start(s) == trim_start(s.subrange(i, s.len() as int)),
    decreases i,
{
    if i > 0 {
        assert(s.drop_first() == s.subrange(1, s.len() as int));
        lemma_trim_start_skip(s.drop_first(), i - 1);
        assert(s.drop_first().subrange(i - 1, s.drop_first().len() as int) == s.subrange(
            i,
            s.len() as int,
        ));
    } else {
        assert(s.subrange(0, s.len() as int) == s);
    }
}

proof fn lemma_trim_end_cut(s: Seq<char>, j: int)
    requires
        0 <= j <= s.len(),
        forall|k: int| j <= k < s.len() ==> is_white_space(#[trigger] s[k]),
    ensures
        trim_end(s) == trim_end(s.subrange(0, j)),
    decreases s.len() - j,
{
    if j < s.len() {
        assert(s.drop_last() == s.subrange(0, s.len() - 1));
        lemma_trim_end_cut(s.drop_last(), j);
        assert(s.drop_last().subrange(0, j) == s.subrange(0, j));
    } else {
        assert(s.subrange(0, s.len() as int) == s);
    }
}

proof fn lemma_trim_start_shape(s: Seq<char>) -> (i: int)
    ensures
        0 <= i <= s.len(),
        trim_start(s) == s.subrange(i, s.len() as int),
        forall|k: int| 0 <= k < i ==> is_white_space(#[trigger] s[k]),
        i < s.len() ==> !is_white_space(s[i]),
    decreases s.len(),
{
    if s.len() > 0 && is_white_space(s[0]) {
        let i0 = lemma_trim_start_shape(s.drop_first());
        assert(s.drop_first().subrange(i0, s.drop_first().len() as int) == s.subrange(
            i0 + 1,
            s.len() as int,
        ));
        assert forall|k: int| 0 <= k < i0 + 1 implies is_white_space(#[trigger] s[k]) by {
            if k > 0 {
                assert(s[k] == s.drop_first()[k - 1]);
            }
        }
        i0 + 1
    } else {
        assert(s.subrange(0, s.len() as int) == s);
        0
    }
}

proof fn lemma_trim_end_shape(s: Seq<char>) -> (j: int)
    ensures
        0 <= j <= s.len(),
        trim_end(s) == s.subrange(0, j),
        forall|k: int| j <= k < s.len() ==> is_white_space(#[trigger] s[k]),
        j > 0 ==> !is_white_space(s[j - 1]),
    decreases s.len(),
{
    if s.len() > 0 && is_white_space(s.last()) {
        let j0 = lemma_trim_end_shape(s.drop_last());
        assert(s.drop_last().subrange(0, j0) == s.subrange(0, j0));
        assert forall|k: int| j0 <= k < s.len() implies is_white_space(#[trigger] s[k]) by {
            if k < s.len() - 1 {
                assert(s[k] == s.drop_last()[k]);
            }
        }
        j0
    } else {
        assert(s.subrange(0, s.len() as int) == s);
        s.len() as int
    }
}

/// Trimming removes whitespace at both ends and nothing else: the trimmed
/// text is the part of the text from `i` to `j`, everything before `i` and
/// from `j` on is whitespace, and the trimmed text neither starts nor ends
/// with whitespace.
pub proof fn trimming_removes_only_outer_whitespace(s: Seq<char>) -> (cut: (int, int))
    ensures
        0 <= cut.0 <= cut.1 <= s.len(),
        trimmed(s) == s.subrange(cut.0, cut.1),
        forall|k: int| 0 <= k < cut.0 ==> is_white_space(#[trigger] s[k]),
        forall|k: int| cut.1 <= k < s.len() ==> is_white_space(#[trigger] s[k]),
        cut.0 < cut.1 ==> !is_white_space(s[cut.0]) && !is_white_space(s[cut.1 - 1]),
{
    let i = lemma_trim_start_shape(s);
    let rest = s.subrange(i, s.len() as int);
    let j0 = lemma_trim_end_shape(rest);
    assert(rest.subrange(0, j0) == s.subrange(i, i + j0));
    assert forall|k: int| i + j0 <= k < s.len() implies is_white_space(#[trigger] s[k]) by {
        assert(s[k] == rest[k - i]);
    }
    if j0 > 0 {
        assert(rest[0] == s[i]);
        assert(rest[j0 - 1] == s[i + j0 - 1]);
    }
    (i, i + j0)
}

/// The text with the whitespace at both ends removed, as `str::trim` does.
pub fn trim_text(s: &str) -> (r: &str)
    ensures
        r@ == trimmed(s@),
{
    let n = s.unicode_len();
    let mut i: usize = 0;
    while i < n && white_space(s.get_char(i))
        invariant
            n == s@.len(),
            i <= n,
            forall|k: int| 0 <= k < i ==> is_white_space(#[trigger] s@[k]),
        decreases n - i,
    {
        i = i + 1;
    }
    let ghost rest = s@.subrange(i as int, n as int);
    proof {
        lemma_trim_start_skip(s@, i as int);
        if i < n {
            assert(rest[0] == s@[i as int]);
        }
        assert(trim_start(rest) == rest);
    }
    let mut j: usize = n;
    while j > i && white_space(s.get_char(j - 1))
        invariant
            n == s@.len(),
            i <= j <= n,
            forall|k: int| j <= k < n ==> is_white_space(#[trigger] s@[k]),
        decreases j,
    {
        j = j - 1;
    }
    proof {
        let jj = j - i;
        assert forall|k: int| jj <= k < rest.len() implies is_white_space(#[trigger] rest[k]) by {
            assert(rest[k] == s@[k + i]);
        }
        lemma_trim_end_cut(rest, jj);
        let kept = rest.subrange(0, jj);
        assert(kept == s@.subrange(i as int, j as int));
        if jj > 0 {
            assert(kept.last() == s@[j - 1]);
        }
        assert(trim_end(kept) == kept);
    }
    s.substring_char(i, j)
}

/// The amount that the text of an optional amount field stands for: blank
/// text (only whitespace) is no amount, anything else must be a decimal
/// number with at most four decimal places.
pub open spec fn optional_amount(text: Seq<char>) -> Result<Option<int>, AmountError> {
    let t = trimmed(text);
    if t.len() == 0 {
        Ok(None)
    } else {
        match units_from_parts(decimal_parse(t)) {
            Ok(u) => Ok(Some(u)),
            Err(e) => Err(e),
        }
    }
}

/// Reads an optional amount field: blank text gives `None`, a decimal with
/// at most four decimal places gives its value in ten-thousandths, and
/// anything else is an error.
pub fn parse_optional_amount(text: &str) -> (r: Result<Option<i128>, AmountError>)
    ensures
        match (r, optional_amount(text@)) {
            (Ok(Some(u)), Ok(Some(v))) => u == v && -MAX_UNITS <= u <= MAX_UNITS,
            (Ok(None), Ok(None)) => true,
            (Err(e), Err(f)) => e == f,
            _ => false,
        },
        trimmed(text@).len() == 0 ==> r == Ok::<Option<i128>, AmountError>(None),
        trimmed(text@).len() > 0 ==> match decimal_parse(trimmed(text@)) {
            None => r == Err::<Option<i128>, AmountError>(AmountError::Unparsable),
            Some((m, sc)) => if 0 <= sc <= 4 {
                r matches Ok(Some(u)) && u * pow(10, sc as nat) == m * 10_000
            } else {
                r == Err::<Option<i128>, AmountError>(AmountError::TooManyDecimalPlaces)
            },
        },
{
    proof {
        if let Some((m, sc)) = decimal_parse(trimmed(text@)) {
            lemma_read_amount_is_decimal_value(m, sc);
        }
        lemma_read_amount_is_decimal_value(0, 0);
    }
    let t = trim_text(text);
    if t.unicode_len() == 0 {
        return Ok(None);
    }
    let parsed = match decimal_from_str(t) {
        Ok(p) => Some(p),
        Err(_) => None,
    };
    match amount_from_parts(parsed) {
        Ok(u) => Ok(Some(u)),
        Err(e) => Err(e),
    }
}


/// The character of a decimal digit.
pub open spec fn digit(d: int) -> char {
    if d == 0 {
        '0'
    } else if d == 1 {
        '1'
    } else if d == 2 {
        '2'
    } else if d == 3 {
        '3'
    } else if d == 4 {
        '4'
    } else if d == 5 {
        '5'
    } else if d == 6 {
        '6'
    } else if d == 7 {
        '7'
    } else if d == 8 {
        '8'
    } else {
        '9'
    }
}

/// The decimal digits of a natural number, most significant first, with
/// no leading zeros (zero is the single digit `0`).
pub open spec fn decimal_digits(n: nat) -> Seq<char>
    decreases n,
{
    if n < 10 {
        seq![digit(n as int)]
    } else {
        decimal_digits(n / 10).push(digit((n % 10) as int))
    }
}

/// The text of an amount given in ten-thousandths, with exactly four
/// decimal places: a `-` for a negative amount, the digits of the whole
/// part, a `.`, and the four digits of the fraction.
pub open spec fn amount_text(units: int) -> Seq<char> {
    let m = if units < 0 {
        -units
    } else {
        units
    };
    let sign = if units < 0 {
        seq!['-']
    } else {
        Seq::<char>::empty()
    };
    sign + decimal_digits((m / 10_000) as nat) + seq![
        '.',
        digit((m / 1000) % 10),
        digit((m / 100) % 10),
        digit((m / 10) % 10),
        digit(m % 10),
    ]
}

/// Whether a character is one of the decimal digits `0` to `9`.
pub open spec fn is_digit(c: char) -> bool {
    48 <= c as u32 <= 57
}

/// The value of a decimal digit character.
pub open spec fn digit_value(c: char) -> int {
    c as u32 - 48
}

/// The value of a sequence of decimal digits, most significant first.
pub open spec fn digits_value(d: Seq<char>) -> int
    decreases d.len(),
{
    if d.len() == 0 {
        0
    } else {
        digits_value(d.drop_last()) * 10 + digit_value(d.last())
    }
}

proof fn lemma_digit(d: int)
    requires
        0 <= d <= 9,
    ensures
        is_digit(digit(d)),
        digit_value(digit(d)) == d,
{
}

proof fn lemma_decimal_digits(n: nat)
    ensures
        decimal_digits(n).len() >= 1,
        forall|i: int| 0 <= i < decimal_digits(n).len() ==> is_digit(#[trigger] decimal_digits(n)[i]),
        digits_value(decimal_digits(n)) == n,
        n > 0 ==> digit_value(decimal_digits(n)[0]) > 0,
    decreases n,
{
    let d = decimal_digits(n);
    if n < 10 {
        lemma_digit(n as int);
        assert(d.drop_last() == Seq::<char>::empty());
        assert(d.last() == digit(n as int));
        assert(digits_value(d) == digits_value(d.drop_last()) * 10 + digit_value(d.last()));
    } else {
        let q = (n / 10) as nat;
        lemma_decimal_digits(q);
        lemma_digit((n % 10) as int);
        assert(d.drop_last() == decimal_digits(q));
        assert(d.last() == digit((n % 10) as int));
        assert(digits_value(d) == digits_value(d.drop_last()) * 10 + digit_value(d.last()));
        assert(q * 10 + n % 10 == n);
        assert(d[0] == decimal_digits(q)[0]);
        assert forall|i: int| 0 <= i < d.len() implies is_digit(#[trigger] d[i]) by {
            if i < d.len() - 1 {
                assert(d[i] == decimal_digits(q)[i]);
            }
        }
    }
}

/// The text of an amount shows its value: after a `-` exactly for a
/// negative amount come the digits of the whole part (no leading zero), a
/// `.`, and four digits, and whole part times `10^4` plus the four digits
/// is the amount's magnitude in ten-thousandths.
pub proof fn amount_text_shows_the_value(units: int)
    ensures
        ({
            let t = amount_text(units);
            let m = if units < 0 {
                -units
            } else {
                units
            };
            let k: int = if units < 0 {
                1
            } else {
                0
            };
            let whole = t.subrange(k, t.len() - 5);
            let frac = t.subrange(t.len() - 4, t.len() as int);
            &&& t.len() >= k + 6
            &&& (units < 0 <==> t[0] == '-')
            &&& t[t.len() - 5] == '.'
            &&& forall|i: int| 0 <= i < whole.len() ==> is_digit(#[trigger] whole[i])
            &&& forall|i: int| 0 <= i < 4 ==> is_digit(#[trigger] frac[i])
            &&& whole.len() > 1 ==> digit_value(whole[0]) != 0
            &&& digits_value(whole) * 10_000 + digits_value(frac) == m
        }),
{
    let t = amount_text(units);
    let m = if units < 0 {
        -units
    } else {
        units
    };
    let k: int = if units < 0 {
        1
    } else {
        0
    };
    let w = decimal_digits((m / 10_000) as nat);
    lemma_decimal_digits((m / 10_000) as nat);
    let d1 = (m / 1000) % 10;
    let d2 = (m / 100) % 10;
    let d3 = (m / 10) % 10;
    let d4 = m % 10;
    lemma_digit(d1);
    lemma_digit(d2);
    lemma_digit(d3);
    lemma_digit(d4);
    let tail = seq!['.', digit(d1), digit(d2), digit(d3), digit(d4)];
    let sign = if units < 0 {
        seq!['-']
    } else {
        Seq::<char>::empty()
    };
    assert(t == sign + w + tail);
    let whole = t.subrange(k, t.len() - 5);
    let frac = t.subrange(t.len() - 4, t.len() as int);
    assert(whole == w);
    assert(frac == seq![digit(d1), digit(d2), digit(d3), digit(d4)]);
    if units >= 0 {
        assert(is_digit(w[0]));
        assert(t[0] == w[0]);
    }
    reveal_with_fuel(digits_value, 5);
    assert(frac.drop_last() == seq![digit(d1), digit(d2), digit(d3)]);
    assert(frac.drop_last().drop_last() == seq![digit(d1), digit(d2)]);
    assert(frac.drop_last().drop_last().drop_last() == seq![digit(d1)]);
    assert(frac.drop_last().drop_last().drop_last().drop_last() == Seq::<char>::empty());
    assert(digits_value(frac) == ((d1 * 10 + d2) * 10 + d3) * 10 + d4);
    assert((m / 10_000) * 10_000 + ((d1 * 10 + d2) * 10 + d3) * 10 + d4 == m) by (nonlinear_arith)
        requires
            m >= 0,
            d1 == (m / 1000) % 10,
            d2 == (m / 100) % 10,
            d3 == (m / 10) % 10,
            d4 == m % 10,
    ;
}

/// The one-character text of a digit.
fn digit_text(d: u128) -> (r: &'static str)
    requires
        d < 10,
    ensures
        r@ == seq![digit(d as int)],
{
    proof {
        reveal_strlit("0");
        reveal_strlit("1");
        reveal_strlit("2");
        reveal_strlit("3");
        reveal_strlit("4");
        reveal_strlit("5");
        reveal_strlit("6");
        reveal_strlit("7");
        reveal_strlit("8");
        reveal_strlit("9");
    }
    if d == 0 {
        "0"
    } else if d == 1 {
        "1"
    } else if d == 2 {
        "2"
    } else if d == 3 {
        "3"
    } else if d == 4 {
        "4"
    } else if d == 5 {
        "5"
    } else if d == 6 {
        "6"
    } else if d == 7 {
        "7"
    } else if d == 8 {
        "8"
    } else {
        "9"
    }
}

/// Appends the decimal digits of `n`.
fn push_digits(text: &mut String, n: u128)
    ensures
        final(text)@ == old(text)@ + decimal_digits(n as nat),
    decreases n,
{
    if n >= 10 {
        push_digits(text, n / 10);
    }
    text.append(digit_text(n % 10));
    proof {
        if n >= 10 {
            assert(old(text)@ + decimal_digits((n / 10) as nat) + seq![digit((n % 10) as int)]
                == old(text)@ + decimal_digits(n as nat));
        } else {
            assert(n % 10 == n);
        }
    }
}

/// The text of an amount in ten-thousandths with exactly four decimal
/// places, as written for account balances (`1.5000`, `-0.2500`).
pub fn format_amount(units: i128) -> (r: String)
    ensures
        r@ == amount_text(units as int),
{
    let m: u128 = if units < 0 {
        ((-(units + 1)) as u128) + 1
    } else {
        units as u128
    };
    let mut text = String::new();
    proof {
        reveal_strlit("-");
        reveal_strlit(".");
    }
    if units < 0 {
        text.append("-");
    }
    push_digits(&mut text, m / 10_000);
    text.append(".");
    text.append(digit_text((m / 1000) % 10));
    text.append(digit_text((m / 100) % 10));
    text.append(digit_text((m / 10) % 10));
    text.append(digit_text(m % 10));
    assert(text@ == amount_text(units as int));
    text
}

} // verus!
