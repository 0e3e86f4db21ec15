//! Exact decimal amounts with four fractional digits.

use crate::error::ParsingError;
use vstd::arithmetic::div_mod::{
    lemma_div_denominator, lemma_fundamental_div_mod, lemma_fundamental_div_mod_converse,
};
use vstd::prelude::*;
use vstd::string::{is_ascii_spec_bytes, StringExecFns};

verus! {

/// How many ten-thousandths make one unit.
pub const UNIT_MULTIPLIER: u64 = 10000;

/// A non-negative amount of money, counted in ten-thousandths of a unit.
#[derive(Debug, Clone, Copy, PartialEq, Eq, Structural, Ord, Hash)]
pub struct Amount(pub u64);

impl View for Amount {
    type V = nat;

    /// The number of ten-thousandths that the amount stands for.
    open spec fn view(&self) -> nat {
        self.0 as nat
    }
}

impl From<u64> for Amount {
    /// The amount of `v` ten-thousandths.
    fn from(v: u64) -> (r: Amount) {
        Amount(v)
    }
}

impl vstd::std_specs::convert::FromSpecImpl<u64> for Amount {
    open spec fn obeys_from_spec() -> bool {
        true
    }

    open spec fn from_spec(v: u64) -> Amount {
        Amount(v)
    }
}

impl core::ops::Add for Amount {
    type Output = Amount;

    /// The sum of two amounts; it has to fit the representation.
    fn add(self, rhs: Amount) -> (r: Amount) {
        Amount(self.0 + rhs.0)
    }
}

impl vstd::std_specs::ops::AddSpecImpl for Amount {
    open spec fn obeys_add_spec() -> bool {
        true
    }

    open spec fn add_req(self, rhs: Amount) -> bool {
        self@ + rhs@ <= u64::MAX
    }

    open spec fn add_spec(self, rhs: Amount) -> Amount {
        Amount((self@ + rhs@) as u64)
    }
}

impl Amount {
    /// Adds `rhs` in place.
    pub fn add_assign(&mut self, rhs: Amount)
        requires
            old(self)@ + rhs@ <= u64::MAX,
        ensures
            final(self)@ == old(self)@ + rhs@,
    {
        self.0 = self.0 + rhs.0;
    }

    /// The difference, or `None` where `rhs` is the larger: no amount is negative.
    pub fn checked_sub(&self, rhs: Amount) -> (r: Option<Amount>)
        ensures
            r is Some <==> rhs@ <= self@,
            r is Some ==> r.unwrap()@ == self@ - rhs@,
    {
        if self.0 >= rhs.0 {
            Some(Amount(self.0 - rhs.0))
        } else {
            None
        }
    }
}

impl Default for Amount {
    /// The amount of nothing.
    fn default() -> (r: Amount)
        ensures
            r == Amount(0),
    {
        Amount(0)
    }
}

/// Whether `c` is one of the ten decimal digits.
pub open spec fn is_digit(c: char) -> bool {
    '0' <= c <= '9'
}

/// The number that the digit `c` stands for.
pub open spec fn digit_value(c: char) -> nat {
    (c as int - '0' as int) as nat
}

/// The number that a sequence of digits denotes; leading zeros count for nothing.
pub open spec fn decimal_value(digits: Seq<char>) -> nat
    decreases digits.len(),
{
    if digits.len() == 0 {
        0
    } else {
        decimal_value(digits.drop_last()) * 10 + digit_value(digits.last())
    }
}

/// Whether `text` is a decimal with `p` digits before the point: at least one
/// digit, then either nothing, or a `.` followed by digits only.
pub open spec fn is_decimal_split(text: Seq<char>, p: int) -> bool {
    &&& 0 < p <= text.len()
    &&& forall|i: int| 0 <= i < p ==> is_digit(#[trigger] text[i])
    &&& p < text.len() ==> text[p] == '.' && forall|i: int|
        p < i < text.len() ==> is_digit(#[trigger] text[i])
}

/// Whether `text` is a decimal amount.
pub open spec fn is_decimal_text(text: Seq<char>) -> bool {
    exists|p: int| is_decimal_split(text, p)
}

/// The number of digits before the point of a decimal text.
pub open spec fn units_len(text: Seq<char>) -> int {
    choose|p: int| is_decimal_split(text, p)
}

/// The digits before the point.
pub open spec fn units_of(text: Seq<char>) -> Seq<char> {
    text.take(units_len(text))
}

/// The digits after the point; none where the text has no point.
pub open spec fn fraction_of(text: Seq<char>) -> Seq<char> {
    if units_len(text) < text.len() {
        text.skip(units_len(text) + 1)
    } else {
        Seq::empty()
    }
}

/// The first four digits of a fraction, zeros standing in for missing ones.
pub open spec fn four_digits(fraction: Seq<char>) -> Seq<char> {
    (fraction + seq!['0', '0', '0', '0']).take(4)
}

/// The number of ten-thousandths that a decimal text denotes: digits of the
/// fraction beyond the fourth are cut off, not rounded.
pub open spec fn text_value(text: Seq<char>) -> nat {
    decimal_value(units_of(text)) * 10000 + decimal_value(four_digits(fraction_of(text)))
}

/// A decimal text splits at one place only.
pub proof fn lemma_split_is_unique(text: Seq<char>, p: int)
    requires
        is_decimal_split(text, p),
    ensures
        is_decimal_text(text),
        units_len(text) == p,
{
    let q = units_len(text);
    assert(is_decimal_split(text, q));
    if q < p {
        assert(is_digit(text[q]));
    }
    if p < q {
        assert(is_digit(text[p]));
    }
}

/// Reading one more digit multiplies by ten and adds the digit.
pub proof fn lemma_decimal_value_step(digits: Seq<char>, n: int)
    requires
        0 <= n < digits.len(),
    ensures
        decimal_value(digits.take(n + 1)) == decimal_value(digits.take(n)) * 10 + digit_value(
            digits[n],
        ),
{
    assert(digits.take(n + 1).drop_last() =~= digits.take(n));
}

/// The largest count of whole units whose ten-thousandths may still fit.
pub const UNITS_LIMIT: u64 = 1844674407370955;

/// The ASCII code of the digit `0`.
const ZERO: u8 = 48;

/// The ASCII code of the digit `9`.
const NINE: u8 = 57;

/// The ASCII code of the decimal point.
const POINT: u8 = 46;

fn is_digit_byte(b: u8) -> (r: bool)
    ensures
        r == (ZERO <= b <= NINE),
{
    b >= ZERO && b <= NINE
}

/// Reads a decimal text as a count of ten-thousandths. The text is a run of
/// at least one digit, optionally followed by `.` and any number of digits.
pub fn to_inner(value: &str) -> (r: Result<u64, ParsingError>)
    ensures
        r is Ok <==> is_decimal_text(value@) && text_value(value@) <= u64::MAX,
        r is Ok ==> r.unwrap() == text_value(value@),
{
    broadcast use is_ascii_spec_bytes;

    let ghost text = value@;
    if !value.is_ascii() {
        proof {
            let i = choose|i: int| 0 <= i < text.len() && !('\0' <= #[trigger] text[i] <= '\u{7f}');
            assert forall|p: int| !is_decimal_split(text, p) by {
                if is_decimal_split(text, p) {
                    assert(is_digit(text[i]) || text[i] == '.');
                }
            }
        }
        return Err(ParsingError());
    }
    let bytes = value.as_bytes();
    let n = bytes.len();
    assert(n == text.len());
    assert(forall|j: int| 0 <= j < n ==> bytes@[j] == #[trigger] text[j] as u8);
    assert(forall|j: int| 0 <= j < n ==> '\0' <= #[trigger] text[j] <= '\u{7f}');
    let mut i: usize = 0;
    let mut units: u64 = 0;
    let mut too_big = false;
    while i < n && is_digit_byte(bytes[i])
        invariant
            i <= n,
            n == text.len(),
            n == bytes@.len(),
            forall|j: int| 0 <= j < n ==> bytes@[j] == #[trigger] text[j] as u8,
            forall|j: int| 0 <= j < n ==> '\0' <= #[trigger] text[j] <= '\u{7f}',
            forall|j: int| 0 <= j < i ==> is_digit(#[trigger] text[j]),
            too_big ==> decimal_value(text.take(i as int)) > UNITS_LIMIT,
            !too_big ==> units == decimal_value(text.take(i as int)) && units <= UNITS_LIMIT,
        decreases n - i,
    {
        let d: u64 = (bytes[i] - ZERO) as u64;
        proof {
            lemma_decimal_value_step(text, i as int);
            assert(d == digit_value(text[i as int]));
        }
        if !too_big {
            units = units * 10 + d;
            if units > UNITS_LIMIT {
                too_big = true;
            }
        }
        i += 1;
    }
    let p = i;
    if p == 0 {
        proof {
            assert forall|q: int| !is_decimal_split(text, q) by {
                if is_decimal_split(text, q) {
                    assert(is_digit(text[0]));
                }
            }
        }
        return Err(ParsingError());
    }
    let mut frac: u64 = 0;
    let mut count: usize = 0;
    if p < n {
        if bytes[p] != POINT {
            proof {
                assert(!is_digit(text[p as int]) && text[p as int] != '.');
                assert forall|q: int| !is_decimal_split(text, q) by {
                    if is_decimal_split(text, q) {
                        if q < p {
                            assert(is_digit(text[q]));
                        }
                    }
                }
            }
            return Err(ParsingError());
        }
        let mut k: usize = p + 1;
        while k < n
            invariant
                0 < p < k <= n,
                text == value@,
                n == text.len(),
                n == bytes@.len(),
                text[p as int] == '.',
                forall|j: int| 0 <= j < n ==> bytes@[j] == #[trigger] text[j] as u8,
                forall|j: int| 0 <= j < n ==> '\0' <= #[trigger] text[j] <= '\u{7f}',
                forall|j: int| 0 <= j < p ==> is_digit(#[trigger] text[j]),
                forall|j: int| p < j < k ==> is_digit(#[trigger] text[j]),
                count <= 4,
                count == if k - p - 1 < 4 { k - p - 1 } else { 4 },
                frac == decimal_value(four_digits(text.skip(p + 1)).take(count as int)),
                count == 0 ==> frac == 0,
                count == 1 ==> frac < 10,
                count == 2 ==> frac < 100,
                count == 3 ==> frac < 1000,
                count == 4 ==> frac < 10000,
            decreases n - k,
        {
            if !is_digit_byte(bytes[k]) {
                proof {
                    assert(!is_digit(text[k as int]));
                    assert forall|q: int| !is_decimal_split(text, q) by {
                        if is_decimal_split(text, q) {
                            if q < p {
                                assert(is_digit(text[q]));
                            }
                            if q > p {
                                assert(is_digit(text[p as int]));
                            }
                        }
                    }
                }
                return Err(ParsingError());
            }
            if count < 4 {
                let d: u64 = (bytes[k] - ZERO) as u64;
                proof {
                    let four = four_digits(text.skip(p + 1));
                    lemma_decimal_value_step(four, count as int);
                    assert(four[count as int] == text[k as int]);
                    assert(d == digit_value(text[k as int]));
                }
                frac = frac * 10 + d;
                count += 1;
            }
            k += 1;
        }
    }
    let ghost fraction = if p < n { text.skip(p + 1) } else { Seq::<char>::empty() };
    proof {
        assert(is_decimal_split(text, p as int));
        lemma_split_is_unique(text, p as int);
        assert(fraction_of(text) == fraction);
        assert(units_of(text) == text.take(p as int));
        assert(four_digits(fraction).take(0) =~= Seq::<char>::empty());
    }
    while count < 4
        invariant
            count <= 4,
            fraction.len() <= count || count == 4,
            frac == decimal_value(four_digits(fraction).take(count as int)),
            count == 0 ==> frac == 0,
            count == 1 ==> frac < 10,
            count == 2 ==> frac < 100,
            count == 3 ==> frac < 1000,
            count == 4 ==> frac < 10000,
        decreases 4 - count,
    {
        proof {
            let four = four_digits(fraction);
            lemma_decimal_value_step(four, count as int);
            assert(four[count as int] == '0');
        }
        frac = frac * 10;
        count += 1;
    }
    proof {
        assert(four_digits(fraction).take(4) =~= four_digits(fraction));
        assert(text_value(text) == decimal_value(text.take(p as int)) * 10000 + frac);
    }
    if too_big {
        return Err(ParsingError());
    }
    let scaled: u64 = units * UNIT_MULTIPLIER;
    if frac > u64::MAX - scaled {
        return Err(ParsingError());
    }
    Ok(scaled + frac)
}

impl Amount {
    /// Reads an amount from decimal text.
    pub fn try_from(value: &str) -> (r: Result<Amount, ParsingError>)
        ensures
            r is Ok <==> is_decimal_text(value@) && text_value(value@) <= u64::MAX,
            r is Ok ==> r.unwrap()@ == text_value(value@),
    {
        match to_inner(value) {
            Ok(inner) => Ok(Amount(inner)),
            Err(e) => Err(e),
        }
    }
}

/// The digit that stands for a number below ten.
pub open spec fn digit_char(d: nat) -> char {
    if d == 0 {
        '0'
    } else if d == 1 {
        '1'
    } else if d == 2 {
        '2'
    } else if d == 3 {
        '3'
    } else if d == 4 {
        '4'
    } else if d == 5 {
        '5'
    } else if d == 6 {
        '6'
    } else if d == 7 {
        '7'
    } else if d == 8 {
        '8'
    } else {
        '9'
    }
}

/// The decimal digits of `n`, without leading zeros; `0` for zero.
pub open spec fn decimal_digits(n: nat) -> Seq<char>
    decreases n,
{
    if n < 10 {
        seq![digit_char(n)]
    } else {
        decimal_digits(n / 10).push(digit_char(n % 10))
    }
}

/// `digits` without its trailing zeros, but never without its first digit.
pub open spec fn trim_zeros(digits: Seq<char>) -> Seq<char>
    decreases digits.len(),
{
    if digits.len() > 1 && digits.last() == '0' {
        trim_zeros(digits.drop_last())
    } else {
        digits
    }
}

/// The digits after the point for `f` ten-thousandths, `f` below 10000.
pub open spec fn fraction_digits(f: nat) -> Seq<char> {
    trim_zeros(
        seq![
            digit_char(f / 1000 % 10),
            digit_char(f / 100 % 10),
            digit_char(f / 10 % 10),
            digit_char(f % 10),
        ],
    )
}

/// The canonical text of `v` ten-thousandths: the whole units, a point, and
/// the fraction without trailing zeros but with at least one digit.
pub open spec fn amount_text(v: nat) -> Seq<char> {
    decimal_digits(v / 10000) + seq!['.'] + fraction_digits(v % 10000)
}

/// Appends the digit of a number below ten.
fn push_digit(s: &mut String, d: u64)
    requires
        d < 10,
    ensures
        final(s)@ == old(s)@.push(digit_char(d as nat)),
{
    proof {
        reveal_strlit("0");
        reveal_strlit("1");
        reveal_strlit("2");
        reveal_strlit("3");
        reveal_strlit("4");
        reveal_strlit("5");
        reveal_strlit("6");
        reveal_strlit("7");
        reveal_strlit("8");
        reveal_strlit("9");
    }
    if d == 0 {
        s.append("0");
    } else if d == 1 {
        s.append("1");
    } else if d == 2 {
        s.append("2");
    } else if d == 3 {
        s.append("3");
    } else if d == 4 {
        s.append("4");
    } else if d == 5 {
        s.append("5");
    } else if d == 6 {
        s.append("6");
    } else if d == 7 {
        s.append("7");
    } else if d == 8 {
        s.append("8");
    } else {
        s.append("9");
    }
    assert(s@ =~= old(s)@.push(digit_char(d as nat)));
}

/// Appends the decimal point.
fn push_point(s: &mut String)
    ensures
        final(s)@ == old(s)@.push('.'),
{
    proof {
        reveal_strlit(".");
    }
    s.append(".");
    assert(s@ =~= old(s)@.push('.'));
}

fn push_decimal(s: &mut String, n: u64)
    ensures
        final(s)@ == old(s)@ + decimal_digits(n as nat),
    decreases n,
{
    if n >= 10 {
        push_decimal(s, n / 10);
    }
    push_digit(s, n % 10);
}

impl Amount {
    /// The canonical text of the amount.
    pub fn to_string(&self) -> (s: String)
        ensures
            s@ == amount_text(self@),
    {
        let units: u64 = self.0 / UNIT_MULTIPLIER;
        let decimal: u64 = self.0 % UNIT_MULTIPLIER;
        let d1: u64 = decimal / 1000 % 10;
        let d2: u64 = decimal / 100 % 10;
        let d3: u64 = decimal / 10 % 10;
        let d4: u64 = decimal % 10;
        let ghost c1 = digit_char(d1 as nat);
        let ghost c2 = digit_char(d2 as nat);
        let ghost c3 = digit_char(d3 as nat);
        let ghost c4 = digit_char(d4 as nat);
        let mut s = String::new();
        push_decimal(&mut s, units);
        push_point(&mut s);
        let ghost head = s@;
        push_digit(&mut s, d1);
        if d2 != 0 || d3 != 0 || d4 != 0 {
            push_digit(&mut s, d2);
            if d3 != 0 || d4 != 0 {
                push_digit(&mut s, d3);
                if d4 != 0 {
                    push_digit(&mut s, d4);
                }
            }
        }
        proof {
            reveal_with_fuel(trim_zeros, 4);
            assert(seq![c1, c2, c3, c4].drop_last() =~= seq![c1, c2, c3]);
            assert(seq![c1, c2, c3].drop_last() =~= seq![c1, c2]);
            assert(seq![c1, c2].drop_last() =~= seq![c1]);
            assert(head =~= decimal_digits(units as nat) + seq!['.']);
            assert(s@ =~= head + fraction_digits(decimal as nat));
        }
        s
    }
}

/// Whether a run of digits has no zero in front that could be left out.
pub open spec fn no_leading_zero(digits: Seq<char>) -> bool {
    digits.len() == 1 || (digits.len() > 1 && digits[0] != '0')
}

/// The canonical form of a decimal text: the digits before the point, the
/// point, and the fraction without trailing zeros but with at least one digit.
pub open spec fn normalized(text: Seq<char>) -> Seq<char> {
    units_of(text) + seq!['.'] + if fraction_of(text).len() == 0 {
        seq!['0']
    } else {
        trim_zeros(fraction_of(text))
    }
}

/// Writing out the value of a run of digits without leading zero gives the
/// run back.
pub proof fn lemma_digits_of_value(digits: Seq<char>)
    requires
        no_leading_zero(digits),
        forall|i: int| 0 <= i < digits.len() ==> is_digit(#[trigger] digits[i]),
    ensures
        decimal_digits(decimal_value(digits)) == digits,
        digits.len() > 1 ==> decimal_value(digits) >= 10,
        digits[0] != '0' ==> decimal_value(digits) >= 1,
    decreases digits.len(),
{
    let front = digits.drop_last();
    let d = digit_value(digits.last());
    assert(is_digit(digits.last()));
    assert(digit_char(d) == digits.last());
    if digits.len() == 1 {
        assert(front.len() == 0);
        assert(decimal_value(front) == 0);
        assert(digits =~= seq![digits.last()]);
    } else {
        assert(front[0] == digits[0]);
        lemma_digits_of_value(front);
        let v = decimal_value(front);
        assert(v >= 1);
        lemma_fundamental_div_mod_converse((v * 10 + d) as int, 10, v as int, d as int);
        assert(digits =~= front.push(digits.last()));
    }
}

/// The value of four digits, place by place.
pub proof fn lemma_value_of_four(digits: Seq<char>)
    requires
        digits.len() == 4,
    ensures
        decimal_value(digits) == digit_value(digits[0]) * 1000 + digit_value(digits[1]) * 100
            + digit_value(digits[2]) * 10 + digit_value(digits[3]),
{
    lemma_decimal_value_step(digits, 0);
    lemma_decimal_value_step(digits, 1);
    lemma_decimal_value_step(digits, 2);
    lemma_decimal_value_step(digits, 3);
    assert(digits.take(4) =~= digits);
    assert(digits.take(0) =~= Seq::<char>::empty());
}

/// The four decimal places of a number below 10000.
pub proof fn lemma_places(a: nat, b: nat, c: nat, d: nat)
    requires
        a < 10,
        b < 10,
        c < 10,
        d < 10,
    ensures
        a * 1000 + b * 100 + c * 10 + d < 10000,
        (a * 1000 + b * 100 + c * 10 + d) / 1000 % 10 == a,
        (a * 1000 + b * 100 + c * 10 + d) / 100 % 10 == b,
        (a * 1000 + b * 100 + c * 10 + d) / 10 % 10 == c,
        (a * 1000 + b * 100 + c * 10 + d) % 10 == d,
{
    let f = (a * 1000 + b * 100 + c * 10 + d) as int;
    lemma_fundamental_div_mod_converse(f, 10, (a * 100 + b * 10 + c) as int, d as int);
    lemma_fundamental_div_mod_converse(f, 100, (a * 10 + b) as int, (c * 10 + d) as int);
    lemma_fundamental_div_mod_converse(f, 1000, a as int, (b * 100 + c * 10 + d) as int);
    lemma_fundamental_div_mod_converse(f / 10, 10, (a * 10 + b) as int, c as int);
    lemma_fundamental_div_mod_converse(f / 100, 10, a as int, b as int);
    lemma_fundamental_div_mod_converse(f / 1000, 10, 0, a as int);
}

/// A digit stands for a number below ten, whose digit it is.
pub proof fn lemma_digit_char_of_value(c: char)
    requires
        is_digit(c),
    ensures
        digit_value(c) < 10,
        digit_char(digit_value(c)) == c,
{
}

/// Writing out the value of four digits gives the four digits back.
pub proof fn lemma_four_digits_of_value(four: Seq<char>)
    requires
        four.len() == 4,
        forall|i: int| 0 <= i < 4 ==> is_digit(#[trigger] four[i]),
    ensures
        decimal_value(four) < 10000,
        seq![
            digit_char(decimal_value(four) / 1000 % 10),
            digit_char(decimal_value(four) / 100 % 10),
            digit_char(decimal_value(four) / 10 % 10),
            digit_char(decimal_value(four) % 10),
        ] == four,
{
    lemma_value_of_four(four);
    lemma_digit_char_of_value(four[0]);
    lemma_digit_char_of_value(four[1]);
    lemma_digit_char_of_value(four[2]);
    lemma_digit_char_of_value(four[3]);
    lemma_places(
        digit_value(four[0]),
        digit_value(four[1]),
        digit_value(four[2]),
        digit_value(four[3]),
    );
    assert(seq![four[0], four[1], four[2], four[3]] =~= four);
}

/// Zeros that fill a fraction up to four digits are trimmed away again.
pub proof fn lemma_trim_of_four_digits(fraction: Seq<char>)
    requires
        fraction.len() <= 4,
    ensures
        trim_zeros(four_digits(fraction)) == if fraction.len() == 0 {
            seq!['0']
        } else {
            trim_zeros(fraction)
        },
{
    let four = four_digits(fraction);
    let three = four.drop_last();
    let two = three.drop_last();
    let one = two.drop_last();
    assert(trim_zeros(one) == one);
    if fraction.len() == 0 {
        assert(one =~= seq!['0']);
        assert(trim_zeros(two) == trim_zeros(one));
        assert(trim_zeros(three) == trim_zeros(two));
        assert(trim_zeros(four) == trim_zeros(three));
    } else if fraction.len() == 1 {
        assert(one =~= fraction);
        assert(trim_zeros(two) == trim_zeros(one));
        assert(trim_zeros(three) == trim_zeros(two));
        assert(trim_zeros(four) == trim_zeros(three));
    } else if fraction.len() == 2 {
        assert(two =~= fraction);
        assert(trim_zeros(three) == trim_zeros(two));
        assert(trim_zeros(four) == trim_zeros(three));
    } else if fraction.len() == 3 {
        assert(three =~= fraction);
        assert(trim_zeros(four) == trim_zeros(three));
    } else {
        assert(four =~= fraction);
    }
}

/// An amount read from a decimal text that has at most four fractional
/// digits and no leading zero is written out as the text in canonical form.
pub proof fn lemma_text_round_trip(text: Seq<char>)
    requires
        is_decimal_text(text),
        fraction_of(text).len() <= 4,
        no_leading_zero(units_of(text)),
    ensures
        amount_text(text_value(text)) == normalized(text),
{
    let p = units_len(text);
    assert(is_decimal_split(text, p));
    let units = units_of(text);
    let fraction = fraction_of(text);
    let four = four_digits(fraction);
    assert forall|i: int| 0 <= i < units.len() implies is_digit(#[trigger] units[i]) by {
        assert(units[i] == text[i]);
    }
    assert forall|i: int| 0 <= i < 4 implies is_digit(#[trigger] four[i]) by {
        if i < fraction.len() {
            assert(four[i] == text[p + 1 + i]);
        } else {
            assert(four[i] == '0');
        }
    }
    lemma_digits_of_value(units);
    lemma_four_digits_of_value(four);
    lemma_trim_of_four_digits(fraction);
    let u = decimal_value(units);
    let f = decimal_value(four);
    lemma_fundamental_div_mod_converse((u * 10000 + f) as int, 10000, u as int, f as int);
}

/// Digits of the fraction beyond the fourth are cut off: the text without
/// them is a decimal text of the same value.
pub proof fn lemma_extra_digits_are_cut(text: Seq<char>)
    requires
        is_decimal_text(text),
        fraction_of(text).len() >= 4,
    ensures
        is_decimal_text(text.take(units_len(text) + 5)),
        text_value(text.take(units_len(text) + 5)) == text_value(text),
{
    let p = units_len(text);
    assert(is_decimal_split(text, p));
    let cut = text.take(p + 5);
    assert(is_decimal_split(cut, p));
    lemma_split_is_unique(cut, p);
    assert(units_of(cut) =~= units_of(text));
    assert(fraction_of(cut) =~= fraction_of(text).take(4));
    assert(four_digits(fraction_of(cut)) =~= four_digits(fraction_of(text)));
}

/// The digits of a number are digits without a leading zero, and denote
/// the number.
pub proof fn lemma_value_of_digits(n: nat)
    ensures
        decimal_digits(n).len() >= 1,
        forall|i: int|
            0 <= i < decimal_digits(n).len() ==> is_digit(#[trigger] decimal_digits(n)[i]),
        n >= 1 ==> decimal_digits(n)[0] != '0',
        decimal_value(decimal_digits(n)) == n,
    decreases n,
{
    if n < 10 {
        let digits = seq![digit_char(n)];
        assert(digits.drop_last() =~= Seq::<char>::empty());
        assert(decimal_value(digits.drop_last()) == 0);
        assert(digit_value(digits.last()) == n);
    } else {
        lemma_value_of_digits(n / 10);
        let front = decimal_digits(n / 10);
        let digits = front.push(digit_char(n % 10));
        assert(digits.drop_last() =~= front);
        assert(digit_value(digits.last()) == n % 10);
        lemma_fundamental_div_mod(n as int, 10);
        assert forall|i: int| 0 <= i < digits.len() implies is_digit(#[trigger] digits[i]) by {
            if i < front.len() {
                assert(digits[i] == front[i]);
            }
        }
    }
}

/// A number below 10000 is the sum of its four decimal places.
pub proof fn lemma_sum_of_places(f: nat)
    requires
        f < 10000,
    ensures
        f == (f / 1000 % 10) * 1000 + (f / 100 % 10) * 100 + (f / 10 % 10) * 10 + f % 10,
{
    let x = f as int;
    lemma_fundamental_div_mod(x, 10);
    lemma_fundamental_div_mod(x / 10, 10);
    lemma_fundamental_div_mod(x / 100, 10);
    lemma_fundamental_div_mod(x / 1000, 10);
    lemma_div_denominator(x, 10, 10);
    lemma_div_denominator(x, 100, 10);
    lemma_div_denominator(x, 1000, 10);
    assert(x / 10000 == 0);
}

/// Filling a trimmed run of four digits up with zeros gives the four back.
pub proof fn lemma_four_digits_of_trimmed(four: Seq<char>)
    requires
        four.len() == 4,
    ensures
        1 <= trim_zeros(four).len() <= 4,
        trim_zeros(four) == four.take(trim_zeros(four).len() as int),
        four_digits(trim_zeros(four)) == four,
{
    let three = four.drop_last();
    let two = three.drop_last();
    let one = two.drop_last();
    assert(trim_zeros(one) == one);
    assert(trim_zeros(two) == if two.last() == '0' { one } else { two });
    assert(trim_zeros(three) == if three.last() == '0' { trim_zeros(two) } else { three });
    assert(trim_zeros(four) == if four.last() == '0' { trim_zeros(three) } else { four });
    assert(one =~= four.take(1));
    assert(two =~= four.take(2));
    assert(three =~= four.take(3));
    assert(four =~= four.take(4));
    assert(four_digits(trim_zeros(four)) =~= four);
}

/// The canonical text of an amount is a decimal text that denotes the
/// amount: what is written out is read back unchanged.
pub proof fn lemma_text_is_read_back(v: nat)
    ensures
        is_decimal_text(amount_text(v)),
        text_value(amount_text(v)) == v,
{
    let units = decimal_digits(v / 10000);
    let f = v % 10000;
    let four = seq![
        digit_char(f / 1000 % 10),
        digit_char(f / 100 % 10),
        digit_char(f / 10 % 10),
        digit_char(f % 10),
    ];
    let fraction = trim_zeros(four);
    let text = amount_text(v);
    let p = units.len() as int;
    lemma_value_of_digits(v / 10000);
    lemma_four_digits_of_trimmed(four);
    assert(text =~= units + seq!['.'] + fraction);
    assert forall|i: int| 0 <= i < p implies is_digit(#[trigger] text[i]) by {
        assert(text[i] == units[i]);
    }
    assert forall|i: int| p < i < text.len() implies is_digit(#[trigger] text[i]) by {
        assert(text[i] == fraction[i - p - 1]);
        assert(fraction[i - p - 1] == four[i - p - 1]);
    }
    assert(text[p] == '.');
    assert(is_decimal_split(text, p));
    lemma_split_is_unique(text, p);
    assert(units_of(text) =~= units);
    assert(fraction_of(text) =~= fraction);
    lemma_value_of_four(four);
    lemma_sum_of_places(f);
    assert(decimal_value(four) == f);
    lemma_fundamental_div_mod(v as int, 10000);
}

} // verus!
