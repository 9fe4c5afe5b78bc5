//! Money as unsigned minor units plus an ISO-4217 currency.
//!
//! An amount is never negative and never zero, and amounts in different
//! currencies do not mix: each of those is an error, not a number. Which way
//! money moves is a [`LedgerDirection`] beside the amount, not a sign on it.
use crate::decimal;
use crate::decimal::{decimal_text, read_decimal};
use crate::text;
use crate::text::{chars_of, find, find_outside, same_text, text_of, to_ascii_upper, trim, Charset};
use core::str::FromStr;
use vstd::prelude::*;
use vstd::slice::slice_subrange;
use vstd::string::*;

verus! {

/// An ISO-4217 currency that knows its own minor-unit exponent.
#[derive(Debug, Clone, Copy, PartialEq, Eq, Structural, PartialOrd, Ord, Hash)]
pub enum Currency {
    Usd,
    Eur,
    Gbp,
    Cny,
    Jpy,
    Krw,
    Chf,
    Cad,
    Aud,
    Inr,
}

impl Currency {
    /// Every currency the system understands.
    pub const ALL: [Currency; 10] = [
        Currency::Usd,
        Currency::Eur,
        Currency::Gbp,
        Currency::Cny,
        Currency::Jpy,
        Currency::Krw,
        Currency::Chf,
        Currency::Cad,
        Currency::Aud,
        Currency::Inr,
    ];

    /// The ISO-4217 alphabetic code.
    pub open spec fn code_text(self) -> Seq<char> {
        match self {
            Currency::Usd => "USD"@,
            Currency::Eur => "EUR"@,
            Currency::Gbp => "GBP"@,
            Currency::Cny => "CNY"@,
            Currency::Jpy => "JPY"@,
            Currency::Krw => "KRW"@,
            Currency::Chf => "CHF"@,
            Currency::Cad => "CAD"@,
            Currency::Aud => "AUD"@,
            Currency::Inr => "INR"@,
        }
    }

    /// Decimal places between the major and the minor unit.
    pub open spec fn places(self) -> nat {
        match self {
            Currency::Jpy | Currency::Krw => 0,
            _ => 2,
        }
    }

    /// The currency that `s` names, in any case and with white space around it.
    pub open spec fn named(s: Seq<char>) -> Option<Currency> {
        let up = text::trimmed(s).map_values(|c: char| text::ascii_upper(c));
        if exists|c: Currency| #[trigger] c.code_text() == up {
            Some(choose|c: Currency| #[trigger] c.code_text() == up)
        } else {
            None
        }
    }

    /// The ISO-4217 alphabetic code.
    pub fn code(self) -> (r: &'static str)
        ensures
            r@ == self.code_text(),
    {
        match self {
            Currency::Usd => "USD",
            Currency::Eur => "EUR",
            Currency::Gbp => "GBP",
            Currency::Cny => "CNY",
            Currency::Jpy => "JPY",
            Currency::Krw => "KRW",
            Currency::Chf => "CHF",
            Currency::Cad => "CAD",
            Currency::Aud => "AUD",
            Currency::Inr => "INR",
        }
    }

    /// Number of decimal places between the major and minor unit.
    ///
    /// Every variant is written out: a default of two places would misprice
    /// any currency that has none or three.
    pub fn exponent(self) -> (r: u32)
        ensures
            r == self.places(),
    {
        match self {
            Currency::Jpy | Currency::Krw => 0,
            Currency::Usd
            | Currency::Eur
            | Currency::Gbp
            | Currency::Cny
            | Currency::Chf
            | Currency::Cad
            | Currency::Aud
            | Currency::Inr => 2,
        }
    }

    /// Minor units in one major unit: ten to the power of the exponent.
    pub fn minor_per_major(self) -> (r: u64)
        ensures
            r == power_of_ten(self.places()),
    {
        proof {
            reveal_with_fuel(power_of_ten, 3);
        }
        if self.exponent() == 0 {
            1
        } else {
            100
        }
    }

    /// Reads a currency code in any case, with white space around it.
    pub fn parse(s: &str) -> (r: Result<Currency, MoneyError>)
        ensures
            match r {
                Ok(c) => Currency::named(s@) == Some(c),
                Err(MoneyError::UnknownCurrency(t)) => Currency::named(s@) is None && t@ == s@,
                Err(_) => false,
            },
    {
        let chars = chars_of(s);
        let mut up = String::new();
        let body = trim(chars.as_slice());
        for i in 0..body.len()
            invariant
                body@ == text::trimmed(s@),
                up@ == body@.take(i as int).map_values(|c: char| text::ascii_upper(c)),
        {
            up.push(to_ascii_upper(body[i]));
            assert(up@ == body@.take(i + 1).map_values(|c: char| text::ascii_upper(c)));
        }
        assert(body@.take(body@.len() as int) == body@);
        let all = Currency::ALL;
        for i in 0..all.len()
            invariant
                all == Currency::ALL,
                up@ == text::trimmed(s@).map_values(|c: char| text::ascii_upper(c)),
                forall|j: int| 0 <= j < i ==> #[trigger] Currency::ALL[j].code_text() != up@,
        {
            if same_text(all[i].code(), up.as_str()) {
                proof {
                    lemma_codes_differ(all[i as int], Currency::named(s@)->Some_0);
                }
                return Ok(all[i]);
            }
        }
        proof {
            if exists|c: Currency| #[trigger] c.code_text() == up@ {
                let c = choose|c: Currency| #[trigger] c.code_text() == up@;
                lemma_all_currencies(c);
            }
        }
        Err(MoneyError::UnknownCurrency(s.to_owned()))
    }
}

impl FromStr for Currency {
    type Err = MoneyError;

    fn from_str(s: &str) -> (r: Result<Self, Self::Err>)
        ensures
            match r {
                Ok(c) => Currency::named(s@) == Some(c),
                Err(MoneyError::UnknownCurrency(t)) => Currency::named(s@) is None && t@ == s@,
                Err(_) => false,
            },
    {
        Currency::parse(s)
    }
}

/// [`Currency::ALL`] leaves no currency out.
pub proof fn lemma_all_currencies(c: Currency)
    ensures
        exists|i: int| 0 <= i < 10 && #[trigger] Currency::ALL[i] == c,
{
    let i: int = match c {
        Currency::Usd => 0,
        Currency::Eur => 1,
        Currency::Gbp => 2,
        Currency::Cny => 3,
        Currency::Jpy => 4,
        Currency::Krw => 5,
        Currency::Chf => 6,
        Currency::Cad => 7,
        Currency::Aud => 8,
        Currency::Inr => 9,
    };
    assert(Currency::ALL[i] == c);
}

proof fn lemma_code_letters(c: Currency)
    ensures
        c.code_text().len() == 3,
        forall|i: int| 0 <= i < 3 ==> text::is_upper(#[trigger] c.code_text()[i]),
{
    reveal_strlit("USD");
    reveal_strlit("EUR");
    reveal_strlit("GBP");
    reveal_strlit("CNY");
    reveal_strlit("JPY");
    reveal_strlit("KRW");
    reveal_strlit("CHF");
    reveal_strlit("CAD");
    reveal_strlit("AUD");
    reveal_strlit("INR");
}

/// Two currencies with the same code are the same currency.
pub proof fn lemma_codes_differ(a: Currency, b: Currency)
    ensures
        a.code_text() == b.code_text() ==> a == b,
{
    reveal_strlit("USD");
    reveal_strlit("EUR");
    reveal_strlit("GBP");
    reveal_strlit("CNY");
    reveal_strlit("JPY");
    reveal_strlit("KRW");
    reveal_strlit("CHF");
    reveal_strlit("CAD");
    reveal_strlit("AUD");
    reveal_strlit("INR");
    let x = a.code_text();
    let y = b.code_text();
    if x == y {
        assert(x[0] == y[0] && x[1] == y[1] && x[2] == y[2]);
    }
}

/// Everything that can go wrong with money.
#[derive(Debug, Clone, PartialEq, Eq)]
pub enum MoneyError {
    /// The amount is zero.
    Zero,
    /// Two amounts in different currencies.
    CurrencyMismatch { left: Currency, right: Currency },
    /// The amount takes more than 64 bits of minor units.
    Overflow,
    /// The subtraction would give a negative amount.
    Underflow,
    /// No currency has this code.
    UnknownCurrency(String),
    /// Not a decimal amount.
    InvalidAmount(String),
    /// More decimal places than the currency has.
    WrongExponent { currency: Currency, expected: u32, got: usize },
}

/// Ten to the power of `n`.
pub open spec fn power_of_ten(n: nat) -> nat
    decreases n,
{
    if n == 0 {
        1
    } else {
        10 * power_of_ten((n - 1) as nat)
    }
}

/// The part of an amount before its decimal point.
pub open spec fn major_part(t: Seq<char>) -> Seq<char> {
    t.take(text::position_of(t, '.') as int)
}

/// The part of an amount after its decimal point; empty where it has none.
pub open spec fn fraction_part(t: Seq<char>) -> Seq<char> {
    if t.contains('.') {
        t.skip(text::position_of(t, '.') as int + 1)
    } else {
        Seq::empty()
    }
}

/// Digits, and where there is a decimal point digits after it too.
pub open spec fn is_decimal_amount(t: Seq<char>) -> bool {
    &&& major_part(t).len() > 0
    &&& text::drawn_from(major_part(t), Charset::Digits)
    &&& t.contains('.') ==> fraction_part(t).len() > 0 && text::drawn_from(
        fraction_part(t),
        Charset::Digits,
    )
}

/// The minor units that a decimal amount stands for.
pub open spec fn amount_of(t: Seq<char>, currency: Currency) -> nat {
    decimal::value_of(major_part(t)) * power_of_ten(currency.places()) + decimal::value_of(
        fraction_part(t),
    ) * power_of_ten((currency.places() - fraction_part(t).len()) as nat)
}

/// The last `k` digits of `n`, with leading zeros.
pub open spec fn padded(n: nat, k: nat) -> Seq<char>
    decreases k,
{
    if k == 0 {
        Seq::empty()
    } else {
        padded(n / 10, (k - 1) as nat).push(decimal::digit(n % 10))
    }
}

/// How an amount is written in major units: `5.00`, or `500` where the
/// currency has no minor unit.
pub open spec fn amount_text(minor: nat, currency: Currency) -> Seq<char> {
    let per = power_of_ten(currency.places());
    if currency.places() == 0 {
        decimal::decimal(minor)
    } else {
        decimal::decimal(minor / per) + seq!['.'] + padded(minor % per, currency.places())
    }
}

/// A strictly positive amount in a single currency, stored in minor units.
#[derive(Debug, Clone, Copy, PartialEq, Eq, Structural, Hash)]
pub struct Money {
    minor: u64,
    currency: Currency,
}

impl Money {
    #[verifier::type_invariant]
    spec fn positive(self) -> bool {
        self.minor > 0
    }

    /// The amount in minor units.
    pub closed spec fn minor_spec(self) -> u64 {
        self.minor
    }

    /// The currency.
    pub closed spec fn currency_spec(self) -> Currency {
        self.currency
    }

    /// What holds of every amount there is: it is not zero.
    pub open spec fn valid(self) -> bool {
        self.minor() > 0
    }

    /// How an amount is written: `USD 5.00`, `JPY 500`.
    pub open spec fn text_spec(self) -> Seq<char> {
        self.currency().code_text() + seq![' '] + amount_text(self.minor() as nat, self.currency())
    }

    /// What [`Money::checked_add`] returns.
    pub open spec fn sum(self, rhs: Money, r: Result<Money, MoneyError>) -> bool {
        if self.currency() != rhs.currency() {
            r == Err::<Money, MoneyError>(
                MoneyError::CurrencyMismatch { left: self.currency(), right: rhs.currency() },
            )
        } else if self.minor() + rhs.minor() > u64::MAX {
            r == Err::<Money, MoneyError>(MoneyError::Overflow)
        } else {
            r matches Ok(m) && m.minor() == self.minor() + rhs.minor() && m.currency()
                == self.currency()
        }
    }

    /// What [`Money::checked_sub`] returns.
    pub open spec fn difference(self, rhs: Money, r: Result<Money, MoneyError>) -> bool {
        if self.currency() != rhs.currency() {
            r == Err::<Money, MoneyError>(
                MoneyError::CurrencyMismatch { left: self.currency(), right: rhs.currency() },
            )
        } else if self.minor() < rhs.minor() {
            r == Err::<Money, MoneyError>(MoneyError::Underflow)
        } else if self.minor() == rhs.minor() {
            r == Err::<Money, MoneyError>(MoneyError::Zero)
        } else {
            r matches Ok(m) && m.minor() == self.minor() - rhs.minor() && m.currency()
                == self.currency()
        }
    }

    /// What [`Money::checked_mul_int`] returns.
    pub open spec fn times(self, factor: u64, r: Result<Money, MoneyError>) -> bool {
        if factor == 0 {
            r == Err::<Money, MoneyError>(MoneyError::Zero)
        } else if self.minor() * factor > u64::MAX {
            r == Err::<Money, MoneyError>(MoneyError::Overflow)
        } else {
            r matches Ok(m) && m.minor() == self.minor() * factor && m.currency()
                == self.currency()
        }
    }

    /// What [`Money::from_major`] returns.
    pub open spec fn whole(major: u64, currency: Currency, r: Result<Money, MoneyError>) -> bool {
        if major == 0 {
            r == Err::<Money, MoneyError>(MoneyError::Zero)
        } else if major * power_of_ten(currency.places()) > u64::MAX {
            r == Err::<Money, MoneyError>(MoneyError::Overflow)
        } else {
            r matches Ok(m) && m.minor() == major * power_of_ten(currency.places())
                && m.currency() == currency
        }
    }

    /// An amount is its minor units and its currency.
    pub proof fn lemma_ext(a: Money, b: Money)
        ensures
            a.minor() == b.minor() && a.currency() == b.currency() ==> a == b,
    {
    }

    /// The only way to build a `Money`. Rejects zero.
    pub fn new(minor: u64, currency: Currency) -> (r: Result<Money, MoneyError>)
        ensures
            match r {
                Ok(m) => minor > 0 && m.minor() == minor && m.currency() == currency,
                Err(e) => minor == 0 && e == MoneyError::Zero,
            },
    {
        if minor == 0 {
            return Err(MoneyError::Zero);
        }
        Ok(Money { minor, currency })
    }

    /// Build from whole major units, respecting the currency's exponent:
    /// five dollars are 500 minor units, five yen are 5.
    pub fn from_major(major: u64, currency: Currency) -> (r: Result<Money, MoneyError>)
        ensures
            Money::whole(major, currency, r),
            match r {
                Ok(m) => m.minor() == major * power_of_ten(currency.places()) && m.currency()
                    == currency && m.valid(),
                Err(e) => if major == 0 {
                    e == MoneyError::Zero
                } else {
                    e == MoneyError::Overflow && major * power_of_ten(currency.places()) > u64::MAX
                },
            },
    {
        let per: u64 = currency.minor_per_major();
        proof {
            reveal_with_fuel(power_of_ten, 3);
            assert(per == 1 || per == 100);
            assert(major * per == major * power_of_ten(currency.places()));
            assert(per > 0 && major > 0 ==> major * per > 0) by (nonlinear_arith);
            assert(major == 0 ==> major * per == 0) by (nonlinear_arith);
        }
        match major.checked_mul(per) {
            None => Err(MoneyError::Overflow),
            Some(minor) => Money::new(minor, currency),
        }
    }

    /// Parse a decimal major-unit string: `5.00` for USD, `500` for JPY.
    ///
    /// More decimals than the currency has is an error, not a rounding
    /// opportunity. Fewer is fine: `5.5` USD is 550 minor units.
    pub fn from_major_str(s: &str, currency: Currency) -> (r: Result<Money, MoneyError>)
        ensures
            ({
                let t = text::trimmed(s@);
                let places = fraction_part(t).len();
                match r {
                    Ok(m) => is_decimal_amount(t) && places <= currency.places() && m.minor()
                        == amount_of(t, currency) && m.currency() == currency && m.valid(),
                    Err(MoneyError::InvalidAmount(bad)) => !is_decimal_amount(t) && bad@ == t,
                    Err(MoneyError::WrongExponent { currency: of, expected, got }) =>
                    is_decimal_amount(t) && places > currency.places() && of == currency && expected
                        == currency.places() && got == places,
                    Err(MoneyError::Overflow) => is_decimal_amount(t) && places <= currency.places()
                        && amount_of(t, currency) > u64::MAX,
                    Err(MoneyError::Zero) => is_decimal_amount(t) && places <= currency.places()
                        && amount_of(t, currency) == 0,
                    Err(_) => false,
                }
            }),
    {
        let chars = chars_of(s);
        let t = trim(chars.as_slice());
        let exp: usize = currency.exponent() as usize;
        let dot: usize = find(t, '.');
        let dotted = dot < t.len();
        let major = slice_subrange(t, 0, dot);
        let frac = if dotted {
            slice_subrange(t, dot + 1, t.len())
        } else {
            slice_subrange(t, dot, dot)
        };
        proof {
            text::lemma_position_of(t@, '.');
            assert(major@ == major_part(t@));
            assert(frac@ == fraction_part(t@));
        }
        if major.len() == 0 || find_outside(major, Charset::Digits).is_some() {
            return Err(MoneyError::InvalidAmount(text_of(t)));
        }
        if dotted && (frac.len() == 0 || find_outside(frac, Charset::Digits).is_some()) {
            return Err(MoneyError::InvalidAmount(text_of(t)));
        }
        if frac.len() > exp {
            return Err(
                MoneyError::WrongExponent {
                    currency,
                    expected: currency.exponent(),
                    got: frac.len(),
                },
            );
        }
        assert(text::drawn_from(frac@, Charset::Digits));
        proof {
            reveal_with_fuel(power_of_ten, 3);
            reveal_with_fuel(decimal::value_of, 4);
        }
        let per: u64 = currency.minor_per_major();
        let ghost whole = decimal::value_of(major@);
        let parts: u64 = match read_decimal(frac) {
            Some(v) => v,
            None => 0,
        };
        proof {
            lemma_small_value(frac@);
        }
        let step: u64 = if frac.len() == exp {
            1
        } else if frac.len() + 1 == exp {
            10
        } else {
            100
        };
        assert(step == power_of_ten((currency.places() - frac@.len()) as nat));
        assert(parts == decimal::value_of(frac@));
        assert(parts * step <= 99) by (nonlinear_arith)
            requires
                parts == 0 || (parts <= 9 && step == 10) || (parts <= 99 && step == 1),
        ;
        assert(parts * step == decimal::value_of(frac@) * power_of_ten(
            (currency.places() - frac@.len()) as nat,
        ));
        proof {
            assert(per == 1 || per == 100);
            assert(whole * per == whole * power_of_ten(currency.places()));
            assert(whole * per >= whole) by (nonlinear_arith)
                requires
                    per >= 1,
            ;
        }
        match read_decimal(major) {
            None => Err(MoneyError::Overflow),
            Some(v) => match v.checked_mul(per) {
                None => Err(MoneyError::Overflow),
                Some(base) => match base.checked_add(parts * step) {
                    None => Err(MoneyError::Overflow),
                    Some(minor) => Money::new(minor, currency),
                },
            },
        }
    }

    /// The amount with its currency code: `USD 5.00`, `JPY 500`.
    pub fn to_text(self) -> (r: String)
        ensures
            r@ == self.text_spec(),
    {
        proof {
            reveal_with_fuel(power_of_ten, 3);
            reveal_with_fuel(padded, 3);
        }
        let mut out = self.currency.code().to_owned();
        out.push(' ');
        if self.currency.exponent() == 0 {
            out.append(decimal_text(self.minor).as_str());
        } else {
            let per: u64 = self.currency.minor_per_major();
            let rest: u8 = (self.minor % per) as u8;
            out.append(decimal_text(self.minor / per).as_str());
            out.push('.');
            out.push((48 + rest / 10) as char);
            out.push((48 + rest % 10) as char);
            assert(padded(rest as nat, 2) == seq![
                decimal::digit(rest as nat / 10),
                decimal::digit(rest as nat % 10),
            ]);
        }
        assert(out@ == self.text_spec());
        out
    }

    /// The amount in minor units.
    #[verifier::when_used_as_spec(minor_spec)]
    pub fn minor(self) -> (r: u64)
        ensures
            r == self.minor(),
            r > 0,
    {
        proof {
            use_type_invariant(&self);
        }
        self.minor
    }

    /// The currency.
    #[verifier::when_used_as_spec(currency_spec)]
    pub fn currency(self) -> (r: Currency)
        ensures
            r == self.currency(),
    {
        self.currency
    }

    /// Add. Errors on currency mismatch and on overflow; never wraps.
    pub fn checked_add(self, rhs: Money) -> (r: Result<Money, MoneyError>)
        ensures
            self.sum(rhs, r),
    {
        match self.same_currency(rhs) {
            Err(e) => Err(e),
            Ok(()) => {
                proof {
                    use_type_invariant(&self);
                }
                match self.minor.checked_add(rhs.minor) {
                    None => Err(MoneyError::Overflow),
                    Some(minor) => Money::new(minor, self.currency),
                }
            },
        }
    }

    /// Subtract. Errors on currency mismatch, on going negative, and on
    /// landing exactly on zero.
    pub fn checked_sub(self, rhs: Money) -> (r: Result<Money, MoneyError>)
        ensures
            self.difference(rhs, r),
    {
        match self.same_currency(rhs) {
            Err(e) => Err(e),
            Ok(()) => match self.minor.checked_sub(rhs.minor) {
                None => Err(MoneyError::Underflow),
                Some(minor) => Money::new(minor, self.currency),
            },
        }
    }

    /// Multiply by a count. A factor of zero is an error, not a payment of
    /// nothing.
    pub fn checked_mul_int(self, factor: u64) -> (r: Result<Money, MoneyError>)
        ensures
            self.times(factor, r),
            match r {
                Ok(m) => m.minor() == self.minor() * factor && m.currency() == self.currency()
                    && m.valid(),
                Err(e) => if factor == 0 {
                    e == MoneyError::Zero
                } else {
                    e == MoneyError::Overflow && self.minor() * factor > u64::MAX
                },
            },
    {
        proof {
            use_type_invariant(&self);
            let (m, f) = (self.minor, factor);
            assert(m > 0 && f > 0 ==> m * f > 0) by (nonlinear_arith);
            assert(f == 0 ==> m * f == 0) by (nonlinear_arith);
        }
        match self.minor.checked_mul(factor) {
            None => Err(MoneyError::Overflow),
            Some(minor) => Money::new(minor, self.currency),
        }
    }

    fn same_currency(self, rhs: Money) -> (r: Result<(), MoneyError>)
        ensures
            match r {
                Ok(()) => self.currency() == rhs.currency(),
                Err(e) => self.currency() != rhs.currency() && e == (MoneyError::CurrencyMismatch {
                    left: self.currency(),
                    right: rhs.currency(),
                }),
            },
    {
        if self.currency == rhs.currency {
            Ok(())
        } else {
            Err(MoneyError::CurrencyMismatch { left: self.currency, right: rhs.currency })
        }
    }
}

/// Two digits stand for less than a hundred, one for less than ten.
proof fn lemma_small_value(s: Seq<char>)
    requires
        text::drawn_from(s, Charset::Digits),
        s.len() <= 2,
    ensures
        s.len() == 0 ==> decimal::value_of(s) == 0,
        s.len() == 1 ==> decimal::value_of(s) <= 9,
        s.len() == 2 ==> decimal::value_of(s) <= 99,
{
    reveal_with_fuel(decimal::value_of, 4);
    if s.len() >= 1 {
        assert(Charset::Digits.admits(s[0]));
        assert(Charset::Digits.admits(s.last()));
        if s.len() == 2 {
            assert(s.drop_last().last() == s[0]);
        }
    }
}

/// Which way money moves.
#[derive(Debug, Clone, Copy, PartialEq, Eq, Structural, Hash)]
pub enum LedgerDirection {
    Debit,
    Credit,
}

/// A [`Money`] paired with a [`LedgerDirection`].
#[derive(Debug, Clone, Copy, PartialEq, Eq, Structural, Hash)]
pub struct SignedAmount {
    amount: Money,
    direction: LedgerDirection,
}

impl SignedAmount {
    /// The amount.
    pub closed spec fn amount_spec(self) -> Money {
        self.amount
    }

    /// The direction.
    pub closed spec fn direction_spec(self) -> LedgerDirection {
        self.direction
    }

    /// An amount going out.
    pub fn debit(amount: Money) -> (r: SignedAmount)
        ensures
            r.amount() == amount,
            r.direction() == LedgerDirection::Debit,
    {
        SignedAmount { amount, direction: LedgerDirection::Debit }
    }

    /// An amount coming in.
    pub fn credit(amount: Money) -> (r: SignedAmount)
        ensures
            r.amount() == amount,
            r.direction() == LedgerDirection::Credit,
    {
        SignedAmount { amount, direction: LedgerDirection::Credit }
    }

    /// The amount.
    #[verifier::when_used_as_spec(amount_spec)]
    pub fn amount(self) -> (r: Money)
        ensures
            r == self.amount(),
    {
        self.amount
    }

    /// The direction.
    #[verifier::when_used_as_spec(direction_spec)]
    pub fn direction(self) -> (r: LedgerDirection)
        ensures
            r == self.direction(),
    {
        self.direction
    }

    /// Whether the money goes out.
    pub fn is_debit(self) -> (r: bool)
        ensures
            r == (self.direction() == LedgerDirection::Debit),
    {
        matches!(self.direction, LedgerDirection::Debit)
    }
}

// ---------------------------------------------------------------------------
// Laws
// ---------------------------------------------------------------------------

/// Addition within one currency is commutative: both orders give the same
/// result.
pub proof fn law_add_commutes(
    a: Money,
    b: Money,
    ab: Result<Money, MoneyError>,
    ba: Result<Money, MoneyError>,
)
    requires
        a.currency() == b.currency(),
        a.sum(b, ab),
        b.sum(a, ba),
    ensures
        ab == ba,
{
    if let (Ok(x), Ok(y)) = (ab, ba) {
        Money::lemma_ext(x, y);
    }
}

/// A sum within one currency is larger than either addend, stays in that
/// currency, and fails only on overflow.
pub proof fn law_add_never_shrinks(a: Money, b: Money, r: Result<Money, MoneyError>)
    requires
        a.valid(),
        b.valid(),
        a.currency() == b.currency(),
        a.sum(b, r),
    ensures
        match r {
            Ok(s) => s.valid() && s.minor() > a.minor() && s.minor() > b.minor() && s.currency()
                == a.currency(),
            Err(e) => e == MoneyError::Overflow,
        },
{
}

/// Subtracting an addend from a sum gives back the other addend.
pub proof fn law_sub_undoes_add(a: Money, b: Money, s: Money, r: Result<Money, MoneyError>)
    requires
        a.valid(),
        a.sum(b, Ok(s)),
        s.difference(b, r),
    ensures
        r == Ok::<Money, MoneyError>(a),
{
    if let Ok(m) = r {
        Money::lemma_ext(m, a);
    }
}

/// Amounts in different currencies neither add nor subtract.
pub proof fn law_currencies_do_not_mix(a: Money, b: Money, r: Result<Money, MoneyError>)
    requires
        a.currency() != b.currency(),
        a.sum(b, r) || a.difference(b, r),
    ensures
        r == Err::<Money, MoneyError>(
            MoneyError::CurrencyMismatch { left: a.currency(), right: b.currency() },
        ),
{
}

/// Every currency is named by its own code, and by that code in lower case.
pub proof fn law_codes_name_their_currency(c: Currency)
    ensures
        Currency::named(c.code_text()) == Some(c),
        Currency::named(c.code_text().map_values(|x: char| text::ascii_lower(x))) == Some(c),
{
    let code = c.code_text();
    let low = code.map_values(|x: char| text::ascii_lower(x));
    lemma_code_letters(c);
    assert forall|i: int| 0 <= i < 3 implies text::ascii_upper(#[trigger] low[i]) == code[i]
        && !text::is_white_space(low[i]) && !text::is_white_space(code[i]) by {
        assert(text::is_upper(code[i]));
    }
    assert(text::is_upper(code[0]) && text::is_upper(code[2]));
    assert(low[0] == text::ascii_lower(code[0]) && low[2] == text::ascii_lower(code[2]));
    text::lemma_trimmed_fixpoint(code);
    text::lemma_trimmed_fixpoint(low);
    assert(code.map_values(|x: char| text::ascii_upper(x)) == code);
    assert(low.map_values(|x: char| text::ascii_upper(x)) == code);
    assert(c.code_text() == code);
    lemma_codes_differ(c, Currency::named(code)->Some_0);
    lemma_codes_differ(c, Currency::named(low)->Some_0);
}

/// An amount's text, split at its space, reads back as that amount: the code
/// names the currency and the rest parses to the same minor units.
pub proof fn law_text_reads_back(m: Money)
    requires
        m.valid(),
    ensures
        ({
            let code = m.currency().code_text();
            let amount = amount_text(m.minor() as nat, m.currency());
            &&& m.text_spec() == code + seq![' '] + amount
            &&& !code.contains(' ')
            &&& Currency::named(code) == Some(m.currency())
            &&& text::trimmed(amount) == amount
            &&& is_decimal_amount(amount)
            &&& fraction_part(amount).len() == m.currency().places()
            &&& amount_of(amount, m.currency()) == m.minor()
        }),
{
    let minor = m.minor() as nat;
    let currency = m.currency();
    let code = currency.code_text();
    let amount = amount_text(minor, currency);
    law_codes_name_their_currency(currency);
    lemma_code_letters(currency);
    assert(!code.contains(' ')) by {
        if code.contains(' ') {
            let i = choose|i: int| 0 <= i < code.len() && code[i] == ' ';
            assert(text::is_upper(code[i]));
        }
    }
    reveal_with_fuel(power_of_ten, 3);
    reveal_with_fuel(padded, 3);
    reveal_with_fuel(decimal::value_of, 4);
    if currency.places() == 0 {
        decimal::lemma_decimal_reads_back(minor);
        assert forall|i: int| 0 <= i < amount.len() implies #[trigger] amount[i] != '.' by {
            assert(Charset::Digits.admits(amount[i]));
        }
        text::lemma_position_is(amount, '.', amount.len() as int);
        text::lemma_position_of(amount, '.');
        assert(major_part(amount) == amount);
        assert(Charset::Digits.admits(amount[0]) && Charset::Digits.admits(amount.last()));
        text::lemma_trimmed_fixpoint(amount);
        assert(fraction_part(amount) == Seq::<char>::empty());
        assert(amount_of(amount, currency) == minor * 1 + 0 * 1) by {
            assert(power_of_ten(0) == 1);
        }
    } else {
        let head = decimal::decimal(minor / 100);
        let tail = padded(minor % 100, 2);
        decimal::lemma_decimal_reads_back(minor / 100);
        assert(tail == seq![
            decimal::digit((minor % 100) / 10 % 10),
            decimal::digit((minor % 100) % 10),
        ]);
        assert(amount == head + seq!['.'] + tail);
        assert forall|i: int| 0 <= i < head.len() implies #[trigger] amount[i] != '.' by {
            assert(amount[i] == head[i]);
            assert(Charset::Digits.admits(head[i]));
        }
        assert(amount[head.len() as int] == '.');
        text::lemma_position_is(amount, '.', head.len() as int);
        text::lemma_position_of(amount, '.');
        assert(major_part(amount) == head);
        assert(fraction_part(amount) == tail);
        assert(amount[0] == head[0] && amount.last() == tail[1]);
        assert(Charset::Digits.admits(head[0]));
        text::lemma_trimmed_fixpoint(amount);
        assert(tail.drop_last().drop_last() == Seq::<char>::empty());
        assert(decimal::value_of(tail) == minor % 100);
        assert(text::drawn_from(tail, Charset::Digits));
        assert(amount_of(amount, currency) == (minor / 100) * 100 + (minor % 100) * 1) by {
            assert(power_of_ten(0) == 1 && power_of_ten(2) == 100);
        }
    }
    assert(m.text_spec() == code + seq![' '] + amount);
    assert(Currency::named(code) == Some(currency));
    assert(text::trimmed(amount) == amount);
    assert(is_decimal_amount(amount));
    assert(fraction_part(amount).len() == currency.places());
    assert(amount_of(amount, currency) == minor);
}

/// Two amounts of one currency add up, unless the sum takes more than 64 bits.
pub proof fn law_amounts_add_up(a: Money, b: Money, r: Result<Money, MoneyError>)
    requires
        a.sum(b, r),
    ensures
        r is Ok <==> a.currency() == b.currency() && a.minor() + b.minor() <= u64::MAX,
        r matches Ok(m) ==> m.minor() == a.minor() + b.minor() && m.currency() == a.currency()
            && m.currency() == b.currency(),
{
}

/// What is left after a subtraction and what was taken come to what was there. A
/// subtraction that would leave nothing, or less, is refused, each for its own
/// reason.
pub proof fn law_what_is_left_and_what_was_taken_add_up(
    a: Money,
    b: Money,
    r: Result<Money, MoneyError>,
)
    requires
        a.difference(b, r),
    ensures
        r is Ok <==> a.currency() == b.currency() && a.minor() > b.minor(),
        r matches Ok(m) ==> m.minor() + b.minor() == a.minor() && m.currency() == a.currency(),
        a.currency() == b.currency() && a.minor() == b.minor() ==> r == Err::<Money, MoneyError>(
            MoneyError::Zero,
        ),
        a.currency() == b.currency() && a.minor() < b.minor() ==> r == Err::<Money, MoneyError>(
            MoneyError::Underflow,
        ),
{
}

/// Once an amount is the amount, and once more adds it once more; not at all is
/// refused.
pub proof fn law_multiplying_is_adding_again(
    a: Money,
    n: u64,
    once: Result<Money, MoneyError>,
    some: Money,
    more: Money,
    none: Result<Money, MoneyError>,
)
    requires
        a.valid(),
        n < u64::MAX,
        a.times(1, once),
        a.times(n, Ok(some)),
        a.times((n + 1) as u64, Ok(more)),
        a.times(0, none),
    ensures
        once == Ok::<Money, MoneyError>(a),
        more.minor() == some.minor() + a.minor(),
        more.currency() == a.currency(),
        none == Err::<Money, MoneyError>(MoneyError::Zero),
{
    assert(a.minor() * 1 == a.minor());
    if let Ok(m) = once {
        Money::lemma_ext(m, a);
    }
    let (x, k) = (a.minor() as int, n as int);
    assert(x * (k + 1) == x * k + x) by (nonlinear_arith);
}

/// A hundred minor units make a major one, but for yen and won, which have none.
pub proof fn law_a_hundred_minor_units_make_a_major_one(
    major: u64,
    currency: Currency,
    r: Result<Money, MoneyError>,
)
    requires
        Money::whole(major, currency, r),
    ensures
        currency.places() == 0 <==> currency is Jpy || currency is Krw,
        currency.places() == 0 || currency.places() == 2,
        r matches Ok(m) ==> m.currency() == currency && m.minor() == (if currency is Jpy
            || currency is Krw {
            major as int
        } else {
            100 * major
        }),
        r is Err ==> major == 0 || 100 * major > u64::MAX,
{
    reveal_with_fuel(power_of_ten, 3);
    assert(power_of_ten(0) == 1 && power_of_ten(2) == 100);
    let per = power_of_ten(currency.places());
    assert(per == 1 || per == 100);
    assert(per == 1 ==> major * per == major) by (nonlinear_arith);
    assert(per == 100 ==> major * per == 100 * major) by (nonlinear_arith);
}

/// A zero after the decimals changes nothing: one decimal stands for tenths, and a
/// whole amount for that many major units.
#[verifier::spinoff_prover]
pub proof fn law_decimals_stand_for_tenths_and_hundredths(
    whole: Seq<char>,
    tenth: char,
    currency: Currency,
)
    requires
        currency.places() == 2,
        whole.len() > 0,
        text::drawn_from(whole, Charset::Digits),
        '0' <= tenth && tenth <= '9',
    ensures
        amount_of(whole, currency) == 100 * decimal::value_of(whole),
        amount_of(whole + seq!['.', tenth], currency) == 100 * decimal::value_of(whole) + 10 * (
        tenth as int - 48),
        amount_of(whole + seq!['.', tenth, '0'], currency) == amount_of(
            whole + seq!['.', tenth],
            currency,
        ),
        is_decimal_amount(whole),
        is_decimal_amount(whole + seq!['.', tenth]),
        !is_decimal_amount(whole + seq!['.']),
        !is_decimal_amount(seq!['.', tenth]),
{
    reveal_with_fuel(power_of_ten, 3);
    reveal_with_fuel(decimal::value_of, 4);
    assert(power_of_ten(0) == 1 && power_of_ten(1) == 10 && power_of_ten(2) == 100);
    let (one, two, bare, headless) = (
        whole + seq!['.', tenth],
        whole + seq!['.', tenth, '0'],
        whole + seq!['.'],
        seq!['.', tenth],
    );
    assert forall|i: int| 0 <= i < whole.len() implies #[trigger] whole[i] != '.' && one[i]
        == whole[i] && two[i] == whole[i] && bare[i] == whole[i] by {
        assert(Charset::Digits.admits(whole[i]));
    }
    let n = whole.len() as int;
    assert forall|j: int| 0 <= j < n implies #[trigger] one[j] != '.' by {
        assert(one[j] == whole[j]);
    }
    assert forall|j: int| 0 <= j < n implies #[trigger] two[j] != '.' by {
        assert(two[j] == whole[j]);
    }
    assert forall|j: int| 0 <= j < n implies #[trigger] bare[j] != '.' by {
        assert(bare[j] == whole[j]);
    }
    text::lemma_position_is(whole, '.', n);
    text::lemma_position_is(one, '.', n);
    text::lemma_position_is(two, '.', n);
    text::lemma_position_is(bare, '.', n);
    text::lemma_position_is(headless, '.', 0);
    text::lemma_position_of(whole, '.');
    text::lemma_position_of(one, '.');
    text::lemma_position_of(two, '.');
    text::lemma_position_of(bare, '.');
    assert(whole.take(n) =~= whole);
    assert(one.take(n) =~= whole && two.take(n) =~= whole && bare.take(n) =~= whole);
    assert(fraction_part(one) =~= seq![tenth]);
    assert(fraction_part(two) =~= seq![tenth, '0']);
    assert(fraction_part(bare) =~= Seq::<char>::empty());
    assert(headless.take(0) =~= Seq::<char>::empty());
    assert(seq![tenth].drop_last() =~= Seq::<char>::empty());
    assert(seq![tenth, '0'].drop_last() =~= seq![tenth]);
    assert(decimal::value_of(seq![tenth]) == tenth as int - 48);
    assert(decimal::value_of(seq![tenth, '0']) == 10 * (tenth as int - 48));
    assert(text::drawn_from(seq![tenth], Charset::Digits));
    let v = decimal::value_of(whole);
    let tenths = (tenth as int - 48) as nat;
    assert(fraction_part(one).len() == 1 && fraction_part(two).len() == 2);
    assert(amount_of(one, currency) == v * 100 + tenths * 10);
    assert(amount_of(two, currency) == v * 100 + (10 * tenths) * power_of_ten(0));
    assert((10 * tenths) * power_of_ten(0) == 10 * tenths) by (nonlinear_arith)
        requires
            power_of_ten(0) == 1,
    ;
    assert(fraction_part(whole) =~= Seq::<char>::empty());
    assert(decimal::value_of(fraction_part(whole)) == 0);
    assert(0 * power_of_ten(2) == 0) by (nonlinear_arith);
    assert(amount_of(whole, currency) == v * 100);
}

} // verus!
