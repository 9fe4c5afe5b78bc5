//! Decimal numerals.
use crate::text;
use crate::text::Charset;
use vstd::prelude::*;

verus! {

/// The digit that stands for `d`.
pub open spec fn digit(d: nat) -> char
    recommends
        d < 10,
{
    (48 + d) as char
}

/// The decimal numeral of `n`, without leading zeros.
pub open spec fn decimal(n: nat) -> Seq<char>
    decreases n,
{
    if n < 10 {
        seq![digit(n)]
    } else {
        decimal(n / 10).push(digit(n % 10))
    }
}

/// The number that a string of digits stands for.
pub open spec fn value_of(s: Seq<char>) -> nat
    decreases s.len(),
{
    if s.len() == 0 {
        0
    } else {
        10 * value_of(s.drop_last()) + (s.last() as int - 48) as nat
    }
}

/// A number's numeral is made of digits and stands for that number.
pub proof fn lemma_decimal_reads_back(n: nat)
    ensures
        decimal(n).len() > 0,
        text::drawn_from(decimal(n), Charset::Digits),
        value_of(decimal(n)) == n,
        n > 0 ==> decimal(n)[0] != '0',
    decreases n,
{
    if n < 10 {
        assert(decimal(n).drop_last() == Seq::<char>::empty());
        reveal_with_fuel(value_of, 2);
    } else {
        lemma_decimal_reads_back(n / 10);
        assert(decimal(n).drop_last() == decimal(n / 10));
        assert forall|i: int| 0 <= i < decimal(n).len() implies Charset::Digits.admits(
            #[trigger] decimal(n)[i],
        ) by {
            if i < decimal(n).len() - 1 {
                assert(decimal(n)[i] == decimal(n / 10)[i]);
            }
        }
        assert(decimal(n)[0] == decimal(n / 10)[0]);
    }
}

/// Reading a prefix gives no more than reading the whole.
pub proof fn lemma_value_of_prefix(s: Seq<char>, i: int)
    requires
        text::drawn_from(s, Charset::Digits),
        0 <= i <= s.len(),
    ensures
        value_of(s.take(i)) <= value_of(s),
    decreases s.len() - i,
{
    if i < s.len() {
        lemma_value_of_prefix(s, i + 1);
        assert(s.take(i + 1).drop_last() == s.take(i));
    } else {
        assert(s.take(i) == s);
    }
}

/// The decimal numeral of `n`.
pub fn decimal_text(n: u64) -> (r: String)
    ensures
        r@ == decimal(n as nat),
    decreases n,
{
    let low: u8 = 48 + (n % 10) as u8;
    if n < 10 {
        let mut s = String::new();
        s.push(low as char);
        assert(s@ == seq![digit(n as nat)]);
        s
    } else {
        let mut s = decimal_text(n / 10);
        s.push(low as char);
        s
    }
}

/// The number that `digits` stands for; `None` where it takes more than
/// 64 bits.
pub fn read_decimal(digits: &[char]) -> (r: Option<u64>)
    requires
        text::drawn_from(digits@, Charset::Digits),
    ensures
        match r {
            Some(v) => v == value_of(digits@),
            None => value_of(digits@) > u64::MAX,
        },
{
    let mut total: u64 = 0;
    for i in 0..digits.len()
        invariant
            text::drawn_from(digits@, Charset::Digits),
            total == value_of(digits@.take(i as int)),
    {
        let c = digits[i];
        proof {
            assert(Charset::Digits.admits(digits@[i as int]));
            assert(digits@.take(i + 1).drop_last() == digits@.take(i as int));
            lemma_value_of_prefix(digits@, i + 1);
        }
        let d: u64 = (c as u32 - 48) as u64;
        match total.checked_mul(10) {
            None => {
                return None;
            },
            Some(tens) => match tens.checked_add(d) {
                None => {
                    return None;
                },
                Some(sum) => {
                    total = sum;
                },
            },
        }
    }
    assert(digits@.take(digits@.len() as int) == digits@);
    Some(total)
}

} // verus!
