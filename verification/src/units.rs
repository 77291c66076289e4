//! Amounts of coin and heights of blocks.

use vstd::prelude::*;
use crate::text::{decimal_text, digit, digit_char, push_decimal_text, string_push};

verus! {

/// The number of microunits in a unit of coin.
pub const MICRO_CONVERTER: u128 = 1_000_000;

/// An amount of coin, in microunits.
#[derive(Clone, Copy, Debug, PartialEq, Eq, Structural, PartialOrd, Ord, Hash)]
pub struct CoinValue(pub u128);

/// The height of a block.
#[derive(Clone, Copy, Debug, PartialEq, Eq, Structural, PartialOrd, Ord, Hash)]
pub struct BlockHeight(pub u64);

/// A number below a million as six digits, with leading zeros.
pub open spec fn six_digits(m: nat) -> Seq<char> {
    seq![
        digit_char(m / 100_000 % 10),
        digit_char(m / 10_000 % 10),
        digit_char(m / 1_000 % 10),
        digit_char(m / 100 % 10),
        digit_char(m / 10 % 10),
        digit_char(m % 10),
    ]
}

/// An amount of coin as text: the whole units, a point, and the six digits
/// of the microunits.
pub open spec fn coin_text(v: nat) -> Seq<char> {
    decimal_text(v / 1_000_000) + seq!['.'] + six_digits(v % 1_000_000)
}

impl Default for CoinValue {
    fn default() -> (r: CoinValue)
        ensures
            r.0 == 0,
    {
        CoinValue(0)
    }
}

impl Default for BlockHeight {
    fn default() -> (r: BlockHeight)
        ensures
            r.0 == 0,
    {
        BlockHeight(0)
    }
}

impl CoinValue {
    /// The amount of `i` whole units.
    pub fn from_millions(i: u64) -> (r: CoinValue)
        ensures
            r.0 == i * MICRO_CONVERTER,
    {
        assert(i * 1_000_000 <= u128::MAX) by (nonlinear_arith)
            requires
                i <= u64::MAX,
        ;
        CoinValue(i as u128 * MICRO_CONVERTER)
    }

    /// The sum of two amounts, unless it is more than 128 bits hold.
    pub fn checked_add(self, other: CoinValue) -> (r: Option<CoinValue>)
        ensures
            r == if self.0 + other.0 <= u128::MAX {
                Some(CoinValue((self.0 + other.0) as u128))
            } else {
                None
            },
    {
        match self.0.checked_add(other.0) {
            Some(a) => Some(CoinValue(a)),
            None => None,
        }
    }

    /// The difference of two amounts, unless the second is the greater.
    pub fn checked_sub(self, other: CoinValue) -> (r: Option<CoinValue>)
        ensures
            r == if self.0 >= other.0 {
                Some(CoinValue((self.0 - other.0) as u128))
            } else {
                None
            },
    {
        match self.0.checked_sub(other.0) {
            Some(a) => Some(CoinValue(a)),
            None => None,
        }
    }

    /// The amount in units, with six decimal places.
    pub fn to_string(&self) -> (text: String)
        ensures
            text@ == coin_text(self.0 as nat),
    {
        let whole: u128 = self.0 / MICRO_CONVERTER;
        let micro: u128 = self.0 % MICRO_CONVERTER;
        let mut text = String::new();
        push_decimal_text(&mut text, whole);
        string_push(&mut text, '.');
        string_push(&mut text, digit((micro / 100_000 % 10) as u8));
        string_push(&mut text, digit((micro / 10_000 % 10) as u8));
        string_push(&mut text, digit((micro / 1_000 % 10) as u8));
        string_push(&mut text, digit((micro / 100 % 10) as u8));
        string_push(&mut text, digit((micro / 10 % 10) as u8));
        string_push(&mut text, digit((micro % 10) as u8));
        assert(text@ =~= coin_text(self.0 as nat));
        text
    }
}

} // verus!
