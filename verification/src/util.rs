//! Small numeric helpers.

use std::ops::{Div, Rem};

use vstd::prelude::*;
use vstd::std_specs::ops::{DivSpec, RemSpec};

verus! {

pub trait DivRem<R>: Sized {
    /// Whether `self` can be divided by `divisor`.
    spec fn div_rem_req(self, divisor: R) -> bool;

    /// The quotient and the remainder of `self` by `divisor`.
    spec fn div_rem_spec(self, divisor: R) -> (Self, Self);

    /// Return quotient with remainder.
    fn div_rem(self, divisor: R) -> (pair: (Self, Self))
        requires
            self.div_rem_req(divisor),
        ensures
            pair == self.div_rem_spec(divisor),
    ;
}

impl<T, R> DivRem<R> for T where T: Copy + Div<R, Output = T> + Rem<R, Output = T>, R: Copy {
    open spec fn div_rem_req(self, divisor: R) -> bool {
        &&& T::obeys_div_spec()
        &&& T::obeys_rem_spec()
        &&& self.div_req(divisor)
        &&& self.rem_req(divisor)
    }

    open spec fn div_rem_spec(self, divisor: R) -> (Self, Self) {
        (self.div_spec(divisor), self.rem_spec(divisor))
    }

    fn div_rem(self, divisor: R) -> (pair: (Self, Self)) {
        let div = self / divisor;
        let rem = self % divisor;
        (div, rem)
    }
}

pub trait DigitChar {
    /// The character that `digit_char` returns.
    spec fn digit_char_spec(self) -> Option<char>;

    /// If this number is a single digit, return its ASCII char.
    fn digit_char(self) -> (c: Option<char>)
        ensures
            c == self.digit_char_spec(),
    ;
}

impl DigitChar for u8 {
    open spec fn digit_char_spec(self) -> Option<char> {
        if self < 10 {
            Some((self + 48) as char)
        } else {
            None
        }
    }

    fn digit_char(self) -> (c: Option<char>) {
        if self < 10 {
            Some((self + 48) as char)
        } else {
            None
        }
    }
}

} // verus!
