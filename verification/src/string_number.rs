use vstd::prelude::*;
use vstd::string::StringExecFns;
use crate::text::{spec_udec, u16_to_string};

verus! {

/// The highest string number an instrument may have.
pub const MAX_NUM_STRINGS: u8 = 12;

/// A 1-based instrument string identifier, between 1 and `MAX_NUM_STRINGS`.
#[derive(Debug, Clone, Copy, PartialEq, Eq, Hash, Structural)]
pub struct StringNumber(u8);

/// Why a requested string number was rejected.
#[derive(Debug, Clone, PartialEq, Eq)]
pub enum StringNumberError {
    Zero,
    TooHigh(u8),
}

impl StringNumberError {
    pub fn message(&self) -> (r: String)
        ensures
            self is Zero ==> r@
                == "A guitar cannot have a string number of zero (0). Guitar string numbering commences at one (1)."@,
            (forall|n: u8| *self == StringNumberError::TooHigh(n) ==> r@ == "The string number ("@
                + spec_udec(n as int) + ") is too high. The maximum is 12."@),
    {
        match self {
            StringNumberError::Zero => String::from_str(
                "A guitar cannot have a string number of zero (0). Guitar string numbering commences at one (1).",
            ),
            StringNumberError::TooHigh(n) => {
                let mut s = String::from_str("The string number (");
                s.append(u16_to_string(*n as u16).as_str());
                s.append(") is too high. The maximum is 12.");
                s
            },
        }
    }
}

impl StringNumber {
    /// The numeric value of this string number.
    pub closed spec fn value(self) -> u8 {
        self.0
    }

    pub fn new(string_number: u8) -> (r: Result<StringNumber, StringNumberError>)
        ensures
            string_number == 0 ==> r == Result::<StringNumber, StringNumberError>::Err(
                StringNumberError::Zero,
            ),
            1 <= string_number <= MAX_NUM_STRINGS ==> (r matches Ok(s) && s.value()
                == string_number),
            string_number > MAX_NUM_STRINGS ==> r == Result::<StringNumber, StringNumberError>::Err(
                StringNumberError::TooHigh(string_number),
            ),
    {
        if string_number == 0 {
            Err(StringNumberError::Zero)
        } else if string_number <= MAX_NUM_STRINGS {
            Ok(StringNumber(string_number))
        } else {
            Err(StringNumberError::TooHigh(string_number))
        }
    }

    pub fn get(&self) -> (r: u8)
        ensures
            r == self.value(),
    {
        self.0
    }

    /// The short label used in rendered descriptions: strings one to six carry the
    /// conventional open-pitch letter of a standard-tuned guitar, higher numbers are
    /// plain numerals.
    pub fn describe(&self) -> (r: String)
        ensures
            self.value() == 1 ==> r@ == "1_e"@,
            self.value() == 2 ==> r@ == "2_B"@,
            self.value() == 3 ==> r@ == "3_G"@,
            self.value() == 4 ==> r@ == "4_D"@,
            self.value() == 5 ==> r@ == "5_A"@,
            self.value() == 6 ==> r@ == "6_E"@,
            self.value() > 6 || self.value() == 0 ==> r@ == spec_udec(self.value() as int),
    {
        match self.0 {
            1 => String::from_str("1_e"),
            2 => String::from_str("2_B"),
            3 => String::from_str("3_G"),
            4 => String::from_str("4_D"),
            5 => String::from_str("5_A"),
            6 => String::from_str("6_E"),
            _ => u16_to_string(self.0 as u16),
        }
    }
}

} // verus!
