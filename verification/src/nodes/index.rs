//! Restricted small-integer indices and the error of building one.

use vstd::prelude::*;

verus! {

/// A restricted index only valid from 0 to LIMIT - 1.
///
/// The value LIMIT itself is the one placeholder that marks an unoccupied
/// position.
#[derive(Debug, Clone, Copy, PartialEq)]
pub struct RestrictedNodeIndex<const LIMIT: u8>(pub u8);

/// The error type returned when attempting to construct an index outside the
/// accepted range of a RestrictedNodeIndex.
///
/// The first field is the limit, the second the rejected value.
#[derive(Debug, Clone, Copy, PartialEq, Eq, Structural)]
pub struct TryFromByteError(pub u8, pub usize);

impl<const LIMIT: u8> RestrictedNodeIndex<LIMIT> {
    /// Whether this is the placeholder value.
    pub open spec fn is_empty(self) -> bool {
        self.0 == LIMIT
    }

    /// A placeholder index value that indicates that the index is not occupied
    pub fn empty() -> (index: Self)
        ensures
            index.0 == LIMIT,
            index.is_empty(),
    {
        RestrictedNodeIndex(LIMIT)
    }

    /// Builds an index from a value below the limit, and rejects every other
    /// value with an error that carries the limit and the value.
    pub fn try_from(value: usize) -> (index: Result<Self, TryFromByteError>)
        ensures
            value < LIMIT ==> index == Ok::<Self, TryFromByteError>(
                RestrictedNodeIndex(value as u8),
            ),
            value >= LIMIT ==> index == Err::<Self, TryFromByteError>(
                TryFromByteError(LIMIT, value),
            ),
    {
        if value < LIMIT as usize {
            Ok(RestrictedNodeIndex(value as u8))
        } else {
            Err(TryFromByteError(LIMIT, value))
        }
    }

    /// The value of this index as a byte.
    pub fn to_u8(self) -> (byte: u8)
        ensures
            byte == self.0,
    {
        self.0
    }
}

/// The character of a decimal digit.
pub open spec fn digit_char(digit: int) -> char {
    if digit == 0 {
        '0'
    } else if digit == 1 {
        '1'
    } else if digit == 2 {
        '2'
    } else if digit == 3 {
        '3'
    } else if digit == 4 {
        '4'
    } else if digit == 5 {
        '5'
    } else if digit == 6 {
        '6'
    } else if digit == 7 {
        '7'
    } else if digit == 8 {
        '8'
    } else {
        '9'
    }
}

/// A number in decimal digits, the most significant first, with no zero in
/// front: a number below ten is its one digit, and any other number is the
/// digits of its tenth followed by its last digit.
pub open spec fn decimal(number: nat) -> Seq<char>
    decreases number,
{
    if number < 10 {
        seq![digit_char(number as int)]
    } else {
        decimal(number / 10).push(digit_char((number % 10) as int))
    }
}

/// The text of the error for a limit and a rejected value.
pub open spec fn rejection_text(limit: nat, value: nat) -> Seq<char> {
    "Input value ["@ + decimal(value) + "] is greater than the allowed maximum ["@ + decimal(limit)
        + "] for PartialNodeIndex."@
}

/// `usize`'s `to_string`: trusted to give the number in decimal digits, as
/// `Display` writes it.
#[verifier::external_body]
fn number_text(number: usize) -> (text: String)
    ensures
        text@ == decimal(number as nat),
{
    number.to_string()
}

impl TryFromByteError {
    /// The text that describes this error.
    pub fn message(&self) -> (text: String)
        ensures
            text@ == rejection_text(self.0 as nat, self.1 as nat),
    {
        let mut text = String::from_str("Input value [");
        text.append(number_text(self.1).as_str());
        text.append("] is greater than the allowed maximum [");
        text.append(number_text(self.0 as usize).as_str());
        text.append("] for PartialNodeIndex.");
        text
    }

    /// The limit that the rejected value had to stay under.
    pub fn limit(&self) -> (limit: u8)
        ensures
            limit == self.0,
    {
        self.0
    }

    /// The value that was rejected.
    pub fn value(&self) -> (value: usize)
        ensures
            value == self.1,
    {
        self.1
    }
}

} // verus!
