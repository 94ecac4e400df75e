use vstd::prelude::*;

verus! {

/// Follows a stream of values and records whether they all agree.
#[derive(Copy, Clone, Debug, PartialEq, Eq, Structural)]
pub enum EqualityVerifier {
    NoValue,
    Value(u8),
    Conflict,
}

impl EqualityVerifier {
    pub fn update(self, new: u8) -> (r: EqualityVerifier)
        ensures
            r == match self {
                EqualityVerifier::NoValue => EqualityVerifier::Value(new),
                EqualityVerifier::Value(current) => if current == new {
                    self
                } else {
                    EqualityVerifier::Conflict
                },
                EqualityVerifier::Conflict => EqualityVerifier::Conflict,
            },
    {
        match self {
            EqualityVerifier::NoValue => EqualityVerifier::Value(new),
            EqualityVerifier::Value(current) => {
                if current == new {
                    self
                } else {
                    EqualityVerifier::Conflict
                }
            },
            EqualityVerifier::Conflict => self,
        }
    }

    /// The value that every update agreed on.
    pub fn unwrap(self) -> (r: u8)
        requires
            self is Value,
        ensures
            self == EqualityVerifier::Value(r),
    {
        match self {
            EqualityVerifier::Value(value) => value,
            _ => 0,
        }
    }
}

} // verus!
