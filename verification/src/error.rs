use vstd::prelude::*;

verus! {

/// Every way an operation of this crate can be refused.
#[derive(Clone, Copy, Debug, PartialEq, Eq, Structural)]
pub enum Error {
    /// An accumulator would leave the range of `u64`.
    ArithmeticOverflow,
    /// A withdrawal asks for more than the account holds.
    InsufficientFunds,
    /// A snapshot was handed over whose figures contradict each other.
    CorruptSnapshot,
    /// No readable snapshot was handed over.
    MissingSnapshot,
    /// The caller is not the controller.
    Unauthorized,
}

impl Error {
    /// A one-line description, for the host to show.
    pub fn message(&self) -> (text: &'static str)
        ensures
            text@ == match *self {
                Error::ArithmeticOverflow => "arithmetic overflow"@,
                Error::InsufficientFunds => "insufficient funds"@,
                Error::CorruptSnapshot => "corrupt snapshot"@,
                Error::MissingSnapshot => "missing snapshot"@,
                Error::Unauthorized => "only the controller is allowed to call this method"@,
            },
    {
        match self {
            Error::ArithmeticOverflow => "arithmetic overflow",
            Error::InsufficientFunds => "insufficient funds",
            Error::CorruptSnapshot => "corrupt snapshot",
            Error::MissingSnapshot => "missing snapshot",
            Error::Unauthorized => "only the controller is allowed to call this method",
        }
    }
}

} // verus!
