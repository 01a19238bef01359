use vstd::prelude::*;

verus! {

/// The way in which a stream broke the format.
#[derive(Clone, Copy, Debug, PartialEq, Eq, Structural)]
pub enum Corruption {
    /// The stream ended while the range coder still needed bytes.
    PrematureEnd,
    /// A decompaction table is empty or its values do not strictly increase.
    TableNotIncreasing,
    /// A decompaction table holds a value outside its channel's range.
    ValueOutOfRange,
    /// The number of decompaction tables differs from the number of channels.
    ChannelCount,
}

/// Everything that can go wrong inside the decoding core.
///
/// Nothing is retried: once the range coder has lost its place in the stream
/// the whole decode has to be abandoned.
#[derive(Clone, Copy, Debug, PartialEq, Eq)]
pub enum Error {
    /// The input is not a well-formed stream.
    Malformed(Corruption),
    /// The operation exists in the interface but has no implementation.
    Unimplemented(&'static str),
}

impl Error {
    /// The text that a front end shows for this error.
    pub open spec fn description_spec(self) -> Seq<char> {
        match self {
            Error::Malformed(Corruption::PrematureEnd) => "malformed input: the stream ends too early"@,
            Error::Malformed(Corruption::TableNotIncreasing) => "malformed input: a decompaction table does not strictly increase"@,
            Error::Malformed(Corruption::ValueOutOfRange) => "malformed input: a decompaction table leaves its channel's range"@,
            Error::Malformed(Corruption::ChannelCount) => "malformed input: the decompaction tables do not match the channels"@,
            Error::Unimplemented(what) => what@,
        }
    }

    /// A short human-readable account of the error.
    pub fn description(&self) -> (text: &'static str)
        ensures
            text@ == self.description_spec(),
    {
        match self {
            Error::Malformed(Corruption::PrematureEnd) => "malformed input: the stream ends too early",
            Error::Malformed(Corruption::TableNotIncreasing) => "malformed input: a decompaction table does not strictly increase",
            Error::Malformed(Corruption::ValueOutOfRange) => "malformed input: a decompaction table leaves its channel's range",
            Error::Malformed(Corruption::ChannelCount) => "malformed input: the decompaction tables do not match the channels",
            Error::Unimplemented(what) => what,
        }
    }
}

} // verus!
