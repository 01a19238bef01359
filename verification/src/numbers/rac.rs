//! The binary range coder.
//!
//! The decoder keeps an interval of width `range` and the offset `low` of the
//! encoded number inside it. Each decision splits the interval in proportion
//! to a probability, keeps the part in which the number lies, and refills the
//! interval from the stream one byte at a time once it has become too narrow.

use crate::error::{Corruption, Error};
use crate::numbers::chances::{is_state, observed, ChanceTable, Context};
use vstd::prelude::*;

verus! {

/// The interval is refilled as soon as it is no wider than this.
pub const MIN_RANGE: u32 = 0x1_0000;

/// The widest interval, and the width that decoding starts with.
pub const MAX_RANGE: u32 = 0x100_0000;

/// The number of bytes that opening a stream consumes.
pub const LEAD_BYTES: usize = 3;

/// A range decoder as a mathematical value: the offset of the encoded number
/// in the current interval, the interval's width, and the bytes not yet read.
pub struct CoderState {
    pub low: int,
    pub range: int,
    pub rest: Seq<u8>,
}

impl CoderState {
    /// Between two decisions the interval is wider than [`MIN_RANGE`] and the offset lies inside it.
    pub open spec fn wf(self) -> bool {
        &&& MIN_RANGE < self.range <= MAX_RANGE
        &&& 0 <= self.low < self.range
    }
}

/// The decoder at the start of `bytes`: the first three bytes, most
/// significant first, are the offset in the widest interval. A stream shorter
/// than that cannot be opened.
pub open spec fn opened(bytes: Seq<u8>) -> Option<CoderState> {
    if bytes.len() < 3 {
        None
    } else {
        Some(
            CoderState {
                low: (bytes[0] * 256 + bytes[1]) * 256 + bytes[2],
                range: MAX_RANGE as int,
                rest: bytes.skip(3),
            },
        )
    }
}

/// The part of an interval of width `range` that belongs to the bit 0 when 0
/// has `probability` 4096ths: the nearest whole number to the exact share.
pub open spec fn zero_share(range: int, probability: int) -> int {
    (range * probability + 2048) / 4096
}

/// The decision that the state `s` holds for `probability`: 0 when the offset
/// lies in the lower part of the interval, which is the share of 0.
pub open spec fn decided_bit(s: CoderState, probability: int) -> bool {
    s.low >= zero_share(s.range, probability)
}

/// The state once the interval has been narrowed to the decided part, before any refill.
pub open spec fn narrowed(s: CoderState, probability: int) -> CoderState {
    let share = zero_share(s.range, probability);
    if s.low >= share {
        CoderState { low: s.low - share, range: s.range - share, rest: s.rest }
    } else {
        CoderState { low: s.low, range: share, rest: s.rest }
    }
}

/// The state once the interval is wide enough again: while it is not, the
/// next byte is shifted into the offset and the interval grows 256-fold.
/// `None` when the stream ends first.
pub open spec fn refilled(s: CoderState) -> Option<CoderState>
    decreases s.rest.len(),
{
    if s.range > MIN_RANGE {
        Some(s)
    } else if s.rest.len() == 0 {
        None
    } else {
        refilled(
            CoderState { low: s.low * 256 + s.rest[0], range: s.range * 256, rest: s.rest.drop_first() },
        )
    }
}

/// One decision: the bit and the state after it, or `None` when the stream
/// ends before the interval has been refilled.
pub open spec fn decided(s: CoderState, probability: int) -> Option<(bool, CoderState)> {
    match refilled(narrowed(s, probability)) {
        Some(next) => Some((decided_bit(s, probability), next)),
        None => None,
    }
}

/// One decision in `context`: the bit, the state after it, and the chances
/// after the bit has been observed.
pub open spec fn decided_in(s: CoderState, chances: Seq<u16>, updates: Seq<(u16, u16)>, context: Context) -> Option<
    (bool, CoderState, Seq<u16>),
> {
    match decided(s, chances[context.slot()] as int) {
        Some((bit, next)) => Some((bit, next, observed(chances, updates, context, bit))),
        None => None,
    }
}

/// The share of 0 is never empty and never the whole interval, so either
/// decision leaves an interval to go on with.
pub proof fn lemma_zero_share_bounds(range: int, probability: int)
    requires
        MIN_RANGE < range <= MAX_RANGE,
        is_state(probability),
    ensures
        0 < zero_share(range, probability) < range,
        range * probability + 2048 < 0x10_0000_0000,
{
    assert(range * 1 <= range * probability <= range * 4095) by (nonlinear_arith)
        requires
            0 < range,
            1 <= probability <= 4095,
    ;
}

/// Narrowing keeps the offset inside an interval that is not empty.
pub proof fn lemma_narrowed_bounds(s: CoderState, probability: int)
    requires
        s.wf(),
        is_state(probability),
    ensures
        0 < narrowed(s, probability).range <= MAX_RANGE,
        0 <= narrowed(s, probability).low < narrowed(s, probability).range,
        narrowed(s, probability).rest == s.rest,
{
    lemma_zero_share_bounds(s.range, probability);
}

/// Refilling ends in a valid state that has consumed a prefix of the bytes.
pub proof fn lemma_refilled_valid(s: CoderState)
    requires
        0 < s.range <= MAX_RANGE,
        0 <= s.low < s.range,
    ensures
        refilled(s) matches Some(next) ==> next.wf() && next.rest.len() <= s.rest.len(),
    decreases s.rest.len(),
{
    if s.range <= MIN_RANGE && s.rest.len() > 0 {
        lemma_refilled_valid(
            CoderState { low: s.low * 256 + s.rest[0], range: s.range * 256, rest: s.rest.drop_first() },
        );
    }
}

/// A decision taken in a valid state leaves a valid state.
pub proof fn lemma_decided_valid(s: CoderState, probability: int)
    requires
        s.wf(),
        is_state(probability),
    ensures
        decided(s, probability) matches Some((bit, next)) ==> next.wf() && next.rest.len() <= s.rest.len(),
{
    lemma_narrowed_bounds(s, probability);
    lemma_refilled_valid(narrowed(s, probability));
}

/// A range decoder over a stream that is held in memory.
#[derive(Debug, PartialEq, Eq)]
pub struct RangeCoder {
    data: Vec<u8>,
    pos: usize,
    low: u32,
    range: u32,
}

impl View for RangeCoder {
    type V = CoderState;

    closed spec fn view(&self) -> CoderState {
        CoderState { low: self.low as int, range: self.range as int, rest: self.data@.skip(self.pos as int) }
    }
}

impl RangeCoder {
    /// The read position lies inside the stream.
    pub closed spec fn in_stream(&self) -> bool {
        self.pos <= self.data@.len()
    }

    /// Whether the decoder stands between two decisions.
    pub open spec fn wf(&self) -> bool {
        &&& self.in_stream()
        &&& self@.wf()
    }

    /// Opens `data` for decoding.
    ///
    /// Fails when the stream is too short to hold the three leading bytes.
    pub fn new(data: Vec<u8>) -> (r: Result<RangeCoder, Error>)
        ensures
            match opened(data@) {
                Some(state) => r matches Ok(coder) && coder.wf() && coder@ == state,
                None => r == Err::<RangeCoder, Error>(Error::Malformed(Corruption::PrematureEnd)),
            },
    {
        if data.len() < LEAD_BYTES {
            return Err(Error::Malformed(Corruption::PrematureEnd));
        }
        let low: u32 = (data[0] as u32 * 256 + data[1] as u32) * 256 + data[2] as u32;
        Ok(RangeCoder { data, pos: LEAD_BYTES, low, range: MAX_RANGE })
    }

    /// The number of bytes of the stream that have not been read yet.
    pub fn remaining(&self) -> (n: usize)
        requires
            self.wf(),
        ensures
            n == self@.rest.len(),
    {
        self.data.len() - self.pos
    }

    /// Decodes one bit for which 0 has `probability` 4096ths.
    ///
    /// Fails, and leaves the decoder as it was, when the stream ends before
    /// the interval has been refilled.
    pub fn read_bit(&mut self, probability: u16) -> (r: Result<bool, Error>)
        requires
            old(self).wf(),
            is_state(probability as int),
        ensures
            final(self).wf(),
            match decided(old(self)@, probability as int) {
                Some((bit, state)) => r == Ok::<bool, Error>(bit) && final(self)@ == state,
                None => r == Err::<bool, Error>(Error::Malformed(Corruption::PrematureEnd)) && final(self)@ == old(self)@,
            },
    {
        proof {
            lemma_zero_share_bounds(self.range as int, probability as int);
        }
        let share: u32 = ((self.range as u64 * probability as u64 + 2048) / 4096) as u32;
        let bit: bool = self.low >= share;
        let mut low: u32 = if bit {
            self.low - share
        } else {
            self.low
        };
        let mut range: u32 = if bit {
            self.range - share
        } else {
            share
        };
        let mut pos: usize = self.pos;
        while range <= MIN_RANGE
            invariant
                *self == *old(self),
                old(self).wf(),
                pos <= self.data@.len(),
                0 <= low < range <= MAX_RANGE,
                refilled(narrowed(old(self)@, probability as int)) == refilled(
                    CoderState { low: low as int, range: range as int, rest: self.data@.skip(pos as int) },
                ),
            decreases MAX_RANGE - range,
        {
            if pos >= self.data.len() {
                return Err(Error::Malformed(Corruption::PrematureEnd));
            }
            assert(self.data@.skip(pos as int).drop_first() =~= self.data@.skip(pos + 1));
            low = low * 256 + self.data[pos] as u32;
            range = range * 256;
            pos = pos + 1;
        }
        self.low = low;
        self.range = range;
        self.pos = pos;
        Ok(bit)
    }

    /// Decodes one bit in `context` and lets `table` learn from it.
    ///
    /// Fails, and leaves decoder and table as they were, when the stream ends
    /// before the interval has been refilled.
    pub fn read(&mut self, table: &mut ChanceTable, context: Context) -> (r: Result<bool, Error>)
        requires
            old(self).wf(),
            old(table).wf(),
        ensures
            final(self).wf(),
            final(table).wf(),
            final(table).updates() == old(table).updates(),
            match decided_in(old(self)@, old(table)@, old(table).updates(), context) {
                Some((bit, state, chances)) => r == Ok::<bool, Error>(bit) && final(self)@ == state && final(table)@
                    == chances,
                None => r == Err::<bool, Error>(Error::Malformed(Corruption::PrematureEnd)) && final(self)@ == old(self)@ && final(table)@ == old(table)@,
            },
    {
        let probability: u16 = table.probability_for(context);
        match self.read_bit(probability) {
            Ok(bit) => {
                table.observe(context, bit);
                Ok(bit)
            },
            Err(e) => Err(e),
        }
    }
}

} // verus!
