//! Bounded integers.
//!
//! An integer known to lie in `min..=max` is decoded by bisection: one
//! decision says whether it lies in the lower or the upper half of the
//! interval, and the chosen half is bisected in turn until a single value is
//! left. The context of a decision is taken from the width of the interval
//! and the number of halvings before it, and every context starts out
//! leaning toward the lower half, so values near `min` cost the fewest bits.

use crate::error::{Corruption, Error};
use crate::numbers::chances::{chances_valid, schedule_closed, ChanceTable, Context, Decision};
use crate::numbers::encoding::{carries, lemma_carried_decision, lemma_opened_carries, stream};
use crate::numbers::rac::{decided_in, opened, CoderState, RangeCoder};
use vstd::prelude::*;

verus! {

/// The depth of the decision after one taken at `depth`: depths stop counting at 31.
pub open spec fn deeper(depth: nat) -> nat {
    if depth < 31 {
        depth + 1
    } else {
        31
    }
}

/// The largest value of the lower half of `lo..=hi`.
pub open spec fn midpoint(lo: int, hi: int) -> int {
    lo + (hi - lo) / 2
}

/// The outcome of bisecting `lo..=hi` from the state `s` after `depth`
/// earlier halvings: the value, and the decoder and chances after the last
/// decision. `None` when the stream ends first. A bit of 0 keeps the lower
/// half `lo..=midpoint`, a bit of 1 the upper half.
pub open spec fn bisected(
    s: CoderState,
    chances: Seq<u16>,
    updates: Seq<(u16, u16)>,
    lo: int,
    hi: int,
    depth: nat,
) -> Option<(int, CoderState, Seq<u16>)>
    decreases hi - lo,
{
    if lo >= hi {
        Some((lo, s, chances))
    } else {
        match decided_in(s, chances, updates, Context::at_spec((hi - lo) as nat, depth)) {
            None => None,
            Some((bit, next, learned)) => if bit {
                bisected(next, learned, updates, midpoint(lo, hi) + 1, hi, deeper(depth))
            } else {
                bisected(next, learned, updates, lo, midpoint(lo, hi), deeper(depth))
            },
        }
    }
}

/// The outcome of decoding an integer of `min..=max` from the state `s`.
pub open spec fn bounded(s: CoderState, chances: Seq<u16>, updates: Seq<(u16, u16)>, min: int, max: int) -> Option<
    (int, CoderState, Seq<u16>),
> {
    bisected(s, chances, updates, min, max, 0)
}

/// Whatever the stream holds, bisection ends on a value of the interval.
pub proof fn lemma_bisected_within(
    s: CoderState,
    chances: Seq<u16>,
    updates: Seq<(u16, u16)>,
    lo: int,
    hi: int,
    depth: nat,
)
    requires
        lo <= hi,
    ensures
        bisected(s, chances, updates, lo, hi, depth) matches Some((value, _, _)) ==> lo <= value <= hi,
    decreases hi - lo,
{
    if lo < hi {
        match decided_in(s, chances, updates, Context::at_spec((hi - lo) as nat, depth)) {
            None => {},
            Some((bit, next, learned)) => {
                if bit {
                    lemma_bisected_within(next, learned, updates, midpoint(lo, hi) + 1, hi, deeper(depth));
                } else {
                    lemma_bisected_within(next, learned, updates, lo, midpoint(lo, hi), deeper(depth));
                }
            },
        }
    }
}

/// The decisions that spell `value` when `lo..=hi` is bisected after `depth`
/// earlier halvings: at each step a 1 if the value lies in the upper half.
pub open spec fn bisection(lo: int, hi: int, value: int, depth: nat) -> Seq<Decision>
    decreases hi - lo,
{
    if lo >= hi {
        Seq::empty()
    } else {
        let context = Context::at_spec((hi - lo) as nat, depth);
        if value > midpoint(lo, hi) {
            seq![Decision { context, bit: true }] + bisection(midpoint(lo, hi) + 1, hi, value, deeper(depth))
        } else {
            seq![Decision { context, bit: false }] + bisection(lo, midpoint(lo, hi), value, deeper(depth))
        }
    }
}

/// A decoder that stands at the start of the code of a bisection of `value`,
/// followed by the decisions `rest`, reads `value` and then stands at the
/// start of the code of `rest`.
pub proof fn lemma_bisection_read_back(
    s: CoderState,
    chances: Seq<u16>,
    updates: Seq<(u16, u16)>,
    lo: int,
    hi: int,
    value: int,
    depth: nat,
    rest: Seq<Decision>,
)
    requires
        s.wf(),
        chances_valid(chances),
        schedule_closed(updates),
        lo <= value <= hi,
        carries(s, chances, updates, bisection(lo, hi, value, depth) + rest),
    ensures
        bisected(s, chances, updates, lo, hi, depth) matches Some((read, next, learned)) && read == value
            && next.wf() && chances_valid(learned) && carries(next, learned, updates, rest),
    decreases hi - lo,
{
    let all = bisection(lo, hi, value, depth) + rest;
    if lo >= hi {
        assert(all =~= rest);
    } else {
        let context = Context::at_spec((hi - lo) as nat, depth);
        let upper = value > midpoint(lo, hi);
        let tail = if upper {
            bisection(midpoint(lo, hi) + 1, hi, value, deeper(depth))
        } else {
            bisection(lo, midpoint(lo, hi), value, deeper(depth))
        };
        assert(all[0] == Decision { context, bit: upper });
        assert(all.drop_first() =~= tail + rest);
        lemma_carried_decision(s, chances, updates, all);
        match decided_in(s, chances, updates, context) {
            None => {},
            Some((bit, next, learned)) => {
                if upper {
                    lemma_bisection_read_back(
                        next,
                        learned,
                        updates,
                        midpoint(lo, hi) + 1,
                        hi,
                        value,
                        deeper(depth),
                        rest,
                    );
                } else {
                    lemma_bisection_read_back(next, learned, updates, lo, midpoint(lo, hi), value, deeper(depth), rest);
                }
            },
        }
    }
}

/// Every integer of `min..=max` comes back from the stream of its own
/// bisection, and the stream is used up when it has.
pub proof fn lemma_bounded_round_trip(min: int, max: int, value: int, chances: Seq<u16>, updates: Seq<(u16, u16)>)
    requires
        min <= value <= max,
        chances_valid(chances),
        schedule_closed(updates),
    ensures
        ({
            &&& opened(stream(bisection(min, max, value, 0), chances, updates)) matches Some(s)
            &&& s.wf()
            &&& bounded(s, chances, updates, min, max) matches Some((read, end, _))
            &&& read == value
            &&& end.rest.len() == 0
        }),
{
    let decisions = bisection(min, max, value, 0);
    lemma_opened_carries(decisions, chances, updates);
    let s = opened(stream(decisions, chances, updates))->Some_0;
    assert(decisions + Seq::<Decision>::empty() =~= decisions);
    lemma_bisection_read_back(s, chances, updates, min, max, value, 0, Seq::empty());
}

impl RangeCoder {
    /// Decodes an integer of `min..=max`.
    ///
    /// The result always lies in `min..=max`. When `min == max` no decision
    /// is taken: decoder and chances stay as they were. Fails when the stream
    /// ends before the value is known.
    pub fn read_near_zero(&mut self, min: i32, max: i32, context: &mut ChanceTable) -> (r: Result<i32, Error>)
        requires
            old(self).wf(),
            old(context).wf(),
            min <= max,
        ensures
            final(self).wf(),
            final(context).wf(),
            final(context).updates() == old(context).updates(),
            match bounded(old(self)@, old(context)@, old(context).updates(), min as int, max as int) {
                Some((value, state, chances)) => r == Ok::<i32, Error>(value as i32) && min <= value <= max
                    && final(self)@ == state && final(context)@ == chances,
                None => r == Err::<i32, Error>(Error::Malformed(Corruption::PrematureEnd)),
            },
            min == max ==> r == Ok::<i32, Error>(min) && final(self)@ == old(self)@ && final(context)@ == old(context)@,
    {
        let mut lo: i32 = min;
        let mut hi: i32 = max;
        let mut depth: u8 = 0;
        proof {
            lemma_bisected_within(old(self)@, old(context)@, old(context).updates(), min as int, max as int, 0);
        }
        while lo < hi
            invariant
                min <= lo <= hi <= max,
                depth <= 31,
                self.wf(),
                context.wf(),
                context.updates() == old(context).updates(),
                bounded(old(self)@, old(context)@, old(context).updates(), min as int, max as int) == bisected(
                    self@,
                    context@,
                    context.updates(),
                    lo as int,
                    hi as int,
                    depth as nat,
                ),
                min == max ==> self@ == old(self)@ && context@ == old(context)@,
            decreases hi - lo,
        {
            let width: u32 = (hi as i64 - lo as i64) as u32;
            let mid: i32 = (lo as i64 + (width / 2) as i64) as i32;
            match self.read(context, Context::at(width, depth)) {
                Err(e) => {
                    return Err(e);
                },
                Ok(bit) => {
                    if bit {
                        lo = mid + 1;
                    } else {
                        hi = mid;
                    }
                },
            }
            if depth < 31 {
                depth = depth + 1;
            }
        }
        Ok(lo)
    }
}

} // verus!
