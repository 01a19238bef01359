//! The encoder's side of the range coder, as mathematics.
//!
//! No encoder runs in this library. What an encoder has to produce is fixed
//! all the same, because the decoder must find its way back through it: this
//! module defines the arithmetic code of a sequence of decisions and proves
//! that the decoder, set on that code, takes exactly those decisions.

use crate::numbers::chances::{chances_valid, is_state, lemma_observed_valid, observed, schedule_closed, Decision};
use crate::numbers::rac::{
    decided_bit, decided_in, lemma_decided_valid, lemma_narrowed_bounds, lemma_zero_share_bounds, narrowed, opened,
    refilled, zero_share, CoderState, MAX_RANGE, MIN_RANGE,
};
use vstd::prelude::*;

verus! {

/// 256 to the power `n`.
pub open spec fn pow256(n: nat) -> int
    decreases n,
{
    if n == 0 {
        1
    } else {
        256 * pow256((n - 1) as nat)
    }
}

/// The number that `bytes` spells, most significant byte first.
pub open spec fn be_value(bytes: Seq<u8>) -> int
    decreases bytes.len(),
{
    if bytes.len() == 0 {
        0
    } else {
        be_value(bytes.drop_last()) * 256 + bytes.last()
    }
}

/// The `len` lowest base-256 digits of `v`, most significant first.
pub open spec fn be_bytes(v: int, len: nat) -> Seq<u8>
    decreases len,
{
    if len == 0 {
        Seq::empty()
    } else {
        be_bytes(v / 256, (len - 1) as nat).push((v % 256) as u8)
    }
}

/// Powers of 256 are positive.
pub proof fn lemma_pow256_positive(n: nat)
    ensures
        pow256(n) >= 1,
    decreases n,
{
    if n > 0 {
        lemma_pow256_positive((n - 1) as nat);
    }
}

/// A string of `n` bytes spells a number below `256^n`.
pub proof fn lemma_be_value_bound(bytes: Seq<u8>)
    ensures
        0 <= be_value(bytes) < pow256(bytes.len()),
    decreases bytes.len(),
{
    if bytes.len() > 0 {
        lemma_be_value_bound(bytes.drop_last());
    }
}

/// The first byte of a string weighs `256^(n - 1)`.
pub proof fn lemma_be_value_front(bytes: Seq<u8>)
    requires
        bytes.len() > 0,
    ensures
        be_value(bytes) == bytes[0] * pow256((bytes.len() - 1) as nat) + be_value(bytes.drop_first()),
    decreases bytes.len(),
{
    if bytes.len() == 1 {
        assert(bytes.drop_last().len() == 0);
        assert(bytes.drop_first().len() == 0);
        assert(be_value(bytes.drop_last()) == 0);
        assert(be_value(bytes.drop_first()) == 0);
    } else {
        let init = bytes.drop_last();
        let tail = bytes.drop_first();
        lemma_be_value_front(init);
        assert(init.drop_first() =~= tail.drop_last());
        let weight = pow256((bytes.len() - 2) as nat);
        let inner = be_value(tail.drop_last());
        let first = bytes[0] as int;
        assert(be_value(init) == first * weight + inner);
        assert(be_value(tail) == inner * 256 + bytes.last());
        assert(pow256((bytes.len() - 1) as nat) == 256 * weight);
        assert((first * weight + inner) * 256 == first * (256 * weight) + inner * 256) by (nonlinear_arith);
    }
}

/// Writing a number that fits in `len` bytes and reading it back gives the number.
pub proof fn lemma_be_bytes_spell(v: int, len: nat)
    requires
        0 <= v < pow256(len),
    ensures
        be_bytes(v, len).len() == len,
        be_value(be_bytes(v, len)) == v,
    decreases len,
{
    if len > 0 {
        lemma_be_bytes_spell(v / 256, (len - 1) as nat);
        let init = be_bytes(v / 256, (len - 1) as nat);
        assert(be_bytes(v, len).drop_last() =~= init);
    }
}

/// How many bytes a refill shifts in when the interval has shrunk to `range`.
pub open spec fn refills(range: int) -> nat {
    if range > 0x1_0000 {
        0
    } else if range > 0x100 {
        1
    } else if range > 1 {
        2
    } else {
        3
    }
}

/// The width of the interval after the refill that follows a decision which left `range`.
pub open spec fn widened(range: int) -> int {
    if range > 0x1_0000 {
        range
    } else if range > 0x100 {
        range * 0x100
    } else if range > 1 {
        range * 0x1_0000
    } else {
        range * 0x100_0000
    }
}

/// The number that a decoder state stands for: its offset, followed by the bytes it has not read.
pub open spec fn pending(s: CoderState) -> int {
    s.low * pow256(s.rest.len()) + be_value(s.rest)
}

/// A refill widens the interval by one factor of 256 for every byte that it shifts in.
pub proof fn lemma_widened_scale(range: int, n: nat)
    requires
        range >= 1,
    ensures
        widened(range) * pow256(n) == range * pow256(n + refills(range)),
        MIN_RANGE < widened(range),
        range <= MAX_RANGE ==> widened(range) <= MAX_RANGE,
{
    let p = pow256(n);
    assert(pow256(n + 1) == 256 * p);
    assert(pow256(n + 2) == 256 * pow256(n + 1));
    assert(pow256(n + 3) == 256 * pow256(n + 2));
    assert((range * 0x100) * p == range * (256 * p)) by (nonlinear_arith);
    assert((range * 0x1_0000) * p == range * (256 * (256 * p))) by (nonlinear_arith);
    assert((range * 0x100_0000) * p == range * (256 * (256 * (256 * p)))) by (nonlinear_arith);
}

/// A refill that finds the bytes it needs ends with the widened interval,
/// has consumed exactly those bytes, and stands for the same number as before.
pub proof fn lemma_refilled_exact(s: CoderState)
    requires
        s.range >= 1,
        s.rest.len() >= refills(s.range),
    ensures
        refilled(s) matches Some(next) && next.range == widened(s.range) && next.rest.len() + refills(s.range)
            == s.rest.len() && pending(next) == pending(s),
    decreases s.rest.len(),
{
    if s.range <= MIN_RANGE {
        let shifted = CoderState { low: s.low * 256 + s.rest[0], range: s.range * 256, rest: s.rest.drop_first() };
        lemma_refilled_exact(shifted);
        lemma_be_value_front(s.rest);
        let weight = pow256(shifted.rest.len());
        let first = s.rest[0] as int;
        assert(pow256(s.rest.len()) == 256 * weight);
        assert((s.low * 256 + first) * weight == s.low * (256 * weight) + first * weight) by (nonlinear_arith);
    }
}

/// The arithmetic code of `decisions` for a decoder whose interval has the
/// width `range` and whose chances are `chances`: the number of bytes that
/// the decoder has yet to read, and the number that its offset and those
/// bytes must spell together.
///
/// A decision for 1 adds the share of 0 to the number, at the scale of the
/// bytes that follow; a decision for 0 adds nothing. Either way the rest of
/// the code is that of the remaining decisions in the refilled interval.
pub open spec fn code(decisions: Seq<Decision>, range: int, chances: Seq<u16>, updates: Seq<(u16, u16)>) -> (nat, int)
    decreases decisions.len(),
{
    if decisions.len() == 0 {
        (0, 0)
    } else {
        let first = decisions[0];
        let share = zero_share(range, chances[first.context.slot()] as int);
        let kept = if first.bit {
            range - share
        } else {
            share
        };
        let tail = code(
            decisions.drop_first(),
            widened(kept),
            observed(chances, updates, first.context, first.bit),
            updates,
        );
        let len = tail.0 + refills(kept);
        (
            len,
            tail.1 + if first.bit {
                share * pow256(len)
            } else {
                0
            },
        )
    }
}

/// The stream that makes a freshly opened decoder with the chances
/// `chances` take `decisions`: the code for the widest interval, spelled out
/// with its three leading bytes.
pub open spec fn stream(decisions: Seq<Decision>, chances: Seq<u16>, updates: Seq<(u16, u16)>) -> Seq<u8> {
    let whole = code(decisions, MAX_RANGE as int, chances, updates);
    be_bytes(whole.1, whole.0 + 3)
}

/// Whether the state `s` stands at the start of the code of `decisions`.
pub open spec fn carries(s: CoderState, chances: Seq<u16>, updates: Seq<(u16, u16)>, decisions: Seq<Decision>) -> bool {
    let expected = code(decisions, s.range, chances, updates);
    s.rest.len() == expected.0 && pending(s) == expected.1
}

/// The code of any decisions lies inside the interval that it is made for.
pub proof fn lemma_code_bound(decisions: Seq<Decision>, range: int, chances: Seq<u16>, updates: Seq<(u16, u16)>)
    requires
        MIN_RANGE < range <= MAX_RANGE,
        chances_valid(chances),
        schedule_closed(updates),
    ensures
        0 <= code(decisions, range, chances, updates).1 < range * pow256(code(decisions, range, chances, updates).0),
    decreases decisions.len(),
{
    if decisions.len() == 0 {
        assert(range * pow256(0) == range) by (nonlinear_arith)
            requires
                pow256(0) == 1,
        ;
    } else {
        let first = decisions[0];
        let probability = chances[first.context.slot()] as int;
        assert(is_state(probability));
        let share = zero_share(range, probability);
        lemma_zero_share_bounds(range, probability);
        let kept = if first.bit {
            range - share
        } else {
            share
        };
        let learned = observed(chances, updates, first.context, first.bit);
        lemma_observed_valid(chances, updates, first.context, first.bit);
        let tail = code(decisions.drop_first(), widened(kept), learned, updates);
        lemma_widened_scale(kept, tail.0);
        lemma_code_bound(decisions.drop_first(), widened(kept), learned, updates);
        let len = tail.0 + refills(kept);
        let scale = pow256(len);
        lemma_pow256_positive(len);
        assert(tail.1 < kept * scale);
        if first.bit {
            assert((range - share) * scale + share * scale == range * scale) by (nonlinear_arith);
            assert(0 <= share * scale) by (nonlinear_arith)
                requires
                    0 < share,
                    1 <= scale,
            ;
        } else {
            assert(share * scale <= range * scale) by (nonlinear_arith)
                requires
                    share < range,
                    1 <= scale,
            ;
        }
    }
}

/// A decoder that stands at the start of the code of some decisions takes
/// the first of them, learns from it, and then stands at the start of the
/// code of the rest.
pub proof fn lemma_carried_decision(
    s: CoderState,
    chances: Seq<u16>,
    updates: Seq<(u16, u16)>,
    decisions: Seq<Decision>,
)
    requires
        s.wf(),
        chances_valid(chances),
        schedule_closed(updates),
        decisions.len() > 0,
        carries(s, chances, updates, decisions),
    ensures
        decided_in(s, chances, updates, decisions[0].context) matches Some((bit, next, learned)) && bit
            == decisions[0].bit && learned == observed(chances, updates, decisions[0].context, decisions[0].bit)
            && next.wf() && chances_valid(learned) && carries(next, learned, updates, decisions.drop_first()),
{
    let first = decisions[0];
    let probability = chances[first.context.slot()] as int;
    assert(is_state(probability));
    let share = zero_share(s.range, probability);
    lemma_zero_share_bounds(s.range, probability);
    let kept = if first.bit {
        s.range - share
    } else {
        share
    };
    let learned = observed(chances, updates, first.context, first.bit);
    lemma_observed_valid(chances, updates, first.context, first.bit);
    let tail = code(decisions.drop_first(), widened(kept), learned, updates);
    lemma_widened_scale(kept, tail.0);
    lemma_code_bound(decisions.drop_first(), widened(kept), learned, updates);
    let len = tail.0 + refills(kept);
    let scale = pow256(len);
    lemma_pow256_positive(len);
    lemma_be_value_bound(s.rest);
    let loose = be_value(s.rest);
    assert(s.rest.len() == len);
    assert(s.low * scale + loose == tail.1 + if first.bit {
        share * scale
    } else {
        0
    });
    assert(tail.1 < kept * scale);
    if first.bit {
        assert(s.low >= share) by (nonlinear_arith)
            requires
                s.low * scale + loose >= share * scale,
                loose < scale,
                1 <= scale,
        ;
        assert((s.low - share) * scale == s.low * scale - share * scale) by (nonlinear_arith);
    } else {
        assert(s.low < share) by (nonlinear_arith)
            requires
                s.low * scale + loose < share * scale,
                0 <= loose,
                1 <= scale,
        ;
    }
    assert(decided_bit(s, probability) == first.bit);
    let kept_state = narrowed(s, probability);
    assert(kept_state.range == kept);
    assert(pending(kept_state) == tail.1);
    lemma_narrowed_bounds(s, probability);
    lemma_refilled_exact(kept_state);
    lemma_decided_valid(s, probability);
}

/// A decoder opened on the stream of some decisions stands at the start of their code.
pub proof fn lemma_opened_carries(decisions: Seq<Decision>, chances: Seq<u16>, updates: Seq<(u16, u16)>)
    requires
        chances_valid(chances),
        schedule_closed(updates),
    ensures
        opened(stream(decisions, chances, updates)) matches Some(s) && s.wf() && carries(
            s,
            chances,
            updates,
            decisions,
        ),
{
    let whole = code(decisions, MAX_RANGE as int, chances, updates);
    let bytes = stream(decisions, chances, updates);
    lemma_code_bound(decisions, MAX_RANGE as int, chances, updates);
    let scale = pow256(whole.0);
    assert(pow256(whole.0 + 1) == 256 * scale);
    assert(pow256(whole.0 + 2) == 256 * pow256(whole.0 + 1));
    assert(pow256(whole.0 + 3) == 256 * pow256(whole.0 + 2));
    assert(0x100_0000 * scale == 256 * (256 * (256 * scale)));
    lemma_be_bytes_spell(whole.1, whole.0 + 3);
    let second = bytes.drop_first();
    let third = second.drop_first();
    let rest = third.drop_first();
    assert(rest =~= bytes.skip(3));
    lemma_be_value_front(bytes);
    lemma_be_value_front(second);
    lemma_be_value_front(third);
    let b0 = bytes[0] as int;
    let b1 = bytes[1] as int;
    let b2 = bytes[2] as int;
    assert(second[0] == bytes[1] && third[0] == bytes[2]);
    assert(pow256((third.len() - 1) as nat) == scale);
    assert(pow256((second.len() - 1) as nat) == 256 * scale);
    assert(pow256((bytes.len() - 1) as nat) == 256 * (256 * scale));
    assert(((b0 * 256 + b1) * 256 + b2) * scale == b0 * (256 * (256 * scale)) + b1 * (256 * scale) + b2 * scale)
        by (nonlinear_arith);
}

} // verus!
