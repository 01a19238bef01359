//! Adaptive probabilities.
//!
//! A probability *state* is a whole number of 4096ths, strictly between 0 and
//! 4096, and stands for the belief that the next bit of its context is 0. An
//! [`UpdateTable`] is the fixed rule by which a state moves after a bit has
//! been seen; a [`ChanceTable`] holds one state per [`Context`].

use vstd::prelude::*;

verus! {

/// One more than the largest probability state.
pub const CHANCE_SCALE: u16 = 4096;

/// A state moves toward the observed bit by this fraction of the way that is left.
pub const ALPHA_DIVISOR: u16 = 19;

/// The learning rule never drives a state closer than this to either end.
pub const CUTOFF: u16 = 2;

/// Every context starts out leaning toward 0, which is what makes small values cheap.
pub const INITIAL_CHANCE: u16 = 2560;

/// Decisions taken deeper than this share the contexts of this depth.
pub const MAX_DEPTH: u8 = 31;

/// Interval widths are told apart by their length in bits, up to this many.
pub const MAX_WIDTH_BITS: u8 = 32;

/// The number of distinct contexts.
pub const CONTEXT_SLOTS: usize = 1024;

/// Whether `p` is a probability state.
pub open spec fn is_state(p: int) -> bool {
    0 < p < 4096
}

/// How far a state moves when `distance` separates it from certainty.
pub open spec fn learning_step(distance: int) -> int {
    if distance / 19 < 1 {
        1
    } else {
        distance / 19
    }
}

/// The state that follows `p` once a 0 has been seen: never smaller than `p`.
pub open spec fn after_zero(p: int) -> int {
    let target = p + learning_step(4096 - p);
    let capped = if target > 4096 - 2 {
        4096 - 2
    } else {
        target
    };
    if capped < p {
        p
    } else {
        capped
    }
}

/// The state that follows `p` once a 1 has been seen: never larger than `p`.
pub open spec fn after_one(p: int) -> int {
    let target = p - learning_step(p);
    let floored = if target < 2 {
        2
    } else {
        target
    };
    if floored > p {
        p
    } else {
        floored
    }
}

/// The transition rule that [`UpdateTable::new`] tabulates.
pub open spec fn standard_schedule() -> Seq<(u16, u16)> {
    Seq::new(4096, |p: int| (after_zero(p) as u16, after_one(p) as u16))
}

/// A transition rule is usable when it is defined on every state and never leaves the states.
pub open spec fn schedule_closed(updates: Seq<(u16, u16)>) -> bool {
    &&& updates.len() == 4096
    &&& forall|p: int| is_state(p) ==> is_state(#[trigger] updates[p].0 as int) && is_state(updates[p].1 as int)
}

/// Both successors of a state are states, a 0 never lowers the belief in 0 and
/// a 1 never raises it, and the two rules mirror each other.
pub proof fn lemma_learning_rule(p: int)
    requires
        is_state(p),
    ensures
        is_state(after_zero(p)),
        is_state(after_one(p)),
        p <= after_zero(p),
        after_one(p) <= p,
        after_one(p) == 4096 - after_zero(4096 - p),
{
}

/// The closer a state is to certainty, the smaller the step that it takes, and no step is empty.
pub proof fn lemma_learning_step_shrinks(near: int, far: int)
    requires
        0 <= near <= far,
    ensures
        1 <= learning_step(near) <= learning_step(far),
{
}

/// The standard schedule is closed.
pub proof fn lemma_standard_schedule_closed()
    ensures
        schedule_closed(standard_schedule()),
{
    assert forall|p: int| is_state(p) implies is_state(#[trigger] standard_schedule()[p].0 as int)
        && is_state(standard_schedule()[p].1 as int) by {
        lemma_learning_rule(p);
    }
}

/// The precomputed, immutable rule that maps a state and an observed bit to the next state.
#[derive(Debug, PartialEq, Eq)]
pub struct UpdateTable {
    next: Vec<(u16, u16)>,
}

impl View for UpdateTable {
    type V = Seq<(u16, u16)>;

    /// Entry `p` holds the successor of state `p` after a 0 and after a 1.
    closed spec fn view(&self) -> Seq<(u16, u16)> {
        self.next@
    }
}

fn learning_step_of(distance: u16) -> (step: u16)
    requires
        distance <= 4096,
    ensures
        step == learning_step(distance as int),
{
    if distance / ALPHA_DIVISOR < 1 {
        1
    } else {
        distance / ALPHA_DIVISOR
    }
}

fn successor_after_zero(p: u16) -> (q: u16)
    requires
        p < 4096,
    ensures
        q == after_zero(p as int),
{
    let target: u16 = p + learning_step_of(CHANCE_SCALE - p);
    let capped: u16 = if target > CHANCE_SCALE - CUTOFF {
        CHANCE_SCALE - CUTOFF
    } else {
        target
    };
    if capped < p {
        p
    } else {
        capped
    }
}

fn successor_after_one(p: u16) -> (q: u16)
    requires
        p < 4096,
    ensures
        q == after_one(p as int),
{
    let step: u16 = learning_step_of(p);
    let floored: u16 = if p < step || p - step < CUTOFF {
        CUTOFF
    } else {
        p - step
    };
    if floored > p {
        p
    } else {
        floored
    }
}

impl UpdateTable {
    /// Whether the table can drive a [`ChanceTable`].
    pub open spec fn wf(&self) -> bool {
        schedule_closed(self@)
    }

    /// Tabulates the standard schedule.
    pub fn new() -> (table: UpdateTable)
        ensures
            table.wf(),
            table@ == standard_schedule(),
    {
        let mut next: Vec<(u16, u16)> = Vec::new();
        let mut p: u16 = 0;
        while p < CHANCE_SCALE
            invariant
                p <= 4096,
                next@.len() == p,
                forall|q: int| 0 <= q < p ==> #[trigger] next@[q] == (after_zero(q) as u16, after_one(q) as u16),
            decreases 4096 - p,
        {
            next.push((successor_after_zero(p), successor_after_one(p)));
            p = p + 1;
        }
        proof {
            assert(next@ =~= standard_schedule());
            lemma_standard_schedule_closed();
        }
        UpdateTable { next }
    }

    /// The state that follows `state` once `bit` has been seen.
    pub fn next_state(&self, state: u16, bit: bool) -> (next: u16)
        requires
            self.wf(),
            is_state(state as int),
        ensures
            next == successor(self@, state, bit),
            is_state(next as int),
    {
        let both: (u16, u16) = self.next[state as usize];
        assert(is_state(self@[state as int].0 as int));
        if bit {
            both.1
        } else {
            both.0
        }
    }
}

/// The successor of `state` after `bit` under the rule `updates`.
pub open spec fn successor(updates: Seq<(u16, u16)>, state: u16, bit: bool) -> u16 {
    if bit {
        updates[state as int].1
    } else {
        updates[state as int].0
    }
}

/// The number of binary digits of `n`; 0 has none.
pub open spec fn bit_length(n: nat) -> nat
    decreases n,
{
    if n == 0 {
        0
    } else {
        1 + bit_length(n / 2)
    }
}

/// Which kind of decision is being taken: how deep into a bisection it
/// stands and how wide the interval still is.
#[derive(Clone, Copy, Debug, PartialEq, Eq, Structural)]
pub struct Context {
    pub depth: u8,
    pub width_bits: u8,
}

impl Context {
    /// The context of the decision that halves an interval of `width`
    /// (its upper bound less its lower bound) after `depth` earlier halvings.
    pub open spec fn at_spec(width: nat, depth: nat) -> Context {
        Context {
            depth: (if depth < 31 {
                depth
            } else {
                31
            }) as u8,
            width_bits: (if bit_length(width) < 32 {
                bit_length(width)
            } else {
                32
            }) as u8,
        }
    }

    /// The context of the decision that halves an interval of `width` after
    /// `depth` earlier halvings.
    pub fn at(width: u32, depth: u8) -> (context: Context)
        ensures
            context == Context::at_spec(width as nat, depth as nat),
    {
        let mut rest: u32 = width;
        let mut bits: u8 = 0;
        while rest > 0 && bits < MAX_WIDTH_BITS
            invariant
                bits <= 32,
                bit_length(width as nat) == bits + bit_length(rest as nat),
            decreases rest,
        {
            rest = rest / 2;
            bits = bits + 1;
        }
        Context {
            depth: if depth < MAX_DEPTH {
                depth
            } else {
                MAX_DEPTH
            },
            width_bits: bits,
        }
    }

    /// The place of this context in a chance table. Depths past the deepest
    /// and widths outside `1..=32` bits fall on the nearest place.
    pub open spec fn slot(self) -> int {
        let depth: int = if self.depth < 31 {
            self.depth as int
        } else {
            31
        };
        let bits: int = if self.width_bits < 1 {
            1
        } else if self.width_bits > 32 {
            32
        } else {
            self.width_bits as int
        };
        depth * 32 + bits - 1
    }

    /// The place of this context in a chance table.
    pub fn index(&self) -> (i: usize)
        ensures
            i == self.slot(),
            i < 1024,
    {
        let depth: usize = if self.depth < MAX_DEPTH {
            self.depth as usize
        } else {
            MAX_DEPTH as usize
        };
        let bits: usize = if self.width_bits < 1 {
            1
        } else if self.width_bits > MAX_WIDTH_BITS {
            MAX_WIDTH_BITS as usize
        } else {
            self.width_bits as usize
        };
        depth * 32 + bits - 1
    }
}

/// One observed decision: the context it was taken in and the bit that came out.
#[derive(Clone, Copy, Debug, PartialEq, Eq, Structural)]
pub struct Decision {
    pub context: Context,
    pub bit: bool,
}

/// The states of a table on which nothing has been observed yet.
pub open spec fn fresh_chances() -> Seq<u16> {
    Seq::new(1024, |slot: int| 2560u16)
}

/// Whether `chances` holds one probability state for every context.
pub open spec fn chances_valid(chances: Seq<u16>) -> bool {
    &&& chances.len() == 1024
    &&& forall|slot: int| 0 <= slot < 1024 ==> is_state(#[trigger] chances[slot] as int)
}

/// The states after `bit` has been observed in `context`: that context's
/// state moves as `updates` says and every other state stays.
pub open spec fn observed(chances: Seq<u16>, updates: Seq<(u16, u16)>, context: Context, bit: bool) -> Seq<u16> {
    chances.update(context.slot(), successor(updates, chances[context.slot()], bit))
}

/// The states after a whole history of decisions, oldest first.
pub open spec fn replayed(chances: Seq<u16>, updates: Seq<(u16, u16)>, history: Seq<Decision>) -> Seq<u16>
    decreases history.len(),
{
    if history.len() == 0 {
        chances
    } else {
        replayed(
            observed(chances, updates, history[0].context, history[0].bit),
            updates,
            history.drop_first(),
        )
    }
}

/// Observing a bit keeps a table valid.
pub proof fn lemma_observed_valid(chances: Seq<u16>, updates: Seq<(u16, u16)>, context: Context, bit: bool)
    requires
        chances_valid(chances),
        schedule_closed(updates),
    ensures
        chances_valid(observed(chances, updates, context, bit)),
{
    let slot = context.slot();
    assert(is_state(chances[slot] as int));
    assert(is_state(updates[chances[slot] as int].0 as int));
}

/// Replaying any history keeps a table valid.
pub proof fn lemma_replayed_valid(chances: Seq<u16>, updates: Seq<(u16, u16)>, history: Seq<Decision>)
    requires
        chances_valid(chances),
        schedule_closed(updates),
    ensures
        chances_valid(replayed(chances, updates, history)),
    decreases history.len(),
{
    if history.len() > 0 {
        lemma_observed_valid(chances, updates, history[0].context, history[0].bit);
        lemma_replayed_valid(
            observed(chances, updates, history[0].context, history[0].bit),
            updates,
            history.drop_first(),
        );
    }
}

/// The adaptive probability state of every context, owned by one decoding
/// pass and changed by every bit that the pass decodes.
#[derive(Debug, PartialEq, Eq)]
pub struct ChanceTable<'a> {
    states: Vec<u16>,
    updates: &'a UpdateTable,
}

impl<'a> View for ChanceTable<'a> {
    type V = Seq<u16>;

    /// The state of each context, by [`Context::slot`].
    closed spec fn view(&self) -> Seq<u16> {
        self.states@
    }
}

impl<'a> ChanceTable<'a> {
    /// The transition rule that drives this table.
    pub closed spec fn updates(&self) -> Seq<(u16, u16)> {
        self.updates@
    }

    /// Whether the table holds a state for every context and is driven by a usable rule.
    pub open spec fn wf(&self) -> bool {
        &&& chances_valid(self@)
        &&& schedule_closed(self.updates())
    }

    /// A table on which nothing has been observed, driven by `update_table`.
    pub fn new(update_table: &'a UpdateTable) -> (table: ChanceTable<'a>)
        requires
            update_table.wf(),
        ensures
            table.wf(),
            table@ == fresh_chances(),
            table.updates() == update_table@,
    {
        let mut states: Vec<u16> = Vec::new();
        let mut slot: usize = 0;
        while slot < CONTEXT_SLOTS
            invariant
                slot <= 1024,
                states@.len() == slot,
                forall|i: int| 0 <= i < slot ==> #[trigger] states@[i] == 2560u16,
            decreases 1024 - slot,
        {
            states.push(INITIAL_CHANCE);
            slot = slot + 1;
        }
        assert(states@ =~= fresh_chances());
        ChanceTable { states, updates: update_table }
    }

    /// The current belief, in 4096ths, that the next bit of `context` is 0.
    pub fn probability_for(&self, context: Context) -> (probability: u16)
        requires
            self.wf(),
        ensures
            probability == self@[context.slot()],
            is_state(probability as int),
    {
        self.states[context.index()]
    }

    /// Records that `bit` came out in `context`.
    pub fn observe(&mut self, context: Context, bit: bool)
        requires
            old(self).wf(),
        ensures
            final(self).wf(),
            final(self)@ == observed(old(self)@, old(self).updates(), context, bit),
            final(self).updates() == old(self).updates(),
    {
        let slot: usize = context.index();
        let next: u16 = self.updates.next_state(self.states[slot], bit);
        self.states.set(slot, next);
        proof {
            lemma_observed_valid(old(self)@, old(self).updates(), context, bit);
        }
    }
}

/// Two tables that start from the same states and are driven by the same rule
/// hold the same states after the same history of decisions, and if they
/// started well formed those states are valid.
pub proof fn lemma_chances_deterministic(a: ChanceTable, b: ChanceTable, history: Seq<Decision>)
    requires
        a@ == b@,
        a.updates() == b.updates(),
    ensures
        replayed(a@, a.updates(), history) == replayed(b@, b.updates(), history),
        a.wf() ==> chances_valid(replayed(b@, b.updates(), history)),
{
    if a.wf() {
        lemma_replayed_valid(a@, a.updates(), history);
    }
}

} // verus!
