use flif::numbers::chances::{
    ChanceTable, Context, UpdateTable, ALPHA_DIVISOR, CHANCE_SCALE, CONTEXT_SLOTS, CUTOFF, INITIAL_CHANCE,
};

#[test]
fn schedule_constants() {
    assert_eq!(CHANCE_SCALE, 4096);
    assert_eq!(ALPHA_DIVISOR, 19);
    assert_eq!(CUTOFF, 2);
    assert_eq!(INITIAL_CHANCE, 2560);
    assert_eq!(CONTEXT_SLOTS, 1024);
}

#[test]
fn update_table_follows_the_learning_rule() {
    let updates = UpdateTable::new();
    // (state, after a 0, after a 1)
    let samples: [(u16, u16, u16); 16] = [
        (1, 216, 1),
        (2, 217, 2),
        (3, 218, 2),
        (18, 232, 17),
        (19, 233, 18),
        (20, 234, 19),
        (38, 251, 36),
        (2048, 2155, 1941),
        (2560, 2640, 2426),
        (4000, 4005, 3790),
        (4058, 4060, 3845),
        (4077, 4078, 3863),
        (4078, 4079, 3864),
        (4093, 4094, 3878),
        (4094, 4094, 3879),
        (4095, 4095, 3880),
    ];
    for (state, up, down) in samples {
        assert_eq!(updates.next_state(state, false), up, "after 0 from {}", state);
        assert_eq!(updates.next_state(state, true), down, "after 1 from {}", state);
    }
}

#[test]
fn update_table_never_leaves_the_states_and_leans_toward_the_bit() {
    let updates = UpdateTable::new();
    for state in 1..4096u16 {
        let up = updates.next_state(state, false);
        let down = updates.next_state(state, true);
        assert!(1 <= up && up <= 4095);
        assert!(1 <= down && down <= 4095);
        assert!(up >= state);
        assert!(down <= state);
        // The two rules mirror each other.
        assert_eq!(down, 4096 - updates.next_state(4096 - state, false));
    }
}

#[test]
fn update_table_steps_shrink_as_confidence_grows() {
    let updates = UpdateTable::new();
    let mut state: u16 = 2048;
    let mut last_step: u16 = 4096;
    for _ in 0..200 {
        let next = updates.next_state(state, false);
        let step = next - state;
        assert!(step <= last_step);
        last_step = step;
        state = next;
    }
    // Certainty is never reached: the rule stops two short of it.
    assert_eq!(state, 4094);
}

#[test]
fn two_update_tables_are_the_same_table() {
    assert_eq!(UpdateTable::new(), UpdateTable::new());
}

#[test]
fn context_of_an_interval() {
    assert_eq!(Context::at(1, 0), Context { depth: 0, width_bits: 1 });
    assert_eq!(Context::at(0, 0), Context { depth: 0, width_bits: 0 });
    assert_eq!(Context::at(255, 0), Context { depth: 0, width_bits: 8 });
    assert_eq!(Context::at(256, 3), Context { depth: 3, width_bits: 9 });
    assert_eq!(Context::at(7, 2), Context { depth: 2, width_bits: 3 });
    assert_eq!(Context::at(u32::MAX, 31), Context { depth: 31, width_bits: 32 });
    // Depths stop counting at 31.
    assert_eq!(Context::at(u32::MAX, 200), Context { depth: 31, width_bits: 32 });
}

#[test]
fn context_slots() {
    assert_eq!(Context::at(1, 0).index(), 0);
    assert_eq!(Context::at(0, 0).index(), 0);
    assert_eq!(Context::at(255, 0).index(), 7);
    assert_eq!(Context::at(256, 3).index(), 104);
    assert_eq!(Context::at(7, 2).index(), 66);
    assert_eq!(Context::at(u32::MAX, 31).index(), 1023);
    // Out-of-range fields fall on the nearest slot.
    assert_eq!(Context { depth: 255, width_bits: 255 }.index(), 1023);
    assert_eq!(Context { depth: 0, width_bits: 0 }.index(), 0);
}

#[test]
fn fresh_table_leans_toward_zero_everywhere() {
    let updates = UpdateTable::new();
    let table = ChanceTable::new(&updates);
    for depth in 0..32u8 {
        for width_bits in 1..33u8 {
            assert_eq!(table.probability_for(Context { depth, width_bits }), 2560);
        }
    }
}

#[test]
fn observing_moves_one_context_only() {
    let updates = UpdateTable::new();
    let mut table = ChanceTable::new(&updates);
    let here = Context { depth: 4, width_bits: 9 };
    let there = Context { depth: 4, width_bits: 10 };
    table.observe(here, false);
    assert_eq!(table.probability_for(here), 2640);
    assert_eq!(table.probability_for(there), 2560);
    table.observe(here, true);
    assert_eq!(table.probability_for(here), updates.next_state(2640, true));
    table.observe(there, true);
    assert_eq!(table.probability_for(there), 2426);
}

#[test]
fn same_history_gives_same_chances() {
    let updates = UpdateTable::new();
    let mut first = ChanceTable::new(&updates);
    let mut second = ChanceTable::new(&updates);
    let mut seed: u32 = 12345;
    for _ in 0..5000 {
        seed = seed.wrapping_mul(1664525).wrapping_add(1013904223);
        let context = Context { depth: ((seed >> 8) % 32) as u8, width_bits: ((seed >> 16) % 32 + 1) as u8 };
        let bit = (seed >> 30) & 1 == 1;
        first.observe(context, bit);
        second.observe(context, bit);
    }
    assert_eq!(first, second);
    for depth in 0..32u8 {
        for width_bits in 1..33u8 {
            let context = Context { depth, width_bits };
            assert_eq!(first.probability_for(context), second.probability_for(context));
        }
    }
    // A different history is told apart.
    second.observe(Context { depth: 0, width_bits: 1 }, true);
    assert_ne!(first, second);
}
