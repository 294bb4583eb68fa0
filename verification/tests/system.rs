use lsystem_turtle::instructions::{KochInstr, Length, TurtleInt};
use lsystem_turtle::rewrite::{
    BRANCH_SHRINK_FACTOR, SIBLING_WEIGHT_FACTOR, TAPER_WEIGHT_FACTOR,
};
use lsystem_turtle::interpret::{initial_tree_cursor, koch_interpret, tree_interpret, DrawOp, KochOp};
use lsystem_turtle::system::{
    KochSystem, TreeSystem, TICKS_PER_GENERATION, TREE_FREEZE_TICK, TREE_GENERATION_BUDGET,
};

#[test]
fn koch_system_seeds_on_first_tick_then_waits() {
    let mut sys = KochSystem::new();
    assert_eq!(sys.count, 0);
    assert!(sys.turtle_string.is_empty());
    sys.tick();
    assert_eq!(sys.count, 1);
    assert_eq!(sys.turtle_string.len(), 5);
    assert_eq!(
        sys.turtle_string[0],
        KochInstr::Forward(Length { units: 200, thirds: 0 })
    );
    let after_seed = sys.turtle_string.clone();
    while sys.count < TICKS_PER_GENERATION {
        sys.tick();
        assert_eq!(sys.turtle_string, after_seed);
    }
    // the next tick finds the counter at one full period and rewrites
    sys.tick();
    assert_eq!(sys.turtle_string.len(), 23);
}

#[test]
fn tree_system_seeds_on_first_tick() {
    let mut sys = TreeSystem::new();
    assert!(sys.wants_rewrite());
    assert_eq!(sys.pops(), 0);
    sys.tick(&vec![]);
    assert_eq!(sys.count, 1);
    assert_eq!(
        sys.turtle_string,
        vec![TurtleInt::Push, TurtleInt::Forward, TurtleInt::Pop]
    );
    assert_eq!(sys.pops(), 1);
    assert!(!sys.wants_rewrite());
}

#[test]
fn tree_system_rewrites_only_on_the_period() {
    let mut sys = TreeSystem::new();
    sys.tick(&vec![]);
    let seeded = sys.turtle_string.clone();
    while sys.count < TICKS_PER_GENERATION {
        assert!(!sys.wants_rewrite());
        sys.tick(&vec![]);
        if sys.count <= TICKS_PER_GENERATION {
            assert_eq!(sys.turtle_string, seeded);
        }
    }
    // now one period has elapsed: the next tick rewrites the seeded trunk
    assert!(sys.wants_rewrite());
    let scales: Vec<u32> = (0..sys.pops() as u32).collect();
    sys.tick(&scales);
    assert_ne!(sys.turtle_string, seeded);
}

#[test]
fn tree_system_freezes_past_the_budget() {
    let mut sys = TreeSystem::new();
    sys.tick(&vec![]);
    sys.count = TREE_FREEZE_TICK + 1;
    let frozen = sys.turtle_string.clone();
    for _ in 0..500 {
        assert!(!sys.wants_rewrite());
        sys.tick(&vec![]);
        assert_eq!(sys.turtle_string, frozen);
    }
    assert_eq!(sys.count, TREE_FREEZE_TICK + 1 + 500);
}

#[test]
fn freeze_tick_is_the_budget_times_the_period() {
    assert_eq!(TREE_FREEZE_TICK, TICKS_PER_GENERATION * TREE_GENERATION_BUDGET);
    assert_eq!(TREE_FREEZE_TICK, 900);
}

#[test]
fn rule_factor_words_decode_to_their_values() {
    assert_eq!(f32::from_bits(TAPER_WEIGHT_FACTOR), 0.9);
    assert_eq!(f32::from_bits(BRANCH_SHRINK_FACTOR), 0.6);
    assert_eq!(f32::from_bits(SIBLING_WEIGHT_FACTOR), 0.8);
}

#[test]
fn koch_generations_interpret_cleanly() {
    let mut sys = KochSystem::new();
    // three rewrites: the seed and two expansions
    for _ in 0..=(2 * TICKS_PER_GENERATION) {
        sys.tick();
    }
    let forwards = sys
        .turtle_string
        .iter()
        .filter(|i| matches!(i, KochInstr::Forward(_)))
        .count();
    // each generation turns every forward step into four
    assert_eq!(forwards, 48);
    assert_eq!(sys.turtle_string.len(), 7 * 12 + 11);
    let tape = koch_interpret(&sys.turtle_string).unwrap();
    let drawn = tape
        .iter()
        .filter(|op| matches!(op, KochOp::Draw { .. }))
        .count();
    assert_eq!(drawn, forwards);
}

#[test]
fn tree_generations_stay_balanced() {
    let mut sys = TreeSystem::new();
    // the seed and three stochastic rewrites
    for _ in 0..=(3 * TICKS_PER_GENERATION) {
        let scales: Vec<u32> = if sys.wants_rewrite() {
            (0..sys.pops() as u32).collect()
        } else {
            Vec::new()
        };
        sys.tick(&scales);
    }
    // whatever was drawn, the rules only ever produce balanced brackets,
    // so interpretation succeeds and draws one segment per forward step
    let forwards = sys
        .turtle_string
        .iter()
        .filter(|i| matches!(i, TurtleInt::Forward))
        .count();
    let tape = tree_interpret(&sys.turtle_string, &initial_tree_cursor()).unwrap();
    let drawn = tape
        .iter()
        .filter(|op| matches!(op, DrawOp::Draw { .. }))
        .count();
    assert_eq!(drawn, forwards);
}
