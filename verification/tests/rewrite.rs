use lsystem_turtle::instructions::{KochInstr, Length, TurtleInt};
use lsystem_turtle::rewrite::{
    crazy_tree, crazy_tree_generation, koch_snowflake, pop_count, tree, tree_generation,
    TreeChoice, BRANCH_SHRINK_FACTOR, SIBLING_WEIGHT_FACTOR, TAPER_WEIGHT_FACTOR,
};

fn len(units: u32, thirds: u64) -> Length {
    Length { units, thirds }
}

#[test]
fn koch_empty_seeds_triangle() {
    let seeded = koch_snowflake(&vec![]);
    assert_eq!(
        seeded,
        vec![
            KochInstr::Forward(len(200, 0)),
            KochInstr::Turn(120),
            KochInstr::Forward(len(200, 0)),
            KochInstr::Turn(120),
            KochInstr::Forward(len(200, 0)),
        ]
    );
}

#[test]
fn koch_forward_becomes_zigzag() {
    let out = koch_snowflake(&vec![KochInstr::Forward(len(200, 0))]);
    assert_eq!(
        out,
        vec![
            KochInstr::Forward(len(200, 1)),
            KochInstr::Turn(-60),
            KochInstr::Forward(len(200, 1)),
            KochInstr::Turn(120),
            KochInstr::Forward(len(200, 1)),
            KochInstr::Turn(-60),
            KochInstr::Forward(len(200, 1)),
        ]
    );
}

#[test]
fn koch_triangle_yields_twenty_three() {
    let seed = koch_snowflake(&vec![]);
    let next = koch_snowflake(&seed);
    assert_eq!(next.len(), 23);
    // the two seed turns pass through at the positions after each zigzag
    assert_eq!(next[7], KochInstr::Turn(120));
    assert_eq!(next[15], KochInstr::Turn(120));
    // every forward was divided once more
    for i in [0usize, 2, 4, 6] {
        assert_eq!(next[i], KochInstr::Forward(len(200, 1)));
    }
}

#[test]
fn koch_length_exact_for_mixed_sequence() {
    // two forwards and three others: exactly 7 * 2 + 3 instructions
    let s = vec![
        KochInstr::Turn(15),
        KochInstr::Forward(len(9, 2)),
        KochInstr::Push,
        KochInstr::Forward(len(4, 0)),
        KochInstr::Pop,
    ];
    let out = koch_snowflake(&s);
    assert_eq!(out.len(), 7 * 2 + 3);
}

#[test]
fn koch_pass_through_keeps_non_triggers_in_order() {
    let s = vec![
        KochInstr::Turn(5),
        KochInstr::Forward(len(30, 0)),
        KochInstr::Turn(7),
    ];
    let out = koch_snowflake(&s);
    assert_eq!(out.len(), 9);
    assert_eq!(out[0], KochInstr::Turn(5));
    assert_eq!(out[8], KochInstr::Turn(7));
}

#[test]
fn koch_no_trigger_is_identity() {
    let s = vec![KochInstr::Turn(42), KochInstr::Push, KochInstr::Pop];
    assert_eq!(koch_snowflake(&s), s);
}

#[test]
fn crazy_empty_seeds_trunk() {
    let seeded = crazy_tree(&vec![], &vec![]);
    assert_eq!(
        seeded,
        vec![TurtleInt::Push, TurtleInt::Forward, TurtleInt::Pop]
    );
}

#[test]
fn crazy_straight_coin_continues() {
    let s = vec![TurtleInt::Push, TurtleInt::Forward, TurtleInt::Pop];
    let out = crazy_tree(&s, &vec![true]);
    assert_eq!(
        out,
        vec![
            TurtleInt::Push,
            TurtleInt::Forward,
            TurtleInt::Push,
            TurtleInt::Forward,
            TurtleInt::Pop,
        ]
    );
}

#[test]
fn crazy_branch_coin_forks() {
    let s = vec![TurtleInt::Push, TurtleInt::Forward, TurtleInt::Pop];
    let out = crazy_tree(&s, &vec![false]);
    assert_eq!(
        out,
        vec![
            TurtleInt::Push,
            TurtleInt::Forward,
            TurtleInt::Push,
            TurtleInt::Turn,
            TurtleInt::Forward,
            TurtleInt::Pop,
            TurtleInt::Forward,
            TurtleInt::Pop,
        ]
    );
}

#[test]
fn crazy_two_pops_use_their_own_coins() {
    let s = vec![TurtleInt::Pop, TurtleInt::Forward, TurtleInt::Pop];
    let out = crazy_tree(&s, &vec![true, false]);
    let mut expect = vec![TurtleInt::Push, TurtleInt::Forward, TurtleInt::Pop];
    expect.push(TurtleInt::Forward);
    expect.extend(vec![
        TurtleInt::Push,
        TurtleInt::Turn,
        TurtleInt::Forward,
        TurtleInt::Pop,
        TurtleInt::Forward,
        TurtleInt::Pop,
    ]);
    assert_eq!(out, expect);
}

#[test]
fn crazy_no_trigger_is_identity() {
    let s = vec![TurtleInt::Push, TurtleInt::Forward, TurtleInt::Turn];
    assert_eq!(crazy_tree(&s, &vec![]), s);
}

#[test]
fn tree_empty_seeds_trunk() {
    let seeded = tree(&vec![], &vec![]);
    assert_eq!(
        seeded,
        vec![TurtleInt::Push, TurtleInt::Forward, TurtleInt::Pop]
    );
}

#[test]
fn tree_taper_thins_and_continues() {
    let s = vec![TurtleInt::Push, TurtleInt::Forward, TurtleInt::Pop];
    let out = tree(&s, &vec![TreeChoice::Taper]);
    assert_eq!(
        out,
        vec![
            TurtleInt::Push,
            TurtleInt::Forward,
            TurtleInt::MultWeight(TAPER_WEIGHT_FACTOR),
            TurtleInt::Forward,
            TurtleInt::Pop,
        ]
    );
}

#[test]
fn tree_branch_forks_with_scale() {
    let scale: u32 = 0x3F20_0000;
    let s = vec![TurtleInt::Push, TurtleInt::Forward, TurtleInt::Pop];
    let out = tree(&s, &vec![TreeChoice::Branch { scale }]);
    assert_eq!(
        out,
        vec![
            TurtleInt::Push,
            TurtleInt::Forward,
            TurtleInt::Push,
            TurtleInt::MultAngle(scale),
            TurtleInt::MultSpeed(BRANCH_SHRINK_FACTOR),
            TurtleInt::MultWeight(BRANCH_SHRINK_FACTOR),
            TurtleInt::Turn,
            TurtleInt::Forward,
            TurtleInt::Pop,
            TurtleInt::MultWeight(SIBLING_WEIGHT_FACTOR),
            TurtleInt::Forward,
            TurtleInt::Pop,
        ]
    );
}

#[test]
fn tree_no_trigger_is_identity() {
    let s = vec![
        TurtleInt::SetSpeed(7),
        TurtleInt::Forward,
        TurtleInt::MultWeight(9),
    ];
    assert_eq!(tree(&s, &vec![]), s);
}

#[test]
fn pop_count_counts_pops() {
    let s = vec![
        TurtleInt::Pop,
        TurtleInt::Forward,
        TurtleInt::Pop,
        TurtleInt::Push,
        TurtleInt::Pop,
    ];
    assert_eq!(pop_count(&s), 3);
    assert_eq!(pop_count(&vec![]), 0);
}

#[test]
fn crazy_generation_draws_real_coins() {
    let s = vec![TurtleInt::Push, TurtleInt::Forward, TurtleInt::Pop];
    let straight = crazy_tree(&s, &vec![true]);
    let branched = crazy_tree(&s, &vec![false]);
    let mut seen_straight = false;
    let mut seen_branched = false;
    for _ in 0..200 {
        let out = crazy_tree_generation(&s);
        assert!(out == straight || out == branched);
        if out == straight {
            seen_straight = true;
        } else {
            seen_branched = true;
        }
    }
    // one chance in two per draw: both outcomes appear in two hundred draws
    assert!(seen_straight && seen_branched);
}

#[test]
fn crazy_generation_seeds_empty() {
    let out = crazy_tree_generation(&vec![]);
    assert_eq!(
        out,
        vec![TurtleInt::Push, TurtleInt::Forward, TurtleInt::Pop]
    );
}

#[test]
fn tree_generation_draws_real_decisions() {
    let scale: u32 = 0x3F30_3030;
    let s = vec![TurtleInt::Push, TurtleInt::Forward, TurtleInt::Pop];
    let tapered = tree(&s, &vec![TreeChoice::Taper]);
    let branched = tree(&s, &vec![TreeChoice::Branch { scale }]);
    let mut seen_taper = false;
    let mut seen_branch = false;
    for _ in 0..400 {
        let out = tree_generation(&s, &vec![scale]);
        assert!(out == tapered || out == branched);
        if out == tapered {
            seen_taper = true;
        } else {
            seen_branch = true;
        }
    }
    // one chance in ten to taper per draw: both outcomes appear in four
    // hundred draws
    assert!(seen_taper && seen_branch);
}

#[test]
fn tree_generation_seeds_empty() {
    let out = tree_generation(&vec![], &vec![]);
    assert_eq!(
        out,
        vec![TurtleInt::Push, TurtleInt::Forward, TurtleInt::Pop]
    );
}
