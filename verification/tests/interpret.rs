use lsystem_turtle::instructions::{KochInstr, Length, TurtleInt};
use lsystem_turtle::interpret::{
    initial_tree_cursor, koch_interpret, tree_interpret, DrawOp, KochOp, StackUnderflow,
    TREE_START_ANGLE, TREE_START_SPEED, TREE_START_WEIGHT,
};

fn len(units: u32, thirds: u64) -> Length {
    Length { units, thirds }
}

#[test]
fn koch_forward_turn_forward_tape() {
    let s = vec![
        KochInstr::Forward(len(10, 0)),
        KochInstr::Turn(90),
        KochInstr::Forward(len(10, 0)),
    ];
    let tape = koch_interpret(&s).unwrap();
    assert_eq!(
        tape,
        vec![
            KochOp::Draw { length: len(10, 0) },
            KochOp::Rotate { degrees: 90 },
            KochOp::Draw { length: len(10, 0) },
        ]
    );
}

#[test]
fn koch_one_segment_per_forward() {
    let s = vec![
        KochInstr::Push,
        KochInstr::Forward(len(3, 0)),
        KochInstr::Turn(-60),
        KochInstr::Forward(len(3, 1)),
        KochInstr::Pop,
        KochInstr::Forward(len(9, 0)),
    ];
    let tape = koch_interpret(&s).unwrap();
    let drawn = tape
        .iter()
        .filter(|op| matches!(op, KochOp::Draw { .. }))
        .count();
    assert_eq!(drawn, 3);
}

#[test]
fn koch_underflow_reports_position_and_emits_nothing() {
    let r = koch_interpret(&vec![KochInstr::Pop]);
    assert_eq!(r, Err(StackUnderflow { at: 0 }));
    let r = koch_interpret(&vec![
        KochInstr::Push,
        KochInstr::Forward(len(1, 0)),
        KochInstr::Pop,
        KochInstr::Pop,
    ]);
    assert_eq!(r, Err(StackUnderflow { at: 3 }));
}

#[test]
fn koch_interpret_is_deterministic() {
    let mut s = vec![];
    for i in 0..40 {
        s.push(KochInstr::Forward(len(i, 0)));
        s.push(KochInstr::Turn(i as i32 * 7 - 60));
        if i % 3 == 0 {
            s.push(KochInstr::Push);
        }
        if i % 3 == 1 {
            s.push(KochInstr::Pop);
        }
    }
    assert_eq!(koch_interpret(&s), koch_interpret(&s));
}

#[test]
fn tree_seed_tape_saves_draws_restores() {
    let s = vec![TurtleInt::Push, TurtleInt::Forward, TurtleInt::Pop];
    let tape = tree_interpret(&s, &initial_tree_cursor()).unwrap();
    assert_eq!(
        tape,
        vec![
            DrawOp::Save,
            DrawOp::Draw {
                speed: vec![TREE_START_SPEED],
                weight: vec![TREE_START_WEIGHT],
            },
            DrawOp::Restore,
        ]
    );
}

#[test]
fn tree_one_segment_per_forward() {
    let s = vec![
        TurtleInt::Push,
        TurtleInt::MultSpeed(3),
        TurtleInt::Forward,
        TurtleInt::Turn,
        TurtleInt::Forward,
        TurtleInt::Pop,
        TurtleInt::SetWeight(5),
        TurtleInt::Forward,
    ];
    let tape = tree_interpret(&s, &initial_tree_cursor()).unwrap();
    let drawn = tape
        .iter()
        .filter(|op| matches!(op, DrawOp::Draw { .. }))
        .count();
    assert_eq!(drawn, 3);
}

#[test]
fn tree_scalars_flow_through_stack() {
    let a: u32 = 11;
    let b: u32 = 22;
    let c: u32 = 33;
    let s = vec![
        TurtleInt::SetSpeed(a),
        TurtleInt::MultSpeed(b),
        TurtleInt::Push,
        TurtleInt::SetWeight(c),
        TurtleInt::Forward,
        TurtleInt::Pop,
        TurtleInt::Forward,
    ];
    let tape = tree_interpret(&s, &initial_tree_cursor()).unwrap();
    assert_eq!(
        tape,
        vec![
            DrawOp::Save,
            DrawOp::Draw {
                speed: vec![a, b],
                weight: vec![c],
            },
            DrawOp::Restore,
            DrawOp::Draw {
                speed: vec![a, b],
                weight: vec![TREE_START_WEIGHT],
            },
        ]
    );
}

#[test]
fn tree_turn_carries_angle_factors() {
    let s = vec![
        TurtleInt::MultAngle(77),
        TurtleInt::Turn,
        TurtleInt::SetAngle(88),
        TurtleInt::Turn,
    ];
    let tape = tree_interpret(&s, &initial_tree_cursor()).unwrap();
    assert_eq!(
        tape,
        vec![
            DrawOp::Rotate {
                angle: vec![TREE_START_ANGLE, 77],
            },
            DrawOp::Rotate { angle: vec![88] },
        ]
    );
}

#[test]
fn tree_underflow_reports_position_and_emits_nothing() {
    let r = tree_interpret(&vec![TurtleInt::Pop], &initial_tree_cursor());
    assert_eq!(r, Err(StackUnderflow { at: 0 }));
    let r = tree_interpret(
        &vec![
            TurtleInt::Push,
            TurtleInt::Forward,
            TurtleInt::Pop,
            TurtleInt::Forward,
            TurtleInt::Pop,
        ],
        &initial_tree_cursor(),
    );
    assert_eq!(r, Err(StackUnderflow { at: 4 }));
}

#[test]
fn tree_balanced_brackets_always_succeed() {
    let s = vec![
        TurtleInt::Push,
        TurtleInt::Push,
        TurtleInt::Forward,
        TurtleInt::Pop,
        TurtleInt::Push,
        TurtleInt::Turn,
        TurtleInt::Pop,
        TurtleInt::Pop,
    ];
    assert!(tree_interpret(&s, &initial_tree_cursor()).is_ok());
}

#[test]
fn tree_interpret_is_deterministic() {
    let mut s = vec![];
    for i in 0..30u32 {
        s.push(TurtleInt::Push);
        s.push(TurtleInt::MultSpeed(i));
        s.push(TurtleInt::Forward);
        s.push(TurtleInt::Turn);
        s.push(TurtleInt::Pop);
    }
    assert_eq!(
        tree_interpret(&s, &initial_tree_cursor()),
        tree_interpret(&s, &initial_tree_cursor())
    );
}

#[test]
fn initial_cursor_holds_start_words() {
    let c = initial_tree_cursor();
    assert_eq!(c.speed, vec![TREE_START_SPEED]);
    assert_eq!(c.angle, vec![TREE_START_ANGLE]);
    assert_eq!(c.weight, vec![TREE_START_WEIGHT]);
}

#[test]
fn start_words_are_the_expected_values() {
    assert_eq!(f32::from_bits(TREE_START_SPEED), 50.0);
    assert_eq!(f32::from_bits(TREE_START_ANGLE), 90.0);
    assert_eq!(f32::from_bits(TREE_START_WEIGHT), 10.0);
}
