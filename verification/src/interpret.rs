//! The turtle interpreters: a left-to-right walk of an instruction sequence
//! that maintains a cursor and a save/restore stack and emits one drawing
//! operation per forward instruction.
//!
//! The interpreter owns everything that is not numeric: the stack
//! discipline, the routing of scalar state through save and restore, and the
//! order of emission.  Scalars are kept as the ordered list of factor words
//! that were set or multiplied onto them; a rendering stage outside the
//! library folds each list into a number when it replays the tape.  A `Pop`
//! on an empty stack is the one fatal precondition violation: the walk stops
//! there and reports the offending position, emitting nothing.

use crate::instructions::{
    koch_forward_count, koch_pop_count, koch_pop_safe, koch_push_count, lemma_take_full,
    lemma_take_snoc, tree_forward_count, tree_pop_count, tree_pop_safe, tree_push_count,
    KochInstr, Length, TurtleInt,
};
use vstd::prelude::*;

verus! {

/// The word of the single-precision starting speed of the tree turtle,
/// fifty units per step.
pub const TREE_START_SPEED: u32 = 0x42480000;

/// The word of the single-precision starting turn angle of the tree turtle,
/// ninety degrees.
pub const TREE_START_ANGLE: u32 = 0x42B40000;

/// The word of the single-precision starting stroke weight of the tree
/// turtle, ten units.
pub const TREE_START_WEIGHT: u32 = 0x41200000;

/// The scalar state of the tree turtle.  Each scalar is the non-empty list
/// of factor words that make it up: a `Set*` instruction resets the list to
/// its payload, a `Mult*` instruction appends one more factor, and the
/// value the renderer uses is the left-to-right product of the list.
pub struct Cursor {
    pub speed: Vec<u32>,
    pub angle: Vec<u32>,
    pub weight: Vec<u32>,
}

/// The mathematical image of a [`Cursor`].
#[verifier::ext_equal]
pub struct CursorView {
    pub speed: Seq<u32>,
    pub angle: Seq<u32>,
    pub weight: Seq<u32>,
}

impl View for Cursor {
    type V = CursorView;

    open spec fn view(&self) -> CursorView {
        CursorView { speed: self.speed@, angle: self.angle@, weight: self.weight@ }
    }
}

/// Each scalar of the cursor has at least one factor word.
pub open spec fn cursor_wf(c: CursorView) -> bool {
    c.speed.len() > 0 && c.angle.len() > 0 && c.weight.len() > 0
}

/// One operation of the drawing tape that a tree interpretation emits.
#[derive(PartialEq, Eq, Debug)]
pub enum DrawOp {
    /// Advance by the product of `speed` and draw the travelled segment
    /// with the product of `weight` as its stroke weight.
    Draw { speed: Vec<u32>, weight: Vec<u32> },
    /// Rotate the heading counter-clockwise by the product of `angle`,
    /// taken in degrees.
    Rotate { angle: Vec<u32> },
    /// Remember the current position and heading.
    Save,
    /// Return to the most recently remembered position and heading.
    Restore,
}

/// The mathematical image of a [`DrawOp`].
#[verifier::ext_equal]
pub enum DrawOpView {
    Draw { speed: Seq<u32>, weight: Seq<u32> },
    Rotate { angle: Seq<u32> },
    Save,
    Restore,
}

impl View for DrawOp {
    type V = DrawOpView;

    open spec fn view(&self) -> DrawOpView {
        match self {
            DrawOp::Draw { speed, weight } => DrawOpView::Draw {
                speed: speed@,
                weight: weight@,
            },
            DrawOp::Rotate { angle } => DrawOpView::Rotate { angle: angle@ },
            DrawOp::Save => DrawOpView::Save,
            DrawOp::Restore => DrawOpView::Restore,
        }
    }
}

pub open spec fn ops_view(t: Seq<DrawOp>) -> Seq<DrawOpView> {
    t.map_values(|o: DrawOp| o@)
}

pub open spec fn stack_view(s: Seq<Cursor>) -> Seq<CursorView> {
    s.map_values(|c: Cursor| c@)
}

/// The fatal precondition violation of interpretation: the `Pop` at
/// position `at` found the save stack empty.
#[derive(Clone, Copy, PartialEq, Eq, Structural, Debug)]
pub struct StackUnderflow {
    pub at: usize,
}

/// A halted tree interpretation: the emitted tape, the final cursor and the
/// final save stack.
pub type TreeRun = (Seq<DrawOpView>, CursorView, Seq<CursorView>);

/// What one instruction does to a tree interpretation, `at` being its
/// position (reported if it is the violating `Pop`).
pub open spec fn tree_step(
    tape: Seq<DrawOpView>,
    cur: CursorView,
    stack: Seq<CursorView>,
    i: TurtleInt,
    at: int,
) -> Result<TreeRun, int> {
    match i {
        TurtleInt::Forward => Ok(
            (tape.push(DrawOpView::Draw { speed: cur.speed, weight: cur.weight }), cur, stack),
        ),
        TurtleInt::Turn => Ok((tape.push(DrawOpView::Rotate { angle: cur.angle }), cur, stack)),
        TurtleInt::Push => Ok((tape.push(DrawOpView::Save), cur, stack.push(cur))),
        TurtleInt::Pop => if stack.len() == 0 {
            Err(at)
        } else {
            Ok((tape.push(DrawOpView::Restore), stack.last(), stack.drop_last()))
        },
        TurtleInt::SetSpeed(w) => Ok(
            (tape, CursorView { speed: seq![w], angle: cur.angle, weight: cur.weight }, stack),
        ),
        TurtleInt::MultSpeed(w) => Ok(
            (
                tape,
                CursorView { speed: cur.speed.push(w), angle: cur.angle, weight: cur.weight },
                stack,
            ),
        ),
        TurtleInt::SetAngle(w) => Ok(
            (tape, CursorView { speed: cur.speed, angle: seq![w], weight: cur.weight }, stack),
        ),
        TurtleInt::MultAngle(w) => Ok(
            (
                tape,
                CursorView { speed: cur.speed, angle: cur.angle.push(w), weight: cur.weight },
                stack,
            ),
        ),
        TurtleInt::SetWeight(w) => Ok(
            (tape, CursorView { speed: cur.speed, angle: cur.angle, weight: seq![w] }, stack),
        ),
        TurtleInt::MultWeight(w) => Ok(
            (
                tape,
                CursorView { speed: cur.speed, angle: cur.angle, weight: cur.weight.push(w) },
                stack,
            ),
        ),
    }
}

/// The tree interpretation of a whole sequence, from a given start cursor,
/// an empty tape and an empty stack.
pub open spec fn tree_run(s: Seq<TurtleInt>, init: CursorView) -> Result<TreeRun, int>
    decreases s.len(),
{
    if s.len() == 0 {
        Ok((Seq::empty(), init, Seq::empty()))
    } else {
        match tree_run(s.drop_last(), init) {
            Ok((tape, cur, stack)) => tree_step(tape, cur, stack, s.last(), s.len() - 1),
            Err(e) => Err(e),
        }
    }
}

pub open spec fn op_draw_count(t: Seq<DrawOpView>) -> nat
    decreases t.len(),
{
    if t.len() == 0 {
        0
    } else {
        op_draw_count(t.drop_last()) + if t.last() is Draw {
            1nat
        } else {
            0nat
        }
    }
}

pub open spec fn op_save_count(t: Seq<DrawOpView>) -> nat
    decreases t.len(),
{
    if t.len() == 0 {
        0
    } else {
        op_save_count(t.drop_last()) + if t.last() is Save {
            1nat
        } else {
            0nat
        }
    }
}

pub open spec fn op_restore_count(t: Seq<DrawOpView>) -> nat
    decreases t.len(),
{
    if t.len() == 0 {
        0
    } else {
        op_restore_count(t.drop_last()) + if t.last() is Restore {
            1nat
        } else {
            0nat
        }
    }
}

/// In every prefix of the tape the restores never outnumber the saves, so a
/// replay that keeps its own position stack can never underflow.
pub open spec fn replay_safe(t: Seq<DrawOpView>) -> bool {
    forall|i: int| 0 <= i <= t.len() ==> op_restore_count(#[trigger] t.take(i)) <= op_save_count(
        t.take(i),
    )
}

/// The factor lists an operation carries are non-empty.
pub open spec fn op_wf(o: DrawOpView) -> bool {
    match o {
        DrawOpView::Draw { speed, weight } => speed.len() > 0 && weight.len() > 0,
        DrawOpView::Rotate { angle } => angle.len() > 0,
        DrawOpView::Save => true,
        DrawOpView::Restore => true,
    }
}

pub open spec fn tape_wf(t: Seq<DrawOpView>) -> bool {
    forall|j: int| 0 <= j < t.len() ==> op_wf(#[trigger] t[j])
}

proof fn lemma_op_counts_push(t: Seq<DrawOpView>, x: DrawOpView)
    ensures
        op_draw_count(t.push(x)) == op_draw_count(t) + if x is Draw {
            1nat
        } else {
            0nat
        },
        op_save_count(t.push(x)) == op_save_count(t) + if x is Save {
            1nat
        } else {
            0nat
        },
        op_restore_count(t.push(x)) == op_restore_count(t) + if x is Restore {
            1nat
        } else {
            0nat
        },
{
    assert(t.push(x).drop_last() =~= t);
    assert(t.push(x).last() == x);
}

proof fn lemma_tape_push_keeps(t: Seq<DrawOpView>, x: DrawOpView)
    requires
        replay_safe(t),
        tape_wf(t),
        op_wf(x),
        op_restore_count(t.push(x)) <= op_save_count(t.push(x)),
    ensures
        replay_safe(t.push(x)),
        tape_wf(t.push(x)),
{
    let t2 = t.push(x);
    assert forall|i: int| 0 <= i <= t2.len() implies op_restore_count(#[trigger] t2.take(i))
        <= op_save_count(t2.take(i)) by {
        if i <= t.len() {
            assert(t2.take(i) =~= t.take(i));
            assert(op_restore_count(t.take(i)) <= op_save_count(t.take(i)));
        } else {
            assert(t2.take(i) =~= t2);
        }
    }
    assert forall|j: int| 0 <= j < t2.len() implies op_wf(#[trigger] t2[j]) by {
        if j < t.len() {
            assert(t2[j] == t[j]);
            assert(op_wf(t[j]));
        } else {
            assert(t2[j] == x);
        }
    }
}

/// What a halted or failed tree interpretation looks like.
///
/// On success the stack holds one saved cursor per unmatched `Push`, the
/// tape draws once per `Forward`, saves once per `Push` and restores once
/// per `Pop`, every prefix of the input was pop-safe, every factor list in
/// reach is non-empty, and the tape itself can be replayed without
/// underflow.  On failure the reported position carries the first `Pop`
/// that found the stack empty: everything before it was pop-safe and
/// exactly balanced.
pub proof fn lemma_tree_run_shape(s: Seq<TurtleInt>, init: CursorView)
    requires
        cursor_wf(init),
    ensures
        (match tree_run(s, init) {
            Ok((tape, cur, stack)) => {
                &&& tree_pop_safe(s)
                &&& stack.len() == tree_push_count(s) - tree_pop_count(s)
                &&& op_draw_count(tape) == tree_forward_count(s)
                &&& op_save_count(tape) == tree_push_count(s)
                &&& op_restore_count(tape) == tree_pop_count(s)
                &&& cursor_wf(cur)
                &&& forall|j: int| 0 <= j < stack.len() ==> cursor_wf(#[trigger] stack[j])
                &&& tape_wf(tape)
                &&& replay_safe(tape)
            },
            Err(e) => {
                &&& !tree_pop_safe(s)
                &&& 0 <= e < s.len()
                &&& s[e] is Pop
                &&& tree_pop_safe(s.take(e))
                &&& tree_pop_count(s.take(e)) == tree_push_count(s.take(e))
            },
        }),
    decreases s.len(),
{
    if s.len() == 0 {
        assert forall|i: int| 0 <= i <= s.len() implies tree_pop_count(#[trigger] s.take(i))
            <= tree_push_count(s.take(i)) by {
            assert(s.take(i) =~= s);
        }
    } else {
        let d = s.drop_last();
        lemma_tree_run_shape(d, init);
        match tree_run(d, init) {
            Err(e) => {
                assert(s.take(e) =~= d.take(e));
                assert(s.take(e + 1) =~= d.take(e).push(s[e]));
                lemma_take_snoc(s, e);
                assert(tree_pop_count(s.take(e + 1)) > tree_push_count(s.take(e + 1)));
            },
            Ok((tape, cur, stack)) => {
                let last = s.last();
                if last is Pop && stack.len() == 0 {
                    // the violating position is the last instruction
                    assert(s.take(s.len() - 1) =~= d);
                    assert(s.take(s.len() as int) =~= s);
                    assert(tree_pop_count(s) > tree_push_count(s));
                    assert(!tree_pop_safe(s));
                } else {
                    // every step result is Ok; establish the invariants
                    match tree_step(tape, cur, stack, last, s.len() - 1) {
                        Ok((tape2, cur2, stack2)) => {
                            if last is Forward {
                                lemma_op_counts_push(
                                    tape,
                                    DrawOpView::Draw { speed: cur.speed, weight: cur.weight },
                                );
                                lemma_tape_push_keeps(
                                    tape,
                                    DrawOpView::Draw { speed: cur.speed, weight: cur.weight },
                                );
                            } else if last is Turn {
                                lemma_op_counts_push(tape, DrawOpView::Rotate { angle: cur.angle });
                                lemma_tape_push_keeps(tape, DrawOpView::Rotate { angle: cur.angle });
                            } else if last is Push {
                                lemma_op_counts_push(tape, DrawOpView::Save);
                                lemma_tape_push_keeps(tape, DrawOpView::Save);
                                assert forall|j: int| 0 <= j < stack2.len() implies cursor_wf(
                                    #[trigger] stack2[j],
                                ) by {
                                    if j < stack.len() {
                                        assert(stack2[j] == stack[j]);
                                        assert(cursor_wf(stack[j]));
                                    } else {
                                        assert(stack2[j] == cur);
                                    }
                                }
                            } else if last is Pop {
                                lemma_op_counts_push(tape, DrawOpView::Restore);
                                lemma_tape_push_keeps(tape, DrawOpView::Restore);
                                assert(cursor_wf(stack.last()));
                                assert forall|j: int| 0 <= j < stack2.len() implies cursor_wf(
                                    #[trigger] stack2[j],
                                ) by {
                                    assert(stack2[j] == stack[j]);
                                    assert(cursor_wf(stack[j]));
                                }
                            }
                            // pop-safety of the whole sequence
                            assert forall|i: int| 0 <= i <= s.len() implies tree_pop_count(
                                #[trigger] s.take(i),
                            ) <= tree_push_count(s.take(i)) by {
                                if i < s.len() {
                                    assert(s.take(i) =~= d.take(i));
                                    assert(tree_pop_count(d.take(i)) <= tree_push_count(d.take(i)));
                                } else {
                                    assert(s.take(i) =~= s);
                                }
                            }
                        },
                        Err(_) => {
                            assert(false);
                        },
                    }
                }
            },
        }
    }
}

/// Once a prefix fails, every extension fails the same way.
pub proof fn lemma_tree_run_err_prefix(s: Seq<TurtleInt>, j: int, init: CursorView, e: int)
    requires
        0 <= j <= s.len(),
        tree_run(s.take(j), init) == Err::<TreeRun, int>(e),
    ensures
        tree_run(s, init) == Err::<TreeRun, int>(e),
    decreases s.len() - j,
{
    if j < s.len() {
        lemma_take_snoc(s, j);
        assert(tree_run(s.take(j + 1), init) == Err::<TreeRun, int>(e));
        lemma_tree_run_err_prefix(s, j + 1, init, e);
    } else {
        lemma_take_full(s);
    }
}

/// An exact copy of a word list.
fn copy_words(v: &Vec<u32>) -> (r: Vec<u32>)
    ensures
        r@ == v@,
{
    let mut r: Vec<u32> = Vec::new();
    let mut i: usize = 0;
    while i < v.len()
        invariant
            i <= v@.len(),
            r@ == v@.take(i as int),
        decreases v@.len() - i,
    {
        r.push(v[i]);
        proof {
            lemma_take_snoc(v@, i as int);
            assert(r@ =~= v@.take(i as int + 1));
        }
        i += 1;
    }
    proof {
        lemma_take_full(v@);
        assert(r@ =~= v@);
    }
    r
}

/// An exact copy of the cursor, as `Push` snapshots it.
fn copy_cursor(c: &Cursor) -> (r: Cursor)
    ensures
        r@ == c@,
{
    let r = Cursor {
        speed: copy_words(&c.speed),
        angle: copy_words(&c.angle),
        weight: copy_words(&c.weight),
    };
    proof {
        assert(r@ =~= c@);
    }
    r
}

/// The start state of the tree turtle: speed fifty, turn angle ninety
/// degrees, stroke weight ten, each as a single factor word.
pub fn initial_tree_cursor() -> (c: Cursor)
    ensures
        c@ == (CursorView {
            speed: seq![TREE_START_SPEED],
            angle: seq![TREE_START_ANGLE],
            weight: seq![TREE_START_WEIGHT],
        }),
{
    let mut speed: Vec<u32> = Vec::new();
    speed.push(TREE_START_SPEED);
    let mut angle: Vec<u32> = Vec::new();
    angle.push(TREE_START_ANGLE);
    let mut weight: Vec<u32> = Vec::new();
    weight.push(TREE_START_WEIGHT);
    let c = Cursor { speed, angle, weight };
    proof {
        assert(c@ =~= (CursorView {
            speed: seq![TREE_START_SPEED],
            angle: seq![TREE_START_ANGLE],
            weight: seq![TREE_START_WEIGHT],
        }));
    }
    c
}

/// Walk a tree-family sequence from the given start cursor and emit the
/// drawing tape, or report the first `Pop` that found the stack empty.
///
/// Interpretation is deterministic — the result is a function of the
/// sequence and the start cursor alone — and it succeeds exactly when every
/// `Pop` is covered by an earlier unmatched `Push`.  On success the tape
/// draws one segment per `Forward`; on failure nothing is emitted.
pub fn tree_interpret(s: &Vec<TurtleInt>, init: &Cursor) -> (r: Result<Vec<DrawOp>, StackUnderflow>)
    requires
        cursor_wf(init@),
    ensures
        (match r {
            Ok(tape) => tree_run(s@, init@) matches Ok(cfg) && cfg.0 == ops_view(tape@),
            Err(e) => tree_run(s@, init@) == Err::<TreeRun, int>(e.at as int),
        }),
        r is Ok <==> tree_pop_safe(s@),
        (r matches Ok(tape) ==> op_draw_count(ops_view(tape@)) == tree_forward_count(s@)
            && tape_wf(ops_view(tape@)) && replay_safe(ops_view(tape@))),
        (r matches Err(e) ==> e.at < s@.len() && s@[e.at as int] is Pop && tree_pop_safe(
            s@.take(e.at as int),
        )),
{
    let ghost iv = init@;
    let mut tape: Vec<DrawOp> = Vec::new();
    let mut cur: Cursor = copy_cursor(init);
    let mut stack: Vec<Cursor> = Vec::new();
    let mut i: usize = 0;
    proof {
        assert(s@.take(0) =~= Seq::<TurtleInt>::empty());
        assert(ops_view(tape@) =~= Seq::<DrawOpView>::empty());
        assert(stack_view(stack@) =~= Seq::<CursorView>::empty());
    }
    while i < s.len()
        invariant
            i <= s@.len(),
            iv == init@,
            cursor_wf(iv),
            tree_run(s@.take(i as int), iv) == Ok::<TreeRun, int>(
                (ops_view(tape@), cur@, stack_view(stack@)),
            ),
        decreases s@.len() - i,
    {
        proof {
            lemma_take_snoc(s@, i as int);
        }
        let ghost tv = ops_view(tape@);
        let ghost cv = cur@;
        let ghost sv = stack_view(stack@);
        match s[i] {
            TurtleInt::Forward => {
                let sp = copy_words(&cur.speed);
                let w = copy_words(&cur.weight);
                tape.push(DrawOp::Draw { speed: sp, weight: w });
                proof {
                    assert(ops_view(tape@) =~= tv.push(
                        DrawOpView::Draw { speed: cv.speed, weight: cv.weight },
                    ));
                }
            },
            TurtleInt::Turn => {
                let a = copy_words(&cur.angle);
                tape.push(DrawOp::Rotate { angle: a });
                proof {
                    assert(ops_view(tape@) =~= tv.push(DrawOpView::Rotate { angle: cv.angle }));
                }
            },
            TurtleInt::Push => {
                tape.push(DrawOp::Save);
                let snap = copy_cursor(&cur);
                stack.push(snap);
                proof {
                    assert(ops_view(tape@) =~= tv.push(DrawOpView::Save));
                    assert(stack_view(stack@) =~= sv.push(cv));
                }
            },
            TurtleInt::Pop => {
                match stack.pop() {
                    Some(c) => {
                        tape.push(DrawOp::Restore);
                        cur = c;
                        proof {
                            assert(ops_view(tape@) =~= tv.push(DrawOpView::Restore));
                            assert(stack_view(stack@) =~= sv.drop_last());
                            assert(cur@ == sv.last());
                        }
                    },
                    None => {
                        proof {
                            assert(sv.len() == 0);
                            assert(tree_run(s@.take(i as int + 1), iv) == Err::<TreeRun, int>(
                                i as int,
                            ));
                            lemma_tree_run_err_prefix(s@, i as int + 1, iv, i as int);
                            lemma_tree_run_shape(s@, iv);
                        }
                        return Err(StackUnderflow { at: i });
                    },
                }
            },
            TurtleInt::SetSpeed(w) => {
                let mut nv: Vec<u32> = Vec::new();
                nv.push(w);
                cur.speed = nv;
                proof {
                    assert(cur@ =~= (CursorView {
                        speed: seq![w],
                        angle: cv.angle,
                        weight: cv.weight,
                    }));
                }
            },
            TurtleInt::MultSpeed(w) => {
                cur.speed.push(w);
                proof {
                    assert(cur@ =~= (CursorView {
                        speed: cv.speed.push(w),
                        angle: cv.angle,
                        weight: cv.weight,
                    }));
                }
            },
            TurtleInt::SetAngle(w) => {
                let mut nv: Vec<u32> = Vec::new();
                nv.push(w);
                cur.angle = nv;
                proof {
                    assert(cur@ =~= (CursorView {
                        speed: cv.speed,
                        angle: seq![w],
                        weight: cv.weight,
                    }));
                }
            },
            TurtleInt::MultAngle(w) => {
                cur.angle.push(w);
                proof {
                    assert(cur@ =~= (CursorView {
                        speed: cv.speed,
                        angle: cv.angle.push(w),
                        weight: cv.weight,
                    }));
                }
            },
            TurtleInt::SetWeight(w) => {
                let mut nv: Vec<u32> = Vec::new();
                nv.push(w);
                cur.weight = nv;
                proof {
                    assert(cur@ =~= (CursorView {
                        speed: cv.speed,
                        angle: cv.angle,
                        weight: seq![w],
                    }));
                }
            },
            TurtleInt::MultWeight(w) => {
                cur.weight.push(w);
                proof {
                    assert(cur@ =~= (CursorView {
                        speed: cv.speed,
                        angle: cv.angle,
                        weight: cv.weight.push(w),
                    }));
                }
            },
        }
        proof {
            assert(tree_run(s@.take(i as int + 1), iv) == tree_step(
                tv,
                cv,
                sv,
                s@[i as int],
                i as int,
            ));
        }
        i += 1;
    }
    proof {
        lemma_take_full(s@);
        lemma_tree_run_shape(s@, iv);
    }
    Ok(tape)
}

/// One operation of the drawing tape that a Koch interpretation emits.
/// Every payload is explicit, so the same type serves the specification and
/// the executable tape.
#[derive(Clone, Copy, PartialEq, Eq, Structural, Debug)]
pub enum KochOp {
    /// Advance by the given distance and draw the travelled segment.
    Draw { length: Length },
    /// Rotate the heading counter-clockwise by the given angle in degrees.
    Rotate { degrees: i32 },
    /// Remember the current position and heading.
    Save,
    /// Return to the most recently remembered position and heading.
    Restore,
}

/// A halted Koch interpretation: the emitted tape and the save depth.  The
/// Koch cursor has no scalar state of its own, so a saved snapshot carries
/// nothing the library models and the stack is just a depth.
pub type KochRun = (Seq<KochOp>, nat);

/// What one instruction does to a Koch interpretation, `at` being its
/// position (reported if it is the violating `Pop`).
pub open spec fn koch_step(tape: Seq<KochOp>, depth: nat, i: KochInstr, at: int) -> Result<
    KochRun,
    int,
> {
    match i {
        KochInstr::Forward(l) => Ok((tape.push(KochOp::Draw { length: l }), depth)),
        KochInstr::Turn(d) => Ok((tape.push(KochOp::Rotate { degrees: d }), depth)),
        KochInstr::Push => Ok((tape.push(KochOp::Save), depth + 1)),
        KochInstr::Pop => if depth == 0 {
            Err(at)
        } else {
            Ok((tape.push(KochOp::Restore), (depth - 1) as nat))
        },
    }
}

/// The Koch interpretation of a whole sequence, from an empty tape and an
/// empty save stack.
pub open spec fn koch_run(s: Seq<KochInstr>) -> Result<KochRun, int>
    decreases s.len(),
{
    if s.len() == 0 {
        Ok((Seq::empty(), 0))
    } else {
        match koch_run(s.drop_last()) {
            Ok((tape, depth)) => koch_step(tape, depth, s.last(), s.len() - 1),
            Err(e) => Err(e),
        }
    }
}

pub open spec fn koch_draw_count(t: Seq<KochOp>) -> nat
    decreases t.len(),
{
    if t.len() == 0 {
        0
    } else {
        koch_draw_count(t.drop_last()) + if t.last() is Draw {
            1nat
        } else {
            0nat
        }
    }
}

pub open spec fn koch_save_count(t: Seq<KochOp>) -> nat
    decreases t.len(),
{
    if t.len() == 0 {
        0
    } else {
        koch_save_count(t.drop_last()) + if t.last() is Save {
            1nat
        } else {
            0nat
        }
    }
}

pub open spec fn koch_restore_count(t: Seq<KochOp>) -> nat
    decreases t.len(),
{
    if t.len() == 0 {
        0
    } else {
        koch_restore_count(t.drop_last()) + if t.last() is Restore {
            1nat
        } else {
            0nat
        }
    }
}

/// In every prefix of the tape the restores never outnumber the saves.
pub open spec fn koch_replay_safe(t: Seq<KochOp>) -> bool {
    forall|i: int| 0 <= i <= t.len() ==> koch_restore_count(#[trigger] t.take(i))
        <= koch_save_count(t.take(i))
}

proof fn lemma_koch_counts_push(t: Seq<KochOp>, x: KochOp)
    ensures
        koch_draw_count(t.push(x)) == koch_draw_count(t) + if x is Draw {
            1nat
        } else {
            0nat
        },
        koch_save_count(t.push(x)) == koch_save_count(t) + if x is Save {
            1nat
        } else {
            0nat
        },
        koch_restore_count(t.push(x)) == koch_restore_count(t) + if x is Restore {
            1nat
        } else {
            0nat
        },
{
    assert(t.push(x).drop_last() =~= t);
    assert(t.push(x).last() == x);
}

proof fn lemma_koch_replay_push(t: Seq<KochOp>, x: KochOp)
    requires
        koch_replay_safe(t),
        koch_restore_count(t.push(x)) <= koch_save_count(t.push(x)),
    ensures
        koch_replay_safe(t.push(x)),
{
    let t2 = t.push(x);
    assert forall|i: int| 0 <= i <= t2.len() implies koch_restore_count(#[trigger] t2.take(i))
        <= koch_save_count(t2.take(i)) by {
        if i <= t.len() {
            assert(t2.take(i) =~= t.take(i));
            assert(koch_restore_count(t.take(i)) <= koch_save_count(t.take(i)));
        } else {
            assert(t2.take(i) =~= t2);
        }
    }
}

/// What a halted or failed Koch interpretation looks like; the Koch
/// counterpart of [`lemma_tree_run_shape`].
pub proof fn lemma_koch_run_shape(s: Seq<KochInstr>)
    ensures
        (match koch_run(s) {
            Ok((tape, depth)) => {
                &&& koch_pop_safe(s)
                &&& depth == koch_push_count(s) - koch_pop_count(s)
                &&& koch_draw_count(tape) == koch_forward_count(s)
                &&& koch_save_count(tape) == koch_push_count(s)
                &&& koch_restore_count(tape) == koch_pop_count(s)
                &&& koch_replay_safe(tape)
            },
            Err(e) => {
                &&& !koch_pop_safe(s)
                &&& 0 <= e < s.len()
                &&& s[e] is Pop
                &&& koch_pop_safe(s.take(e))
                &&& koch_pop_count(s.take(e)) == koch_push_count(s.take(e))
            },
        }),
    decreases s.len(),
{
    if s.len() == 0 {
        assert forall|i: int| 0 <= i <= s.len() implies koch_pop_count(#[trigger] s.take(i))
            <= koch_push_count(s.take(i)) by {
            assert(s.take(i) =~= s);
        }
    } else {
        let d = s.drop_last();
        lemma_koch_run_shape(d);
        match koch_run(d) {
            Err(e) => {
                assert(s.take(e) =~= d.take(e));
                lemma_take_snoc(s, e);
                assert(s.take(e + 1) =~= d.take(e).push(s[e]));
                assert(koch_pop_count(s.take(e + 1)) > koch_push_count(s.take(e + 1)));
            },
            Ok((tape, depth)) => {
                let last = s.last();
                if last is Pop && depth == 0 {
                    assert(s.take(s.len() - 1) =~= d);
                    assert(s.take(s.len() as int) =~= s);
                    assert(koch_pop_count(s) > koch_push_count(s));
                    assert(!koch_pop_safe(s));
                } else {
                    match koch_step(tape, depth, last, s.len() - 1) {
                        Ok((tape2, depth2)) => {
                            match last {
                                KochInstr::Forward(l) => {
                                    lemma_koch_counts_push(tape, KochOp::Draw { length: l });
                                    lemma_koch_replay_push(tape, KochOp::Draw { length: l });
                                },
                                KochInstr::Turn(dg) => {
                                    lemma_koch_counts_push(tape, KochOp::Rotate { degrees: dg });
                                    lemma_koch_replay_push(tape, KochOp::Rotate { degrees: dg });
                                },
                                KochInstr::Push => {
                                    lemma_koch_counts_push(tape, KochOp::Save);
                                    lemma_koch_replay_push(tape, KochOp::Save);
                                },
                                KochInstr::Pop => {
                                    lemma_koch_counts_push(tape, KochOp::Restore);
                                    lemma_koch_replay_push(tape, KochOp::Restore);
                                },
                            }
                            assert forall|i: int| 0 <= i <= s.len() implies koch_pop_count(
                                #[trigger] s.take(i),
                            ) <= koch_push_count(s.take(i)) by {
                                if i < s.len() {
                                    assert(s.take(i) =~= d.take(i));
                                    assert(koch_pop_count(d.take(i)) <= koch_push_count(d.take(i)));
                                } else {
                                    assert(s.take(i) =~= s);
                                }
                            }
                        },
                        Err(_) => {
                            assert(false);
                        },
                    }
                }
            },
        }
    }
}

/// Once a prefix fails, every extension fails the same way.
pub proof fn lemma_koch_run_err_prefix(s: Seq<KochInstr>, j: int, e: int)
    requires
        0 <= j <= s.len(),
        koch_run(s.take(j)) == Err::<KochRun, int>(e),
    ensures
        koch_run(s) == Err::<KochRun, int>(e),
    decreases s.len() - j,
{
    if j < s.len() {
        lemma_take_snoc(s, j);
        assert(koch_run(s.take(j + 1)) == Err::<KochRun, int>(e));
        lemma_koch_run_err_prefix(s, j + 1, e);
    } else {
        lemma_take_full(s);
    }
}

/// Walk a Koch-family sequence and emit the drawing tape, or report the
/// first `Pop` that found the stack empty.
///
/// Interpretation is deterministic and succeeds exactly when every `Pop` is
/// covered by an earlier unmatched `Push`; the rules of the Koch system
/// never produce either, but the interpreter does not assume that.  On
/// success the tape draws one segment per `Forward`.
pub fn koch_interpret(s: &Vec<KochInstr>) -> (r: Result<Vec<KochOp>, StackUnderflow>)
    ensures
        (match r {
            Ok(tape) => koch_run(s@) matches Ok(cfg) && cfg.0 == tape@,
            Err(e) => koch_run(s@) == Err::<KochRun, int>(e.at as int),
        }),
        r is Ok <==> koch_pop_safe(s@),
        (r matches Ok(tape) ==> koch_draw_count(tape@) == koch_forward_count(s@)
            && koch_replay_safe(tape@)),
        (r matches Err(e) ==> e.at < s@.len() && s@[e.at as int] is Pop && koch_pop_safe(
            s@.take(e.at as int),
        )),
{
    let mut tape: Vec<KochOp> = Vec::new();
    let mut depth: usize = 0;
    let mut i: usize = 0;
    proof {
        assert(s@.take(0) =~= Seq::<KochInstr>::empty());
    }
    while i < s.len()
        invariant
            i <= s@.len(),
            depth <= i,
            koch_run(s@.take(i as int)) == Ok::<KochRun, int>((tape@, depth as nat)),
        decreases s@.len() - i,
    {
        proof {
            lemma_take_snoc(s@, i as int);
        }
        match s[i] {
            KochInstr::Forward(l) => {
                tape.push(KochOp::Draw { length: l });
            },
            KochInstr::Turn(d) => {
                tape.push(KochOp::Rotate { degrees: d });
            },
            KochInstr::Push => {
                tape.push(KochOp::Save);
                depth = depth + 1;
            },
            KochInstr::Pop => {
                if depth == 0 {
                    proof {
                        assert(koch_run(s@.take(i as int + 1)) == Err::<KochRun, int>(i as int));
                        lemma_koch_run_err_prefix(s@, i as int + 1, i as int);
                        lemma_koch_run_shape(s@);
                    }
                    return Err(StackUnderflow { at: i });
                }
                tape.push(KochOp::Restore);
                depth = depth - 1;
            },
        }
        i += 1;
    }
    proof {
        lemma_take_full(s@);
        lemma_koch_run_shape(s@);
    }
    Ok(tape)
}


/// Interpretation is deterministic and stateless across runs: its outcome
/// is a function of the sequence and the start cursor alone, so two tree
/// interpretations of the same sequence from the same cursor emit
/// identical tapes.
pub proof fn lemma_tree_interpret_deterministic(
    s: Seq<TurtleInt>,
    init: CursorView,
    t1: Seq<DrawOpView>,
    t2: Seq<DrawOpView>,
)
    requires
        tree_run(s, init) matches Ok(cfg1) && cfg1.0 == t1,
        tree_run(s, init) matches Ok(cfg2) && cfg2.0 == t2,
    ensures
        t1 == t2,
{
}

/// Interpretation is deterministic and stateless across runs, for the Koch
/// family: two interpretations of the same sequence emit identical tapes.
pub proof fn lemma_koch_interpret_deterministic(s: Seq<KochInstr>, t1: Seq<KochOp>, t2: Seq<KochOp>)
    requires
        koch_run(s) matches Ok(cfg1) && cfg1.0 == t1,
        koch_run(s) matches Ok(cfg2) && cfg2.0 == t2,
    ensures
        t1 == t2,
{
}

} // verus!
