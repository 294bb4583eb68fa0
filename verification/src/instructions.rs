//! The two instruction alphabets and the spec-level counting helpers that
//! the rewriter and the interpreter share.

use vstd::prelude::*;

verus! {

/// A Koch-family drawing distance: `units` divided by three, `thirds` times.
///
/// The Koch rule replaces a forward step by four steps of a third of its
/// length, so every distance that can ever occur is the seed distance with
/// some number of exact divisions by three applied.  Holding the division
/// count instead of a rounded quotient keeps the rewriter exact.
#[derive(Clone, Copy, PartialEq, Eq, Structural, Debug)]
pub struct Length {
    pub units: u32,
    pub thirds: u64,
}

/// An instruction of the Koch-snowflake family.
///
/// `Forward` carries its own distance and `Turn` its own angle in degrees
/// (positive angles rotate the heading counter-clockwise).  `Push` and `Pop`
/// are part of the alphabet even though the Koch rules never produce them:
/// the interpreter handles them like any other instruction.
#[derive(Clone, Copy, PartialEq, Eq, Structural, Debug)]
pub enum KochInstr {
    Forward(Length),
    Turn(i32),
    Push,
    Pop,
}

/// An instruction of the tree family.
///
/// `Forward` and `Turn` carry no payload: the distance and the angle come
/// from the interpreter state, which the `Set*` and `Mult*` instructions
/// adjust.  Every scalar payload is the 32-bit word of the single-precision
/// value it stands for; the library stores and routes these words but never
/// computes with them.
#[derive(Clone, Copy, PartialEq, Eq, Structural, Debug)]
pub enum TurtleInt {
    Forward,
    Turn,
    Push,
    Pop,
    SetSpeed(u32),
    MultSpeed(u32),
    SetAngle(u32),
    MultAngle(u32),
    SetWeight(u32),
    MultWeight(u32),
}

pub open spec fn koch_forward_count(s: Seq<KochInstr>) -> nat
    decreases s.len(),
{
    if s.len() == 0 {
        0
    } else {
        koch_forward_count(s.drop_last()) + if s.last() is Forward {
            1nat
        } else {
            0nat
        }
    }
}

pub open spec fn koch_push_count(s: Seq<KochInstr>) -> nat
    decreases s.len(),
{
    if s.len() == 0 {
        0
    } else {
        koch_push_count(s.drop_last()) + if s.last() is Push {
            1nat
        } else {
            0nat
        }
    }
}

pub open spec fn koch_pop_count(s: Seq<KochInstr>) -> nat
    decreases s.len(),
{
    if s.len() == 0 {
        0
    } else {
        koch_pop_count(s.drop_last()) + if s.last() is Pop {
            1nat
        } else {
            0nat
        }
    }
}

pub open spec fn tree_forward_count(s: Seq<TurtleInt>) -> nat
    decreases s.len(),
{
    if s.len() == 0 {
        0
    } else {
        tree_forward_count(s.drop_last()) + if s.last() is Forward {
            1nat
        } else {
            0nat
        }
    }
}

pub open spec fn tree_push_count(s: Seq<TurtleInt>) -> nat
    decreases s.len(),
{
    if s.len() == 0 {
        0
    } else {
        tree_push_count(s.drop_last()) + if s.last() is Push {
            1nat
        } else {
            0nat
        }
    }
}

pub open spec fn tree_pop_count(s: Seq<TurtleInt>) -> nat
    decreases s.len(),
{
    if s.len() == 0 {
        0
    } else {
        tree_pop_count(s.drop_last()) + if s.last() is Pop {
            1nat
        } else {
            0nat
        }
    }
}

/// Every `Pop` is covered by an earlier unmatched `Push`: in every prefix the
/// pops never outnumber the pushes.
pub open spec fn koch_pop_safe(s: Seq<KochInstr>) -> bool {
    forall|i: int| 0 <= i <= s.len() ==> koch_pop_count(#[trigger] s.take(i)) <= koch_push_count(
        s.take(i),
    )
}

/// Every `Pop` is covered by an earlier unmatched `Push`: in every prefix the
/// pops never outnumber the pushes.
pub open spec fn tree_pop_safe(s: Seq<TurtleInt>) -> bool {
    forall|i: int| 0 <= i <= s.len() ==> tree_pop_count(#[trigger] s.take(i)) <= tree_push_count(
        s.take(i),
    )
}

/// Taking one more element appends exactly that element: the bridge between
/// prefix-directed loops and the last-element recursion of the spec functions.
pub proof fn lemma_take_snoc<A>(s: Seq<A>, i: int)
    requires
        0 <= i < s.len(),
    ensures
        s.take(i + 1).drop_last() =~= s.take(i),
        s.take(i + 1).last() == s[i],
        s.take(i + 1).len() == i + 1,
{
}

/// A full-length prefix is the sequence itself.
pub proof fn lemma_take_full<A>(s: Seq<A>)
    ensures
        s.take(s.len() as int) =~= s,
{
}

pub proof fn lemma_tree_pop_count_take_le(s: Seq<TurtleInt>, i: int, j: int)
    requires
        0 <= i <= j <= s.len(),
    ensures
        tree_pop_count(s.take(i)) <= tree_pop_count(s.take(j)),
    decreases j - i,
{
    if i < j {
        lemma_tree_pop_count_take_le(s, i, j - 1);
        lemma_take_snoc(s, j - 1);
    }
}


/// Appending one instruction adds exactly its own contribution to the
/// push and pop counts.
pub proof fn lemma_tree_counts_snoc(a: Seq<TurtleInt>, x: TurtleInt)
    ensures
        tree_pop_count(a.push(x)) == tree_pop_count(a) + if x is Pop {
            1nat
        } else {
            0nat
        },
        tree_push_count(a.push(x)) == tree_push_count(a) + if x is Push {
            1nat
        } else {
            0nat
        },
{
    assert(a.push(x).drop_last() =~= a);
    assert(a.push(x).last() == x);
}

/// Push and pop counts distribute over concatenation.
pub proof fn lemma_tree_counts_concat(a: Seq<TurtleInt>, b: Seq<TurtleInt>)
    ensures
        tree_pop_count(a + b) == tree_pop_count(a) + tree_pop_count(b),
        tree_push_count(a + b) == tree_push_count(a) + tree_push_count(b),
    decreases b.len(),
{
    if b.len() == 0 {
        assert(a + b =~= a);
    } else {
        lemma_tree_counts_concat(a, b.drop_last());
        assert((a + b).drop_last() =~= a + b.drop_last());
        assert((a + b).last() == b.last());
    }
}


/// Appending one instruction adds exactly its own contribution to the
/// push and pop counts, for the Koch family.
pub proof fn lemma_koch_counts_snoc(a: Seq<KochInstr>, x: KochInstr)
    ensures
        koch_pop_count(a.push(x)) == koch_pop_count(a) + if x is Pop {
            1nat
        } else {
            0nat
        },
        koch_push_count(a.push(x)) == koch_push_count(a) + if x is Push {
            1nat
        } else {
            0nat
        },
{
    assert(a.push(x).drop_last() =~= a);
    assert(a.push(x).last() == x);
}

/// Push and pop counts distribute over concatenation, for the Koch family.
pub proof fn lemma_koch_counts_concat(a: Seq<KochInstr>, b: Seq<KochInstr>)
    ensures
        koch_pop_count(a + b) == koch_pop_count(a) + koch_pop_count(b),
        koch_push_count(a + b) == koch_push_count(a) + koch_push_count(b),
    decreases b.len(),
{
    if b.len() == 0 {
        assert(a + b =~= a);
    } else {
        lemma_koch_counts_concat(a, b.drop_last());
        assert((a + b).drop_last() =~= a + b.drop_last());
        assert((a + b).last() == b.last());
    }
}

} // verus!
