//! The generation schedulers: a tick counter that triggers one rewrite
//! every fixed number of ticks.  The tree system additionally freezes for
//! good once the counter passes its generation budget, while the counter
//! itself keeps counting unconditionally.

use crate::instructions::{tree_pop_count, KochInstr, TurtleInt};
use crate::rewrite::{
    koch_expand, koch_snowflake, koch_wf, pop_count, spec_koch_snowflake, spec_tree,
    tree_generation, TreeChoice,
};
use vstd::prelude::*;

verus! {

/// Simulation ticks between two generations.
pub const TICKS_PER_GENERATION: u64 = 60;

/// Generations the tree system is allowed before it freezes.
pub const TREE_GENERATION_BUDGET: u64 = 15;

/// The last tick on which the tree system may still rewrite.
pub const TREE_FREEZE_TICK: u64 = TICKS_PER_GENERATION * TREE_GENERATION_BUDGET;

/// Whether a tick that finds this counter value triggers a Koch rewrite.
pub open spec fn spec_koch_wants_rewrite(count: u64) -> bool {
    count % TICKS_PER_GENERATION == 0
}

/// Whether a tick that finds this counter value triggers a tree rewrite:
/// the generation period must come round and the budget must not be spent.
pub open spec fn spec_tree_wants_rewrite(count: u64) -> bool {
    count <= TREE_FREEZE_TICK && count % TICKS_PER_GENERATION == 0
}

/// Every distance a Koch expansion yields has a division counter one above
/// some counter of its source, so a bound on the source gives a bound on
/// the result.
proof fn lemma_koch_expand_thirds(s: Seq<KochInstr>, b: int)
    requires
        0 <= b < u64::MAX,
        forall|i: int|
            0 <= i < s.len() ==> ((#[trigger] s[i]) matches KochInstr::Forward(l) ==> l.thirds
                <= b),
    ensures
        forall|j: int|
            0 <= j < koch_expand(s).len() ==> ((#[trigger] koch_expand(s)[j]) matches
                KochInstr::Forward(l) ==> l.thirds <= b + 1),
    decreases s.len(),
{
    if s.len() > 0 {
        let d = s.drop_last();
        assert forall|i: int|
            0 <= i < d.len() implies ((#[trigger] d[i]) matches KochInstr::Forward(l) ==> l.thirds
            <= b) by {
            assert(d[i] == s[i]);
        }
        lemma_koch_expand_thirds(d, b);
        assert(s.last() == s[s.len() - 1]);
        let blk = crate::rewrite::koch_block(s.last());
        assert forall|j: int|
            0 <= j < koch_expand(s).len() implies ((#[trigger] koch_expand(s)[j]) matches
            KochInstr::Forward(l) ==> l.thirds <= b + 1) by {
            if j < koch_expand(d).len() {
                assert(koch_expand(s)[j] == koch_expand(d)[j]);
            } else {
                assert(koch_expand(s)[j] == blk[j - koch_expand(d).len()]);
            }
        }
    }
}

/// The Koch snowflake scheduler: every generation period it replaces its
/// sequence with the next Koch generation.  The tick counter never resets.
pub struct KochSystem {
    pub count: u64,
    pub turtle_string: Vec<KochInstr>,
}

impl KochSystem {
    /// Every distance the system holds has been divided at most once per
    /// elapsed tick, so another generation never exhausts a counter.
    pub open spec fn wf(self) -> bool {
        forall|i: int|
            0 <= i < self.turtle_string@.len() ==> ((#[trigger] self.turtle_string@[i]) matches
                KochInstr::Forward(l) ==> l.thirds <= self.count)
    }

    /// A fresh system: no ticks yet, an empty sequence that the first
    /// rewrite will seed.
    pub fn new() -> (s: Self)
        ensures
            s.count == 0,
            s.turtle_string@ == Seq::<KochInstr>::empty(),
            s.wf(),
    {
        KochSystem { count: 0, turtle_string: Vec::new() }
    }

    /// One simulation tick: rewrite when the generation period comes round,
    /// then advance the counter.
    pub fn tick(&mut self)
        requires
            old(self).wf(),
            old(self).count < u64::MAX,
        ensures
            final(self).count == old(self).count + 1,
            final(self).wf(),
            spec_koch_wants_rewrite(old(self).count) ==> final(self).turtle_string@
                == spec_koch_snowflake(old(self).turtle_string@),
            !spec_koch_wants_rewrite(old(self).count) ==> final(self).turtle_string@ == old(self).turtle_string@,
    {
        if self.count % TICKS_PER_GENERATION == 0 {
            proof {
                assert(koch_wf(self.turtle_string@));
            }
            let next = koch_snowflake(&self.turtle_string);
            proof {
                if self.turtle_string@.len() == 0 {
                    assert forall|j: int|
                        0 <= j < next@.len() implies ((#[trigger] next@[j]) matches
                        KochInstr::Forward(l) ==> l.thirds <= self.count + 1) by {}
                } else {
                    lemma_koch_expand_thirds(self.turtle_string@, self.count as int);
                }
            }
            self.turtle_string = next;
        }
        self.count = self.count + 1;
    }
}

/// The tree scheduler: every generation period it replaces its sequence
/// with the next stochastic tree generation, until the budget is spent;
/// after that every tick leaves the sequence untouched for good, while the
/// counter keeps counting.
pub struct TreeSystem {
    pub count: u64,
    pub turtle_string: Vec<TurtleInt>,
}

impl TreeSystem {
    /// A fresh system: no ticks yet, an empty sequence that the first
    /// rewrite will seed.
    pub fn new() -> (s: Self)
        ensures
            s.count == 0,
            s.turtle_string@ == Seq::<TurtleInt>::empty(),
    {
        TreeSystem { count: 0, turtle_string: Vec::new() }
    }

    /// Whether the coming tick will rewrite, so that the caller knows to
    /// draw one angle factor per `Pop` beforehand.
    pub fn wants_rewrite(&self) -> (b: bool)
        ensures
            b == spec_tree_wants_rewrite(self.count),
    {
        self.count <= TREE_FREEZE_TICK && self.count % TICKS_PER_GENERATION == 0
    }

    /// How many `Pop` instructions the sequence holds: the number of angle
    /// factors one rewrite consumes.
    pub fn pops(&self) -> (n: usize)
        ensures
            n == tree_pop_count(self.turtle_string@),
    {
        pop_count(&self.turtle_string)
    }

    /// One simulation tick: rewrite when due, with the given angle-factor
    /// words, then advance the counter.  Once the counter has passed the
    /// freeze tick the sequence can never change again: the result is the
    /// old sequence, and the counter stays past the freeze tick, so the
    /// same holds of every later tick.
    pub fn tick(&mut self, scales: &Vec<u32>)
        requires
            old(self).count < u64::MAX,
            spec_tree_wants_rewrite(old(self).count) ==> scales@.len() == tree_pop_count(
                old(self).turtle_string@,
            ),
        ensures
            final(self).count == old(self).count + 1,
            !spec_tree_wants_rewrite(old(self).count) ==> final(self).turtle_string@ == old(self).turtle_string@,
            spec_tree_wants_rewrite(old(self).count) ==> exists|choices: Seq<TreeChoice>|
                choices.len() == tree_pop_count(old(self).turtle_string@) && (forall|t: int|
                    0 <= t < choices.len() ==> choices[t] is Taper || choices[t]
                        == (TreeChoice::Branch { scale: scales@[t] })) && final(self).turtle_string@ == spec_tree(old(self).turtle_string@, choices),
            old(self).count > TREE_FREEZE_TICK ==> final(self).turtle_string@ == old(self).turtle_string@ && final(self).count > TREE_FREEZE_TICK,
    {
        if self.count <= TREE_FREEZE_TICK && self.count % TICKS_PER_GENERATION == 0 {
            let next = tree_generation(&self.turtle_string, scales);
            self.turtle_string = next;
        }
        self.count = self.count + 1;
    }
}

/// Generation freeze: a counter that has passed the freeze tick can never
/// satisfy the rewrite trigger again.  Together with the last clause of
/// [`TreeSystem::tick`] this pins the sequence for every later tick: each
/// tick keeps the counter past the freeze tick and hands the sequence on
/// bit for bit.
pub proof fn lemma_generation_freeze(count: u64)
    requires
        count > TREE_FREEZE_TICK,
    ensures
        !spec_tree_wants_rewrite(count),
{
}

} // verus!
