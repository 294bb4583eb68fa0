//! The rewriting engine: one generation replaces every instruction that
//! matches the rule set's trigger by its production and passes every other
//! instruction through unchanged, in order.  An empty sequence is seeded
//! instead of expanded.

use crate::instructions::{
    koch_forward_count, koch_pop_count, koch_push_count, lemma_koch_counts_concat,
    lemma_koch_counts_snoc, lemma_take_full, lemma_take_snoc, lemma_tree_counts_concat,
    lemma_tree_counts_snoc, lemma_tree_pop_count_take_le, tree_pop_count, tree_push_count,
    KochInstr, Length, TurtleInt,
};
use crate::random::{coin, draw_below};
use vstd::prelude::*;

verus! {

/// The 32-bit word of the single-precision weight factor nine tenths, used
/// by the tapering rule of the tree system.
pub const TAPER_WEIGHT_FACTOR: u32 = 0x3F666666;

/// The 32-bit word of the single-precision factor six tenths, used by the
/// branching rule of the tree system for speed and weight shrinking.
pub const BRANCH_SHRINK_FACTOR: u32 = 0x3F19999A;

/// The 32-bit word of the single-precision weight factor eight tenths, used
/// by the branching rule of the tree system for the sibling branch.
pub const SIBLING_WEIGHT_FACTOR: u32 = 0x3F4CCCCD;

/// Seed distance of the Koch triangle: two hundred units, not yet divided.
pub const KOCH_SEED_UNITS: u32 = 200;

/// Outer angle of the Koch seed triangle, in degrees.
pub const KOCH_SEED_TURN: i32 = 120;

/// Every distance in the sequence can still be divided by three once more
/// without exhausting its division counter.
pub open spec fn koch_wf(s: Seq<KochInstr>) -> bool {
    forall|i: int|
        0 <= i < s.len() ==> ((#[trigger] s[i]) matches KochInstr::Forward(l) ==> l.thirds
            < u64::MAX)
}

/// One exact division by three.
pub open spec fn third(l: Length) -> Length {
    Length { units: l.units, thirds: (l.thirds + 1) as u64 }
}

/// What one instruction becomes under the Koch rule: a forward step turns
/// into a four-step zigzag of third-length segments kinked by sixty degrees,
/// everything else passes through.
pub open spec fn koch_block(i: KochInstr) -> Seq<KochInstr> {
    match i {
        KochInstr::Forward(l) => seq![
            KochInstr::Forward(third(l)),
            KochInstr::Turn(-60i32),
            KochInstr::Forward(third(l)),
            KochInstr::Turn(120i32),
            KochInstr::Forward(third(l)),
            KochInstr::Turn(-60i32),
            KochInstr::Forward(third(l)),
        ],
        _ => seq![i],
    }
}

pub open spec fn koch_expand(s: Seq<KochInstr>) -> Seq<KochInstr>
    decreases s.len(),
{
    if s.len() == 0 {
        Seq::empty()
    } else {
        koch_expand(s.drop_last()) + koch_block(s.last())
    }
}

/// The equilateral triangle outline that seeds the Koch system.
pub open spec fn koch_seed() -> Seq<KochInstr> {
    seq![
        KochInstr::Forward(Length { units: KOCH_SEED_UNITS, thirds: 0 }),
        KochInstr::Turn(KOCH_SEED_TURN),
        KochInstr::Forward(Length { units: KOCH_SEED_UNITS, thirds: 0 }),
        KochInstr::Turn(KOCH_SEED_TURN),
        KochInstr::Forward(Length { units: KOCH_SEED_UNITS, thirds: 0 }),
    ]
}

pub open spec fn spec_koch_snowflake(s: Seq<KochInstr>) -> Seq<KochInstr> {
    if s.len() == 0 {
        koch_seed()
    } else {
        koch_expand(s)
    }
}

/// One generation of the Koch snowflake system.
pub fn koch_snowflake(s: &Vec<KochInstr>) -> (r: Vec<KochInstr>)
    requires
        koch_wf(s@),
    ensures
        r@ == spec_koch_snowflake(s@),
{
    if s.len() == 0 {
        let mut r: Vec<KochInstr> = Vec::new();
        r.push(KochInstr::Forward(Length { units: KOCH_SEED_UNITS, thirds: 0 }));
        r.push(KochInstr::Turn(KOCH_SEED_TURN));
        r.push(KochInstr::Forward(Length { units: KOCH_SEED_UNITS, thirds: 0 }));
        r.push(KochInstr::Turn(KOCH_SEED_TURN));
        r.push(KochInstr::Forward(Length { units: KOCH_SEED_UNITS, thirds: 0 }));
        proof {
            assert(r@ =~= koch_seed());
        }
        return r;
    }
    let mut r: Vec<KochInstr> = Vec::new();
    let mut i: usize = 0;
    while i < s.len()
        invariant
            i <= s@.len(),
            koch_wf(s@),
            r@ == koch_expand(s@.take(i as int)),
        decreases s@.len() - i,
    {
        proof {
            lemma_take_snoc(s@, i as int);
        }
        let ghost prev = r@;
        match s[i] {
            KochInstr::Forward(l) => {
                let t = Length { units: l.units, thirds: l.thirds + 1 };
                r.push(KochInstr::Forward(t));
                r.push(KochInstr::Turn(-60));
                r.push(KochInstr::Forward(t));
                r.push(KochInstr::Turn(120));
                r.push(KochInstr::Forward(t));
                r.push(KochInstr::Turn(-60));
                r.push(KochInstr::Forward(t));
            },
            ins => {
                r.push(ins);
            },
        }
        proof {
            assert(r@ =~= prev + koch_block(s@[i as int]));
        }
        i += 1;
    }
    proof {
        lemma_take_full(s@);
    }
    r
}

/// What one instruction becomes under the crazy-tree rule, given the coin
/// drawn for it: a matched `Pop` becomes either a straight continuation or a
/// two-child branch; everything else passes through.  `k` is how many `Pop`
/// instructions came before it, which is the index of its coin.
pub open spec fn crazy_block(i: TurtleInt, coins: Seq<bool>, k: int) -> Seq<TurtleInt> {
    if i is Pop {
        if coins[k] {
            seq![TurtleInt::Push, TurtleInt::Forward, TurtleInt::Pop]
        } else {
            seq![
                TurtleInt::Push,
                TurtleInt::Turn,
                TurtleInt::Forward,
                TurtleInt::Pop,
                TurtleInt::Forward,
                TurtleInt::Pop,
            ]
        }
    } else {
        seq![i]
    }
}

pub open spec fn crazy_expand(s: Seq<TurtleInt>, coins: Seq<bool>) -> Seq<TurtleInt>
    decreases s.len(),
{
    if s.len() == 0 {
        Seq::empty()
    } else {
        crazy_expand(s.drop_last(), coins) + crazy_block(
            s.last(),
            coins,
            tree_pop_count(s.drop_last()) as int,
        )
    }
}

/// The single bracketed trunk that seeds both tree systems.
pub open spec fn tree_seed() -> Seq<TurtleInt> {
    seq![TurtleInt::Push, TurtleInt::Forward, TurtleInt::Pop]
}

pub open spec fn spec_crazy_tree(s: Seq<TurtleInt>, coins: Seq<bool>) -> Seq<TurtleInt> {
    if s.len() == 0 {
        tree_seed()
    } else {
        crazy_expand(s, coins)
    }
}

/// One generation of the crazy-tree system, with the coin for each matched
/// `Pop` supplied by the caller: `true` continues straight, `false` branches.
pub fn crazy_tree(s: &Vec<TurtleInt>, coins: &Vec<bool>) -> (r: Vec<TurtleInt>)
    requires
        coins@.len() == tree_pop_count(s@),
    ensures
        r@ == spec_crazy_tree(s@, coins@),
{
    if s.len() == 0 {
        let mut r: Vec<TurtleInt> = Vec::new();
        r.push(TurtleInt::Push);
        r.push(TurtleInt::Forward);
        r.push(TurtleInt::Pop);
        proof {
            assert(r@ =~= tree_seed());
        }
        return r;
    }
    let mut r: Vec<TurtleInt> = Vec::new();
    let mut i: usize = 0;
    let mut pops: usize = 0;
    while i < s.len()
        invariant
            i <= s@.len(),
            coins@.len() == tree_pop_count(s@),
            pops <= i,
            pops == tree_pop_count(s@.take(i as int)),
            r@ == crazy_expand(s@.take(i as int), coins@),
        decreases s@.len() - i,
    {
        proof {
            lemma_take_snoc(s@, i as int);
            lemma_tree_pop_count_take_le(s@, i as int + 1, s@.len() as int);
            lemma_take_full(s@);
        }
        let ghost prev = r@;
        match s[i] {
            TurtleInt::Pop => {
                if coins[pops] {
                    r.push(TurtleInt::Push);
                    r.push(TurtleInt::Forward);
                    r.push(TurtleInt::Pop);
                } else {
                    r.push(TurtleInt::Push);
                    r.push(TurtleInt::Turn);
                    r.push(TurtleInt::Forward);
                    r.push(TurtleInt::Pop);
                    r.push(TurtleInt::Forward);
                    r.push(TurtleInt::Pop);
                }
                proof {
                    assert(tree_pop_count(s@.take(i as int + 1)) == pops + 1);
                    assert(pops < coins@.len());
                }
                pops = pops + 1;
            },
            ins => {
                r.push(ins);
            },
        }
        proof {
            assert(r@ =~= prev + crazy_block(s@[i as int], coins@, tree_pop_count(s@.take(i as int)) as int));
        }
        i += 1;
    }
    proof {
        lemma_take_full(s@);
    }
    r
}

/// The decision drawn for one matched `Pop` of the weighted tree rule.
#[derive(Clone, Copy, PartialEq, Eq, Structural, Debug)]
pub enum TreeChoice {
    /// Thin the trunk and continue without branching.
    Taper,
    /// Fork: one angled, shrunk child and one continuing sibling.  `scale`
    /// is the 32-bit word of the signed angle factor drawn for the fork.
    Branch { scale: u32 },
}

/// What one instruction becomes under the weighted tree rule, given the
/// decision drawn for it.  `k` is how many `Pop` instructions came before
/// it, which is the index of its decision.
pub open spec fn tree_block(i: TurtleInt, choices: Seq<TreeChoice>, k: int) -> Seq<TurtleInt> {
    if i is Pop {
        match choices[k] {
            TreeChoice::Taper => seq![
                TurtleInt::MultWeight(TAPER_WEIGHT_FACTOR),
                TurtleInt::Forward,
                TurtleInt::Pop,
            ],
            TreeChoice::Branch { scale } => seq![
                TurtleInt::Push,
                TurtleInt::MultAngle(scale),
                TurtleInt::MultSpeed(BRANCH_SHRINK_FACTOR),
                TurtleInt::MultWeight(BRANCH_SHRINK_FACTOR),
                TurtleInt::Turn,
                TurtleInt::Forward,
                TurtleInt::Pop,
                TurtleInt::MultWeight(SIBLING_WEIGHT_FACTOR),
                TurtleInt::Forward,
                TurtleInt::Pop,
            ],
        }
    } else {
        seq![i]
    }
}

pub open spec fn tree_expand(s: Seq<TurtleInt>, choices: Seq<TreeChoice>) -> Seq<TurtleInt>
    decreases s.len(),
{
    if s.len() == 0 {
        Seq::empty()
    } else {
        tree_expand(s.drop_last(), choices) + tree_block(
            s.last(),
            choices,
            tree_pop_count(s.drop_last()) as int,
        )
    }
}

pub open spec fn spec_tree(s: Seq<TurtleInt>, choices: Seq<TreeChoice>) -> Seq<TurtleInt> {
    if s.len() == 0 {
        tree_seed()
    } else {
        tree_expand(s, choices)
    }
}

/// One generation of the weighted tree system, with the decision for each
/// matched `Pop` supplied by the caller.
pub fn tree(s: &Vec<TurtleInt>, choices: &Vec<TreeChoice>) -> (r: Vec<TurtleInt>)
    requires
        choices@.len() == tree_pop_count(s@),
    ensures
        r@ == spec_tree(s@, choices@),
{
    if s.len() == 0 {
        let mut r: Vec<TurtleInt> = Vec::new();
        r.push(TurtleInt::Push);
        r.push(TurtleInt::Forward);
        r.push(TurtleInt::Pop);
        proof {
            assert(r@ =~= tree_seed());
        }
        return r;
    }
    let mut r: Vec<TurtleInt> = Vec::new();
    let mut i: usize = 0;
    let mut pops: usize = 0;
    while i < s.len()
        invariant
            i <= s@.len(),
            choices@.len() == tree_pop_count(s@),
            pops <= i,
            pops == tree_pop_count(s@.take(i as int)),
            r@ == tree_expand(s@.take(i as int), choices@),
        decreases s@.len() - i,
    {
        proof {
            lemma_take_snoc(s@, i as int);
            lemma_tree_pop_count_take_le(s@, i as int + 1, s@.len() as int);
            lemma_take_full(s@);
        }
        let ghost prev = r@;
        match s[i] {
            TurtleInt::Pop => {
                match choices[pops] {
                    TreeChoice::Taper => {
                        r.push(TurtleInt::MultWeight(TAPER_WEIGHT_FACTOR));
                        r.push(TurtleInt::Forward);
                        r.push(TurtleInt::Pop);
                    },
                    TreeChoice::Branch { scale } => {
                        r.push(TurtleInt::Push);
                        r.push(TurtleInt::MultAngle(scale));
                        r.push(TurtleInt::MultSpeed(BRANCH_SHRINK_FACTOR));
                        r.push(TurtleInt::MultWeight(BRANCH_SHRINK_FACTOR));
                        r.push(TurtleInt::Turn);
                        r.push(TurtleInt::Forward);
                        r.push(TurtleInt::Pop);
                        r.push(TurtleInt::MultWeight(SIBLING_WEIGHT_FACTOR));
                        r.push(TurtleInt::Forward);
                        r.push(TurtleInt::Pop);
                    },
                }
                proof {
                    assert(tree_pop_count(s@.take(i as int + 1)) == pops + 1);
                    assert(pops < choices@.len());
                }
                pops = pops + 1;
            },
            ins => {
                r.push(ins);
            },
        }
        proof {
            assert(r@ =~= prev + tree_block(s@[i as int], choices@, tree_pop_count(s@.take(i as int)) as int));
        }
        i += 1;
    }
    proof {
        lemma_take_full(s@);
    }
    r
}

/// The number of `Pop` instructions in the sequence: how many decisions one
/// generation of a tree rewrite consumes.
pub fn pop_count(s: &Vec<TurtleInt>) -> (n: usize)
    ensures
        n == tree_pop_count(s@),
{
    let mut n: usize = 0;
    let mut i: usize = 0;
    while i < s.len()
        invariant
            i <= s@.len(),
            n <= i,
            n == tree_pop_count(s@.take(i as int)),
        decreases s@.len() - i,
    {
        proof {
            lemma_take_snoc(s@, i as int);
        }
        if let TurtleInt::Pop = s[i] {
            n = n + 1;
        }
        i += 1;
    }
    proof {
        lemma_take_full(s@);
    }
    n
}

/// One generation of the crazy-tree system with its coins drawn from the
/// process-wide random source: whatever was drawn, the result is the
/// rewrite of the input under some coin sequence of the right length.
pub fn crazy_tree_generation(s: &Vec<TurtleInt>) -> (r: Vec<TurtleInt>)
    ensures
        exists|coins: Seq<bool>|
            coins.len() == tree_pop_count(s@) && r@ == spec_crazy_tree(
                s@,
                coins,
            ),
{
    let n = pop_count(s);
    let mut coins: Vec<bool> = Vec::new();
    while coins.len() < n
        invariant
            coins@.len() <= n,
        decreases n - coins@.len(),
    {
        coins.push(coin());
    }
    let r = crazy_tree(s, &coins);
    proof {
        assert(coins@.len() == tree_pop_count(s@) && r@ == spec_crazy_tree(
            s@,
            coins@,
        ));
    }
    r
}

/// One generation of the weighted tree system.  The caller supplies the
/// angle-factor word for each `Pop` of the input; the taper-or-branch
/// decision is drawn here, one draw below ten per `Pop`, tapering on zero.
/// Whatever was drawn, the result is the rewrite of the input under some
/// decision sequence that tapers or branches with the caller's factors.
pub fn tree_generation(s: &Vec<TurtleInt>, scales: &Vec<u32>) -> (r: Vec<TurtleInt>)
    requires
        scales@.len() == tree_pop_count(s@),
    ensures
        exists|choices: Seq<TreeChoice>|
            choices.len() == tree_pop_count(s@) && (forall|t: int|
                0 <= t < choices.len() ==> choices[t] is Taper || choices[t]
                    == (TreeChoice::Branch { scale: scales@[t] })) && r@ == spec_tree(s@, choices),
{
    let mut choices: Vec<TreeChoice> = Vec::new();
    let mut k: usize = 0;
    while k < scales.len()
        invariant
            k <= scales@.len(),
            choices@.len() == k,
            forall|t: int|
                0 <= t < k ==> choices@[t] is Taper || choices@[t] == (TreeChoice::Branch {
                    scale: scales@[t],
                }),
        decreases scales@.len() - k,
    {
        let c = if draw_below(10) == 0 {
            TreeChoice::Taper
        } else {
            TreeChoice::Branch { scale: scales[k] }
        };
        choices.push(c);
        k += 1;
    }
    let r = tree(s, &choices);
    proof {
        assert(choices@.len() == tree_pop_count(s@) && (forall|t: int|
            0 <= t < choices@.len() ==> choices@[t] is Taper || choices@[t]
                == (TreeChoice::Branch { scale: scales@[t] })) && r@ == spec_tree(s@, choices@));
    }
    r
}


/// Koch length exactness: one generation turns each of the `k` forward
/// steps into seven instructions and leaves each of the `m` others a single
/// instruction, so the result holds exactly `7 k + m` instructions.
pub proof fn lemma_koch_length(s: Seq<KochInstr>)
    ensures
        koch_forward_count(s) <= s.len(),
        koch_expand(s).len() == 7 * koch_forward_count(s) + (s.len() - koch_forward_count(s)),
    decreases s.len(),
{
    if s.len() > 0 {
        lemma_koch_length(s.drop_last());
        if s.last() is Forward {
            assert(koch_block(s.last()).len() == 7);
        } else {
            assert(koch_block(s.last()).len() == 1);
        }
    }
}

/// Pass-through identity: a sequence with no trigger instruction comes out
/// of a Koch generation unchanged.
pub proof fn lemma_koch_no_trigger(s: Seq<KochInstr>)
    requires
        forall|i: int| 0 <= i < s.len() ==> !((#[trigger] s[i]) is Forward),
    ensures
        koch_expand(s) == s,
    decreases s.len(),
{
    if s.len() > 0 {
        let d = s.drop_last();
        assert forall|i: int| 0 <= i < d.len() implies !((#[trigger] d[i]) is Forward) by {
            assert(d[i] == s[i]);
        }
        lemma_koch_no_trigger(d);
        assert(!(s[s.len() - 1] is Forward));
        assert(koch_block(s.last()) =~= seq![s.last()]);
        assert(koch_expand(s) =~= s);
    } else {
        assert(koch_expand(s) =~= s);
    }
}

/// Expanding a prefix yields a prefix: the expansion of `s.take(j)` is the
/// expansion of `s` cut to its length.
pub proof fn lemma_koch_expand_prefix(s: Seq<KochInstr>, j: int)
    requires
        0 <= j <= s.len(),
    ensures
        koch_expand(s.take(j)).len() <= koch_expand(s).len(),
        koch_expand(s.take(j)) == koch_expand(s).take(koch_expand(s.take(j)).len() as int),
    decreases s.len() - j,
{
    if j == s.len() {
        lemma_take_full(s);
        assert(koch_expand(s.take(j)) =~= koch_expand(s).take(
            koch_expand(s.take(j)).len() as int,
        ));
    } else {
        lemma_take_snoc(s, j);
        lemma_koch_expand_prefix(s, j + 1);
        let a = koch_expand(s.take(j));
        let b = koch_expand(s.take(j + 1));
        let c = koch_expand(s);
        assert(b == a + koch_block(s[j]));
        assert((a + koch_block(s[j])).take(a.len() as int) =~= a);
        assert(c.take(b.len() as int).take(a.len() as int) =~= c.take(a.len() as int));
        assert(a =~= c.take(a.len() as int));
    }
}

/// Every instruction that the Koch rule does not match is passed through
/// unchanged: it reappears, itself, at the position right after the
/// expansion of everything before it.
pub proof fn lemma_koch_pass_through(s: Seq<KochInstr>, j: int)
    requires
        0 <= j < s.len(),
        !(s[j] is Forward),
    ensures
        koch_expand(s.take(j)).len() < koch_expand(s).len(),
        koch_expand(s)[koch_expand(s.take(j)).len() as int] == s[j],
{
    lemma_take_snoc(s, j);
    lemma_koch_expand_prefix(s, j + 1);
    let a = koch_expand(s.take(j));
    let b = koch_expand(s.take(j + 1));
    let c = koch_expand(s);
    assert(koch_block(s[j]) =~= seq![s[j]]);
    assert(b == a + seq![s[j]]);
    assert(b == c.take(b.len() as int));
    assert(c[a.len() as int] == b[a.len() as int]);
    assert(b[a.len() as int] == s[j]);
}

/// Passed-through instructions keep their relative order: the output
/// position grows strictly with the input position.
pub proof fn lemma_koch_order(s: Seq<KochInstr>, j1: int, j2: int)
    requires
        0 <= j1 < j2 <= s.len(),
    ensures
        koch_expand(s.take(j1)).len() < koch_expand(s.take(j2)).len(),
    decreases j2 - j1,
{
    lemma_take_snoc(s, j1);
    if s[j1] is Forward {
        assert(koch_block(s[j1]).len() == 7);
    } else {
        assert(koch_block(s[j1]).len() == 1);
    }
    assert(koch_expand(s.take(j1 + 1)) == koch_expand(s.take(j1)) + koch_block(s[j1]));
    if j1 + 1 < j2 {
        lemma_koch_order(s, j1 + 1, j2);
    }
}

/// Pass-through identity for the crazy-tree rule: with no `Pop` in the
/// sequence, a generation returns it unchanged, whatever the coins.
pub proof fn lemma_crazy_no_trigger(s: Seq<TurtleInt>, coins: Seq<bool>)
    requires
        forall|i: int| 0 <= i < s.len() ==> !((#[trigger] s[i]) is Pop),
    ensures
        crazy_expand(s, coins) == s,
    decreases s.len(),
{
    if s.len() > 0 {
        let d = s.drop_last();
        assert forall|i: int| 0 <= i < d.len() implies !((#[trigger] d[i]) is Pop) by {
            assert(d[i] == s[i]);
        }
        lemma_crazy_no_trigger(d, coins);
        assert(!(s[s.len() - 1] is Pop));
        assert(crazy_block(s.last(), coins, tree_pop_count(d) as int) =~= seq![s.last()]);
        assert(crazy_expand(s, coins) =~= s);
    } else {
        assert(crazy_expand(s, coins) =~= s);
    }
}

/// Expanding a prefix yields a prefix, for the crazy-tree rule.
pub proof fn lemma_crazy_expand_prefix(s: Seq<TurtleInt>, coins: Seq<bool>, j: int)
    requires
        0 <= j <= s.len(),
    ensures
        crazy_expand(s.take(j), coins).len() <= crazy_expand(s, coins).len(),
        crazy_expand(s.take(j), coins) == crazy_expand(s, coins).take(
            crazy_expand(s.take(j), coins).len() as int,
        ),
    decreases s.len() - j,
{
    if j == s.len() {
        lemma_take_full(s);
        assert(crazy_expand(s.take(j), coins) =~= crazy_expand(s, coins).take(
            crazy_expand(s.take(j), coins).len() as int,
        ));
    } else {
        lemma_take_snoc(s, j);
        lemma_crazy_expand_prefix(s, coins, j + 1);
        let blk = crazy_block(s[j], coins, tree_pop_count(s.take(j)) as int);
        let a = crazy_expand(s.take(j), coins);
        let b = crazy_expand(s.take(j + 1), coins);
        let c = crazy_expand(s, coins);
        assert(b == a + blk);
        assert((a + blk).take(a.len() as int) =~= a);
        assert(c.take(b.len() as int).take(a.len() as int) =~= c.take(a.len() as int));
        assert(a =~= c.take(a.len() as int));
    }
}

/// Every instruction that the crazy-tree rule does not match is passed
/// through unchanged, at the position right after the expansion of
/// everything before it.
pub proof fn lemma_crazy_pass_through(s: Seq<TurtleInt>, coins: Seq<bool>, j: int)
    requires
        0 <= j < s.len(),
        !(s[j] is Pop),
    ensures
        crazy_expand(s.take(j), coins).len() < crazy_expand(s, coins).len(),
        crazy_expand(s, coins)[crazy_expand(s.take(j), coins).len() as int] == s[j],
{
    lemma_take_snoc(s, j);
    lemma_crazy_expand_prefix(s, coins, j + 1);
    let a = crazy_expand(s.take(j), coins);
    let b = crazy_expand(s.take(j + 1), coins);
    let c = crazy_expand(s, coins);
    assert(crazy_block(s[j], coins, tree_pop_count(s.take(j)) as int) =~= seq![s[j]]);
    assert(b == a + seq![s[j]]);
    assert(b == c.take(b.len() as int));
    assert(c[a.len() as int] == b[a.len() as int]);
    assert(b[a.len() as int] == s[j]);
}

/// Passed-through instructions keep their relative order under the
/// crazy-tree rule.
pub proof fn lemma_crazy_order(s: Seq<TurtleInt>, coins: Seq<bool>, j1: int, j2: int)
    requires
        0 <= j1 < j2 <= s.len(),
    ensures
        crazy_expand(s.take(j1), coins).len() < crazy_expand(s.take(j2), coins).len(),
    decreases j2 - j1,
{
    lemma_take_snoc(s, j1);
    let blk = crazy_block(s[j1], coins, tree_pop_count(s.take(j1)) as int);
    assert(blk.len() >= 1);
    assert(crazy_expand(s.take(j1 + 1), coins) == crazy_expand(s.take(j1), coins) + blk);
    if j1 + 1 < j2 {
        lemma_crazy_order(s, coins, j1 + 1, j2);
    }
}

/// Pass-through identity for the weighted tree rule: with no `Pop` in the
/// sequence, a generation returns it unchanged, whatever the decisions.
pub proof fn lemma_tree_no_trigger(s: Seq<TurtleInt>, choices: Seq<TreeChoice>)
    requires
        forall|i: int| 0 <= i < s.len() ==> !((#[trigger] s[i]) is Pop),
    ensures
        tree_expand(s, choices) == s,
    decreases s.len(),
{
    if s.len() > 0 {
        let d = s.drop_last();
        assert forall|i: int| 0 <= i < d.len() implies !((#[trigger] d[i]) is Pop) by {
            assert(d[i] == s[i]);
        }
        lemma_tree_no_trigger(d, choices);
        assert(!(s[s.len() - 1] is Pop));
        assert(tree_block(s.last(), choices, tree_pop_count(d) as int) =~= seq![s.last()]);
        assert(tree_expand(s, choices) =~= s);
    } else {
        assert(tree_expand(s, choices) =~= s);
    }
}

/// Expanding a prefix yields a prefix, for the weighted tree rule.
pub proof fn lemma_tree_expand_prefix(s: Seq<TurtleInt>, choices: Seq<TreeChoice>, j: int)
    requires
        0 <= j <= s.len(),
    ensures
        tree_expand(s.take(j), choices).len() <= tree_expand(s, choices).len(),
        tree_expand(s.take(j), choices) == tree_expand(s, choices).take(
            tree_expand(s.take(j), choices).len() as int,
        ),
    decreases s.len() - j,
{
    if j == s.len() {
        lemma_take_full(s);
        assert(tree_expand(s.take(j), choices) =~= tree_expand(s, choices).take(
            tree_expand(s.take(j), choices).len() as int,
        ));
    } else {
        lemma_take_snoc(s, j);
        lemma_tree_expand_prefix(s, choices, j + 1);
        let blk = tree_block(s[j], choices, tree_pop_count(s.take(j)) as int);
        let a = tree_expand(s.take(j), choices);
        let b = tree_expand(s.take(j + 1), choices);
        let c = tree_expand(s, choices);
        assert(b == a + blk);
        assert((a + blk).take(a.len() as int) =~= a);
        assert(c.take(b.len() as int).take(a.len() as int) =~= c.take(a.len() as int));
        assert(a =~= c.take(a.len() as int));
    }
}

/// Every instruction that the weighted tree rule does not match is passed
/// through unchanged, at the position right after the expansion of
/// everything before it.
pub proof fn lemma_tree_pass_through(s: Seq<TurtleInt>, choices: Seq<TreeChoice>, j: int)
    requires
        0 <= j < s.len(),
        !(s[j] is Pop),
    ensures
        tree_expand(s.take(j), choices).len() < tree_expand(s, choices).len(),
        tree_expand(s, choices)[tree_expand(s.take(j), choices).len() as int] == s[j],
{
    lemma_take_snoc(s, j);
    lemma_tree_expand_prefix(s, choices, j + 1);
    let a = tree_expand(s.take(j), choices);
    let b = tree_expand(s.take(j + 1), choices);
    let c = tree_expand(s, choices);
    assert(tree_block(s[j], choices, tree_pop_count(s.take(j)) as int) =~= seq![s[j]]);
    assert(b == a + seq![s[j]]);
    assert(b == c.take(b.len() as int));
    assert(c[a.len() as int] == b[a.len() as int]);
    assert(b[a.len() as int] == s[j]);
}

/// Passed-through instructions keep their relative order under the
/// weighted tree rule.
pub proof fn lemma_tree_order(s: Seq<TurtleInt>, choices: Seq<TreeChoice>, j1: int, j2: int)
    requires
        0 <= j1 < j2 <= s.len(),
    ensures
        tree_expand(s.take(j1), choices).len() < tree_expand(s.take(j2), choices).len(),
    decreases j2 - j1,
{
    lemma_take_snoc(s, j1);
    let blk = tree_block(s[j1], choices, tree_pop_count(s.take(j1)) as int);
    assert(blk.len() >= 1);
    assert(tree_expand(s.take(j1 + 1), choices) == tree_expand(s.take(j1), choices) + blk);
    if j1 + 1 < j2 {
        lemma_tree_order(s, choices, j1 + 1, j2);
    }
}


/// Every prefix of a tree production dips at most one below its entry
/// height, exactly as deep as the `Pop` it replaces, and the production's
/// net height is that of the instruction it replaces.
proof fn lemma_tree_block_prefix_bound(x: TurtleInt, choices: Seq<TreeChoice>, k: int, o: int)
    requires
        0 <= o <= tree_block(x, choices, k).len(),
    ensures
        tree_pop_count(tree_block(x, choices, k).take(o)) <= tree_push_count(
            tree_block(x, choices, k).take(o),
        ) + if x is Pop {
            1int
        } else {
            0int
        },
        tree_push_count(tree_block(x, choices, k)) - tree_pop_count(tree_block(x, choices, k)) == (
        if x is Push {
            1int
        } else if x is Pop {
            -1int
        } else {
            0int
        }),
{
    let b = tree_block(x, choices, k);
    let e0 = Seq::<TurtleInt>::empty();
    if x is Pop {
        match choices[k] {
            TreeChoice::Taper => {
                let e1 = e0.push(TurtleInt::MultWeight(TAPER_WEIGHT_FACTOR));
                let e2 = e1.push(TurtleInt::Forward);
                let e3 = e2.push(TurtleInt::Pop);
                lemma_tree_counts_snoc(e0, TurtleInt::MultWeight(TAPER_WEIGHT_FACTOR));
                lemma_tree_counts_snoc(e1, TurtleInt::Forward);
                lemma_tree_counts_snoc(e2, TurtleInt::Pop);
                assert(b =~= e3);
                if o == 0 {
                    assert(b.take(o) =~= e0);
                } else if o == 1 {
                    assert(b.take(o) =~= e1);
                } else if o == 2 {
                    assert(b.take(o) =~= e2);
                } else {
                    assert(b.take(o) =~= e3);
                }
            },
            TreeChoice::Branch { scale } => {
                let e1 = e0.push(TurtleInt::Push);
                let e2 = e1.push(TurtleInt::MultAngle(scale));
                let e3 = e2.push(TurtleInt::MultSpeed(BRANCH_SHRINK_FACTOR));
                let e4 = e3.push(TurtleInt::MultWeight(BRANCH_SHRINK_FACTOR));
                let e5 = e4.push(TurtleInt::Turn);
                let e6 = e5.push(TurtleInt::Forward);
                let e7 = e6.push(TurtleInt::Pop);
                let e8 = e7.push(TurtleInt::MultWeight(SIBLING_WEIGHT_FACTOR));
                let e9 = e8.push(TurtleInt::Forward);
                let e10 = e9.push(TurtleInt::Pop);
                lemma_tree_counts_snoc(e0, TurtleInt::Push);
                lemma_tree_counts_snoc(e1, TurtleInt::MultAngle(scale));
                lemma_tree_counts_snoc(e2, TurtleInt::MultSpeed(BRANCH_SHRINK_FACTOR));
                lemma_tree_counts_snoc(e3, TurtleInt::MultWeight(BRANCH_SHRINK_FACTOR));
                lemma_tree_counts_snoc(e4, TurtleInt::Turn);
                lemma_tree_counts_snoc(e5, TurtleInt::Forward);
                lemma_tree_counts_snoc(e6, TurtleInt::Pop);
                lemma_tree_counts_snoc(e7, TurtleInt::MultWeight(SIBLING_WEIGHT_FACTOR));
                lemma_tree_counts_snoc(e8, TurtleInt::Forward);
                lemma_tree_counts_snoc(e9, TurtleInt::Pop);
                assert(b =~= e10);
                if o == 0 {
                    assert(b.take(o) =~= e0);
                } else if o == 1 {
                    assert(b.take(o) =~= e1);
                } else if o == 2 {
                    assert(b.take(o) =~= e2);
                } else if o == 3 {
                    assert(b.take(o) =~= e3);
                } else if o == 4 {
                    assert(b.take(o) =~= e4);
                } else if o == 5 {
                    assert(b.take(o) =~= e5);
                } else if o == 6 {
                    assert(b.take(o) =~= e6);
                } else if o == 7 {
                    assert(b.take(o) =~= e7);
                } else if o == 8 {
                    assert(b.take(o) =~= e8);
                } else if o == 9 {
                    assert(b.take(o) =~= e9);
                } else {
                    assert(b.take(o) =~= e10);
                }
            },
        }
    } else {
        let e1 = e0.push(x);
        lemma_tree_counts_snoc(e0, x);
        assert(b =~= e1);
        if o == 0 {
            assert(b.take(o) =~= e0);
        } else {
            assert(b.take(o) =~= e1);
        }
    }
}

/// One tree expansion of a pop-safe sequence is pop-safe again, and its
/// net height (unmatched pushes) never shrinks.
proof fn lemma_tree_expand_safety(s: Seq<TurtleInt>, choices: Seq<TreeChoice>)
    requires
        crate::instructions::tree_pop_safe(s),
    ensures
        crate::instructions::tree_pop_safe(tree_expand(s, choices)),
        tree_push_count(tree_expand(s, choices)) - tree_pop_count(tree_expand(s, choices))
            >= tree_push_count(s) - tree_pop_count(s),
    decreases s.len(),
{
    let r = tree_expand(s, choices);
    if s.len() == 0 {
        assert(r =~= s);
    } else {
        let d = s.drop_last();
        let x = s.last();
        let k = tree_pop_count(d) as int;
        let blk = tree_block(x, choices, k);
        let e = tree_expand(d, choices);
        assert forall|i: int|
            0 <= i <= d.len() implies tree_pop_count(#[trigger] d.take(i)) <= tree_push_count(
            d.take(i),
        ) by {
            assert(d.take(i) =~= s.take(i));
            assert(tree_pop_count(s.take(i)) <= tree_push_count(s.take(i)));
        }
        lemma_tree_expand_safety(d, choices);
        lemma_take_full(s);
        lemma_take_full(d);
        assert(tree_pop_count(s) <= tree_push_count(s));
        assert(tree_pop_count(d) <= tree_push_count(d));
        lemma_tree_block_prefix_bound(x, choices, k, blk.len() as int);
        assert(blk.take(blk.len() as int) =~= blk);
        lemma_tree_counts_concat(e, blk);
        assert forall|p: int|
            0 <= p <= r.len() implies tree_pop_count(#[trigger] r.take(p)) <= tree_push_count(
            r.take(p),
        ) by {
            if p <= e.len() {
                assert(r.take(p) =~= e.take(p));
                assert(tree_pop_count(e.take(p)) <= tree_push_count(e.take(p)));
            } else {
                let o = p - e.len();
                assert(r.take(p) =~= e + blk.take(o));
                lemma_tree_counts_concat(e, blk.take(o));
                lemma_tree_block_prefix_bound(x, choices, k, o);
                assert(tree_pop_count(e) <= tree_push_count(e));
                if x is Pop {
                    // the sequence itself closes a bracket here, so it had
                    // one open, and the expansion has at least as many
                    assert(tree_pop_count(d) + 1 <= tree_push_count(d));
                    assert(tree_push_count(e) - tree_pop_count(e) >= 1);
                }
            }
        }
    }
}

/// The tree rule set never breaks the stack discipline: one generation of
/// a pop-safe sequence, or of the empty sequence it seeds, is pop-safe
/// again, whatever the decisions.  Every sequence the scheduler can ever
/// store therefore interprets without the fatal underflow.
pub proof fn lemma_tree_keeps_pop_safe(s: Seq<TurtleInt>, choices: Seq<TreeChoice>)
    requires
        crate::instructions::tree_pop_safe(s),
    ensures
        crate::instructions::tree_pop_safe(spec_tree(s, choices)),
{
    if s.len() == 0 {
        let e0 = Seq::<TurtleInt>::empty();
        let e1 = e0.push(TurtleInt::Push);
        let e2 = e1.push(TurtleInt::Forward);
        let e3 = e2.push(TurtleInt::Pop);
        lemma_tree_counts_snoc(e0, TurtleInt::Push);
        lemma_tree_counts_snoc(e1, TurtleInt::Forward);
        lemma_tree_counts_snoc(e2, TurtleInt::Pop);
        assert(tree_seed() =~= e3);
        assert forall|i: int|
            0 <= i <= tree_seed().len() implies tree_pop_count(#[trigger] tree_seed().take(i))
            <= tree_push_count(tree_seed().take(i)) by {
            if i == 0 {
                assert(tree_seed().take(i) =~= e0);
            } else if i == 1 {
                assert(tree_seed().take(i) =~= e1);
            } else if i == 2 {
                assert(tree_seed().take(i) =~= e2);
            } else {
                assert(tree_seed().take(i) =~= e3);
            }
        }
    } else {
        lemma_tree_expand_safety(s, choices);
    }
}


/// Every prefix of a crazy-tree production dips at most one below its
/// entry height, and the production's net height is at least that of the
/// instruction it replaces.
proof fn lemma_crazy_block_prefix_bound(x: TurtleInt, coins: Seq<bool>, k: int, o: int)
    requires
        0 <= o <= crazy_block(x, coins, k).len(),
    ensures
        tree_pop_count(crazy_block(x, coins, k).take(o)) <= tree_push_count(
            crazy_block(x, coins, k).take(o),
        ) + if x is Pop {
            1int
        } else {
            0int
        },
        tree_push_count(crazy_block(x, coins, k)) - tree_pop_count(crazy_block(x, coins, k)) >= (
        if x is Push {
            1int
        } else if x is Pop {
            -1int
        } else {
            0int
        }),
{
    let b = crazy_block(x, coins, k);
    let e0 = Seq::<TurtleInt>::empty();
    if x is Pop {
        if coins[k] {
            let e1 = e0.push(TurtleInt::Push);
            let e2 = e1.push(TurtleInt::Forward);
            let e3 = e2.push(TurtleInt::Pop);
            lemma_tree_counts_snoc(e0, TurtleInt::Push);
            lemma_tree_counts_snoc(e1, TurtleInt::Forward);
            lemma_tree_counts_snoc(e2, TurtleInt::Pop);
            assert(b =~= e3);
            if o == 0 {
                assert(b.take(o) =~= e0);
            } else if o == 1 {
                assert(b.take(o) =~= e1);
            } else if o == 2 {
                assert(b.take(o) =~= e2);
            } else {
                assert(b.take(o) =~= e3);
            }
        } else {
            let e1 = e0.push(TurtleInt::Push);
            let e2 = e1.push(TurtleInt::Turn);
            let e3 = e2.push(TurtleInt::Forward);
            let e4 = e3.push(TurtleInt::Pop);
            let e5 = e4.push(TurtleInt::Forward);
            let e6 = e5.push(TurtleInt::Pop);
            lemma_tree_counts_snoc(e0, TurtleInt::Push);
            lemma_tree_counts_snoc(e1, TurtleInt::Turn);
            lemma_tree_counts_snoc(e2, TurtleInt::Forward);
            lemma_tree_counts_snoc(e3, TurtleInt::Pop);
            lemma_tree_counts_snoc(e4, TurtleInt::Forward);
            lemma_tree_counts_snoc(e5, TurtleInt::Pop);
            assert(b =~= e6);
            if o == 0 {
                assert(b.take(o) =~= e0);
            } else if o == 1 {
                assert(b.take(o) =~= e1);
            } else if o == 2 {
                assert(b.take(o) =~= e2);
            } else if o == 3 {
                assert(b.take(o) =~= e3);
            } else if o == 4 {
                assert(b.take(o) =~= e4);
            } else if o == 5 {
                assert(b.take(o) =~= e5);
            } else {
                assert(b.take(o) =~= e6);
            }
        }
    } else {
        let e1 = e0.push(x);
        lemma_tree_counts_snoc(e0, x);
        assert(b =~= e1);
        if o == 0 {
            assert(b.take(o) =~= e0);
        } else {
            assert(b.take(o) =~= e1);
        }
    }
}

/// One crazy-tree expansion of a pop-safe sequence is pop-safe again, and
/// its net height never shrinks.
proof fn lemma_crazy_expand_safety(s: Seq<TurtleInt>, coins: Seq<bool>)
    requires
        crate::instructions::tree_pop_safe(s),
    ensures
        crate::instructions::tree_pop_safe(crazy_expand(s, coins)),
        tree_push_count(crazy_expand(s, coins)) - tree_pop_count(crazy_expand(s, coins))
            >= tree_push_count(s) - tree_pop_count(s),
    decreases s.len(),
{
    let r = crazy_expand(s, coins);
    if s.len() == 0 {
        assert(r =~= s);
    } else {
        let d = s.drop_last();
        let x = s.last();
        let k = tree_pop_count(d) as int;
        let blk = crazy_block(x, coins, k);
        let e = crazy_expand(d, coins);
        assert forall|i: int|
            0 <= i <= d.len() implies tree_pop_count(#[trigger] d.take(i)) <= tree_push_count(
            d.take(i),
        ) by {
            assert(d.take(i) =~= s.take(i));
            assert(tree_pop_count(s.take(i)) <= tree_push_count(s.take(i)));
        }
        lemma_crazy_expand_safety(d, coins);
        lemma_take_full(s);
        lemma_take_full(d);
        assert(tree_pop_count(s) <= tree_push_count(s));
        assert(tree_pop_count(d) <= tree_push_count(d));
        lemma_crazy_block_prefix_bound(x, coins, k, blk.len() as int);
        assert(blk.take(blk.len() as int) =~= blk);
        lemma_tree_counts_concat(e, blk);
        assert forall|p: int|
            0 <= p <= r.len() implies tree_pop_count(#[trigger] r.take(p)) <= tree_push_count(
            r.take(p),
        ) by {
            if p <= e.len() {
                assert(r.take(p) =~= e.take(p));
                assert(tree_pop_count(e.take(p)) <= tree_push_count(e.take(p)));
            } else {
                let o = p - e.len();
                assert(r.take(p) =~= e + blk.take(o));
                lemma_tree_counts_concat(e, blk.take(o));
                lemma_crazy_block_prefix_bound(x, coins, k, o);
                assert(tree_pop_count(e) <= tree_push_count(e));
                if x is Pop {
                    assert(tree_pop_count(d) + 1 <= tree_push_count(d));
                    assert(tree_push_count(e) - tree_pop_count(e) >= 1);
                }
            }
        }
    }
}

/// The crazy-tree rule set never breaks the stack discipline: one
/// generation of a pop-safe sequence, or of the empty sequence it seeds,
/// is pop-safe again, whatever the coins.
pub proof fn lemma_crazy_keeps_pop_safe(s: Seq<TurtleInt>, coins: Seq<bool>)
    requires
        crate::instructions::tree_pop_safe(s),
    ensures
        crate::instructions::tree_pop_safe(spec_crazy_tree(s, coins)),
{
    if s.len() == 0 {
        let e0 = Seq::<TurtleInt>::empty();
        let e1 = e0.push(TurtleInt::Push);
        let e2 = e1.push(TurtleInt::Forward);
        let e3 = e2.push(TurtleInt::Pop);
        lemma_tree_counts_snoc(e0, TurtleInt::Push);
        lemma_tree_counts_snoc(e1, TurtleInt::Forward);
        lemma_tree_counts_snoc(e2, TurtleInt::Pop);
        assert(tree_seed() =~= e3);
        assert forall|i: int|
            0 <= i <= tree_seed().len() implies tree_pop_count(#[trigger] tree_seed().take(i))
            <= tree_push_count(tree_seed().take(i)) by {
            if i == 0 {
                assert(tree_seed().take(i) =~= e0);
            } else if i == 1 {
                assert(tree_seed().take(i) =~= e1);
            } else if i == 2 {
                assert(tree_seed().take(i) =~= e2);
            } else {
                assert(tree_seed().take(i) =~= e3);
            }
        }
    } else {
        lemma_crazy_expand_safety(s, coins);
    }
}

/// Every prefix of a Koch production dips at most one below its entry
/// height (a passed-through `Pop` dips exactly as before; the zigzag holds
/// no bracket at all), and the production's net height is that of the
/// instruction it replaces.
proof fn lemma_koch_block_prefix_bound(x: KochInstr, o: int)
    requires
        0 <= o <= koch_block(x).len(),
    ensures
        koch_pop_count(koch_block(x).take(o)) <= koch_push_count(koch_block(x).take(o)) + if x
            is Pop {
            1int
        } else {
            0int
        },
        koch_push_count(koch_block(x)) - koch_pop_count(koch_block(x)) == (if x is Push {
            1int
        } else if x is Pop {
            -1int
        } else {
            0int
        }),
{
    let b = koch_block(x);
    let e0 = Seq::<KochInstr>::empty();
    match x {
        KochInstr::Forward(l) => {
            let e1 = e0.push(KochInstr::Forward(third(l)));
            let e2 = e1.push(KochInstr::Turn(-60i32));
            let e3 = e2.push(KochInstr::Forward(third(l)));
            let e4 = e3.push(KochInstr::Turn(120i32));
            let e5 = e4.push(KochInstr::Forward(third(l)));
            let e6 = e5.push(KochInstr::Turn(-60i32));
            let e7 = e6.push(KochInstr::Forward(third(l)));
            lemma_koch_counts_snoc(e0, KochInstr::Forward(third(l)));
            lemma_koch_counts_snoc(e1, KochInstr::Turn(-60i32));
            lemma_koch_counts_snoc(e2, KochInstr::Forward(third(l)));
            lemma_koch_counts_snoc(e3, KochInstr::Turn(120i32));
            lemma_koch_counts_snoc(e4, KochInstr::Forward(third(l)));
            lemma_koch_counts_snoc(e5, KochInstr::Turn(-60i32));
            lemma_koch_counts_snoc(e6, KochInstr::Forward(third(l)));
            assert(b =~= e7);
            if o == 0 {
                assert(b.take(o) =~= e0);
            } else if o == 1 {
                assert(b.take(o) =~= e1);
            } else if o == 2 {
                assert(b.take(o) =~= e2);
            } else if o == 3 {
                assert(b.take(o) =~= e3);
            } else if o == 4 {
                assert(b.take(o) =~= e4);
            } else if o == 5 {
                assert(b.take(o) =~= e5);
            } else if o == 6 {
                assert(b.take(o) =~= e6);
            } else {
                assert(b.take(o) =~= e7);
            }
        },
        _ => {
            let e1 = e0.push(x);
            lemma_koch_counts_snoc(e0, x);
            assert(b =~= e1);
            if o == 0 {
                assert(b.take(o) =~= e0);
            } else {
                assert(b.take(o) =~= e1);
            }
        },
    }
}

/// One Koch expansion of a pop-safe sequence is pop-safe again, and its
/// net height is unchanged.
proof fn lemma_koch_expand_safety(s: Seq<KochInstr>)
    requires
        crate::instructions::koch_pop_safe(s),
    ensures
        crate::instructions::koch_pop_safe(koch_expand(s)),
        koch_push_count(koch_expand(s)) - koch_pop_count(koch_expand(s)) == koch_push_count(s)
            - koch_pop_count(s),
    decreases s.len(),
{
    let r = koch_expand(s);
    if s.len() == 0 {
        assert(r =~= s);
    } else {
        let d = s.drop_last();
        let x = s.last();
        let blk = koch_block(x);
        let e = koch_expand(d);
        assert forall|i: int|
            0 <= i <= d.len() implies koch_pop_count(#[trigger] d.take(i)) <= koch_push_count(
            d.take(i),
        ) by {
            assert(d.take(i) =~= s.take(i));
            assert(koch_pop_count(s.take(i)) <= koch_push_count(s.take(i)));
        }
        lemma_koch_expand_safety(d);
        lemma_take_full(s);
        lemma_take_full(d);
        assert(koch_pop_count(s) <= koch_push_count(s));
        assert(koch_pop_count(d) <= koch_push_count(d));
        lemma_koch_block_prefix_bound(x, blk.len() as int);
        assert(blk.take(blk.len() as int) =~= blk);
        lemma_koch_counts_concat(e, blk);
        assert forall|p: int|
            0 <= p <= r.len() implies koch_pop_count(#[trigger] r.take(p)) <= koch_push_count(
            r.take(p),
        ) by {
            if p <= e.len() {
                assert(r.take(p) =~= e.take(p));
                assert(koch_pop_count(e.take(p)) <= koch_push_count(e.take(p)));
            } else {
                let o = p - e.len();
                assert(r.take(p) =~= e + blk.take(o));
                lemma_koch_counts_concat(e, blk.take(o));
                lemma_koch_block_prefix_bound(x, o);
                assert(koch_pop_count(e) <= koch_push_count(e));
                if x is Pop {
                    assert(koch_pop_count(d) + 1 <= koch_push_count(d));
                    assert(koch_push_count(e) - koch_pop_count(e) >= 1);
                }
            }
        }
    }
}

/// The Koch rule set never breaks the stack discipline: one generation of
/// a pop-safe sequence, or of the empty sequence it seeds, is pop-safe
/// again.
pub proof fn lemma_koch_keeps_pop_safe(s: Seq<KochInstr>)
    requires
        crate::instructions::koch_pop_safe(s),
    ensures
        crate::instructions::koch_pop_safe(spec_koch_snowflake(s)),
{
    if s.len() == 0 {
        let f = KochInstr::Forward(Length { units: KOCH_SEED_UNITS, thirds: 0 });
        let t = KochInstr::Turn(KOCH_SEED_TURN);
        let e0 = Seq::<KochInstr>::empty();
        let e1 = e0.push(f);
        let e2 = e1.push(t);
        let e3 = e2.push(f);
        let e4 = e3.push(t);
        let e5 = e4.push(f);
        lemma_koch_counts_snoc(e0, f);
        lemma_koch_counts_snoc(e1, t);
        lemma_koch_counts_snoc(e2, f);
        lemma_koch_counts_snoc(e3, t);
        lemma_koch_counts_snoc(e4, f);
        assert(koch_seed() =~= e5);
        assert forall|i: int|
            0 <= i <= koch_seed().len() implies koch_pop_count(#[trigger] koch_seed().take(i))
            <= koch_push_count(koch_seed().take(i)) by {
            if i == 0 {
                assert(koch_seed().take(i) =~= e0);
            } else if i == 1 {
                assert(koch_seed().take(i) =~= e1);
            } else if i == 2 {
                assert(koch_seed().take(i) =~= e2);
            } else if i == 3 {
                assert(koch_seed().take(i) =~= e3);
            } else if i == 4 {
                assert(koch_seed().take(i) =~= e4);
            } else {
                assert(koch_seed().take(i) =~= e5);
            }
        }
    } else {
        lemma_koch_expand_safety(s);
    }
}

} // verus!
