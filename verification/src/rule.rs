//! The rule matrix: one directed rule per ordered pair of groups, with a
//! uniformly drawn coefficient and an effect tag, and the pruning step that
//! drops every rule whose endpoints are no longer both populated.
//!
//! Rules are regenerated in full at reseed time (one per ordered pair,
//! self-pairs never spawn) and pruned at the start of every tick. A pruned
//! rule is gone for the rest of the epoch, even if its groups repopulate.

use vstd::prelude::*;

use crate::particle::SCALE;
use crate::rng::draw_below;
use crate::rng::draw_coin;

verus! {

/// Most groups a world may be configured with; keeps the rule count
/// `n * n` small enough that one tick's accumulated force stays in range.
pub const MAX_GROUPS: usize = 1000;

/// What a rule does, beyond exerting force, when particles of its two
/// groups overlap.
#[derive(Clone, Copy, Debug, PartialEq, Eq, Structural)]
pub enum Effect {
    /// Pure force rule.
    Nothing,
    /// Every overlapping pair makes the first group's particle spawn its
    /// `birth_rate` children.
    SpawnChildren,
}

/// A directed interaction: how group one perceives group two.
#[derive(Clone, Copy, Debug)]
pub struct Rule {
    pub particle_group_one: usize,
    pub particle_group_two: usize,
    /// Force coefficient in thousandths, drawn uniformly from `[0, SCALE)`.
    pub g: u32,
    pub effect: Effect,
}

impl Rule {
    /// The rule's endpoints name configured groups and its coefficient is
    /// in range.
    pub open spec fn wf(self, n_groups: int) -> bool {
        &&& self.particle_group_one < n_groups
        &&& self.particle_group_two < n_groups
        &&& self.g < SCALE
    }

    /// A fresh rule for the ordered pair, with a uniformly drawn
    /// coefficient. Where an effect is allowed, a fair coin decides between
    /// spawning and nothing, once, at generation time; a self-pair never
    /// allows one.
    pub fn new(
        particle_group_one: usize,
        particle_group_two: usize,
        effect_allowed: bool,
        rng: &mut randomize::PCG32,
    ) -> (r: Rule)
        ensures
            r.particle_group_one == particle_group_one,
            r.particle_group_two == particle_group_two,
            r.g < SCALE,
            !effect_allowed ==> r.effect == Effect::Nothing,
    {
        let g = draw_below(rng, SCALE as u32);
        let effect = if effect_allowed && draw_coin(rng) {
            Effect::SpawnChildren
        } else {
            Effect::Nothing
        };
        Rule { particle_group_one, particle_group_two, g, effect }
    }
}

/// Both endpoints of the rule currently have at least one live member.
pub open spec fn live_pair(present: Seq<bool>, r: Rule) -> bool
    recommends
        r.particle_group_one < present.len(),
        r.particle_group_two < present.len(),
{
    present[r.particle_group_one as int] && present[r.particle_group_two as int]
}

/// The rules that survive pruning against a set of populated groups, in
/// their original order.
pub open spec fn prune_spec(rules: Seq<Rule>, present: Seq<bool>) -> Seq<Rule> {
    rules.filter(|r: Rule| live_pair(present, r))
}

/// Pruning is idempotent: pruning an already-pruned rule list against the
/// same set of populated groups returns it unchanged.
pub proof fn lemma_prune_idempotent(rules: Seq<Rule>, present: Seq<bool>)
    ensures
        prune_spec(prune_spec(rules, present), present) == prune_spec(rules, present),
    decreases rules.len(),
{
    broadcast use vstd::prelude::Seq::lemma_filter_push;

    reveal(Seq::filter);
    if rules.len() == 0 {
        assert(prune_spec(rules, present) == rules);
    } else {
        let s = rules.drop_last();
        let x = rules.last();
        lemma_prune_idempotent(s, present);
        assert(s.push(x) =~= rules);
        if live_pair(present, x) {
            assert(prune_spec(s.push(x), present) == prune_spec(s, present).push(x));
            assert(prune_spec(prune_spec(s, present).push(x), present) == prune_spec(
                prune_spec(s, present),
                present,
            ).push(x));
        } else {
            assert(prune_spec(s.push(x), present) == prune_spec(s, present));
        }
    }
}


/// Pruning keeps a (not necessarily contiguous) part of the rule list:
/// every surviving rule is one of the rules given.
pub proof fn lemma_prune_membership(rules: Seq<Rule>, present: Seq<bool>)
    ensures
        prune_spec(rules, present).len() <= rules.len(),
        forall|i: int|
            0 <= i < prune_spec(rules, present).len() ==> rules.contains(
                #[trigger] prune_spec(rules, present)[i],
            ),
{
    broadcast use vstd::prelude::Seq::lemma_filter_len;
    broadcast use vstd::prelude::Seq::lemma_index_contains;
    broadcast use vstd::prelude::Seq::lemma_filter_contains_rev;

    let kept = prune_spec(rules, present);
    assert forall|i: int| 0 <= i < kept.len() implies rules.contains(#[trigger] kept[i]) by {
        assert(kept.contains(kept[i]));
    }
}

/// Keeps exactly the rules whose two endpoint groups both still have live
/// members, in generation order.
pub fn prune_rules(rules: &Vec<Rule>, present: &Vec<bool>) -> (kept: Vec<Rule>)
    requires
        forall|i: int|
            0 <= i < rules@.len() ==> #[trigger] rules@[i].particle_group_one < present@.len()
                && rules@[i].particle_group_two < present@.len(),
    ensures
        kept@ == prune_spec(rules@, present@),
{
    let mut kept: Vec<Rule> = Vec::new();
    let mut i: usize = 0;
    proof {
        reveal(Seq::filter);
        assert(prune_spec(rules@.take(0), present@) == rules@.take(0));
        assert(rules@.take(0) =~= Seq::<Rule>::empty());
    }
    while i < rules.len()
        invariant
            0 <= i <= rules@.len(),
            forall|k: int|
                0 <= k < rules@.len() ==> #[trigger] rules@[k].particle_group_one < present@.len()
                    && rules@[k].particle_group_two < present@.len(),
            kept@ == prune_spec(rules@.take(i as int), present@),
        decreases rules@.len() - i,
    {
        let r = rules[i];
        proof {
            broadcast use vstd::prelude::Seq::lemma_filter_push;

            assert(rules@.take(i as int + 1) =~= rules@.take(i as int).push(rules@[i as int]));
        }
        if present[r.particle_group_one] && present[r.particle_group_two] {
            kept.push(r);
        }
        i = i + 1;
    }
    proof {
        assert(rules@.take(rules@.len() as int) =~= rules@);
    }
    kept
}

/// The rule stored at row-major index `i` of a fresh `n`-group matrix:
/// its endpoints are the row and column of `i`, its coefficient is in
/// range, and a self-pair carries no effect.
pub open spec fn row_major_rule(r: Rule, i: int, n: int) -> bool {
    &&& r.particle_group_one == i / n
    &&& r.particle_group_two == i % n
    &&& r.g < SCALE
    &&& i / n == i % n ==> r.effect == Effect::Nothing
}

/// One rule for every ordered pair of the `n_groups` configured groups, in
/// row-major order; self-pairs never allow an effect.
pub fn generate_rules(n_groups: usize, rng: &mut randomize::PCG32) -> (rules: Vec<Rule>)
    requires
        n_groups <= MAX_GROUPS,
    ensures
        rules@.len() == n_groups * n_groups,
        forall|i: int|
            0 <= i < rules@.len() ==> row_major_rule(#[trigger] rules@[i], i, n_groups as int),
{
    let mut rules: Vec<Rule> = Vec::new();
    let mut a: usize = 0;
    proof {
        assert(n_groups * n_groups <= MAX_GROUPS * MAX_GROUPS) by (nonlinear_arith)
            requires
                n_groups <= MAX_GROUPS,
        ;
    }
    while a < n_groups
        invariant
            0 <= a <= n_groups,
            n_groups <= MAX_GROUPS,
            rules@.len() == a * n_groups,
            forall|i: int|
                0 <= i < rules@.len() ==> row_major_rule(#[trigger] rules@[i], i, n_groups as int),
        decreases n_groups - a,
    {
        let mut b: usize = 0;
        while b < n_groups
            invariant
                0 <= a < n_groups,
                0 <= b <= n_groups,
                n_groups <= MAX_GROUPS,
                rules@.len() == a * n_groups + b,
                forall|i: int|
                    0 <= i < rules@.len() ==> row_major_rule(
                        #[trigger] rules@[i],
                        i,
                        n_groups as int,
                    ),
            decreases n_groups - b,
        {
            proof {
                assert(a * n_groups + n_groups <= MAX_GROUPS * MAX_GROUPS) by (nonlinear_arith)
                    requires
                        a < n_groups <= MAX_GROUPS,
                ;
            }
            let r = Rule::new(a, b, a != b, rng);
            proof {
                vstd::arithmetic::div_mod::lemma_fundamental_div_mod_converse(
                    (a * n_groups + b) as int,
                    n_groups as int,
                    a as int,
                    b as int,
                );
                assert(row_major_rule(r, (a * n_groups + b) as int, n_groups as int));
            }
            rules.push(r);
            b = b + 1;
        }
        proof {
            assert((a + 1) * n_groups == a * n_groups + n_groups) by (nonlinear_arith);
        }
        a = a + 1;
    }
    rules
}

} // verus!
