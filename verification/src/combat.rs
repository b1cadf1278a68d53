//! The combat resolver: the `canAttack` legality check and the `attack`
//! state transition, with the dice battle that decides it.

use vstd::prelude::*;
use crate::model::Territory;
use crate::model::copy_ids;
use crate::model::ids_unique;
use crate::gameboard::Gameboard;
use crate::graph::contains_id;
use crate::rng::random_in_range;

verus! {

/// Some territory on the board has id `id`.
pub open spec fn has_id(s: Seq<Territory>, id: u32) -> bool {
    exists|i: int| 0 <= i < s.len() && s[i].id == id
}

/// The position of the territory with id `id` (unambiguous on a board
/// whose ids are unique).
pub open spec fn idx_of_id(s: Seq<Territory>, id: u32) -> int {
    choose|i: int| 0 <= i < s.len() && s[i].id == id
}

/// The legality of an attack: both territories exist, the defender is
/// listed among the attacker's neighbors, the two have different owners,
/// and the attacker has more than one die to spare.
pub open spec fn can_attack_spec(s: Seq<Territory>, attacker_id: u32, defender_id: u32) -> bool {
    &&& has_id(s, attacker_id)
    &&& has_id(s, defender_id)
    &&& s[idx_of_id(s, attacker_id)].neighbors@.contains(defender_id)
    &&& s[idx_of_id(s, attacker_id)].owner_id != s[idx_of_id(s, defender_id)].owner_id
    &&& s[idx_of_id(s, attacker_id)].num_dice > 1
}

/// The sum of a sequence of die rolls.
pub open spec fn roll_sum(rolls: Seq<u32>) -> int
    decreases rolls.len(),
{
    if rolls.len() == 0 {
        0
    } else {
        roll_sum(rolls.drop_last()) + rolls.last() as int
    }
}

/// Rolls of a six-sided die sum to at most six per die.
pub proof fn lemma_roll_sum_bound(rolls: Seq<u32>)
    requires
        forall|k: int| 0 <= k < rolls.len() ==> (#[trigger] rolls[k]) <= 6,
    ensures
        0 <= roll_sum(rolls) <= 6 * rolls.len(),
    decreases rolls.len(),
{
    if rolls.len() > 0 {
        lemma_roll_sum_bound(rolls.drop_last());
    }
}

/// Every die shows at least one pip, so the rolls sum to at least one
/// per die.
pub proof fn lemma_roll_sum_at_least_len(rolls: Seq<u32>)
    requires
        forall|k: int| 0 <= k < rolls.len() ==> (#[trigger] rolls[k]) >= 1,
    ensures
        roll_sum(rolls) >= rolls.len(),
    decreases rolls.len(),
{
    if rolls.len() > 0 {
        lemma_roll_sum_at_least_len(rolls.drop_last());
    }
}

/// Why an attack is refused, or that it is allowed; the checks are made
/// in this order and the first failure wins.
#[derive(Clone, Copy, Debug, PartialEq, Eq, Structural)]
pub enum AttackCheck {
    Allowed,
    AttackerNotFound,
    DefenderNotFound,
    NotNeighbors,
    SameOwner,
    InsufficientDice,
}

/// The position of the territory with id `id`, or `None` when no
/// territory has it.
pub fn find_territory(territories: &Vec<Territory>, id: u32) -> (r: Option<usize>)
    requires
        ids_unique(territories@),
    ensures
        match r {
            Some(i) => i < territories@.len() && territories@[i as int].id == id && has_id(
                territories@,
                id,
            ) && idx_of_id(territories@, id) == i as int,
            None => !has_id(territories@, id),
        },
{
    let ghost s = territories@;
    let n = territories.len();
    let mut i: usize = 0;
    while i < n
        invariant
            i <= n,
            n == s.len(),
            s == territories@,
            ids_unique(s),
            forall|j: int| 0 <= j < i ==> (#[trigger] s[j].id) != id,
        decreases n - i,
    {
        if territories[i].id == id {
            proof {
                let c = idx_of_id(s, id);
                assert(s[i as int].id == id);
                assert(0 <= c < s.len() && s[c].id == id);
            }
            return Some(i);
        }
        i += 1;
    }
    proof {
        if has_id(s, id) {
            let w = choose|w: int| 0 <= w < s.len() && s[w].id == id;
            assert(s[w].id != id);
        }
    }
    None
}

impl Gameboard {
    /// Check an attack's legality and name the first reason it fails, in
    /// the order: attacker exists, defender exists, they are neighbors,
    /// their owners differ, the attacker has more than one die.
    pub fn check_attack(&self, attacker_id: u32, defender_id: u32) -> (r: AttackCheck)
        requires
            ids_unique(self.territories@),
        ensures
            (r == AttackCheck::Allowed) == can_attack_spec(
                self.territories@,
                attacker_id,
                defender_id,
            ),
            (r == AttackCheck::AttackerNotFound) == !has_id(self.territories@, attacker_id),
            (r == AttackCheck::DefenderNotFound) == (has_id(self.territories@, attacker_id)
                && !has_id(self.territories@, defender_id)),
            (r == AttackCheck::NotNeighbors) == (has_id(self.territories@, attacker_id) && has_id(
                self.territories@,
                defender_id,
            ) && !self.territories@[idx_of_id(self.territories@, attacker_id)].neighbors@.contains(
                defender_id,
            )),
            (r == AttackCheck::SameOwner) == (has_id(self.territories@, attacker_id) && has_id(
                self.territories@,
                defender_id,
            ) && self.territories@[idx_of_id(self.territories@, attacker_id)].neighbors@.contains(
                defender_id,
            ) && self.territories@[idx_of_id(self.territories@, attacker_id)].owner_id
                == self.territories@[idx_of_id(self.territories@, defender_id)].owner_id),
            (r == AttackCheck::InsufficientDice) == (has_id(self.territories@, attacker_id)
                && has_id(self.territories@, defender_id) && self.territories@[idx_of_id(
                self.territories@,
                attacker_id,
            )].neighbors@.contains(defender_id) && self.territories@[idx_of_id(
                self.territories@,
                attacker_id,
            )].owner_id != self.territories@[idx_of_id(self.territories@, defender_id)].owner_id
                && self.territories@[idx_of_id(self.territories@, attacker_id)].num_dice <= 1),
    {
        let attacker_pos = find_territory(&self.territories, attacker_id);
        match attacker_pos {
            None => AttackCheck::AttackerNotFound,
            Some(ai) => {
                let defender_pos = find_territory(&self.territories, defender_id);
                match defender_pos {
                    None => AttackCheck::DefenderNotFound,
                    Some(di) => {
                        if !contains_id(&self.territories[ai].neighbors, defender_id) {
                            AttackCheck::NotNeighbors
                        } else if self.territories[ai].owner_id == self.territories[di].owner_id {
                            AttackCheck::SameOwner
                        } else if self.territories[ai].num_dice <= 1 {
                            AttackCheck::InsufficientDice
                        } else {
                            AttackCheck::Allowed
                        }
                    },
                }
            },
        }
    }

    /// The boolean legality check: true exactly when an attack from
    /// `attacker_id` on `defender_id` is allowed.
    pub fn can_attack(&self, attacker_id: u32, defender_id: u32) -> (r: bool)
        requires
            ids_unique(self.territories@),
        ensures
            r == can_attack_spec(self.territories@, attacker_id, defender_id),
    {
        let check = self.check_attack(attacker_id, defender_id);
        match check {
            AttackCheck::Allowed => true,
            _ => false,
        }
    }
}

/// The total shown by a handful of six-sided dice.
pub fn sum_rolls(rolls: &Vec<u32>) -> (r: u64)
    requires
        rolls@.len() <= u32::MAX,
        forall|k: int| 0 <= k < rolls@.len() ==> (#[trigger] rolls@[k]) <= 6,
    ensures
        r as int == roll_sum(rolls@),
{
    let mut acc: u64 = 0;
    let mut k: usize = 0;
    while k < rolls.len()
        invariant
            k <= rolls@.len(),
            rolls@.len() <= u32::MAX,
            forall|k2: int| 0 <= k2 < rolls@.len() ==> (#[trigger] rolls@[k2]) <= 6,
            acc as int == roll_sum(rolls@.subrange(0, k as int)),
            acc <= 6 * (k as u64),
        decreases rolls@.len() - k,
    {
        proof {
            assert(rolls@.subrange(0, (k + 1) as int).drop_last() =~= rolls@.subrange(0, k as int));
            assert(rolls@.subrange(0, (k + 1) as int).last() == rolls@[k as int]);
        }
        acc = acc + rolls[k] as u64;
        k += 1;
    }
    proof {
        assert(rolls@.subrange(0, rolls@.len() as int) =~= rolls@);
    }
    acc
}

/// Resolve a battle from the two roll sequences alone: the attacker wins
/// exactly when the attacker's total strictly exceeds the defender's, so
/// a tie favors the defender. Fixing the rolls fixes the outcome.
pub fn battle_with_rolls(attacker_rolls: &Vec<u32>, defender_rolls: &Vec<u32>) -> (r: bool)
    requires
        attacker_rolls@.len() <= u32::MAX,
        defender_rolls@.len() <= u32::MAX,
        forall|k: int| 0 <= k < attacker_rolls@.len() ==> 1 <= (#[trigger] attacker_rolls@[k]) <= 6,
        forall|k: int| 0 <= k < defender_rolls@.len() ==> 1 <= (#[trigger] defender_rolls@[k]) <= 6,
    ensures
        r == (roll_sum(attacker_rolls@) > roll_sum(defender_rolls@)),
{
    let attacker_sum = sum_rolls(attacker_rolls);
    let defender_sum = sum_rolls(defender_rolls);
    attacker_sum > defender_sum
}

/// Roll `count` six-sided dice.
fn roll_dice(count: u32) -> (r: Vec<u32>)
    ensures
        r@.len() == count,
        forall|k: int| 0 <= k < r@.len() ==> 1 <= (#[trigger] r@[k]) <= 6,
{
    let mut rolls: Vec<u32> = Vec::new();
    let mut k: u32 = 0;
    while k < count
        invariant
            k <= count,
            rolls@.len() == k as int,
            forall|k2: int| 0 <= k2 < rolls@.len() ==> 1 <= (#[trigger] rolls@[k2]) <= 6,
        decreases count - k,
    {
        rolls.push(random_in_range(1, 6));
        k = k + 1;
    }
    rolls
}

/// Fight one randomized battle between an attacker holding
/// `attacker_dice` dice and a defender holding `defender_dice`: each side
/// rolls one die fewer than it holds — one die per side stands garrison
/// and never rolls — and the attacker wins on a strictly greater total.
/// The outcome is random; `battle_with_rolls` pins it once the rolls are
/// fixed.
pub fn battle(attacker_dice: u32, defender_dice: u32) -> (r: bool)
    requires
        attacker_dice >= 1,
        defender_dice >= 1,
    ensures
        attacker_dice == 1 ==> r == false,
        attacker_dice > 1 && defender_dice == 1 ==> r == true,
{
    let attacker_rolls = roll_dice(attacker_dice - 1);
    let defender_rolls = roll_dice(defender_dice - 1);
    proof {
        lemma_roll_sum_bound(attacker_rolls@);
        lemma_roll_sum_bound(defender_rolls@);
        lemma_roll_sum_at_least_len(attacker_rolls@);
        lemma_roll_sum_at_least_len(defender_rolls@);
    }
    battle_with_rolls(&attacker_rolls, &defender_rolls)
}

impl Gameboard {
    /// Resolve an attack whose battle rolls are handed in: the legality
    /// condition must already hold. On an attacker win the defender
    /// changes hands and receives the attacker's spare dice; either way
    /// the attacker keeps a single die. Nothing else on the board moves.
    pub fn attack_with_rolls(
        &mut self,
        attacker_id: u32,
        defender_id: u32,
        attacker_rolls: &Vec<u32>,
        defender_rolls: &Vec<u32>,
    ) -> (won: bool)
        requires
            ids_unique(old(self).territories@),
            can_attack_spec(old(self).territories@, attacker_id, defender_id),
            old(self).territories@[idx_of_id(old(self).territories@, defender_id)].num_dice >= 1,
            attacker_rolls@.len() == old(self).territories@[idx_of_id(
                old(self).territories@,
                attacker_id,
            )].num_dice - 1,
            defender_rolls@.len() == old(self).territories@[idx_of_id(
                old(self).territories@,
                defender_id,
            )].num_dice - 1,
            forall|k: int|
                0 <= k < attacker_rolls@.len() ==> 1 <= (#[trigger] attacker_rolls@[k]) <= 6,
            forall|k: int|
                0 <= k < defender_rolls@.len() ==> 1 <= (#[trigger] defender_rolls@[k]) <= 6,
        ensures
            won == (roll_sum(attacker_rolls@) > roll_sum(defender_rolls@)),
            attack_outcome(
                old(self).territories@,
                final(self).territories@,
                attacker_id,
                defender_id,
                won,
            ),
    {
        let ghost s0 = self.territories@;
        let ghost ai_g = idx_of_id(s0, attacker_id);
        let ghost di_g = idx_of_id(s0, defender_id);
        let attacker_pos = find_territory(&self.territories, attacker_id);
        let ai = attacker_pos.unwrap();
        let defender_pos = find_territory(&self.territories, defender_id);
        let di = defender_pos.unwrap();
        let won = battle_with_rolls(attacker_rolls, defender_rolls);
        let spare = self.territories[ai].num_dice - 1;
        if won {
            let defender_new = Territory {
                id: self.territories[di].id,
                num_dice: spare,
                owner_id: self.territories[ai].owner_id,
                neighbors: copy_ids(&self.territories[di].neighbors),
            };
            self.territories.set(di, defender_new);
        }
        let attacker_new = Territory {
            id: self.territories[ai].id,
            num_dice: 1,
            owner_id: self.territories[ai].owner_id,
            neighbors: copy_ids(&self.territories[ai].neighbors),
        };
        self.territories.set(ai, attacker_new);
        won
    }

    /// Resolve one randomized attack: roll the battle and apply the
    /// outcome, as `attack_with_rolls` does for given rolls. The returned
    /// flag says whether the attacker won; whichever way the battle went,
    /// the board changes exactly as `attack_outcome` states for it.
    pub fn attack(&mut self, attacker_id: u32, defender_id: u32) -> (won: bool)
        requires
            ids_unique(old(self).territories@),
            can_attack_spec(old(self).territories@, attacker_id, defender_id),
            old(self).territories@[idx_of_id(old(self).territories@, defender_id)].num_dice >= 1,
        ensures
            attack_outcome(
                old(self).territories@,
                final(self).territories@,
                attacker_id,
                defender_id,
                won,
            ),
            old(self).territories@[idx_of_id(old(self).territories@, defender_id)].num_dice == 1
                ==> won == true,
    {
        let attacker_pos = find_territory(&self.territories, attacker_id);
        let ai = attacker_pos.unwrap();
        let defender_pos = find_territory(&self.territories, defender_id);
        let di = defender_pos.unwrap();
        let attacker_rolls = roll_dice(self.territories[ai].num_dice - 1);
        let defender_rolls = roll_dice(self.territories[di].num_dice - 1);
        proof {
            lemma_roll_sum_bound(defender_rolls@);
            lemma_roll_sum_at_least_len(attacker_rolls@);
        }
        self.attack_with_rolls(attacker_id, defender_id, &attacker_rolls, &defender_rolls)
    }
}

/// What one attack does to the board. With `ai`/`di` the attacker's and
/// defender's positions before the attack: on a win the defender keeps
/// its id and neighbors but takes the attacker's owner and the attacker's
/// spare dice (one fewer than the attacker held); on a loss the defender
/// is untouched. The attacker always ends with a single die, and every
/// other territory — ids, owners, dice and the whole graph topology — is
/// exactly as it was.
pub open spec fn attack_outcome(
    s0: Seq<Territory>,
    s1: Seq<Territory>,
    attacker_id: u32,
    defender_id: u32,
    won: bool,
) -> bool {
    let ai = idx_of_id(s0, attacker_id);
    let di = idx_of_id(s0, defender_id);
    &&& s1.len() == s0.len()
    &&& forall|k: int| 0 <= k < s0.len() && k != ai && k != di ==> s1[k] == s0[k]
    &&& s1[ai].id == s0[ai].id
    &&& s1[ai].owner_id == s0[ai].owner_id
    &&& s1[ai].neighbors@ == s0[ai].neighbors@
    &&& s1[ai].num_dice == 1
    &&& if won {
        &&& s1[di].id == s0[di].id
        &&& s1[di].neighbors@ == s0[di].neighbors@
        &&& s1[di].owner_id == s0[ai].owner_id
        &&& s1[di].num_dice == s0[ai].num_dice - 1
    } else {
        s1[di] == s0[di]
    }
}

/// Legality: an attack is never allowed when attacker and defender share
/// an owner, when they are not neighbors, or when the attacker holds no
/// more than one die — whatever else holds of the board.
pub proof fn lemma_can_attack_legality(s: Seq<Territory>, attacker_id: u32, defender_id: u32)
    ensures
        s[idx_of_id(s, attacker_id)].owner_id == s[idx_of_id(s, defender_id)].owner_id
            ==> !can_attack_spec(s, attacker_id, defender_id),
        !s[idx_of_id(s, attacker_id)].neighbors@.contains(defender_id) ==> !can_attack_spec(
            s,
            attacker_id,
            defender_id,
        ),
        s[idx_of_id(s, attacker_id)].num_dice <= 1 ==> !can_attack_spec(
            s,
            attacker_id,
            defender_id,
        ),
{
}

/// Battle determinism: the battle's outcome is a function of the rolls
/// alone, so two resolutions of the same roll sequences agree.
pub proof fn lemma_battle_deterministic(
    attacker_rolls: Seq<u32>,
    defender_rolls: Seq<u32>,
    first: bool,
    second: bool,
)
    requires
        first == (roll_sum(attacker_rolls) > roll_sum(defender_rolls)),
        second == (roll_sum(attacker_rolls) > roll_sum(defender_rolls)),
    ensures
        first == second,
{
}

/// An attack never disturbs the structural board invariants: the graph
/// topology is untouched, so symmetry and connectivity stand exactly as
/// before; ids stay unique; and every territory still holds at least one
/// die.
pub proof fn lemma_attack_preserves_invariants(
    s0: Seq<Territory>,
    s1: Seq<Territory>,
    attacker_id: u32,
    defender_id: u32,
    won: bool,
)
    requires
        ids_unique(s0),
        can_attack_spec(s0, attacker_id, defender_id),
        forall|i: int| 0 <= i < s0.len() ==> (#[trigger] s0[i]).num_dice >= 1,
        attack_outcome(s0, s1, attacker_id, defender_id, won),
    ensures
        s1.len() == s0.len(),
        forall|k: int|
            0 <= k < s1.len() ==> {
                &&& (#[trigger] s1[k]).id == s0[k].id
                &&& s1[k].neighbors@ == s0[k].neighbors@
            },
        ids_unique(s1),
        forall|i: int| 0 <= i < s1.len() ==> (#[trigger] s1[i]).num_dice >= 1,
        crate::graph::symmetric_spec(s1) == crate::graph::symmetric_spec(s0),
        crate::graph::connected_spec(s1) == crate::graph::connected_spec(s0),
{
    let ai = idx_of_id(s0, attacker_id);
    let di = idx_of_id(s0, defender_id);
    assert(0 <= ai < s0.len() && s0[ai].id == attacker_id);
    assert(0 <= di < s0.len() && s0[di].id == defender_id);
    assert forall|k: int|
        0 <= k < s1.len() implies {
        &&& (#[trigger] s1[k]).id == s0[k].id
        &&& s1[k].neighbors@ == s0[k].neighbors@
    } by {
        if k != ai && k != di {
            assert(s1[k] == s0[k]);
        }
    }
    crate::graph::lemma_same_topology_same_graph(s0, s1);
}

} // verus!
