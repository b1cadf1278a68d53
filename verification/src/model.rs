//! The territory data model and the counting functions that the board
//! invariants are stated with.

use vstd::prelude::*;

verus! {

/// A region of the board: owned by one player, holding at least one die,
/// adjacent to the territories whose ids are listed in `neighbors`.
#[derive(Clone, Debug)]
pub struct Territory {
    pub id: u32,
    pub num_dice: u32,
    pub owner_id: u32,
    pub neighbors: Vec<u32>,
}

/// No two territories on the board share an id.
pub open spec fn ids_unique(s: Seq<Territory>) -> bool {
    forall|i: int, j: int|
        0 <= i < s.len() && 0 <= j < s.len() && i != j ==> s[i].id != s[j].id
}

/// How many territories player `p` owns.
pub open spec fn count_owned(s: Seq<Territory>, p: u32) -> int
    decreases s.len(),
{
    if s.len() == 0 {
        0
    } else {
        count_owned(s.drop_last(), p) + if s.last().owner_id == p {
            1int
        } else {
            0int
        }
    }
}

/// The total number of dice on the territories player `p` owns.
pub open spec fn dice_total(s: Seq<Territory>, p: u32) -> int
    decreases s.len(),
{
    if s.len() == 0 {
        0
    } else {
        dice_total(s.drop_last(), p) + if s.last().owner_id == p {
            s.last().num_dice as int
        } else {
            0int
        }
    }
}

/// Replacing one territory adjusts player `p`'s territory count by the
/// difference of the two territories' contributions.
pub proof fn lemma_count_owned_update(s: Seq<Territory>, j: int, t: Territory, p: u32)
    requires
        0 <= j < s.len(),
    ensures
        count_owned(s.update(j, t), p) == count_owned(s, p) - (if s[j].owner_id == p {
            1int
        } else {
            0int
        }) + (if t.owner_id == p {
            1int
        } else {
            0int
        }),
    decreases s.len(),
{
    let su = s.update(j, t);
    if j == s.len() - 1 {
        assert(su.drop_last() =~= s.drop_last());
        assert(su.last() == t);
    } else {
        assert(su.drop_last() =~= s.drop_last().update(j, t));
        assert(su.last() == s.last());
        lemma_count_owned_update(s.drop_last(), j, t, p);
    }
}

/// Replacing one territory adjusts player `p`'s dice total by the
/// difference of the two territories' contributions.
pub proof fn lemma_dice_total_update(s: Seq<Territory>, j: int, t: Territory, p: u32)
    requires
        0 <= j < s.len(),
    ensures
        dice_total(s.update(j, t), p) == dice_total(s, p) - (if s[j].owner_id == p {
            s[j].num_dice as int
        } else {
            0int
        }) + (if t.owner_id == p {
            t.num_dice as int
        } else {
            0int
        }),
    decreases s.len(),
{
    let su = s.update(j, t);
    if j == s.len() - 1 {
        assert(su.drop_last() =~= s.drop_last());
        assert(su.last() == t);
    } else {
        assert(su.drop_last() =~= s.drop_last().update(j, t));
        assert(su.last() == s.last());
        lemma_dice_total_update(s.drop_last(), j, t, p);
    }
}

/// When each of player `p`'s territories holds exactly one die, the
/// player's dice total equals the number of territories the player owns.
pub proof fn lemma_dice_total_all_one(s: Seq<Territory>, p: u32)
    requires
        forall|i: int| 0 <= i < s.len() && s[i].owner_id == p ==> s[i].num_dice == 1,
    ensures
        dice_total(s, p) == count_owned(s, p),
    decreases s.len(),
{
    if s.len() > 0 {
        lemma_dice_total_all_one(s.drop_last(), p);
    }
}

/// A single territory of player `p` holds at most the player's dice total
/// minus one die for each of the player's other territories.
pub proof fn lemma_dice_le_total(s: Seq<Territory>, j: int, p: u32)
    requires
        0 <= j < s.len(),
        s[j].owner_id == p,
        forall|i: int| 0 <= i < s.len() ==> s[i].num_dice >= 1,
    ensures
        s[j].num_dice as int <= dice_total(s, p) - count_owned(s, p) + 1,
    decreases s.len(),
{
    if s.len() > 0 {
        lemma_count_at_least_zero(s.drop_last(), p);
        lemma_dice_ge_count(s.drop_last(), p);
        if j < s.len() - 1 {
            lemma_dice_le_total(s.drop_last(), j, p);
        }
    }
}

/// A player's territory count is never negative.
pub proof fn lemma_count_at_least_zero(s: Seq<Territory>, p: u32)
    ensures
        count_owned(s, p) >= 0,
    decreases s.len(),
{
    if s.len() > 0 {
        lemma_count_at_least_zero(s.drop_last(), p);
    }
}

/// With at least one die on every territory, a player's dice total is at
/// least the player's territory count.
pub proof fn lemma_dice_ge_count(s: Seq<Territory>, p: u32)
    requires
        forall|i: int| 0 <= i < s.len() ==> s[i].num_dice >= 1,
    ensures
        dice_total(s, p) >= count_owned(s, p),
    decreases s.len(),
{
    if s.len() > 0 {
        lemma_dice_ge_count(s.drop_last(), p);
    }
}

/// When every territory has owner `q`, player `q` owns them all and the
/// other players own none.
pub proof fn lemma_count_owned_uniform(s: Seq<Territory>, q: u32, p: u32)
    requires
        forall|i: int| 0 <= i < s.len() ==> s[i].owner_id == q,
    ensures
        count_owned(s, p) == if p == q {
            s.len() as int
        } else {
            0int
        },
    decreases s.len(),
{
    if s.len() > 0 {
        lemma_count_owned_uniform(s.drop_last(), q, p);
    }
}

/// Ownership counts read only the owner fields: two boards whose owners
/// agree position by position have the same counts.
pub proof fn lemma_count_owned_congruent(s1: Seq<Territory>, s2: Seq<Territory>, p: u32)
    requires
        s1.len() == s2.len(),
        forall|i: int| 0 <= i < s1.len() ==> (#[trigger] s2[i]).owner_id == s1[i].owner_id,
    ensures
        count_owned(s2, p) == count_owned(s1, p),
    decreases s1.len(),
{
    if s1.len() > 0 {
        lemma_count_owned_congruent(s1.drop_last(), s2.drop_last(), p);
    }
}

/// Dice totals read only the owner and dice fields: two boards that agree
/// on them position by position have the same totals.
pub proof fn lemma_dice_total_congruent(s1: Seq<Territory>, s2: Seq<Territory>, p: u32)
    requires
        s1.len() == s2.len(),
        forall|i: int|
            0 <= i < s1.len() ==> {
                &&& (#[trigger] s2[i]).owner_id == s1[i].owner_id
                &&& s2[i].num_dice == s1[i].num_dice
            },
    ensures
        dice_total(s2, p) == dice_total(s1, p),
    decreases s1.len(),
{
    if s1.len() > 0 {
        lemma_dice_total_congruent(s1.drop_last(), s2.drop_last(), p);
    }
}

/// A copy of a list of ids.
pub fn copy_ids(v: &Vec<u32>) -> (r: Vec<u32>)
    ensures
        r@ == v@,
{
    let mut r: Vec<u32> = Vec::new();
    let mut k: usize = 0;
    while k < v.len()
        invariant
            k <= v.len(),
            r@ =~= v@.subrange(0, k as int),
        decreases v.len() - k,
    {
        r.push(v[k]);
        k += 1;
    }
    proof {
        assert(r@ =~= v@);
    }
    r
}

} // verus!
