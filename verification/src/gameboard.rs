//! The board generator: territories are allocated, dealt to the players,
//! loaded with dice, and wired into a connected symmetric neighbor graph.

use vstd::prelude::*;
use vstd::arithmetic::div_mod::{
    lemma_fundamental_div_mod, lemma_fundamental_div_mod_converse, lemma_mod_bound,
};
use crate::model::{
    count_owned, dice_total, ids_unique, lemma_count_owned_uniform, lemma_count_owned_update,
    Territory, copy_ids,
};
use crate::rng::{random_in_range, shuffle_ids};

verus! {

/// Each territory sits at the position its id names: territory `i` has id
/// `i`. Generated boards always have this shape.
pub open spec fn ids_match_positions(s: Seq<Territory>) -> bool {
    forall|i: int| 0 <= i < s.len() ==> (#[trigger] s[i].id) == i as u32
}

/// Neighbor lists are well formed: no entry repeats, no territory lists
/// itself, and every entry is the id of a territory on the board.
pub open spec fn neighbors_wf(s: Seq<Territory>) -> bool {
    &&& forall|i: int| 0 <= i < s.len() ==> (#[trigger] s[i].neighbors@).no_duplicates()
    &&& forall|i: int| 0 <= i < s.len() ==> !(#[trigger] s[i].neighbors@).contains(s[i].id)
    &&& forall|i: int, k: int|
        0 <= i < s.len() && 0 <= k < s[i].neighbors@.len() ==> (#[trigger] s[i].neighbors@[k])
            < s.len()
}

/// The value `v` stands somewhere in the first `i` entries of `ids`.
pub open spec fn appears_before(ids: Seq<u32>, i: int, v: u32) -> bool {
    exists|k: int| 0 <= k < i && ids[k] == v
}

/// How many of `0, 1, ..., i - 1` leave remainder `p` when divided by
/// `np`: the number of territories dealt to player `p` among the first
/// `i` dealt round-robin.
pub open spec fn cnt_mod(i: int, np: int, p: int) -> int
    decreases i,
{
    if i <= 0 {
        0
    } else {
        cnt_mod(i - 1, np, p) + if (i - 1) % np == p {
            1int
        } else {
            0int
        }
    }
}

/// The closed form of `cnt_mod`: each full round of `np` deals one
/// territory to player `p`, and a partial round one more when it has
/// passed `p`.
pub proof fn lemma_cnt_mod_value(i: int, np: int, p: int)
    requires
        np >= 1,
        0 <= p < np,
        0 <= i,
    ensures
        cnt_mod(i, np, p) == i / np + if p < i % np {
            1int
        } else {
            0int
        },
    decreases i,
{
    if i == 0 {
        lemma_fundamental_div_mod_converse(0, np, 0, 0);
    } else {
        lemma_cnt_mod_value(i - 1, np, p);
        lemma_fundamental_div_mod(i - 1, np);
        lemma_mod_bound(i - 1, np);
        let q = (i - 1) / np;
        let r = (i - 1) % np;
        if r == np - 1 {
            assert(i == (q + 1) * np + 0) by (nonlinear_arith)
                requires
                    i - 1 == q * np + r,
                    r == np - 1,
            ;
            lemma_fundamental_div_mod_converse(i, np, q + 1, 0);
        } else {
            assert(i == q * np + (r + 1)) by (nonlinear_arith)
                requires
                    i - 1 == q * np + r,
            ;
            lemma_fundamental_div_mod_converse(i, np, q, r + 1);
        }
    }
}

/// After `np * tpp` round-robin deals over `np` players, player `p` has
/// been dealt exactly `tpp` territories.
pub proof fn lemma_cnt_mod_exact(np: int, tpp: int, p: int)
    requires
        np >= 1,
        tpp >= 0,
        0 <= p < np,
    ensures
        cnt_mod(np * tpp, np, p) == tpp,
{
    assert(np * tpp == tpp * np + 0) by (nonlinear_arith);
    assert(np * tpp >= 0) by (nonlinear_arith)
        requires
            np >= 1,
            tpp >= 0,
    ;
    lemma_fundamental_div_mod_converse(np * tpp, np, tpp, 0);
    lemma_cnt_mod_value(np * tpp, np, p);
}

/// Empty every territory's neighbor list, leaving everything else as it
/// was.
pub fn clear_neighbors(territories: &mut Vec<Territory>)
    ensures
        final(territories)@.len() == old(territories)@.len(),
        forall|i: int|
            0 <= i < final(territories)@.len() ==> {
                &&& (#[trigger] final(territories)@[i]).id == old(territories)@[i].id
                &&& final(territories)@[i].num_dice == old(territories)@[i].num_dice
                &&& final(territories)@[i].owner_id == old(territories)@[i].owner_id
                &&& final(territories)@[i].neighbors@.len() == 0
            },
{
    let ghost s0 = old(territories)@;
    let n = territories.len();
    let mut i: usize = 0;
    while i < n
        invariant
            i <= n,
            n == territories@.len(),
            n == s0.len(),
            forall|j: int|
                0 <= j < n ==> {
                    &&& (#[trigger] territories@[j]).id == s0[j].id
                    &&& territories@[j].num_dice == s0[j].num_dice
                    &&& territories@[j].owner_id == s0[j].owner_id
                },
            forall|j: int| 0 <= j < i ==> (#[trigger] territories@[j]).neighbors@.len() == 0,
            forall|j: int| i <= j < n ==> (#[trigger] territories@[j]).neighbors@ == s0[j].neighbors@,
        decreases n - i,
    {
        let t = Territory {
            id: territories[i].id,
            num_dice: territories[i].num_dice,
            owner_id: territories[i].owner_id,
            neighbors: Vec::new(),
        };
        territories.set(i, t);
        i += 1;
    }
}

/// Deal the territories to the players: shuffle all ids, then hand them
/// out round-robin, so that every player ends owning exactly
/// `num_territories_per_player` of them.
fn assign_territories_to_players(
    territories: &mut Vec<Territory>,
    num_players: u32,
    num_territories_per_player: u32,
)
    requires
        num_players >= 1,
        num_territories_per_player >= 1,
        old(territories)@.len() == num_players * num_territories_per_player,
        old(territories)@.len() <= u32::MAX,
        ids_match_positions(old(territories)@),
        forall|i: int| 0 <= i < old(territories)@.len() ==> (#[trigger] old(
            territories,
        )@[i]).owner_id == 0,
    ensures
        final(territories)@.len() == old(territories)@.len(),
        ids_match_positions(final(territories)@),
        forall|i: int|
            0 <= i < final(territories)@.len() ==> {
                &&& (#[trigger] final(territories)@[i]).num_dice == old(territories)@[i].num_dice
                &&& final(territories)@[i].neighbors@ == old(territories)@[i].neighbors@
                &&& final(territories)@[i].owner_id < num_players
            },
        forall|p: u32|
            p < num_players ==> count_owned(final(territories)@, p) == num_territories_per_player,
{
    let ghost s0 = old(territories)@;
    let n = territories.len();
    let mut territory_ids: Vec<u32> = Vec::new();
    let mut v: u32 = 0;
    while (v as usize) < n
        invariant
            n == territories@.len(),
            n <= u32::MAX,
            v as int <= n as int,
            territory_ids@.len() == v as int,
            forall|k: int| 0 <= k < v as int ==> (#[trigger] territory_ids@[k]) == k as u32,
        decreases n - v,
    {
        territory_ids.push(v);
        v = v + 1;
    }
    let ghost pre = territory_ids@;
    proof {
        assert(pre.no_duplicates());
        pre.lemma_multiset_has_no_duplicates();
    }
    shuffle_ids(&mut territory_ids);
    proof {
        broadcast use vstd::seq_lib::group_to_multiset_ensures;

        assert forall|x: u32|
            territory_ids@.to_multiset().contains(x) implies territory_ids@.to_multiset().count(x)
            == 1 by {
            assert(pre.to_multiset().contains(x));
        }
        territory_ids@.lemma_multiset_has_no_duplicates_conv();
        assert forall|k: int|
            0 <= k < territory_ids@.len() implies (#[trigger] territory_ids@[k]) < n as u32 by {
            let x = territory_ids@[k];
            assert(territory_ids@.contains(x));
            assert(pre.to_multiset().count(x) > 0);
            assert(pre.contains(x));
            let k2 = choose|k2: int| 0 <= k2 < pre.len() && pre[k2] == x;
            assert(pre[k2] == k2 as u32);
        }
    }
    let ghost ids = territory_ids@;
    proof {
        assert forall|p: u32|
            count_owned(territories@, p) == cnt_mod(0, num_players as int, p as int) + (if p == 0 {
                n as int
            } else {
                0int
            }) by {
            lemma_count_owned_uniform(territories@, 0, p);
        }
    }
    let mut i: usize = 0;
    while i < n
        invariant
            i <= n,
            n == territories@.len(),
            n == s0.len(),
            n <= u32::MAX,
            num_players >= 1,
            n as int == num_players * num_territories_per_player,
            ids == territory_ids@,
            ids.len() == n as int,
            ids.no_duplicates(),
            forall|k: int| 0 <= k < n ==> (#[trigger] ids[k]) < n as u32,
            ids_match_positions(territories@),
            forall|j: int|
                0 <= j < n ==> {
                    &&& (#[trigger] territories@[j]).num_dice == s0[j].num_dice
                    &&& territories@[j].neighbors@ == s0[j].neighbors@
                    &&& territories@[j].owner_id < num_players
                },
            forall|k: int|
                0 <= k < i ==> (territories@[(#[trigger] ids[k]) as int].owner_id as int) == k
                    % (num_players as int),
            forall|j: int|
                0 <= j < n && !appears_before(ids, i as int, j as u32)
                    ==> (#[trigger] territories@[j]).owner_id == 0,
            forall|p: u32|
                count_owned(territories@, p) == cnt_mod(
                    i as int,
                    num_players as int,
                    p as int,
                ) + if p == 0 {
                    n - i
                } else {
                    0int
                },
        decreases n - i,
    {
        let id = territory_ids[i];
        let idx = id as usize;
        let owner: u32 = (i as u32) % num_players;
        let t = Territory {
            id: territories[idx].id,
            num_dice: territories[idx].num_dice,
            owner_id: owner,
            neighbors: copy_ids(&territories[idx].neighbors),
        };
        let ghost sprev = territories@;
        territories.set(idx, t);
        proof {
            assert(!appears_before(ids, i as int, id)) by {
                if appears_before(ids, i as int, id) {
                    let k = choose|k: int| 0 <= k < i as int && ids[k] == id;
                    assert(ids[k] == ids[i as int]);
                }
            }
            assert(sprev[idx as int].owner_id == 0);
            assert forall|p: u32|
                count_owned(territories@, p) == cnt_mod(
                    (i + 1) as int,
                    num_players as int,
                    p as int,
                ) + if p == 0 {
                    n - (i + 1)
                } else {
                    0int
                } by {
                lemma_count_owned_update(sprev, idx as int, t, p);
                assert(cnt_mod((i + 1) as int, num_players as int, p as int) == cnt_mod(
                    i as int,
                    num_players as int,
                    p as int,
                ) + if (i as int) % (num_players as int) == p as int {
                    1int
                } else {
                    0int
                });
            }
            assert forall|j: int|
                0 <= j < n && !appears_before(ids, (i + 1) as int, j as u32) implies (
            #[trigger] territories@[j]).owner_id == 0 by {
                assert(!appears_before(ids, i as int, j as u32));
                assert(ids[i as int] != j as u32);
                assert(idx as int != j);
            }
            assert forall|k: int|
                0 <= k < (i + 1) as int implies (territories@[(#[trigger] ids[k]) as int].owner_id
                as int) == k % (num_players as int) by {
                if k < i as int {
                    assert(ids[k] != ids[i as int]);
                    assert(sprev[ids[k] as int].owner_id as int == k % (num_players as int));
                }
            }
        }
        i += 1;
    }
    proof {
        assert forall|p: u32|
            p < num_players implies count_owned(territories@, p)
            == num_territories_per_player as int by {
            lemma_cnt_mod_exact(num_players as int, num_territories_per_player as int, p as int);
            assert(num_players as int * num_territories_per_player as int == n as int);
        }
    }
}

/// Hand out each player's extra dice: one at a time, each onto a
/// uniformly random territory of that player, until the player's total
/// reaches `num_dice_per_player`.
fn assign_dice_to_territories(
    territories: &mut Vec<Territory>,
    num_players: u32,
    num_territories_per_player: u32,
    num_dice_per_player: u32,
)
    requires
        num_players >= 1,
        num_territories_per_player >= 1,
        num_dice_per_player >= num_territories_per_player,
        old(territories)@.len() == num_players * num_territories_per_player,
        old(territories)@.len() <= u32::MAX,
        ids_match_positions(old(territories)@),
        forall|i: int|
            0 <= i < old(territories)@.len() ==> {
                &&& (#[trigger] old(territories)@[i]).num_dice == 1
                &&& old(territories)@[i].owner_id < num_players
            },
        forall|p: u32|
            p < num_players ==> count_owned(old(territories)@, p) == num_territories_per_player,
    ensures
        final(territories)@.len() == old(territories)@.len(),
        ids_match_positions(final(territories)@),
        forall|i: int|
            0 <= i < final(territories)@.len() ==> {
                &&& (#[trigger] final(territories)@[i]).neighbors@ == old(
                    territories,
                )@[i].neighbors@
                &&& final(territories)@[i].owner_id == old(territories)@[i].owner_id
                &&& final(territories)@[i].num_dice >= 1
            },
        forall|p: u32|
            p < num_players ==> count_owned(final(territories)@, p) == num_territories_per_player,
        forall|p: u32| p < num_players ==> dice_total(final(territories)@, p) == num_dice_per_player,
{
    let ghost s0 = old(territories)@;
    let n = territories.len();
    let mut cur_player_id: u32 = 0;
    while cur_player_id < num_players
        invariant
            cur_player_id <= num_players,
            num_players >= 1,
            num_territories_per_player >= 1,
            num_dice_per_player >= num_territories_per_player,
            n == territories@.len(),
            n == s0.len(),
            n <= u32::MAX,
            n as int == num_players * num_territories_per_player,
            ids_match_positions(territories@),
            forall|j: int|
                0 <= j < n ==> {
                    &&& (#[trigger] territories@[j]).neighbors@ == s0[j].neighbors@
                    &&& territories@[j].owner_id == s0[j].owner_id
                    &&& territories@[j].owner_id < num_players
                    &&& territories@[j].num_dice >= 1
                },
            forall|j: int|
                0 <= j < n && (#[trigger] territories@[j]).owner_id >= cur_player_id
                    ==> territories@[j].num_dice == 1,
            forall|p: u32|
                p < num_players ==> count_owned(territories@, p) == num_territories_per_player,
            forall|p: u32|
                p < cur_player_id ==> dice_total(territories@, p) == num_dice_per_player,
        decreases num_players - cur_player_id,
    {
        let mut cur_players_territories: Vec<u32> = Vec::new();
        let mut j: usize = 0;
        while j < n
            invariant
                j <= n,
                n == territories@.len(),
                n <= u32::MAX,
                cur_players_territories@.len() == count_owned(
                    territories@.subrange(0, j as int),
                    cur_player_id,
                ),
                forall|k: int|
                    0 <= k < cur_players_territories@.len() ==> {
                        &&& (#[trigger] cur_players_territories@[k]) < n as u32
                        &&& territories@[cur_players_territories@[k] as int].owner_id
                            == cur_player_id
                    },
            decreases n - j,
        {
            proof {
                assert(territories@.subrange(0, (j + 1) as int).drop_last() =~= territories@
                    .subrange(0, j as int));
                assert(territories@.subrange(0, (j + 1) as int).last() == territories@[j as int]);
            }
            if territories[j].owner_id == cur_player_id {
                cur_players_territories.push(j as u32);
            }
            j += 1;
        }
        proof {
            assert(territories@.subrange(0, n as int) =~= territories@);
            crate::model::lemma_dice_total_all_one(territories@, cur_player_id);
        }
        let ghost sp = territories@;
        let budget: u32 = num_dice_per_player - num_territories_per_player;
        let mut assigned: u32 = 0;
        while assigned < budget
            invariant
                assigned <= budget,
                budget == num_dice_per_player - num_territories_per_player,
                num_players >= 1,
                num_territories_per_player >= 1,
                num_dice_per_player >= num_territories_per_player,
                cur_player_id < num_players,
                n == territories@.len(),
                n == sp.len(),
                n == s0.len(),
                n <= u32::MAX,
                ids_match_positions(territories@),
                cur_players_territories@.len() == num_territories_per_player,
                forall|k: int|
                    0 <= k < cur_players_territories@.len() ==> {
                        &&& (#[trigger] cur_players_territories@[k]) < n as u32
                        &&& territories@[cur_players_territories@[k] as int].owner_id
                            == cur_player_id
                    },
                forall|j2: int|
                    0 <= j2 < n ==> {
                        &&& (#[trigger] territories@[j2]).neighbors@ == sp[j2].neighbors@
                        &&& territories@[j2].owner_id == sp[j2].owner_id
                        &&& territories@[j2].num_dice >= 1
                    },
                forall|j2: int|
                    0 <= j2 < n && (#[trigger] territories@[j2]).owner_id != cur_player_id
                        ==> territories@[j2].num_dice == sp[j2].num_dice,
                forall|p: u32|
                    p < num_players ==> count_owned(territories@, p)
                        == num_territories_per_player,
                dice_total(territories@, cur_player_id) == num_territories_per_player + assigned,
                forall|p: u32|
                    p < num_players && p != cur_player_id ==> dice_total(territories@, p)
                        == dice_total(sp, p),
            decreases budget - assigned,
        {
            let ghost ow0 = cur_players_territories@;
            shuffle_ids(&mut cur_players_territories);
            proof {
                broadcast use vstd::seq_lib::group_to_multiset_ensures;

                assert forall|k: int|
                    0 <= k < cur_players_territories@.len() implies {
                    &&& (#[trigger] cur_players_territories@[k]) < n as u32
                    &&& territories@[cur_players_territories@[k] as int].owner_id == cur_player_id
                } by {
                    let x = cur_players_territories@[k];
                    assert(cur_players_territories@.contains(x));
                    assert(ow0.to_multiset().count(x) > 0);
                    assert(ow0.contains(x));
                }
            }
            let pick = cur_players_territories[0];
            let idx = pick as usize;
            proof {
                crate::model::lemma_dice_le_total(territories@, idx as int, cur_player_id);
            }
            let t = Territory {
                id: territories[idx].id,
                num_dice: territories[idx].num_dice + 1,
                owner_id: territories[idx].owner_id,
                neighbors: copy_ids(&territories[idx].neighbors),
            };
            let ghost sprev = territories@;
            territories.set(idx, t);
            proof {
                assert forall|p: u32|
                    p < num_players implies count_owned(territories@, p)
                    == num_territories_per_player as int by {
                    lemma_count_owned_update(sprev, idx as int, t, p);
                }
                assert forall|p: u32| p < num_players implies dice_total(territories@, p) == (
                if p == cur_player_id {
                    dice_total(sprev, p) + 1
                } else {
                    dice_total(sprev, p)
                }) by {
                    crate::model::lemma_dice_total_update(sprev, idx as int, t, p);
                }
            }
            assigned = assigned + 1;
        }
        proof {
            assert forall|p: u32|
                p < cur_player_id + 1 implies dice_total(territories@, p)
                == num_dice_per_player as int by {
                if p < cur_player_id {
                    assert(dice_total(sp, p) == num_dice_per_player as int);
                }
            }
        }
        cur_player_id = cur_player_id + 1;
    }
}

/// Join territories `a` and `b` as neighbors, adding each to the other's
/// list unless already present. Everything else is untouched.
fn add_edge(territories: &mut Vec<Territory>, a: usize, b: usize)
    requires
        a < old(territories)@.len(),
        b < old(territories)@.len(),
        a != b,
        old(territories)@.len() <= u32::MAX,
        ids_match_positions(old(territories)@),
        neighbors_wf(old(territories)@),
        crate::graph::symmetric_spec(old(territories)@),
    ensures
        final(territories)@.len() == old(territories)@.len(),
        ids_match_positions(final(territories)@),
        neighbors_wf(final(territories)@),
        crate::graph::symmetric_spec(final(territories)@),
        forall|k: int|
            0 <= k < final(territories)@.len() ==> {
                &&& (#[trigger] final(territories)@[k]).id == old(territories)@[k].id
                &&& final(territories)@[k].owner_id == old(territories)@[k].owner_id
                &&& final(territories)@[k].num_dice == old(territories)@[k].num_dice
            },
        forall|k: int, v: u32|
            0 <= k < final(territories)@.len() && #[trigger] old(
                territories,
            )@[k].neighbors@.contains(v) ==> final(territories)@[k].neighbors@.contains(v),
        final(territories)@[a as int].neighbors@.contains(b as u32),
        final(territories)@[b as int].neighbors@.contains(a as u32),
{
    let ghost s0 = old(territories)@;
    let ghost n = s0.len();
    let a_id = territories[a].id;
    let b_id = territories[b].id;
    if !crate::graph::contains_id(&territories[a].neighbors, b_id) {
        let mut nb = copy_ids(&territories[a].neighbors);
        nb.push(b_id);
        let t = Territory {
            id: territories[a].id,
            num_dice: territories[a].num_dice,
            owner_id: territories[a].owner_id,
            neighbors: nb,
        };
        let ghost sprev = territories@;
        proof {
            lemma_push_wf(sprev, a as int, b as int, t);
        }
        territories.set(a, t);
    }
    if !crate::graph::contains_id(&territories[b].neighbors, a_id) {
        let mut nb = copy_ids(&territories[b].neighbors);
        nb.push(a_id);
        let t = Territory {
            id: territories[b].id,
            num_dice: territories[b].num_dice,
            owner_id: territories[b].owner_id,
            neighbors: nb,
        };
        let ghost sprev = territories@;
        proof {
            lemma_push_wf(sprev, b as int, a as int, t);
        }
        territories.set(b, t);
    }
    proof {
        let s = territories@;
        assert(s[a as int].neighbors@.contains(b as u32));
        assert(s[b as int].neighbors@.contains(a as u32));
        assert forall|i: int, j: int|
            0 <= i < s.len() && 0 <= j < s.len() && #[trigger] s[i].neighbors@.contains(
                s[j].id,
            ) implies #[trigger] s[j].neighbors@.contains(s[i].id) by {
            if s0[i].neighbors@.contains(s0[j].id) {
                assert(s0[j].neighbors@.contains(s0[i].id));
            } else {
                assert((i == a as int && j == b as int) || (i == b as int && j == a as int));
            }
        }
    }
}

/// Pushing the id of another territory onto a well-formed neighbor list
/// keeps the board's neighbor lists well formed; only territory `at`
/// changes, by gaining exactly that one entry.
proof fn lemma_push_wf(s: Seq<Territory>, at: int, added: int, t: Territory)
    requires
        0 <= at < s.len(),
        0 <= added < s.len(),
        at != added,
        s.len() <= u32::MAX,
        ids_match_positions(s),
        neighbors_wf(s),
        !s[at].neighbors@.contains(added as u32),
        t.id == s[at].id,
        t.neighbors@ == s[at].neighbors@.push(added as u32),
    ensures
        neighbors_wf(s.update(at, t)),
        ids_match_positions(s.update(at, t)),
        forall|v: u32|
            #[trigger] s.update(at, t)[at].neighbors@.contains(v) ==> s[at].neighbors@.contains(v)
                || v == added as u32,
        s.update(at, t)[at].neighbors@.contains(added as u32),
        forall|k: int, v: u32|
            0 <= k < s.len() && #[trigger] s[k].neighbors@.contains(v) ==> s.update(
                at,
                t,
            )[k].neighbors@.contains(v),
{
    let su = s.update(at, t);
    let nb = t.neighbors@;
    let nb0 = s[at].neighbors@;
    assert(nb[nb.len() - 1] == added as u32);
    assert(nb.contains(added as u32));
    assert forall|x: int, y: int|
        0 <= x < nb.len() && 0 <= y < nb.len() && x != y implies nb[x] != nb[y] by {
        if x < nb0.len() && y < nb0.len() {
            assert(nb0.no_duplicates());
        } else if x == nb0.len() {
            assert(nb[y] == nb0[y]);
            assert(nb0.contains(nb0[y]));
        } else if y == nb0.len() {
            assert(nb[x] == nb0[x]);
            assert(nb0.contains(nb0[x]));
        }
    }
    assert(nb.no_duplicates());
    assert(!nb.contains(t.id)) by {
        if nb.contains(t.id) {
            let k = choose|k: int| 0 <= k < nb.len() && nb[k] == t.id;
            if k < nb0.len() {
                assert(nb0.contains(s[at].id));
            } else {
                assert(t.id == at as u32 && nb[k] == added as u32);
            }
        }
    }
    assert forall|i: int, k: int|
        0 <= i < su.len() && 0 <= k < su[i].neighbors@.len() implies (
    #[trigger] su[i].neighbors@[k]) < su.len() by {
        if i == at {
            if k < nb0.len() {
                assert(nb[k] == nb0[k]);
            }
        }
    }
    assert forall|i: int| 0 <= i < su.len() implies (#[trigger] su[i].neighbors@).no_duplicates()
        && !su[i].neighbors@.contains(su[i].id) by {
        if i != at {
            assert(su[i] == s[i]);
        }
    }
    assert forall|v: u32| #[trigger] su[at].neighbors@.contains(v) implies nb0.contains(v) || v
        == added as u32 by {
        let k = choose|k: int| 0 <= k < nb.len() && nb[k] == v;
        if k < nb0.len() {
            assert(nb0.contains(v));
        }
    }
    assert forall|k: int, v: u32|
        0 <= k < s.len() && #[trigger] s[k].neighbors@.contains(v) implies su[k].neighbors@.contains(
        v,
    ) by {
        if k == at {
            let m = choose|m: int| 0 <= m < nb0.len() && nb0[m] == v;
            assert(nb[m] == v);
        }
    }
}

/// Wire the territories into a random neighbor graph that is connected
/// and symmetric by construction: first a random spanning tree — each
/// territory after the first is joined to a random earlier one — then one
/// more random edge per territory for richness.
fn connect_territories(territories: &mut Vec<Territory>)
    requires
        2 <= old(territories)@.len(),
        old(territories)@.len() <= u32::MAX,
        ids_match_positions(old(territories)@),
        forall|i: int|
            0 <= i < old(territories)@.len() ==> (#[trigger] old(
                territories,
            )@[i]).neighbors@.len() == 0,
    ensures
        final(territories)@.len() == old(territories)@.len(),
        ids_match_positions(final(territories)@),
        forall|i: int|
            0 <= i < final(territories)@.len() ==> {
                &&& (#[trigger] final(territories)@[i]).owner_id == old(territories)@[i].owner_id
                &&& final(territories)@[i].num_dice == old(territories)@[i].num_dice
            },
        neighbors_wf(final(territories)@),
        crate::graph::symmetric_spec(final(territories)@),
        crate::graph::connected_spec(final(territories)@),
{
    let ghost s0 = old(territories)@;
    let n = territories.len();
    proof {
        crate::graph::lemma_reach_refl(territories@, 0);
    }
    let mut i: usize = 1;
    while i < n
        invariant
            1 <= i <= n,
            n == territories@.len(),
            n == s0.len(),
            2 <= n,
            n <= u32::MAX,
            ids_match_positions(territories@),
            neighbors_wf(territories@),
            crate::graph::symmetric_spec(territories@),
            forall|j: int|
                0 <= j < n ==> {
                    &&& (#[trigger] territories@[j]).owner_id == s0[j].owner_id
                    &&& territories@[j].num_dice == s0[j].num_dice
                },
            forall|a: int, b: int|
                0 <= a < i && 0 <= b < i ==> crate::graph::reach(territories@, a, b),
        decreases n - i,
    {
        let j = random_in_range(0, (i as u32) - 1);
        let ghost sprev = territories@;
        add_edge(territories, i, j as usize);
        proof {
            let s = territories@;
            assert(s[i as int].neighbors@.contains(s[j as int].id));
            assert(crate::graph::edge(s, i as int, j as int));
            crate::graph::lemma_reach_refl(s, i as int);
            crate::graph::lemma_reach_step(s, i as int, i as int, j as int);
            assert forall|a: int, b: int|
                0 <= a < i + 1 && 0 <= b < i + 1 implies crate::graph::reach(s, a, b) by {
                if a < i && b < i {
                    crate::graph::lemma_reach_monotone(sprev, s, a, b);
                } else {
                    if b < i {
                        crate::graph::lemma_reach_monotone(sprev, s, j as int, b);
                        crate::graph::lemma_reach_trans(s, i as int, j as int, b);
                    } else {
                        crate::graph::lemma_reach_refl(s, i as int);
                    }
                    if a < i {
                        crate::graph::lemma_reach_monotone(sprev, s, j as int, a);
                        crate::graph::lemma_reach_trans(s, i as int, j as int, a);
                        crate::graph::lemma_reach_sym(s, i as int, a);
                        crate::graph::lemma_reach_trans(s, a, i as int, b);
                    }
                }
            }
        }
        i += 1;
    }
    let mut c: usize = 0;
    while c < n
        invariant
            c <= n,
            n == territories@.len(),
            n == s0.len(),
            2 <= n,
            n <= u32::MAX,
            ids_match_positions(territories@),
            neighbors_wf(territories@),
            crate::graph::symmetric_spec(territories@),
            forall|j: int|
                0 <= j < n ==> {
                    &&& (#[trigger] territories@[j]).owner_id == s0[j].owner_id
                    &&& territories@[j].num_dice == s0[j].num_dice
                },
            crate::graph::connected_spec(territories@),
        decreases n - c,
    {
        let r = random_in_range(0, (n as u32) - 2);
        let other: u32 = if r >= c as u32 {
            r + 1
        } else {
            r
        };
        let ghost sprev = territories@;
        add_edge(territories, c, other as usize);
        proof {
            let s = territories@;
            assert forall|a: int, b: int|
                0 <= a < n && 0 <= b < n implies crate::graph::reach(s, a, b) by {
                crate::graph::lemma_reach_monotone(sprev, s, a, b);
            }
        }
        c += 1;
    }
}

/// A full game board: the set of territories, generated once and then
/// mutated only by combat.
pub struct Gameboard {
    pub territories: Vec<Territory>,
}

impl Gameboard {
    /// Generate a board for `num_players` players, each owning exactly
    /// `num_territories_per_player` territories that together hold exactly
    /// `num_dice_per_player` dice, wired into a connected, symmetric,
    /// self-loop-free neighbor graph.
    pub fn new(
        num_players: u32,
        num_territories_per_player: u32,
        num_dice_per_player: u32,
    ) -> (result: Gameboard)
        requires
            num_players >= 1,
            num_territories_per_player >= 1,
            num_dice_per_player >= num_territories_per_player,
            num_players * num_territories_per_player <= u32::MAX,
        ensures
            result.territories@.len() == num_players * num_territories_per_player,
            ids_match_positions(result.territories@),
            ids_unique(result.territories@),
            forall|i: int|
                0 <= i < result.territories@.len() ==> {
                    &&& (#[trigger] result.territories@[i]).owner_id < num_players
                    &&& result.territories@[i].num_dice >= 1
                },
            forall|p: u32|
                p < num_players ==> count_owned(result.territories@, p)
                    == num_territories_per_player,
            forall|p: u32|
                p < num_players ==> dice_total(result.territories@, p) == num_dice_per_player,
            neighbors_wf(result.territories@),
            crate::graph::symmetric_spec(result.territories@),
            crate::graph::connected_spec(result.territories@),
    {
        let max_territories: u32 = num_territories_per_player * num_players;
        let mut territories: Vec<Territory> = Vec::new();
        let mut cur_id: u32 = 0;
        while cur_id < max_territories
            invariant
                cur_id <= max_territories,
                territories@.len() == cur_id as int,
                forall|k: int|
                    0 <= k < cur_id as int ==> {
                        &&& (#[trigger] territories@[k]).id == k as u32
                        &&& territories@[k].num_dice == 1
                        &&& territories@[k].owner_id == 0
                        &&& territories@[k].neighbors@.len() == 0
                    },
            decreases max_territories - cur_id,
        {
            let cur_territory = Territory {
                id: cur_id,
                num_dice: 1,
                owner_id: 0,
                neighbors: Vec::new(),
            };
            territories.push(cur_territory);
            cur_id = cur_id + 1;
        }
        assign_territories_to_players(&mut territories, num_players, num_territories_per_player);
        assign_dice_to_territories(
            &mut territories,
            num_players,
            num_territories_per_player,
            num_dice_per_player,
        );
        let ghost sd = territories@;
        proof {
            assert(num_players * num_territories_per_player >= 1) by (nonlinear_arith)
                requires
                    num_players >= 1,
                    num_territories_per_player >= 1,
            ;
        }
        if territories.len() >= 2 {
            connect_territories(&mut territories);
        } else {
            proof {
                crate::graph::lemma_reach_refl(territories@, 0);
            }
        }
        proof {
            assert forall|p: u32| p < num_players implies {
                &&& count_owned(territories@, p) == num_territories_per_player as int
                &&& dice_total(territories@, p) == num_dice_per_player as int
            } by {
                crate::model::lemma_count_owned_congruent(sd, territories@, p);
                crate::model::lemma_dice_total_congruent(sd, territories@, p);
            }
            assert forall|i: int, j: int|
                0 <= i < territories@.len() && 0 <= j < territories@.len() && i
                    != j implies territories@[i].id != territories@[j].id by {
                assert(territories@[i].id == i as u32);
                assert(territories@[j].id == j as u32);
            }
        }
        Gameboard { territories }
    }
}

} // verus!
