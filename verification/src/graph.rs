//! The neighbor graph: adjacency, reachability, and the two validators
//! that the board generator gates on — connectivity and symmetry.

use vstd::prelude::*;
use crate::model::Territory;

verus! {

/// Territories at positions `i` and `j` are adjacent: either lists the
/// other's id among its neighbors.
pub open spec fn edge(s: Seq<Territory>, i: int, j: int) -> bool {
    &&& 0 <= i < s.len()
    &&& 0 <= j < s.len()
    &&& (s[i].neighbors@.contains(s[j].id) || s[j].neighbors@.contains(s[i].id))
}

/// `p` is a walk through the board from position `i` to position `j`:
/// it starts at `i`, ends at `j`, and each step crosses an edge.
pub open spec fn is_path(s: Seq<Territory>, p: Seq<int>, i: int, j: int) -> bool {
    &&& p.len() >= 1
    &&& p[0] == i
    &&& p[p.len() - 1] == j
    &&& forall|k: int| 0 <= k < p.len() - 1 ==> edge(s, p[k], #[trigger] p[k + 1])
}

/// Position `j` is reachable from position `i` along neighbor edges.
pub open spec fn reach(s: Seq<Territory>, i: int, j: int) -> bool {
    exists|p: Seq<int>| is_path(s, p, i, j)
}

/// The board forms a single connected component: every territory is
/// reachable from every other. A board with zero or one territory is
/// trivially connected.
pub open spec fn connected_spec(s: Seq<Territory>) -> bool {
    forall|i: int, j: int| 0 <= i < s.len() && 0 <= j < s.len() ==> reach(s, i, j)
}

/// The neighbor relation is mutual: whenever a territory lists the id of
/// another territory present on the board, that territory lists it back.
pub open spec fn symmetric_spec(s: Seq<Territory>) -> bool {
    forall|i: int, j: int|
        0 <= i < s.len() && 0 <= j < s.len() && #[trigger] s[i].neighbors@.contains(s[j].id)
            ==> #[trigger] s[j].neighbors@.contains(s[i].id)
}

/// Every position is reachable from itself.
pub proof fn lemma_reach_refl(s: Seq<Territory>, i: int)
    requires
        0 <= i < s.len(),
    ensures
        reach(s, i, i),
{
    let p = seq![i];
    assert(is_path(s, p, i, i));
}

/// A path extended across one more edge is still a path.
pub proof fn lemma_reach_step(s: Seq<Territory>, i: int, j: int, k: int)
    requires
        reach(s, i, j),
        edge(s, j, k),
    ensures
        reach(s, i, k),
{
    let p = choose|p: Seq<int>| is_path(s, p, i, j);
    let q = p.push(k);
    assert(q[q.len() - 1] == k);
    assert forall|m: int| 0 <= m < q.len() - 1 implies edge(s, q[m], #[trigger] q[m + 1]) by {
        if m < p.len() - 1 {
            assert(edge(s, p[m], p[m + 1]));
        } else {
            assert(q[m] == j && q[m + 1] == k);
        }
    }
    assert(is_path(s, q, i, k));
}

/// Reachability is symmetric, because adjacency is.
pub proof fn lemma_reach_sym(s: Seq<Territory>, i: int, j: int)
    requires
        reach(s, i, j),
    ensures
        reach(s, j, i),
{
    let p = choose|p: Seq<int>| is_path(s, p, i, j);
    let q = p.reverse();
    assert(q.len() == p.len());
    assert(q[0] == p[p.len() - 1]);
    assert(q[q.len() - 1] == p[0]);
    assert forall|m: int| 0 <= m < q.len() - 1 implies edge(s, q[m], #[trigger] q[m + 1]) by {
        assert(q[m] == p[p.len() - 1 - m]);
        assert(q[m + 1] == p[p.len() - 2 - m]);
        assert(edge(s, p[p.len() - 2 - m], p[(p.len() - 2 - m) + 1]));
    }
    assert(is_path(s, q, j, i));
}

/// Reachability is transitive: two walks concatenate.
pub proof fn lemma_reach_trans(s: Seq<Territory>, i: int, j: int, k: int)
    requires
        reach(s, i, j),
        reach(s, j, k),
    ensures
        reach(s, i, k),
{
    let p = choose|p: Seq<int>| is_path(s, p, i, j);
    let q = choose|q: Seq<int>| is_path(s, q, j, k);
    let r = p + q.subrange(1, q.len() as int);
    assert(r[0] == p[0]);
    assert(r[r.len() - 1] == if q.len() == 1 { p[p.len() - 1] } else { q[q.len() - 1] });
    assert forall|m: int| 0 <= m < r.len() - 1 implies edge(s, r[m], #[trigger] r[m + 1]) by {
        if m < p.len() - 1 {
            assert(r[m] == p[m] && r[m + 1] == p[m + 1]);
            assert(edge(s, p[m], p[m + 1]));
        } else if m == p.len() - 1 {
            assert(r[m] == p[p.len() - 1]);
            if q.len() >= 2 {
                assert(r[m + 1] == q[1]);
                assert(edge(s, q[0], q[0int + 1]));
            }
        } else {
            assert(r[m] == q[m - p.len() + 1] && r[m + 1] == q[m - p.len() + 2]);
            assert(edge(s, q[m - p.len() + 1], q[(m - p.len() + 1) + 1]));
        }
    }
    assert(is_path(s, r, i, k));
}

/// A walk that starts inside an edge-closed set of positions never leaves
/// it: `marked` contains the start and every neighbor of a marked
/// position, so it contains the end of the walk too.
pub proof fn lemma_path_stays_marked(s: Seq<Territory>, marked: Seq<bool>, p: Seq<int>, i: int, j: int)
    requires
        marked.len() == s.len(),
        is_path(s, p, i, j),
        0 <= i < s.len(),
        marked[i],
        forall|a: int, b: int| 0 <= a < s.len() && marked[a] && edge(s, a, b) ==> marked[b],
    ensures
        0 <= j < s.len(),
        marked[j],
    decreases p.len(),
{
    if p.len() == 1 {
        assert(j == i);
    } else {
        let p0 = p.drop_last();
        let mid = p[p.len() - 2];
        assert(edge(s, p[p.len() - 2], p[(p.len() - 2) + 1]));
        assert(p0[p0.len() - 1] == mid);
        assert forall|k: int| 0 <= k < p0.len() - 1 implies edge(s, p0[k], #[trigger] p0[k + 1]) by {
            assert(edge(s, p[k], p[k + 1]));
        }
        assert(is_path(s, p0, i, mid));
        lemma_path_stays_marked(s, marked, p0, i, mid);
    }
}

/// An unmarked position is unreachable from a marked one when the marked
/// set is closed under edges.
pub proof fn lemma_unmarked_unreachable(s: Seq<Territory>, marked: Seq<bool>, i: int, j: int)
    requires
        marked.len() == s.len(),
        0 <= i < s.len(),
        0 <= j < s.len(),
        marked[i],
        !marked[j],
        forall|a: int, b: int| 0 <= a < s.len() && marked[a] && edge(s, a, b) ==> marked[b],
    ensures
        !reach(s, i, j),
{
    if reach(s, i, j) {
        let p = choose|p: Seq<int>| is_path(s, p, i, j);
        lemma_path_stays_marked(s, marked, p, i, j);
    }
}

/// Growing neighbor lists never disconnects anything: a walk through the
/// smaller graph is a walk through the larger one.
pub proof fn lemma_reach_monotone(s1: Seq<Territory>, s2: Seq<Territory>, i: int, j: int)
    requires
        s1.len() == s2.len(),
        forall|k: int| 0 <= k < s1.len() ==> (#[trigger] s2[k]).id == s1[k].id,
        forall|k: int, v: u32|
            0 <= k < s1.len() && #[trigger] s1[k].neighbors@.contains(v)
                ==> s2[k].neighbors@.contains(v),
        reach(s1, i, j),
    ensures
        reach(s2, i, j),
{
    let p = choose|p: Seq<int>| is_path(s1, p, i, j);
    assert forall|m: int| 0 <= m < p.len() - 1 implies edge(s2, p[m], #[trigger] p[m + 1]) by {
        assert(edge(s1, p[m], p[m + 1]));
    }
    assert(is_path(s2, p, i, j));
}

/// Two boards with the same topology — the same ids and the same
/// neighbor lists position by position — agree on symmetry and on
/// connectivity. Combat changes owners and dice only, so it can never
/// disturb either validator.
pub proof fn lemma_same_topology_same_graph(s1: Seq<Territory>, s2: Seq<Territory>)
    requires
        s1.len() == s2.len(),
        forall|k: int|
            0 <= k < s1.len() ==> {
                &&& (#[trigger] s2[k]).id == s1[k].id
                &&& s2[k].neighbors@ == s1[k].neighbors@
            },
    ensures
        symmetric_spec(s1) == symmetric_spec(s2),
        connected_spec(s1) == connected_spec(s2),
{
    if symmetric_spec(s1) {
        assert forall|i: int, j: int|
            0 <= i < s2.len() && 0 <= j < s2.len() && #[trigger] s2[i].neighbors@.contains(
                s2[j].id,
            ) implies #[trigger] s2[j].neighbors@.contains(s2[i].id) by {
            assert(s1[i].neighbors@.contains(s1[j].id));
        }
    }
    if symmetric_spec(s2) {
        assert forall|i: int, j: int|
            0 <= i < s1.len() && 0 <= j < s1.len() && #[trigger] s1[i].neighbors@.contains(
                s1[j].id,
            ) implies #[trigger] s1[j].neighbors@.contains(s1[i].id) by {
            assert(s2[i].neighbors@.contains(s2[j].id));
        }
    }
    if connected_spec(s1) {
        assert forall|i: int, j: int| 0 <= i < s2.len() && 0 <= j < s2.len() implies reach(
            s2,
            i,
            j,
        ) by {
            lemma_reach_monotone(s1, s2, i, j);
        }
    }
    if connected_spec(s2) {
        assert forall|i: int, j: int| 0 <= i < s1.len() && 0 <= j < s1.len() implies reach(
            s1,
            i,
            j,
        ) by {
            lemma_reach_monotone(s2, s1, i, j);
        }
    }
}

/// Running the Connectivity Validator twice on an unchanged board yields
/// the same result both times: any two results that meet its contract on
/// the same board are equal.
pub proof fn lemma_connectivity_revalidation(s: Seq<Territory>, first: bool, second: bool)
    requires
        first == connected_spec(s),
        second == connected_spec(s),
    ensures
        first == second,
{
}

/// Running the Symmetry Validator twice on an unchanged board yields the
/// same result both times: any two results that meet its contract on the
/// same board are equal.
pub proof fn lemma_symmetry_revalidation(s: Seq<Territory>, first: bool, second: bool)
    requires
        first == symmetric_spec(s),
        second == symmetric_spec(s),
    ensures
        first == second,
{
}

/// How many entries of `s` are set.
pub open spec fn count_true(s: Seq<bool>) -> int
    decreases s.len(),
{
    if s.len() == 0 {
        0
    } else {
        count_true(s.drop_last()) + if s.last() {
            1int
        } else {
            0int
        }
    }
}

/// Setting one entry raises the count by one exactly when the entry was
/// clear before.
pub proof fn lemma_count_true_update(s: Seq<bool>, j: int, v: bool)
    requires
        0 <= j < s.len(),
    ensures
        count_true(s.update(j, v)) == count_true(s) - (if s[j] {
            1int
        } else {
            0int
        }) + (if v {
            1int
        } else {
            0int
        }),
    decreases s.len(),
{
    let su = s.update(j, v);
    if j == s.len() - 1 {
        assert(su.drop_last() =~= s.drop_last());
    } else {
        assert(su.drop_last() =~= s.drop_last().update(j, v));
        lemma_count_true_update(s.drop_last(), j, v);
    }
}

/// The count of set entries never exceeds the length.
pub proof fn lemma_count_true_le_len(s: Seq<bool>)
    ensures
        0 <= count_true(s) <= s.len(),
    decreases s.len(),
{
    if s.len() > 0 {
        lemma_count_true_le_len(s.drop_last());
    }
}

/// Whether `v` holds the id `x`.
pub fn contains_id(v: &Vec<u32>, x: u32) -> (r: bool)
    ensures
        r == v@.contains(x),
{
    let mut k: usize = 0;
    while k < v.len()
        invariant
            k <= v.len(),
            forall|k2: int| 0 <= k2 < k ==> v@[k2] != x,
        decreases v.len() - k,
    {
        if v[k] == x {
            return true;
        }
        k += 1;
    }
    false
}

/// The Symmetry Validator: true iff every neighbor entry that names a
/// territory present on the board is listed back by that territory.
pub fn is_symmetric(territories: &Vec<Territory>) -> (r: bool)
    ensures
        r == symmetric_spec(territories@),
{
    let ghost s = territories@;
    let n = territories.len();
    let mut i: usize = 0;
    while i < n
        invariant
            n == s.len(),
            s == territories@,
            i <= n,
            forall|a: int, b: int|
                0 <= a < i && 0 <= b < n && #[trigger] s[a].neighbors@.contains(s[b].id)
                    ==> #[trigger] s[b].neighbors@.contains(s[a].id),
        decreases n - i,
    {
        let num_neighbors = territories[i].neighbors.len();
        let mut k: usize = 0;
        while k < num_neighbors
            invariant
                n == s.len(),
                s == territories@,
                i < n,
                num_neighbors == s[i as int].neighbors@.len(),
                k <= num_neighbors,
                forall|k2: int, b: int|
                    #![trigger s[i as int].neighbors@[k2], s[b].neighbors@]
                    0 <= k2 < k && 0 <= b < n && s[b].id == s[i as int].neighbors@[k2]
                        ==> s[b].neighbors@.contains(s[i as int].id),
            decreases num_neighbors - k,
        {
            let nb = territories[i].neighbors[k];
            let own_id = territories[i].id;
            let mut j: usize = 0;
            while j < n
                invariant
                    n == s.len(),
                    s == territories@,
                    i < n,
                    k < s[i as int].neighbors@.len(),
                    nb == s[i as int].neighbors@[k as int],
                    own_id == s[i as int].id,
                    j <= n,
                    forall|j2: int|
                        0 <= j2 < j && (#[trigger] s[j2].id) == nb ==> s[j2].neighbors@.contains(
                            own_id,
                        ),
                decreases n - j,
            {
                if territories[j].id == nb {
                    if !contains_id(&territories[j].neighbors, own_id) {
                        assert(s[i as int].neighbors@.contains(s[j as int].id));
                        return false;
                    }
                }
                j += 1;
            }
            k += 1;
        }
        proof {
            assert forall|b: int|
                0 <= b < n && #[trigger] s[i as int].neighbors@.contains(s[b].id) implies s[b].neighbors@.contains(
                s[i as int].id,
            ) by {
                let k2 = choose|k2: int|
                    0 <= k2 < s[i as int].neighbors@.len() && s[i as int].neighbors@[k2] == s[b].id;
                assert(s[i as int].neighbors@[k2] == s[b].id);
            }
        }
        i += 1;
    }
    true
}

/// The Connectivity Validator: true iff the board is a single connected
/// component. A board with zero or one territory is trivially connected.
pub fn is_connected(territories: &Vec<Territory>) -> (r: bool)
    ensures
        r == connected_spec(territories@),
{
    let ghost s = territories@;
    let n = territories.len();
    if n <= 1 {
        proof {
            if n == 1 {
                lemma_reach_refl(s, 0);
            }
        }
        return true;
    }
    let mut visited: Vec<bool> = Vec::new();
    while visited.len() < n
        invariant
            visited@.len() <= n,
            forall|i: int| 0 <= i < visited@.len() ==> !visited@[i],
            count_true(visited@) == 0,
        decreases n - visited@.len(),
    {
        proof {
            assert(visited@.push(false).drop_last() =~= visited@);
        }
        visited.push(false);
    }
    let mut queue: Vec<usize> = Vec::new();
    proof {
        lemma_count_true_update(visited@, 0, true);
    }
    visited.set(0, true);
    queue.push(0);
    proof {
        lemma_reach_refl(s, 0);
        assert(queue@[0] == 0usize);
        assert forall|i: int| 0 <= i < n && #[trigger] visited@[i] implies queue@.contains(
            i as usize,
        ) by {
            assert(i == 0);
            assert(queue@[0] == i as usize);
        }
    }
    let mut head: usize = 0;
    while head < queue.len()
        invariant
            n == s.len(),
            s == territories@,
            n >= 2,
            visited@.len() == n,
            head <= queue@.len(),
            visited@[0],
            forall|k: int| 0 <= k < queue@.len() ==> (#[trigger] queue@[k]) < n,
            forall|k: int| 0 <= k < queue@.len() ==> visited@[#[trigger] queue@[k] as int],
            forall|i: int| 0 <= i < n && #[trigger] visited@[i] ==> queue@.contains(i as usize),
            forall|i: int| 0 <= i < n && #[trigger] visited@[i] ==> reach(s, 0, i),
            forall|k: int, j: int|
                #![trigger queue@[k], s[j]]
                0 <= k < head && 0 <= j < n && edge(s, queue@[k] as int, j) ==> visited@[j],
            queue@.len() == count_true(visited@),
            count_true(visited@) <= n,
        decreases n - count_true(visited@), queue@.len() - head,
    {
        let w = queue[head];
        let ghost visited0 = visited@;
        let mut j: usize = 0;
        while j < n
            invariant
                n == s.len(),
                s == territories@,
                n >= 2,
                visited@.len() == n,
                head < queue@.len(),
                w == queue@[head as int],
                w < n,
                visited@[0],
                j <= n,
                forall|k: int| 0 <= k < queue@.len() ==> (#[trigger] queue@[k]) < n,
                forall|k: int| 0 <= k < queue@.len() ==> visited@[#[trigger] queue@[k] as int],
                forall|i: int| 0 <= i < n && #[trigger] visited@[i] ==> queue@.contains(i as usize),
                forall|i: int| 0 <= i < n && #[trigger] visited@[i] ==> reach(s, 0, i),
                forall|k: int, j2: int|
                    #![trigger queue@[k], s[j2]]
                    0 <= k < head && 0 <= j2 < n && edge(s, queue@[k] as int, j2) ==> visited@[j2],
                forall|j2: int| 0 <= j2 < j && edge(s, w as int, j2) ==> visited@[j2],
                queue@.len() == count_true(visited@),
                count_true(visited@) <= n,
                count_true(visited0) <= count_true(visited@),
            decreases n - j,
        {
            let adj = contains_id(&territories[w].neighbors, territories[j].id) || contains_id(
                &territories[j].neighbors,
                territories[w].id,
            );
            if adj {
                if !visited[j] {
                    let ghost vprev = visited@;
                    let ghost qprev = queue@;
                    proof {
                        lemma_reach_step(s, 0, w as int, j as int);
                        lemma_count_true_update(visited@, j as int, true);
                        lemma_count_true_le_len(visited@.update(j as int, true));
                    }
                    visited.set(j, true);
                    queue.push(j);
                    proof {
                        assert forall|i: int| 0 <= i < n && #[trigger] visited@[i] implies queue@.contains(
                            i as usize,
                        ) by {
                            if i == j as int {
                                assert(queue@[queue@.len() - 1] == j);
                            } else {
                                assert(vprev[i]);
                                let k = choose|k: int|
                                    0 <= k < qprev.len() && qprev[k] == i as usize;
                                assert(queue@[k] == i as usize);
                            }
                        }
                        assert forall|k: int| 0 <= k < queue@.len() implies visited@[#[trigger] queue@[k] as int] by {
                            if k < qprev.len() {
                                assert(vprev[qprev[k] as int]);
                            } else {
                                assert(queue@[k] == j);
                            }
                        }
                    }
                }
            }
            j += 1;
        }
        head += 1;
    }
    let mut all_visited: bool = true;
    let mut i: usize = 0;
    while i < n
        invariant
            n == visited@.len(),
            i <= n,
            all_visited ==> forall|i2: int| 0 <= i2 < i ==> visited@[i2],
            !all_visited ==> exists|i2: int| 0 <= i2 < n && !visited@[i2],
        decreases n - i,
    {
        if !visited[i] {
            all_visited = false;
        }
        i += 1;
    }
    proof {
        assert forall|a: int, b: int| 0 <= a < n && visited@[a] && edge(s, a, b) implies visited@[b] by {
            assert(queue@.contains(a as usize));
            let k = choose|k: int| 0 <= k < queue@.len() && queue@[k] == a as usize;
            assert(edge(s, queue@[k] as int, b));
        }
        if all_visited {
            assert forall|a: int, b: int| 0 <= a < n && 0 <= b < n implies reach(s, a, b) by {
                assert(visited@[a] && visited@[b]);
                lemma_reach_sym(s, 0, a);
                lemma_reach_trans(s, a, 0, b);
            }
        } else {
            let i0 = choose|i0: int| 0 <= i0 < n && !visited@[i0];
            lemma_unmarked_unreachable(s, visited@, 0, i0);
        }
    }
    all_visited
}

} // verus!
