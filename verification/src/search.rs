//! The exact tour search: depth-first branch-and-bound over a built graph,
//! looking for the minimum-weight Hamiltonian cycle through the designated
//! start vertex.
//!
//! A tour is described by the sequence `q` of vertices it visits (start
//! first, each vertex exactly once) together with the sequence `ws` of edge
//! weights it walks, one weight per step, each taken from an actual entry of
//! the neighbour list it leaves from. The cycle is closed with the first
//! recorded edge from the final vertex back to the start — exactly the edge
//! the search itself closes with.

use vstd::prelude::*;

verus! {

use crate::graph_defs::GraphV;
use crate::graph_defs::Graph;
use crate::graph_defs::GraphDescV;
use crate::graph_defs::UndirectedPerformantGraph;
use crate::graph_defs::lemma_edge_l_found;
use crate::graph_defs::lemma_edge_l_none;
use crate::graph_defs::lemma_edge_w_l_nonneg;
use crate::graph_defs::lemma_find_label_in_exists;

// ---------------------------------------------------------------------------
// Tours, their weights, and what the search owes.
// ---------------------------------------------------------------------------

/// Sum of a sequence of edge weights.
pub open spec fn sum_ws(s: Seq<u32>) -> int
    decreases s.len(),
{
    if s.len() == 0 {
        0
    } else {
        sum_ws(s.drop_last()) + s.last()
    }
}

/// `ws[i]` annotates the move from `q[i]` to `q[i + 1]` with an entry that
/// `q[i]`'s neighbour list actually holds.
pub open spec fn path_ok(m: GraphV, q: Seq<u32>, ws: Seq<u32>) -> bool {
    &&& ws.len() + 1 == q.len()
    &&& forall|i: int| 0 <= i < ws.len() ==> #[trigger] m.is_step(q[i], q[i + 1], ws[i])
}

/// Total weight of a closed tour: the annotated steps plus the first
/// recorded edge from the final vertex back to `start`.
pub open spec fn tour_total(m: GraphV, q: Seq<u32>, ws: Seq<u32>, start: u32) -> int {
    sum_ws(ws) + m.close_w(q.last(), start)
}

/// A Hamiltonian tour of `m` from `start`: starts at `start`, visits every
/// vertex exactly once along recorded edges, and closes back to `start`.
pub open spec fn is_ham_tour(m: GraphV, start: u32, q: Seq<u32>, ws: Seq<u32>) -> bool {
    &&& q.len() == m.id_set().len()
    &&& q.len() >= 1
    &&& q[0] == start
    &&& q.no_duplicates()
    &&& q.to_set() == m.id_set()
    &&& path_ok(m, q, ws)
    &&& m.closes(q.last(), start)
}

/// A completion of the in-progress path `p` (annotated `ws0`): a full tour
/// that starts exactly like `p`, walks the same entries, and spends the rest
/// of its steps on precisely the vertex set `vs`.
pub open spec fn ext_tour(
    m: GraphV,
    start: u32,
    p: Seq<u32>,
    ws0: Seq<u32>,
    vs: Set<u32>,
    q: Seq<u32>,
    ws: Seq<u32>,
) -> bool {
    &&& p.len() >= 1
    &&& q.len() == p.len() + vs.len()
    &&& ws.len() + 1 == q.len()
    &&& q.take(p.len() as int) == p
    &&& ws.take(p.len() - 1) == ws0
    &&& q.no_duplicates()
    &&& q.skip(p.len() as int).to_set() == vs
    &&& path_ok(m, q, ws)
    &&& m.closes(q.last(), start)
}

/// `b` is the weight an exhaustive search must report: a lower bound on the
/// total of every Hamiltonian tour, and attained by one of them unless it is
/// `u32::MAX` (meaning no tour cheaper than `u32::MAX` exists).
pub open spec fn is_best_weight(m: GraphV, start: u32, b: u32) -> bool {
    &&& forall|q: Seq<u32>, ws: Seq<u32>|
        #[trigger] is_ham_tour(m, start, q, ws) ==> b as int <= tour_total(m, q, ws, start)
    &&& (b == u32::MAX || exists|q: Seq<u32>, ws: Seq<u32>|
        #[trigger] is_ham_tour(m, start, q, ws) && tour_total(m, q, ws, start) == b)
}

/// The best-so-far pair of a running search: absent until a tour is found,
/// and from then on an actual Hamiltonian tour whose total is exactly the
/// recorded weight.
pub open spec fn best_inv(m: GraphV, start: u32, best_weight: u32, best_path: Option<Vec<u32>>) -> bool {
    match best_path {
        None => best_weight == u32::MAX,
        Some(p) => {
            &&& best_weight < u32::MAX
            &&& exists|ws: Seq<u32>|
                #[trigger] is_ham_tour(m, start, p@, ws) && tour_total(m, p@, ws, start)
                    == best_weight
        },
    }
}

/// Some entry among the first `i` of the neighbour list `l` is `(v, w)`.
pub open spec fn entry_before(l: Seq<(u32, u32)>, v: u32, w: u32, i: int) -> bool {
    exists|j: int| 0 <= j < i && #[trigger] l[j] == (v, w)
}

// ---------------------------------------------------------------------------
// Sums of weight sequences.
// ---------------------------------------------------------------------------

pub proof fn lemma_sum_ws_take_succ(s: Seq<u32>, k: int)
    requires
        0 <= k < s.len(),
    ensures
        sum_ws(s.take(k + 1)) == sum_ws(s.take(k)) + s[k],
{
    assert(s.take(k + 1).drop_last() =~= s.take(k));
    assert(s.take(k + 1).last() == s[k]);
}

pub proof fn lemma_sum_ws_prefix(s: Seq<u32>, k: int)
    requires
        0 <= k <= s.len(),
    ensures
        sum_ws(s.take(k)) <= sum_ws(s),
    decreases s.len() - k,
{
    if k == s.len() {
        assert(s.take(k) =~= s);
    } else {
        lemma_sum_ws_take_succ(s, k);
        lemma_sum_ws_prefix(s, k + 1);
    }
}

// ---------------------------------------------------------------------------
// Small executable helpers.
// ---------------------------------------------------------------------------

/// Linear membership test over the visited list.
fn vec_contains(v: &Vec<u32>, x: u32) -> (r: bool)
    ensures
        r == v@.contains(x),
{
    let n = v.len();
    let mut i: usize = 0;
    while i < n
        invariant
            i <= n,
            n == v@.len(),
            forall|k: int| 0 <= k < i ==> v@[k] != x,
        decreases n - i,
    {
        if v[i] == x {
            return true;
        }
        i += 1;
    }
    false
}

/// Removes the single occurrence of `x` from a duplicate-free vector.
fn remove_value(v: &mut Vec<u32>, x: u32)
    requires
        old(v)@.no_duplicates(),
        old(v)@.contains(x),
    ensures
        final(v)@.no_duplicates(),
        final(v)@.len() == old(v)@.len() - 1,
        final(v)@.to_set() == old(v)@.to_set().remove(x),
{
    let n = v.len();
    let mut i: usize = 0;
    while i < n
        invariant
            i <= n,
            n == v@.len(),
            v@ == old(v)@,
            v@.no_duplicates(),
            v@.contains(x),
            forall|k: int| 0 <= k < i ==> v@[k] != x,
        decreases n - i,
    {
        if v[i] == x {
            let ghost s0 = v@;
            v.remove(i);
            proof {
                s0.remove_ensures(i as int);
                assert forall|a: int, b: int| 0 <= a < b < v@.len() implies v@[a] != v@[b] by {
                    if b < i {
                        assert(v@[a] == s0[a]);
                        assert(v@[b] == s0[b]);
                    } else if a < i {
                        assert(v@[a] == s0[a]);
                        assert(v@[b] == s0[b + 1]);
                    } else {
                        assert(v@[a] == s0[a + 1]);
                        assert(v@[b] == s0[b + 1]);
                    }
                }
                assert forall|y: u32| #[trigger] v@.to_set().contains(y) implies s0.to_set().remove(
                    x,
                ).contains(y) by {
                    let k = choose|k: int| 0 <= k < v@.len() && v@[k] == y;
                    if k < i {
                        assert(s0[k] == y);
                        assert(s0[k] != x);
                    } else {
                        assert(s0[k + 1] == y);
                        assert(s0[k + 1] != s0[i as int]);
                    }
                    assert(y != x);
                }
                assert forall|y: u32| #[trigger]
                    s0.to_set().remove(x).contains(y) implies v@.to_set().contains(y) by {
                    let k = choose|k: int| 0 <= k < s0.len() && s0[k] == y;
                    if k < i {
                        assert(v@[k] == y);
                    } else {
                        assert(k != i);
                        assert(v@[k - 1] == y);
                    }
                }
                assert(v@.to_set() =~= s0.to_set().remove(x));
            }
            return;
        }
        i += 1;
    }
    proof {
        let k = choose|k: int| 0 <= k < v@.len() && v@[k] == x;
        assert(false);
    }
}

/// Copies the current path so it can be kept as the best one found.
fn clone_path(v: &Vec<u32>) -> (r: Vec<u32>)
    ensures
        r@ == v@,
{
    let n = v.len();
    let mut r: Vec<u32> = Vec::new();
    let mut i: usize = 0;
    while i < n
        invariant
            i <= n,
            n == v@.len(),
            r@ =~= v@.take(i as int),
        decreases n - i,
    {
        r.push(v[i]);
        i += 1;
    }
    proof {
        assert(r@ =~= v@);
    }
    r
}

// ---------------------------------------------------------------------------
// Stepping into a neighbour maps completions of the longer path onto
// completions of the shorter one.
// ---------------------------------------------------------------------------

/// A completion of `p` whose next move is the entry `(v, w)` is exactly a
/// completion of `p` extended by that move.
proof fn lemma_ext_step(
    m: GraphV,
    start: u32,
    p: Seq<u32>,
    ws0: Seq<u32>,
    vs: Set<u32>,
    v: u32,
    w: u32,
    q: Seq<u32>,
    ws: Seq<u32>,
)
    requires
        ws0.len() + 1 == p.len(),
        vs.finite(),
        vs.contains(v),
        ext_tour(m, start, p, ws0, vs, q, ws),
        q[p.len() as int] == v,
        ws[p.len() - 1] == w,
    ensures
        ext_tour(m, start, p.push(v), ws0.push(w), vs.remove(v), q, ws),
{
    let ghost gl = p.len() as int;
    assert(vs.remove(v).len() == vs.len() - 1);
    assert(q.take(gl + 1) =~= p.push(v)) by {
        assert(forall|k: int| 0 <= k < gl ==> q.take(gl)[k] == q[k]);
    }
    assert(ws.take(gl) =~= ws0.push(w)) by {
        assert(forall|k: int| 0 <= k < gl - 1 ==> ws.take(gl - 1)[k] == ws[k]);
    }
    let ghost s = q.skip(gl);
    let ghost s2 = q.skip(gl + 1);
    assert(s.drop_first() =~= s2);
    assert(s[0] == q[gl]);
    assert forall|y: u32| #[trigger] s2.to_set().contains(y) implies vs.remove(v).contains(y) by {
        let k = choose|k: int| 0 <= k < s2.len() && s2[k] == y;
        assert(s[k + 1] == y);
        assert(s.to_set().contains(y));
        assert(q[gl + 1 + k] == y);
        assert(q[gl] == v);
        assert(y != v);
    }
    assert forall|y: u32| #[trigger] vs.remove(v).contains(y) implies s2.to_set().contains(y) by {
        assert(vs.contains(y));
        assert(s.to_set().contains(y));
        assert(s.contains(y));
        let k = choose|k: int| 0 <= k < s.len() && s[k] == y;
        assert(q[gl + k] == y);
        assert(k != 0);
        assert(s2[k - 1] == y);
    }
    assert(s2.to_set() =~= vs.remove(v));
}

// ---------------------------------------------------------------------------
// The search state and the recursive descent.
// ---------------------------------------------------------------------------

/// The mutable state one search run threads through its recursion: the
/// not-yet-visited vertices, the path built so far, the best tour found so
/// far, and diagnostic counters.
pub struct SearchState {
    pub visited: Vec<u32>,
    pub path: Vec<u32>,
    pub best_weight: u32,
    pub best_path: Option<Vec<u32>>,
    pub iterations: u32,
    pub instruction_count: u32,
    pub incomplete_branches: u32,
}

/// One step of the depth-first branch-and-bound: explores every completion
/// of the current path and lowers the best-so-far weight to the cheapest
/// total among them, pruning branches that already weigh as much as the
/// best tour known.
///
/// The backtracking discipline is part of the contract: the path comes back
/// exactly as it was, and the visited list holds exactly the same vertices.
#[verifier::loop_isolation(false)]
fn branch_and_bound(
    g: &UndirectedPerformantGraph,
    starting_vertex: u32,
    curr_vertex: u32,
    curr_weight: u32,
    st: &mut SearchState,
    ws0: Ghost<Seq<u32>>,
)
    requires
        g@.wf(),
        old(st).path@.len() >= 1,
        old(st).path@[0] == starting_vertex,
        old(st).path@.last() == curr_vertex,
        old(st).path@.no_duplicates(),
        old(st).visited@.no_duplicates(),
        forall|k: int|
            0 <= k < old(st).visited@.len() ==> !old(st).path@.contains(
                #[trigger] old(st).visited@[k],
            ),
        old(st).path@.to_set().union(old(st).visited@.to_set()) == g@.id_set(),
        path_ok(g@, old(st).path@, ws0@),
        sum_ws(ws0@) == curr_weight,
        curr_weight < old(st).best_weight,
        best_inv(g@, starting_vertex, old(st).best_weight, old(st).best_path),
    ensures
        final(st).path@ == old(st).path@,
        final(st).visited@.to_set() == old(st).visited@.to_set(),
        final(st).visited@.no_duplicates(),
        final(st).visited@.len() == old(st).visited@.len(),
        final(st).best_weight <= old(st).best_weight,
        best_inv(g@, starting_vertex, final(st).best_weight, final(st).best_path),
        forall|q: Seq<u32>, ws: Seq<u32>|
            #[trigger] ext_tour(g@, starting_vertex, old(st).path@, ws0@, old(
                st,
            ).visited@.to_set(), q, ws) ==> final(st).best_weight as int <= tour_total(
                g@,
                q,
                ws,
                starting_vertex,
            ),
    decreases old(st).visited@.len(),
{
    let ghost m = g@;
    let ghost p0 = st.path@;
    let ghost vs = st.visited@.to_set();
    let ghost b0 = st.best_weight;

    if st.iterations < u32::MAX {
        st.iterations = st.iterations + 1;
    }
    if st.instruction_count < u32::MAX {
        st.instruction_count = st.instruction_count + 1;
    }

    if st.visited.len() == 0 {
        proof {
            assert(vs =~= Set::<u32>::empty());
        }
        // Every vertex is placed: try to close the cycle back to the start.
        let neighbours = match g.get_neighbors(curr_vertex) {
            Some(n) => n,
            None => {
                // The final vertex has no recorded adjacency: the graph is
                // incomplete along this branch; abandon it.
                if st.instruction_count < u32::MAX {
                    st.instruction_count = st.instruction_count + 1;
                }
                if st.incomplete_branches < u32::MAX {
                    st.incomplete_branches = st.incomplete_branches + 1;
                }
                proof {
                    assert(m.nlist(curr_vertex) =~= Seq::<(u32, u32)>::empty());
                    assert forall|q: Seq<u32>, ws: Seq<u32>|
                        #[trigger] ext_tour(m, starting_vertex, p0, ws0@, vs, q, ws) implies st
                        .best_weight as int <= tour_total(m, q, ws, starting_vertex) by {
                        assert(q.take(p0.len() as int) =~= q);
                        assert(q =~= p0);
                        assert(false);
                    }
                }
                return ;
            },
        };
        if st.instruction_count < u32::MAX {
            st.instruction_count = st.instruction_count + 1;
        }
        // Scan the neighbour list for the first edge back to the start.
        let n = neighbours.len();
        let mut j: usize = 0;
        while j < n
            invariant
                j <= n,
                n == neighbours@.len(),
                st.path@ == p0,
                st.visited@ == old(st).visited@,
                st.best_weight == b0,
                st.best_path == old(st).best_path,
                forall|k: int| 0 <= k < j ==> (#[trigger] neighbours@[k]).0 != starting_vertex,
            decreases n - j,
        {
            if neighbours[j].0 == starting_vertex {
                let cw = neighbours[j].1;
                if st.instruction_count < u32::MAX {
                    st.instruction_count = st.instruction_count + 1;
                }
                proof {
                    lemma_edge_l_found(neighbours@, starting_vertex, j as int);
                    assert(m.closes(curr_vertex, starting_vertex));
                    assert(m.close_w(curr_vertex, starting_vertex) == cw as int);
                }
                let total: u64 = curr_weight as u64 + cw as u64;
                if total < st.best_weight as u64 {
                    let snapshot = clone_path(&st.path);
                    st.best_weight = total as u32;
                    st.best_path = Some(snapshot);
                    proof {
                        p0.unique_seq_to_set();
                        assert(p0.to_set().union(vs) =~= p0.to_set());
                        assert(p0.to_set() =~= m.id_set());
                        assert(is_ham_tour(m, starting_vertex, p0, ws0@));
                        assert(tour_total(m, p0, ws0@, starting_vertex) == total as int);
                        assert(total <= u32::MAX as u64);
                        assert(st.best_weight as int == total as int);
                        let p_new = st.best_path.unwrap();
                        assert(p_new@ == p0);
                        assert(is_ham_tour(m, starting_vertex, p_new@, ws0@));
                        assert(tour_total(m, p_new@, ws0@, starting_vertex) == st.best_weight);
                    }
                }
                proof {
                    assert forall|q: Seq<u32>, ws: Seq<u32>|
                        #[trigger] ext_tour(m, starting_vertex, p0, ws0@, vs, q, ws) implies st
                        .best_weight as int <= tour_total(m, q, ws, starting_vertex) by {
                        assert(q.take(p0.len() as int) =~= q);
                        assert(q =~= p0);
                        assert(ws.take(p0.len() - 1) =~= ws);
                        assert(ws =~= ws0@);
                        assert(tour_total(m, q, ws, starting_vertex) == total as int);
                    }
                }
                return ;
            }
            j += 1;
        }
        // No edge back to the start: this branch yields no tour.
        if st.instruction_count < u32::MAX {
            st.instruction_count = st.instruction_count + 1;
        }
        proof {
            lemma_edge_l_none(neighbours@, starting_vertex);
            assert forall|q: Seq<u32>, ws: Seq<u32>|
                #[trigger] ext_tour(m, starting_vertex, p0, ws0@, vs, q, ws) implies st.best_weight
                as int <= tour_total(m, q, ws, starting_vertex) by {
                assert(q.take(p0.len() as int) =~= q);
                assert(q =~= p0);
                assert(false);
            }
        }
        return ;
    }

    // Some vertices remain: walk the current vertex's neighbour list.
    let neighbours = match g.get_neighbors(curr_vertex) {
        Some(n) => n,
        None => {
            // No recorded adjacency here: the graph is incomplete along this
            // branch; abandon it.
            if st.instruction_count < u32::MAX {
                st.instruction_count = st.instruction_count + 1;
            }
            if st.incomplete_branches < u32::MAX {
                st.incomplete_branches = st.incomplete_branches + 1;
            }
            proof {
                st.visited@.unique_seq_to_set();
                assert(m.nlist(curr_vertex) =~= Seq::<(u32, u32)>::empty());
                assert forall|q: Seq<u32>, ws: Seq<u32>|
                    #[trigger] ext_tour(m, starting_vertex, p0, ws0@, vs, q, ws) implies st
                    .best_weight as int <= tour_total(m, q, ws, starting_vertex) by {
                    assert(q.len() > p0.len());
                    assert(q[p0.len() - 1] == p0[p0.len() - 1]);
                    assert(m.is_step(q[p0.len() - 1], q[p0.len() - 1 + 1], ws[p0.len() - 1]));
                    assert(false);
                }
            }
            return ;
        },
    };
    if st.instruction_count < u32::MAX {
        st.instruction_count = st.instruction_count + 1;
    }
    proof {
        st.visited@.unique_seq_to_set();
    }
    let ghost visited_len = st.visited@.len();
    let n = neighbours.len();
    let mut i: usize = 0;
    while i < n
        invariant
            i <= n,
            n == neighbours@.len(),
            st.path@ == p0,
            st.visited@.to_set() == vs,
            st.visited@.no_duplicates(),
            st.visited@.len() == visited_len,
            st.best_weight <= b0,
            best_inv(m, starting_vertex, st.best_weight, st.best_path),
            forall|q: Seq<u32>, ws: Seq<u32>|
                #[trigger] ext_tour(m, starting_vertex, p0, ws0@, vs, q, ws) && entry_before(
                    neighbours@,
                    q[p0.len() as int],
                    ws[p0.len() - 1],
                    i as int,
                ) ==> st.best_weight as int <= tour_total(m, q, ws, starting_vertex),
        decreases n - i,
    {
        if st.instruction_count < u32::MAX {
            st.instruction_count = st.instruction_count + 1;
        }
        let ghost b_iter = st.best_weight;
        let next_vertex = neighbours[i].0;
        let weight = neighbours[i].1;
        let in_visited = vec_contains(&st.visited, next_vertex);
        let tentative: u64 = curr_weight as u64 + weight as u64;
        if in_visited && tentative < st.best_weight as u64 {
            let new_weight: u32 = tentative as u32;
            let ghost ws1 = ws0@.push(weight);
            remove_value(&mut st.visited, next_vertex);
            st.path.push(next_vertex);
            proof {
                // The extended path is a valid, duplicate-free walk.
                assert(!p0.contains(next_vertex)) by {
                    let k = choose|k: int|
                        0 <= k < old(st).visited@.len() && old(st).visited@[k] == next_vertex;
                    assert(vs.contains(next_vertex));
                }
                assert(st.path@.no_duplicates());
                assert forall|k: int|
                    0 <= k < st.visited@.len() implies !st.path@.contains(
                    #[trigger] st.visited@[k]) by {
                    let y = st.visited@[k];
                    assert(st.visited@.to_set().contains(y));
                    assert(vs.contains(y));
                    let k0 = choose|k0: int|
                        0 <= k0 < old(st).visited@.len() && old(st).visited@[k0] == y;
                    assert(!p0.contains(y));
                    assert(y != next_vertex);
                    assert forall|a: int| 0 <= a < st.path@.len() implies st.path@[a] != y by {
                        if a < p0.len() {
                            assert(st.path@[a] == p0[a]);
                        }
                    }
                }
                assert(st.path@.to_set().union(st.visited@.to_set()) =~= m.id_set()) by {
                    assert(st.path@.to_set() =~= p0.to_set().insert(next_vertex)) by {
                        assert forall|y: u32| #[trigger]
                            st.path@.to_set().contains(y) implies p0.to_set().insert(
                            next_vertex,
                        ).contains(y) by {
                            let k = choose|k: int| 0 <= k < st.path@.len() && st.path@[k] == y;
                            if k < p0.len() {
                                assert(p0[k] == y);
                            }
                        }
                        assert forall|y: u32| #[trigger]
                            p0.to_set().insert(next_vertex).contains(y) implies st
                            .path@.to_set().contains(y) by {
                            if p0.to_set().contains(y) {
                                let k = choose|k: int| 0 <= k < p0.len() && p0[k] == y;
                                assert(st.path@[k] == y);
                            } else {
                                assert(st.path@[p0.len() as int] == y);
                            }
                        }
                    }
                }
                // The extended annotation is a real walk of the graph.
                assert(path_ok(m, st.path@, ws1)) by {
                    assert(m.nlist(curr_vertex) == neighbours@);
                    assert(neighbours@.contains((next_vertex, weight))) by {
                        assert(neighbours@[i as int] == (next_vertex, weight));
                    }
                    assert(m.is_step(curr_vertex, next_vertex, weight));
                    assert forall|k: int| 0 <= k < ws1.len() implies #[trigger] m.is_step(
                        st.path@[k],
                        st.path@[k + 1],
                        ws1[k],
                    ) by {
                        if k < ws0@.len() {
                            assert(st.path@[k] == p0[k]);
                            assert(st.path@[k + 1] == p0[k + 1]);
                            assert(ws1[k] == ws0@[k]);
                            assert(m.is_step(p0[k], p0[k + 1], ws0@[k]));
                        } else {
                            assert(st.path@[k] == p0[p0.len() - 1]);
                            assert(st.path@[k + 1] == next_vertex);
                            assert(ws1[k] == weight);
                        }
                    }
                }
                assert(sum_ws(ws1) == new_weight as int) by {
                    assert(ws1.drop_last() =~= ws0@);
                    assert(ws1.last() == weight);
                }
            }
            branch_and_bound(g, starting_vertex, next_vertex, new_weight, st, Ghost(ws1));
            let ghost s1 = st.visited@;
            st.visited.push(next_vertex);
            let ghost s_before_pop = st.path@;
            let _ = st.path.pop();
            proof {
                // Backtracking: the path and the visited set are restored.
                assert(s_before_pop == p0.push(next_vertex));
                assert(st.path@ =~= p0);
                assert(st.visited@ == s1.push(next_vertex));
                assert(s1.to_set() == vs.remove(next_vertex));
                assert forall|y: u32| #[trigger]
                    st.visited@.to_set().contains(y) implies vs.contains(y) by {
                    let k = choose|k: int| 0 <= k < st.visited@.len() && st.visited@[k] == y;
                    if k < s1.len() {
                        assert(s1[k] == y);
                        assert(s1.to_set().contains(y));
                    }
                }
                assert forall|y: u32| #[trigger] vs.contains(y) implies st
                    .visited@.to_set().contains(y) by {
                    if y == next_vertex {
                        assert(st.visited@[s1.len() as int] == y);
                    } else {
                        assert(s1.to_set().contains(y));
                        let k = choose|k: int| 0 <= k < s1.len() && s1[k] == y;
                        assert(st.visited@[k] == y);
                    }
                }
                assert(st.visited@.to_set() =~= vs);
                assert(!s1.contains(next_vertex)) by {
                    if s1.contains(next_vertex) {
                        assert(s1.to_set().contains(next_vertex));
                    }
                }
                assert forall|a: int, b: int|
                    0 <= a < b < st.visited@.len() implies st.visited@[a] != st.visited@[b] by {
                    if b == s1.len() {
                        assert(st.visited@[a] == s1[a]);
                        assert(s1.contains(s1[a]));
                    }
                }
                // Every completion through this entry is now accounted for.
                assert forall|q: Seq<u32>, ws: Seq<u32>|
                    #[trigger] ext_tour(m, starting_vertex, p0, ws0@, vs, q, ws) && entry_before(
                        neighbours@,
                        q[p0.len() as int],
                        ws[p0.len() - 1],
                        (i + 1) as int,
                    ) implies st.best_weight as int <= tour_total(m, q, ws, starting_vertex) by {
                    let j2 = choose|j2: int|
                        0 <= j2 < i + 1 && #[trigger] neighbours@[j2] == (
                        q[p0.len() as int],
                        ws[p0.len() - 1],
                        );
                    if j2 < i {
                        assert(entry_before(
                            neighbours@,
                            q[p0.len() as int],
                            ws[p0.len() - 1],
                            i as int,
                        ));
                    } else {
                        assert(neighbours@[i as int] == (next_vertex, weight));
                        assert(q[p0.len() as int] == next_vertex);
                        assert(ws[p0.len() - 1] == weight);
                        lemma_ext_step(
                            m,
                            starting_vertex,
                            p0,
                            ws0@,
                            vs,
                            next_vertex,
                            weight,
                            q,
                            ws,
                        );
                    }
                }
            }
        } else {
            proof {
                assert forall|q: Seq<u32>, ws: Seq<u32>|
                    #[trigger] ext_tour(m, starting_vertex, p0, ws0@, vs, q, ws) && entry_before(
                        neighbours@,
                        q[p0.len() as int],
                        ws[p0.len() - 1],
                        (i + 1) as int,
                    ) implies st.best_weight as int <= tour_total(m, q, ws, starting_vertex) by {
                    let j2 = choose|j2: int|
                        0 <= j2 < i + 1 && #[trigger] neighbours@[j2] == (
                        q[p0.len() as int],
                        ws[p0.len() - 1],
                        );
                    if j2 < i {
                        assert(entry_before(
                            neighbours@,
                            q[p0.len() as int],
                            ws[p0.len() - 1],
                            i as int,
                        ));
                    } else {
                        assert(neighbours@[i as int] == (next_vertex, weight));
                        assert(q[p0.len() as int] == next_vertex);
                        assert(ws[p0.len() - 1] == weight);
                        let s = q.skip(p0.len() as int);
                        assert(s[0] == next_vertex);
                        assert(s.to_set().contains(next_vertex));
                        assert(vs.contains(next_vertex));
                        if !in_visited {
                            assert(false);
                        } else {
                            // Pruned: this completion already weighs at least
                            // the best total known.
                            lemma_sum_ws_prefix(ws, p0.len() as int);
                            lemma_sum_ws_take_succ(ws, p0.len() - 1);
                            assert(ws.take(p0.len() - 1) == ws0@);
                            assert(sum_ws(ws.take(p0.len() as int)) == curr_weight + weight);
                            lemma_edge_w_l_nonneg(m.nlist(q.last()), starting_vertex);
                            assert(tour_total(m, q, ws, starting_vertex) >= curr_weight + weight);
                        }
                    }
                }
            }
        }
        i += 1;
    }
    proof {
        // Every completion leaves the current vertex through some entry of
        // its neighbour list, so all of them are accounted for.
        assert forall|q: Seq<u32>, ws: Seq<u32>|
            #[trigger] ext_tour(m, starting_vertex, p0, ws0@, vs, q, ws) implies st.best_weight
            as int <= tour_total(m, q, ws, starting_vertex) by {
            assert(q.len() > p0.len());
            assert(q[p0.len() - 1] == p0[p0.len() - 1]);
            assert(m.is_step(q[p0.len() - 1], q[p0.len() - 1 + 1], ws[p0.len() - 1]));
            assert(m.nlist(curr_vertex) == neighbours@);
            assert(neighbours@.contains((q[p0.len() as int], ws[p0.len() - 1])));
            let j2 = choose|j2: int|
                0 <= j2 < neighbours@.len() && neighbours@[j2] == (
                q[p0.len() as int],
                ws[p0.len() - 1],
                );
            assert(entry_before(neighbours@, q[p0.len() as int], ws[p0.len() - 1], n as int));
        }
    }
}

// ---------------------------------------------------------------------------
// Building a graph from a plain description.
// ---------------------------------------------------------------------------

/// The model after inserting every node, numbering them from `idx` on. The
/// node's identifier string becomes the vertex's label.
pub open spec fn build_vertices(m: GraphV, nodes: Seq<crate::graph_defs::NodeV>, idx: int) -> GraphV
    decreases nodes.len(),
{
    if nodes.len() == 0 {
        m
    } else {
        build_vertices(m.add_vertex_m(idx as u32, nodes[0].id), nodes.drop_first(), idx + 1)
    }
}

/// The model after recording every edge, in order.
pub open spec fn build_edges(m: GraphV, edges: Seq<crate::graph_defs::EdgeV>) -> GraphV
    decreases edges.len(),
{
    if edges.len() == 0 {
        m
    } else {
        build_edges(m.add_edge_m(edges[0].from, edges[0].to, edges[0].weight), edges.drop_first())
    }
}

/// The graph model a description builds: all nodes, then all edges, then the
/// designated start vertex.
pub open spec fn build_model(d: GraphDescV) -> GraphV {
    build_edges(build_vertices(GraphV::empty(), d.nodes, 1), d.edges).set_key_m(d.starting_node)
}

/// Turns a plain graph description into the adjacency-list graph the search
/// runs on, numbering vertices from 1 in description order.
#[verifier::loop_isolation(false)]
pub fn create_undirected_performant_graph(json_graph: Graph) -> (up: UndirectedPerformantGraph)
    requires
        json_graph.nodes@.len() < u32::MAX,
    ensures
        up@ == build_model(json_graph@),
        up@.wf(),
{
    let ghost d = json_graph@;
    let mut up_graph = UndirectedPerformantGraph::new();
    let mut idx: u32 = 1;

    let n = json_graph.nodes.len();
    let mut i: usize = 0;
    proof {
        assert(d.nodes.skip(0) =~= d.nodes);
    }
    while i < n
        invariant
            i <= n,
            idx as int == 1 + i,
            up_graph@.wf(),
            build_vertices(up_graph@, d.nodes.skip(i as int), idx as int) == build_vertices(
                GraphV::empty(),
                d.nodes,
                1,
            ),
        decreases n - i,
    {
        proof {
            assert(d.nodes.skip(i as int)[0] == d.nodes[i as int]);
            assert(d.nodes.skip(i as int).drop_first() =~= d.nodes.skip(i + 1));
        }
        let node_id = json_graph.nodes[i].id.clone();
        let _ = up_graph.add_vertex(idx, node_id);
        idx += 1;
        i += 1;
    }
    proof {
        assert(d.nodes.skip(n as int) =~= Seq::<crate::graph_defs::NodeV>::empty());
        assert(up_graph@ == build_vertices(GraphV::empty(), d.nodes, 1));
    }

    let ghost mv = build_vertices(GraphV::empty(), d.nodes, 1);
    let ne = json_graph.edges.len();
    let mut j: usize = 0;
    proof {
        assert(d.edges.skip(0) =~= d.edges);
    }
    while j < ne
        invariant
            j <= ne,
            up_graph@.wf(),
            build_edges(up_graph@, d.edges.skip(j as int)) == build_edges(mv, d.edges),
        decreases ne - j,
    {
        proof {
            assert(d.edges.skip(j as int)[0] == d.edges[j as int]);
            assert(d.edges.skip(j as int).drop_first() =~= d.edges.skip(j + 1));
        }
        let from = json_graph.edges[j].from.clone();
        let to = json_graph.edges[j].to.clone();
        let _ = up_graph.add_edge(from, to, json_graph.edges[j].weight);
        j += 1;
    }
    proof {
        assert(d.edges.skip(ne as int) =~= Seq::<crate::graph_defs::EdgeV>::empty());
        assert(up_graph@ == build_edges(mv, d.edges));
    }

    let _ = up_graph.set_key_vertex(json_graph.starting_node.clone());
    proof {
        assert(up_graph@ == build_model(d));
    }
    up_graph
}

// ---------------------------------------------------------------------------
// The whole search, start to finish.
// ---------------------------------------------------------------------------

/// Why a search ended without a tour.
#[derive(Clone, Copy, Debug, PartialEq, Eq, Structural)]
pub enum TspError {
    /// No start vertex was successfully designated.
    NoStartVertex,
    /// The graph holds no vertices at all.
    EmptyGraph,
    /// Every branch was exhausted without closing a cycle back to the start.
    NoSolution,
}

/// A successful search: the optimal closed tour (the start vertex repeated
/// at the end), the same tour as labels, and its total weight.
pub struct TspSolution {
    pub path: Vec<u32>,
    pub labels: Vec<String>,
    pub total_weight: u32,
}

/// Everything one search run reports: the result, and the diagnostic
/// counters the search kept (total recursive calls, finer-grained decision
/// points, and branches abandoned for want of recorded adjacency).
pub struct SearchOutcome {
    pub result: Result<TspSolution, TspError>,
    pub iterations: u32,
    pub instruction_count: u32,
    pub incomplete_branches: u32,
}

/// Runs the exhaustive branch-and-bound on a built graph and reports the
/// minimum-weight Hamiltonian cycle through the designated start vertex, or
/// the precise reason none was produced.
#[verifier::loop_isolation(false)]
pub fn search_optimal_tour(up_graph: &UndirectedPerformantGraph) -> (out: SearchOutcome)
    requires
        up_graph@.wf(),
    ensures
        ({
            let m = up_graph@;
            match out.result {
                Ok(sol) => {
                    &&& m.key != 0
                    &&& m.labels.len() > 0
                    &&& sol.total_weight < u32::MAX
                    &&& is_best_weight(m, m.key, sol.total_weight)
                    &&& sol.path@.len() >= 2
                    &&& sol.path@.last() == m.key
                    &&& exists|ws: Seq<u32>|
                        #[trigger] is_ham_tour(m, m.key, sol.path@.drop_last(), ws) && tour_total(
                            m,
                            sol.path@.drop_last(),
                            ws,
                            m.key,
                        ) == sol.total_weight
                    &&& sol.labels@.len() == sol.path@.len()
                    &&& forall|k: int|
                        0 <= k < sol.path@.len() ==> m.label_opt(sol.path@[k]) == Some(
                            (#[trigger] sol.labels@[k])@,
                        )
                },
                Err(TspError::NoStartVertex) => m.key == 0,
                Err(TspError::EmptyGraph) => m.key != 0 && m.labels.len() == 0,
                Err(TspError::NoSolution) => m.key != 0 && m.labels.len() > 0 && is_best_weight(
                    m,
                    m.key,
                    u32::MAX,
                ),
            }
        }),
{
    let ghost m = up_graph@;
    let starting_vertex = match up_graph.get_key_vertex() {
        Some(v) => v,
        None => {
            return SearchOutcome {
                result: Err(TspError::NoStartVertex),
                iterations: 0,
                instruction_count: 0,
                incomplete_branches: 0,
            };
        },
    };
    let vertices = match up_graph.get_vertices() {
        Some(v) => v,
        None => {
            return SearchOutcome {
                result: Err(TspError::EmptyGraph),
                iterations: 0,
                instruction_count: 0,
                incomplete_branches: 0,
            };
        },
    };
    let mut visited_vertices: Vec<u32> = vertices;
    proof {
        // The identifier sequence is duplicate-free and holds the start.
        assert forall|a: int, b: int|
            0 <= a < b < m.ids().len() implies m.ids()[a] != m.ids()[b] by {
            assert(m.ids()[a] == m.labels[a].0);
            assert(m.ids()[b] == m.labels[b].0);
        }
        let ki = choose|ki: int| 0 <= ki < m.labels.len() && #[trigger] m.labels[ki].0 == m.key;
        assert(m.ids()[ki] == m.key);
        assert(visited_vertices@.contains(starting_vertex));
    }
    remove_value(&mut visited_vertices, starting_vertex);
    let ghost vs0 = visited_vertices@.to_set();

    let mut st = SearchState {
        visited: visited_vertices,
        path: Vec::new(),
        best_weight: u32::MAX,
        best_path: None,
        iterations: 0,
        instruction_count: 0,
        incomplete_branches: 0,
    };
    st.path.push(starting_vertex);
    let ghost p_init = st.path@;
    proof {
        assert(p_init.len() == 1);
        assert(p_init[0] == starting_vertex);
        assert(path_ok(m, p_init, Seq::<u32>::empty()));
        assert(sum_ws(Seq::<u32>::empty()) == 0);
        assert forall|k: int|
            0 <= k < st.visited@.len() implies !p_init.contains(#[trigger] st.visited@[k]) by {
            let y = st.visited@[k];
            assert(st.visited@.to_set().contains(y));
            assert(y != starting_vertex);
        }
        assert(p_init.to_set().union(st.visited@.to_set()) =~= m.id_set()) by {
            assert(p_init.contains(starting_vertex));
            assert(m.id_set().contains(starting_vertex));
            assert forall|y: u32| #[trigger] p_init.to_set().contains(y) implies m.id_set().contains(
                y,
            ) by {
                assert(y == starting_vertex);
            }
        }
    }
    branch_and_bound(up_graph, starting_vertex, starting_vertex, 0, &mut st, Ghost(Seq::empty()));
    proof {
        // Every Hamiltonian tour is a completion of the one-vertex path, so
        // the search's bound covers them all.
        assert forall|q: Seq<u32>, ws: Seq<u32>|
            #[trigger] is_ham_tour(m, starting_vertex, q, ws) implies st.best_weight as int
            <= tour_total(m, q, ws, starting_vertex) by {
            assert(m.id_set().contains(starting_vertex));
            assert(vs0.len() == m.id_set().len() - 1);
            assert(q.take(1) =~= p_init);
            assert(ws.take(0) =~= Seq::<u32>::empty());
            let s2 = q.skip(1);
            assert forall|y: u32| #[trigger] s2.to_set().contains(y) implies vs0.contains(y) by {
                let k = choose|k: int| 0 <= k < s2.len() && s2[k] == y;
                assert(q[1 + k] == y);
                assert(q.to_set().contains(y));
                assert(q[0] == starting_vertex);
                assert(y != starting_vertex);
            }
            assert forall|y: u32| #[trigger] vs0.contains(y) implies s2.to_set().contains(y) by {
                assert(q.to_set().contains(y));
                let k = choose|k: int| 0 <= k < q.len() && q[k] == y;
                assert(k != 0);
                assert(s2[k - 1] == y);
            }
            assert(s2.to_set() =~= vs0);
            assert(ext_tour(m, starting_vertex, p_init, Seq::<u32>::empty(), vs0, q, ws));
        }
    }

    match st.best_path {
        Some(mut path) => {
            let ghost p_best = path@;
            path.push(starting_vertex);
            proof {
                assert(path@.drop_last() =~= p_best);
                let wsb = choose|wsb: Seq<u32>|
                    #[trigger] is_ham_tour(m, starting_vertex, p_best, wsb) && tour_total(
                        m,
                        p_best,
                        wsb,
                        starting_vertex,
                    ) == st.best_weight;
                assert(is_ham_tour(m, starting_vertex, path@.drop_last(), wsb));
            }
            let np = path.len();
            let mut tour_labels: Vec<String> = Vec::new();
            let mut k: usize = 0;
            while k < np
                invariant
                    k <= np,
                    tour_labels@.len() == k,
                    forall|t: int|
                        0 <= t < k ==> m.label_opt(path@[t]) == Some(
                            (#[trigger] tour_labels@[t])@,
                        ),
                decreases np - k,
            {
                proof {
                    // Every vertex on the tour exists, so it has a label.
                    if k < np - 1 {
                        assert(path@.drop_last()[k as int] == path@[k as int]);
                        assert(path@.drop_last().to_set().contains(path@[k as int]));
                        assert(m.id_set().contains(path@[k as int]));
                    } else {
                        assert(path@[k as int] == starting_vertex);
                        assert(m.has_id(starting_vertex));
                    }
                    if !m.has_id(path@[k as int]) {
                        let yk = choose|yk: int|
                            0 <= yk < m.ids().len() && m.ids()[yk] == path@[k as int];
                        assert(m.labels[yk].0 == path@[k as int]);
                    }
                    lemma_find_label_in_exists(m.labels, path@[k as int]);
                }
                match up_graph.get_label(path[k]) {
                    Some(s) => {
                        tour_labels.push(s);
                    },
                    None => {
                        proof {
                            assert(false);
                        }
                    },
                }
                k += 1;
            }
            SearchOutcome {
                result: Ok(
                    TspSolution { path, labels: tour_labels, total_weight: st.best_weight },
                ),
                iterations: st.iterations,
                instruction_count: st.instruction_count,
                incomplete_branches: st.incomplete_branches,
            }
        },
        None => {
            SearchOutcome {
                result: Err(TspError::NoSolution),
                iterations: st.iterations,
                instruction_count: st.instruction_count,
                incomplete_branches: st.incomplete_branches,
            }
        },
    }
}

/// Builds the graph a description describes and searches it for the optimal
/// tour: the whole solving pipeline from plain input to reported result.
pub fn solve_tsp(graph: Graph) -> (out: SearchOutcome)
    requires
        graph.nodes@.len() < u32::MAX,
    ensures
        ({
            let m = build_model(graph@);
            match out.result {
                Ok(sol) => {
                    &&& m.key != 0
                    &&& m.labels.len() > 0
                    &&& sol.total_weight < u32::MAX
                    &&& is_best_weight(m, m.key, sol.total_weight)
                    &&& sol.path@.len() >= 2
                    &&& sol.path@.last() == m.key
                    &&& exists|ws: Seq<u32>|
                        #[trigger] is_ham_tour(m, m.key, sol.path@.drop_last(), ws) && tour_total(
                            m,
                            sol.path@.drop_last(),
                            ws,
                            m.key,
                        ) == sol.total_weight
                    &&& sol.labels@.len() == sol.path@.len()
                    &&& forall|k: int|
                        0 <= k < sol.path@.len() ==> m.label_opt(sol.path@[k]) == Some(
                            (#[trigger] sol.labels@[k])@,
                        )
                },
                Err(TspError::NoStartVertex) => m.key == 0,
                Err(TspError::EmptyGraph) => m.key != 0 && m.labels.len() == 0,
                Err(TspError::NoSolution) => m.key != 0 && m.labels.len() > 0 && is_best_weight(
                    m,
                    m.key,
                    u32::MAX,
                ),
            }
        }),
{
    let up_graph = create_undirected_performant_graph(graph);
    search_optimal_tour(&up_graph)
}

// ---------------------------------------------------------------------------
// Laws of the reported weight.
// ---------------------------------------------------------------------------

/// `v`'s neighbour list mentions `start` at most once, so "the edge back to
/// `start`" from `v` is unambiguous.
pub open spec fn at_most_one_edge_to(m: GraphV, v: u32, start: u32) -> bool {
    forall|a: int, b: int|
        0 <= a < b < m.nlist(v).len() ==> !((#[trigger] m.nlist(v)[a]).0 == start && (
        #[trigger] m.nlist(v)[b]).0 == start)
}

/// The weight the search reports is a lower bound on the total weight of
/// every Hamiltonian cycle through the start vertex, whichever recorded edge
/// closes it — so it is the true minimum over all such cycles, since
/// `is_best_weight` also says the reported weight is attained. The one
/// hypothesis: the cycle's final vertex carries at most one edge back to the
/// start, for with parallel closing edges the search commits to the
/// first-inserted one and can miss a cheaper parallel duplicate.
pub proof fn lemma_minimum_over_all_cycles(
    m: GraphV,
    start: u32,
    b: u32,
    q: Seq<u32>,
    ws: Seq<u32>,
    wc: u32,
)
    requires
        at_most_one_edge_to(m, q.last(), start),
        is_best_weight(m, start, b),
        q.len() == m.id_set().len(),
        q.len() >= 1,
        q[0] == start,
        q.no_duplicates(),
        q.to_set() == m.id_set(),
        path_ok(m, q, ws),
        m.is_step(q.last(), start, wc),
    ensures
        b as int <= sum_ws(ws) + wc,
{
    let v = q.last();
    let l = m.nlist(v);
    assert(l.contains((start, wc)));
    let j = choose|j: int| 0 <= j < l.len() && l[j] == (start, wc);
    assert forall|k: int| 0 <= k < j implies (#[trigger] l[k]).0 != start by {
        assert(l[j].0 == start);
    }
    lemma_edge_l_found(l, start, j);
    assert(m.closes(v, start));
    assert(m.close_w(v, start) == wc as int);
    assert(is_ham_tour(m, start, q, ws));
    assert(b as int <= tour_total(m, q, ws, start));
}

/// Re-running the search on an unchanged graph reports the same best weight
/// both times: the reported weight is uniquely determined by the graph and
/// its start vertex.
pub proof fn lemma_best_weight_unique(m: GraphV, start: u32, b1: u32, b2: u32)
    requires
        is_best_weight(m, start, b1),
        is_best_weight(m, start, b2),
    ensures
        b1 == b2,
{
    if b1 < b2 {
        let (q, ws) = choose|q: Seq<u32>, ws: Seq<u32>|
            #[trigger] is_ham_tour(m, start, q, ws) && tour_total(m, q, ws, start) == b1;
        assert(b2 as int <= tour_total(m, q, ws, start));
        assert(false);
    }
    if b2 < b1 {
        let (q, ws) = choose|q: Seq<u32>, ws: Seq<u32>|
            #[trigger] is_ham_tour(m, start, q, ws) && tour_total(m, q, ws, start) == b2;
        assert(b1 as int <= tour_total(m, q, ws, start));
        assert(false);
    }
}

} // verus!
