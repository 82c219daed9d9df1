//! Directed graphs over the indices of a list, as lists of targets.

use vstd::prelude::*;

verus! {

/// The targets of each node.
pub open spec fn targets_of(adj: Seq<Vec<usize>>) -> Seq<Seq<int>> {
    Seq::new(adj.len(), |i: int| Seq::new(adj[i]@.len(), |k: int| adj[i]@[k] as int))
}

/// Whether every target is an index of the graph.
pub open spec fn in_range(adj: Seq<Seq<int>>) -> bool {
    forall|i: int, k: int|
        0 <= i < adj.len() && 0 <= k < adj[i].len() ==> 0 <= #[trigger] adj[i][k] < adj.len()
}

/// Whether the nodes can be ranked so that every edge goes to a lower rank.
#[verifier::opaque]
pub open spec fn acyclic(adj: Seq<Seq<int>>) -> bool {
    exists|rank: spec_fn(int) -> nat| #[trigger] ranked(adj, rank)
}

pub open spec fn ranked(adj: Seq<Seq<int>>, rank: spec_fn(int) -> nat) -> bool {
    forall|i: int, k: int|
        0 <= i < adj.len() && 0 <= k < adj[i].len() ==> rank(#[trigger] adj[i][k]) < rank(
            i,
        )
}

// ---- walks ----
//
// A walk is written as the choices that make it: its first node, then at each
// node the position of the edge that it takes.
/// The node that a walk has reached after `i` edges.
pub open spec fn node_at(adj: Seq<Seq<int>>, walk: Seq<nat>, i: int) -> int
    decreases i,
{
    if i <= 0 {
        walk[0] as int
    } else {
        adj[node_at(adj, walk, i - 1)][walk[i] as int]
    }
}

/// Whether `nodes` are the nodes that a walk comes to, in order.
#[verifier::opaque]
pub open spec fn visits(adj: Seq<Seq<int>>, walk: Seq<nat>, nodes: Seq<usize>) -> bool {
    &&& nodes.len() == walk.len()
    &&& forall|i: int| 0 <= i < nodes.len() ==> (#[trigger] nodes[i]) == node_at(adj, walk, i)
}

/// Whether each choice of a walk exists.
pub open spec fn is_walk(adj: Seq<Seq<int>>, walk: Seq<nat>) -> bool {
    &&& walk.len() > 0
    &&& walk[0] < adj.len()
    &&& forall|i: int|
        1 <= i < walk.len() ==> (#[trigger] walk[i]) < adj[node_at(adj, walk, i - 1)].len()
}

/// Whether a walk comes back, with its last edge and not before, to a node that
/// it has been at.
pub open spec fn closes(adj: Seq<Seq<int>>, walk: Seq<nat>) -> bool {
    &&& is_walk(adj, walk)
    &&& walk.len() >= 2
    &&& forall|i: int, j: int|
        0 <= i < j < walk.len() - 1 ==> #[trigger] node_at(adj, walk, i) != #[trigger] node_at(
            adj,
            walk,
            j,
        )
    &&& exists|i: int|
        0 <= i < walk.len() - 1 && #[trigger] node_at(adj, walk, i) == node_at(
            adj,
            walk,
            walk.len() - 1,
        )
}

/// Whether a depth-first search tries `a` before `b`: where they part, `a`
/// takes the earlier choice.
pub open spec fn tried_before(a: Seq<nat>, b: Seq<nat>) -> bool {
    exists|k: int|
        0 <= k < a.len() && k < b.len() && a.take(k) == b.take(k) && #[trigger] a[k] < b[k]
}

/// The first closing walk that a depth-first search meets.
#[verifier::opaque]
pub open spec fn first_closing(adj: Seq<Seq<int>>, walk: Seq<nat>) -> bool {
    &&& closes(adj, walk)
    &&& forall|other: Seq<nat>| #[trigger]
        closes(adj, other) ==> !tried_before(other, walk)
}

proof fn lemma_same_prefix(adj: Seq<Seq<int>>, a: Seq<nat>, b: Seq<nat>, k: int, i: int)
    requires
        0 <= i < k <= a.len(),
        k <= b.len(),
        a.take(k) == b.take(k),
    ensures
        node_at(adj, a, i) == node_at(adj, b, i),
    decreases i,
{
    assert(a.take(k)[i] == a[i] && b.take(k)[i] == b[i]);
    assert(a.take(k)[0] == a[0] && b.take(k)[0] == b[0]);
    if i > 0 {
        lemma_same_prefix(adj, a, b, k, i - 1);
    }
}

proof fn lemma_walk_in_range(adj: Seq<Seq<int>>, walk: Seq<nat>, i: int)
    requires
        in_range(adj),
        is_walk(adj, walk),
        0 <= i < walk.len(),
    ensures
        0 <= node_at(adj, walk, i) < adj.len(),
    decreases i,
{
    if i > 0 {
        lemma_walk_in_range(adj, walk, i - 1);
        assert(walk[i] < adj[node_at(adj, walk, i - 1)].len());
        assert(adj[node_at(adj, walk, i - 1)][walk[i] as int] < adj.len());
    }
}

proof fn lemma_rank_falls(
    adj: Seq<Seq<int>>,
    walk: Seq<nat>,
    rank: spec_fn(int) -> nat,
    i: int,
    j: int,
)
    requires
        in_range(adj),
        is_walk(adj, walk),
        ranked(adj, rank),
        0 <= i < j < walk.len(),
    ensures
        rank(node_at(adj, walk, j)) < rank(node_at(adj, walk, i)),
    decreases j,
{
    lemma_walk_in_range(adj, walk, j - 1);
    let from = node_at(adj, walk, j - 1);
    assert(walk[j] < adj[from].len());
    assert(rank(adj[from][walk[j] as int]) < rank(from));
    if i < j - 1 {
        lemma_rank_falls(adj, walk, rank, i, j - 1);
    }
}

/// A graph that can be ranked has no closing walk.
pub proof fn law_acyclic_never_closes(adj: Seq<Seq<int>>, walk: Seq<nat>)
    requires
        in_range(adj),
        acyclic(adj),
    ensures
        !closes(adj, walk),
{
    reveal(acyclic);
    if closes(adj, walk) {
        let rank = choose|rank: spec_fn(int) -> nat| #[trigger] ranked(adj, rank);
        let last = walk.len() - 1;
        let i = choose|i: int|
            0 <= i < last && #[trigger] node_at(adj, walk, i) == node_at(adj, walk, last);
        lemma_rank_falls(adj, walk, rank, i, last);
    }
}

/// The nodes of a first closing walk are nodes of the graph, which then cannot
/// be ranked.
pub proof fn law_first_closing_is_a_cycle(adj: Seq<Seq<int>>, walk: Seq<nat>, nodes: Seq<usize>)
    requires
        in_range(adj),
        first_closing(adj, walk),
        visits(adj, walk, nodes),
    ensures
        !acyclic(adj),
        forall|i: int| 0 <= i < nodes.len() ==> (#[trigger] nodes[i]) < adj.len(),
{
    reveal(first_closing);
    reveal(visits);
    if acyclic(adj) {
        law_acyclic_never_closes(adj, walk);
    }
    assert forall|i: int| 0 <= i < nodes.len() implies (#[trigger] nodes[i]) < adj.len() by {
        lemma_walk_in_range(adj, walk, i);
    }
}

/// There is only one first closing walk.
pub proof fn law_first_closing_is_unique(adj: Seq<Seq<int>>, a: Seq<nat>, b: Seq<nat>)
    requires
        first_closing(adj, a),
        first_closing(adj, b),
    ensures
        a == b,
{
    reveal(first_closing);
    assert(a.take(0) =~= b.take(0));
    lemma_part_or_prefix(a, b, 0);
    if a.len() < b.len() && b.take(a.len() as int) == a {
        lemma_closing_prefix(adj, a, b);
    } else if b.len() < a.len() && a.take(b.len() as int) == b {
        lemma_closing_prefix(adj, b, a);
    }
}

proof fn lemma_part_or_prefix(a: Seq<nat>, b: Seq<nat>, k: int)
    requires
        0 <= k <= a.len(),
        k <= b.len(),
        a.take(k) == b.take(k),
    ensures
        a == b || (a.len() < b.len() && b.take(a.len() as int) == a) || (b.len() < a.len()
            && a.take(b.len() as int) == b) || tried_before(a, b) || tried_before(b, a),
    decreases a.len() - k,
{
    assert(a.take(k) == b.take(k));
    if k == a.len() || k == b.len() {
        assert(a.take(a.len() as int) =~= a);
        assert(b.take(b.len() as int) =~= b);
    } else if a[k] < b[k] {
        assert(tried_before(a, b));
    } else if b[k] < a[k] {
        assert(tried_before(b, a));
    } else {
        assert(a.take(k + 1) =~= a.take(k).push(a[k]));
        assert(b.take(k + 1) =~= b.take(k).push(b[k]));
        lemma_part_or_prefix(a, b, k + 1);
    }
}

proof fn lemma_closing_prefix(adj: Seq<Seq<int>>, a: Seq<nat>, b: Seq<nat>)
    requires
        closes(adj, a),
        a.len() < b.len(),
        b.take(a.len() as int) == a,
    ensures
        !closes(adj, b),
{
    let last = a.len() - 1;
    let i = choose|i: int| 0 <= i < last && #[trigger] node_at(adj, a, i) == node_at(adj, a, last);
    assert(a.take(a.len() as int) =~= b.take(a.len() as int));
    lemma_same_prefix(adj, a, b, a.len() as int, i);
    lemma_same_prefix(adj, a, b, a.len() as int, last);
    assert(node_at(adj, b, i) == node_at(adj, b, last));
}

// ---- searching for a closing walk ----

/// What is left to do of nodes by their colour: two steps for an unvisited
/// node, one for a node on the path, none for a finished one.
spec fn work_left(color: Seq<u8>) -> nat
    decreases color.len(),
{
    if color.len() == 0 {
        0
    } else {
        work_left(color.drop_last()) + steps_left(color.last())
    }
}

spec fn steps_left(color: u8) -> nat {
    if color == 0 {
        2
    } else if color == 1 {
        1
    } else {
        0
    }
}

proof fn lemma_work_left_update(color: Seq<u8>, i: int, to: u8)
    requires
        0 <= i < color.len(),
    ensures
        work_left(color.update(i, to)) == work_left(color) - steps_left(color[i]) + steps_left(to),
    decreases color.len(),
{
    if i == color.len() - 1 {
        assert(color.update(i, to).drop_last() =~= color.drop_last());
    } else {
        assert(color.update(i, to).drop_last() =~= color.drop_last().update(i, to));
        lemma_work_left_update(color.drop_last(), i, to);
    }
}

/// The walk along the nodes of the path.
spec fn path_walk(path: Seq<(usize, usize)>) -> Seq<nat> {
    Seq::new(
        path.len(),
        |i: int|
            if i == 0 {
                path[0].0 as nat
            } else {
                (path[i - 1].1 - 1) as nat
            },
    )
}

/// Finished nodes have finished targets of lower rank.
spec fn finished_ranked(adj: Seq<Seq<int>>, color: Seq<u8>, rank: spec_fn(int) -> nat) -> bool {
    forall|i: int, k: int|
        0 <= i < adj.len() && color[i] == 2 && 0 <= k < adj[i].len()
            ==> color[(#[trigger] adj[i][k])] == 2 && rank(adj[i][k]) < rank(i)
}

/// The last edge taken at `a` goes to `b`.
spec fn leads_to(adj: Seq<Seq<int>>, a: (usize, usize), b: (usize, usize)) -> bool {
    a.1 >= 1 && adj[a.0 as int][a.1 - 1] == b.0
}

/// The state of the search: `path` holds each node from the start on, with the
/// number of its edges that were taken.
#[verifier::opaque]
spec fn search_state(
    adj: Seq<Seq<int>>,
    color: Seq<u8>,
    path: Seq<(usize, usize)>,
    start: int,
    rank: spec_fn(int) -> nat,
    finished: nat,
) -> bool {
    &&& in_range(adj)
    &&& color.len() == adj.len()
    &&& 0 <= start < adj.len()
    &&& forall|i: int| 0 <= i < adj.len() ==> #[trigger] color[i] <= 2
    &&& forall|i: int| 0 <= i < start ==> #[trigger] color[i] == 2
    &&& finished_ranked(adj, color, rank)
    &&& forall|i: int| 0 <= i < adj.len() && #[trigger] color[i] == 2 ==> rank(i) < finished
    &&& forall|i: int| 0 <= i < path.len() ==> (#[trigger] path[i]).0 < adj.len()
    &&& path.len() > 0 ==> path[0].0 == start
    &&& forall|i: int| 0 <= i < path.len() ==> color[(#[trigger] path[i]).0 as int] == 1
    &&& forall|i: int, j: int|
        0 <= i < j < path.len() ==> (#[trigger] path[i]).0 != (#[trigger] path[j]).0
    &&& forall|v: int|
        0 <= v < adj.len() && #[trigger] color[v] == 1 ==> exists|i: int|
            0 <= i < path.len() && (#[trigger] path[i]).0 == v
    &&& forall|i: int|
        0 <= i < path.len() ==> (#[trigger] path[i]).1 <= adj[path[i].0 as int].len()
    &&& forall|i: int, j: int|
        0 <= i && j == i + 1 && j < path.len() ==> #[trigger] leads_to(adj, path[i], path[j])
    &&& forall|i: int, k: int|
        #![trigger path[i], adj[path[i].0 as int][k]]
        0 <= i < path.len() && 0 <= k < path[i].1 - (if i < path.len() - 1 {
            1int
        } else {
            0int
        }) ==> color[adj[path[i].0 as int][k]] == 2
}

proof fn lemma_path_walk(
    adj: Seq<Seq<int>>,
    color: Seq<u8>,
    path: Seq<(usize, usize)>,
    start: int,
    rank: spec_fn(int) -> nat,
    finished: nat,
    walk: Seq<nat>,
    i: int,
)
    requires
        search_state(adj, color, path, start, rank, finished),
        walk.len() >= path.len(),
        walk.take(path.len() as int) == path_walk(path),
        0 <= i < path.len(),
    ensures
        node_at(adj, walk, i) == path[i].0,
    decreases i,
{
    reveal(search_state);
    assert(walk.take(path.len() as int)[i] == walk[i]);
    assert(walk.take(path.len() as int)[0] == walk[0]);
    if i > 0 {
        lemma_path_walk(adj, color, path, start, rank, finished, walk, i - 1);
        assert(leads_to(adj, path[i - 1], path[i]));
    }
}

/// From a finished node on, a walk stays on finished nodes, of falling rank.
proof fn lemma_finished_walk(
    adj: Seq<Seq<int>>,
    color: Seq<u8>,
    rank: spec_fn(int) -> nat,
    walk: Seq<nat>,
    k: int,
    j: int,
)
    requires
        in_range(adj),
        color.len() == adj.len(),
        finished_ranked(adj, color, rank),
        is_walk(adj, walk),
        0 <= k <= j < walk.len(),
        color[node_at(adj, walk, k)] == 2,
    ensures
        color[node_at(adj, walk, j)] == 2,
        k < j ==> rank(node_at(adj, walk, j)) < rank(node_at(adj, walk, k)),
    decreases j,
{
    if k < j {
        lemma_finished_walk(adj, color, rank, walk, k, j - 1);
        lemma_walk_in_range(adj, walk, j - 1);
        let from = node_at(adj, walk, j - 1);
        assert(walk[j] < adj[from].len());
        assert(color[adj[from][walk[j] as int]] == 2);
    }
}

/// A walk that enters the finished nodes does not close.
proof fn lemma_finished_never_closes(
    adj: Seq<Seq<int>>,
    color: Seq<u8>,
    rank: spec_fn(int) -> nat,
    walk: Seq<nat>,
    k: int,
)
    requires
        in_range(adj),
        color.len() == adj.len(),
        finished_ranked(adj, color, rank),
        0 <= k < walk.len(),
        color[node_at(adj, walk, k)] == 2,
        forall|i: int| 0 <= i < k ==> color[#[trigger] node_at(adj, walk, i)] == 1,
    ensures
        !closes(adj, walk),
{
    if closes(adj, walk) {
        let last = walk.len() - 1;
        let i = choose|i: int|
            0 <= i < last && #[trigger] node_at(adj, walk, i) == node_at(adj, walk, last);
        lemma_finished_walk(adj, color, rank, walk, k, last);
        if i >= k {
            lemma_finished_walk(adj, color, rank, walk, k, i);
            lemma_finished_walk(adj, color, rank, walk, i, last);
        }
    }
}

/// The nodes of the path, and of the walk that follows it and then takes its
/// next edge.
proof fn lemma_next_walk(
    adj: Seq<Seq<int>>,
    color: Seq<u8>,
    path: Seq<(usize, usize)>,
    start: int,
    rank: spec_fn(int) -> nat,
    finished: nat,
)
    requires
        search_state(adj, color, path, start, rank, finished),
        path.len() > 0,
        path.last().1 < adj[path.last().0 as int].len(),
    ensures
        is_walk(adj, path_walk(path).push(path.last().1 as nat)),
        forall|i: int|
            0 <= i < path.len() ==> #[trigger] node_at(
                adj,
                path_walk(path).push(path.last().1 as nat),
                i,
            ) == path[i].0,
        node_at(adj, path_walk(path).push(path.last().1 as nat), path.len() as int)
            == adj[path.last().0 as int][path.last().1 as int],
{
    let walk = path_walk(path).push(path.last().1 as nat);
    let len = path.len() as int;
    assert(walk.take(len) =~= path_walk(path));
    assert forall|i: int| 0 <= i < len implies #[trigger] node_at(adj, walk, i) == path[i].0 by {
        lemma_path_walk(adj, color, path, start, rank, finished, walk, i);
    }
    assert(path[len - 1] == path.last());
    assert(node_at(adj, walk, len - 1) == path[len - 1].0);
    reveal(search_state);
    assert forall|i: int| 1 <= i < walk.len() implies (#[trigger] walk[i]) < adj[node_at(
        adj,
        walk,
        i - 1,
    )].len() by {
        assert(node_at(adj, walk, i - 1) == path[i - 1].0);
        if i < len {
            assert(leads_to(adj, path[i - 1], path[i]));
        }
    }
}

/// What is tried before the next edge of the path ends among finished nodes.
proof fn lemma_tried_before_path(
    adj: Seq<Seq<int>>,
    color: Seq<u8>,
    path: Seq<(usize, usize)>,
    start: int,
    rank: spec_fn(int) -> nat,
    finished: nat,
    other: Seq<nat>,
)
    requires
        search_state(adj, color, path, start, rank, finished),
        path.len() > 0,
        path.last().1 < adj[path.last().0 as int].len(),
        tried_before(other, path_walk(path).push(path.last().1 as nat)),
    ensures
        !closes(adj, other),
{
    let walk = path_walk(path).push(path.last().1 as nat);
    lemma_next_walk(adj, color, path, start, rank, finished);
    let k = choose|k: int|
        0 <= k < other.len() && k < walk.len() && other.take(k) == walk.take(k)
            && #[trigger] other[k] < walk[k];
    reveal(search_state);
    assert forall|i: int| 0 <= i < k implies color[#[trigger] node_at(adj, other, i)] == 1 by {
        lemma_same_prefix(adj, other, walk, k, i);
        assert(node_at(adj, walk, i) == path[i].0);
        assert(color[path[i].0 as int] == 1);
    }
    assert(path[path.len() - 1] == path.last());
    if k > 0 {
        lemma_same_prefix(adj, other, walk, k, k - 1);
        assert(node_at(adj, walk, k - 1) == path[k - 1].0);
        let from = path[k - 1].0 as int;
        assert(path[k - 1].1 <= adj[from].len());
        if k < path.len() {
            assert(leads_to(adj, path[k - 1], path[k]));
        }
        assert(other[k] < path[k - 1].1 - (if k - 1 < path.len() - 1 {
            1int
        } else {
            0int
        }));
        assert(color[adj[from][other[k] as int]] == 2);
    } else {
        assert(path[0].0 == start);
    }
    lemma_finished_never_closes(adj, color, rank, other, k);
}

/// An edge from the end of the path back into it makes the first closing walk.
proof fn lemma_found(
    adj: Seq<Seq<int>>,
    color: Seq<u8>,
    path: Seq<(usize, usize)>,
    start: int,
    rank: spec_fn(int) -> nat,
    finished: nat,
)
    requires
        search_state(adj, color, path, start, rank, finished),
        path.len() > 0,
        path.last().1 < adj[path.last().0 as int].len(),
        color[adj[path.last().0 as int][path.last().1 as int]] == 1,
    ensures
        first_closing(adj, path_walk(path).push(path.last().1 as nat)),
{
    reveal(first_closing);
    let walk = path_walk(path).push(path.last().1 as nat);
    lemma_next_walk(adj, color, path, start, rank, finished);
    let back = adj[path.last().0 as int][path.last().1 as int];
    assert(closes(adj, walk)) by {
        reveal(search_state);
        assert forall|i: int, j: int| 0 <= i < j < walk.len() - 1 implies #[trigger] node_at(
            adj,
            walk,
            i,
        ) != #[trigger] node_at(adj, walk, j) by {
            assert(path[i].0 != path[j].0);
        }
        assert(path[path.len() - 1] == path.last());
        assert(back < adj.len());
        let b = choose|i: int| 0 <= i < path.len() && (#[trigger] path[i]).0 == back;
        assert(node_at(adj, walk, b) == path[b].0);
    }
    assert forall|other: Seq<nat>| #[trigger] closes(adj, other) implies !tried_before(
        other,
        walk,
    ) by {
        if tried_before(other, walk) {
            lemma_tried_before_path(adj, color, path, start, rank, finished, other);
        }
    }
}

/// What the search reads off its state.
proof fn lemma_state(
    adj: Seq<Seq<int>>,
    color: Seq<u8>,
    path: Seq<(usize, usize)>,
    start: int,
    rank: spec_fn(int) -> nat,
    finished: nat,
)
    requires
        search_state(adj, color, path, start, rank, finished),
    ensures
        in_range(adj),
        color.len() == adj.len(),
        finished_ranked(adj, color, rank),
        forall|i: int| 0 <= i < adj.len() ==> #[trigger] color[i] <= 2,
        forall|i: int| 0 <= i < start ==> #[trigger] color[i] == 2,
        forall|i: int| 0 <= i < adj.len() && #[trigger] color[i] == 2 ==> rank(i) < finished,
        path.len() > 0 ==> path.last().0 < adj.len() && color[path.last().0 as int] == 1
            && path.last().1 <= adj[path.last().0 as int].len(),
        path.len() == 0 ==> forall|i: int| 0 <= i < adj.len() ==> #[trigger] color[i] != 1,
{
    reveal(search_state);
    if path.len() > 0 {
        assert(path[path.len() - 1] == path.last());
    }
}

/// Search a graph for a cycle, depth first and in order. Where there is one,
/// the nodes of the first closing walk are returned, the node that it comes
/// back to at the end.
pub fn find_cycle(adj: &[Vec<usize>]) -> (found: Option<Vec<usize>>)
    requires
        in_range(targets_of(adj@)),
    ensures
        match found {
            None => acyclic(targets_of(adj@)),
            Some(nodes) => exists|walk: Seq<nat>| #[trigger]
                first_closing(targets_of(adj@), walk) && visits(targets_of(adj@), walk, nodes@),
        },
{
    let ghost g = targets_of(adj@);
    let n = adj.len();
    let mut color: Vec<u8> = Vec::new();
    let mut c: usize = 0;
    while c < n
        invariant
            c <= n,
            color@.len() == c,
            forall|i: int| 0 <= i < c ==> #[trigger] color@[i] == 0,
        decreases n - c,
    {
        color.push(0);
        c = c + 1;
    }
    let ghost mut rank: spec_fn(int) -> nat = |i: int| 0nat;
    let ghost mut finished: nat = 0;
    let mut start: usize = 0;
    while start < n
        invariant
            start <= n,
            n == adj@.len(),
            g == targets_of(adj@),
            in_range(g),
            color@.len() == n,
            forall|i: int| 0 <= i < start ==> #[trigger] color@[i] == 2,
            forall|i: int| 0 <= i < n ==> #[trigger] color@[i] == 0 || color@[i] == 2,
            finished_ranked(g, color@, rank),
            forall|i: int| 0 <= i < n && #[trigger] color@[i] == 2 ==> rank(i) < finished,
        decreases n - start,
    {
        if color[start] == 0 {
            let mut path: Vec<(usize, usize)> = Vec::new();
            let ghost before = color@;
            color.set(start, 1);
            path.push((start, 0));
            proof {
                lemma_work_left_update(before, start as int, 1);
                lemma_start(g, before, start, rank, finished);
                assert(path@ =~= seq![(start, 0usize)]);
            }
            while path.len() > 0
                invariant
                    n == adj@.len(),
                    g == targets_of(adj@),
                    start < n,
                    search_state(g, color@, path@, start as int, rank, finished),
                    path@.len() == 0 ==> color@[start as int] == 2,
                decreases
                        work_left(color@),
                        if path@.len() > 0 {
                            g[path@.last().0 as int].len() - path@.last().1
                        } else {
                            0
                        },
            {
                let top = path.len() - 1;
                let (node, next) = path[top];
                let ghost path0 = path@;
                let ghost color0 = color@;
                assert(path0[top as int] == path0.last());
                proof {
                    lemma_state(g, color@, path@, start as int, rank, finished);
                }
                if next < adj[node].len() {
                    let nb = adj[node][next];
                    assert(g[node as int][next as int] == nb);
                    if color[nb] == 1 {
                        proof {
                            lemma_found(g, color@, path@, start as int, rank, finished);
                            lemma_next_walk(g, color@, path@, start as int, rank, finished);
                        }
                        let mut nodes: Vec<usize> = Vec::new();
                        let mut i: usize = 0;
                        while i < path.len()
                            invariant
                                i <= path@.len(),
                                nodes@.len() == i,
                                forall|j: int|
                                    0 <= j < i ==> (#[trigger] nodes@[j]) == path@[j].0,
                            decreases path@.len() - i,
                        {
                            nodes.push(path[i].0);
                            i = i + 1;
                        }
                        nodes.push(nb);
                        let ghost walk = path_walk(path@).push(next as nat);
                        assert forall|j: int| 0 <= j < nodes@.len() implies (#[trigger] nodes@[j])
                            == node_at(g, walk, j) by {
                            if j < path@.len() {
                                assert(nodes@[j] == path@[j].0);
                            }
                        }
                        assert(visits(g, walk, nodes@)) by {
                            reveal(visits);
                        }
                        assert(first_closing(g, walk));
                        return Some(nodes);
                    }
                    let taken: usize = next + 1;
                    path.set(top, (node, taken));
                    if color[nb] == 0 {
                        color.set(nb, 1);
                        path.push((nb, 0));
                        proof {
                            lemma_work_left_update(color0, nb as int, 1);
                            lemma_step_down(
                                g,
                                color0,
                                path0,
                                start as int,
                                rank,
                                finished,
                                taken,
                                nb,
                            );
                        }
                    } else {
                        proof {
                            lemma_step_over(
                                g,
                                color0,
                                path0,
                                start as int,
                                rank,
                                finished,
                                taken,
                            );
                        }
                    }
                } else {
                    color.set(node, 2);
                    path.pop();
                    proof {
                        lemma_work_left_update(color0, node as int, 2);
                        lemma_step_up(g, color0, path0, start as int, rank, finished);
                        let done = finished;
                        let old_rank = rank;
                        rank = raised(old_rank, node as int, done);
                        finished = done + 1;
                        assert(path@ =~= path0.drop_last());
                    }
                }
            }
            proof {
                lemma_state(g, color@, path@, start as int, rank, finished);
            }
        }
        start = start + 1;
    }
    assert(ranked(g, rank)) by {
        assert forall|i: int, k: int| 0 <= i < g.len() && 0 <= k < g[i].len() implies rank(
            #[trigger] g[i][k],
        ) < rank(i) by {
            assert(color@[i] == 2);
        }
    }
    assert(acyclic(g)) by {
        reveal(acyclic);
    }
    None
}

spec fn raised(rank: spec_fn(int) -> nat, node: int, to: nat) -> spec_fn(int) -> nat {
    |i: int|
        if i == node {
            to
        } else {
            rank(i)
        }
}

proof fn lemma_start(
    adj: Seq<Seq<int>>,
    color: Seq<u8>,
    start: usize,
    rank: spec_fn(int) -> nat,
    finished: nat,
)
    requires
        in_range(adj),
        color.len() == adj.len(),
        start < adj.len(),
        color[start as int] == 0,
        forall|i: int| 0 <= i < start ==> #[trigger] color[i] == 2,
        forall|i: int| 0 <= i < adj.len() ==> #[trigger] color[i] == 0 || color[i] == 2,
        finished_ranked(adj, color, rank),
        forall|i: int| 0 <= i < adj.len() && #[trigger] color[i] == 2 ==> rank(i) < finished,
    ensures
        search_state(
            adj,
            color.update(start as int, 1),
            seq![(start, 0usize)],
            start as int,
            rank,
            finished,
        ),
{
    reveal(search_state);
    let color2 = color.update(start as int, 1);
    let path = seq![(start, 0usize)];
    assert forall|i: int, k: int|
        0 <= i < adj.len() && color2[i] == 2 && 0 <= k < adj[i].len() implies color2[(
    #[trigger] adj[i][k])] == 2 && rank(adj[i][k]) < rank(i) by {
        assert(color[i] == 2);
        assert(color[adj[i][k]] == 2);
    }
    assert forall|v: int| 0 <= v < adj.len() && #[trigger] color2[v] == 1 implies exists|i: int|
        0 <= i < path.len() && (#[trigger] path[i]).0 == v by {
        assert(color[v] == 0 || color[v] == 2);
        assert(path[0].0 == v);
    }
}

proof fn lemma_step_down(
    adj: Seq<Seq<int>>,
    color: Seq<u8>,
    path: Seq<(usize, usize)>,
    start: int,
    rank: spec_fn(int) -> nat,
    finished: nat,
    taken: usize,
    nb: usize,
)
    requires
        search_state(adj, color, path, start, rank, finished),
        path.len() > 0,
        taken == path.last().1 + 1,
        path.last().1 < adj[path.last().0 as int].len(),
        nb == adj[path.last().0 as int][path.last().1 as int],
        color[nb as int] == 0,
    ensures
        search_state(
            adj,
            color.update(nb as int, 1),
            path.update(path.len() - 1, (path.last().0, taken)).push((nb, 0)),
            start,
            rank,
            finished,
        ),
{
    reveal(search_state);
    let top = path.len() - 1;
    let (node, next) = path.last();
    assert(path[top] == path.last());
    let color2 = color.update(nb as int, 1);
    let path2 = path.update(top, (node, taken)).push((nb, 0usize));
    assert(nb < adj.len());
    assert(forall|i: int| 0 <= i < path.len() ==> (#[trigger] path2[i]).0 == path[i].0);
    assert forall|v: int| 0 <= v < adj.len() && #[trigger] color2[v] == 1 implies exists|i: int|
        0 <= i < path2.len() && (#[trigger] path2[i]).0 == v by {
        if v == nb {
            assert(path2[path.len() as int].0 == v);
        } else {
            assert(color[v] == 1);
            let i = choose|i: int| 0 <= i < path.len() && (#[trigger] path[i]).0 == v;
            assert(path2[i].0 == v);
        }
    }
    assert forall|i: int, j: int| 0 <= i < j < path2.len() implies (#[trigger] path2[i]).0 != (
    #[trigger] path2[j]).0 by {
        assert(color[path[i].0 as int] == 1);
        if j < path.len() {
            assert(path[i].0 != path[j].0);
        }
    }
    assert forall|i: int| 0 <= i < path2.len() implies color2[(#[trigger] path2[i]).0 as int]
        == 1 by {
        if i < path.len() {
            assert(color[path[i].0 as int] == 1);
        }
    }
    assert forall|i: int, k: int|
        #![trigger path2[i], adj[path2[i].0 as int][k]]
        0 <= i < path2.len() && 0 <= k < path2[i].1 - (if i < path2.len() - 1 {
            1int
        } else {
            0int
        }) implies color2[adj[path2[i].0 as int][k]] == 2 by {
        assert(color[adj[path[i].0 as int][k]] == 2);
    }
    assert forall|i: int, j: int| 0 <= i && j == i + 1 && j < path2.len() implies #[trigger] leads_to(
        adj,
        path2[i],
        path2[j],
    ) by {
        if j < path.len() {
            assert(leads_to(adj, path[i], path[j]));
        } else {
            assert(path2[i] == (node, taken));
        }
    }
    assert forall|i: int| 0 <= i < path2.len() implies (#[trigger] path2[i]).1
        <= adj[path2[i].0 as int].len() by {
        if i < top {
            assert(path[i].1 <= adj[path[i].0 as int].len());
        }
    }
}

proof fn lemma_step_over(
    adj: Seq<Seq<int>>,
    color: Seq<u8>,
    path: Seq<(usize, usize)>,
    start: int,
    rank: spec_fn(int) -> nat,
    finished: nat,
    taken: usize,
)
    requires
        search_state(adj, color, path, start, rank, finished),
        path.len() > 0,
        taken == path.last().1 + 1,
        path.last().1 < adj[path.last().0 as int].len(),
        color[adj[path.last().0 as int][path.last().1 as int]] == 2,
    ensures
        search_state(
            adj,
            color,
            path.update(path.len() - 1, (path.last().0, taken)),
            start,
            rank,
            finished,
        ),
{
    reveal(search_state);
    let top = path.len() - 1;
    assert(path[top] == path.last());
    let path2 = path.update(top, (path.last().0, taken));
    assert(forall|i: int| 0 <= i < path.len() ==> (#[trigger] path2[i]).0 == path[i].0);
    assert forall|v: int| 0 <= v < adj.len() && #[trigger] color[v] == 1 implies exists|i: int|
        0 <= i < path2.len() && (#[trigger] path2[i]).0 == v by {
        let i = choose|i: int| 0 <= i < path.len() && (#[trigger] path[i]).0 == v;
        assert(path2[i].0 == v);
    }
    assert forall|i: int, j: int| 0 <= i < j < path2.len() implies (#[trigger] path2[i]).0 != (
    #[trigger] path2[j]).0 by {
        assert(path[i].0 != path[j].0);
    }
    assert forall|i: int| 0 <= i < path2.len() implies color[(#[trigger] path2[i]).0 as int]
        == 1 by {
        assert(color[path[i].0 as int] == 1);
    }
    assert forall|i: int, k: int|
        #![trigger path2[i], adj[path2[i].0 as int][k]]
        0 <= i < path2.len() && 0 <= k < path2[i].1 - (if i < path2.len() - 1 {
            1int
        } else {
            0int
        }) implies color[adj[path2[i].0 as int][k]] == 2 by {
        assert(path[i].0 == path2[i].0);
        if i < top || k < path[i].1 {
            assert(color[adj[path[i].0 as int][k]] == 2);
        }
    }
    assert forall|i: int, j: int| 0 <= i && j == i + 1 && j < path2.len() implies #[trigger] leads_to(
        adj,
        path2[i],
        path2[j],
    ) by {
        assert(leads_to(adj, path[i], path[j]));
    }
    assert forall|i: int| 0 <= i < path2.len() implies (#[trigger] path2[i]).1
        <= adj[path2[i].0 as int].len() by {
        assert(path[i].1 <= adj[path[i].0 as int].len());
    }
}

proof fn lemma_step_up(
    adj: Seq<Seq<int>>,
    color: Seq<u8>,
    path: Seq<(usize, usize)>,
    start: int,
    rank: spec_fn(int) -> nat,
    finished: nat,
)
    requires
        search_state(adj, color, path, start, rank, finished),
        path.len() > 0,
        path.last().1 >= adj[path.last().0 as int].len(),
    ensures
        search_state(
            adj,
            color.update(path.last().0 as int, 2),
            path.drop_last(),
            start,
            raised(rank, path.last().0 as int, finished),
            finished + 1,
        ),
        path.len() == 1 ==> path.last().0 == start,
{
    reveal(search_state);
    let top = path.len() - 1;
    assert(path[top] == path.last());
    let node = path.last().0;
    let color2 = color.update(node as int, 2);
    let path2 = path.drop_last();
    let rank2 = raised(rank, node as int, finished);
    assert(color[path[top].0 as int] == 1);
    assert forall|i: int, k: int|
        0 <= i < adj.len() && color2[i] == 2 && 0 <= k < adj[i].len() implies color2[(
    #[trigger] adj[i][k])] == 2 && rank2(adj[i][k]) < rank2(i) by {
        let t = adj[i][k];
        assert(t < adj.len());
        if i == node {
            assert(color[adj[path[top].0 as int][k]] == 2);
        } else {
            assert(color[i] == 2);
            assert(color[t as int] == 2);
        }
        assert(t != node);
        assert(color[t as int] == 2);
        assert(rank(t as int) < finished);
    }
    assert forall|i: int| 0 <= i < path2.len() implies color2[(#[trigger] path2[i]).0 as int]
        == 1 by {
        assert(color[path[i].0 as int] == 1);
        assert(path[i].0 != path[top].0);
    }
    assert forall|i: int, j: int| 0 <= i < j < path2.len() implies (#[trigger] path2[i]).0 != (
    #[trigger] path2[j]).0 by {
        assert(path[i].0 != path[j].0);
    }
    assert forall|v: int| 0 <= v < adj.len() && #[trigger] color2[v] == 1 implies exists|i: int|
        0 <= i < path2.len() && (#[trigger] path2[i]).0 == v by {
        assert(color[v] == 1);
        let i = choose|i: int| 0 <= i < path.len() && (#[trigger] path[i]).0 == v;
        assert(path2[i].0 == v);
    }
    assert forall|i: int| 0 <= i < path2.len() implies (#[trigger] path2[i]).1
        <= adj[path2[i].0 as int].len() by {
        assert(path[i].1 <= adj[path[i].0 as int].len());
    }
    assert forall|i: int, j: int| 0 <= i && j == i + 1 && j < path2.len() implies #[trigger] leads_to(
        adj,
        path2[i],
        path2[j],
    ) by {
        assert(leads_to(adj, path[i], path[j]));
    }
    assert forall|i: int, k: int|
        #![trigger path2[i], adj[path2[i].0 as int][k]]
        0 <= i < path2.len() && 0 <= k < path2[i].1 - (if i < path2.len() - 1 {
            1int
        } else {
            0int
        }) implies color2[adj[path2[i].0 as int][k]] == 2 by {
        assert(path[i] == path2[i]);
        if i == path2.len() - 1 && k == path2[i].1 - 1 {
            assert(leads_to(adj, path[top - 1], path[top]));
        } else {
            assert(color[adj[path[i].0 as int][k]] == 2);
        }
    }
}

// ---- what can be reached ----

/// Whether a walk leads from one of the marked nodes to `v`.
pub open spec fn reaches(adj: Seq<Seq<int>>, marked: Seq<bool>, v: int) -> bool {
    exists|walk: Seq<nat>| #[trigger]
        is_walk(adj, walk) && marked[walk[0] as int] && node_at(adj, walk, walk.len() - 1) == v
}

proof fn lemma_walk_extended(adj: Seq<Seq<int>>, walk: Seq<nat>, k: nat, i: int)
    requires
        is_walk(adj, walk),
        0 <= i < walk.len(),
    ensures
        node_at(adj, walk.push(k), i) == node_at(adj, walk, i),
    decreases i,
{
    if i > 0 {
        lemma_walk_extended(adj, walk, k, i - 1);
    }
}

/// What is marked can be reached, and so can every target of what can.
pub proof fn law_reaches_closed(adj: Seq<Seq<int>>, marked: Seq<bool>, v: int, k: int)
    requires
        0 <= v < adj.len(),
    ensures
        marked[v] ==> reaches(adj, marked, v),
        reaches(adj, marked, v) && 0 <= k < adj[v].len() ==> reaches(adj, marked, adj[v][k]),
{
    if marked[v] {
        let walk = seq![v as nat];
        assert(is_walk(adj, walk) && node_at(adj, walk, walk.len() - 1) == v);
    }
    if reaches(adj, marked, v) && 0 <= k < adj[v].len() {
        let walk = choose|walk: Seq<nat>| #[trigger]
            is_walk(adj, walk) && marked[walk[0] as int] && node_at(adj, walk, walk.len() - 1) == v;
        let longer = walk.push(k as nat);
        assert forall|i: int| 0 <= i < walk.len() implies #[trigger] node_at(adj, longer, i)
            == node_at(adj, walk, i) by {
            lemma_walk_extended(adj, walk, k as nat, i);
        }
        assert(node_at(adj, longer, walk.len() - 1) == v);
        assert(node_at(adj, longer, walk.len() as int) == adj[v][k]);
        assert(is_walk(adj, longer)) by {
            assert forall|i: int| 1 <= i < longer.len() implies (#[trigger] longer[i]) < adj[node_at(
                adj,
                longer,
                i - 1,
            )].len() by {
                assert(node_at(adj, longer, i - 1) == node_at(adj, walk, i - 1));
                if i < walk.len() {
                    assert(walk[i] < adj[node_at(adj, walk, i - 1)].len());
                }
            }
        }
    }
}

proof fn lemma_closed_holds_walk(
    adj: Seq<Seq<int>>,
    marked: Seq<bool>,
    found: Seq<bool>,
    walk: Seq<nat>,
    i: int,
)
    requires
        in_range(adj),
        is_walk(adj, walk),
        marked[walk[0] as int],
        0 <= i < walk.len(),
        forall|v: int| 0 <= v < adj.len() && marked[v] ==> #[trigger] found[v],
        forall|v: int, k: int|
            0 <= v < adj.len() && found[v] && 0 <= k < adj[v].len() ==> found[#[trigger] adj[v][k]],
    ensures
        found[node_at(adj, walk, i)],
    decreases i,
{
    if i == 0 {
        assert(found[walk[0] as int]);
    } else {
        lemma_closed_holds_walk(adj, marked, found, walk, i - 1);
        lemma_walk_in_range(adj, walk, i - 1);
        let v = node_at(adj, walk, i - 1);
        assert(walk[i] < adj[v].len());
        assert(found[adj[v][walk[i] as int]]);
    }
}

/// The number of nodes not found yet.
spec fn not_found(found: Seq<bool>) -> nat
    decreases found.len(),
{
    if found.len() == 0 {
        0
    } else {
        not_found(found.drop_last()) + (if found.last() {
            0nat
        } else {
            1nat
        })
    }
}

proof fn lemma_not_found_update(found: Seq<bool>, i: int)
    requires
        0 <= i < found.len(),
        !found[i],
    ensures
        not_found(found.update(i, true)) == not_found(found) - 1,
    decreases found.len(),
{
    if i == found.len() - 1 {
        assert(found.update(i, true).drop_last() =~= found.drop_last());
    } else {
        assert(found.update(i, true).drop_last() =~= found.drop_last().update(i, true));
        lemma_not_found_update(found.drop_last(), i);
    }
}

/// Which nodes can be reached from the marked ones.
pub fn reachable(adj: &[Vec<usize>], marked: &[bool]) -> (found: Vec<bool>)
    requires
        in_range(targets_of(adj@)),
        marked@.len() == adj@.len(),
    ensures
        found@.len() == adj@.len(),
        forall|v: int|
            0 <= v < adj@.len() ==> (#[trigger] found@[v] <==> reaches(
                targets_of(adj@),
                marked@,
                v,
            )),
{
    let ghost g = targets_of(adj@);
    let n = adj.len();
    let mut found: Vec<bool> = Vec::new();
    let mut open: Vec<usize> = Vec::new();
    let mut i: usize = 0;
    while i < n
        invariant
            i <= n,
            n == adj@.len(),
            marked@.len() == n,
            found@ == marked@.take(i as int),
            forall|j: int| 0 <= j < open@.len() ==> (#[trigger] open@[j]) < n,
            forall|v: int|
                0 <= v < i && #[trigger] marked@[v] ==> open@.contains(v as usize),
            forall|j: int| 0 <= j < open@.len() ==> marked@[(#[trigger] open@[j]) as int],
        decreases n - i,
    {
        let ghost open0 = open@;
        found.push(marked[i]);
        if marked[i] {
            open.push(i);
            assert forall|v: int| 0 <= v < i + 1 && #[trigger] marked@[v] implies open@.contains(
                v as usize,
            ) by {
                if v == i {
                    assert(open@[open0.len() as int] == i);
                } else {
                    let j = choose|j: int| 0 <= j < open0.len() && open0[j] == v as usize;
                    assert(open@[j] == v as usize);
                }
            }
        }
        i = i + 1;
        assert(found@ =~= marked@.take(i as int));
    }
    assert(found@ =~= marked@);
    assert forall|v: int| 0 <= v < n && #[trigger] found@[v] implies reaches(g, marked@, v) by {
        law_reaches_closed(g, marked@, v, 0);
    }
    assert forall|v: int, k: int|
        0 <= v < n && found@[v] && !open@.contains(v as usize) && 0 <= k
            < g[v].len() implies found@[#[trigger] g[v][k]] by {
        assert(marked@[v]);
    }
    while open.len() > 0
        invariant
            n == adj@.len(),
            g == targets_of(adj@),
            in_range(g),
            marked@.len() == n,
            found@.len() == n,
            forall|v: int| 0 <= v < n && marked@[v] ==> #[trigger] found@[v],
            forall|v: int| 0 <= v < n && #[trigger] found@[v] ==> reaches(g, marked@, v),
            forall|j: int| 0 <= j < open@.len() ==> (#[trigger] open@[j]) < n,
            forall|j: int| 0 <= j < open@.len() ==> found@[(#[trigger] open@[j]) as int],
            forall|v: int, k: int|
                0 <= v < n && found@[v] && !open@.contains(v as usize) && 0 <= k < g[v].len()
                    ==> found@[#[trigger] g[v][k]],
        decreases not_found(found@), open@.len(),
    {
        let ghost open0 = open@;
        let ghost found0 = found@;
        let v = open[open.len() - 1];
        assert(open0[open0.len() - 1] == v);
        open.pop();
        assert forall|u: int, j: int|
            0 <= u < n && u != v && found@[u] && !open@.contains(u as usize) && 0 <= j
                < g[u].len() implies found@[#[trigger] g[u][j]] by {
            if open0.contains(u as usize) {
                let q = choose|q: int| 0 <= q < open0.len() && open0[q] == u as usize;
                assert(open@[q] == u as usize);
            }
        }
        let mut k: usize = 0;
        while k < adj[v].len()
            invariant
                v < n,
                n == adj@.len(),
                g == targets_of(adj@),
                in_range(g),
                marked@.len() == n,
                found@.len() == n,
                k <= adj@[v as int]@.len(),
                forall|u: int| 0 <= u < n && marked@[u] ==> #[trigger] found@[u],
                forall|u: int| 0 <= u < n && #[trigger] found@[u] ==> reaches(g, marked@, u),
                found@[v as int],
                forall|j: int| 0 <= j < open@.len() ==> (#[trigger] open@[j]) < n,
                forall|j: int| 0 <= j < open@.len() ==> found@[(#[trigger] open@[j]) as int],
                forall|j: int| 0 <= j < k ==> found@[#[trigger] g[v as int][j]],
                forall|u: int, j: int|
                    0 <= u < n && u != v && found@[u] && !open@.contains(u as usize) && 0 <= j
                        < g[u].len() ==> found@[#[trigger] g[u][j]],
                not_found(found@) < not_found(found0) || (not_found(found@) == not_found(found0)
                    && open@.len() < open0.len()),
            decreases adj@[v as int]@.len() - k,
        {
            let t = adj[v][k];
            assert(g[v as int][k as int] == t);
            if !found[t] {
                let ghost open1 = open@;
                let ghost found1 = found@;
                proof {
                    lemma_not_found_update(found@, t as int);
                    law_reaches_closed(g, marked@, v as int, k as int);
                }
                found.set(t, true);
                open.push(t);
                assert(open@[open1.len() as int] == t);
                assert forall|u: int, j: int|
                    0 <= u < n && u != v && found@[u] && !open@.contains(u as usize) && 0 <= j
                        < g[u].len() implies found@[#[trigger] g[u][j]] by {
                    if u != t {
                        if open1.contains(u as usize) {
                            let q = choose|q: int| 0 <= q < open1.len() && open1[q] == u as usize;
                            assert(open@[q] == u as usize);
                        }
                        assert(found1[g[u][j]]);
                    }
                }
            }
            k = k + 1;
        }
    }
    assert forall|v: int| 0 <= v < n && reaches(g, marked@, v) implies #[trigger] found@[v] by {
        let walk = choose|walk: Seq<nat>| #[trigger]
            is_walk(g, walk) && marked@[walk[0] as int] && node_at(g, walk, walk.len() - 1) == v;
        lemma_closed_holds_walk(g, marked@, found@, walk, walk.len() - 1);
    }
    found
}

/// A graph with a circle in it cannot be ranked: nodes of which each has an
/// edge to the next one, and the last one to the first.
pub proof fn law_circles_are_cycles(adj: Seq<Seq<int>>, circle: Seq<int>)
    requires
        circle.len() > 0,
        forall|i: int| 0 <= i < circle.len() ==> 0 <= #[trigger] circle[i] < adj.len(),
        forall|i: int|
            0 <= i < circle.len() - 1 ==> (#[trigger] adj[circle[i]]).contains(circle[i + 1]),
        adj[circle.last()].contains(circle[0]),
    ensures
        !acyclic(adj),
{
    reveal(acyclic);
    if acyclic(adj) {
        let rank = choose|rank: spec_fn(int) -> nat| #[trigger] ranked(adj, rank);
        lemma_circle_falls(adj, circle, rank, circle.len() - 1);
        let k = adj[circle.last()].index_of(circle[0]);
        assert(adj[circle.last()][k] == circle[0]);
    }
}

proof fn lemma_circle_falls(
    adj: Seq<Seq<int>>,
    circle: Seq<int>,
    rank: spec_fn(int) -> nat,
    i: int,
)
    requires
        ranked(adj, rank),
        0 <= i < circle.len(),
        forall|j: int| 0 <= j < circle.len() ==> 0 <= #[trigger] circle[j] < adj.len(),
        forall|j: int|
            0 <= j < circle.len() - 1 ==> (#[trigger] adj[circle[j]]).contains(circle[j + 1]),
    ensures
        rank(circle[i]) <= rank(circle[0]),
    decreases i,
{
    if i > 0 {
        lemma_circle_falls(adj, circle, rank, i - 1);
        assert(adj[circle[i - 1]].contains(circle[i]));
        let k = adj[circle[i - 1]].index_of(circle[i]);
        assert(adj[circle[i - 1]][k] == circle[i]);
    }
}

/// A graph whose edges all go to an earlier place of some order has no cycle.
pub proof fn law_ordered_graphs_are_acyclic(adj: Seq<Seq<int>>, place: spec_fn(int) -> nat)
    requires
        forall|i: int, k: int|
            0 <= i < adj.len() && 0 <= k < adj[i].len() ==> place(#[trigger] adj[i][k]) < place(i),
    ensures
        acyclic(adj),
{
    reveal(acyclic);
    assert(ranked(adj, place));
}

/// Whether each node of a path has an edge to the next one.
pub open spec fn is_path(adj: Seq<Seq<int>>, path: Seq<int>) -> bool {
    &&& path.len() > 0
    &&& forall|i: int| 0 <= i < path.len() ==> 0 <= #[trigger] path[i] < adj.len()
    &&& forall|i: int|
        0 <= i < path.len() - 1 ==> (#[trigger] adj[path[i]]).contains(path[i + 1])
}

/// A node is reached along every path from a marked one.
pub proof fn law_paths_reach(adj: Seq<Seq<int>>, marked: Seq<bool>, path: Seq<int>)
    requires
        is_path(adj, path),
        marked[path[0]],
    ensures
        reaches(adj, marked, path.last()),
    decreases path.len(),
{
    if path.len() == 1 {
        law_reaches_closed(adj, marked, path[0], 0);
    } else {
        let init = path.drop_last();
        assert forall|i: int| 0 <= i < init.len() implies 0 <= #[trigger] init[i] < adj.len() by {
            assert(init[i] == path[i]);
        }
        assert forall|i: int| 0 <= i < init.len() - 1 implies (
        #[trigger] adj[init[i]]).contains(init[i + 1]) by {
            assert(adj[path[i]].contains(path[i + 1]));
        }
        law_paths_reach(adj, marked, init);
        let from = init.last();
        assert(from == path[path.len() - 2]);
        assert(adj[path[path.len() - 2]].contains(path[path.len() - 1]));
        let k = adj[from].index_of(path.last());
        law_reaches_closed(adj, marked, from, k);
    }
}

/// What is reached lies on a path from a marked node.
pub proof fn law_reached_nodes_have_a_path(adj: Seq<Seq<int>>, marked: Seq<bool>, v: int) -> (path:
    Seq<int>)
    requires
        in_range(adj),
        reaches(adj, marked, v),
    ensures
        is_path(adj, path),
        marked[path[0]],
        path.last() == v,
{
    let walk = choose|walk: Seq<nat>| #[trigger]
        is_walk(adj, walk) && marked[walk[0] as int] && node_at(adj, walk, walk.len() - 1) == v;
    let path = Seq::new(walk.len(), |i: int| node_at(adj, walk, i));
    assert forall|i: int| 0 <= i < path.len() implies 0 <= #[trigger] path[i] < adj.len() by {
        lemma_walk_in_range(adj, walk, i);
    }
    assert forall|i: int| 0 <= i < path.len() - 1 implies (#[trigger] adj[path[i]]).contains(
        path[i + 1],
    ) by {
        assert(walk[i + 1] < adj[node_at(adj, walk, i)].len());
        assert(adj[path[i]][walk[i + 1] as int] == path[i + 1]);
    }
    path
}

/// A walk that closes follows edges, meets no node twice before its end, and ends
/// at a node that it has met.
pub proof fn law_closing_walks_come_back(adj: Seq<Seq<int>>, walk: Seq<nat>, nodes: Seq<usize>)
    requires
        in_range(adj),
        first_closing(adj, walk),
        visits(adj, walk, nodes),
    ensures
        nodes.len() >= 2,
        forall|i: int| 0 <= i < nodes.len() ==> (#[trigger] nodes[i]) < adj.len(),
        forall|i: int|
            0 <= i < nodes.len() - 1 ==> adj[(#[trigger] nodes[i]) as int].contains(
                nodes[i + 1] as int,
            ),
        forall|i: int, j: int|
            0 <= i < j < nodes.len() - 1 ==> #[trigger] nodes[i] != #[trigger] nodes[j],
        exists|i: int| 0 <= i < nodes.len() - 1 && #[trigger] nodes[i] == nodes.last(),
{
    law_first_closing_is_a_cycle(adj, walk, nodes);
    reveal(first_closing);
    reveal(visits);
    assert forall|i: int| 0 <= i < nodes.len() - 1 implies adj[(
    #[trigger] nodes[i]) as int].contains(nodes[i + 1] as int) by {
        assert(nodes[i + 1] == node_at(adj, walk, i + 1));
        assert(walk[i + 1] < adj[node_at(adj, walk, i)].len());
        assert(adj[nodes[i] as int][walk[i + 1] as int] == nodes[i + 1]);
    }
    assert forall|i: int, j: int| 0 <= i < j < nodes.len() - 1 implies #[trigger] nodes[i]
        != #[trigger] nodes[j] by {
        assert(node_at(adj, walk, i) != node_at(adj, walk, j));
    }
    let last = walk.len() - 1;
    let i = choose|i: int|
        0 <= i < last && #[trigger] node_at(adj, walk, i) == node_at(adj, walk, last);
    assert(nodes[i] == nodes.last());
}

} // verus!
