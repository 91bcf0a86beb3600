//! A random node-network maze: a connected graph built from a random
//! spanning tree plus a few extra edges, traversed node by node, with
//! breadth-first pathfinding.

use vstd::prelude::*;
use vstd::string::StringExecFns;
use crate::maze::rng::{new_rng, random_below, shuffle_vec};
use crate::seq_util::{count_false, lemma_count_false_set_true, lemma_push_contains};
use crate::text::{dec_digits, push_char, push_chars, push_decimal};

verus! {

/// A node of the maze graph.
#[derive(Debug, Clone, Copy, PartialEq, Eq, Structural, Hash)]
pub struct NodeId(pub usize);

/// Why a maze could not be built.
#[derive(Debug, Clone, Copy, PartialEq, Eq, Structural)]
pub enum MazeError {
    TooFewNodes,
}

/// The recorded neighbors of `a` in the adjacency table, in recording
/// order.
pub open spec fn adj_of(g: Seq<Vec<NodeId>>, a: NodeId) -> Seq<NodeId> {
    if a.0 < g.len() {
        g[a.0 as int]@
    } else {
        Seq::empty()
    }
}

/// A passage from `a` to `b` is recorded.
pub open spec fn edge_of(g: Seq<Vec<NodeId>>, a: NodeId, b: NodeId) -> bool {
    adj_of(g, a).contains(b)
}

/// `p` walks from `a` to `b` along recorded passages.
pub open spec fn path_of(g: Seq<Vec<NodeId>>, p: Seq<NodeId>, a: NodeId, b: NodeId) -> bool {
    &&& p.len() >= 1
    &&& p[0] == a
    &&& p.last() == b
    &&& forall|i: int| 0 <= i < p.len() - 1 ==> edge_of(g, #[trigger] p[i], p[i + 1])
}

/// Some walk along recorded passages leads from `a` to `b`.
pub open spec fn reach_of(g: Seq<Vec<NodeId>>, a: NodeId, b: NodeId) -> bool {
    exists|p: Seq<NodeId>| path_of(g, p, a, b)
}

/// The adjacency table covers exactly nodes `0..n`, every recorded
/// passage leads to a node below `n`, and every passage has its reverse
/// recorded.
pub open spec fn edges_wf(g: Seq<Vec<NodeId>>, n: int) -> bool {
    &&& g.len() == n
    &&& forall|x: NodeId, y: NodeId| #[trigger] edge_of(g, x, y) ==> y.0 < n
    &&& forall|x: NodeId, y: NodeId| #[trigger] edge_of(g, x, y) ==> edge_of(g, y, x)
}

/// Every node reaches itself.
pub proof fn lemma_reach_refl(g: Seq<Vec<NodeId>>, a: NodeId)
    ensures
        reach_of(g, a, a),
{
    assert(path_of(g, seq![a], a, a));
}

/// A walk extends across one more recorded passage.
pub proof fn lemma_reach_extend(g: Seq<Vec<NodeId>>, a: NodeId, b: NodeId, c: NodeId)
    requires
        reach_of(g, a, b),
        edge_of(g, b, c),
    ensures
        reach_of(g, a, c),
{
    let p = choose|p: Seq<NodeId>| path_of(g, p, a, b);
    let q = p.push(c);
    assert(q[0] == p[0]);
    assert forall|i: int| 0 <= i < q.len() - 1 implies edge_of(g, #[trigger] q[i], q[i + 1]) by {
        if i < p.len() - 1 {
            assert(q[i] == p[i] && q[i + 1] == p[i + 1]);
        } else {
            assert(q[i] == p.last() && q[i + 1] == c);
        }
    }
    assert(path_of(g, q, a, c));
}

/// A walk extends backward across one more recorded passage.
pub proof fn lemma_reach_front(g: Seq<Vec<NodeId>>, a: NodeId, b: NodeId, c: NodeId)
    requires
        edge_of(g, a, b),
        reach_of(g, b, c),
    ensures
        reach_of(g, a, c),
{
    let p = choose|p: Seq<NodeId>| path_of(g, p, b, c);
    let q = seq![a] + p;
    assert(q[0] == a);
    assert(q.last() == p.last());
    assert forall|i: int| 0 <= i < q.len() - 1 implies edge_of(g, #[trigger] q[i], q[i + 1]) by {
        if i == 0 {
            assert(q[0] == a && q[1] == p[0]);
        } else {
            assert(q[i] == p[i - 1] && q[i + 1] == p[i]);
        }
    }
    assert(path_of(g, q, a, c));
}

/// Walks chain: a walk to `b` followed by a walk from `b` reaches the
/// far end.
pub proof fn lemma_reach_trans_path(
    g: Seq<Vec<NodeId>>,
    a: NodeId,
    b: NodeId,
    c: NodeId,
    p: Seq<NodeId>,
)
    requires
        reach_of(g, a, b),
        path_of(g, p, b, c),
    ensures
        reach_of(g, a, c),
    decreases p.len(),
{
    if p.len() == 1 {
        assert(b == c);
    } else {
        assert(edge_of(g, p[0], p[1]));
        lemma_reach_extend(g, a, b, p[1]);
        let q = p.drop_first();
        assert(q.last() == p.last());
        assert forall|i: int| 0 <= i < q.len() - 1 implies edge_of(g, #[trigger] q[i], q[i + 1]) by {
            assert(q[i] == p[i + 1] && q[i + 1] == p[i + 2]);
        }
        assert(path_of(g, q, p[1], c));
        lemma_reach_trans_path(g, a, p[1], c, q);
    }
}

/// Reachability is transitive.
pub proof fn lemma_reach_trans(g: Seq<Vec<NodeId>>, a: NodeId, b: NodeId, c: NodeId)
    requires
        reach_of(g, a, b),
        reach_of(g, b, c),
    ensures
        reach_of(g, a, c),
{
    let p = choose|p: Seq<NodeId>| path_of(g, p, b, c);
    lemma_reach_trans_path(g, a, b, c, p);
}

/// Recording more passages never severs a walk.
pub proof fn lemma_reach_monotone(
    g1: Seq<Vec<NodeId>>,
    g2: Seq<Vec<NodeId>>,
    a: NodeId,
    b: NodeId,
)
    requires
        reach_of(g1, a, b),
        forall|x: NodeId, y: NodeId| #[trigger] edge_of(g1, x, y) ==> edge_of(g2, x, y),
    ensures
        reach_of(g2, a, b),
{
    let p = choose|p: Seq<NodeId>| path_of(g1, p, a, b);
    assert forall|i: int| 0 <= i < p.len() - 1 implies edge_of(g2, #[trigger] p[i], p[i + 1]) by {
        assert(edge_of(g1, p[i], p[i + 1]));
    }
    assert(path_of(g2, p, a, b));
}

/// A walk out of a set that is closed under recorded passages cannot
/// leave it: if the walk's first node is marked and every passage from a
/// marked node leads to a marked node, its last node is marked too.
pub proof fn lemma_path_stays_marked(
    g: Seq<Vec<NodeId>>,
    marked: Seq<bool>,
    p: Seq<NodeId>,
    a: NodeId,
    b: NodeId,
    n: int,
)
    requires
        path_of(g, p, a, b),
        a.0 < n,
        marked.len() == n,
        marked[a.0 as int],
        forall|u: NodeId, w: NodeId|
            u.0 < n && marked[u.0 as int] && #[trigger] edge_of(g, u, w) ==> w.0 < n
                && marked[w.0 as int],
    ensures
        b.0 < n && marked[b.0 as int],
    decreases p.len(),
{
    if p.len() == 1 {
        assert(b == a);
    } else {
        assert(edge_of(g, p[0], p[1]));
        let q = p.drop_first();
        assert(q.last() == p.last());
        assert forall|i: int| 0 <= i < q.len() - 1 implies edge_of(g, #[trigger] q[i], q[i + 1]) by {
            assert(q[i] == p[i + 1] && q[i + 1] == p[i + 2]);
        }
        assert(path_of(g, q, p[1], b));
        lemma_path_stays_marked(g, marked, q, p[1], b, n);
    }
}

/// Records the undirected passage between `a` and `b`: each gains the
/// other as a neighbor, and every existing passage is kept. No other
/// passage appears.
fn add_edge(graph: &mut Vec<Vec<NodeId>>, a: NodeId, b: NodeId)
    requires
        a.0 < old(graph)@.len(),
        b.0 < old(graph)@.len(),
    ensures
        final(graph)@.len() == old(graph)@.len(),
        forall|x: NodeId, y: NodeId|
            #[trigger] edge_of(old(graph)@, x, y) ==> edge_of(final(graph)@, x, y),
        forall|x: NodeId, y: NodeId|
            #[trigger] edge_of(final(graph)@, x, y) ==> edge_of(old(graph)@, x, y) || (x == a && y
                == b) || (x == b && y == a),
        edge_of(final(graph)@, a, b),
        edge_of(final(graph)@, b, a),
{
    let ghost g0 = graph@;
    let mut row: Vec<NodeId> = Vec::new();
    graph.set_and_swap(a.0, &mut row);
    row.push(b);
    graph.set_and_swap(a.0, &mut row);
    let ghost g1 = graph@;
    proof {
        assert(g1[a.0 as int]@ =~= g0[a.0 as int]@.push(b));
        assert forall|x: NodeId| x.0 as int != a.0 as int && x.0 < g1.len() implies g1[x.0 as int]
            == g0[x.0 as int] by {}
    }
    let mut row2: Vec<NodeId> = Vec::new();
    graph.set_and_swap(b.0, &mut row2);
    row2.push(a);
    graph.set_and_swap(b.0, &mut row2);
    let ghost g2 = graph@;
    proof {
        assert(g2[b.0 as int]@ =~= g1[b.0 as int]@.push(a));
        assert forall|x: NodeId| x.0 as int != b.0 as int && x.0 < g2.len() implies g2[x.0 as int]
            == g1[x.0 as int] by {}
        assert forall|x: NodeId, y: NodeId|
            #[trigger] edge_of(g0, x, y) implies edge_of(g2, x, y) by {
            lemma_push_contains(g0[a.0 as int]@, b, y);
            lemma_push_contains(g1[b.0 as int]@, a, y);
        }
        assert forall|x: NodeId, y: NodeId|
            #[trigger] edge_of(g2, x, y) implies edge_of(g0, x, y) || (x == a && y == b) || (x == b
                && y == a) by {
            lemma_push_contains(g0[a.0 as int]@, b, y);
            lemma_push_contains(g1[b.0 as int]@, a, y);
        }
        assert(edge_of(g2, b, a)) by {
            lemma_push_contains(g1[b.0 as int]@, a, a);
        }
        assert(edge_of(g2, a, b)) by {
            if a.0 as int == b.0 as int {
                lemma_push_contains(g1[b.0 as int]@, a, b);
                lemma_push_contains(g0[a.0 as int]@, b, b);
            } else {
                lemma_push_contains(g0[a.0 as int]@, b, b);
                assert(g2[a.0 as int] == g1[a.0 as int]);
            }
        }
    }
}

/// The text form of a node, matching its debug rendering.
pub open spec fn node_text(a: NodeId) -> Seq<char> {
    seq!['N', 'o', 'd', 'e', 'I', 'd', '('] + dec_digits(a.0 as nat) + seq![')']
}

/// The texts of the first `k` nodes, joined with a comma and a space.
pub open spec fn nodes_joined_upto(ns: Seq<NodeId>, k: int) -> Seq<char>
    decreases k,
{
    if k <= 0 {
        Seq::empty()
    } else if k == 1 {
        node_text(ns[0])
    } else {
        nodes_joined_upto(ns, k - 1) + seq![',', ' '] + node_text(ns[k - 1])
    }
}

/// The node-network maze: a connected undirected graph over nodes
/// `0..n`, entered at node 0, left at node `n - 1`.
#[derive(Debug)]
pub struct Maze {
    pub start: NodeId,
    pub end: NodeId,
    pub current: NodeId,
    graph: Vec<Vec<NodeId>>,
}

impl Maze {
    /// The number of nodes.
    pub closed spec fn spec_node_count(self) -> usize {
        self.graph@.len() as usize
    }

    /// The adjacency table.
    pub closed spec fn spec_graph(self) -> Seq<Vec<NodeId>> {
        self.graph@
    }

    /// The entry node.
    pub closed spec fn spec_start(self) -> NodeId {
        self.start
    }

    /// The exit node.
    pub closed spec fn spec_end(self) -> NodeId {
        self.end
    }

    /// The node the player stands on.
    pub closed spec fn spec_current(self) -> NodeId {
        self.current
    }

    /// A passage from `a` to `b` exists.
    pub open spec fn edge(self, a: NodeId, b: NodeId) -> bool {
        edge_of(self.spec_graph(), a, b)
    }

    /// `p` walks the maze's passages from `a` to `b`.
    pub open spec fn is_path(self, p: Seq<NodeId>, a: NodeId, b: NodeId) -> bool {
        path_of(self.spec_graph(), p, a, b)
    }

    /// Some walk leads from `a` to `b`.
    pub open spec fn reachable(self, a: NodeId, b: NodeId) -> bool {
        reach_of(self.spec_graph(), a, b)
    }

    /// Well-formedness: the marker nodes are in range, and the adjacency
    /// table joins in-range nodes symmetrically.
    pub closed spec fn wf(self) -> bool {
        &&& self.graph@.len() >= 1
        &&& self.start.0 < self.graph@.len()
        &&& self.end.0 < self.graph@.len()
        &&& self.current.0 < self.graph@.len()
        &&& edges_wf(self.graph@, self.graph@.len() as int)
    }

    /// Whether a passage from `a` to `b` is recorded.
    fn has_edge(&self, a: NodeId, b: NodeId) -> (r: bool)
        ensures
            r == self.edge(a, b),
    {
        if a.0 >= self.graph.len() {
            return false;
        }
        let row = &self.graph[a.0];
        let mut i: usize = 0;
        while i < row.len()
            invariant
                row@ == self.graph@[a.0 as int]@,
                a.0 < self.graph@.len(),
                0 <= i <= row@.len(),
                forall|j: int| 0 <= j < i ==> row@[j] != b,
            decreases row@.len() - i,
        {
            if row[i].0 == b.0 {
                proof {
                    assert(row@[i as int] == b);
                }
                return true;
            }
            i = i + 1;
        }
        false
    }

    /// The neighbors of the given node, in the order their passages were
    /// recorded.
    pub fn neighbors(&self, node: NodeId) -> (r: Vec<NodeId>)
        ensures
            r@ == adj_of(self.spec_graph(), node),
            forall|b: NodeId| #[trigger] r@.contains(b) <==> self.edge(node, b),
    {
        let mut r: Vec<NodeId> = Vec::new();
        if node.0 >= self.graph.len() {
            return r;
        }
        let row = &self.graph[node.0];
        let mut i: usize = 0;
        while i < row.len()
            invariant
                row@ == self.graph@[node.0 as int]@,
                node.0 < self.graph@.len(),
                0 <= i <= row@.len(),
                r@ == row@.subrange(0, i as int),
            decreases row@.len() - i,
        {
            r.push(row[i]);
            proof {
                assert(r@ =~= row@.subrange(0, i + 1 as int));
            }
            i = i + 1;
        }
        proof {
            assert(r@ =~= row@);
        }
        r
    }

    /// Whether the player stands on the exit node.
    pub fn is_at_end(&self) -> (r: bool)
        ensures
            r == (self.spec_current() == self.spec_end()),
    {
        self.current == self.end
    }

    /// Attempts to move the player to `next`: succeeds exactly when a
    /// passage joins the current node to `next`, and otherwise leaves the
    /// player where it stands. Nothing else about the maze changes.
    pub fn traverse(&mut self, next: NodeId) -> (r: Result<NodeId, String>)
        requires
            old(self).wf(),
        ensures
            final(self).wf(),
            final(self).spec_graph() == old(self).spec_graph(),
            final(self).spec_node_count() == old(self).spec_node_count(),
            final(self).spec_start() == old(self).spec_start(),
            final(self).spec_end() == old(self).spec_end(),
            ({
                if old(self).edge(old(self).spec_current(), next) {
                    r == Ok::<NodeId, String>(next) && final(self).spec_current() == next
                } else {
                    r is Err && final(self).spec_current() == old(self).spec_current()
                }
            }),
    {
        if self.has_edge(self.current, next) {
            self.current = next;
            Ok(self.current)
        } else {
            Err(String::from_str("Cannot move: not a neighbor"))
        }
    }

    /// Finds a walk from the start node to the end node by breadth-first
    /// search: a sequence of nodes joined by recorded passages, beginning
    /// at the start and ending at the end. Returns `None` exactly when no
    /// such walk exists (which the constructor's connectivity guarantee
    /// rules out for the mazes it builds).
    pub fn find_path(&self) -> (r: Option<Vec<NodeId>>)
        requires
            self.wf(),
        ensures
            match r {
                Some(path) => self.is_path(path@, self.spec_start(), self.spec_end()),
                None => !self.reachable(self.spec_start(), self.spec_end()),
            },
    {
        let ghost es = self.graph@;
        let n = self.graph.len();
        let mut visited: Vec<bool> = Vec::new();
        let mut came_from: Vec<Option<NodeId>> = Vec::new();
        let mut i: usize = 0;
        while i < n
            invariant
                0 <= i <= n,
                visited@.len() == i,
                came_from@.len() == i,
                forall|j: int| 0 <= j < i ==> !visited@[j],
                forall|j: int| 0 <= j < i ==> (#[trigger] came_from@[j]) is None,
            decreases n - i,
        {
            visited.push(false);
            came_from.push(None);
            i = i + 1;
        }
        let mut queue: Vec<NodeId> = Vec::new();
        visited.set(self.start.0, true);
        queue.push(self.start);
        let ghost mut depth: Seq<nat> = Seq::new(n as nat, |j: int| 0nat);
        proof {
            assert(queue@[0] == self.start);
            assert forall|v: int|
                0 <= v < n && visited@[v] implies exists|k: int|
                    0 <= k < queue@.len() && (#[trigger] queue@[k]).0 == v by {
                assert(v == self.start.0 as int);
                assert((queue@[0]).0 == v);
            }
        }
        let mut qhead: usize = 0;
        while qhead < queue.len()
            invariant
                self.wf(),
                es == self.graph@,
                n == self.graph@.len(),
                visited@.len() == n,
                came_from@.len() == n,
                depth.len() == n,
                0 <= qhead <= queue@.len(),
                visited@[self.start.0 as int],
                came_from@[self.start.0 as int] is None,
                forall|k: int|
                    0 <= k < queue@.len() ==> (#[trigger] queue@[k]).0 < n
                        && visited@[(queue@[k]).0 as int],
                forall|v: int|
                    0 <= v < n && visited@[v] ==> exists|k: int|
                        0 <= k < queue@.len() && (#[trigger] queue@[k]).0 == v,
                forall|k: int, b: NodeId|
                    0 <= k < qhead && #[trigger] edge_of(es, queue@[k], b) ==> b.0 < n
                        && visited@[b.0 as int],
                forall|k: int| 0 <= k < qhead ==> (#[trigger] queue@[k]) != self.end,
                forall|v: int|
                    0 <= v < n ==> ((#[trigger] came_from@[v]) matches Some(u) ==> (u.0 < n
                        && visited@[v] && visited@[u.0 as int] && edge_of(
                        es,
                        u,
                        NodeId(v as usize),
                    ) && depth[u.0 as int] < depth[v])),
                forall|v: int|
                    0 <= v < n && visited@[v] && (#[trigger] came_from@[v]) is None ==> v
                        == self.start.0,
            decreases count_false(visited@), queue@.len() - qhead,
        {
            let current = queue[qhead];
            if current.0 == self.end.0 {
                proof {
                    assert(current == self.end);
                }
                // walk the predecessor links backward from the end
                let mut rev: Vec<NodeId> = Vec::new();
                rev.push(current);
                let mut cur = current;
                loop
                    invariant_except_break
                        es == self.graph@,
                        n == self.graph@.len(),
                        came_from@.len() == n,
                        visited@.len() == n,
                        depth.len() == n,
                        self.wf(),
                        visited@[self.start.0 as int],
                        came_from@[self.start.0 as int] is None,
                        forall|v: int|
                            0 <= v < n ==> ((#[trigger] came_from@[v]) matches Some(u) ==> (u.0
                                < n && visited@[v] && visited@[u.0 as int] && edge_of(
                                es,
                                u,
                                NodeId(v as usize),
                            ) && depth[u.0 as int] < depth[v])),
                        forall|v: int|
                            0 <= v < n && visited@[v] && (#[trigger] came_from@[v]) is None ==> v
                                == self.start.0,
                        cur.0 < n,
                        visited@[cur.0 as int],
                        rev@.len() >= 1,
                        rev@[0] == self.end,
                        rev@.last() == cur,
                        forall|x: int|
                            0 <= x < rev@.len() - 1 ==> edge_of(es, rev@[x + 1], #[trigger] rev@[x]),
                    ensures
                        rev@.len() >= 1,
                        rev@[0] == self.end,
                        rev@.last() == self.start,
                        forall|x: int|
                            0 <= x < rev@.len() - 1 ==> edge_of(es, rev@[x + 1], #[trigger] rev@[x]),
                    decreases depth[cur.0 as int],
                {
                    let prev_opt = came_from[cur.0];
                    match prev_opt {
                        Some(prev) => {
                            let ghost old_rev = rev@;
                            rev.push(prev);
                            proof {
                                assert forall|x: int|
                                    0 <= x < rev@.len() - 1 implies edge_of(
                                    es,
                                    rev@[x + 1],
                                    #[trigger] rev@[x],
                                ) by {
                                    if x < old_rev.len() - 1 {
                                        assert(rev@[x] == old_rev[x]);
                                        assert(rev@[x + 1] == old_rev[x + 1]);
                                    } else {
                                        assert(rev@[x] == cur);
                                        assert(rev@[x + 1] == prev);
                                        assert(edge_of(es, prev, NodeId(cur.0)));
                                        assert(NodeId(cur.0) == cur);
                                    }
                                }
                            }
                            cur = prev;
                        },
                        None => {
                            proof {
                                assert(cur.0 as int == self.start.0 as int);
                                assert(cur == self.start);
                            }
                            break ;
                        },
                    }
                }
                // reverse it into start-to-end order
                let total = rev.len();
                let mut path: Vec<NodeId> = Vec::new();
                let mut k: usize = 0;
                while k < total
                    invariant
                        total == rev@.len(),
                        rev@.len() >= 1,
                        0 <= k <= total,
                        path@.len() == k,
                        forall|x: int| 0 <= x < k ==> #[trigger] path@[x] == rev@[total - 1 - x],
                    decreases total - k,
                {
                    path.push(rev[total - 1 - k]);
                    k = k + 1;
                }
                proof {
                    assert(path@[0] == rev@[total - 1]);
                    assert(path@.last() == rev@[0]);
                    assert forall|x: int|
                        0 <= x < path@.len() - 1 implies edge_of(
                        es,
                        #[trigger] path@[x],
                        path@[x + 1],
                    ) by {
                        assert(path@[x] == rev@[total - 1 - x]);
                        assert(path@[x + 1] == rev@[total - 2 - x]);
                        assert(edge_of(es, rev@[(total - 2 - x) + 1], rev@[total - 2 - x]));
                    }
                    assert(self.is_path(path@, self.spec_start(), self.spec_end()));
                }
                return Some(path);
            }
            // discover the neighbors of the current node
            let nbrs = self.neighbors(current);
            let ghost head_cf = count_false(visited@);
            let ghost head_qlen = queue@.len();
            let mut j: usize = 0;
            while j < nbrs.len()
                invariant
                    self.wf(),
                    es == self.graph@,
                    n == self.graph@.len(),
                    visited@.len() == n,
                    came_from@.len() == n,
                    depth.len() == n,
                    0 <= qhead < head_qlen,
                    head_qlen <= queue@.len(),
                    queue@[qhead as int] == current,
                    current.0 < n,
                    current != self.end,
                    visited@[current.0 as int],
                    forall|b: NodeId| #[trigger] nbrs@.contains(b) <==> edge_of(es, current, b),
                    0 <= j <= nbrs@.len(),
                    forall|x: int|
                        0 <= x < j ==> (#[trigger] nbrs@[x]).0 < n && visited@[(nbrs@[x]).0 as int],
                    count_false(visited@) + (queue@.len() - head_qlen) == head_cf,
                    count_false(visited@) <= head_cf,
                    visited@[self.start.0 as int],
                    came_from@[self.start.0 as int] is None,
                    forall|k: int|
                        0 <= k < queue@.len() ==> (#[trigger] queue@[k]).0 < n
                            && visited@[(queue@[k]).0 as int],
                    forall|v: int|
                        0 <= v < n && visited@[v] ==> exists|k: int|
                            0 <= k < queue@.len() && (#[trigger] queue@[k]).0 == v,
                    forall|k: int, b: NodeId|
                        0 <= k < qhead && #[trigger] edge_of(es, queue@[k], b) ==> b.0 < n
                            && visited@[b.0 as int],
                    forall|k: int| 0 <= k < qhead ==> (#[trigger] queue@[k]) != self.end,
                    forall|v: int|
                        0 <= v < n ==> ((#[trigger] came_from@[v]) matches Some(u) ==> (u.0 < n
                            && visited@[v] && visited@[u.0 as int] && edge_of(
                            es,
                            u,
                            NodeId(v as usize),
                        ) && depth[u.0 as int] < depth[v])),
                    forall|v: int|
                        0 <= v < n && visited@[v] && (#[trigger] came_from@[v]) is None ==> v
                            == self.start.0,
                decreases nbrs@.len() - j,
            {
                let b = nbrs[j];
                proof {
                    assert(nbrs@.contains(b));
                    assert(edge_of(es, current, b));
                    assert(b.0 < n);
                }
                if !visited[b.0] {
                    let ghost old_visited = visited@;
                    visited.set(b.0, true);
                    came_from.set(b.0, Some(current));
                    proof {
                        lemma_count_false_set_true(old_visited, b.0 as int, old_visited.len() as int);
                        depth = depth.update(b.0 as int, (depth[current.0 as int] + 1) as nat);
                        assert(NodeId(b.0 as int as usize) == b);
                    }
                    let ghost old_queue = queue@;
                    queue.push(b);
                    proof {
                        assert forall|v: int|
                            0 <= v < n && visited@[v] implies exists|k: int|
                                0 <= k < queue@.len() && (#[trigger] queue@[k]).0 == v by {
                            if v == b.0 as int {
                                assert((queue@[queue@.len() - 1]).0 == v);
                            } else {
                                assert(old_visited[v]);
                                let k = choose|k: int|
                                    0 <= k < old_queue.len() && (#[trigger] old_queue[k]).0 == v;
                                assert(queue@[k] == old_queue[k]);
                                assert((queue@[k]).0 == v);
                            }
                        }
                    }
                }
                j = j + 1;
            }
            proof {
                assert forall|k: int, b: NodeId|
                    0 <= k < qhead + 1 && #[trigger] edge_of(es, queue@[k], b) implies b.0 < n
                        && visited@[b.0 as int] by {
                    if k == qhead {
                        assert(nbrs@.contains(b));
                        let x = choose|x: int| 0 <= x < nbrs@.len() && nbrs@[x] == b;
                    }
                }
            }
            qhead = qhead + 1;
        }
        proof {
            if visited@[self.end.0 as int] {
                let k = choose|k: int|
                    0 <= k < queue@.len() && (#[trigger] queue@[k]).0 == self.end.0 as int;
                assert(queue@[k] == self.end);
                assert(false);
            }
            if self.reachable(self.spec_start(), self.spec_end()) {
                let p = choose|p: Seq<NodeId>| path_of(es, p, self.start, self.end);
                assert forall|u: NodeId, w: NodeId|
                    u.0 < n && visited@[u.0 as int] && #[trigger] edge_of(es, u, w) implies w.0 < n
                        && visited@[w.0 as int] by {
                    let k = choose|k: int|
                        0 <= k < queue@.len() && (#[trigger] queue@[k]).0 == u.0 as int;
                    assert(queue@[k] == u);
                    assert(edge_of(es, queue@[k], w));
                }
                lemma_path_stays_marked(es, visited@, p, self.start, self.end, n as int);
                assert(false);
            }
        }
        None
    }

    /// One line of the visualization: a node, then its neighbors joined
    /// by commas.
    pub open spec fn spec_line(self, i: int) -> Seq<char> {
        let ns = adj_of(self.spec_graph(), NodeId(i as usize));
        node_text(NodeId(i as usize)) + seq![':', ' '] + nodes_joined_upto(ns, ns.len() as int)
    }

    /// The visualization's lines for nodes `0..i`, each on a line of its
    /// own under the header.
    pub open spec fn spec_lines_upto(self, i: int) -> Seq<char>
        decreases i,
    {
        if i <= 0 {
            Seq::empty()
        } else {
            self.spec_lines_upto(i - 1) + seq!['\n'] + self.spec_line(i - 1)
        }
    }

    /// The visualization's header, naming the start, end and current
    /// nodes.
    pub open spec fn spec_header(self) -> Seq<char> {
        seq![
            'M', 'a', 'z', 'e', ' ', 'V', 'i', 's', 'u', 'a', 'l', 'i', 'z', 'a', 't', 'i', 'o',
            'n', ' ', '(', 'S', 't', 'a', 'r', 't', ':', ' ',
        ] + node_text(self.spec_start()) + seq![',', ' ', 'E', 'n', 'd', ':', ' '] + node_text(
            self.spec_end(),
        ) + seq![',', ' ', 'C', 'u', 'r', 'r', 'e', 'n', 't', ':', ' '] + node_text(
            self.spec_current(),
        ) + seq![')', ':']
    }

    /// The full text visualization: the header, then one line per node
    /// listing its neighbors in recording order.
    pub open spec fn spec_visualize(self) -> Seq<char> {
        self.spec_header() + self.spec_lines_upto(self.spec_node_count() as int)
    }

    /// Appends a node's text form.
    fn push_node_text(s: &mut String, a: NodeId)
        ensures
            final(s)@ == old(s)@ + node_text(a),
    {
        let prefix: [char; 7] = ['N', 'o', 'd', 'e', 'I', 'd', '('];
        push_chars(s, prefix.as_slice());
        push_decimal(s, a.0);
        push_char(s, ')');
        proof {
            assert(s@ =~= old(s)@ + node_text(a));
        }
    }

    /// Renders a simple textual visualization of the maze graph: each
    /// node is listed with its connections.
    pub fn visualize(&self) -> (r: String)
        ensures
            r@ == self.spec_visualize(),
    {
        let mut s = String::new();
        let header: [char; 27] = [
            'M', 'a', 'z', 'e', ' ', 'V', 'i', 's', 'u', 'a', 'l', 'i', 'z', 'a', 't', 'i', 'o',
            'n', ' ', '(', 'S', 't', 'a', 'r', 't', ':', ' ',
        ];
        push_chars(&mut s, header.as_slice());
        Self::push_node_text(&mut s, self.start);
        let end_label: [char; 7] = [',', ' ', 'E', 'n', 'd', ':', ' '];
        push_chars(&mut s, end_label.as_slice());
        Self::push_node_text(&mut s, self.end);
        let current_label: [char; 11] = [',', ' ', 'C', 'u', 'r', 'r', 'e', 'n', 't', ':', ' '];
        push_chars(&mut s, current_label.as_slice());
        Self::push_node_text(&mut s, self.current);
        let closing: [char; 2] = [')', ':'];
        push_chars(&mut s, closing.as_slice());
        proof {
            assert(s@ =~= self.spec_header());
            assert(s@ =~= self.spec_header() + self.spec_lines_upto(0));
        }
        let n = self.graph.len();
        let mut i: usize = 0;
        while i < n
            invariant
                n == self.graph@.len(),
                0 <= i <= n,
                s@ == self.spec_header() + self.spec_lines_upto(i as int),
            decreases n - i,
        {
            push_char(&mut s, '\n');
            Self::push_node_text(&mut s, NodeId(i));
            let colon: [char; 2] = [':', ' '];
            push_chars(&mut s, colon.as_slice());
            let nbrs = self.neighbors(NodeId(i));
            let ghost pre_join = s@;
            let mut j: usize = 0;
            while j < nbrs.len()
                invariant
                    0 <= j <= nbrs@.len(),
                    nbrs@ == adj_of(self.spec_graph(), NodeId(i)),
                    s@ == pre_join + nodes_joined_upto(nbrs@, j as int),
                decreases nbrs@.len() - j,
            {
                if j > 0 {
                    let sep: [char; 2] = [',', ' '];
                    push_chars(&mut s, sep.as_slice());
                }
                Self::push_node_text(&mut s, nbrs[j]);
                proof {
                    assert(s@ =~= pre_join + nodes_joined_upto(nbrs@, j + 1 as int));
                }
                j = j + 1;
            }
            proof {
                assert(s@ =~= self.spec_header() + self.spec_lines_upto(i + 1 as int));
            }
            i = i + 1;
        }
        s
    }

    /// Creates a new randomly generated maze over `num_nodes` nodes, or
    /// fails when fewer than two are requested. The graph is a random
    /// spanning tree plus a few extra random edges, so every node —
    /// the exit in particular — is reachable from the start.
    pub fn new(num_nodes: usize) -> (result: Result<Maze, MazeError>)
        ensures
            num_nodes < 2 ==> result == Err::<Maze, MazeError>(MazeError::TooFewNodes),
            num_nodes >= 2 ==> (result matches Ok(m) && {
                &&& m.wf()
                &&& m.spec_node_count() == num_nodes
                &&& m.spec_start() == (NodeId(0))
                &&& m.spec_end() == (NodeId((num_nodes - 1) as usize))
                &&& m.spec_current() == m.spec_start()
                &&& forall|a: NodeId| a.0 < num_nodes ==> m.reachable(m.spec_start(), a)
            }),
    {
        if num_nodes < 2 {
            return Err(MazeError::TooFewNodes);
        }
        let mut rng = new_rng();

        let mut graph: Vec<Vec<NodeId>> = Vec::new();
        let mut v: usize = 0;
        while v < num_nodes
            invariant
                0 <= v <= num_nodes,
                graph@.len() == v,
                forall|j: int| 0 <= j < v ==> (#[trigger] graph@[j])@ =~= Seq::<NodeId>::empty(),
            decreases num_nodes - v,
        {
            graph.push(Vec::new());
            v = v + 1;
        }
        proof {
            assert forall|x: NodeId, y: NodeId| !edge_of(graph@, x, y) by {}
        }

        // build a random spanning tree: connect each node, in a random
        // order, to a random already-placed node
        let mut nodes: Vec<NodeId> = Vec::new();
        let mut w: usize = 0;
        while w < num_nodes
            invariant
                0 <= w <= num_nodes,
                nodes@.len() == w,
                forall|j: int| 0 <= j < w ==> nodes@[j] == (NodeId(j as usize)),
            decreases num_nodes - w,
        {
            nodes.push(NodeId(w));
            w = w + 1;
        }
        let ghost orig = nodes@;
        shuffle_vec(&mut nodes, &mut rng);
        proof {
            vstd::seq_lib::to_multiset_len(orig);
            vstd::seq_lib::to_multiset_len(nodes@);
            assert(nodes@.len() == num_nodes);
            assert forall|a: NodeId| a.0 < num_nodes implies nodes@.contains(a) by {
                assert(orig[a.0 as int] == a);
                assert(orig.contains(a));
                vstd::seq_lib::to_multiset_contains(orig, a);
                vstd::seq_lib::to_multiset_contains(nodes@, a);
            }
            assert forall|j: int| 0 <= j < nodes@.len() implies (#[trigger] nodes@[j]).0
                < num_nodes by {
                assert(nodes@.contains(nodes@[j]));
                vstd::seq_lib::to_multiset_contains(nodes@, nodes@[j]);
                vstd::seq_lib::to_multiset_contains(orig, nodes@[j]);
                let k = choose|k: int| 0 <= k < orig.len() && orig[k] == nodes@[j];
            }
        }
        let ghost gn = num_nodes as int;
        let ghost hub = nodes@[0];
        proof {
            lemma_reach_refl(graph@, hub);
        }
        let mut i: usize = 1;
        while i < nodes.len()
            invariant
                nodes@.len() == num_nodes,
                num_nodes >= 2,
                hub == nodes@[0],
                forall|j: int| 0 <= j < nodes@.len() ==> (#[trigger] nodes@[j]).0 < num_nodes,
                1 <= i <= nodes@.len(),
                graph@.len() == num_nodes,
                edges_wf(graph@, gn),
                gn == num_nodes as int,
                forall|j: int|
                    0 <= j < i ==> reach_of(graph@, hub, #[trigger] nodes@[j]) && reach_of(
                        graph@,
                        nodes@[j],
                        hub,
                    ),
            decreases nodes@.len() - i,
        {
            let a = nodes[i];
            let r = random_below(&mut rng, i);
            let b = nodes[r];
            let ghost g0 = graph@;
            add_edge(&mut graph, a, b);
            proof {
                assert forall|x: NodeId, y: NodeId|
                    #[trigger] edge_of(graph@, x, y) implies y.0 < gn && edge_of(graph@, y, x) by {
                    if edge_of(g0, x, y) {
                        assert(edge_of(graph@, y, x));
                    }
                }
                assert forall|j: int|
                    0 <= j < i + 1 implies reach_of(graph@, hub, #[trigger] nodes@[j]) && reach_of(
                    graph@,
                    nodes@[j],
                    hub,
                ) by {
                    if j < i {
                        lemma_reach_monotone(g0, graph@, hub, nodes@[j]);
                        lemma_reach_monotone(g0, graph@, nodes@[j], hub);
                    } else {
                        lemma_reach_monotone(g0, graph@, hub, b);
                        lemma_reach_monotone(g0, graph@, b, hub);
                        lemma_reach_extend(graph@, hub, b, a);
                        lemma_reach_front(graph@, a, b, hub);
                    }
                }
            }
            i = i + 1;
        }

        // a few extra random edges, skipping self-loops and repeats
        let extra_edges = num_nodes / 3;
        let mut t: usize = 0;
        while t < extra_edges
            invariant
                nodes@.len() == num_nodes,
                num_nodes >= 2,
                hub == nodes@[0],
                forall|j: int| 0 <= j < nodes@.len() ==> (#[trigger] nodes@[j]).0 < num_nodes,
                0 <= t <= extra_edges,
                graph@.len() == num_nodes,
                edges_wf(graph@, gn),
                gn == num_nodes as int,
                forall|j: int|
                    0 <= j < nodes@.len() ==> reach_of(graph@, hub, #[trigger] nodes@[j])
                        && reach_of(graph@, nodes@[j], hub),
            decreases extra_edges - t,
        {
            let a = NodeId(random_below(&mut rng, num_nodes));
            let b = NodeId(random_below(&mut rng, num_nodes));
            let probe = Maze {
                start: NodeId(0),
                end: NodeId(num_nodes - 1),
                current: NodeId(0),
                graph,
            };
            let already = probe.has_edge(a, b);
            graph = probe.graph;
            if a.0 != b.0 && !already {
                let ghost g0 = graph@;
                add_edge(&mut graph, a, b);
                proof {
                    assert forall|x: NodeId, y: NodeId|
                        #[trigger] edge_of(graph@, x, y) implies y.0 < gn && edge_of(
                        graph@,
                        y,
                        x,
                    ) by {
                        if edge_of(g0, x, y) {
                            assert(edge_of(graph@, y, x));
                        }
                    }
                    assert forall|j: int|
                        0 <= j < nodes@.len() implies reach_of(
                        graph@,
                        hub,
                        #[trigger] nodes@[j],
                    ) && reach_of(graph@, nodes@[j], hub) by {
                        lemma_reach_monotone(g0, graph@, hub, nodes@[j]);
                        lemma_reach_monotone(g0, graph@, nodes@[j], hub);
                    }
                }
            }
            t = t + 1;
        }

        let m = Maze { start: NodeId(0), end: NodeId(num_nodes - 1), current: NodeId(0), graph };
        proof {
            assert forall|a: NodeId| a.0 < num_nodes implies m.reachable(m.spec_start(), a) by {
                assert(nodes@.contains(a));
                let j = choose|j: int| 0 <= j < nodes@.len() && nodes@[j] == a;
                assert(reach_of(m.graph@, hub, a));
                assert(nodes@.contains(NodeId(0)));
                let j0 = choose|j0: int| 0 <= j0 < nodes@.len() && nodes@[j0] == (NodeId(0));
                assert(reach_of(m.graph@, NodeId(0), hub));
                lemma_reach_trans(m.graph@, NodeId(0), hub, a);
            }
        }
        Ok(m)
    }
}

} // verus!
