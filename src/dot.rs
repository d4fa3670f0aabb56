//! The rank-tiered breadth-first rendering of a graph: its model as spec
//! functions, and the executable renderer proved to meet it.
use vstd::prelude::*;
use crate::graph::{
    DotError, Edge, Graph, dangling_position, edge_in_range, edges_of, edges_valid, is_first_dangling,
    label_of, node_count,
};

verus! {

/// Number of `true` entries.
pub open spec fn num_true(s: Seq<bool>) -> nat
    decreases s.len(),
{
    if s.len() == 0 {
        0
    } else {
        num_true(s.drop_last()) + if s.last() {
            1nat
        } else {
            0nat
        }
    }
}

/// The visited markers and the next frontier after scanning the first `j`
/// edges of node `u`: each target not yet visited is marked and appended.
pub open spec fn scan_edges(g: &Graph, vis: Seq<bool>, next: Seq<usize>, u: int, j: int) -> (Seq<
    bool,
>, Seq<usize>)
    decreases j,
{
    if j <= 0 {
        (vis, next)
    } else {
        let (v, nx) = scan_edges(g, vis, next, u, j - 1);
        let t = edges_of(g, u)[j - 1].to.0;
        if v[t as int] {
            (v, nx)
        } else {
            (v.update(t as int, true), nx.push(t))
        }
    }
}

/// The visited markers and the next frontier after scanning every edge of the
/// first `k` nodes of frontier `fr`.
pub open spec fn scan_tier(g: &Graph, vis: Seq<bool>, fr: Seq<usize>, k: int) -> (Seq<bool>, Seq<
    usize,
>)
    decreases k,
{
    if k <= 0 {
        (vis, Seq::empty())
    } else {
        let (v, nx) = scan_tier(g, vis, fr, k - 1);
        let u = fr[k - 1] as int;
        scan_edges(g, v, nx, u, edges_of(g, u).len() as int)
    }
}

/// The statement for one edge: `  "<from>" -> "<to>"` and a line break.
pub open spec fn edge_line(g: &Graph, e: Edge) -> Seq<char> {
    "  \""@ + label_of(g, e.from.0 as int) + "\" -> \""@ + label_of(g, e.to.0 as int) + "\"\n"@
}

/// The statements for the first `j` edges of node `u`, in edge order.
pub open spec fn node_edge_text(g: &Graph, u: int, j: int) -> Seq<char>
    decreases j,
{
    if j <= 0 {
        Seq::empty()
    } else {
        node_edge_text(g, u, j - 1) + edge_line(g, edges_of(g, u)[j - 1])
    }
}

/// The edge statements of the first `k` nodes of frontier `fr`, node after node.
pub open spec fn tier_edge_text(g: &Graph, fr: Seq<usize>, k: int) -> Seq<char>
    decreases k,
{
    if k <= 0 {
        Seq::empty()
    } else {
        let u = fr[k - 1] as int;
        tier_edge_text(g, fr, k - 1) + node_edge_text(g, u, edges_of(g, u).len() as int)
    }
}

/// The quoted labels of the first `k` nodes of `fr`, each followed by a space.
pub open spec fn members_text(g: &Graph, fr: Seq<usize>, k: int) -> Seq<char>
    decreases k,
{
    if k <= 0 {
        Seq::empty()
    } else {
        members_text(g, fr, k - 1) + "\""@ + label_of(g, fr[k - 1] as int) + "\" "@
    }
}

/// The opening of a rank group, tagged `max` or `same`.
pub open spec fn rank_open(max: bool) -> Seq<char> {
    if max {
        "  { rank=\"max\"; "@
    } else {
        "  { rank=\"same\"; "@
    }
}

/// The rank-group statement for the nodes of `fr`.
pub open spec fn rank_line(g: &Graph, fr: Seq<usize>, max: bool) -> Seq<char> {
    rank_open(max) + members_text(g, fr, fr.len() as int) + "}\n"@
}

/// One rank tier as emitted: its nodes in discovery order, whether it is
/// tagged maximal, and whether its edge statements follow it.
pub struct Tier {
    pub members: Seq<usize>,
    pub max: bool,
    pub with_edges: bool,
}

/// Nodes not yet processed when `count` have been.
pub open spec fn remaining(g: &Graph, count: int) -> nat {
    if count >= node_count(g) {
        0
    } else {
        (node_count(g) - count) as nat
    }
}

/// The tiers emitted from a traversal state: visited markers `vis`, current
/// frontier `fr`, and `count` nodes processed so far. When every node has been
/// processed, or when the frontier's edges discover no new node, the frontier
/// is the last tier: it is tagged maximal and its edge statements are not
/// emitted, so the footer follows it directly.
pub open spec fn tiers_from(g: &Graph, vis: Seq<bool>, fr: Seq<usize>, count: int) -> Seq<Tier>
    decreases remaining(g, count),
{
    if count >= node_count(g) {
        seq![Tier { members: fr, max: true, with_edges: false }]
    } else {
        let (vis2, next) = scan_tier(g, vis, fr, fr.len() as int);
        if next.len() == 0 {
            seq![Tier { members: fr, max: true, with_edges: false }]
        } else {
            seq![Tier { members: fr, max: false, with_edges: true }] + tiers_from(
                g,
                vis2,
                next,
                count + next.len(),
            )
        }
    }
}

/// The text of one emitted tier: its rank group, then its edge statements if
/// they are followed.
pub open spec fn tier_text(g: &Graph, t: Tier) -> Seq<char> {
    rank_line(g, t.members, t.max) + if t.with_edges {
        tier_edge_text(g, t.members, t.members.len() as int)
    } else {
        Seq::empty()
    }
}

/// The text of tiers `ts`, first to last.
pub open spec fn render(g: &Graph, ts: Seq<Tier>) -> Seq<char>
    decreases ts.len(),
{
    if ts.len() == 0 {
        Seq::empty()
    } else {
        tier_text(g, ts[0]) + render(g, ts.drop_first())
    }
}

/// Visited markers at the start: only the root.
pub open spec fn initial_visited(g: &Graph) -> Seq<bool> {
    Seq::new(node_count(g) as nat, |i: int| i == 0)
}

/// The rank tiers of `g`, in the order they are emitted.
pub open spec fn dot_tiers(g: &Graph) -> Seq<Tier> {
    tiers_from(g, initial_visited(g), seq![0usize], 1)
}

/// The full description of `g`: header, tiers, footer.
pub open spec fn dot_text(g: &Graph) -> Seq<char> {
    "digraph {\n"@ + render(g, dot_tiers(g)) + "}"@
}

/// What rendering `g` returns: the description when the graph is non-empty and
/// every edge is in range, else the error for the empty graph or for the first
/// edge out of range.
pub open spec fn gen_dot_result(g: &Graph, r: Result<String, DotError>) -> bool {
    match r {
        Ok(s) => node_count(g) > 0 && edges_valid(g) && s@ == dot_text(g),
        Err(DotError::EmptyGraph) => node_count(g) == 0,
        Err(DotError::DanglingEdge(p)) => node_count(g) > 0 && exists|i: int, j: int|
            is_first_dangling(g, i, j) && p == dangling_position(g, #[trigger] edges_of(g, i)[j]),
    }
}

/// Every entry of `fr` is a node of `g`.
pub open spec fn in_range(g: &Graph, fr: Seq<usize>) -> bool {
    forall|k: int| 0 <= k < fr.len() ==> #[trigger] fr[k] < node_count(g)
}

pub(crate) proof fn lemma_num_true_le(s: Seq<bool>)
    ensures
        num_true(s) <= s.len(),
    decreases s.len(),
{
    if s.len() > 0 {
        lemma_num_true_le(s.drop_last());
    }
}

pub(crate) proof fn lemma_all_false(n: nat)
    ensures
        num_true(Seq::new(n, |k: int| false)) == 0,
    decreases n,
{
    if n > 0 {
        assert(Seq::new(n, |k: int| false).drop_last() =~= Seq::new((n - 1) as nat, |k: int| false));
        lemma_all_false((n - 1) as nat);
    }
}

pub(crate) proof fn lemma_initial_count(g: &Graph)
    requires
        node_count(g) > 0,
    ensures
        num_true(initial_visited(g)) == 1,
{
    let n = node_count(g) as nat;
    let v = initial_visited(g);
    assert(v.update(0, false) =~= Seq::new(n, |k: int| false));
    lemma_all_false(n);
    lemma_num_true_set(v.update(0, false), 0);
    assert(v.update(0, false).update(0, true) =~= v);
}

pub(crate) proof fn lemma_num_true_set(s: Seq<bool>, i: int)
    requires
        0 <= i < s.len(),
        !s[i],
    ensures
        num_true(s.update(i, true)) == num_true(s) + 1,
    decreases s.len(),
{
    let t = s.update(i, true);
    if i == s.len() - 1 {
        assert(t.drop_last() =~= s.drop_last());
    } else {
        assert(t.drop_last() =~= s.drop_last().update(i, true));
        lemma_num_true_set(s.drop_last(), i);
    }
}

pub(crate) proof fn lemma_scan_edges(g: &Graph, vis: Seq<bool>, next: Seq<usize>, u: int, j: int)
    requires
        edges_valid(g),
        vis.len() == node_count(g),
        0 <= u < node_count(g),
        0 <= j <= edges_of(g, u).len(),
        in_range(g, next),
    ensures
        ({
            let (v, nx) = scan_edges(g, vis, next, u, j);
            &&& v.len() == node_count(g)
            &&& in_range(g, nx)
            &&& nx.len() >= next.len()
            &&& num_true(v) == num_true(vis) + nx.len() - next.len()
        }),
    decreases j,
{
    if j > 0 {
        lemma_scan_edges(g, vis, next, u, j - 1);
        let (v, nx) = scan_edges(g, vis, next, u, j - 1);
        let t = edges_of(g, u)[j - 1].to.0;
        assert(t < node_count(g));
        if !v[t as int] {
            lemma_num_true_set(v, t as int);
        }
    }
}

pub(crate) proof fn lemma_scan_tier(g: &Graph, vis: Seq<bool>, fr: Seq<usize>, k: int)
    requires
        edges_valid(g),
        vis.len() == node_count(g),
        in_range(g, fr),
        0 <= k <= fr.len(),
    ensures
        ({
            let (v, nx) = scan_tier(g, vis, fr, k);
            &&& v.len() == node_count(g)
            &&& in_range(g, nx)
            &&& num_true(v) == num_true(vis) + nx.len()
        }),
    decreases k,
{
    if k > 0 {
        lemma_scan_tier(g, vis, fr, k - 1);
        let (v, nx) = scan_tier(g, vis, fr, k - 1);
        let u = fr[k - 1] as int;
        lemma_scan_edges(g, v, nx, u, edges_of(g, u).len() as int);
    }
}

/// Appends the rank-group statement for the nodes of `fr` to `s`.
fn write_rank_line(g: &Graph, s: &mut String, fr: &Vec<usize>, max: bool)
    requires
        in_range(g, fr@),
    ensures
        final(s)@ == old(s)@ + rank_line(g, fr@, max),
{
    if max {
        s.append("  { rank=\"max\"; ");
    } else {
        s.append("  { rank=\"same\"; ");
    }
    let mut k: usize = 0;
    while k < fr.len()
        invariant
            in_range(g, fr@),
            0 <= k <= fr@.len(),
            s@ == old(s)@ + rank_open(max) + members_text(g, fr@, k as int),
        decreases fr@.len() - k,
    {
        s.append("\"");
        s.append(g.nodes[fr[k]].label.as_str());
        s.append("\" ");
        assert(s@ =~= old(s)@ + rank_open(max) + members_text(g, fr@, k + 1));
        k = k + 1;
    }
    s.append("}\n");
    assert(s@ =~= old(s)@ + rank_line(g, fr@, max));
}

/// Follows every edge of node `u`: appends its statement to `text`, and marks
/// and queues each target not yet visited.
fn scan_node(g: &Graph, u: usize, vis: &mut Vec<bool>, next: &mut Vec<usize>, text: &mut String)
    requires
        edges_valid(g),
        u < node_count(g),
        old(vis)@.len() == node_count(g),
    ensures
        final(vis)@.len() == node_count(g),
        (final(vis)@, final(next)@) == scan_edges(
            g,
            old(vis)@,
            old(next)@,
            u as int,
            edges_of(g, u as int).len() as int,
        ),
        final(text)@ == old(text)@ + node_edge_text(
            g,
            u as int,
            edges_of(g, u as int).len() as int,
        ),
{
    let edges = &g.nodes[u].edges;
    let mut j: usize = 0;
    while j < edges.len()
        invariant
            edges_valid(g),
            u < node_count(g),
            edges@ == edges_of(g, u as int),
            0 <= j <= edges@.len(),
            vis@.len() == node_count(g),
            (vis@, next@) == scan_edges(g, old(vis)@, old(next)@, u as int, j as int),
            text@ == old(text)@ + node_edge_text(g, u as int, j as int),
        decreases edges@.len() - j,
    {
        let e = edges[j];
        assert(edge_in_range(g, edges_of(g, u as int)[j as int]));
        text.append("  \"");
        text.append(g.nodes[e.from.0].label.as_str());
        text.append("\" -> \"");
        text.append(g.nodes[e.to.0].label.as_str());
        text.append("\"\n");
        assert(text@ =~= old(text)@ + node_edge_text(g, u as int, j + 1));
        let t = e.to.0;
        if !vis[t] {
            vis[t] = true;
            next.push(t);
        }
        j = j + 1;
    }
}

/// Follows the edges of every node of frontier `fr`, in order; returns the next
/// frontier and the edge statements.
fn scan_frontier(g: &Graph, fr: &Vec<usize>, vis: &mut Vec<bool>) -> (r: (Vec<usize>, String))
    requires
        edges_valid(g),
        in_range(g, fr@),
        old(vis)@.len() == node_count(g),
    ensures
        (final(vis)@, r.0@) == scan_tier(g, old(vis)@, fr@, fr@.len() as int),
        r.1@ == tier_edge_text(g, fr@, fr@.len() as int),
{
    let mut next: Vec<usize> = Vec::new();
    let mut text = String::new();
    let mut k: usize = 0;
    while k < fr.len()
        invariant
            edges_valid(g),
            in_range(g, fr@),
            0 <= k <= fr@.len(),
            old(vis)@.len() == node_count(g),
            vis@.len() == node_count(g),
            (vis@, next@) == scan_tier(g, old(vis)@, fr@, k as int),
            text@ == tier_edge_text(g, fr@, k as int),
        decreases fr@.len() - k,
    {
        proof {
            lemma_scan_tier(g, old(vis)@, fr@, k as int);
        }
        scan_node(g, fr[k], vis, &mut next, &mut text);
        assert(text@ =~= tier_edge_text(g, fr@, k + 1));
        k = k + 1;
    }
    (next, text)
}

pub(crate) proof fn lemma_render_cons(g: &Graph, t: Tier, rest: Seq<Tier>)
    ensures
        render(g, seq![t] + rest) == tier_text(g, t) + render(g, rest),
{
    assert((seq![t] + rest).drop_first() =~= rest);
}

impl Graph {
    /// Renders the graph as a `digraph` description whose rank groups are the
    /// breadth-first tiers from node 0. Fails on an empty graph, and on an edge
    /// with an endpoint outside the graph (the first one, in node order and
    /// then edge order), with no partial text.
    pub fn gen_dot(&self) -> (r: Result<String, DotError>)
        ensures
            gen_dot_result(self, r),
    {
        let n = self.nodes.len();
        if n == 0 {
            return Err(DotError::EmptyGraph);
        }
        match self.first_dangling() {
            Some(p) => {
                return Err(DotError::DanglingEdge(p));
            },
            None => {},
        }
        let mut visited: Vec<bool> = Vec::new();
        let mut i: usize = 0;
        while i < n
            invariant
                0 <= i <= n,
                visited@.len() == i,
                forall|k: int| 0 <= k < i ==> visited@[k] == (k == 0),
            decreases n - i,
        {
            visited.push(i == 0);
            i = i + 1;
        }
        assert(visited@ =~= initial_visited(self));
        proof {
            lemma_initial_count(self);
        }
        let mut frontier: Vec<usize> = Vec::new();
        frontier.push(0);
        let mut count: usize = 1;
        let mut s = String::new();
        s.append("digraph {\n");
        loop
            invariant_except_break
                visited@.len() == n,
                count == num_true(visited@),
                1 <= count <= n,
                in_range(self, frontier@),
                dot_text(self) == s@ + render(self, tiers_from(self, visited@, frontier@, count as int))
                    + "}"@,
            invariant
                n == node_count(self),
                n > 0,
                edges_valid(self),
            ensures
                dot_text(self) == s@ + "}"@,
            decreases n - count,
        {
            let ghost ts = tiers_from(self, visited@, frontier@, count as int);
            let ghost before = s@;
            if count == n {
                write_rank_line(self, &mut s, &frontier, true);
                proof {
                    let t = Tier { members: frontier@, max: true, with_edges: false };
                    lemma_render_cons(self, t, Seq::empty());
                    assert(ts =~= seq![t] + Seq::<Tier>::empty());
                    assert(s@ =~= before + render(self, ts));
                }
                break;
            }
            let ghost vis0 = visited@;
            let ghost fr0 = frontier@;
            proof {
                lemma_scan_tier(self, vis0, fr0, fr0.len() as int);
                lemma_num_true_le(scan_tier(self, vis0, fr0, fr0.len() as int).0);
            }
            let (next, edge_text) = scan_frontier(self, &frontier, &mut visited);
            if next.len() == 0 {
                write_rank_line(self, &mut s, &frontier, true);
                proof {
                    let t = Tier { members: fr0, max: true, with_edges: false };
                    lemma_render_cons(self, t, Seq::empty());
                    assert(ts =~= seq![t] + Seq::<Tier>::empty());
                    assert(s@ =~= before + render(self, ts));
                }
                break;
            }
            write_rank_line(self, &mut s, &frontier, false);
            s.append(edge_text.as_str());
            count = count + next.len();
            frontier = next;
            proof {
                let t = Tier { members: fr0, max: false, with_edges: true };
                let rest = tiers_from(self, visited@, frontier@, count as int);
                lemma_render_cons(self, t, rest);
                assert(ts == seq![t] + rest);
                assert(s@ + render(self, rest) =~= before + render(self, ts));
            }
        }
        s.append("}");
        Ok(s)
    }
}

} // verus!
