//! Laws of the rendering, stated over the spec model and proved.
use vstd::prelude::*;
use crate::dot::{
    Tier, dot_text, dot_tiers, num_true, rank_line, render, tier_text, edge_line, gen_dot_result, node_edge_text, remaining, scan_tier,
    tier_edge_text, tiers_from,
};
use crate::graph::{
    DotError, Graph, edges_of, edges_valid, edges_valid_before, is_first_dangling, node_count,
};

verus! {

proof fn lemma_tiers_from_shape(g: &Graph, vis: Seq<bool>, fr: Seq<usize>, count: int)
    ensures
        ({
            let ts = tiers_from(g, vis, fr, count);
            &&& ts.len() >= 1
            &&& ts[0].members == fr
            &&& forall|i: int| 0 <= i < ts.len() ==> (#[trigger] ts[i].max <==> i == ts.len() - 1)
            &&& forall|i: int|
                0 <= i < ts.len() ==> (#[trigger] ts[i].with_edges <==> i < ts.len() - 1)
        }),
    decreases remaining(g, count),
{
    if count < node_count(g) {
        let (vis2, next) = scan_tier(g, vis, fr, fr.len() as int);
        if next.len() > 0 {
            lemma_tiers_from_shape(g, vis2, next, count + next.len());
            let rest = tiers_from(g, vis2, next, count + next.len());
            let ts = tiers_from(g, vis, fr, count);
            assert forall|i: int| 0 <= i < ts.len() implies (#[trigger] ts[i].max <==> i == ts.len()
                - 1) by {
                if i > 0 {
                    assert(ts[i] == rest[i - 1]);
                }
            }
            assert forall|i: int| 0 <= i < ts.len() implies (#[trigger] ts[i].with_edges <==> i
                < ts.len() - 1) by {
                if i > 0 {
                    assert(ts[i] == rest[i - 1]);
                }
            }
        }
    }
}

proof fn lemma_render_last(g: &Graph, ts: Seq<Tier>)
    requires
        ts.len() > 0,
    ensures
        render(g, ts) == render(g, ts.drop_last()) + tier_text(g, ts.last()),
    decreases ts.len(),
{
    if ts.len() == 1 {
        assert(ts.drop_first().len() == 0);
        assert(ts.drop_last().len() == 0);
        assert(render(g, ts.drop_first()) == Seq::<char>::empty());
        assert(render(g, ts.drop_last()) == Seq::<char>::empty());
        assert(render(g, ts) == tier_text(g, ts[0]) + render(g, ts.drop_first()));
        assert(render(g, ts) =~= render(g, ts.drop_last()) + tier_text(g, ts.last()));
    } else {
        let rest = ts.drop_first();
        lemma_render_last(g, rest);
        assert(rest.drop_last() =~= ts.drop_last().drop_first());
        assert(rest.last() == ts.last());
        assert(ts.drop_last()[0] == ts[0]);
        assert(render(g, ts.drop_last()) == tier_text(g, ts[0]) + render(
            g,
            ts.drop_last().drop_first(),
        ));
        assert(render(g, ts) == tier_text(g, ts[0]) + render(g, rest));
        assert(render(g, ts) =~= render(g, ts.drop_last()) + tier_text(g, ts.last()));
    }
}

/// Exactly one rank group is tagged maximal, and it is the last one emitted:
/// every earlier group is followed by its edge statements, and the maximal
/// group is followed directly by the footer.
pub proof fn lemma_single_max_tier_is_last(g: &Graph)
    ensures
        dot_tiers(g).len() >= 1,
        forall|i: int|
            0 <= i < dot_tiers(g).len() ==> (#[trigger] dot_tiers(g)[i].max <==> i == dot_tiers(
                g,
            ).len() - 1),
        forall|i: int|
            0 <= i < dot_tiers(g).len() ==> (#[trigger] dot_tiers(g)[i].with_edges <==> i
                < dot_tiers(g).len() - 1),
        dot_text(g) == "digraph {\n"@ + render(g, dot_tiers(g).drop_last()) + rank_line(
            g,
            dot_tiers(g).last().members,
            true,
        ) + "}"@,
{
    let ts = dot_tiers(g);
    lemma_tiers_from_shape(g, crate::dot::initial_visited(g), seq![0usize], 1);
    lemma_render_last(g, ts);
    assert(ts.last().max);
    assert(!ts.last().with_edges);
    assert(tier_text(g, ts.last()) =~= rank_line(g, ts.last().members, true));
    assert(dot_text(g) =~= "digraph {\n"@ + render(g, ts.drop_last()) + rank_line(
        g,
        ts.last().members,
        true,
    ) + "}"@);
}

proof fn lemma_first_dangling_unique(g: &Graph, i1: int, j1: int, i2: int, j2: int)
    requires
        is_first_dangling(g, i1, j1),
        is_first_dangling(g, i2, j2),
    ensures
        i1 == i2 && j1 == j2,
{
    if i1 < i2 {
        assert(edges_valid_before(g, i2, j2));
        assert(crate::graph::edge_in_range(g, edges_of(g, i1)[j1]));
    } else if i2 < i1 {
        assert(edges_valid_before(g, i1, j1));
        assert(crate::graph::edge_in_range(g, edges_of(g, i2)[j2]));
    } else if j1 < j2 {
        assert(crate::graph::edge_in_range(g, edges_of(g, i2)[j1]));
    } else if j2 < j1 {
        assert(crate::graph::edge_in_range(g, edges_of(g, i1)[j2]));
    }
}

/// Rendering is a function of the graph: two renderings of one graph give the
/// same text, or the same error.
pub proof fn lemma_gen_dot_deterministic(
    g: &Graph,
    r1: Result<String, DotError>,
    r2: Result<String, DotError>,
)
    requires
        gen_dot_result(g, r1),
        gen_dot_result(g, r2),
    ensures
        r1 is Ok <==> r2 is Ok,
        r1 is Ok ==> r1->Ok_0@ == r2->Ok_0@,
        r1 is Err ==> r1->Err_0 == r2->Err_0,
{
    if let (Err(DotError::DanglingEdge(p1)), Err(DotError::DanglingEdge(p2))) = (r1, r2) {
        let (i1, j1) = choose|i: int, j: int|
            is_first_dangling(g, i, j) && p1 == crate::graph::dangling_position(
                g,
                #[trigger] edges_of(g, i)[j],
            );
        let (i2, j2) = choose|i: int, j: int|
            is_first_dangling(g, i, j) && p2 == crate::graph::dangling_position(
                g,
                #[trigger] edges_of(g, i)[j],
            );
        lemma_first_dangling_unique(g, i1, j1, i2, j2);
    }
}

proof fn lemma_node_edge_text_prefix(g: &Graph, u: int, j: int, m: int)
    requires
        0 <= j <= m,
    ensures
        node_edge_text(g, u, m).len() >= node_edge_text(g, u, j).len(),
        node_edge_text(g, u, m).subrange(0, node_edge_text(g, u, j).len() as int)
            == node_edge_text(g, u, j),
    decreases m - j,
{
    if j < m {
        lemma_node_edge_text_prefix(g, u, j, m - 1);
        let a = node_edge_text(g, u, j);
        let b = node_edge_text(g, u, m - 1);
        assert(node_edge_text(g, u, m).subrange(0, a.len() as int) =~= b.subrange(
            0,
            a.len() as int,
        ));
    } else {
        assert(node_edge_text(g, u, m).subrange(0, node_edge_text(g, u, j).len() as int)
            =~= node_edge_text(g, u, j));
    }
}

proof fn lemma_tier_edge_text_prefix(g: &Graph, fr: Seq<usize>, k: int, m: int)
    requires
        0 <= k <= m,
    ensures
        tier_edge_text(g, fr, m).len() >= tier_edge_text(g, fr, k).len(),
        tier_edge_text(g, fr, m).subrange(0, tier_edge_text(g, fr, k).len() as int)
            == tier_edge_text(g, fr, k),
    decreases m - k,
{
    if k < m {
        lemma_tier_edge_text_prefix(g, fr, k, m - 1);
        let a = tier_edge_text(g, fr, k);
        let b = tier_edge_text(g, fr, m - 1);
        assert(tier_edge_text(g, fr, m).subrange(0, a.len() as int) =~= b.subrange(
            0,
            a.len() as int,
        ));
    } else {
        assert(tier_edge_text(g, fr, m).subrange(0, tier_edge_text(g, fr, k).len() as int)
            =~= tier_edge_text(g, fr, k));
    }
}

/// Edge statements keep source order: within a tier's edge statements, the
/// statement for edge `j` of the `k`-th frontier node comes right after the
/// statements of all earlier frontier nodes and of that node's earlier edges.
pub proof fn lemma_edge_statement_order(g: &Graph, fr: Seq<usize>, k: int, j: int)
    requires
        0 <= k < fr.len(),
        0 <= j < edges_of(g, fr[k] as int).len(),
    ensures
        ({
            let u = fr[k] as int;
            let before = tier_edge_text(g, fr, k) + node_edge_text(g, u, j) + edge_line(
                g,
                edges_of(g, u)[j],
            );
            let all = tier_edge_text(g, fr, fr.len() as int);
            all.len() >= before.len() && all.subrange(0, before.len() as int) == before
        }),
{
    let u = fr[k] as int;
    let len = edges_of(g, u).len() as int;
    lemma_node_edge_text_prefix(g, u, j + 1, len);
    lemma_tier_edge_text_prefix(g, fr, k + 1, fr.len() as int);
    let before = tier_edge_text(g, fr, k) + node_edge_text(g, u, j + 1);
    let all = tier_edge_text(g, fr, fr.len() as int);
    let t1 = tier_edge_text(g, fr, k + 1);
    assert(t1 == tier_edge_text(g, fr, k) + node_edge_text(g, u, len));
    assert(t1.subrange(0, before.len() as int) =~= before);
    assert(all.subrange(0, before.len() as int) =~= t1.subrange(0, before.len() as int));
    assert(before =~= tier_edge_text(g, fr, k) + node_edge_text(g, u, j) + edge_line(
        g,
        edges_of(g, u)[j],
    ));
}

/// Node `a` has an edge to node `b`.
pub open spec fn has_edge(g: &Graph, a: int, b: int) -> bool {
    exists|j: int| 0 <= j < edges_of(g, a).len() && #[trigger] edges_of(g, a)[j].to.0 == b
}

/// Among the first `j` edges of node `a`, one goes to `b`.
pub open spec fn has_edge_before(g: &Graph, a: int, b: int, j: int) -> bool {
    exists|jj: int| 0 <= jj < j && #[trigger] edges_of(g, a)[jj].to.0 == b
}

/// Among the first `k` nodes of `fr`, one has an edge to `b`.
pub open spec fn tier_has_edge_before(g: &Graph, fr: Seq<usize>, b: int, k: int) -> bool {
    exists|kk: int| 0 <= kk < k && #[trigger] has_edge(g, fr[kk] as int, b)
}

proof fn lemma_scan_edges_sets(g: &Graph, vis: Seq<bool>, next: Seq<usize>, u: int, j: int)
    requires
        crate::graph::edges_valid(g),
        vis.len() == node_count(g),
        0 <= u < node_count(g),
        0 <= j <= edges_of(g, u).len(),
        crate::dot::in_range(g, next),
        next.no_duplicates(),
        forall|x: int| 0 <= x < next.len() ==> vis[#[trigger] next[x] as int],
    ensures
        ({
            let (v, nx) = crate::dot::scan_edges(g, vis, next, u, j);
            &&& v.len() == node_count(g)
            &&& forall|b: usize|
                b < node_count(g) ==> (#[trigger] v[b as int] <==> (vis[b as int] || has_edge_before(
                    g,
                    u,
                    b as int,
                    j,
                )))
            &&& forall|b: usize|
                b < node_count(g) ==> (#[trigger] nx.contains(b) <==> (next.contains(b) || (
                !vis[b as int] && v[b as int])))
            &&& nx.no_duplicates()
            &&& forall|x: int| 0 <= x < nx.len() ==> v[#[trigger] nx[x] as int]
            &&& crate::dot::in_range(g, nx)
        }),
    decreases j,
{
    crate::dot::lemma_scan_edges(g, vis, next, u, j);
    if j > 0 {
        lemma_scan_edges_sets(g, vis, next, u, j - 1);
        let (v, nx) = crate::dot::scan_edges(g, vis, next, u, j - 1);
        let (v2, nx2) = crate::dot::scan_edges(g, vis, next, u, j);
        let t = edges_of(g, u)[j - 1].to.0;
        assert(crate::graph::edge_in_range(g, edges_of(g, u)[j - 1]));
        assert forall|b: usize| b < node_count(g) implies (#[trigger] v2[b as int] <==> (vis[b as int]
            || has_edge_before(g, u, b as int, j))) by {
            if has_edge_before(g, u, b as int, j) && !has_edge_before(g, u, b as int, j - 1) {
                let jj = choose|jj: int|
                    0 <= jj < j && #[trigger] edges_of(g, u)[jj].to.0 == b as int;
                assert(jj == j - 1);
            }
            if b == t {
                assert(edges_of(g, u)[j - 1].to.0 == b);
            }
            if has_edge_before(g, u, b as int, j - 1) {
                let jj = choose|jj: int|
                    0 <= jj < j - 1 && #[trigger] edges_of(g, u)[jj].to.0 == b as int;
                assert(0 <= jj < j);
            }
        }
        if !v[t as int] {
            assert forall|b: usize| b < node_count(g) implies (#[trigger] nx2.contains(b) <==> (
            next.contains(b) || (!vis[b as int] && v2[b as int]))) by {
                if b == t {
                    assert(nx2[nx.len() as int] == t);
                } else {
                    if nx2.contains(b) {
                        let x = choose|x: int| 0 <= x < nx2.len() && nx2[x] == b;
                        assert(x < nx.len());
                        assert(nx.contains(b));
                    }
                    if nx.contains(b) {
                        let x = choose|x: int| 0 <= x < nx.len() && nx[x] == b;
                        assert(nx2[x] == b);
                    }
                }
            }
            assert forall|x: int, y: int|
                0 <= x < nx2.len() && 0 <= y < nx2.len() && x != y implies nx2[x] != nx2[y] by {
                if x < nx.len() && y < nx.len() {
                } else if x < nx.len() {
                    assert(v[nx[x] as int]);
                } else if y < nx.len() {
                    assert(v[nx[y] as int]);
                }
            }
            assert forall|x: int| 0 <= x < nx2.len() implies v2[#[trigger] nx2[x] as int] by {
                if x < nx.len() {
                    assert(v[nx[x] as int]);
                }
            }
        }
    }
}

proof fn lemma_scan_tier_sets(g: &Graph, vis: Seq<bool>, fr: Seq<usize>, k: int)
    requires
        crate::graph::edges_valid(g),
        vis.len() == node_count(g),
        crate::dot::in_range(g, fr),
        0 <= k <= fr.len(),
    ensures
        ({
            let (v, nx) = scan_tier(g, vis, fr, k);
            &&& v.len() == node_count(g)
            &&& forall|b: usize|
                b < node_count(g) ==> (#[trigger] v[b as int] <==> (vis[b as int]
                    || tier_has_edge_before(g, fr, b as int, k)))
            &&& forall|b: usize|
                b < node_count(g) ==> (#[trigger] nx.contains(b) <==> (!vis[b as int]
                    && v[b as int]))
            &&& nx.no_duplicates()
            &&& forall|x: int| 0 <= x < nx.len() ==> v[#[trigger] nx[x] as int]
            &&& crate::dot::in_range(g, nx)
        }),
    decreases k,
{
    if k > 0 {
        lemma_scan_tier_sets(g, vis, fr, k - 1);
        let (v, nx) = scan_tier(g, vis, fr, k - 1);
        let u = fr[k - 1] as int;
        let len = edges_of(g, u).len() as int;
        lemma_scan_edges_sets(g, v, nx, u, len);
        let (v2, nx2) = scan_tier(g, vis, fr, k);
        assert forall|b: usize| b < node_count(g) implies (#[trigger] v2[b as int] <==> (vis[b as int]
            || tier_has_edge_before(g, fr, b as int, k))) by {
            if has_edge_before(g, u, b as int, len) {
                let jj = choose|jj: int| 0 <= jj < len && #[trigger] edges_of(g, u)[jj].to.0 == b as int;
                assert(has_edge(g, fr[k - 1] as int, b as int));
            }
            if has_edge(g, u, b as int) {
                let jj = choose|jj: int| 0 <= jj < len && #[trigger] edges_of(g, u)[jj].to.0 == b as int;
                assert(has_edge_before(g, u, b as int, len));
            }
            if tier_has_edge_before(g, fr, b as int, k) && !tier_has_edge_before(g, fr, b as int, k - 1) {
                let kk = choose|kk: int| 0 <= kk < k && #[trigger] has_edge(g, fr[kk] as int, b as int);
                assert(kk == k - 1);
            }
            if tier_has_edge_before(g, fr, b as int, k - 1) {
                let kk = choose|kk: int| 0 <= kk < k - 1 && #[trigger] has_edge(g, fr[kk] as int, b as int);
                assert(0 <= kk < k);
            }
        }
    } else {
        let (v, nx) = scan_tier(g, vis, fr, k);
        assert forall|b: usize| b < node_count(g) implies !(#[trigger] nx.contains(b)) by {}
    }
}

/// Node `b` can be reached from the root along at most `d` edges.
pub open spec fn reachable_within(g: &Graph, b: int, d: nat) -> bool
    decreases d,
{
    b == 0 || (d > 0 && exists|a: int|
        0 <= a < node_count(g) && #[trigger] has_edge(g, a, b) && reachable_within(
            g,
            a,
            (d - 1) as nat,
        ))
}

/// The shortest path from the root to `b` has exactly `d` edges.
pub open spec fn at_depth(g: &Graph, b: int, d: nat) -> bool {
    reachable_within(g, b, d) && (d == 0 || !reachable_within(g, b, (d - 1) as nat))
}

/// Node `b` stands in one of the tiers `ts`.
pub open spec fn in_some_tier(ts: Seq<Tier>, b: usize) -> bool {
    exists|i: int| 0 <= i < ts.len() && #[trigger] ts[i].members.contains(b)
}

/// Some node's shortest path from the root has exactly `e` edges.
pub open spec fn depth_occurs(g: &Graph, e: nat) -> bool {
    exists|b: usize| b < node_count(g) && #[trigger] at_depth(g, b as int, e)
}

/// Node `b` can be reached from the root.
pub open spec fn is_reachable(g: &Graph, b: int) -> bool {
    exists|d: nat| #[trigger] reachable_within(g, b, d)
}

/// Every node can be reached from the root.
pub open spec fn all_reachable(g: &Graph) -> bool {
    forall|b: int| 0 <= b < node_count(g) ==> #[trigger] is_reachable(g, b)
}

/// The number of node entries over all tiers.
pub open spec fn total_members(ts: Seq<Tier>) -> int
    decreases ts.len(),
{
    if ts.len() == 0 {
        0
    } else {
        ts[0].members.len() + total_members(ts.drop_first())
    }
}

proof fn lemma_reach_mono(g: &Graph, b: int, d: nat, e: nat)
    requires
        d <= e,
        reachable_within(g, b, d),
    ensures
        reachable_within(g, b, e),
    decreases d,
{
    if b != 0 {
        let a = choose|a: int|
            0 <= a < node_count(g) && #[trigger] has_edge(g, a, b) && reachable_within(
                g,
                a,
                (d - 1) as nat,
            );
        lemma_reach_mono(g, a, (d - 1) as nat, (e - 1) as nat);
    }
}

proof fn lemma_depth_layer(g: &Graph, b: int, d: nat, e: nat)
    requires
        0 <= b < node_count(g),
        reachable_within(g, b, e),
        !reachable_within(g, b, d),
    ensures
        exists|c: usize| c < node_count(g) && #[trigger] at_depth(g, c as int, d + 1),
    decreases e,
{
    let a = choose|a: int|
        0 <= a < node_count(g) && #[trigger] has_edge(g, a, b) && reachable_within(
            g,
            a,
            (e - 1) as nat,
        );
    if reachable_within(g, a, d) {
        assert(reachable_within(g, b, d + 1));
        assert(at_depth(g, (b as usize) as int, d + 1));
    } else {
        lemma_depth_layer(g, a, d, (e - 1) as nat);
    }
}

proof fn lemma_num_true_all(s: Seq<bool>)
    requires
        forall|i: int| 0 <= i < s.len() ==> s[i],
    ensures
        num_true(s) == s.len(),
    decreases s.len(),
{
    if s.len() > 0 {
        lemma_num_true_all(s.drop_last());
    }
}

/// The traversal state at depth `d`: the visited nodes are those within `d`
/// edges of the root, and the frontier holds those at depth `d`, once each.
spec fn depth_state(g: &Graph, vis: Seq<bool>, fr: Seq<usize>, count: int, d: nat) -> bool {
    &&& node_count(g) <= usize::MAX
    &&& vis.len() == node_count(g)
    &&& count == num_true(vis)
    &&& crate::dot::in_range(g, fr)
    &&& fr.no_duplicates()
    &&& fr.len() > 0
    &&& forall|b: usize|
        b < node_count(g) ==> (#[trigger] vis[b as int] <==> reachable_within(g, b as int, d))
    &&& forall|b: usize|
        b < node_count(g) ==> (#[trigger] fr.contains(b) <==> at_depth(g, b as int, d))
}

proof fn lemma_depth_step(g: &Graph, vis: Seq<bool>, fr: Seq<usize>, count: int, d: nat)
    requires
        edges_valid(g),
        depth_state(g, vis, fr, count, d),
    ensures
        ({
            let (v, nx) = scan_tier(g, vis, fr, fr.len() as int);
            &&& nx.no_duplicates()
            &&& crate::dot::in_range(g, nx)
            &&& v.len() == node_count(g)
            &&& num_true(v) == count + nx.len()
            &&& forall|b: usize|
                b < node_count(g) ==> (#[trigger] v[b as int] <==> reachable_within(
                    g,
                    b as int,
                    d + 1,
                ))
            &&& forall|b: usize|
                b < node_count(g) ==> (#[trigger] nx.contains(b) <==> at_depth(g, b as int, d + 1))
        }),
{
    let k = fr.len() as int;
    lemma_scan_tier_sets(g, vis, fr, k);
    crate::dot::lemma_scan_tier(g, vis, fr, k);
    let (v, nx) = scan_tier(g, vis, fr, k);
    assert forall|b: usize| b < node_count(g) implies (#[trigger] v[b as int] <==> reachable_within(
        g,
        b as int,
        d + 1,
    )) by {
        if reachable_within(g, b as int, d) {
            lemma_reach_mono(g, b as int, d, d + 1);
        }
        if tier_has_edge_before(g, fr, b as int, k) {
            let kk = choose|kk: int| 0 <= kk < k && #[trigger] has_edge(g, fr[kk] as int, b as int);
            assert(fr.contains(fr[kk]));
            assert(reachable_within(g, fr[kk] as int, d));
            assert(reachable_within(g, b as int, d + 1));
        }
        if reachable_within(g, b as int, d + 1) && b != 0 {
            let a = choose|a: int|
                0 <= a < node_count(g) && #[trigger] has_edge(g, a, b as int) && reachable_within(
                    g,
                    a,
                    d,
                );
            if at_depth(g, (a as usize) as int, d) {
                assert(fr.contains(a as usize));
                let kk = choose|kk: int| 0 <= kk < fr.len() && fr[kk] == a as usize;
                assert(has_edge(g, fr[kk] as int, b as int));
                assert(tier_has_edge_before(g, fr, b as int, k));
            } else {
                assert(reachable_within(g, b as int, d));
            }
        }
    }
}

proof fn lemma_depth_tiers(g: &Graph, vis: Seq<bool>, fr: Seq<usize>, count: int, d: nat)
    requires
        edges_valid(g),
        depth_state(g, vis, fr, count, d),
    ensures
        ({
            let ts = tiers_from(g, vis, fr, count);
            &&& forall|i: int, b: usize|
                0 <= i < ts.len() && b < node_count(g) ==> (#[trigger] ts[i].members.contains(b)
                    <==> at_depth(g, b as int, (d + i) as nat))
            &&& forall|b: usize, e: nat|
                b < node_count(g) && e >= d && #[trigger] at_depth(g, b as int, e) ==> e < d
                    + ts.len()
            &&& forall|i: int|
                0 <= i < ts.len() ==> (#[trigger] ts[i].members).no_duplicates() && ts[i].members.len()
                    > 0 && crate::dot::in_range(g, ts[i].members)
            &&& all_reachable(g) ==> count - fr.len() + total_members(ts) == node_count(g)
        }),
    decreases remaining(g, count),
{
    let n = node_count(g);
    let ts = tiers_from(g, vis, fr, count);
    crate::dot::lemma_num_true_le(vis);
    if count >= n {
        assert forall|i: int| 0 <= i < vis.len() implies vis[i] by {
            if !vis[i] {
                lemma_num_true_lt(vis, i);
            }
        }
        assert forall|b: usize, e: nat|
            b < n && e >= d && #[trigger] at_depth(g, b as int, e) implies e < d + ts.len() by {
            assert(vis[b as int]);
            if e > d {
                lemma_reach_mono(g, b as int, d, (e - 1) as nat);
            }
        }
        assert(ts.drop_first().len() == 0);
        assert(total_members(ts) == fr.len() + total_members(ts.drop_first()));
    } else {
        lemma_depth_step(g, vis, fr, count, d);
        let (v, nx) = scan_tier(g, vis, fr, fr.len() as int);
        if nx.len() == 0 {
            assert forall|b: usize, e: nat|
                b < n && e >= d && #[trigger] at_depth(g, b as int, e) implies e < d + ts.len() by {
                if e > d {
                    if reachable_within(g, b as int, d) {
                        lemma_reach_mono(g, b as int, d, (e - 1) as nat);
                    }
                    lemma_depth_layer(g, b as int, d, e);
                    let c = choose|c: usize| c < n && #[trigger] at_depth(g, c as int, d + 1);
                    assert(nx.contains(c));
                }
            }
            if all_reachable(g) {
                if forall|i: int| 0 <= i < vis.len() ==> vis[i] {
                    lemma_num_true_all(vis);
                }
                let b = choose|b: int| 0 <= b < vis.len() && !vis[b];
                assert(!vis[(b as usize) as int]);
                assert(is_reachable(g, b));
                let e = choose|e: nat| #[trigger] reachable_within(g, b, e);
                lemma_depth_layer(g, b, d, e);
                let c = choose|c: usize| c < n && #[trigger] at_depth(g, c as int, d + 1);
                assert(nx.contains(c));
            }
        } else {
            let count2 = count + nx.len();
            lemma_depth_tiers(g, v, nx, count2, d + 1);
            let rest = tiers_from(g, v, nx, count2);
            assert(ts == seq![ts[0]] + rest);
            assert(ts.drop_first() =~= rest);
            assert(total_members(ts) == fr.len() + total_members(rest));
            assert forall|i: int, b: usize|
                0 <= i < ts.len() && b < n implies (#[trigger] ts[i].members.contains(b)
                <==> at_depth(g, b as int, (d + i) as nat)) by {
                if i > 0 {
                    assert(ts[i] == rest[i - 1]);
                    assert((d + 1 + (i - 1)) as nat == (d + i) as nat);
                }
            }
            assert forall|b: usize, e: nat|
                b < n && e >= d && #[trigger] at_depth(g, b as int, e) implies e < d + ts.len() by {
                if e > d {
                    assert(at_depth(g, b as int, e));
                }
            }
            assert forall|i: int|
                0 <= i < ts.len() implies (#[trigger] ts[i].members).no_duplicates()
                && ts[i].members.len() > 0 && crate::dot::in_range(g, ts[i].members) by {
                if i > 0 {
                    assert(ts[i] == rest[i - 1]);
                }
            }
        }
    }
}

proof fn lemma_num_true_lt(s: Seq<bool>, i: int)
    requires
        0 <= i < s.len(),
        !s[i],
    ensures
        num_true(s) < s.len(),
{
    crate::dot::lemma_num_true_set(s, i);
    crate::dot::lemma_num_true_le(s.update(i, true));
}

proof fn lemma_initial_depth_state(g: &Graph)
    requires
        0 < node_count(g) <= usize::MAX,
    ensures
        depth_state(g, crate::dot::initial_visited(g), seq![0usize], 1, 0),
{
    crate::dot::lemma_initial_count(g);
    let fr = seq![0usize];
    assert forall|b: usize| b < node_count(g) implies (#[trigger] fr.contains(b) <==> at_depth(
        g,
        b as int,
        0,
    )) by {
        if b == 0 {
            assert(fr[0] == b);
        }
    }
}

proof fn lemma_some_depth(g: &Graph, b: int, e: nat)
    requires
        reachable_within(g, b, e),
    ensures
        exists|d: nat| d <= e && #[trigger] at_depth(g, b, d),
    decreases e,
{
    if e > 0 && reachable_within(g, b, (e - 1) as nat) {
        lemma_some_depth(g, b, (e - 1) as nat);
    } else {
        assert(at_depth(g, b, e));
    }
}

proof fn lemma_depth_unique(g: &Graph, b: int, d1: nat, d2: nat)
    requires
        at_depth(g, b, d1),
        at_depth(g, b, d2),
    ensures
        d1 == d2,
{
    if d1 < d2 {
        lemma_reach_mono(g, b, d1, (d2 - 1) as nat);
    } else if d2 < d1 {
        lemma_reach_mono(g, b, d2, (d1 - 1) as nat);
    }
}

/// The rank groups are the breadth-first depth classes: group `i` holds
/// exactly the nodes whose shortest path from the root has `i` edges, and
/// there is one group for each depth that some node has, so the number of
/// groups is the number of distinct depths. Unreachable nodes have no depth
/// and add no group.
pub proof fn lemma_tiers_are_depth_classes(g: &Graph)
    requires
        0 < node_count(g) <= usize::MAX,
        edges_valid(g),
    ensures
        forall|i: int, b: usize|
            0 <= i < dot_tiers(g).len() && b < node_count(g) ==> (
            #[trigger] dot_tiers(g)[i].members.contains(b) <==> at_depth(g, b as int, i as nat)),
        forall|e: nat| #[trigger] depth_occurs(g, e) <==> e < dot_tiers(g).len(),
{
    lemma_initial_depth_state(g);
    let ts = dot_tiers(g);
    lemma_depth_tiers(g, crate::dot::initial_visited(g), seq![0usize], 1, 0);
    assert forall|i: int, b: usize|
        0 <= i < ts.len() && b < node_count(g) implies (#[trigger] ts[i].members.contains(b)
        <==> at_depth(g, b as int, i as nat)) by {
        assert((0 + i) as nat == i as nat);
    }
    assert forall|e: nat| #[trigger] depth_occurs(g, e) <==> e < ts.len() by {
        if e < ts.len() {
            let b = ts[e as int].members[0];
            assert(ts[e as int].members.contains(b));
            assert((0 + e) as nat == e);
            assert(at_depth(g, b as int, e));
        }
    }
}

/// When every node can be reached from the root, the traversal processes all
/// of them: the tiers hold `node_count` entries in all, and every node stands
/// in exactly one rank group, once.
pub proof fn lemma_connected_graph_lists_each_node_once(g: &Graph)
    requires
        0 < node_count(g) <= usize::MAX,
        edges_valid(g),
        all_reachable(g),
    ensures
        total_members(dot_tiers(g)) == node_count(g),
        forall|b: usize| b < node_count(g) ==> #[trigger] in_some_tier(dot_tiers(g), b),
        forall|i1: int, i2: int, b: usize|
            0 <= i1 < dot_tiers(g).len() && 0 <= i2 < dot_tiers(g).len()
                && #[trigger] dot_tiers(g)[i1].members.contains(b)
                && #[trigger] dot_tiers(g)[i2].members.contains(b) ==> i1 == i2,
        forall|i: int|
            0 <= i < dot_tiers(g).len() ==> (#[trigger] dot_tiers(g)[i].members).no_duplicates(),
{
    lemma_initial_depth_state(g);
    let ts = dot_tiers(g);
    lemma_depth_tiers(g, crate::dot::initial_visited(g), seq![0usize], 1, 0);
    lemma_tiers_are_depth_classes(g);
    assert forall|b: usize| b < node_count(g) implies #[trigger] in_some_tier(ts, b) by {
        assert(is_reachable(g, b as int));
        let e = choose|e: nat| #[trigger] reachable_within(g, b as int, e);
        lemma_some_depth(g, b as int, e);
        let d = choose|d: nat| d <= e && #[trigger] at_depth(g, b as int, d);
        assert(d < ts.len());
        assert(ts[d as int].members.contains(b));
    }
    assert forall|i1: int, i2: int, b: usize|
        0 <= i1 < ts.len() && 0 <= i2 < ts.len() && #[trigger] ts[i1].members.contains(b)
            && #[trigger] ts[i2].members.contains(b) implies i1 == i2 by {
        let m = ts[i1].members;
        let k = choose|k: int| 0 <= k < m.len() && m[k] == b;
        assert(b < node_count(g));
        lemma_depth_unique(g, b as int, i1 as nat, i2 as nat);
    }
}

} // verus!
