//! Pruning: hidden nodes leave the graph, and after them, round after
//! round, every irrelevant node that has no edge left to a remaining node.

use vstd::prelude::*;
use crate::graphs::{Node, NodeId, Edge, EdgeId, CraftableGraph, node_ids, edge_ids, contains_node};
use crate::reachability::{string_ids, contains_name};
use crate::records::{Record, RecordModel, FieldValue, text_of};
use crate::db::{Db, LookupError, LookupFailure, healthy_of};
use crate::seqs::{lemma_push_contains, lemma_push_no_duplicates, lemma_remove_contains};

verus! {

/// The node is in the graph and its identifier is to be hidden.
pub open spec fn hidden(nodes: Set<NodeId>, hide: Seq<String>, n: NodeId) -> bool {
    nodes.contains(n) && string_ids(hide).contains(n.name())
}

/// The nodes of the graph that are not hidden.
pub open spec fn shown_nodes(graph: CraftableGraph, hide: Seq<String>) -> Set<NodeId> {
    Set::new(|n: NodeId| graph.node_set().contains(n) && !string_ids(hide).contains(n.name()))
}

/// The edges of the graph that touch no hidden node.
pub open spec fn shown_edges(graph: CraftableGraph, hide: Seq<String>) -> Set<EdgeId> {
    Set::new(
        |e: EdgeId|
            graph.edge_set().contains(e) && !hidden(graph.node_set(), hide, e.source) && !hidden(
                graph.node_set(),
                hide,
                e.dest,
            ),
    )
}

/// The nodes that are gone after at most `k` rounds: an irrelevant node
/// leaves once each of its outgoing edges leads to a node that left before.
pub open spec fn doomed(
    nodes: Set<NodeId>,
    edges: Set<EdgeId>,
    irrelevant: Set<NodeId>,
    k: nat,
) -> Set<NodeId>
    decreases k,
{
    if k == 0 {
        Set::empty()
    } else {
        let gone = doomed(nodes, edges, irrelevant, (k - 1) as nat);
        Set::new(
            |n: NodeId|
                gone.contains(n) || (nodes.contains(n) && irrelevant.contains(n) && forall|
                    e: EdgeId,
                |
                    edges.contains(e) && e.source == n ==> gone.contains(#[trigger] e.dest)),
        )
    }
}

/// The node leaves in some round.
pub open spec fn is_doomed(
    nodes: Set<NodeId>,
    edges: Set<EdgeId>,
    irrelevant: Set<NodeId>,
    n: NodeId,
) -> bool {
    exists|k: nat| (#[trigger] doomed(nodes, edges, irrelevant, k)).contains(n)
}

/// `result` is what pruning leaves of `nodes` and `edges`: the nodes that
/// never leave, and the edges that lead to no node that leaves.
pub open spec fn is_pruned(
    result: CraftableGraph,
    nodes: Set<NodeId>,
    edges: Set<EdgeId>,
    irrelevant: Set<NodeId>,
) -> bool {
    &&& result.wf()
    &&& forall|n: NodeId| #[trigger]
        result.node_set().contains(n) <==> (nodes.contains(n) && !is_doomed(
            nodes,
            edges,
            irrelevant,
            n,
        ))
    &&& forall|e: EdgeId| #[trigger]
        result.edge_set().contains(e) <==> (edges.contains(e) && !is_doomed(
            nodes,
            edges,
            irrelevant,
            e.dest,
        ))
}

/// Nodes that are gone stay gone.
pub proof fn lemma_doomed_monotone(
    nodes: Set<NodeId>,
    edges: Set<EdgeId>,
    irrelevant: Set<NodeId>,
    j: nat,
    k: nat,
)
    requires
        j <= k,
    ensures
        doomed(nodes, edges, irrelevant, j).subset_of(doomed(nodes, edges, irrelevant, k)),
    decreases k,
{
    if j < k {
        lemma_doomed_monotone(nodes, edges, irrelevant, j, (k - 1) as nat);
    }
}

/// Only irrelevant nodes of the graph leave.
pub proof fn lemma_doomed_within(
    nodes: Set<NodeId>,
    edges: Set<EdgeId>,
    irrelevant: Set<NodeId>,
    k: nat,
    n: NodeId,
)
    requires
        doomed(nodes, edges, irrelevant, k).contains(n),
    ensures
        nodes.contains(n),
        irrelevant.contains(n),
    decreases k,
{
    if k > 0 && doomed(nodes, edges, irrelevant, (k - 1) as nat).contains(n) {
        lemma_doomed_within(nodes, edges, irrelevant, (k - 1) as nat, n);
    }
}

/// A node that leaves in some round is an irrelevant node of the graph,
/// and each of its outgoing edges leads to a node that leaves too.
pub proof fn lemma_doomed_is_irrelevant_and_unused(
    nodes: Set<NodeId>,
    edges: Set<EdgeId>,
    irrelevant: Set<NodeId>,
    n: NodeId,
)
    requires
        is_doomed(nodes, edges, irrelevant, n),
    ensures
        nodes.contains(n),
        irrelevant.contains(n),
        forall|e: EdgeId|
            edges.contains(e) && e.source == n ==> is_doomed(
                nodes,
                edges,
                irrelevant,
                #[trigger] e.dest,
            ),
{
    let k = choose|k: nat| (#[trigger] doomed(nodes, edges, irrelevant, k)).contains(n);
    lemma_doomed_within(nodes, edges, irrelevant, k, n);
    lemma_first_round(nodes, edges, irrelevant, k, n);
}

/// Pruning removes a node only if the node is irrelevant and none of its
/// outgoing edges leads to a node that survives the pruning.
pub proof fn lemma_pruning_is_minimal(
    result: CraftableGraph,
    nodes: Set<NodeId>,
    edges: Set<EdgeId>,
    irrelevant: Set<NodeId>,
    n: NodeId,
)
    requires
        is_pruned(result, nodes, edges, irrelevant),
        nodes.contains(n),
        !result.node_set().contains(n),
    ensures
        irrelevant.contains(n),
        forall|e: EdgeId|
            edges.contains(e) && e.source == n ==> !result.node_set().contains(
                #[trigger] e.dest,
            ),
{
    lemma_doomed_is_irrelevant_and_unused(nodes, edges, irrelevant, n);
    assert forall|e: EdgeId| edges.contains(e) && e.source == n implies !result.node_set().contains(
        #[trigger] e.dest,
    ) by {
        lemma_doomed_is_gone(result, nodes, edges, irrelevant, e.dest);
    }
}

proof fn lemma_doomed_is_gone(
    result: CraftableGraph,
    nodes: Set<NodeId>,
    edges: Set<EdgeId>,
    irrelevant: Set<NodeId>,
    n: NodeId,
)
    requires
        is_pruned(result, nodes, edges, irrelevant),
        is_doomed(nodes, edges, irrelevant, n),
    ensures
        !result.node_set().contains(n),
{
}

proof fn lemma_first_round(
    nodes: Set<NodeId>,
    edges: Set<EdgeId>,
    irrelevant: Set<NodeId>,
    k: nat,
    n: NodeId,
)
    requires
        doomed(nodes, edges, irrelevant, k).contains(n),
    ensures
        forall|e: EdgeId|
            edges.contains(e) && e.source == n ==> is_doomed(
                nodes,
                edges,
                irrelevant,
                #[trigger] e.dest,
            ),
    decreases k,
{
    if k > 0 {
        let gone = doomed(nodes, edges, irrelevant, (k - 1) as nat);
        if gone.contains(n) {
            lemma_first_round(nodes, edges, irrelevant, (k - 1) as nat, n);
        } else {
            assert forall|e: EdgeId| edges.contains(e) && e.source == n implies is_doomed(
                nodes,
                edges,
                irrelevant,
                #[trigger] e.dest,
            ) by {
                assert(gone.contains(e.dest));
            }
        }
    }
}

/// The first `upto` listed edges that leave `n`, each leading to a node
/// that leaves, all lead to nodes that are gone after one number of rounds.
proof fn lemma_common_round(
    nodes: Set<NodeId>,
    edges: Set<EdgeId>,
    irrelevant: Set<NodeId>,
    listed: Seq<EdgeId>,
    upto: int,
    n: NodeId,
) -> (k: nat)
    requires
        0 <= upto <= listed.len(),
        forall|j: int|
            0 <= j < listed.len() && (#[trigger] listed[j]).source == n ==> is_doomed(
                nodes,
                edges,
                irrelevant,
                listed[j].dest,
            ),
    ensures
        forall|j: int|
            0 <= j < upto && (#[trigger] listed[j]).source == n ==> doomed(
                nodes,
                edges,
                irrelevant,
                k,
            ).contains(listed[j].dest),
    decreases upto,
{
    if upto == 0 {
        0
    } else {
        let k0 = lemma_common_round(nodes, edges, irrelevant, listed, upto - 1, n);
        let last = listed[upto - 1];
        if last.source == n {
            let k1 = choose|k: nat|
                (#[trigger] doomed(nodes, edges, irrelevant, k)).contains(last.dest);
            let k: nat = if k0 <= k1 {
                k1
            } else {
                k0
            };
            lemma_doomed_monotone(nodes, edges, irrelevant, k0, k);
            lemma_doomed_monotone(nodes, edges, irrelevant, k1, k);
            k
        } else {
            k0
        }
    }
}

/// Where every remaining irrelevant node keeps an edge to a node that was
/// never there or remains, no remaining node leaves.
proof fn lemma_remaining_survive(
    nodes: Set<NodeId>,
    edges: Set<EdgeId>,
    irrelevant: Set<NodeId>,
    remaining: Set<NodeId>,
    k: nat,
)
    requires
        forall|n: NodeId|
            remaining.contains(n) && irrelevant.contains(n) ==> exists|e: EdgeId|
                edges.contains(e) && #[trigger] e.source == n && (!nodes.contains(e.dest)
                    || remaining.contains(e.dest)),
    ensures
        forall|n: NodeId|
            remaining.contains(n) ==> !doomed(nodes, edges, irrelevant, k).contains(n),
    decreases k,
{
    if k > 0 {
        let gone = doomed(nodes, edges, irrelevant, (k - 1) as nat);
        lemma_remaining_survive(nodes, edges, irrelevant, remaining, (k - 1) as nat);
        assert forall|n: NodeId| remaining.contains(n) implies !doomed(
            nodes,
            edges,
            irrelevant,
            k,
        ).contains(n) by {
            if irrelevant.contains(n) && doomed(nodes, edges, irrelevant, k).contains(n) {
                let e = choose|e: EdgeId|
                    edges.contains(e) && #[trigger] e.source == n && (!nodes.contains(e.dest)
                        || remaining.contains(e.dest));
                assert(gone.contains(e.dest));
                lemma_doomed_within(nodes, edges, irrelevant, (k - 1) as nat, e.dest);
            }
        }
    }
}

/// Whether some listed edge leaves the node.
pub fn has_outgoing(edges: &[Edge], node: &Node) -> (r: bool)
    ensures
        r == exists|j: int| 0 <= j < edges.len() && (#[trigger] edges@[j])@.source == node@,
{
    let mut i: usize = 0;
    while i < edges.len()
        invariant
            i <= edges.len(),
            forall|j: int| 0 <= j < i ==> (#[trigger] edges@[j])@.source != node@,
        decreases edges.len() - i,
    {
        if edges[i].source.same(node) {
            return true;
        }
        i += 1;
    }
    false
}

/// The listed edges that do not lead to the node.
fn without_incoming(edges: &Vec<Edge>, node: &Node) -> (r: Vec<Edge>)
    requires
        edge_ids(edges@).no_duplicates(),
    ensures
        edge_ids(r@).no_duplicates(),
        r.len() <= edges.len(),
        forall|e: EdgeId| #[trigger]
            edge_ids(r@).contains(e) <==> (edge_ids(edges@).contains(e) && e.dest != node@),
{
    let mut kept: Vec<Edge> = Vec::new();
    let mut i: usize = 0;
    while i < edges.len()
        invariant
            i <= edges.len(),
            kept.len() <= i,
            edge_ids(edges@).no_duplicates(),
            edge_ids(kept@).no_duplicates(),
            forall|e: EdgeId| #[trigger]
                edge_ids(kept@).contains(e) <==> (exists|j: int|
                    0 <= j < i && #[trigger] edge_ids(edges@)[j] == e) && e.dest != node@,
        decreases edges.len() - i,
    {
        if !edges[i].dest.same(node) {
            let ghost before = edge_ids(kept@);
            kept.push(edges[i].duplicate());
            proof {
                let added = edge_ids(edges@)[i as int];
                assert(edge_ids(kept@) =~= before.push(added));
                lemma_push_contains(before, added);
                if before.contains(added) {
                    let j = choose|j: int| 0 <= j < i && #[trigger] edge_ids(edges@)[j] == added;
                    assert(false);
                }
                lemma_push_no_duplicates(before, added);
            }
        }
        i += 1;
    }
    kept
}

/// The graph without its hidden nodes and the edges that touch them.
fn without_hidden(graph: &CraftableGraph, hide: &[String]) -> (r: CraftableGraph)
    requires
        graph.wf(),
    ensures
        r.wf(),
        r.node_set() == shown_nodes(*graph, hide@),
        r.edge_set() == shown_edges(*graph, hide@),
{
    let mut nodes: Vec<Node> = Vec::new();
    let mut i: usize = 0;
    while i < graph.nodes.len()
        invariant
            i <= graph.nodes.len(),
            graph.wf(),
            node_ids(nodes@).no_duplicates(),
            forall|n: NodeId| #[trigger]
                node_ids(nodes@).contains(n) <==> (exists|j: int|
                    0 <= j < i && #[trigger] node_ids(graph.nodes@)[j] == n) && !string_ids(
                    hide@,
                ).contains(n.name()),
        decreases graph.nodes.len() - i,
    {
        if !contains_name(hide, graph.nodes[i].name()) {
            let ghost before = node_ids(nodes@);
            nodes.push(graph.nodes[i].duplicate());
            proof {
                let added = node_ids(graph.nodes@)[i as int];
                assert(node_ids(nodes@) =~= before.push(added));
                lemma_push_contains(before, added);
                if before.contains(added) {
                    let j = choose|j: int|
                        0 <= j < i && #[trigger] node_ids(graph.nodes@)[j] == added;
                    assert(false);
                }
                lemma_push_no_duplicates(before, added);
            }
        }
        i += 1;
    }
    let mut edges: Vec<Edge> = Vec::new();
    let mut k: usize = 0;
    while k < graph.edges.len()
        invariant
            k <= graph.edges.len(),
            graph.wf(),
            edge_ids(edges@).no_duplicates(),
            forall|e: EdgeId| #[trigger]
                edge_ids(edges@).contains(e) <==> (exists|j: int|
                    0 <= j < k && #[trigger] edge_ids(graph.edges@)[j] == e) && !hidden(
                    graph.node_set(),
                    hide@,
                    e.source,
                ) && !hidden(graph.node_set(), hide@, e.dest),
        decreases graph.edges.len() - k,
    {
        let e = &graph.edges[k];
        let source_hidden = contains_node(&graph.nodes, &e.source) && contains_name(
            hide,
            e.source.name(),
        );
        let dest_hidden = contains_node(&graph.nodes, &e.dest) && contains_name(
            hide,
            e.dest.name(),
        );
        if !source_hidden && !dest_hidden {
            let ghost before = edge_ids(edges@);
            edges.push(e.duplicate());
            proof {
                let added = edge_ids(graph.edges@)[k as int];
                assert(edge_ids(edges@) =~= before.push(added));
                lemma_push_contains(before, added);
                if before.contains(added) {
                    let j = choose|j: int|
                        0 <= j < k && #[trigger] edge_ids(graph.edges@)[j] == added;
                    assert(false);
                }
                lemma_push_no_duplicates(before, added);
            }
        }
        k += 1;
    }
    let r = CraftableGraph { nodes, edges };
    assert(r.node_set() =~= shown_nodes(*graph, hide@));
    assert(r.edge_set() =~= shown_edges(*graph, hide@));
    r
}

/// What holds of the graph all through the rounds: it is part of what was
/// shown, every node that is missing leaves in some round, and the edges
/// are those that lead to no missing node.
pub open spec fn pruning(
    graph: CraftableGraph,
    nodes: Set<NodeId>,
    edges: Set<EdgeId>,
    irrelevant: Set<NodeId>,
) -> bool {
    &&& graph.wf()
    &&& forall|n: NodeId| #[trigger] graph.node_set().contains(n) ==> nodes.contains(n)
    &&& forall|n: NodeId|
        nodes.contains(n) && !graph.node_set().contains(n) ==> is_doomed(
            nodes,
            edges,
            irrelevant,
            n,
        )
    &&& forall|e: EdgeId| #[trigger]
        graph.edge_set().contains(e) <==> (edges.contains(e) && (!nodes.contains(e.dest)
            || graph.node_set().contains(e.dest)))
}

/// Every irrelevant node of the graph has an outgoing edge.
pub open spec fn settled(graph: CraftableGraph, irrelevant: Set<NodeId>, upto: int) -> bool {
    forall|i: int|
        0 <= i < upto && irrelevant.contains(#[trigger] node_ids(graph.nodes@)[i]) ==> exists|
            j: int,
        |
            0 <= j < graph.edges.len() && (#[trigger] graph.edges@[j])@.source == node_ids(
                graph.nodes@,
            )[i]
}

/// One round: every irrelevant node without an outgoing edge leaves, with
/// the edges that lead to it.
pub fn prune_pass(
    graph: &mut CraftableGraph,
    irrelevant: &[Node],
    Ghost(nodes): Ghost<Set<NodeId>>,
    Ghost(listed): Ghost<Seq<EdgeId>>,
) -> (removed: bool)
    requires
        pruning(*old(graph), nodes, listed.to_set(), node_ids(irrelevant@).to_set()),
    ensures
        pruning(*final(graph), nodes, listed.to_set(), node_ids(irrelevant@).to_set()),
        removed ==> final(graph).nodes.len() < old(graph).nodes.len(),
        !removed ==> *final(graph) == *old(graph) && settled(
            *old(graph),
            node_ids(irrelevant@).to_set(),
            old(graph).nodes.len() as int,
        ),
        forall|n: NodeId|
            final(graph).node_set().contains(n) ==> old(graph).node_set().contains(n),
        forall|e: EdgeId|
            final(graph).edge_set().contains(e) ==> old(graph).edge_set().contains(e),
{
    let ghost edges = listed.to_set();
    let ghost irr = node_ids(irrelevant@).to_set();
    let ghost start = *graph;
    let mut removed = false;
    let mut i: usize = 0;
    while i < graph.nodes.len()
        invariant
            i <= graph.nodes.len(),
            edges == listed.to_set(),
            irr == node_ids(irrelevant@).to_set(),
            pruning(*graph, nodes, edges, irr),
            removed ==> graph.nodes.len() < start.nodes.len(),
            !removed ==> *graph == start,
            !removed ==> settled(start, irr, i as int),
            forall|n: NodeId| graph.node_set().contains(n) ==> start.node_set().contains(n),
            forall|e: EdgeId| graph.edge_set().contains(e) ==> start.edge_set().contains(e),
        decreases graph.nodes.len() - i,
    {
        let node = graph.nodes[i].duplicate();
        assert(node@ == node_ids(graph.nodes@)[i as int]);
        let is_irrelevant = contains_node(irrelevant, &node);
        if is_irrelevant && !has_outgoing(graph.edges.as_slice(), &node) {
            let ghost before = *graph;
            proof {
                assert(before.node_set().contains(node@));
                assert forall|j: int|
                    0 <= j < listed.len() && (#[trigger] listed[j]).source == node@ implies is_doomed(
                    nodes,
                    edges,
                    irr,
                    listed[j].dest,
                ) by {
                    let e = listed[j];
                    assert(edges.contains(e));
                    if before.edge_set().contains(e) {
                        let h = choose|h: int|
                            0 <= h < before.edges.len() && edge_ids(before.edges@)[h] == e;
                        assert(before.edges@[h]@.source == node@);
                        assert(false);
                    }
                }
                let k = lemma_common_round(nodes, edges, irr, listed, listed.len() as int, node@);
                assert forall|e: EdgeId| edges.contains(e) && e.source == node@ implies doomed(
                    nodes,
                    edges,
                    irr,
                    k,
                ).contains(#[trigger] e.dest) by {
                    let j = choose|j: int| 0 <= j < listed.len() && listed[j] == e;
                    assert(listed[j].source == node@);
                }
                assert(doomed(nodes, edges, irr, k + 1).contains(node@));
                assert(is_doomed(nodes, edges, irr, node@));
            }
            graph.nodes.remove(i);
            let kept = without_incoming(&graph.edges, &node);
            graph.edges = kept;
            removed = true;
            proof {
                let gone = node_ids(before.nodes@)[i as int];
                assert(gone == node@);
                assert(node_ids(graph.nodes@) =~= node_ids(before.nodes@).remove(i as int));
                lemma_remove_contains(node_ids(before.nodes@), i as int);
                assert(graph.wf());
                assert forall|n: NodeId| #[trigger] graph.node_set().contains(n) implies (
                before.node_set().contains(n) && n != gone) by {
                    assert(node_ids(graph.nodes@).contains(n));
                }
                assert forall|n: NodeId|
                    nodes.contains(n) && !graph.node_set().contains(n) implies is_doomed(
                    nodes,
                    edges,
                    irr,
                    n,
                ) by {
                    if n != gone {
                        assert(!node_ids(graph.nodes@).contains(n));
                        assert(!node_ids(before.nodes@).contains(n));
                        assert(!before.node_set().contains(n));
                    }
                }
                assert forall|e: EdgeId| #[trigger]
                    graph.edge_set().contains(e) <==> (edges.contains(e) && (!nodes.contains(
                        e.dest,
                    ) || graph.node_set().contains(e.dest))) by {
                    assert(before.edge_set().contains(e) <==> (edges.contains(e) && (
                    !nodes.contains(e.dest) || before.node_set().contains(e.dest))));
                    assert(edge_ids(graph.edges@).contains(e) <==> (edge_ids(
                        before.edges@,
                    ).contains(e) && e.dest != gone));
                    assert(node_ids(graph.nodes@).contains(e.dest) <==> (node_ids(
                        before.nodes@,
                    ).contains(e.dest) && e.dest != gone));
                    assert(nodes.contains(gone));
                }
            }
        } else {
            proof {
                if is_irrelevant {
                    let j = choose|j: int|
                        0 <= j < graph.edges.len() && (#[trigger] graph.edges@[j])@.source
                            == node@;
                }
            }
            i += 1;
        }
    }
    removed
}

/// Hides the nodes whose identifier is in `hide`, with the edges that touch
/// them, and then removes, round after round, every node of `irrelevant`
/// that has no outgoing edge left, with the edges that lead to it.
pub fn prune_graph(graph: &CraftableGraph, irrelevant: &[Node], hide: &[String]) -> (r:
    CraftableGraph)
    requires
        graph.wf(),
    ensures
        is_pruned(
            r,
            shown_nodes(*graph, hide@),
            shown_edges(*graph, hide@),
            node_ids(irrelevant@).to_set(),
        ),
{
    let mut g = without_hidden(graph, hide);
    let ghost nodes = g.node_set();
    let ghost listed = edge_ids(g.edges@);
    let ghost edges = listed.to_set();
    let ghost irr = node_ids(irrelevant@).to_set();
    let mut removed = true;
    while removed
        invariant
            nodes == shown_nodes(*graph, hide@),
            edges == shown_edges(*graph, hide@),
            edges == listed.to_set(),
            irr == node_ids(irrelevant@).to_set(),
            pruning(g, nodes, edges, irr),
            !removed ==> settled(g, irr, g.nodes.len() as int),
        decreases
                g.nodes.len() + if removed {
                    1int
                } else {
                    0int
                },
    {
        removed = prune_pass(&mut g, irrelevant, Ghost(nodes), Ghost(listed));
    }
    proof {
        let remaining = g.node_set();
        assert forall|n: NodeId| remaining.contains(n) && irr.contains(n) implies exists|
            e: EdgeId,
        |
            edges.contains(e) && #[trigger] e.source == n && (!nodes.contains(e.dest)
                || remaining.contains(e.dest)) by {
            let i = choose|i: int| 0 <= i < g.nodes.len() && node_ids(g.nodes@)[i] == n;
            let j = choose|j: int|
                0 <= j < g.edges.len() && (#[trigger] g.edges@[j])@.source == node_ids(
                    g.nodes@,
                )[i];
            let e = edge_ids(g.edges@)[j];
            assert(g.edge_set().contains(e));
            assert(e.source == n);
        }
        assert forall|n: NodeId| remaining.contains(n) implies !is_doomed(nodes, edges, irr, n) by {
            if is_doomed(nodes, edges, irr, n) {
                let k = choose|k: nat| (#[trigger] doomed(nodes, edges, irr, k)).contains(n);
                lemma_remaining_survive(nodes, edges, irr, remaining, k);
            }
        }
        assert forall|n: NodeId| is_doomed(nodes, edges, irr, n) implies nodes.contains(n) by {
            let k = choose|k: nat| (#[trigger] doomed(nodes, edges, irr, k)).contains(n);
            lemma_doomed_within(nodes, edges, irr, k, n);
        }
    }
    g
}

/// The types that an item may have, as characters, where types are
/// restricted at all.
pub open spec fn allowed_types(restrict: Option<&[String]>) -> Option<Seq<Seq<char>>> {
    match restrict {
        Some(types) => Some(string_ids(types@)),
        None => None,
    }
}

/// The item fails a configured test: its `healthy` attribute is below the
/// minimum, or its type is not among the allowed ones.
pub open spec fn irrelevant_item(
    rec: RecordModel,
    healthy_min: Option<i32>,
    allowed: Option<Seq<Seq<char>>>,
) -> bool {
    ||| healthy_min.is_some() && healthy_of(rec).is_some() && healthy_of(rec).unwrap()
        < healthy_min.unwrap()
    ||| allowed.is_some() && !(text_of(rec, "type"@).is_some() && allowed.unwrap().contains(
        text_of(rec, "type"@).unwrap(),
    ))
}

/// The node is a candidate for removal: a requirement always is, an item
/// when the record behind it fails a configured test.
pub open spec fn irrelevant(
    db: Db,
    healthy_min: Option<i32>,
    allowed: Option<Seq<Seq<char>>>,
    n: NodeId,
) -> bool {
    match n {
        NodeId::Requirement(_) => true,
        NodeId::Item(id) => irrelevant_item(
            db.raw@[db.item_positions(id).last()]@,
            healthy_min,
            allowed,
        ),
    }
}

/// The shown nodes that are candidates for removal.
pub open spec fn irrelevant_shown(
    graph: CraftableGraph,
    db: Db,
    healthy_min: Option<i32>,
    allowed: Option<Seq<Seq<char>>>,
    hide: Seq<String>,
) -> Set<NodeId> {
    Set::new(
        |n: NodeId| shown_nodes(graph, hide).contains(n) && irrelevant(db, healthy_min, allowed, n),
    )
}

/// Behind every item node of the graph stands exactly one item.
pub open spec fn backed(graph: CraftableGraph, db: Db) -> bool {
    forall|i: int|
        0 <= i < graph.nodes.len() ==> match (#[trigger] graph.nodes@[i]) {
            Node::Item(id) => db.item_positions(id@).len() == 1,
            Node::RequirementItem(_) => true,
        }
}

/// What is wrong with the first item node, among the first `upto` nodes,
/// that has no single item behind it, and the identifier of that node.
pub open spec fn first_unbacked(graph: CraftableGraph, db: Db, upto: int) -> Option<
    (LookupError, Seq<char>),
>
    decreases upto,
{
    if upto <= 0 {
        None
    } else if first_unbacked(graph, db, upto - 1).is_some() {
        first_unbacked(graph, db, upto - 1)
    } else {
        match graph.nodes@[upto - 1] {
            Node::Item(id) => if db.item_positions(id@).len() == 0 {
                Some((LookupError::Missing, id@))
            } else if db.item_positions(id@).len() > 1 {
                Some((LookupError::LookupViolation, id@))
            } else {
                None
            },
            Node::RequirementItem(_) => None,
        }
    }
}

/// The identifier of the first shown item node, among the first `upto`
/// nodes, whose `healthy` attribute is neither an integer nor absent.
pub open spec fn first_unshaped(graph: CraftableGraph, db: Db, hide: Seq<String>, upto: int) -> Option<
    Seq<char>,
>
    decreases upto,
{
    if upto <= 0 {
        None
    } else if first_unshaped(graph, db, hide, upto - 1).is_some() {
        first_unshaped(graph, db, hide, upto - 1)
    } else {
        match graph.nodes@[upto - 1] {
            Node::Item(id) => if !string_ids(hide).contains(id@) && healthy_of(
                db.raw@[db.item_positions(id@).last()]@,
            ).is_none() {
                Some(id@)
            } else {
                None
            },
            Node::RequirementItem(_) => None,
        }
    }
}

proof fn lemma_unshaped_stays(graph: CraftableGraph, db: Db, hide: Seq<String>, upto: int, all: int)
    requires
        0 <= upto <= all,
        first_unshaped(graph, db, hide, upto).is_some(),
    ensures
        first_unshaped(graph, db, hide, all) == first_unshaped(graph, db, hide, upto),
    decreases all - upto,
{
    if upto < all {
        lemma_unshaped_stays(graph, db, hide, upto + 1, all);
    }
}

proof fn lemma_unbacked_stays(graph: CraftableGraph, db: Db, upto: int, all: int)
    requires
        0 <= upto <= all,
        first_unbacked(graph, db, upto).is_some(),
    ensures
        first_unbacked(graph, db, all) == first_unbacked(graph, db, upto),
    decreases all - upto,
{
    if upto < all {
        lemma_unbacked_stays(graph, db, upto + 1, all);
    }
}

/// Where a minimum is configured, the `healthy` attribute of every shown
/// item is an integer or absent.
pub open spec fn shaped(
    graph: CraftableGraph,
    db: Db,
    healthy_min: Option<i32>,
    hide: Seq<String>,
) -> bool {
    healthy_min.is_some() ==> forall|i: int|
        0 <= i < graph.nodes.len() ==> match (#[trigger] graph.nodes@[i]) {
            Node::Item(id) => string_ids(hide).contains(id@) || healthy_of(
                db.raw@[db.item_positions(id@).last()]@,
            ).is_some(),
            Node::RequirementItem(_) => true,
        }
}

/// Whether the record behind an item node fails a configured test, or that
/// its `healthy` attribute cannot be read.
fn item_is_irrelevant(
    rec: &Record,
    healthy_min: Option<i32>,
    restrict_types: Option<&[String]>,
) -> (r: Result<bool, LookupError>)
    ensures
        match r {
            Ok(b) => (healthy_min.is_some() ==> healthy_of(rec@).is_some()) && b == irrelevant_item(
                rec@,
                healthy_min,
                allowed_types(restrict_types),
            ),
            Err(e) => healthy_min.is_some() && healthy_of(rec@).is_none() && e
                == LookupError::UnsupportedShape,
        },
{
    let mut found = false;
    if let Some(min) = healthy_min {
        let healthy: i64 = match rec.get("healthy") {
            None => 0,
            Some(FieldValue::Integer(i)) => *i,
            Some(_) => {
                return Err(LookupError::UnsupportedShape);
            },
        };
        if healthy < min as i64 {
            found = true;
        }
    }
    if let Some(types) = restrict_types {
        let listed = match rec.text("type") {
            Some(t) => contains_name(types, t),
            None => false,
        };
        if !listed {
            found = true;
        }
    }
    Ok(found)
}

/// Prunes a graph against the database: the nodes whose identifier is in
/// `hide` leave it with their edges, and then, round after round, every
/// requirement node and every item node that fails a configured test
/// leaves once it has no outgoing edge left.
///
/// Fails where an item node has no single item behind it, or where a
/// `healthy` attribute that must be read is not an integer.
pub fn prune_irrelevant_nodes(
    graph: &CraftableGraph,
    db: &Db,
    healthy_min: Option<i32>,
    restrict_types: Option<&[String]>,
    hide: &[String],
) -> (r: Result<CraftableGraph, LookupFailure>)
    requires
        graph.wf(),
    ensures
        r.is_ok() <==> backed(*graph, *db) && shaped(*graph, *db, healthy_min, hide@),
        match r {
            Ok(pruned) => is_pruned(
                pruned,
                shown_nodes(*graph, hide@),
                shown_edges(*graph, hide@),
                irrelevant_shown(*graph, *db, healthy_min, allowed_types(restrict_types), hide@),
            ),
            Err(f) => if backed(*graph, *db) {
                f.error == LookupError::UnsupportedShape && first_unshaped(
                    *graph,
                    *db,
                    hide@,
                    graph.nodes.len() as int,
                ) == Some(f.id@)
            } else {
                first_unbacked(*graph, *db, graph.nodes.len() as int) == Some((f.error, f.id@))
            },
        },
{
    let ghost allowed = allowed_types(restrict_types);
    let mut i: usize = 0;
    while i < graph.nodes.len()
        invariant
            i <= graph.nodes.len(),
            first_unbacked(*graph, *db, i as int).is_none(),
            forall|j: int|
                0 <= j < i ==> match (#[trigger] graph.nodes@[j]) {
                    Node::Item(id) => db.item_positions(id@).len() == 1,
                    Node::RequirementItem(_) => true,
                },
        decreases graph.nodes.len() - i,
    {
        if let Node::Item(id) = &graph.nodes[i] {
            match db.lookup_item(id.as_str()) {
                Ok(Some(_)) => {},
                Ok(None) => {
                    proof {
                        lemma_unbacked_stays(*graph, *db, i + 1, graph.nodes.len() as int);
                    }
                    return Err(LookupFailure { error: LookupError::Missing, id: id.clone() });
                },
                Err(e) => {
                    proof {
                        lemma_unbacked_stays(*graph, *db, i + 1, graph.nodes.len() as int);
                    }
                    return Err(LookupFailure { error: e, id: id.clone() });
                },
            }
        }
        i += 1;
    }
    let mut candidates: Vec<Node> = Vec::new();
    let mut k: usize = 0;
    while k < graph.nodes.len()
        invariant
            k <= graph.nodes.len(),
            graph.wf(),
            allowed == allowed_types(restrict_types),
            backed(*graph, *db),
            healthy_min.is_some() ==> first_unshaped(*graph, *db, hide@, k as int).is_none(),
            healthy_min.is_some() ==> forall|j: int|
                0 <= j < k ==> match (#[trigger] graph.nodes@[j]) {
                    Node::Item(id) => string_ids(hide@).contains(id@) || healthy_of(
                        db.raw@[db.item_positions(id@).last()]@,
                    ).is_some(),
                    Node::RequirementItem(_) => true,
                },
            forall|n: NodeId| #[trigger]
                node_ids(candidates@).contains(n) <==> (exists|j: int|
                    0 <= j < k && #[trigger] node_ids(graph.nodes@)[j] == n) && !string_ids(
                    hide@,
                ).contains(n.name()) && irrelevant(*db, healthy_min, allowed, n),
        decreases graph.nodes.len() - k,
    {
        let node = &graph.nodes[k];
        assert(node_ids(graph.nodes@)[k as int] == node@);
        if !contains_name(hide, node.name()) {
            let is_candidate = match node {
                Node::RequirementItem(_) => true,
                Node::Item(id) => {
                    match db.lookup_item(id.as_str()) {
                        Ok(Some(rec)) => {
                            match item_is_irrelevant(rec, healthy_min, restrict_types) {
                                Ok(b) => b,
                                Err(e) => {
                                    proof {
                                        lemma_unshaped_stays(
                                            *graph,
                                            *db,
                                            hide@,
                                            k + 1,
                                            graph.nodes.len() as int,
                                        );
                                    }
                                    return Err(LookupFailure { error: e, id: id.clone() });
                                },
                            }
                        },
                        _ => false,
                    }
                },
            };
            if is_candidate {
                let ghost before = node_ids(candidates@);
                candidates.push(node.duplicate());
                proof {
                    assert(node_ids(candidates@) =~= before.push(node@));
                    lemma_push_contains(before, node@);
                }
            }
        }
        k += 1;
    }
    proof {
        assert(node_ids(candidates@).to_set() =~= irrelevant_shown(
            *graph,
            *db,
            healthy_min,
            allowed,
            hide@,
        ));
    }
    Ok(prune_graph(graph, candidates.as_slice(), hide))
}

/// Prunes a graph against a database that stands behind it: every item
/// node has its one item, and every `healthy` attribute that is read is an
/// integer or absent. The result is that of `prune_irrelevant_nodes`, which
/// cannot fail here.
pub fn prune_backed(
    graph: &CraftableGraph,
    db: &Db,
    healthy_min: Option<i32>,
    restrict_types: Option<&[String]>,
    hide: &[String],
) -> (r: CraftableGraph)
    requires
        graph.wf(),
        backed(*graph, *db),
        shaped(*graph, *db, healthy_min, hide@),
    ensures
        is_pruned(
            r,
            shown_nodes(*graph, hide@),
            shown_edges(*graph, hide@),
            irrelevant_shown(*graph, *db, healthy_min, allowed_types(restrict_types), hide@),
        ),
{
    match prune_irrelevant_nodes(graph, db, healthy_min, restrict_types, hide) {
        Ok(pruned) => pruned,
        Err(_) => vstd::pervasive::unreached(),
    }
}

} // verus!
