//! Nodes, edges and graphs of the craftability relation, with their
//! mathematical models.

use vstd::prelude::*;
use crate::schema::ComponentDesc;

verus! {

/// A tagged identity in the craftability graph.
#[derive(Clone, Debug, PartialEq, Eq, Hash, PartialOrd, Ord)]
pub enum Node {
    Item(String),
    RequirementItem(String),
}

/// The model of a node: its tag and the characters of its identifier.
pub enum NodeId {
    Item(Seq<char>),
    Requirement(Seq<char>),
}

impl View for Node {
    type V = NodeId;

    open spec fn view(&self) -> NodeId {
        match self {
            Node::Item(s) => NodeId::Item(s@),
            Node::RequirementItem(s) => NodeId::Requirement(s@),
        }
    }
}

impl NodeId {
    /// The identifier, whatever the tag.
    pub open spec fn name(self) -> Seq<char> {
        match self {
            NodeId::Item(s) => s,
            NodeId::Requirement(s) => s,
        }
    }
}

/// `source` is consumable in producing `dest`, by the recipe variant that
/// `recipe_suffix` tells apart.
#[derive(Clone, Debug, PartialEq, Eq, Hash, PartialOrd, Ord)]
pub struct Edge {
    pub source: Node,
    pub dest: Node,
    pub recipe_suffix: Option<String>,
}

/// The model of an edge.
pub struct EdgeId {
    pub source: NodeId,
    pub dest: NodeId,
    pub suffix: Option<Seq<char>>,
}

/// The characters of an optional recipe suffix.
pub open spec fn suffix_view(s: Option<String>) -> Option<Seq<char>> {
    match s {
        Some(t) => Some(t@),
        None => None,
    }
}

impl View for Edge {
    type V = EdgeId;

    open spec fn view(&self) -> EdgeId {
        EdgeId { source: self.source@, dest: self.dest@, suffix: suffix_view(self.recipe_suffix) }
    }
}

/// The models of a list of nodes, in order.
pub open spec fn node_ids(v: Seq<Node>) -> Seq<NodeId> {
    v.map_values(|n: Node| n@)
}

/// The models of a list of edges, in order.
pub open spec fn edge_ids(v: Seq<Edge>) -> Seq<EdgeId> {
    v.map_values(|e: Edge| e@)
}

/// The node that an ingredient alternative stands for.
pub open spec fn alternative_node(c: ComponentDesc) -> NodeId {
    match c {
        ComponentDesc::Plain(s, _) => NodeId::Item(s@),
        ComponentDesc::List(s, _) => NodeId::Requirement(s@),
    }
}

/// An ingredient expression as groups of alternative nodes.
pub open spec fn expression_model(components: Seq<Vec<ComponentDesc>>) -> Seq<Seq<NodeId>> {
    Seq::new(
        components.len(),
        |g: int| Seq::new(components[g]@.len(), |a: int| alternative_node(components[g]@[a])),
    )
}

impl Node {
    /// The identifier of an item node.
    pub fn as_item(&self) -> (r: Option<&String>)
        ensures
            r == (match *self {
                Node::Item(s) => Some(&s),
                Node::RequirementItem(_) => None,
            }),
    {
        match self {
            Node::Item(i) => Some(i),
            _ => None,
        }
    }

    /// The identifier of a requirement node.
    pub fn as_requirement_item(&self) -> (r: Option<&String>)
        ensures
            r == (match *self {
                Node::RequirementItem(s) => Some(&s),
                Node::Item(_) => None,
            }),
    {
        match self {
            Node::RequirementItem(i) => Some(i),
            _ => None,
        }
    }

    /// The identifier, whatever the tag.
    pub fn name(&self) -> (r: &String)
        ensures
            r@ == self@.name(),
    {
        match self {
            Node::RequirementItem(i) => i,
            Node::Item(i) => i,
        }
    }

    /// Whether two nodes have the same tag and the same identifier.
    pub fn same(&self, other: &Node) -> (r: bool)
        ensures
            r == (self@ == other@),
    {
        match (self, other) {
            (Node::Item(a), Node::Item(b)) => *a == *b,
            (Node::RequirementItem(a), Node::RequirementItem(b)) => *a == *b,
            _ => false,
        }
    }

    /// A copy of this node.
    pub fn duplicate(&self) -> (r: Node)
        ensures
            r == *self,
    {
        match self {
            Node::Item(a) => Node::Item(a.clone()),
            Node::RequirementItem(a) => Node::RequirementItem(a.clone()),
        }
    }

    /// The node that an ingredient alternative stands for.
    pub fn from_component(desc: &ComponentDesc) -> (r: Node)
        ensures
            r@ == alternative_node(*desc),
    {
        match desc {
            ComponentDesc::Plain(s, _) => Node::Item(s.clone()),
            ComponentDesc::List(s, _) => Node::RequirementItem(s.clone()),
        }
    }
}

/// A copy of an optional recipe suffix.
pub fn duplicate_suffix(s: &Option<String>) -> (r: Option<String>)
    ensures
        r == *s,
{
    match s {
        Some(t) => Some(t.clone()),
        None => None,
    }
}

/// Whether two optional recipe suffixes read the same.
pub fn same_suffix(a: &Option<String>, b: &Option<String>) -> (r: bool)
    ensures
        r == (suffix_view(*a) == suffix_view(*b)),
{
    match (a, b) {
        (Some(x), Some(y)) => *x == *y,
        (None, None) => true,
        _ => false,
    }
}

impl Edge {
    /// A copy of this edge.
    pub fn duplicate(&self) -> (r: Edge)
        ensures
            r == *self,
    {
        Edge {
            source: self.source.duplicate(),
            dest: self.dest.duplicate(),
            recipe_suffix: duplicate_suffix(&self.recipe_suffix),
        }
    }
}

/// Whether a list of nodes holds a node with the model of `n`.
pub fn contains_node(nodes: &[Node], n: &Node) -> (r: bool)
    ensures
        r == node_ids(nodes@).contains(n@),
{
    let mut i: usize = 0;
    while i < nodes.len()
        invariant
            i <= nodes.len(),
            forall|j: int| 0 <= j < i ==> nodes@[j]@ != n@,
        decreases nodes.len() - i,
    {
        if nodes[i].same(n) {
            assert(node_ids(nodes@)[i as int] == n@);
            return true;
        }
        i += 1;
    }
    false
}

/// Whether a list of edges holds the edge from `source` to `dest` under
/// `suffix`.
pub fn contains_edge(edges: &Vec<Edge>, source: &Node, dest: &Node, suffix: &Option<String>) -> (r:
    bool)
    ensures
        r == edge_ids(edges@).contains(
            (EdgeId { source: source@, dest: dest@, suffix: suffix_view(*suffix) }),
        ),
{
    let ghost want = EdgeId { source: source@, dest: dest@, suffix: suffix_view(*suffix) };
    let mut i: usize = 0;
    while i < edges.len()
        invariant
            i <= edges.len(),
            want == (EdgeId { source: source@, dest: dest@, suffix: suffix_view(*suffix) }),
            forall|j: int| 0 <= j < i ==> edges@[j]@ != want,
        decreases edges.len() - i,
    {
        let e = &edges[i];
        if e.source.same(source) && e.dest.same(dest) && same_suffix(&e.recipe_suffix, suffix) {
            assert(edge_ids(edges@)[i as int] == want);
            return true;
        }
        i += 1;
    }
    false
}

/// A set of nodes and a set of edges, each held as a list without repeats.
#[derive(Clone, Debug, PartialEq, Eq)]
pub struct CraftableGraph {
    pub nodes: Vec<Node>,
    pub edges: Vec<Edge>,
}

impl CraftableGraph {
    /// No node and no edge is listed twice.
    pub open spec fn wf(&self) -> bool {
        &&& node_ids(self.nodes@).no_duplicates()
        &&& edge_ids(self.edges@).no_duplicates()
    }

    /// The nodes as a set.
    pub open spec fn node_set(&self) -> Set<NodeId> {
        node_ids(self.nodes@).to_set()
    }

    /// The edges as a set.
    pub open spec fn edge_set(&self) -> Set<EdgeId> {
        edge_ids(self.edges@).to_set()
    }

    /// Whether no node and no edge is listed twice.
    pub fn well_formed(&self) -> (r: bool)
        ensures
            r == self.wf(),
    {
        let mut i: usize = 0;
        while i < self.nodes.len()
            invariant
                i <= self.nodes.len(),
                forall|a: int, b: int|
                    0 <= a < b < i ==> node_ids(self.nodes@)[a] != node_ids(self.nodes@)[b],
            decreases self.nodes.len() - i,
        {
            let mut j: usize = 0;
            while j < i
                invariant
                    j <= i,
                    i < self.nodes.len(),
                    forall|a: int| 0 <= a < j ==> node_ids(self.nodes@)[a] != node_ids(
                        self.nodes@,
                    )[i as int],
                decreases i - j,
            {
                if self.nodes[j].same(&self.nodes[i]) {
                    assert(node_ids(self.nodes@)[j as int] == node_ids(self.nodes@)[i as int]);
                    return false;
                }
                j += 1;
            }
            i += 1;
        }
        let mut k: usize = 0;
        while k < self.edges.len()
            invariant
                k <= self.edges.len(),
                node_ids(self.nodes@).no_duplicates(),
                forall|a: int, b: int|
                    0 <= a < b < k ==> edge_ids(self.edges@)[a] != edge_ids(self.edges@)[b],
            decreases self.edges.len() - k,
        {
            let e = &self.edges[k];
            let mut j: usize = 0;
            while j < k
                invariant
                    j <= k,
                    k < self.edges.len(),
                    e == &self.edges@[k as int],
                    forall|a: int| 0 <= a < j ==> edge_ids(self.edges@)[a] != edge_ids(
                        self.edges@,
                    )[k as int],
                decreases k - j,
            {
                let f = &self.edges[j];
                if f.source.same(&e.source) && f.dest.same(&e.dest) && same_suffix(
                    &f.recipe_suffix,
                    &e.recipe_suffix,
                ) {
                    assert(edge_ids(self.edges@)[j as int] == edge_ids(self.edges@)[k as int]);
                    return false;
                }
                j += 1;
            }
            k += 1;
        }
        true
    }
}

} // verus!
