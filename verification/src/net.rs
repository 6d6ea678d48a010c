//! The network itself: node and edge registries, the id generator, the
//! structural invariant that ties them together, and the construction API.
use vstd::prelude::*;

use crate::model::{
    empty_reaction, fresh_edge, fresh_node, Edge, EdgeV, LinkType, Node, NodeType, NodeV,
    Parameter, ParameterV, Sign,
};
use vstd::string::StrSliceExecFns;

verus! {

/// Failures reported by the construction API and the persistence layer.
#[derive(Debug, PartialEq)]
pub enum NetError {
    /// An edge's source did not resolve to a registered node.
    MissingSource(u64),
    /// An edge's destination did not resolve to a registered node.
    MissingDest(u64),
    /// A node was created under a name that is already registered.
    DuplicateName(String),
    /// Persisted text that does not parse as a network.
    Malformed,
    /// Persisted text that parses but breaks the structural invariant.
    Inconsistent,
}

/// Mathematical view of a [`BioNet`]: exactly the persisted content. The id
/// generator is process state and deliberately not part of the view.
#[verifier::ext_equal]
pub struct NetV {
    pub name: Seq<char>,
    pub nodes: Seq<NodeV>,
    pub edges: Seq<EdgeV>,
    pub parameters: Seq<ParameterV>,
}

/// The full signed directed graph plus its named parameters.
///
/// Nodes and edges are kept in creation order, which by construction is
/// ascending id order; ids are drawn from the shared `gen_id` counter.
pub struct BioNet {
    pub name: String,
    pub gen_id: u64,
    pub nodes: Vec<Node>,
    pub edges: Vec<Edge>,
    pub parameters: Vec<Parameter>,
}

impl View for BioNet {
    type V = NetV;

    open spec fn view(&self) -> NetV {
        NetV {
            name: self.name@,
            nodes: self.nodes@.map_values(|n: Node| n@),
            edges: self.edges@.map_values(|e: Edge| e@),
            parameters: self.parameters@.map_values(|p: Parameter| p@),
        }
    }
}

/// There is a node with this id.
pub open spec fn has_node(nodes: Seq<NodeV>, id: u64) -> bool {
    exists|i: int| 0 <= i < nodes.len() && nodes[i].id == id
}

/// Position of the node with this id (meaningful when `has_node` holds and
/// ids are distinct).
pub open spec fn node_index(nodes: Seq<NodeV>, id: u64) -> int {
    choose|i: int| 0 <= i < nodes.len() && nodes[i].id == id
}

/// The node with this id.
pub open spec fn node_of(nodes: Seq<NodeV>, id: u64) -> NodeV {
    nodes[node_index(nodes, id)]
}

/// There is a node with this name.
pub open spec fn has_name(nodes: Seq<NodeV>, name: Seq<char>) -> bool {
    exists|i: int| 0 <= i < nodes.len() && nodes[i].name == name
}

/// There is an edge with this id.
pub open spec fn has_edge(edges: Seq<EdgeV>, id: u64) -> bool {
    exists|i: int| 0 <= i < edges.len() && edges[i].id == id
}

/// Position of the edge with this id.
pub open spec fn edge_index(edges: Seq<EdgeV>, id: u64) -> int {
    choose|i: int| 0 <= i < edges.len() && edges[i].id == id
}

/// The edge with this id.
pub open spec fn edge_of(edges: Seq<EdgeV>, id: u64) -> EdgeV {
    edges[edge_index(edges, id)]
}

/// There is a parameter with this name.
pub open spec fn has_param(ps: Seq<ParameterV>, name: Seq<char>) -> bool {
    exists|i: int| 0 <= i < ps.len() && ps[i].name == name
}

/// Position of the parameter with this name.
pub open spec fn param_index(ps: Seq<ParameterV>, name: Seq<char>) -> int {
    choose|i: int| 0 <= i < ps.len() && ps[i].name == name
}

/// Node ids strictly increase in registry order.
pub open spec fn nodes_sorted(nodes: Seq<NodeV>) -> bool {
    forall|i: int, j: int| 0 <= i < j < nodes.len() ==> nodes[i].id < nodes[j].id
}

/// Edge ids strictly increase in registry order.
pub open spec fn edges_sorted(edges: Seq<EdgeV>) -> bool {
    forall|i: int, j: int| 0 <= i < j < edges.len() ==> edges[i].id < edges[j].id
}

/// Node names are pairwise distinct.
pub open spec fn names_unique(nodes: Seq<NodeV>) -> bool {
    forall|i: int, j: int| 0 <= i < j < nodes.len() ==> nodes[i].name != nodes[j].name
}

/// Parameter names are pairwise distinct.
pub open spec fn param_names_unique(ps: Seq<ParameterV>) -> bool {
    forall|i: int, j: int| 0 <= i < j < ps.len() ==> ps[i].name != ps[j].name
}

/// Every edge is wired into its endpoints: its id sits in the source node's
/// output links and in the destination node's input links.
pub open spec fn edges_wired(nodes: Seq<NodeV>, edges: Seq<EdgeV>) -> bool {
    forall|k: int| 0 <= k < edges.len() ==> {
        &&& has_node(nodes, #[trigger] edges[k].src)
        &&& node_of(nodes, edges[k].src).output_links.contains(edges[k].id)
        &&& has_node(nodes, edges[k].dest)
        &&& node_of(nodes, edges[k].dest).input_links.contains(edges[k].id)
    }
}

/// Every id in a node's link lists names a registered edge whose matching
/// endpoint is that node.
pub open spec fn links_sound(nodes: Seq<NodeV>, edges: Seq<EdgeV>) -> bool {
    &&& forall|i: int, j: int|
        0 <= i < nodes.len() && 0 <= j < nodes[i].output_links.len() ==> {
            &&& has_edge(edges, #[trigger] nodes[i].output_links[j])
            &&& edge_of(edges, nodes[i].output_links[j]).src == nodes[i].id
        }
    &&& forall|i: int, j: int|
        0 <= i < nodes.len() && 0 <= j < nodes[i].input_links.len() ==> {
            &&& has_edge(edges, #[trigger] nodes[i].input_links[j])
            &&& edge_of(edges, nodes[i].input_links[j]).dest == nodes[i].id
        }
}

/// No edge id is listed twice in one link list.
pub open spec fn links_distinct(nodes: Seq<NodeV>) -> bool {
    &&& forall|i: int, j1: int, j2: int|
        0 <= i < nodes.len() && 0 <= j1 < j2 < nodes[i].output_links.len()
            ==> #[trigger] nodes[i].output_links[j1] != #[trigger] nodes[i].output_links[j2]
    &&& forall|i: int, j1: int, j2: int|
        0 <= i < nodes.len() && 0 <= j1 < j2 < nodes[i].input_links.len()
            ==> #[trigger] nodes[i].input_links[j1] != #[trigger] nodes[i].input_links[j2]
}

/// Structural invariant of the persisted content, given the id generator's
/// current value: registries sorted by id, ids below the generator, names
/// unique, and the node/edge cross references consistent in both directions.
pub open spec fn content_inv(v: NetV, gen_id: u64) -> bool {
    &&& nodes_sorted(v.nodes)
    &&& edges_sorted(v.edges)
    &&& (forall|i: int| 0 <= i < v.nodes.len() ==> (#[trigger] v.nodes[i].id) < gen_id)
    &&& (forall|i: int| 0 <= i < v.edges.len() ==> (#[trigger] v.edges[i].id) < gen_id)
    &&& names_unique(v.nodes)
    &&& edges_wired(v.nodes, v.edges)
    &&& links_sound(v.nodes, v.edges)
    &&& links_distinct(v.nodes)
    &&& param_names_unique(v.parameters)
}

impl BioNet {
    /// The network's structural invariant.
    pub open spec fn inv(&self) -> bool {
        content_inv(self@, self.gen_id)
    }
}

/// With distinct ids, `node_index`/`node_of` recover exactly the entry at a
/// known position.
pub proof fn lemma_node_at(nodes: Seq<NodeV>, i: int)
    requires
        nodes_sorted(nodes),
        0 <= i < nodes.len(),
    ensures
        has_node(nodes, nodes[i].id),
        node_index(nodes, nodes[i].id) == i,
        node_of(nodes, nodes[i].id) == nodes[i],
{
    assert(has_node(nodes, nodes[i].id));
    let j = node_index(nodes, nodes[i].id);
    if i < j {
        assert(nodes[i].id < nodes[j].id);
    } else if j < i {
        assert(nodes[j].id < nodes[i].id);
    }
}

/// The edge registry analogue of [`lemma_node_at`].
pub proof fn lemma_edge_at(edges: Seq<EdgeV>, i: int)
    requires
        edges_sorted(edges),
        0 <= i < edges.len(),
    ensures
        has_edge(edges, edges[i].id),
        edge_index(edges, edges[i].id) == i,
        edge_of(edges, edges[i].id) == edges[i],
{
    assert(has_edge(edges, edges[i].id));
    let j = edge_index(edges, edges[i].id);
    if i < j {
        assert(edges[i].id < edges[j].id);
    } else if j < i {
        assert(edges[j].id < edges[i].id);
    }
}

impl BioNet {
    /// A fresh, empty network.
    pub fn new(name: String) -> (r: Self)
        ensures
            r@ == (NetV {
                name: name@,
                nodes: Seq::empty(),
                edges: Seq::empty(),
                parameters: Seq::empty(),
            }),
            r.gen_id == 0,
            r.inv(),
    {
        let r = BioNet {
            name,
            gen_id: 0,
            nodes: Vec::new(),
            edges: Vec::new(),
            parameters: Vec::new(),
        };
        proof {
            assert(r@ =~= (NetV {
                name: r.name@,
                nodes: Seq::empty(),
                edges: Seq::empty(),
                parameters: Seq::empty(),
            }));
        }
        r
    }

    /// Position of the node with this id, if any.
    pub fn find_node_index(&self, id: u64) -> (r: Option<usize>)
        ensures
            r matches Some(i) ==> i < self@.nodes.len() && self@.nodes[i as int].id == id,
            r is None ==> !has_node(self@.nodes, id),
            (r is Some) == has_node(self@.nodes, id),
    {
        let mut i: usize = 0;
        while i < self.nodes.len()
            invariant
                i <= self.nodes.len(),
                self@.nodes.len() == self.nodes@.len(),
                forall|k: int| 0 <= k < i ==> (#[trigger] self@.nodes[k].id) != id,
            decreases self.nodes.len() - i,
        {
            if self.nodes[i].id == id {
                return Some(i);
            }
            i = i + 1;
        }
        None
    }

    /// Position of the edge with this id, if any.
    pub fn find_edge_index(&self, id: u64) -> (r: Option<usize>)
        ensures
            r matches Some(i) ==> i < self@.edges.len() && self@.edges[i as int].id == id,
            r is None ==> !has_edge(self@.edges, id),
            (r is Some) == has_edge(self@.edges, id),
    {
        let mut i: usize = 0;
        while i < self.edges.len()
            invariant
                i <= self.edges.len(),
                self@.edges.len() == self.edges@.len(),
                forall|k: int| 0 <= k < i ==> (#[trigger] self@.edges[k].id) != id,
            decreases self.edges.len() - i,
        {
            if self.edges[i].id == id {
                return Some(i);
            }
            i = i + 1;
        }
        None
    }

    /// Whether some node carries this name.
    pub fn contains_name(&self, name: &str) -> (r: bool)
        ensures
            r == has_name(self@.nodes, name@),
    {
        let mut i: usize = 0;
        while i < self.nodes.len()
            invariant
                i <= self.nodes.len(),
                self@.nodes.len() == self.nodes@.len(),
                forall|k: int| 0 <= k < i ==> (#[trigger] self@.nodes[k].name) != name@,
            decreases self.nodes.len() - i,
        {
            if str_eq(self.nodes[i].name.as_str(), name) {
                proof {
                    assert(self@.nodes[i as int].name == name@);
                }
                return true;
            }
            i = i + 1;
        }
        false
    }
}

/// Appending a node with a fresh id leaves every existing lookup intact and
/// makes the new id resolve to the new node.
pub proof fn lemma_push_node(nodes: Seq<NodeV>, n: NodeV)
    requires
        nodes_sorted(nodes),
        forall|i: int| 0 <= i < nodes.len() ==> (#[trigger] nodes[i].id) != n.id,
    ensures
        forall|id: u64| #[trigger] has_node(nodes, id) ==> has_node(nodes.push(n), id)
            && node_index(nodes.push(n), id) == node_index(nodes, id)
            && node_of(nodes.push(n), id) == node_of(nodes, id),
        forall|id: u64| #[trigger] has_node(nodes.push(n), id) <==> (has_node(nodes, id) || id == n.id),
        has_node(nodes.push(n), n.id),
        node_index(nodes.push(n), n.id) == nodes.len(),
        node_of(nodes.push(n), n.id) == n,
{
    let pushed = nodes.push(n);
    assert forall|id: u64| #[trigger] has_node(nodes, id) implies has_node(pushed, id)
        && node_index(pushed, id) == node_index(nodes, id)
        && node_of(pushed, id) == node_of(nodes, id) by {
        let i = node_index(nodes, id);
        assert(pushed[i].id == id);
        assert(has_node(pushed, id));
        let j = node_index(pushed, id);
        assert(0 <= j < pushed.len() && pushed[j].id == id);
        assert(j < nodes.len());
        if i < j {
            assert(nodes[i].id < nodes[j].id);
        } else if j < i {
            assert(nodes[j].id < nodes[i].id);
        }
    }
    assert forall|id: u64| #[trigger] has_node(pushed, id) implies (has_node(nodes, id) || id
        == n.id) by {
        let j = node_index(pushed, id);
        if j < nodes.len() {
            assert(nodes[j].id == id);
        }
    }
    assert(pushed[nodes.len() as int].id == n.id);
    assert(has_node(pushed, n.id));
    let j = node_index(pushed, n.id);
    if j < nodes.len() {
        assert(nodes[j].id != n.id);
        assert(false);
    }
}

/// Appending an edge with a fresh id leaves every existing lookup intact and
/// makes the new id resolve to the new edge.
pub proof fn lemma_push_edge(edges: Seq<EdgeV>, e: EdgeV)
    requires
        edges_sorted(edges),
        forall|i: int| 0 <= i < edges.len() ==> (#[trigger] edges[i].id) != e.id,
    ensures
        forall|id: u64| #[trigger] has_edge(edges, id) ==> has_edge(edges.push(e), id)
            && edge_index(edges.push(e), id) == edge_index(edges, id)
            && edge_of(edges.push(e), id) == edge_of(edges, id),
        forall|id: u64| #[trigger] has_edge(edges.push(e), id) <==> (has_edge(edges, id) || id == e.id),
        has_edge(edges.push(e), e.id),
        edge_index(edges.push(e), e.id) == edges.len(),
        edge_of(edges.push(e), e.id) == e,
{
    let pushed = edges.push(e);
    assert forall|id: u64| #[trigger] has_edge(edges, id) implies has_edge(pushed, id)
        && edge_index(pushed, id) == edge_index(edges, id)
        && edge_of(pushed, id) == edge_of(edges, id) by {
        let i = edge_index(edges, id);
        assert(pushed[i].id == id);
        assert(has_edge(pushed, id));
        let j = edge_index(pushed, id);
        assert(0 <= j < pushed.len() && pushed[j].id == id);
        assert(j < edges.len());
        if i < j {
            assert(edges[i].id < edges[j].id);
        } else if j < i {
            assert(edges[j].id < edges[i].id);
        }
    }
    assert forall|id: u64| #[trigger] has_edge(pushed, id) implies (has_edge(edges, id) || id
        == e.id) by {
        let j = edge_index(pushed, id);
        if j < edges.len() {
            assert(edges[j].id == id);
        }
    }
    assert(pushed[edges.len() as int].id == e.id);
    assert(has_edge(pushed, e.id));
    let j = edge_index(pushed, e.id);
    if j < edges.len() {
        assert(edges[j].id != e.id);
        assert(false);
    }
}

impl BioNet {
    /// Registers a fresh entity node under the next id and returns a copy of
    /// it. Duplicate names are rejected and leave the network untouched.
    pub fn create_node(&mut self, name: String) -> (r: Result<Node, NetError>)
        requires
            old(self).inv(),
            old(self).gen_id < u64::MAX,
        ensures
            final(self).inv(),
            final(self)@.name == old(self)@.name,
            final(self)@.edges == old(self)@.edges,
            final(self)@.parameters == old(self)@.parameters,
            (r is Ok) == !has_name(old(self)@.nodes, name@),
            r matches Ok(n) ==> {
                &&& n@ == fresh_node(old(self).gen_id, name@)
                &&& final(self)@.nodes == old(self)@.nodes.push(n@)
                &&& final(self).gen_id == old(self).gen_id + 1
            },
            r matches Err(e) ==> {
                &&& *final(self) == *old(self)
                &&& e matches NetError::DuplicateName(dup) && dup@ == name@
            },
    {
        self.insert_fresh_node(name, NodeType::Default)
    }

    /// Registers a fresh interaction node under the next id and returns a
    /// copy of it. Duplicate names are rejected and leave the network
    /// untouched.
    pub fn create_interaction(&mut self, name: String) -> (r: Result<Node, NetError>)
        requires
            old(self).inv(),
            old(self).gen_id < u64::MAX,
        ensures
            final(self).inv(),
            final(self)@.name == old(self)@.name,
            final(self)@.edges == old(self)@.edges,
            final(self)@.parameters == old(self)@.parameters,
            (r is Ok) == !has_name(old(self)@.nodes, name@),
            r matches Ok(n) ==> {
                &&& n@ == (NodeV {
                    node_type: NodeType::Interaction,
                    ..fresh_node(old(self).gen_id, name@)
                })
                &&& final(self)@.nodes == old(self)@.nodes.push(n@)
                &&& final(self).gen_id == old(self).gen_id + 1
            },
            r matches Err(e) ==> {
                &&& *final(self) == *old(self)
                &&& e matches NetError::DuplicateName(dup) && dup@ == name@
            },
    {
        self.insert_fresh_node(name, NodeType::Interaction)
    }

    /// Shared body of the two node constructors.
    fn insert_fresh_node(&mut self, name: String, nt: NodeType) -> (r: Result<Node, NetError>)
        requires
            old(self).inv(),
            old(self).gen_id < u64::MAX,
        ensures
            final(self).inv(),
            final(self)@.name == old(self)@.name,
            final(self)@.edges == old(self)@.edges,
            final(self)@.parameters == old(self)@.parameters,
            (r is Ok) == !has_name(old(self)@.nodes, name@),
            r matches Ok(n) ==> {
                &&& n@ == (NodeV { node_type: nt, ..fresh_node(old(self).gen_id, name@) })
                &&& final(self)@.nodes == old(self)@.nodes.push(n@)
                &&& final(self).gen_id == old(self).gen_id + 1
            },
            r matches Err(e) ==> {
                &&& *final(self) == *old(self)
                &&& e matches NetError::DuplicateName(dup) && dup@ == name@
            },
    {
        if self.contains_name(name.as_str()) {
            return Err(NetError::DuplicateName(name));
        }
        let ghost pre = *self;
        let mut node = Node::new(self.gen_id, name);
        node.set_node_type(nt);
        let copy = node.duplicate();
        proof {
            assert(node@ == (NodeV { node_type: nt, ..fresh_node(pre.gen_id, node.name@) }));
        }
        self.nodes.push(node);
        self.gen_id = self.gen_id + 1;
        proof {
            let nv = copy@;
            assert(self@.nodes =~= pre@.nodes.push(nv));
            assert(self@.edges =~= pre@.edges);
            assert(self@.parameters =~= pre@.parameters);
            assert forall|i: int| 0 <= i < pre@.nodes.len() implies (#[trigger] pre@.nodes[i].id)
                != nv.id by {
                assert(pre@.nodes[i].id < pre.gen_id);
            }
            lemma_push_node(pre@.nodes, nv);
            let post = self@.nodes;
            assert(nodes_sorted(post)) by {
                assert forall|i: int, j: int| 0 <= i < j < post.len() implies post[i].id
                    < post[j].id by {
                    if j < pre@.nodes.len() {
                        assert(pre@.nodes[i].id < pre@.nodes[j].id);
                    } else {
                        assert(pre@.nodes[i].id < pre.gen_id);
                    }
                }
            }
            assert(names_unique(post)) by {
                assert forall|i: int, j: int| 0 <= i < j < post.len() implies post[i].name
                    != post[j].name by {
                    if j < pre@.nodes.len() {
                        assert(pre@.nodes[i].name != pre@.nodes[j].name);
                    } else {
                        assert(!has_name(pre@.nodes, nv.name));
                        assert(post[i] == pre@.nodes[i]);
                    }
                }
            }
            assert(edges_wired(post, self@.edges)) by {
                assert forall|k: int| 0 <= k < self@.edges.len() implies {
                    &&& has_node(post, #[trigger] self@.edges[k].src)
                    &&& node_of(post, self@.edges[k].src).output_links.contains(self@.edges[k].id)
                    &&& has_node(post, self@.edges[k].dest)
                    &&& node_of(post, self@.edges[k].dest).input_links.contains(self@.edges[k].id)
                } by {
                    assert(has_node(pre@.nodes, self@.edges[k].src));
                    assert(has_node(pre@.nodes, self@.edges[k].dest));
                }
            }
            assert(links_sound(post, self@.edges)) by {
                assert forall|i: int, j: int| 0 <= i < post.len() && 0 <= j
                    < post[i].output_links.len() implies {
                    &&& has_edge(self@.edges, #[trigger] post[i].output_links[j])
                    &&& edge_of(self@.edges, post[i].output_links[j]).src == post[i].id
                } by {
                    assert(i < pre@.nodes.len());
                    assert(post[i] == pre@.nodes[i]);
                }
                assert forall|i: int, j: int| 0 <= i < post.len() && 0 <= j
                    < post[i].input_links.len() implies {
                    &&& has_edge(self@.edges, #[trigger] post[i].input_links[j])
                    &&& edge_of(self@.edges, post[i].input_links[j]).dest == post[i].id
                } by {
                    assert(i < pre@.nodes.len());
                    assert(post[i] == pre@.nodes[i]);
                }
            }
            assert(links_distinct(post)) by {
                assert forall|i: int, j1: int, j2: int| 0 <= i < post.len() && 0 <= j1 < j2
                    < post[i].output_links.len() implies #[trigger] post[i].output_links[j1]
                    != #[trigger] post[i].output_links[j2] by {
                    assert(i < pre@.nodes.len());
                    assert(post[i] == pre@.nodes[i]);
                }
                assert forall|i: int, j1: int, j2: int| 0 <= i < post.len() && 0 <= j1 < j2
                    < post[i].input_links.len() implies #[trigger] post[i].input_links[j1]
                    != #[trigger] post[i].input_links[j2] by {
                    assert(i < pre@.nodes.len());
                    assert(post[i] == pre@.nodes[i]);
                }
            }
        }
        Ok(copy)
    }
}

/// A node with one more output link.
pub open spec fn with_out_link(n: NodeV, eid: u64) -> NodeV {
    NodeV { output_links: n.output_links.push(eid), ..n }
}

/// A node with one more input link.
pub open spec fn with_in_link(n: NodeV, eid: u64) -> NodeV {
    NodeV { input_links: n.input_links.push(eid), ..n }
}

/// Two node registries with identical ids position by position resolve every
/// id to the same position.
pub proof fn lemma_same_ids(a: Seq<NodeV>, b: Seq<NodeV>)
    requires
        nodes_sorted(a),
        a.len() == b.len(),
        forall|i: int| 0 <= i < a.len() ==> (#[trigger] b[i].id) == a[i].id,
    ensures
        forall|id: u64| #[trigger] has_node(b, id) <==> has_node(a, id),
        forall|id: u64| #[trigger] has_node(a, id) ==> node_index(b, id) == node_index(a, id),
{
    assert forall|id: u64| #[trigger] has_node(b, id) implies has_node(a, id) by {
        let i = node_index(b, id);
        assert(a[i].id == id);
    }
    assert forall|id: u64| #[trigger] has_node(a, id) implies has_node(b, id)
        && node_index(b, id) == node_index(a, id) by {
        let i = node_index(a, id);
        assert(b[i].id == id);
        assert(has_node(b, id));
        let j = node_index(b, id);
        assert(a[j].id == id);
        if i < j {
            assert(a[i].id < a[j].id);
        } else if j < i {
            assert(a[j].id < a[i].id);
        }
    }
}

impl BioNet {
    /// Creates a directed, signed edge between two registered nodes: the next
    /// id is allocated, the edge is wired into the source node's output links
    /// and the destination node's input links, and a copy of it is returned.
    /// If an endpoint is missing the call fails, reports which one, and
    /// leaves the network untouched.
    #[verifier::rlimit(100)]
    pub fn create_edge(
        &mut self,
        src: u64,
        dest: u64,
        signs: (Sign, Sign),
        link_type: LinkType,
    ) -> (r: Result<Edge, NetError>)
        requires
            old(self).inv(),
            old(self).gen_id < u64::MAX,
        ensures
            final(self).inv(),
            final(self)@.name == old(self)@.name,
            final(self)@.parameters == old(self)@.parameters,
            (r is Ok) == (has_node(old(self)@.nodes, src) && has_node(old(self)@.nodes, dest)),
            r matches Ok(e) ==> {
                &&& e@ == fresh_edge(old(self).gen_id, src, dest, signs, link_type)
                &&& final(self)@.edges == old(self)@.edges.push(e@)
                &&& final(self).gen_id == old(self).gen_id + 1
                &&& final(self)@.nodes.len() == old(self)@.nodes.len()
                &&& (src != dest ==> final(self)@.nodes == old(self)@.nodes.update(
                    node_index(old(self)@.nodes, src),
                    with_out_link(node_of(old(self)@.nodes, src), e@.id),
                ).update(
                    node_index(old(self)@.nodes, dest),
                    with_in_link(node_of(old(self)@.nodes, dest), e@.id),
                ))
                &&& (src == dest ==> final(self)@.nodes == old(self)@.nodes.update(
                    node_index(old(self)@.nodes, src),
                    with_in_link(with_out_link(node_of(old(self)@.nodes, src), e@.id), e@.id),
                ))
            },
            r matches Err(err) ==> {
                &&& *final(self) == *old(self)
                &&& (err matches NetError::MissingSource(m) ==> m == src && !has_node(
                    old(self)@.nodes,
                    src,
                ))
                &&& (err matches NetError::MissingDest(m) ==> m == dest && has_node(
                    old(self)@.nodes,
                    src,
                ) && !has_node(old(self)@.nodes, dest))
                &&& (err is MissingSource || err is MissingDest)
            },
    {
        let si = match self.find_node_index(src) {
            Some(i) => i,
            None => {
                return Err(NetError::MissingSource(src));
            },
        };
        let di = match self.find_node_index(dest) {
            Some(i) => i,
            None => {
                return Err(NetError::MissingDest(dest));
            },
        };
        let ghost pre = *self;
        proof {
            lemma_node_at(pre@.nodes, si as int);
            lemma_node_at(pre@.nodes, di as int);
            if si != di {
                assert(pre@.nodes[si as int].id != pre@.nodes[di as int].id);
            }
        }
        let edge = Edge::new(self.gen_id, src, dest, signs, link_type);
        let copy = edge.duplicate();
        let eid = edge.id;
        self.nodes[si].output_links.push(eid);
        self.nodes[di].input_links.push(eid);
        self.edges.push(edge);
        self.gen_id = self.gen_id + 1;
        proof {
            let ev = copy@;
            let pn = pre@.nodes;
            let post = self@.nodes;
            let sidx = si as int;
            let didx = di as int;
            assert(self@.edges =~= pre@.edges.push(ev));
            assert(self@.parameters =~= pre@.parameters);
            if si != di {
                assert(post =~= pn.update(sidx, with_out_link(pn[sidx], eid)).update(
                    didx,
                    with_in_link(pn[didx], eid),
                ));
            } else {
                assert(post =~= pn.update(sidx, with_in_link(with_out_link(pn[sidx], eid), eid)));
            }
            // ids, names and types are untouched position by position
            assert(post.len() == pn.len());
            assert forall|i: int| 0 <= i < pn.len() implies (#[trigger] post[i].id) == pn[i].id
                && post[i].name == pn[i].name && post[i].node_type == pn[i].node_type by {}
            lemma_same_ids(pn, post);
            assert forall|i: int| 0 <= i < pre@.edges.len() implies (#[trigger] pre@.edges[i].id)
                != eid by {
                assert(pre@.edges[i].id < pre.gen_id);
            }
            lemma_push_edge(pre@.edges, ev);
            // every id found in an old link list is an old edge id, hence below the generator
            assert forall|i: int, j: int|
                0 <= i < pn.len() && 0 <= j < pn[i].output_links.len() implies (
            #[trigger] pn[i].output_links[j]) < pre.gen_id by {
                let l = pn[i].output_links[j];
                let k = edge_index(pre@.edges, l);
                assert(pre@.edges[k].id < pre.gen_id);
            }
            assert forall|i: int, j: int|
                0 <= i < pn.len() && 0 <= j < pn[i].input_links.len() implies (
            #[trigger] pn[i].input_links[j]) < pre.gen_id by {
                let l = pn[i].input_links[j];
                let k = edge_index(pre@.edges, l);
                assert(pre@.edges[k].id < pre.gen_id);
            }
            assert(nodes_sorted(post));
            assert(edges_sorted(self@.edges)) by {
                assert forall|i: int, j: int| 0 <= i < j < self@.edges.len() implies self@.edges[i].id
                    < self@.edges[j].id by {
                    if j < pre@.edges.len() {
                        assert(pre@.edges[i].id < pre@.edges[j].id);
                    } else {
                        assert(pre@.edges[i].id < pre.gen_id);
                    }
                }
            }
            assert(names_unique(post));
            assert(edges_wired(post, self@.edges)) by {
                assert forall|k: int| 0 <= k < self@.edges.len() implies {
                    &&& has_node(post, #[trigger] self@.edges[k].src)
                    &&& node_of(post, self@.edges[k].src).output_links.contains(self@.edges[k].id)
                    &&& has_node(post, self@.edges[k].dest)
                    &&& node_of(post, self@.edges[k].dest).input_links.contains(self@.edges[k].id)
                } by {
                    if k < pre@.edges.len() {
                        let e = pre@.edges[k];
                        assert(has_node(pn, e.src));
                        assert(has_node(pn, e.dest));
                        let is = node_index(pn, e.src);
                        let idd = node_index(pn, e.dest);
                        assert(node_of(post, e.src) == post[is]);
                        assert(node_of(post, e.dest) == post[idd]);
                        assert(pn[is].output_links.contains(e.id));
                        assert(pn[idd].input_links.contains(e.id));
                        let jo = choose|j: int|
                            0 <= j < pn[is].output_links.len() && pn[is].output_links[j] == e.id;
                        assert(post[is].output_links[jo] == e.id);
                        assert(post[is].output_links.contains(e.id));
                        let ji = choose|j: int|
                            0 <= j < pn[idd].input_links.len() && pn[idd].input_links[j] == e.id;
                        assert(post[idd].input_links[ji] == e.id);
                        assert(post[idd].input_links.contains(e.id));
                    } else {
                        assert(self@.edges[k] == ev);
                        assert(has_node(pn, src));
                        assert(node_index(pn, src) == sidx);
                        assert(node_of(post, src) == post[sidx]);
                        assert(post[sidx].output_links.last() == eid);
                        assert(post[sidx].output_links.contains(eid));
                        assert(node_of(post, dest) == post[didx]);
                        assert(post[didx].input_links.last() == eid);
                        assert(post[didx].input_links.contains(eid));
                    }
                }
            }
            assert(links_sound(post, self@.edges)) by {
                assert forall|i: int, j: int|
                    0 <= i < post.len() && 0 <= j < post[i].output_links.len() implies {
                    &&& has_edge(self@.edges, #[trigger] post[i].output_links[j])
                    &&& edge_of(self@.edges, post[i].output_links[j]).src == post[i].id
                } by {
                    if j < pn[i].output_links.len() {
                        assert(post[i].output_links[j] == pn[i].output_links[j]);
                        assert(has_edge(pre@.edges, pn[i].output_links[j]));
                    } else {
                        assert(i == sidx && post[i].output_links[j] == eid);
                        assert(edge_of(self@.edges, eid) == ev);
                    }
                }
                assert forall|i: int, j: int|
                    0 <= i < post.len() && 0 <= j < post[i].input_links.len() implies {
                    &&& has_edge(self@.edges, #[trigger] post[i].input_links[j])
                    &&& edge_of(self@.edges, post[i].input_links[j]).dest == post[i].id
                } by {
                    if j < pn[i].input_links.len() {
                        assert(post[i].input_links[j] == pn[i].input_links[j]);
                        assert(has_edge(pre@.edges, pn[i].input_links[j]));
                    } else {
                        assert(i == didx && post[i].input_links[j] == eid);
                        assert(edge_of(self@.edges, eid) == ev);
                    }
                }
            }
            assert(links_distinct(post)) by {
                assert forall|i: int, j1: int, j2: int|
                    0 <= i < post.len() && 0 <= j1 < j2 < post[i].output_links.len() implies
                #[trigger] post[i].output_links[j1] != #[trigger] post[i].output_links[j2] by {
                    if j2 < pn[i].output_links.len() {
                        assert(pn[i].output_links[j1] != pn[i].output_links[j2]);
                    } else {
                        assert(i == sidx && post[i].output_links[j2] == eid);
                        assert(post[i].output_links[j1] == pn[i].output_links[j1]);
                        assert(pn[i].output_links[j1] < pre.gen_id);
                    }
                }
                assert forall|i: int, j1: int, j2: int|
                    0 <= i < post.len() && 0 <= j1 < j2 < post[i].input_links.len() implies
                #[trigger] post[i].input_links[j1] != #[trigger] post[i].input_links[j2] by {
                    if j2 < pn[i].input_links.len() {
                        assert(pn[i].input_links[j1] != pn[i].input_links[j2]);
                    } else {
                        assert(i == didx && post[i].input_links[j2] == eid);
                        assert(post[i].input_links[j1] == pn[i].input_links[j1]);
                        assert(pn[i].input_links[j1] < pre.gen_id);
                    }
                }
            }
        }
        Ok(copy)
    }
}

impl BioNet {
    /// Wires an entity node into an interaction motif: the node is always the
    /// source and the interaction the destination. Both are re-resolved by
    /// id, so a stale copy whose node has never been registered is reported
    /// rather than silently wired.
    pub fn add_node_to_interaction(
        &mut self,
        interaction: &Node,
        node: &Node,
        signs: (Sign, Sign),
        link_type: LinkType,
    ) -> (r: Result<Edge, NetError>)
        requires
            old(self).inv(),
            old(self).gen_id < u64::MAX,
        ensures
            final(self).inv(),
            final(self)@.name == old(self)@.name,
            final(self)@.parameters == old(self)@.parameters,
            (r is Ok) == (has_node(old(self)@.nodes, node.id) && has_node(
                old(self)@.nodes,
                interaction.id,
            )),
            r matches Ok(e) ==> {
                &&& e@ == fresh_edge(old(self).gen_id, node.id, interaction.id, signs, link_type)
                &&& final(self)@.edges == old(self)@.edges.push(e@)
                &&& final(self).gen_id == old(self).gen_id + 1
                &&& final(self)@.nodes.len() == old(self)@.nodes.len()
                &&& (forall|i: int|
                    0 <= i < old(self)@.nodes.len() ==> (#[trigger] final(self)@.nodes[i].id)
                        == old(self)@.nodes[i].id && final(self)@.nodes[i].name
                        == old(self)@.nodes[i].name && final(self)@.nodes[i].node_type
                        == old(self)@.nodes[i].node_type)
            },
            r matches Err(err) ==> {
                &&& *final(self) == *old(self)
                &&& (err matches NetError::MissingSource(m) ==> m == node.id && !has_node(
                    old(self)@.nodes,
                    node.id,
                ))
                &&& (err matches NetError::MissingDest(m) ==> m == interaction.id && !has_node(
                    old(self)@.nodes,
                    interaction.id,
                ))
                &&& (err is MissingSource || err is MissingDest)
            },
    {
        let r = self.create_edge(node.id, interaction.id, signs, link_type);
        proof {
            if r is Ok {
                let pn = old(self)@.nodes;
                let post = self@.nodes;
                if node.id != interaction.id {
                    assert(forall|i: int|
                        0 <= i < pn.len() ==> (#[trigger] post[i].id) == pn[i].id && post[i].name
                            == pn[i].name && post[i].node_type == pn[i].node_type);
                } else {
                    assert(forall|i: int|
                        0 <= i < pn.len() ==> (#[trigger] post[i].id) == pn[i].id && post[i].name
                            == pn[i].name && post[i].node_type == pn[i].node_type);
                }
            }
        }
        r
    }
}

/// Post-state of a three-edge interaction motif built on top of `pre` when
/// the generator stood at `g`: a fresh interaction node with id `g`, two
/// inbound edges from `in1`/`in2` and one outbound edge to `out_dest`, each
/// pair carrying the caller's polarity pair.
pub open spec fn motif_post(
    pre: NetV,
    g: u64,
    post: NetV,
    name: Seq<char>,
    in1: (u64, (Sign, Sign)),
    in2: (u64, (Sign, Sign)),
    out_dest: u64,
    out_signs: (Sign, Sign),
    lt: LinkType,
) -> bool {
    &&& post.name == pre.name
    &&& post.parameters == pre.parameters
    &&& post.edges == pre.edges.push(fresh_edge((g + 1) as u64, in1.0, g, in1.1, lt)).push(
        fresh_edge((g + 2) as u64, in2.0, g, in2.1, lt),
    ).push(fresh_edge((g + 3) as u64, g, out_dest, out_signs, lt))
    &&& post.nodes.len() == pre.nodes.len() + 1
    &&& (forall|i: int|
        0 <= i < pre.nodes.len() ==> (#[trigger] post.nodes[i].id) == pre.nodes[i].id
            && post.nodes[i].name == pre.nodes[i].name && post.nodes[i].node_type
            == pre.nodes[i].node_type && post.nodes[i].active == pre.nodes[i].active
            && post.nodes[i].description == pre.nodes[i].description)
    &&& has_node(post.nodes, g)
    &&& node_of(post.nodes, g) == (NodeV {
        id: g,
        node_type: NodeType::Interaction,
        active: true,
        name,
        description: Seq::empty(),
        input_links: seq![(g + 1) as u64, (g + 2) as u64],
        output_links: seq![(g + 3) as u64],
    })
}

impl BioNet {
    /// Shared body of the composite motifs: one fresh interaction node, two
    /// inbound edges and one outbound edge, created atomically — every
    /// precondition is checked before anything is registered.
    #[verifier::rlimit(100)]
    fn build_motif(
        &mut self,
        name: String,
        in1: (u64, (Sign, Sign)),
        in2: (u64, (Sign, Sign)),
        out_dest: u64,
        out_signs: (Sign, Sign),
        lt: LinkType,
    ) -> (r: Result<(), NetError>)
        requires
            old(self).inv(),
            old(self).gen_id <= u64::MAX - 4,
        ensures
            final(self).inv(),
            (r is Ok) == (!has_name(old(self)@.nodes, name@) && has_node(old(self)@.nodes, in1.0)
                && has_node(old(self)@.nodes, in2.0) && has_node(old(self)@.nodes, out_dest)),
            r is Ok ==> final(self).gen_id == old(self).gen_id + 4 && motif_post(
                old(self)@,
                old(self).gen_id,
                final(self)@,
                name@,
                in1,
                in2,
                out_dest,
                out_signs,
                lt,
            ),
            r matches Err(e) ==> {
                &&& *final(self) == *old(self)
                &&& (e is DuplicateName ==> has_name(old(self)@.nodes, name@))
                &&& (e matches NetError::MissingSource(m) ==> !has_node(old(self)@.nodes, m) && (m
                    == in1.0 || m == in2.0))
                &&& (e matches NetError::MissingDest(m) ==> m == out_dest && !has_node(
                    old(self)@.nodes,
                    out_dest,
                ))
                &&& (e is DuplicateName || e is MissingSource || e is MissingDest)
            },
    {
        if self.contains_name(name.as_str()) {
            return Err(NetError::DuplicateName(name));
        }
        if self.find_node_index(in1.0).is_none() {
            return Err(NetError::MissingSource(in1.0));
        }
        if self.find_node_index(in2.0).is_none() {
            return Err(NetError::MissingSource(in2.0));
        }
        if self.find_node_index(out_dest).is_none() {
            return Err(NetError::MissingDest(out_dest));
        }
        let ghost pre = *self;
        let ghost g = self.gen_id;
        let inter = match self.create_interaction(name) {
            Ok(n) => n,
            Err(e) => {
                proof {
                    assert(false);
                }
                return Err(e);
            },
        };
        let ghost s1 = *self;
        proof {
            assert forall|i: int| 0 <= i < pre@.nodes.len() implies (#[trigger] pre@.nodes[i].id)
                != inter.id by {
                assert(pre@.nodes[i].id < g);
            }
            lemma_push_node(pre@.nodes, inter@);
            assert(node_index(s1@.nodes, g) == pre@.nodes.len());
        }
        let e1 = match self.create_edge(in1.0, inter.id, in1.1, lt) {
            Ok(e) => e,
            Err(e) => {
                proof {
                    assert(false);
                }
                return Err(e);
            },
        };
        let ghost s2 = *self;
        proof {
            assert(in1.0 != g) by {
                let i = node_index(pre@.nodes, in1.0);
                assert(pre@.nodes[i].id < g);
            }
            assert forall|i: int| 0 <= i < s2@.nodes.len() implies (#[trigger] s2@.nodes[i].id)
                == s1@.nodes[i].id && s2@.nodes[i].name == s1@.nodes[i].name
                && s2@.nodes[i].node_type == s1@.nodes[i].node_type && s2@.nodes[i].active
                == s1@.nodes[i].active && s2@.nodes[i].description == s1@.nodes[i].description by {}
            lemma_same_ids(s1@.nodes, s2@.nodes);
            assert(node_index(s2@.nodes, g) == pre@.nodes.len());
            assert(s2@.nodes[pre@.nodes.len() as int] == with_in_link(inter@, e1.id));
        }
        let e2 = match self.create_edge(in2.0, inter.id, in2.1, lt) {
            Ok(e) => e,
            Err(e) => {
                proof {
                    assert(false);
                }
                return Err(e);
            },
        };
        let ghost s3 = *self;
        proof {
            assert(in2.0 != g) by {
                let i = node_index(pre@.nodes, in2.0);
                assert(pre@.nodes[i].id < g);
            }
            assert forall|i: int| 0 <= i < s3@.nodes.len() implies (#[trigger] s3@.nodes[i].id)
                == s2@.nodes[i].id && s3@.nodes[i].name == s2@.nodes[i].name
                && s3@.nodes[i].node_type == s2@.nodes[i].node_type && s3@.nodes[i].active
                == s2@.nodes[i].active && s3@.nodes[i].description == s2@.nodes[i].description by {}
            lemma_same_ids(s2@.nodes, s3@.nodes);
            assert(node_index(s3@.nodes, g) == pre@.nodes.len());
            assert(s3@.nodes[pre@.nodes.len() as int] == with_in_link(
                with_in_link(inter@, e1.id),
                e2.id,
            ));
        }
        let e3 = match self.create_edge(inter.id, out_dest, out_signs, lt) {
            Ok(e) => e,
            Err(e) => {
                proof {
                    assert(false);
                }
                return Err(e);
            },
        };
        proof {
            let s4 = *self;
            assert(out_dest != g) by {
                let i = node_index(pre@.nodes, out_dest);
                assert(pre@.nodes[i].id < g);
            }
            assert forall|i: int| 0 <= i < s4@.nodes.len() implies (#[trigger] s4@.nodes[i].id)
                == s3@.nodes[i].id && s4@.nodes[i].name == s3@.nodes[i].name
                && s4@.nodes[i].node_type == s3@.nodes[i].node_type && s4@.nodes[i].active
                == s3@.nodes[i].active && s4@.nodes[i].description == s3@.nodes[i].description by {}
            lemma_same_ids(s3@.nodes, s4@.nodes);
            lemma_node_at(s4@.nodes, pre@.nodes.len() as int);
            assert(s4@.nodes[pre@.nodes.len() as int] == with_out_link(
                with_in_link(with_in_link(inter@, e1.id), e2.id),
                e3.id,
            ));
            assert(node_of(s4@.nodes, g) == (NodeV {
                id: g,
                node_type: NodeType::Interaction,
                active: true,
                name: inter@.name,
                description: Seq::empty(),
                input_links: seq![(g + 1) as u64, (g + 2) as u64],
                output_links: seq![(g + 3) as u64],
            })) by {
                assert(with_out_link(
                    with_in_link(with_in_link(inter@, e1.id), e2.id),
                    e3.id,
                ) =~= (NodeV {
                    id: g,
                    node_type: NodeType::Interaction,
                    active: true,
                    name: inter@.name,
                    description: Seq::empty(),
                    input_links: seq![(g + 1) as u64, (g + 2) as u64],
                    output_links: seq![(g + 3) as u64],
                }));
            }
            assert(s4@.edges =~= pre@.edges.push(fresh_edge((g + 1) as u64, in1.0, g, in1.1, lt))
                .push(fresh_edge((g + 2) as u64, in2.0, g, in2.1, lt)).push(
                fresh_edge((g + 3) as u64, g, out_dest, out_signs, lt),
            ));
        }
        Ok(())
    }

    /// Wires `node1` and `node2` with destination-positive polarity into a
    /// fresh interaction node named `name`, whose output edge to `node3` is
    /// destination-positive as well.
    pub fn create_positive_interaction(
        &mut self,
        name: String,
        node1: &Node,
        node2: &Node,
        node3: &Node,
    ) -> (r: Result<(), NetError>)
        requires
            old(self).inv(),
            old(self).gen_id <= u64::MAX - 4,
        ensures
            final(self).inv(),
            (r is Ok) == (!has_name(old(self)@.nodes, name@) && has_node(
                old(self)@.nodes,
                node1.id,
            ) && has_node(old(self)@.nodes, node2.id) && has_node(old(self)@.nodes, node3.id)),
            r is Ok ==> final(self).gen_id == old(self).gen_id + 4 && motif_post(
                old(self)@,
                old(self).gen_id,
                final(self)@,
                name@,
                (node1.id, (Sign::Neutral, Sign::Positive)),
                (node2.id, (Sign::Neutral, Sign::Positive)),
                node3.id,
                (Sign::Neutral, Sign::Positive),
                LinkType::PositiveInteraction,
            ),
            r is Err ==> *final(self) == *old(self),
    {
        self.build_motif(
            name,
            (node1.id, (Sign::Neutral, Sign::Positive)),
            (node2.id, (Sign::Neutral, Sign::Positive)),
            node3.id,
            (Sign::Neutral, Sign::Positive),
            LinkType::PositiveInteraction,
        )
    }

    /// As [`Self::create_positive_interaction`], but the output edge to
    /// `node3` carries destination-negative polarity.
    pub fn create_negative_interaction(
        &mut self,
        name: String,
        node1: &Node,
        node2: &Node,
        node3: &Node,
    ) -> (r: Result<(), NetError>)
        requires
            old(self).inv(),
            old(self).gen_id <= u64::MAX - 4,
        ensures
            final(self).inv(),
            (r is Ok) == (!has_name(old(self)@.nodes, name@) && has_node(
                old(self)@.nodes,
                node1.id,
            ) && has_node(old(self)@.nodes, node2.id) && has_node(old(self)@.nodes, node3.id)),
            r is Ok ==> final(self).gen_id == old(self).gen_id + 4 && motif_post(
                old(self)@,
                old(self).gen_id,
                final(self)@,
                name@,
                (node1.id, (Sign::Neutral, Sign::Positive)),
                (node2.id, (Sign::Neutral, Sign::Positive)),
                node3.id,
                (Sign::Neutral, Sign::Negative),
                LinkType::NegativeInteraction,
            ),
            r is Err ==> *final(self) == *old(self),
    {
        self.build_motif(
            name,
            (node1.id, (Sign::Neutral, Sign::Positive)),
            (node2.id, (Sign::Neutral, Sign::Positive)),
            node3.id,
            (Sign::Neutral, Sign::Negative),
            LinkType::NegativeInteraction,
        )
    }

    /// Wires a differentiation motif: `src` enters the fresh interaction
    /// node with source-negative polarity, `influence` with the
    /// caller-supplied destination polarity, and the interaction's output
    /// edge to `dest` is destination-positive.
    pub fn create_differentiation_with_influence(
        &mut self,
        name: String,
        src: &Node,
        influence: &Node,
        dest: &Node,
        sign: Sign,
    ) -> (r: Result<(), NetError>)
        requires
            old(self).inv(),
            old(self).gen_id <= u64::MAX - 4,
        ensures
            final(self).inv(),
            (r is Ok) == (!has_name(old(self)@.nodes, name@) && has_node(old(self)@.nodes, src.id)
                && has_node(old(self)@.nodes, influence.id) && has_node(
                old(self)@.nodes,
                dest.id,
            )),
            r is Ok ==> final(self).gen_id == old(self).gen_id + 4 && motif_post(
                old(self)@,
                old(self).gen_id,
                final(self)@,
                name@,
                (src.id, (Sign::Negative, Sign::Neutral)),
                (influence.id, (Sign::Neutral, sign)),
                dest.id,
                (Sign::Neutral, Sign::Positive),
                LinkType::Differentiation,
            ),
            r is Err ==> *final(self) == *old(self),
    {
        self.build_motif(
            name,
            (src.id, (Sign::Negative, Sign::Neutral)),
            (influence.id, (Sign::Neutral, sign)),
            dest.id,
            (Sign::Neutral, Sign::Positive),
            LinkType::Differentiation,
        )
    }
}

/// Replaces the parameter carrying this name, or appends a new one.
pub open spec fn insert_param(ps: Seq<ParameterV>, name: Seq<char>, value: u64) -> Seq<ParameterV> {
    if has_param(ps, name) {
        ps.update(param_index(ps, name), ParameterV { name, value })
    } else {
        ps.push(ParameterV { name, value })
    }
}

/// The parameter store after inserting a whole list in order, later entries
/// replacing earlier ones of the same name.
pub open spec fn build_params(acc: Seq<ParameterV>, l: Seq<(Seq<char>, u64)>) -> Seq<ParameterV>
    decreases l.len(),
{
    if l.len() == 0 {
        acc
    } else {
        build_params(insert_param(acc, l[0].0, l[0].1), l.drop_first())
    }
}

impl BioNet {
    /// Inserts one named scalar constant, replacing a previous one of the
    /// same name.
    pub fn add_parameter(&mut self, name: String, value: u64)
        requires
            old(self).inv(),
        ensures
            final(self).inv(),
            final(self).gen_id == old(self).gen_id,
            final(self)@ == (NetV {
                parameters: insert_param(old(self)@.parameters, name@, value),
                ..old(self)@
            }),
    {
        let ghost pre = *self;
        let mut i: usize = 0;
        while i < self.parameters.len()
            invariant
                i <= self.parameters.len(),
                *self == pre,
                pre == *old(self),
                pre.inv(),
                self@.parameters.len() == self.parameters@.len(),
                forall|k: int| 0 <= k < i ==> (#[trigger] self@.parameters[k].name) != name@,
            decreases self.parameters.len() - i,
        {
            if str_eq(self.parameters[i].name.as_str(), name.as_str()) {
                proof {
                    assert(self@.parameters[i as int].name == name@);
                    assert(has_param(pre@.parameters, name@));
                    let j = param_index(pre@.parameters, name@);
                    if j < i {
                        assert(pre@.parameters[j].name != name@);
                    } else if i < j {
                        assert(param_names_unique(pre@.parameters));
                        assert(pre@.parameters[i as int].name != pre@.parameters[j].name);
                    }
                    assert(j == i as int);
                }
                self.parameters[i] = Parameter::new(name, value);
                proof {
                    assert(self@.parameters =~= pre@.parameters.update(
                        i as int,
                        ParameterV { name: pre@.parameters[i as int].name, value },
                    ));
                    assert(self@ =~= (NetV {
                        parameters: insert_param(pre@.parameters, self.parameters[i as int].name@, value),
                        ..pre@
                    }));
                    assert(param_names_unique(self@.parameters)) by {
                        assert forall|a: int, b: int| 0 <= a < b < self@.parameters.len() implies
                            self@.parameters[a].name != self@.parameters[b].name by {
                            assert(pre@.parameters[a].name != pre@.parameters[b].name);
                        }
                    }
                }
                return ;
            }
            i = i + 1;
        }
        proof {
            assert(!has_param(pre@.parameters, name@));
        }
        let ghost nv = name@;
        self.parameters.push(Parameter::new(name, value));
        proof {
            assert(self@.parameters =~= pre@.parameters.push(ParameterV { name: nv, value }));
            assert(self@ =~= (NetV {
                parameters: insert_param(pre@.parameters, nv, value),
                ..pre@
            }));
            assert(param_names_unique(self@.parameters)) by {
                assert forall|a: int, b: int| 0 <= a < b < self@.parameters.len() implies self@
                    .parameters[a].name != self@.parameters[b].name by {
                    if b < pre@.parameters.len() {
                        assert(pre@.parameters[a].name != pre@.parameters[b].name);
                    } else {
                        assert(self@.parameters[b].name == nv);
                        assert(self@.parameters[a] == pre@.parameters[a]);
                    }
                }
            }
        }
    }

    /// Replaces the whole parameter store with the given list, inserted in
    /// order; a later entry replaces an earlier one of the same name.
    pub fn create_parameters(&mut self, params: Vec<(String, u64)>)
        requires
            old(self).inv(),
        ensures
            final(self).inv(),
            final(self).gen_id == old(self).gen_id,
            final(self)@ == (NetV {
                parameters: build_params(
                    Seq::empty(),
                    params@.map_values(|p: (String, u64)| (p.0@, p.1)),
                ),
                ..old(self)@
            }),
    {
        let ghost pre = *self;
        let ghost l = params@.map_values(|p: (String, u64)| (p.0@, p.1));
        self.parameters = Vec::new();
        proof {
            assert(self@.parameters =~= Seq::<ParameterV>::empty());
            assert(l.skip(0) =~= l);
        }
        let mut i: usize = 0;
        while i < params.len()
            invariant
                i <= params.len(),
                self.inv(),
                self.gen_id == pre.gen_id,
                self@.name == pre@.name,
                self@.nodes == pre@.nodes,
                self@.edges == pre@.edges,
                l == params@.map_values(|p: (String, u64)| (p.0@, p.1)),
                l.len() == params@.len(),
                build_params(self@.parameters, l.skip(i as int)) == build_params(Seq::empty(), l),
            decreases params.len() - i,
        {
            let ghost before = self@.parameters;
            let name = params[i].0.clone();
            let value = params[i].1;
            proof {
                assert(l[i as int] == (params@[i as int].0@, params@[i as int].1));
                assert(name@ == l[i as int].0);
            }
            self.add_parameter(name, value);
            proof {
                assert(self@.parameters == insert_param(before, l[i as int].0, value));
                assert(l.skip(i as int)[0] == l[i as int]);
                assert(l.skip(i as int).drop_first() =~= l.skip(i as int + 1));
                assert(build_params(before, l.skip(i as int)) == build_params(
                    insert_param(before, l[i as int].0, l[i as int].1),
                    l.skip(i as int + 1),
                ));
            }
            i = i + 1;
        }
        proof {
            assert(l.skip(params@.len() as int) =~= Seq::<(Seq<char>, u64)>::empty());
            assert(build_params(self@.parameters, Seq::empty()) == self@.parameters);
            assert(self@ =~= (NetV {
                parameters: build_params(Seq::empty(), l),
                ..pre@
            }));
        }
    }

    /// Id of the node carrying this name, if any.
    pub fn get_node_id(&self, name: &str) -> (r: Option<u64>)
        ensures
            (r is Some) == has_name(self@.nodes, name@),
            r matches Some(id) ==> exists|i: int|
                0 <= i < self@.nodes.len() && (#[trigger] self@.nodes[i].id) == id
                    && self@.nodes[i].name == name@,
    {
        let mut i: usize = 0;
        while i < self.nodes.len()
            invariant
                i <= self.nodes.len(),
                self@.nodes.len() == self.nodes@.len(),
                forall|k: int| 0 <= k < i ==> (#[trigger] self@.nodes[k].name) != name@,
            decreases self.nodes.len() - i,
        {
            if str_eq(self.nodes[i].name.as_str(), name) {
                let id = self.nodes[i].id;
                proof {
                    assert(self@.nodes[i as int].name == name@);
                    assert(self@.nodes[i as int].id == id);
                }
                return Some(id);
            }
            i = i + 1;
        }
        None
    }

    /// Name of the node carrying this id; the empty string when there is
    /// none.
    pub fn get_node_name(&self, id: u64) -> (r: String)
        requires
            self.inv(),
        ensures
            has_node(self@.nodes, id) ==> r@ == node_of(self@.nodes, id).name,
            !has_node(self@.nodes, id) ==> r@ == Seq::<char>::empty(),
    {
        let mut i: usize = 0;
        while i < self.nodes.len()
            invariant
                i <= self.nodes.len(),
                self.inv(),
                self@.nodes.len() == self.nodes@.len(),
                forall|k: int| 0 <= k < i ==> (#[trigger] self@.nodes[k].id) != id,
            decreases self.nodes.len() - i,
        {
            if self.nodes[i].id == id {
                proof {
                    lemma_node_at(self@.nodes, i as int);
                }
                return self.nodes[i].name.clone();
            }
            i = i + 1;
        }
        String::new()
    }
}

/// Every edge's id appears in its source node's output links and in its
/// destination node's input links; in no other node's lists; and at most
/// once in any one list. So each edge id sits in exactly one node's output
/// links and exactly one node's input links, matching its endpoints.
pub proof fn lemma_edge_links_unique(net: BioNet, k: int)
    requires
        net.inv(),
        0 <= k < net@.edges.len(),
    ensures
        ({
            let e = net@.edges[k];
            &&& has_node(net@.nodes, e.src)
            &&& node_of(net@.nodes, e.src).output_links.contains(e.id)
            &&& has_node(net@.nodes, e.dest)
            &&& node_of(net@.nodes, e.dest).input_links.contains(e.id)
            &&& (forall|i: int|
                0 <= i < net@.nodes.len() && (#[trigger] net@.nodes[i].output_links.contains(e.id))
                    ==> net@.nodes[i].id == e.src)
            &&& (forall|i: int|
                0 <= i < net@.nodes.len() && (#[trigger] net@.nodes[i].input_links.contains(e.id))
                    ==> net@.nodes[i].id == e.dest)
            &&& (forall|i1: int, i2: int|
                0 <= i1 < net@.nodes.len() && 0 <= i2 < net@.nodes.len()
                    && net@.nodes[i1].output_links.contains(e.id)
                    && net@.nodes[i2].output_links.contains(e.id) ==> i1 == i2)
            &&& (forall|i1: int, i2: int|
                0 <= i1 < net@.nodes.len() && 0 <= i2 < net@.nodes.len()
                    && net@.nodes[i1].input_links.contains(e.id)
                    && net@.nodes[i2].input_links.contains(e.id) ==> i1 == i2)
            &&& (forall|i: int, j1: int, j2: int|
                0 <= i < net@.nodes.len() && 0 <= j1 < net@.nodes[i].output_links.len() && 0 <= j2
                    < net@.nodes[i].output_links.len() && net@.nodes[i].output_links[j1] == e.id
                    && net@.nodes[i].output_links[j2] == e.id ==> j1 == j2)
            &&& (forall|i: int, j1: int, j2: int|
                0 <= i < net@.nodes.len() && 0 <= j1 < net@.nodes[i].input_links.len() && 0 <= j2
                    < net@.nodes[i].input_links.len() && net@.nodes[i].input_links[j1] == e.id
                    && net@.nodes[i].input_links[j2] == e.id ==> j1 == j2)
        }),
{
    let e = net@.edges[k];
    let nodes = net@.nodes;
    lemma_edge_at(net@.edges, k);
    assert forall|i: int|
        0 <= i < nodes.len() && (#[trigger] nodes[i].output_links.contains(e.id)) implies nodes[i].id
        == e.src by {
        let j = choose|j: int| 0 <= j < nodes[i].output_links.len() && nodes[i].output_links[j]
            == e.id;
        assert(edge_of(net@.edges, nodes[i].output_links[j]).src == nodes[i].id);
    }
    assert forall|i: int|
        0 <= i < nodes.len() && (#[trigger] nodes[i].input_links.contains(e.id)) implies nodes[i].id
        == e.dest by {
        let j = choose|j: int| 0 <= j < nodes[i].input_links.len() && nodes[i].input_links[j]
            == e.id;
        assert(edge_of(net@.edges, nodes[i].input_links[j]).dest == nodes[i].id);
    }
    assert forall|i1: int, i2: int|
        0 <= i1 < nodes.len() && 0 <= i2 < nodes.len() && nodes[i1].output_links.contains(e.id)
            && nodes[i2].output_links.contains(e.id) implies i1 == i2 by {
        assert(nodes[i1].id == e.src && nodes[i2].id == e.src);
        if i1 < i2 {
            assert(nodes[i1].id < nodes[i2].id);
        } else if i2 < i1 {
            assert(nodes[i2].id < nodes[i1].id);
        }
    }
    assert forall|i1: int, i2: int|
        0 <= i1 < nodes.len() && 0 <= i2 < nodes.len() && nodes[i1].input_links.contains(e.id)
            && nodes[i2].input_links.contains(e.id) implies i1 == i2 by {
        assert(nodes[i1].id == e.dest && nodes[i2].id == e.dest);
        if i1 < i2 {
            assert(nodes[i1].id < nodes[i2].id);
        } else if i2 < i1 {
            assert(nodes[i2].id < nodes[i1].id);
        }
    }
    assert forall|i: int, j1: int, j2: int|
        0 <= i < nodes.len() && 0 <= j1 < nodes[i].output_links.len() && 0 <= j2
            < nodes[i].output_links.len() && nodes[i].output_links[j1] == e.id
            && nodes[i].output_links[j2] == e.id implies j1 == j2 by {
        if j1 < j2 {
            assert(nodes[i].output_links[j1] != nodes[i].output_links[j2]);
        } else if j2 < j1 {
            assert(nodes[i].output_links[j2] != nodes[i].output_links[j1]);
        }
    }
    assert forall|i: int, j1: int, j2: int|
        0 <= i < nodes.len() && 0 <= j1 < nodes[i].input_links.len() && 0 <= j2
            < nodes[i].input_links.len() && nodes[i].input_links[j1] == e.id
            && nodes[i].input_links[j2] == e.id implies j1 == j2 by {
        if j1 < j2 {
            assert(nodes[i].input_links[j1] != nodes[i].input_links[j2]);
        } else if j2 < j1 {
            assert(nodes[i].input_links[j2] != nodes[i].input_links[j1]);
        }
    }
}

/// Character-by-character string comparison.
pub fn str_eq(a: &str, b: &str) -> (r: bool)
    ensures
        r == (a@ == b@),
{
    let na = a.unicode_len();
    let nb = b.unicode_len();
    if na != nb {
        proof {
            assert(a@ != b@);
        }
        return false;
    }
    let mut i: usize = 0;
    while i < na
        invariant
            i <= na,
            na == a@.len(),
            na == b@.len(),
            forall|k: int| 0 <= k < i ==> a@[k] == b@[k],
        decreases na - i,
    {
        if a.get_char(i) != b.get_char(i) {
            return false;
        }
        i = i + 1;
    }
    proof {
        assert(a@ =~= b@);
    }
    true
}

} // verus!
