//! Read-only queries over the registries: sign-filtered and degree-filtered
//! membership questions about entity nodes. No query mutates the network,
//! and every result lists node ids in ascending order.
use vstd::prelude::*;

use crate::model::{NodeType, NodeV, Sign};
use crate::net::{
    edge_of, has_edge, has_node, lemma_edge_at, lemma_node_at, node_index, node_of, BioNet, NetV,
};

verus! {

/// The node with this id exists and is an entity, not an interaction hub.
pub open spec fn is_entity(nodes: Seq<NodeV>, id: u64) -> bool {
    has_node(nodes, id) && node_of(nodes, id).node_type == NodeType::Default
}

/// The node with this id has an input edge whose destination-side polarity
/// is `sign`.
pub open spec fn has_signed_input(v: NetV, id: u64, sign: Sign) -> bool {
    has_node(v.nodes, id) && exists|j: int|
        0 <= j < node_of(v.nodes, id).input_links.len() && has_edge(
            v.edges,
            #[trigger] node_of(v.nodes, id).input_links[j],
        ) && edge_of(v.edges, node_of(v.nodes, id).input_links[j]).signs.1 == sign
}

/// Ids strictly ascend.
pub open spec fn ids_ascending(s: Seq<u64>) -> bool {
    forall|i: int, j: int| 0 <= i < j < s.len() ==> s[i] < s[j]
}

impl BioNet {
    /// Whether the node at position `i` has an input edge with
    /// destination-side polarity `sign`.
    fn node_has_signed_input(&self, i: usize, sign: Sign) -> (r: bool)
        requires
            self.inv(),
            i < self@.nodes.len(),
        ensures
            r == has_signed_input(self@, self@.nodes[i as int].id, sign),
    {
        proof {
            lemma_node_at(self@.nodes, i as int);
        }
        let ghost nv = self@.nodes[i as int];
        let mut j: usize = 0;
        while j < self.nodes[i].input_links.len()
            invariant
                self.inv(),
                i < self@.nodes.len(),
                self@.nodes.len() == self.nodes@.len(),
                nv == self@.nodes[i as int],
                node_of(self@.nodes, nv.id) == nv,
                j <= nv.input_links.len(),
                self.nodes@[i as int]@ == nv,
                forall|k: int|
                    0 <= k < j ==> !(has_edge(self@.edges, #[trigger] nv.input_links[k]) && edge_of(
                        self@.edges,
                        nv.input_links[k],
                    ).signs.1 == sign),
            decreases nv.input_links.len() - j,
        {
            let eid = self.nodes[i].input_links[j];
            proof {
                assert(eid == nv.input_links[j as int]);
            }
            match self.find_edge_index(eid) {
                Some(ei) => {
                    proof {
                        lemma_edge_at(self@.edges, ei as int);
                    }
                    if self.edges[ei].signs.1 == sign {
                        proof {
                            assert(self@.edges[ei as int].signs.1 == sign);
                            assert(edge_of(self@.edges, eid).signs.1 == sign);
                        }
                        return true;
                    }
                },
                None => {
                    proof {
                        assert(has_edge(self@.edges, nv.input_links[j as int]));
                        assert(false);
                    }
                },
            }
            j = j + 1;
        }
        proof {
            assert(!has_signed_input(self@, nv.id, sign));
        }
        false
    }

    /// Ids of the entity nodes with at least one input edge of
    /// destination-side polarity `sign`, each listed once, ascending.
    fn get_nodes_with_input_link(&self, sign: Sign) -> (r: Vec<u64>)
        requires
            self.inv(),
        ensures
            ids_ascending(r@),
            forall|id: u64| #[trigger]
                r@.contains(id) <==> is_entity(self@.nodes, id) && has_signed_input(
                    self@,
                    id,
                    sign,
                ),
    {
        let mut r: Vec<u64> = Vec::new();
        let mut i: usize = 0;
        while i < self.nodes.len()
            invariant
                self.inv(),
                i <= self@.nodes.len(),
                self@.nodes.len() == self.nodes@.len(),
                ids_ascending(r@),
                forall|k: int|
                    0 <= k < r@.len() ==> exists|m: int|
                        0 <= m < i && (#[trigger] r@[k]) == self@.nodes[m].id,
                forall|id: u64| #[trigger]
                    r@.contains(id) <==> exists|m: int|
                        0 <= m < i && (#[trigger] self@.nodes[m].id) == id && self@.nodes[m].node_type
                            == NodeType::Default && has_signed_input(self@, id, sign),
            decreases self.nodes@.len() - i,
        {
            if self.nodes[i].node_type == NodeType::Default && self.node_has_signed_input(i, sign) {
                let nid = self.nodes[i].id;
                proof {
                    assert(self@.nodes[i as int].id == nid);
                    assert(self@.nodes[i as int].node_type == NodeType::Default);
                    assert forall|k: int| 0 <= k < r@.len() implies r@[k] < nid by {
                        let m = choose|m: int| 0 <= m < i && r@[k] == self@.nodes[m].id;
                        assert(self@.nodes[m].id < self@.nodes[i as int].id);
                    }
                }
                let ghost prev = r@;
                r.push(nid);
                proof {
                    assert forall|id: u64| #[trigger] r@.contains(id) implies (prev.contains(id)
                        || id == nid) by {
                        let k = choose|k: int| 0 <= k < r@.len() && r@[k] == id;
                        if k < prev.len() {
                            assert(prev[k] == id);
                        }
                    }
                    assert(r@[r@.len() - 1] == nid);
                    assert forall|id: u64| prev.contains(id) implies #[trigger] r@.contains(
                        id,
                    ) by {
                        let k = choose|k: int| 0 <= k < prev.len() && prev[k] == id;
                        assert(r@[k] == id);
                    }
                }
            }
            i = i + 1;
        }
        proof {
            assert forall|id: u64| #[trigger] r@.contains(id) implies is_entity(self@.nodes, id)
                && has_signed_input(self@, id, sign) by {
                let m = choose|m: int|
                    0 <= m < self@.nodes.len() && self@.nodes[m].id == id && self@.nodes[m].node_type
                        == NodeType::Default && has_signed_input(self@, id, sign);
                lemma_node_at(self@.nodes, m);
            }
            assert forall|id: u64| is_entity(self@.nodes, id) && has_signed_input(self@, id, sign)
                implies #[trigger] r@.contains(id) by {
                let m = node_index(self@.nodes, id);
                assert(0 <= m < self@.nodes.len() && self@.nodes[m].id == id
                    && self@.nodes[m].node_type == NodeType::Default);
            }
        }
        r
    }

    /// Ids of the entity nodes with no input edge of destination-side
    /// polarity `sign`, each listed once, ascending.
    fn get_nodes_without_input_link(&self, sign: Sign) -> (r: Vec<u64>)
        requires
            self.inv(),
        ensures
            ids_ascending(r@),
            forall|id: u64| #[trigger]
                r@.contains(id) <==> is_entity(self@.nodes, id) && !has_signed_input(
                    self@,
                    id,
                    sign,
                ),
    {
        let mut r: Vec<u64> = Vec::new();
        let mut i: usize = 0;
        while i < self.nodes.len()
            invariant
                self.inv(),
                i <= self@.nodes.len(),
                self@.nodes.len() == self.nodes@.len(),
                ids_ascending(r@),
                forall|k: int|
                    0 <= k < r@.len() ==> exists|m: int|
                        0 <= m < i && (#[trigger] r@[k]) == self@.nodes[m].id,
                forall|id: u64| #[trigger]
                    r@.contains(id) <==> exists|m: int|
                        0 <= m < i && (#[trigger] self@.nodes[m].id) == id && self@.nodes[m].node_type
                            == NodeType::Default && !has_signed_input(self@, id, sign),
            decreases self.nodes@.len() - i,
        {
            if self.nodes[i].node_type == NodeType::Default && !self.node_has_signed_input(
                i,
                sign,
            ) {
                let nid = self.nodes[i].id;
                proof {
                    assert(self@.nodes[i as int].id == nid);
                    assert(self@.nodes[i as int].node_type == NodeType::Default);
                    assert forall|k: int| 0 <= k < r@.len() implies r@[k] < nid by {
                        let m = choose|m: int| 0 <= m < i && r@[k] == self@.nodes[m].id;
                        assert(self@.nodes[m].id < self@.nodes[i as int].id);
                    }
                }
                let ghost prev = r@;
                r.push(nid);
                proof {
                    assert forall|id: u64| #[trigger] r@.contains(id) implies (prev.contains(id)
                        || id == nid) by {
                        let k = choose|k: int| 0 <= k < r@.len() && r@[k] == id;
                        if k < prev.len() {
                            assert(prev[k] == id);
                        }
                    }
                    assert(r@[r@.len() - 1] == nid);
                    assert forall|id: u64| prev.contains(id) implies #[trigger] r@.contains(
                        id,
                    ) by {
                        let k = choose|k: int| 0 <= k < prev.len() && prev[k] == id;
                        assert(r@[k] == id);
                    }
                }
            }
            i = i + 1;
        }
        proof {
            assert forall|id: u64| #[trigger] r@.contains(id) implies is_entity(self@.nodes, id)
                && !has_signed_input(self@, id, sign) by {
                let m = choose|m: int|
                    0 <= m < self@.nodes.len() && self@.nodes[m].id == id && self@.nodes[m].node_type
                        == NodeType::Default && !has_signed_input(self@, id, sign);
                lemma_node_at(self@.nodes, m);
            }
            assert forall|id: u64| is_entity(self@.nodes, id) && !has_signed_input(
                self@,
                id,
                sign,
            ) implies #[trigger] r@.contains(id) by {
                let m = node_index(self@.nodes, id);
                assert(0 <= m < self@.nodes.len() && self@.nodes[m].id == id
                    && self@.nodes[m].node_type == NodeType::Default);
            }
        }
        r
    }

    /// Entity nodes with a destination-positive input edge.
    pub fn get_nodes_with_positive_input_link(&self) -> (r: Vec<u64>)
        requires
            self.inv(),
        ensures
            ids_ascending(r@),
            forall|id: u64| #[trigger]
                r@.contains(id) <==> is_entity(self@.nodes, id) && has_signed_input(
                    self@,
                    id,
                    Sign::Positive,
                ),
    {
        self.get_nodes_with_input_link(Sign::Positive)
    }

    /// Entity nodes with a destination-negative input edge.
    pub fn get_nodes_with_negative_input_link(&self) -> (r: Vec<u64>)
        requires
            self.inv(),
        ensures
            ids_ascending(r@),
            forall|id: u64| #[trigger]
                r@.contains(id) <==> is_entity(self@.nodes, id) && has_signed_input(
                    self@,
                    id,
                    Sign::Negative,
                ),
    {
        self.get_nodes_with_input_link(Sign::Negative)
    }

    /// Entity nodes with no destination-positive input edge.
    pub fn get_nodes_without_positive_input_link(&self) -> (r: Vec<u64>)
        requires
            self.inv(),
        ensures
            ids_ascending(r@),
            forall|id: u64| #[trigger]
                r@.contains(id) <==> is_entity(self@.nodes, id) && !has_signed_input(
                    self@,
                    id,
                    Sign::Positive,
                ),
    {
        self.get_nodes_without_input_link(Sign::Positive)
    }

    /// Entity nodes with no destination-negative input edge.
    pub fn get_nodes_without_negative_input_link(&self) -> (r: Vec<u64>)
        requires
            self.inv(),
        ensures
            ids_ascending(r@),
            forall|id: u64| #[trigger]
                r@.contains(id) <==> is_entity(self@.nodes, id) && !has_signed_input(
                    self@,
                    id,
                    Sign::Negative,
                ),
    {
        self.get_nodes_without_input_link(Sign::Negative)
    }

    /// Entity nodes whose output link list is empty.
    pub fn get_nodes_without_output_links(&self) -> (r: Vec<u64>)
        requires
            self.inv(),
        ensures
            ids_ascending(r@),
            forall|id: u64| #[trigger]
                r@.contains(id) <==> is_entity(self@.nodes, id) && node_of(
                    self@.nodes,
                    id,
                ).output_links.len() == 0,
    {
        let mut r: Vec<u64> = Vec::new();
        let mut i: usize = 0;
        while i < self.nodes.len()
            invariant
                self.inv(),
                i <= self@.nodes.len(),
                self@.nodes.len() == self.nodes@.len(),
                ids_ascending(r@),
                forall|k: int|
                    0 <= k < r@.len() ==> exists|m: int|
                        0 <= m < i && (#[trigger] r@[k]) == self@.nodes[m].id,
                forall|id: u64| #[trigger]
                    r@.contains(id) <==> exists|m: int|
                        0 <= m < i && (#[trigger] self@.nodes[m].id) == id && self@.nodes[m].node_type
                            == NodeType::Default && self@.nodes[m].output_links.len() == 0,
            decreases self.nodes@.len() - i,
        {
            if self.nodes[i].node_type == NodeType::Default && self.nodes[i].output_links.len()
                == 0 {
                let nid = self.nodes[i].id;
                proof {
                    assert(self@.nodes[i as int].id == nid);
                    assert(self@.nodes[i as int].output_links.len() == 0);
                    assert forall|k: int| 0 <= k < r@.len() implies r@[k] < nid by {
                        let m = choose|m: int| 0 <= m < i && r@[k] == self@.nodes[m].id;
                        assert(self@.nodes[m].id < self@.nodes[i as int].id);
                    }
                }
                let ghost prev = r@;
                r.push(nid);
                proof {
                    assert forall|id: u64| #[trigger] r@.contains(id) implies (prev.contains(id)
                        || id == nid) by {
                        let k = choose|k: int| 0 <= k < r@.len() && r@[k] == id;
                        if k < prev.len() {
                            assert(prev[k] == id);
                        }
                    }
                    assert(r@[r@.len() - 1] == nid);
                    assert forall|id: u64| prev.contains(id) implies #[trigger] r@.contains(
                        id,
                    ) by {
                        let k = choose|k: int| 0 <= k < prev.len() && prev[k] == id;
                        assert(r@[k] == id);
                    }
                }
            }
            i = i + 1;
        }
        proof {
            assert forall|id: u64| #[trigger] r@.contains(id) implies is_entity(self@.nodes, id)
                && node_of(self@.nodes, id).output_links.len() == 0 by {
                let m = choose|m: int|
                    0 <= m < self@.nodes.len() && self@.nodes[m].id == id && self@.nodes[m].node_type
                        == NodeType::Default && self@.nodes[m].output_links.len() == 0;
                lemma_node_at(self@.nodes, m);
            }
            assert forall|id: u64| is_entity(self@.nodes, id) && node_of(
                self@.nodes,
                id,
            ).output_links.len() == 0 implies #[trigger] r@.contains(id) by {
                let m = node_index(self@.nodes, id);
                assert(0 <= m < self@.nodes.len() && self@.nodes[m].id == id
                    && self@.nodes[m].node_type == NodeType::Default
                    && self@.nodes[m].output_links.len() == 0);
            }
        }
        r
    }
}

/// Degree of a node: its input link count or its output link count.
pub open spec fn degree(n: NodeV, inputs: bool) -> nat {
    if inputs {
        n.input_links.len()
    } else {
        n.output_links.len()
    }
}

impl BioNet {
    /// Entity nodes whose degree equals the minimum degree over all entity
    /// nodes, ties included; empty when there is no entity node.
    fn get_nodes_with_least_degree(&self, inputs: bool) -> (r: Vec<u64>)
        requires
            self.inv(),
        ensures
            ids_ascending(r@),
            forall|id: u64| #[trigger]
                r@.contains(id) <==> (is_entity(self@.nodes, id) && forall|m: int|
                    0 <= m < self@.nodes.len() && (#[trigger] self@.nodes[m].node_type)
                        == NodeType::Default ==> degree(node_of(self@.nodes, id), inputs) <= degree(
                        self@.nodes[m],
                        inputs,
                    )),
    {
        let mut found = false;
        let mut min: usize = 0;
        let mut i: usize = 0;
        while i < self.nodes.len()
            invariant
                self.inv(),
                i <= self@.nodes.len(),
                self@.nodes.len() == self.nodes@.len(),
                found <==> exists|m: int|
                    0 <= m < i && (#[trigger] self@.nodes[m].node_type) == NodeType::Default,
                found ==> exists|m: int|
                    0 <= m < i && (#[trigger] self@.nodes[m].node_type) == NodeType::Default
                        && degree(self@.nodes[m], inputs) == min,
                found ==> forall|m: int|
                    0 <= m < i && (#[trigger] self@.nodes[m].node_type) == NodeType::Default ==> min
                        <= degree(self@.nodes[m], inputs),
            decreases self.nodes@.len() - i,
        {
            if self.nodes[i].node_type == NodeType::Default {
                let d = if inputs {
                    self.nodes[i].input_links.len()
                } else {
                    self.nodes[i].output_links.len()
                };
                proof {
                    assert(d == degree(self@.nodes[i as int], inputs));
                }
                if !found || d < min {
                    min = d;
                    found = true;
                    proof {
                        assert(self@.nodes[i as int].node_type == NodeType::Default && degree(
                            self@.nodes[i as int],
                            inputs,
                        ) == min);
                    }
                } else {
                    proof {
                        let m = choose|m: int|
                            0 <= m < i && (#[trigger] self@.nodes[m].node_type)
                                == NodeType::Default && degree(self@.nodes[m], inputs) == min;
                        assert(0 <= m < i + 1 && self@.nodes[m].node_type == NodeType::Default
                            && degree(self@.nodes[m], inputs) == min);
                    }
                }
            } else {
                proof {
                    if found {
                        let m = choose|m: int|
                            0 <= m < i && (#[trigger] self@.nodes[m].node_type)
                                == NodeType::Default && degree(self@.nodes[m], inputs) == min;
                        assert(0 <= m < i + 1 && self@.nodes[m].node_type == NodeType::Default
                            && degree(self@.nodes[m], inputs) == min);
                    }
                }
            }
            i = i + 1;
        }
        let mut r: Vec<u64> = Vec::new();
        if !found {
            proof {
                assert forall|id: u64| !(is_entity(self@.nodes, id)) by {
                    if has_node(self@.nodes, id) {
                        let m = node_index(self@.nodes, id);
                        assert(0 <= m < self@.nodes.len());
                        assert(self@.nodes[m].node_type != NodeType::Default);
                    }
                }
            }
            return r;
        }
        let mut i: usize = 0;
        while i < self.nodes.len()
            invariant
                self.inv(),
                i <= self@.nodes.len(),
                self@.nodes.len() == self.nodes@.len(),
                ids_ascending(r@),
                forall|k: int|
                    0 <= k < r@.len() ==> exists|m: int|
                        0 <= m < i && (#[trigger] r@[k]) == self@.nodes[m].id,
                forall|id: u64| #[trigger]
                    r@.contains(id) <==> exists|m: int|
                        0 <= m < i && (#[trigger] self@.nodes[m].id) == id && self@.nodes[m].node_type
                            == NodeType::Default && degree(self@.nodes[m], inputs) == min,
            decreases self.nodes@.len() - i,
        {
            let d = if inputs {
                self.nodes[i].input_links.len()
            } else {
                self.nodes[i].output_links.len()
            };
            proof {
                assert(d == degree(self@.nodes[i as int], inputs));
            }
            if self.nodes[i].node_type == NodeType::Default && d == min {
                let nid = self.nodes[i].id;
                proof {
                    assert(self@.nodes[i as int].id == nid);
                    assert forall|k: int| 0 <= k < r@.len() implies r@[k] < nid by {
                        let m = choose|m: int| 0 <= m < i && r@[k] == self@.nodes[m].id;
                        assert(self@.nodes[m].id < self@.nodes[i as int].id);
                    }
                }
                let ghost prev = r@;
                r.push(nid);
                proof {
                    assert forall|id: u64| #[trigger] r@.contains(id) implies (prev.contains(id)
                        || id == nid) by {
                        let k = choose|k: int| 0 <= k < r@.len() && r@[k] == id;
                        if k < prev.len() {
                            assert(prev[k] == id);
                        }
                    }
                    assert(r@[r@.len() - 1] == nid);
                    assert forall|id: u64| prev.contains(id) implies #[trigger] r@.contains(
                        id,
                    ) by {
                        let k = choose|k: int| 0 <= k < prev.len() && prev[k] == id;
                        assert(r@[k] == id);
                    }
                }
            }
            i = i + 1;
        }
        proof {
            assert forall|id: u64| #[trigger] r@.contains(id) implies (is_entity(self@.nodes, id)
                && forall|m: int|
                0 <= m < self@.nodes.len() && (#[trigger] self@.nodes[m].node_type)
                    == NodeType::Default ==> degree(node_of(self@.nodes, id), inputs) <= degree(
                    self@.nodes[m],
                    inputs,
                )) by {
                let m0 = choose|m: int|
                    0 <= m < self@.nodes.len() && self@.nodes[m].id == id && self@.nodes[m].node_type
                        == NodeType::Default && degree(self@.nodes[m], inputs) == min;
                lemma_node_at(self@.nodes, m0);
                assert(degree(node_of(self@.nodes, id), inputs) == min);
            }
            assert forall|id: u64|
                is_entity(self@.nodes, id) && (forall|m: int|
                    0 <= m < self@.nodes.len() && (#[trigger] self@.nodes[m].node_type)
                        == NodeType::Default ==> degree(node_of(self@.nodes, id), inputs) <= degree(
                        self@.nodes[m],
                        inputs,
                    )) implies #[trigger] r@.contains(id) by {
                let m0 = node_index(self@.nodes, id);
                assert(0 <= m0 < self@.nodes.len() && self@.nodes[m0].id == id
                    && self@.nodes[m0].node_type == NodeType::Default);
                let ma = choose|m: int|
                    0 <= m < self@.nodes.len() && (#[trigger] self@.nodes[m].node_type)
                        == NodeType::Default && degree(self@.nodes[m], inputs) == min;
                assert(degree(node_of(self@.nodes, id), inputs) <= degree(self@.nodes[ma], inputs));
                assert(min <= degree(self@.nodes[m0], inputs));
                assert(degree(self@.nodes[m0], inputs) == min);
            }
        }
        r
    }

    /// Entity nodes whose input link count is minimal among entity nodes,
    /// ties included; empty when there is no entity node.
    pub fn get_nodes_with_least_number_of_inputs(&self) -> (r: Vec<u64>)
        requires
            self.inv(),
        ensures
            ids_ascending(r@),
            forall|id: u64| #[trigger]
                r@.contains(id) <==> (is_entity(self@.nodes, id) && forall|m: int|
                    0 <= m < self@.nodes.len() && (#[trigger] self@.nodes[m].node_type)
                        == NodeType::Default ==> node_of(self@.nodes, id).input_links.len()
                        <= self@.nodes[m].input_links.len()),
    {
        let r = self.get_nodes_with_least_degree(true);
        proof {
            assert forall|id: u64| #[trigger]
                r@.contains(id) <==> (is_entity(self@.nodes, id) && forall|m: int|
                    0 <= m < self@.nodes.len() && (#[trigger] self@.nodes[m].node_type)
                        == NodeType::Default ==> node_of(self@.nodes, id).input_links.len()
                        <= self@.nodes[m].input_links.len()) by {
                assert(degree(node_of(self@.nodes, id), true) == node_of(
                    self@.nodes,
                    id,
                ).input_links.len());
            }
        }
        r
    }

    /// Entity nodes whose output link count is minimal among entity nodes,
    /// ties included; empty when there is no entity node.
    pub fn get_nodes_with_least_number_of_outputs(&self) -> (r: Vec<u64>)
        requires
            self.inv(),
        ensures
            ids_ascending(r@),
            forall|id: u64| #[trigger]
                r@.contains(id) <==> (is_entity(self@.nodes, id) && forall|m: int|
                    0 <= m < self@.nodes.len() && (#[trigger] self@.nodes[m].node_type)
                        == NodeType::Default ==> node_of(self@.nodes, id).output_links.len()
                        <= self@.nodes[m].output_links.len()),
    {
        let r = self.get_nodes_with_least_degree(false);
        proof {
            assert forall|id: u64| #[trigger]
                r@.contains(id) <==> (is_entity(self@.nodes, id) && forall|m: int|
                    0 <= m < self@.nodes.len() && (#[trigger] self@.nodes[m].node_type)
                        == NodeType::Default ==> node_of(self@.nodes, id).output_links.len()
                        <= self@.nodes[m].output_links.len()) by {
                assert(degree(node_of(self@.nodes, id), false) == node_of(
                    self@.nodes,
                    id,
                ).output_links.len());
            }
        }
        r
    }
}

/// The entity nodes that have a `sign`-polarity input edge and those that
/// lack one partition the entity nodes: no id appears in both lists, and
/// every entity node id appears in one of them.
pub proof fn lemma_signed_input_partition(
    net: BioNet,
    sign: Sign,
    withs: Seq<u64>,
    withouts: Seq<u64>,
)
    requires
        forall|id: u64| #[trigger]
            withs.contains(id) <==> is_entity(net@.nodes, id) && has_signed_input(net@, id, sign),
        forall|id: u64| #[trigger]
            withouts.contains(id) <==> is_entity(net@.nodes, id) && !has_signed_input(
                net@,
                id,
                sign,
            ),
    ensures
        forall|id: u64| !(#[trigger] withs.contains(id) && withouts.contains(id)),
        forall|id: u64|
            is_entity(net@.nodes, id) <==> ((#[trigger] withs.contains(id)) || withouts.contains(
                id,
            )),
{
}

} // verus!
