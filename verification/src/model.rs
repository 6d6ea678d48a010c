//! Data model of the signed interaction network: signs, node and link kinds,
//! parameters, reactions, nodes and edges, together with the mathematical
//! views that the contracts speak about.
use vstd::prelude::*;

verus! {

/// Polarity asserted at one end of an edge.
#[derive(Clone, Copy, PartialEq, Eq, Structural, Debug)]
pub enum Sign {
    Negative,
    Neutral,
    Positive,
}

/// Kind of a node: a biological entity, or an interaction hub.
#[derive(Clone, Copy, PartialEq, Eq, Structural, Debug)]
pub enum NodeType {
    Default,
    Interaction,
}

/// Categorical tag describing what an edge stands for.
#[derive(Clone, Copy, PartialEq, Eq, Structural, Debug)]
pub enum LinkType {
    Infection,
    Differentiation,
    Production,
    Consume,
    Replication,
    Migration,
    Killing,
    Phagocytosis,
    Apoptosis,
    Decay,
    PositiveInteraction,
    NegativeInteraction,
    Inhibition,
    Unspecified,
}

/// A named scalar constant attached to the network. The scalar is kept as
/// the raw bit pattern of a binary64 value, so that the verified core never
/// computes with floating point; callers convert with `f64::to_bits` /
/// `f64::from_bits` at the boundary.
#[derive(Debug, PartialEq)]
pub struct Parameter {
    pub name: String,
    pub value: u64,
}

/// Mathematical view of a [`Parameter`].
#[verifier::ext_equal]
pub struct ParameterV {
    pub name: Seq<char>,
    pub value: u64,
}

impl View for Parameter {
    type V = ParameterV;

    open spec fn view(&self) -> ParameterV {
        ParameterV { name: self.name@, value: self.value }
    }
}

impl Parameter {
    pub fn new(name: String, value: u64) -> (r: Self)
        ensures
            r@ == (ParameterV { name: name@, value }),
    {
        Parameter { name, value }
    }

    pub fn duplicate(&self) -> (r: Self)
        ensures
            r@ == self@,
    {
        Parameter { name: self.name.clone(), value: self.value }
    }
}

/// A reaction record: the richer payload an edge can carry. The `rate`
/// scalar, like `Parameter::value`, is the bit pattern of a binary64 value.
#[derive(Debug, PartialEq)]
pub struct Reaction {
    pub expr_text: String,
    pub numeric_expr: String,
    pub inputs: Vec<(String, Sign)>,
    pub outputs: Vec<(String, Sign)>,
    pub rate: u64,
    pub parameters: Vec<String>,
}

/// Mathematical view of a [`Reaction`].
#[verifier::ext_equal]
pub struct ReactionV {
    pub expr_text: Seq<char>,
    pub numeric_expr: Seq<char>,
    pub inputs: Seq<(Seq<char>, Sign)>,
    pub outputs: Seq<(Seq<char>, Sign)>,
    pub rate: u64,
    pub parameters: Seq<Seq<char>>,
}

/// The view of an empty reaction record, as built by [`Reaction::new`].
pub open spec fn empty_reaction() -> ReactionV {
    ReactionV {
        expr_text: Seq::empty(),
        numeric_expr: Seq::empty(),
        inputs: Seq::empty(),
        outputs: Seq::empty(),
        rate: 0,
        parameters: Seq::empty(),
    }
}

impl View for Reaction {
    type V = ReactionV;

    open spec fn view(&self) -> ReactionV {
        ReactionV {
            expr_text: self.expr_text@,
            numeric_expr: self.numeric_expr@,
            inputs: self.inputs@.map_values(|p: (String, Sign)| (p.0@, p.1)),
            outputs: self.outputs@.map_values(|p: (String, Sign)| (p.0@, p.1)),
            rate: self.rate,
            parameters: self.parameters@.map_values(|s: String| s@),
        }
    }
}

impl Reaction {
    pub fn new() -> (r: Self)
        ensures
            r@ == empty_reaction(),
    {
        let r = Reaction {
            expr_text: String::new(),
            numeric_expr: String::new(),
            inputs: Vec::new(),
            outputs: Vec::new(),
            rate: 0,
            parameters: Vec::new(),
        };
        proof {
            assert(r@ =~= empty_reaction());
        }
        r
    }

    pub fn add_input(&mut self, input_node: String, sign: Sign)
        ensures
            final(self)@ == (ReactionV {
                inputs: old(self)@.inputs.push((input_node@, sign)),
                ..old(self)@
            }),
    {
        let ghost pre = *self;
        self.inputs.push((input_node, sign));
        proof {
            assert(self@.inputs =~= pre@.inputs.push((input_node@, sign)));
            assert(self@ =~= (ReactionV { inputs: pre@.inputs.push((input_node@, sign)), ..pre@ }));
        }
    }

    pub fn duplicate(&self) -> (r: Self)
        ensures
            r@ == self@,
    {
        let r = Reaction {
            expr_text: self.expr_text.clone(),
            numeric_expr: self.numeric_expr.clone(),
            inputs: copy_signed_names(&self.inputs),
            outputs: copy_signed_names(&self.outputs),
            rate: self.rate,
            parameters: copy_names(&self.parameters),
        };
        proof {
            assert(r@ =~= self@);
        }
        r
    }

    pub fn add_output(&mut self, output_node: String, sign: Sign)
        ensures
            final(self)@ == (ReactionV {
                outputs: old(self)@.outputs.push((output_node@, sign)),
                ..old(self)@
            }),
    {
        let ghost pre = *self;
        self.outputs.push((output_node, sign));
        proof {
            assert(self@.outputs =~= pre@.outputs.push((output_node@, sign)));
            assert(self@ =~= (ReactionV {
                outputs: pre@.outputs.push((output_node@, sign)),
                ..pre@
            }));
        }
    }
}

/// A node: a biological entity or an interaction hub. `input_links` and
/// `output_links` hold the ids of the incident edges, as non-owning
/// references into the edge registry.
#[derive(Debug, PartialEq)]
pub struct Node {
    pub id: u64,
    pub node_type: NodeType,
    pub active: bool,
    pub name: String,
    pub description: String,
    pub input_links: Vec<u64>,
    pub output_links: Vec<u64>,
}

/// Mathematical view of a [`Node`].
#[verifier::ext_equal]
pub struct NodeV {
    pub id: u64,
    pub node_type: NodeType,
    pub active: bool,
    pub name: Seq<char>,
    pub description: Seq<char>,
    pub input_links: Seq<u64>,
    pub output_links: Seq<u64>,
}

impl View for Node {
    type V = NodeV;

    open spec fn view(&self) -> NodeV {
        NodeV {
            id: self.id,
            node_type: self.node_type,
            active: self.active,
            name: self.name@,
            description: self.description@,
            input_links: self.input_links@,
            output_links: self.output_links@,
        }
    }
}

/// The view of a fresh node, as built by [`Node::new`].
pub open spec fn fresh_node(id: u64, name: Seq<char>) -> NodeV {
    NodeV {
        id,
        node_type: NodeType::Default,
        active: true,
        name,
        description: Seq::empty(),
        input_links: Seq::empty(),
        output_links: Seq::empty(),
    }
}

impl Node {
    pub fn new(id: u64, name: String) -> (r: Self)
        ensures
            r@ == fresh_node(id, name@),
    {
        let r = Node {
            id,
            node_type: NodeType::Default,
            active: true,
            name,
            description: String::new(),
            input_links: Vec::new(),
            output_links: Vec::new(),
        };
        proof {
            assert(r@ =~= fresh_node(id, r.name@));
        }
        r
    }

    pub fn set_node_type(&mut self, nt: NodeType)
        ensures
            final(self)@ == (NodeV { node_type: nt, ..old(self)@ }),
    {
        self.node_type = nt;
        proof {
            assert(self@ =~= (NodeV { node_type: nt, ..old(self)@ }));
        }
    }

    pub fn duplicate(&self) -> (r: Self)
        ensures
            r@ == self@,
    {
        let r = Node {
            id: self.id,
            node_type: self.node_type,
            active: self.active,
            name: self.name.clone(),
            description: self.description.clone(),
            input_links: copy_ids(&self.input_links),
            output_links: copy_ids(&self.output_links),
        };
        proof {
            assert(r@ =~= self@);
        }
        r
    }
}

/// A directed, signed relationship between two nodes. `src` and `dest` are
/// node ids; `signs` is the polarity pair (source side, destination side);
/// `value` is the bit pattern of the edge's binary64 scalar.
#[derive(Debug, PartialEq)]
pub struct Edge {
    pub id: u64,
    pub active: bool,
    pub src: u64,
    pub dest: u64,
    pub signs: (Sign, Sign),
    pub value: u64,
    pub link_type: LinkType,
    pub expression: Reaction,
}

/// Mathematical view of an [`Edge`].
#[verifier::ext_equal]
pub struct EdgeV {
    pub id: u64,
    pub active: bool,
    pub src: u64,
    pub dest: u64,
    pub signs: (Sign, Sign),
    pub value: u64,
    pub link_type: LinkType,
    pub expression: ReactionV,
}

impl View for Edge {
    type V = EdgeV;

    open spec fn view(&self) -> EdgeV {
        EdgeV {
            id: self.id,
            active: self.active,
            src: self.src,
            dest: self.dest,
            signs: self.signs,
            value: self.value,
            link_type: self.link_type,
            expression: self.expression@,
        }
    }
}

/// The view of a fresh edge, as built by [`Edge::new`].
pub open spec fn fresh_edge(id: u64, src: u64, dest: u64, signs: (Sign, Sign), lt: LinkType) -> EdgeV {
    EdgeV {
        id,
        active: true,
        src,
        dest,
        signs,
        value: 0,
        link_type: lt,
        expression: empty_reaction(),
    }
}

impl Edge {
    pub fn new(id: u64, src: u64, dest: u64, signs: (Sign, Sign), link_type: LinkType) -> (r: Self)
        ensures
            r@ == fresh_edge(id, src, dest, signs, link_type),
    {
        let r = Edge {
            id,
            active: true,
            src,
            dest,
            signs,
            value: 0,
            link_type,
            expression: Reaction::new(),
        };
        proof {
            assert(r@ =~= fresh_edge(id, src, dest, signs, link_type));
        }
        r
    }
}

impl Edge {
    pub fn duplicate(&self) -> (r: Self)
        ensures
            r@ == self@,
    {
        let r = Edge {
            id: self.id,
            active: self.active,
            src: self.src,
            dest: self.dest,
            signs: self.signs,
            value: self.value,
            link_type: self.link_type,
            expression: self.expression.duplicate(),
        };
        proof {
            assert(r@ =~= self@);
        }
        r
    }
}

/// Copies a list of (name, sign) pairs element by element.
pub fn copy_signed_names(v: &Vec<(String, Sign)>) -> (r: Vec<(String, Sign)>)
    ensures
        r@ == v@,
{
    let mut r: Vec<(String, Sign)> = Vec::new();
    let mut i: usize = 0;
    while i < v.len()
        invariant
            i <= v.len(),
            r@ =~= v@.take(i as int),
        decreases v.len() - i,
    {
        let name = v[i].0.clone();
        let sign = v[i].1;
        r.push((name, sign));
        i = i + 1;
    }
    proof {
        assert(r@ =~= v@);
    }
    r
}

/// Copies a list of names element by element.
pub fn copy_names(v: &Vec<String>) -> (r: Vec<String>)
    ensures
        r@ == v@,
{
    let mut r: Vec<String> = Vec::new();
    let mut i: usize = 0;
    while i < v.len()
        invariant
            i <= v.len(),
            r@ =~= v@.take(i as int),
        decreases v.len() - i,
    {
        r.push(v[i].clone());
        i = i + 1;
    }
    proof {
        assert(r@ =~= v@);
    }
    r
}

/// Copies a list of ids element by element.
pub fn copy_ids(v: &Vec<u64>) -> (r: Vec<u64>)
    ensures
        r@ == v@,
{
    let mut r: Vec<u64> = Vec::new();
    let mut i: usize = 0;
    while i < v.len()
        invariant
            i <= v.len(),
            r@ =~= v@.take(i as int),
        decreases v.len() - i,
    {
        r.push(v[i]);
        i = i + 1;
    }
    proof {
        assert(r@ =~= v@);
    }
    r
}

} // verus!
