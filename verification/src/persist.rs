//! The persisted form of a whole network: name, node registry, edge
//! registry and parameter store, each written with the tokens of
//! [`crate::codec`]. The id generator is never written; a load recomputes it
//! from the highest id present. Decoding is proved to invert encoding, so
//! the save/load round trip is lossless for every persisted field.
use vstd::prelude::*;

use crate::codec::{
    enc_bool, enc_link_type, enc_nat, enc_node_type, enc_sign, enc_str, enc_u64, lemma_prefix_parts,
    lemma_skip_skip, lemma_subrange_split, prefix_of, read_bool, read_link_type, read_node_type,
    read_sign, read_str, read_u64, str_chars, string_from_chars, write_bool, write_link_type,
    write_node_type, write_sign, write_str, write_u64,
};
use crate::model::{Edge, EdgeV, Node, NodeV, Parameter, ParameterV, Reaction, ReactionV, Sign};
use crate::net::{content_inv, BioNet, NetError, NetV};

verus! {

/// The token of one signed endpoint entry of a reaction.
pub open spec fn enc_pair(p: (Seq<char>, Sign)) -> Seq<char> {
    enc_str(p.0) + enc_sign(p.1)
}

/// The token of one parameter.
pub open spec fn enc_param(p: ParameterV) -> Seq<char> {
    enc_str(p.name) + enc_u64(p.value)
}

/// The tokens of a list of edge ids, one after the other.
pub open spec fn cat_ids(l: Seq<u64>) -> Seq<char>
    decreases l.len(),
{
    if l.len() == 0 {
        Seq::empty()
    } else {
        enc_u64(l[0]) + cat_ids(l.drop_first())
    }
}

/// A list of edge ids: its count, then its entries.
pub open spec fn enc_ids(l: Seq<u64>) -> Seq<char> {
    enc_nat(l.len()) + cat_ids(l)
}

/// The tokens of a list of names, one after the other.
pub open spec fn cat_strs(l: Seq<Seq<char>>) -> Seq<char>
    decreases l.len(),
{
    if l.len() == 0 {
        Seq::empty()
    } else {
        enc_str(l[0]) + cat_strs(l.drop_first())
    }
}

/// A list of names: its count, then its entries.
pub open spec fn enc_strs(l: Seq<Seq<char>>) -> Seq<char> {
    enc_nat(l.len()) + cat_strs(l)
}

/// The tokens of a list of signed endpoint entries, one after the other.
pub open spec fn cat_pairs(l: Seq<(Seq<char>, Sign)>) -> Seq<char>
    decreases l.len(),
{
    if l.len() == 0 {
        Seq::empty()
    } else {
        enc_pair(l[0]) + cat_pairs(l.drop_first())
    }
}

/// A list of signed endpoint entries: its count, then its entries.
pub open spec fn enc_pairs(l: Seq<(Seq<char>, Sign)>) -> Seq<char> {
    enc_nat(l.len()) + cat_pairs(l)
}

/// The token of a reaction record.
pub open spec fn enc_reaction(r: ReactionV) -> Seq<char> {
    enc_str(r.expr_text) + enc_str(r.numeric_expr) + enc_pairs(r.inputs) + enc_pairs(r.outputs)
        + enc_u64(r.rate) + enc_strs(r.parameters)
}

/// The token of one node.
pub open spec fn enc_node(n: NodeV) -> Seq<char> {
    enc_u64(n.id) + enc_node_type(n.node_type) + enc_bool(n.active) + enc_str(n.name) + enc_str(
        n.description,
    ) + enc_ids(n.input_links) + enc_ids(n.output_links)
}

/// The token of one edge.
pub open spec fn enc_edge(e: EdgeV) -> Seq<char> {
    enc_u64(e.id) + enc_bool(e.active) + enc_u64(e.src) + enc_u64(e.dest) + enc_sign(e.signs.0)
        + enc_sign(e.signs.1) + enc_u64(e.value) + enc_link_type(e.link_type) + enc_reaction(
        e.expression,
    )
}

/// The tokens of the node registry, one node after the other.
pub open spec fn cat_nodes(l: Seq<NodeV>) -> Seq<char>
    decreases l.len(),
{
    if l.len() == 0 {
        Seq::empty()
    } else {
        enc_node(l[0]) + cat_nodes(l.drop_first())
    }
}

/// The node registry: its count, then its nodes.
pub open spec fn enc_nodes(l: Seq<NodeV>) -> Seq<char> {
    enc_nat(l.len()) + cat_nodes(l)
}

/// The tokens of the edge registry, one edge after the other.
pub open spec fn cat_edges(l: Seq<EdgeV>) -> Seq<char>
    decreases l.len(),
{
    if l.len() == 0 {
        Seq::empty()
    } else {
        enc_edge(l[0]) + cat_edges(l.drop_first())
    }
}

/// The edge registry: its count, then its edges.
pub open spec fn enc_edges(l: Seq<EdgeV>) -> Seq<char> {
    enc_nat(l.len()) + cat_edges(l)
}

/// The tokens of the parameter store, one parameter after the other.
pub open spec fn cat_params(l: Seq<ParameterV>) -> Seq<char>
    decreases l.len(),
{
    if l.len() == 0 {
        Seq::empty()
    } else {
        enc_param(l[0]) + cat_params(l.drop_first())
    }
}

/// The parameter store: its count, then its parameters.
pub open spec fn enc_params(l: Seq<ParameterV>) -> Seq<char> {
    enc_nat(l.len()) + cat_params(l)
}

/// The persisted text of a whole network. The id generator is not part of
/// it.
pub open spec fn enc_net(v: NetV) -> Seq<char> {
    enc_str(v.name) + enc_nodes(v.nodes) + enc_edges(v.edges) + enc_params(v.parameters)
}

/// Every count and character count fits in one 64-bit token. Any network
/// held in memory satisfies this.
pub open spec fn str_fits(t: Seq<char>) -> bool {
    t.len() <= u64::MAX
}

/// See [`str_fits`].
pub open spec fn reaction_fits(r: ReactionV) -> bool {
    &&& str_fits(r.expr_text)
    &&& str_fits(r.numeric_expr)
    &&& r.inputs.len() <= u64::MAX
    &&& (forall|k: int| 0 <= k < r.inputs.len() ==> str_fits(#[trigger] r.inputs[k].0))
    &&& r.outputs.len() <= u64::MAX
    &&& (forall|k: int| 0 <= k < r.outputs.len() ==> str_fits(#[trigger] r.outputs[k].0))
    &&& r.parameters.len() <= u64::MAX
    &&& (forall|k: int| 0 <= k < r.parameters.len() ==> str_fits(#[trigger] r.parameters[k]))
}

/// See [`str_fits`].
pub open spec fn node_fits(n: NodeV) -> bool {
    &&& str_fits(n.name)
    &&& str_fits(n.description)
    &&& n.input_links.len() <= u64::MAX
    &&& n.output_links.len() <= u64::MAX
}

/// See [`str_fits`].
pub open spec fn edge_fits(e: EdgeV) -> bool {
    reaction_fits(e.expression)
}

/// See [`str_fits`].
pub open spec fn net_fits(v: NetV) -> bool {
    &&& str_fits(v.name)
    &&& v.nodes.len() <= u64::MAX
    &&& (forall|k: int| 0 <= k < v.nodes.len() ==> node_fits(#[trigger] v.nodes[k]))
    &&& v.edges.len() <= u64::MAX
    &&& (forall|k: int| 0 <= k < v.edges.len() ==> edge_fits(#[trigger] v.edges[k]))
    &&& v.parameters.len() <= u64::MAX
    &&& (forall|k: int| 0 <= k < v.parameters.len() ==> str_fits(#[trigger] v.parameters[k].name))
}

/// One more entry extends the concatenated tokens at the end.
pub proof fn lemma_cat_ids_push(l: Seq<u64>, x: u64)
    ensures
        cat_ids(l.push(x)) == cat_ids(l) + enc_u64(x),
    decreases l.len(),
{
    reveal_with_fuel(cat_ids, 3);
    if l.len() == 0 {
        assert(l.push(x).drop_first() =~= Seq::<u64>::empty());
        assert(cat_ids(l.push(x)) =~= cat_ids(l) + enc_u64(x));
    } else {
        lemma_cat_ids_push(l.drop_first(), x);
        assert(l.push(x).drop_first() =~= l.drop_first().push(x));
        assert(cat_ids(l.push(x)) =~= cat_ids(l) + enc_u64(x));
    }
}

/// The concatenated tokens of a suffix start with the token of its head.
pub proof fn lemma_cat_ids_skip(l: Seq<u64>, k: int)
    requires
        0 <= k < l.len(),
    ensures
        cat_ids(l.skip(k)) == enc_u64(l[k]) + cat_ids(l.skip(k + 1)),
{
    assert(l.skip(k).len() > 0);
    assert(l.skip(k)[0] == l[k]);
    assert(l.skip(k).drop_first() =~= l.skip(k + 1));
}

/// See [`lemma_cat_ids_push`].
pub proof fn lemma_cat_strs_push(l: Seq<Seq<char>>, x: Seq<char>)
    ensures
        cat_strs(l.push(x)) == cat_strs(l) + enc_str(x),
    decreases l.len(),
{
    reveal_with_fuel(cat_strs, 3);
    if l.len() == 0 {
        assert(l.push(x).drop_first() =~= Seq::<Seq<char>>::empty());
        assert(cat_strs(l.push(x)) =~= cat_strs(l) + enc_str(x));
    } else {
        lemma_cat_strs_push(l.drop_first(), x);
        assert(l.push(x).drop_first() =~= l.drop_first().push(x));
        assert(cat_strs(l.push(x)) =~= cat_strs(l) + enc_str(x));
    }
}

/// See [`lemma_cat_ids_skip`].
pub proof fn lemma_cat_strs_skip(l: Seq<Seq<char>>, k: int)
    requires
        0 <= k < l.len(),
    ensures
        cat_strs(l.skip(k)) == enc_str(l[k]) + cat_strs(l.skip(k + 1)),
{
    assert(l.skip(k).len() > 0);
    assert(l.skip(k)[0] == l[k]);
    assert(l.skip(k).drop_first() =~= l.skip(k + 1));
}

/// See [`lemma_cat_ids_push`].
pub proof fn lemma_cat_pairs_push(l: Seq<(Seq<char>, Sign)>, x: (Seq<char>, Sign))
    ensures
        cat_pairs(l.push(x)) == cat_pairs(l) + enc_pair(x),
    decreases l.len(),
{
    reveal_with_fuel(cat_pairs, 3);
    if l.len() == 0 {
        assert(l.push(x).drop_first() =~= Seq::<(Seq<char>, Sign)>::empty());
        assert(cat_pairs(l.push(x)) =~= cat_pairs(l) + enc_pair(x));
    } else {
        lemma_cat_pairs_push(l.drop_first(), x);
        assert(l.push(x).drop_first() =~= l.drop_first().push(x));
        assert(cat_pairs(l.push(x)) =~= cat_pairs(l) + enc_pair(x));
    }
}

/// See [`lemma_cat_ids_skip`].
pub proof fn lemma_cat_pairs_skip(l: Seq<(Seq<char>, Sign)>, k: int)
    requires
        0 <= k < l.len(),
    ensures
        cat_pairs(l.skip(k)) == enc_pair(l[k]) + cat_pairs(l.skip(k + 1)),
{
    assert(l.skip(k).len() > 0);
    assert(l.skip(k)[0] == l[k]);
    assert(l.skip(k).drop_first() =~= l.skip(k + 1));
}

/// See [`lemma_cat_ids_push`].
pub proof fn lemma_cat_params_push(l: Seq<ParameterV>, x: ParameterV)
    ensures
        cat_params(l.push(x)) == cat_params(l) + enc_param(x),
    decreases l.len(),
{
    reveal_with_fuel(cat_params, 3);
    if l.len() == 0 {
        assert(l.push(x).drop_first() =~= Seq::<ParameterV>::empty());
        assert(cat_params(l.push(x)) =~= cat_params(l) + enc_param(x));
    } else {
        lemma_cat_params_push(l.drop_first(), x);
        assert(l.push(x).drop_first() =~= l.drop_first().push(x));
        assert(cat_params(l.push(x)) =~= cat_params(l) + enc_param(x));
    }
}

/// See [`lemma_cat_ids_skip`].
pub proof fn lemma_cat_params_skip(l: Seq<ParameterV>, k: int)
    requires
        0 <= k < l.len(),
    ensures
        cat_params(l.skip(k)) == enc_param(l[k]) + cat_params(l.skip(k + 1)),
{
    assert(l.skip(k).len() > 0);
    assert(l.skip(k)[0] == l[k]);
    assert(l.skip(k).drop_first() =~= l.skip(k + 1));
}

/// See [`lemma_cat_ids_push`].
pub proof fn lemma_cat_nodes_push(l: Seq<NodeV>, x: NodeV)
    ensures
        cat_nodes(l.push(x)) == cat_nodes(l) + enc_node(x),
    decreases l.len(),
{
    reveal_with_fuel(cat_nodes, 3);
    if l.len() == 0 {
        assert(l.push(x).drop_first() =~= Seq::<NodeV>::empty());
        assert(cat_nodes(l.push(x)) =~= cat_nodes(l) + enc_node(x));
    } else {
        lemma_cat_nodes_push(l.drop_first(), x);
        assert(l.push(x).drop_first() =~= l.drop_first().push(x));
        assert(cat_nodes(l.push(x)) =~= cat_nodes(l) + enc_node(x));
    }
}

/// See [`lemma_cat_ids_skip`].
pub proof fn lemma_cat_nodes_skip(l: Seq<NodeV>, k: int)
    requires
        0 <= k < l.len(),
    ensures
        cat_nodes(l.skip(k)) == enc_node(l[k]) + cat_nodes(l.skip(k + 1)),
{
    assert(l.skip(k).len() > 0);
    assert(l.skip(k)[0] == l[k]);
    assert(l.skip(k).drop_first() =~= l.skip(k + 1));
}

/// See [`lemma_cat_ids_push`].
#[verifier::rlimit(100)]
pub proof fn lemma_cat_edges_push(l: Seq<EdgeV>, x: EdgeV)
    ensures
        cat_edges(l.push(x)) == cat_edges(l) + enc_edge(x),
    decreases l.len(),
{
    reveal_with_fuel(cat_edges, 3);
    if l.len() == 0 {
        assert(l.push(x).drop_first() =~= Seq::<EdgeV>::empty());
        assert(cat_edges(l.push(x)) =~= cat_edges(l) + enc_edge(x));
    } else {
        lemma_cat_edges_push(l.drop_first(), x);
        assert(l.push(x).drop_first() =~= l.drop_first().push(x));
        assert(cat_edges(l.push(x)) =~= cat_edges(l) + enc_edge(x));
    }
}

/// See [`lemma_cat_ids_skip`].
pub proof fn lemma_cat_edges_skip(l: Seq<EdgeV>, k: int)
    requires
        0 <= k < l.len(),
    ensures
        cat_edges(l.skip(k)) == enc_edge(l[k]) + cat_edges(l.skip(k + 1)),
{
    assert(l.skip(k).len() > 0);
    assert(l.skip(k)[0] == l[k]);
    assert(l.skip(k).drop_first() =~= l.skip(k + 1));
}

/// Appends the tokens of a list of edge ids.
fn write_ids(out: &mut Vec<char>, l: &Vec<u64>)
    ensures
        final(out)@ == old(out)@ + enc_ids(l@),
        l@.len() <= u64::MAX,
{
    write_u64(out, l.len() as u64);
    let ghost base = out@;
    let mut i: usize = 0;
    while i < l.len()
        invariant
            i <= l@.len(),
            out@ == base + cat_ids(l@.take(i as int)),
        decreases l@.len() - i,
    {
        write_u64(out, l[i]);
        proof {
            lemma_cat_ids_push(l@.take(i as int), l@[i as int]);
            assert(l@.take(i as int).push(l@[i as int]) =~= l@.take(i + 1));
        }
        i = i + 1;
    }
    proof {
        assert(l@.take(l@.len() as int) =~= l@);
        assert(out@ =~= old(out)@ + enc_ids(l@));
    }
}

/// Appends the tokens of a list of names.
fn write_strs(out: &mut Vec<char>, l: &Vec<String>)
    ensures
        final(out)@ == old(out)@ + enc_strs(l@.map_values(|s: String| s@)),
        l@.len() <= u64::MAX,
        forall|k: int| 0 <= k < l@.len() ==> str_fits(#[trigger] (l@[k]@)),
{
    let ghost lv = l@.map_values(|s: String| s@);
    write_u64(out, l.len() as u64);
    let ghost base = out@;
    let mut i: usize = 0;
    while i < l.len()
        invariant
            i <= l@.len(),
            lv == l@.map_values(|s: String| s@),
            lv.len() == l@.len(),
            out@ == base + cat_strs(lv.take(i as int)),
            forall|k: int| 0 <= k < i ==> str_fits(#[trigger] (l@[k]@)),
        decreases l@.len() - i,
    {
        write_str(out, l[i].as_str());
        proof {
            lemma_cat_strs_push(lv.take(i as int), lv[i as int]);
            assert(lv.take(i as int).push(lv[i as int]) =~= lv.take(i + 1));
        }
        i = i + 1;
    }
    proof {
        assert(lv.take(lv.len() as int) =~= lv);
        assert(out@ =~= old(out)@ + enc_strs(lv));
    }
}

/// Appends the tokens of a list of signed endpoint entries.
fn write_pairs(out: &mut Vec<char>, l: &Vec<(String, Sign)>)
    ensures
        final(out)@ == old(out)@ + enc_pairs(l@.map_values(|p: (String, Sign)| (p.0@, p.1))),
        l@.len() <= u64::MAX,
        forall|k: int| 0 <= k < l@.len() ==> str_fits(#[trigger] (l@[k].0@)),
{
    let ghost lv = l@.map_values(|p: (String, Sign)| (p.0@, p.1));
    write_u64(out, l.len() as u64);
    let ghost base = out@;
    let mut i: usize = 0;
    while i < l.len()
        invariant
            i <= l@.len(),
            lv == l@.map_values(|p: (String, Sign)| (p.0@, p.1)),
            lv.len() == l@.len(),
            out@ == base + cat_pairs(lv.take(i as int)),
            forall|k: int| 0 <= k < i ==> str_fits(#[trigger] (l@[k].0@)),
        decreases l@.len() - i,
    {
        write_str(out, l[i].0.as_str());
        write_sign(out, l[i].1);
        proof {
            lemma_cat_pairs_push(lv.take(i as int), lv[i as int]);
            assert(lv.take(i as int).push(lv[i as int]) =~= lv.take(i + 1));
            assert(enc_pair(lv[i as int]) == enc_str(l@[i as int].0@) + enc_sign(l@[i as int].1));
        }
        i = i + 1;
    }
    proof {
        assert(lv.take(lv.len() as int) =~= lv);
        assert(out@ =~= old(out)@ + enc_pairs(lv));
    }
}

/// Appends the token of a reaction record.
fn write_reaction(out: &mut Vec<char>, r: &Reaction)
    ensures
        final(out)@ == old(out)@ + enc_reaction(r@),
        reaction_fits(r@),
{
    write_str(out, r.expr_text.as_str());
    write_str(out, r.numeric_expr.as_str());
    write_pairs(out, &r.inputs);
    write_pairs(out, &r.outputs);
    write_u64(out, r.rate);
    write_strs(out, &r.parameters);
    proof {
        assert(out@ =~= old(out)@ + enc_reaction(r@));
    }
}

/// Appends the token of one node.
fn write_node(out: &mut Vec<char>, n: &Node)
    ensures
        final(out)@ == old(out)@ + enc_node(n@),
        node_fits(n@),
{
    write_u64(out, n.id);
    write_node_type(out, n.node_type);
    write_bool(out, n.active);
    write_str(out, n.name.as_str());
    write_str(out, n.description.as_str());
    write_ids(out, &n.input_links);
    write_ids(out, &n.output_links);
    proof {
        assert(out@ =~= old(out)@ + enc_node(n@));
    }
}

/// Appends the token of one edge.
fn write_edge(out: &mut Vec<char>, e: &Edge)
    ensures
        final(out)@ == old(out)@ + enc_edge(e@),
        edge_fits(e@),
{
    write_u64(out, e.id);
    write_bool(out, e.active);
    write_u64(out, e.src);
    write_u64(out, e.dest);
    write_sign(out, e.signs.0);
    write_sign(out, e.signs.1);
    write_u64(out, e.value);
    write_link_type(out, e.link_type);
    write_reaction(out, &e.expression);
    proof {
        assert(out@ =~= old(out)@ + enc_edge(e@));
    }
}

/// Appends the token of one parameter.
fn write_param(out: &mut Vec<char>, p: &Parameter)
    ensures
        final(out)@ == old(out)@ + enc_param(p@),
        str_fits(p@.name),
{
    write_str(out, p.name.as_str());
    write_u64(out, p.value);
    proof {
        assert(out@ =~= old(out)@ + enc_param(p@));
    }
}

/// Reads one signed endpoint entry.
fn read_pair(s: &Vec<char>, pos: usize) -> (r: Option<((String, Sign), usize)>)
    requires
        pos <= s@.len(),
    ensures
        r matches Some(p) ==> pos <= p.1 <= s@.len() && s@.subrange(pos as int, p.1 as int)
            == enc_pair((p.0.0@, p.0.1)),
        forall|v: (Seq<char>, Sign)|
            str_fits(v.0) && #[trigger] prefix_of(enc_pair(v), s@.skip(pos as int)) ==> (
            r matches Some(p) && p.0.0@ == v.0 && p.0.1 == v.1 && p.1 == pos + enc_pair(v).len()),
{
    let ghost suffix = s@.skip(pos as int);
    proof {
        assert forall|v: (Seq<char>, Sign)|
            str_fits(v.0) && #[trigger] prefix_of(enc_pair(v), suffix) implies prefix_of(
            enc_str(v.0),
            suffix,
        ) && prefix_of(enc_sign(v.1), s@.skip(pos + enc_str(v.0).len())) by {
            lemma_prefix_parts(enc_str(v.0), enc_sign(v.1), suffix);
            lemma_skip_skip(s@, pos as int, enc_str(v.0).len() as int);
        }
    }
    let (name, q1) = match read_str(s, pos) {
        Some(p) => p,
        None => {
            return None;
        },
    };
    let (sg, q2) = match read_sign(s, q1) {
        Some(p) => p,
        None => {
            return None;
        },
    };
    proof {
        lemma_subrange_split(s@, pos as int, q1 as int, q2 as int);
        assert(s@.subrange(pos as int, q2 as int) == enc_pair((name@, sg)));
    }
    Some(((name, sg), q2))
}

/// Reads one parameter.
fn read_param(s: &Vec<char>, pos: usize) -> (r: Option<(Parameter, usize)>)
    requires
        pos <= s@.len(),
    ensures
        r matches Some(p) ==> pos <= p.1 <= s@.len() && s@.subrange(pos as int, p.1 as int)
            == enc_param(p.0@),
        forall|v: ParameterV|
            str_fits(v.name) && #[trigger] prefix_of(enc_param(v), s@.skip(pos as int)) ==> (
            r matches Some(p) && p.0@ == v && p.1 == pos + enc_param(v).len()),
{
    let ghost suffix = s@.skip(pos as int);
    proof {
        assert forall|v: ParameterV|
            str_fits(v.name) && #[trigger] prefix_of(enc_param(v), suffix) implies prefix_of(
            enc_str(v.name),
            suffix,
        ) && prefix_of(enc_u64(v.value), s@.skip(pos + enc_str(v.name).len())) by {
            lemma_prefix_parts(enc_str(v.name), enc_u64(v.value), suffix);
            lemma_skip_skip(s@, pos as int, enc_str(v.name).len() as int);
        }
    }
    let (name, q1) = match read_str(s, pos) {
        Some(p) => p,
        None => {
            return None;
        },
    };
    let (value, q2) = match read_u64(s, q1) {
        Some(p) => p,
        None => {
            return None;
        },
    };
    let res = Parameter { name, value };
    proof {
        lemma_subrange_split(s@, pos as int, q1 as int, q2 as int);
        assert(s@.subrange(pos as int, q2 as int) == enc_param(res@));
        assert forall|v: ParameterV|
            str_fits(v.name) && #[trigger] prefix_of(enc_param(v), suffix) implies res@ == v && q2
            == pos + enc_param(v).len() by {
            assert(res@ =~= v);
        }
    }
    Some((res, q2))
}

/// Reads a list of edge ids.
fn read_ids(s: &Vec<char>, pos: usize) -> (r: Option<(Vec<u64>, usize)>)
    requires
        pos <= s@.len(),
    ensures
        r matches Some(p) ==> pos <= p.1 <= s@.len() && s@.subrange(pos as int, p.1 as int)
            == enc_ids(p.0@),
        forall|l: Seq<u64>|
            l.len() <= u64::MAX && #[trigger] prefix_of(enc_ids(l), s@.skip(pos as int)) ==> (
            r matches Some(p) && p.0@ == l && p.1 == pos + enc_ids(l).len()),
{
    let ghost suffix = s@.skip(pos as int);
    proof {
        assert forall|l: Seq<u64>|
            l.len() <= u64::MAX && #[trigger] prefix_of(enc_ids(l), suffix) implies prefix_of(
            enc_u64((l.len() as u64)),
            suffix,
        ) && prefix_of(cat_ids(l), s@.skip(pos + enc_nat(l.len()).len())) by {
            lemma_prefix_parts(enc_nat(l.len()), cat_ids(l), suffix);
            lemma_skip_skip(s@, pos as int, enc_nat(l.len()).len() as int);
            assert((l.len() as u64) as nat == l.len());
        }
    }
    let (count, q0) = match read_u64(s, pos) {
        Some(p) => p,
        None => {
            return None;
        },
    };
    let mut acc: Vec<u64> = Vec::new();
    let mut cur: usize = q0;
    let mut k: u64 = 0;
    proof {
        assert(s@.subrange(q0 as int, q0 as int) =~= Seq::<char>::empty());
        assert(cat_ids(acc@) =~= Seq::<char>::empty());
        assert forall|l: Seq<u64>|
            l.len() <= u64::MAX && #[trigger] prefix_of(enc_ids(l), suffix) implies l.len()
            == count as nat && acc@ == l.take(0) && prefix_of(cat_ids(l.skip(0)), s@.skip(q0 as int))
            by {
            assert((l.len() as u64) as nat == l.len());
            assert(l.take(0) =~= acc@);
            assert(l.skip(0) =~= l);
        }
    }
    while k < count
        invariant
            k <= count,
            pos < q0 <= cur <= s@.len(),
            suffix == s@.skip(pos as int),
            acc@.len() == k as nat,
            s@.subrange(pos as int, q0 as int) == enc_u64(count),
            s@.subrange(q0 as int, cur as int) == cat_ids(acc@),
            forall|l: Seq<u64>|
                l.len() <= u64::MAX && #[trigger] prefix_of(enc_ids(l), suffix) ==> {
                    &&& l.len() == count as nat
                    &&& acc@ == l.take(k as int)
                    &&& prefix_of(cat_ids(l.skip(k as int)), s@.skip(cur as int))
                },
        decreases count - k,
    {
        let ghost before = acc@;
        proof {
            assert forall|l: Seq<u64>|
                l.len() <= u64::MAX && #[trigger] prefix_of(enc_ids(l), suffix) implies prefix_of(
                enc_u64(l[k as int]),
                s@.skip(cur as int),
            ) && prefix_of(cat_ids(l.skip(k as int + 1)), s@.skip(cur + enc_u64(l[k as int]).len()))
                by {
                lemma_cat_ids_skip(l, k as int);
                lemma_prefix_parts(
                    enc_u64(l[k as int]),
                    cat_ids(l.skip(k as int + 1)),
                    s@.skip(cur as int),
                );
                lemma_skip_skip(s@, cur as int, enc_u64(l[k as int]).len() as int);
            }
        }
        let (x, nq) = match read_u64(s, cur) {
            Some(p) => p,
            None => {
                return None;
            },
        };
        acc.push(x);
        proof {
            lemma_subrange_split(s@, q0 as int, cur as int, nq as int);
            lemma_cat_ids_push(before, x);
            assert(s@.subrange(q0 as int, nq as int) == cat_ids(acc@));
            assert forall|l: Seq<u64>|
                l.len() <= u64::MAX && #[trigger] prefix_of(enc_ids(l), suffix) implies acc@
                == l.take(k as int + 1) && prefix_of(cat_ids(l.skip(k as int + 1)), s@.skip(nq as int))
                by {
                assert(x == l[k as int]);
                assert(l.take(k as int).push(l[k as int]) =~= l.take(k as int + 1));
            }
        }
        cur = nq;
        k = k + 1;
    }
    proof {
        lemma_subrange_split(s@, pos as int, q0 as int, cur as int);
        assert(acc@.len() == count as nat);
        assert(s@.subrange(pos as int, cur as int) == enc_ids(acc@));
        assert forall|l: Seq<u64>|
            l.len() <= u64::MAX && #[trigger] prefix_of(enc_ids(l), suffix) implies acc@ == l && cur
            == pos + enc_ids(l).len() by {
            assert(l.take(count as int) =~= l);
            assert(s@.subrange(pos as int, cur as int).len() == cur - pos);
        }
    }
    Some((acc, cur))
}

/// Reads a list of names.
fn read_strs(s: &Vec<char>, pos: usize) -> (r: Option<(Vec<String>, usize)>)
    requires
        pos <= s@.len(),
    ensures
        r matches Some(p) ==> pos <= p.1 <= s@.len() && s@.subrange(pos as int, p.1 as int)
            == enc_strs(p.0@.map_values(|t: String| t@)),
        forall|l: Seq<Seq<char>>|
            l.len() <= u64::MAX && (forall|k: int| 0 <= k < l.len() ==> str_fits(#[trigger] l[k]))
                && #[trigger] prefix_of(enc_strs(l), s@.skip(pos as int)) ==> (r matches Some(p)
                && p.0@.map_values(|t: String| t@) == l && p.1 == pos + enc_strs(l).len()),
{
    let ghost suffix = s@.skip(pos as int);
    proof {
        assert forall|l: Seq<Seq<char>>|
            l.len() <= u64::MAX && (forall|j: int| 0 <= j < l.len() ==> str_fits(#[trigger] l[j])) && #[trigger] prefix_of(enc_strs(l), suffix) implies prefix_of(
            enc_u64((l.len() as u64)),
            suffix,
        ) && prefix_of(cat_strs(l), s@.skip(pos + enc_nat(l.len()).len())) by {
            lemma_prefix_parts(enc_nat(l.len()), cat_strs(l), suffix);
            lemma_skip_skip(s@, pos as int, enc_nat(l.len()).len() as int);
            assert((l.len() as u64) as nat == l.len());
        }
    }
    let (count, q0) = match read_u64(s, pos) {
        Some(p) => p,
        None => {
            return None;
        },
    };
    let mut acc: Vec<String> = Vec::new();
    let ghost vs = Seq::<Seq<char>>::empty();
    let mut cur: usize = q0;
    let mut k: u64 = 0;
    proof {
        assert(s@.subrange(q0 as int, q0 as int) =~= Seq::<char>::empty());
        assert(cat_strs(vs) =~= Seq::<char>::empty());
        assert(acc@.map_values(|t: String| t@) =~= vs);
        assert forall|l: Seq<Seq<char>>|
            l.len() <= u64::MAX && (forall|j: int| 0 <= j < l.len() ==> str_fits(#[trigger] l[j])) && #[trigger] prefix_of(enc_strs(l), suffix) implies l.len()
            == count as nat && vs == l.take(0) && prefix_of(cat_strs(l.skip(0)), s@.skip(q0 as int))
            by {
            assert((l.len() as u64) as nat == l.len());
            assert(l.take(0) =~= vs);
            assert(l.skip(0) =~= l);
        }
    }
    while k < count
        invariant
            k <= count,
            pos < q0 <= cur <= s@.len(),
            suffix == s@.skip(pos as int),
            vs.len() == k as nat,
            vs == acc@.map_values(|t: String| t@),
            s@.subrange(pos as int, q0 as int) == enc_u64(count),
            s@.subrange(q0 as int, cur as int) == cat_strs(vs),
            forall|l: Seq<Seq<char>>|
                l.len() <= u64::MAX && (forall|j: int| 0 <= j < l.len() ==> str_fits(#[trigger] l[j])) && #[trigger] prefix_of(enc_strs(l), suffix) ==> {
                    &&& l.len() == count as nat
                    &&& vs == l.take(k as int)
                    &&& prefix_of(cat_strs(l.skip(k as int)), s@.skip(cur as int))
                },
        decreases count - k,
    {
        let ghost before = vs;
        proof {
            assert forall|l: Seq<Seq<char>>|
                l.len() <= u64::MAX && (forall|j: int| 0 <= j < l.len() ==> str_fits(#[trigger] l[j])) && #[trigger] prefix_of(enc_strs(l), suffix) implies prefix_of(
                enc_str(l[k as int]),
                s@.skip(cur as int),
            ) && prefix_of(
                cat_strs(l.skip(k as int + 1)),
                s@.skip(cur + enc_str(l[k as int]).len()),
            ) by {
                lemma_cat_strs_skip(l, k as int);
                lemma_prefix_parts(
                    enc_str(l[k as int]),
                    cat_strs(l.skip(k as int + 1)),
                    s@.skip(cur as int),
                );
                lemma_skip_skip(s@, cur as int, enc_str(l[k as int]).len() as int);
            }
        }
        let (x, nq) = match read_str(s, cur) {
            Some(p) => p,
            None => {
                return None;
            },
        };
        proof {
            vs = vs.push(x@);
        }
        acc.push(x);
        proof {
            assert(vs =~= acc@.map_values(|t: String| t@));
            lemma_subrange_split(s@, q0 as int, cur as int, nq as int);
            lemma_cat_strs_push(before, vs.last());
            assert(s@.subrange(q0 as int, nq as int) == cat_strs(vs));
            assert forall|l: Seq<Seq<char>>|
                l.len() <= u64::MAX && (forall|j: int| 0 <= j < l.len() ==> str_fits(#[trigger] l[j])) && #[trigger] prefix_of(enc_strs(l), suffix) implies vs
                == l.take(k as int + 1) && prefix_of(
                cat_strs(l.skip(k as int + 1)),
                s@.skip(nq as int),
            ) by {
                assert(str_fits(l[k as int]));
                assert(vs.last() == l[k as int]);
                assert(l.take(k as int).push(l[k as int]) =~= l.take(k as int + 1));
            }
        }
        cur = nq;
        k = k + 1;
    }
    proof {
        lemma_subrange_split(s@, pos as int, q0 as int, cur as int);
        assert(vs.len() == count as nat);
        assert(s@.subrange(pos as int, cur as int) == enc_strs(vs));
        assert forall|l: Seq<Seq<char>>|
            l.len() <= u64::MAX && (forall|j: int| 0 <= j < l.len() ==> str_fits(#[trigger] l[j])) && #[trigger] prefix_of(enc_strs(l), suffix) implies vs == l && cur
            == pos + enc_strs(l).len() by {
            assert(l.take(count as int) =~= l);
            assert(s@.subrange(pos as int, cur as int).len() == cur - pos);
        }
    }
    Some((acc, cur))
}

/// Reads a list of signed endpoint entries.
fn read_pairs(s: &Vec<char>, pos: usize) -> (r: Option<(Vec<(String, Sign)>, usize)>)
    requires
        pos <= s@.len(),
    ensures
        r matches Some(p) ==> pos <= p.1 <= s@.len() && s@.subrange(pos as int, p.1 as int)
            == enc_pairs(p.0@.map_values(|q: (String, Sign)| (q.0@, q.1))),
        forall|l: Seq<(Seq<char>, Sign)>|
            l.len() <= u64::MAX && (forall|k: int|
                0 <= k < l.len() ==> str_fits(#[trigger] l[k].0)) && #[trigger] prefix_of(
                enc_pairs(l),
                s@.skip(pos as int),
            ) ==> (r matches Some(p) && p.0@.map_values(|q: (String, Sign)| (q.0@, q.1)) == l && p.1
                == pos + enc_pairs(l).len()),
{
    let ghost suffix = s@.skip(pos as int);
    proof {
        assert forall|l: Seq<(Seq<char>, Sign)>|
            l.len() <= u64::MAX && (forall|j: int| 0 <= j < l.len() ==> str_fits(#[trigger] l[j].0)) && #[trigger] prefix_of(enc_pairs(l), suffix) implies prefix_of(
            enc_u64((l.len() as u64)),
            suffix,
        ) && prefix_of(cat_pairs(l), s@.skip(pos + enc_nat(l.len()).len())) by {
            lemma_prefix_parts(enc_nat(l.len()), cat_pairs(l), suffix);
            lemma_skip_skip(s@, pos as int, enc_nat(l.len()).len() as int);
            assert((l.len() as u64) as nat == l.len());
        }
    }
    let (count, q0) = match read_u64(s, pos) {
        Some(p) => p,
        None => {
            return None;
        },
    };
    let mut acc: Vec<(String, Sign)> = Vec::new();
    let ghost vs = Seq::<(Seq<char>, Sign)>::empty();
    let mut cur: usize = q0;
    let mut k: u64 = 0;
    proof {
        assert(s@.subrange(q0 as int, q0 as int) =~= Seq::<char>::empty());
        assert(cat_pairs(vs) =~= Seq::<char>::empty());
        assert(acc@.map_values(|q: (String, Sign)| (q.0@, q.1)) =~= vs);
        assert forall|l: Seq<(Seq<char>, Sign)>|
            l.len() <= u64::MAX && (forall|j: int| 0 <= j < l.len() ==> str_fits(#[trigger] l[j].0)) && #[trigger] prefix_of(enc_pairs(l), suffix) implies l.len()
            == count as nat && vs == l.take(0) && prefix_of(cat_pairs(l.skip(0)), s@.skip(q0 as int))
            by {
            assert((l.len() as u64) as nat == l.len());
            assert(l.take(0) =~= vs);
            assert(l.skip(0) =~= l);
        }
    }
    while k < count
        invariant
            k <= count,
            pos < q0 <= cur <= s@.len(),
            suffix == s@.skip(pos as int),
            vs.len() == k as nat,
            vs == acc@.map_values(|q: (String, Sign)| (q.0@, q.1)),
            s@.subrange(pos as int, q0 as int) == enc_u64(count),
            s@.subrange(q0 as int, cur as int) == cat_pairs(vs),
            forall|l: Seq<(Seq<char>, Sign)>|
                l.len() <= u64::MAX && (forall|j: int| 0 <= j < l.len() ==> str_fits(#[trigger] l[j].0)) && #[trigger] prefix_of(enc_pairs(l), suffix) ==> {
                    &&& l.len() == count as nat
                    &&& vs == l.take(k as int)
                    &&& prefix_of(cat_pairs(l.skip(k as int)), s@.skip(cur as int))
                },
        decreases count - k,
    {
        let ghost before = vs;
        proof {
            assert forall|l: Seq<(Seq<char>, Sign)>|
                l.len() <= u64::MAX && (forall|j: int| 0 <= j < l.len() ==> str_fits(#[trigger] l[j].0)) && #[trigger] prefix_of(enc_pairs(l), suffix) implies prefix_of(
                enc_pair(l[k as int]),
                s@.skip(cur as int),
            ) && prefix_of(
                cat_pairs(l.skip(k as int + 1)),
                s@.skip(cur + enc_pair(l[k as int]).len()),
            ) by {
                lemma_cat_pairs_skip(l, k as int);
                lemma_prefix_parts(
                    enc_pair(l[k as int]),
                    cat_pairs(l.skip(k as int + 1)),
                    s@.skip(cur as int),
                );
                lemma_skip_skip(s@, cur as int, enc_pair(l[k as int]).len() as int);
            }
        }
        let (x, nq) = match read_pair(s, cur) {
            Some(p) => p,
            None => {
                return None;
            },
        };
        proof {
            vs = vs.push((x.0@, x.1));
        }
        acc.push(x);
        proof {
            assert(vs =~= acc@.map_values(|q: (String, Sign)| (q.0@, q.1)));
            lemma_subrange_split(s@, q0 as int, cur as int, nq as int);
            lemma_cat_pairs_push(before, vs.last());
            assert(s@.subrange(q0 as int, nq as int) == cat_pairs(vs));
            assert forall|l: Seq<(Seq<char>, Sign)>|
                l.len() <= u64::MAX && (forall|j: int| 0 <= j < l.len() ==> str_fits(#[trigger] l[j].0)) && #[trigger] prefix_of(enc_pairs(l), suffix) implies vs
                == l.take(k as int + 1) && prefix_of(
                cat_pairs(l.skip(k as int + 1)),
                s@.skip(nq as int),
            ) by {
                assert(str_fits(l[k as int].0));
                assert(vs.last() =~= l[k as int]);
                assert(l.take(k as int).push(l[k as int]) =~= l.take(k as int + 1));
            }
        }
        cur = nq;
        k = k + 1;
    }
    proof {
        lemma_subrange_split(s@, pos as int, q0 as int, cur as int);
        assert(vs.len() == count as nat);
        assert(s@.subrange(pos as int, cur as int) == enc_pairs(vs));
        assert forall|l: Seq<(Seq<char>, Sign)>|
            l.len() <= u64::MAX && (forall|j: int| 0 <= j < l.len() ==> str_fits(#[trigger] l[j].0)) && #[trigger] prefix_of(enc_pairs(l), suffix) implies vs == l && cur
            == pos + enc_pairs(l).len() by {
            assert(l.take(count as int) =~= l);
            assert(s@.subrange(pos as int, cur as int).len() == cur - pos);
        }
    }
    Some((acc, cur))
}

/// Reads one reaction record.
#[verifier::rlimit(100)]
fn read_reaction(s: &Vec<char>, pos: usize) -> (r: Option<(Reaction, usize)>)
    requires
        pos <= s@.len(),
    ensures
        r matches Some(p) ==> pos <= p.1 <= s@.len() && s@.subrange(pos as int, p.1 as int)
            == enc_reaction(p.0@),
        forall|v: ReactionV|
            reaction_fits(v) && #[trigger] prefix_of(enc_reaction(v), s@.skip(pos as int)) ==> (
            r matches Some(p) && p.0@ == v && p.1 == pos + enc_reaction(v).len()),
{
    let ghost suffix = s@.skip(pos as int);
    proof {
        assert forall|v: ReactionV|
            reaction_fits(v) && #[trigger] prefix_of(enc_reaction(v), suffix) implies {
            let p1 = enc_str(v.expr_text);
            let p2 = enc_str(v.numeric_expr);
            let p3 = enc_pairs(v.inputs);
            let p4 = enc_pairs(v.outputs);
            let p5 = enc_u64(v.rate);
            let p6 = enc_strs(v.parameters);
            &&& prefix_of(p1, suffix)
            &&& prefix_of(p2, s@.skip(pos + p1.len()))
            &&& prefix_of(p3, s@.skip(pos + p1.len() + p2.len()))
            &&& prefix_of(p4, s@.skip(pos + p1.len() + p2.len() + p3.len()))
            &&& prefix_of(p5, s@.skip(pos + p1.len() + p2.len() + p3.len() + p4.len()))
            &&& prefix_of(p6, s@.skip(pos + p1.len() + p2.len() + p3.len() + p4.len() + p5.len()))
        } by {
            let p1 = enc_str(v.expr_text);
            let p2 = enc_str(v.numeric_expr);
            let p3 = enc_pairs(v.inputs);
            let p4 = enc_pairs(v.outputs);
            let p5 = enc_u64(v.rate);
            let p6 = enc_strs(v.parameters);
            assert(enc_reaction(v) =~= p1 + (p2 + (p3 + (p4 + (p5 + p6)))));
            lemma_prefix_parts(p1, p2 + (p3 + (p4 + (p5 + p6))), suffix);
            lemma_skip_skip(s@, pos as int, p1.len() as int);
            lemma_prefix_parts(p2, p3 + (p4 + (p5 + p6)), s@.skip(pos + p1.len()));
            lemma_skip_skip(s@, pos + p1.len(), p2.len() as int);
            lemma_prefix_parts(p3, p4 + (p5 + p6), s@.skip(pos + p1.len() + p2.len()));
            lemma_skip_skip(s@, pos + p1.len() + p2.len(), p3.len() as int);
            lemma_prefix_parts(p4, p5 + p6, s@.skip(pos + p1.len() + p2.len() + p3.len()));
            lemma_skip_skip(s@, pos + p1.len() + p2.len() + p3.len(), p4.len() as int);
            lemma_prefix_parts(p5, p6, s@.skip(pos + p1.len() + p2.len() + p3.len() + p4.len()));
            lemma_skip_skip(s@, pos + p1.len() + p2.len() + p3.len() + p4.len(), p5.len() as int);
        }
    }
    let (expr_text, q1) = match read_str(s, pos) {
        Some(p) => p,
        None => {
            return None;
        },
    };
    let (numeric_expr, q2) = match read_str(s, q1) {
        Some(p) => p,
        None => {
            return None;
        },
    };
    let (inputs, q3) = match read_pairs(s, q2) {
        Some(p) => p,
        None => {
            return None;
        },
    };
    let (outputs, q4) = match read_pairs(s, q3) {
        Some(p) => p,
        None => {
            return None;
        },
    };
    let (rate, q5) = match read_u64(s, q4) {
        Some(p) => p,
        None => {
            return None;
        },
    };
    let (parameters, q6) = match read_strs(s, q5) {
        Some(p) => p,
        None => {
            return None;
        },
    };
    let res = Reaction { expr_text, numeric_expr, inputs, outputs, rate, parameters };
    proof {
        lemma_subrange_split(s@, pos as int, q1 as int, q2 as int);
        lemma_subrange_split(s@, pos as int, q2 as int, q3 as int);
        lemma_subrange_split(s@, pos as int, q3 as int, q4 as int);
        lemma_subrange_split(s@, pos as int, q4 as int, q5 as int);
        lemma_subrange_split(s@, pos as int, q5 as int, q6 as int);
        assert(s@.subrange(pos as int, q6 as int) =~= enc_reaction(res@));
        assert forall|v: ReactionV|
            reaction_fits(v) && #[trigger] prefix_of(enc_reaction(v), suffix) implies res@ == v
            && q6 == pos + enc_reaction(v).len() by {
            assert(res@ =~= v);
        }
    }
    Some((res, q6))
}

/// Reads one node.
#[verifier::rlimit(100)]
fn read_node(s: &Vec<char>, pos: usize) -> (r: Option<(Node, usize)>)
    requires
        pos <= s@.len(),
    ensures
        r matches Some(p) ==> pos <= p.1 <= s@.len() && s@.subrange(pos as int, p.1 as int)
            == enc_node(p.0@),
        forall|v: NodeV|
            node_fits(v) && #[trigger] prefix_of(enc_node(v), s@.skip(pos as int)) ==> (
            r matches Some(p) && p.0@ == v && p.1 == pos + enc_node(v).len()),
{
    let ghost suffix = s@.skip(pos as int);
    proof {
        assert forall|v: NodeV|
            node_fits(v) && #[trigger] prefix_of(enc_node(v), suffix) implies {
            let p1 = enc_u64(v.id);
            let p2 = enc_node_type(v.node_type);
            let p3 = enc_bool(v.active);
            let p4 = enc_str(v.name);
            let p5 = enc_str(v.description);
            let p6 = enc_ids(v.input_links);
            let p7 = enc_ids(v.output_links);
            &&& prefix_of(p1, suffix)
            &&& prefix_of(p2, s@.skip(pos + p1.len()))
            &&& prefix_of(p3, s@.skip(pos + p1.len() + p2.len()))
            &&& prefix_of(p4, s@.skip(pos + p1.len() + p2.len() + p3.len()))
            &&& prefix_of(p5, s@.skip(pos + p1.len() + p2.len() + p3.len() + p4.len()))
            &&& prefix_of(p6, s@.skip(pos + p1.len() + p2.len() + p3.len() + p4.len() + p5.len()))
            &&& prefix_of(
                p7,
                s@.skip(pos + p1.len() + p2.len() + p3.len() + p4.len() + p5.len() + p6.len()),
            )
        } by {
            let p1 = enc_u64(v.id);
            let p2 = enc_node_type(v.node_type);
            let p3 = enc_bool(v.active);
            let p4 = enc_str(v.name);
            let p5 = enc_str(v.description);
            let p6 = enc_ids(v.input_links);
            let p7 = enc_ids(v.output_links);
            assert(enc_node(v) =~= p1 + (p2 + (p3 + (p4 + (p5 + (p6 + p7))))));
            lemma_prefix_parts(p1, p2 + (p3 + (p4 + (p5 + (p6 + p7)))), suffix);
            lemma_skip_skip(s@, pos as int, p1.len() as int);
            lemma_prefix_parts(p2, p3 + (p4 + (p5 + (p6 + p7))), s@.skip(pos + p1.len()));
            lemma_skip_skip(s@, pos + p1.len(), p2.len() as int);
            lemma_prefix_parts(p3, p4 + (p5 + (p6 + p7)), s@.skip(pos + p1.len() + p2.len()));
            lemma_skip_skip(s@, pos + p1.len() + p2.len(), p3.len() as int);
            lemma_prefix_parts(p4, p5 + (p6 + p7), s@.skip(pos + p1.len() + p2.len() + p3.len()));
            lemma_skip_skip(s@, pos + p1.len() + p2.len() + p3.len(), p4.len() as int);
            lemma_prefix_parts(
                p5,
                p6 + p7,
                s@.skip(pos + p1.len() + p2.len() + p3.len() + p4.len()),
            );
            lemma_skip_skip(s@, pos + p1.len() + p2.len() + p3.len() + p4.len(), p5.len() as int);
            lemma_prefix_parts(
                p6,
                p7,
                s@.skip(pos + p1.len() + p2.len() + p3.len() + p4.len() + p5.len()),
            );
            lemma_skip_skip(
                s@,
                pos + p1.len() + p2.len() + p3.len() + p4.len() + p5.len(),
                p6.len() as int,
            );
        }
    }
    let (id, q1) = match read_u64(s, pos) {
        Some(p) => p,
        None => {
            return None;
        },
    };
    let (node_type, q2) = match read_node_type(s, q1) {
        Some(p) => p,
        None => {
            return None;
        },
    };
    let (active, q3) = match read_bool(s, q2) {
        Some(p) => p,
        None => {
            return None;
        },
    };
    let (name, q4) = match read_str(s, q3) {
        Some(p) => p,
        None => {
            return None;
        },
    };
    let (description, q5) = match read_str(s, q4) {
        Some(p) => p,
        None => {
            return None;
        },
    };
    let (input_links, q6) = match read_ids(s, q5) {
        Some(p) => p,
        None => {
            return None;
        },
    };
    let (output_links, q7) = match read_ids(s, q6) {
        Some(p) => p,
        None => {
            return None;
        },
    };
    let res = Node { id, node_type, active, name, description, input_links, output_links };
    proof {
        lemma_subrange_split(s@, pos as int, q1 as int, q2 as int);
        lemma_subrange_split(s@, pos as int, q2 as int, q3 as int);
        lemma_subrange_split(s@, pos as int, q3 as int, q4 as int);
        lemma_subrange_split(s@, pos as int, q4 as int, q5 as int);
        lemma_subrange_split(s@, pos as int, q5 as int, q6 as int);
        lemma_subrange_split(s@, pos as int, q6 as int, q7 as int);
        assert(s@.subrange(pos as int, q7 as int) =~= enc_node(res@));
        assert forall|v: NodeV|
            node_fits(v) && #[trigger] prefix_of(enc_node(v), suffix) implies res@ == v && q7 == pos
            + enc_node(v).len() by {
            assert(res@ =~= v);
        }
    }
    Some((res, q7))
}

/// The nine tokens of an edge stand one after the other from `pos` on.
pub open spec fn edge_parts_at(s: Seq<char>, pos: int, v: EdgeV) -> bool {
    let p1 = enc_u64(v.id);
    let p2 = enc_bool(v.active);
    let p3 = enc_u64(v.src);
    let p4 = enc_u64(v.dest);
    let p5 = enc_sign(v.signs.0);
    let p6 = enc_sign(v.signs.1);
    let p7 = enc_u64(v.value);
    let p8 = enc_link_type(v.link_type);
    let p9 = enc_reaction(v.expression);
    &&& prefix_of(p1, s.skip(pos))
    &&& prefix_of(p2, s.skip(pos + p1.len()))
    &&& prefix_of(p3, s.skip(pos + p1.len() + p2.len()))
    &&& prefix_of(p4, s.skip(pos + p1.len() + p2.len() + p3.len()))
    &&& prefix_of(p5, s.skip(pos + p1.len() + p2.len() + p3.len() + p4.len()))
    &&& prefix_of(p6, s.skip(pos + p1.len() + p2.len() + p3.len() + p4.len() + p5.len()))
    &&& prefix_of(
        p7,
        s.skip(pos + p1.len() + p2.len() + p3.len() + p4.len() + p5.len() + p6.len()),
    )
    &&& prefix_of(
        p8,
        s.skip(pos + p1.len() + p2.len() + p3.len() + p4.len() + p5.len() + p6.len() + p7.len()),
    )
    &&& prefix_of(
        p9,
        s.skip(
            pos + p1.len() + p2.len() + p3.len() + p4.len() + p5.len() + p6.len() + p7.len()
                + p8.len(),
        ),
    )
}

/// An edge token at `pos` splits into its nine parts.
#[verifier::rlimit(100)]
proof fn lemma_edge_decompose(s: Seq<char>, pos: int, v: EdgeV)
    requires
        0 <= pos <= s.len(),
        prefix_of(enc_edge(v), s.skip(pos)),
    ensures
        edge_parts_at(s, pos, v),
{
    let suffix = s.skip(pos);
    let p1 = enc_u64(v.id);
    let p2 = enc_bool(v.active);
    let p3 = enc_u64(v.src);
    let p4 = enc_u64(v.dest);
    let p5 = enc_sign(v.signs.0);
    let p6 = enc_sign(v.signs.1);
    let p7 = enc_u64(v.value);
    let p8 = enc_link_type(v.link_type);
    let p9 = enc_reaction(v.expression);
    assert(enc_edge(v) =~= p1 + (p2 + (p3 + (p4 + (p5 + (p6 + (p7 + (p8 + p9))))))));
    lemma_prefix_parts(p1, p2 + (p3 + (p4 + (p5 + (p6 + (p7 + (p8 + p9)))))), suffix);
    lemma_skip_skip(s, pos, p1.len() as int);
    lemma_prefix_parts(p2, p3 + (p4 + (p5 + (p6 + (p7 + (p8 + p9))))), s.skip(pos + p1.len()));
    lemma_skip_skip(s, pos + p1.len(), p2.len() as int);
    lemma_prefix_parts(
        p3,
        p4 + (p5 + (p6 + (p7 + (p8 + p9)))),
        s.skip(pos + p1.len() + p2.len()),
    );
    lemma_skip_skip(s, pos + p1.len() + p2.len(), p3.len() as int);
    lemma_prefix_parts(
        p4,
        p5 + (p6 + (p7 + (p8 + p9))),
        s.skip(pos + p1.len() + p2.len() + p3.len()),
    );
    lemma_skip_skip(s, pos + p1.len() + p2.len() + p3.len(), p4.len() as int);
    lemma_prefix_parts(
        p5,
        p6 + (p7 + (p8 + p9)),
        s.skip(pos + p1.len() + p2.len() + p3.len() + p4.len()),
    );
    lemma_skip_skip(s, pos + p1.len() + p2.len() + p3.len() + p4.len(), p5.len() as int);
    lemma_prefix_parts(
        p6,
        p7 + (p8 + p9),
        s.skip(pos + p1.len() + p2.len() + p3.len() + p4.len() + p5.len()),
    );
    lemma_skip_skip(
        s,
        pos + p1.len() + p2.len() + p3.len() + p4.len() + p5.len(),
        p6.len() as int,
    );
    lemma_prefix_parts(
        p7,
        p8 + p9,
        s.skip(pos + p1.len() + p2.len() + p3.len() + p4.len() + p5.len() + p6.len()),
    );
    lemma_skip_skip(
        s,
        pos + p1.len() + p2.len() + p3.len() + p4.len() + p5.len() + p6.len(),
        p7.len() as int,
    );
    lemma_prefix_parts(
        p8,
        p9,
        s.skip(pos + p1.len() + p2.len() + p3.len() + p4.len() + p5.len() + p6.len() + p7.len()),
    );
    lemma_skip_skip(
        s,
        pos + p1.len() + p2.len() + p3.len() + p4.len() + p5.len() + p6.len() + p7.len(),
        p8.len() as int,
    );
}

/// Reads one edge.
#[verifier::rlimit(100)]
fn read_edge(s: &Vec<char>, pos: usize) -> (r: Option<(Edge, usize)>)
    requires
        pos <= s@.len(),
    ensures
        r matches Some(p) ==> pos <= p.1 <= s@.len() && s@.subrange(pos as int, p.1 as int)
            == enc_edge(p.0@),
        forall|v: EdgeV|
            edge_fits(v) && #[trigger] prefix_of(enc_edge(v), s@.skip(pos as int)) ==> (
            r matches Some(p) && p.0@ == v && p.1 == pos + enc_edge(v).len()),
{
    let ghost suffix = s@.skip(pos as int);
    proof {
        assert forall|v: EdgeV|
            edge_fits(v) && #[trigger] prefix_of(enc_edge(v), suffix) implies edge_parts_at(
            s@,
            pos as int,
            v,
        ) by {
            lemma_edge_decompose(s@, pos as int, v);
        }
    }
    let (id, q1) = match read_u64(s, pos) {
        Some(p) => p,
        None => {
            return None;
        },
    };
    let (active, q2) = match read_bool(s, q1) {
        Some(p) => p,
        None => {
            return None;
        },
    };
    let (src, q3) = match read_u64(s, q2) {
        Some(p) => p,
        None => {
            return None;
        },
    };
    let (dest, q4) = match read_u64(s, q3) {
        Some(p) => p,
        None => {
            return None;
        },
    };
    let (sign0, q5) = match read_sign(s, q4) {
        Some(p) => p,
        None => {
            return None;
        },
    };
    let (sign1, q6) = match read_sign(s, q5) {
        Some(p) => p,
        None => {
            return None;
        },
    };
    let (value, q7) = match read_u64(s, q6) {
        Some(p) => p,
        None => {
            return None;
        },
    };
    let (link_type, q8) = match read_link_type(s, q7) {
        Some(p) => p,
        None => {
            return None;
        },
    };
    let (expression, q9) = match read_reaction(s, q8) {
        Some(p) => p,
        None => {
            return None;
        },
    };
    let res = Edge { id, active, src, dest, signs: (sign0, sign1), value, link_type, expression };
    proof {
        lemma_subrange_split(s@, pos as int, q1 as int, q2 as int);
        lemma_subrange_split(s@, pos as int, q2 as int, q3 as int);
        lemma_subrange_split(s@, pos as int, q3 as int, q4 as int);
        lemma_subrange_split(s@, pos as int, q4 as int, q5 as int);
        lemma_subrange_split(s@, pos as int, q5 as int, q6 as int);
        lemma_subrange_split(s@, pos as int, q6 as int, q7 as int);
        lemma_subrange_split(s@, pos as int, q7 as int, q8 as int);
        lemma_subrange_split(s@, pos as int, q8 as int, q9 as int);
        assert(s@.subrange(pos as int, q9 as int) =~= enc_edge(res@));
        assert forall|v: EdgeV|
            edge_fits(v) && #[trigger] prefix_of(enc_edge(v), suffix) implies res@ == v && q9 == pos
            + enc_edge(v).len() by {
            assert(res@ =~= v);
        }
    }
    Some((res, q9))
}

/// Reads the node registry.
fn read_nodes(s: &Vec<char>, pos: usize) -> (r: Option<(Vec<Node>, usize)>)
    requires
        pos <= s@.len(),
    ensures
        r matches Some(p) ==> pos <= p.1 <= s@.len() && s@.subrange(pos as int, p.1 as int)
            == enc_nodes(p.0@.map_values(|n: Node| n@)),
        forall|l: Seq<NodeV>|
            l.len() <= u64::MAX && (forall|j: int| 0 <= j < l.len() ==> node_fits(#[trigger] l[j]))
                && #[trigger] prefix_of(enc_nodes(l), s@.skip(pos as int)) ==> (r matches Some(p)
                && p.0@.map_values(|n: Node| n@) == l && p.1 == pos + enc_nodes(l).len()),
{
    let ghost suffix = s@.skip(pos as int);
    proof {
        assert forall|l: Seq<NodeV>|
            l.len() <= u64::MAX && #[trigger] prefix_of(enc_nodes(l), suffix) implies prefix_of(
            enc_u64((l.len() as u64)),
            suffix,
        ) && prefix_of(cat_nodes(l), s@.skip(pos + enc_nat(l.len()).len())) by {
            lemma_prefix_parts(enc_nat(l.len()), cat_nodes(l), suffix);
            lemma_skip_skip(s@, pos as int, enc_nat(l.len()).len() as int);
            assert((l.len() as u64) as nat == l.len());
        }
    }
    let (count, q0) = match read_u64(s, pos) {
        Some(p) => p,
        None => {
            return None;
        },
    };
    let mut acc: Vec<Node> = Vec::new();
    let ghost vs = Seq::<NodeV>::empty();
    let mut cur: usize = q0;
    let mut k: u64 = 0;
    proof {
        assert(s@.subrange(q0 as int, q0 as int) =~= Seq::<char>::empty());
        assert(cat_nodes(vs) =~= Seq::<char>::empty());
        assert(acc@.map_values(|n: Node| n@) =~= vs);
        assert forall|l: Seq<NodeV>|
            l.len() <= u64::MAX && #[trigger] prefix_of(enc_nodes(l), suffix) implies l.len()
            == count as nat && vs == l.take(0) && prefix_of(cat_nodes(l.skip(0)), s@.skip(q0 as int))
            by {
            assert((l.len() as u64) as nat == l.len());
            assert(l.take(0) =~= vs);
            assert(l.skip(0) =~= l);
        }
    }
    while k < count
        invariant
            k <= count,
            pos < q0 <= cur <= s@.len(),
            suffix == s@.skip(pos as int),
            vs.len() == k as nat,
            vs == acc@.map_values(|n: Node| n@),
            s@.subrange(pos as int, q0 as int) == enc_u64(count),
            s@.subrange(q0 as int, cur as int) == cat_nodes(vs),
            forall|l: Seq<NodeV>|
                l.len() <= u64::MAX && (forall|j: int|
                    0 <= j < l.len() ==> node_fits(#[trigger] l[j])) && #[trigger] prefix_of(
                    enc_nodes(l),
                    suffix,
                ) ==> {
                    &&& l.len() == count as nat
                    &&& vs == l.take(k as int)
                    &&& prefix_of(cat_nodes(l.skip(k as int)), s@.skip(cur as int))
                },
        decreases count - k,
    {
        let ghost before = vs;
        proof {
            assert forall|l: Seq<NodeV>|
                l.len() <= u64::MAX && (forall|j: int|
                    0 <= j < l.len() ==> node_fits(#[trigger] l[j])) && #[trigger] prefix_of(
                    enc_nodes(l),
                    suffix,
                ) implies prefix_of(enc_node(l[k as int]), s@.skip(cur as int)) && prefix_of(
                cat_nodes(l.skip(k as int + 1)),
                s@.skip(cur + enc_node(l[k as int]).len()),
            ) by {
                lemma_cat_nodes_skip(l, k as int);
                lemma_prefix_parts(
                    enc_node(l[k as int]),
                    cat_nodes(l.skip(k as int + 1)),
                    s@.skip(cur as int),
                );
                lemma_skip_skip(s@, cur as int, enc_node(l[k as int]).len() as int);
            }
        }
        let (x, nq) = match read_node(s, cur) {
            Some(p) => p,
            None => {
                return None;
            },
        };
        proof {
            vs = vs.push(x@);
        }
        acc.push(x);
        proof {
            assert(vs =~= acc@.map_values(|n: Node| n@));
            lemma_subrange_split(s@, q0 as int, cur as int, nq as int);
            lemma_cat_nodes_push(before, vs.last());
            assert(s@.subrange(q0 as int, nq as int) == cat_nodes(vs));
            assert forall|l: Seq<NodeV>|
                l.len() <= u64::MAX && (forall|j: int|
                    0 <= j < l.len() ==> node_fits(#[trigger] l[j])) && #[trigger] prefix_of(
                    enc_nodes(l),
                    suffix,
                ) implies vs == l.take(k as int + 1) && prefix_of(
                cat_nodes(l.skip(k as int + 1)),
                s@.skip(nq as int),
            ) by {
                assert(node_fits(l[k as int]));
                assert(vs.last() == l[k as int]);
                assert(l.take(k as int).push(l[k as int]) =~= l.take(k as int + 1));
            }
        }
        cur = nq;
        k = k + 1;
    }
    proof {
        lemma_subrange_split(s@, pos as int, q0 as int, cur as int);
        assert(vs.len() == count as nat);
        assert(s@.subrange(pos as int, cur as int) == enc_nodes(vs));
        assert forall|l: Seq<NodeV>|
            l.len() <= u64::MAX && (forall|j: int| 0 <= j < l.len() ==> node_fits(#[trigger] l[j]))
                && #[trigger] prefix_of(enc_nodes(l), suffix) implies vs == l && cur == pos
            + enc_nodes(l).len() by {
            assert(l.take(count as int) =~= l);
            assert(s@.subrange(pos as int, cur as int).len() == cur - pos);
        }
    }
    Some((acc, cur))
}

/// Reads the edge registry.
fn read_edges(s: &Vec<char>, pos: usize) -> (r: Option<(Vec<Edge>, usize)>)
    requires
        pos <= s@.len(),
    ensures
        r matches Some(p) ==> pos <= p.1 <= s@.len() && s@.subrange(pos as int, p.1 as int)
            == enc_edges(p.0@.map_values(|e: Edge| e@)),
        forall|l: Seq<EdgeV>|
            l.len() <= u64::MAX && (forall|j: int| 0 <= j < l.len() ==> edge_fits(#[trigger] l[j]))
                && #[trigger] prefix_of(enc_edges(l), s@.skip(pos as int)) ==> (r matches Some(p)
                && p.0@.map_values(|e: Edge| e@) == l && p.1 == pos + enc_edges(l).len()),
{
    let ghost suffix = s@.skip(pos as int);
    proof {
        assert forall|l: Seq<EdgeV>|
            l.len() <= u64::MAX && #[trigger] prefix_of(enc_edges(l), suffix) implies prefix_of(
            enc_u64((l.len() as u64)),
            suffix,
        ) && prefix_of(cat_edges(l), s@.skip(pos + enc_nat(l.len()).len())) by {
            lemma_prefix_parts(enc_nat(l.len()), cat_edges(l), suffix);
            lemma_skip_skip(s@, pos as int, enc_nat(l.len()).len() as int);
            assert((l.len() as u64) as nat == l.len());
        }
    }
    let (count, q0) = match read_u64(s, pos) {
        Some(p) => p,
        None => {
            return None;
        },
    };
    let mut acc: Vec<Edge> = Vec::new();
    let ghost vs = Seq::<EdgeV>::empty();
    let mut cur: usize = q0;
    let mut k: u64 = 0;
    proof {
        assert(s@.subrange(q0 as int, q0 as int) =~= Seq::<char>::empty());
        assert(cat_edges(vs) =~= Seq::<char>::empty());
        assert(acc@.map_values(|e: Edge| e@) =~= vs);
        assert forall|l: Seq<EdgeV>|
            l.len() <= u64::MAX && #[trigger] prefix_of(enc_edges(l), suffix) implies l.len()
            == count as nat && vs == l.take(0) && prefix_of(cat_edges(l.skip(0)), s@.skip(q0 as int))
            by {
            assert((l.len() as u64) as nat == l.len());
            assert(l.take(0) =~= vs);
            assert(l.skip(0) =~= l);
        }
    }
    while k < count
        invariant
            k <= count,
            pos < q0 <= cur <= s@.len(),
            suffix == s@.skip(pos as int),
            vs.len() == k as nat,
            vs == acc@.map_values(|e: Edge| e@),
            s@.subrange(pos as int, q0 as int) == enc_u64(count),
            s@.subrange(q0 as int, cur as int) == cat_edges(vs),
            forall|l: Seq<EdgeV>|
                l.len() <= u64::MAX && (forall|j: int|
                    0 <= j < l.len() ==> edge_fits(#[trigger] l[j])) && #[trigger] prefix_of(
                    enc_edges(l),
                    suffix,
                ) ==> {
                    &&& l.len() == count as nat
                    &&& vs == l.take(k as int)
                    &&& prefix_of(cat_edges(l.skip(k as int)), s@.skip(cur as int))
                },
        decreases count - k,
    {
        let ghost before = vs;
        proof {
            assert forall|l: Seq<EdgeV>|
                l.len() <= u64::MAX && (forall|j: int|
                    0 <= j < l.len() ==> edge_fits(#[trigger] l[j])) && #[trigger] prefix_of(
                    enc_edges(l),
                    suffix,
                ) implies prefix_of(enc_edge(l[k as int]), s@.skip(cur as int)) && prefix_of(
                cat_edges(l.skip(k as int + 1)),
                s@.skip(cur + enc_edge(l[k as int]).len()),
            ) by {
                lemma_cat_edges_skip(l, k as int);
                lemma_prefix_parts(
                    enc_edge(l[k as int]),
                    cat_edges(l.skip(k as int + 1)),
                    s@.skip(cur as int),
                );
                lemma_skip_skip(s@, cur as int, enc_edge(l[k as int]).len() as int);
            }
        }
        let (x, nq) = match read_edge(s, cur) {
            Some(p) => p,
            None => {
                return None;
            },
        };
        proof {
            vs = vs.push(x@);
        }
        acc.push(x);
        proof {
            assert(vs =~= acc@.map_values(|e: Edge| e@));
            lemma_subrange_split(s@, q0 as int, cur as int, nq as int);
            lemma_cat_edges_push(before, vs.last());
            assert(s@.subrange(q0 as int, nq as int) == cat_edges(vs));
            assert forall|l: Seq<EdgeV>|
                l.len() <= u64::MAX && (forall|j: int|
                    0 <= j < l.len() ==> edge_fits(#[trigger] l[j])) && #[trigger] prefix_of(
                    enc_edges(l),
                    suffix,
                ) implies vs == l.take(k as int + 1) && prefix_of(
                cat_edges(l.skip(k as int + 1)),
                s@.skip(nq as int),
            ) by {
                assert(edge_fits(l[k as int]));
                assert(vs.last() == l[k as int]);
                assert(l.take(k as int).push(l[k as int]) =~= l.take(k as int + 1));
            }
        }
        cur = nq;
        k = k + 1;
    }
    proof {
        lemma_subrange_split(s@, pos as int, q0 as int, cur as int);
        assert(vs.len() == count as nat);
        assert(s@.subrange(pos as int, cur as int) == enc_edges(vs));
        assert forall|l: Seq<EdgeV>|
            l.len() <= u64::MAX && (forall|j: int| 0 <= j < l.len() ==> edge_fits(#[trigger] l[j]))
                && #[trigger] prefix_of(enc_edges(l), suffix) implies vs == l && cur == pos
            + enc_edges(l).len() by {
            assert(l.take(count as int) =~= l);
            assert(s@.subrange(pos as int, cur as int).len() == cur - pos);
        }
    }
    Some((acc, cur))
}

/// Reads the parameter store.
fn read_params(s: &Vec<char>, pos: usize) -> (r: Option<(Vec<Parameter>, usize)>)
    requires
        pos <= s@.len(),
    ensures
        r matches Some(p) ==> pos <= p.1 <= s@.len() && s@.subrange(pos as int, p.1 as int)
            == enc_params(p.0@.map_values(|q: Parameter| q@)),
        forall|l: Seq<ParameterV>|
            l.len() <= u64::MAX && (forall|j: int|
                0 <= j < l.len() ==> str_fits(#[trigger] l[j].name)) && #[trigger] prefix_of(
                enc_params(l),
                s@.skip(pos as int),
            ) ==> (r matches Some(p) && p.0@.map_values(|q: Parameter| q@) == l && p.1 == pos
                + enc_params(l).len()),
{
    let ghost suffix = s@.skip(pos as int);
    proof {
        assert forall|l: Seq<ParameterV>|
            l.len() <= u64::MAX && #[trigger] prefix_of(enc_params(l), suffix) implies prefix_of(
            enc_u64((l.len() as u64)),
            suffix,
        ) && prefix_of(cat_params(l), s@.skip(pos + enc_nat(l.len()).len())) by {
            lemma_prefix_parts(enc_nat(l.len()), cat_params(l), suffix);
            lemma_skip_skip(s@, pos as int, enc_nat(l.len()).len() as int);
            assert((l.len() as u64) as nat == l.len());
        }
    }
    let (count, q0) = match read_u64(s, pos) {
        Some(p) => p,
        None => {
            return None;
        },
    };
    let mut acc: Vec<Parameter> = Vec::new();
    let ghost vs = Seq::<ParameterV>::empty();
    let mut cur: usize = q0;
    let mut k: u64 = 0;
    proof {
        assert(s@.subrange(q0 as int, q0 as int) =~= Seq::<char>::empty());
        assert(cat_params(vs) =~= Seq::<char>::empty());
        assert(acc@.map_values(|q: Parameter| q@) =~= vs);
        assert forall|l: Seq<ParameterV>|
            l.len() <= u64::MAX && #[trigger] prefix_of(enc_params(l), suffix) implies l.len()
            == count as nat && vs == l.take(0) && prefix_of(
            cat_params(l.skip(0)),
            s@.skip(q0 as int),
        ) by {
            assert((l.len() as u64) as nat == l.len());
            assert(l.take(0) =~= vs);
            assert(l.skip(0) =~= l);
        }
    }
    while k < count
        invariant
            k <= count,
            pos < q0 <= cur <= s@.len(),
            suffix == s@.skip(pos as int),
            vs.len() == k as nat,
            vs == acc@.map_values(|q: Parameter| q@),
            s@.subrange(pos as int, q0 as int) == enc_u64(count),
            s@.subrange(q0 as int, cur as int) == cat_params(vs),
            forall|l: Seq<ParameterV>|
                l.len() <= u64::MAX && (forall|j: int|
                    0 <= j < l.len() ==> str_fits(#[trigger] l[j].name)) && #[trigger] prefix_of(
                    enc_params(l),
                    suffix,
                ) ==> {
                    &&& l.len() == count as nat
                    &&& vs == l.take(k as int)
                    &&& prefix_of(cat_params(l.skip(k as int)), s@.skip(cur as int))
                },
        decreases count - k,
    {
        let ghost before = vs;
        proof {
            assert forall|l: Seq<ParameterV>|
                l.len() <= u64::MAX && (forall|j: int|
                    0 <= j < l.len() ==> str_fits(#[trigger] l[j].name)) && #[trigger] prefix_of(
                    enc_params(l),
                    suffix,
                ) implies prefix_of(enc_param(l[k as int]), s@.skip(cur as int)) && prefix_of(
                cat_params(l.skip(k as int + 1)),
                s@.skip(cur + enc_param(l[k as int]).len()),
            ) by {
                lemma_cat_params_skip(l, k as int);
                lemma_prefix_parts(
                    enc_param(l[k as int]),
                    cat_params(l.skip(k as int + 1)),
                    s@.skip(cur as int),
                );
                lemma_skip_skip(s@, cur as int, enc_param(l[k as int]).len() as int);
            }
        }
        let (x, nq) = match read_param(s, cur) {
            Some(p) => p,
            None => {
                return None;
            },
        };
        proof {
            vs = vs.push(x@);
        }
        acc.push(x);
        proof {
            assert(vs =~= acc@.map_values(|q: Parameter| q@));
            lemma_subrange_split(s@, q0 as int, cur as int, nq as int);
            lemma_cat_params_push(before, vs.last());
            assert(s@.subrange(q0 as int, nq as int) == cat_params(vs));
            assert forall|l: Seq<ParameterV>|
                l.len() <= u64::MAX && (forall|j: int|
                    0 <= j < l.len() ==> str_fits(#[trigger] l[j].name)) && #[trigger] prefix_of(
                    enc_params(l),
                    suffix,
                ) implies vs == l.take(k as int + 1) && prefix_of(
                cat_params(l.skip(k as int + 1)),
                s@.skip(nq as int),
            ) by {
                assert(str_fits(l[k as int].name));
                assert(vs.last() == l[k as int]);
                assert(l.take(k as int).push(l[k as int]) =~= l.take(k as int + 1));
            }
        }
        cur = nq;
        k = k + 1;
    }
    proof {
        lemma_subrange_split(s@, pos as int, q0 as int, cur as int);
        assert(vs.len() == count as nat);
        assert(s@.subrange(pos as int, cur as int) == enc_params(vs));
        assert forall|l: Seq<ParameterV>|
            l.len() <= u64::MAX && (forall|j: int|
                0 <= j < l.len() ==> str_fits(#[trigger] l[j].name)) && #[trigger] prefix_of(
                enc_params(l),
                suffix,
            ) implies vs == l && cur == pos + enc_params(l).len() by {
            assert(l.take(count as int) =~= l);
            assert(s@.subrange(pos as int, cur as int).len() == cur - pos);
        }
    }
    Some((acc, cur))
}

/// Whether a list of ids holds this id.
fn contains_id(l: &Vec<u64>, x: u64) -> (r: bool)
    ensures
        r == l@.contains(x),
{
    let mut i: usize = 0;
    while i < l.len()
        invariant
            i <= l@.len(),
            forall|k: int| 0 <= k < i ==> l@[k] != x,
        decreases l@.len() - i,
    {
        if l[i] == x {
            return true;
        }
        i = i + 1;
    }
    proof {
        if l@.contains(x) {
            let k = choose|k: int| 0 <= k < l@.len() && l@[k] == x;
        }
    }
    false
}

impl BioNet {
    /// Decides whether the node registry is sorted by id with pairwise
    /// distinct names.
    fn check_nodes_sorted_unique(&self) -> (r: bool)
        ensures
            r == (crate::net::nodes_sorted(self@.nodes) && crate::net::names_unique(self@.nodes)),
    {
        let n = self.nodes.len();
        let mut i: usize = 0;
        while i < n
            invariant
                i <= n,
                n == self@.nodes.len(),
                self@.nodes.len() == self.nodes@.len(),
                forall|a: int, b: int|
                    0 <= a < b < self@.nodes.len() && a < i ==> (#[trigger] self@.nodes[a].id)
                        < (#[trigger] self@.nodes[b].id) && self@.nodes[a].name
                        != self@.nodes[b].name,
            decreases n - i,
        {
            let mut j: usize = i + 1;
            while j < n
                invariant
                    i < j <= n,
                    n == self@.nodes.len(),
                    self@.nodes.len() == self.nodes@.len(),
                    forall|b: int|
                        i < b < j ==> (#[trigger] self@.nodes[b].id) > self@.nodes[i as int].id,
                    forall|b: int|
                        i < b < j ==> (#[trigger] self@.nodes[b].name) != self@.nodes[
                            i as int
                        ].name,
                decreases n - j,
            {
                if self.nodes[j].id <= self.nodes[i].id {
                    proof {
                        assert(self@.nodes[j as int].id <= self@.nodes[i as int].id);
                        assert(!crate::net::nodes_sorted(self@.nodes));
                    }
                    return false;
                }
                if str_eq_strings(&self.nodes[i].name, &self.nodes[j].name) {
                    proof {
                        assert(self@.nodes[i as int].name == self@.nodes[j as int].name);
                        assert(!crate::net::names_unique(self@.nodes));
                    }
                    return false;
                }
                proof {
                    assert(self@.nodes[j as int].id > self@.nodes[i as int].id);
                    assert(self@.nodes[j as int].name != self@.nodes[i as int].name);
                }
                j = j + 1;
            }
            i = i + 1;
        }
        true
    }

    /// Decides whether the edge registry is sorted by id.
    fn check_edges_sorted(&self) -> (r: bool)
        ensures
            r == crate::net::edges_sorted(self@.edges),
    {
        let n = self.edges.len();
        let mut i: usize = 0;
        while i < n
            invariant
                i <= n,
                n == self@.edges.len(),
                self@.edges.len() == self.edges@.len(),
                forall|a: int, b: int|
                    0 <= a < b < self@.edges.len() && a < i ==> (#[trigger] self@.edges[a].id)
                        < (#[trigger] self@.edges[b].id),
            decreases n - i,
        {
            let mut j: usize = i + 1;
            while j < n
                invariant
                    i < j <= n,
                    n == self@.edges.len(),
                    self@.edges.len() == self.edges@.len(),
                    forall|b: int|
                        i < b < j ==> (#[trigger] self@.edges[b].id) > self@.edges[i as int].id,
                decreases n - j,
            {
                if self.edges[j].id <= self.edges[i].id {
                    proof {
                        assert(self@.edges[j as int].id <= self@.edges[i as int].id);
                        assert(!crate::net::edges_sorted(self@.edges));
                    }
                    return false;
                }
                j = j + 1;
            }
            i = i + 1;
        }
        true
    }

    /// Decides whether every id sits below the generator.
    fn check_ids_below(&self) -> (r: bool)
        ensures
            r == ((forall|i: int|
                0 <= i < self@.nodes.len() ==> (#[trigger] self@.nodes[i].id) < self.gen_id)
                && (forall|i: int|
                0 <= i < self@.edges.len() ==> (#[trigger] self@.edges[i].id) < self.gen_id)),
    {
        let mut i: usize = 0;
        while i < self.nodes.len()
            invariant
                i <= self@.nodes.len(),
                self@.nodes.len() == self.nodes@.len(),
                forall|k: int| 0 <= k < i ==> (#[trigger] self@.nodes[k].id) < self.gen_id,
            decreases self@.nodes.len() - i,
        {
            if self.nodes[i].id >= self.gen_id {
                proof {
                    assert(self@.nodes[i as int].id >= self.gen_id);
                }
                return false;
            }
            i = i + 1;
        }
        let mut i: usize = 0;
        while i < self.edges.len()
            invariant
                i <= self@.edges.len(),
                self@.edges.len() == self.edges@.len(),
                forall|k: int|
                    0 <= k < self@.nodes.len() ==> (#[trigger] self@.nodes[k].id) < self.gen_id,
                forall|k: int| 0 <= k < i ==> (#[trigger] self@.edges[k].id) < self.gen_id,
            decreases self@.edges.len() - i,
        {
            if self.edges[i].id >= self.gen_id {
                proof {
                    assert(self@.edges[i as int].id >= self.gen_id);
                }
                return false;
            }
            i = i + 1;
        }
        true
    }

    /// Decides whether every edge is wired into both its endpoints.
    fn check_wired(&self) -> (r: bool)
        requires
            crate::net::nodes_sorted(self@.nodes),
        ensures
            r == crate::net::edges_wired(self@.nodes, self@.edges),
    {
        let mut k: usize = 0;
        while k < self.edges.len()
            invariant
                k <= self@.edges.len(),
                crate::net::nodes_sorted(self@.nodes),
                self@.edges.len() == self.edges@.len(),
                forall|a: int|
                    0 <= a < k ==> {
                        &&& crate::net::has_node(self@.nodes, #[trigger] self@.edges[a].src)
                        &&& crate::net::node_of(
                            self@.nodes,
                            self@.edges[a].src,
                        ).output_links.contains(self@.edges[a].id)
                        &&& crate::net::has_node(self@.nodes, self@.edges[a].dest)
                        &&& crate::net::node_of(
                            self@.nodes,
                            self@.edges[a].dest,
                        ).input_links.contains(self@.edges[a].id)
                    },
            decreases self@.edges.len() - k,
        {
            let src = self.edges[k].src;
            let dest = self.edges[k].dest;
            let eid = self.edges[k].id;
            let si = match self.find_node_index(src) {
                Some(i) => i,
                None => {
                    proof {
                        assert(!crate::net::has_node(self@.nodes, self@.edges[k as int].src));
                        assert(!crate::net::edges_wired(self@.nodes, self@.edges));
                    }
                    return false;
                },
            };
            let di = match self.find_node_index(dest) {
                Some(i) => i,
                None => {
                    proof {
                        assert(!crate::net::has_node(self@.nodes, self@.edges[k as int].dest));
                        assert(!crate::net::edges_wired(self@.nodes, self@.edges));
                    }
                    return false;
                },
            };
            proof {
                crate::net::lemma_node_at(self@.nodes, si as int);
                crate::net::lemma_node_at(self@.nodes, di as int);
            }
            if !contains_id(&self.nodes[si].output_links, eid) {
                proof {
                    assert(!crate::net::node_of(self@.nodes, self@.edges[k as int].src)
                        .output_links.contains(self@.edges[k as int].id));
                    assert(!crate::net::edges_wired(self@.nodes, self@.edges));
                }
                return false;
            }
            if !contains_id(&self.nodes[di].input_links, eid) {
                proof {
                    assert(!crate::net::node_of(self@.nodes, self@.edges[k as int].dest)
                        .input_links.contains(self@.edges[k as int].id));
                    assert(!crate::net::edges_wired(self@.nodes, self@.edges));
                }
                return false;
            }
            k = k + 1;
        }
        true
    }

    /// Decides whether every link list entry names a registered edge whose
    /// matching endpoint is the listing node.
    fn check_links_sound(&self) -> (r: bool)
        requires
            crate::net::edges_sorted(self@.edges),
        ensures
            r == crate::net::links_sound(self@.nodes, self@.edges),
    {
        let mut i: usize = 0;
        while i < self.nodes.len()
            invariant
                i <= self@.nodes.len(),
                crate::net::edges_sorted(self@.edges),
                self@.nodes.len() == self.nodes@.len(),
                forall|a: int, j: int|
                    0 <= a < i && 0 <= j < self@.nodes[a].output_links.len() ==> {
                        &&& crate::net::has_edge(
                            self@.edges,
                            #[trigger] self@.nodes[a].output_links[j],
                        )
                        &&& crate::net::edge_of(self@.edges, self@.nodes[a].output_links[j]).src
                            == self@.nodes[a].id
                    },
                forall|a: int, j: int|
                    0 <= a < i && 0 <= j < self@.nodes[a].input_links.len() ==> {
                        &&& crate::net::has_edge(
                            self@.edges,
                            #[trigger] self@.nodes[a].input_links[j],
                        )
                        &&& crate::net::edge_of(self@.edges, self@.nodes[a].input_links[j]).dest
                            == self@.nodes[a].id
                    },
            decreases self@.nodes.len() - i,
        {
            let nid = self.nodes[i].id;
            let mut j: usize = 0;
            while j < self.nodes[i].output_links.len()
                invariant
                    i < self@.nodes.len(),
                    j <= self@.nodes[i as int].output_links.len(),
                    crate::net::edges_sorted(self@.edges),
                    self@.nodes.len() == self.nodes@.len(),
                    nid == self@.nodes[i as int].id,
                    forall|q: int|
                        0 <= q < j ==> {
                            &&& crate::net::has_edge(
                                self@.edges,
                                #[trigger] self@.nodes[i as int].output_links[q],
                            )
                            &&& crate::net::edge_of(
                                self@.edges,
                                self@.nodes[i as int].output_links[q],
                            ).src == nid
                        },
                decreases self@.nodes[i as int].output_links.len() - j,
            {
                let eid = self.nodes[i].output_links[j];
                proof {
                    assert(eid == self@.nodes[i as int].output_links[j as int]);
                }
                match self.find_edge_index(eid) {
                    Some(ei) => {
                        proof {
                            crate::net::lemma_edge_at(self@.edges, ei as int);
                        }
                        if self.edges[ei].src != nid {
                            proof {
                                assert(crate::net::edge_of(
                                    self@.edges,
                                    self@.nodes[i as int].output_links[j as int],
                                ).src != self@.nodes[i as int].id);
                                assert(!crate::net::links_sound(self@.nodes, self@.edges));
                            }
                            return false;
                        }
                    },
                    None => {
                        proof {
                            assert(!crate::net::has_edge(
                                self@.edges,
                                self@.nodes[i as int].output_links[j as int],
                            ));
                            assert(!crate::net::links_sound(self@.nodes, self@.edges));
                        }
                        return false;
                    },
                }
                j = j + 1;
            }
            let mut j: usize = 0;
            while j < self.nodes[i].input_links.len()
                invariant
                    i < self@.nodes.len(),
                    j <= self@.nodes[i as int].input_links.len(),
                    crate::net::edges_sorted(self@.edges),
                    self@.nodes.len() == self.nodes@.len(),
                    nid == self@.nodes[i as int].id,
                    forall|q: int|
                        0 <= q < self@.nodes[i as int].output_links.len() ==> {
                            &&& crate::net::has_edge(
                                self@.edges,
                                #[trigger] self@.nodes[i as int].output_links[q],
                            )
                            &&& crate::net::edge_of(
                                self@.edges,
                                self@.nodes[i as int].output_links[q],
                            ).src == nid
                        },
                    forall|q: int|
                        0 <= q < j ==> {
                            &&& crate::net::has_edge(
                                self@.edges,
                                #[trigger] self@.nodes[i as int].input_links[q],
                            )
                            &&& crate::net::edge_of(
                                self@.edges,
                                self@.nodes[i as int].input_links[q],
                            ).dest == nid
                        },
                decreases self@.nodes[i as int].input_links.len() - j,
            {
                let eid = self.nodes[i].input_links[j];
                proof {
                    assert(eid == self@.nodes[i as int].input_links[j as int]);
                }
                match self.find_edge_index(eid) {
                    Some(ei) => {
                        proof {
                            crate::net::lemma_edge_at(self@.edges, ei as int);
                        }
                        if self.edges[ei].dest != nid {
                            proof {
                                assert(crate::net::edge_of(
                                    self@.edges,
                                    self@.nodes[i as int].input_links[j as int],
                                ).dest != self@.nodes[i as int].id);
                                assert(!crate::net::links_sound(self@.nodes, self@.edges));
                            }
                            return false;
                        }
                    },
                    None => {
                        proof {
                            assert(!crate::net::has_edge(
                                self@.edges,
                                self@.nodes[i as int].input_links[j as int],
                            ));
                            assert(!crate::net::links_sound(self@.nodes, self@.edges));
                        }
                        return false;
                    },
                }
                j = j + 1;
            }
            i = i + 1;
        }
        true
    }

    /// Decides whether no link list repeats an id.
    fn check_links_distinct(&self) -> (r: bool)
        ensures
            r == crate::net::links_distinct(self@.nodes),
    {
        let mut i: usize = 0;
        while i < self.nodes.len()
            invariant
                i <= self@.nodes.len(),
                self@.nodes.len() == self.nodes@.len(),
                forall|a: int, j1: int, j2: int|
                    0 <= a < i && 0 <= j1 < j2 < self@.nodes[a].output_links.len()
                        ==> #[trigger] self@.nodes[a].output_links[j1]
                        != #[trigger] self@.nodes[a].output_links[j2],
                forall|a: int, j1: int, j2: int|
                    0 <= a < i && 0 <= j1 < j2 < self@.nodes[a].input_links.len()
                        ==> #[trigger] self@.nodes[a].input_links[j1]
                        != #[trigger] self@.nodes[a].input_links[j2],
            decreases self@.nodes.len() - i,
        {
            if !pairwise_distinct(&self.nodes[i].output_links) {
                proof {
                    let l = self@.nodes[i as int].output_links;
                    let (j1, j2) = choose|j1: int, j2: int|
                        0 <= j1 < j2 < l.len() && l[j1] == l[j2];
                    assert(self@.nodes[i as int].output_links[j1]
                        == self@.nodes[i as int].output_links[j2]);
                    assert(!crate::net::links_distinct(self@.nodes));
                }
                return false;
            }
            if !pairwise_distinct(&self.nodes[i].input_links) {
                proof {
                    let l = self@.nodes[i as int].input_links;
                    let (j1, j2) = choose|j1: int, j2: int|
                        0 <= j1 < j2 < l.len() && l[j1] == l[j2];
                    assert(self@.nodes[i as int].input_links[j1]
                        == self@.nodes[i as int].input_links[j2]);
                    assert(!crate::net::links_distinct(self@.nodes));
                }
                return false;
            }
            i = i + 1;
        }
        true
    }

    /// Decides whether parameter names are pairwise distinct.
    fn check_params_unique(&self) -> (r: bool)
        ensures
            r == crate::net::param_names_unique(self@.parameters),
    {
        let n = self.parameters.len();
        let mut i: usize = 0;
        while i < n
            invariant
                i <= n,
                n == self@.parameters.len(),
                self@.parameters.len() == self.parameters@.len(),
                forall|a: int, b: int|
                    0 <= a < b < self@.parameters.len() && a < i ==> (
                    #[trigger] self@.parameters[a].name) != (#[trigger] self@.parameters[b].name),
            decreases n - i,
        {
            let mut j: usize = i + 1;
            while j < n
                invariant
                    i < j <= n,
                    n == self@.parameters.len(),
                    self@.parameters.len() == self.parameters@.len(),
                    forall|b: int|
                        i < b < j ==> (#[trigger] self@.parameters[b].name)
                            != self@.parameters[i as int].name,
                decreases n - j,
            {
                if str_eq_strings(&self.parameters[i].name, &self.parameters[j].name) {
                    proof {
                        assert(self@.parameters[i as int].name == self@.parameters[j as int].name);
                        assert(!crate::net::param_names_unique(self@.parameters));
                    }
                    return false;
                }
                j = j + 1;
            }
            i = i + 1;
        }
        true
    }

    /// Decides the whole structural invariant.
    pub fn check_content(&self) -> (r: bool)
        ensures
            r == content_inv(self@, self.gen_id),
    {
        if !self.check_nodes_sorted_unique() {
            return false;
        }
        if !self.check_edges_sorted() {
            return false;
        }
        if !self.check_ids_below() {
            return false;
        }
        if !self.check_wired() {
            return false;
        }
        if !self.check_links_sound() {
            return false;
        }
        if !self.check_links_distinct() {
            return false;
        }
        if !self.check_params_unique() {
            return false;
        }
        true
    }

    /// The next free id after the content: one past the highest id present,
    /// or zero for an empty network. Fails only when an id already uses the
    /// largest representable value.
    fn next_gen(&self) -> (r: Option<u64>)
        ensures
            r matches Some(g) ==> (forall|i: int|
                0 <= i < self@.nodes.len() ==> (#[trigger] self@.nodes[i].id) < g) && (forall|i: int|
                0 <= i < self@.edges.len() ==> (#[trigger] self@.edges[i].id) < g),
            r is None ==> (exists|i: int|
                0 <= i < self@.nodes.len() && (#[trigger] self@.nodes[i].id) == u64::MAX) || (
            exists|i: int| 0 <= i < self@.edges.len() && (#[trigger] self@.edges[i].id) == u64::MAX),
    {
        let mut g: u64 = 0;
        let mut i: usize = 0;
        while i < self.nodes.len()
            invariant
                i <= self@.nodes.len(),
                self@.nodes.len() == self.nodes@.len(),
                forall|k: int| 0 <= k < i ==> (#[trigger] self@.nodes[k].id) < g,
            decreases self@.nodes.len() - i,
        {
            if self.nodes[i].id == u64::MAX {
                proof {
                    assert(self@.nodes[i as int].id == u64::MAX);
                }
                return None;
            }
            if self.nodes[i].id >= g {
                g = self.nodes[i].id + 1;
            }
            i = i + 1;
        }
        let mut i: usize = 0;
        while i < self.edges.len()
            invariant
                i <= self@.edges.len(),
                self@.edges.len() == self.edges@.len(),
                forall|k: int|
                    0 <= k < self@.nodes.len() ==> (#[trigger] self@.nodes[k].id) < g,
                forall|k: int| 0 <= k < i ==> (#[trigger] self@.edges[k].id) < g,
            decreases self@.edges.len() - i,
        {
            if self.edges[i].id == u64::MAX {
                proof {
                    assert(self@.edges[i as int].id == u64::MAX);
                }
                return None;
            }
            if self.edges[i].id >= g {
                g = self.edges[i].id + 1;
            }
            i = i + 1;
        }
        Some(g)
    }

    /// Parses persisted text back into a network. The id generator is
    /// recomputed as one past the highest id present. Structurally invalid
    /// text is `Malformed`; text that parses but breaks the network
    /// invariant (or exhausts the id space) is `Inconsistent`. Decoding
    /// inverts encoding: for every well-formed network value, the encoding
    /// of that value decodes to an equal value, so a save/load round trip
    /// reproduces the node, edge and parameter content exactly.
    #[verifier::rlimit(100)]
    pub fn decode_net(s: &str) -> (r: Result<BioNet, NetError>)
        ensures
            r matches Ok(net) ==> net.inv() && s@ == enc_net(net@),
            forall|v: NetV|
                net_fits(v) && (exists|g: u64| content_inv(v, g)) && s@ == #[trigger] enc_net(v)
                    ==> (r matches Ok(net) && net@ == v),
            r matches Err(e) ==> (e is Malformed || e is Inconsistent),
    {
        let chars = str_chars(s);
        proof {
            assert(chars@.skip(0) =~= chars@);
            assert forall|v: NetV|
                net_fits(v) && (exists|g: u64| content_inv(v, g)) && s@ == enc_net(v) implies {
                let p1 = enc_str(v.name);
                let p2 = enc_nodes(v.nodes);
                let p3 = enc_edges(v.edges);
                let p4 = enc_params(v.parameters);
                &&& prefix_of(p1, chars@)
                &&& prefix_of(p2, chars@.skip(p1.len() as int))
                &&& prefix_of(p3, chars@.skip((p1.len() + p2.len()) as int))
                &&& prefix_of(p4, chars@.skip((p1.len() + p2.len() + p3.len()) as int))
                &&& chars@.len() == p1.len() + p2.len() + p3.len() + p4.len()
            } by {
                let p1 = enc_str(v.name);
                let p2 = enc_nodes(v.nodes);
                let p3 = enc_edges(v.edges);
                let p4 = enc_params(v.parameters);
                assert(chars@ =~= p1 + (p2 + (p3 + p4)));
                assert(prefix_of(p1 + (p2 + (p3 + p4)), chars@)) by {
                    assert(chars@.subrange(0, chars@.len() as int) =~= chars@);
                }
                lemma_prefix_parts(p1, p2 + (p3 + p4), chars@);
                lemma_skip_skip(chars@, 0, p1.len() as int);
                assert(chars@.skip(0) == chars@);
                lemma_prefix_parts(p2, p3 + p4, chars@.skip(p1.len() as int));
                lemma_skip_skip(chars@, p1.len() as int, p2.len() as int);
                lemma_prefix_parts(p3, p4, chars@.skip((p1.len() + p2.len()) as int));
                lemma_skip_skip(chars@, (p1.len() + p2.len()) as int, p3.len() as int);
            }
        }
        let (name, q1) = match read_str(&chars, 0) {
            Some(p) => p,
            None => {
                return Err(NetError::Malformed);
            },
        };
        let (nodes, q2) = match read_nodes(&chars, q1) {
            Some(p) => p,
            None => {
                return Err(NetError::Malformed);
            },
        };
        let (edges, q3) = match read_edges(&chars, q2) {
            Some(p) => p,
            None => {
                return Err(NetError::Malformed);
            },
        };
        let (parameters, q4) = match read_params(&chars, q3) {
            Some(p) => p,
            None => {
                return Err(NetError::Malformed);
            },
        };
        if q4 != chars.len() {
            return Err(NetError::Malformed);
        }
        let mut net = BioNet { name, gen_id: 0, nodes, edges, parameters };
        proof {
            lemma_subrange_split(chars@, 0, q1 as int, q2 as int);
            lemma_subrange_split(chars@, 0, q2 as int, q3 as int);
            lemma_subrange_split(chars@, 0, q3 as int, q4 as int);
            assert(chars@.subrange(0, q4 as int) =~= chars@);
            assert(s@ =~= enc_net(net@));
            assert forall|v: NetV|
                net_fits(v) && (exists|g: u64| content_inv(v, g)) && s@ == enc_net(v) implies
                #[trigger] net@ =~= v by {}
        }
        let g = match net.next_gen() {
            Some(g) => g,
            None => {
                proof {
                    assert forall|v: NetV|
                        !(net_fits(v) && (exists|g0: u64| content_inv(v, g0)) && s@ == enc_net(v))
                        by {
                        if net_fits(v) && (exists|g0: u64| content_inv(v, g0)) && s@ == enc_net(v) {
                            let g0 = choose|g0: u64| content_inv(v, g0);
                            assert(net@ =~= v);
                        }
                    }
                }
                return Err(NetError::Inconsistent);
            },
        };
        net.gen_id = g;
        if !net.check_content() {
            proof {
                assert forall|v: NetV|
                    !(net_fits(v) && (exists|g0: u64| content_inv(v, g0)) && s@ == enc_net(v)) by {
                    if net_fits(v) && (exists|g0: u64| content_inv(v, g0)) && s@ == enc_net(v) {
                        let g0 = choose|g0: u64| content_inv(v, g0);
                        assert(net@ =~= v);
                        assert(content_inv(net@, net.gen_id));
                    }
                }
            }
            return Err(NetError::Inconsistent);
        }
        proof {
            assert forall|v: NetV|
                net_fits(v) && (exists|g0: u64| content_inv(v, g0)) && s@ == enc_net(v) implies
                #[trigger] net@ == v by {
                assert(net@ =~= v);
            }
        }
        Ok(net)
    }
}

/// Whether a list of ids has pairwise distinct entries.
fn pairwise_distinct(l: &Vec<u64>) -> (r: bool)
    ensures
        r == (forall|j1: int, j2: int| 0 <= j1 < j2 < l@.len() ==> l@[j1] != l@[j2]),
{
    let n = l.len();
    let mut i: usize = 0;
    while i < n
        invariant
            i <= n,
            n == l@.len(),
            forall|j1: int, j2: int| 0 <= j1 < j2 < l@.len() && j1 < i ==> l@[j1] != l@[j2],
        decreases n - i,
    {
        let mut j: usize = i + 1;
        while j < n
            invariant
                i < j <= n,
                n == l@.len(),
                forall|b: int| i < b < j ==> l@[b] != l@[i as int],
            decreases n - j,
        {
            if l[j] == l[i] {
                return false;
            }
            j = j + 1;
        }
        i = i + 1;
    }
    true
}

/// String equality through views.
fn str_eq_strings(a: &String, b: &String) -> (r: bool)
    ensures
        r == (a@ == b@),
{
    crate::net::str_eq(a.as_str(), b.as_str())
}

impl BioNet {
    /// The persisted text of this network: every node, edge and parameter,
    /// and the network's name; the id generator is left out.
    #[verifier::rlimit(100)]
    pub fn encode_net(&self) -> (r: String)
        ensures
            r@ == enc_net(self@),
            net_fits(self@),
    {
        let mut out: Vec<char> = Vec::new();
        write_str(&mut out, self.name.as_str());
        let ghost nv = self@.nodes;
        write_u64(&mut out, self.nodes.len() as u64);
        let ghost base = out@;
        let mut i: usize = 0;
        while i < self.nodes.len()
            invariant
                i <= self.nodes@.len(),
                nv == self@.nodes,
                nv.len() == self.nodes@.len(),
                out@ == base + cat_nodes(nv.take(i as int)),
                forall|k: int| 0 <= k < i ==> node_fits(#[trigger] nv[k]),
            decreases self.nodes@.len() - i,
        {
            write_node(&mut out, &self.nodes[i]);
            proof {
                lemma_cat_nodes_push(nv.take(i as int), nv[i as int]);
                assert(nv.take(i as int).push(nv[i as int]) =~= nv.take(i + 1));
            }
            i = i + 1;
        }
        proof {
            assert(nv.take(nv.len() as int) =~= nv);
        }
        let ghost ev = self@.edges;
        write_u64(&mut out, self.edges.len() as u64);
        let ghost base2 = out@;
        let mut i: usize = 0;
        while i < self.edges.len()
            invariant
                i <= self.edges@.len(),
                ev == self@.edges,
                ev.len() == self.edges@.len(),
                out@ == base2 + cat_edges(ev.take(i as int)),
                forall|k: int| 0 <= k < i ==> edge_fits(#[trigger] ev[k]),
            decreases self.edges@.len() - i,
        {
            write_edge(&mut out, &self.edges[i]);
            proof {
                lemma_cat_edges_push(ev.take(i as int), ev[i as int]);
                assert(ev.take(i as int).push(ev[i as int]) =~= ev.take(i + 1));
            }
            i = i + 1;
        }
        proof {
            assert(ev.take(ev.len() as int) =~= ev);
        }
        let ghost pv = self@.parameters;
        write_u64(&mut out, self.parameters.len() as u64);
        let ghost base3 = out@;
        let mut i: usize = 0;
        while i < self.parameters.len()
            invariant
                i <= self.parameters@.len(),
                pv == self@.parameters,
                pv.len() == self.parameters@.len(),
                out@ == base3 + cat_params(pv.take(i as int)),
                forall|k: int| 0 <= k < i ==> str_fits(#[trigger] pv[k].name),
            decreases self.parameters@.len() - i,
        {
            write_param(&mut out, &self.parameters[i]);
            proof {
                lemma_cat_params_push(pv.take(i as int), pv[i as int]);
                assert(pv.take(i as int).push(pv[i as int]) =~= pv.take(i + 1));
            }
            i = i + 1;
        }
        proof {
            assert(pv.take(pv.len() as int) =~= pv);
            assert(out@ =~= enc_net(self@));
        }
        string_from_chars(&out)
    }
}

} // verus!
