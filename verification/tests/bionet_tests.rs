use bionet::model::{LinkType, Node, NodeType, Sign};
use bionet::net::{BioNet, NetError};

fn abc_net() -> (BioNet, Node, Node, Node) {
    let mut net = BioNet::new(String::from("abc"));
    let a = net.create_node(String::from("A")).unwrap();
    let b = net.create_node(String::from("B")).unwrap();
    let c = net.create_node(String::from("C")).unwrap();
    (net, a, b, c)
}

#[test]
fn signed_input_queries_scenario() {
    let (mut net, a, b, c) = abc_net();
    net.create_edge(a.id, b.id, (Sign::Neutral, Sign::Positive), LinkType::Unspecified).unwrap();
    net.create_edge(c.id, b.id, (Sign::Neutral, Sign::Negative), LinkType::Unspecified).unwrap();
    assert_eq!(net.get_nodes_with_positive_input_link(), vec![b.id]);
    assert_eq!(net.get_nodes_with_negative_input_link(), vec![b.id]);
    assert_eq!(net.get_nodes_without_positive_input_link(), vec![a.id, c.id]);
    assert_eq!(net.get_nodes_without_negative_input_link(), vec![a.id, c.id]);
    // B has no outgoing edge; A and C are the sources of the two edges, so
    // their output link lists are not empty.
    assert_eq!(net.get_nodes_without_output_links(), vec![b.id]);
}

#[test]
fn interaction_node_excluded_from_queries() {
    let mut net = BioNet::new(String::from("hub"));
    let x = net.create_node(String::from("X")).unwrap();
    let y = net.create_node(String::from("Y")).unwrap();
    let z = net.create_node(String::from("Z")).unwrap();
    let i = net.create_interaction(String::from("I")).unwrap();
    net.create_edge(x.id, i.id, (Sign::Neutral, Sign::Positive), LinkType::PositiveInteraction)
        .unwrap();
    net.create_edge(y.id, i.id, (Sign::Neutral, Sign::Positive), LinkType::PositiveInteraction)
        .unwrap();
    net.create_edge(i.id, z.id, (Sign::Neutral, Sign::Positive), LinkType::PositiveInteraction)
        .unwrap();
    assert_eq!(net.get_nodes_with_positive_input_link(), vec![z.id]);
    assert!(!net.get_nodes_with_negative_input_link().contains(&i.id));
    assert!(!net.get_nodes_without_positive_input_link().contains(&i.id));
    assert!(!net.get_nodes_without_negative_input_link().contains(&i.id));
    assert!(!net.get_nodes_without_output_links().contains(&i.id));
    assert!(!net.get_nodes_with_least_number_of_inputs().contains(&i.id));
    assert!(!net.get_nodes_with_least_number_of_outputs().contains(&i.id));
}

#[test]
fn missing_endpoint_leaves_registries_unchanged() {
    let (mut net, a, _b, _c) = abc_net();
    let nodes_before = net.nodes.len();
    let edges_before = net.edges.len();
    let r = net.create_edge(99, a.id, (Sign::Neutral, Sign::Neutral), LinkType::Unspecified);
    assert!(matches!(r, Err(NetError::MissingSource(99))));
    let r = net.create_edge(a.id, 98, (Sign::Neutral, Sign::Neutral), LinkType::Unspecified);
    assert!(matches!(r, Err(NetError::MissingDest(98))));
    assert_eq!(net.nodes.len(), nodes_before);
    assert_eq!(net.edges.len(), edges_before);
    for n in &net.nodes {
        assert!(n.input_links.is_empty());
        assert!(n.output_links.is_empty());
    }
}

#[test]
fn duplicate_name_rejected_without_mutation() {
    let (mut net, a, b, _c) = abc_net();
    net.create_edge(a.id, b.id, (Sign::Neutral, Sign::Positive), LinkType::Production).unwrap();
    let nodes_before = net.nodes.len();
    let edges_before = net.edges.len();
    let gen_before = net.gen_id;
    let r = net.create_node(String::from("A"));
    assert!(matches!(r, Err(NetError::DuplicateName(ref n)) if n == "A"));
    let r = net.create_interaction(String::from("B"));
    assert!(matches!(r, Err(NetError::DuplicateName(_))));
    assert_eq!(net.nodes.len(), nodes_before);
    assert_eq!(net.edges.len(), edges_before);
    assert_eq!(net.gen_id, gen_before);
    // the first node's wiring is untouched
    assert_eq!(net.nodes[0].output_links, vec![3]);
    assert_eq!(net.nodes[1].input_links, vec![3]);
}

#[test]
fn node_lookup_by_name_and_id() {
    let (net, _a, b, _c) = abc_net();
    assert_eq!(net.get_node_id("B"), Some(b.id));
    assert_eq!(net.get_node_id("missing"), None);
    assert_eq!(net.get_node_name(b.id), "B");
    assert_eq!(net.get_node_name(99), "");
}

#[test]
fn least_degree_queries() {
    let (mut net, a, b, _c) = abc_net();
    net.create_edge(a.id, b.id, (Sign::Neutral, Sign::Positive), LinkType::Unspecified).unwrap();
    let i = net.create_interaction(String::from("I")).unwrap();
    net.create_edge(b.id, i.id, (Sign::Neutral, Sign::Positive), LinkType::Unspecified).unwrap();
    // entity in-degrees: A 0, B 1, C 0; the interaction node is ignored
    assert_eq!(net.get_nodes_with_least_number_of_inputs(), vec![0, 2]);
    // entity out-degrees: A 1, B 1, C 0
    assert_eq!(net.get_nodes_with_least_number_of_outputs(), vec![2]);
}

#[test]
fn least_degree_queries_empty_without_entities() {
    let mut net = BioNet::new(String::from("only hubs"));
    net.create_interaction(String::from("I")).unwrap();
    assert_eq!(net.get_nodes_with_least_number_of_inputs(), Vec::<u64>::new());
    assert_eq!(net.get_nodes_with_least_number_of_outputs(), Vec::<u64>::new());
}

#[test]
fn partition_of_entities() {
    let (mut net, a, b, c) = abc_net();
    net.create_edge(a.id, b.id, (Sign::Neutral, Sign::Positive), LinkType::Unspecified).unwrap();
    net.create_edge(b.id, c.id, (Sign::Neutral, Sign::Negative), LinkType::Unspecified).unwrap();
    let withs = net.get_nodes_with_positive_input_link();
    let withouts = net.get_nodes_without_positive_input_link();
    for id in [a.id, b.id, c.id] {
        assert!(withs.contains(&id) != withouts.contains(&id));
    }
    for id in &withs {
        assert!(!withouts.contains(id));
    }
}

#[test]
fn parameters_replace_on_same_name() {
    let mut net = BioNet::new(String::from("params"));
    net.add_parameter(String::from("k1"), 0.05f64.to_bits());
    net.add_parameter(String::from("k2"), 0.1f64.to_bits());
    net.add_parameter(String::from("k1"), 0.2f64.to_bits());
    assert_eq!(net.parameters.len(), 2);
    assert_eq!(net.parameters[0].name, "k1");
    assert_eq!(f64::from_bits(net.parameters[0].value), 0.2);
    assert_eq!(net.parameters[1].name, "k2");
}

#[test]
fn create_parameters_last_entry_wins() {
    let mut net = BioNet::new(String::from("params"));
    net.add_parameter(String::from("old"), 1);
    net.create_parameters(vec![
        (String::from("k1"), 0.05f64.to_bits()),
        (String::from("k2"), 0.05f64.to_bits()),
        (String::from("k1"), 0.5f64.to_bits()),
    ]);
    assert_eq!(net.parameters.len(), 2);
    assert_eq!(net.parameters[0].name, "k1");
    assert_eq!(f64::from_bits(net.parameters[0].value), 0.5);
    assert_eq!(net.parameters[1].name, "k2");
}

#[test]
fn positive_interaction_motif_wiring() {
    let (mut net, a, b, c) = abc_net();
    net.create_positive_interaction(String::from("pi"), &a, &b, &c).unwrap();
    assert_eq!(net.nodes.len(), 4);
    assert_eq!(net.edges.len(), 3);
    assert_eq!(net.gen_id, 7);
    let hub = &net.nodes[3];
    assert_eq!(hub.id, 3);
    assert_eq!(hub.node_type, NodeType::Interaction);
    assert_eq!(hub.name, "pi");
    assert_eq!(hub.input_links, vec![4, 5]);
    assert_eq!(hub.output_links, vec![6]);
    assert_eq!(net.edges[0].src, a.id);
    assert_eq!(net.edges[0].dest, 3);
    assert_eq!(net.edges[0].signs, (Sign::Neutral, Sign::Positive));
    assert_eq!(net.edges[2].src, 3);
    assert_eq!(net.edges[2].dest, c.id);
    assert_eq!(net.edges[2].link_type, LinkType::PositiveInteraction);
    assert_eq!(net.get_nodes_with_positive_input_link(), vec![c.id]);
}

#[test]
fn negative_interaction_motif_output_sign() {
    let (mut net, a, b, c) = abc_net();
    net.create_negative_interaction(String::from("ni"), &a, &b, &c).unwrap();
    assert_eq!(net.edges[2].signs, (Sign::Neutral, Sign::Negative));
    assert_eq!(net.edges[2].link_type, LinkType::NegativeInteraction);
    assert_eq!(net.get_nodes_with_negative_input_link(), vec![c.id]);
}

#[test]
fn differentiation_motif_signs() {
    let (mut net, a, b, c) = abc_net();
    net.create_differentiation_with_influence(
        String::from("diff"),
        &a,
        &b,
        &c,
        Sign::Positive,
    )
        .unwrap();
    assert_eq!(net.edges[0].signs, (Sign::Negative, Sign::Neutral));
    assert_eq!(net.edges[1].signs, (Sign::Neutral, Sign::Positive));
    assert_eq!(net.edges[2].signs, (Sign::Neutral, Sign::Positive));
    assert_eq!(net.edges[0].link_type, LinkType::Differentiation);
}

#[test]
fn motif_with_missing_node_leaves_net_unchanged() {
    let (mut net, a, b, _c) = abc_net();
    let stale = Node::new(42, String::from("stale"));
    let r = net.create_positive_interaction(String::from("pi"), &a, &b, &stale);
    assert!(matches!(r, Err(NetError::MissingDest(42))));
    assert_eq!(net.nodes.len(), 3);
    assert_eq!(net.edges.len(), 0);
    assert_eq!(net.gen_id, 3);
}

#[test]
fn add_node_to_interaction_wires_node_as_source() {
    let mut net = BioNet::new(String::from("hub"));
    let n = net.create_node(String::from("N")).unwrap();
    let i = net.create_interaction(String::from("I")).unwrap();
    let e = net
        .add_node_to_interaction(&i, &n, (Sign::Neutral, Sign::Positive), LinkType::Production)
        .unwrap();
    assert_eq!(e.src, n.id);
    assert_eq!(e.dest, i.id);
    let stale = Node::new(77, String::from("stale"));
    let r = net.add_node_to_interaction(&i, &stale, (Sign::Neutral, Sign::Neutral), LinkType::Decay);
    assert!(matches!(r, Err(NetError::MissingSource(77))));
}
