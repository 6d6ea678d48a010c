use bionet::model::{LinkType, Node, Sign};
use bionet::net::{BioNet, NetError};

fn rich_net() -> BioNet {
    let mut net = BioNet::new(String::from("immune system network"));
    net.create_parameters(vec![
        (String::from("k1"), 0.05f64.to_bits()),
        (String::from("k2"), 0.1f64.to_bits()),
    ]);
    let v = net.create_node(String::from("V")).unwrap();
    let ap = net.create_node(String::from("Ap")).unwrap();
    let apc = net.create_node(String::from("Apc")).unwrap();
    net.create_positive_interaction(String::from("ap activation"), &ap, &v, &apc).unwrap();
    net.create_edge(apc.id, v.id, (Sign::Neutral, Sign::Negative), LinkType::Killing).unwrap();
    net.nodes[0].description = String::from("the pathogen\nfirst line");
    net.edges[0].value = 0.25f64.to_bits();
    net.edges[0].expression.add_input(String::from("Ap"), Sign::Positive);
    net.edges[0].expression.add_output(String::from("Apc"), Sign::Positive);
    net.edges[0].expression.expr_text = String::from("k1 * Ap * V");
    net.edges[0].expression.rate = 0.05f64.to_bits();
    net.edges[0].expression.parameters.push(String::from("k1"));
    net
}

#[test]
fn round_trip_reproduces_content() {
    let net = rich_net();
    let text = net.encode_net();
    let loaded = BioNet::decode_net(&text).unwrap();
    assert_eq!(loaded.name, net.name);
    assert_eq!(loaded.nodes, net.nodes);
    assert_eq!(loaded.edges, net.edges);
    assert_eq!(loaded.parameters, net.parameters);
}

#[test]
fn gen_id_recomputed_after_load() {
    let net = rich_net();
    let loaded = BioNet::decode_net(&net.encode_net()).unwrap();
    // ids were allocated contiguously, so one past the highest id is the
    // generator's old value
    assert_eq!(loaded.gen_id, net.gen_id);
    let empty = BioNet::decode_net(&BioNet::new(String::from("e")).encode_net()).unwrap();
    assert_eq!(empty.gen_id, 0);
}

#[test]
fn round_trip_with_unusual_characters() {
    let mut net = BioNet::new(String::from("line\nbreak \\ and \"quotes\""));
    net.create_node(String::from("α β\nγ")).unwrap();
    net.add_parameter(String::from("π"), 3.5f64.to_bits());
    let loaded = BioNet::decode_net(&net.encode_net()).unwrap();
    assert_eq!(loaded.name, net.name);
    assert_eq!(loaded.nodes, net.nodes);
    assert_eq!(loaded.parameters, net.parameters);
}

#[test]
fn encode_of_empty_net_is_exact() {
    let net = BioNet::new(String::from("n"));
    assert_eq!(net.encode_net(), "1\nn\n0\n0\n0\n");
}

#[test]
fn decode_rejects_malformed_text() {
    assert!(matches!(BioNet::decode_net(""), Err(NetError::Malformed)));
    assert!(matches!(BioNet::decode_net("hello"), Err(NetError::Malformed)));
    assert!(matches!(BioNet::decode_net("1\nn\n0\n0\n"), Err(NetError::Malformed)));
    // trailing garbage after a complete document
    assert!(matches!(BioNet::decode_net("1\nn\n0\n0\n0\nx"), Err(NetError::Malformed)));
    // a leading zero is not a canonical count
    assert!(matches!(BioNet::decode_net("01\nn\n0\n0\n0\n"), Err(NetError::Malformed)));
}

#[test]
fn decode_rejects_inconsistent_content() {
    // a node listing an input edge that does not exist
    let mut net = BioNet::new(String::from("broken"));
    net.nodes.push(Node::new(0, String::from("X")));
    net.nodes[0].input_links.push(7);
    let text = net.encode_net();
    assert!(matches!(BioNet::decode_net(&text), Err(NetError::Inconsistent)));
    // two nodes under one name
    let mut net = BioNet::new(String::from("broken"));
    net.nodes.push(Node::new(0, String::from("X")));
    net.nodes.push(Node::new(1, String::from("X")));
    let text = net.encode_net();
    assert!(matches!(BioNet::decode_net(&text), Err(NetError::Inconsistent)));
}

#[test]
fn decoded_net_answers_queries() {
    let (text, b_id) = {
        let mut net = BioNet::new(String::from("q"));
        let a = net.create_node(String::from("A")).unwrap();
        let b = net.create_node(String::from("B")).unwrap();
        net.create_edge(a.id, b.id, (Sign::Neutral, Sign::Positive), LinkType::Production)
            .unwrap();
        (net.encode_net(), b.id)
    };
    let loaded = BioNet::decode_net(&text).unwrap();
    assert_eq!(loaded.get_nodes_with_positive_input_link(), vec![b_id]);
    assert_eq!(loaded.get_node_id("B"), Some(b_id));
}
