use toml_ops::Node;

fn sample_document() -> Node {
    Node::Table(vec![
        ("ip".to_string(), Node::Text("127.0.0.1".to_string())),
        (
            "host".to_string(),
            Node::Table(vec![
                ("ip".to_string(), Node::Text("127.0.1.1".to_string())),
                ("port".to_string(), Node::Int(8080)),
                (
                    "protocol".to_string(),
                    Node::Array(vec![
                        Node::Text("tcp".to_string()),
                        Node::Text("udp".to_string()),
                        Node::Text("mmp".to_string()),
                    ]),
                ),
            ]),
        ),
        (
            "misc".to_string(),
            Node::Table(vec![
                ("int".to_string(), Node::Int(1234)),
                ("float".to_string(), Node::Float(3.14f64.to_bits())),
                ("bool".to_string(), Node::Bool(true)),
            ]),
        ),
    ])
}

#[test]
fn push_test() {
    let v = sample_document();

    let ip = v.path().step("ip").extract_str("");
    assert_eq!(ip, "127.0.0.1");

    let ip_node = v
        .path_mut()
        .step("ip")
        .overwrite_if_matching_type(Node::Text("127.0.0.2".to_string()));
    let ip = ip_node.extract_str("");
    assert_eq!(ip, "127.0.0.2");
    let v = ip_node.into_document();
    let ip = v.path().step("ip").extract_str("");
    assert_eq!(ip, "127.0.0.2");

    // pushing a value of another kind has no effect.
    let ip_node = v.path_mut().step("ip");
    let ip_node = ip_node.overwrite_if_matching_type(Node::Int(127));
    assert_eq!(ip_node.is_bound(), false);
    let v = ip_node.into_document();
    let ip = v.path().step("ip").extract_str("");
    assert_eq!(ip, "127.0.0.2");

    let node = v
        .path_mut()
        .step("misc")
        .step("int")
        .overwrite_if_matching_type(Node::Int(4242));
    let val = node.extract_integer(0);
    assert_eq!(val, 4242);
    let v = node.into_document();

    let node = v.path_mut().step("misc").step("float");
    let node = node.overwrite_if_matching_type(Node::Float(31.4f64.to_bits()));
    let v = node.into_document();
    let val = f64::from_bits(v.path().step("misc").step("float").extract_float_bits(0.0f64.to_bits()));
    assert_eq!(val, 31.4);

    let node = v.path_mut().step("misc").step("float");
    let node = node.overwrite_if_matching_type(Node::Int(3142));
    assert_eq!(node.is_bound(), false);
    let val = f64::from_bits(node.extract_float_bits(0.0f64.to_bits()));
    assert_eq!(val, 0.0);
    let v = node.into_document();
    let val = f64::from_bits(v.path().step("misc").step("float").extract_float_bits(0.0f64.to_bits()));
    assert_eq!(val, 31.4);

    let node = v.path_mut().step("misc").step("bool");
    let node = node.overwrite_if_matching_type(Node::Bool(false));
    let v = node.into_document();
    let val = v.path().step("misc").step("bool").extract_bool(true);
    assert_eq!(val, false);

    // push items to an array
    let node = v.path_mut().step("host").step("protocol");
    let node = node
        .append_to_array(Node::Text("abc".to_string()))
        .append_to_array(Node::Text("edf".to_string()));
    let val = node.immut().step_index(3).extract_str("");
    assert_eq!(val, "abc");
    let v = node.into_document();
    let val = v.path().step("host").step("protocol").step_index(4).extract_str("");
    assert_eq!(val, "edf");

    // push slices to an array
    let node = v.path_mut().step("host").step("protocol");
    let node = node
        .append_all_to_array(vec![Node::Text("xyz".to_string())])
        .append_all_to_array(vec![
            Node::Text("ABC".to_string()),
            Node::Text("DEF".to_string()),
        ]);
    let v = node.into_document();
    let node = v.path().step("host").step("protocol");
    assert_eq!(node.unpath().unwrap().as_array().unwrap().len(), 8);

    // push key-value pairs to a table
    let node = v.path_mut().step("host");
    let node = node
        .insert_into_table("newkey1", Node::Int(1))
        .insert_into_table("newkey2", Node::Text("2".to_string()));
    let v = node.into_document();
    let val = v.path().step("host").step("newkey1").extract_integer(0);
    assert_eq!(val, 1);
    let val = v.path().step("host").step("newkey2").extract_str("");
    assert_eq!(val, "2");

    // an i32 input must be widened to i64, the stored integer kind
    let input: i32 = 32;
    let output_default: i32 = 2;
    let node = v.path_mut().step("misc").step("int");
    let node = node.overwrite_if_matching_type(Node::Int(input as i64));
    let v = node.into_document();
    let val = v.path().step("misc").step("int").extract_integer(output_default as i64);
    assert_eq!(val, input as i64);
}

#[test]
fn assign_test() {
    let v = sample_document();

    let ip = v.path().step("ip").extract_str("");
    assert_eq!(ip, "127.0.0.1");

    let ip_node = v.path_mut().step("ip");
    let ip_node = ip_node.reassign(Node::Text("127.0.0.2".to_string()));
    let v = ip_node.into_document();
    let ip = v.path().step("ip").extract_str("");
    assert_eq!(ip, "127.0.0.2");

    let ip = v.path().step("host").step("ip").extract_str("");
    assert_eq!(ip, "127.0.1.1");
    let ip_node = v.path_mut().step("host").step("ip");
    // a kind change: the text node becomes a float node
    let ip_node = ip_node.reassign(Node::Float(127.0f64.to_bits()));
    let v = ip_node.into_document();
    let ip = v.path().step("host").step("ip").extract_str("");
    assert_eq!(ip, "");
    let ip = f64::from_bits(v.path().step("host").step("ip").extract_float_bits(0.0f64.to_bits()));
    assert_eq!(ip, 127.0);
    let ip_node = v.path_mut().step("host").step("ip");
    let ip_node = ip_node.reassign(Node::Text("127.0.1.2".to_string()));
    let v = ip_node.into_document();
    let ip = v.path().step("host").step("ip").extract_str("");
    assert_eq!(ip, "127.0.1.2");

    // reassigning cannot create a node that does not exist
    let port_node = v.path_mut().step("port");
    assert_eq!(port_node.is_bound(), false);
    let port_node = port_node.reassign(Node::Int(80));
    assert_eq!(port_node.is_bound(), false);
    let v = port_node.into_document();

    // reassigning may replace a scalar by a whole array
    let vecint = Node::Array(vec![Node::Int(1), Node::Int(2), Node::Int(3), Node::Int(4)]);
    let node = v.path_mut().step("misc").step("int");
    let node = node.reassign(vecint);
    let v = node.into_document();
    let int = v.path().step("misc").step("int").step_index(0).extract_integer(0);
    assert_eq!(int, 1);
    let int = v.path().step("misc").step("int").step_index(1).extract_integer(0);
    assert_eq!(int, 2);

    let mut node = v.path_mut().step("misc").step("int");
    node.assign(Node::Int(1234));
    let v = node.into_document();
    let int = v.path().step("misc").step("int").extract_integer(0);
    assert_eq!(int, 1234);
}
