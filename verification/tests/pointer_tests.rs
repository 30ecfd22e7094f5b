use toml_ops::Node;

fn sample_doc() -> Node {
    Node::Table(vec![
        ("ip".to_string(), Node::Text("127.0.0.1".to_string())),
        (
            "host".to_string(),
            Node::Table(vec![
                ("ip".to_string(), Node::Text("127.0.1.1".to_string())),
                ("port".to_string(), Node::Int(8080)),
                (
                    "protocol".to_string(),
                    Node::Array(vec![
                        Node::Text("tcp".to_string()),
                        Node::Text("udp".to_string()),
                        Node::Text("mmp".to_string()),
                    ]),
                ),
            ]),
        ),
        (
            "service".to_string(),
            Node::Array(vec![
                Node::Table(vec![
                    ("name".to_string(), Node::Text("serv_1".to_string())),
                    ("desc".to_string(), Node::Text("first".to_string())),
                ]),
                Node::Table(vec![
                    ("name".to_string(), Node::Text("serv_2".to_string())),
                    ("desc".to_string(), Node::Text("second".to_string())),
                ]),
            ]),
        ),
        (
            "misc".to_string(),
            Node::Table(vec![
                ("int".to_string(), Node::Int(1234)),
                ("float".to_string(), Node::Float(3.14f64.to_bits())),
                ("bool".to_string(), Node::Bool(true)),
            ]),
        ),
    ])
}

#[test]
fn path_test() {
    let v = sample_doc();
    assert_eq!(v.path().step("ip").unpath().unwrap().as_str(), Some("127.0.0.1"));

    let op = v.path();
    let ip = op.step("ip");
    assert_eq!(ip.unpath().unwrap().as_str(), Some("127.0.0.1"));

    let ip = op.step("host").step("ip");
    assert_eq!(ip.unpath().unwrap().as_str(), Some("127.0.1.1"));

    let host = v.path().step("host");
    let ip = host.step("ip");
    assert_eq!(ip.unpath().unwrap().as_str(), Some("127.0.1.1"));
    let port = host.step("port");
    assert_eq!(port.unpath().unwrap().as_integer(), Some(8080));

    let proto = host.step("protocol").step_index(1);
    assert_eq!(proto.unpath().unwrap().as_str(), Some("udp"));

    let proto = v.path().step("host").step("protocol").step_index(2);
    assert_eq!(proto.unpath().unwrap().as_str(), Some("mmp"));

    let proto = v.path().step("host/protocol/2");
    assert_eq!(proto.unpath().unwrap().as_str(), Some("mmp"));

    let proto = v.pathto("/host/protocol/2");
    assert_eq!(proto.unpath().unwrap().as_str(), Some("mmp"));

    let server = v.path().step("service").step_index(0).step("name");
    assert_eq!(server.unpath().unwrap().as_str(), Some("serv_1"));

    let mv = sample_doc();
    let w = mv.path_mut().step("ip").reassign(Node::Text("127.0.0.2".to_string()));
    let mv = w.into_document();
    assert_eq!(mv.path().step("ip").unpath().unwrap().as_str(), Some("127.0.0.2"));
}

#[test]
fn path_none_test() {
    let v = sample_doc();

    let root = v.path();
    assert_eq!(root.unpath().is_none(), false);
    assert_eq!(root.is_bound(), true);

    let node = root.step("ip");
    assert_eq!(node.unpath().is_none(), false);
    assert_eq!(node.is_bound(), true);
    let node = root.step("IP");
    assert_eq!(node.unpath().is_none(), true);
    assert_eq!(node.is_bound(), false);

    let node = root.step("host").step("protocol");
    assert_eq!(node.unpath().is_none(), false);
    let node = root.step("host").step("protocol").step_index(1);
    assert_eq!(node.unpath().is_none(), false);
    let node = root.step("host").step("protocol").step_index(3);
    assert_eq!(node.unpath().is_none(), true);

    let node = root.step("service").step_index(0);
    assert_eq!(node.unpath().is_none(), false);
    let node = root.step("service").step_index(0).step("description");
    assert_eq!(node.unpath().is_none(), true);
    let node = root.step("service").step_index(0).step("desc");
    assert_eq!(node.unpath().is_none(), false);
    let node = root.step("service").step_index(2);
    assert_eq!(node.unpath().is_none(), true);
}

#[test]
fn path_mut_test() {
    let v = sample_doc();

    let root = v.path();
    assert_eq!(root.unpath().is_none(), false);
    assert_eq!(root.is_bound(), true);

    let node = root.step("ip");
    assert_eq!(node.unpath().is_none(), false);
    assert_eq!(node.is_bound(), true);

    let node = root.step("IP");
    assert_eq!(node.unpath().is_none(), true);
    assert_eq!(node.is_bound(), false);

    let node = v.path_mut().step("ip");
    assert_eq!(node.unpath().is_none(), false);
    assert_eq!(node.is_bound(), true);
    let v = node.into_document();

    let node = v.path_mut().step("IP");
    assert_eq!(node.unpath().is_none(), true);
    assert_eq!(node.is_bound(), false);
}

#[test]
fn pipe_test() {
    let v = sample_doc();

    let ip = v.path().step("ip").extract_str("");
    assert_eq!(ip, "127.0.0.1");

    let ip = v.path().step("host").step("ip").extract_str("");
    assert_eq!(ip, "127.0.1.1");

    let ip_default = "127";
    let ip = v.path().step("host").step("ip").extract_str(ip_default);
    assert_eq!(ip, "127.0.1.1");

    let ip_default: String = String::from("127");
    let ip = v.path().step("host").step("ip").extract_str(&ip_default);
    assert_eq!(ip, "127.0.1.1");

    let port = v.path().step("host").step("port").extract_integer(0);
    assert_eq!(port, 8080);

    let port_default = 80;
    let port = v.path().step("host").step("port").extract_integer(port_default);
    assert_eq!(port, 8080);
    assert_eq!(port_default, 80);

    let misc = v.path().step("misc");
    let value = misc.step("int").extract_integer(0);
    assert_eq!(value, 1234);
    let value = f64::from_bits(misc.step("float").extract_float_bits(0.0f64.to_bits()));
    assert_eq!(value, 3.14);
    let value = misc.step("bool").extract_bool(false);
    assert_eq!(value, true);

    let value = v.pathto("/misc/int").extract_integer(0);
    assert_eq!(value, 1234);
    let value = v.pathto("misc/int").extract_integer(0);
    assert_eq!(value, 1234);
    let value = v.pathto("misc/int/").extract_integer(0);
    assert_eq!(value, 1234);
    let value = v.pathto("misc.int").extract_integer(0);
    assert_eq!(value, 1234);
    let value = v.pathto("/misc/./int/").extract_integer(0);
    assert_eq!(value, 1234);
}

#[test]
fn pipe_mut_test() {
    let v = sample_doc();

    let node = v.path_mut().step("ip");
    let ip = node.extract_str("");
    assert_eq!(ip, "127.0.0.1");
    let v = node.into_document();

    let node = v.path_mut().step("host").step("ip");
    let ip = node.extract_str("");
    assert_eq!(ip, "127.0.1.1");
    let v = node.into_document();

    let ip_default = "127";
    let node = v.path_mut().step("host").step("ip");
    let ip = node.extract_str(ip_default);
    assert_eq!(ip, "127.0.1.1");
    let v = node.into_document();

    let ip_default: String = String::from("127");
    let node = v.path_mut().step("host").step("ip");
    let ip = node.extract_str(&ip_default);
    assert_eq!(ip, "127.0.1.1");
    let v = node.into_document();

    let node = v.path_mut().step("host").step("port");
    let port = node.extract_integer(0);
    assert_eq!(port, 8080);
    let v = node.into_document();

    let port_default = 80;
    let node = v.path_mut().step("host").step("port");
    let port = node.extract_integer(port_default);
    assert_eq!(port, 8080);
    assert_eq!(port_default, 80);
    let v = node.into_document();

    let misc = v.path_mut().step("misc");
    let node = misc.step("int");
    let value = node.extract_integer(0);
    assert_eq!(value, 1234);
    let v = node.into_document();

    let node = v.pathto_mut("/misc.int");
    let value = node.extract_integer(0);
    assert_eq!(value, 1234);
    let v = node.into_document();

    let node = v.path_mut().step("misc").step("float");
    let value = f64::from_bits(node.extract_float_bits(0.0f64.to_bits()));
    assert_eq!(value, 3.14);
    let v = node.into_document();

    let node = v.path_mut().step("misc").step("bool");
    let value = node.extract_bool(false);
    assert_eq!(value, true);
}

#[test]
fn path_if_test() {
    let v = sample_doc();

    let node = v.path().step("ip");
    if node.is_bound() {
        let ip = node.extract_str("");
        assert_eq!(ip, "127.0.0.1");
    }

    let node = v.path().step("IP");
    if !node.is_bound() {
        let ip = node.extract_str("");
        assert_eq!(ip, "");
    }

    let node = v.path_mut().step("ip");
    if node.is_bound() {
        let ip = node.extract_str("");
        assert_eq!(ip, "127.0.0.1");
    }
    let v = node.into_document();

    let node = v.path_mut().step("ip");
    if node.is_bound() {
        let node = node.overwrite_if_matching_type(Node::Text("127.0.0.2".to_string()));
        let ip = node.extract_str("");
        assert_eq!(ip, "127.0.0.2");
    }

    let v = sample_doc();
    let node = v.path_mut().step("host").step("port");
    if node.is_bound() {
        let node = node.overwrite_if_matching_type(Node::Text("127.0.0.2".to_string()));
        assert_eq!(node.is_bound(), false);
        let val = node.extract_integer(0);
        assert_eq!(val, 0);
    }
}
