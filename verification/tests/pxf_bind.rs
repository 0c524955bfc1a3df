//! Decoding documents against a schema.
use protowire::pxf::bind::{unmarshal, unmarshal_full, UnmarshalOptions};
use protowire::pxf::decode::{
    DecodedValue, FieldShape, FieldType, FieldValue, Node, NodeData, ScalarKind, Schema,
    SchemaField, SchemaMessage,
};
use protowire::pxf::map_key::{MapKey, MapKeyKind};

fn field(name: &str, kind: FieldType) -> SchemaField {
    SchemaField { name: name.to_string(), kind, oneof: None, required: false, default: None }
}

fn member(name: &str, kind: FieldType, oneof: &str) -> SchemaField {
    SchemaField { name: name.to_string(), kind, oneof: Some(oneof.to_string()), required: false, default: None }
}

fn schema() -> Schema {
    Schema {
        messages: vec![SchemaMessage {
            full_name: "test.v1.Item".to_string(),
            fields: vec![
                field("name", FieldType::Value(FieldShape::Single(ScalarKind::String))),
                field("count", FieldType::Value(FieldShape::Single(ScalarKind::Int32))),
                field("tags", FieldType::Value(FieldShape::List(ScalarKind::String))),
                field(
                    "int_map",
                    FieldType::Value(FieldShape::MapOf(MapKeyKind::Int32, ScalarKind::String)),
                ),
                field("child", FieldType::Message(0)),
                field("items", FieldType::Messages(0)),
                member("a", FieldType::Value(FieldShape::Single(ScalarKind::String)), "choice"),
                member("b", FieldType::Value(FieldShape::Single(ScalarKind::Int32)), "choice"),
            ],
        }],
    }
}

fn decode(src: &str) -> Result<Vec<Node>, protowire::pxf::PxfError> {
    unmarshal(src, &schema(), 0, UnmarshalOptions::default()).map(|d| d.nodes)
}

fn top<'a>(nodes: &'a [Node], name: &str) -> &'a Node {
    nodes.iter().find(|n| n.parent.is_none() && n.field == name).expect(name)
}

#[test]
fn decodes_scalars_lists_maps_and_messages() {
    let nodes = decode(
        "name = \"x\"\ncount = 5\ntags = [\"a\", \"b\"]\nint_map = { 1: \"one\" }\nchild { name = \"c\" }\nitems = [ { count = 1 }, { count = 2 } ]\n",
    )
    .unwrap();
    match &top(&nodes, "name").data {
        NodeData::Value(DecodedValue::Single(FieldValue::String(s))) => assert_eq!(s, "x"),
        other => panic!("{:?}", other),
    }
    match &top(&nodes, "count").data {
        NodeData::Value(DecodedValue::Single(FieldValue::I32(5))) => {}
        other => panic!("{:?}", other),
    }
    match &top(&nodes, "tags").data {
        NodeData::Value(DecodedValue::List(v)) => assert_eq!(v.len(), 2),
        other => panic!("{:?}", other),
    }
    match &top(&nodes, "int_map").data {
        NodeData::Value(DecodedValue::MapOf(v)) => assert_eq!(v[0].0, MapKey::I32(1)),
        other => panic!("{:?}", other),
    }
    let child = nodes.iter().position(|n| n.parent.is_none() && n.field == "child").unwrap();
    assert!(matches!(nodes[child].data, NodeData::Message));
    let inner = nodes.iter().find(|n| n.parent == Some(child)).unwrap();
    assert_eq!(inner.field, "name");
    let list = nodes.iter().position(|n| n.parent.is_none() && n.field == "items").unwrap();
    assert!(matches!(nodes[list].data, NodeData::MessageList));
    let elements: Vec<usize> = (0..nodes.len())
        .filter(|&i| nodes[i].parent == Some(list))
        .collect();
    assert_eq!(elements.len(), 2);
    for (e, want) in elements.iter().zip([1, 2]) {
        let c = nodes.iter().find(|n| n.parent == Some(*e)).unwrap();
        match &c.data {
            NodeData::Value(DecodedValue::Single(FieldValue::I32(n))) => assert_eq!(*n, want),
            other => panic!("{:?}", other),
        }
    }
}

#[test]
fn directives_are_read_before_the_body() {
    let nodes = decode("@type test.v1.Item\nname = \"x\"\n").unwrap();
    assert_eq!(nodes.len(), 1);
    let d = unmarshal("@type test.v1.Item\nname = \"x\"\n", &schema(), 0, UnmarshalOptions::default())
        .unwrap();
    assert_eq!(d.document.type_url, "test.v1.Item");
}

#[test]
fn null_is_recorded() {
    let nodes = decode("name = null\n").unwrap();
    assert!(matches!(top(&nodes, "name").data, NodeData::Null));
}

#[test]
fn unknown_fields_fail_or_are_skipped() {
    let e = decode("nope = 1\n").unwrap_err();
    assert_eq!(e.msg, "unknown field \"nope\" in test.v1.Item");
    let d = unmarshal(
        "nope = { a = [1, 2] }\nextra { x = 1 }\nname = \"y\"\n",
        &schema(),
        0,
        UnmarshalOptions { discard_unknown: true },
    )
    .unwrap();
    assert_eq!(d.nodes.len(), 1);
    assert_eq!(d.nodes[0].field, "name");
}

#[test]
fn oneof_members_conflict() {
    let e = decode("a = \"x\"\nb = 2\n").unwrap_err();
    assert_eq!(e.msg, "oneof \"choice\": field \"b\" conflicts with already-set field \"a\"");
    assert_eq!(e.pos.line, 2);
}

#[test]
fn syntax_errors_of_the_decoder() {
    let e = decode("name { }\n").unwrap_err();
    assert_eq!(e.msg, "field \"name\" is not a message type, cannot use block syntax");
    let e = decode("tags { }\n").unwrap_err();
    assert_eq!(e.msg, "repeated field \"tags\" must use list syntax: tags = [...]");
    let e = decode("int_map { }\n").unwrap_err();
    assert_eq!(e.msg, "map field \"int_map\" must use assignment syntax: int_map = { ... }");
    let e = decode("child = 1\n").unwrap_err();
    assert_eq!(e.msg, "expected '{' for message field \"child\"");
    let e = decode("items = [ 1 ]\n").unwrap_err();
    assert_eq!(e.msg, "expected '{' for repeated message element");
    let e = decode("count = \"x\"\n").unwrap_err();
    assert_eq!(e.msg, "expected integer for field \"count\"");
}

#[test]
fn bool_keyword_key_on_int_map_is_rejected() {
    let err = decode("int_map = { true: \"v\" }").expect_err("must not bind");
    assert!(err.msg.contains("invalid int32 map key: true"), "{}", err.msg);
}

#[test]
fn nesting_past_the_limit_is_rejected() {
    let ok = format!("{}{}", "child { ".repeat(100), "} ".repeat(100));
    assert!(decode(&ok).is_ok());
    let deep = format!("{}{}", "child { ".repeat(101), "} ".repeat(101));
    let e = decode(&deep).unwrap_err();
    assert!(e.msg.contains("MaxNestingDepth"), "{}", e.msg);
}

fn flags() -> Schema {
    Schema {
        messages: vec![SchemaMessage {
            full_name: "mapkeys.v1.Flags".to_string(),
            fields: vec![field(
                "by_flag",
                FieldType::Value(FieldShape::MapOf(MapKeyKind::Bool, ScalarKind::String)),
            )],
        }],
    }
}

fn all_types() -> Schema {
    Schema {
        messages: vec![SchemaMessage {
            full_name: "test.v1.AllTypes".to_string(),
            fields: vec![
                field(
                    "string_map",
                    FieldType::Value(FieldShape::MapOf(MapKeyKind::String, ScalarKind::String)),
                ),
                field(
                    "int_map",
                    FieldType::Value(FieldShape::MapOf(MapKeyKind::Int32, ScalarKind::String)),
                ),
            ],
        }],
    }
}

fn map_of(nodes: &[Node], name: &str) -> Vec<(MapKey, FieldValue)> {
    match &top(nodes, name).data {
        NodeData::Value(DecodedValue::MapOf(v)) => v.clone(),
        other => panic!("{name} is not a map: {other:?}"),
    }
}

fn get(m: &[(MapKey, FieldValue)], k: &MapKey) -> Option<String> {
    m.iter().find(|(x, _)| x == k).map(|(_, v)| match v {
        FieldValue::String(s) => s.clone(),
        other => panic!("{other:?}"),
    })
}

#[test]
fn bool_map_key_spellings() {
    let desc = flags();
    let spellings = [
        "1", "t", "T", "TRUE", "true", "True", "0", "f", "F", "FALSE", "false", "False",
    ];
    let bare = |s: &str| match s {
        "1" | "true" => Some(true),
        "0" | "false" => Some(false),
        _ => None,
    };
    let quoted = |s: &str| match s {
        "true" => Some(true),
        "false" => Some(false),
        _ => None,
    };
    for sp in spellings {
        let doc = format!("by_flag = {{ {sp}: \"v\" }}");
        match (bare(sp), unmarshal(&doc, &desc, 0, UnmarshalOptions::default())) {
            (Some(want), Ok(msg)) => {
                assert_eq!(
                    get(&map_of(&msg.nodes, "by_flag"), &MapKey::Bool(want)),
                    Some("v".to_string()),
                    "bare {sp}"
                );
            }
            (Some(_), Err(e)) => panic!("bare {sp} must bind: {}", e.msg),
            (None, Ok(_)) => panic!("bare {sp} must not bind"),
            (None, Err(e)) => {
                assert!(
                    e.msg.contains(&format!("invalid bool map key {sp} for field \"by_flag\"")),
                    "bare {sp}: {}",
                    e.msg
                );
                assert!(
                    e.msg.contains("a bool key is true, false, 0, 1, \"true\" or \"false\""),
                    "bare {sp}: {}",
                    e.msg
                );
            }
        }
        let doc = format!("by_flag = {{ \"{sp}\": \"v\" }}");
        match (quoted(sp), unmarshal(&doc, &desc, 0, UnmarshalOptions::default())) {
            (Some(want), Ok(msg)) => {
                assert_eq!(
                    get(&map_of(&msg.nodes, "by_flag"), &MapKey::Bool(want)),
                    Some("v".to_string()),
                    "quoted {sp:?}"
                );
            }
            (Some(_), Err(e)) => panic!("quoted {sp:?} must bind: {}", e.msg),
            (None, Ok(_)) => panic!("quoted {sp:?} must not bind"),
            (None, Err(e)) => {
                assert!(
                    e.msg.contains(&format!("invalid bool map key \"{sp}\" for field \"by_flag\"")),
                    "quoted {sp:?}: {}",
                    e.msg
                );
            }
        }
    }
}

#[test]
fn admitted_spellings_share_one_key() {
    let msg = unmarshal(
        "by_flag = {\n  1: \"a\"\n  \"false\": \"b\"\n  true: \"c\"\n  false: \"d\"\n}",
        &flags(),
        0,
        UnmarshalOptions::default(),
    )
    .expect("binds");
    let m = map_of(&msg.nodes, "by_flag");
    assert_eq!(m.len(), 2);
    assert_eq!(get(&m, &MapKey::Bool(true)), Some("c".to_string()));
    assert_eq!(get(&m, &MapKey::Bool(false)), Some("d".to_string()));
}

#[test]
fn bool_keyword_key_on_string_map_is_rejected() {
    let desc = all_types();
    for kw in ["true", "false"] {
        let err = unmarshal(
            &format!("string_map = {{ {kw}: \"v\" }}"),
            &desc,
            0,
            UnmarshalOptions::default(),
        )
        .expect_err("bare keyword on a string key must not bind");
        assert!(
            err.msg.contains(&format!("invalid string map key {kw} for field \"string_map\"")),
            "{}",
            err.msg
        );
        assert!(err.msg.contains(&format!("write \"{kw}\" for the string")), "{}", err.msg);
    }
    let msg = unmarshal("string_map = { \"true\": \"v\" }", &desc, 0, UnmarshalOptions::default())
        .expect("quoted binds as the string");
    assert_eq!(
        get(&map_of(&msg.nodes, "string_map"), &MapKey::String("true".into())),
        Some("v".to_string())
    );
}

fn required_schema() -> Schema {
    let mut inner = field("id", FieldType::Value(FieldShape::Single(ScalarKind::String)));
    inner.required = true;
    let mut top_req = field("title", FieldType::Value(FieldShape::Single(ScalarKind::String)));
    top_req.required = true;
    Schema {
        messages: vec![
            SchemaMessage {
                full_name: "test.v1.Doc".to_string(),
                fields: vec![top_req, field("part", FieldType::Message(1))],
            },
            SchemaMessage { full_name: "test.v1.Part".to_string(), fields: vec![inner] },
        ],
    }
}

#[test]
fn presence_tracks_paths_and_nulls() {
    let d = unmarshal_full(
        "@frob\ntitle = \"t\"\npart { id = null }\n",
        &required_schema(),
        0,
        UnmarshalOptions::default(),
    )
    .unwrap();
    assert!(d.presence.is_set("title"));
    assert!(d.presence.is_set("part"));
    assert!(d.presence.is_null("part.id"));
    assert!(d.presence.is_absent("part.other"));
    assert_eq!(d.presence.directives().len(), 1);
    assert_eq!(d.presence.directives()[0].name, "frob");
    let node = d.nodes.iter().find(|n| n.field == "id").unwrap();
    assert_eq!(node.path, "part.id");
}

#[test]
fn required_fields_must_be_present() {
    let e = unmarshal_full("part { id = \"x\" }\n", &required_schema(), 0, UnmarshalOptions::default())
        .err()
        .expect("title is required");
    assert_eq!(e.msg, "required field \"title\" is absent");
    assert_eq!(e.pos.line, 1);
    let e = unmarshal_full("title = \"t\"\npart { }\n", &required_schema(), 0, UnmarshalOptions::default())
        .err()
        .expect("part.id is required once part is set");
    assert_eq!(e.msg, "required field \"part.id\" is absent");
    // A message field left out is not looked into.
    assert!(unmarshal_full("title = \"t\"\n", &required_schema(), 0, UnmarshalOptions::default()).is_ok());
}

fn defaults_schema() -> Schema {
    let mut count = field("count", FieldType::Value(FieldShape::Single(ScalarKind::Int32)));
    count.default = Some("7".to_string());
    let mut label = field("label", FieldType::Value(FieldShape::Single(ScalarKind::String)));
    label.default = Some("none".to_string());
    Schema {
        messages: vec![SchemaMessage {
            full_name: "test.v1.Defaults".to_string(),
            fields: vec![count, label],
        }],
    }
}

#[test]
fn defaults_fill_fields_left_out() {
    let d = unmarshal_full("label = \"set\"\n", &defaults_schema(), 0, UnmarshalOptions::default())
        .unwrap();
    assert_eq!(d.defaults.len(), 1);
    assert_eq!(d.defaults[0].0, "count");
    assert!(matches!(d.defaults[0].1, FieldValue::I32(7)));
    // A field written null takes no default.
    let d = unmarshal_full("count = null\n", &defaults_schema(), 0, UnmarshalOptions::default())
        .unwrap();
    assert_eq!(d.defaults.len(), 1);
    assert_eq!(d.defaults[0].0, "label");
}

#[test]
fn a_default_that_does_not_read_is_an_error() {
    let mut sc = defaults_schema();
    sc.messages[0].fields[0].default = Some("seven".to_string());
    let e = unmarshal_full("", &sc, 0, UnmarshalOptions::default()).err().expect("bad default");
    assert_eq!(e.msg, "invalid default int32 \"seven\" for field \"count\"");
}

#[test]
fn defaults_on_repeated_and_map_fields_are_refused() {
    let mut tags = field("tags", FieldType::Value(FieldShape::List(ScalarKind::String)));
    tags.default = Some("ignored".to_string());
    let sc = Schema {
        messages: vec![SchemaMessage { full_name: "t.v1.R".to_string(), fields: vec![tags] }],
    };
    let e = unmarshal_full("", &sc, 0, UnmarshalOptions::default()).err().expect("must reject");
    assert_eq!(e.msg, "default values not supported for repeated field \"tags\"");
    let mut labels = field(
        "labels",
        FieldType::Value(FieldShape::MapOf(MapKeyKind::String, ScalarKind::String)),
    );
    labels.default = Some("ignored".to_string());
    let sc = Schema {
        messages: vec![SchemaMessage { full_name: "t.v1.M".to_string(), fields: vec![labels] }],
    };
    let e = unmarshal_full("", &sc, 0, UnmarshalOptions::default()).err().expect("must reject");
    assert_eq!(e.msg, "default values not supported for map field \"labels\"");
}
