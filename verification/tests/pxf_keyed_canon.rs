
use protowire::pxf::keyed::{canonicalize_keyed, key_field};
use protowire::pxf::schema::{
    FieldKind, FieldSchema, FileSchema, KeyCandidate, MessageRef, MessageSchema,
};
use protowire::pxf::{ident_safe_entry_name, parse, Entry};

fn plain(msg: &str, name: &str, kind: FieldKind) -> FieldSchema {
    FieldSchema {
        name: name.to_string(),
        full_name: format!("{}.{}", msg, name),
        kind,
        is_list: false,
        is_map: false,
        is_group: false,
        oneof: None,
        key: None,
        default: None,
        required: false,
    }
}

fn node_ref() -> MessageRef {
    MessageRef {
        full_name: "keyed.v1.Node".to_string(),
        fields: vec![
            KeyCandidate {
                name: "id".to_string(),
                full_name: "keyed.v1.Node.id".to_string(),
                is_list: false,
                is_map: false,
                is_string: true,
            },
            KeyCandidate {
                name: "type".to_string(),
                full_name: "keyed.v1.Node.type".to_string(),
                is_list: false,
                is_map: false,
                is_string: true,
            },
        ],
    }
}

/// `keyed.v1.Node { string id; string type; repeated Node children [(pxf.key) = "id"]; }`
/// and `keyed.v1.Doc { repeated Node items; }`.
fn keyed_files() -> Vec<FileSchema> {
    let mut children = plain("keyed.v1.Node", "children", FieldKind::Message(node_ref()));
    children.is_list = true;
    children.key = Some("id".to_string());
    let node = MessageSchema {
        full_name: "keyed.v1.Node".to_string(),
        fields: vec![
            plain("keyed.v1.Node", "id", FieldKind::String),
            plain("keyed.v1.Node", "type", FieldKind::String),
            children,
        ],
        oneofs: Vec::new(),
    };
    let mut items = plain("keyed.v1.Doc", "items", FieldKind::Message(node_ref()));
    items.is_list = true;
    let doc = MessageSchema {
        full_name: "keyed.v1.Doc".to_string(),
        fields: vec![items],
        oneofs: Vec::new(),
    };
    vec![FileSchema {
        path: "keyed.proto".to_string(),
        messages: vec![node, doc],
        enums: Vec::new(),
        dependencies: Vec::new(),
    }]
}

fn canonical(src: &str) -> String {
    let files = keyed_files();
    let mut doc = parse(src).unwrap();
    canonicalize_keyed(&mut doc, &files, &files[0].messages[0]);
    protowire::pxf::format::format(&doc)
}

#[test]
fn descriptor_helpers() {
    let files = keyed_files();
    let node = &files[0].messages[0];
    assert_eq!(key_field(&node.fields[2]).as_deref(), Some("id"));
    assert!(key_field(&node.fields[0]).is_none());
    assert!(key_field(&files[0].messages[1].fields[0]).is_none());
    for (name, ok) in [
        ("greeting", true),
        ("user.name", true),
        ("_x1", true),
        ("us-east-1", false),
        ("1abc", false),
        ("", false),
        ("true", false),
        ("null", false),
    ] {
        assert_eq!(ident_safe_entry_name(name), ok, "{name:?}");
    }
}

#[test]
fn assignment_spelling_of_the_keyed_block() {
    let doc = "id = \"root\"\nchildren = {\n  greeting { type = \"Label\" }\n  counter_row = { type = \"HBox\" }\n}\n";
    let formatted = canonical(doc);
    assert!(formatted.contains("children {\n"), "{formatted}");
    assert!(formatted.contains("  greeting {\n"), "{formatted}");
    assert!(formatted.contains("  counter_row {\n"), "{formatted}");
}

#[test]
fn anonymous_form_canonicalizes_to_keyed() {
    let anon = "id = \"root\"\ntype = \"VBox\"\nchildren = [\n  { id = \"greeting\" type = \"Label\" },\n  { id = \"counter_row\" type = \"HBox\" }\n]\n";
    let out = canonical(anon);
    let reparsed = parse(&out).expect("canonical output parses");
    assert_eq!(reparsed.entries.len(), 3);
    let Entry::Block(blk) = &reparsed.entries[2] else {
        panic!("children must canonicalize to a keyed block:\n{out}");
    };
    assert_eq!(blk.name, "children");
    assert_eq!(blk.entries.len(), 2);
    assert_eq!(out.matches("id = ").count(), 1, "{out}");
    // The canonical form is a fixed point.
    assert_eq!(canonical(&out), out);
}

#[test]
fn redundant_agreeing_key_is_dropped() {
    let data = "id = \"root\"\nchildren {\n  greeting {\n    id = \"greeting\"\n    type = \"Label\"\n  }\n}\n";
    let out = canonical(data);
    assert_eq!(out.matches("id = ").count(), 1, "{out}");
    // A disagreeing assignment is kept.
    let data = "children {\n  greeting {\n    id = \"farewell\"\n  }\n}\n";
    assert!(canonical(data).contains("id = \"farewell\""));
}

#[test]
fn anonymous_duplicate_keys_stay_anonymous() {
    let data = "children = [\n  { id = \"dup\" },\n  { id = \"dup\" }\n]\n";
    assert!(canonical(data).contains("children = ["));
    let data = "children = [\n  { id = \"a\" },\n  { type = \"no key\" }\n]\n";
    assert!(canonical(data).contains("children = ["));
}

#[test]
fn quoted_names_unquote_when_safe() {
    let data = "children {\n  \"greeting\" { type = \"Label\" }\n  \"us-east-1\" { type = \"Zone\" }\n}\n";
    let out = canonical(data);
    assert!(out.contains("  greeting {\n"), "{out}");
    assert!(out.contains("  \"us-east-1\" {\n"), "{out}");
}

#[test]
fn nested_keyed_blocks_and_unkeyed_lists() {
    let data = "children {\n  outer {\n    children = [ { id = \"inner\" } ]\n  }\n}\n";
    let out = canonical(data);
    assert!(out.contains("    children {\n      inner {\n      }"), "{out}");
    // A list of an unkeyed field stays a list.
    let files = keyed_files();
    let mut doc = parse("items = [ { id = \"a\" } ]\n").unwrap();
    canonicalize_keyed(&mut doc, &files, &files[0].messages[1]);
    assert!(protowire::pxf::format::format(&doc).contains("items = ["));
    // Names no field resolves stay as they are.
    assert!(canonical("unknown = [ { id = \"a\" } ]\n").contains("unknown = ["));
}
