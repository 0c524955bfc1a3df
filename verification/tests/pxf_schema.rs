use protowire::pxf::schema::{
    validate_descriptor, validate_file, EnumSchema, EnumValueSchema, FieldKind, FieldSchema,
    FileSchema, KeyCandidate, MessageRef, MessageSchema, OneofSchema,
};
use protowire::pxf::{Violation, ViolationKind};

const PKG: &str = "schema.test.v1";

fn field(msg: &str, name: &str) -> FieldSchema {
    FieldSchema {
        name: name.to_string(),
        full_name: format!("{}.{}", msg, name),
        kind: FieldKind::Other,
        is_list: false,
        is_map: false,
        is_group: false,
        oneof: None,
        key: None,
        default: None,
        required: false,
    }
}

fn message(name: &str, fields: &[&str]) -> MessageSchema {
    let full = format!("{}.{}", PKG, name);
    MessageSchema {
        fields: fields.iter().map(|f| field(&full, f)).collect(),
        oneofs: Vec::new(),
        full_name: full,
    }
}

fn enum_at(scope: &str, name: &str, values: &[&str]) -> EnumSchema {
    EnumSchema {
        full_name: format!("{}.{}", scope, name),
        values: values
            .iter()
            .map(|v| EnumValueSchema { name: v.to_string(), full_name: format!("{}.{}", scope, v) })
            .collect(),
    }
}

/// The messages and enums of `schema-test.proto`.
fn schema_test_file() -> FileSchema {
    let conformant = message("Conformant", &["price", "qty"]);
    let field_null = message("FieldNull", &["a", "null"]);
    let mut oneof_true = message("OneofTrue", &["x"]);
    oneof_true.oneofs.push(OneofSchema {
        name: "true".to_string(),
        full_name: format!("{}.OneofTrue.true", PKG),
        synthetic: false,
    });
    oneof_true.fields[0].oneof = Some(0);
    let outer_enum = message("OuterWithNestedEnum", &["id"]);
    let outer_msg = message("OuterWithNestedMsg", &["inner"]);
    let inner = message("OuterWithNestedMsg.Inner", &["true"]);
    let case_ok = message("CaseInsensitiveOK", &["NULL", "True"]);
    let multi = message("MultiViolations", &["null", "false"]);
    let mut synthetic = message("SyntheticOneof", &["null"]);
    synthetic.oneofs.push(OneofSchema {
        name: "_null".to_string(),
        full_name: format!("{}.SyntheticOneof._null", PKG),
        synthetic: true,
    });
    synthetic.fields[0].oneof = Some(0);
    FileSchema {
        path: "schema-test.proto".to_string(),
        messages: vec![
            conformant, field_null, oneof_true, outer_enum, outer_msg, inner, case_ok, multi,
            synthetic,
        ],
        enums: vec![
            enum_at(PKG, "SideFalse", &["SIDE_FALSE_UNSPECIFIED", "false"]),
            enum_at(&format!("{}.OuterWithNestedEnum", PKG), "Inner", &["INNER_UNSPECIFIED", "null"]),
        ],
        dependencies: Vec::new(),
    }
}

fn all_violations() -> Vec<Violation> {
    validate_descriptor(&[schema_test_file()], 0)
}

fn under(prefix: &str) -> Vec<Violation> {
    all_violations()
        .into_iter()
        .filter(|v| v.element == prefix || v.element.starts_with(&format!("{}.", prefix)))
        .collect()
}

#[test]
fn field_named_null_caught() {
    let vs = under("schema.test.v1.FieldNull");
    assert_eq!(vs.len(), 1);
    let v = &vs[0];
    assert_eq!(v.name, "null");
    assert_eq!(v.kind, ViolationKind::Field);
    assert_eq!(v.element, "schema.test.v1.FieldNull.null");
    assert!(v.render().contains("PXF-reserved name \"null\""));
}

#[test]
fn oneof_named_true_caught() {
    let vs = under("schema.test.v1.OneofTrue");
    assert_eq!(vs.len(), 1);
    assert_eq!(vs[0].kind, ViolationKind::Oneof);
    assert_eq!(vs[0].element, "schema.test.v1.OneofTrue.true");
}

#[test]
fn file_level_enum_value_named_false_caught() {
    let vs: Vec<_> = all_violations()
        .into_iter()
        .filter(|v| v.element == "schema.test.v1.false")
        .collect();
    assert_eq!(vs.len(), 1);
    assert_eq!(vs[0].kind, ViolationKind::EnumValue);
}

#[test]
fn nested_enum_value_caught() {
    let vs = under("schema.test.v1.OuterWithNestedEnum");
    assert_eq!(vs.len(), 1);
    assert_eq!(vs[0].kind, ViolationKind::EnumValue);
    assert_eq!(vs[0].element, "schema.test.v1.OuterWithNestedEnum.null");
}

#[test]
fn nested_message_field_caught() {
    let vs: Vec<_> = under("schema.test.v1.OuterWithNestedMsg")
        .into_iter()
        .filter(|v| v.kind == ViolationKind::Field)
        .collect();
    assert_eq!(vs.len(), 1);
    assert_eq!(vs[0].element, "schema.test.v1.OuterWithNestedMsg.Inner.true");
}

#[test]
fn case_sensitive_check() {
    assert!(under("schema.test.v1.CaseInsensitiveOK").is_empty());
}

#[test]
fn multi_violation_sort_by_element_fqn() {
    let vs = under("schema.test.v1.MultiViolations");
    let elements: Vec<&str> = vs.iter().map(|v| v.element.as_str()).collect();
    assert_eq!(
        elements,
        vec!["schema.test.v1.MultiViolations.false", "schema.test.v1.MultiViolations.null",]
    );
}

#[test]
fn synthetic_oneof_from_proto3_optional_is_filtered() {
    let vs = under("schema.test.v1.SyntheticOneof");
    assert_eq!(vs.len(), 1);
    assert_eq!(vs[0].kind, ViolationKind::Field);
}

#[test]
fn file_path_in_violation_matches_proto_name() {
    let vs = under("schema.test.v1.FieldNull");
    assert_eq!(vs[0].file, "schema-test.proto");
}

// ---- annotation placement ----

fn element_ref(full: &str, fields: Vec<KeyCandidate>) -> FieldKind {
    FieldKind::Message(MessageRef { full_name: full.to_string(), fields })
}

fn candidate(msg: &str, name: &str, is_string: bool, is_list: bool) -> KeyCandidate {
    KeyCandidate {
        name: name.to_string(),
        full_name: format!("{}.{}", msg, name),
        is_list,
        is_map: false,
        is_string,
    }
}

fn one_file(messages: Vec<MessageSchema>) -> Vec<FileSchema> {
    vec![FileSchema {
        path: "p.proto".to_string(),
        messages,
        enums: Vec::new(),
        dependencies: Vec::new(),
    }]
}

#[test]
fn key_option_placements() {
    let mut m = message("Book", &["items", "single", "bad_name", "bad_type"]);
    let elem = "schema.test.v1.Item";
    let cands = vec![candidate(elem, "id", true, false), candidate(elem, "n", false, false)];
    m.fields[0].kind = element_ref(elem, cands.clone());
    m.fields[0].is_list = true;
    m.fields[0].key = Some("id".to_string());
    m.fields[1].kind = element_ref(elem, cands.clone());
    m.fields[1].key = Some("id".to_string());
    m.fields[2].kind = element_ref(elem, cands.clone());
    m.fields[2].is_list = true;
    m.fields[2].key = Some("missing".to_string());
    m.fields[3].kind = element_ref(elem, cands);
    m.fields[3].is_list = true;
    m.fields[3].key = Some("n".to_string());
    let vs = validate_file(&one_file(vec![m]), 0);
    let details: Vec<(&str, &str)> =
        vs.iter().map(|v| (v.element.as_str(), v.detail.as_str())).collect();
    assert_eq!(
        details,
        vec![
            (
                "schema.test.v1.Book.bad_name",
                "element message schema.test.v1.Item has no field \"missing\""
            ),
            (
                "schema.test.v1.Book.bad_type",
                "key field schema.test.v1.Item.n must be a singular string field"
            ),
            (
                "schema.test.v1.Book.single",
                "(pxf.key) is valid only on repeated message-typed fields"
            ),
        ]
    );
    assert!(vs.iter().all(|v| v.kind == ViolationKind::KeyOption));
    assert_eq!(
        vs[2].render(),
        "p.proto: field \"schema.test.v1.Book.single\": invalid (pxf.key) = \"id\": (pxf.key) is valid only on repeated message-typed fields (draft -01 §3.13)"
    );
}

#[test]
fn default_option_placements() {
    let mut m = message("D", &["a_map", "b_list", "c_group", "d_msg", "e_ts", "f_int"]);
    for f in m.fields.iter_mut() {
        f.default = Some("1".to_string());
    }
    m.fields[0].is_map = true;
    m.fields[0].is_list = true;
    m.fields[1].is_list = true;
    m.fields[2].is_group = true;
    m.fields[2].kind = element_ref("schema.test.v1.G", Vec::new());
    m.fields[3].kind = element_ref("schema.test.v1.Other", Vec::new());
    m.fields[4].kind = element_ref("google.protobuf.Timestamp", Vec::new());
    let vs = validate_file(&one_file(vec![m]), 0);
    let details: Vec<&str> = vs.iter().map(|v| v.detail.as_str()).collect();
    assert_eq!(
        details,
        vec![
            "(pxf.default) is not valid on map fields: one literal cannot denote a map",
            "(pxf.default) is not valid on repeated fields: one literal cannot denote a list",
            "(pxf.default) is not valid on group fields",
            "(pxf.default) is not valid on message type schema.test.v1.Other: no PXF literal denotes it",
        ]
    );
    assert!(vs.iter().all(|v| v.kind == ViolationKind::DefaultOption && v.name == "1"));
}

#[test]
fn oneof_rules() {
    let mut m = message("O", &["a", "b", "c", "d"]);
    m.oneofs.push(OneofSchema {
        name: "choice".to_string(),
        full_name: "schema.test.v1.O.choice".to_string(),
        synthetic: false,
    });
    m.oneofs.push(OneofSchema {
        name: "other".to_string(),
        full_name: "schema.test.v1.O.other".to_string(),
        synthetic: false,
    });
    m.fields[0].oneof = Some(0);
    m.fields[0].default = Some("1".to_string());
    m.fields[1].oneof = Some(1);
    m.fields[1].default = Some("2".to_string());
    m.fields[2].oneof = Some(0);
    m.fields[2].default = Some("3".to_string());
    m.fields[3].oneof = Some(1);
    m.fields[3].required = true;
    let vs = validate_file(&one_file(vec![m]), 0);
    let got: Vec<(&str, ViolationKind, &str)> =
        vs.iter().map(|v| (v.element.as_str(), v.kind, v.name.as_str())).collect();
    assert_eq!(
        got,
        vec![
            ("schema.test.v1.O.a", ViolationKind::DefaultOption, "1"),
            ("schema.test.v1.O.c", ViolationKind::DefaultOption, "3"),
            ("schema.test.v1.O.d", ViolationKind::RequiredOption, "other"),
        ]
    );
    assert_eq!(
        vs[0].detail,
        "at most one member of oneof \"choice\" may carry a default; 2 do (a, c)"
    );
    assert!(vs[2].render().starts_with(
        "p.proto: field \"schema.test.v1.O.d\": invalid (pxf.required): (pxf.required) is not valid on a member of oneof \"other\""
    ));
}

#[test]
fn closure_walks_imports_once_and_sorts_by_file() {
    let bad = |path: &str, msg: &str, deps: Vec<usize>| FileSchema {
        path: path.to_string(),
        messages: vec![message(msg, &["null"])],
        enums: Vec::new(),
        dependencies: deps,
    };
    // a imports b and c, both import d; b imports a back.
    let files = vec![
        bad("a.proto", "A", vec![1, 2]),
        bad("b.proto", "B", vec![3, 0]),
        bad("c.proto", "C", vec![3, 7]),
        bad("d.proto", "D", vec![]),
    ];
    let vs = validate_file(&files, 0);
    let got: Vec<(&str, &str)> = vs.iter().map(|v| (v.file.as_str(), v.element.as_str())).collect();
    assert_eq!(
        got,
        vec![
            ("a.proto", "schema.test.v1.A.null"),
            ("b.proto", "schema.test.v1.B.null"),
            ("c.proto", "schema.test.v1.C.null"),
            ("d.proto", "schema.test.v1.D.null"),
        ]
    );
    // From c, only c and d are in reach.
    assert_eq!(validate_file(&files, 2).len(), 2);
    assert!(validate_file(&files, 9).is_empty());
}

#[test]
fn conformant_file_has_no_violations() {
    let files = one_file(vec![message("Conformant", &["price", "qty"])]);
    assert!(validate_file(&files, 0).is_empty());
}
