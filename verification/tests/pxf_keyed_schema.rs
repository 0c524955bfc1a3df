//! Keyed-field helpers, schema vocabulary and field presence.
use protowire::pxf::ast::{Assignment, Block, Comment, Entry, StringVal, Value};
use protowire::pxf::keyed::{
    drop_key_assignments, duplicate_key_error, empty_name_error, explicit_key_of,
    quoted_name_unkeyed_error, KeyedElemState,
};
use protowire::pxf::schema::as_validation_error_message;
use protowire::pxf::{
    ident_safe_entry_name, is_defaultable_message, is_future_reserved_directive, parse, Position,
    Presence, Violation, ViolationKind,
};

fn pos(line: usize) -> Position {
    Position { line, column: 1, offset: 0 }
}

fn comment(text: &str) -> Comment {
    Comment { pos: pos(1), text: text.to_string() }
}

fn str_assign(key: &str, value: &str, quoted: bool, comments: Vec<Comment>) -> Entry {
    Entry::Assignment(Assignment {
        pos: pos(1),
        key: key.to_string(),
        key_quoted: quoted,
        value: Value::String(StringVal { pos: pos(1), value: value.to_string() }),
        leading_comments: comments,
        trailing_comment: String::new(),
    })
}

#[test]
fn keyed_entry_name_spelling() {
    for (name, ok) in [
        ("greeting", true),
        ("user.name", true),
        ("_x1", true),
        ("us-east-1", false),
        ("1abc", false),
        ("", false),
        ("true", false),
        ("false", false),
        ("null", false),
        ("Null", true),
        ("été", false),
    ] {
        assert_eq!(ident_safe_entry_name(name), ok, "{name:?}");
    }
}

#[test]
fn keyed_error_wording() {
    let e = empty_name_error(pos(3), "children");
    assert_eq!(e.pos, pos(3));
    assert_eq!(
        e.msg,
        "empty entry name in keyed field \"children\": the empty string is not a valid key"
    );
    assert_eq!(
        duplicate_key_error(pos(1), "children", "a\"b").msg,
        "duplicate key \"a\\\"b\" in keyed field \"children\""
    );
    assert_eq!(
        quoted_name_unkeyed_error(pos(1), "us-east-1").msg,
        "quoted entry name \"us-east-1\" is only valid inside a keyed repeated field's block"
    );
}

#[test]
fn keyed_explicit_key_checks() {
    let named = KeyedElemState {
        field: "children".to_string(),
        key_name: "id".to_string(),
        entry_name: "greeting".to_string(),
        named: true,
    };
    assert!(named.check_explicit_key("greeting", pos(1)).is_ok());
    assert_eq!(
        named.check_explicit_key("other", pos(2)).unwrap_err().msg,
        "key field \"id\" = \"other\" conflicts with entry name \"greeting\" in keyed field \"children\""
    );
    assert_eq!(
        named.check_explicit_key("", pos(2)).unwrap_err().msg,
        "explicit empty-string assignment to key field \"id\" of keyed field \"children\": the empty string is not a valid key"
    );
    let anon = KeyedElemState { named: false, ..named.clone() };
    assert!(anon.check_explicit_key("anything", pos(1)).is_ok());
}

#[test]
fn keyed_explicit_key_of_entries() {
    let doc = parse("id = \"a\"\nname = \"x\"\n").unwrap();
    assert_eq!(explicit_key_of(&doc.entries, "id"), Some("a".to_string()));
    assert_eq!(explicit_key_of(&doc.entries, "missing"), None);
    let twice = parse("id = \"a\"\nid = \"b\"\n").unwrap();
    assert_eq!(explicit_key_of(&twice.entries, "id"), None);
    let not_string = parse("id = 3\n").unwrap();
    assert_eq!(explicit_key_of(&not_string.entries, "id"), None);
    let quoted = vec![str_assign("id", "a", true, vec![])];
    assert_eq!(explicit_key_of(&quoted, "id"), None);
}

#[test]
fn keyed_drop_agreeing_assignments() {
    let entries = vec![
        str_assign("id", "greeting", false, vec![comment("# the key")]),
        Entry::Block(Block {
            pos: pos(2),
            name: "inner".to_string(),
            name_quoted: false,
            entries: vec![],
            leading_comments: vec![comment("# inner")],
        }),
        str_assign("id", "other", false, vec![]),
        str_assign("id", "greeting", false, vec![comment("# trailing")]),
    ];
    let out = drop_key_assignments(entries, "id", "greeting");
    assert_eq!(out.len(), 2);
    let Entry::Block(b) = &out[0] else { panic!() };
    assert_eq!(b.name, "inner");
    let texts: Vec<&str> = b.leading_comments.iter().map(|c| c.text.as_str()).collect();
    assert_eq!(texts, vec!["# the key", "# inner"]);
    let Entry::Assignment(a) = &out[1] else { panic!() };
    assert_eq!(a.key, "id");
}

#[test]
fn schema_reserved_vocabulary() {
    for name in ["table", "datasource", "view", "procedure", "function", "permissions"] {
        assert!(is_future_reserved_directive(name), "{name}");
    }
    for name in ["type", "dataset", "proto", "entry", "Table", ""] {
        assert!(!is_future_reserved_directive(name), "{name}");
    }
    for full in [
        "google.protobuf.Timestamp",
        "google.protobuf.Duration",
        "google.protobuf.BytesValue",
        "pxf.BigInt",
        "pxf.Decimal",
        "pxf.BigFloat",
    ] {
        assert!(is_defaultable_message(full), "{full}");
    }
    assert!(!is_defaultable_message("google.protobuf.Any"));
    assert!(!is_defaultable_message("pxf.bigint"));
}

fn violation(kind: ViolationKind, name: &str, detail: &str) -> Violation {
    Violation {
        file: "a.proto".to_string(),
        element: "pkg.M.f".to_string(),
        name: name.to_string(),
        kind,
        detail: detail.to_string(),
    }
}

#[test]
fn schema_violation_text() {
    assert_eq!(ViolationKind::EnumValue.label(), "enum value");
    assert_eq!(
        violation(ViolationKind::Field, "null", "").render(),
        "a.proto: message field \"pkg.M.f\" uses PXF-reserved name \"null\" (draft §3.13)"
    );
    assert_eq!(
        violation(ViolationKind::KeyOption, "id", "no such field").render(),
        "a.proto: field \"pkg.M.f\": invalid (pxf.key) = \"id\": no such field (draft -01 §3.13)"
    );
    assert_eq!(
        violation(ViolationKind::RequiredOption, "choice", "oneof member").render(),
        "a.proto: field \"pkg.M.f\": invalid (pxf.required): oneof member (draft -01 §annotation-extensions)"
    );
    assert_eq!(as_validation_error_message(&[]), None);
    let msg = as_validation_error_message(&[
        violation(ViolationKind::Oneof, "true", ""),
        violation(ViolationKind::DefaultOption, "1", "repeated"),
    ])
    .unwrap();
    assert_eq!(
        msg,
        "PXF schema violations:\n  a.proto: oneof \"pkg.M.f\" uses PXF-reserved name \"true\" (draft §3.13)\n  a.proto: field \"pkg.M.f\": invalid (pxf.default) = \"1\": repeated (draft -01 §annotation-extensions)"
    );
}

#[test]
fn presence_three_states() {
    let mut p = Presence::new();
    p.mark_present("a");
    p.mark_null("b");
    assert!(p.is_set("a"));
    assert!(!p.is_null("a"));
    assert!(!p.is_absent("a"));
    assert!(p.is_null("b"));
    assert!(!p.is_set("b"));
    assert!(!p.is_absent("b"));
    assert!(p.is_absent("c"));
    assert!(!p.is_set("c"));
    assert!(!p.is_null("c"));
    p.mark_null("a");
    p.mark_null("a");
    assert!(p.is_null("a"));
    let mut nulls = p.null_paths();
    nulls.sort();
    assert_eq!(nulls, vec!["a".to_string(), "b".to_string()]);
}

#[test]
fn presence_directives_in_order() {
    let doc = parse("@header pkg.Hdr { id = \"h\" }\n@frob alpha beta\nx = 1\n").unwrap();
    let mut p = Presence::new();
    for d in doc.directives.iter() {
        p.add_directive(d.clone());
    }
    let names: Vec<&str> = p.directives().iter().map(|d| d.name.as_str()).collect();
    assert_eq!(names, vec!["header", "frob"]);
    assert!(p.datasets().is_empty());
    assert!(p.protos().is_empty());
    let doc = parse("@proto { int32 a = 1; }\n@dataset (a)\n(1)\n").unwrap();
    for d in doc.protos.iter() {
        p.add_proto(d.clone());
    }
    assert_eq!(p.protos().len(), 1);
    let mut doc = doc;
    for d in doc.datasets.drain(..) {
        p.add_dataset(d);
    }
    assert_eq!(p.datasets().len(), 1);
    assert_eq!(p.datasets()[0].columns, vec!["a".to_string()]);
}
