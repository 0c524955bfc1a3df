//! Formatter tests: documents back to text.
use protowire::pxf::ast::Entry;
use protowire::pxf::format::{format_with_options, FormatOptions};
use protowire::pxf::parse;


fn round_trip(src: &str) -> String {
    protowire::pxf::format::format(&parse(src).unwrap())
}

// ---------------- scalar values ----------------

#[test]
fn format_scalar_string() {
    assert_eq!(round_trip("name = \"Alice\""), "name = \"Alice\"\n");
}

#[test]
fn scalar_escape_sequences_re_emitted() {
    let src = "msg = \"line1\\nline2\\t\\\"q\\\"\"";
    let expected = "msg = \"line1\\nline2\\t\\\"q\\\"\"\n";
    assert_eq!(round_trip(src), expected);
}

#[test]
fn scalar_int_negative_int_float() {
    assert_eq!(round_trip("port = 8443"), "port = 8443\n");
    assert_eq!(round_trip("delta = -42"), "delta = -42\n");
    assert_eq!(round_trip("ratio = 0.85"), "ratio = 0.85\n");
}

#[test]
fn scalar_bool_null_ident() {
    assert_eq!(round_trip("enabled = true"), "enabled = true\n");
    assert_eq!(round_trip("email = null"), "email = null\n");
    assert_eq!(
        round_trip("status = STATUS_SERVING"),
        "status = STATUS_SERVING\n"
    );
}

#[test]
fn scalar_timestamp_and_duration_use_raw_lexeme() {
    assert_eq!(
        round_trip("created_at = 2024-01-15T10:30:00Z"),
        "created_at = 2024-01-15T10:30:00Z\n"
    );
    assert_eq!(round_trip("timeout = 1h30m"), "timeout = 1h30m\n");
}

#[test]
fn scalar_bytes_re_encode_to_padded_base64() {
    // "Hello" → SGVsbG8= regardless of whether the input was raw or padded.
    assert_eq!(round_trip("raw = b\"SGVsbG8\""), "raw = b\"SGVsbG8=\"\n");
    assert_eq!(round_trip("raw = b\"SGVsbG8=\""), "raw = b\"SGVsbG8=\"\n");
}

// ---------------- @type directive and document leading comments ----------------

#[test]
fn at_type_appears_at_top_with_blank_line_after() {
    let out = round_trip("@type pkg.M\nname = \"x\"");
    assert_eq!(out, "@type pkg.M\n\nname = \"x\"\n");
}

#[test]
fn doc_level_leading_comments_emitted_before_entries() {
    let src = "# top of file\n@type pkg.M\nname = \"x\"";
    assert_eq!(
        round_trip(src),
        "@type pkg.M\n\n# top of file\nname = \"x\"\n"
    );
}

// ---------------- blocks ----------------

#[test]
fn block_indents_two_spaces_by_default() {
    let src = "tls {\n  cert_file = \"/etc/ssl/cert.pem\"\n  verify    = true\n}";
    assert_eq!(
        round_trip(src),
        "tls {\n  cert_file = \"/etc/ssl/cert.pem\"\n  verify = true\n}\n"
    );
}

#[test]
fn block_custom_indent_option_four_space() {
    let src = "tls { verify = true }";
    let opts = FormatOptions {
        indent: "    ".to_string(),
    };
    let out = format_with_options(&parse(src).unwrap(), &opts);
    assert_eq!(out, "tls {\n    verify = true\n}\n");
}

#[test]
fn block_nested_blocks() {
    let out = round_trip("a { b { c = 1 } }");
    assert_eq!(out, "a {\n  b {\n    c = 1\n  }\n}\n");
}

// ---------------- lists ----------------

#[test]
fn list_scalar_emits_commas_between_elements_none_after_last() {
    let out = round_trip("tags = [\"a\", \"b\", \"c\"]");
    assert_eq!(out, "tags = [\n  \"a\",\n  \"b\",\n  \"c\"\n]\n");
}

#[test]
fn list_normalizes_commaless_into_comma_separated() {
    let src = "tags = [\n  \"a\"\n  \"b\"\n]";
    assert_eq!(round_trip(src), "tags = [\n  \"a\",\n  \"b\"\n]\n");
}

#[test]
fn format_list_of_inline_blocks() {
    let src = "endpoints = [\n  { path = \"/api\" }\n  { path = \"/health\" }\n]";
    let out = round_trip(src);
    assert_eq!(
        out,
        "endpoints = [\n  {\n    path = \"/api\"\n  },\n  {\n    path = \"/health\"\n  }\n]\n"
    );
}

// ---------------- maps ----------------

#[test]
fn format_map_string_keyed() {
    let src = "labels = {\n  env: \"prod\"\n  team: \"platform\"\n}";
    assert_eq!(
        round_trip(src),
        "labels = {\n  env: \"prod\"\n  team: \"platform\"\n}\n"
    );
}

#[test]
fn map_keys_with_non_ident_chars_get_quoted() {
    let src = "labels = {\n  \"key with space\": \"v\"\n}";
    assert_eq!(
        round_trip(src),
        "labels = {\n  \"key with space\": \"v\"\n}\n"
    );
}

#[test]
fn map_int_keyed_quotes_numeric_keys() {
    // "404" / "500" begin with a digit, so needs_quoting returns true and
    // the formatter wraps them in quotes.
    let src = "codes = {\n  404: \"Not Found\"\n  500: \"Internal\"\n}";
    assert_eq!(
        round_trip(src),
        "codes = {\n  \"404\": \"Not Found\"\n  \"500\": \"Internal\"\n}\n"
    );
}

// ---------------- comment preservation ----------------

#[test]
fn comments_leading_on_entries_preserved() {
    let src = "# explain this\nname = \"x\"";
    assert_eq!(round_trip(src), "# explain this\nname = \"x\"\n");
}

#[test]
fn comments_inside_a_block_stay_inside() {
    let src = "tls {\n  # cert path\n  cert_file = \"/etc/cert.pem\"\n}";
    assert_eq!(
        round_trip(src),
        "tls {\n  # cert path\n  cert_file = \"/etc/cert.pem\"\n}\n"
    );
}

#[test]
fn comments_slash_and_block_styles_round_trip_verbatim() {
    let src = "// slash comment\n/* block comment */\nname = \"x\"";
    assert_eq!(
        round_trip(src),
        "// slash comment\n/* block comment */\nname = \"x\"\n"
    );
}

// ---------------- end-to-end idempotence ----------------

#[test]
fn formatting_twice_is_a_no_op() {
    let src = "@type pkg.M\n\
               \n\
               # header\n\
               name = \"Alice\"\n\
               port = 8443\n\
               enabled = true\n\
               tls {\n  cert_file = \"/etc/cert.pem\"\n}\n\
               tags = [\n  \"a\",\n  \"b\"\n]\n\
               labels = {\n  env: \"prod\"\n}\n";
    let once = protowire::pxf::format::format(&parse(src).unwrap());
    let twice = protowire::pxf::format::format(&parse(&once).unwrap());
    assert_eq!(twice, once);
}

#[test]
fn end_to_end_pxf_readme_sample_is_idempotent() {
    let src = "@type infra.v1.ServerConfig\n\
               \n\
               hostname = \"web-01.prod.example.com\"\n\
               port = 8443\n\
               enabled = true\n\
               status = STATUS_SERVING\n\
               created_at = 2024-01-15T10:30:00Z\n\
               timeout = 30s\n\
               tls {\n  cert_file = \"/etc/ssl/cert.pem\"\n  verify = true\n}\n\
               tags = [\n  \"production\",\n  \"us-east\"\n]\n\
               labels = {\n  env: \"production\"\n}\n";
    let once = protowire::pxf::format::format(&parse(src).unwrap());
    let twice = protowire::pxf::format::format(&parse(&once).unwrap());
    assert_eq!(twice, once);
}

/// The grammar side: a quoted entry name parses everywhere (with `{` or
/// `= { }`), the AST records the quoting, and the schema-less formatter
/// reproduces it byte for byte.
#[test]
fn quoted_entry_name_grammar_and_fidelity() {
    let input = "regions {\n  \"us-east-1\" {\n    replicas = 3\n  }\n}\n";
    let doc = parse(input).unwrap();
    let Entry::Block(regions) = &doc.entries[0] else {
        panic!()
    };
    let Entry::Block(entry) = &regions.entries[0] else {
        panic!()
    };
    assert_eq!(entry.name, "us-east-1");
    assert!(entry.name_quoted);
    assert_eq!(protowire::pxf::format::format(&doc), input);

    let doc = parse("regions {\n  \"us-east-1\" = { replicas = 3 }\n}\n").unwrap();
    let Entry::Block(regions) = &doc.entries[0] else {
        panic!()
    };
    let Entry::Assignment(a) = &regions.entries[0] else {
        panic!()
    };
    assert_eq!(a.key, "us-east-1");
    assert!(a.key_quoted);

    // Integer and bool keys still take only the ':' tail.
    let err = parse("m {\n  1 = \"x\"\n}").unwrap_err();
    assert!(
        err.msg.contains("requires an identifier or string key"),
        "{}",
        err.msg
    );
}
