//! Streaming `@table` consumption.
use std::io::Cursor;

use protowire::pxf::ast::Value as AstValue;
use protowire::pxf::bind::{bind_row, UnmarshalOptions};
use protowire::pxf::decode::{
    DecodedValue, FieldShape, FieldType, FieldValue, NodeData, ScalarKind, Schema, SchemaField,
    SchemaMessage,
};
use protowire::pxf::{PxfError, TableReader};
use std::io::Read;

fn reader(src: &str) -> Result<TableReader<Cursor<Vec<u8>>>, PxfError> {
    TableReader::new(Cursor::new(src.as_bytes().to_vec()))
}

/// How many results the reader yields before it is done.
fn count_rows<R: std::io::Read>(mut tr: TableReader<R>) -> usize {
    let mut n = 0;
    while tr.next_row().is_some() {
        n += 1;
    }
    n
}

// ---- header parsing -----------------------------------------------------

#[test]
fn header_exposes_type_and_columns() {
    let tr = reader("@table trades.v1.Trade ( px, qty )\n( 100, 5 )\n( 101, 7 )\n").unwrap();
    assert_eq!(tr.message_type(), "trades.v1.Trade");
    assert_eq!(tr.columns(), &["px", "qty"]);
    assert!(tr.directives().is_empty());
}

#[test]
fn no_table_returns_error() {
    let err = reader("@type foo.Msg\nname = \"x\"\n").err().expect("err");
    assert!(err.render().contains("no @table"));
}

#[test]
fn empty_input_returns_error() {
    let err = reader("").err().expect("err");
    assert!(err.render().contains("no @table"));
}

#[test]
fn leading_directives_preserved() {
    let src = "@header pkg.Hdr { id = \"h\" }\n\
               @frob alpha\n\
               @table trades.v1.Trade ( px, qty )\n\
               ( 1, 2 )\n";
    let tr = reader(src).unwrap();
    assert_eq!(tr.directives().len(), 2);
    assert_eq!(tr.directives()[0].name, "header");
    assert_eq!(tr.directives()[1].name, "frob");
}

#[test]
fn header_oversize_rejected() {
    let mut big = String::from("@frob ");
    while big.len() < 70 * 1024 {
        big.push_str("x ");
    }
    big.push_str("\n@table x.Row ( a )\n");
    let err = reader(&big).err().expect("err");
    assert!(err.render().contains("header exceeds"));
}

// ---- iteration -----------------------------------------------------------

#[test]
fn iterator_yields_rows_in_order() {
    let mut tr = reader("@table x.Row ( a, b )\n( 1, 2 )\n( 3, 4 )\n( 5, 6 )\n").unwrap();
    let mut count = 0;
    while let Some(row) = tr.next_row() {
        let row = row.unwrap();
        assert_eq!(row.cells.len(), 2);
        count += 1;
    }
    assert_eq!(count, 3);
    assert!(tr.done());
}

#[test]
fn zero_rows_reports_done_immediately() {
    let mut tr = reader("@table x.Row ( a )\n").unwrap();
    assert!(tr.next_row().is_none());
    assert!(tr.done());
}

#[test]
fn cell_shapes_match_three_state_grammar() {
    let mut tr = reader("@table x.Row ( a, b, c, d, e )\n( 42, \"hi\", true, null, )\n").unwrap();
    let row = tr.next_row().unwrap().unwrap();
    assert!(matches!(row.cells[0], Some(AstValue::Int(_))));
    assert!(matches!(&row.cells[1], Some(AstValue::String(s)) if s.value == "hi"));
    assert!(matches!(row.cells[2], Some(AstValue::Bool(_))));
    assert!(matches!(row.cells[3], Some(AstValue::Null(_))));
    assert!(row.cells[4].is_none()); // absent (empty cell at end)
}

#[test]
fn arity_mismatch_surfaces_as_error() {
    let mut tr = reader("@table x.Row ( a, b )\n( 1, 2, 3 )\n( 4, 5 )\n").unwrap();
    let err = tr.next_row().unwrap().unwrap_err();
    assert!(err.render().contains("3 cells, expected 2"));
}

#[test]
fn parens_inside_strings_not_row_boundary() {
    let mut tr = reader("@table x.Row ( a )\n( \"hi ) there\" )\n( \"next\" )\n").unwrap();
    let r1 = tr.next_row().unwrap().unwrap();
    match &r1.cells[0] {
        Some(AstValue::String(s)) => assert_eq!(s.value, "hi ) there"),
        other => panic!("expected String, got {:?}", other),
    }
    let r2 = tr.next_row().unwrap().unwrap();
    match &r2.cells[0] {
        Some(AstValue::String(s)) => assert_eq!(s.value, "next"),
        other => panic!("expected String, got {:?}", other),
    }
    assert!(tr.next_row().is_none());
}

#[test]
fn comments_between_rows_ignored() {
    let src = "@table x.Row ( a )\n\
               # leading\n\
               ( 1 )\n\
               // mid\n\
               ( 2 )\n\
               /* block\n\
                  comment */\n\
               ( 3 )\n";
    let tr = reader(src).unwrap();
    assert_eq!(count_rows(tr), 3);
}

#[test]
fn streaming_pull_across_chunks() {
    // Reader source that yields one byte at a time, forcing many
    // pull() round-trips inside read_header and next_row.
    struct OneByteReader(std::io::Cursor<Vec<u8>>);
    impl std::io::Read for OneByteReader {
        fn read(&mut self, buf: &mut [u8]) -> std::io::Result<usize> {
            if buf.is_empty() {
                return Ok(0);
            }
            let mut one = [0u8; 1];
            let n = self.0.read(&mut one)?;
            if n == 0 {
                return Ok(0);
            }
            buf[0] = one[0];
            Ok(1)
        }
    }
    let src = "@table x.Row ( a )\n( 1 )\n( 2 )\n( 3 )\n";
    let tr = TableReader::new(OneByteReader(Cursor::new(src.as_bytes().to_vec()))).unwrap();
    assert_eq!(count_rows(tr), 3);
}


#[test]
fn error_is_sticky_then_none() {
    let mut tr = reader("@table x.Row ( a, b )\n( 1, 2, 3 )\n( 4, 5 )\n").unwrap();
    let err = tr.next_row().unwrap().unwrap_err();
    assert!(err.render().contains("3 cells, expected 2"));
    assert!(tr.next_row().is_none());
    assert!(tr.next_row().is_none());
}

fn all_types() -> Schema {
    let f = |name: &str, k: ScalarKind| SchemaField {
        name: name.to_string(),
        kind: FieldType::Value(FieldShape::Single(k)),
        oneof: None,
        required: false,
        default: None,
    };
    Schema {
        messages: vec![SchemaMessage {
            full_name: "test.v1.AllTypes".to_string(),
            fields: vec![
                f("string_field", ScalarKind::String),
                f("int32_field", ScalarKind::Int32),
                f("bytes_field", ScalarKind::Bytes),
            ],
        }],
    }
}

fn single<'a>(
    d: &'a protowire::pxf::bind::Decoded,
    name: &str,
) -> Option<&'a FieldValue> {
    d.nodes.iter().rev().find(|n| n.parent.is_none() && n.field == name).map(|n| match &n.data {
        NodeData::Value(DecodedValue::Single(v)) => v,
        other => panic!("{other:?}"),
    })
}

#[test]
fn bind_row_sets_fields_by_column() {
    let mut tr =
        reader("@table test.v1.AllTypes ( string_field, int32_field )\n( \"alpha\", 42 )\n")
            .unwrap();
    let columns = tr.columns().to_vec();
    let row = tr.next_row().unwrap().unwrap();
    let msg = bind_row(&all_types(), 0, &columns, &row, UnmarshalOptions::default()).unwrap();
    match single(&msg, "string_field") {
        Some(FieldValue::String(s)) => assert_eq!(s, "alpha"),
        v => panic!("expected String, got {:?}", v),
    }
    match single(&msg, "int32_field") {
        Some(FieldValue::I32(v)) => assert_eq!(*v, 42),
        v => panic!("expected I32, got {:?}", v),
    }
}

#[test]
fn scan_one_is_equivalent_to_next_plus_bind() {
    let mut tr =
        reader("@table test.v1.AllTypes ( string_field )\n( \"row1\" )\n( \"row2\" )\n").unwrap();
    let mut seen = Vec::new();
    while let Some(msg) = tr.scan_one(&all_types(), 0, UnmarshalOptions::default()).unwrap() {
        if let Some(FieldValue::String(s)) = single(&msg, "string_field") {
            seen.push(s.clone());
        }
    }
    assert_eq!(seen, vec!["row1".to_string(), "row2".to_string()]);
}

#[test]
fn bind_row_absent_cell_leaves_field_default() {
    let mut tr =
        reader("@table test.v1.AllTypes ( string_field, int32_field )\n( , 7 )\n").unwrap();
    let columns = tr.columns().to_vec();
    let row = tr.next_row().unwrap().unwrap();
    let msg = bind_row(&all_types(), 0, &columns, &row, UnmarshalOptions::default()).unwrap();
    assert!(single(&msg, "string_field").is_none());
    match single(&msg, "int32_field") {
        Some(FieldValue::I32(v)) => assert_eq!(*v, 7),
        v => panic!("got {:?}", v),
    }
}

#[test]
fn bind_row_mismatched_columns_errors() {
    let mut tr = reader("@table test.v1.AllTypes ( string_field )\n( \"x\" )\n").unwrap();
    let row = tr.next_row().unwrap().unwrap();
    let bad_columns = vec!["string_field".to_string(), "extra".to_string()];
    let err = bind_row(&all_types(), 0, &bad_columns, &row, UnmarshalOptions::default()).unwrap_err();
    assert!(err.render().contains("2 columns vs 1 cells"));
}

#[test]
fn bind_row_unknown_column_errors() {
    let mut tr = reader("@table test.v1.AllTypes ( not_a_field )\n( \"x\" )\n").unwrap();
    let err = tr.scan_one(&all_types(), 0, UnmarshalOptions::default()).unwrap_err();
    assert!(err.render().to_lowercase().contains("unknown"));
}

#[test]
fn bind_row_string_escape_round_trip() {
    let mut tr =
        reader("@table test.v1.AllTypes ( string_field )\n( \"she said \\\"hi\\\"\" )\n").unwrap();
    let columns = tr.columns().to_vec();
    let row = tr.next_row().unwrap().unwrap();
    let msg = bind_row(&all_types(), 0, &columns, &row, UnmarshalOptions::default()).unwrap();
    if let Some(FieldValue::String(s)) = single(&msg, "string_field") {
        assert_eq!(s, "she said \"hi\"");
    } else {
        panic!("expected String");
    }
}

#[test]
fn bind_row_bytes_cell_round_trip() {
    let mut tr = reader("@table test.v1.AllTypes ( bytes_field )\n( b\"YWJj\" )\n").unwrap(); // "abc"
    let columns = tr.columns().to_vec();
    let row = tr.next_row().unwrap().unwrap();
    let msg = bind_row(&all_types(), 0, &columns, &row, UnmarshalOptions::default()).unwrap();
    if let Some(FieldValue::Bytes(b)) = single(&msg, "bytes_field") {
        assert_eq!(b.as_slice(), b"abc");
    } else {
        panic!("expected Bytes");
    }
}

#[test]
fn tail_chains_to_second_table() {
    let src = "@table a.Row ( x )\n\
               ( 1 )\n\
               ( 2 )\n\
               @table b.Row ( y )\n\
               ( \"p\" )\n\
               ( \"q\" )\n";
    let mut tr1 = reader(src).unwrap();
    assert_eq!(tr1.message_type(), "a.Row");
    while let Some(r) = tr1.next_row() {
        r.unwrap();
    }
    let (pending, rest) = tr1.tail();
    let mut tr2 = TableReader::new(Cursor::new(pending).chain(rest)).unwrap();
    assert_eq!(tr2.message_type(), "b.Row");
    let mut n = 0;
    while let Some(r) = tr2.next_row() {
        r.unwrap();
        n += 1;
    }
    assert_eq!(n, 2);
}
