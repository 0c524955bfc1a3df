use protowire::pxf::parse;
use protowire::pxf::table_reader::row_body;

#[test]
fn row_body_renders_present_cells_in_column_order() {
    let doc = parse("@dataset x.Row ( a, b, c, d, e, f )\n( 42, \"q\\\"x\\\\\", true, null, , b\"aGk=\" )\n").unwrap();
    let t = &doc.datasets[0];
    let body = row_body(&t.columns, &t.rows[0]).unwrap();
    assert_eq!(body, "a = 42\nb = \"q\\\"x\\\\\"\nc = true\nd = null\nf = b\"aGk=\"\n");
}

#[test]
fn row_body_rejects_a_column_count_mismatch() {
    let doc = parse("@dataset x.Row ( a, b )\n( 1, 2 )\n").unwrap();
    let t = &doc.datasets[0];
    let cols = vec!["a".to_string()];
    let err = row_body(&cols, &t.rows[0]).unwrap_err();
    assert_eq!(err.msg, "pxf: bind_row: 1 columns vs 2 cells");
}

#[test]
fn row_body_of_timestamps_durations_and_idents() {
    let doc = parse("@dataset x.Row ( t, d, e, g )\n( 2024-01-02T03:04:05Z, 1h30m, RED, 1.5 )\n").unwrap();
    let t = &doc.datasets[0];
    let body = row_body(&t.columns, &t.rows[0]).unwrap();
    assert_eq!(body, "t = 2024-01-02T03:04:05Z\nd = 1h30m\ne = RED\ng = 1.5\n");
}
