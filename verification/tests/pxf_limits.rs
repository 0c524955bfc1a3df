//! The per-call limits as the streaming dataset reader applies them.
use std::io::Cursor;

use protowire::pxf::{DatasetReader, Limits};

/// The stream reader caps the bytes it holds while looking for a row
/// boundary, so a stream that never ends a row cannot grow the buffer
/// without bound.
#[test]
fn dataset_reader_max_message_size() {
    let input = "@dataset test.v1.Nested (name, value)\n(\"AAPL\", 1)\n(\"MSFT\", 2)";
    let mut r = DatasetReader::new(Cursor::new(input)).expect("header");
    let mut rows = 0;
    while r.next_row().is_some() {
        rows += 1;
    }
    assert_eq!(rows, 2, "default reads both rows");

    // A row far longer than the cap, never closed.
    let never_ends = format!(
        "@dataset test.v1.Nested (name, value)\n(\"{}\", 1)",
        "a".repeat(10_000)
    );
    let limits = Limits {
        max_message_size: 4096,
        ..Limits::default()
    };
    let mut r = DatasetReader::with_limits(Cursor::new(never_ends), limits).expect("header");
    let err = r.next_row().expect("a result").expect_err("must reject");
    assert!(err.msg.contains("MaxMessageSize=4096"), "{}", err.msg);
}
