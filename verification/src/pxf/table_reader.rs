//! Streaming consumption of `@table` and `@dataset` directives.
//!
//! A reader pulls bytes from an [`std::io::Read`] source in chunks, reads
//! the header (leading directives and `@table TYPE ( cols )`), then yields
//! one row at a time, in source order. Each row is checked against the
//! columns when it is read; any error makes the reader sticky. The bytes a
//! reader holds while looking for the end of a row are capped by the
//! message-size limit, and the header by [`DEFAULT_HEADER_MAX_BYTES`].
use vstd::prelude::*;
use vstd::string::StringSliceAdditionalSpecFns;
use vstd::utf8::{decode_utf8, decode_utf8_encode_utf8, encode_utf8, valid_utf8};

use crate::pxf::ast::{DatasetRow, Directive, Value};
use crate::pxf::errors::PxfError;
use crate::pxf::limits::Limits;
use crate::pxf::ast::Document;
use crate::pxf::bind::{bind_row, decoded_from, row_document, Decoded, UnmarshalOptions};
use crate::pxf::decode::{schema_ok, Schema};
use crate::pxf::limits::message_size_error;
use crate::pxf::parser::{
    default_limits, document_reads, document_tree, header_run, parse_with_limits, value_ok,
};
use crate::pxf::scan::{find_header_end, find_next_row, row_scan, RowScan};
use crate::pxf::token::Position;
use crate::text::{bytes_range, owned, push_char, push_decimal, push_str, string_from_utf8};

verus! {

/// The cap on the header: the leading directives plus the `@table TYPE (
/// cols )` declaration. Real headers are a few hundred bytes; the cap fails
/// fast on input that does not begin with a table.
pub const DEFAULT_HEADER_MAX_BYTES: usize = 65536;

/// How many bytes one pull from the source asks for.
pub const STREAM_PULL_SIZE: usize = 4096;

/// `std::io::Read::read` into a buffer of `n` bytes, asked again while the
/// source reports `Interrupted`: the bytes read, none at the end of the
/// input, or the text of the error. The documentation of `read` promises at
/// most `n` bytes; which bytes, and how many, is up to the source.
#[verifier::external_body]
fn read_chunk<R: std::io::Read>(src: &mut R, n: usize) -> (r: Result<Vec<u8>, String>)
    ensures
        r matches Ok(v) ==> v@.len() <= n,
{
    let mut buf = vec![0u8; n];
    loop {
        match src.read(&mut buf) {
            Ok(got) => {
                buf.truncate(got);
                return Ok(buf);
            },
            Err(e) if e.kind() == std::io::ErrorKind::Interrupted => {},
            Err(e) => return Err(e.to_string()),
        }
    }
}

/// A row as a reader yields it: one cell per column, none a list or a
/// block.
pub open spec fn row_fits(row: DatasetRow, ncols: nat, lim: Limits) -> bool {
    &&& row.cells@.len() == ncols
    &&& forall|c: int|
        0 <= c < row.cells@.len() ==> match #[trigger] row.cells@[c] {
            Some(v) => !(v is List) && !(v is Block) && value_ok(v, 0, lim),
            None => true,
        }
}

/// The column names joined by `,`.
pub open spec fn joined_columns(cols: Seq<String>) -> Seq<char>
    decreases cols.len(),
{
    if cols.len() == 0 {
        seq![]
    } else if cols.len() == 1 {
        cols[0]@
    } else {
        joined_columns(cols.drop_last()) + seq![','] + cols.last()@
    }
}

/// The text a single row in bytes `start..=end` of `pending` is parsed
/// as: the synthetic header, the row when it is UTF-8, and a newline.
pub open spec fn row_parse_text(
    dataset: bool,
    columns: Seq<String>,
    pending: Seq<u8>,
    start: int,
    end: int,
) -> Seq<char> {
    let b = pending.subrange(start, end + 1);
    (if dataset {
        "@dataset"@
    } else {
        "@table"@
    }) + " _.Row ("@ + joined_columns(columns) + ")\n"@ + (if valid_utf8(b) {
        decode_utf8(b)
    } else {
        seq![]
    }) + seq!['\n']
}

/// What a table or dataset reader takes from its header: the row message
/// type, the column names and the directives before the header.
pub struct TableHeader {
    pub message_type: String,
    pub columns: Vec<String>,
    pub directives: Vec<Directive>,
}

/// Whether `row` is the row that bytes `start..=end` of `pending` read as:
/// the first row of the first `@dataset` (or `@table`) of the document the
/// synthetic text for them reads as.
pub open spec fn row_is(
    dataset: bool,
    columns: Seq<String>,
    pending: Seq<u8>,
    start: int,
    end: int,
    lim: Limits,
    row: DatasetRow,
) -> bool {
    exists|doc: Document|
        #![trigger document_tree(encode_utf8(row_parse_text(dataset, columns, pending, start, end)), lim, doc)]
        document_tree(encode_utf8(row_parse_text(dataset, columns, pending, start, end)), lim, doc)
            && ({
            let t = if dataset {
                doc.datasets@
            } else {
                doc.tables@
            };
            &&& t.len() > 0
            &&& t[0].rows@.len() > 0
            &&& row == t[0].rows@[0]
        })
}

/// The directive word: `@dataset` or `@table`.
pub open spec fn header_word(dataset: bool) -> Seq<char> {
    if dataset {
        "@dataset"@
    } else {
        "@table"@
    }
}

/// Whether `h` is what the header bytes `b` read as: the first `@dataset`
/// (or `@table`) of the document they read as gives the message type and
/// the columns, and the document's `@<name>` directives the directives.
pub open spec fn header_is(b: Seq<u8>, dataset: bool, lim: Limits, h: TableHeader) -> bool {
    exists|doc: Document|
        #![trigger document_tree(b, lim, doc)]
        document_tree(b, lim, doc) && ({
            let t = if dataset {
                doc.datasets@
            } else {
                doc.tables@
            };
            &&& t.len() > 0
            &&& h.message_type@ == t[0].message_type@
            &&& h.columns@ == t[0].columns@
            &&& h.directives@ == doc.directives@
        })
}

/// Whether the header bytes `b` read as a document whose head holds a
/// `@dataset` (or `@table`).
pub open spec fn header_has_table(b: Seq<u8>, dataset: bool, lim: Limits) -> bool {
    header_run(b, 0, false, false, false, lim) matches Some((_, _, tabled, datasetted)) && if dataset {
        datasetted
    } else {
        tabled
    }
}

/// The header of a table or dataset stream: the bytes of the leading
/// directives and the `@table` / `@dataset` declaration, parsed under
/// `limits`.
pub fn parse_header(bytes: &[u8], dataset: bool, limits: Limits) -> (r: Result<TableHeader, PxfError>)
    ensures
        !valid_utf8(bytes@) ==> (r matches Err(e) && e.pos == (Position {
            line: 0,
            column: 0,
            offset: 0,
        }) && e.msg@ == "pxf: "@ + header_word(dataset) + " header is not valid UTF-8"@),
        valid_utf8(bytes@) && bytes@.len() < usize::MAX && bytes@.len() > limits.max_message_size ==> (r matches Err(e) && e.msg@
            == message_size_error(bytes@.len() as nat, limits.max_message_size as nat)),
        valid_utf8(bytes@) && bytes@.len() < usize::MAX && bytes@.len() <= limits.max_message_size && !document_reads(
            bytes@,
            limits,
        ) ==> r is Err,
        valid_utf8(bytes@) && bytes@.len() < usize::MAX && bytes@.len() <= limits.max_message_size && document_reads(
            bytes@,
            limits,
        ) && !header_has_table(bytes@, dataset, limits) ==> (r matches Err(e) && e.msg@ == "pxf: no "@
            + header_word(dataset) + " directive in stream"@),
        valid_utf8(bytes@) && bytes@.len() < usize::MAX && bytes@.len() <= limits.max_message_size && document_reads(
            bytes@,
            limits,
        ) && header_has_table(bytes@, dataset, limits) ==> (r matches Ok(h) && header_is(
            bytes@,
            dataset,
            limits,
            h,
        )),
        valid_utf8(bytes@) && bytes@.len() >= usize::MAX ==> (r matches Err(e) && e.msg@ == "pxf: "@
            + header_word(dataset) + " header is too long"@),
        r matches Ok(h) ==> header_is(bytes@, dataset, limits, h) && h.columns@.len() >= 1
            && forall|c: int|
            0 <= c < h.columns@.len() ==> !(#[trigger] h.columns@[c])@.contains('.'),
{
    let word = if dataset {
        "@dataset"
    } else {
        "@table"
    };
    let text = match string_from_utf8(crate::text::bytes_to_vec(bytes)) {
        Ok(t) => t,
        Err(_) => {
            let mut m = owned("pxf: ");
            push_str(&mut m, word);
            push_str(&mut m, " header is not valid UTF-8");
            return Err(err_at_start(m));
        },
    };
    proof {
        decode_utf8_encode_utf8(bytes@);
    }
    assert(encode_utf8(text@) == bytes@);
    if text.as_str().as_bytes().len() >= usize::MAX {
        let mut m = owned("pxf: ");
        push_str(&mut m, word);
        push_str(&mut m, " header is too long");
        return Err(err_at_start(m));
    }
    let doc = parse_with_limits(text.as_str(), limits)?;
    let ghost d0 = doc;
    let mut tables = if dataset {
        doc.datasets
    } else {
        doc.tables
    };
    if tables.len() == 0 {
        let mut m = owned("pxf: no ");
        push_str(&mut m, word);
        push_str(&mut m, " directive in stream");
        return Err(err_at_start(m));
    }
    let ghost t0 = tables@[0];
    let t = tables.remove(0);
    let h = TableHeader { message_type: t.message_type, columns: t.columns, directives: doc.directives };
    proof {
        assert(document_tree(bytes@, limits, d0));
        assert(header_is(bytes@, dataset, limits, h));
    }
    Ok(h)
}

fn err_at_start(msg: String) -> (e: PxfError)
    ensures
        e.pos == (Position { line: 0, column: 0, offset: 0 }),
        e.msg == msg,
{
    PxfError::new(Position::with_offset(0, 0, 0), msg)
}

/// The state a table or dataset reader shares.
struct RowStream<R> {
    src: R,
    pending: Vec<u8>,
    src_eof: bool,
    finished: bool,
    err: Option<PxfError>,
    message_type: String,
    columns: Vec<String>,
    directives: Vec<Directive>,
    /// `@dataset` rather than `@table`.
    dataset: bool,
    limits: Limits,
}

impl<R: std::io::Read> RowStream<R> {
    spec fn wf(&self) -> bool {
        &&& self.columns@.len() >= 1
        &&& forall|c: int| 0 <= c < self.columns@.len() ==> !(#[trigger] self.columns@[c])@.contains('.')
    }

    /// The header as the reader holds it.
    spec fn header_view(&self) -> TableHeader {
        TableHeader {
            message_type: self.message_type,
            columns: self.columns,
            directives: self.directives,
        }
    }

    /// The directive word: `@table` or `@dataset`.
    fn word(&self) -> (w: &'static str)
        ensures
            w@ == if self.dataset {
                "@dataset"@
            } else {
                "@table"@
            },
    {
        if self.dataset {
            "@dataset"
        } else {
            "@table"
        }
    }

    /// Appends the next chunk of the source, or notes its end.
    fn pull(&mut self) -> (r: Result<(), PxfError>)
        ensures
            final(self).columns == old(self).columns,
            final(self).message_type == old(self).message_type,
            final(self).directives == old(self).directives,
            final(self).dataset == old(self).dataset,
            final(self).limits == old(self).limits,
            final(self).finished == old(self).finished,
            final(self).err == old(self).err,
            old(self).src_eof ==> final(self).src_eof && final(self).pending == old(self).pending,
            !old(self).src_eof && r is Ok ==> final(self).src_eof || final(self).pending@.len()
                > old(self).pending@.len(),
            final(self).pending@.len() <= old(self).pending@.len() + STREAM_PULL_SIZE,
            final(self).pending@.len() >= old(self).pending@.len(),
            old(self).src_eof ==> r is Ok,
            final(self).pending@.subrange(0, old(self).pending@.len() as int) == old(self).pending@,
            final(self).src_eof ==> final(self).pending == old(self).pending,
            r is Err ==> !old(self).src_eof && !final(self).src_eof && final(self).pending
                == old(self).pending,
            r matches Err(e) ==> ({
                let prefix = "pxf: TableReader: read error: "@;
                &&& e.pos == (Position { line: 0, column: 0, offset: 0 })
                &&& e.msg@.len() >= prefix.len()
                &&& e.msg@.subrange(0, prefix.len() as int) == prefix
            }),
    {
        if self.src_eof {
            return Ok(());
        }
        match read_chunk(&mut self.src, STREAM_PULL_SIZE) {
            Ok(mut chunk) => {
                if chunk.len() == 0 {
                    self.src_eof = true;
                } else {
                    self.pending.append(&mut chunk);
                    assert(self.pending@.subrange(0, old(self).pending@.len() as int)
                        =~= old(self).pending@);
                }
                Ok(())
            },
            Err(m) => {
                let mut msg = owned("pxf: TableReader: read error: ");
                let ghost prefix = msg@;
                push_str(&mut msg, m.as_str());
                assert(msg@.subrange(0, prefix.len() as int) =~= prefix);
                Err(err_at_start(msg))
            },
        }
    }

    /// Reads the header, leaving the stream at the first row.
    fn read_header(&mut self) -> (r: Result<(), PxfError>)
        requires
            old(self).pending@.len() == 0,
        ensures
            final(self).dataset == old(self).dataset,
            final(self).limits == old(self).limits,
            final(self).finished == old(self).finished,
            final(self).err == old(self).err,
            r is Ok ==> final(self).wf(),
            r is Ok ==> exists|b: Seq<u8>|
                header_is(b, old(self).dataset, old(self).limits, final(self).header_view()),
            old(self).src_eof ==> (r matches Err(e) && e.msg@ == "pxf: no "@ + (if old(self).dataset {
                "@dataset"@
            } else {
                "@table"@
            }) + " directive in stream"@),
    {
        let word = self.word();
        loop
            invariant
                old(self).src_eof ==> self.src_eof && self.pending@.len() == 0,
                self.dataset == old(self).dataset,
                self.limits == old(self).limits,
                self.finished == old(self).finished,
                self.err == old(self).err,
                word@ == if self.dataset {
                    "@dataset"@
                } else {
                    "@table"@
                },
                self.pending@.len() < DEFAULT_HEADER_MAX_BYTES + STREAM_PULL_SIZE,
            decreases (if self.src_eof {
                0int
            } else {
                1int
            }), DEFAULT_HEADER_MAX_BYTES + STREAM_PULL_SIZE - self.pending@.len(),
        {
            let found = find_header_end(self.pending.as_slice(), word.as_bytes());
            match found {
                Err(m) => {
                    return Err(err_at_start(m));
                },
                Ok(Some(end)) => {
                    let bytes = bytes_range(self.pending.as_slice(), 0, end + 1);
                    let h = parse_header(bytes.as_slice(), self.dataset, self.limits)?;
                    let ghost hb = bytes@;
                    self.message_type = h.message_type;
                    self.columns = h.columns;
                    self.directives = h.directives;
                    let rest = self.pending.split_off(end + 1);
                    self.pending = rest;
                    assert(header_is(hb, self.dataset, self.limits, self.header_view()));
                    return Ok(());
                },
                Ok(None) => {
                    if self.src_eof {
                        let mut m = owned("pxf: no ");
                        push_str(&mut m, word);
                        push_str(&mut m, " directive in stream");
                        return Err(err_at_start(m));
                    }
                    if self.pending.len() >= DEFAULT_HEADER_MAX_BYTES {
                        let mut m = owned("pxf: ");
                        push_str(&mut m, word);
                        push_str(&mut m, " header exceeds ");
                        push_decimal(&mut m, DEFAULT_HEADER_MAX_BYTES as u64);
                        push_str(&mut m, " bytes; raise the budget or check that the input begins with `");
                        push_str(&mut m, word);
                        push_str(&mut m, " TYPE (cols)`");
                        return Err(err_at_start(m));
                    }
                    self.pull()?;
                },
            }
        }
    }

    /// `@table _.Row (<columns>)` and a newline: the header a single row is
    /// parsed under.
    fn synthetic_header(&self) -> (s: String)
        ensures
            s@ == (if self.dataset {
                "@dataset"@
            } else {
                "@table"@
            }) + " _.Row ("@ + joined_columns(self.columns@) + ")\n"@,
    {
        let mut s = owned(self.word());
        push_str(&mut s, " _.Row (");
        let ghost start = s@;
        let mut k: usize = 0;
        while k < self.columns.len()
            invariant
                k <= self.columns@.len(),
                s@ == start + joined_columns(self.columns@.subrange(0, k as int)),
            decreases self.columns@.len() - k,
        {
            let ghost sub = self.columns@.subrange(0, k + 1);
            if k > 0 {
                push_char(&mut s, ',');
            }
            push_str(&mut s, self.columns[k].as_str());
            proof {
                assert(sub.drop_last() =~= self.columns@.subrange(0, k as int));
                if k == 0 {
                    assert(joined_columns(self.columns@.subrange(0, 0)) =~= seq![]);
                }
                assert(s@ =~= start + joined_columns(sub));
            }
            k = k + 1;
        }
        proof {
            assert(self.columns@.subrange(0, self.columns@.len() as int) =~= self.columns@);
        }
        push_str(&mut s, ")\n");
        s
    }

    /// Parses the row in bytes `start..=end` of the buffer.
    fn parse_row(&self, start: usize, end: usize) -> (r: Result<DatasetRow, PxfError>)
        requires
            start <= end < self.pending@.len(),
        ensures
            r matches Ok(row) ==> row_fits(row, self.columns@.len(), self.limits),
            ({
                let text = encode_utf8(
                    row_parse_text(self.dataset, self.columns@, self.pending@, start as int, end as int),
                );
                &&& text.len() >= usize::MAX ==> (r matches Err(e) && e.msg@ == "pxf: "@ + (if self.dataset {
                    "@dataset"@
                } else {
                    "@table"@
                }) + " row is too long"@)
                &&& r is Ok ==> text.len() <= self.limits.max_message_size && document_reads(
                    text,
                    self.limits,
                )
            }),
            r matches Ok(row) ==> row_is(
                self.dataset,
                self.columns@,
                self.pending@,
                start as int,
                end as int,
                self.limits,
                row,
            ),
    {
        let n = self.pending.len();
        let mut text = self.synthetic_header();
        let row_bytes = bytes_range(self.pending.as_slice(), start, end + 1);
        let ghost b = row_bytes@;
        match string_from_utf8(row_bytes) {
            Ok(t) => push_str(&mut text, t.as_str()),
            Err(_) => {},
        }
        push_char(&mut text, '\n');
        assert(text@ =~= row_parse_text(self.dataset, self.columns@, self.pending@, start as int, end as int));
        let word = self.word();
        if text.as_str().as_bytes().len() >= usize::MAX {
            let mut m = owned("pxf: ");
            push_str(&mut m, word);
            push_str(&mut m, " row is too long");
            return Err(err_at_start(m));
        }
        let doc = parse_with_limits(text.as_str(), self.limits)?;
        let ghost d0 = doc;
        let mut tables = if self.dataset {
            doc.datasets
        } else {
            doc.tables
        };
        if tables.len() == 0 || tables[0].rows.len() == 0 {
            let mut m = owned("pxf: ");
            push_str(&mut m, word);
            push_str(&mut m, " reader: synthetic row parse produced no row");
            return Err(err_at_start(m));
        }
        let mut t = tables.remove(0);
        let row = t.rows.remove(0);
        proof {
            assert(document_tree(
                encode_utf8(
                    row_parse_text(self.dataset, self.columns@, self.pending@, start as int, end as int),
                ),
                self.limits,
                d0,
            ));
        }
        if row.cells.len() != self.columns.len() {
            let mut m = owned(word);
            push_str(&mut m, " row has ");
            push_decimal(&mut m, row.cells.len() as u64);
            push_str(&mut m, " cells, expected ");
            push_decimal(&mut m, self.columns.len() as u64);
            return Err(PxfError::new(row.pos, m));
        }
        Ok(row)
    }

    fn fail(&mut self, e: PxfError) -> (r: Option<Result<DatasetRow, PxfError>>)
        ensures
            r == Some(Err::<DatasetRow, PxfError>(e)),
            final(self).err == Some(e),
            final(self).columns == old(self).columns,
            final(self).message_type == old(self).message_type,
            final(self).directives == old(self).directives,
            final(self).finished == old(self).finished,
            final(self).limits == old(self).limits,
            final(self).dataset == old(self).dataset,
    {
        self.err = Some(e.duplicate());
        Some(Err(e))
    }

    fn next_row(&mut self) -> (r: Option<Result<DatasetRow, PxfError>>)
        ensures
            final(self).columns == old(self).columns,
            final(self).message_type == old(self).message_type,
            final(self).directives == old(self).directives,
            final(self).limits == old(self).limits,
            final(self).dataset == old(self).dataset,
            old(self).err is Some ==> r is None && final(self).err == old(self).err,
            old(self).err is None && old(self).finished ==> r is None && final(self).finished,
            r is None ==> (final(self).finished || final(self).err is Some) && final(self).err
                == old(self).err,
            r matches Some(Err(e)) ==> final(self).err == Some(e),
            r matches Some(Ok(row)) ==> row_fits(row, old(self).columns@.len(), old(self).limits)
                && final(self).err is None,
            r matches Some(Ok(row)) ==> exists|p: Seq<u8>, st: usize, en: usize|
                #![trigger row_is(old(self).dataset, old(self).columns@, p, st as int, en as int, old(self).limits, row)]
                p.len() >= old(self).pending@.len() && p.subrange(0, old(self).pending@.len() as int)
                    == old(self).pending@ && row_scan(p) == Ok::<RowScan, Seq<char>>(
                    RowScan::Found { start: st, end: en },
                ) && row_is(
                    old(self).dataset,
                    old(self).columns@,
                    p,
                    st as int,
                    en as int,
                    old(self).limits,
                    row,
                ) && final(self).pending@ == p.subrange(en + 1, p.len() as int),
            old(self).err is None && !old(self).finished && old(self).pending@.len() < usize::MAX
                ==> match row_scan(old(self).pending@) {
                Ok(RowScan::Found { start, end }) => r is Some,
                Ok(RowScan::Done) => r is None && final(self).finished,
                Ok(RowScan::NeedMore) => old(self).src_eof ==> r is None && final(self).finished,
                Err(m) => r matches Some(Err(e)) && e.msg@ == m,
            },
    {
        if self.err.is_some() {
            return None;
        }
        if self.finished {
            return None;
        }
        let ghost bound = if self.pending@.len() > self.limits.max_message_size + STREAM_PULL_SIZE {
            self.pending@.len() as int
        } else {
            self.limits.max_message_size + STREAM_PULL_SIZE
        };
        let ghost mut first = true;
        loop
            invariant
                first ==> self.pending == old(self).pending && self.src_eof == old(self).src_eof,
                self.pending@.len() >= old(self).pending@.len(),
                self.pending@.subrange(0, old(self).pending@.len() as int) == old(self).pending@,
                !first ==> (row_scan(old(self).pending@) matches Ok(RowScan::NeedMore))
                    && !old(self).src_eof && old(self).pending@.len() < usize::MAX,
                self.err is None,
                old(self).err is None,
                !old(self).finished,
                !self.finished,
                self.columns == old(self).columns,
                self.message_type == old(self).message_type,
                self.directives == old(self).directives,
                self.limits == old(self).limits,
                self.dataset == old(self).dataset,
                self.pending@.len() <= bound,
                bound >= self.limits.max_message_size + STREAM_PULL_SIZE,
            decreases (if self.src_eof {
                0int
            } else {
                1int
            }), bound - self.pending@.len(),
        {
            if self.pending.len() >= usize::MAX {
                return self.fail(err_at_start(owned("pxf: reader buffer is full")));
            }
            match find_next_row(self.pending.as_slice()) {
                Err(m) => {
                    return self.fail(err_at_start(m));
                },
                Ok(RowScan::Found { start, end }) => {
                    let parsed = self.parse_row(start, end);
                    let ghost p = self.pending@;
                    let rest = self.pending.split_off(end + 1);
                    self.pending = rest;
                    assert(self.pending@ =~= p.subrange(end + 1, p.len() as int));
                    return match parsed {
                        Ok(row) => Some(Ok(row)),
                        Err(e) => self.fail(e),
                    };
                },
                Ok(RowScan::Done) => {
                    self.finished = true;
                    return None;
                },
                Ok(RowScan::NeedMore) => {
                    if self.src_eof {
                        self.finished = true;
                        return None;
                    }
                    if self.pending.len() >= self.limits.max_message_size {
                        let mut m = owned("pxf: ");
                        push_str(&mut m, self.word());
                        push_str(&mut m, " reader: a row of more than ");
                        push_decimal(&mut m, self.limits.max_message_size as u64);
                        push_str(&mut m, " bytes exceeds MaxMessageSize=");
                        push_decimal(&mut m, self.limits.max_message_size as u64);
                        return self.fail(err_at_start(m));
                    }
                    match self.pull() {
                        Ok(()) => {},
                        Err(e) => {
                            return self.fail(e);
                        },
                    }
                    proof {
                        first = false;
                    }
                },
            }
        }
    }
}

/// Streaming row reader for one `@table` directive. After construction it
/// stands at the first row; call [`TableReader::next_row`] until it gives
/// `None`. Any error makes the reader sticky.
pub struct TableReader<R> {
    stream: RowStream<R>,
}

impl<R: std::io::Read> TableReader<R> {
    /// Reads the leading directives and the `@table TYPE ( cols )` header.
    /// Fails when the input holds no `@table` directive, on a header parse
    /// error, or past [`DEFAULT_HEADER_MAX_BYTES`] without a header.
    pub fn new(src: R) -> (r: Result<TableReader<R>, PxfError>)
        ensures
            r matches Ok(t) ==> t.columns_view().len() >= 1 && !t.is_done() && t.error() is None,
            r matches Ok(t) ==> t.limits_view() == default_limits() && !t.reads_datasets(),
            r matches Ok(t) ==> (exists|b: Seq<u8>| header_is(b, false, default_limits(), t.header()))
                && t.message_type_view() == t.header().message_type@ && t.columns_view()
                == t.header().columns@ && t.directives_view() == t.header().directives@,
    {
        let limits = Limits::default();
        assert(limits == default_limits());
        let mut stream = RowStream {
            src,
            pending: Vec::new(),
            src_eof: false,
            finished: false,
            err: None,
            message_type: String::new(),
            columns: Vec::new(),
            directives: Vec::new(),
            dataset: false,
            limits,
        };
        stream.read_header()?;
        let t = TableReader { stream };
        proof {
            let b = choose|b: Seq<u8>| header_is(b, false, limits, t.stream.header_view());
            assert(header_is(b, false, default_limits(), t.header()));
        }
        Ok(t)
    }

    /// The header the reader read.
    pub closed spec fn header(&self) -> TableHeader {
        self.stream.header_view()
    }

    /// The column names of the header.
    pub closed spec fn columns_view(&self) -> Seq<String> {
        self.stream.columns@
    }

    /// The row message type of the header.
    pub closed spec fn message_type_view(&self) -> Seq<char> {
        self.stream.message_type@
    }

    /// The directives before the header.
    pub closed spec fn directives_view(&self) -> Seq<Directive> {
        self.stream.directives@
    }

    /// Whether the rows are exhausted.
    pub closed spec fn is_done(&self) -> bool {
        self.stream.finished
    }

    /// The error the reader stopped at, if any.
    pub closed spec fn error(&self) -> Option<PxfError> {
        self.stream.err
    }

    /// The bytes read from the source and not yet consumed.
    pub closed spec fn pending_view(&self) -> Seq<u8> {
        self.stream.pending@
    }

    /// The bytes read from the source but not consumed, and the source
    /// itself, to hand the rest of the input on to another reader once this
    /// one is done: the input that follows is the bytes, then what the
    /// source still yields.
    pub fn tail(self) -> (r: (Vec<u8>, R))
        ensures
            r.0@ == self.pending_view(),
    {
        (self.stream.pending, self.stream.src)
    }

    /// The limits rows are parsed under.
    pub closed spec fn limits_view(&self) -> Limits {
        self.stream.limits
    }

    /// Whether the reader reads `@dataset` rather than `@table` rows.
    pub closed spec fn reads_datasets(&self) -> bool {
        self.stream.dataset
    }

    /// Whether the source has reported its end.
    pub closed spec fn source_ended(&self) -> bool {
        self.stream.src_eof
    }

    /// The row message type the header declares.
    pub fn message_type(&self) -> (s: &str)
        ensures
            s@ == self.message_type_view(),
    {
        self.stream.message_type.as_str()
    }

    /// The column field names the header declares, in source order.
    pub fn columns(&self) -> (c: &[String])
        ensures
            c@ == self.columns_view(),
    {
        self.stream.columns.as_slice()
    }

    /// The `@<name>` directives before the header.
    pub fn directives(&self) -> (d: &[Directive])
        ensures
            d@ == self.directives_view(),
    {
        self.stream.directives.as_slice()
    }

    /// Whether the rows are exhausted.
    pub fn done(&self) -> (b: bool)
        ensures
            b == self.is_done(),
    {
        self.stream.finished
    }

    /// The next row decoded as a message of type `root` of `sc`, as
    /// [`bind_row`] decodes it against the header's columns; `Ok(None)` once
    /// the rows are over, and after an error, which stays.
    pub fn scan_one(&mut self, sc: &Schema, root: usize, opts: UnmarshalOptions) -> (r: Result<
        Option<Decoded>,
        PxfError,
    >)
        requires
            schema_ok(*sc),
            root < sc.messages@.len(),
        ensures
            final(self).columns_view() == old(self).columns_view(),
            old(self).error() is Some ==> r matches Ok(None),
            r matches Ok(None) ==> final(self).is_done() || final(self).error() is Some,
            r matches Ok(Some(d)) ==> exists|row: DatasetRow, p: Seq<u8>, st: usize, en: usize|
                #![trigger row_is(old(self).reads_datasets(), old(self).columns_view(), p, st as int, en as int, old(self).limits_view(), row)]
                row_is(
                    old(self).reads_datasets(),
                    old(self).columns_view(),
                    p,
                    st as int,
                    en as int,
                    old(self).limits_view(),
                    row,
                ) && row.cells@.len() == old(self).columns_view().len() && (row_document(
                    old(self).columns_view(),
                    row.cells@,
                ) matches Some(t) && decoded_from(
                    encode_utf8(t),
                    *sc,
                    root as int,
                    opts.discard_unknown,
                    Ok::<Decoded, PxfError>(d),
                )),
    {
        match self.next_row() {
            None => Ok(None),
            Some(Err(e)) => Err(e),
            Some(Ok(row)) => {
                let cols = self.columns();
                match bind_row(sc, root, cols, &row, opts) {
                    Ok(d) => Ok(Some(d)),
                    Err(e) => Err(e),
                }
            },
        }
    }

    /// The next row: one cell per column, none a list or block. `None`
    /// once the rows are over, and after an error, which stays.
    pub fn next_row(&mut self) -> (r: Option<Result<DatasetRow, PxfError>>)
        ensures
            final(self).columns_view() == old(self).columns_view(),
            old(self).error() is Some ==> r is None && final(self).error() == old(self).error(),
            old(self).error() is None && old(self).is_done() ==> r is None,
            r is None ==> final(self).is_done() || final(self).error() is Some,
            r matches Some(Err(e)) ==> final(self).error() == Some(e),
            r matches Some(Ok(row)) ==> row.cells@.len() == old(self).columns_view().len(),
            final(self).limits_view() == old(self).limits_view(),
            final(self).reads_datasets() == old(self).reads_datasets(),
            r matches Some(Ok(row)) ==> exists|p: Seq<u8>, st: usize, en: usize|
                #![trigger row_is(old(self).reads_datasets(), old(self).columns_view(), p, st as int, en as int, old(self).limits_view(), row)]
                p.len() >= old(self).pending_view().len() && p.subrange(
                    0,
                    old(self).pending_view().len() as int,
                ) == old(self).pending_view() && row_scan(p) == Ok::<RowScan, Seq<char>>(
                    RowScan::Found { start: st, end: en },
                ) && row_is(
                    old(self).reads_datasets(),
                    old(self).columns_view(),
                    p,
                    st as int,
                    en as int,
                    old(self).limits_view(),
                    row,
                ) && final(self).pending_view() == p.subrange(en + 1, p.len() as int),
            old(self).error() is None && !old(self).is_done() && old(self).pending_view().len()
                < usize::MAX ==> match row_scan(old(self).pending_view()) {
                Ok(RowScan::Found { start, end }) => r is Some,
                Ok(RowScan::Done) => r is None && final(self).is_done(),
                Ok(RowScan::NeedMore) => old(self).source_ended() ==> r is None && final(self).is_done(),
                Err(m) => r matches Some(Err(e)) && e.msg@ == m,
            },
    {
        let ghost s0 = self.stream;
        let r = self.stream.next_row();
        let ghost rr = r;
        proof {
            match rr {
                Some(Ok(row)) => {
                let (p, st, en) = choose|p: Seq<u8>, st: usize, en: usize|
                    #![trigger row_is(s0.dataset, s0.columns@, p, st as int, en as int, s0.limits, row)]
                    p.len() >= s0.pending@.len() && p.subrange(0, s0.pending@.len() as int)
                        == s0.pending@ && row_scan(p) == Ok::<RowScan, Seq<char>>(
                        RowScan::Found { start: st, end: en },
                    ) && row_is(s0.dataset, s0.columns@, p, st as int, en as int, s0.limits, row)
                        && self.stream.pending@ == p.subrange(en + 1, p.len() as int);
                assert(row_is(s0.dataset, s0.columns@, p, st as int, en as int, s0.limits, row));
                assert(row_is(
                    old(self).reads_datasets(),
                    old(self).columns_view(),
                    p,
                    st as int,
                    en as int,
                    old(self).limits_view(),
                    row,
                ));
                assert(self.pending_view() == p.subrange(en + 1, p.len() as int));
                assert(p.subrange(0, old(self).pending_view().len() as int) == old(self).pending_view());
                },
                _ => {},
            }
        }
        r
    }
}

/// Streaming row reader for one `@dataset` directive, under the limits of
/// one decode: while looking for the end of a row it holds at most
/// `max_message_size` bytes.
pub struct DatasetReader<R> {
    stream: RowStream<R>,
}

impl<R: std::io::Read> DatasetReader<R> {
    /// A reader under the default limits.
    pub fn new(src: R) -> (r: Result<DatasetReader<R>, PxfError>)
        ensures
            r matches Ok(t) ==> t.columns_view().len() >= 1 && !t.is_done() && t.error() is None,
            r matches Ok(t) ==> t.limits_view() == default_limits() && t.reads_datasets(),
            r matches Ok(t) ==> (exists|b: Seq<u8>| header_is(b, true, default_limits(), t.header()))
                && t.message_type_view() == t.header().message_type@ && t.columns_view()
                == t.header().columns@,
    {
        let limits = Limits::default();
        assert(limits == default_limits());
        DatasetReader::with_limits(src, limits)
    }

    /// A reader under `limits`.
    pub fn with_limits(src: R, limits: Limits) -> (r: Result<DatasetReader<R>, PxfError>)
        ensures
            r matches Ok(t) ==> t.columns_view().len() >= 1 && !t.is_done() && t.error() is None,
            r matches Ok(t) ==> t.limits_view() == limits && t.reads_datasets(),
            r matches Ok(t) ==> (exists|b: Seq<u8>| header_is(b, true, limits, t.header()))
                && t.message_type_view() == t.header().message_type@ && t.columns_view()
                == t.header().columns@,
    {
        let mut stream = RowStream {
            src,
            pending: Vec::new(),
            src_eof: false,
            finished: false,
            err: None,
            message_type: String::new(),
            columns: Vec::new(),
            directives: Vec::new(),
            dataset: true,
            limits,
        };
        stream.read_header()?;
        Ok(DatasetReader { stream })
    }

    /// The header the reader read.
    pub closed spec fn header(&self) -> TableHeader {
        self.stream.header_view()
    }

    /// The column names of the header.
    pub closed spec fn columns_view(&self) -> Seq<String> {
        self.stream.columns@
    }

    /// The row message type of the header.
    pub closed spec fn message_type_view(&self) -> Seq<char> {
        self.stream.message_type@
    }

    /// Whether the rows are exhausted.
    pub closed spec fn is_done(&self) -> bool {
        self.stream.finished
    }

    /// The error the reader stopped at, if any.
    pub closed spec fn error(&self) -> Option<PxfError> {
        self.stream.err
    }

    /// The bytes read from the source and not yet consumed.
    pub closed spec fn pending_view(&self) -> Seq<u8> {
        self.stream.pending@
    }

    /// The bytes read from the source but not consumed, and the source
    /// itself, to hand the rest of the input on to another reader once this
    /// one is done: the input that follows is the bytes, then what the
    /// source still yields.
    pub fn tail(self) -> (r: (Vec<u8>, R))
        ensures
            r.0@ == self.pending_view(),
    {
        (self.stream.pending, self.stream.src)
    }

    /// The limits rows are parsed under.
    pub closed spec fn limits_view(&self) -> Limits {
        self.stream.limits
    }

    /// Whether the reader reads `@dataset` rather than `@table` rows.
    pub closed spec fn reads_datasets(&self) -> bool {
        self.stream.dataset
    }

    /// Whether the source has reported its end.
    pub closed spec fn source_ended(&self) -> bool {
        self.stream.src_eof
    }

    /// The row message type the header declares; empty when an anonymous
    /// `@proto` gives it.
    pub fn message_type(&self) -> (s: &str)
        ensures
            s@ == self.message_type_view(),
    {
        self.stream.message_type.as_str()
    }

    /// The column field names the header declares, in source order.
    pub fn columns(&self) -> (c: &[String])
        ensures
            c@ == self.columns_view(),
    {
        self.stream.columns.as_slice()
    }

    /// The next row, as for [`TableReader::next_row`].
    pub fn next_row(&mut self) -> (r: Option<Result<DatasetRow, PxfError>>)
        ensures
            final(self).columns_view() == old(self).columns_view(),
            old(self).error() is Some ==> r is None && final(self).error() == old(self).error(),
            old(self).error() is None && old(self).is_done() ==> r is None,
            r is None ==> final(self).is_done() || final(self).error() is Some,
            r matches Some(Err(e)) ==> final(self).error() == Some(e),
            r matches Some(Ok(row)) ==> row.cells@.len() == old(self).columns_view().len(),
            final(self).limits_view() == old(self).limits_view(),
            final(self).reads_datasets() == old(self).reads_datasets(),
            r matches Some(Ok(row)) ==> exists|p: Seq<u8>, st: usize, en: usize|
                #![trigger row_is(old(self).reads_datasets(), old(self).columns_view(), p, st as int, en as int, old(self).limits_view(), row)]
                p.len() >= old(self).pending_view().len() && p.subrange(
                    0,
                    old(self).pending_view().len() as int,
                ) == old(self).pending_view() && row_scan(p) == Ok::<RowScan, Seq<char>>(
                    RowScan::Found { start: st, end: en },
                ) && row_is(
                    old(self).reads_datasets(),
                    old(self).columns_view(),
                    p,
                    st as int,
                    en as int,
                    old(self).limits_view(),
                    row,
                ) && final(self).pending_view() == p.subrange(en + 1, p.len() as int),
            old(self).error() is None && !old(self).is_done() && old(self).pending_view().len()
                < usize::MAX ==> match row_scan(old(self).pending_view()) {
                Ok(RowScan::Found { start, end }) => r is Some,
                Ok(RowScan::Done) => r is None && final(self).is_done(),
                Ok(RowScan::NeedMore) => old(self).source_ended() ==> r is None && final(self).is_done(),
                Err(m) => r matches Some(Err(e)) && e.msg@ == m,
            },
    {
        let ghost s0 = self.stream;
        let r = self.stream.next_row();
        let ghost rr = r;
        proof {
            match rr {
                Some(Ok(row)) => {
                let (p, st, en) = choose|p: Seq<u8>, st: usize, en: usize|
                    #![trigger row_is(s0.dataset, s0.columns@, p, st as int, en as int, s0.limits, row)]
                    p.len() >= s0.pending@.len() && p.subrange(0, s0.pending@.len() as int)
                        == s0.pending@ && row_scan(p) == Ok::<RowScan, Seq<char>>(
                        RowScan::Found { start: st, end: en },
                    ) && row_is(s0.dataset, s0.columns@, p, st as int, en as int, s0.limits, row)
                        && self.stream.pending@ == p.subrange(en + 1, p.len() as int);
                assert(row_is(s0.dataset, s0.columns@, p, st as int, en as int, s0.limits, row));
                assert(row_is(
                    old(self).reads_datasets(),
                    old(self).columns_view(),
                    p,
                    st as int,
                    en as int,
                    old(self).limits_view(),
                    row,
                ));
                assert(self.pending_view() == p.subrange(en + 1, p.len() as int));
                assert(p.subrange(0, old(self).pending_view().len() as int) == old(self).pending_view());
                },
                _ => {},
            }
        }
        r
    }
}


// ---------------------------------------------------------------- binding a row

/// `s` in double quotes, with `"` and `\` escaped by a backslash.
pub open spec fn cell_quoted(s: Seq<char>) -> Seq<char>
    decreases s.len(),
{
    if s.len() == 0 {
        seq![]
    } else {
        let c = s.last();
        cell_quoted(s.drop_last()) + if c == '"' || c == '\\' {
            seq!['\\', c]
        } else {
            seq![c]
        }
    }
}

/// A cell as PXF value text, or `None` for a list or block cell.
pub open spec fn cell_text(v: Value) -> Option<Seq<char>> {
    match v {
        Value::Null(_) => Some("null"@),
        Value::String(s) => Some("\""@ + cell_quoted(s.value@) + "\""@),
        Value::Int(x) => Some(x.raw@),
        Value::Float(x) => Some(x.raw@),
        Value::Bool(b) => Some(
            if b.value {
                "true"@
            } else {
                "false"@
            },
        ),
        Value::Bytes(b) => Some(
            "b\""@ + crate::pxf::base64::base64_encode_spec(b.value@).map_values(|c: u8| c as char)
                + "\""@,
        ),
        Value::Ident(x) => Some(x.name@),
        Value::Timestamp(x) => Some(x.raw@),
        Value::Duration(x) => Some(x.raw@),
        _ => None,
    }
}

/// The body `<col> = <value>` per line for the first `n` cells that are
/// present, or `None` when one of them is a list or block.
pub open spec fn row_text(columns: Seq<String>, cells: Seq<Option<Value>>, n: int) -> Option<Seq<char>>
    decreases n,
{
    if n <= 0 {
        Some(seq![])
    } else {
        match row_text(columns, cells, n - 1) {
            None => None,
            Some(t) => match cells[n - 1] {
                None => Some(t),
                Some(v) => match cell_text(v) {
                    None => None,
                    Some(x) => Some(t + columns[n - 1]@ + " = "@ + x + "\n"@),
                },
            },
        }
    }
}

pub open spec fn mismatch_message(ncols: nat, ncells: nat) -> Seq<char> {
    "pxf: bind_row: "@ + crate::text::decimal_chars(ncols) + " columns vs "@
        + crate::text::decimal_chars(ncells) + " cells"@
}

/// A cell as PXF value text appended to `out`; list and block cells, which
/// a row never holds, are refused.
fn push_cell(out: &mut String, v: &Value, pos: Position) -> (r: Result<(), PxfError>)
    ensures
        match cell_text(*v) {
            Some(x) => r is Ok && final(out)@ == old(out)@ + x,
            None => r matches Err(e) && e.pos == pos && e.msg@
                == "pxf: bind_row: unexpected cell variant (v1 @table cells are scalar-shaped)"@,
        },
{
    match v {
        Value::Null(_) => push_str(out, "null"),
        Value::String(sv) => {
            let ghost start = out@;
            push_char(out, '"');
            let t = crate::text::chars_of(sv.value.as_str());
            let mut k: usize = 0;
            proof {
                reveal_strlit("\"");
                assert(t@.subrange(0, 0) =~= Seq::<char>::empty());
                assert(out@ =~= start + "\""@ + cell_quoted(t@.subrange(0, 0)));
            }
            while k < t.len()
                invariant
                    k <= t@.len(),
                    t@ == sv.value@,
                    out@ == start + "\""@ + cell_quoted(t@.subrange(0, k as int)),
                decreases t@.len() - k,
            {
                let c = t[k];
                if c == '"' || c == '\\' {
                    push_char(out, '\\');
                }
                push_char(out, c);
                proof {
                    let sub = t@.subrange(0, k + 1);
                    assert(sub.drop_last() =~= t@.subrange(0, k as int));
                    assert(sub.last() == c);
                    reveal_strlit("\"");
                }
                k = k + 1;
                assert(out@ =~= start + "\""@ + cell_quoted(t@.subrange(0, k as int)));
            }
            push_char(out, '"');
            proof {
                reveal_strlit("\"");
                assert(t@.subrange(0, t@.len() as int) =~= t@);
                assert(out@ =~= start + ("\""@ + cell_quoted(sv.value@) + "\""@));
            }
        },
        Value::Int(x) => push_str(out, x.raw.as_str()),
        Value::Float(x) => push_str(out, x.raw.as_str()),
        Value::Bool(b) => push_str(
            out,
            if b.value {
                "true"
            } else {
                "false"
            },
        ),
        Value::Bytes(b) => {
            let ghost start = out@;
            push_str(out, "b\"");
            let enc = crate::pxf::base64::encode_base64(b.value.as_slice());
            push_str(out, enc.as_str());
            push_str(out, "\"");
            assert(out@ =~= start + ("b\""@ + enc@ + "\""@));
        },
        Value::Ident(x) => push_str(out, x.name.as_str()),
        Value::Timestamp(x) => push_str(out, x.raw.as_str()),
        Value::Duration(x) => push_str(out, x.raw.as_str()),
        _ => {
            return Err(
                PxfError::new(
                    pos,
                    owned("pxf: bind_row: unexpected cell variant (v1 @table cells are scalar-shaped)"),
                ),
            );
        },
    }
    Ok(())
}

proof fn lemma_row_text_none(columns: Seq<String>, cells: Seq<Option<Value>>, k: int, n: int)
    requires
        0 <= k <= n,
        row_text(columns, cells, k) is None,
    ensures
        row_text(columns, cells, n) is None,
    decreases n - k,
{
    if k < n {
        lemma_row_text_none(columns, cells, k + 1, n);
    }
}

/// The PXF body a row binds as: `<column> = <value>` on a line of its own
/// for every cell that is present, in column order. The row must have one
/// cell per column.
pub fn row_body(columns: &[String], row: &DatasetRow) -> (r: Result<String, PxfError>)
    ensures
        columns@.len() != row.cells@.len() ==> (r matches Err(e) && e.pos == row.pos && e.msg@
            == mismatch_message(columns@.len(), row.cells@.len())),
        columns@.len() == row.cells@.len() ==> match row_text(
            columns@,
            row.cells@,
            columns@.len() as int,
        ) {
            Some(t) => r matches Ok(s) && s@ == t,
            None => r is Err,
        },
{
    if columns.len() != row.cells.len() {
        let mut m = owned("pxf: bind_row: ");
        push_decimal(&mut m, columns.len() as u64);
        push_str(&mut m, " columns vs ");
        push_decimal(&mut m, row.cells.len() as u64);
        push_str(&mut m, " cells");
        return Err(PxfError::new(row.pos, m));
    }
    let mut body = String::new();
    let mut k: usize = 0;
    while k < columns.len()
        invariant
            k <= columns@.len(),
            columns@.len() == row.cells@.len(),
            row_text(columns@, row.cells@, k as int) == Some(body@),
        decreases columns@.len() - k,
    {
        match &row.cells[k] {
            None => {},
            Some(v) => {
                let ghost before = body@;
                push_str(&mut body, columns[k].as_str());
                push_str(&mut body, " = ");
                match push_cell(&mut body, v, row.pos) {
                    Ok(()) => {},
                    Err(e) => {
                        proof {
                            lemma_row_text_none(columns@, row.cells@, k + 1, columns@.len() as int);
                        }
                        return Err(e);
                    },
                }
                push_str(&mut body, "\n");
                proof {
                    let x = cell_text(*v)->Some_0;
                    assert(body@ =~= before + columns@[k as int]@ + " = "@ + x + "\n"@);
                }
            },
        }
        k = k + 1;
    }
    Ok(body)
}

} // verus!
