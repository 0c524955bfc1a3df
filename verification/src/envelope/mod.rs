//! Standard API response envelope for cross-system communication.
//!
//! Separates transport errors from application errors and carries
//! machine-readable codes with positional format arguments for client-side
//! localization. The binary codec is in [`codec`].
use vstd::prelude::*;

use crate::text::owned;

pub mod codec;

verus! {

/// One invalid field of a request.
#[derive(Debug, Clone, Default, PartialEq, Eq)]
pub struct FieldError {
    pub field: String,
    pub code: String,
    pub message: String,
    pub args: Vec<String>,
}

/// An application-level error: a code, a message with its positional
/// arguments, per-field details, and string metadata (one value per key).
#[derive(Debug, Clone, Default, PartialEq, Eq)]
pub struct AppError {
    pub code: String,
    pub message: String,
    pub args: Vec<String>,
    pub details: Vec<FieldError>,
    /// Key/value pairs in insertion order. [`AppError::with_meta`] keeps
    /// each key once; the field is public and may still hold a key twice,
    /// and then `metadata_map` takes the later value. The round-trip laws
    /// are stated for metadata whose keys are distinct (`keys_unique`).
    pub metadata: Vec<(String, String)>,
}

/// A response: a status, and either a payload, a transport error, or an
/// application error.
#[derive(Debug, Clone, Default, PartialEq, Eq)]
pub struct Envelope {
    pub status: i32,
    pub transport_error: String,
    pub data: Vec<u8>,
    pub error: Option<AppError>,
}

/// The metadata of an error as a map: each key to the value of its last
/// entry.
pub open spec fn metadata_map(m: Seq<(String, String)>) -> Map<Seq<char>, Seq<char>>
    decreases m.len(),
{
    if m.len() == 0 {
        Map::empty()
    } else {
        metadata_map(m.drop_last()).insert(m.last().0@, m.last().1@)
    }
}

/// No key occurs twice.
pub open spec fn keys_unique(m: Seq<(String, String)>) -> bool {
    forall|i: int, j: int| 0 <= i < j < m.len() ==> m[i].0@ != m[j].0@
}

/// The field errors of `details` as the envelope indexes them by field name:
/// for each name, the last error that carries it, in order.
pub open spec fn indexed_details(details: Seq<FieldError>) -> Seq<FieldError>
    decreases details.len(),
{
    if details.len() == 0 {
        Seq::empty()
    } else {
        let last = details.last();
        indexed_details(details.drop_last()).filter(|fe: FieldError| fe.field@ != last.field@).push(
            last,
        )
    }
}

impl FieldError {
    pub fn new(field: &str, code: &str, message: &str, args: Vec<String>) -> (fe: FieldError)
        ensures
            fe.field@ == field@,
            fe.code@ == code@,
            fe.message@ == message@,
            fe.args == args,
    {
        FieldError { field: owned(field), code: owned(code), message: owned(message), args }
    }
}

impl AppError {
    pub fn new(code: &str, message: &str, args: Vec<String>) -> (e: AppError)
        ensures
            e.code@ == code@,
            e.message@ == message@,
            e.args == args,
            e.details@.len() == 0,
            e.metadata@.len() == 0,
    {
        AppError {
            code: owned(code),
            message: owned(message),
            args,
            details: Vec::new(),
            metadata: Vec::new(),
        }
    }

    /// Append a field error; returns `self` for chaining.
    pub fn with_field(&mut self, field: &str, code: &str, message: &str, args: Vec<String>) -> (r:
        &mut Self)
        ensures
            r.code == old(self).code,
            r.message == old(self).message,
            r.args == old(self).args,
            r.metadata == old(self).metadata,
            r.details@.len() == old(self).details@.len() + 1,
            r.details@.drop_last() == old(self).details@,
            r.details@.last().field@ == field@,
            r.details@.last().code@ == code@,
            r.details@.last().message@ == message@,
            r.details@.last().args == args,
            *final(self) == *final(r),
    {
        self.details.push(FieldError::new(field, code, message, args));
        self
    }

    /// Set a metadata entry, replacing the value of an existing key; returns
    /// `self` for chaining.
    pub fn with_meta(&mut self, key: &str, value: &str) -> (r: &mut Self)
        ensures
            r.code == old(self).code,
            r.message == old(self).message,
            r.args == old(self).args,
            r.details == old(self).details,
            metadata_set(old(self).metadata@, key@, value@, r.metadata@),
            keys_unique(old(self).metadata@) ==> keys_unique(r.metadata@) && metadata_map(
                r.metadata@,
            ) == metadata_map(old(self).metadata@).insert(key@, value@),
            *final(self) == *final(r),
    {
        set_metadata(&mut self.metadata, owned(key), owned(value));
        self
    }
}

/// `after` is `before` with `key` set to `value`: the value of the first entry
/// of the key replaced, or a new entry appended when there is none.
pub open spec fn metadata_set(
    before: Seq<(String, String)>,
    key: Seq<char>,
    value: Seq<char>,
    after: Seq<(String, String)>,
) -> bool {
    if forall|j: int| 0 <= j < before.len() ==> before[j].0@ != key {
        after.len() == before.len() + 1 && after.drop_last() == before && after.last().0@ == key
            && after.last().1@ == value
    } else {
        exists|i: int|
            0 <= i < before.len() && before[i].0@ == key && (forall|j: int|
                0 <= j < i ==> before[j].0@ != key) && after.len() == before.len() && (forall|j: int|
                0 <= j < before.len() && j != i ==> after[j] == before[j]) && after[i].0@ == key
                && after[i].1@ == value
    }
}

/// Insert or replace `key` in a metadata list.
pub(crate) fn set_metadata(m: &mut Vec<(String, String)>, key: String, value: String)
    ensures
        metadata_set(old(m)@, key@, value@, final(m)@),
        keys_unique(old(m)@) ==> keys_unique(final(m)@) && metadata_map(final(m)@) == metadata_map(
            old(m)@,
        ).insert(key@, value@),
{
    let mut i: usize = 0;
    while i < m.len()
        invariant
            i <= m@.len(),
            m@ == old(m)@,
            forall|j: int| 0 <= j < i ==> m@[j].0@ != key@,
        decreases m@.len() - i,
    {
        if string_eq(&m[i].0, &key) {
            let ghost before = m@;
            let ghost k = m@[i as int].0;
            m.set(i, (key, value));
            proof {
                assert(m@ == before.update(i as int, m@[i as int]));
                if keys_unique(before) {
                    lemma_metadata_update(before, i as int, m@[i as int].0, m@[i as int].1);
                }
            }
            return;
        }
        i = i + 1;
    }
    let ghost before = m@;
    m.push((key, value));
    proof {
        assert(m@.drop_last() == before);
        if keys_unique(before) {
            assert forall|a: int, b: int| 0 <= a < b < m@.len() implies m@[a].0@ != m@[b].0@ by {
                if b == m@.len() - 1 {
                    assert(m@[a] == before[a]);
                }
            }
        }
    }
}

/// With unique keys, replacing the value of the entry of a key maps the key to
/// the new value and keeps the keys unique.
proof fn lemma_metadata_update(m: Seq<(String, String)>, i: int, k: String, v: String)
    requires
        0 <= i < m.len(),
        m[i].0@ == k@,
        keys_unique(m),
    ensures
        metadata_map(m.update(i, (k, v))) == metadata_map(m).insert(k@, v@),
        keys_unique(m.update(i, (k, v))),
    decreases m.len(),
{
    let u = m.update(i, (k, v));
    if i == m.len() - 1 {
        assert(u.drop_last() == m.drop_last());
        assert(metadata_map(u) == metadata_map(m.drop_last()).insert(k@, v@));
        assert(metadata_map(m).insert(k@, v@) =~= metadata_map(m.drop_last()).insert(k@, v@));
    } else {
        let d = m.drop_last();
        assert(keys_unique(d));
        lemma_metadata_update(d, i, k, v);
        assert(u.drop_last() == d.update(i, (k, v)));
        assert(u.last() == m.last());
        assert(m.last().0@ != k@);
        assert(metadata_map(u) =~= metadata_map(m).insert(k@, v@));
    }
    assert forall|a: int, b: int| 0 <= a < b < u.len() implies u[a].0@ != u[b].0@ by {
        assert(u[a].0@ == m[a].0@);
        assert(u[b].0@ == m[b].0@);
    }
}

/// String equality by content.
pub fn string_eq(a: &String, b: &String) -> (r: bool)
    ensures
        r == (a@ == b@),
{
    a.eq(b)
}

impl Envelope {
    /// A successful response with a payload.
    pub fn ok(status: i32, data: Vec<u8>) -> (e: Envelope)
        ensures
            e.status == status,
            e.data == data,
            e.transport_error@.len() == 0,
            e.error is None,
    {
        Envelope { status, transport_error: String::new(), data, error: None }
    }

    /// An application-error response.
    pub fn err(status: i32, code: &str, message: &str, args: Vec<String>) -> (e: Envelope)
        ensures
            e.status == status,
            e.transport_error@.len() == 0,
            e.data@.len() == 0,
            e.error matches Some(ae) && ae.code@ == code@ && ae.message@ == message@ && ae.args
                == args && ae.details@.len() == 0 && ae.metadata@.len() == 0,
    {
        Envelope {
            status,
            transport_error: String::new(),
            data: Vec::new(),
            error: Some(AppError::new(code, message, args)),
        }
    }

    /// A transport-error response.
    pub fn transport_err(message: &str) -> (e: Envelope)
        ensures
            e.status == 0,
            e.transport_error@ == message@,
            e.data@.len() == 0,
            e.error is None,
    {
        Envelope { status: 0, transport_error: owned(message), data: Vec::new(), error: None }
    }

    pub fn is_ok(&self) -> (b: bool)
        ensures
            b == (self.transport_error@.len() == 0 && self.error is None),
    {
        self.transport_error.as_str().is_empty() && self.error.is_none()
    }

    pub fn is_transport_error(&self) -> (b: bool)
        ensures
            b == (self.transport_error@.len() != 0),
    {
        !self.transport_error.as_str().is_empty()
    }

    pub fn is_app_error(&self) -> (b: bool)
        ensures
            b == (self.error is Some),
    {
        self.error.is_some()
    }

    /// The application error's code, or `""` when there is none.
    pub fn error_code(&self) -> (c: &str)
        ensures
            match self.error {
                Some(ae) => c@ == ae.code@,
                None => c@.len() == 0,
            },
    {
        match &self.error {
            Some(e) => e.code.as_str(),
            None => {
                proof {
                    reveal_strlit("");
                }
                ""
            },
        }
    }

    /// The field errors indexed by field name (the last error of each name),
    /// or `None` when there is no application error or it has no details.
    pub fn field_errors(&self) -> (r: Option<Vec<&FieldError>>)
        ensures
            match self.error {
                None => r is None,
                Some(ae) => if ae.details@.len() == 0 {
                    r is None
                } else {
                    r matches Some(v) && v@.map_values(|fe: &FieldError| *fe) == indexed_details(
                        ae.details@,
                    )
                },
            },
    {
        let err = match &self.error {
            Some(e) => e,
            None => return None,
        };
        if err.details.len() == 0 {
            return None;
        }
        let mut out: Vec<&FieldError> = Vec::new();
        let mut i: usize = 0;
        while i < err.details.len()
            invariant
                i <= err.details@.len(),
                out@.map_values(|fe: &FieldError| *fe) == indexed_details(
                    err.details@.subrange(0, i as int),
                ),
            decreases err.details@.len() - i,
        {
            let fe = &err.details[i];
            let ghost prev = out@.map_values(|fe: &FieldError| *fe);
            let mut kept: Vec<&FieldError> = Vec::new();
            let mut j: usize = 0;
            while j < out.len()
                invariant
                    j <= out@.len(),
                    prev == out@.map_values(|fe: &FieldError| *fe),
                    kept@.map_values(|x: &FieldError| *x) == prev.subrange(0, j as int).filter(
                        |x: FieldError| x.field@ != fe.field@,
                    ),
                decreases out@.len() - j,
            {
                let other = out[j];
                proof {
                    reveal(Seq::filter);
                    assert(prev.subrange(0, j + 1).drop_last() == prev.subrange(0, j as int));
                }
                if !string_eq(&other.field, &fe.field) {
                    kept.push(other);
                    assert(kept@.map_values(|x: &FieldError| *x) == kept@.drop_last().map_values(
                        |x: &FieldError| *x,
                    ).push(*other));
                } else {
                    assert(kept@.map_values(|x: &FieldError| *x) == prev.subrange(0, j + 1).filter(
                        |x: FieldError| x.field@ != fe.field@,
                    ));
                }
                j = j + 1;
            }
            proof {
                assert(prev.subrange(0, prev.len() as int) == prev);
            }
            let ghost kept_view = kept@.map_values(|x: &FieldError| *x);
            kept.push(fe);
            out = kept;
            proof {
                let ds = err.details@.subrange(0, i + 1);
                assert(ds.drop_last() == err.details@.subrange(0, i as int));
                assert(ds.last() == *fe);
                assert(out@.map_values(|x: &FieldError| *x) == kept_view.push(*fe));
            }
            i = i + 1;
        }
        proof {
            assert(err.details@.subrange(0, err.details@.len() as int) == err.details@);
        }
        Some(out)
    }
}

/// Same as [`AppError::new`].
pub fn new_app_error(code: &str, message: &str, args: Vec<String>) -> (e: AppError)
    ensures
        e.code@ == code@,
        e.message@ == message@,
        e.args == args,
        e.details@.len() == 0,
        e.metadata@.len() == 0,
{
    AppError::new(code, message, args)
}

} // verus!
