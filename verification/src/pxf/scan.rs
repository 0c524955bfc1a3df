//! Byte-level scanning of PXF text that steps over string literals, bytes
//! literals and comments without tokenizing: bracket matching for directive
//! bodies and for streamed dataset rows.
use vstd::prelude::*;

use crate::pxf::lexer::{lemma_scan, scan, ByteClass};

verus! {

/// The end of a `"..."` string whose body starts at `j`: past the closing
/// quote; `None` when the input ends first; an error at a raw newline.
/// A backslash escapes the byte after it.
pub open spec fn skip_quoted(s: Seq<u8>, j: int, newline_msg: Seq<char>) -> Result<
    Option<int>,
    Seq<char>,
>
    decreases s.len() - j,
{
    if j < 0 || j >= s.len() {
        Ok(None)
    } else if s[j] == 92 {
        if j + 1 >= s.len() {
            Ok(None)
        } else {
            skip_quoted(s, j + 2, newline_msg)
        }
    } else if s[j] == 34 {
        Ok(Some(j + 1))
    } else if s[j] == 10 {
        Err(newline_msg)
    } else {
        skip_quoted(s, j + 1, newline_msg)
    }
}

/// Past the first `"""` at or after `j`, or `None`.
pub open spec fn skip_triple(s: Seq<u8>, j: int) -> Option<int>
    decreases s.len() - j,
{
    if 0 <= j && j + 2 < s.len() {
        if s[j] == 34 && s[j + 1] == 34 && s[j + 2] == 34 {
            Some(j + 3)
        } else {
            skip_triple(s, j + 1)
        }
    } else {
        None
    }
}

/// Past the first `*/` at or after `j`, or `None`.
pub open spec fn skip_block(s: Seq<u8>, j: int) -> Option<int>
    decreases s.len() - j,
{
    if 0 <= j && j + 1 < s.len() {
        if s[j] == 42 && s[j + 1] == 47 {
            Some(j + 2)
        } else {
            skip_block(s, j + 1)
        }
    } else {
        None
    }
}

/// At offset `i`: past the string literal, bytes literal or comment that
/// starts there; `i` itself when none does; `None` when the construct is
/// cut off by the end of the input; an error for a literal broken by a
/// newline.
pub open spec fn skip_at(s: Seq<u8>, i: int) -> Result<Option<int>, Seq<char>> {
    if i < 0 || i >= s.len() {
        Ok(Some(i))
    } else {
        let c = s[i];
        if c == 34 {
            if i + 2 < s.len() && s[i + 1] == 34 && s[i + 2] == 34 {
                Ok(skip_triple(s, i + 3))
            } else {
                skip_quoted(s, i + 1, "pxf: unterminated string literal"@)
            }
        } else if c == 98 && i + 1 < s.len() && s[i + 1] == 34 {
            skip_quoted(s, i + 2, "pxf: unterminated bytes literal"@)
        } else if c == 35 {
            Ok(Some(scan(s, i + 1, ByteClass::NotNewline)))
        } else if c == 47 && i + 1 < s.len() && s[i + 1] == 47 {
            Ok(Some(scan(s, i + 2, ByteClass::NotNewline)))
        } else if c == 47 && i + 1 < s.len() && s[i + 1] == 42 {
            Ok(skip_block(s, i + 2))
        } else {
            Ok(Some(i))
        }
    }
}

pub proof fn lemma_skip_quoted(s: Seq<u8>, j: int, m: Seq<char>)
    requires
        0 <= j,
    ensures
        skip_quoted(s, j, m) matches Ok(Some(k)) ==> j < k <= s.len(),
    decreases s.len() - j,
{
    if 0 <= j < s.len() {
        if s[j] == 92 {
            if j + 1 < s.len() {
                lemma_skip_quoted(s, j + 2, m);
            }
        } else if s[j] != 34 && s[j] != 10 {
            lemma_skip_quoted(s, j + 1, m);
        }
    }
}

pub proof fn lemma_skip_triple(s: Seq<u8>, j: int)
    requires
        0 <= j,
    ensures
        skip_triple(s, j) matches Some(k) ==> j < k <= s.len(),
    decreases s.len() - j,
{
    if 0 <= j && j + 2 < s.len() && !(s[j] == 34 && s[j + 1] == 34 && s[j + 2] == 34) {
        lemma_skip_triple(s, j + 1);
    }
}

pub proof fn lemma_skip_block(s: Seq<u8>, j: int)
    requires
        0 <= j,
    ensures
        skip_block(s, j) matches Some(k) ==> j < k <= s.len(),
    decreases s.len() - j,
{
    if 0 <= j && j + 1 < s.len() && !(s[j] == 42 && s[j + 1] == 47) {
        lemma_skip_block(s, j + 1);
    }
}

/// What `skip_at` gives is never behind `i`.
pub proof fn lemma_skip_at(s: Seq<u8>, i: int)
    requires
        0 <= i <= s.len(),
    ensures
        skip_at(s, i) matches Ok(Some(j)) ==> i <= j <= s.len(),
{
    if i < s.len() {
        lemma_skip_quoted(s, i + 1, "pxf: unterminated string literal"@);
        lemma_skip_quoted(s, i + 2, "pxf: unterminated bytes literal"@);
        lemma_skip_triple(s, i + 3);
        lemma_skip_block(s, i + 2);
        lemma_scan(s, i + 1, ByteClass::NotNewline);
        if i + 2 <= s.len() {
            lemma_scan(s, i + 2, ByteClass::NotNewline);
        }
    }
}

/// The offset of the `close` byte that brings `depth` open brackets down
/// to none, scanning from `i` and stepping over literals and comments;
/// `None` when the input ends first.
pub open spec fn match_close(s: Seq<u8>, i: int, depth: nat, open: u8, close: u8) -> Result<
    Option<int>,
    Seq<char>,
>
    decreases s.len() - i,
{
    if i < 0 || i >= s.len() {
        Ok(None)
    } else {
        match skip_at(s, i) {
            Err(m) => Err(m),
            Ok(None) => Ok(None),
            Ok(Some(j)) => if j != i {
                proof {
                    lemma_skip_at(s, i);
                }
                match_close(s, j, depth, open, close)
            } else if s[i] == open {
                match_close(s, i + 1, depth + 1, open, close)
            } else if s[i] == close {
                if depth <= 1 {
                    Ok(Some(i))
                } else {
                    match_close(s, i + 1, (depth - 1) as nat, open, close)
                }
            } else {
                match_close(s, i + 1, depth, open, close)
            },
        }
    }
}

fn skip_quoted_exec(s: &[u8], j: usize, newline_msg: &str) -> (r: Result<Option<usize>, String>)
    ensures
        match r {
            Ok(Some(k)) => skip_quoted(s@, j as int, newline_msg@) == Ok::<Option<int>, Seq<char>>(
                Some(k as int),
            ),
            Ok(None) => skip_quoted(s@, j as int, newline_msg@) == Ok::<Option<int>, Seq<char>>(
                None,
            ),
            Err(m) => skip_quoted(s@, j as int, newline_msg@) == Err::<Option<int>, Seq<char>>(
                m@,
            ),
        },
{
    let n = s.len();
    let mut k = j;
    loop
        invariant
            j <= k,
            n == s@.len(),
            skip_quoted(s@, j as int, newline_msg@) == skip_quoted(s@, k as int, newline_msg@),
        decreases n - k,
    {
        if k >= n {
            return Ok(None);
        }
        let c = s[k];
        if c == 92 {
            if n - k < 2 {
                return Ok(None);
            }
            k = k + 2;
        } else if c == 34 {
            return Ok(Some(k + 1));
        } else if c == 10 {
            return Err(crate::text::owned(newline_msg));
        } else {
            k = k + 1;
        }
    }
}

fn skip_triple_exec(s: &[u8], j: usize) -> (r: Option<usize>)
    ensures
        r matches Some(k) ==> skip_triple(s@, j as int) == Some(k as int),
        r is None ==> skip_triple(s@, j as int) is None,
{
    let n = s.len();
    let mut k = j;
    while k < n && n - k > 2
        invariant
            j <= k,
            n == s@.len(),
            skip_triple(s@, j as int) == skip_triple(s@, k as int),
        decreases n - k,
    {
        if s[k] == 34 && s[k + 1] == 34 && s[k + 2] == 34 {
            return Some(k + 3);
        }
        k = k + 1;
    }
    None
}

fn skip_block_exec(s: &[u8], j: usize) -> (r: Option<usize>)
    ensures
        r matches Some(k) ==> skip_block(s@, j as int) == Some(k as int),
        r is None ==> skip_block(s@, j as int) is None,
{
    let n = s.len();
    let mut k = j;
    while k < n && n - k > 1
        invariant
            j <= k,
            n == s@.len(),
            skip_block(s@, j as int) == skip_block(s@, k as int),
        decreases n - k,
    {
        if s[k] == 42 && s[k + 1] == 47 {
            return Some(k + 2);
        }
        k = k + 1;
    }
    None
}

fn skip_line_exec(s: &[u8], j: usize) -> (k: usize)
    requires
        j <= s@.len(),
    ensures
        k == scan(s@, j as int, ByteClass::NotNewline),
{
    let n = s.len();
    let mut k = j;
    while k < n && s[k] != 10
        invariant
            j <= k <= n,
            n == s@.len(),
            scan(s@, j as int, ByteClass::NotNewline) == scan(s@, k as int, ByteClass::NotNewline),
        decreases n - k,
    {
        k = k + 1;
    }
    k
}

/// Steps over the string literal, bytes literal or comment at `i`; see
/// [`skip_at`].
pub fn skip_string_or_comment(s: &[u8], i: usize) -> (r: Result<Option<usize>, String>)
    requires
        i <= s@.len(),
    ensures
        match r {
            Ok(Some(j)) => skip_at(s@, i as int) == Ok::<Option<int>, Seq<char>>(Some(j as int)),
            Ok(None) => skip_at(s@, i as int) == Ok::<Option<int>, Seq<char>>(None),
            Err(m) => skip_at(s@, i as int) == Err::<Option<int>, Seq<char>>(m@),
        },
{
    let n = s.len();
    if i >= n {
        return Ok(Some(i));
    }
    let c = s[i];
    if c == 34 {
        if n - i > 2 && s[i + 1] == 34 && s[i + 2] == 34 {
            return Ok(skip_triple_exec(s, i + 3));
        }
        return skip_quoted_exec(s, i + 1, "pxf: unterminated string literal");
    }
    if c == 98 && n - i > 1 && s[i + 1] == 34 {
        return skip_quoted_exec(s, i + 2, "pxf: unterminated bytes literal");
    }
    if c == 35 {
        return Ok(Some(skip_line_exec(s, i + 1)));
    }
    if c == 47 && n - i > 1 && s[i + 1] == 47 {
        return Ok(Some(skip_line_exec(s, i + 2)));
    }
    if c == 47 && n - i > 1 && s[i + 1] == 42 {
        return Ok(skip_block_exec(s, i + 2));
    }
    Ok(Some(i))
}

/// The offset of the `close` byte matching the `open` byte just before
/// `from`; see [`match_close`].
pub fn find_matching(s: &[u8], from: usize, open: u8, close: u8) -> (r: Result<
    Option<usize>,
    String,
>)
    requires
        from <= s@.len() < usize::MAX,
    ensures
        match r {
            Ok(Some(j)) => match_close(s@, from as int, 1, open, close) == Ok::<
                Option<int>,
                Seq<char>,
            >(Some(j as int)) && from <= j < s@.len(),
            Ok(None) => match_close(s@, from as int, 1, open, close) == Ok::<
                Option<int>,
                Seq<char>,
            >(None),
            Err(m) => match_close(s@, from as int, 1, open, close) == Err::<
                Option<int>,
                Seq<char>,
            >(m@),
        },
{
    let n = s.len();
    let mut depth: usize = 1;
    let mut i = from;
    while i < n
        invariant
            from <= i <= n,
            n == s@.len(),
            1 <= depth <= i - from + 1,
            s@.len() < usize::MAX,
            match_close(s@, from as int, 1, open, close) == match_close(
                s@,
                i as int,
                depth as nat,
                open,
                close,
            ),
        decreases n - i,
    {
        proof {
            lemma_skip_at(s@, i as int);
        }
        match skip_string_or_comment(s, i) {
            Err(m) => {
                return Err(m);
            },
            Ok(None) => {
                return Ok(None);
            },
            Ok(Some(j)) => {
                if j != i {
                    i = j;
                } else {
                    let c = s[i];
                    if c == open {
                        depth = depth + 1;
                        i = i + 1;
                    } else if c == close {
                        if depth == 1 {
                            return Ok(Some(i));
                        }
                        depth = depth - 1;
                        i = i + 1;
                    } else {
                        i = i + 1;
                    }
                }
            },
        }
    }
    Ok(None)
}

/// Where the next `( ... )` row stands in a buffer.
#[derive(Debug, Clone, Copy, PartialEq, Eq, Structural)]
pub enum RowScan {
    /// The row's `(` and `)`, both inclusive.
    Found { start: usize, end: usize },
    /// The next significant byte is not `(`: the rows are over.
    Done,
    /// The buffer ends before the row does.
    NeedMore,
}

pub open spec fn is_blank(c: u8) -> bool {
    c == 32 || c == 9 || c == 13 || c == 10
}

/// The first byte at or after `i` that is neither white space nor inside a
/// comment or literal; `None` when the buffer runs out first.
pub open spec fn next_significant(s: Seq<u8>, i: int) -> Result<Option<int>, Seq<char>>
    decreases s.len() - i,
{
    if i < 0 || i >= s.len() {
        Ok(None)
    } else if is_blank(s[i]) {
        next_significant(s, i + 1)
    } else {
        match skip_at(s, i) {
            Err(m) => Err(m),
            Ok(None) => Ok(None),
            Ok(Some(j)) => if j != i {
                proof {
                    lemma_skip_at(s, i);
                }
                next_significant(s, j)
            } else {
                Ok(Some(i))
            },
        }
    }
}

/// The next row of a buffer that starts between rows.
pub open spec fn row_scan(s: Seq<u8>) -> Result<RowScan, Seq<char>> {
    match next_significant(s, 0) {
        Err(m) => Err(m),
        Ok(None) => Ok(RowScan::NeedMore),
        Ok(Some(i)) => if s[i] != 40 {
            Ok(RowScan::Done)
        } else {
            match match_close(s, i + 1, 1, 40, 41) {
                Err(m) => Err(m),
                Ok(None) => Ok(RowScan::NeedMore),
                Ok(Some(e)) => Ok(RowScan::Found { start: i as usize, end: e as usize }),
            }
        },
    }
}

/// A byte that can continue a directive name.
pub open spec fn is_name_byte(c: u8) -> bool {
    (48 <= c <= 57) || (65 <= c <= 90) || (97 <= c <= 122) || c == 95
}

/// The offset of the first `word` (a directive, `@` included) at or after
/// `i` that is not inside a comment or literal and not followed by a name
/// byte; `None` when the buffer runs out first, or ends right after it.
pub open spec fn find_word(s: Seq<u8>, i: int, word: Seq<u8>) -> Result<Option<int>, Seq<char>>
    decreases s.len() - i,
{
    if i < 0 || i >= s.len() {
        Ok(None)
    } else {
        match skip_at(s, i) {
            Err(m) => Err(m),
            Ok(None) => Ok(None),
            Ok(Some(j)) => if j != i {
                proof {
                    lemma_skip_at(s, i);
                }
                find_word(s, j, word)
            } else if i + word.len() <= s.len() && s.subrange(i, i + word.len()) == word {
                if i + word.len() == s.len() {
                    Ok(None)
                } else if !is_name_byte(s[i + word.len()]) {
                    Ok(Some(i))
                } else {
                    find_word(s, i + 1, word)
                }
            } else {
                find_word(s, i + 1, word)
            },
        }
    }
}

/// The offset of the first byte `ch` at or after `i` that is not inside a
/// comment or literal; `None` when the buffer runs out first.
pub open spec fn find_byte(s: Seq<u8>, i: int, ch: u8) -> Result<Option<int>, Seq<char>>
    decreases s.len() - i,
{
    if i < 0 || i >= s.len() {
        Ok(None)
    } else {
        match skip_at(s, i) {
            Err(m) => Err(m),
            Ok(None) => Ok(None),
            Ok(Some(j)) => if j != i {
                proof {
                    lemma_skip_at(s, i);
                }
                find_byte(s, j, ch)
            } else if s[i] == ch {
                Ok(Some(i))
            } else {
                find_byte(s, i + 1, ch)
            },
        }
    }
}

/// The offset of the `)` that closes the column list of the first `word`
/// directive in the buffer; `None` when more bytes are needed.
pub open spec fn header_end(s: Seq<u8>, word: Seq<u8>) -> Result<Option<int>, Seq<char>> {
    match find_word(s, 0, word) {
        Err(m) => Err(m),
        Ok(None) => Ok(None),
        Ok(Some(at)) => match find_byte(s, at + word.len(), 40) {
            Err(m) => Err(m),
            Ok(None) => Ok(None),
            Ok(Some(lp)) => match_close(s, lp + 1, 1, 40, 41),
        },
    }
}

/// See [`row_scan`].
pub fn find_next_row(s: &[u8]) -> (r: Result<RowScan, String>)
    requires
        s@.len() < usize::MAX,
    ensures
        match r {
            Ok(k) => row_scan(s@) == Ok::<RowScan, Seq<char>>(k),
            Err(m) => row_scan(s@) == Err::<RowScan, Seq<char>>(m@),
        },
        r matches Ok(RowScan::Found { start, end }) ==> start < end < s@.len() && s@[start as int]
            == 40,
{
    let n = s.len();
    let mut i: usize = 0;
    loop
        invariant
            i <= n,
            n == s@.len(),
            n < usize::MAX,
            next_significant(s@, 0) == next_significant(s@, i as int),
        decreases n - i,
    {
        if i >= n {
            return Ok(RowScan::NeedMore);
        }
        let c = s[i];
        if c == 32 || c == 9 || c == 13 || c == 10 {
            i = i + 1;
        } else {
            proof {
                lemma_skip_at(s@, i as int);
            }
            match skip_string_or_comment(s, i) {
                Err(m) => {
                    return Err(m);
                },
                Ok(None) => {
                    return Ok(RowScan::NeedMore);
                },
                Ok(Some(j)) => {
                    if j != i {
                        i = j;
                    } else {
                        assert(next_significant(s@, 0) == Ok::<Option<int>, Seq<char>>(
                            Some(i as int),
                        ));
                        if s[i] != 40 {
                            return Ok(RowScan::Done);
                        }
                        return match find_matching(s, i + 1, 40, 41) {
                            Err(m) => Err(m),
                            Ok(None) => Ok(RowScan::NeedMore),
                            Ok(Some(e)) => Ok(RowScan::Found { start: i, end: e }),
                        };
                    }
                },
            }
        }
    }
}

fn is_name_byte_exec(c: u8) -> (r: bool)
    ensures
        r == is_name_byte(c),
{
    (c >= 48 && c <= 57) || (c >= 65 && c <= 90) || (c >= 97 && c <= 122) || c == 95
}

/// Whether bytes `i..i + word.len()` of `s` are `word`.
fn matches_at(s: &[u8], i: usize, word: &[u8]) -> (r: bool)
    requires
        i + word@.len() <= s@.len(),
    ensures
        r == (s@.subrange(i as int, i + word@.len()) == word@),
{
    let n = s.len();
    let mut k: usize = 0;
    while k < word.len()
        invariant
            k <= word@.len(),
            n == s@.len(),
            i + word@.len() <= s@.len(),
            s@.subrange(i as int, i + k) == word@.subrange(0, k as int),
        decreases word@.len() - k,
    {
        if s[i + k] != word[k] {
            assert(s@.subrange(i as int, i + word@.len())[k as int] != word@[k as int]);
            return false;
        }
        k = k + 1;
        assert(s@.subrange(i as int, i + k) == s@.subrange(i as int, i + k - 1).push(s@[i + k - 1]));
        assert(word@.subrange(0, k as int) == word@.subrange(0, k - 1).push(word@[k - 1]));
    }
    assert(word@.subrange(0, word@.len() as int) == word@);
    true
}

fn find_word_exec(s: &[u8], word: &[u8]) -> (r: Result<Option<usize>, String>)
    ensures
        match r {
            Ok(Some(at)) => find_word(s@, 0, word@) == Ok::<Option<int>, Seq<char>>(
                Some(at as int),
            ) && at + word@.len() < s@.len(),
            Ok(None) => find_word(s@, 0, word@) == Ok::<Option<int>, Seq<char>>(None),
            Err(m) => find_word(s@, 0, word@) == Err::<Option<int>, Seq<char>>(m@),
        },
{
    let n = s.len();
    let mut i: usize = 0;
    while i < n
        invariant
            i <= n,
            n == s@.len(),
            find_word(s@, 0, word@) == find_word(s@, i as int, word@),
        decreases n - i,
    {
        proof {
            lemma_skip_at(s@, i as int);
        }
        match skip_string_or_comment(s, i) {
            Err(m) => {
                return Err(m);
            },
            Ok(None) => {
                return Ok(None);
            },
            Ok(Some(j)) => {
                if j != i {
                    i = j;
                } else {
                    if word.len() <= n - i && matches_at(s, i, word) {
                        let after = i + word.len();
                        if after == n {
                            return Ok(None);
                        }
                        if !is_name_byte_exec(s[after]) {
                            return Ok(Some(i));
                        }
                    }
                    i = i + 1;
                }
            },
        }
    }
    Ok(None)
}

fn find_byte_exec(s: &[u8], from: usize, ch: u8) -> (r: Result<Option<usize>, String>)
    requires
        from <= s@.len(),
    ensures
        match r {
            Ok(Some(at)) => find_byte(s@, from as int, ch) == Ok::<Option<int>, Seq<char>>(
                Some(at as int),
            ) && from <= at < s@.len(),
            Ok(None) => find_byte(s@, from as int, ch) == Ok::<Option<int>, Seq<char>>(None),
            Err(m) => find_byte(s@, from as int, ch) == Err::<Option<int>, Seq<char>>(m@),
        },
{
    let n = s.len();
    let mut i: usize = from;
    while i < n
        invariant
            from <= i <= n,
            n == s@.len(),
            find_byte(s@, from as int, ch) == find_byte(s@, i as int, ch),
        decreases n - i,
    {
        proof {
            lemma_skip_at(s@, i as int);
        }
        match skip_string_or_comment(s, i) {
            Err(m) => {
                return Err(m);
            },
            Ok(None) => {
                return Ok(None);
            },
            Ok(Some(j)) => {
                if j != i {
                    i = j;
                } else {
                    if s[i] == ch {
                        return Ok(Some(i));
                    }
                    i = i + 1;
                }
            },
        }
    }
    Ok(None)
}

/// See [`header_end`].
pub fn find_header_end(s: &[u8], word: &[u8]) -> (r: Result<Option<usize>, String>)
    requires
        s@.len() < usize::MAX,
    ensures
        match r {
            Ok(Some(e)) => header_end(s@, word@) == Ok::<Option<int>, Seq<char>>(Some(e as int))
                && e < s@.len(),
            Ok(None) => header_end(s@, word@) == Ok::<Option<int>, Seq<char>>(None),
            Err(m) => header_end(s@, word@) == Err::<Option<int>, Seq<char>>(m@),
        },
{
    let at = match find_word_exec(s, word) {
        Err(m) => {
            return Err(m);
        },
        Ok(None) => {
            return Ok(None);
        },
        Ok(Some(at)) => at,
    };
    let lp = match find_byte_exec(s, at + word.len(), 40) {
        Err(m) => {
            return Err(m);
        },
        Ok(None) => {
            return Ok(None);
        },
        Ok(Some(lp)) => lp,
    };
    find_matching(s, lp + 1, 40, 41)
}

} // verus!
