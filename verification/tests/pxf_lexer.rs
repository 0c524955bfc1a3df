//! Tokenizer tests.
use protowire::pxf::lexer::Lexer;
use protowire::pxf::token::{Position, Token, TokenKind};


fn tokens(input: &str) -> Vec<Token> {
    Lexer::new(input)
        .collect_tokens()
        .into_iter()
        .filter(|t| !matches!(t.kind, TokenKind::Eof))
        .collect()
}

fn kinds(input: &str) -> Vec<TokenKind> {
    tokens(input).into_iter().map(|t| t.kind).collect()
}

// ---------------- punctuation and whitespace ----------------

#[test]
fn punctuation_emits_braces_brackets_equals_colon_comma() {
    assert_eq!(
        kinds("{}[]=:,"),
        vec![
            TokenKind::LBrace,
            TokenKind::RBrace,
            TokenKind::LBracket,
            TokenKind::RBracket,
            TokenKind::Equals,
            TokenKind::Colon,
            TokenKind::Comma,
        ]
    );
}

#[test]
fn whitespace_emits_newline_for_lf_skips_space_tab_cr() {
    assert_eq!(
        kinds("  \t\r{\n}"),
        vec![TokenKind::LBrace, TokenKind::Newline, TokenKind::RBrace]
    );
}

// ---------------- comments ----------------

#[test]
fn comment_hash_line() {
    let t = tokens("# hello world");
    assert_eq!(t.len(), 1);
    assert_eq!(t[0].kind, TokenKind::Comment);
    assert_eq!(t[0].value, "# hello world");
}

#[test]
fn comment_double_slash_line() {
    let t = tokens("// just a note");
    assert_eq!(t[0].kind, TokenKind::Comment);
    assert_eq!(t[0].value, "// just a note");
}

#[test]
fn comment_block_inline() {
    let t = tokens("/* inline */");
    assert_eq!(t[0].kind, TokenKind::Comment);
    assert_eq!(t[0].value, "/* inline */");
}

#[test]
fn comment_block_multi_line_tracks_position_past_newline() {
    let t = tokens("/* line1\nline2 */ x");
    assert_eq!(t[0].kind, TokenKind::Comment);
    assert_eq!(t[1].kind, TokenKind::Ident);
    assert_eq!(t[1].pos.line, 2);
}

#[test]
fn comment_block_unterminated_is_illegal() {
    let t = tokens("/* no close");
    assert_eq!(t[0].kind, TokenKind::Illegal);
}

// ---------------- strings ----------------

#[test]
fn string_simple() {
    let t = tokens("\"hello\"");
    assert_eq!(t[0].kind, TokenKind::String);
    assert_eq!(t[0].value, "hello");
}

#[test]
fn string_escape_sequences() {
    let t = tokens("\"a\\nb\\tc\\rd\\\\e\\\"f\"");
    assert_eq!(t[0].value, "a\nb\tc\rd\\e\"f");
}

#[test]
fn string_unknown_escape_is_illegal() {
    // An unknown escape produces an ILLEGAL token.
    let t = tokens("\"\\q\"");
    assert!(matches!(t[0].kind, TokenKind::Illegal));
    assert!(t[0].value.contains("unknown escape"));
}

#[test]
fn string_utf8_passes_through() {
    let t = tokens("\"héllo, 世界\"");
    assert_eq!(t[0].value, "héllo, 世界");
}

#[test]
fn string_unterminated_is_illegal() {
    let t = tokens("\"oops");
    assert_eq!(t[0].kind, TokenKind::Illegal);
}

#[test]
fn string_triple_quoted_preserves_embedded_newlines() {
    let t = tokens("\"\"\"line1\nline2\"\"\"");
    assert_eq!(t[0].kind, TokenKind::String);
    assert_eq!(t[0].value, "line1\nline2");
}

#[test]
fn string_triple_quoted_dedents_using_closing_indent() {
    let src = "\"\"\"\n  hello\n  world\n  \"\"\"";
    let t = tokens(src);
    assert_eq!(t[0].value, "hello\nworld");
}

#[test]
fn string_triple_quoted_unterminated_is_illegal() {
    let t = tokens("\"\"\"no close");
    assert_eq!(t[0].kind, TokenKind::Illegal);
}

// ---------------- bytes ----------------

#[test]
fn bytes_standard_base64_decodes() {
    let t = tokens("b\"SGVsbG8=\"");
    assert_eq!(t[0].kind, TokenKind::Bytes);
    assert_eq!(t[0].value, "SGVsbG8=");
}

#[test]
fn bytes_raw_unpadded_base64_accepted() {
    let t = tokens("b\"SGVsbG8\"");
    assert_eq!(t[0].kind, TokenKind::Bytes);
}

#[test]
fn bytes_invalid_base64_is_illegal() {
    let t = tokens("b\"!!!\"");
    assert_eq!(t[0].kind, TokenKind::Illegal);
}

#[test]
fn bytes_plain_b_followed_by_ident_is_just_ident() {
    let t = tokens("bool");
    assert_eq!(t[0].kind, TokenKind::Ident);
    assert_eq!(t[0].value, "bool");
}

// ---------------- numbers ----------------

#[test]
fn number_integer() {
    let t = tokens("123");
    assert_eq!(t[0].kind, TokenKind::Int);
    assert_eq!(t[0].value, "123");
}

#[test]
fn number_negative_integer() {
    let t = tokens("-456");
    assert_eq!(t[0].kind, TokenKind::Int);
    assert_eq!(t[0].value, "-456");
}

#[test]
fn number_float_with_decimal() {
    let t = tokens("1.23");
    assert_eq!(t[0].kind, TokenKind::Float);
    assert_eq!(t[0].value, "1.23");
}

#[test]
fn number_float_with_exponent() {
    let t = tokens("6.022e23");
    assert_eq!(t[0].kind, TokenKind::Float);
    assert_eq!(t[0].value, "6.022e23");
}

#[test]
fn number_negative_float_with_exponent() {
    let t = tokens("-1.5e-10");
    assert_eq!(t[0].kind, TokenKind::Float);
    assert_eq!(t[0].value, "-1.5e-10");
}

#[test]
fn number_bare_minus_with_no_digits_is_illegal() {
    let t = tokens("-x");
    assert_eq!(t[0].kind, TokenKind::Illegal);
}

// ---------------- timestamps ----------------

#[test]
fn timestamp_z_suffix() {
    let t = tokens("2024-01-15T10:30:00Z");
    assert_eq!(t[0].kind, TokenKind::Timestamp);
    assert_eq!(t[0].value, "2024-01-15T10:30:00Z");
}

#[test]
fn timestamp_with_offset() {
    let t = tokens("2024-01-15T10:30:00+05:30");
    assert_eq!(t[0].kind, TokenKind::Timestamp);
}

#[test]
fn timestamp_with_fractional_seconds() {
    let t = tokens("2024-01-15T10:30:00.123456789Z");
    assert_eq!(t[0].kind, TokenKind::Timestamp);
}

#[test]
fn timestamp_invalid_month_is_illegal() {
    let t = tokens("2024-13-01T00:00:00Z");
    assert_eq!(t[0].kind, TokenKind::Illegal);
}

#[test]
fn timestamp_year_then_non_timestamp_falls_back_to_int() {
    let t = tokens("1234,");
    assert_eq!(t[0].kind, TokenKind::Int);
    assert_eq!(t[0].value, "1234");
}

// ---------------- durations ----------------

#[test]
fn duration_seconds() {
    let t = tokens("30s");
    assert_eq!(t[0].kind, TokenKind::Duration);
    assert_eq!(t[0].value, "30s");
}

#[test]
fn duration_composite() {
    let t = tokens("1h30m45s");
    assert_eq!(t[0].kind, TokenKind::Duration);
}

#[test]
fn duration_negative() {
    let t = tokens("-1h30m");
    assert_eq!(t[0].kind, TokenKind::Duration);
    assert_eq!(t[0].value, "-1h30m");
}

#[test]
fn duration_subsecond_units() {
    assert_eq!(tokens("100ns")[0].kind, TokenKind::Duration);
    assert_eq!(tokens("250ms")[0].kind, TokenKind::Duration);
    assert_eq!(tokens("3us")[0].kind, TokenKind::Duration);
}

#[test]
fn duration_no_day_unit_lexes_int_then_ident() {
    let ts = tokens("5d");
    assert_eq!(
        ts.iter().map(|t| t.kind).collect::<Vec<_>>(),
        vec![TokenKind::Int, TokenKind::Ident]
    );
}

#[test]
fn duration_float_path_wins_over_duration() {
    let ts = tokens("1.5s");
    assert_eq!(
        ts.iter().map(|t| t.kind).collect::<Vec<_>>(),
        vec![TokenKind::Float, TokenKind::Ident]
    );
}

#[test]
fn duration_malformed_is_illegal() {
    let t = tokens("5sx");
    assert_eq!(t[0].kind, TokenKind::Illegal);
}

// ---------------- identifiers and keywords ----------------

#[test]
fn ident_plain() {
    let t = tokens("name");
    assert_eq!(t[0].kind, TokenKind::Ident);
    assert_eq!(t[0].value, "name");
}

#[test]
fn ident_dotted_package_type() {
    assert_eq!(tokens("infra.v1.ServerConfig")[0].value, "infra.v1.ServerConfig");
}

#[test]
fn ident_true_false_become_bool() {
    assert_eq!(tokens("true")[0].kind, TokenKind::Bool);
    assert_eq!(tokens("false")[0].kind, TokenKind::Bool);
}

#[test]
fn ident_null_becomes_null() {
    assert_eq!(tokens("null")[0].kind, TokenKind::Null);
}

#[test]
fn ident_with_underscore_and_digits() {
    assert_eq!(tokens("_name123")[0].value, "_name123");
}

// ---------------- @type directive ----------------

#[test]
fn directive_at_type_recognized() {
    let t = tokens("@type");
    assert_eq!(t[0].kind, TokenKind::AtType);
    assert_eq!(t[0].value, "@type");
}

#[test]
fn directive_unknown_is_illegal() {
    let t = tokens("@bogus");
    assert_eq!(t[0].kind, TokenKind::Illegal);
}

// ---------------- position tracking ----------------

#[test]
fn position_line_and_column_advance() {
    let t = tokens("\"a\"\n  name");
    assert_eq!(t.len(), 3);
    assert_eq!(t[0].pos, Position::new(1, 1));
    assert_eq!(t[1].pos, Position::new(1, 4));
    assert_eq!(t[2].pos, Position::new(2, 3));
}

// ---------------- end-to-end ----------------

#[test]
fn end_to_end_pxf_readme_example_tokenizes_cleanly() {
    let src = "@type infra.v1.ServerConfig\n\
               \n\
               hostname = \"web-01.prod.example.com\"\n\
               port     = 8443\n\
               enabled  = true\n\
               \n\
               # Well-known type literals\n\
               created_at = 2024-01-15T10:30:00Z\n\
               timeout    = 30s\n\
               \n\
               # Nested messages use block syntax\n\
               tls {\n\
                 cert_file = \"/etc/ssl/cert.pem\"\n\
                 key_file  = \"/etc/ssl/key.pem\"\n\
                 verify    = true\n\
               }\n";
    let ts = tokens(src);
    assert!(
        ts.iter().find(|t| matches!(t.kind, TokenKind::Illegal)).is_none(),
        "no ILLEGAL tokens"
    );
    let meaningful: Vec<&Token> = ts
        .iter()
        .filter(|t| !matches!(t.kind, TokenKind::Newline | TokenKind::Comment))
        .collect();
    assert_eq!(meaningful[0].kind, TokenKind::AtType);
    assert_eq!(meaningful[1].value, "infra.v1.ServerConfig");
    assert_eq!(
        meaningful
            .iter()
            .find(|t| matches!(t.kind, TokenKind::Timestamp))
            .map(|t| t.value.as_str()),
        Some("2024-01-15T10:30:00Z")
    );
    assert_eq!(
        meaningful
            .iter()
            .find(|t| matches!(t.kind, TokenKind::Duration))
            .map(|t| t.value.as_str()),
        Some("30s")
    );
    assert_eq!(
        meaningful
            .iter()
            .filter(|t| matches!(t.kind, TokenKind::LBrace))
            .count(),
        1
    );
}

// --- Full escape set: \a \b \f \v \' \?, \xHH, \nnn,
//     \uHHHH, \UHHHHHHHH.

/// Lex a single STRING token from `src`; returns Some(value) or None on
/// ILLEGAL.
fn lex_one(src: &str) -> Option<String> {
    let t = tokens(src);
    match t.first() {
        Some(tok) if matches!(tok.kind, TokenKind::String) => Some(tok.value.clone()),
        _ => None,
    }
}

#[test]
fn escape_extended_simple_set() {
    assert_eq!(lex_one(r#""\a""#).as_deref(), Some("\u{07}"));
    assert_eq!(lex_one(r#""\b""#).as_deref(), Some("\u{08}"));
    assert_eq!(lex_one(r#""\f""#).as_deref(), Some("\u{0C}"));
    assert_eq!(lex_one(r#""\v""#).as_deref(), Some("\u{0B}"));
    assert_eq!(lex_one(r#""\'""#).as_deref(), Some("'"));
    assert_eq!(lex_one(r#""\?""#).as_deref(), Some("?"));
    assert_eq!(
        lex_one(r#""\a\b\f\n\r\t\v""#).as_deref(),
        Some("\u{07}\u{08}\u{0C}\n\r\t\u{0B}"),
    );
}

#[test]
fn escape_hex_byte() {
    assert_eq!(lex_one(r#""\x41""#).as_deref(), Some("A"));
    assert_eq!(lex_one(r#""\x00""#).as_deref(), Some("\0"));
    // Two adjacent \x escapes encode a 2-byte UTF-8 sequence.
    assert_eq!(lex_one(r#""\xc3\xa9""#).as_deref(), Some("é"));
    // Three encode a 3-byte UTF-8 sequence.
    assert_eq!(
        lex_one(r#""\xe4\xb8\xad""#).as_deref(),
        Some("中"),
    );
}

#[test]
fn escape_octal_byte() {
    assert_eq!(lex_one(r#""\101""#).as_deref(), Some("A"));
    assert_eq!(lex_one(r#""\000""#).as_deref(), Some("\0"));
    // \377 = 0xFF — a lone byte that's not valid UTF-8 on its own; the
    // Rust lexer rejects rather than store an invalid String.
    assert!(lex_one(r#""\377""#).is_none());
}

#[test]
fn escape_unicode_4_hex() {
    assert_eq!(lex_one(r#""é""#).as_deref(), Some("é"));
    assert_eq!(lex_one(r#""中""#).as_deref(), Some("中"));
    assert_eq!(
        lex_one(r#""aéb""#).as_deref(),
        Some("aéb"),
    );
}

#[test]
fn escape_unicode_8_hex() {
    assert_eq!(lex_one(r#""\U0001F600""#).as_deref(), Some("😀"));
    assert_eq!(lex_one(r#""\U0000004A""#).as_deref(), Some("J"));
}

#[test]
fn escape_invalid_forms_rejected() {
    // Unknown escape.
    assert!(lex_one(r#""\z""#).is_none());
    // Truncated \u.
    assert!(lex_one(r#""\u12""#).is_none());
    // Non-hex in \u.
    assert!(lex_one(r#""\u12gh""#).is_none());
    // Surrogate halves rejected.
    assert!(lex_one(r#""\uD800""#).is_none());
    assert!(lex_one(r#""\uDFFF""#).is_none());
    // Out-of-range \U.
    assert!(lex_one(r#""\U00110000""#).is_none());
    // Truncated \U (only 7 hex digits).
    assert!(lex_one(r#""\U0001F60""#).is_none());
    // Truncated \x.
    assert!(lex_one(r#""\x""#).is_none());
    assert!(lex_one(r#""\x4""#).is_none());
    // Non-hex \x.
    assert!(lex_one(r#""\xZZ""#).is_none());
    // Truncated octal.
    assert!(lex_one(r#""\10""#).is_none());
    // Non-octal in octal escape.
    assert!(lex_one(r#""\18a""#).is_none());
}

#[test]
fn bytes_literal_does_not_interpret_escapes() {
    // b"..." now reads the body raw (no escape interpretation). A
    // literal `\\` is invalid base64, so the lexer must produce an
    // ILLEGAL token rather than decoding the escape.
    let t = tokens(r#"b"hello\""#);
    assert!(matches!(t[0].kind, TokenKind::Illegal));
}

#[test]
fn bytes_literal_accepts_valid_base64() {
    // "Hello" in base64 = "SGVsbG8="
    let t = tokens(r#"b"SGVsbG8=""#);
    assert!(matches!(t[0].kind, TokenKind::Bytes));
    assert_eq!(t[0].value, "SGVsbG8=");
}
