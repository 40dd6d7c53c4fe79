use classroom_core::document::Document;
use classroom_core::error::AppError;
use classroom_core::json::{document_to_json, parse_json_document, render_result};

fn doc_text(s: &str) -> Document {
    Document::Text(s.to_string())
}

#[test]
fn pretty_layout_matches_expected_text() {
    let doc = Document::Object(vec![
        ("a".to_string(), Document::Int(1)),
        ("b".to_string(), Document::Array(vec![Document::Int(1), doc_text("x")])),
    ]);
    assert_eq!(
        document_to_json(&doc),
        "{\n  \"a\": 1,\n  \"b\": [\n    1,\n    \"x\"\n  ]\n}"
    );
}

#[test]
fn scalars_render_as_json() {
    assert_eq!(document_to_json(&Document::Null), "null");
    assert_eq!(document_to_json(&Document::Bool(true)), "true");
    assert_eq!(document_to_json(&Document::Bool(false)), "false");
    assert_eq!(document_to_json(&Document::Int(0)), "0");
    assert_eq!(document_to_json(&Document::Int(-42)), "-42");
    assert_eq!(document_to_json(&Document::Int(i64::MIN)), "-9223372036854775808");
    assert_eq!(document_to_json(&Document::Int(i64::MAX)), "9223372036854775807");
    assert_eq!(document_to_json(&Document::Array(vec![])), "[]");
    assert_eq!(document_to_json(&Document::Object(vec![])), "{}");
}

#[test]
fn strings_are_escaped() {
    let doc = doc_text("a\"b\\c\nd\te\u{1}");
    assert_eq!(document_to_json(&doc), "\"a\\\"b\\\\c\\nd\\te\\u0001\"");
}

#[test]
fn round_trip_preserves_documents() {
    let build = || {
        Document::Object(vec![
            ("título".to_string(), doc_text("line one\nline \"two\"\\")),
            ("count".to_string(), Document::Int(-7)),
            ("big".to_string(), Document::Int(i64::MIN)),
            ("ok".to_string(), Document::Bool(true)),
            ("missing".to_string(), Document::Null),
            (
                "nested".to_string(),
                Document::Array(vec![
                    Document::Object(vec![]),
                    Document::Array(vec![]),
                    doc_text("control\u{8}\u{c}\u{1f}"),
                ]),
            ),
        ])
    };
    let text = document_to_json(&build());
    assert_eq!(parse_json_document(&text), Some(build()));
}

#[test]
fn parser_accepts_plain_json_whitespace() {
    let text = " {\n\t\"k\" :\t[ 1 ,\n 2 ] }\n";
    assert_eq!(
        parse_json_document(text),
        Some(Document::Object(vec![(
            "k".to_string(),
            Document::Array(vec![Document::Int(1), Document::Int(2)])
        )]))
    );
}

#[test]
fn parser_rejects_malformed_documents() {
    assert_eq!(parse_json_document(""), None);
    assert_eq!(parse_json_document("nul"), None);
    assert_eq!(parse_json_document("{\"a\":}"), None);
    assert_eq!(parse_json_document("[1,]"), None);
    assert_eq!(parse_json_document("\"unterminated"), None);
    assert_eq!(parse_json_document("12 34"), None);
    assert_eq!(parse_json_document("1.5"), None);
    assert_eq!(parse_json_document("99999999999999999999999999"), None);
}

#[test]
fn pretty_layout_matches_the_common_pretty_printer() {
    // The disk files must look exactly like the pretty form other JSON
    // tooling writes, so old cache files and new ones interchange.
    // fields in sorted order, since the comparison map sorts its keys
    let doc = Document::Object(vec![
        ("empty_list".to_string(), Document::Array(vec![])),
        ("empty_map".to_string(), Document::Object(vec![])),
        ("name".to_string(), doc_text("line\none \"quoted\" \\ こんにちは \u{7}")),
        (
            "nested".to_string(),
            Document::Array(vec![Document::Int(1), Document::Object(vec![(
                "k".to_string(),
                doc_text("v"),
            )])]),
        ),
        ("nothing".to_string(), Document::Null),
        ("ok".to_string(), Document::Bool(true)),
        ("size".to_string(), Document::Int(-99)),
    ]);

    let mut map = serde_json::Map::new();
    map.insert(
        "name".to_string(),
        serde_json::Value::String("line\none \"quoted\" \\ こんにちは \u{7}".to_string()),
    );
    map.insert("size".to_string(), serde_json::Value::from(-99i64));
    map.insert("ok".to_string(), serde_json::Value::Bool(true));
    map.insert("nothing".to_string(), serde_json::Value::Null);
    map.insert("empty_list".to_string(), serde_json::Value::Array(vec![]));
    map.insert(
        "empty_map".to_string(),
        serde_json::Value::Object(serde_json::Map::new()),
    );
    let mut inner = serde_json::Map::new();
    inner.insert("k".to_string(), serde_json::Value::String("v".to_string()));
    map.insert(
        "nested".to_string(),
        serde_json::Value::Array(vec![
            serde_json::Value::from(1i64),
            serde_json::Value::Object(inner),
        ]),
    );
    let expected = serde_json::to_string_pretty(&serde_json::Value::Object(map)).unwrap();

    assert_eq!(document_to_json(&doc), expected);
}

#[test]
fn render_result_pretty_prints_success() {
    let outcome = Ok(Document::Array(vec![Document::Int(3)]));
    assert_eq!(render_result(&outcome), "[\n  3\n]");
}

#[test]
fn render_result_prefixes_errors() {
    let outcome = Err(AppError::GoogleApi("boom".to_string()));
    assert_eq!(render_result(&outcome), "Error: Google API error: boom");
    let outcome = Err(AppError::NotAuthenticated);
    assert_eq!(
        render_result(&outcome),
        "Error: not authenticated — run `auth` first to set up credentials"
    );
}

#[test]
fn error_messages_follow_their_kind() {
    assert_eq!(
        AppError::CredentialRead("x".to_string()).message(),
        "failed to read credentials: x"
    );
    assert_eq!(AppError::GoogleApi("x".to_string()).message(), "Google API error: x");
    assert_eq!(AppError::DriveApi("x".to_string()).message(), "Drive API error: x");
    assert_eq!(AppError::InvalidInput("x".to_string()).message(), "Invalid input: x");
    assert_eq!(AppError::OAuth2("x".to_string()).message(), "OAuth2 error: x");
    assert_eq!(AppError::Io("x".to_string()).message(), "I/O error: x");
    assert_eq!(AppError::Json("x".to_string()).message(), "JSON error: x");
}

#[test]
fn field_lookup_reads_object_fields() {
    let doc = Document::Object(vec![
        ("id".to_string(), doc_text("F1")),
        ("size".to_string(), Document::Int(9)),
    ]);
    assert_eq!(doc.field("id"), Some(&doc_text("F1")));
    assert_eq!(doc.field_str("id").map(|s| s.as_str()), Some("F1"));
    assert_eq!(doc.field("absent"), None);
    assert_eq!(doc.field_str("size"), None);
    assert_eq!(Document::Null.field("id"), None);
}
