use classroom_core::document::Document;
use classroom_core::drive::{
    content_plan, content_result, download_body_error, download_call_error,
    download_encoding_error, drive_metadata_error, export_body_error, export_call_error,
    export_encoding_error, file_metadata_value, parse_file_id, truncate_content, FetchStrategy,
    FetchedContent, FileMeta, MAX_CONTENT_BYTES,
};
use classroom_core::error::AppError;

#[test]
fn parse_google_doc_url() {
    let url = "https://docs.google.com/document/d/1aBcDeFgHiJkLmNoPqRsTuVwXyZ/edit";
    assert_eq!(parse_file_id(url).unwrap(), "1aBcDeFgHiJkLmNoPqRsTuVwXyZ");
}

#[test]
fn parse_drive_file_url() {
    let url = "https://drive.google.com/file/d/1aBcDeFgHiJkLmNoPqRsTuVwXyZ/view?usp=sharing";
    assert_eq!(parse_file_id(url).unwrap(), "1aBcDeFgHiJkLmNoPqRsTuVwXyZ");
}

#[test]
fn parse_spreadsheet_url() {
    let url = "https://docs.google.com/spreadsheets/d/1aBcDeFgHiJkLmNoPqRsTuVwXyZ/edit#gid=0";
    assert_eq!(parse_file_id(url).unwrap(), "1aBcDeFgHiJkLmNoPqRsTuVwXyZ");
}

#[test]
fn parse_open_id_url() {
    let url = "https://drive.google.com/open?id=1aBcDeFgHiJkLmNoPqRsTuVwXyZ";
    assert_eq!(parse_file_id(url).unwrap(), "1aBcDeFgHiJkLmNoPqRsTuVwXyZ");
}

#[test]
fn parse_bare_file_id() {
    assert_eq!(
        parse_file_id("1aBcDeFgHiJkLmNoPqRsTuVwXyZ").unwrap(),
        "1aBcDeFgHiJkLmNoPqRsTuVwXyZ"
    );
}

#[test]
fn parse_empty_input() {
    assert!(parse_file_id("").is_err());
    assert!(parse_file_id("  ").is_err());
}

#[test]
fn truncate_short_text() {
    let (text, truncated) = truncate_content("hello");
    assert_eq!(text, "hello");
    assert!(!truncated);
}

#[test]
fn truncate_long_text() {
    let long = "a".repeat(MAX_CONTENT_BYTES + 1000);
    let (text, truncated) = truncate_content(&long);
    assert!(truncated);
    assert!(text.len() <= MAX_CONTENT_BYTES + 50); // some room for the note
    assert!(text.ends_with("[... content truncated at 100 KB ...]"));
}

#[test]
fn parse_unrecognized_url_is_invalid_input() {
    match parse_file_id("https://example.com/nopattern") {
        Err(AppError::InvalidInput(m)) => {
            assert_eq!(m, "could not extract file ID from URL: https://example.com/nopattern");
        }
        other => panic!("expected InvalidInput, got {:?}", other),
    }
}

#[test]
fn parse_bad_token_is_invalid_input() {
    match parse_file_id("not a file id!") {
        Err(AppError::InvalidInput(m)) => {
            assert_eq!(m, "invalid file ID or URL: not a file id!");
        }
        other => panic!("expected InvalidInput, got {:?}", other),
    }
}

#[test]
fn parse_empty_message() {
    match parse_file_id("   ") {
        Err(AppError::InvalidInput(m)) => assert_eq!(m, "file_id_or_url cannot be empty"),
        other => panic!("expected InvalidInput, got {:?}", other),
    }
}

#[test]
fn path_segment_takes_precedence_over_query_id() {
    let url = "https://docs.google.com/document/d/PATHID/edit?id=QUERYID";
    assert_eq!(parse_file_id(url).unwrap(), "PATHID");
}

#[test]
fn truncate_never_splits_multibyte_characters() {
    // Two-byte characters straddling the budget: the cut must land on a
    // character boundary and the result must stay valid UTF-8.
    let long = "é".repeat(MAX_CONTENT_BYTES / 2 + 10);
    let (text, truncated) = truncate_content(&long);
    assert!(truncated);
    assert!(text.len() <= MAX_CONTENT_BYTES + 50);
    let marker = "\n\n[... content truncated at 100 KB ...]";
    let body = text.strip_suffix(marker).expect("marker expected");
    assert!(body.chars().all(|c| c == 'é'));
}

#[test]
fn dispatch_document_exports_to_plain_text() {
    match content_plan("application/vnd.google-apps.document") {
        FetchStrategy::Export(t) => assert_eq!(t, "text/plain"),
        _ => panic!("expected export strategy"),
    }
}

#[test]
fn dispatch_spreadsheet_exports_to_csv() {
    match content_plan("application/vnd.google-apps.spreadsheet") {
        FetchStrategy::Export(t) => assert_eq!(t, "text/csv"),
        _ => panic!("expected export strategy"),
    }
}

#[test]
fn dispatch_textual_types_download() {
    assert!(matches!(content_plan("text/markdown"), FetchStrategy::Download));
    assert!(matches!(content_plan("application/json"), FetchStrategy::Download));
    assert!(matches!(content_plan("application/x-yaml"), FetchStrategy::Download));
}

#[test]
fn dispatch_binary_is_metadata_only() {
    assert!(matches!(content_plan("image/png"), FetchStrategy::MetadataOnly));
    assert!(matches!(content_plan("application/pdf"), FetchStrategy::MetadataOnly));
}

fn sample_metadata() -> Document {
    file_metadata_value(FileMeta {
        id: Some("F1".to_string()),
        name: Some("picture".to_string()),
        mime_type: Some("image/png".to_string()),
        size: Some(2048),
        modified_time: None,
        web_view_link: Some("https://drive.google.com/file/d/F1/view".to_string()),
    })
}

#[test]
fn binary_file_yields_null_content_and_note() {
    let doc = content_result(sample_metadata(), "image/png", "picture", FetchedContent::Binary);
    let Document::Object(pairs) = doc else { panic!("expected object") };
    assert_eq!(pairs.len(), 5);
    assert_eq!(pairs[1].0, "content");
    assert_eq!(pairs[1].1, Document::Null);
    assert_eq!(pairs[3].0, "truncated");
    assert_eq!(pairs[3].1, Document::Bool(false));
    let Document::Text(note) = &pairs[4].1 else { panic!("expected note text") };
    assert!(!note.is_empty());
    assert_eq!(
        note.as_str(),
        "Binary file (image/png) — content not fetched. Name: picture. \
         Use the webViewLink to open in browser."
    );
}

#[test]
fn exported_content_is_kept_whole_under_budget() {
    let doc = content_result(
        sample_metadata(),
        "application/vnd.google-apps.document",
        "notes",
        FetchedContent::Exported { text: "short body".to_string(), target: "text/plain".to_string() },
    );
    let Document::Object(pairs) = doc else { panic!("expected object") };
    assert_eq!(pairs[1].1, Document::Text("short body".to_string()));
    assert_eq!(pairs[2].1, Document::Text("text/plain".to_string()));
    assert_eq!(pairs[3].1, Document::Bool(false));
    assert_eq!(pairs[4].1, Document::Text(String::new()));
}

#[test]
fn oversized_download_is_truncated_with_note() {
    let doc = content_result(
        sample_metadata(),
        "text/plain",
        "big",
        FetchedContent::Downloaded { text: "b".repeat(MAX_CONTENT_BYTES + 5) },
    );
    let Document::Object(pairs) = doc else { panic!("expected object") };
    let Document::Text(body) = &pairs[1].1 else { panic!("expected content text") };
    assert!(body.ends_with("[... content truncated at 100 KB ...]"));
    assert_eq!(pairs[3].1, Document::Bool(true));
    assert_eq!(pairs[4].1, Document::Text("Content truncated to 102400 bytes.".to_string()));
}

#[test]
fn metadata_error_passes_plain_failures_through() {
    match drive_metadata_error("F1", "connection reset") {
        AppError::DriveApi(m) => assert_eq!(m, "connection reset"),
        other => panic!("unexpected error {:?}", other),
    }
}

#[test]
fn metadata_error_explains_access_denied() {
    match drive_metadata_error("F1", "HTTP 403 insufficient permissions") {
        AppError::DriveApi(m) => {
            assert!(m.starts_with("Access denied for file F1."));
            assert!(m.ends_with("Original error: HTTP 403 insufficient permissions"));
        }
        other => panic!("unexpected error {:?}", other),
    }
}

#[test]
fn call_errors_carry_their_exact_messages() {
    assert!(matches!(export_call_error("F1", "boom"),
        AppError::DriveApi(m) if m == "export failed for F1: boom"));
    assert!(matches!(export_body_error("boom"),
        AppError::DriveApi(m) if m == "failed to read export body: boom"));
    assert!(matches!(export_encoding_error("boom"),
        AppError::DriveApi(m) if m == "export produced invalid UTF-8: boom"));
    assert!(matches!(download_call_error("F1", "boom"),
        AppError::DriveApi(m) if m == "download failed for F1: boom"));
    assert!(matches!(download_body_error("boom"),
        AppError::DriveApi(m) if m == "failed to read download body: boom"));
    assert!(matches!(download_encoding_error("boom"),
        AppError::DriveApi(m) if m == "file is not valid UTF-8: boom"));
}
