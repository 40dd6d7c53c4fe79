//! File-content retrieval: normalizing a user-supplied file reference to a
//! resource identifier, and truncating fetched content at a UTF-8-safe byte
//! boundary.

use vstd::prelude::*;
use vstd::string::StringExecFns;
use vstd::utf8::{
    encode_utf8, decode_utf8, valid_utf8, is_char_boundary, encode_utf8_valid_utf8,
    encode_utf8_decode_utf8, is_char_boundary_start_end_of_seq,
};
use crate::cache::MemoryCache;
use crate::document::Document;
use crate::error::AppError;
use crate::text::{
    is_alnum_char, seq_has_prefix, find_pos, scan_to, trim_spec, chars_of, string_of, trim_chars,
    has_prefix, find_sub, scan_char, subvec, str_eq,
};

verus! {

/// Byte budget for fetched file content before truncation applies.
pub const MAX_CONTENT_BYTES: usize = 102400;

/// A character allowed in a bare resource identifier, which is then safe to
/// use as a path segment in a remote call.
pub open spec fn is_id_char(c: char) -> bool {
    is_alnum_char(c) || c == '-' || c == '_'
}

/// The (trimmed) input names a URL rather than a bare identifier.
pub open spec fn is_url(t: Seq<char>) -> bool {
    seq_has_prefix(t, "http://"@) || seq_has_prefix(t, "https://"@)
}

/// The identifier a URL yields: the segment after the first `/d/` up to the
/// next `/` if that segment is non-empty, otherwise the segment after the
/// first `id=` up to the next `&` if that one is non-empty, otherwise nothing.
/// `/d/` takes precedence over `id=`.
pub open spec fn url_extract(t: Seq<char>) -> Option<Seq<char>> {
    let by_path = match find_pos(t, "/d/"@, 0) {
        Some(i) => {
            let end = scan_to(t, i + 3, '/');
            if end > i + 3 {
                Some(t.subrange(i + 3, end))
            } else {
                None
            }
        },
        None => None,
    };
    match by_path {
        Some(seg) => Some(seg),
        None => match find_pos(t, "id="@, 0) {
            Some(k) => {
                let end = scan_to(t, k + 3, '&');
                if end > k + 3 {
                    Some(t.subrange(k + 3, end))
                } else {
                    None
                }
            },
            None => None,
        },
    }
}

/// The identifier extracted from the trimmed input `t`, or `None` where the
/// input is rejected: empty input, an unrecognized URL, or a bare token with
/// a character outside alphanumerics, `-` and `_`.
pub open spec fn file_id_outcome(t: Seq<char>) -> Option<Seq<char>> {
    if t.len() == 0 {
        None
    } else if is_url(t) {
        url_extract(t)
    } else if forall|i: int| 0 <= i < t.len() ==> is_id_char(t[i]) {
        Some(t)
    } else {
        None
    }
}

/// The message of the `InvalidInput` error raised for a rejected input.
pub open spec fn file_id_err_msg(t: Seq<char>) -> Seq<char> {
    if t.len() == 0 {
        "file_id_or_url cannot be empty"@
    } else if is_url(t) {
        "could not extract file ID from URL: "@ + t
    } else {
        "invalid file ID or URL: "@ + t
    }
}

/// Extract a canonical file identifier from a bare ID or a URL, trimming
/// white space first. Succeeds exactly when `file_id_outcome` yields an
/// identifier; otherwise reports `InvalidInput` with a descriptive message.
#[verifier::loop_isolation(false)]
pub fn parse_file_id(input: &str) -> (r: Result<String, AppError>)
    ensures
        ({
            let t = trim_spec(input@);
            match r {
                Ok(id) => file_id_outcome(t) == Some(id@),
                Err(e) => file_id_outcome(t) is None && (e matches AppError::InvalidInput(m)
                    && m@ == file_id_err_msg(t)),
            }
        }),
{
    proof {
        reveal_strlit("/d/");
        reveal_strlit("id=");
    }
    let raw = chars_of(input);
    let t = trim_chars(&raw);
    if t.len() == 0 {
        return Err(AppError::InvalidInput(String::from_str("file_id_or_url cannot be empty")));
    }
    let http = chars_of("http://");
    let https = chars_of("https://");
    if has_prefix(&t, &http) || has_prefix(&t, &https) {
        let pat_d = chars_of("/d/");
        match find_sub(&t, &pat_d) {
            Some(i) => {
                let start = i + 3;
                let end = scan_char(&t, start, '/');
                if end > start {
                    let seg = subvec(&t, start, end);
                    return Ok(string_of(&seg));
                }
            },
            None => {},
        }
        let pat_id = chars_of("id=");
        match find_sub(&t, &pat_id) {
            Some(k) => {
                let start = k + 3;
                let end = scan_char(&t, start, '&');
                if end > start {
                    let seg = subvec(&t, start, end);
                    return Ok(string_of(&seg));
                }
            },
            None => {},
        }
        let shown = string_of(&t);
        return Err(AppError::InvalidInput(String::from_str(
            "could not extract file ID from URL: ",
        ).concat(shown.as_str())));
    }
    let n = t.len();
    let mut i: usize = 0;
    while i < n
        invariant
            n == t@.len(),
            i <= n,
            forall|j: int| 0 <= j < i ==> is_id_char(t@[j]),
        decreases n - i,
    {
        let c = t[i];
        if !(c.is_alphanumeric() || c == '-' || c == '_') {
            let shown = string_of(&t);
            return Err(AppError::InvalidInput(String::from_str("invalid file ID or URL: ").concat(
                shown.as_str(),
            )));
        }
        i = i + 1;
    }
    Ok(string_of(&t))
}

/// The three ways file content can be obtained, decided by MIME type alone.
pub enum FetchStrategy {
    /// Convert the remote format through the export endpoint to this target
    /// MIME type.
    Export(String),
    /// Download the raw bytes and decode them as text.
    Download,
    /// Fetch nothing: binary content is left to the viewer link.
    MetadataOnly,
}

/// Spec-level tag of the chosen strategy.
pub enum StrategyKind {
    ExportPlain,
    ExportCsv,
    DownloadText,
    MetadataOnly,
}

/// Directly downloadable textual MIME types: `text/*` and a fixed allow-list
/// of structured text formats.
pub open spec fn is_text_mime(m: Seq<char>) -> bool {
    ||| seq_has_prefix(m, "text/"@)
    ||| m == "application/json"@
    ||| m == "application/xml"@
    ||| m == "application/javascript"@
    ||| m == "application/x-yaml"@
    ||| m == "application/csv"@
}

/// The strategy each MIME type is routed to: Workspace documents and
/// presentations export to plain text, spreadsheets to CSV, textual types
/// download directly, and everything else stays metadata-only.
pub open spec fn strategy_of(m: Seq<char>) -> StrategyKind {
    if m == "application/vnd.google-apps.document"@ || m
        == "application/vnd.google-apps.presentation"@ {
        StrategyKind::ExportPlain
    } else if m == "application/vnd.google-apps.spreadsheet"@ {
        StrategyKind::ExportCsv
    } else if is_text_mime(m) {
        StrategyKind::DownloadText
    } else {
        StrategyKind::MetadataOnly
    }
}

/// Decide the extraction strategy for a file's MIME type.
pub fn content_plan(mime_type: &str) -> (r: FetchStrategy)
    ensures
        match strategy_of(mime_type@) {
            StrategyKind::ExportPlain => r matches FetchStrategy::Export(t) && t@
                == "text/plain"@,
            StrategyKind::ExportCsv => r matches FetchStrategy::Export(t) && t@ == "text/csv"@,
            StrategyKind::DownloadText => r is Download,
            StrategyKind::MetadataOnly => r is MetadataOnly,
        },
{
    if str_eq(mime_type, "application/vnd.google-apps.document") || str_eq(
        mime_type,
        "application/vnd.google-apps.presentation",
    ) {
        return FetchStrategy::Export(String::from_str("text/plain"));
    }
    if str_eq(mime_type, "application/vnd.google-apps.spreadsheet") {
        return FetchStrategy::Export(String::from_str("text/csv"));
    }
    let mc = chars_of(mime_type);
    let text_prefix = chars_of("text/");
    if has_prefix(&mc, &text_prefix) || str_eq(mime_type, "application/json") || str_eq(
        mime_type,
        "application/xml",
    ) || str_eq(mime_type, "application/javascript") || str_eq(mime_type, "application/x-yaml")
        || str_eq(mime_type, "application/csv") {
        return FetchStrategy::Download;
    }
    FetchStrategy::MetadataOnly
}

/// What a file's metadata document carries, as plain values.
pub struct FileMeta {
    pub id: Option<String>,
    pub name: Option<String>,
    pub mime_type: Option<String>,
    pub size: Option<i64>,
    pub modified_time: Option<String>,
    pub web_view_link: Option<String>,
}

/// A possibly absent text field.
pub open spec fn opt_text_doc(o: Option<String>) -> Document {
    match o {
        Some(s) => Document::Text(s),
        None => Document::Null,
    }
}

/// A possibly absent integer field.
pub open spec fn opt_int_doc(o: Option<i64>) -> Document {
    match o {
        Some(i) => Document::Int(i),
        None => Document::Null,
    }
}

/// The metadata document served and cached for a file.
pub fn file_metadata_value(meta: FileMeta) -> (r: Document)
    ensures
        (r matches Document::Object(ps) && ps@.len() == 6 && ps@[0].0@ == "id"@ && ps@[0].1
            == opt_text_doc(meta.id) && ps@[1].0@ == "name"@ && ps@[1].1 == opt_text_doc(meta.name)
            && ps@[2].0@ == "mimeType"@ && ps@[2].1 == opt_text_doc(meta.mime_type) && ps@[3].0@
            == "size"@ && ps@[3].1 == opt_int_doc(meta.size) && ps@[4].0@ == "modifiedTime"@
            && ps@[4].1 == opt_text_doc(meta.modified_time) && ps@[5].0@ == "webViewLink"@
            && ps@[5].1 == opt_text_doc(meta.web_view_link)),
{
    let mut ps: Vec<(String, Document)> = Vec::new();
    ps.push((String::from_str("id"), text_or_null(meta.id)));
    ps.push((String::from_str("name"), text_or_null(meta.name)));
    ps.push((String::from_str("mimeType"), text_or_null(meta.mime_type)));
    ps.push(
        (
            String::from_str("size"),
            match meta.size {
                Some(i) => Document::Int(i),
                None => Document::Null,
            },
        ),
    );
    ps.push((String::from_str("modifiedTime"), text_or_null(meta.modified_time)));
    ps.push((String::from_str("webViewLink"), text_or_null(meta.web_view_link)));
    Document::Object(ps)
}

/// Wrap an optional string as a document field.
fn text_or_null(o: Option<String>) -> (r: Document)
    ensures
        r == opt_text_doc(o),
{
    match o {
        Some(s) => Document::Text(s),
        None => Document::Null,
    }
}

/// The marker appended to content that was cut at the byte budget.
pub open spec fn truncation_marker() -> Seq<char> {
    "\n\n[... content truncated at 100 KB ...]"@
}

/// Largest index at or below `i` that is a character boundary of `bytes`.
pub open spec fn boundary_cut(bytes: Seq<u8>, i: int) -> int
    recommends
        valid_utf8(bytes),
    decreases i,
{
    if i <= 0 {
        0
    } else if is_char_boundary(bytes, i) {
        i
    } else {
        boundary_cut(bytes, i - 1)
    }
}

/// What truncation yields: the text unchanged while its UTF-8 encoding fits
/// the budget; otherwise the longest prefix that ends on a character boundary
/// at or before the budget, with the truncation marker appended, and the flag
/// set.
pub open spec fn truncate_spec(s: Seq<char>) -> (Seq<char>, bool) {
    let bytes = encode_utf8(s);
    if bytes.len() <= MAX_CONTENT_BYTES {
        (s, false)
    } else {
        (
            decode_utf8(bytes.subrange(0, boundary_cut(bytes, MAX_CONTENT_BYTES as int)))
                + truncation_marker(),
            true,
        )
    }
}

/// UTF-8 encoding distributes over concatenation.
proof fn lemma_encode_utf8_concat(a: Seq<char>, b: Seq<char>)
    ensures
        encode_utf8(a + b) == encode_utf8(a) + encode_utf8(b),
    decreases a.len(),
{
    if a.len() == 0 {
        assert(a + b =~= b);
        assert(encode_utf8(a) + encode_utf8(b) =~= encode_utf8(b));
    } else {
        assert((a + b).drop_first() =~= a.drop_first() + b);
        assert((a + b)[0] == a[0]);
        lemma_encode_utf8_concat(a.drop_first(), b);
        assert(encode_utf8(a + b) =~= encode_utf8(a) + encode_utf8(b));
    }
}

/// Cut content to at most `MAX_CONTENT_BYTES` bytes of UTF-8, never splitting
/// a character, appending the truncation marker when anything was cut. The
/// result's byte length never exceeds the budget plus the marker's length,
/// and content within the budget is returned unchanged.
#[verifier::loop_isolation(false)]
pub fn truncate_content(text: &str) -> (r: (String, bool))
    requires
        encode_utf8(text@).len() <= usize::MAX,
    ensures
        r.0@ == truncate_spec(text@).0,
        r.1 == truncate_spec(text@).1,
        encode_utf8(r.0@).len() <= MAX_CONTENT_BYTES + encode_utf8(truncation_marker()).len(),
{
    proof {
        broadcast use encode_utf8_valid_utf8;
        broadcast use is_char_boundary_start_end_of_seq;
        broadcast use encode_utf8_decode_utf8;
    }
    let ghost bytes = encode_utf8(text@);
    let blen = text.len();
    if blen <= MAX_CONTENT_BYTES {
        let out = text.to_owned();
        return (out, false);
    }
    let mut end: usize = MAX_CONTENT_BYTES;
    while end > 0 && !text.is_char_boundary(end)
        invariant
            end <= MAX_CONTENT_BYTES,
            boundary_cut(bytes, MAX_CONTENT_BYTES as int) == boundary_cut(bytes, end as int),
        decreases end,
    {
        end = end - 1;
    }
    assert(is_char_boundary(bytes, end as int));
    assert(boundary_cut(bytes, MAX_CONTENT_BYTES as int) == end);
    let pair = text.split_at(end);
    let prefix = pair.0;
    proof {
        assert(encode_utf8(prefix@) =~= bytes.subrange(0, end as int));
        assert(decode_utf8(encode_utf8(prefix@)) == prefix@);
    }
    let mut out = prefix.to_owned();
    out.append("\n\n[... content truncated at 100 KB ...]");
    proof {
        lemma_encode_utf8_concat(prefix@, truncation_marker());
    }
    (out, true)
}

/// What the content fetch produced for a file, per the chosen strategy.
pub enum FetchedContent {
    /// The export call's text and the MIME type it converted to.
    Exported { text: String, target: String },
    /// The downloaded file's text.
    Downloaded { text: String },
    /// Nothing was fetched: the file is binary.
    Binary,
}

/// The note accompanying a file-content document: the binary explanation when
/// nothing was fetched, the truncation notice when content was cut, empty
/// exactly when content arrived whole.
pub open spec fn note_spec(mime: Seq<char>, name: Seq<char>, fetched: FetchedContent) -> Seq<
    char,
> {
    match fetched {
        FetchedContent::Binary => "Binary file ("@ + mime
            + ") — content not fetched. Name: "@ + name
            + ". Use the webViewLink to open in browser."@,
        FetchedContent::Exported { text, .. } => if truncate_spec(text@).1 {
            "Content truncated to 102400 bytes."@
        } else {
            Seq::empty()
        },
        FetchedContent::Downloaded { text } => if truncate_spec(text@).1 {
            "Content truncated to 102400 bytes."@
        } else {
            Seq::empty()
        },
    }
}

/// The size-bounded content document for one file: metadata, the (truncated)
/// content or an explicit absence for binary files, the export target if one
/// was used, the truncation flag, and the note — exactly one of the binary
/// note, the truncation notice and the empty string, empty only when content
/// was fetched whole.
pub fn content_result(
    metadata: Document,
    mime_type: &str,
    file_name: &str,
    fetched: FetchedContent,
) -> (r: Document)
    requires
        fetched matches FetchedContent::Exported { text, .. } ==> encode_utf8(text@).len()
            <= usize::MAX,
        fetched matches FetchedContent::Downloaded { text } ==> encode_utf8(text@).len()
            <= usize::MAX,
    ensures
        (r matches Document::Object(ps) && ps@.len() == 5 && ps@[0].0@ == "metadata"@ && ps@[0].1
            == metadata && ps@[1].0@ == "content"@ && ps@[2].0@ == "exportedAs"@ && ps@[3].0@
            == "truncated"@ && ps@[4].0@ == "note"@ && (match fetched {
            FetchedContent::Exported { text, target } => (ps@[1].1 matches Document::Text(t) && t@
                == truncate_spec(text@).0) && (ps@[2].1 matches Document::Text(e) && e@ == target@)
                && ps@[3].1 == Document::Bool(truncate_spec(text@).1),
            FetchedContent::Downloaded { text } => (ps@[1].1 matches Document::Text(t) && t@
                == truncate_spec(text@).0) && ps@[2].1 == Document::Null && ps@[3].1
                == Document::Bool(truncate_spec(text@).1),
            FetchedContent::Binary => ps@[1].1 == Document::Null && ps@[2].1 == Document::Null
                && ps@[3].1 == Document::Bool(false),
        }) && (ps@[4].1 matches Document::Text(nt) && nt@ == note_spec(
            mime_type@,
            file_name@,
            fetched,
        ))),
{
    let (content, exported_as, truncated): (Document, Document, bool) = match &fetched {
        FetchedContent::Exported { text, target } => {
            let (cut, was_cut) = truncate_content(text.as_str());
            (Document::Text(cut), Document::Text(target.clone()), was_cut)
        },
        FetchedContent::Downloaded { text } => {
            let (cut, was_cut) = truncate_content(text.as_str());
            (Document::Text(cut), Document::Null, was_cut)
        },
        FetchedContent::Binary => (Document::Null, Document::Null, false),
    };
    let note: String = match &fetched {
        FetchedContent::Binary => String::from_str("Binary file (").concat(mime_type).concat(
            ") — content not fetched. Name: ",
        ).concat(file_name).concat(". Use the webViewLink to open in browser."),
        _ => {
            if truncated {
                String::from_str("Content truncated to 102400 bytes.")
            } else {
                String::new()
            }
        },
    };
    let mut ps: Vec<(String, Document)> = Vec::new();
    ps.push((String::from_str("metadata"), metadata));
    ps.push((String::from_str("content"), content));
    ps.push((String::from_str("exportedAs"), exported_as));
    ps.push((String::from_str("truncated"), Document::Bool(truncated)));
    ps.push((String::from_str("note"), Document::Text(note)));
    Document::Object(ps)
}

/// `p` occurs somewhere in `s`.
pub open spec fn contains_sub(s: Seq<char>, p: Seq<char>) -> bool {
    find_pos(s, p, 0) is Some
}

/// The message carried by the error of a failed metadata fetch: an
/// access-denied failure gets re-authentication guidance, any other upstream
/// message passes through unchanged.
pub open spec fn metadata_error_msg(file_id: Seq<char>, upstream: Seq<char>) -> Seq<char> {
    if contains_sub(upstream, "403"@) || contains_sub(upstream, "insufficient"@) {
        "Access denied for file "@ + file_id
            + ". You may need to re-authenticate with `cargo run -- auth` to grant the drive.readonly scope. Original error: "@
            + upstream
    } else {
        upstream
    }
}

/// Classify a failed metadata fetch into the error the caller sees.
pub fn drive_metadata_error(file_id: &str, upstream: &str) -> (r: AppError)
    ensures
        (r matches AppError::DriveApi(m) && m@ == metadata_error_msg(file_id@, upstream@)),
{
    let uc = chars_of(upstream);
    let p403 = chars_of("403");
    let pins = chars_of("insufficient");
    let denied = match find_sub(&uc, &p403) {
        Some(_) => true,
        None => match find_sub(&uc, &pins) {
            Some(_) => true,
            None => false,
        },
    };
    if denied {
        let m = String::from_str("Access denied for file ").concat(file_id).concat(
            ". You may need to re-authenticate with `cargo run -- auth` to grant the drive.readonly scope. Original error: ",
        ).concat(upstream);
        AppError::DriveApi(m)
    } else {
        AppError::DriveApi(String::from_str(upstream))
    }
}

/// The error of a failed export call.
pub fn export_call_error(file_id: &str, upstream: &str) -> (r: AppError)
    ensures
        (r matches AppError::DriveApi(m) && m@ == "export failed for "@ + file_id@ + ": "@
            + upstream@),
{
    AppError::DriveApi(
        String::from_str("export failed for ").concat(file_id).concat(": ").concat(upstream),
    )
}

/// The error of an export whose body could not be read.
pub fn export_body_error(upstream: &str) -> (r: AppError)
    ensures
        (r matches AppError::DriveApi(m) && m@ == "failed to read export body: "@ + upstream@),
{
    AppError::DriveApi(String::from_str("failed to read export body: ").concat(upstream))
}

/// The error of an export that produced text in no valid encoding.
pub fn export_encoding_error(upstream: &str) -> (r: AppError)
    ensures
        (r matches AppError::DriveApi(m) && m@ == "export produced invalid UTF-8: "@ + upstream@),
{
    AppError::DriveApi(String::from_str("export produced invalid UTF-8: ").concat(upstream))
}

/// The error of a failed download call.
pub fn download_call_error(file_id: &str, upstream: &str) -> (r: AppError)
    ensures
        (r matches AppError::DriveApi(m) && m@ == "download failed for "@ + file_id@ + ": "@
            + upstream@),
{
    AppError::DriveApi(
        String::from_str("download failed for ").concat(file_id).concat(": ").concat(upstream),
    )
}

/// The error of a download whose body could not be read.
pub fn download_body_error(upstream: &str) -> (r: AppError)
    ensures
        (r matches AppError::DriveApi(m) && m@ == "failed to read download body: "@ + upstream@),
{
    AppError::DriveApi(String::from_str("failed to read download body: ").concat(upstream))
}

/// The error of a downloaded file that is not text.
pub fn download_encoding_error(upstream: &str) -> (r: AppError)
    ensures
        (r matches AppError::DriveApi(m) && m@ == "file is not valid UTF-8: "@ + upstream@),
{
    AppError::DriveApi(String::from_str("file is not valid UTF-8: ").concat(upstream))
}

/// State for file-content operations: the memory cache tier, bounded at 200
/// entries with a five-minute TTL; file content is never persisted to disk.
pub struct DriveClient {
    memory: MemoryCache,
}

impl DriveClient {
    /// The memory tier.
    pub closed spec fn memory_spec(self) -> MemoryCache {
        self.memory
    }

    /// Internal invariant.
    pub open spec fn well_formed(self) -> bool {
        &&& self.memory_spec().well_formed()
        &&& self.memory_spec().capacity_spec() == 200
        &&& self.memory_spec().ttl_spec() == 300
    }

    /// A client with an empty cache, 200 entries at most, five-minute TTL.
    pub fn new() -> (r: Self)
        ensures
            r.well_formed(),
            forall|k: Seq<char>| r.memory_spec().lookup(k) is None,
    {
        DriveClient { memory: MemoryCache::new(200, 300) }
    }

    /// Memory-tier read of a file's content document at time `now`.
    pub fn cached<'a>(&'a self, file_id: &str, now: u64) -> (r: Option<&'a Document>)
        requires
            self.well_formed(),
        ensures
            match r {
                Some(d) => self.memory_spec().get_spec(file_id@, now) == Some(*d),
                None => self.memory_spec().get_spec(file_id@, now) is None,
            },
    {
        self.memory.get(file_id, now)
    }

    /// Record a resolved content document in the memory tier.
    pub fn store(&mut self, file_id: &str, value: Document, now: u64)
        requires
            old(self).well_formed(),
        ensures
            final(self).well_formed(),
            (final(self).memory_spec().lookup(file_id@) matches Some(e) && e.value == value
                && e.inserted_at == now),
    {
        self.memory.insert(String::from_str(file_id), value, now);
    }
}

} // verus!
