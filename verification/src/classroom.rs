//! The fetch orchestrator's verified core: cache keys per operation, the
//! per-operation cache policy (memory-only or memory plus disk), and the
//! assembly of composite documents under the partial-failure policy. The
//! remote calls themselves are issued by the surrounding program, which feeds
//! their outcomes into these functions.

use vstd::prelude::*;
use vstd::string::StringExecFns;
use crate::cache::MemoryCache;
use crate::document::Document;
use crate::error::AppError;
use crate::json::{render, document_to_json};

verus! {

/// The logical operations that share the classroom cache.
#[derive(Debug, Clone, Copy, PartialEq, Eq, Structural)]
pub enum CacheOp {
    Courses,
    CourseDetails,
    Assignments,
    Materials,
    Topics,
}

/// The key prefix each operation owns.
pub open spec fn key_prefix(op: CacheOp) -> Seq<char> {
    match op {
        CacheOp::Courses => "courses"@,
        CacheOp::CourseDetails => "course_details:"@,
        CacheOp::Assignments => "assignments:"@,
        CacheOp::Materials => "materials_"@,
        CacheOp::Topics => "topics_"@,
    }
}

/// The cache key of an operation on a parameter: the operation's prefix with
/// the parameter appended; the course list takes no parameter.
pub open spec fn cache_key_spec(op: CacheOp, param: Seq<char>) -> Seq<char> {
    if op is Courses {
        "courses"@
    } else {
        key_prefix(op) + param
    }
}

/// Whether results of this operation are persisted to the disk tier as well.
pub open spec fn op_persists_spec(op: CacheOp) -> bool {
    op is Materials || op is Topics
}

proof fn lemma_concat_cancel(pre: Seq<char>, p1: Seq<char>, p2: Seq<char>)
    requires
        pre + p1 == pre + p2,
    ensures
        p1 == p2,
{
    assert((pre + p1).len() == pre.len() + p1.len());
    assert((pre + p2).len() == pre.len() + p2.len());
    assert(p1.len() == p2.len());
    assert forall|j: int| 0 <= j < p1.len() implies p1[j] == p2[j] by {
        assert((pre + p1)[pre.len() + j] == p1[j]);
        assert((pre + p2)[pre.len() + j] == p2[j]);
    }
    assert(p1 =~= p2);
}

proof fn lemma_keys_differ(a: Seq<char>, pa: Seq<char>, b: Seq<char>, pb: Seq<char>, i: int)
    requires
        0 <= i < a.len(),
        i < b.len(),
        a[i] != b[i],
    ensures
        a + pa != b + pb,
{
    assert((a + pa)[i] == a[i]);
    assert((b + pb)[i] == b[i]);
}

/// Key determinism and separation: the key is a function of the operation and
/// parameter alone, and two distinct (operation, parameter) pairs never share
/// a key — keys of different operations cannot collide.
pub proof fn lemma_cache_key_injective(op1: CacheOp, p1: Seq<char>, op2: CacheOp, p2: Seq<char>)
    requires
        cache_key_spec(op1, p1) == cache_key_spec(op2, p2),
    ensures
        op1 == op2,
        !(op1 is Courses) ==> p1 == p2,
{
    reveal_strlit("courses");
    reveal_strlit("course_details:");
    reveal_strlit("assignments:");
    reveal_strlit("materials_");
    reveal_strlit("topics_");
    let e = Seq::<char>::empty();
    assert(cache_key_spec(op1, p1) == key_prefix(op1) + sel_param(op1, p1)) by {
        assert("courses"@ + e =~= "courses"@);
    }
    assert(cache_key_spec(op2, p2) == key_prefix(op2) + sel_param(op2, p2)) by {
        assert("courses"@ + e =~= "courses"@);
    }
    let a = key_prefix(op1);
    let b = key_prefix(op2);
    if op1 != op2 {
        if (op1 is Courses && op2 is CourseDetails) || (op1 is CourseDetails && op2 is Courses) {
            lemma_keys_differ(a, sel_param(op1, p1), b, sel_param(op2, p2), 6);
        } else {
            lemma_keys_differ(a, sel_param(op1, p1), b, sel_param(op2, p2), 0);
        }
    } else if !(op1 is Courses) {
        lemma_concat_cancel(a, p1, p2);
    }
}

/// The parameter that actually enters the key.
pub open spec fn sel_param(op: CacheOp, p: Seq<char>) -> Seq<char> {
    if op is Courses {
        Seq::empty()
    } else {
        p
    }
}

/// Build the cache key for an operation on a parameter.
pub fn cache_key(op: CacheOp, param: &str) -> (r: String)
    ensures
        r@ == cache_key_spec(op, param@),
{
    match op {
        CacheOp::Courses => String::from_str("courses"),
        CacheOp::CourseDetails => String::from_str("course_details:").concat(param),
        CacheOp::Assignments => String::from_str("assignments:").concat(param),
        CacheOp::Materials => String::from_str("materials_").concat(param),
        CacheOp::Topics => String::from_str("topics_").concat(param),
    }
}

/// Whether this operation's results also go to the disk tier.
pub fn op_persists(op: CacheOp) -> (r: bool)
    ensures
        r == op_persists_spec(op),
{
    match op {
        CacheOp::Materials => true,
        CacheOp::Topics => true,
        _ => false,
    }
}

/// A pending write of one disk cache file, for the surrounding program to
/// perform; its failure is logged there and never fails the operation.
pub struct DiskWrite {
    pub file_name: String,
    pub contents: String,
}

/// File carrying `key` in the disk tier.
pub fn disk_file_name(key: &str) -> (r: String)
    ensures
        r@ == key@ + ".json"@,
{
    String::from_str(key).concat(".json")
}

/// Orchestrator state for course operations: the memory cache tier, bounded
/// at 1000 entries with a five-minute TTL. The remote hub lives in the
/// surrounding program.
pub struct ClassroomClient {
    memory: MemoryCache,
}

impl ClassroomClient {
    /// The memory tier.
    pub closed spec fn memory_spec(self) -> MemoryCache {
        self.memory
    }

    /// Internal invariant.
    pub open spec fn well_formed(self) -> bool {
        &&& self.memory_spec().well_formed()
        &&& self.memory_spec().capacity_spec() == 1000
        &&& self.memory_spec().ttl_spec() == 300
    }

    /// A client with an empty cache, 1000 entries at most, five-minute TTL.
    pub fn new() -> (r: Self)
        ensures
            r.well_formed(),
            forall|k: Seq<char>| r.memory_spec().lookup(k) is None,
    {
        ClassroomClient { memory: MemoryCache::new(1000, 300) }
    }

    /// Memory-tier read at time `now`.
    pub fn cached<'a>(&'a self, key: &str, now: u64) -> (r: Option<&'a Document>)
        requires
            self.well_formed(),
        ensures
            match r {
                Some(d) => self.memory_spec().get_spec(key@, now) == Some(*d),
                None => self.memory_spec().get_spec(key@, now) is None,
            },
    {
        self.memory.get(key, now)
    }

    /// Backfill the memory tier with a document the disk tier supplied.
    pub fn admit_disk(&mut self, key: &str, value: Document, now: u64)
        requires
            old(self).well_formed(),
        ensures
            final(self).well_formed(),
            (final(self).memory_spec().lookup(key@) matches Some(e) && e.value == value
                && e.inserted_at == now),
    {
        self.memory.insert(String::from_str(key), value, now);
    }

    /// Record a fetched composite in the memory tier and, for operations with
    /// the persistence policy, hand back the disk file write to perform.
    pub fn store(&mut self, op: CacheOp, param: &str, value: Document, now: u64) -> (w: Option<
        DiskWrite,
    >)
        requires
            old(self).well_formed(),
        ensures
            final(self).well_formed(),
            (final(self).memory_spec().lookup(cache_key_spec(op, param@)) matches Some(e)
                && e.value == value && e.inserted_at == now),
            op_persists_spec(op) ==> (w matches Some(d) && d.file_name@ == cache_key_spec(
                op,
                param@,
            ) + ".json"@ && d.contents@ == render(value, Seq::<char>::empty())),
            !op_persists_spec(op) ==> w is None,
    {
        let key = cache_key(op, param);
        let w = if op_persists(op) {
            Some(
                DiskWrite {
                    file_name: disk_file_name(key.as_str()),
                    contents: document_to_json(&value),
                },
            )
        } else {
            None
        };
        self.memory.insert(key, value, now);
        w
    }
}

/// The course-details composite: the course document plus its announcements;
/// a failed announcement fetch degrades to an empty list, never an error.
pub fn course_details_value(course: Document, announcements: Option<Vec<Document>>) -> (r:
    Document)
    ensures
        (r matches Document::Object(pairs) && pairs@.len() == 2 && pairs@[0].0@ == "course"@
            && pairs@[0].1 == course && pairs@[1].0@ == "announcements"@ && (match announcements {
            Some(list) => pairs@[1].1 == Document::Array(list),
            None => pairs@[1].1 matches Document::Array(a) && a@.len() == 0,
        })),
{
    let anns: Vec<Document> = match announcements {
        Some(v) => v,
        None => Vec::new(),
    };
    let mut pairs: Vec<(String, Document)> = Vec::new();
    pairs.push((String::from_str("course"), course));
    pairs.push((String::from_str("announcements"), Document::Array(anns)));
    Document::Object(pairs)
}

/// The identifier a course-work item carries, when its `id` field is a
/// string.
pub open spec fn doc_id(d: Document) -> Option<Seq<char>> {
    match d.field_spec("id"@) {
        Some(Document::Text(s)) => Some(s@),
        _ => None,
    }
}

/// The dependent calls of one assignments fetch: for each of the first
/// `cap` course-work items, the identifier to fetch submissions with, or
/// nothing where the item carries none.
pub struct FetchPlan {
    pub targets: Vec<Option<String>>,
}

/// Plan the dependent submission fetches for the first `cap` items.
#[verifier::loop_isolation(false)]
pub fn plan_assignments(items: &Vec<Document>, cap: usize) -> (r: FetchPlan)
    ensures
        r.targets@.len() == (if cap <= items@.len() {
            cap as int
        } else {
            items@.len() as int
        }),
        forall|j: int|
            0 <= j < r.targets@.len() ==> (match #[trigger] r.targets@[j] {
                Some(s) => doc_id(items@[j]) == Some(s@),
                None => doc_id(items@[j]) is None,
            }),
{
    let n = items.len();
    let m = if cap <= n {
        cap
    } else {
        n
    };
    let mut targets: Vec<Option<String>> = Vec::new();
    let mut j: usize = 0;
    while j < m
        invariant
            j <= m <= n == items@.len(),
            targets@.len() == j,
            forall|t: int|
                0 <= t < j ==> (match #[trigger] targets@[t] {
                    Some(s) => doc_id(items@[t]) == Some(s@),
                    None => doc_id(items@[t]) is None,
                }),
        decreases m - j,
    {
        match items[j].field_str("id") {
            Some(s) => targets.push(Some(s.clone())),
            None => targets.push(None),
        }
        j = j + 1;
    }
    FetchPlan { targets }
}

/// The submissions outcome assigned to item `j`: the fetched document for
/// planned items whose call succeeded, nothing for the rest.
pub open spec fn detail_for(details: Seq<Option<Document>>, cap: int, j: int) -> Option<Document> {
    if j < cap && 0 <= j < details.len() {
        details[j]
    } else {
        None
    }
}

/// One assignments entry: the course-work item with its submissions, where a
/// missing or failed submissions fetch leaves an empty list in place.
pub open spec fn entry_matches(e: Document, cw: Document, sub: Option<Document>) -> bool {
    &&& e matches Document::Object(ps)
    &&& ps@.len() == 2
    &&& ps@[0].0@ == "courseWork"@
    &&& ps@[0].1 == cw
    &&& ps@[1].0@ == "submissions"@
    &&& match sub {
        Some(d) => ps@[1].1 == d,
        None => ps@[1].1 matches Document::Array(a) && a@.len() == 0,
    }
}

/// The assignments composite. Every course-work item appears, in order: the
/// first `cap` with the submissions their dependent call returned (an empty
/// list where it failed or the item had no identifier), the rest with an
/// empty placeholder — none are dropped, and no dependent failure is fatal.
#[verifier::loop_isolation(false)]
pub fn assignments_value(
    course: Document,
    items: Vec<Document>,
    details: Vec<Option<Document>>,
    cap: usize,
) -> (r: Document)
    ensures
        (r matches Document::Object(pairs) && pairs@.len() == 2 && pairs@[0].0@ == "course"@
            && pairs@[0].1 == course && pairs@[1].0@ == "assignments"@ && (pairs@[1].1 matches
        Document::Array(entries) && entries@.len() == items@.len() && forall|j: int|
            0 <= j < items@.len() ==> entry_matches(
                #[trigger] entries@[j],
                items@[j],
                detail_for(details@, cap as int, j),
            ))),
{
    let ghost items0 = items@;
    let ghost details0 = details@;
    let mut items = items;
    let mut details = details;
    let n = items.len();
    let dn = details.len();
    let mut entries: Vec<Document> = Vec::new();
    let mut j: usize = 0;
    while j < n
        invariant
            j <= n,
            n == items0.len(),
            dn == details0.len(),
            items@ == items0.subrange(j as int, n as int),
            details@ == details0.subrange(
                (if j < cap {
                    if j < dn {
                        j as int
                    } else {
                        dn as int
                    }
                } else {
                    if cap < dn {
                        cap as int
                    } else {
                        dn as int
                    }
                }),
                dn as int,
            ),
            entries@.len() == j,
            forall|t: int|
                0 <= t < j ==> entry_matches(
                    #[trigger] entries@[t],
                    items0[t],
                    detail_for(details0, cap as int, t),
                ),
        decreases n - j,
    {
        let cw = items.remove(0);
        proof {
            assert(items0.subrange(j as int, n as int).drop_first() =~= items0.subrange(
                j + 1,
                n as int,
            ));
        }
        let det: Option<Document> = if j < cap && details.len() > 0 {
            proof {
                assert(details0.subrange(j as int, dn as int).drop_first() =~= details0.subrange(
                    j + 1,
                    dn as int,
                ));
            }
            details.remove(0)
        } else {
            None
        };
        let sub: Document = match det {
            Some(d) => d,
            None => Document::Array(Vec::new()),
        };
        let mut ps: Vec<(String, Document)> = Vec::new();
        ps.push((String::from_str("courseWork"), cw));
        ps.push((String::from_str("submissions"), sub));
        entries.push(Document::Object(ps));
        j = j + 1;
    }
    let mut pairs: Vec<(String, Document)> = Vec::new();
    pairs.push((String::from_str("course"), course));
    pairs.push((String::from_str("assignments"), Document::Array(entries)));
    Document::Object(pairs)
}

/// The error the materials fetch surfaces when its primary call fails.
pub fn materials_fetch_error(course_id: &str, upstream: &str) -> (r: AppError)
    ensures
        (r matches AppError::GoogleApi(m) && m@ == "failed to fetch course materials for "@
            + course_id@ + ": "@ + upstream@),
{
    let m = String::from_str("failed to fetch course materials for ").concat(course_id).concat(
        ": ",
    ).concat(upstream);
    AppError::GoogleApi(m)
}

/// The error the topics fetch surfaces when its primary call fails.
pub fn topics_fetch_error(course_id: &str, upstream: &str) -> (r: AppError)
    ensures
        (r matches AppError::GoogleApi(m) && m@ == "failed to fetch topics for "@ + course_id@
            + ": "@ + upstream@),
{
    let m = String::from_str("failed to fetch topics for ").concat(course_id).concat(": ").concat(
        upstream,
    );
    AppError::GoogleApi(m)
}

} // verus!
