use classroom_core::cache::{decode_disk_entry, MemoryCache};
use classroom_core::classroom::{
    cache_key, disk_file_name, op_persists, plan_assignments, assignments_value,
    course_details_value, materials_fetch_error, topics_fetch_error, CacheOp, ClassroomClient,
};
use classroom_core::document::Document;
use classroom_core::drive::DriveClient;
use classroom_core::error::AppError;
use classroom_core::json::parse_json_document;

fn doc_text(s: &str) -> Document {
    Document::Text(s.to_string())
}

fn course_work_item(id: &str, title: &str) -> Document {
    Document::Object(vec![
        ("id".to_string(), doc_text(id)),
        ("title".to_string(), doc_text(title)),
    ])
}

#[test]
fn cache_keys_are_deterministic_and_distinct() {
    assert_eq!(cache_key(CacheOp::Courses, ""), "courses");
    assert_eq!(cache_key(CacheOp::CourseDetails, "c1"), "course_details:c1");
    assert_eq!(cache_key(CacheOp::Assignments, "c1"), "assignments:c1");
    assert_eq!(cache_key(CacheOp::Materials, "c1"), "materials_c1");
    assert_eq!(cache_key(CacheOp::Topics, "c1"), "topics_c1");
    // equal inputs, equal keys
    assert_eq!(
        cache_key(CacheOp::Assignments, "c1"),
        cache_key(CacheOp::Assignments, "c1")
    );
    // distinct operations or parameters, distinct keys
    let ops = [
        CacheOp::Courses,
        CacheOp::CourseDetails,
        CacheOp::Assignments,
        CacheOp::Materials,
        CacheOp::Topics,
    ];
    let mut keys: Vec<String> = Vec::new();
    for op in ops {
        keys.push(cache_key(op, "c1"));
        keys.push(cache_key(op, "c2"));
    }
    for i in 0..keys.len() {
        for j in 0..keys.len() {
            if i != j && !(i / 2 == 0 && j / 2 == 0) {
                assert_ne!(keys[i], keys[j], "keys {} and {} collide", i, j);
            }
        }
    }
}

#[test]
fn ttl_entry_visible_before_deadline_absent_after() {
    let mut cache = MemoryCache::new(10, 300);
    cache.insert("k".to_string(), Document::Int(7), 100);
    // before expiry: any read strictly below 100 + 300
    assert_eq!(cache.get("k", 100), Some(&Document::Int(7)));
    assert_eq!(cache.get("k", 399), Some(&Document::Int(7)));
    // at and after the deadline: absent, forcing a refetch
    assert_eq!(cache.get("k", 400), None);
    assert_eq!(cache.get("k", 100_000), None);
}

#[test]
fn ttl_deadline_beyond_the_clock_range_keeps_the_entry() {
    let mut cache = MemoryCache::new(4, 300);
    cache.insert("k".to_string(), Document::Int(1), u64::MAX - 10);
    assert_eq!(cache.get("k", u64::MAX), Some(&Document::Int(1)));
}

#[test]
fn clock_running_backwards_still_serves_the_entry() {
    // A read timestamped before the insertion is within the TTL window.
    let mut cache = MemoryCache::new(4, 300);
    cache.insert("k".to_string(), Document::Int(1), 500);
    assert_eq!(cache.get("k", 450), Some(&Document::Int(1)));
}

#[test]
fn cache_replaces_value_under_same_key() {
    let mut cache = MemoryCache::new(10, 300);
    cache.insert("k".to_string(), Document::Int(1), 10);
    cache.insert("k".to_string(), Document::Int(2), 20);
    assert_eq!(cache.get("k", 25), Some(&Document::Int(2)));
}

#[test]
fn cache_respects_capacity() {
    let mut cache = MemoryCache::new(3, 300);
    for i in 0..10u64 {
        cache.insert(format!("k{}", i), Document::Int(i as i64), 50);
    }
    // only the capacity's worth of entries can still be present
    let live: Vec<u64> = (0..10u64)
        .filter(|i| cache.get(&format!("k{}", i), 60).is_some())
        .collect();
    assert_eq!(live.len(), 3);
    // the newest insertion is among them
    assert_eq!(cache.get("k9", 60), Some(&Document::Int(9)));
}

#[test]
fn disk_persisted_value_survives_memory_restart() {
    // Store through the persistent path, then read the disk tier's file
    // contents back directly, as a fresh process with an empty memory tier
    // would.
    let mut client = ClassroomClient::new();
    let value = Document::Array(vec![doc_text("topic a"), doc_text("topic b")]);
    let write = client
        .store(CacheOp::Topics, "c1", value, 1000)
        .expect("topics persist to disk");
    assert_eq!(write.file_name, "topics_c1.json");

    let restarted = ClassroomClient::new();
    let key = cache_key(CacheOp::Topics, "c1");
    assert!(restarted.cached(&key, 1000).is_none());
    let from_disk = decode_disk_entry(Some(&write.contents)).expect("disk copy parses");
    assert_eq!(
        from_disk,
        Document::Array(vec![doc_text("topic a"), doc_text("topic b")])
    );
}

#[test]
fn memory_only_operations_produce_no_disk_write() {
    let mut client = ClassroomClient::new();
    let w = client.store(CacheOp::Courses, "", Document::Array(vec![]), 5);
    assert!(w.is_none());
    assert!(!op_persists(CacheOp::Courses));
    assert!(op_persists(CacheOp::Materials));
}

#[test]
fn corrupted_disk_entry_reads_as_absent() {
    assert_eq!(decode_disk_entry(None), None);
    assert_eq!(decode_disk_entry(Some("")), None);
    assert_eq!(decode_disk_entry(Some("{ not json at all")), None);
    assert_eq!(decode_disk_entry(Some("\u{0}\u{1}garbage\u{ff}")), None);
    assert_eq!(decode_disk_entry(Some("[1, 2")), None);
    // trailing garbage after a valid document is corruption too
    assert_eq!(decode_disk_entry(Some("{} {}")), None);
}

#[test]
fn disk_tier_serves_only_canonical_documents() {
    // Valid JSON that is not exactly the pretty form the writer produces is
    // treated as absent, so the tier never serves a document that fails to
    // print back to the file's bytes.
    assert_eq!(decode_disk_entry(Some("[1,2]")), None);
    assert_eq!(decode_disk_entry(Some("{\"a\": 1}")), None);
    let canonical = "[\n  1,\n  2\n]";
    assert_eq!(
        decode_disk_entry(Some(canonical)),
        Some(Document::Array(vec![Document::Int(1), Document::Int(2)]))
    );
}

#[test]
fn decode_round_trips_every_written_document() {
    let build = || {
        Document::Object(vec![
            ("text".to_string(), doc_text("nested \"q\" \\ ü \u{1f}")),
            ("n".to_string(), Document::Int(i64::MIN)),
            ("l".to_string(), Document::Array(vec![Document::Null, Document::Bool(true)])),
        ])
    };
    let written = classroom_core::json::document_to_json(&build());
    assert_eq!(decode_disk_entry(Some(&written)), Some(build()));
}

#[test]
fn disk_file_names_follow_key() {
    assert_eq!(disk_file_name("materials_c1"), "materials_c1.json");
}

#[test]
fn memory_backfill_after_disk_hit() {
    let mut client = ClassroomClient::new();
    let key = cache_key(CacheOp::Materials, "c7");
    assert!(client.cached(&key, 10).is_none());
    client.admit_disk(&key, Document::Int(42), 10);
    assert_eq!(client.cached(&key, 11), Some(&Document::Int(42)));
}

#[test]
fn drive_cache_round_trip() {
    let mut client = DriveClient::new();
    assert!(client.cached("F1", 0).is_none());
    client.store("F1", Document::Bool(true), 0);
    assert_eq!(client.cached("F1", 299), Some(&Document::Bool(true)));
    assert_eq!(client.cached("F1", 300), None);
}

#[test]
fn dependent_failure_degrades_only_that_item() {
    let course = doc_text("course");
    let items = vec![
        course_work_item("a1", "first"),
        course_work_item("a2", "second"),
        course_work_item("a3", "third"),
    ];
    let details = vec![
        Some(Document::Array(vec![doc_text("sub1")])),
        None, // this dependent call failed
        Some(Document::Array(vec![doc_text("sub3")])),
    ];
    let result = assignments_value(course, items, details, 5);
    let Document::Object(pairs) = result else { panic!("expected object") };
    let Document::Array(entries) = &pairs[1].1 else { panic!("expected entries") };
    assert_eq!(entries.len(), 3, "no entry may be dropped");
    let Document::Object(e1) = &entries[1] else { panic!("expected entry object") };
    assert_eq!(e1[1].0, "submissions");
    assert_eq!(e1[1].1, Document::Array(vec![]), "failed item degrades to empty");
    let Document::Object(e2) = &entries[2] else { panic!("expected entry object") };
    assert_eq!(e2[1].1, Document::Array(vec![doc_text("sub3")]));
}

#[test]
fn item_cap_gives_first_five_detail_and_pads_the_rest() {
    let course = doc_text("course");
    let mut items = Vec::new();
    for i in 0..8 {
        items.push(course_work_item(&format!("a{}", i), &format!("work {}", i)));
    }
    let plan = plan_assignments(&items, 5);
    assert_eq!(plan.targets.len(), 5);
    for (i, t) in plan.targets.iter().enumerate() {
        assert_eq!(t.as_deref(), Some(format!("a{}", i).as_str()));
    }
    let details: Vec<Option<Document>> = (0..5)
        .map(|i| Some(Document::Array(vec![doc_text(&format!("sub{}", i))])))
        .collect();
    let result = assignments_value(course, items, details, 5);
    let Document::Object(pairs) = result else { panic!("expected object") };
    assert_eq!(pairs[0].0, "course");
    let Document::Array(entries) = &pairs[1].1 else { panic!("expected entries") };
    assert_eq!(entries.len(), 8, "all eight items appear");
    for (i, entry) in entries.iter().enumerate() {
        let Document::Object(ps) = entry else { panic!("expected entry object") };
        assert_eq!(ps[0].0, "courseWork");
        assert_eq!(ps[0].1, course_work_item(&format!("a{}", i), &format!("work {}", i)));
        assert_eq!(ps[1].0, "submissions");
        if i < 5 {
            assert_eq!(
                ps[1].1,
                Document::Array(vec![doc_text(&format!("sub{}", i))]),
                "item {} carries full detail",
                i
            );
        } else {
            assert_eq!(ps[1].1, Document::Array(vec![]), "item {} is padded empty", i);
        }
    }
}

#[test]
fn course_details_compose_with_degraded_announcements() {
    let ok = course_details_value(doc_text("c"), Some(vec![doc_text("a1")]));
    let Document::Object(pairs) = ok else { panic!("expected object") };
    assert_eq!(pairs[1].1, Document::Array(vec![doc_text("a1")]));

    let degraded = course_details_value(doc_text("c"), None);
    let Document::Object(pairs) = degraded else { panic!("expected object") };
    assert_eq!(pairs[0].0, "course");
    assert_eq!(pairs[0].1, doc_text("c"));
    assert_eq!(pairs[1].0, "announcements");
    assert_eq!(pairs[1].1, Document::Array(vec![]));
}

#[test]
fn primary_failure_errors_carry_course_and_upstream() {
    match materials_fetch_error("c1", "boom") {
        AppError::GoogleApi(m) => {
            assert_eq!(m, "failed to fetch course materials for c1: boom")
        }
        other => panic!("unexpected {:?}", other),
    }
    match topics_fetch_error("c1", "boom") {
        AppError::GoogleApi(m) => assert_eq!(m, "failed to fetch topics for c1: boom"),
        other => panic!("unexpected {:?}", other),
    }
}

#[test]
fn stored_disk_contents_parse_back_to_the_stored_value() {
    let mut client = ClassroomClient::new();
    let value = Document::Object(vec![
        ("name".to_string(), doc_text("résumé \"draft\"\n")),
        ("size".to_string(), Document::Int(-12)),
        ("flags".to_string(), Document::Array(vec![Document::Bool(false), Document::Null])),
    ]);
    let rebuilt = Document::Object(vec![
        ("name".to_string(), doc_text("résumé \"draft\"\n")),
        ("size".to_string(), Document::Int(-12)),
        ("flags".to_string(), Document::Array(vec![Document::Bool(false), Document::Null])),
    ]);
    let write = client.store(CacheOp::Materials, "c9", value, 3).expect("persists");
    assert_eq!(parse_json_document(&write.contents), Some(rebuilt));
}
