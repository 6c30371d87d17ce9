use log_puller::archive::{object_key_of, plan_archive, prepare_archive, write_plan, ArchivePlan};
use log_puller::batch::{
    archive_outcome, finish_batch, plan_batch, task_result, verdict, InboundItem, PullOutcome,
    PullRequest, PullTask, TaskResult, Verdict,
};
use log_puller::catalog::{contains, find_last, Catalog, SourceDecl};

fn s(x: &str) -> String {
    x.to_string()
}

fn decl(name: Option<&str>, ty: Option<&str>, props: Option<Vec<(&str, &str)>>) -> SourceDecl {
    SourceDecl {
        name: name.map(s),
        connector_type: ty.map(s),
        properties: props.map(|p| p.into_iter().map(|(k, v)| (s(k), s(v))).collect()),
    }
}

fn catalog() -> Catalog {
    let decls = vec![
        decl(Some("okta"), Some("okta"), Some(vec![("domain", "example.okta.com")])),
        decl(Some("duo"), Some("duo"), Some(vec![])),
        decl(Some("github"), Some("github"), Some(vec![("org", "acme")])),
    ];
    let accepted = vec![s("okta"), s("duo"), s("github")];
    let creds = vec![
        (s("okta"), s("arn:okta")),
        (s("duo"), s("arn:duo")),
        (s("github"), s("arn:github")),
    ];
    Catalog::build(decls, &accepted, &creds)
}

fn item(id: &str, source: &str) -> InboundItem {
    InboundItem {
        message_id: Some(s(id)),
        request: Some(PullRequest { log_source_name: s(source), time: s("2024-01-01T00:00:00Z") }),
    }
}

fn result(id: &str, outcome: PullOutcome) -> TaskResult {
    TaskResult { message_id: s(id), outcome }
}

#[test]
fn catalog_keeps_complete_declarations() {
    let c = catalog();
    assert_eq!(c.len(), 3);
    let i = c.resolve(&s("duo")).unwrap();
    let ctx = c.context_at(i);
    assert_eq!(ctx.credential_ref, "arn:duo");
    assert_eq!(ctx.connector_type, "duo");
    let j = c.resolve(&s("okta")).unwrap();
    assert_eq!(c.context_at(j).properties, vec![(s("domain"), s("example.okta.com"))]);
    assert!(c.resolve(&s("slack")).is_none());
}

#[test]
fn catalog_drops_incomplete_declarations() {
    let decls = vec![
        decl(None, Some("okta"), Some(vec![])),
        decl(Some("a"), None, Some(vec![])),
        decl(Some("b"), Some("okta"), None),
        decl(Some("c"), Some("unsupported"), Some(vec![])),
        decl(Some("d"), Some("okta"), Some(vec![])),
        decl(Some("e"), Some("okta"), Some(vec![])),
    ];
    let accepted = vec![s("okta")];
    let creds = vec![(s("a"), s("1")), (s("b"), s("2")), (s("c"), s("3")), (s("e"), s("5"))];
    let c = Catalog::build(decls, &accepted, &creds);
    assert_eq!(c.len(), 1);
    assert!(c.resolve(&s("d")).is_none());
    let i = c.resolve(&s("e")).unwrap();
    assert_eq!(c.context_at(i).credential_ref, "5");
}

#[test]
fn catalog_later_declaration_wins() {
    let decls = vec![
        decl(Some("x"), Some("okta"), Some(vec![("v", "1")])),
        decl(Some("x"), Some("okta"), Some(vec![("v", "2")])),
    ];
    let creds = vec![(s("x"), s("old")), (s("x"), s("new"))];
    let c = Catalog::build(decls, &vec![s("okta")], &creds);
    let i = c.resolve(&s("x")).unwrap();
    assert_eq!(i, 1);
    assert_eq!(c.context_at(i).credential_ref, "new");
    assert_eq!(c.context_at(i).properties, vec![(s("v"), s("2"))]);
}

#[test]
fn lookup_helpers() {
    let v = vec![(s("a"), 1u8), (s("b"), 2u8), (s("a"), 3u8)];
    assert_eq!(find_last(&v, &s("a")), Some(2));
    assert_eq!(find_last(&v, &s("b")), Some(1));
    assert_eq!(find_last(&v, &s("c")), None);
    assert!(contains(&vec![s("a"), s("b")], &s("b")));
    assert!(!contains(&vec![], &s("b")));
}

#[test]
fn unknown_source_fails_without_dispatch() {
    let c = catalog();
    let plan = plan_batch(&c, vec![item("m1", "nope")]);
    assert_eq!(plan.failed, vec![s("m1")]);
    assert!(plan.tasks.is_empty());
    assert!(matches!(verdict(&c, item("m1", "nope")), Verdict::Fail(ref id) if id == "m1"));
    assert_eq!(finish_batch(plan.failed, vec![]), Some(vec![s("m1")]));
}

#[test]
fn malformed_and_anonymous_items() {
    let c = catalog();
    let items = vec![
        InboundItem { message_id: Some(s("bad")), request: None },
        InboundItem { message_id: None, request: Some(PullRequest { log_source_name: s("okta"), time: s("t") }) },
        item("good", "okta"),
    ];
    let plan = plan_batch(&c, items);
    assert_eq!(plan.failed, vec![s("bad")]);
    assert_eq!(plan.tasks.len(), 1);
    assert_eq!(plan.tasks[0].message_id, "good");
    assert_eq!(plan.tasks[0].source_name, "okta");
    assert_eq!(plan.tasks[0].context, 0);
}

#[test]
fn middle_item_failure_is_isolated() {
    let c = catalog();
    let plan = plan_batch(&c, vec![item("m1", "okta"), item("m2", "nope"), item("m3", "github")]);
    assert_eq!(plan.failed, vec![s("m2")]);
    let ids: Vec<&str> = plan.tasks.iter().map(|t| t.message_id.as_str()).collect();
    assert_eq!(ids, vec!["m1", "m3"]);
    assert_eq!(plan.tasks[1].context, 2);
    let results: Vec<TaskResult> = plan
        .tasks
        .iter()
        .map(|t| result(&t.message_id, PullOutcome::Archived(10)))
        .collect();
    assert_eq!(finish_batch(plan.failed, results), Some(vec![s("m2")]));
}

#[test]
fn failed_pull_is_reported() {
    let c = catalog();
    let plan = plan_batch(&c, vec![item("a", "okta"), item("b", "duo"), item("c", "github")]);
    assert!(plan.failed.is_empty());
    let results = vec![
        result("a", PullOutcome::NoNewData),
        result("b", PullOutcome::Failed),
        result("c", PullOutcome::Archived(3)),
    ];
    assert_eq!(finish_batch(plan.failed, results), Some(vec![s("b")]));
}

#[test]
fn all_success_accepts_batch() {
    let results = vec![result("a", PullOutcome::NoNewData), result("b", PullOutcome::Archived(1))];
    assert_eq!(finish_batch(vec![], results), None);
}

#[test]
fn every_item_fails_independently() {
    let c = catalog();
    let plan = plan_batch(&c, vec![item("a", "x"), item("b", "okta"), item("c", "y")]);
    let results = vec![result("b", PullOutcome::Failed)];
    assert_eq!(finish_batch(plan.failed, results), Some(vec![s("a"), s("c"), s("b")]));
}

#[test]
fn report_plus_successes_counts_identified_items() {
    let c = catalog();
    let items = vec![
        item("1", "okta"),
        item("2", "nope"),
        InboundItem { message_id: Some(s("3")), request: None },
        InboundItem { message_id: None, request: None },
        item("5", "duo"),
        item("6", "github"),
    ];
    let plan = plan_batch(&c, items);
    let outcomes = vec![PullOutcome::Failed, PullOutcome::NoNewData, PullOutcome::Archived(4)];
    let results: Vec<TaskResult> = plan
        .tasks
        .iter()
        .zip(outcomes)
        .map(|(t, o)| TaskResult { message_id: t.message_id.clone(), outcome: o })
        .collect();
    let successes = results.iter().filter(|r| r.outcome.is_success()).count();
    let report = finish_batch(plan.failed, results).unwrap();
    assert_eq!(report.len() + successes, 5);
    assert_eq!(report, vec![s("2"), s("3"), s("1")]);
}

#[test]
fn fifty_items_in_any_completion_order() {
    let names = ["okta", "duo", "github", "unknown"];
    let c = catalog();
    let items: Vec<InboundItem> =
        (0..50).map(|i| item(&format!("id-{}", i), names[i % 4])).collect();
    let plan = plan_batch(&c, items);
    let mut expected: Vec<String> = (0..50)
        .filter(|i| i % 4 == 3 || i % 5 == 0)
        .map(|i| format!("id-{}", i))
        .collect();
    expected.sort();
    let mut state: u64 = 0x2545F4914F6CDD1D;
    for _round in 0..5 {
        let mut tasks: Vec<usize> = (0..plan.tasks.len()).collect();
        for k in (1..tasks.len()).rev() {
            state ^= state << 13;
            state ^= state >> 7;
            state ^= state << 17;
            tasks.swap(k, (state % (k as u64 + 1)) as usize);
        }
        let results: Vec<TaskResult> = tasks
            .iter()
            .map(|&k| {
                let t = &plan.tasks[k];
                let n: usize = t.message_id[3..].parse().unwrap();
                let outcome = if n % 5 == 0 { PullOutcome::Failed } else { PullOutcome::Archived(n as u64) };
                TaskResult { message_id: t.message_id.clone(), outcome }
            })
            .collect();
        let mut report = finish_batch(plan.failed.clone(), results).unwrap();
        report.sort();
        assert_eq!(report, expected);
    }
}

#[test]
fn empty_batch_is_accepted() {
    let c = catalog();
    let plan = plan_batch(&c, vec![]);
    assert!(plan.failed.is_empty());
    assert!(plan.tasks.is_empty());
    assert_eq!(finish_batch(plan.failed, vec![]), None);
    assert_eq!(Catalog::new().len(), 0);
}

#[test]
fn empty_data_writes_nothing() {
    assert!(matches!(plan_archive("okta", &vec![], "id"), ArchivePlan::NoNewData));
    assert!(matches!(prepare_archive("okta", &vec![]), ArchivePlan::NoNewData));
}

#[test]
fn data_is_written_once_compressed() {
    let data: Vec<u8> = b"{\"event\":\"login\"}\n".repeat(20);
    match plan_archive("okta", &data, "0f8e") {
        ArchivePlan::Write { key, body, content_encoding } => {
            assert_eq!(key, "okta/0f8e.json.zst");
            assert_eq!(content_encoding, "application/zstd");
            assert_ne!(body, data);
            assert_eq!(&body[..4], &[0x28, 0xb5, 0x2f, 0xfd]);
            assert_eq!(zstd::stream::decode_all(body.as_slice()).unwrap(), data);
        }
        ArchivePlan::NoNewData => panic!("expected a write"),
    }
}

#[test]
fn fresh_keys_never_collide() {
    let data = vec![1u8, 2, 3];
    let key = |p: ArchivePlan| match p {
        ArchivePlan::Write { key, body, .. } => {
            assert_eq!(zstd::stream::decode_all(body.as_slice()).unwrap(), vec![1u8, 2, 3]);
            key
        }
        ArchivePlan::NoNewData => panic!("expected a write"),
    };
    let k1 = key(prepare_archive("duo", &data));
    let k2 = key(prepare_archive("duo", &data));
    assert_ne!(k1, k2);
    assert!(k1.starts_with("duo/"));
    assert!(k1.ends_with(".json.zst"));
    assert_eq!(k1.len(), "duo/".len() + 36 + ".json.zst".len());
}

#[test]
fn write_plan_keeps_payload() {
    match write_plan("gh", "abc", vec![9, 8]) {
        ArchivePlan::Write { key, body, content_encoding } => {
            assert_eq!(key, "gh/abc.json.zst");
            assert_eq!(body, vec![9, 8]);
            assert_eq!(content_encoding, "application/zstd");
        }
        ArchivePlan::NoNewData => panic!("expected a write"),
    }
}

#[test]
fn outcome_of_archive() {
    let write = ArchivePlan::Write { key: s("k"), body: vec![1], content_encoding: s("e") };
    assert!(matches!(archive_outcome(&write, 7, true), PullOutcome::Archived(7)));
    assert!(matches!(archive_outcome(&write, 7, false), PullOutcome::Failed));
    assert!(matches!(archive_outcome(&ArchivePlan::NoNewData, 0, false), PullOutcome::NoNewData));
    assert!(PullOutcome::NoNewData.is_success());
    assert!(!PullOutcome::Failed.is_success());
}

#[test]
fn task_result_keeps_its_id() {
    let task = |id: &str| PullTask { message_id: s(id), source_name: s("okta"), context: 0 };
    let write = plan_archive("okta", &vec![5u8; 10], "x");
    let r = task_result(task("a"), Some((&write, 10)), true);
    assert_eq!(r.message_id, "a");
    assert!(matches!(r.outcome, PullOutcome::Archived(10)));
    let r = task_result(task("b"), Some((&write, 10)), false);
    assert_eq!(r.message_id, "b");
    assert!(matches!(r.outcome, PullOutcome::Failed));
    let r = task_result(task("c"), None, false);
    assert_eq!(r.message_id, "c");
    assert!(matches!(r.outcome, PullOutcome::Failed));
    let r = task_result(task("d"), Some((&ArchivePlan::NoNewData, 0)), false);
    assert!(matches!(r.outcome, PullOutcome::NoNewData));
}

#[test]
fn object_key_format() {
    assert_eq!(object_key_of("okta", "abc"), "okta/abc.json.zst");
    assert_eq!(object_key_of("", ""), "/.json.zst");
}

#[test]
fn non_empty_pulls_are_archived_and_isolated() {
    let c = catalog();
    let plan = plan_batch(&c, vec![item("m1", "okta"), item("m2", "zzz"), item("m3", "github")]);
    let data = b"line\n".to_vec();
    let mut writes = 0;
    let results: Vec<TaskResult> = plan
        .tasks
        .into_iter()
        .map(|t| {
            let p = prepare_archive(&t.source_name, &data);
            if let ArchivePlan::Write { key, .. } = &p {
                assert!(key.starts_with(&format!("{}/", t.source_name)));
                writes += 1;
            }
            task_result(t, Some((&p, data.len() as u64)), true)
        })
        .collect();
    assert_eq!(writes, 2);
    assert_eq!(finish_batch(plan.failed, results), Some(vec![s("m2")]));
}
