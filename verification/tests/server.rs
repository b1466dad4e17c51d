use securenote::json_value::JsonValue;
use securenote::server::{handle, pull_step, push_body_of, push_step, pulled, pushed, PushBody, Response, Step};

/// A bucket log held in memory: what the relay's caller does with a step.
fn serve(logs: &mut Vec<(String, Vec<String>)>, method: &str, path: &str, body: &str) -> Response {
    match handle(method, path, body) {
        Step::Reply(r) => r,
        Step::Append { bucket, blobs } => {
            let n = blobs.len();
            let log = match logs.iter_mut().find(|(b, _)| *b == bucket) {
                Some((_, l)) => l,
                None => {
                    logs.push((bucket.clone(), vec![]));
                    &mut logs.last_mut().unwrap().1
                }
            };
            log.extend(blobs);
            pushed(n, Some(log.clone()))
        }
        Step::Read { bucket, since } => {
            let log = logs.iter().find(|(b, _)| *b == bucket).map(|(_, l)| l.clone()).unwrap_or_default();
            pulled(Some(log), since)
        }
    }
}

#[test]
fn push_then_pull_with_cursor() {
    let mut logs = vec![];
    let bucket = "a".repeat(64);
    let p = serve(&mut logs, "POST", &format!("/push/{bucket}"), r#"{"blobs":["dead","beef"]}"#);
    assert_eq!(p.status, 200);
    assert!(p.body.contains("\"cursor\":2"));

    let q = serve(&mut logs, "GET", &format!("/pull/{bucket}?since=1"), "");
    assert_eq!(q.status, 200);
    assert!(q.body.contains("beef"));
    assert!(!q.body.contains("dead"), "since=1 skips the first blob");
}

#[test]
fn rejects_invalid_bucket() {
    let mut logs = vec![];
    assert_eq!(serve(&mut logs, "POST", "/push/nothex", r#"{"blobs":[]}"#).status, 400);
}

#[test]
fn health_ok() {
    let mut logs = vec![];
    assert_eq!(serve(&mut logs, "GET", "/health", "").body, "ok");
}

// ---------------------------------------------------------------------------

fn bucket() -> String {
    "0123456789abcdef".repeat(4)
}

#[test]
fn push_answers_accepted_and_cursor() {
    let mut logs = vec![];
    let path = format!("/push/{}", bucket());
    let r = serve(&mut logs, "POST", &path, r#"{"blobs":["dead","","zz",7,null,"BEEF"]}"#);
    assert_eq!(r.status, 200);
    assert_eq!(r.body, r#"{"accepted":2,"cursor":2}"#);
    let r = serve(&mut logs, "POST", &path, r#"{"blobs":["01"]}"#);
    assert_eq!(r.body, r#"{"accepted":1,"cursor":3}"#);
}

#[test]
fn push_filters_what_it_stores() {
    match handle("POST", &format!("/push/{}", bucket()), r#"{"blobs":["ab","x1","","Cd",{"k":1}]}"#) {
        Step::Append { bucket: b, blobs } => {
            assert_eq!(b, bucket());
            assert_eq!(blobs, vec!["ab".to_string(), "Cd".to_string()]);
        }
        _ => panic!("expected an append"),
    }
}

#[test]
fn push_errors() {
    let path = format!("/push/{}", bucket());
    let reply = |method: &str, path: &str, body: &str| match handle(method, path, body) {
        Step::Reply(r) => (r.status, r.body),
        _ => panic!("expected a reply"),
    };
    assert_eq!(reply("POST", &path, "not json"), (400, r#"{"error":"invalid json"}"#.to_string()));
    assert_eq!(reply("POST", &path, r#"{"blob":[]}"#), (400, r#"{"error":"missing blobs"}"#.to_string()));
    assert_eq!(reply("POST", &path, r#"{"blobs":"ab"}"#), (400, r#"{"error":"missing blobs"}"#.to_string()));
    assert_eq!(reply("POST", &path, r#"[1,2]"#), (400, r#"{"error":"missing blobs"}"#.to_string()));
    // the bucket is checked before the body
    let upper = format!("/push/{}", "A".repeat(64));
    assert_eq!(reply("POST", &upper, "not json"), (400, r#"{"error":"invalid bucket"}"#.to_string()));
    let short = format!("/push/{}", "a".repeat(63));
    assert_eq!(reply("POST", &short, "{}").0, 400);
}

#[test]
fn routes() {
    let reply = |method: &str, path: &str| match handle(method, path, "") {
        Step::Reply(r) => (r.status, r.body),
        Step::Append { .. } => (0, "append".to_string()),
        Step::Read { since, .. } => (1, since.to_string()),
    };
    assert_eq!(reply("GET", "/health"), (200, "ok".to_string()));
    assert_eq!(reply("GET", "//health//"), (200, "ok".to_string()));
    assert_eq!(reply("GET", "health?x=1"), (200, "ok".to_string()));
    assert_eq!(reply("POST", "/health"), (404, r#"{"error":"not found"}"#.to_string()));
    assert_eq!(reply("GET", "/"), (404, r#"{"error":"not found"}"#.to_string()));
    assert_eq!(reply("GET", "/push/x"), (404, r#"{"error":"not found"}"#.to_string()));
    assert_eq!(reply("DELETE", "/health"), (404, r#"{"error":"not found"}"#.to_string()));
    let b = bucket();
    assert_eq!(reply("GET", &format!("/pull/{b}")), (1, "0".to_string()));
    assert_eq!(reply("GET", &format!("/pull/{b}/")), (1, "0".to_string()));
    assert_eq!(reply("GET", &format!("/pull/{b}/x")), (404, r#"{"error":"not found"}"#.to_string()));
    assert_eq!(reply("GET", "/pull/nothex?since=1"), (400, r#"{"error":"invalid bucket"}"#.to_string()));
}

#[test]
fn since_is_read_like_usize_from_str() {
    let b = bucket();
    let since = |q: &str| match handle("GET", &format!("/pull/{b}?{q}"), "") {
        Step::Read { since, .. } => since,
        _ => panic!("expected a read"),
    };
    assert_eq!(since("since=5"), 5);
    assert_eq!(since("a=1&since=7&since=9"), 7);
    assert_eq!(since("since=+3"), 3);
    assert_eq!(since("since=+"), 0);
    assert_eq!(since("since=-1"), 0);
    assert_eq!(since("since=x&since=4"), 0, "the first since= decides");
    assert_eq!(since("since="), 0);
    assert_eq!(since("Since=4"), 0);
    assert_eq!(since("since=99999999999999999999999999"), 0);
    assert_eq!(since(&format!("since={}", usize::MAX)), usize::MAX);
}

#[test]
fn pull_answers_blobs_after_since_and_cursor() {
    let log = vec!["aa".to_string(), "  ".to_string(), "bb".to_string(), "".to_string(), "cc".to_string()];
    assert_eq!(pulled(Some(log.clone()), 0).body, r#"{"blobs":["aa","bb","cc"],"cursor":3}"#);
    assert_eq!(pulled(Some(log.clone()), 2).body, r#"{"blobs":["cc"],"cursor":3}"#);
    assert_eq!(pulled(Some(log.clone()), 3).body, r#"{"blobs":[],"cursor":3}"#);
    assert_eq!(pulled(Some(log), 100).body, r#"{"blobs":[],"cursor":3}"#);
    let r = pulled(None, 0);
    assert_eq!((r.status, r.body), (400, r#"{"error":"storage error"}"#.to_string()));
}

#[test]
fn pull_escapes_stored_text_as_json() {
    let log = vec!["a\"b\\c\td".to_string(), "é\u{1}".to_string()];
    assert_eq!(pulled(Some(log), 0).body, "{\"blobs\":[\"a\\\"b\\\\c\\td\",\"é\\u0001\"],\"cursor\":2}");
}

#[test]
fn pushed_falls_back_to_accepted_when_the_log_cannot_be_read() {
    assert_eq!(pushed(4, None).body, r#"{"accepted":4,"cursor":4}"#);
    assert_eq!(pushed(1, Some(vec!["ab".into(), " ".into(), "cd".into()])).body, r#"{"accepted":1,"cursor":2}"#);
}

#[test]
fn pull_after_push_returns_exactly_the_pushed_blobs() {
    let mut logs = vec![];
    let b = bucket();
    serve(&mut logs, "POST", &format!("/push/{b}"), r#"{"blobs":["01","02"]}"#);
    let p = serve(&mut logs, "POST", &format!("/push/{b}"), r#"{"blobs":["03","04"]}"#);
    assert_eq!(p.body, r#"{"accepted":2,"cursor":4}"#);
    let q = serve(&mut logs, "GET", &format!("/pull/{b}?since=2"), "");
    assert_eq!(q.body, r#"{"blobs":["03","04"],"cursor":4}"#);
}

#[test]
fn steps_taken_directly() {
    match push_step(&bucket(), PushBody::Blobs(vec![Some("ab".into()), None, Some("q".into())])) {
        Step::Append { blobs, .. } => assert_eq!(blobs, vec!["ab".to_string()]),
        _ => panic!("expected an append"),
    }
    match push_step(&bucket(), PushBody::NotJson) {
        Step::Reply(r) => assert_eq!(r.body, r#"{"error":"invalid json"}"#),
        _ => panic!("expected a reply"),
    }
    match push_step(&bucket(), PushBody::NoBlobs) {
        Step::Reply(r) => assert_eq!(r.body, r#"{"error":"missing blobs"}"#),
        _ => panic!("expected a reply"),
    }
    match pull_step(&bucket(), "since=2") {
        Step::Read { bucket: b, since } => {
            assert_eq!(b, bucket());
            assert_eq!(since, 2);
        }
        _ => panic!("expected a read"),
    }
}

#[test]
fn responses() {
    let r = Response::ok("fine");
    assert_eq!((r.status, r.body.as_str()), (200, "fine"));
    let r = Response::bad("he said \"no\"");
    assert_eq!((r.status, r.body.as_str()), (400, r#"{"error":"he said \"no\""}"#));
    let r = Response::not_found();
    assert_eq!((r.status, r.body.as_str()), (404, r#"{"error":"not found"}"#));
}

#[test]
fn push_body_is_read_from_the_json_value() {
    let obj = |entries: Vec<(&str, JsonValue)>| {
        JsonValue::Object(entries.into_iter().map(|(k, v)| (k.to_string(), v)).collect())
    };
    assert!(matches!(push_body_of(None), PushBody::NotJson));
    assert!(matches!(push_body_of(Some(JsonValue::Array(vec![]))), PushBody::NoBlobs));
    assert!(matches!(push_body_of(Some(obj(vec![("blob", JsonValue::Array(vec![]))]))), PushBody::NoBlobs));
    assert!(matches!(push_body_of(Some(obj(vec![("blobs", JsonValue::Null)]))), PushBody::NoBlobs));
    let items = JsonValue::Array(vec![
        JsonValue::String("ab".into()),
        JsonValue::Number("7".into()),
        JsonValue::Bool(true),
        JsonValue::String("".into()),
    ]);
    match push_body_of(Some(obj(vec![("a", JsonValue::Null), ("blobs", items)]))) {
        PushBody::Blobs(v) => assert_eq!(v, vec![Some("ab".to_string()), None, None, Some(String::new())]),
        _ => panic!("expected blobs"),
    }
}
