use message_store::codec::{encode_message, parse_message};
use message_store::query::{apply_query, no_room, MAX_LIMIT};
use message_store::repo::{create_message, get_messages, id_of_name, load_messages, next_id};
use message_store::room::{message_path, room_path, validate_room};
use message_store::sweep::is_expired;
use message_store::time::timestamp_is_valid;
use message_store::types::{ApiError, Limits, Message, MsgQuery, NewMessage};

fn msg(id: usize, timestamp: &str) -> Message {
    Message {
        id,
        room: "deadbeefdeadbeef".to_string(),
        user: "u".to_string(),
        user_iv: "iv1".to_string(),
        content: "c".to_string(),
        iv: "iv2".to_string(),
        timestamp: timestamp.to_string(),
    }
}

fn limits() -> Limits {
    Limits {
        max_user_len: 64,
        max_iv_len: 64,
        max_content_len: 1024,
    }
}

fn query(
    sort: Option<&str>,
    order: Option<&str>,
    since_id: Option<usize>,
    since_ts: Option<&str>,
    limit: Option<usize>,
) -> MsgQuery {
    MsgQuery {
        sort: sort.map(|s| s.to_string()),
        order: order.map(|s| s.to_string()),
        since_id,
        since_ts: since_ts.map(|s| s.to_string()),
        limit,
    }
}

#[test]
fn room_validation() {
    assert!(validate_room("deadbeefdeadbeef"));
    assert!(validate_room("0123456789abcdef"));
    assert!(!validate_room("0123456789ABCDEF"));
    assert!(!validate_room("DEADBEEFDEADBEEF"));
    assert!(!validate_room("short"));
    assert!(!validate_room("deadbeefdeadbee"));
    assert!(!validate_room("deadbeefdeadbeef0"));
    assert!(!validate_room("deadbeefdeadbeeg"));
    assert!(!validate_room(""));
}

#[test]
fn storage_paths() {
    assert_eq!(room_path("deadbeefdeadbeef"), "messages/deadbeefdeadbeef");
    assert_eq!(
        message_path("deadbeefdeadbeef", 7),
        "messages/deadbeefdeadbeef/7.json"
    );
    assert_eq!(
        message_path("deadbeefdeadbeef", 120),
        "messages/deadbeefdeadbeef/120.json"
    );
}

#[test]
fn record_round_trip() {
    let m = msg(42, "2024-01-02T03:04:05+00:00");
    let rec = encode_message(&m);
    let back = parse_message(rec.as_str()).expect("own record must parse");
    assert_eq!(back.id, 42);
    assert_eq!(back.room, "deadbeefdeadbeef");
    assert_eq!(back.user, "u");
    assert_eq!(back.user_iv, "iv1");
    assert_eq!(back.content, "c");
    assert_eq!(back.iv, "iv2");
    assert_eq!(back.timestamp, "2024-01-02T03:04:05+00:00");
}

#[test]
fn record_round_trip_with_escapes() {
    let mut m = msg(7, "2024-01-02T03:04:05+00:00");
    m.content = "he said \"hi\\there\"\nnew line".to_string();
    m.user = "a\\b\"c".to_string();
    let rec = encode_message(&m);
    let back = parse_message(rec.as_str()).expect("escaped record must parse");
    assert_eq!(back.content, "he said \"hi\\there\"\nnew line");
    assert_eq!(back.user, "a\\b\"c");
}

#[test]
fn record_content_shape() {
    let m = msg(1, "t");
    let rec = encode_message(&m);
    assert_eq!(
        rec,
        "{\"id\":1,\"room\":\"deadbeefdeadbeef\",\"user\":\"u\",\"user_iv\":\"iv1\",\"content\":\"c\",\"iv\":\"iv2\",\"timestamp\":\"t\"}"
    );
}

#[test]
fn record_round_trip_with_control_chars() {
    let mut m = msg(9, "2024-01-02T03:04:05+00:00");
    m.content = "line\nbreak\ttab\rret\u{01}bell\u{1f}unit".to_string();
    let rec = encode_message(&m);
    // the record is pure JSON: no raw control character survives encoding
    assert!(!rec.contains('\n'));
    assert!(!rec.contains('\t'));
    assert!(rec.contains("\\n"));
    assert!(rec.contains("\\u0001"));
    assert!(rec.contains("\\u001f"));
    let back = parse_message(rec.as_str()).expect("control characters must round trip");
    assert_eq!(back.content, "line\nbreak\ttab\rret\u{01}bell\u{1f}unit");
}

#[test]
fn non_canonical_escapes_rejected() {
    let m = msg(4, "t");
    let rec = encode_message(&m);
    // a raw control character inside a string field is not a record
    let raw = rec.replace("\"user\":\"u\"", "\"user\":\"u\n\"");
    assert!(parse_message(raw.as_str()).is_none());
    // an escaped non-control character is not canonical
    let wide = rec.replace("\"user\":\"u\"", "\"user\":\"\\u0041\"");
    assert!(parse_message(wide.as_str()).is_none());
    // a control character with a short code must use it
    let long = rec.replace("\"user\":\"u\"", "\"user\":\"\\u000a\"");
    assert!(parse_message(long.as_str()).is_none());
    // an unknown escape code is refused
    let unknown = rec.replace("\"user\":\"u\"", "\"user\":\"\\x\"");
    assert!(parse_message(unknown.as_str()).is_none());
}

#[test]
fn corrupt_records_rejected() {
    assert!(parse_message("").is_none());
    assert!(parse_message("not json at all").is_none());
    assert!(parse_message("{\"id\":1}").is_none());
    let m = msg(3, "t");
    let rec = encode_message(&m);
    // truncated record
    let half = &rec[..rec.len() / 2];
    assert!(parse_message(half).is_none());
    // trailing garbage
    let mut noisy = rec.clone();
    noisy.push('x');
    assert!(parse_message(noisy.as_str()).is_none());
    // a non-canonical id
    let zero = rec.replace("{\"id\":3", "{\"id\":03");
    assert!(parse_message(zero.as_str()).is_none());
}

#[test]
fn id_extraction_from_names() {
    assert_eq!(id_of_name("7.json"), Some(7));
    assert_eq!(id_of_name("120.json"), Some(120));
    assert_eq!(id_of_name("12"), Some(12));
    assert_eq!(id_of_name("5.tmp"), Some(5));
    assert_eq!(id_of_name("junk.json"), None);
    assert_eq!(id_of_name(".json"), None);
    assert_eq!(id_of_name(""), None);
}

#[test]
fn next_id_of_room() {
    let none: Vec<String> = Vec::new();
    assert_eq!(next_id(&none), 1);
    let names = vec!["1.json".to_string(), "3.json".to_string()];
    assert_eq!(next_id(&names), 4);
    let mixed = vec![
        "junk".to_string(),
        "7.json".to_string(),
        "x.json".to_string(),
    ];
    assert_eq!(next_id(&mixed), 8);
    let unordered = vec!["10.json".to_string(), "9.json".to_string()];
    assert_eq!(next_id(&unordered), 11);
}

#[test]
fn sequential_creations_count_up() {
    // ids come out 1, 2, ..., N in creation order
    let mut names: Vec<String> = Vec::new();
    for k in 1..=5usize {
        let nm = NewMessage {
            user: "u".to_string(),
            user_iv: "iv1".to_string(),
            content: "c".to_string(),
            iv: "iv2".to_string(),
        };
        let m = create_message("deadbeefdeadbeef", nm, &limits(), &names)
            .expect("creation must succeed");
        assert_eq!(m.id, k);
        names.push(format!("{}.json", m.id));
    }
}

#[test]
fn serialized_concurrent_creations_get_distinct_ids() {
    // with allocation and save serialized per room, the second writer sees
    // the first writer's record and is handed a fresh id
    let first_snapshot: Vec<String> = Vec::new();
    let a = create_message(
        "deadbeefdeadbeef",
        NewMessage {
            user: "a".to_string(),
            user_iv: "i".to_string(),
            content: "c".to_string(),
            iv: "v".to_string(),
        },
        &limits(),
        &first_snapshot,
    )
    .expect("first creation");
    let second_snapshot = vec![format!("{}.json", a.id)];
    let b = create_message(
        "deadbeefdeadbeef",
        NewMessage {
            user: "b".to_string(),
            user_iv: "i".to_string(),
            content: "c".to_string(),
            iv: "v".to_string(),
        },
        &limits(),
        &second_snapshot,
    )
    .expect("second creation");
    assert_ne!(a.id, b.id);
    assert_eq!(a.id, 1);
    assert_eq!(b.id, 2);
}

#[test]
fn created_message_echoes_fields() {
    let names: Vec<String> = Vec::new();
    let nm = NewMessage {
        user: "u".to_string(),
        user_iv: "iv1".to_string(),
        content: "c".to_string(),
        iv: "iv2".to_string(),
    };
    let m = create_message("deadbeefdeadbeef", nm, &limits(), &names).expect("must succeed");
    assert_eq!(m.id, 1);
    assert_eq!(m.room, "deadbeefdeadbeef");
    assert_eq!(m.user, "u");
    assert_eq!(m.user_iv, "iv1");
    assert_eq!(m.content, "c");
    assert_eq!(m.iv, "iv2");
    assert!(timestamp_is_valid(m.timestamp.as_str()));
}

#[test]
fn invalid_room_rejected_before_storage() {
    let names: Vec<String> = Vec::new();
    let nm = NewMessage {
        user: "u".to_string(),
        user_iv: "i".to_string(),
        content: "c".to_string(),
        iv: "v".to_string(),
    };
    let r = create_message("short", nm, &limits(), &names);
    assert!(matches!(r, Err(ApiError::InvalidRoom)));
    let nm2 = NewMessage {
        user: "u".to_string(),
        user_iv: "i".to_string(),
        content: "c".to_string(),
        iv: "v".to_string(),
    };
    // uppercase hex is not a valid room either
    let r2 = create_message("DEADBEEFDEADBEEF", nm2, &limits(), &names);
    assert!(matches!(r2, Err(ApiError::InvalidRoom)));
}

#[test]
fn oversize_field_rejected() {
    let names: Vec<String> = Vec::new();
    let nm = NewMessage {
        user: "u".repeat(65),
        user_iv: "i".to_string(),
        content: "c".to_string(),
        iv: "v".to_string(),
    };
    let r = create_message("deadbeefdeadbeef", nm, &limits(), &names);
    assert!(matches!(r, Err(ApiError::PayloadRejected)));
}

#[test]
fn field_bounds_are_byte_lengths() {
    let names: Vec<String> = Vec::new();
    let tight = Limits {
        max_user_len: 3,
        max_iv_len: 64,
        max_content_len: 1024,
    };
    // two characters, four UTF-8 bytes: over a three-byte bound
    let nm = NewMessage {
        user: "\u{e9}\u{e9}".to_string(),
        user_iv: "i".to_string(),
        content: "c".to_string(),
        iv: "v".to_string(),
    };
    let r = create_message("deadbeefdeadbeef", nm, &tight, &names);
    assert!(matches!(r, Err(ApiError::PayloadRejected)));
    let wide = Limits {
        max_user_len: 4,
        max_iv_len: 64,
        max_content_len: 1024,
    };
    let nm2 = NewMessage {
        user: "\u{e9}\u{e9}".to_string(),
        user_iv: "i".to_string(),
        content: "c".to_string(),
        iv: "v".to_string(),
    };
    assert!(create_message("deadbeefdeadbeef", nm2, &wide, &names).is_ok());
}

#[test]
fn no_params_sorts_ascending_by_id() {
    let msgs = vec![msg(3, "t3"), msg(1, "t1"), msg(2, "t2")];
    let r = apply_query(msgs, None);
    let ids: Vec<usize> = r.iter().map(|m| m.id).collect();
    assert_eq!(ids, vec![1, 2, 3]);
}

#[test]
fn no_params_caps_at_max_limit() {
    let mut msgs = Vec::new();
    for i in 0..(MAX_LIMIT + 5) {
        msgs.push(msg(i + 1, "t"));
    }
    let r = apply_query(msgs, None);
    assert_eq!(r.len(), MAX_LIMIT);
    assert_eq!(r[0].id, 1);
    assert_eq!(r[MAX_LIMIT - 1].id, MAX_LIMIT);
}

#[test]
fn since_id_filters_strictly() {
    let msgs: Vec<Message> = (1..=10).map(|i| msg(i, "t")).collect();
    let r = apply_query(msgs, Some(query(None, None, Some(3), None, None)));
    let ids: Vec<usize> = r.iter().map(|m| m.id).collect();
    assert_eq!(ids, vec![4, 5, 6, 7, 8, 9, 10]);
}

#[test]
fn limit_takes_first_after_filter_and_sort() {
    let msgs: Vec<Message> = (1..=10).map(|i| msg(i, "t")).collect();
    let r = apply_query(msgs, Some(query(None, None, None, None, Some(5))));
    let ids: Vec<usize> = r.iter().map(|m| m.id).collect();
    assert_eq!(ids, vec![1, 2, 3, 4, 5]);
}

#[test]
fn desc_order_by_id() {
    let msgs: Vec<Message> = (1..=4).map(|i| msg(i, "t")).collect();
    let r = apply_query(msgs, Some(query(None, Some("desc"), None, None, None)));
    let ids: Vec<usize> = r.iter().map(|m| m.id).collect();
    assert_eq!(ids, vec![4, 3, 2, 1]);
}

#[test]
fn timestamp_sort_desc_puts_invalid_first() {
    let early = msg(1, "2024-01-01T00:00:00+00:00");
    let late = msg(2, "2024-06-01T00:00:00+00:00");
    let broken = msg(3, "garbage");
    let msgs = vec![early, late, broken];
    let r = apply_query(
        msgs,
        Some(query(Some("timestamp"), Some("desc"), None, None, None)),
    );
    let ids: Vec<usize> = r.iter().map(|m| m.id).collect();
    assert_eq!(ids, vec![3, 2, 1]);
}

#[test]
fn timestamp_sort_asc_puts_invalid_last() {
    let early = msg(1, "2024-01-01T00:00:00+00:00");
    let late = msg(2, "2024-06-01T00:00:00+00:00");
    let broken = msg(3, "garbage");
    let msgs = vec![late, broken, early];
    let r = apply_query(msgs, Some(query(Some("timestamp"), None, None, None, None)));
    let ids: Vec<usize> = r.iter().map(|m| m.id).collect();
    assert_eq!(ids, vec![1, 2, 3]);
}

#[test]
fn since_ts_keeps_strictly_later_valid_timestamps() {
    let early = msg(1, "2024-01-01T00:00:00+00:00");
    let late = msg(2, "2024-06-01T00:00:00+00:00");
    let broken = msg(3, "garbage");
    let msgs = vec![early, late, broken];
    let r = apply_query(
        msgs,
        Some(query(
            None,
            None,
            None,
            Some("2024-03-01T00:00:00+00:00"),
            None,
        )),
    );
    let ids: Vec<usize> = r.iter().map(|m| m.id).collect();
    assert_eq!(ids, vec![2]);
}

#[test]
fn unparsable_since_ts_filters_nothing() {
    let early = msg(1, "2024-01-01T00:00:00+00:00");
    let broken = msg(2, "garbage");
    let msgs = vec![early, broken];
    let r = apply_query(msgs, Some(query(None, None, None, Some("notadate"), None)));
    let ids: Vec<usize> = r.iter().map(|m| m.id).collect();
    assert_eq!(ids, vec![1, 2]);
}

#[test]
fn unparsable_since_ts_equals_query_without_it() {
    let msgs = || {
        vec![
            msg(2, "2024-06-01T00:00:00+00:00"),
            msg(1, "garbage"),
            msg(3, "2024-01-01T00:00:00+00:00"),
        ]
    };
    let with_bad_ts = apply_query(
        msgs(),
        Some(query(Some("timestamp"), Some("desc"), None, Some("notadate"), Some(2))),
    );
    let without = apply_query(
        msgs(),
        Some(query(Some("timestamp"), Some("desc"), None, None, Some(2))),
    );
    let a: Vec<String> = with_bad_ts.iter().map(encode_message).collect();
    let b: Vec<String> = without.iter().map(encode_message).collect();
    assert_eq!(a, b);
}

#[test]
fn default_query_is_idempotent() {
    let msgs = vec![msg(3, "t3"), msg(1, "t1"), msg(2, "t2"), msg(2, "t2b")];
    let once = apply_query(msgs, None);
    let again = apply_query(once.clone(), None);
    let a: Vec<String> = once.iter().map(encode_message).collect();
    let b: Vec<String> = again.iter().map(encode_message).collect();
    assert_eq!(a, b);
}

#[test]
fn load_drops_corrupt_and_sorts_by_id() {
    let r2 = encode_message(&msg(2, "t2"));
    let r1 = encode_message(&msg(1, "t1"));
    let records = vec![r2, "corrupt bytes".to_string(), r1];
    let loaded = load_messages(&records);
    let ids: Vec<usize> = loaded.iter().map(|m| m.id).collect();
    assert_eq!(ids, vec![1, 2]);
}

#[test]
fn read_pipeline_filters_and_orders() {
    let records: Vec<String> = (1..=6).map(|i| encode_message(&msg(i, "t"))).collect();
    let r = get_messages(&records, Some(query(None, Some("desc"), Some(2), None, Some(3))));
    let ids: Vec<usize> = r.iter().map(|m| m.id).collect();
    assert_eq!(ids, vec![6, 5, 4]);
}

#[test]
fn missing_room_is_empty() {
    assert!(no_room().is_empty());
}

#[test]
fn retention_window_boundaries() {
    let day = 24 * 60 * 60;
    assert!(is_expired(8 * day, 0));
    assert!(!is_expired(6 * day, 0));
    assert!(!is_expired(7 * day, 0));
    assert!(is_expired(7 * day, 1));
    assert!(is_expired(7 * day + 1, 0));
}

#[test]
fn timestamp_validity_check() {
    assert!(timestamp_is_valid("2024-01-02T03:04:05+00:00"));
    assert!(timestamp_is_valid("2024-01-02T03:04:05.123456+02:00"));
    assert!(!timestamp_is_valid("2024-01-02 03:04:05"));
    assert!(!timestamp_is_valid("garbage"));
    assert!(!timestamp_is_valid(""));
}
