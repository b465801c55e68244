//! End-to-end behavior of the parameter pipeline, the outcomes, the
//! subscription lifecycle, and the stream adapter.

use surreal_bridge::adapter::{AdapterOutcome, SourcePoll, StreamAdapter};
use surreal_bridge::config::{Auth, ConfigError, SurrealHostConfig};
use surreal_bridge::errors::{QueryError, SubscribeError};
use surreal_bridge::live::{
    notification_to_live_event, task_step, LiveAction, LiveEvent, Notification, TaskAction,
    TaskEvent, TaskState,
};
use surreal_bridge::outcomes::{assemble_outcomes, ExtractError, QueryResultHolder};
use surreal_bridge::params::{decode_params, ordered_params};
use surreal_bridge::query::{prepare_query_params, query, subscribe};
use surreal_bridge::record_id::{key_from_fields, RecordId, RecordIdKey, RecordIdValue};
use surreal_bridge::registry::{SubscriptionManager, SubscriptionTask};
use surreal_bridge::value::IntermediateValue;
use surreal_bridge::wire::{encode_value, WireValue};

fn enc_param(v: &WireValue) -> Vec<u8> {
    encode_value(v)
}

#[test]
fn params_decode_in_call_order() {
    let params = vec![
        ("b".to_string(), enc_param(&WireValue::Integer(1))),
        ("a".to_string(), enc_param(&WireValue::Text(b"x".to_vec()))),
    ];
    let decoded = decode_params(params).unwrap();
    assert_eq!(decoded.len(), 2);
    assert_eq!(decoded[0].0, "b");
    assert_eq!(decoded[0].1, IntermediateValue::UInt(1));
    assert_eq!(decoded[1].0, "a");
    assert_eq!(decoded[1].1, IntermediateValue::Text(b"x".to_vec()));
}

#[test]
fn first_bad_param_aborts_with_its_key() {
    let params = vec![
        ("good".to_string(), enc_param(&WireValue::Integer(1))),
        ("bad".to_string(), vec![0xff]),
        ("later".to_string(), vec![0xff]),
    ];
    let (key, _) = decode_params(params).unwrap_err();
    assert_eq!(key, "bad");
}

#[test]
fn bind_order_is_lexicographic_and_last_write_wins() {
    let decoded = vec![
        ("b".to_string(), IntermediateValue::UInt(1)),
        ("a".to_string(), IntermediateValue::UInt(2)),
        ("b".to_string(), IntermediateValue::UInt(3)),
    ];
    let ordered = ordered_params(decoded);
    assert_eq!(ordered.len(), 2);
    assert_eq!(ordered[0].0, b"a".to_vec());
    assert_eq!(ordered[0].1, IntermediateValue::UInt(2));
    assert_eq!(ordered[1].0, b"b".to_vec());
    assert_eq!(ordered[1].1, IntermediateValue::UInt(3));
}

#[test]
fn boolean_map_key_fails_the_whole_query_call() {
    let bad_map = WireValue::Dict(vec![(WireValue::Bool(true), WireValue::Integer(1))]);
    let params = vec![("p".to_string(), enc_param(&bad_map))];
    match prepare_query_params(params) {
        Err(QueryError::ParamDecode { key, .. }) => assert_eq!(key, "p"),
        other => panic!("expected a parameter decode failure, got {:?}", other.is_ok()),
    }
}

#[test]
fn prepared_params_are_ordered() {
    let params = vec![
        ("z".to_string(), enc_param(&WireValue::Integer(26))),
        ("a".to_string(), enc_param(&WireValue::Integer(1))),
    ];
    let out = prepare_query_params(params).unwrap();
    assert_eq!(out[0].0, b"a".to_vec());
    assert_eq!(out[1].0, b"z".to_vec());
}

#[test]
fn one_outcome_per_statement_in_order() {
    let results = vec![
        Ok(WireValue::Integer(1)),
        Err("syntax error near DELETE".to_string()),
        Ok(WireValue::Text(b"done".to_vec())),
    ];
    let outcomes = assemble_outcomes(results);
    assert_eq!(outcomes.len(), 3);
    assert_eq!(outcomes[0], Ok(vec![0x01]));
    assert_eq!(outcomes[1], Err("syntax error near DELETE".to_string()));
    assert_eq!(outcomes[2], Ok(vec![0x64, 0x64, 0x6f, 0x6e, 0x65]));
}

#[test]
fn unencodable_result_fails_only_its_own_statement() {
    let results = vec![
        Ok(WireValue::Integer(1i128 << 64)),
        Ok(WireValue::Integer(2)),
    ];
    let outcomes = assemble_outcomes(results);
    assert_eq!(outcomes.len(), 2);
    assert!(outcomes[0].is_err());
    assert_eq!(outcomes[1], Ok(vec![0x02]));
}

#[test]
fn holder_reads_outcomes_back() {
    let holder = QueryResultHolder::new(vec![
        Ok(encode_value(&WireValue::Integer(9))),
        Err("boom".to_string()),
    ]);
    assert_eq!(holder.len(), 2);
    assert!(!holder.is_empty());
    let v: WireValue = holder.take(0).unwrap();
    assert_eq!(v, WireValue::Integer(9));
    match holder.take::<WireValue>(1) {
        Err(ExtractError::Statement(m)) => assert_eq!(m, "boom"),
        _ => panic!("expected the statement error"),
    }
    match holder.take::<WireValue>(7) {
        Err(ExtractError::IndexOutOfBounds) => {},
        _ => panic!("expected an out-of-bounds error"),
    }
    match holder.take_result::<WireValue>(1) {
        Ok(Err(m)) => assert_eq!(m, "boom"),
        _ => panic!("expected the statement error as data"),
    }
    let empty = QueryResultHolder::new(vec![]);
    assert!(empty.is_empty());
}

#[test]
fn combined_error_skips_transaction_noise() {
    let holder = QueryResultHolder::new(vec![
        Err("first failure".to_string()),
        Ok(vec![0x01]),
        Err("The query was not executed due to a failed transaction".to_string()),
        Err("second failure".to_string()),
    ]);
    assert_eq!(
        holder.find_user_error(),
        Some("first failure; second failure".to_string())
    );
    let clean = QueryResultHolder::new(vec![Ok(vec![0x01])]);
    assert_eq!(clean.find_user_error(), None);
    let only_noise = QueryResultHolder::new(vec![Err(
        "The query was not executed due to a failed transaction".to_string(),
    )]);
    assert_eq!(only_noise.find_user_error(), None);
}

fn dummy_task(rt: &tokio::runtime::Runtime) -> SubscriptionTask {
    let (tx, _rx) = tokio::sync::oneshot::channel::<()>();
    let handle = rt.spawn(async {});
    SubscriptionTask::new(tx, handle)
}

#[test]
fn allocated_ids_never_repeat() {
    let mut mgr = SubscriptionManager::new();
    let mut seen: Vec<u64> = Vec::new();
    for _ in 0..100 {
        let id = mgr.allocate_id();
        assert!(!seen.contains(&id));
        if let Some(prev) = seen.last() {
            assert!(id > *prev);
        }
        seen.push(id);
    }
}

#[test]
fn cancel_is_idempotent() {
    let rt = tokio::runtime::Runtime::new().unwrap();
    let mut mgr = SubscriptionManager::new();
    let id = mgr.allocate_id();
    mgr.register(id, dummy_task(&rt));
    assert!(mgr.cancel(id).is_some());
    assert!(mgr.cancel(id).is_none());
    assert!(mgr.cancel(id).is_none());
}

#[test]
fn natural_termination_removes_the_entry_without_cancel() {
    let rt = tokio::runtime::Runtime::new().unwrap();
    let mut mgr = SubscriptionManager::new();
    let id = mgr.allocate_id();
    mgr.register(id, dummy_task(&rt));
    // The feed ends; the task's final step demands deregistration.
    let (state, action) = task_step(id, TaskState::Running, TaskEvent::FeedClosed);
    assert_eq!(state, TaskState::Done);
    assert!(matches!(action, TaskAction::Deregister));
    mgr.complete(id);
    // The entry is gone although cancel was never called.
    assert!(mgr.cancel(id).is_none());
}

#[test]
fn shutdown_drains_every_task() {
    let rt = tokio::runtime::Runtime::new().unwrap();
    let mut mgr = SubscriptionManager::new();
    for _ in 0..3 {
        let id = mgr.allocate_id();
        mgr.register(id, dummy_task(&rt));
    }
    let drained = mgr.shutdown();
    assert_eq!(drained.len(), 3);
    let id = mgr.allocate_id();
    assert!(mgr.cancel(id).is_none());
}

#[test]
fn notifications_translate_to_events() {
    let record = WireValue::Dict(vec![(
        WireValue::Text(b"name".to_vec()),
        WireValue::Text(b"demo".to_vec()),
    )]);
    let expected_payload = encode_value(&record);
    let notification = Notification {
        action: LiveAction::Create,
        query_id: "q-1".to_string(),
        data: record,
    };
    let ev = notification_to_live_event(7, notification).unwrap();
    assert_eq!(ev.subscription_id, 7);
    assert_eq!(ev.query_id, "q-1");
    assert_eq!(ev.action, LiveAction::Create);
    assert_eq!(ev.data, expected_payload);
    let parsed: WireValue = ev.parse().unwrap();
    assert_eq!(encode_value(&parsed), expected_payload);
}

#[test]
fn untranslatable_notification_ends_the_subscription() {
    let notification = Notification {
        action: LiveAction::Update,
        query_id: "q-1".to_string(),
        data: WireValue::Integer(1i128 << 64),
    };
    match notification_to_live_event(7, notification) {
        Err(SubscribeError::Serialize(_)) => {},
        _ => panic!("expected a serialization failure"),
    }
}

#[test]
fn live_feed_preserves_event_order() {
    // One subscription sees a record created, updated, then deleted; the
    // three events come out in exactly that order with their snapshots.
    let snapshots = [
        (LiveAction::Create, b"v1".to_vec()),
        (LiveAction::Update, b"v2".to_vec()),
        (LiveAction::Delete, b"v2".to_vec()),
    ];
    let mut events: Vec<LiveEvent> = Vec::new();
    let mut state = TaskState::Running;
    for (action, body) in snapshots.iter() {
        assert_eq!(state, TaskState::Running);
        let n = Notification {
            action: *action,
            query_id: "lq".to_string(),
            data: WireValue::Text(body.clone()),
        };
        match task_step(11, state, TaskEvent::FeedItem(n)) {
            (next, TaskAction::Publish(ev)) => {
                state = next;
                events.push(ev);
            },
            _ => panic!("a translatable notification must publish"),
        }
    }
    assert_eq!(events.len(), 3);
    assert_eq!(events[0].action, LiveAction::Create);
    assert_eq!(events[1].action, LiveAction::Update);
    assert_eq!(events[2].action, LiveAction::Delete);
    assert_eq!(events[0].data, encode_value(&WireValue::Text(b"v1".to_vec())));
    assert_eq!(events[1].data, encode_value(&WireValue::Text(b"v2".to_vec())));
    for ev in events.iter() {
        assert_eq!(ev.subscription_id, 11);
        assert_eq!(ev.query_id, "lq");
    }
    // The stop request ends the task with a deregistration.
    let (state, action) = task_step(11, state, TaskEvent::StopRequested);
    assert_eq!(state, TaskState::Done);
    assert!(matches!(action, TaskAction::Deregister));
}

fn sample_event(tag: u64) -> LiveEvent {
    LiveEvent {
        subscription_id: tag,
        query_id: "q".to_string(),
        action: LiveAction::Update,
        data: vec![0x01],
    }
}

#[test]
fn adapter_maps_each_poll_outcome() {
    let mut a = StreamAdapter::new();
    assert!(matches!(a.step(false, SourcePoll::NotReady), AdapterOutcome::WouldBlock));
    assert!(a.take_item().is_none());
    assert!(matches!(
        a.step(false, SourcePoll::Item(sample_event(1))),
        AdapterOutcome::Produced
    ));
    let taken = a.take_item().unwrap();
    assert_eq!(taken.subscription_id, 1);
    assert!(matches!(a.step(false, SourcePoll::Closed), AdapterOutcome::EndOfStream));
    assert!(matches!(a.step(true, SourcePoll::NotReady), AdapterOutcome::Cancelled));
}

#[test]
fn config_validation_reports_the_first_blank_field() {
    let base = SurrealHostConfig {
        url: "memory".to_string(),
        namespace: "ns".to_string(),
        database: "db".to_string(),
        auth: Auth::default(),
    };
    assert!(base.validate().is_ok());
    let mut c = base.clone();
    c.url = "   ".to_string();
    assert_eq!(c.validate(), Err(ConfigError::EmptyUrl));
    let mut c = base.clone();
    c.namespace = "".to_string();
    assert_eq!(c.validate(), Err(ConfigError::EmptyNamespace));
    let mut c = base.clone();
    c.database = "\t".to_string();
    assert_eq!(c.validate(), Err(ConfigError::EmptyDatabase));
}

#[test]
fn builder_binds_serialized_values_in_order() {
    let q = query("SELECT * FROM person WHERE id = $id")
        .bind("id".to_string(), &WireValue::Text(b"person:demo".to_vec()));
    let (text, params) = q.into_parts().unwrap();
    assert_eq!(text, "SELECT * FROM person WHERE id = $id");
    assert_eq!(params.len(), 1);
    assert_eq!(params[0].0, "id");
    assert_eq!(params[0].1, encode_value(&WireValue::Text(b"person:demo".to_vec())));
}

#[test]
fn builder_poisons_on_first_bad_bind() {
    let q = query("CREATE x")
        .bind("a".to_string(), &WireValue::Integer(1i128 << 64))
        .bind("b".to_string(), &WireValue::Integer(2));
    assert!(q.into_parts().is_err());
}

#[test]
fn live_builder_mirrors_the_query_builder() {
    let q = subscribe("LIVE SELECT * FROM person WHERE id = $id")
        .bind("id".to_string(), &WireValue::Text(b"person:demo".to_vec()));
    let (text, params) = q.into_parts().unwrap();
    assert_eq!(text, "LIVE SELECT * FROM person WHERE id = $id");
    assert_eq!(params.len(), 1);
}

#[test]
fn record_key_decode_picks_tagged_variants() {
    let k = key_from_fields(vec![(
        "String".to_string(),
        RecordIdValue::Text("demo".to_string()),
    )]);
    assert!(matches!(k, RecordIdKey::Text(s) if s == "demo"));
    let k = key_from_fields(vec![("Number".to_string(), RecordIdValue::Number(9))]);
    assert!(matches!(k, RecordIdKey::Number(9)));
    let k = key_from_fields(vec![("Integer".to_string(), RecordIdValue::Number(-2))]);
    assert!(matches!(k, RecordIdKey::Number(-2)));
    let k = key_from_fields(vec![(
        "Uuid".to_string(),
        RecordIdValue::Text("0000".to_string()),
    )]);
    assert!(matches!(k, RecordIdKey::Uuid(s) if s == "0000"));
}

#[test]
fn record_key_decode_falls_back_to_a_generic_object() {
    let k = key_from_fields(vec![("name".to_string(), RecordIdValue::Number(1))]);
    match k {
        RecordIdKey::Object(fields) => {
            assert_eq!(fields.len(), 1);
            assert_eq!(fields[0].0, "name");
        },
        _ => panic!("an unknown tag must stay a generic object"),
    }
    let k = key_from_fields(vec![
        ("a".to_string(), RecordIdValue::Number(1)),
        ("b".to_string(), RecordIdValue::Number(2)),
    ]);
    assert!(matches!(k, RecordIdKey::Object(fields) if fields.len() == 2));
    let id = RecordId::new("person".to_string(), "demo".to_string());
    assert_eq!(id.tb, "person");
    assert!(matches!(id.id, RecordIdKey::Text(s) if s == "demo"));
}

#[test]
fn rows_extract_as_vectors_and_first_rows() {
    let rows = WireValue::Array(vec![
        WireValue::Text(b"r1".to_vec()),
        WireValue::Text(b"r2".to_vec()),
    ]);
    let holder = QueryResultHolder::new(vec![Ok(encode_value(&rows))]);
    let all: Vec<IntermediateValue> = holder.take(0).unwrap();
    assert_eq!(
        all,
        vec![
            IntermediateValue::Text(b"r1".to_vec()),
            IntermediateValue::Text(b"r2".to_vec()),
        ]
    );
    let first: Option<IntermediateValue> = holder.take(0).unwrap();
    assert_eq!(first, Some(IntermediateValue::Text(b"r1".to_vec())));

    let empty = WireValue::Array(vec![]);
    let holder = QueryResultHolder::new(vec![Ok(encode_value(&empty))]);
    let first: Option<IntermediateValue> = holder.take(0).unwrap();
    assert_eq!(first, None);

    let not_rows = WireValue::Integer(5);
    let holder = QueryResultHolder::new(vec![Ok(encode_value(&not_rows))]);
    assert!(holder.take::<Vec<IntermediateValue>>(0).is_err());
}
