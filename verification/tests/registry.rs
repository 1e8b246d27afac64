//! The property registry: reads, writes, change notification,
//! persistence and the steady-state tick.

use miio_core::error::Error;
use miio_core::miio::{CallLog, FailStorage, IoTFramework, MemStorage};
use miio_core::parser::Value;
use miio_core::serial::{Property, ScriptTransport};

fn script(replies: &[Option<&str>]) -> ScriptTransport {
    ScriptTransport::new(replies.iter().map(|r| r.map(|s| s.to_string())).collect())
}

/// The replies a clean handshake consumes: model ack, version ack,
/// diagnostic dump text, ble_config ack.
fn handshake(extra: &[Option<&str>]) -> ScriptTransport {
    let mut replies: Vec<Option<&str>> =
        vec![Some("ok"), Some("ok"), Some("dump data"), Some("ok")];
    replies.extend_from_slice(extra);
    script(&replies)
}

fn engine(
    extra: &[Option<&str>],
) -> IoTFramework<ScriptTransport, MemStorage, CallLog> {
    IoTFramework::new(
        handshake(extra),
        MemStorage::new(),
        CallLog::new(),
        "csbupt.switch.smsw",
        "0001",
        "24351",
    )
    .expect("handshake succeeds")
}

fn read_of(siid: u32, piid: u32) -> Property {
    Property { siid, piid, value: None }
}

fn write_of(siid: u32, piid: u32, value: Value) -> Property {
    Property { siid, piid, value: Some(value) }
}

fn sent_after_handshake<P: miio_core::miio::Persist>(
    fw: &IoTFramework<ScriptTransport, P, CallLog>,
) -> Vec<String> {
    fw.serial.transport.history.iter().skip(4).map(|p| p.0.clone()).collect()
}

#[test]
fn handshake_announces_model_and_version() {
    let fw = engine(&[]);
    let sent: Vec<&str> = fw.serial.transport.history.iter().map(|p| p.0.as_str()).collect();
    assert_eq!(
        sent,
        vec![
            "model csbupt.switch.smsw",
            "mcu_version 0001",
            "ble_config dump",
            "ble_config set 24351 0001",
        ]
    );
}

#[test]
fn handshake_model_failure_is_fatal() {
    let r = IoTFramework::new(
        script(&[Some("nak")]),
        MemStorage::new(),
        CallLog::new(),
        "m",
        "v",
        "p",
    );
    assert!(matches!(r, Err((Error::UnexpectedReply, _))));
}

#[test]
fn handshake_version_failure_is_tolerated() {
    let r = IoTFramework::new(
        script(&[Some("ok"), Some("nak")]),
        MemStorage::new(),
        CallLog::new(),
        "m",
        "v",
        "p",
    );
    assert!(r.is_ok());
}

#[test]
fn get_from_cache_reads_registered_slot() {
    let mut fw = engine(&[]);
    fw.register(1, 1, Value::String("YouXam".to_string()));
    assert_eq!(fw.get_from_cache(1, 1), Some(Value::String("YouXam".to_string())));
    assert_eq!(fw.get_from_cache(9, 9), None);
}

#[test]
fn register_overwrites_value() {
    let mut fw = engine(&[]);
    fw.register(2, 1, Value::Boolean(true)).register(2, 1, Value::Boolean(false));
    assert_eq!(fw.get_from_cache(2, 1), Some(Value::Boolean(false)));
}

#[test]
fn registers_batch_in_order() {
    let mut fw = engine(&[]);
    fw.registers(vec![
        (1, 1, Value::String("YouXam".to_string())),
        (2, 2, Value::Integer(0)),
        (2, 4, Value::Boolean(false)),
    ]);
    assert_eq!(fw.get_from_cache(2, 2), Some(Value::Integer(0)));
    assert_eq!(fw.get_from_cache(2, 4), Some(Value::Boolean(false)));
}

#[test]
fn get_properties_renders_registered_string() {
    let mut fw = engine(&[]);
    fw.register(1, 1, Value::String("YouXam".to_string()));
    let line = fw.on_get_properties(vec![read_of(1, 1)]);
    assert_eq!(line, "result 1 1 0 \"YouXam\"");
}

#[test]
fn get_properties_unknown_key_entry() {
    let fw = engine(&[]);
    let line = fw.on_get_properties(vec![read_of(9, 9)]);
    assert_eq!(line, "result 9 9 -4003");
}

#[test]
fn get_properties_preserves_request_order() {
    let mut fw = engine(&[]);
    fw.register(2, 1, Value::Boolean(false)).register(1, 1, Value::Integer(7));
    let line = fw.on_get_properties(vec![read_of(1, 1), read_of(5, 5), read_of(2, 1)]);
    assert_eq!(line, "result 1 1 0 7 5 5 -4003 2 1 0 false");
}

#[test]
fn set_property_change_notifies_and_persists() {
    let mut fw = engine(&[Some("ack")]);
    fw.register(2, 1, Value::Boolean(false)).on();
    assert_eq!(fw.set_property(2, 1, Value::Boolean(true)), Ok(()));
    // callback called exactly once, with the new value
    assert_eq!(fw.handler.entries.len(), 1);
    assert_eq!(fw.handler.entries[0].0, 2);
    assert_eq!(fw.handler.entries[0].1, 1);
    assert_eq!(fw.handler.entries[0].2, Value::Boolean(true));
    // exactly one uplink line
    assert_eq!(sent_after_handshake(&fw), vec!["properties_changed 2 1 true".to_string()]);
    // persisted under the derived key
    assert_eq!(fw.persist.entries.len(), 1);
    assert_eq!(fw.persist.entries[0].0, "2.1");
    assert_eq!(fw.persist.entries[0].1, Value::Boolean(true));
    // stored
    assert_eq!(fw.get_from_cache(2, 1), Some(Value::Boolean(true)));
}

#[test]
fn set_property_no_op_suppressed() {
    let mut fw = engine(&[]);
    fw.register(2, 1, Value::Boolean(false)).on();
    assert_eq!(fw.set_property(2, 1, Value::Boolean(false)), Ok(()));
    assert_eq!(fw.handler.entries.len(), 0);
    assert_eq!(fw.persist.entries.len(), 0);
    assert_eq!(sent_after_handshake(&fw).len(), 0);
}

#[test]
fn set_property_unregistered_is_ignored() {
    let mut fw = engine(&[]);
    assert_eq!(fw.set_property(9, 9, Value::Integer(3)), Ok(()));
    assert_eq!(sent_after_handshake(&fw).len(), 0);
}

#[test]
fn set_property_without_hook_skips_callback() {
    let mut fw = engine(&[Some("ack")]);
    fw.register(8, 1, Value::Integer(0));
    assert_eq!(fw.set_property(8, 1, Value::Integer(2)), Ok(()));
    assert_eq!(fw.handler.entries.len(), 0);
    assert_eq!(sent_after_handshake(&fw), vec!["properties_changed 8 1 2".to_string()]);
}

#[test]
fn set_property_persist_failure_stops_notification() {
    let mut fw = IoTFramework::new(
        handshake(&[]),
        FailStorage::new(),
        CallLog::new(),
        "m",
        "v",
        "p",
    )
    .expect("handshake succeeds");
    fw.register(2, 1, Value::Boolean(false)).on();
    assert_eq!(fw.set_property(2, 1, Value::Boolean(true)), Err(Error::Persist));
    assert_eq!(fw.handler.entries.len(), 0);
    assert_eq!(sent_after_handshake(&fw).len(), 0);
}

#[test]
fn set_properties_persist_failure_is_partial() {
    // the first failing save stops the batch: the failing entry's value
    // is already stored, its callback has not run, later entries are
    // untouched, and no lines come back
    let mut fw = IoTFramework::new(
        handshake(&[]),
        FailStorage::new(),
        CallLog::new(),
        "m",
        "v",
        "p",
    )
    .expect("handshake succeeds");
    fw.register(2, 1, Value::Boolean(false)).on().register(3, 1, Value::Boolean(false)).on();
    let r = fw.on_set_properties(vec![
        write_of(2, 1, Value::Boolean(true)),
        write_of(3, 1, Value::Boolean(true)),
    ]);
    assert!(matches!(r, Err(Error::Persist)));
    assert_eq!(fw.get_from_cache(2, 1), Some(Value::Boolean(true)));
    assert_eq!(fw.get_from_cache(3, 1), Some(Value::Boolean(false)));
    assert_eq!(fw.handler.entries.len(), 0);
    assert_eq!(sent_after_handshake(&fw).len(), 0);
}

#[test]
fn tick_write_persist_failure_sends_nothing() {
    let mut fw = IoTFramework::new(
        handshake(&[Some("down set_properties 2 1 true")]),
        FailStorage::new(),
        CallLog::new(),
        "m",
        "v",
        "p",
    )
    .expect("handshake succeeds");
    fw.register(2, 1, Value::Boolean(false)).on();
    assert_eq!(fw.tick(), Err(Error::Persist));
    assert_eq!(sent_after_handshake(&fw), vec!["get_down".to_string()]);
    assert_eq!(fw.get_from_cache(2, 1), Some(Value::Boolean(true)));
    assert_eq!(fw.handler.entries.len(), 0);
}

#[test]
fn tick_empty_poll_reply_is_benign() {
    let mut fw = engine(&[Some("")]);
    assert_eq!(fw.tick(), Ok(()));
    assert_eq!(sent_after_handshake(&fw), vec!["get_down".to_string()]);
}

#[test]
fn load_read_failure_changes_nothing() {
    let mut fw = IoTFramework::new(
        handshake(&[]),
        FailStorage::new(),
        CallLog::new(),
        "m",
        "v",
        "p",
    )
    .expect("handshake succeeds");
    fw.register(2, 1, Value::Boolean(false)).on();
    assert_eq!(fw.load(), Err(Error::Persist));
    assert_eq!(fw.get_from_cache(2, 1), Some(Value::Boolean(false)));
    assert_eq!(fw.handler.entries.len(), 0);
    assert_eq!(sent_after_handshake(&fw).len(), 0);
}

#[test]
fn set_properties_mixed_batch() {
    let mut fw = engine(&[]);
    fw.register(2, 1, Value::Boolean(false));
    let lines = fw
        .on_set_properties(vec![
            write_of(2, 1, Value::Boolean(true)),
            write_of(9, 9, Value::Boolean(true)),
        ])
        .expect("no persistence failure");
    assert_eq!(lines, vec![
        "result 2 1 0 9 9 -4003".to_string(),
        "properties_changed 2 1 true".to_string(),
    ]);
    assert_eq!(fw.get_from_cache(2, 1), Some(Value::Boolean(true)));
    assert_eq!(fw.get_from_cache(9, 9), None);
}

#[test]
fn set_properties_reapplies_equal_value() {
    // the batch path has no equality short-circuit: it re-applies,
    // re-persists and re-notifies even an unchanged value
    let mut fw = engine(&[]);
    fw.register(2, 1, Value::Boolean(false)).on();
    let lines = fw
        .on_set_properties(vec![write_of(2, 1, Value::Boolean(false))])
        .expect("no persistence failure");
    assert_eq!(lines, vec![
        "result 2 1 0".to_string(),
        "properties_changed 2 1 false".to_string(),
    ]);
    assert_eq!(fw.handler.entries.len(), 1);
    assert_eq!(fw.persist.entries.len(), 1);
}

#[test]
fn set_properties_skips_entry_without_value() {
    let mut fw = engine(&[]);
    fw.register(2, 1, Value::Boolean(false));
    let lines = fw
        .on_set_properties(vec![read_of(2, 1)])
        .expect("no persistence failure");
    assert_eq!(lines, vec!["result ".to_string(), "properties_changed ".to_string()]);
}

#[test]
fn load_applies_persisted_value() {
    let mut fw = IoTFramework::new(
        handshake(&[Some("ack")]),
        MemStorage { entries: vec![("2.1".to_string(), Value::Boolean(true))] },
        CallLog::new(),
        "m",
        "v",
        "p",
    )
    .expect("handshake succeeds");
    fw.register(2, 1, Value::Boolean(false)).on();
    assert_eq!(fw.load(), Ok(()));
    assert_eq!(fw.get_from_cache(2, 1), Some(Value::Boolean(true)));
    assert_eq!(fw.handler.entries.len(), 1);
    assert_eq!(sent_after_handshake(&fw), vec!["properties_changed 2 1 true".to_string()]);
}

#[test]
fn load_without_persisted_value_is_a_no_op() {
    let mut fw = engine(&[]);
    fw.register(2, 1, Value::Boolean(false)).on();
    assert_eq!(fw.load(), Ok(()));
    assert_eq!(fw.get_from_cache(2, 1), Some(Value::Boolean(false)));
    assert_eq!(fw.handler.entries.len(), 0);
}

#[test]
fn tick_idle_poll_sends_nothing() {
    let mut fw = engine(&[Some("down none")]);
    fw.register(2, 1, Value::Boolean(false));
    assert_eq!(fw.tick(), Ok(()));
    assert_eq!(sent_after_handshake(&fw), vec!["get_down".to_string()]);
}

#[test]
fn tick_poll_timeout_is_tolerated() {
    let mut fw = engine(&[None]);
    assert_eq!(fw.tick(), Ok(()));
    assert_eq!(sent_after_handshake(&fw), vec!["get_down".to_string()]);
}

#[test]
fn tick_answers_read_request() {
    let mut fw = engine(&[Some("down get_properties 1 1"), Some("ok")]);
    fw.register(1, 1, Value::String("YouXam".to_string()));
    assert_eq!(fw.tick(), Ok(()));
    assert_eq!(sent_after_handshake(&fw), vec![
        "get_down".to_string(),
        "result 1 1 0 \"YouXam\"".to_string(),
    ]);
}

#[test]
fn tick_applies_write_request() {
    let mut fw = engine(&[Some("down set_properties 2 1 true"), Some("ok"), Some("ok")]);
    fw.register(2, 1, Value::Boolean(false)).on();
    assert_eq!(fw.tick(), Ok(()));
    assert_eq!(sent_after_handshake(&fw), vec![
        "get_down".to_string(),
        "result 2 1 0".to_string(),
        "properties_changed 2 1 true".to_string(),
    ]);
    assert_eq!(fw.get_from_cache(2, 1), Some(Value::Boolean(true)));
    assert_eq!(fw.handler.entries.len(), 1);
}

#[test]
fn tick_swallows_malformed_command() {
    let mut fw = engine(&[Some("down set_properties 1 oops")]);
    assert_eq!(fw.tick(), Ok(()));
    assert_eq!(sent_after_handshake(&fw), vec!["get_down".to_string()]);
}

#[test]
fn framework_restore_repeats_handshake() {
    let mut fw = engine(&[Some("ok"), Some("ok"), Some("ok"), Some("ok"), Some("d"), Some("ok")]);
    assert_eq!(fw.restore(), Ok(()));
    assert_eq!(sent_after_handshake(&fw), vec![
        "restore".to_string(),
        "reboot".to_string(),
        "model csbupt.switch.smsw".to_string(),
        "mcu_version 0001".to_string(),
        "ble_config dump".to_string(),
        "ble_config set 24351 0001".to_string(),
    ]);
}
