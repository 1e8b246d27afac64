//! The scripted transport, the line framing, and the session layer.

use miio_core::error::Error;
use miio_core::serial::{feed_chunk, Event, ScriptTransport, Serial};

fn script(replies: &[Option<&str>]) -> ScriptTransport {
    ScriptTransport::new(replies.iter().map(|r| r.map(|s| s.to_string())).collect())
}

#[test]
fn feed_accumulates_until_terminator() {
    let mut line = String::new();
    assert!(!feed_chunk(&mut line, b"abc"));
    assert_eq!(line, "abc");
    assert!(feed_chunk(&mut line, b"de\rxx"));
    assert_eq!(line, "abcde");
}

#[test]
fn feed_newline_also_terminates() {
    let mut line = String::new();
    assert!(feed_chunk(&mut line, b"ok\n"));
    assert_eq!(line, "ok");
}

#[test]
fn feed_null_discards_rest_of_chunk() {
    let mut line = String::new();
    assert!(!feed_chunk(&mut line, b"ab\0cd"));
    assert_eq!(line, "ab");
}

#[test]
fn model_acknowledged() {
    let mut serial = Serial::new(script(&[Some("ok")]));
    assert_eq!(serial.model("csbupt.switch.smsw"), Ok(()));
    assert_eq!(serial.transport.history.len(), 1);
    assert_eq!(serial.transport.history[0].0, "model csbupt.switch.smsw");
    assert_eq!(serial.transport.history[0].1.as_deref(), Some("ok"));
}

#[test]
fn model_unexpected_reply() {
    let mut serial = Serial::new(script(&[Some("nope")]));
    assert_eq!(serial.model("m"), Err(Error::UnexpectedReply));
}

#[test]
fn model_timeout() {
    let mut serial = Serial::new(script(&[]));
    assert_eq!(serial.model("m"), Err(Error::Timeout));
}

#[test]
fn result_line_sent() {
    let mut serial = Serial::new(script(&[Some("ok")]));
    assert_eq!(serial.result("1 1 0 7".to_string()), Ok(()));
    assert_eq!(serial.transport.history[0].0, "result 1 1 0 7");
}

#[test]
fn version_announces_all_three() {
    let mut serial = Serial::new(script(&[Some("ok"), Some("dump data"), Some("ok")]));
    assert_eq!(serial.version("0001", "24351"), Ok(()));
    let sent: Vec<&str> = serial.transport.history.iter().map(|p| p.0.as_str()).collect();
    assert_eq!(sent, vec!["mcu_version 0001", "ble_config dump", "ble_config set 24351 0001"]);
}

#[test]
fn version_mandatory_part_fails() {
    let mut serial = Serial::new(script(&[Some("nak")]));
    assert_eq!(serial.version("0001", "24351"), Err(Error::UnexpectedReply));
    assert_eq!(serial.transport.history.len(), 1);
}

#[test]
fn restore_path() {
    let mut serial = Serial::new(script(&[Some("ok"), Some("ok")]));
    assert_eq!(serial.restore(), Ok(()));
    let sent: Vec<&str> = serial.transport.history.iter().map(|p| p.0.as_str()).collect();
    assert_eq!(sent, vec!["restore", "reboot"]);
}

#[test]
fn restore_rejects_unexpected() {
    let mut serial = Serial::new(script(&[Some("ok"), Some("what")]));
    assert_eq!(serial.restore(), Err(Error::UnexpectedReply));
}

#[test]
fn get_down_idle() {
    let mut serial = Serial::new(script(&[Some("down none")]));
    assert!(matches!(serial.get_down(), Ok(None)));
    assert_eq!(serial.transport.history.len(), 1);
    assert_eq!(serial.transport.history[0].0, "get_down");
}

#[test]
fn get_down_timeout() {
    let mut serial = Serial::new(script(&[None]));
    assert!(matches!(serial.get_down(), Err(Error::Timeout)));
}

#[test]
fn get_down_get_event() {
    let mut serial = Serial::new(script(&[Some("down get_properties 1 1")]));
    match serial.get_down() {
        Ok(Some(Event::GetProperties(ps))) => {
            assert_eq!(ps.len(), 1);
            assert_eq!((ps[0].siid, ps[0].piid), (1, 1));
        },
        other => panic!("wrong event: {:?}", other),
    }
}

#[test]
fn get_down_unknown_event() {
    let mut serial = Serial::new(script(&[Some("down whatever")]));
    assert!(matches!(serial.get_down(), Ok(Some(Event::Unknown))));
}

#[test]
fn get_down_malformed_is_an_error() {
    let mut serial = Serial::new(script(&[Some("down set_properties 1 1")]));
    assert!(matches!(serial.get_down(), Err(Error::Malformed)));
}

#[test]
fn get_down_powermode_answered() {
    let mut serial = Serial::new(script(&[Some("down miIO.get_powermode"), Some("ok")]));
    assert!(matches!(serial.get_down(), Ok(None)));
    let sent: Vec<&str> = serial.transport.history.iter().map(|p| p.0.as_str()).collect();
    assert_eq!(sent, vec!["get_down", "result 1"]);
}

#[test]
fn get_down_empty_line_is_benign() {
    let mut serial = Serial::new(script(&[Some("")]));
    assert!(matches!(serial.get_down(), Ok(None)));
    assert_eq!(serial.transport.history.len(), 1);
}

#[test]
fn get_down_unexpected_reply() {
    let mut serial = Serial::new(script(&[Some("junk")]));
    assert!(matches!(serial.get_down(), Err(Error::UnexpectedReply)));
}
