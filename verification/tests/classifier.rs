//! Downlink line classification.

use miio_core::error::Error;
use miio_core::parser::Value;
use miio_core::serial::{
    classify_down, parse_get_properties, parse_set_properties, DownAction,
};

#[test]
fn get_request_groups_pairs() {
    let ps = parse_get_properties("get_properties 1 1 2 3").expect("well-formed");
    assert_eq!(ps.len(), 2);
    assert_eq!((ps[0].siid, ps[0].piid), (1, 1));
    assert!(ps[0].value.is_none());
    assert_eq!((ps[1].siid, ps[1].piid), (2, 3));
    assert!(ps[1].value.is_none());
}

#[test]
fn get_request_rejects_odd_tail() {
    assert!(matches!(parse_get_properties("get_properties 1"), Err(Error::Malformed)));
}

#[test]
fn get_request_rejects_ill_typed_id() {
    assert!(matches!(parse_get_properties("get_properties 1 true"), Err(Error::Malformed)));
}

#[test]
fn set_request_groups_triples() {
    let ps = parse_set_properties("set_properties 2 1 true 3 4 \"x\"").expect("well-formed");
    assert_eq!(ps.len(), 2);
    assert_eq!((ps[0].siid, ps[0].piid), (2, 1));
    assert_eq!(ps[0].value, Some(Value::Boolean(true)));
    assert_eq!((ps[1].siid, ps[1].piid), (3, 4));
    assert_eq!(ps[1].value, Some(Value::String("x".to_string())));
}

#[test]
fn set_request_rejects_missing_value() {
    assert!(matches!(parse_set_properties("set_properties 2 1"), Err(Error::Malformed)));
}

#[test]
fn set_request_rejects_bad_argument() {
    assert!(matches!(parse_set_properties("set_properties 1 oops true"), Err(Error::Malformed)));
}

#[test]
fn classify_sentinel() {
    assert!(matches!(classify_down("down none"), DownAction::Idle));
}

#[test]
fn classify_get() {
    match classify_down("down get_properties 1 1") {
        DownAction::GetProperties(ps) => {
            assert_eq!(ps.len(), 1);
            assert_eq!((ps[0].siid, ps[0].piid), (1, 1));
        },
        other => panic!("wrong classification: {:?}", other),
    }
}

#[test]
fn classify_set() {
    match classify_down("down set_properties 2 1 true") {
        DownAction::SetProperties(ps) => {
            assert_eq!(ps.len(), 1);
            assert_eq!((ps[0].siid, ps[0].piid), (2, 1));
            assert_eq!(ps[0].value, Some(Value::Boolean(true)));
        },
        other => panic!("wrong classification: {:?}", other),
    }
}

#[test]
fn classify_net_change_is_swallowed() {
    assert!(matches!(classify_down("down MIIO_net_change cloud"), DownAction::NetChange));
}

#[test]
fn classify_powermode() {
    assert!(matches!(classify_down("down miIO.get_powermode"), DownAction::PowerMode));
}

#[test]
fn classify_unknown_command() {
    assert!(matches!(classify_down("down frobnicate 1"), DownAction::Unknown));
}

#[test]
fn classify_malformed_arguments() {
    assert!(matches!(classify_down("down set_properties 1 oops"), DownAction::Malformed));
    assert!(matches!(classify_down("down get_properties 1"), DownAction::Malformed));
}

#[test]
fn classify_unexpected_reply() {
    assert!(matches!(classify_down("gibberish"), DownAction::Unexpected));
}

#[test]
fn classify_empty_line_is_benign() {
    assert!(matches!(classify_down(""), DownAction::Idle));
}
