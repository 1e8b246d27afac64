//! The access-point status report and error descriptions.

use miio_core::ap::{Ap, Status};
use miio_core::error::Error;

#[test]
fn sta_count_reads_decimal_text() {
    let status = Status {
        ap: Ap { sta_count: "17".to_string(), ap_name: "lab".to_string() },
    };
    assert_eq!(status.ap.sta_count_value(), Some(17));
}

#[test]
fn sta_count_rejects_non_decimal_text() {
    let ap = Ap { sta_count: "many".to_string(), ap_name: "lab".to_string() };
    assert_eq!(ap.sta_count_value(), None);
    let empty = Ap { sta_count: String::new(), ap_name: "lab".to_string() };
    assert_eq!(empty.sta_count_value(), None);
    let wide = Ap { sta_count: "99999999999".to_string(), ap_name: "lab".to_string() };
    assert_eq!(wide.sta_count_value(), None);
}

#[test]
fn errors_describe_themselves() {
    assert_eq!(Error::Timeout.describe(), "timeout");
    assert_eq!(Error::UnexpectedReply.describe(), "unexpected reply");
    assert_eq!(Error::Malformed.describe(), "malformed command");
    assert_eq!(Error::Persist.describe(), "persistence failure");
}
