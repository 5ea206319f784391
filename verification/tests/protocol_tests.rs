use lib::protocol::{header_step, route, HeaderStep, Route};

#[test]
fn blank_line_ends_the_headers() {
    assert_eq!(header_step("\r\n", Some(3)), HeaderStep::Done);
    assert_eq!(header_step("\n", None), HeaderStep::Done);
    assert_eq!(header_step("", None), HeaderStep::Done);
    assert_eq!(header_step("\r\n\r\n", None), HeaderStep::Done);
}

#[test]
fn content_length_is_read_after_trimming() {
    assert_eq!(header_step("Content-Length: 42\r\n", None), HeaderStep::More(Some(42)));
    assert_eq!(header_step("Content-Length:42", None), HeaderStep::More(Some(42)));
    assert_eq!(header_step("Content-Length:\t12\t\r\n", None), HeaderStep::More(Some(12)));
    assert_eq!(header_step("Content-Length:  +7 \r\n", None), HeaderStep::More(Some(7)));
    assert_eq!(header_step("Content-Length: 0\n", Some(9)), HeaderStep::More(Some(0)));
}

#[test]
fn unreadable_content_length_clears_the_known_length() {
    assert_eq!(header_step("Content-Length: abc\r\n", Some(3)), HeaderStep::More(None));
    assert_eq!(header_step("Content-Length: -1\r\n", Some(3)), HeaderStep::More(None));
    assert_eq!(header_step("Content-Length: \r\n", Some(3)), HeaderStep::More(None));
    assert_eq!(header_step("Content-Length: +\r\n", Some(3)), HeaderStep::More(None));
    assert_eq!(
        header_step("Content-Length: 99999999999999999999999\r\n", Some(3)),
        HeaderStep::More(None)
    );
    assert_eq!(header_step("Content-Length: 1 2\r\n", Some(3)), HeaderStep::More(None));
}

#[test]
fn other_headers_keep_the_known_length() {
    assert_eq!(header_step("Content-Type: application/json\r\n", Some(5)), HeaderStep::More(Some(5)));
    assert_eq!(header_step("content-length: 5\r\n", None), HeaderStep::More(None));
    assert_eq!(header_step("  \r\n", Some(1)), HeaderStep::More(Some(1)));
}

#[test]
fn known_methods_are_routed() {
    assert_eq!(route("initialize", true), Route::Initialize);
    assert_eq!(route("tools/list", true), Route::ToolsList);
    assert_eq!(route("tools/call", true), Route::ToolsCall);
    assert_eq!(route("ping", true), Route::Ping);
    assert_eq!(route("ping", false), Route::Ping);
}

#[test]
fn notifications_get_no_answer_and_unknown_requests_an_error() {
    assert_eq!(route("initialized", false), Route::NoReply);
    assert_eq!(route("initialized", true), Route::NoReply);
    assert_eq!(route("notifications/cancelled", false), Route::NoReply);
    assert_eq!(route("no/such/method", true), Route::MethodNotFound);
    assert_eq!(route("Initialize", true), Route::MethodNotFound);
}
