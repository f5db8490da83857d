use moodle_session_ext::session::{
    classify_ajax, interpret_remaining, interpret_touch, parse_profile_page,
    update_session_outcome, AjaxOutcome, AjaxReply, ErrorField, ProbeError, SessionError,
    SessionProbeResult, SessionUpdateResult,
};

fn reply(error: ErrorField) -> AjaxReply {
    AjaxReply {
        error,
        errorcode: None,
        exception_message: None,
        exception_errorcode: None,
        has_data: false,
    }
}

#[test]
fn missing_error_field_is_malformed() {
    assert_eq!(classify_ajax(&reply(ErrorField::Absent)), AjaxOutcome::Malformed);
}

#[test]
fn string_error_with_code_is_a_failure() {
    let mut r = reply(ErrorField::Text("no such method".to_string()));
    r.errorcode = Some("invalidmethod".to_string());
    assert_eq!(
        classify_ajax(&r),
        AjaxOutcome::Failure {
            text: "no such method".to_string(),
            code: "invalidmethod".to_string()
        }
    );
}

#[test]
fn string_error_without_code_is_malformed() {
    let r = reply(ErrorField::Text("oops".to_string()));
    assert_eq!(classify_ajax(&r), AjaxOutcome::Malformed);
}

#[test]
fn login_required_exception_means_the_session_died() {
    let mut r = reply(ErrorField::Flag(true));
    r.exception_message = Some("You are not logged in".to_string());
    r.exception_errorcode = Some("servicerequireslogin".to_string());
    assert_eq!(classify_ajax(&r), AjaxOutcome::SessionDead);
}

#[test]
fn other_exceptions_are_failures() {
    let mut r = reply(ErrorField::Flag(true));
    r.exception_message = Some("Access denied".to_string());
    r.exception_errorcode = Some("accessdenied".to_string());
    assert_eq!(
        classify_ajax(&r),
        AjaxOutcome::Failure {
            text: "Access denied".to_string(),
            code: "accessdenied".to_string()
        }
    );
}

#[test]
fn exception_without_fields_is_malformed() {
    let mut r = reply(ErrorField::Flag(true));
    r.exception_message = Some("half a message".to_string());
    assert_eq!(classify_ajax(&r), AjaxOutcome::Malformed);
}

#[test]
fn false_error_flag_takes_the_payload() {
    let mut r = reply(ErrorField::Flag(false));
    r.has_data = true;
    assert_eq!(classify_ajax(&r), AjaxOutcome::Payload);
    let r2 = reply(ErrorField::Flag(false));
    assert_eq!(classify_ajax(&r2), AjaxOutcome::Malformed);
}

#[test]
fn null_error_takes_the_payload() {
    let mut r = reply(ErrorField::Other);
    r.has_data = true;
    assert_eq!(classify_ajax(&r), AjaxOutcome::Payload);
}

#[test]
fn touch_interpretation() {
    assert_eq!(interpret_touch(&AjaxOutcome::Payload, Some(true)), Ok(true));
    assert_eq!(
        interpret_touch(&AjaxOutcome::Payload, Some(false)),
        Err(SessionError::TouchRefused)
    );
    assert_eq!(interpret_touch(&AjaxOutcome::Payload, None), Err(SessionError::Protocol));
    assert_eq!(interpret_touch(&AjaxOutcome::SessionDead, None), Ok(false));
    assert_eq!(
        interpret_touch(
            &AjaxOutcome::Failure { text: "t".to_string(), code: "c".to_string() },
            None
        ),
        Err(SessionError::Rejected { text: "t".to_string(), code: "c".to_string() })
    );
    assert_eq!(interpret_touch(&AjaxOutcome::Malformed, Some(true)), Err(SessionError::Protocol));
}

#[test]
fn remaining_time_interpretation() {
    assert_eq!(interpret_remaining(&AjaxOutcome::Payload, Some(900)), Ok(Some(900)));
    assert_eq!(interpret_remaining(&AjaxOutcome::Payload, None), Err(SessionError::Protocol));
    assert_eq!(interpret_remaining(&AjaxOutcome::SessionDead, None), Ok(None));
    assert_eq!(
        interpret_remaining(
            &AjaxOutcome::Failure { text: "t".to_string(), code: "c".to_string() },
            Some(900)
        ),
        Err(SessionError::Rejected { text: "t".to_string(), code: "c".to_string() })
    );
}

#[test]
fn refresh_outcome_converts_seconds_to_milliseconds() {
    match update_session_outcome(true, Some(900)) {
        SessionUpdateResult::Alive { time_left } => assert_eq!(time_left, 900_000),
        SessionUpdateResult::SessionDead => panic!("session should stay alive"),
    }
}

#[test]
fn refresh_outcome_saturates_huge_times() {
    match update_session_outcome(true, Some(u64::MAX / 1000 + 1)) {
        SessionUpdateResult::Alive { time_left } => assert_eq!(time_left, u64::MAX),
        SessionUpdateResult::SessionDead => panic!("session should stay alive"),
    }
}

#[test]
fn refresh_outcome_dead_cases() {
    assert!(matches!(
        update_session_outcome(false, Some(900)),
        SessionUpdateResult::SessionDead
    ));
    assert!(matches!(update_session_outcome(true, None), SessionUpdateResult::SessionDead));
}

const PAGE_HEAD: &str = "<html><body><dl><dt>Full name</dt><dd>John Doe</dd>";
const PAGE_TAIL: &str = "</dl><script>var cfg = {\"sesskey\":\"Zx9AbCd123\"};</script></body></html>";

#[test]
fn profile_page_yields_identity_and_session_key() {
    let body = format!(
        "{}<dt>Email address</dt><dd><a href=\"mailto:john.doe%2Bmoodle@example.com\">mail</a></dd>{}",
        PAGE_HEAD, PAGE_TAIL
    );
    match parse_profile_page(&body) {
        Ok(SessionProbeResult::Valid { email, csrf_session }) => {
            // the percent-encoded plus sign really was decoded
            assert_eq!(email.0, "john.doe+moodle@example.com");
            assert_eq!(csrf_session, "Zx9AbCd123");
        }
        other => panic!("expected a valid probe, got {:?}", other.err()),
    }
}

#[test]
fn html_entities_in_the_address_are_decoded() {
    let body = format!(
        "{}<dt>Email address</dt><dd><a href=\"mailto:a&amp;b@example.com\">mail</a></dd>{}",
        PAGE_HEAD, PAGE_TAIL
    );
    match parse_profile_page(&body) {
        Ok(SessionProbeResult::Valid { email, .. }) => {
            assert_eq!(email.0, "a&b@example.com");
        }
        other => panic!("expected a valid probe, got {:?}", other.err()),
    }
}

#[test]
fn page_without_address_is_rejected() {
    let body = format!("{}{}", PAGE_HEAD, PAGE_TAIL);
    assert_eq!(parse_profile_page(&body).err(), Some(ProbeError::NoEmail));
}

#[test]
fn address_without_mailto_prefix_is_rejected() {
    let body = format!(
        "{}<dt>Email address</dt><dd><a href=\"https://example.com\">mail</a></dd>{}",
        PAGE_HEAD, PAGE_TAIL
    );
    assert_eq!(parse_profile_page(&body).err(), Some(ProbeError::NoMailtoPrefix));
}

#[test]
fn invalid_address_is_rejected() {
    let body = format!(
        "{}<dt>Email address</dt><dd><a href=\"mailto:not-an-address\">mail</a></dd>{}",
        PAGE_HEAD, PAGE_TAIL
    );
    assert_eq!(parse_profile_page(&body).err(), Some(ProbeError::InvalidEmail));
}

#[test]
fn page_without_session_key_is_rejected() {
    let body = format!(
        "{}<dt>Email address</dt><dd><a href=\"mailto:john@example.com\">mail</a></dd></dl>",
        PAGE_HEAD
    );
    assert_eq!(parse_profile_page(&body).err(), Some(ProbeError::NoSessionKey));
}

#[test]
fn undecodable_address_is_rejected() {
    // %FF percent-decodes to a byte that is not UTF-8
    let body = format!(
        "{}<dt>Email address</dt><dd><a href=\"mailto:john%FF@example.com\">mail</a></dd>{}",
        PAGE_HEAD, PAGE_TAIL
    );
    assert_eq!(parse_profile_page(&body).err(), Some(ProbeError::BadEncoding));
}
