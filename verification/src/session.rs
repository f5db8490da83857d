//! The decision logic around the external session collaborator: what a
//! profile page says about a session, and what the remote replies to a
//! touch or time-remaining call mean. The network calls themselves happen
//! outside; this module reads what they brought back.

use vstd::prelude::*;

use crate::model::Email;

verus! {

/// What probing a session showed: either the session is invalid, or it
/// belongs to this identity and carries this secondary (cross-site)
/// secret.
pub enum SessionProbeResult {
    Invalid,
    Valid { email: Email, csrf_session: String },
}

/// What a refresh pass concluded: the remote session is dead, or it
/// stays alive for this long (milliseconds).
pub enum SessionUpdateResult {
    SessionDead,
    Alive { time_left: u64 },
}

/// Why a profile page could not be read.
#[derive(Clone, Copy, Debug, PartialEq, Eq, Structural)]
pub enum ProbeError {
    NoEmail,
    BadEncoding,
    NoMailtoPrefix,
    InvalidEmail,
    NoSessionKey,
}

/// The reply's "error" field, as the wire carries it: missing, a string,
/// a boolean, or some other value.
pub enum ErrorField {
    Absent,
    Text(String),
    Flag(bool),
    Other,
}

/// What the logic reads from a parsed service reply: the error field, the
/// top-level error code when it is a string, the exception's message and
/// code when they are strings, and whether a data field is present.
pub struct AjaxReply {
    pub error: ErrorField,
    pub errorcode: Option<String>,
    pub exception_message: Option<String>,
    pub exception_errorcode: Option<String>,
    pub has_data: bool,
}

/// The classification of a service reply: take the payload, the session
/// is dead, the service reported a failure, or the reply is malformed.
#[derive(Debug, PartialEq)]
pub enum AjaxOutcome {
    Payload,
    SessionDead,
    Failure { text: String, code: String },
    Malformed,
}

/// Why a touch or time-remaining call failed.
#[derive(Debug, PartialEq)]
pub enum SessionError {
    Protocol,
    Rejected { text: String, code: String },
    TouchRefused,
}

/// How a reply is classified: a string error needs its code; a true
/// error flag points into the exception object, whose code
/// "servicerequireslogin" means the session died; otherwise the data
/// field must be there.
pub open spec fn spec_classify_ajax(reply: AjaxReply) -> AjaxOutcome {
    match reply.error {
        ErrorField::Absent => AjaxOutcome::Malformed,
        ErrorField::Text(s) => match reply.errorcode {
            Some(c) => AjaxOutcome::Failure { text: s, code: c },
            None => AjaxOutcome::Malformed,
        },
        ErrorField::Flag(b) => if b {
            match (reply.exception_message, reply.exception_errorcode) {
                (Some(msg), Some(code)) => if code@ == "servicerequireslogin"@ {
                    AjaxOutcome::SessionDead
                } else {
                    AjaxOutcome::Failure { text: msg, code }
                },
                _ => AjaxOutcome::Malformed,
            }
        } else {
            if reply.has_data {
                AjaxOutcome::Payload
            } else {
                AjaxOutcome::Malformed
            }
        },
        ErrorField::Other => if reply.has_data {
            AjaxOutcome::Payload
        } else {
            AjaxOutcome::Malformed
        },
    }
}

/// Classify a service reply.
pub fn classify_ajax(reply: &AjaxReply) -> (r: AjaxOutcome)
    ensures
        r == spec_classify_ajax(*reply),
{
    match &reply.error {
        ErrorField::Absent => AjaxOutcome::Malformed,
        ErrorField::Text(s) => match &reply.errorcode {
            Some(c) => AjaxOutcome::Failure { text: s.clone(), code: c.clone() },
            None => AjaxOutcome::Malformed,
        },
        ErrorField::Flag(b) => if *b {
            match (&reply.exception_message, &reply.exception_errorcode) {
                (Some(msg), Some(code)) => {
                    let dead = String::from_str("servicerequireslogin");
                    if *code == dead {
                        AjaxOutcome::SessionDead
                    } else {
                        AjaxOutcome::Failure { text: msg.clone(), code: code.clone() }
                    }
                },
                _ => AjaxOutcome::Malformed,
            }
        } else {
            if reply.has_data {
                AjaxOutcome::Payload
            } else {
                AjaxOutcome::Malformed
            }
        },
        ErrorField::Other => if reply.has_data {
            AjaxOutcome::Payload
        } else {
            AjaxOutcome::Malformed
        },
    }
}

/// What a touch reply means: the payload must be the boolean true (false
/// is a service contradiction), a dead session reads as false.
pub open spec fn spec_interpret_touch(outcome: AjaxOutcome, data: Option<bool>) -> Result<
    bool,
    SessionError,
> {
    match outcome {
        AjaxOutcome::Payload => match data {
            Some(v) => if v {
                Ok(true)
            } else {
                Err(SessionError::TouchRefused)
            },
            None => Err(SessionError::Protocol),
        },
        AjaxOutcome::SessionDead => Ok(false),
        AjaxOutcome::Failure { text, code } => Err(SessionError::Rejected { text, code }),
        AjaxOutcome::Malformed => Err(SessionError::Protocol),
    }
}

/// Interpret a touch reply; `data` is the payload read as a boolean, when
/// it is one.
pub fn interpret_touch(outcome: &AjaxOutcome, data: Option<bool>) -> (r: Result<
    bool,
    SessionError,
>)
    ensures
        r == spec_interpret_touch(*outcome, data),
{
    match outcome {
        AjaxOutcome::Payload => match data {
            Some(v) => if v {
                Ok(true)
            } else {
                Err(SessionError::TouchRefused)
            },
            None => Err(SessionError::Protocol),
        },
        AjaxOutcome::SessionDead => Ok(false),
        AjaxOutcome::Failure { text, code } => Err(
            SessionError::Rejected { text: text.clone(), code: code.clone() },
        ),
        AjaxOutcome::Malformed => Err(SessionError::Protocol),
    }
}

/// What a time-remaining reply means: the payload must carry the
/// remaining seconds; a dead session reads as no remaining time.
pub open spec fn spec_interpret_remaining(outcome: AjaxOutcome, seconds: Option<u64>) -> Result<
    Option<u64>,
    SessionError,
> {
    match outcome {
        AjaxOutcome::Payload => match seconds {
            Some(s) => Ok(Some(s)),
            None => Err(SessionError::Protocol),
        },
        AjaxOutcome::SessionDead => Ok(None),
        AjaxOutcome::Failure { text, code } => Err(SessionError::Rejected { text, code }),
        AjaxOutcome::Malformed => Err(SessionError::Protocol),
    }
}

/// Interpret a time-remaining reply; `seconds` is the payload's
/// `timeremaining` field, when the payload parsed.
pub fn interpret_remaining(outcome: &AjaxOutcome, seconds: Option<u64>) -> (r: Result<
    Option<u64>,
    SessionError,
>)
    ensures
        r == spec_interpret_remaining(*outcome, seconds),
{
    match outcome {
        AjaxOutcome::Payload => match seconds {
            Some(s) => Ok(Some(s)),
            None => Err(SessionError::Protocol),
        },
        AjaxOutcome::SessionDead => Ok(None),
        AjaxOutcome::Failure { text, code } => Err(
            SessionError::Rejected { text: text.clone(), code: code.clone() },
        ),
        AjaxOutcome::Malformed => Err(SessionError::Protocol),
    }
}

/// The largest whole number of seconds whose millisecond count still fits
/// in 64 bits.
pub const MAX_WHOLE_SECONDS: u64 = 0xFFFFFFFFFFFFFFFF / 1000;

/// What a whole refresh pass concludes: the session stays alive exactly
/// when the touch succeeded and a remaining time came back, and then for
/// that many seconds (in milliseconds, saturated).
pub fn update_session_outcome(touch_ok: bool, remaining_seconds: Option<u64>) -> (r:
    SessionUpdateResult)
    ensures
        match (touch_ok, remaining_seconds) {
            (true, Some(s)) => r == (SessionUpdateResult::Alive {
                time_left: if s <= MAX_WHOLE_SECONDS {
                    (s * 1000) as u64
                } else {
                    u64::MAX
                },
            }),
            _ => r == SessionUpdateResult::SessionDead,
        },
{
    if touch_ok {
        if let Some(s) = remaining_seconds {
            let time_left = if s <= MAX_WHOLE_SECONDS {
                s * 1000
            } else {
                u64::MAX
            };
            return SessionUpdateResult::Alive { time_left };
        }
    }
    SessionUpdateResult::SessionDead
}

/// The pattern that finds the encoded address link on a profile page; its
/// first capture group is the percent-encoded address.
pub open spec fn email_pattern() -> Seq<char> {
    r#"<dt>Email address</dt><dd><a href="([^"]+)">"#@
}

fn email_pattern_str() -> (r: &'static str)
    ensures
        r@ == email_pattern(),
{
    r#"<dt>Email address</dt><dd><a href="([^"]+)">"#
}

/// The pattern that finds the session key on a profile page; its first
/// capture group is the key.
pub open spec fn sesskey_pattern() -> Seq<char> {
    r#""sesskey":"([^"]+)""#@
}

fn sesskey_pattern_str() -> (r: &'static str)
    ensures
        r@ == sesskey_pattern(),
{
    r#""sesskey":"([^"]+)""#
}

/// The first capture group of the first match of `pattern` in `text`, or
/// nothing when the pattern does not compile, does not match, or has no
/// first group.
pub uninterp spec fn re_first_capture(pattern: Seq<char>, text: Seq<char>) -> Option<Seq<char>>;

/// Relies on regex::Regex::new, Regex::captures and Captures::get: for a
/// fixed pattern, the first capture group of the first match is a
/// function of the text alone.
#[verifier::external_body]
fn regex_first_capture(pattern: &str, text: &str) -> (r: Option<String>)
    ensures
        match (r, re_first_capture(pattern@, text@)) {
            (Some(s), Some(v)) => s@ == v,
            (None, None) => true,
            _ => false,
        },
{
    match regex::Regex::new(pattern) {
        Ok(re) => match re.captures(text) {
            Some(c) => match c.get(1) {
                Some(g) => Some(g.as_str().to_string()),
                None => None,
            },
            None => None,
        },
        Err(_) => None,
    }
}

/// The percent-decoding of `text`, or nothing when the decoded bytes are
/// not valid UTF-8.
pub uninterp spec fn url_decoded(text: Seq<char>) -> Option<Seq<char>>;

/// Relies on urlencoding::decode: percent-decoding is a function of the
/// text alone, failing only when the decoded bytes are not UTF-8.
#[verifier::external_body]
fn url_decode(text: &str) -> (r: Option<String>)
    ensures
        match (r, url_decoded(text@)) {
            (Some(s), Some(v)) => s@ == v,
            (None, None) => true,
            _ => false,
        },
{
    match urlencoding::decode(text) {
        Ok(c) => Some(c.into_owned()),
        Err(_) => None,
    }
}

/// `text` with its HTML entities replaced by the characters they name.
pub uninterp spec fn html_unescaped(text: Seq<char>) -> Seq<char>;

/// Relies on html_escape::decode_html_entities: entity replacement is a
/// function of the text alone.
#[verifier::external_body]
fn html_unescape(text: &str) -> (r: String)
    ensures
        r@ == html_unescaped(text@),
{
    html_escape::decode_html_entities(text).into_owned()
}

/// Whether `text` is a syntactically valid email address.
pub uninterp spec fn is_valid_email_address(text: Seq<char>) -> bool;

/// Relies on email_address::EmailAddress::is_valid: validity is a
/// function of the text alone.
#[verifier::external_body]
fn email_is_valid(text: &str) -> (r: bool)
    ensures
        r == is_valid_email_address(text@),
{
    email_address::EmailAddress::is_valid(text)
}

/// Relies on str::strip_prefix: the suffix after `prefix` when `s`
/// starts with it, nothing otherwise.
#[verifier::external_body]
fn strip_prefix_str(s: &str, prefix: &str) -> (r: Option<String>)
    ensures
        match r {
            Some(t) => s@ == prefix@ + t@,
            None => !(s@.len() >= prefix@.len() && s@.subrange(0, prefix@.len() as int)
                == prefix@),
        },
{
    match s.strip_prefix(prefix) {
        Some(t) => Some(t.to_string()),
        None => None,
    }
}

/// `s` without its leading "mailto:", when it has one.
pub open spec fn mailto_stripped(s: Seq<char>) -> Option<Seq<char>> {
    let p = "mailto:"@;
    if s.len() >= p.len() && s.subrange(0, p.len() as int) == p {
        Some(s.skip(p.len() as int))
    } else {
        None
    }
}

/// What reading a profile page yields: the identity and the secondary
/// secret, through the named extraction steps, or the first step that
/// failed.
pub open spec fn profile_parse_spec(body: Seq<char>) -> Result<(Seq<char>, Seq<char>), ProbeError> {
    match re_first_capture(email_pattern(), body) {
        None => Err(ProbeError::NoEmail),
        Some(enc) => match url_decoded(enc) {
            None => Err(ProbeError::BadEncoding),
            Some(dec) => match mailto_stripped(html_unescaped(dec)) {
                None => Err(ProbeError::NoMailtoPrefix),
                Some(email) => if !is_valid_email_address(email) {
                    Err(ProbeError::InvalidEmail)
                } else {
                    match re_first_capture(sesskey_pattern(), body) {
                        None => Err(ProbeError::NoSessionKey),
                        Some(k) => Ok((email, k)),
                    }
                },
            },
        },
    }
}

/// Extract the owning identity and the secondary secret from a profile
/// page: find the encoded address link, percent-decode it, undo HTML
/// entities, strip the mailto prefix, validate the address, and find the
/// session key.
pub fn parse_profile_page(body: &str) -> (r: Result<SessionProbeResult, ProbeError>)
    ensures
        match (r, profile_parse_spec(body@)) {
            (Ok(SessionProbeResult::Valid { email, csrf_session }), Ok(v)) => email@ == v.0
                && csrf_session@ == v.1,
            (Err(e1), Err(e2)) => e1 == e2,
            _ => false,
        },
{
    let enc = match regex_first_capture(email_pattern_str(), body) {
        None => {
            return Err(ProbeError::NoEmail);
        },
        Some(e) => e,
    };
    let dec = match url_decode(enc.as_str()) {
        None => {
            return Err(ProbeError::BadEncoding);
        },
        Some(d) => d,
    };
    let unesc = html_unescape(dec.as_str());
    let email = match strip_prefix_str(unesc.as_str(), "mailto:") {
        None => {
            return Err(ProbeError::NoMailtoPrefix);
        },
        Some(m) => m,
    };
    proof {
        let p = "mailto:"@;
        assert(unesc@ == p + email@);
        assert(unesc@.subrange(0, p.len() as int) =~= p);
        assert(unesc@.skip(p.len() as int) =~= email@);
        assert(mailto_stripped(unesc@) == Some(email@));
    }
    if !email_is_valid(email.as_str()) {
        return Err(ProbeError::InvalidEmail);
    }
    let key = match regex_first_capture(sesskey_pattern_str(), body) {
        None => {
            return Err(ProbeError::NoSessionKey);
        },
        Some(k) => k,
    };
    Ok(SessionProbeResult::Valid { email: Email(email), csrf_session: key })
}

} // verus!
