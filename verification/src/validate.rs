//! Validation of rule fields and the record kept for every rejected line.
//!
//! A redirect source must be an absolute path that resolves against a fixed
//! placeholder authority; a redirect target must be such a path with no
//! syntax violations, or an absolute URL whose scheme starts with `http`.
//! The resolution itself is the url crate's; its verdicts are named,
//! uninterpreted functions of the input.

use vstd::prelude::*;
use crate::bytes::has_ws;

verus! {

/// How a class of findings is treated: dropped, reported, or fatal.
#[derive(Clone, Copy, Debug, PartialEq, Eq, Structural)]
pub enum ValidationBehavior {
    Ignore,
    Warn,
    Error,
}

/// The three independently configured severities: rules whose source and
/// target coincide, cycles across several rules, and lines that do not
/// parse.
#[derive(Clone, Copy, Debug)]
pub struct ValidationBehaviors {
    pub self_loops: ValidationBehavior,
    pub loops: ValidationBehavior,
    pub invalid_lines: ValidationBehavior,
}

impl Default for ValidationBehaviors {
    /// Self-loops are reported and dropped; cycles and invalid lines are
    /// fatal.
    fn default() -> (r: Self)
        ensures
            r.self_loops == ValidationBehavior::Warn,
            r.loops == ValidationBehavior::Error,
            r.invalid_lines == ValidationBehavior::Error,
    {
        ValidationBehaviors {
            self_loops: ValidationBehavior::Warn,
            loops: ValidationBehavior::Error,
            invalid_lines: ValidationBehavior::Error,
        }
    }
}

/// One rejected line: where it stood, its text, the diagnostic message,
/// and how severe the failure is under the configured behaviors.
#[derive(Debug)]
pub struct ValidationError {
    pub origin: Vec<u8>,
    pub line_no: usize,
    pub line: Vec<u8>,
    pub message: Vec<u8>,
    pub severity: ValidationBehavior,
}

impl ValidationError {
    /// Records a rejected line.
    pub fn new(
        origin: Vec<u8>,
        line_no: usize,
        line: Vec<u8>,
        message: Vec<u8>,
        severity: ValidationBehavior,
    ) -> (r: Self)
        ensures
            r.origin == origin,
            r.line_no == line_no,
            r.line == line,
            r.message == message,
            r.severity == severity,
    {
        ValidationError { origin, line_no, line, message, severity }
    }
}

/// Whether resolving the byte string against the placeholder base parses;
/// the url crate's verdict, a function of the input alone.
pub uninterp spec fn join_accepted(base: Seq<char>, s: Seq<u8>) -> bool;

/// Whether that resolution reported syntax violations.
pub uninterp spec fn join_violations(base: Seq<char>, s: Seq<u8>) -> bool;

/// Whether the byte string parses on its own as an absolute URL.
pub uninterp spec fn absolute_url_ok(s: Seq<u8>) -> bool;

/// Relies on url::Url::parse for the base and on
/// url::Url::options().base_url(..).parse for the input, with a syntax
/// violation callback; both verdicts depend on the arguments alone. Input
/// that is not UTF-8, or a base that does not parse, resolves nothing.
#[verifier::external_body]
fn parse_against_base(base: &str, input: &[u8]) -> (r: (bool, bool))
    ensures
        r.0 == join_accepted(base@, input@),
        r.1 == join_violations(base@, input@),
{
    let text = match core::str::from_utf8(input) {
        Ok(t) => t,
        Err(_) => return (false, false),
    };
    let base_url = match url::Url::parse(base) {
        Ok(u) => u,
        Err(_) => return (false, false),
    };
    let seen = core::cell::Cell::new(false);
    let callback = |_violation| seen.set(true);
    let parsed = url::Url::options().base_url(Some(&base_url)).syntax_violation_callback(
        Some(&callback),
    ).parse(text);
    (parsed.is_ok(), seen.get())
}

/// Relies on url::Url::parse: whether the input alone is a well-formed
/// absolute URL; the verdict depends on the argument alone.
#[verifier::external_body]
fn parse_absolute(input: &[u8]) -> (r: bool)
    ensures
        r == absolute_url_ok(input@),
{
    match core::str::from_utf8(input) {
        Ok(t) => url::Url::parse(t).is_ok(),
        Err(_) => false,
    }
}

/// The fixed placeholder authority that rule paths must resolve against.
pub open spec fn placeholder_base() -> Seq<char> {
    ("https://example.com")@
}

/// A valid redirect source: an absolute path, resolvable against the
/// placeholder authority.
pub open spec fn valid_source(s: Seq<u8>) -> bool {
    s.len() > 0 && s[0] == 47 && join_accepted(placeholder_base(), s)
}

/// Whether `s` starts with the four bytes of `http`.
pub open spec fn starts_http(s: Seq<u8>) -> bool {
    s.len() >= 4 && s[0] == 104 && s[1] == 116 && s[2] == 116 && s[3] == 112
}

/// A valid redirect target: an absolute path that resolves against the
/// placeholder authority with no syntax violations, or an absolute URL
/// whose scheme begins with `http`.
pub open spec fn valid_target(s: Seq<u8>) -> bool {
    if s.len() > 0 && s[0] == 47 {
        join_accepted(placeholder_base(), s) && !join_violations(placeholder_base(), s)
    } else if starts_http(s) {
        absolute_url_ok(s)
    } else {
        false
    }
}

/// Whether `input` may stand as a redirect source.
pub fn is_valid_redirect_source(input: &[u8]) -> (r: bool)
    ensures
        r == valid_source(input@),
{
    if input.len() == 0 || input[0] != 47 {
        return false;
    }
    let (ok, _violations) = parse_against_base("https://example.com", input);
    ok
}

/// Whether `input` may stand as a redirect target. Targets come from
/// whitespace-split tokens, so they hold no whitespace.
pub fn is_valid_redirect_target(input: &[u8]) -> (r: bool)
    requires
        !has_ws(input@),
    ensures
        r == valid_target(input@),
{
    if input.len() > 0 && input[0] == 47 {
        let (ok, violations) = parse_against_base("https://example.com", input);
        return ok && !violations;
    }
    if input.len() >= 4 && input[0] == 104 && input[1] == 116 && input[2] == 116 && input[3]
        == 112 {
        parse_absolute(input)
    } else {
        false
    }
}

} // verus!
