use vstd::prelude::*;

use crate::bytes::{bytes_eq, contains_bytes, contains_seq, copy_bytes};
use crate::creds::Credential;
use crate::enumerate::CredentialEnumerator;
use crate::errors::Error;

verus! {

/// The two-valued result of one credential check.
#[derive(Clone, Copy, Debug, PartialEq, Eq, Structural)]
pub enum Outcome {
    Accepted,
    Rejected,
}

/// The bytes of the authentication keyword `form`.
pub open spec fn form_keyword() -> Seq<u8> {
    seq![102u8, 111u8, 114u8, 109u8]
}

/// The bytes of the authentication keyword `basic`.
pub open spec fn basic_keyword() -> Seq<u8> {
    seq![98u8, 97u8, 115u8, 105u8, 99u8]
}

fn form_bytes() -> (r: Vec<u8>)
    ensures
        r@ == form_keyword(),
{
    let mut v: Vec<u8> = Vec::new();
    v.push(102u8);
    v.push(111u8);
    v.push(114u8);
    v.push(109u8);
    proof {
        assert(v@ =~= form_keyword());
    }
    v
}

fn basic_bytes() -> (r: Vec<u8>)
    ensures
        r@ == basic_keyword(),
{
    let mut v: Vec<u8> = Vec::new();
    v.push(98u8);
    v.push(97u8);
    v.push(115u8);
    v.push(105u8);
    v.push(99u8);
    proof {
        assert(v@ =~= basic_keyword());
    }
    v
}

/// An HTTP token byte (RFC 9110 `tchar`): a letter, a digit, or one of
/// ``! # $ % & ' * + - . ^ _ ` | ~``.
pub open spec fn is_tchar(b: u8) -> bool {
    ||| (48 <= b && b <= 57)
    ||| (65 <= b && b <= 90)
    ||| (97 <= b && b <= 122)
    ||| b == 33
    ||| b == 35
    ||| b == 36
    ||| b == 37
    ||| b == 38
    ||| b == 39
    ||| b == 42
    ||| b == 43
    ||| b == 45
    ||| b == 46
    ||| b == 94
    ||| b == 95
    ||| b == 96
    ||| b == 124
    ||| b == 126
}

/// A byte allowed in a header value: a visible byte (32 and above, except
/// 127) or a tab.
pub open spec fn is_header_value_byte(b: u8) -> bool {
    (b >= 32 && b != 127) || b == 9
}

/// A valid HTTP method: a non-empty token.
pub open spec fn method_valid(m: Seq<u8>) -> bool {
    m.len() > 0 && forall|i: int| 0 <= i < m.len() ==> is_tchar(#[trigger] m[i])
}

/// A valid header name: 1 through 65535 token bytes (uppercase letters are
/// accepted and normalized by the transport).
pub open spec fn header_name_valid(h: Seq<u8>) -> bool {
    0 < h.len() <= 65535 && forall|i: int| 0 <= i < h.len() ==> is_tchar(#[trigger] h[i])
}

/// A valid header value: visible bytes and tabs only.
pub open spec fn header_value_valid(v: Seq<u8>) -> bool {
    forall|i: int| 0 <= i < v.len() ==> is_header_value_byte(#[trigger] v[i])
}

/// A plausible HTTP status code: 100 through 999.
pub open spec fn status_code_valid(c: u16) -> bool {
    100 <= c && c <= 999
}

/// Relies on http's `StatusCode::from_u16`, which accepts exactly the
/// codes from 100 through 999.
#[verifier::external_body]
fn check_status_code(c: u16) -> (r: bool)
    ensures
        r == status_code_valid(c),
{
    http::StatusCode::from_u16(c).is_ok()
}

/// Relies on http's `Method::from_bytes`, which accepts exactly the
/// non-empty strings of token bytes.
#[verifier::external_body]
fn check_method(m: &Vec<u8>) -> (r: bool)
    ensures
        r == method_valid(m@),
{
    http::Method::from_bytes(m.as_slice()).is_ok()
}

/// Relies on http's `HeaderName::from_bytes`, which accepts exactly the
/// strings of 1 through 65535 token bytes.
#[verifier::external_body]
fn check_header_name(h: &Vec<u8>) -> (r: bool)
    ensures
        r == header_name_valid(h@),
{
    http::HeaderName::from_bytes(h.as_slice()).is_ok()
}

/// Relies on http's `HeaderValue::from_bytes`, which accepts exactly the
/// strings of visible bytes (32 and above, except 127) and tabs.
#[verifier::external_body]
fn check_header_value(v: &Vec<u8>) -> (r: bool)
    ensures
        r == header_value_valid(v@),
{
    http::HeaderValue::from_bytes(v.as_slice()).is_ok()
}

/// Whether some pattern of `pats` occurs inside `body`.
pub open spec fn some_pattern_in(pats: Seq<Vec<u8>>, body: Seq<u8>) -> bool {
    exists|i: int| 0 <= i < pats.len() && contains_seq(body, #[trigger] pats[i]@)
}

/// An authentication scheme resolved for one credential pair. `Form`
/// carries the pair to send as form fields (named `username` and
/// `password`); `Basic` carries the pair for HTTP Basic authentication.
pub enum AuthScheme {
    Form(Vec<u8>, Vec<u8>),
    Basic(Vec<u8>, Vec<u8>),
}

/// The immutable description of one HTTP endpoint: the request template's
/// parts and the rules that classify a response.
pub struct HTTPProto {
    pub method: Vec<u8>,
    pub uri: Vec<u8>,
    pub headers: Vec<(Vec<u8>, Vec<u8>)>,
    pub auth_type: Vec<u8>,
    pub success_codes: Vec<u16>,
    pub success_if_contains: Vec<Vec<u8>>,
    pub fail_if_contains: Vec<Vec<u8>>,
}

impl HTTPProto {
    /// Build the endpoint description, validating everything the request
    /// template needs: the method, each header, and each success code.
    /// The authentication mode is deliberately not validated here; it
    /// surfaces at check time, as `prepare_auth` states.
    #[verifier::loop_isolation(false)]
    pub fn new(
        method: Vec<u8>,
        uri: Vec<u8>,
        headers: Vec<(Vec<u8>, Vec<u8>)>,
        auth_type: Vec<u8>,
        success_codes: Vec<u16>,
        success_if_contains: Vec<Vec<u8>>,
        fail_if_contains: Vec<Vec<u8>>,
    ) -> (r: Result<Self, Error>)
        ensures
            match r {
                Ok(p) => {
                    &&& p.method == method
                    &&& p.uri == uri
                    &&& p.headers == headers
                    &&& p.auth_type == auth_type
                    &&& p.success_codes == success_codes
                    &&& p.success_if_contains == success_if_contains
                    &&& p.fail_if_contains == fail_if_contains
                    &&& method_valid(method@)
                    &&& forall|i: int|
                        0 <= i < headers@.len() ==> header_name_valid(
                            #[trigger] headers@[i].0@,
                        ) && header_value_valid(headers@[i].1@)
                    &&& forall|i: int|
                        0 <= i < success_codes@.len() ==> status_code_valid(
                            #[trigger] success_codes@[i],
                        )
                },
                Err(e) => {
                    ||| (e == Error::InvalidMethod && !method_valid(method@))
                    ||| (e == Error::InvalidHeaderName && exists|i: int|
                        0 <= i < headers@.len() && !header_name_valid(
                            #[trigger] headers@[i].0@,
                        ))
                    ||| (e == Error::InvalidHeaderValue && exists|i: int|
                        0 <= i < headers@.len() && !header_value_valid(
                            #[trigger] headers@[i].1@,
                        ))
                    ||| (e == Error::InvalidStatusCode && exists|i: int|
                        0 <= i < success_codes@.len() && !status_code_valid(
                            #[trigger] success_codes@[i],
                        ))
                },
            },
    {
        if !check_method(&method) {
            return Err(Error::InvalidMethod);
        }
        let mut i: usize = 0;
        while i < headers.len()
            invariant
                i <= headers@.len(),
                forall|t: int| 0 <= t < i ==> header_name_valid(#[trigger] headers@[t].0@),
                forall|t: int| 0 <= t < i ==> header_value_valid(#[trigger] headers@[t].1@),
            decreases headers@.len() - i,
        {
            let pair = &headers[i];
            if !check_header_name(&pair.0) {
                return Err(Error::InvalidHeaderName);
            }
            if !check_header_value(&pair.1) {
                return Err(Error::InvalidHeaderValue);
            }
            proof {
                assert(header_name_valid(headers@[i as int].0@));
                assert(header_value_valid(headers@[i as int].1@));
            }
            i = i + 1;
        }
        let mut i: usize = 0;
        while i < success_codes.len()
            invariant
                i <= success_codes@.len(),
                forall|t: int|
                    0 <= t < i ==> status_code_valid(#[trigger] success_codes@[t]),
            decreases success_codes@.len() - i,
        {
            if !check_status_code(success_codes[i]) {
                return Err(Error::InvalidStatusCode);
            }
            i = i + 1;
        }
        Ok(
            HTTPProto {
                method,
                uri,
                headers,
                auth_type,
                success_codes,
                success_if_contains,
                fail_if_contains,
            },
        )
    }

    /// The outcome rule over a response: the status must be among the
    /// success codes, no failure marker may occur in the body, and at
    /// least one success marker must occur; everything else is rejected.
    pub open spec fn classify_spec(&self, status: u16, body: Seq<u8>) -> Outcome {
        if self.success_codes@.contains(status) && !some_pattern_in(
            self.fail_if_contains@,
            body,
        ) && some_pattern_in(self.success_if_contains@, body) {
            Outcome::Accepted
        } else {
            Outcome::Rejected
        }
    }

    /// Classify one response: the status gate first, then the failure
    /// markers (which short-circuit), then the success markers.
    #[verifier::loop_isolation(false)]
    pub fn classify(&self, status: u16, body: &Vec<u8>) -> (r: Outcome)
        ensures
            r == self.classify_spec(status, body@),
    {
        if !contains_code(&self.success_codes, status) {
            return Outcome::Rejected;
        }
        let mut i: usize = 0;
        while i < self.fail_if_contains.len()
            invariant
                i <= self.fail_if_contains@.len(),
                forall|t: int|
                    0 <= t < i ==> !contains_seq(body@, #[trigger] self.fail_if_contains@[t]@),
            decreases self.fail_if_contains@.len() - i,
        {
            if contains_bytes(body, &self.fail_if_contains[i]) {
                return Outcome::Rejected;
            }
            i = i + 1;
        }
        let mut i: usize = 0;
        while i < self.success_if_contains.len()
            invariant
                i <= self.success_if_contains@.len(),
                !some_pattern_in(self.fail_if_contains@, body@),
                forall|t: int|
                    0 <= t < i ==> !contains_seq(
                        body@,
                        #[trigger] self.success_if_contains@[t]@,
                    ),
            decreases self.success_if_contains@.len() - i,
        {
            if contains_bytes(body, &self.success_if_contains[i]) {
                proof {
                    assert(contains_seq(body@, self.success_if_contains@[i as int]@));
                    assert(some_pattern_in(self.success_if_contains@, body@));
                }
                return Outcome::Accepted;
            }
            i = i + 1;
        }
        Outcome::Rejected
    }

    /// Resolve the configured authentication mode for one credential pair:
    /// `form` sends the pair as form fields, `basic` as HTTP Basic
    /// authentication, and any other mode is a configuration fault,
    /// surfaced here at check time.
    pub fn prepare_auth(&self, creds: &Credential) -> (r: Result<AuthScheme, Error>)
        ensures
            match r {
                Ok(AuthScheme::Form(u, p)) => {
                    &&& self.auth_type@ == form_keyword()
                    &&& u@ == creds.username@
                    &&& p@ == creds.password@
                },
                Ok(AuthScheme::Basic(u, p)) => {
                    &&& self.auth_type@ == basic_keyword()
                    &&& self.auth_type@ != form_keyword()
                    &&& u@ == creds.username@
                    &&& p@ == creds.password@
                },
                Err(e) => {
                    &&& e == Error::UnsupportedAuthType
                    &&& self.auth_type@ != form_keyword()
                    &&& self.auth_type@ != basic_keyword()
                },
            },
    {
        let form = form_bytes();
        let basic = basic_bytes();
        if bytes_eq(&self.auth_type, &form) {
            Ok(AuthScheme::Form(copy_bytes(&creds.username), copy_bytes(&creds.password)))
        } else if bytes_eq(&self.auth_type, &basic) {
            Ok(AuthScheme::Basic(copy_bytes(&creds.username), copy_bytes(&creds.password)))
        } else {
            Err(Error::UnsupportedAuthType)
        }
    }
}

/// Whether `codes` holds `c`.
fn contains_code(codes: &Vec<u16>, c: u16) -> (r: bool)
    ensures
        r == codes@.contains(c),
{
    let mut i: usize = 0;
    while i < codes.len()
        invariant
            i <= codes@.len(),
            forall|t: int| 0 <= t < i ==> codes@[t] != c,
        decreases codes@.len() - i,
    {
        if codes[i] == c {
            return true;
        }
        i = i + 1;
    }
    false
}

/// A protocol that can enumerate candidate credentials and check one pair,
/// the uniform interface the pacing engine drives.
///
/// `accepts` is each implementation's own statement of which pairs its
/// endpoint accepts, and `check` must report exactly that. An
/// implementation living outside the library (an HTTP checker doing real
/// network I/O) is not verified against its stated contract.
pub trait Proto: Sized {
    /// Which credential pairs the endpoint accepts. Implementations
    /// override this to state their acceptance rule; the default claims
    /// nothing is accepted.
    open spec fn accepts(&self, username: Seq<u8>, password: Seq<u8>) -> bool {
        false
    }

    /// The username list this protocol draws candidates from.
    open spec fn usernames_model(&self) -> Seq<Seq<u8>> {
        Seq::empty()
    }

    /// The password list this protocol draws candidates from.
    open spec fn passwords_model(&self) -> Seq<Seq<u8>> {
        Seq::empty()
    }

    /// Check one credential pair against the endpoint.
    fn check(&self, creds: &Credential) -> (r: Outcome)
        ensures
            (r == Outcome::Accepted) == self.accepts(creds.username@, creds.password@),
    ;

    /// A fresh stream over every candidate pair.
    fn get_credentials(&self) -> (s: CredentialEnumerator)
        ensures
            s.wf(),
            s.pos() == 0,
            s.unames() == self.usernames_model(),
            s.pwords() == self.passwords_model(),
    ;

    /// Total number of pairs the stream will yield, for progress display,
    /// by default read off a fresh stream's closed form.
    fn get_workload(&self) -> (n: usize)
        ensures
            n == self.usernames_model().len() * self.passwords_model().len(),
    {
        self.get_credentials().workload()
    }
}

/// The uniform adapter the pacing engine drives. The credential shape is
/// a closed type, so no runtime tag check is needed: the adapter simply
/// forwards to the wrapped protocol, and its contracts are proved from
/// the wrapped protocol's own.
pub struct DynProto<P: Proto> {
    pub proto: P,
}

impl<P: Proto> Proto for DynProto<P> {
    open spec fn accepts(&self, username: Seq<u8>, password: Seq<u8>) -> bool {
        self.proto.accepts(username, password)
    }

    open spec fn usernames_model(&self) -> Seq<Seq<u8>> {
        self.proto.usernames_model()
    }

    open spec fn passwords_model(&self) -> Seq<Seq<u8>> {
        self.proto.passwords_model()
    }

    fn check(&self, creds: &Credential) -> (r: Outcome) {
        self.proto.check(creds)
    }

    fn get_credentials(&self) -> (s: CredentialEnumerator) {
        self.proto.get_credentials()
    }

    fn get_workload(&self) -> (n: usize) {
        self.proto.get_workload()
    }
}

} // verus!
