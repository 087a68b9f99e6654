use imbrut::creds::Credential;
use imbrut::errors::Error;
use imbrut::proto::{AuthScheme, HTTPProto, Outcome};

fn target() -> HTTPProto {
    HTTPProto::new(
        b"POST".to_vec(),
        b"http://example.test/login".to_vec(),
        vec![(b"X-Probe".to_vec(), b"1".to_vec())],
        b"form".to_vec(),
        vec![200],
        vec![b"welcome".to_vec()],
        vec![b"locked".to_vec()],
    )
    .unwrap()
}

#[test]
fn test_classify_success_marker_accepts() {
    let p = target();
    assert_eq!(p.classify(200, &b"welcome back".to_vec()), Outcome::Accepted);
}

#[test]
fn test_classify_failure_marker_short_circuits() {
    let p = target();
    assert_eq!(
        p.classify(200, &b"account locked, welcome".to_vec()),
        Outcome::Rejected
    );
}

#[test]
fn test_classify_status_gate_first() {
    let p = target();
    assert_eq!(p.classify(403, &b"welcome".to_vec()), Outcome::Rejected);
}

#[test]
fn test_classify_no_marker_is_rejected() {
    let p = target();
    assert_eq!(p.classify(200, &b"hello there".to_vec()), Outcome::Rejected);
}

#[test]
fn test_status_code_bounds() {
    let ok = HTTPProto::new(
        b"GET".to_vec(),
        b"http://example.test/".to_vec(),
        Vec::new(),
        b"basic".to_vec(),
        vec![100, 999],
        Vec::new(),
        Vec::new(),
    );
    assert!(ok.is_ok());
    let bad = HTTPProto::new(
        b"GET".to_vec(),
        b"http://example.test/".to_vec(),
        Vec::new(),
        b"basic".to_vec(),
        vec![200, 99],
        Vec::new(),
        Vec::new(),
    );
    assert!(matches!(bad, Err(Error::InvalidStatusCode)));
    let bad_high = HTTPProto::new(
        b"GET".to_vec(),
        b"http://example.test/".to_vec(),
        Vec::new(),
        b"basic".to_vec(),
        vec![1000],
        Vec::new(),
        Vec::new(),
    );
    assert!(matches!(bad_high, Err(Error::InvalidStatusCode)));
}

#[test]
fn test_invalid_method_is_refused() {
    let bad = HTTPProto::new(
        b"".to_vec(),
        b"http://example.test/".to_vec(),
        Vec::new(),
        b"form".to_vec(),
        vec![200],
        Vec::new(),
        Vec::new(),
    );
    assert!(matches!(bad, Err(Error::InvalidMethod)));
    let bad_space = HTTPProto::new(
        b"GE T".to_vec(),
        b"http://example.test/".to_vec(),
        Vec::new(),
        b"form".to_vec(),
        vec![200],
        Vec::new(),
        Vec::new(),
    );
    assert!(matches!(bad_space, Err(Error::InvalidMethod)));
}

#[test]
fn test_invalid_header_is_refused() {
    let bad_name = HTTPProto::new(
        b"GET".to_vec(),
        b"http://example.test/".to_vec(),
        vec![(b"bad name".to_vec(), b"v".to_vec())],
        b"form".to_vec(),
        vec![200],
        Vec::new(),
        Vec::new(),
    );
    assert!(matches!(bad_name, Err(Error::InvalidHeaderName)));
    let bad_value = HTTPProto::new(
        b"GET".to_vec(),
        b"http://example.test/".to_vec(),
        vec![(b"ok-name".to_vec(), b"bad\x01value".to_vec())],
        b"form".to_vec(),
        vec![200],
        Vec::new(),
        Vec::new(),
    );
    assert!(matches!(bad_value, Err(Error::InvalidHeaderValue)));
}

#[test]
fn test_prepare_auth_form_and_basic() {
    let creds = Credential { username: b"alice".to_vec(), password: b"secret".to_vec() };
    let form = target();
    match form.prepare_auth(&creds) {
        Ok(AuthScheme::Form(u, p)) => {
            assert_eq!(u, b"alice".to_vec());
            assert_eq!(p, b"secret".to_vec());
        },
        other => panic!("expected a form scheme, got {:?}", other.is_ok()),
    }
    let mut basic = target();
    basic.auth_type = b"basic".to_vec();
    match basic.prepare_auth(&creds) {
        Ok(AuthScheme::Basic(u, p)) => {
            assert_eq!(u, b"alice".to_vec());
            assert_eq!(p, b"secret".to_vec());
        },
        other => panic!("expected a basic scheme, got {:?}", other.is_ok()),
    }
}

#[test]
fn test_prepare_auth_unknown_mode_is_refused() {
    let creds = Credential { username: b"a".to_vec(), password: b"b".to_vec() };
    let mut p = target();
    p.auth_type = b"digest".to_vec();
    assert!(matches!(p.prepare_auth(&creds), Err(Error::UnsupportedAuthType)));
}
