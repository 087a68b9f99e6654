use imbrut::enumerate::CredentialEnumerator;
use imbrut::errors::Error;
use imbrut::source::{CredentialSource, FileWithStrings, StringsGenerator};

fn file_source(content: &[u8]) -> CredentialSource {
    CredentialSource::File(FileWithStrings::new(&content.to_vec()))
}

#[test]
fn test_enumerator_cross_product_order() {
    let users = file_source(b"a\nb");
    let passwords = file_source(b"x\ny\nz");
    let mut e = CredentialEnumerator::new(users, passwords).unwrap();
    assert_eq!(e.workload(), 6);
    let mut seen: Vec<(usize, Vec<u8>, Vec<u8>)> = Vec::new();
    while let Some((i, c)) = e.next() {
        seen.push((i, c.username, c.password));
    }
    let expected: Vec<(usize, Vec<u8>, Vec<u8>)> = vec![
        (0, b"a".to_vec(), b"x".to_vec()),
        (1, b"a".to_vec(), b"y".to_vec()),
        (2, b"a".to_vec(), b"z".to_vec()),
        (3, b"b".to_vec(), b"x".to_vec()),
        (4, b"b".to_vec(), b"y".to_vec()),
        (5, b"b".to_vec(), b"z".to_vec()),
    ];
    assert_eq!(seen, expected);
}

#[test]
fn test_enumerator_empty_passwords() {
    let users = file_source(b"a\nb");
    let passwords = file_source(b"");
    let mut e = CredentialEnumerator::new(users, passwords).unwrap();
    assert_eq!(e.workload(), 0);
    assert!(e.next().is_none());
}

#[test]
fn test_enumerator_with_generator_passwords() {
    let users = file_source(b"root");
    let allowed = vec![b"01".to_vec()];
    let passwords = CredentialSource::Generator(StringsGenerator::new(&allowed, 2).unwrap());
    let mut e = CredentialEnumerator::new(users, passwords).unwrap();
    assert_eq!(e.workload(), 4);
    let mut seen: Vec<Vec<u8>> = Vec::new();
    while let Some((_, c)) = e.next() {
        assert_eq!(c.username, b"root".to_vec());
        seen.push(c.password);
    }
    assert_eq!(
        seen,
        vec![b"00".to_vec(), b"01".to_vec(), b"10".to_vec(), b"11".to_vec()]
    );
}

#[test]
fn test_enumerator_workload_overflow_is_refused() {
    let allowed = vec![b"ab".to_vec()];
    let users = CredentialSource::Generator(StringsGenerator::new(&allowed, 62).unwrap());
    let passwords = CredentialSource::Generator(StringsGenerator::new(&allowed, 62).unwrap());
    let r = CredentialEnumerator::new(users, passwords);
    assert!(matches!(r, Err(Error::WorkloadOverflow)));
}
