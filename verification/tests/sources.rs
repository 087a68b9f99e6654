use imbrut::source::{CredentialSource, FileWithStrings, StringsGenerator};
use imbrut::errors::Error;

fn drain_file(mut s: FileWithStrings) -> Vec<Vec<u8>> {
    let mut out: Vec<Vec<u8>> = Vec::new();
    while let Some(item) = s.next() {
        out.push(item);
    }
    out
}

fn drain_gen(mut s: StringsGenerator) -> Vec<Vec<u8>> {
    let mut out: Vec<Vec<u8>> = Vec::new();
    while let Some(item) = s.next() {
        out.push(item);
    }
    out
}

#[test]
fn test_file_with_strings() {
    let content = b"test1\ntest2\ntest3".to_vec();
    let strings = drain_file(FileWithStrings::new(&content));
    assert_eq!(strings, vec![b"test1".to_vec(), b"test2".to_vec(), b"test3".to_vec()]);
}

#[test]
fn test_file_with_strings_trailing_newline_and_crlf() {
    let content = b"alpha\r\nbeta\n".to_vec();
    let strings = drain_file(FileWithStrings::new(&content));
    assert_eq!(strings, vec![b"alpha".to_vec(), b"beta".to_vec()]);
}

#[test]
fn test_file_with_strings_final_bare_cr_kept() {
    let content = b"a\r\nb\r".to_vec();
    let strings = drain_file(FileWithStrings::new(&content));
    assert_eq!(strings, vec![b"a".to_vec(), b"b\r".to_vec()]);
}

#[test]
fn test_file_with_strings_empty_lines_kept() {
    let content = b"a\n\nb".to_vec();
    let strings = drain_file(FileWithStrings::new(&content));
    assert_eq!(strings, vec![b"a".to_vec(), b"".to_vec(), b"b".to_vec()]);
}

#[test]
fn test_file_source_idempotent() {
    let content = b"one\ntwo\nthree\n".to_vec();
    let first = drain_file(FileWithStrings::new(&content));
    let second = drain_file(FileWithStrings::new(&content));
    assert_eq!(first, second);
}

// The generator's policy is the full Cartesian power of the alphabet in
// lexicographic order of alphabet position: |A|^n ordered words, with no
// duplicates and no omissions.
#[test]
fn test_strings_generator() {
    let allowed_chars = vec![b"123".to_vec()];
    let g = StringsGenerator::new(&allowed_chars, 3).unwrap();
    let strings = drain_gen(g);
    let expected: Vec<&[u8]> = vec![
        b"111", b"112", b"113", b"121", b"122", b"123", b"131", b"132", b"133",
        b"211", b"212", b"213", b"221", b"222", b"223", b"231", b"232", b"233",
        b"311", b"312", b"313", b"321", b"322", b"323", b"331", b"332", b"333",
    ];
    let expected: Vec<Vec<u8>> = expected.into_iter().map(|s| s.to_vec()).collect();
    assert_eq!(strings, expected);
}

#[test]
fn test_generator_count_and_order() {
    let allowed_chars = vec![b"ab".to_vec()];
    let g = StringsGenerator::new(&allowed_chars, 2).unwrap();
    assert_eq!(g.count(), 4);
    let strings = drain_gen(g);
    assert_eq!(
        strings,
        vec![b"aa".to_vec(), b"ab".to_vec(), b"ba".to_vec(), b"bb".to_vec()]
    );
}

#[test]
fn test_generator_concatenates_groups() {
    let allowed_chars = vec![b"a".to_vec(), b"b".to_vec()];
    let g = StringsGenerator::new(&allowed_chars, 1).unwrap();
    let strings = drain_gen(g);
    assert_eq!(strings, vec![b"a".to_vec(), b"b".to_vec()]);
}

#[test]
fn test_generator_zero_length_yields_one_empty_word() {
    let allowed_chars = vec![b"xyz".to_vec()];
    let g = StringsGenerator::new(&allowed_chars, 0).unwrap();
    let strings = drain_gen(g);
    assert_eq!(strings, vec![b"".to_vec()]);
}

#[test]
fn test_generator_empty_alphabet_is_empty() {
    let allowed_chars: Vec<Vec<u8>> = Vec::new();
    let g = StringsGenerator::new(&allowed_chars, 4).unwrap();
    assert_eq!(g.count(), 0);
    let strings = drain_gen(g);
    assert!(strings.is_empty());
}

#[test]
fn test_generator_overflow_is_refused() {
    let allowed_chars = vec![b"ab".to_vec()];
    let r = StringsGenerator::new(&allowed_chars, 64);
    assert!(matches!(r, Err(Error::WorkloadOverflow)));
}

#[test]
fn test_generator_deterministic() {
    let allowed_chars = vec![b"pqr".to_vec()];
    let first = drain_gen(StringsGenerator::new(&allowed_chars, 2).unwrap());
    let second = drain_gen(StringsGenerator::new(&allowed_chars, 2).unwrap());
    assert_eq!(first, second);
    assert_eq!(first.len(), 9);
}

#[test]
fn test_source_restarted() {
    let content = b"u1\nu2".to_vec();
    let mut src = CredentialSource::File(FileWithStrings::new(&content));
    assert_eq!(src.next(), Some(b"u1".to_vec()));
    let mut fresh = src.restarted();
    assert_eq!(fresh.next(), Some(b"u1".to_vec()));
    assert_eq!(src.count(), 2);
}
