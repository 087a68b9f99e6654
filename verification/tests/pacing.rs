use imbrut::creds::Credential;
use imbrut::enumerate::CredentialEnumerator;
use imbrut::errors::Error;
use imbrut::proto::{DynProto, Outcome, Proto};
use imbrut::source::{CredentialSource, FileWithStrings};
use imbrut::strategy::{RunStep, Strategy, Verdict};
use imbrut::ui::UIApplication;
use std::cell::Cell;
use std::rc::Rc;

struct TableProto {
    usernames: Vec<u8>,
    passwords: Vec<u8>,
    accepted: Vec<(Vec<u8>, Vec<u8>)>,
}

impl Proto for TableProto {
    fn check(&self, creds: &Credential) -> Outcome {
        let key = (creds.username.clone(), creds.password.clone());
        if self.accepted.contains(&key) {
            Outcome::Accepted
        } else {
            Outcome::Rejected
        }
    }

    fn get_credentials(&self) -> CredentialEnumerator {
        let u = CredentialSource::File(FileWithStrings::new(&self.usernames));
        let p = CredentialSource::File(FileWithStrings::new(&self.passwords));
        CredentialEnumerator::new(u, p).unwrap()
    }

    fn get_workload(&self) -> usize {
        self.get_credentials().workload()
    }
}

struct CountingUi {
    checks: Rc<Cell<usize>>,
    completions: Rc<Cell<usize>>,
}

impl UIApplication for CountingUi {
    fn run(&self) {}

    fn advanced(&mut self, _creds: &Credential) {
        self.checks.set(self.checks.get() + 1);
    }

    fn finished(&mut self, _matched: Option<&Credential>) {
        self.completions.set(self.completions.get() + 1);
    }
}

fn drive<P: Proto>(s: &mut Strategy<P, CountingUi>) -> (Verdict, Vec<u64>) {
    let mut pauses: Vec<u64> = Vec::new();
    loop {
        match s.run() {
            RunStep::Pause(d) => pauses.push(d),
            RunStep::Finished(v) => return (v, pauses),
        }
    }
}

#[test]
fn test_pacing_sleep_after_every_three_checks() {
    let proto = TableProto {
        usernames: b"u".to_vec(),
        passwords: b"p0\np1\np2\np3\np4\np5\np6\np7\np8\np9".to_vec(),
        accepted: Vec::new(),
    };
    let checks = Rc::new(Cell::new(0));
    let completions = Rc::new(Cell::new(0));
    let mut s: Strategy<TableProto, CountingUi> = Strategy::new(proto);
    s.set_strategy(&vec![(b"requests".to_vec(), 3u64), (b"sleep".to_vec(), 100u64)])
        .unwrap();
    s.set_ui(CountingUi { checks: checks.clone(), completions: completions.clone() });
    let (verdict, pauses) = drive(&mut s);
    assert!(matches!(verdict, Verdict::Exhausted));
    // one pause of 100 ms after every three checks; the last partial batch
    // just runs out
    assert_eq!(pauses, vec![100, 100, 100]);
    assert_eq!(checks.get(), 10);
    assert_eq!(completions.get(), 1);
}

#[test]
fn test_match_stops_after_second_check() {
    let proto = TableProto {
        usernames: b"alice".to_vec(),
        passwords: b"wrong\nright".to_vec(),
        accepted: vec![(b"alice".to_vec(), b"right".to_vec())],
    };
    assert_eq!(proto.get_workload(), 2);
    let checks = Rc::new(Cell::new(0));
    let completions = Rc::new(Cell::new(0));
    let mut s: Strategy<TableProto, CountingUi> = Strategy::new(proto);
    s.set_ui(CountingUi { checks: checks.clone(), completions: completions.clone() });
    let (verdict, pauses) = drive(&mut s);
    match verdict {
        Verdict::Match(c) => {
            assert_eq!(c.username, b"alice".to_vec());
            assert_eq!(c.password, b"right".to_vec());
        },
        Verdict::Exhausted => panic!("expected a match"),
    }
    assert!(pauses.is_empty());
    assert_eq!(checks.get(), 2);
}

#[test]
fn test_exhausted_after_five_checks() {
    let proto = TableProto {
        usernames: b"alice".to_vec(),
        passwords: b"w1\nw2\nw3\nw4\nw5".to_vec(),
        accepted: Vec::new(),
    };
    let checks = Rc::new(Cell::new(0));
    let completions = Rc::new(Cell::new(0));
    let mut s: Strategy<TableProto, CountingUi> = Strategy::new(proto);
    s.set_ui(CountingUi { checks: checks.clone(), completions: completions.clone() });
    let (verdict, _) = drive(&mut s);
    assert!(matches!(verdict, Verdict::Exhausted));
    assert_eq!(checks.get(), 5);
}

#[test]
fn test_match_within_paced_batches() {
    let proto = TableProto {
        usernames: b"alice".to_vec(),
        passwords: b"w1\nw2\nw3\nright\nw5".to_vec(),
        accepted: vec![(b"alice".to_vec(), b"right".to_vec())],
    };
    let checks = Rc::new(Cell::new(0));
    let completions = Rc::new(Cell::new(0));
    let mut s: Strategy<TableProto, CountingUi> = Strategy::new(proto);
    s.set_strategy(&vec![(b"requests".to_vec(), 2u64), (b"sleep".to_vec(), 10u64)])
        .unwrap();
    s.set_ui(CountingUi { checks: checks.clone(), completions: completions.clone() });
    let (verdict, pauses) = drive(&mut s);
    assert!(matches!(verdict, Verdict::Match(_)));
    assert_eq!(pauses, vec![10]);
    assert_eq!(checks.get(), 4);
}

#[test]
fn test_dyn_proto_drives_like_the_wrapped_protocol() {
    let erased = DynProto {
        proto: TableProto {
            usernames: b"bob".to_vec(),
            passwords: b"one\ntwo".to_vec(),
            accepted: vec![(b"bob".to_vec(), b"two".to_vec())],
        },
    };
    assert_eq!(erased.get_workload(), 2);
    let checks = Rc::new(Cell::new(0));
    let completions = Rc::new(Cell::new(0));
    let mut s: Strategy<DynProto<TableProto>, CountingUi> = Strategy::new(erased);
    s.set_ui(CountingUi { checks: checks.clone(), completions: completions.clone() });
    let (verdict, _) = drive(&mut s);
    match verdict {
        Verdict::Match(c) => {
            assert_eq!(c.username, b"bob".to_vec());
            assert_eq!(c.password, b"two".to_vec());
        },
        Verdict::Exhausted => panic!("expected a match"),
    }
    assert_eq!(checks.get(), 2);
}

#[test]
fn test_strategy_rejects_unknown_key() {
    let proto = TableProto {
        usernames: b"u".to_vec(),
        passwords: b"p".to_vec(),
        accepted: Vec::new(),
    };
    let mut s: Strategy<TableProto, CountingUi> = Strategy::new(proto);
    let r = s.set_strategy(&vec![(b"burst".to_vec(), 3u64)]);
    assert!(matches!(r, Err(Error::UnsupportedStrategyKey)));
}

#[test]
fn test_strategy_rejects_zero_batch() {
    let proto = TableProto {
        usernames: b"u".to_vec(),
        passwords: b"p".to_vec(),
        accepted: Vec::new(),
    };
    let mut s: Strategy<TableProto, CountingUi> = Strategy::new(proto);
    let r = s.set_strategy(&vec![(b"requests".to_vec(), 0u64)]);
    assert!(matches!(r, Err(Error::EmptyBatch)));
}
