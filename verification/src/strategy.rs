use vstd::prelude::*;

use crate::bytes::bytes_eq;
use crate::creds::Credential;
use crate::enumerate::{pair_at, CredentialEnumerator};
use crate::errors::Error;
use crate::proto::{Outcome, Proto};
use crate::ui::UIApplication;
use vstd::arithmetic::div_mod::{
    lemma_fundamental_div_mod, lemma_fundamental_div_mod_converse, lemma_mod_add_multiples_vanish,
    lemma_mod_division_less_than_divisor, lemma_small_mod,
};

verus! {

/// One step of a pacing plan.
#[derive(Clone, Copy, Debug, PartialEq, Eq, Structural)]
pub enum PacingStep {
    /// Check up to this many credentials, then move on in the cycle.
    Requests(u64),
    /// Pause for this many milliseconds.
    Sleep(u64),
}

/// How a run ends: with the first accepted pair, or with nothing left.
#[derive(Debug)]
pub enum Verdict {
    Match(Credential),
    Exhausted,
}

/// What the driver should do next: pause for the given number of
/// milliseconds and call `run` again, or stop with the verdict.
#[derive(Debug)]
pub enum RunStep {
    Pause(u64),
    Finished(Verdict),
}

/// The bytes of the plan keyword `requests`.
pub open spec fn requests_keyword() -> Seq<u8> {
    seq![114u8, 101u8, 113u8, 117u8, 101u8, 115u8, 116u8, 115u8]
}

/// The bytes of the plan keyword `sleep`.
pub open spec fn sleep_keyword() -> Seq<u8> {
    seq![115u8, 108u8, 101u8, 101u8, 112u8]
}

fn requests_bytes() -> (r: Vec<u8>)
    ensures
        r@ == requests_keyword(),
{
    let mut v: Vec<u8> = Vec::new();
    v.push(114u8);
    v.push(101u8);
    v.push(113u8);
    v.push(117u8);
    v.push(101u8);
    v.push(115u8);
    v.push(116u8);
    v.push(115u8);
    proof {
        assert(v@ =~= requests_keyword());
    }
    v
}

fn sleep_bytes() -> (r: Vec<u8>)
    ensures
        r@ == sleep_keyword(),
{
    let mut v: Vec<u8> = Vec::new();
    v.push(115u8);
    v.push(108u8);
    v.push(101u8);
    v.push(101u8);
    v.push(112u8);
    proof {
        assert(v@ =~= sleep_keyword());
    }
    v
}

/// The parse of one raw plan entry: `requests` with a positive batch
/// size, or `sleep` with a pause in milliseconds.
pub open spec fn step_of(kv: (Seq<u8>, u64)) -> Result<PacingStep, Error> {
    if kv.0 == requests_keyword() {
        if kv.1 == 0 {
            Err(Error::EmptyBatch)
        } else {
            Ok(PacingStep::Requests(kv.1))
        }
    } else if kv.0 == sleep_keyword() {
        Ok(PacingStep::Sleep(kv.1))
    } else {
        Err(Error::UnsupportedStrategyKey)
    }
}

/// The view of one raw plan entry.
pub open spec fn raw_entry(raw: Seq<(Vec<u8>, u64)>, i: int) -> (Seq<u8>, u64) {
    (raw[i].0@, raw[i].1)
}

/// Index `i` wrapped into a cyclic plan of length `len`.
pub open spec fn cyc(i: int, len: int) -> int {
    i % len
}

/// Sum of the batch sizes of the `t` plan steps starting at `start`,
/// cyclically; meaningful when those steps are all `Requests` steps.
pub open spec fn batch_span(plan: Seq<PacingStep>, start: int, t: int) -> int
    decreases t,
{
    if t <= 0 {
        0
    } else {
        batch_span(plan, start, t - 1) + (match plan[cyc(start + t - 1, plan.len() as int)] {
            PacingStep::Requests(n) => n as int,
            PacingStep::Sleep(_) => 0int,
        })
    }
}

proof fn lemma_cyc_step(i: int, m: int)
    requires
        m > 0,
        0 <= i,
    ensures
        cyc(i + 1, m) == if cyc(i, m) + 1 == m {
            0int
        } else {
            cyc(i, m) + 1
        },
{
    lemma_mod_division_less_than_divisor(i, m);
    lemma_fundamental_div_mod(i, m);
    if i % m + 1 == m {
        assert(i + 1 == m * (i / m + 1) + 0) by (nonlinear_arith)
            requires
                i == m * (i / m) + i % m,
                i % m + 1 == m,
        ;
        lemma_fundamental_div_mod_converse(i + 1, m, i / m + 1, 0);
    } else {
        lemma_fundamental_div_mod_converse(i + 1, m, i / m, i % m + 1);
    }
}

/// Whether protocol `p` accepts pair `i` of the cross product of
/// `unames` and `pwords`.
pub open spec fn accepts_pair<P: Proto>(
    p: P,
    unames: Seq<Seq<u8>>,
    pwords: Seq<Seq<u8>>,
    i: int,
) -> bool {
    p.accepts(pair_at(unames, pwords, i).0, pair_at(unames, pwords, i).1)
}

/// No pair with an index in `[a, b)` is accepted by `p`.
pub open spec fn no_hit_in<P: Proto>(
    p: P,
    unames: Seq<Seq<u8>>,
    pwords: Seq<Seq<u8>>,
    a: int,
    b: int,
) -> bool {
    forall|i: int| a <= i < b ==> !(#[trigger] accepts_pair(p, unames, pwords, i))
}

/// Law: rejected prefixes accumulate across paced `run` calls. A pause
/// hands the guarantee that everything checked so far was rejected on to
/// the next call, so a later match is still the first acceptable pair of
/// the whole stream.
pub proof fn lemma_no_hit_join<P: Proto>(
    p: P,
    unames: Seq<Seq<u8>>,
    pwords: Seq<Seq<u8>>,
    a: int,
    b: int,
    c: int,
)
    requires
        no_hit_in(p, unames, pwords, a, b),
        no_hit_in(p, unames, pwords, b, c),
    ensures
        no_hit_in(p, unames, pwords, a, c),
{
}

/// The pacing engine: it drives the shared credential stream through a
/// cyclic plan of check batches and pauses, stopping at the first
/// accepted pair or when the stream runs out. An empty plan means one
/// long drain with no pacing.
pub struct Strategy<P: Proto, U: UIApplication> {
    proto: P,
    credentials: CredentialEnumerator,
    plan: Vec<PacingStep>,
    plan_idx: usize,
    ui: Option<U>,
}

impl<P: Proto, U: UIApplication> Strategy<P, U> {
    /// The protocol being driven.
    pub closed spec fn proto_model(&self) -> P {
        self.proto
    }

    /// The installed pacing plan.
    pub closed spec fn plan_model(&self) -> Seq<PacingStep> {
        self.plan@
    }

    /// The cycle position: the plan step to visit next.
    pub closed spec fn plan_pos(&self) -> nat {
        self.plan_idx as nat
    }

    /// How many pairs have been checked so far.
    pub closed spec fn pos(&self) -> nat {
        self.credentials.pos()
    }

    /// The username list the stream draws from.
    pub closed spec fn unames(&self) -> Seq<Seq<u8>> {
        self.credentials.unames()
    }

    /// The password list the stream draws from.
    pub closed spec fn pwords(&self) -> Seq<Seq<u8>> {
        self.credentials.pwords()
    }

    /// The attached presentation callbacks, if any.
    pub closed spec fn ui_model(&self) -> Option<U> {
        self.ui
    }

    /// Total number of pairs in the stream.
    pub open spec fn total(&self) -> nat {
        self.unames().len() * self.pwords().len()
    }

    /// Whether the endpoint accepts pair `i` of the stream.
    pub open spec fn accepts_at(&self, i: int) -> bool {
        accepts_pair(self.proto_model(), self.unames(), self.pwords(), i)
    }

    /// No pair with an index in `[a, b)` is accepted.
    pub open spec fn no_hit(&self, a: int, b: int) -> bool {
        no_hit_in(self.proto_model(), self.unames(), self.pwords(), a, b)
    }

    pub closed spec fn wf(&self) -> bool {
        &&& self.credentials.wf()
        &&& self.credentials.unames() == self.proto.usernames_model()
        &&& self.credentials.pwords() == self.proto.passwords_model()
        &&& (self.plan@.len() == 0 ==> self.plan_idx == 0)
        &&& (self.plan@.len() > 0 ==> self.plan_idx < self.plan@.len())
        &&& forall|i: int|
            0 <= i < self.plan@.len() ==> ((#[trigger] self.plan@[i]) matches PacingStep::Requests(
                n,
            ) ==> n >= 1)
    }

    /// How one `run` call comes to pause: the `t` plan steps from the
    /// cycle position were all full check batches, and step `t` is the
    /// sleep whose duration is reported; the cursor moved by the batch
    /// sizes and the cycle position stands just past the sleep.
    pub open spec fn paused_to(&self, post_pos: nat, post_plan_pos: nat, d: u64, t: int) -> bool {
        let len = self.plan_model().len() as int;
        let start = self.plan_pos() as int;
        &&& 0 <= t < len
        &&& self.plan_model()[cyc(start + t, len)] == PacingStep::Sleep(d)
        &&& forall|q: int|
            0 <= q < t ==> (#[trigger] self.plan_model()[cyc(start + q, len)]) is Requests
        &&& post_pos == self.pos() + batch_span(self.plan_model(), start, t)
        &&& post_plan_pos == cyc(start + t + 1, len)
    }

    /// How one `run` call comes to pause, for some number of traversed
    /// plan steps.
    pub open spec fn pause_ok(&self, post_pos: nat, post_plan_pos: nat, d: u64) -> bool {
        exists|t: int| self.paused_to(post_pos, post_plan_pos, d, t)
    }

    /// Start a strategy over the protocol's full credential stream, with
    /// the empty plan: drain everything, one check after another.
    pub fn new(proto: P) -> (r: Self)
        ensures
            r.wf(),
            r.proto_model() == proto,
            r.pos() == 0,
            r.plan_model() == Seq::<PacingStep>::empty(),
            r.plan_pos() == 0,
            r.unames() == proto.usernames_model(),
            r.pwords() == proto.passwords_model(),
            r.ui_model() is None,
    {
        let credentials = proto.get_credentials();
        let r = Strategy { proto, credentials, plan: Vec::new(), plan_idx: 0, ui: None };
        proof {
            assert(r.plan_model() =~= Seq::<PacingStep>::empty());
        }
        r
    }

    /// Attach presentation callbacks.
    pub fn set_ui(&mut self, ui: U)
        requires
            old(self).wf(),
        ensures
            final(self).wf(),
            final(self).ui_model() == Some(ui),
            final(self).proto_model() == old(self).proto_model(),
            final(self).plan_model() == old(self).plan_model(),
            final(self).plan_pos() == old(self).plan_pos(),
            final(self).pos() == old(self).pos(),
            final(self).unames() == old(self).unames(),
            final(self).pwords() == old(self).pwords(),
    {
        self.ui = Some(ui);
    }

    /// Install the pacing plan from raw `(kind, value)` entries. Each
    /// entry must be `requests` with a positive batch size or `sleep`
    /// with a pause in milliseconds; the first bad entry is reported and
    /// leaves the plan unchanged. An empty list installs the empty plan.
    #[verifier::loop_isolation(false)]
    pub fn set_strategy(&mut self, raw_strategy: &Vec<(Vec<u8>, u64)>) -> (r: Result<(), Error>)
        requires
            old(self).wf(),
        ensures
            final(self).wf(),
            final(self).proto_model() == old(self).proto_model(),
            final(self).pos() == old(self).pos(),
            final(self).unames() == old(self).unames(),
            final(self).pwords() == old(self).pwords(),
            final(self).ui_model() == old(self).ui_model(),
            match r {
                Ok(()) => {
                    &&& final(self).plan_model().len() == raw_strategy@.len()
                    &&& forall|i: int|
                        0 <= i < raw_strategy@.len() ==> Ok::<PacingStep, Error>(
                            #[trigger] final(self).plan_model()[i],
                        ) == step_of(raw_entry(raw_strategy@, i))
                    &&& final(self).plan_pos() == 0
                },
                Err(e) => {
                    &&& exists|i: int|
                        0 <= i < raw_strategy@.len() && #[trigger] step_of(
                            raw_entry(raw_strategy@, i),
                        ) == Err::<PacingStep, Error>(e)
                    &&& final(self).plan_model() == old(self).plan_model()
                    &&& final(self).plan_pos() == old(self).plan_pos()
                },
            },
    {
        let req = requests_bytes();
        let slp = sleep_bytes();
        let mut plan: Vec<PacingStep> = Vec::new();
        let mut i: usize = 0;
        while i < raw_strategy.len()
            invariant
                i <= raw_strategy@.len(),
                plan@.len() == i,
                forall|t: int|
                    0 <= t < i ==> Ok::<PacingStep, Error>(#[trigger] plan@[t]) == step_of(
                        raw_entry(raw_strategy@, t),
                    ),
            decreases raw_strategy@.len() - i,
        {
            let entry = &raw_strategy[i];
            if bytes_eq(&entry.0, &req) {
                if entry.1 == 0 {
                    proof {
                        assert(step_of(raw_entry(raw_strategy@, i as int)) == Err::<
                            PacingStep,
                            Error,
                        >(Error::EmptyBatch));
                    }
                    return Err(Error::EmptyBatch);
                }
                plan.push(PacingStep::Requests(entry.1));
            } else if bytes_eq(&entry.0, &slp) {
                plan.push(PacingStep::Sleep(entry.1));
            } else {
                proof {
                    assert(step_of(raw_entry(raw_strategy@, i as int)) == Err::<
                        PacingStep,
                        Error,
                    >(Error::UnsupportedStrategyKey));
                }
                return Err(Error::UnsupportedStrategyKey);
            }
            i = i + 1;
        }
        self.plan = plan;
        self.plan_idx = 0;
        Ok(())
    }

    /// Drive the cycle until it must pause or the run ends; the engine
    /// itself never blocks. The caller performs each `Pause` and calls
    /// `run` again.
    ///
    /// A `Pause(d)` reports the plan's next sleep after full check
    /// batches without a match. `Finished(Match(c))` reports the first
    /// accepted pair past the cursor, with everything before it
    /// rejected; `Finished(Exhausted)` reports that the rest of the
    /// stream was checked and rejected.
    #[verifier::rlimit(60)]
    pub fn run(&mut self) -> (r: RunStep)
        requires
            old(self).wf(),
        ensures
            final(self).wf(),
            final(self).proto_model() == old(self).proto_model(),
            final(self).plan_model() == old(self).plan_model(),
            final(self).unames() == old(self).unames(),
            final(self).pwords() == old(self).pwords(),
            old(self).pos() <= final(self).pos() <= old(self).total(),
            match r {
                RunStep::Pause(d) => {
                    &&& old(self).plan_model().len() > 0
                    &&& final(self).no_hit(old(self).pos() as int, final(self).pos() as int)
                    &&& old(self).pause_ok(final(self).pos(), final(self).plan_pos(), d)
                },
                RunStep::Finished(Verdict::Match(c)) => {
                    &&& old(self).pos() < final(self).pos()
                    &&& (c.username@, c.password@) == pair_at(
                        old(self).unames(),
                        old(self).pwords(),
                        final(self).pos() - 1,
                    )
                    &&& final(self).accepts_at(final(self).pos() - 1)
                    &&& final(self).no_hit(old(self).pos() as int, final(self).pos() - 1)
                },
                RunStep::Finished(Verdict::Exhausted) => {
                    &&& final(self).pos() == final(self).total()
                    &&& final(self).no_hit(old(self).pos() as int, final(self).total() as int)
                },
            },
    {
        let ghost s0 = *self;
        proof {
            self.credentials.lemma_pos_le_total();
        }
        if self.plan.len() == 0 {
            // the empty plan: drain the whole stream
            loop
                invariant
                    s0 == *old(self),
                    self.wf(),
                    s0.wf(),
                    self.proto_model() == s0.proto_model(),
                    self.plan_model() == s0.plan_model(),
                    self.plan_model().len() == 0,
                    self.plan_pos() == 0,
                    self.unames() == s0.unames(),
                    self.pwords() == s0.pwords(),
                    s0.pos() <= self.pos() <= self.total(),
                    no_hit_in(
                        s0.proto_model(),
                        s0.unames(),
                        s0.pwords(),
                        s0.pos() as int,
                        self.pos() as int,
                    ),
                decreases self.total() - self.pos(),
            {
                match self.credentials.next() {
                    None => {
                        match &mut self.ui {
                            Some(u) => u.finished(None),
                            None => {},
                        }
                        return RunStep::Finished(Verdict::Exhausted);
                    },
                    Some((i, c)) => {
                        match &mut self.ui {
                            Some(u) => u.advanced(&c),
                            None => {},
                        }
                        match self.proto.check(&c) {
                            Outcome::Accepted => {
                                match &mut self.ui {
                                    Some(u) => u.finished(Some(&c)),
                                    None => {},
                                }
                                return RunStep::Finished(Verdict::Match(c));
                            },
                            Outcome::Rejected => {
                                proof {
                                    assert(!accepts_pair(
                                        s0.proto_model(),
                                        s0.unames(),
                                        s0.pwords(),
                                        i as int,
                                    ));
                                }
                            },
                        }
                    },
                }
            }
        } else {
            let ghost start = self.plan_idx as int;
            let ghost len = self.plan@.len() as int;
            let ghost c0 = self.pos() as int;
            let ghost mut t: int = 0;
            proof {
                lemma_small_mod(start as nat, len as nat);
            }
            loop
                invariant
                    s0 == *old(self),
                    self.wf(),
                    s0.wf(),
                    self.proto_model() == s0.proto_model(),
                    self.plan_model() == s0.plan_model(),
                    self.unames() == s0.unames(),
                    self.pwords() == s0.pwords(),
                    len == self.plan_model().len() as int,
                    len >= 1,
                    start == s0.plan_pos() as int,
                    c0 == s0.pos() as int,
                    0 <= t,
                    forall|q: int|
                        0 <= q < t ==> (#[trigger] self.plan_model()[cyc(start + q, len)])
                            is Requests,
                    self.plan_pos() as int == cyc(start + t, len),
                    self.pos() as int == c0 + batch_span(self.plan_model(), start, t),
                    c0 <= self.pos() <= self.total(),
                    no_hit_in(s0.proto_model(), s0.unames(), s0.pwords(), c0, self.pos() as int),
                decreases self.total() - self.pos(),
            {
                let plan_len = self.plan.len();
                let step = self.plan[self.plan_idx];
                let next_idx = if self.plan_idx + 1 == plan_len {
                    0
                } else {
                    self.plan_idx + 1
                };
                proof {
                    lemma_cyc_step(start + t, len);
                }
                match step {
                    PacingStep::Sleep(d) => {
                        self.plan_idx = next_idx;
                        proof {
                            // the first sleep lies within one turn of the
                            // cycle: an earlier turn would have paused
                            if t >= len {
                                lemma_mod_add_multiples_vanish(start + t - len, len);
                                assert(self.plan_model()[cyc(start + (t - len), len)]
                                    is Requests);
                                assert(false);
                            }
                            assert(s0.paused_to(self.pos(), self.plan_pos(), d, t));
                            assert(s0.pause_ok(self.pos(), self.plan_pos(), d));
                        }
                        return RunStep::Pause(d);
                    },
                    PacingStep::Requests(n) => {
                        self.plan_idx = next_idx;
                        let ghost pb = self.pos() as int;
                        let mut done: u64 = 0;
                        while done < n
                            invariant
                                s0 == *old(self),
                                self.wf(),
                                s0.wf(),
                                self.proto_model() == s0.proto_model(),
                                self.plan_model() == s0.plan_model(),
                                self.unames() == s0.unames(),
                                self.pwords() == s0.pwords(),
                                len == self.plan_model().len() as int,
                                len >= 1,
                                next_idx < len,
                                self.plan_pos() == next_idx as nat,
                                done <= n,
                                self.pos() as int == pb + done,
                                c0 == s0.pos() as int,
                                c0 <= pb,
                                self.pos() <= self.total(),
                                no_hit_in(
                                    s0.proto_model(),
                                    s0.unames(),
                                    s0.pwords(),
                                    c0,
                                    self.pos() as int,
                                ),
                            decreases n - done,
                        {
                            match self.credentials.next() {
                                None => {
                                    match &mut self.ui {
                                        Some(u) => u.finished(None),
                                        None => {},
                                    }
                                    return RunStep::Finished(Verdict::Exhausted);
                                },
                                Some((i, c)) => {
                                    match &mut self.ui {
                                        Some(u) => u.advanced(&c),
                                        None => {},
                                    }
                                    match self.proto.check(&c) {
                                        Outcome::Accepted => {
                                            match &mut self.ui {
                                                Some(u) => u.finished(Some(&c)),
                                                None => {},
                                            }
                                            return RunStep::Finished(Verdict::Match(c));
                                        },
                                        Outcome::Rejected => {
                                            proof {
                                                assert(!accepts_pair(
                                                    s0.proto_model(),
                                                    s0.unames(),
                                                    s0.pwords(),
                                                    i as int,
                                                ));
                                            }
                                            done = done + 1;
                                        },
                                    }
                                },
                            }
                        }
                        proof {
                            t = t + 1;
                            assert(batch_span(self.plan_model(), start, t) == batch_span(
                                self.plan_model(),
                                start,
                                t - 1,
                            ) + n as int);
                        }
                    },
                }
            }
        }
    }
}

} // verus!
