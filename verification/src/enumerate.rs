use vstd::prelude::*;

use crate::bytes::copy_bytes;
use crate::creds::Credential;
use crate::errors::Error;
use crate::source::CredentialSource;
use vstd::arithmetic::div_mod::{
    lemma_fundamental_div_mod_converse, lemma_mod_division_less_than_divisor,
    lemma_multiply_divide_lt,
};

verus! {

/// The pair at index `i` of the cross product: `(U[i / k], P[i mod k])`
/// where `k` is the password count — the inner loop runs over passwords.
pub open spec fn pair_at(
    unames: Seq<Seq<u8>>,
    pwords: Seq<Seq<u8>>,
    i: int,
) -> (Seq<u8>, Seq<u8>) {
    (unames[i / pwords.len() as int], pwords[i % pwords.len() as int])
}

/// The full cross product, in emission order.
pub open spec fn pairs_of(unames: Seq<Seq<u8>>, pwords: Seq<Seq<u8>>) -> Seq<(Seq<u8>, Seq<u8>)> {
    Seq::new(unames.len() * pwords.len(), |i: int| pair_at(unames, pwords, i))
}

/// A lazy cross-product of two credential sources: every username paired
/// with every password, the passwords cycling fully for each username, in
/// source order. Each emitted pair carries its zero-based index.
pub struct CredentialEnumerator {
    usernames: CredentialSource,
    passwords: CredentialSource,
    template: CredentialSource,
    current: Option<Vec<u8>>,
    idx: usize,
}

impl CredentialEnumerator {
    /// The usernames, in source order.
    pub closed spec fn unames(&self) -> Seq<Seq<u8>> {
        self.usernames.items()
    }

    /// The passwords, in source order.
    pub closed spec fn pwords(&self) -> Seq<Seq<u8>> {
        self.template.items()
    }

    /// Total number of pairs the enumerator will emit.
    pub open spec fn total(&self) -> nat {
        self.unames().len() * self.pwords().len()
    }

    /// How many pairs have been emitted so far.
    pub closed spec fn pos(&self) -> nat {
        self.idx as nat
    }

    /// The pairs in emission order.
    pub open spec fn pairs(&self) -> Seq<(Seq<u8>, Seq<u8>)> {
        pairs_of(self.unames(), self.pwords())
    }

    pub closed spec fn wf(&self) -> bool {
        let m = self.usernames.items().len();
        let k = self.template.items().len();
        &&& self.usernames.wf()
        &&& self.passwords.wf()
        &&& self.template.wf()
        &&& self.template.pos() == 0
        &&& self.passwords.items() == self.template.items()
        &&& m * k <= usize::MAX
        &&& match self.current {
            Some(u) => {
                &&& 1 <= self.usernames.pos() <= m
                &&& u@ == self.usernames.items()[self.usernames.pos() - 1]
                &&& self.passwords.pos() <= k
                &&& self.idx == (self.usernames.pos() - 1) * k + self.passwords.pos()
            },
            None => {
                &&& self.idx == self.usernames.pos() * k
                &&& self.passwords.pos() == 0
            },
        }
    }

    /// Combine two fresh sources, refusing workloads beyond the machine's
    /// address range.
    pub fn new(usernames: CredentialSource, passwords: CredentialSource) -> (r: Result<
        Self,
        Error,
    >)
        requires
            usernames.wf(),
            passwords.wf(),
            usernames.pos() == 0,
            passwords.pos() == 0,
        ensures
            match r {
                Ok(e) => {
                    &&& e.wf()
                    &&& e.pos() == 0
                    &&& e.unames() == usernames.items()
                    &&& e.pwords() == passwords.items()
                },
                Err(err) => {
                    &&& err == Error::WorkloadOverflow
                    &&& usernames.items().len() * passwords.items().len() > usize::MAX
                },
            },
    {
        let m = usernames.count();
        let k = passwords.count();
        match m.checked_mul(k) {
            None => Err(Error::WorkloadOverflow),
            Some(_) => {
                let template = passwords.restarted();
                Ok(
                    CredentialEnumerator {
                        usernames,
                        passwords,
                        template,
                        current: None,
                        idx: 0,
                    },
                )
            },
        }
    }

    /// Total number of pairs, by closed form rather than re-enumeration.
    pub fn workload(&self) -> (n: usize)
        requires
            self.wf(),
        ensures
            n == self.total(),
    {
        let m = self.usernames.count();
        let k = self.template.count();
        m * k
    }

    /// The cursor never passes the total.
    pub proof fn lemma_pos_le_total(&self)
        requires
            self.wf(),
        ensures
            self.pos() <= self.total(),
    {
        let m = self.usernames.items().len();
        let k = self.template.items().len();
        self.usernames.lemma_pos_le_len();
        match self.current {
            Some(_) => {
                assert(self.idx <= m * k) by (nonlinear_arith)
                    requires
                        self.idx == (self.usernames.pos() - 1) * k + self.passwords.pos(),
                        1 <= self.usernames.pos() <= m,
                        self.passwords.pos() <= k,
                ;
            },
            None => {
                assert(self.usernames.pos() * k <= m * k) by (nonlinear_arith)
                    requires
                        self.usernames.pos() <= m,
                        k >= 0,
                ;
            },
        }
    }

    /// The next indexed pair, advancing the shared cursor.
    pub fn next(&mut self) -> (r: Option<(usize, Credential)>)
        requires
            old(self).wf(),
        ensures
            final(self).wf(),
            final(self).unames() == old(self).unames(),
            final(self).pwords() == old(self).pwords(),
            match r {
                Some(p) => {
                    &&& old(self).pos() < old(self).total()
                    &&& p.0 == old(self).pos()
                    &&& (p.1.username@, p.1.password@) == pair_at(
                        old(self).unames(),
                        old(self).pwords(),
                        p.0 as int,
                    )
                    &&& final(self).pos() == old(self).pos() + 1
                },
                None => {
                    &&& old(self).pos() == old(self).total()
                    &&& final(self).pos() == old(self).pos()
                },
            },
    {
        let ghost s0 = *self;
        loop
            invariant
                s0 == *old(self),
                self.wf(),
                s0.wf(),
                self.unames() == s0.unames(),
                self.pwords() == s0.pwords(),
                self.pos() == s0.pos(),
            decreases
                self.unames().len() - self.usernames.pos(),
                (if self.current is Some {
                    1int
                } else {
                    0int
                }),
        {
            let ghost m = self.unames().len();
            let ghost k = self.pwords().len();
            if self.current.is_none() {
                match self.usernames.next() {
                    None => {
                        return None;
                    },
                    Some(u) => {
                        self.current = Some(u);
                    },
                }
            }
            let ghost upos = self.usernames.pos();
            let ghost ppos = self.passwords.pos();
            match self.passwords.next() {
                Some(p) => {
                    let i = self.idx;
                    proof {
                        assert(i + 1 <= m * k) by (nonlinear_arith)
                            requires
                                i == (upos - 1) * k + ppos,
                                1 <= upos <= m,
                                ppos < k,
                                m * k <= usize::MAX,
                        ;
                        lemma_fundamental_div_mod_converse(
                            i as int,
                            k as int,
                            upos - 1,
                            ppos as int,
                        );
                    }
                    self.idx = self.idx + 1;
                    let u: Vec<u8> = match &self.current {
                        Some(cu) => copy_bytes(cu),
                        None => vstd::pervasive::unreached(),
                    };
                    return Some((i, Credential { username: u, password: p }));
                },
                None => {
                    proof {
                        assert((upos - 1) * k + k == upos * k) by (nonlinear_arith);
                    }
                    self.current = None;
                    self.passwords = self.template.restarted();
                },
            }
        }
    }
}

/// Law: the enumerator advertises exactly `m * k` pairs for sources of
/// sizes `m` and `k`.
pub proof fn lemma_enumerator_count(unames: Seq<Seq<u8>>, pwords: Seq<Seq<u8>>)
    ensures
        pairs_of(unames, pwords).len() == unames.len() * pwords.len(),
{
}

/// Law: each pair is yielded exactly once. Over sources with pairwise
/// distinct entries, distinct indices give distinct pairs.
pub proof fn lemma_enumerator_unique(
    unames: Seq<Seq<u8>>,
    pwords: Seq<Seq<u8>>,
    i: int,
    j: int,
)
    requires
        forall|p: int, q: int| 0 <= p < q < unames.len() ==> unames[p] != unames[q],
        forall|p: int, q: int| 0 <= p < q < pwords.len() ==> pwords[p] != pwords[q],
        0 <= i < pairs_of(unames, pwords).len(),
        0 <= j < pairs_of(unames, pwords).len(),
        i != j,
    ensures
        pairs_of(unames, pwords)[i] != pairs_of(unames, pwords)[j],
{
    let m = unames.len() as int;
    let k = pwords.len() as int;
    assert(k > 0 && m > 0) by (nonlinear_arith)
        requires
            0 <= i < m * k,
            m >= 0,
            k >= 0,
    ;
    if pairs_of(unames, pwords)[i] == pairs_of(unames, pwords)[j] {
        lemma_mod_division_less_than_divisor(i, k);
        lemma_mod_division_less_than_divisor(j, k);
        assert(i < k * m && j < k * m) by (nonlinear_arith)
            requires
                i < m * k,
                j < m * k,
        ;
        lemma_multiply_divide_lt(i, k, m);
        lemma_multiply_divide_lt(j, k, m);
        assert(unames[i / k] == unames[j / k]);
        assert(i / k == j / k) by {
            if i / k < j / k {
                assert(unames[i / k] != unames[j / k]);
            }
            if j / k < i / k {
                assert(unames[j / k] != unames[i / k]);
            }
        }
        assert(i % k == j % k) by {
            if i % k < j % k {
                assert(pwords[i % k] != pwords[j % k]);
            }
            if j % k < i % k {
                assert(pwords[j % k] != pwords[i % k]);
            }
        }
        vstd::arithmetic::div_mod::lemma_fundamental_div_mod(i, k);
        vstd::arithmetic::div_mod::lemma_fundamental_div_mod(j, k);
        assert(false);
    }
}

/// Law: the inner loop runs over the passwords. After pair `i`, if the
/// password list is not yet exhausted the username stays and the next
/// password follows; at a cycle boundary the next username starts over at
/// the first password.
pub proof fn lemma_enumerator_order(unames: Seq<Seq<u8>>, pwords: Seq<Seq<u8>>, i: int)
    requires
        0 <= i,
        i + 1 < pairs_of(unames, pwords).len(),
    ensures
        (i % pwords.len() as int) < pwords.len() - 1 ==> {
            &&& pairs_of(unames, pwords)[i + 1].0 == pairs_of(unames, pwords)[i].0
            &&& pairs_of(unames, pwords)[i + 1].1 == pwords[i % pwords.len() as int + 1]
        },
        i % pwords.len() as int == pwords.len() - 1 ==> {
            &&& pairs_of(unames, pwords)[i + 1].0 == unames[i / pwords.len() as int + 1]
            &&& pairs_of(unames, pwords)[i + 1].1 == pwords[0]
        },
{
    let k = pwords.len() as int;
    let m = unames.len() as int;
    assert(k > 0) by (nonlinear_arith)
        requires
            0 <= i,
            i + 1 < m * k,
            m >= 0,
            k >= 0,
    ;
    lemma_mod_division_less_than_divisor(i, k);
    let q = i / k;
    let r = i % k;
    vstd::arithmetic::div_mod::lemma_fundamental_div_mod(i, k);
    if r < k - 1 {
        lemma_fundamental_div_mod_converse(i + 1, k, q, r + 1);
    } else {
        assert(i + 1 == (q + 1) * k + 0) by (nonlinear_arith)
            requires
                i == q * k + r,
                r == k - 1,
        ;
        lemma_fundamental_div_mod_converse(i + 1, k, q + 1, 0);
    }
}

} // verus!
