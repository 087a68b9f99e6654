use vstd::prelude::*;

use crate::bytes::{copy_bytes, views_of};
use crate::errors::Error;
use vstd::arithmetic::div_mod::{
    lemma_div_basics, lemma_div_denominator, lemma_div_pos_is_pos, lemma_fundamental_div_mod,
    lemma_fundamental_div_mod_converse, lemma_mod_division_less_than_divisor,
    lemma_multiply_divide_lt,
};
use vstd::arithmetic::power::{
    lemma0_pow, lemma_pow0, lemma_pow_increases, lemma_pow_positive, pow,
};

verus! {

/// Length of the longest newline-free prefix of `s`.
pub open spec fn first_nl(s: Seq<u8>) -> int
    decreases s.len(),
{
    if s.len() == 0 {
        0
    } else if s[0] == 10u8 {
        0
    } else {
        1 + first_nl(s.drop_first())
    }
}

proof fn lemma_first_nl(s: Seq<u8>)
    ensures
        0 <= first_nl(s) <= s.len(),
        forall|t: int| 0 <= t < first_nl(s) ==> s[t] != 10u8,
        first_nl(s) < s.len() ==> s[first_nl(s)] == 10u8,
    decreases s.len(),
{
    if s.len() == 0 {
    } else if s[0] == 10u8 {
    } else {
        lemma_first_nl(s.drop_first());
        assert forall|t: int| 0 <= t < first_nl(s) implies s[t] != 10u8 by {
            if t > 0 {
                assert(s.drop_first()[t - 1] == s[t]);
            }
        }
        if first_nl(s) < s.len() {
            assert(s.drop_first()[first_nl(s) - 1] == s[first_nl(s)]);
        }
    }
}

proof fn lemma_first_nl_unique(s: Seq<u8>, k: int)
    requires
        0 <= k <= s.len(),
        forall|t: int| 0 <= t < k ==> s[t] != 10u8,
        k < s.len() ==> s[k] == 10u8,
    ensures
        first_nl(s) == k,
    decreases s.len(),
{
    if s.len() == 0 {
    } else if s[0] == 10u8 {
        assert(k == 0);
    } else {
        assert(k >= 1);
        assert forall|t: int| 0 <= t < k - 1 implies s.drop_first()[t] != 10u8 by {
            assert(s.drop_first()[t] == s[t + 1]);
        }
        if k - 1 < s.drop_first().len() {
            assert(s.drop_first()[k - 1] == s[k]);
        }
        lemma_first_nl_unique(s.drop_first(), k - 1);
    }
}

/// A line with one trailing carriage return removed.
pub open spec fn strip_cr(line: Seq<u8>) -> Seq<u8> {
    if line.len() > 0 && line[line.len() - 1] == 13u8 {
        line.drop_last()
    } else {
        line
    }
}

/// The lines of `s`: split at each newline byte, dropping one carriage
/// return before each newline, so CRLF content splits cleanly; a final
/// fragment without a trailing newline is still a line, kept as it is.
pub open spec fn lines_spec(s: Seq<u8>) -> Seq<Seq<u8>>
    decreases s.len() via lines_spec_dec
{
    if s.len() == 0 {
        Seq::empty()
    } else {
        let k = first_nl(s);
        if k == s.len() {
            seq![s]
        } else {
            seq![strip_cr(s.subrange(0, k))] + lines_spec(s.subrange(k + 1, s.len() as int))
        }
    }
}

#[via_fn]
proof fn lines_spec_dec(s: Seq<u8>) {
    lemma_first_nl(s);
}

/// Split file content into its lines.
pub fn split_lines(content: &Vec<u8>) -> (r: Vec<Vec<u8>>)
    ensures
        views_of(r@) == lines_spec(content@),
{
    let n: usize = content.len();
    let mut r: Vec<Vec<u8>> = Vec::new();
    let mut start: usize = 0;
    proof {
        assert(content@.subrange(0, n as int) =~= content@);
        assert(views_of(r@) =~= Seq::<Seq<u8>>::empty());
        assert(views_of(r@) + lines_spec(content@) =~= lines_spec(content@));
    }
    while start < n
        invariant
            start <= n,
            n == content@.len(),
            lines_spec(content@) == views_of(r@) + lines_spec(
                content@.subrange(start as int, n as int),
            ),
        decreases n - start,
    {
        let ghost rem = content@.subrange(start as int, n as int);
        // scan for the next newline
        let mut j: usize = start;
        while j < n && content[j] != 10u8
            invariant
                start <= j <= n,
                n == content@.len(),
                forall|t: int| start <= t < j ==> content@[t] != 10u8,
            decreases n - j,
        {
            j = j + 1;
        }
        proof {
            assert forall|t: int| 0 <= t < j - start implies rem[t] != 10u8 by {
                assert(rem[t] == content@[start + t]);
            }
            if j - start < rem.len() {
                assert(rem[j - start] == content@[j as int]);
            }
            lemma_first_nl_unique(rem, j - start);
        }
        // copy the line, dropping one carriage return before a newline
        let lend: usize = if j < n && j > start && content[j - 1] == 13u8 {
            j - 1
        } else {
            j
        };
        let mut line: Vec<u8> = Vec::new();
        let mut t: usize = start;
        while t < lend
            invariant
                start <= t <= lend,
                lend <= n,
                n == content@.len(),
                line@ == content@.subrange(start as int, t as int),
            decreases lend - t,
        {
            line.push(content[t]);
            proof {
                assert(line@ =~= content@.subrange(start as int, t as int + 1));
            }
            t = t + 1;
        }
        proof {
            let full = content@.subrange(start as int, j as int);
            if j < n && j > start && content@[j - 1] == 13u8 {
                assert(full.len() > 0 && full[full.len() - 1] == 13u8);
                assert(line@ =~= full.drop_last());
                assert(line@ == strip_cr(full));
            } else {
                if full.len() > 0 {
                    assert(full[full.len() - 1] == content@[j - 1]);
                }
                assert(line@ =~= full);
                if j < n {
                    assert(line@ == strip_cr(full));
                }
            }
        }
        let ghost views_before = views_of(r@);
        r.push(line);
        proof {
            assert(views_of(r@) =~= views_before.push(line@));
            if j < n {
                // a newline was found: one line peels off the front
                assert(rem.subrange(0, j - start) =~= content@.subrange(
                    start as int,
                    j as int,
                ));
                assert(rem.subrange(j - start + 1, rem.len() as int) =~= content@.subrange(
                    j + 1,
                    n as int,
                ));
                assert(lines_spec(rem) == seq![strip_cr(rem.subrange(0, j - start))]
                    + lines_spec(rem.subrange(j - start + 1, rem.len() as int)));
                assert(views_of(r@) + lines_spec(content@.subrange(j + 1, n as int)) =~= (
                views_before + lines_spec(rem)));
            } else {
                // the final fragment has no newline: it is the last line
                assert(lines_spec(rem) == seq![rem]);
                assert(rem =~= content@.subrange(start as int, j as int));
                assert(content@.subrange(n as int, n as int) =~= Seq::<u8>::empty());
                assert(views_of(r@) + lines_spec(content@.subrange(n as int, n as int)) =~= (
                views_before + lines_spec(rem)));
            }
        }
        if j < n {
            start = j + 1;
        } else {
            start = n;
        }
    }
    proof {
        assert(content@.subrange(start as int, n as int) =~= Seq::<u8>::empty());
        assert(views_of(r@) =~= lines_spec(content@));
    }
    r
}

/// Copy of a vector of byte vectors.
fn copy_lines(v: &Vec<Vec<u8>>) -> (r: Vec<Vec<u8>>)
    ensures
        views_of(r@) == views_of(v@),
{
    let mut r: Vec<Vec<u8>> = Vec::new();
    let mut i: usize = 0;
    while i < v.len()
        invariant
            i <= v@.len(),
            r@.len() == i,
            forall|t: int| 0 <= t < i ==> r@[t]@ == v@[t]@,
        decreases v@.len() - i,
    {
        r.push(copy_bytes(&v[i]));
        i = i + 1;
    }
    proof {
        assert(views_of(r@) =~= views_of(v@));
    }
    r
}

/// A fixed, ordered list of candidate strings: the lines of a credential
/// file, consumed front to back through a cursor.
pub struct FileWithStrings {
    lines: Vec<Vec<u8>>,
    pos: usize,
}

impl FileWithStrings {
    /// The full sequence this source yields, from its beginning.
    pub closed spec fn items(&self) -> Seq<Seq<u8>> {
        views_of(self.lines@)
    }

    /// How many items have been consumed so far.
    pub closed spec fn pos(&self) -> nat {
        self.pos as nat
    }

    pub closed spec fn wf(&self) -> bool {
        self.pos <= self.lines@.len()
    }

    /// Build the source from a credential file's content.
    pub fn new(content: &Vec<u8>) -> (r: Self)
        ensures
            r.wf(),
            r.items() == lines_spec(content@),
            r.pos() == 0,
    {
        FileWithStrings { lines: split_lines(content), pos: 0 }
    }

    /// How many candidates the source holds in total.
    pub fn count(&self) -> (n: usize)
        ensures
            n == self.items().len(),
    {
        self.lines.len()
    }

    /// A fresh, rewound copy yielding the same sequence.
    pub fn restarted(&self) -> (r: Self)
        ensures
            r.wf(),
            r.items() == self.items(),
            r.pos() == 0,
    {
        FileWithStrings { lines: copy_lines(&self.lines), pos: 0 }
    }

    /// The next candidate, advancing the cursor.
    pub fn next(&mut self) -> (r: Option<Vec<u8>>)
        requires
            old(self).wf(),
        ensures
            final(self).wf(),
            final(self).items() == old(self).items(),
            match r {
                Some(s) => {
                    &&& old(self).pos() < old(self).items().len()
                    &&& s@ == old(self).items()[old(self).pos() as int]
                    &&& final(self).pos() == old(self).pos() + 1
                },
                None => {
                    &&& old(self).pos() == old(self).items().len()
                    &&& final(self).pos() == old(self).pos()
                },
            },
    {
        if self.pos < self.lines.len() {
            let line = copy_bytes(&self.lines[self.pos]);
            self.pos = self.pos + 1;
            Some(line)
        } else {
            None
        }
    }
}

/// Whether all bytes of `s` are pairwise distinct.
pub open spec fn distinct_bytes(s: Seq<u8>) -> bool {
    forall|p: int, q: int| 0 <= p < q < s.len() ==> s[p] != s[q]
}

/// Concatenation of a sequence of byte strings.
pub open spec fn concat_all(s: Seq<Seq<u8>>) -> Seq<u8>
    decreases s.len(),
{
    if s.len() == 0 {
        Seq::empty()
    } else {
        concat_all(s.drop_last()) + s.last()
    }
}

/// The `i`-th length-`n` word over `alpha`: the digits of `i` in base
/// `|alpha|`, most significant first, mapped through the alphabet.
pub open spec fn nth_word(alpha: Seq<u8>, n: nat, i: int) -> Seq<u8>
    decreases n,
{
    if n == 0 {
        Seq::empty()
    } else {
        nth_word(alpha, (n - 1) as nat, i / alpha.len() as int).push(
            alpha[i % alpha.len() as int],
        )
    }
}

/// Every length-`n` word over `alpha`, ordered lexicographically by
/// alphabet position: the full Cartesian power of the alphabet.
pub open spec fn gen_items(alpha: Seq<u8>, n: nat) -> Seq<Seq<u8>> {
    Seq::new(pow(alpha.len() as int, n) as nat, |i: int| nth_word(alpha, n, i))
}

proof fn lemma_pow_unfold(b: int, e: nat)
    ensures
        pow(b, (e + 1) as nat) == b * pow(b, e),
{
    reveal(pow);
}

proof fn lemma_pow_nonneg(b: int, e: nat)
    requires
        b >= 0,
    ensures
        pow(b, e) >= 0,
{
    if b == 0 {
        if e > 0 {
            lemma0_pow(e);
        } else {
            lemma_pow0(b);
        }
    } else {
        lemma_pow_positive(b, e);
    }
}

proof fn lemma_nth_word_len(alpha: Seq<u8>, n: nat, i: int)
    ensures
        nth_word(alpha, n, i).len() == n,
    decreases n,
{
    if n > 0 {
        lemma_nth_word_len(alpha, (n - 1) as nat, i / alpha.len() as int);
    }
}

proof fn lemma_nth_word_prepend(alpha: Seq<u8>, k: nat, i: int)
    requires
        alpha.len() > 0,
        0 <= i,
    ensures
        nth_word(alpha, (k + 1) as nat, i) == seq![
            alpha[(i / pow(alpha.len() as int, k)) % alpha.len() as int],
        ] + nth_word(alpha, k, i),
    decreases k,
{
    let a = alpha.len() as int;
    if k == 0 {
        lemma_div_basics(i);
        lemma_pow0(a);
        assert(nth_word(alpha, 0nat, i / a) == Seq::<u8>::empty());
        assert(nth_word(alpha, 0nat, i) == Seq::<u8>::empty());
        assert(nth_word(alpha, 1nat, i) =~= seq![alpha[(i / pow(a, 0)) % a]] + nth_word(
            alpha,
            0nat,
            i,
        ));
    } else {
        lemma_div_pos_is_pos(i, a);
        lemma_nth_word_prepend(alpha, (k - 1) as nat, i / a);
        lemma_pow_positive(a, (k - 1) as nat);
        lemma_div_denominator(i, a, pow(a, (k - 1) as nat));
        lemma_pow_unfold(a, (k - 1) as nat);
        assert(a * pow(a, (k - 1) as nat) == pow(a, k));
        assert((i / a) / pow(a, (k - 1) as nat) == i / pow(a, k));
        assert(nth_word(alpha, (k + 1) as nat, i) == nth_word(alpha, k, i / a).push(
            alpha[i % a],
        ));
        assert(nth_word(alpha, k, i / a) == seq![alpha[(i / pow(a, k)) % a]] + nth_word(
            alpha,
            (k - 1) as nat,
            i / a,
        ));
        assert((seq![alpha[(i / pow(a, k)) % a]] + nth_word(alpha, (k - 1) as nat, i / a)).push(
            alpha[i % a],
        ) =~= seq![alpha[(i / pow(a, k)) % a]] + nth_word(alpha, k, i));
    }
}

proof fn lemma_nth_word_injective(alpha: Seq<u8>, n: nat, i: int, j: int)
    requires
        distinct_bytes(alpha),
        0 <= i < pow(alpha.len() as int, n),
        0 <= j < pow(alpha.len() as int, n),
        nth_word(alpha, n, i) == nth_word(alpha, n, j),
    ensures
        i == j,
    decreases n,
{
    let a = alpha.len() as int;
    if n == 0 {
        lemma_pow0(a);
    } else {
        if alpha.len() == 0 {
            lemma0_pow(n);
            assert(false);
        }
        lemma_mod_division_less_than_divisor(i, a);
        lemma_mod_division_less_than_divisor(j, a);
        let wi = nth_word(alpha, n, i);
        let wj = nth_word(alpha, n, j);
        assert(wi == nth_word(alpha, (n - 1) as nat, i / a).push(alpha[i % a]));
        assert(wj == nth_word(alpha, (n - 1) as nat, j / a).push(alpha[j % a]));
        lemma_nth_word_len(alpha, (n - 1) as nat, i / a);
        lemma_nth_word_len(alpha, (n - 1) as nat, j / a);
        assert(wi.last() == alpha[i % a]);
        assert(wj.last() == alpha[j % a]);
        assert(i % a == j % a) by {
            if i % a < j % a {
                assert(alpha[i % a] != alpha[j % a]);
            }
            if j % a < i % a {
                assert(alpha[j % a] != alpha[i % a]);
            }
        }
        assert(nth_word(alpha, (n - 1) as nat, i / a) =~= nth_word(
            alpha,
            (n - 1) as nat,
            j / a,
        )) by {
            assert forall|t: int| 0 <= t < n - 1 implies #[trigger] nth_word(
                alpha,
                (n - 1) as nat,
                i / a,
            )[t] == nth_word(alpha, (n - 1) as nat, j / a)[t] by {
                assert(wi[t] == nth_word(alpha, (n - 1) as nat, i / a)[t]);
                assert(wj[t] == nth_word(alpha, (n - 1) as nat, j / a)[t]);
            }
        }
        lemma_pow_positive(a, (n - 1) as nat);
        lemma_div_pos_is_pos(i, a);
        lemma_div_pos_is_pos(j, a);
        lemma_pow_unfold(a, (n - 1) as nat);
        assert(pow(a, n) == a * pow(a, (n - 1) as nat));
        lemma_multiply_divide_lt(i, a, pow(a, (n - 1) as nat));
        lemma_multiply_divide_lt(j, a, pow(a, (n - 1) as nat));
        lemma_nth_word_injective(alpha, (n - 1) as nat, i / a, j / a);
        lemma_fundamental_div_mod(i, a);
        lemma_fundamental_div_mod(j, a);
    }
}

/// Law: the generator advertises exactly `|alphabet| ^ n` candidates.
pub proof fn lemma_generator_count(alpha: Seq<u8>, n: nat)
    ensures
        gen_items(alpha, n).len() == pow(alpha.len() as int, n),
{
    lemma_pow_nonneg(alpha.len() as int, n);
}

/// Law: over an alphabet of distinct bytes the generator's candidates are
/// pairwise distinct: no duplicates.
pub proof fn lemma_generator_no_duplicates(alpha: Seq<u8>, n: nat, i: int, j: int)
    requires
        distinct_bytes(alpha),
        0 <= i < gen_items(alpha, n).len(),
        0 <= j < gen_items(alpha, n).len(),
        i != j,
    ensures
        gen_items(alpha, n)[i] != gen_items(alpha, n)[j],
{
    lemma_pow_nonneg(alpha.len() as int, n);
    if gen_items(alpha, n)[i] == gen_items(alpha, n)[j] {
        lemma_nth_word_injective(alpha, n, i, j);
    }
}

/// Law: no omissions. Every length-`n` word whose bytes all come from the
/// alphabet occurs among the generator's candidates.
pub proof fn lemma_generator_complete(alpha: Seq<u8>, n: nat, w: Seq<u8>)
    requires
        w.len() == n,
        forall|t: int| 0 <= t < n ==> alpha.contains(#[trigger] w[t]),
    ensures
        exists|i: int|
            0 <= i < gen_items(alpha, n).len() && gen_items(alpha, n)[i] == w,
    decreases n,
{
    let a = alpha.len() as int;
    lemma_pow_nonneg(a, n);
    if n == 0 {
        lemma_pow0(a);
        assert(nth_word(alpha, 0nat, 0) =~= w);
        assert(gen_items(alpha, n)[0] == w);
    } else {
        assert(alpha.contains(w[n - 1]));
        let t = choose|t: int| 0 <= t < alpha.len() && alpha[t] == w[n - 1];
        let prefix = w.drop_last();
        assert forall|q: int| 0 <= q < n - 1 implies alpha.contains(#[trigger] prefix[q]) by {
            assert(prefix[q] == w[q]);
        }
        lemma_generator_complete(alpha, (n - 1) as nat, prefix);
        let i0 = choose|i0: int|
            0 <= i0 < gen_items(alpha, (n - 1) as nat).len() && #[trigger] gen_items(
                alpha,
                (n - 1) as nat,
            )[i0] == prefix;
        lemma_pow_nonneg(a, (n - 1) as nat);
        let i = i0 * a + t;
        assert(i < pow(a, n)) by {
            lemma_pow_unfold(a, (n - 1) as nat);
            assert(pow(a, n) == a * pow(a, (n - 1) as nat));
            assert(i0 <= pow(a, (n - 1) as nat) - 1);
            assert(i0 * a <= (pow(a, (n - 1) as nat) - 1) * a) by (nonlinear_arith)
                requires
                    i0 <= pow(a, (n - 1) as nat) - 1,
                    a > 0,
            ;
            assert((pow(a, (n - 1) as nat) - 1) * a + a == pow(a, (n - 1) as nat) * a)
                by (nonlinear_arith);
        }
        assert(i >= 0) by (nonlinear_arith)
            requires
                i == i0 * a + t,
                i0 >= 0,
                a > 0,
                t >= 0,
        ;
        lemma_fundamental_div_mod_converse(i, a, i0, t);
        assert(nth_word(alpha, n, i) == nth_word(alpha, (n - 1) as nat, i0).push(alpha[t]));
        assert(nth_word(alpha, n, i) =~= w) by {
            lemma_nth_word_len(alpha, (n - 1) as nat, i0);
            assert(prefix.push(w[n - 1]) =~= w);
        }
        assert(gen_items(alpha, n)[i] == w);
    }
}

/// A lazy generator of every length-`n` word over an alphabet, in a fixed
/// deterministic order.
///
/// The policy is the full Cartesian power: `|alphabet| ^ n` ordered words.
/// Unordered selections (combinations with replacement) would under-cover
/// the space, so they are deliberately not offered.
pub struct StringsGenerator {
    alphabet: Vec<u8>,
    length: usize,
    total: usize,
    pos: usize,
}

impl StringsGenerator {
    /// The alphabet the words are drawn from.
    pub closed spec fn alpha(&self) -> Seq<u8> {
        self.alphabet@
    }

    /// The length of each generated word.
    pub closed spec fn word_len(&self) -> nat {
        self.length as nat
    }

    pub closed spec fn wf(&self) -> bool {
        &&& self.total == pow(self.alphabet@.len() as int, self.length as nat)
        &&& self.pos <= self.total
    }

    /// The full sequence this source yields, from its beginning.
    pub closed spec fn items(&self) -> Seq<Seq<u8>> {
        gen_items(self.alphabet@, self.length as nat)
    }

    /// How many items have been consumed so far.
    pub closed spec fn pos(&self) -> nat {
        self.pos as nat
    }

    /// Build a generator over the concatenation of the allowed character
    /// groups, refusing workloads beyond the machine's address range.
    pub fn new(allowed_chars: &Vec<Vec<u8>>, size: usize) -> (r: Result<Self, Error>)
        ensures
            match r {
                Ok(g) => {
                    &&& g.wf()
                    &&& g.pos() == 0
                    &&& g.alpha() == concat_all(views_of(allowed_chars@))
                    &&& g.word_len() == size as nat
                    &&& g.items() == gen_items(
                        concat_all(views_of(allowed_chars@)),
                        size as nat,
                    )
                    &&& pow(
                        concat_all(views_of(allowed_chars@)).len() as int,
                        size as nat,
                    ) <= usize::MAX
                },
                Err(e) => {
                    &&& e == Error::WorkloadOverflow
                    &&& pow(
                        concat_all(views_of(allowed_chars@)).len() as int,
                        size as nat,
                    ) > usize::MAX
                },
            },
    {
        let ghost vs = views_of(allowed_chars@);
        let mut alphabet: Vec<u8> = Vec::new();
        let mut g: usize = 0;
        proof {
            assert(vs.subrange(0, 0) =~= Seq::<Seq<u8>>::empty());
            assert(alphabet@ =~= concat_all(vs.subrange(0, 0)));
        }
        while g < allowed_chars.len()
            invariant
                g <= allowed_chars@.len(),
                vs == views_of(allowed_chars@),
                alphabet@ == concat_all(vs.subrange(0, g as int)),
            decreases allowed_chars@.len() - g,
        {
            let grp = &allowed_chars[g];
            let mut t: usize = 0;
            while t < grp.len()
                invariant
                    t <= grp@.len(),
                    g < allowed_chars@.len(),
                    vs == views_of(allowed_chars@),
                    grp@ == vs[g as int],
                    alphabet@ == concat_all(vs.subrange(0, g as int)) + grp@.subrange(
                        0,
                        t as int,
                    ),
                decreases grp@.len() - t,
            {
                alphabet.push(grp[t]);
                proof {
                    assert(alphabet@ =~= concat_all(vs.subrange(0, g as int)) + grp@.subrange(
                        0,
                        t as int + 1,
                    ));
                }
                t = t + 1;
            }
            proof {
                assert(vs.subrange(0, g as int + 1).drop_last() =~= vs.subrange(0, g as int));
                assert(vs.subrange(0, g as int + 1).last() == grp@);
                assert(grp@.subrange(0, grp@.len() as int) =~= grp@);
                assert(alphabet@ =~= concat_all(vs.subrange(0, g as int + 1)));
            }
            g = g + 1;
        }
        proof {
            assert(vs.subrange(0, allowed_chars@.len() as int) =~= vs);
        }
        let a: usize = alphabet.len();
        let mut total: usize = 1;
        let mut k: usize = 0;
        proof {
            lemma_pow0(a as int);
        }
        while k < size
            invariant
                k <= size,
                a == alphabet@.len(),
                total == pow(a as int, k as nat),
                alphabet@ == concat_all(vs),
                vs == views_of(allowed_chars@),
            decreases size - k,
        {
            total = match total.checked_mul(a) {
                Some(t) => t,
                None => {
                    proof {
                        // an overflowing partial product forces the full
                        // power past the machine range
                        assert(a >= 1 && total >= 1) by (nonlinear_arith)
                            requires
                                total * a > usize::MAX,
                        ;
                        lemma_pow_unfold(a as int, k as nat);
                        assert(a * pow(a as int, k as nat) == total * a) by (nonlinear_arith)
                            requires
                                total == pow(a as int, k as nat),
                        ;
                        lemma_pow_increases(a as nat, (k + 1) as nat, size as nat);
                    }
                    return Err(Error::WorkloadOverflow);
                },
            };
            proof {
                lemma_pow_unfold(a as int, k as nat);
            }
            k = k + 1;
        }
        Ok(StringsGenerator { alphabet, length: size, total, pos: 0 })
    }

    /// How many candidates the source holds in total.
    pub fn count(&self) -> (n: usize)
        requires
            self.wf(),
        ensures
            n == self.items().len(),
    {
        proof {
            lemma_generator_count(self.alphabet@, self.length as nat);
        }
        self.total
    }

    /// A fresh, rewound copy yielding the same sequence.
    pub fn restarted(&self) -> (r: Self)
        requires
            self.wf(),
        ensures
            r.wf(),
            r.items() == self.items(),
            r.pos() == 0,
    {
        StringsGenerator {
            alphabet: copy_bytes(&self.alphabet),
            length: self.length,
            total: self.total,
            pos: 0,
        }
    }

    /// The next word, advancing the cursor.
    pub fn next(&mut self) -> (r: Option<Vec<u8>>)
        requires
            old(self).wf(),
        ensures
            final(self).wf(),
            final(self).items() == old(self).items(),
            match r {
                Some(s) => {
                    &&& old(self).pos() < old(self).items().len()
                    &&& s@ == old(self).items()[old(self).pos() as int]
                    &&& final(self).pos() == old(self).pos() + 1
                },
                None => {
                    &&& old(self).pos() == old(self).items().len()
                    &&& final(self).pos() == old(self).pos()
                },
            },
    {
        proof {
            lemma_generator_count(self.alphabet@, self.length as nat);
        }
        if self.pos == self.total {
            None
        } else {
            proof {
                if self.alphabet.len() == 0 && self.length > 0 {
                    lemma0_pow(self.length as nat);
                    assert(false);
                }
            }
            let w = word_at(&self.alphabet, self.length, self.pos);
            self.pos = self.pos + 1;
            Some(w)
        }
    }
}

/// The word at index `i`: the digits of `i` in base `|alpha|`, most
/// significant first, mapped through the alphabet.
fn word_at(alpha: &Vec<u8>, n: usize, i: usize) -> (w: Vec<u8>)
    requires
        n == 0 || alpha@.len() > 0,
        i < pow(alpha@.len() as int, n as nat),
    ensures
        w@ == nth_word(alpha@, n as nat, i as int),
{
    let a: usize = alpha.len();
    let mut w: Vec<u8> = Vec::new();
    if n == 0 {
        proof {
            assert(w@ =~= nth_word(alpha@, 0nat, i as int));
        }
        return w;
    }
    let mut p: usize = i;
    let mut k: usize = 0;
    proof {
        assert(w@ =~= nth_word(alpha@, 0nat, i as int));
        lemma_div_basics(i as int);
        lemma_pow0(a as int);
        assert(p == i as int / pow(a as int, 0nat));
    }
    while k < n
        invariant
            k <= n,
            a == alpha@.len(),
            a > 0,
            w@ == nth_word(alpha@, k as nat, i as int),
            p == i as int / pow(a as int, k as nat),
        decreases n - k,
    {
        proof {
            lemma_mod_division_less_than_divisor(p as int, a as int);
        }
        let d: usize = p % a;
        let c: u8 = alpha[d];
        w.insert(0, c);
        proof {
            lemma_nth_word_prepend(alpha@, k as nat, i as int);
            assert(w@ =~= seq![c] + nth_word(alpha@, k as nat, i as int));
            assert(w@ == nth_word(alpha@, (k + 1) as nat, i as int));
            lemma_pow_positive(a as int, k as nat);
            lemma_div_denominator(i as int, pow(a as int, k as nat), a as int);
            lemma_pow_unfold(a as int, k as nat);
        }
        p = p / a;
        k = k + 1;
    }
    w
}

/// A credential source: a fixed list of strings (a file's lines) or a lazy
/// word generator.
pub enum CredentialSource {
    File(FileWithStrings),
    Generator(StringsGenerator),
}

impl CredentialSource {
    /// The full sequence this source yields, from its beginning.
    pub open spec fn items(&self) -> Seq<Seq<u8>> {
        match self {
            CredentialSource::File(f) => f.items(),
            CredentialSource::Generator(g) => g.items(),
        }
    }

    /// How many items have been consumed so far.
    pub open spec fn pos(&self) -> nat {
        match self {
            CredentialSource::File(f) => f.pos(),
            CredentialSource::Generator(g) => g.pos(),
        }
    }

    pub open spec fn wf(&self) -> bool {
        match self {
            CredentialSource::File(f) => f.wf(),
            CredentialSource::Generator(g) => g.wf(),
        }
    }

    /// How many candidates the source holds in total.
    pub fn count(&self) -> (n: usize)
        requires
            self.wf(),
        ensures
            n == self.items().len(),
    {
        match self {
            CredentialSource::File(f) => f.count(),
            CredentialSource::Generator(g) => g.count(),
        }
    }

    /// A fresh, rewound copy yielding the same sequence.
    pub fn restarted(&self) -> (r: Self)
        requires
            self.wf(),
        ensures
            r.wf(),
            r.items() == self.items(),
            r.pos() == 0,
    {
        match self {
            CredentialSource::File(f) => CredentialSource::File(f.restarted()),
            CredentialSource::Generator(g) => CredentialSource::Generator(g.restarted()),
        }
    }

    /// The next candidate, advancing the cursor.
    pub fn next(&mut self) -> (r: Option<Vec<u8>>)
        requires
            old(self).wf(),
        ensures
            final(self).wf(),
            final(self).items() == old(self).items(),
            match r {
                Some(s) => {
                    &&& old(self).pos() < old(self).items().len()
                    &&& s@ == old(self).items()[old(self).pos() as int]
                    &&& final(self).pos() == old(self).pos() + 1
                },
                None => {
                    &&& old(self).pos() == old(self).items().len()
                    &&& final(self).pos() == old(self).pos()
                },
            },
    {
        match self {
            CredentialSource::File(f) => f.next(),
            CredentialSource::Generator(g) => g.next(),
        }
    }

    /// The cursor never passes the end.
    pub proof fn lemma_pos_le_len(&self)
        requires
            self.wf(),
        ensures
            self.pos() <= self.items().len(),
    {
        match self {
            CredentialSource::File(_) => {},
            CredentialSource::Generator(g) => {
                lemma_generator_count(g.alphabet@, g.length as nat);
            },
        }
    }
}

/// Law: the generator is deterministic. Its candidate sequence is a pure
/// function of the alphabet and the word length, so two generators built
/// over the same alphabet and length yield identical sequences.
pub proof fn lemma_generator_deterministic(g1: StringsGenerator, g2: StringsGenerator)
    requires
        g1.wf(),
        g2.wf(),
        g1.alpha() == g2.alpha(),
        g1.word_len() == g2.word_len(),
    ensures
        g1.items() == g2.items(),
{
}

/// Law: the file-backed source is idempotent. Its sequence is a pure
/// function of the file content (`lines_spec`), so two sources built from
/// the same content yield identical sequences.
pub proof fn lemma_file_source_idempotent(
    a: FileWithStrings,
    b: FileWithStrings,
    content: Seq<u8>,
)
    requires
        a.items() == lines_spec(content),
        b.items() == lines_spec(content),
    ensures
        a.items() == b.items(),
{
}

} // verus!
