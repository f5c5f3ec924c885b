//! Polymer growth by pair insertion: the polymer is tracked as tallies of
//! adjacent character pairs and of single characters, and each growth step
//! rewrites every pair the rule book knows into its two successor pairs.

use vstd::prelude::*;

verus! {

/// An insertion rule: between the two input characters a new character
/// appears, splitting the input pair into the two output pairs.
#[derive(Clone, Copy, Debug, PartialEq, Eq)]
pub struct Rule {
    pub input: (char, char),
    pub output: ((char, char), (char, char)),
}

impl Rule {
    /// The rule "between `input.0` and `input.1`, insert `result`".
    pub fn from_pair(input: (char, char), result: char) -> (r: Rule)
        ensures
            r.input == input,
            r.output == ((input.0, result), (result, input.1)),
    {
        Rule { input, output: ((input.0, result), (result, input.1)) }
    }
}

/// The count a pair-tally list records for a key (0 when absent).
pub open spec fn pair_tally(m: Seq<((char, char), u64)>, k: (char, char)) -> int
    decreases m.len(),
{
    if m.len() == 0 {
        0
    } else if m.last().0 == k {
        m.last().1 as int
    } else {
        pair_tally(m.drop_last(), k)
    }
}

/// The count a character-tally list records for a key (0 when absent).
pub open spec fn char_tally(m: Seq<(char, u64)>, k: char) -> int
    decreases m.len(),
{
    if m.len() == 0 {
        0
    } else if m.last().0 == k {
        m.last().1 as int
    } else {
        char_tally(m.drop_last(), k)
    }
}

/// No key appears twice.
pub open spec fn unique_pair_keys(m: Seq<((char, char), u64)>) -> bool {
    forall|i: int, j: int| 0 <= i < j < m.len() ==> (#[trigger] m[i]).0 != (#[trigger] m[j]).0
}

/// No key appears twice.
pub open spec fn unique_char_keys(m: Seq<(char, u64)>) -> bool {
    forall|i: int, j: int| 0 <= i < j < m.len() ==> (#[trigger] m[i]).0 != (#[trigger] m[j]).0
}

/// With unique keys, the tally of an entry's key is that entry's count.
proof fn lemma_pair_tally_found(m: Seq<((char, char), u64)>, i: int)
    requires
        unique_pair_keys(m),
        0 <= i < m.len(),
    ensures
        pair_tally(m, m[i].0) == m[i].1,
    decreases m.len(),
{
    if i < m.len() - 1 {
        assert(m.drop_last()[i] == m[i]);
        lemma_pair_tally_found(m.drop_last(), i);
    }
}

/// A key no entry holds tallies zero.
proof fn lemma_pair_tally_absent(m: Seq<((char, char), u64)>, k: (char, char))
    requires
        forall|i: int| 0 <= i < m.len() ==> (#[trigger] m[i]).0 != k,
    ensures
        pair_tally(m, k) == 0,
    decreases m.len(),
{
    if m.len() > 0 {
        lemma_pair_tally_absent(m.drop_last(), k);
    }
}

/// Replacing an entry's count moves only that key's tally.
proof fn lemma_pair_tally_update(m: Seq<((char, char), u64)>, i: int, v: u64)
    requires
        unique_pair_keys(m),
        0 <= i < m.len(),
    ensures
        pair_tally(m.update(i, (m[i].0, v)), m[i].0) == v,
        forall|k2: (char, char)| k2 != m[i].0 ==> pair_tally(m.update(i, (m[i].0, v)), k2)
            == pair_tally(m, k2),
        unique_pair_keys(m.update(i, (m[i].0, v))),
    decreases m.len(),
{
    let updated = m.update(i, (m[i].0, v));
    assert(forall|x: int| 0 <= x < m.len() ==> (#[trigger] updated[x]).0 == m[x].0);
    if i == m.len() - 1 {
        assert(updated.drop_last() =~= m.drop_last());
        assert forall|k2: (char, char)| k2 != m[i].0 implies pair_tally(updated, k2) == pair_tally(
            m,
            k2,
        ) by {
            assert(pair_tally(updated, k2) == pair_tally(updated.drop_last(), k2));
            assert(pair_tally(m, k2) == pair_tally(m.drop_last(), k2));
        }
    } else {
        assert(updated.drop_last() =~= m.drop_last().update(i, (m[i].0, v)));
        assert(m.drop_last()[i] == m[i]);
        lemma_pair_tally_update(m.drop_last(), i, v);
        assert(updated.last() == m.last());
        assert forall|k2: (char, char)| k2 != m[i].0 implies pair_tally(updated, k2) == pair_tally(
            m,
            k2,
        ) by {
            if m.last().0 != k2 {
                assert(pair_tally(updated, k2) == pair_tally(updated.drop_last(), k2));
                assert(pair_tally(m, k2) == pair_tally(m.drop_last(), k2));
                assert(pair_tally(m.drop_last().update(i, (m[i].0, v)), k2) == pair_tally(
                    m.drop_last(),
                    k2,
                ));
            }
        }
    }
}

/// `lemma_pair_tally_found` for character keys.
proof fn lemma_char_tally_found(m: Seq<(char, u64)>, i: int)
    requires
        unique_char_keys(m),
        0 <= i < m.len(),
    ensures
        char_tally(m, m[i].0) == m[i].1,
    decreases m.len(),
{
    if i < m.len() - 1 {
        assert(m.drop_last()[i] == m[i]);
        lemma_char_tally_found(m.drop_last(), i);
    }
}

/// `lemma_pair_tally_absent` for character keys.
proof fn lemma_char_tally_absent(m: Seq<(char, u64)>, k: char)
    requires
        forall|i: int| 0 <= i < m.len() ==> (#[trigger] m[i]).0 != k,
    ensures
        char_tally(m, k) == 0,
    decreases m.len(),
{
    if m.len() > 0 {
        lemma_char_tally_absent(m.drop_last(), k);
    }
}

/// `lemma_pair_tally_update` for character keys.
proof fn lemma_char_tally_update(m: Seq<(char, u64)>, i: int, v: u64)
    requires
        unique_char_keys(m),
        0 <= i < m.len(),
    ensures
        char_tally(m.update(i, (m[i].0, v)), m[i].0) == v,
        forall|k2: char| k2 != m[i].0 ==> char_tally(m.update(i, (m[i].0, v)), k2) == char_tally(
            m,
            k2,
        ),
        unique_char_keys(m.update(i, (m[i].0, v))),
    decreases m.len(),
{
    let updated = m.update(i, (m[i].0, v));
    assert(forall|x: int| 0 <= x < m.len() ==> (#[trigger] updated[x]).0 == m[x].0);
    if i == m.len() - 1 {
        assert(updated.drop_last() =~= m.drop_last());
        assert forall|k2: char| k2 != m[i].0 implies char_tally(updated, k2) == char_tally(
            m,
            k2,
        ) by {
            assert(char_tally(updated, k2) == char_tally(updated.drop_last(), k2));
            assert(char_tally(m, k2) == char_tally(m.drop_last(), k2));
        }
    } else {
        assert(updated.drop_last() =~= m.drop_last().update(i, (m[i].0, v)));
        assert(m.drop_last()[i] == m[i]);
        lemma_char_tally_update(m.drop_last(), i, v);
        assert(updated.last() == m.last());
        assert forall|k2: char| k2 != m[i].0 implies char_tally(updated, k2) == char_tally(
            m,
            k2,
        ) by {
            if m.last().0 != k2 {
                assert(char_tally(updated, k2) == char_tally(updated.drop_last(), k2));
                assert(char_tally(m, k2) == char_tally(m.drop_last(), k2));
                assert(char_tally(m.drop_last().update(i, (m[i].0, v)), k2) == char_tally(
                    m.drop_last(),
                    k2,
                ));
            }
        }
    }
}

/// Adds `c` to the pair's tally.
fn bump_pair(m: &mut Vec<((char, char), u64)>, k: (char, char), c: u64)
    requires
        unique_pair_keys(old(m)@),
        pair_tally(old(m)@, k) + c <= u64::MAX,
    ensures
        unique_pair_keys(final(m)@),
        pair_tally(final(m)@, k) == pair_tally(old(m)@, k) + c,
        forall|k2: (char, char)| k2 != k ==> pair_tally(final(m)@, k2) == pair_tally(old(m)@, k2),
{
    let n = m.len();
    let mut i: usize = 0;
    while i < n
        invariant
            n == m@.len(),
            i <= n,
            unique_pair_keys(m@),
            m@ == old(m)@,
            pair_tally(old(m)@, k) + c <= u64::MAX,
            forall|x: int| 0 <= x < i as int ==> (#[trigger] m@[x]).0 != k,
        decreases n - i,
    {
        if m[i].0.0 == k.0 && m[i].0.1 == k.1 {
            assert(m@[i as int].0 == k);
            proof {
                lemma_pair_tally_found(m@, i as int);
            }
            let v = m[i].1;
            let ghost m0 = m@;
            m[i] = (k, v + c);
            proof {
                lemma_pair_tally_update(m0, i as int, (v + c) as u64);
            }
            return ;
        }
        i = i + 1;
    }
    proof {
        lemma_pair_tally_absent(m@, k);
    }
    let ghost m0 = m@;
    m.push((k, c));
    proof {
        assert(forall|x: int| 0 <= x < m0.len() ==> #[trigger] m@[x] == m0[x]);
        assert(m@.drop_last() =~= m0);
        assert(forall|k2: (char, char)| k2 != k ==> pair_tally(m@, k2) == pair_tally(m0, k2));
    }
}

/// Adds `c` to the character's tally.
fn bump_char(m: &mut Vec<(char, u64)>, k: char, c: u64)
    requires
        unique_char_keys(old(m)@),
        char_tally(old(m)@, k) + c <= u64::MAX,
    ensures
        unique_char_keys(final(m)@),
        char_tally(final(m)@, k) == char_tally(old(m)@, k) + c,
        forall|k2: char| k2 != k ==> char_tally(final(m)@, k2) == char_tally(old(m)@, k2),
{
    let n = m.len();
    let mut i: usize = 0;
    while i < n
        invariant
            n == m@.len(),
            i <= n,
            unique_char_keys(m@),
            m@ == old(m)@,
            char_tally(old(m)@, k) + c <= u64::MAX,
            forall|x: int| 0 <= x < i as int ==> (#[trigger] m@[x]).0 != k,
        decreases n - i,
    {
        if m[i].0 == k {
            assert(m@[i as int].0 == k);
            proof {
                lemma_char_tally_found(m@, i as int);
            }
            let v = m[i].1;
            let ghost m0 = m@;
            m[i] = (k, v + c);
            proof {
                lemma_char_tally_update(m0, i as int, (v + c) as u64);
            }
            return ;
        }
        i = i + 1;
    }
    proof {
        lemma_char_tally_absent(m@, k);
    }
    let ghost m0 = m@;
    m.push((k, c));
    proof {
        assert(forall|x: int| 0 <= x < m0.len() ==> #[trigger] m@[x] == m0[x]);
        assert(m@.drop_last() =~= m0);
        assert(forall|k2: char| k2 != k ==> char_tally(m@, k2) == char_tally(m0, k2));
    }
}

/// Reads a pair's tally.
fn lookup_pair(m: &Vec<((char, char), u64)>, k: (char, char)) -> (r: u64)
    requires
        unique_pair_keys(m@),
    ensures
        r == pair_tally(m@, k),
{
    let n = m.len();
    let mut i: usize = 0;
    while i < n
        invariant
            n == m@.len(),
            i <= n,
            unique_pair_keys(m@),
            forall|x: int| 0 <= x < i as int ==> (#[trigger] m@[x]).0 != k,
        decreases n - i,
    {
        if m[i].0.0 == k.0 && m[i].0.1 == k.1 {
            assert(m@[i as int].0 == k);
            proof {
                lemma_pair_tally_found(m@, i as int);
            }
            return m[i].1;
        }
        i = i + 1;
    }
    proof {
        lemma_pair_tally_absent(m@, k);
    }
    0
}


/// How many adjacent windows of the template equal the pair.
pub open spec fn window_count(t: Seq<char>, k: (char, char)) -> int
    decreases t.len(),
{
    if t.len() < 2 {
        0
    } else {
        window_count(t.drop_last(), k) + if (t[t.len() - 2], t[t.len() - 1]) == k {
            1int
        } else {
            0int
        }
    }
}

/// How many template characters equal `c`.
pub open spec fn char_count(t: Seq<char>, c: char) -> int
    decreases t.len(),
{
    if t.len() == 0 {
        0
    } else {
        char_count(t.drop_last(), c) + if t.last() == c {
            1int
        } else {
            0int
        }
    }
}

proof fn lemma_window_count_bound(t: Seq<char>, k: (char, char))
    ensures
        0 <= window_count(t, k) <= t.len(),
    decreases t.len(),
{
    if t.len() >= 2 {
        lemma_window_count_bound(t.drop_last(), k);
    }
}

proof fn lemma_char_count_bound(t: Seq<char>, c: char)
    ensures
        0 <= char_count(t, c) <= t.len(),
    decreases t.len(),
{
    if t.len() > 0 {
        lemma_char_count_bound(t.drop_last(), c);
    }
}

/// The polymer, tracked by tallies: how often each adjacent pair occurs, and
/// how often each character occurs.
pub struct TestCase {
    pub rules: Vec<Rule>,
    pub pairs: Vec<((char, char), u64)>,
    pub amounts: Vec<(char, u64)>,
}

impl TestCase {
    /// Both tally lists keep their keys unique.
    pub open spec fn wf(self) -> bool {
        unique_pair_keys(self.pairs@) && unique_char_keys(self.amounts@)
    }

    /// Tallies a template: each adjacent pair once per window, each
    /// character once per occurrence.
    pub fn new(template: &Vec<char>, rules: Vec<Rule>) -> (r: TestCase)
        ensures
            r.wf(),
            r.rules == rules,
            forall|k: (char, char)| #[trigger] pair_tally(r.pairs@, k) == window_count(
                template@,
                k,
            ),
            forall|c: char| #[trigger] char_tally(r.amounts@, c) == char_count(template@, c),
    {
        let n = template.len();
        let mut pairs: Vec<((char, char), u64)> = Vec::new();
        let mut amounts: Vec<(char, u64)> = Vec::new();
        let mut i: usize = 1;
        while i < n
            invariant
                n == template@.len(),
                1 <= i <= n || (n == 0 && i == 1),
                unique_pair_keys(pairs@),
                forall|k: (char, char)| #[trigger] pair_tally(pairs@, k) == window_count(
                    template@.subrange(
                        0,
                        if i as int <= n as int {
                            i as int
                        } else {
                            n as int
                        },
                    ),
                    k,
                ),
            decreases n - i,
        {
            let key = (template[i - 1], template[i]);
            let ghost prefix = template@.subrange(0, i as int);
            let ghost next = template@.subrange(0, i as int + 1);
            proof {
                lemma_window_count_bound(prefix, key);
                assert(pair_tally(pairs@, key) + 1 <= u64::MAX);
            }
            bump_pair(&mut pairs, key, 1);
            proof {
                assert(next.drop_last() =~= prefix);
                assert((next[next.len() - 2], next[next.len() - 1]) == key);
                assert forall|k: (char, char)| #[trigger] pair_tally(pairs@, k) == window_count(
                    next,
                    k,
                ) by {
                    if k != key {
                        assert(window_count(next, k) == window_count(prefix, k));
                    }
                }
            }
            i = i + 1;
        }
        proof {
            if n > 0 {
                assert(template@.subrange(0, n as int) =~= template@);
            } else {
                assert(forall|k: (char, char)| #[trigger] window_count(template@, k) == 0);
            }
        }
        let mut j: usize = 0;
        while j < n
            invariant
                n == template@.len(),
                j <= n,
                unique_char_keys(amounts@),
                forall|c: char| #[trigger] char_tally(amounts@, c) == char_count(
                    template@.subrange(0, j as int),
                    c,
                ),
            decreases n - j,
        {
            let ch = template[j];
            let ghost prefix = template@.subrange(0, j as int);
            let ghost next = template@.subrange(0, j as int + 1);
            proof {
                lemma_char_count_bound(prefix, ch);
                assert(char_tally(amounts@, ch) + 1 <= u64::MAX);
            }
            bump_char(&mut amounts, ch, 1);
            proof {
                assert(next.drop_last() =~= prefix);
                assert(next.last() == ch);
                assert forall|c: char| #[trigger] char_tally(amounts@, c) == char_count(
                    next,
                    c,
                ) by {
                    if c != ch {
                        assert(char_count(next, c) == char_count(prefix, c));
                    }
                }
            }
            j = j + 1;
        }
        proof {
            assert(template@.subrange(0, n as int) =~= template@);
        }
        TestCase { rules, pairs, amounts }
    }
}


proof fn lemma_pair_tally_nonneg(m: Seq<((char, char), u64)>, k: (char, char))
    ensures
        pair_tally(m, k) >= 0,
    decreases m.len(),
{
    if m.len() > 0 && m.last().0 != k {
        lemma_pair_tally_nonneg(m.drop_last(), k);
    }
}

proof fn lemma_char_tally_nonneg(m: Seq<(char, u64)>, k: char)
    ensures
        char_tally(m, k) >= 0,
    decreases m.len(),
{
    if m.len() > 0 && m.last().0 != k {
        lemma_char_tally_nonneg(m.drop_last(), k);
    }
}

/// The pair tally one growth step produces, after the first `j` rules have
/// contributed: each rule turns every occurrence of its input pair into one
/// occurrence of each output pair.
pub open spec fn stepped_pair(
    rules: Seq<Rule>,
    pairs: Seq<((char, char), u64)>,
    j: int,
    k: (char, char),
) -> int
    decreases j,
{
    if j <= 0 {
        0
    } else {
        stepped_pair(rules, pairs, j - 1, k) + ({
            let rule = rules[j - 1];
            let c = pair_tally(pairs, rule.input);
            (if rule.output.0 == k {
                c
            } else {
                0
            }) + (if rule.output.1 == k {
                c
            } else {
                0
            })
        })
    }
}

/// The character tally one growth step produces: the old tally plus, for
/// each rule, one inserted character per occurrence of its input pair.
pub open spec fn stepped_char(
    rules: Seq<Rule>,
    pairs: Seq<((char, char), u64)>,
    amounts: Seq<(char, u64)>,
    j: int,
    ch: char,
) -> int
    decreases j,
{
    if j <= 0 {
        char_tally(amounts, ch)
    } else {
        stepped_char(rules, pairs, amounts, j - 1, ch) + ({
            let rule = rules[j - 1];
            if rule.output.0.1 == ch {
                pair_tally(pairs, rule.input)
            } else {
                0
            }
        })
    }
}

proof fn lemma_stepped_pair_mono(
    rules: Seq<Rule>,
    pairs: Seq<((char, char), u64)>,
    j1: int,
    j2: int,
    k: (char, char),
)
    requires
        0 <= j1 <= j2,
    ensures
        stepped_pair(rules, pairs, j1, k) <= stepped_pair(rules, pairs, j2, k),
    decreases j2 - j1,
{
    if j1 < j2 {
        lemma_stepped_pair_mono(rules, pairs, j1, j2 - 1, k);
        lemma_pair_tally_nonneg(pairs, rules[j2 - 1].input);
    }
}

proof fn lemma_stepped_char_mono(
    rules: Seq<Rule>,
    pairs: Seq<((char, char), u64)>,
    amounts: Seq<(char, u64)>,
    j1: int,
    j2: int,
    ch: char,
)
    requires
        0 <= j1 <= j2,
    ensures
        stepped_char(rules, pairs, amounts, j1, ch) <= stepped_char(rules, pairs, amounts, j2, ch),
    decreases j2 - j1,
{
    if j1 < j2 {
        lemma_stepped_char_mono(rules, pairs, amounts, j1, j2 - 1, ch);
        lemma_pair_tally_nonneg(pairs, rules[j2 - 1].input);
    }
}

/// The largest count a non-empty tally list holds.
pub open spec fn max_amount(m: Seq<(char, u64)>) -> int
    decreases m.len(),
{
    if m.len() <= 1 {
        m[0].1 as int
    } else {
        let rest = max_amount(m.drop_last());
        if m.last().1 as int > rest {
            m.last().1 as int
        } else {
            rest
        }
    }
}

/// The smallest count a non-empty tally list holds.
pub open spec fn min_amount(m: Seq<(char, u64)>) -> int
    decreases m.len(),
{
    if m.len() <= 1 {
        m[0].1 as int
    } else {
        let rest = min_amount(m.drop_last());
        if (m.last().1 as int) < rest {
            m.last().1 as int
        } else {
            rest
        }
    }
}

impl TestCase {
    /// One growth step: every tracked pair that a rule matches is replaced,
    /// occurrence for occurrence, by the rule's two output pairs, and the
    /// inserted character joins the character tally.
    pub fn step(self) -> (r: TestCase)
        requires
            self.wf(),
            forall|k: (char, char)| #[trigger] stepped_pair(
                self.rules@,
                self.pairs@,
                self.rules@.len() as int,
                k,
            ) <= u64::MAX,
            forall|c: char| #[trigger] stepped_char(
                self.rules@,
                self.pairs@,
                self.amounts@,
                self.rules@.len() as int,
                c,
            ) <= u64::MAX,
        ensures
            r.wf(),
            r.rules == self.rules,
            forall|k: (char, char)| #[trigger] pair_tally(r.pairs@, k) == stepped_pair(
                self.rules@,
                self.pairs@,
                self.rules@.len() as int,
                k,
            ),
            forall|c: char| #[trigger] char_tally(r.amounts@, c) == stepped_char(
                self.rules@,
                self.pairs@,
                self.amounts@,
                self.rules@.len() as int,
                c,
            ),
    {
        let rules = self.rules;
        let pairs = self.pairs;
        let mut amounts = self.amounts;
        let ghost amounts0 = amounts@;
        let n = rules.len();
        let mut new_pairs: Vec<((char, char), u64)> = Vec::new();
        let mut j: usize = 0;
        while j < n
            invariant
                n == rules@.len(),
                j <= n,
                unique_pair_keys(pairs@),
                unique_pair_keys(new_pairs@),
                unique_char_keys(amounts@),
                forall|k: (char, char)| #[trigger] stepped_pair(rules@, pairs@, n as int, k)
                    <= u64::MAX,
                forall|c: char| #[trigger] stepped_char(rules@, pairs@, amounts0, n as int, c)
                    <= u64::MAX,
                forall|k: (char, char)| #[trigger] pair_tally(new_pairs@, k) == stepped_pair(
                    rules@,
                    pairs@,
                    j as int,
                    k,
                ),
                forall|c: char| #[trigger] char_tally(amounts@, c) == stepped_char(
                    rules@,
                    pairs@,
                    amounts0,
                    j as int,
                    c,
                ),
            decreases n - j,
        {
            let rule = rules[j];
            let c = lookup_pair(&pairs, rule.input);
            if c != 0 {
                let out0 = rule.output.0;
                let out1 = rule.output.1;
                let inserted = rule.output.0.1;
                proof {
                    lemma_stepped_pair_mono(rules@, pairs@, j as int + 1, n as int, out0);
                    lemma_stepped_pair_mono(rules@, pairs@, j as int + 1, n as int, out1);
                    lemma_stepped_char_mono(
                        rules@,
                        pairs@,
                        amounts0,
                        j as int + 1,
                        n as int,
                        inserted,
                    );
                    lemma_pair_tally_nonneg(pairs@, rule.input);
                }
                bump_pair(&mut new_pairs, out0, c);
                bump_pair(&mut new_pairs, out1, c);
                bump_char(&mut amounts, inserted, c);
                proof {
                    assert forall|k: (char, char)| #[trigger] pair_tally(new_pairs@, k)
                        == stepped_pair(rules@, pairs@, j as int + 1, k) by {
                        assert(stepped_pair(rules@, pairs@, j as int + 1, k) == stepped_pair(
                            rules@,
                            pairs@,
                            j as int,
                            k,
                        ) + (if out0 == k {
                            c as int
                        } else {
                            0
                        }) + (if out1 == k {
                            c as int
                        } else {
                            0
                        }));
                    }
                    assert forall|ch: char| #[trigger] char_tally(amounts@, ch) == stepped_char(
                        rules@,
                        pairs@,
                        amounts0,
                        j as int + 1,
                        ch,
                    ) by {
                        assert(stepped_char(rules@, pairs@, amounts0, j as int + 1, ch)
                            == stepped_char(rules@, pairs@, amounts0, j as int, ch) + (if inserted
                            == ch {
                            c as int
                        } else {
                            0
                        }));
                    }
                }
            } else {
                proof {
                    assert forall|k: (char, char)| #[trigger] pair_tally(new_pairs@, k)
                        == stepped_pair(rules@, pairs@, j as int + 1, k) by {
                        assert(pair_tally(pairs@, rule.input) == 0);
                    }
                    assert forall|ch: char| #[trigger] char_tally(amounts@, ch) == stepped_char(
                        rules@,
                        pairs@,
                        amounts0,
                        j as int + 1,
                        ch,
                    ) by {
                        assert(pair_tally(pairs@, rule.input) == 0);
                    }
                }
            }
            j = j + 1;
        }
        TestCase { rules, pairs: new_pairs, amounts }
    }

    /// The puzzle answer: the most common count minus the least common
    /// count.
    pub fn answer(&self) -> (r: u64)
        requires
            self.amounts@.len() > 0,
        ensures
            r == max_amount(self.amounts@) - min_amount(self.amounts@),
    {
        let n = self.amounts.len();
        let mut mx = self.amounts[0].1;
        let mut mn = self.amounts[0].1;
        let mut i: usize = 1;
        while i < n
            invariant
                n == self.amounts@.len(),
                n > 0,
                1 <= i <= n,
                mx == max_amount(self.amounts@.subrange(0, i as int)),
                mn == min_amount(self.amounts@.subrange(0, i as int)),
                mn <= mx,
            decreases n - i,
        {
            let ghost prefix = self.amounts@.subrange(0, i as int);
            let v = self.amounts[i].1;
            if v > mx {
                mx = v;
            }
            if v < mn {
                mn = v;
            }
            proof {
                let next = self.amounts@.subrange(0, i as int + 1);
                assert(next.drop_last() =~= prefix);
                assert(next.last() == self.amounts@[i as int]);
            }
            i = i + 1;
        }
        proof {
            assert(self.amounts@.subrange(0, n as int) =~= self.amounts@);
        }
        mx - mn
    }
}

} // verus!
