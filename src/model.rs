use vstd::prelude::*;

use crate::edits::is_letter;
use crate::text::{lemma_lex_asym, lemma_lex_total, lemma_lex_trans, lex_less, lex_lt, views};

verus! {

/// The total of a sequence of counts.
pub open spec fn sum(s: Seq<usize>) -> int
    decreases s.len(),
{
    if s.len() == 0 {
        0
    } else {
        sum(s.drop_last()) + s.last()
    }
}

proof fn lemma_sum_update(s: Seq<usize>, j: int, v: usize)
    requires
        0 <= j < s.len(),
    ensures
        sum(s.update(j, v)) == sum(s) - s[j] + v,
    decreases s.len(),
{
    let t = s.update(j, v);
    if j < s.len() - 1 {
        assert(t.drop_last() =~= s.drop_last().update(j, v));
        lemma_sum_update(s.drop_last(), j, v);
    } else {
        assert(t.drop_last() =~= s.drop_last());
    }
}

proof fn lemma_sum_bounds(s: Seq<usize>, j: int)
    requires
        0 <= j < s.len(),
    ensures
        sum(s) >= s[j],
    decreases s.len(),
{
    lemma_sum_nonneg(s.drop_last());
    if j < s.len() - 1 {
        lemma_sum_bounds(s.drop_last(), j);
    }
}

proof fn lemma_sum_nonneg(s: Seq<usize>)
    ensures
        sum(s) >= 0,
    decreases s.len(),
{
    if s.len() > 0 {
        lemma_sum_nonneg(s.drop_last());
    }
}

/// How many times `w` occurs in `s`.
pub open spec fn occurrences(s: Seq<Seq<char>>, w: Seq<char>) -> nat
    decreases s.len(),
{
    if s.len() == 0 {
        0
    } else {
        occurrences(s.drop_last(), w) + if s.last() == w { 1nat } else { 0nat }
    }
}

/// Each distinct token of `s` mapped to the number of times it occurs.
pub open spec fn tally(s: Seq<Seq<char>>) -> Map<Seq<char>, nat> {
    Map::new(|w: Seq<char>| s.contains(w), |w: Seq<char>| occurrences(s, w))
}

/// `acc` as a finished run: a token where it is not empty.
pub open spec fn close_run(acc: Seq<char>) -> Seq<Seq<char>> {
    if acc.len() > 0 {
        seq![acc]
    } else {
        Seq::empty()
    }
}

/// The maximal runs of letters of `s`, left to right, where the run in
/// progress so far is `acc`.
pub open spec fn runs_from(s: Seq<char>, acc: Seq<char>) -> Seq<Seq<char>>
    decreases s.len(),
{
    if s.len() == 0 {
        close_run(acc)
    } else if is_letter(s[0]) {
        runs_from(s.subrange(1, s.len() as int), acc.push(s[0]))
    } else {
        close_run(acc) + runs_from(s.subrange(1, s.len() as int), Seq::empty())
    }
}

/// The tokens of a text: its maximal runs of the letters `a`..`z`, left to
/// right. Every other character separates tokens.
pub open spec fn word_runs(s: Seq<char>) -> Seq<Seq<char>> {
    runs_from(s, Seq::empty())
}

/// The pattern that matches one token.
pub open spec fn word_pattern() -> Seq<char> {
    "[a-z]+"@
}

/// Names what `str::to_lowercase` returns for a text.
pub uninterp spec fn lower_of(s: Seq<char>) -> Seq<char>;

/// Relies on `str::to_lowercase`: the result depends on the characters alone.
#[verifier::external_body]
fn lowercase(s: &str) -> (r: String)
    ensures
        r@ == lower_of(s@),
{
    s.to_lowercase()
}

/// Relies on `regex::Regex::new` and `regex::Regex::find_iter`: the pattern
/// `[a-z]+` compiles, and its successive non-overlapping leftmost-first
/// matches are the maximal runs of `a`..`z`, left to right.
#[verifier::external_body]
fn find_runs(pattern: &str, text: &str) -> (r: Vec<String>)
    requires
        pattern@ == word_pattern(),
    ensures
        views(r@) == word_runs(text@),
{
    let re = regex::Regex::new(pattern).unwrap();
    re.find_iter(text).map(|m| m.as_str().to_string()).collect()
}

proof fn lemma_runs_are_words(s: Seq<char>, acc: Seq<char>)
    requires
        is_word(acc),
    ensures
        forall|k: int|
            0 <= k < runs_from(s, acc).len() ==> is_word(#[trigger] runs_from(s, acc)[k]),
    decreases s.len(),
{
    if s.len() > 0 {
        if is_letter(s[0]) {
            let a2 = acc.push(s[0]);
            assert forall|i: int| 0 <= i < a2.len() implies is_letter(#[trigger] a2[i]) by {
                if i < acc.len() {
                    assert(a2[i] == acc[i]);
                }
            }
            assert(is_word(a2));
            assert(runs_from(s, acc) == runs_from(s.subrange(1, s.len() as int), a2));
            lemma_runs_are_words(s.subrange(1, s.len() as int), a2);
        } else {
            let rest = s.subrange(1, s.len() as int);
            lemma_runs_are_words(rest, Seq::empty());
            let c = close_run(acc);
            assert forall|k: int| 0 <= k < runs_from(s, acc).len() implies is_word(
                #[trigger] runs_from(s, acc)[k],
            ) by {
                if k < c.len() {
                    assert(runs_from(s, acc)[k] == acc);
                } else {
                    assert(runs_from(s, acc)[k] == runs_from(rest, Seq::empty())[k - c.len()]);
                }
            }
        }
    } else {
        assert forall|k: int| 0 <= k < runs_from(s, acc).len() implies is_word(
            #[trigger] runs_from(s, acc)[k],
        ) by {
            assert(runs_from(s, acc)[k] == acc);
        }
    }
}

proof fn lemma_occurrences_absent(s: Seq<Seq<char>>, w: Seq<char>)
    requires
        !s.contains(w),
    ensures
        occurrences(s, w) == 0,
    decreases s.len(),
{
    if s.len() > 0 {
        assert(s.last() == s[s.len() - 1]);
        assert forall|x| s.drop_last().contains(x) implies s.contains(x) by {
            let k = choose|k: int| 0 <= k < s.drop_last().len() && s.drop_last()[k] == x;
            assert(s[k] == x);
        }
        lemma_occurrences_absent(s.drop_last(), w);
    }
}

proof fn lemma_tally_push(s: Seq<Seq<char>>, x: Seq<char>)
    ensures
        tally(s.push(x)) == tally(s).insert(x, count_in(tally(s), x) + 1),
{
    let t = s.push(x);
    assert(t.drop_last() =~= s);
    if !s.contains(x) {
        lemma_occurrences_absent(s, x);
    }
    assert forall|y| #[trigger] t.contains(y) <==> (s.contains(y) || y == x) by {
        if t.contains(y) && y != x {
            let k = choose|k: int| 0 <= k < t.len() && t[k] == y;
            assert(s[k] == y);
        }
        if s.contains(y) {
            let k = choose|k: int| 0 <= k < s.len() && s[k] == y;
            assert(t[k] == y);
        }
        if y == x {
            assert(t[s.len() as int] == y);
        }
    }
    assert(tally(t) =~= tally(s).insert(x, count_in(tally(s), x) + 1));
}

/// Distinct indices below `n`, `t` of them, leave one out where `t < n`.
proof fn lemma_unchosen_exists(idx: Seq<int>, n: int)
    requires
        idx.len() < n,
        idx.no_duplicates(),
    ensures
        exists|j: int| 0 <= j < n && !idx.contains(j),
{
    if forall|j: int| 0 <= j < n ==> idx.contains(j) {
        vstd::set_lib::lemma_int_range(0, n);
        idx.unique_seq_to_set();
        assert(vstd::set_lib::set_int_range(0, n).subset_of(idx.to_set()));
        vstd::set_lib::lemma_len_subset(vstd::set_lib::set_int_range(0, n), idx.to_set());
    }
}

/// A word made of the letters `a`..`z` only.
pub open spec fn is_word(w: Seq<char>) -> bool {
    forall|i: int| 0 <= i < w.len() ==> is_letter(#[trigger] w[i])
}

/// The count of `w` in a model's map, zero where it is absent.
pub open spec fn count_in(m: Map<Seq<char>, nat>, w: Seq<char>) -> nat {
    if m.contains_key(w) {
        m[w]
    } else {
        0
    }
}

/// Why a query on a model failed.
#[derive(Debug, Clone, Copy, PartialEq, Eq, Structural)]
pub enum ModelError {
    /// The model knows no word.
    EmptyModel,
}

/// Word frequencies counted from a corpus: each known word with its count,
/// kept in order of first occurrence.
pub struct FrequencyModel {
    words: Vec<String>,
    counts: Vec<usize>,
    total: usize,
    /// Indices into `words`, sorted by word.
    order: Vec<usize>,
}

impl FrequencyModel {
    /// The known words, in order of first occurrence.
    pub closed spec fn keys(&self) -> Seq<Seq<char>> {
        views(self.words@)
    }

    /// The counts, index by index with `keys`.
    pub closed spec fn count_seq(&self) -> Seq<usize> {
        self.counts@
    }

    /// The sum of all counts.
    pub closed spec fn spec_total(&self) -> nat {
        self.total as nat
    }

    pub closed spec fn wf(&self) -> bool {
        &&& self.words@.len() == self.counts@.len()
        &&& forall|i: int, j: int|
            0 <= i < j < self.words@.len() ==> #[trigger] self.words@[i]@ != #[trigger] self.words@[j]@
        &&& forall|i: int| 0 <= i < self.counts@.len() ==> #[trigger] self.counts@[i] > 0
        &&& forall|i: int| 0 <= i < self.words@.len() ==> is_word(#[trigger] self.words@[i]@)
        &&& self.total == sum(self.counts@)
        &&& self.order@.len() == self.words@.len()
        &&& forall|a: int| 0 <= a < self.order@.len() ==> #[trigger] self.order@[a] < self.words@.len()
        &&& forall|j: int| 0 <= j < self.words@.len() ==> #[trigger] self.order@.contains(j as usize)
        &&& forall|a: int, b: int|
            0 <= a < b < self.order@.len() ==> lex_lt(
                #[trigger] self.sorted_key(a),
                #[trigger] self.sorted_key(b),
            )
    }

    /// The `a`-th word in sorted order.
    pub closed spec fn sorted_key(&self, a: int) -> Seq<char> {
        self.words@[self.order@[a] as int]@
    }

    /// The index of `w` among the keys.
    pub closed spec fn index_of(&self, w: Seq<char>) -> int {
        choose|i: int| 0 <= i < self.words@.len() && self.words@[i]@ == w
    }

    pub closed spec fn view(&self) -> Map<Seq<char>, nat> {
        Map::new(
            |w: Seq<char>| self.keys().contains(w),
            |w: Seq<char>| self.counts@[self.index_of(w)] as nat,
        )
    }

    proof fn lemma_lookup(&self, i: int)
        requires
            self.wf(),
            0 <= i < self.words@.len(),
        ensures
            self@.contains_key(self.words@[i]@),
            self@[self.words@[i]@] == self.counts@[i],
            self.keys()[i] == self.words@[i]@,
    {
        let w = self.words@[i]@;
        assert(self.keys()[i] == w);
        let j = self.index_of(w);
        assert(0 <= j < self.words@.len() && self.words@[j]@ == w);
        if j < i {
            assert(self.words@[j]@ != self.words@[i]@);
        } else if i < j {
            assert(self.words@[i]@ != self.words@[j]@);
        }
    }

    /// A model with no words.
    pub fn new() -> (r: FrequencyModel)
        ensures
            r.wf(),
            r@ == Map::<Seq<char>, nat>::empty(),
            r.keys() == Seq::<Seq<char>>::empty(),
    {
        let r = FrequencyModel { words: Vec::new(), counts: Vec::new(), total: 0, order: Vec::new() };
        assert(r@ =~= Map::<Seq<char>, nat>::empty());
        assert(r.keys() =~= Seq::<Seq<char>>::empty());
        r
    }

    /// Counts one more occurrence of `w`.
    fn add_one(&mut self, w: String)
        requires
            old(self).wf(),
            is_word(w@),
            old(self).total < usize::MAX,
        ensures
            final(self).wf(),
            final(self)@ == old(self)@.insert(w@, count_in(old(self)@, w@) + 1),
            final(self).total == old(self).total + 1,
    {
        let ghost before = self@;
        match self.find(&w) {
            Some(i) => {
                proof {
                    self.lemma_lookup(i as int);
                    lemma_sum_bounds(self.counts@, i as int);
                }
                let c = self.counts[i] + 1;
                self.counts.set(i, c);
                self.total = self.total + 1;
                proof {
                    lemma_sum_update(old(self).counts@, i as int, c);
                    assert(self.keys() == old(self).keys());
                    assert forall|a: int| 0 <= a < self.order@.len() implies #[trigger] self.sorted_key(a)
                        == old(self).sorted_key(a) by {}
                    assert forall|a: int, b: int| 0 <= a < b < self.order@.len() implies lex_lt(
                        #[trigger] self.sorted_key(a),
                        #[trigger] self.sorted_key(b),
                    ) by {
                        assert(lex_lt(old(self).sorted_key(a), old(self).sorted_key(b)));
                    }
                    assert forall|k: int| 0 <= k < self.words@.len() implies #[trigger] self@[self.words@[k]@]
                        == before.insert(w@, count_in(before, w@) + 1)[self.words@[k]@] by {
                        self.lemma_lookup(k);
                        old(self).lemma_lookup(k);
                    }
                    assert forall|x: Seq<char>| self@.contains_key(x) implies #[trigger] self@[x]
                        == before.insert(w@, count_in(before, w@) + 1)[x] by {
                        let k = choose|k: int| 0 <= k < self.keys().len() && self.keys()[k] == x;
                        assert(self.words@[k]@ == x);
                    }
                    assert(self@ =~= before.insert(w@, count_in(before, w@) + 1));
                }
            },
            None => {
                let ghost n = self.words@.len();
                proof {
                    assert forall|k: int| 0 <= k < n implies #[trigger] self.words@[k]@ != w@ by {
                        if self.words@[k]@ == w@ {
                            assert(self.keys()[k] == w@);
                        }
                    }
                    assert(vstd::utf8::is_ascii_chars(w@));
                }
                let pos = self.lower_bound(&w);
                let idx = self.words.len();
                self.words.push(w);
                self.counts.push(1);
                self.total = self.total + 1;
                self.order.insert(pos, idx);
                proof {
                    let o = old(self).order@;
                    assert forall|a: int| 0 <= a < self.order@.len() implies #[trigger] self.order@[a]
                        < self.words@.len() by {
                        if a < pos {
                            assert(self.order@[a] == o[a]);
                        } else if a > pos {
                            assert(self.order@[a] == o[a - 1]);
                        }
                    }
                    assert forall|j: int| 0 <= j < self.words@.len() implies #[trigger] self.order@.contains(
                        j as usize,
                    ) by {
                        if j == n {
                            assert(self.order@[pos as int] == j as usize);
                        } else {
                            assert(o.contains(j as usize));
                            let a = choose|a: int| 0 <= a < o.len() && o[a] == j as usize;
                            if a < pos {
                                assert(self.order@[a] == j as usize);
                            } else {
                                assert(self.order@[a + 1] == j as usize);
                            }
                        }
                    }
                    assert forall|a: int| 0 <= a < self.order@.len() implies #[trigger] self.sorted_key(a)
                        == if a < pos {
                        old(self).sorted_key(a)
                    } else if a == pos {
                        w@
                    } else {
                        old(self).sorted_key(a - 1)
                    } by {
                        if a < pos {
                            assert(self.order@[a] == o[a]);
                        } else if a > pos {
                            assert(self.order@[a] == o[a - 1]);
                        }
                    }
                    assert forall|a: int, b: int| 0 <= a < b < self.order@.len() implies lex_lt(
                        #[trigger] self.sorted_key(a),
                        #[trigger] self.sorted_key(b),
                    ) by {
                        if b < pos {
                            assert(lex_lt(old(self).sorted_key(a), old(self).sorted_key(b)));
                        } else if b == pos {
                            assert(lex_lt(old(self).sorted_key(a), w@));
                        } else if a > pos {
                            assert(lex_lt(old(self).sorted_key(a - 1), old(self).sorted_key(b - 1)));
                        } else {
                            let k = old(self).sorted_key(b - 1);
                            assert(!lex_lt(k, w@));
                            assert(k != w@) by {
                                assert(o[b - 1] < n);
                                assert(old(self).words@[o[b - 1] as int]@ != w@);
                            }
                            lemma_lex_total(k, w@);
                            if a < pos {
                                assert(lex_lt(old(self).sorted_key(a), w@));
                                lemma_lex_trans(old(self).sorted_key(a), w@, k);
                            }
                        }
                    }
                    assert(self.counts@.drop_last() =~= old(self).counts@);
                    assert(self.keys() =~= old(self).keys().push(w@));
                    assert forall|k: int| 0 <= k < n implies #[trigger] self@[self.words@[k]@]
                        == old(self)@[self.words@[k]@] by {
                        self.lemma_lookup(k);
                        old(self).lemma_lookup(k);
                    }
                    self.lemma_lookup(n as int);
                    assert forall|x: Seq<char>| #[trigger] self@.contains_key(x) <==> before.insert(
                        w@,
                        count_in(before, w@) + 1,
                    ).contains_key(x) by {
                        if self@.contains_key(x) && x != w@ {
                            let k = choose|k: int| 0 <= k < self.keys().len() && self.keys()[k] == x;
                            assert(self.words@[k]@ == x);
                            assert(old(self).keys()[k] == x);
                        }
                        if before.contains_key(x) {
                            let k = choose|k: int| 0 <= k < old(self).keys().len() && old(self).keys()[k] == x;
                            assert(self.keys()[k] == x);
                        }
                    }
                    assert forall|x: Seq<char>| self@.contains_key(x) implies #[trigger] self@[x]
                        == before.insert(w@, count_in(before, w@) + 1)[x] by {
                        let k = choose|k: int| 0 <= k < self.keys().len() && self.keys()[k] == x;
                        assert(self.words@[k]@ == x);
                    }
                    assert(self@ =~= before.insert(w@, count_in(before, w@) + 1));
                }
            },
        }
    }

    /// The number of distinct known words.
    pub fn len(&self) -> (r: usize)
        requires
            self.wf(),
        ensures
            r == self@.dom().len(),
            r == self.keys().len(),
    {
        proof {
            self.lemma_dom_len();
        }
        self.words.len()
    }

    proof fn lemma_dom_len(&self)
        requires
            self.wf(),
        ensures
            self@.dom().len() == self.keys().len(),
            self@.dom() == self.keys().to_set(),
    {
        assert(self@.dom() =~= self.keys().to_set());
        assert(self.keys().no_duplicates()) by {
            assert forall|i: int, j: int|
                0 <= i < self.keys().len() && 0 <= j < self.keys().len() && i != j implies
                self.keys()[i] != self.keys()[j] by {
                if i < j {
                    assert(self.words@[i]@ != self.words@[j]@);
                } else {
                    assert(self.words@[j]@ != self.words@[i]@);
                }
            }
        }
        self.keys().unique_seq_to_set();
    }

    /// Every known word has a positive count.
    pub proof fn lemma_positive(&self, w: Seq<char>)
        requires
            self.wf(),
            self@.contains_key(w),
        ensures
            self@[w] > 0,
            count_in(self@, w) > 0,
            is_word(w),
    {
        let k = choose|k: int| 0 <= k < self.keys().len() && self.keys()[k] == w;
        assert(self.words@[k]@ == w);
        self.lemma_lookup(k);
    }

    /// The counts of the known words add up to the total, so their
    /// probabilities `count / total` add up to one on a model that knows a word.
    pub proof fn lemma_counts_sum_to_total(&self)
        requires
            self.wf(),
        ensures
            sum(self.count_seq()) == self.spec_total(),
            self.keys().len() == self.count_seq().len(),
            forall|i: int| 0 <= i < self.keys().len() ==> self@[#[trigger] self.keys()[i]]
                == self.count_seq()[i],
            self.keys().to_set() == self@.dom(),
            self.keys().no_duplicates(),
            self.keys().len() > 0 ==> self.spec_total() > 0,
    {
        self.lemma_dom_len();
        assert forall|i: int| 0 <= i < self.keys().len() implies self@[#[trigger] self.keys()[i]]
            == self.count_seq()[i] by {
            self.lemma_lookup(i);
        }
        if self.keys().len() > 0 {
            lemma_sum_bounds(self.counts@, 0);
        }
    }

    /// The sum of all counts: the denominator of a word's probability.
    pub fn total(&self) -> (r: usize)
        requires
            self.wf(),
        ensures
            r == self.spec_total(),
    {
        self.total
    }

    /// The probability of `word` as a fraction `(count, total)`; `(0, 0)` on
    /// a model that knows no word.
    pub fn probability(&self, word: &String) -> (r: (usize, usize))
        requires
            self.wf(),
        ensures
            r.0 == count_in(self@, word@),
            r.1 == self.spec_total(),
            r.0 <= r.1,
    {
        let c = self.count(word);
        proof {
            if self@.contains_key(word@) {
                let k = choose|k: int| 0 <= k < self.keys().len() && self.keys()[k] == word@;
                assert(self.words@[k]@ == word@);
                self.lemma_lookup(k);
                lemma_sum_bounds(self.counts@, k);
            }
        }
        (c, self.total)
    }

    /// The `i`-th known word, in order of first occurrence, with its count.
    pub fn entry(&self, i: usize) -> (r: (String, usize))
        requires
            self.wf(),
            i < self.keys().len(),
        ensures
            r.0@ == self.keys()[i as int],
            r.1 == self@[r.0@],
            self@.contains_key(r.0@),
    {
        proof {
            self.lemma_lookup(i as int);
        }
        (self.words[i].clone(), self.counts[i])
    }

    /// The `num` words of greatest count with their counts, by count from
    /// greatest down; all words where the model knows fewer. Every word left
    /// out counts no more than any word listed.
    pub fn most_common(&self, num: usize) -> (r: Vec<(String, usize)>)
        requires
            self.wf(),
        ensures
            r@.len() == if num < self.keys().len() { num as int } else { self.keys().len() as int },
            forall|i: int|
                0 <= i < r@.len() ==> self@.contains_key((#[trigger] r@[i]).0@) && self@[r@[i].0@]
                    == r@[i].1,
            forall|i: int, j: int| 0 <= i < j < r@.len() ==> (#[trigger] r@[i]).0@ != (#[trigger] r@[j]).0@,
            forall|i: int, j: int| 0 <= i < j < r@.len() ==> (#[trigger] r@[i]).1 >= (#[trigger] r@[j]).1,
            forall|x: Seq<char>, i: int|
                #![trigger self@[x], r@[i]]
                self@.contains_key(x) && 0 <= i < r@.len() && (forall|k: int|
                    0 <= k < r@.len() ==> (#[trigger] r@[k]).0@ != x) ==> self@[x] <= r@[i].1,
    {
        let n = self.words.len();
        let limit = if num < n { num } else { n };
        let mut chosen: Vec<bool> = Vec::new();
        let mut z: usize = 0;
        while z < n
            invariant
                z <= n,
                chosen@.len() == z,
                forall|j: int| 0 <= j < z ==> !(#[trigger] chosen@[j]),
            decreases n - z,
        {
            chosen.push(false);
            z += 1;
        }
        let ghost mut idx: Seq<int> = Seq::empty();
        let mut out: Vec<(String, usize)> = Vec::new();
        let mut t: usize = 0;
        while t < limit
            invariant
                self.wf(),
                n == self.words@.len(),
                limit <= n,
                t <= limit,
                chosen@.len() == n,
                idx.len() == t,
                out@.len() == t,
                idx.no_duplicates(),
                forall|a: int| 0 <= a < t ==> 0 <= #[trigger] idx[a] < n && chosen@[idx[a]],
                forall|j: int| 0 <= j < n && #[trigger] chosen@[j] ==> idx.contains(j),
                forall|a: int|
                    0 <= a < t ==> (#[trigger] out@[a]).0@ == self.words@[idx[a]]@ && out@[a].1
                        == self.counts@[idx[a]],
                forall|a: int, b: int|
                    0 <= a < b < t ==> self.counts@[#[trigger] idx[a]] >= self.counts@[#[trigger] idx[b]],
                forall|j: int, a: int|
                    0 <= j < n && !(#[trigger] chosen@[j]) && 0 <= a < t ==> self.counts@[j]
                        <= self.counts@[#[trigger] idx[a]],
            decreases limit - t,
        {
            proof {
                lemma_unchosen_exists(idx, n as int);
            }
            let mut best: usize = n;
            let mut k: usize = 0;
            while k < n
                invariant
                    n == self.words@.len(),
                    n == self.counts@.len(),
                    chosen@.len() == n,
                    k <= n,
                    best == n || (best < k && !chosen@[best as int]),
                    best == n ==> forall|j: int| 0 <= j < k ==> #[trigger] chosen@[j],
                    best < n ==> forall|j: int|
                        0 <= j < k && !(#[trigger] chosen@[j]) ==> self.counts@[j]
                            <= self.counts@[best as int],
                decreases n - k,
            {
                if !chosen[k] && (best == n || self.counts[k] > self.counts[best]) {
                    best = k;
                }
                k += 1;
            }
            if best == n {
                proof {
                    let j = choose|j: int| 0 <= j < n && !idx.contains(j);
                    assert(chosen@[j]);
                }
            }
            let ghost old_idx = idx;
            let ghost old_chosen = chosen@;
            chosen.set(best, true);
            proof {
                idx = idx.push(best as int);
                assert forall|a: int, b: int| 0 <= a < b < idx.len() implies idx[a] != idx[b] by {
                    if b == t {
                        assert(old_chosen[old_idx[a]]);
                    } else {
                        assert(old_idx[a] != old_idx[b]);
                    }
                }
                assert forall|j: int| 0 <= j < n && #[trigger] chosen@[j] implies idx.contains(j) by {
                    if j == best {
                        assert(idx[t as int] == j);
                    } else {
                        assert(old_chosen[j]);
                        let a = choose|a: int| 0 <= a < old_idx.len() && old_idx[a] == j;
                        assert(idx[a] == j);
                    }
                }
                assert forall|a: int| 0 <= a < idx.len() implies 0 <= #[trigger] idx[a] < n && chosen@[idx[a]] by {
                    if a < t {
                        assert(idx[a] == old_idx[a]);
                    }
                }
                assert forall|a: int, b: int|
                    0 <= a < b < idx.len() implies self.counts@[#[trigger] idx[a]] >= self.counts@[#[trigger] idx[b]] by {
                    if b == t {
                        assert(!old_chosen[best as int]);
                        assert(self.counts@[best as int] <= self.counts@[old_idx[a]]);
                    } else {
                        assert(self.counts@[old_idx[a]] >= self.counts@[old_idx[b]]);
                    }
                }
                assert forall|j: int, a: int|
                    0 <= j < n && !(#[trigger] chosen@[j]) && 0 <= a < idx.len() implies self.counts@[j]
                        <= self.counts@[#[trigger] idx[a]] by {
                    assert(!old_chosen[j]);
                    if a < t {
                        assert(idx[a] == old_idx[a]);
                        assert(self.counts@[j] <= self.counts@[old_idx[a]]);
                    }
                }
            }
            out.push((self.words[best].clone(), self.counts[best]));
            t += 1;
        }
        proof {
            assert forall|i: int|
                0 <= i < out@.len() implies self@.contains_key((#[trigger] out@[i]).0@) && self@[out@[i].0@]
                    == out@[i].1 by {
                self.lemma_lookup(idx[i]);
            }
            assert forall|i: int, j: int| 0 <= i < j < out@.len() implies (#[trigger] out@[i]).0@ != (
            #[trigger] out@[j]).0@ by {
                if idx[i] < idx[j] {
                    assert(self.words@[idx[i]]@ != self.words@[idx[j]]@);
                } else {
                    assert(idx[i] != idx[j]);
                    assert(self.words@[idx[j]]@ != self.words@[idx[i]]@);
                }
            }
            assert forall|i: int, j: int| 0 <= i < j < out@.len() implies (#[trigger] out@[i]).1 >= (
            #[trigger] out@[j]).1 by {
                assert(self.counts@[idx[i]] >= self.counts@[idx[j]]);
            }
            assert forall|x: Seq<char>, i: int|
                #![trigger self@[x], out@[i]]
                self@.contains_key(x) && 0 <= i < out@.len() && (forall|k: int|
                    0 <= k < out@.len() ==> (#[trigger] out@[k]).0@ != x) implies self@[x] <= out@[i].1 by {
                let j = choose|j: int| 0 <= j < self.keys().len() && self.keys()[j] == x;
                self.lemma_lookup(j);
                if chosen@[j] {
                    let a = choose|a: int| 0 <= a < idx.len() && idx[a] == j;
                    assert(out@[a].0@ == x);
                }
                assert(self.counts@[j] <= self.counts@[idx[i]]);
            }
        }
        out
    }

    /// Whether the model knows no word.
    pub fn is_empty(&self) -> (r: bool)
        requires
            self.wf(),
        ensures
            r == (self@ == Map::<Seq<char>, nat>::empty()),
    {
        proof {
            self.lemma_dom_len();
            if self.keys().len() == 0 {
                assert(self@ =~= Map::<Seq<char>, nat>::empty());
            } else {
                self.lemma_lookup(0);
                assert(!Map::<Seq<char>, nat>::empty().contains_key(self.words@[0]@));
            }
        }
        self.words.len() == 0
    }

    /// Whether `word` is a known word.
    pub fn contains(&self, word: &String) -> (r: bool)
        requires
            self.wf(),
        ensures
            r == self@.contains_key(word@),
    {
        match self.find(word) {
            Some(i) => {
                proof {
                    self.lemma_lookup(i as int);
                }
                true
            },
            None => false,
        }
    }

    /// How many times `word` occurred: zero for an unknown word.
    pub fn count(&self, word: &String) -> (r: usize)
        requires
            self.wf(),
        ensures
            r == count_in(self@, word@),
    {
        match self.find(word) {
            Some(i) => {
                proof {
                    self.lemma_lookup(i as int);
                }
                self.counts[i]
            },
            None => 0,
        }
    }

    /// Where `w` stands among the keys, if it is known.
    fn find(&self, w: &String) -> (r: Option<usize>)
        requires
            self.wf(),
        ensures
            match r {
                Some(i) => i < self.words@.len() && self.words@[i as int]@ == w@,
                None => !self@.contains_key(w@),
            },
    {
        if !w.as_str().is_ascii() {
            proof {
                if self@.contains_key(w@) {
                    let j = choose|j: int| 0 <= j < self.keys().len() && self.keys()[j] == w@;
                    assert(self.words@[j]@ == w@);
                    assert(is_word(w@));
                    assert(vstd::utf8::is_ascii_chars(w@));
                }
            }
            return None;
        }
        let pos = self.lower_bound(w);
        if pos < self.order.len() && self.words[self.order[pos]] == *w {
            return Some(self.order[pos]);
        }
        proof {
            if self@.contains_key(w@) {
                let j = choose|j: int| 0 <= j < self.keys().len() && self.keys()[j] == w@;
                assert(self.words@[j]@ == w@);
                assert(self.order@.contains(j as usize));
                let a = choose|a: int| 0 <= a < self.order@.len() && self.order@[a] == j as usize;
                assert(self.sorted_key(a) == w@);
                lemma_lex_asym(w@, w@);
                if a > pos {
                    assert(lex_lt(self.sorted_key(pos as int), self.sorted_key(a)));
                }
            }
        }
        None
    }

    /// The first place in sorted order whose word does not sort before `w`.
    fn lower_bound(&self, w: &String) -> (pos: usize)
        requires
            self.wf(),
            vstd::utf8::is_ascii_chars(w@),
        ensures
            pos <= self.order@.len(),
            forall|a: int| 0 <= a < pos ==> lex_lt(#[trigger] self.sorted_key(a), w@),
            forall|a: int| pos <= a < self.order@.len() ==> !lex_lt(#[trigger] self.sorted_key(a), w@),
    {
        let mut lo: usize = 0;
        let mut hi: usize = self.order.len();
        while lo < hi
            invariant
                self.wf(),
                vstd::utf8::is_ascii_chars(w@),
                lo <= hi <= self.order@.len(),
                forall|a: int| 0 <= a < lo ==> lex_lt(#[trigger] self.sorted_key(a), w@),
                forall|a: int| hi <= a < self.order@.len() ==> !lex_lt(#[trigger] self.sorted_key(a), w@),
            decreases hi - lo,
        {
            let mid = lo + (hi - lo) / 2;
            let key = &self.words[self.order[mid]];
            proof {
                assert(is_word(key@));
            }
            if lex_less(key.as_str(), w.as_str()) {
                proof {
                    assert forall|a: int| 0 <= a < mid + 1 implies lex_lt(#[trigger] self.sorted_key(a), w@) by {
                        if a < mid {
                            lemma_lex_trans(self.sorted_key(a), self.sorted_key(mid as int), w@);
                        }
                    }
                }
                lo = mid + 1;
            } else {
                proof {
                    assert forall|a: int| mid <= a < self.order@.len() implies !lex_lt(#[trigger] self.sorted_key(a), w@) by {
                        if a > mid && lex_lt(self.sorted_key(a), w@) {
                            lemma_lex_trans(self.sorted_key(mid as int), self.sorted_key(a), w@);
                        }
                    }
                }
                hi = mid;
            }
        }
        lo
    }
}

/// Counts the tokens of `text`: its maximal runs of the letters `a`..`z`.
/// Letters of other cases are separators here; see `process_words`.
pub fn count_words(text: &str) -> (r: FrequencyModel)
    ensures
        r.wf(),
        r@ == tally(word_runs(text@)),
{
    let runs = find_runs("[a-z]+", text);
    let ghost toks = word_runs(text@);
    proof {
        lemma_runs_are_words(text@, Seq::empty());
    }
    let mut m = FrequencyModel::new();
    let mut i: usize = 0;
    while i < runs.len()
        invariant
            views(runs@) == toks,
            forall|k: int| 0 <= k < toks.len() ==> is_word(#[trigger] toks[k]),
            i <= runs@.len(),
            m.wf(),
            m.total == i,
            m@ == tally(toks.subrange(0, i as int)),
        decreases runs@.len() - i,
    {
        let w = runs[i].clone();
        assert(w@ == toks[i as int]);
        m.add_one(w);
        proof {
            lemma_tally_push(toks.subrange(0, i as int), toks[i as int]);
            assert(toks.subrange(0, i as int).push(toks[i as int]) =~= toks.subrange(0, i + 1));
        }
        i += 1;
    }
    assert(toks.subrange(0, runs@.len() as int) =~= toks);
    m
}

/// Builds a model from a corpus: the text is lowercased, then its maximal
/// runs of `a`..`z` are counted.
pub fn process_words(input: &str) -> (r: FrequencyModel)
    ensures
        r.wf(),
        r@ == tally(word_runs(lower_of(input@))),
{
    let lowered = lowercase(input);
    count_words(lowered.as_str())
}

} // verus!
