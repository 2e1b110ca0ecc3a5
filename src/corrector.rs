use vstd::prelude::*;

use crate::edits::{edits1, edits1_seq, edits2, edits2_seq};
use crate::model::{count_in, FrequencyModel, ModelError};
use crate::text::views;

verus! {

/// The words of `s` that `m` knows, each once, in order of first occurrence.
pub open spec fn known_seq(s: Seq<Seq<char>>, m: Map<Seq<char>, nat>) -> Seq<Seq<char>>
    decreases s.len(),
{
    if s.len() == 0 {
        Seq::empty()
    } else {
        let p = known_seq(s.drop_last(), m);
        if m.contains_key(s.last()) && !p.contains(s.last()) {
            p.push(s.last())
        } else {
            p
        }
    }
}

/// The candidate corrections of `w`, by tier: `w` itself if it is known;
/// else the known words one edit away; else those two edits away; else `w`.
pub open spec fn candidate_words(w: Seq<char>, m: Map<Seq<char>, nat>) -> Seq<Seq<char>> {
    if m.contains_key(w) {
        seq![w]
    } else if known_seq(edits1_seq(w), m).len() > 0 {
        known_seq(edits1_seq(w), m)
    } else if known_seq(edits2_seq(w), m).len() > 0 {
        known_seq(edits2_seq(w), m)
    } else {
        seq![w]
    }
}

/// Scanning `s` left to right, the first word of strictly greatest count,
/// with that count; the empty word and zero before any positive count.
pub open spec fn best_of(s: Seq<Seq<char>>, m: Map<Seq<char>, nat>) -> (Seq<char>, nat)
    decreases s.len(),
{
    if s.len() == 0 {
        (Seq::empty(), 0)
    } else {
        let p = best_of(s.drop_last(), m);
        if count_in(m, s.last()) > p.1 {
            (s.last(), count_in(m, s.last()))
        } else {
            p
        }
    }
}

/// The correction of `w`: the only candidate, or else the first candidate
/// of greatest count.
pub open spec fn corrected_word(w: Seq<char>, m: Map<Seq<char>, nat>) -> Seq<char> {
    let c = candidate_words(w, m);
    if c.len() == 1 {
        c[0]
    } else {
        best_of(c, m).0
    }
}

proof fn lemma_best_of(s: Seq<Seq<char>>, m: Map<Seq<char>, nat>)
    ensures
        forall|k: int| 0 <= k < s.len() ==> count_in(m, #[trigger] s[k]) <= best_of(s, m).1,
        best_of(s, m).1 > 0 ==> s.contains(best_of(s, m).0) && count_in(m, best_of(s, m).0)
            == best_of(s, m).1,
    decreases s.len(),
{
    if s.len() > 0 {
        let d = s.drop_last();
        lemma_best_of(d, m);
        assert forall|k: int| 0 <= k < s.len() implies count_in(m, #[trigger] s[k]) <= best_of(
            s,
            m,
        ).1 by {
            if k < d.len() {
                assert(s[k] == d[k]);
            }
        }
        if best_of(s, m).1 > 0 && best_of(s, m) == best_of(d, m) {
            let k = choose|k: int| 0 <= k < d.len() && d[k] == best_of(d, m).0;
            assert(s[k] == d[k]);
        } else if best_of(s, m).1 > 0 {
            assert(s[s.len() - 1] == s.last());
        }
    }
}

/// A word is among the known words of `s` exactly when `s` holds it and
/// `m` knows it; none is listed twice.
pub proof fn lemma_known_seq(s: Seq<Seq<char>>, m: Map<Seq<char>, nat>)
    ensures
        forall|x: Seq<char>| #[trigger]
            known_seq(s, m).contains(x) <==> (s.contains(x) && m.contains_key(x)),
        known_seq(s, m).no_duplicates(),
    decreases s.len(),
{
    if s.len() > 0 {
        let d = s.drop_last();
        let p = known_seq(d, m);
        lemma_known_seq(d, m);
        assert forall|x: Seq<char>| #[trigger] s.contains(x) <==> (d.contains(x) || x == s.last()) by {
            if s.contains(x) && x != s.last() {
                let k = choose|k: int| 0 <= k < s.len() && s[k] == x;
                assert(d[k] == x);
            }
            if d.contains(x) {
                let k = choose|k: int| 0 <= k < d.len() && d[k] == x;
                assert(s[k] == x);
            }
            if x == s.last() {
                assert(s[s.len() - 1] == x);
            }
        }
        if m.contains_key(s.last()) && !p.contains(s.last()) {
            let q = p.push(s.last());
            assert forall|x: Seq<char>| #[trigger] q.contains(x) <==> (p.contains(x) || x == s.last()) by {
                if q.contains(x) && x != s.last() {
                    let k = choose|k: int| 0 <= k < q.len() && q[k] == x;
                    assert(p[k] == x);
                }
                if p.contains(x) {
                    let k = choose|k: int| 0 <= k < p.len() && p[k] == x;
                    assert(q[k] == x);
                }
                if x == s.last() {
                    assert(q[p.len() as int] == x);
                }
            }
        }
    }
}

/// Whether `v` holds a string equal to `w`.
fn holds(v: &Vec<String>, w: &String) -> (r: bool)
    ensures
        r == views(v@).contains(w@),
{
    let mut i: usize = 0;
    while i < v.len()
        invariant
            i <= v@.len(),
            forall|j: int| 0 <= j < i ==> #[trigger] v@[j]@ != w@,
        decreases v@.len() - i,
    {
        if v[i] == *w {
            assert(views(v@)[i as int] == w@);
            return true;
        }
        i += 1;
    }
    proof {
        if views(v@).contains(w@) {
            let j = choose|j: int| 0 <= j < views(v@).len() && views(v@)[j] == w@;
            assert(v@[j]@ == w@);
        }
    }
    false
}

impl FrequencyModel {
    /// The words of `words` that the model knows, each once, in order of
    /// first occurrence.
    pub fn known(&self, words: Vec<String>) -> (r: Vec<String>)
        requires
            self.wf(),
        ensures
            views(r@) == known_seq(views(words@), self@),
            forall|x: Seq<char>| #[trigger]
                views(r@).contains(x) <==> (views(words@).contains(x) && self@.contains_key(x)),
            views(r@).no_duplicates(),
    {
        let ghost s = views(words@);
        let mut out: Vec<String> = Vec::new();
        let mut i: usize = 0;
        while i < words.len()
            invariant
                self.wf(),
                s == views(words@),
                i <= words@.len(),
                views(out@) == known_seq(s.subrange(0, i as int), self@),
            decreases words@.len() - i,
        {
            let w = &words[i];
            proof {
                assert(s.subrange(0, i + 1).drop_last() =~= s.subrange(0, i as int));
                assert(s.subrange(0, i + 1).last() == w@);
            }
            if self.contains(w) && !holds(&out, w) {
                out.push(w.clone());
                assert(views(out@) =~= known_seq(s.subrange(0, i + 1), self@));
            }
            i += 1;
        }
        assert(s.subrange(0, words@.len() as int) =~= s);
        proof {
            lemma_known_seq(s, self@);
        }
        out
    }

    /// The candidate corrections of `word`, by tier: the word itself if it
    /// is known; else the known words one edit away; else the known words
    /// two edits away; else the word itself.
    pub fn candidates(&self, word: &str) -> (r: Vec<String>)
        requires
            self.wf(),
        ensures
            views(r@) == candidate_words(word@, self@),
    {
        let w = word.to_string();
        proof {
            vstd::string::to_string_from_display_ensures_for_str(word, w);
        }
        if self.contains(&w) {
            let r = vec![w];
            assert(views(r@) =~= seq![word@]);
            return r;
        }
        let e1 = self.known(edits1(word));
        if e1.len() > 0 {
            return e1;
        }
        let e2 = self.known(edits2(word));
        if e2.len() > 0 {
            return e2;
        }
        let r = vec![w];
        assert(views(r@) =~= seq![word@]);
        r
    }
}

/// Correcting a known word gives the word back.
pub proof fn lemma_known_word_kept(m: &FrequencyModel, w: Seq<char>)
    requires
        m.wf(),
        m@.contains_key(w),
    ensures
        corrected_word(w, m@) == w,
{
}

/// Where the word is unknown and some known word is one edit away, the
/// candidates are exactly the known words one edit away: nothing only two
/// edits away is among them.
pub proof fn lemma_nearest_tier_wins(m: &FrequencyModel, w: Seq<char>, x: Seq<char>)
    requires
        m.wf(),
        !m@.contains_key(w),
        edits1_seq(w).contains(x),
        m@.contains_key(x),
    ensures
        candidate_words(w, m@) == known_seq(edits1_seq(w), m@),
        forall|c: Seq<char>| #[trigger]
            candidate_words(w, m@).contains(c) ==> edits1_seq(w).contains(c) && m@.contains_key(c),
{
    lemma_known_seq(edits1_seq(w), m@);
    assert(known_seq(edits1_seq(w), m@).contains(x));
}

/// The candidates of a word for a model that knows at least one word are
/// never empty, and the correction is one of them.
pub proof fn lemma_correction_is_candidate(m: &FrequencyModel, w: Seq<char>)
    requires
        m.wf(),
    ensures
        candidate_words(w, m@).len() > 0,
        candidate_words(w, m@).contains(corrected_word(w, m@)),
{
    let c = candidate_words(w, m@);
    if c.len() == 1 {
        assert(c[0] == c[0]);
    } else {
        lemma_best_of(c, m@);
        lemma_known_seq(edits1_seq(w), m@);
        lemma_known_seq(edits2_seq(w), m@);
        let k0 = c[0];
        assert(c.contains(k0));
        assert(m@.contains_key(k0));
        m.lemma_positive(k0);
    }
}

impl FrequencyModel {
    /// The word of greatest count, with its count; of several such words,
    /// the one that first occurred. Fails on a model that knows no word.
    pub fn max(&self) -> (r: Result<(String, usize), ModelError>)
        requires
            self.wf(),
        ensures
            r is Err <==> self@ == Map::<Seq<char>, nat>::empty(),
            match r {
                Ok((k, v)) => {
                    &&& (k@, v as nat) == best_of(self.keys(), self@)
                    &&& self@.contains_key(k@)
                    &&& self@[k@] == v
                    &&& forall|x: Seq<char>| #[trigger] self@.contains_key(x) ==> self@[x] <= v
                },
                Err(e) => e == ModelError::EmptyModel,
            },
    {
        if self.is_empty() {
            return Err(ModelError::EmptyModel);
        }
        let ghost ks = self.keys();
        let mut max_key = String::new();
        let mut max_value: usize = 0;
        let mut i: usize = 0;
        let n = self.len();
        while i < n
            invariant
                self.wf(),
                ks == self.keys(),
                n == ks.len(),
                i <= n,
                (max_key@, max_value as nat) == best_of(ks.subrange(0, i as int), self@),
            decreases n - i,
        {
            let (k, v) = self.entry(i);
            proof {
                assert(ks.subrange(0, i + 1).drop_last() =~= ks.subrange(0, i as int));
                assert(ks.subrange(0, i + 1).last() == k@);
            }
            if v > max_value {
                max_value = v;
                max_key = k;
            }
            i += 1;
        }
        proof {
            assert(ks.subrange(0, n as int) =~= ks);
            self.lemma_counts_sum_to_total();
            lemma_best_of(ks, self@);
            if ks.len() == 0 {
                assert(ks.to_set() =~= Set::<Seq<char>>::empty());
                assert(self@ =~= Map::<Seq<char>, nat>::empty());
            }
            assert(ks.to_set().contains(ks[0]));
            self.lemma_positive(ks[0]);
            assert(count_in(self@, ks[0]) > 0);
            assert forall|x: Seq<char>| #[trigger] self@.contains_key(x) implies self@[x]
                <= max_value by {
                assert(self.keys().to_set().contains(x));
                let k = choose|k: int| 0 <= k < ks.len() && ks[k] == x;
                assert(count_in(self@, ks[k]) <= max_value);
            }
            let k = choose|k: int| 0 <= k < ks.len() && ks[k] == max_key@;
            assert(self.keys().to_set().contains(max_key@));
        }
        Ok((max_key, max_value))
    }

    /// The most likely intended word for `word`: the only candidate, or else
    /// the first candidate of greatest count. Fails on a model that knows no
    /// word.
    pub fn correction(&self, word: &str) -> (r: Result<String, ModelError>)
        requires
            self.wf(),
        ensures
            r is Err <==> self@ == Map::<Seq<char>, nat>::empty(),
            match r {
                Ok(s) => s@ == corrected_word(word@, self@),
                Err(e) => e == ModelError::EmptyModel,
            },
    {
        if self.is_empty() {
            return Err(ModelError::EmptyModel);
        }
        let c = self.candidates(word);
        let ghost cs = views(c@);
        if c.len() == 1 {
            return Ok(c[0].clone());
        }
        let mut max_key = String::new();
        let mut max_value: usize = 0;
        let mut i: usize = 0;
        while i < c.len()
            invariant
                self.wf(),
                cs == views(c@),
                i <= c@.len(),
                (max_key@, max_value as nat) == best_of(cs.subrange(0, i as int), self@),
            decreases c@.len() - i,
        {
            let v = self.count(&c[i]);
            proof {
                assert(cs.subrange(0, i + 1).drop_last() =~= cs.subrange(0, i as int));
                assert(cs.subrange(0, i + 1).last() == c@[i as int]@);
            }
            if v > max_value {
                max_value = v;
                max_key = c[i].clone();
            }
            i += 1;
        }
        assert(cs.subrange(0, c@.len() as int) =~= cs);
        Ok(max_key)
    }
}

} // verus!
