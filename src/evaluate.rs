use vstd::prelude::*;

use crate::corrector::corrected_word;
use crate::model::{FrequencyModel, ModelError};

verus! {

/// A labelled test pair as character sequences: the expected word, then the
/// misspelling.
pub open spec fn pair_views(ts: Seq<(String, String)>) -> Seq<(Seq<char>, Seq<char>)> {
    ts.map_values(|p: (String, String)| (p.0@, p.1@))
}

/// How many misspellings of `ts` are corrected to their expected word.
pub open spec fn good_count(ts: Seq<(Seq<char>, Seq<char>)>, m: Map<Seq<char>, nat>) -> nat
    decreases ts.len(),
{
    if ts.len() == 0 {
        0
    } else {
        let t = ts.last();
        good_count(ts.drop_last(), m) + if corrected_word(t.1, m) == t.0 { 1nat } else { 0nat }
    }
}

/// How many pairs of `ts` have an expected word that the model does not
/// know, whether or not the misspelling was corrected to it.
pub open spec fn unknown_count(ts: Seq<(Seq<char>, Seq<char>)>, m: Map<Seq<char>, nat>) -> nat
    decreases ts.len(),
{
    if ts.len() == 0 {
        0
    } else {
        let t = ts.last();
        unknown_count(ts.drop_last(), m) + if !m.contains_key(t.0) {
            1nat
        } else {
            0nat
        }
    }
}

/// The missed pairs of `ts`, in order: misspelling, correction given,
/// expected word.
pub open spec fn misses_of(ts: Seq<(Seq<char>, Seq<char>)>, m: Map<Seq<char>, nat>) -> Seq<
    (Seq<char>, Seq<char>, Seq<char>),
>
    decreases ts.len(),
{
    if ts.len() == 0 {
        Seq::empty()
    } else {
        let t = ts.last();
        let p = misses_of(ts.drop_last(), m);
        if corrected_word(t.1, m) != t.0 {
            p.push((t.1, corrected_word(t.1, m), t.0))
        } else {
            p
        }
    }
}

/// The outcome of a labelled test set.
pub struct Report {
    /// Misspellings corrected to their expected word.
    pub good: usize,
    /// Pairs whose expected word the model does not know, counted whether
    /// the correction was right or not.
    pub unknown: usize,
    /// Each miss: misspelling, correction given, expected word.
    pub misses: Vec<(String, String, String)>,
}

pub open spec fn miss_views(v: Seq<(String, String, String)>) -> Seq<(Seq<char>, Seq<char>, Seq<char>)> {
    v.map_values(|p: (String, String, String)| (p.0@, p.1@, p.2@))
}

impl FrequencyModel {
    /// Corrects each misspelling of `tests` (pairs of expected word and
    /// misspelling) and scores the results. Fails on a model that knows no
    /// word.
    pub fn run_test_set(&self, tests: &Vec<(String, String)>) -> (r: Result<Report, ModelError>)
        requires
            self.wf(),
        ensures
            r is Err <==> self@ == Map::<Seq<char>, nat>::empty(),
            match r {
                Ok(rep) => {
                    &&& rep.good == good_count(pair_views(tests@), self@)
                    &&& rep.unknown == unknown_count(pair_views(tests@), self@)
                    &&& miss_views(rep.misses@) == misses_of(pair_views(tests@), self@)
                },
                Err(e) => e == ModelError::EmptyModel,
            },
    {
        if self.is_empty() {
            return Err(ModelError::EmptyModel);
        }
        let ghost ts = pair_views(tests@);
        let mut good: usize = 0;
        let mut unknown: usize = 0;
        let mut misses: Vec<(String, String, String)> = Vec::new();
        let mut i: usize = 0;
        while i < tests.len()
            invariant
                self.wf(),
                self@ != Map::<Seq<char>, nat>::empty(),
                ts == pair_views(tests@),
                i <= tests@.len(),
                good <= i,
                unknown <= i,
                good == good_count(ts.subrange(0, i as int), self@),
                unknown == unknown_count(ts.subrange(0, i as int), self@),
                miss_views(misses@) == misses_of(ts.subrange(0, i as int), self@),
            decreases tests@.len() - i,
        {
            let right = &tests[i].0;
            let wrong = &tests[i].1;
            let ghost sub = ts.subrange(0, i + 1);
            proof {
                assert(sub.drop_last() =~= ts.subrange(0, i as int));
                assert(sub.last() == (right@, wrong@));
            }
            let fixed = match self.correction(wrong.as_str()) {
                Ok(w) => w,
                Err(_) => {
                    return Err(ModelError::EmptyModel);
                },
            };
            if !self.contains(right) {
                unknown = unknown + 1;
            }
            if fixed == *right {
                good = good + 1;
            } else {
                let ghost before = misses@;
                misses.push((wrong.clone(), fixed, right.clone()));
                assert(miss_views(misses@) =~= miss_views(before).push((wrong@, corrected_word(wrong@, self@), right@)));
            }
            i += 1;
        }
        assert(ts.subrange(0, tests@.len() as int) =~= ts);
        Ok(Report { good, unknown, misses })
    }
}

} // verus!
