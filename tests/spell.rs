use std::collections::HashMap;

use spellcheck::{
    count_words, edits1, edits2, parse_test_set, process_words, FrequencyModel, ModelError, ParseError,
};

fn as_map(m: &FrequencyModel) -> HashMap<String, usize> {
    let mut out = HashMap::new();
    for i in 0..m.len() {
        let (k, v) = m.entry(i);
        out.insert(k, v);
    }
    out
}

fn strings(v: &[&str]) -> Vec<String> {
    v.iter().map(|s| s.to_string()).collect()
}

#[test]
fn test_process() {
    let words = process_words("This is a TEST.");

    let map = as_map(&words);
    let mut vec = map.keys().collect::<Vec<_>>();
    vec.sort_by(|a, b| a.cmp(b));
    assert_eq!(vec!["a", "is", "test", "this"], vec);

    let words = process_words("This is a test. 123; A TEST this is.");

    assert_eq!(
        HashMap::from([
            (String::from("a"), 2),
            (String::from("is"), 2),
            (String::from("test"), 2),
            (String::from("this"), 2),
        ]),
        as_map(&words)
    );
}

#[test]
fn count_words_keeps_case_as_separator() {
    let words = count_words("abC dE");
    assert_eq!(
        HashMap::from([(String::from("ab"), 1), (String::from("d"), 1)]),
        as_map(&words)
    );
}

#[test]
fn process_words_lowercases_before_counting() {
    let words = process_words("ABC abc Abc");
    assert_eq!(HashMap::from([(String::from("abc"), 3)]), as_map(&words));
    assert_eq!(3, words.total());
}

#[test]
fn empty_corpus_gives_empty_model() {
    let words = process_words("");
    assert_eq!(0, words.len());
    assert!(words.is_empty());
    let words = process_words("123 ;;; 456");
    assert!(words.is_empty());
}

#[test]
fn first_occurrence_order_is_kept() {
    let words = process_words("b a b c");
    assert_eq!((String::from("b"), 2), words.entry(0));
    assert_eq!((String::from("a"), 1), words.entry(1));
    assert_eq!((String::from("c"), 1), words.entry(2));
}

#[test]
fn max_picks_greatest_count() {
    let words = process_words("the cat the dog the cat");
    assert_eq!(Ok((String::from("the"), 3)), words.max());
}

#[test]
fn max_breaks_ties_by_first_occurrence() {
    let words = process_words("dog cat cat dog");
    assert_eq!(Ok((String::from("dog"), 2)), words.max());
}

#[test]
fn max_on_empty_model_fails() {
    let words = process_words("");
    assert_eq!(Err(ModelError::EmptyModel), words.max());
}

#[test]
fn probability_is_count_over_total() {
    let words = process_words("the cat the dog");
    assert_eq!((2, 4), words.probability(&String::from("the")));
    assert_eq!((0, 4), words.probability(&String::from("quintessential")));
    let empty = process_words("");
    assert_eq!((0, 0), empty.probability(&String::from("the")));
}

#[test]
fn probabilities_sum_to_one() {
    let words = process_words("This is a test. 123; A TEST this is. Once more.");
    let total = words.total();
    let mut sum = 0usize;
    for i in 0..words.len() {
        let (k, _) = words.entry(i);
        let (num, den) = words.probability(&k);
        assert_eq!(total, den);
        sum += num;
    }
    assert_eq!(total, sum);
    let p: f64 = (0..words.len())
        .map(|i| {
            let (num, den) = words.probability(&words.entry(i).0);
            num as f64 / den as f64
        })
        .sum();
    assert!((p - 1.0).abs() < 1e-9);
}

#[test]
fn edits1_counts_and_order() {
    let e = edits1("ab");
    // 2 deletions, 1 transposition, 52 replacements, 78 insertions
    assert_eq!(133, e.len());
    assert_eq!("b", e[0]);
    assert_eq!("a", e[1]);
    assert_eq!("ba", e[2]);
    assert_eq!("ab", e[3]);
    assert_eq!("bb", e[4]);
    assert_eq!("aab", e[55]);
    assert_eq!("abz", e[132]);
}

#[test]
fn edits1_of_empty_word_is_the_alphabet() {
    let e = edits1("");
    assert_eq!(26, e.len());
    assert_eq!("a", e[0]);
    assert_eq!("z", e[25]);
}

#[test]
fn edits1_stay_within_one_edit() {
    let w = "spell";
    for s in edits1(w) {
        let d = s.len() as i64 - w.len() as i64;
        assert!(d == -1 || d == 0 || d == 1);
        assert!(s.chars().all(|c| c.is_ascii_lowercase()));
    }
}

#[test]
fn edits2_expands_each_edit() {
    let e = edits2("a");
    // edits1("a") has 1 + 0 + 26 + 52 = 79 strings
    let expected: usize = edits1("a").iter().map(|x| edits1(x).len()).sum();
    assert_eq!(expected, e.len());
    assert!(e.contains(&String::from("")));
    assert!(e.contains(&String::from("xyz")) == false);
    assert!(e.contains(&String::from("xy")));
}

#[test]
fn known_filters_and_dedups() {
    let model = process_words("cat dog cat");
    let r = model.known(strings(&["cat", "dog", "zzz", "cat"]));
    assert_eq!(strings(&["cat", "dog"]), r);
}

#[test]
fn known_scenario() {
    let model = process_words("a cat and a dog");
    let mut r = model.known(strings(&["cat", "dog", "zzz"]));
    r.sort();
    assert_eq!(strings(&["cat", "dog"]), r);
}

#[test]
fn candidates_exact_match_wins() {
    let model = process_words("word ward");
    assert_eq!(strings(&["word"]), model.candidates("word"));
}

#[test]
fn candidates_prefer_distance_one() {
    let model = process_words("cart carts cat");
    // "cart" is one edit from "carx"; "cat" and "carts" are two away
    assert_eq!(strings(&["cart"]), model.candidates("carx"));
}

#[test]
fn candidates_fall_back_to_distance_two() {
    let model = process_words("hello");
    assert_eq!(strings(&["hello"]), model.candidates("hxllx"));
}

#[test]
fn candidates_fall_back_to_word() {
    let model = process_words("hello");
    assert_eq!(strings(&["zzzzqqqq"]), model.candidates("zzzzqqqq"));
}

#[test]
fn correction_inserts_letter() {
    let model = process_words("spelling is fun and spelling is hard");
    assert_eq!(Ok(String::from("spelling")), model.correction("speling"));
}

#[test]
fn correction_keeps_known_word() {
    let model = process_words("word words sword");
    assert_eq!(Ok(String::from("word")), model.correction("word"));
}

#[test]
fn correction_keeps_unknown_far_word() {
    let model = process_words("the cat sat on the mat");
    assert_eq!(Ok(String::from("zzzzqqqq")), model.correction("zzzzqqqq"));
}

#[test]
fn correction_picks_most_frequent_candidate() {
    let model = process_words("cat bat bat hat");
    assert_eq!(Ok(String::from("bat")), model.correction("xat"));
}

#[test]
fn correction_ties_go_to_first_candidate() {
    let model = process_words("hat bat");
    // deletions and replacements of "xat" reach "bat" before "hat"
    assert_eq!(Ok(String::from("bat")), model.correction("xat"));
}

#[test]
fn correction_transposition() {
    let model = process_words("poetry poet");
    assert_eq!(Ok(String::from("poetry")), model.correction("peotry"));
}

#[test]
fn correction_on_empty_model_fails() {
    let model = process_words("");
    assert_eq!(Err(ModelError::EmptyModel), model.correction("word"));
}

#[test]
fn most_common_orders_by_count() {
    let words = process_words("b a c a c a d");
    assert_eq!(
        vec![(String::from("a"), 3), (String::from("c"), 2)],
        words.most_common(2)
    );
    let all = words.most_common(10);
    assert_eq!(4, all.len());
    assert_eq!((String::from("a"), 3), all[0]);
    assert_eq!((String::from("c"), 2), all[1]);
    assert_eq!(1, all[2].1);
    assert_eq!(1, all[3].1);
    assert!(words.most_common(0).is_empty());
}

#[test]
fn count_of_known_and_unknown_words() {
    let words = process_words("one two two");
    assert_eq!(2, words.count(&String::from("two")));
    assert_eq!(0, words.count(&String::from("three")));
    assert!(words.contains(&String::from("one")));
    assert!(!words.contains(&String::from("three")));
}

#[test]
fn parse_test_set_pairs_each_misspelling() {
    let r = parse_test_set("access: acess\nanswer: anser ansr\r\n").unwrap();
    assert_eq!(
        vec![
            (String::from("access"), String::from("acess")),
            (String::from("answer"), String::from("anser")),
            (String::from("answer"), String::from("ansr")),
        ],
        r
    );
}

#[test]
fn parse_test_set_stops_at_next_separator() {
    let r = parse_test_set("a: b c: d").unwrap();
    assert_eq!(
        vec![
            (String::from("a"), String::from("b")),
            (String::from("a"), String::from("c")),
        ],
        r
    );
}

#[test]
fn parse_test_set_rejects_line_without_separator() {
    assert_eq!(
        Err(ParseError::MissingSeparator(1)),
        parse_test_set("a: b\nnothing here\n")
    );
    assert_eq!(Ok(vec![]), parse_test_set(""));
}

#[test]
fn run_test_set_scores() {
    let words = process_words("spelling is hard and poetry is nice");
    let tests = vec![
        (String::from("spelling"), String::from("speling")),
        (String::from("poetry"), String::from("peotry")),
        (String::from("quintessential"), String::from("quintessental")),
        (String::from("and"), String::from("is")),
    ];
    let rep = words.run_test_set(&tests).unwrap();
    assert_eq!(2, rep.good);
    assert_eq!(1, rep.unknown);
    assert_eq!(
        vec![
            (
                String::from("quintessental"),
                String::from("quintessental"),
                String::from("quintessential")
            ),
            (String::from("is"), String::from("is"), String::from("and")),
        ],
        rep.misses
    );
}

#[test]
fn run_test_set_on_empty_model_fails() {
    let words = process_words("");
    let tests = vec![(String::from("a"), String::from("b"))];
    assert!(matches!(words.run_test_set(&tests), Err(ModelError::EmptyModel)));
}

#[test]
fn lookups_find_every_word_whatever_the_insertion_order() {
    let corpus = "zeta alpha mid beta omega a zz b alphabet alp";
    let words = process_words(corpus);
    for w in corpus.split(' ') {
        assert!(words.contains(&w.to_string()), "{w}");
        assert_eq!(1, words.count(&w.to_string()));
    }
    for w in ["", "al", "alph", "zzz", "omegaa", "c", "über"] {
        assert!(!words.contains(&w.to_string()), "{w}");
    }
}

#[test]
fn correction_on_a_larger_model() {
    let mut corpus = String::new();
    for a in b'a'..=b'z' {
        for b in b'a'..=b'z' {
            for c in [b'e', b'o', b't'] {
                corpus.push(a as char);
                corpus.push(b as char);
                corpus.push(c as char);
                corpus.push(' ');
            }
        }
    }
    corpus.push_str("spelling spelling ");
    let words = process_words(&corpus);
    assert_eq!(26 * 26 * 3 + 1, words.len());
    assert_eq!(Ok(String::from("spelling")), words.correction("speling"));
    assert_eq!(Ok(String::from("zzzzqqqq")), words.correction("zzzzqqqq"));
}

#[test]
fn run_test_set_counts_unknown_even_when_correct() {
    let words = process_words("hello world");
    let tests = vec![(String::from("zzzzqqqq"), String::from("zzzzqqqq"))];
    let rep = words.run_test_set(&tests).unwrap();
    assert_eq!(1, rep.good);
    assert_eq!(1, rep.unknown);
    assert!(rep.misses.is_empty());
}
