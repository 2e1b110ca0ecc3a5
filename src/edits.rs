use vstd::prelude::*;

use crate::text::{chars_of, push_char, push_range, views};

verus! {

/// A lowercase ASCII letter.
pub open spec fn is_letter(c: char) -> bool {
    'a' <= c && c <= 'z'
}

/// The `k`-th letter of the alphabet `a`..`z`.
pub open spec fn alpha(k: int) -> char {
    ((97 + k) as u8) as char
}

/// `w` with the character at `i` dropped.
pub open spec fn delete_at(w: Seq<char>, i: int) -> Seq<char> {
    w.subrange(0, i) + w.subrange(i + 1, w.len() as int)
}

/// `w` with the characters at `i` and `i + 1` swapped.
pub open spec fn transpose_at(w: Seq<char>, i: int) -> Seq<char> {
    w.subrange(0, i).push(w[i + 1]).push(w[i]) + w.subrange(i + 2, w.len() as int)
}

/// `w` with the character at `i` replaced by `c`.
pub open spec fn replace_at(w: Seq<char>, i: int, c: char) -> Seq<char> {
    w.subrange(0, i).push(c) + w.subrange(i + 1, w.len() as int)
}

/// `w` with `c` inserted before position `i`.
pub open spec fn insert_at(w: Seq<char>, i: int, c: char) -> Seq<char> {
    w.subrange(0, i).push(c) + w.subrange(i, w.len() as int)
}

pub open spec fn deletes(w: Seq<char>) -> Seq<Seq<char>> {
    Seq::new(w.len(), |i: int| delete_at(w, i))
}

pub open spec fn transposes(w: Seq<char>) -> Seq<Seq<char>> {
    Seq::new(if w.len() >= 2 { (w.len() - 1) as nat } else { 0 }, |i: int| transpose_at(w, i))
}

/// For each position, in order, the 26 replacements `a`..`z`.
pub open spec fn replaces(w: Seq<char>) -> Seq<Seq<char>> {
    Seq::new(26 * w.len(), |j: int| replace_at(w, j / 26, alpha(j % 26)))
}

/// For each of the `len + 1` positions, in order, the 26 insertions `a`..`z`.
pub open spec fn inserts(w: Seq<char>) -> Seq<Seq<char>> {
    Seq::new(26 * (w.len() + 1), |j: int| insert_at(w, j / 26, alpha(j % 26)))
}

/// Every string one edit away from `w`, in generation order, duplicates kept.
pub open spec fn edits1_seq(w: Seq<char>) -> Seq<Seq<char>> {
    deletes(w) + transposes(w) + replaces(w) + inserts(w)
}

/// The concatenation of a sequence of sequences.
pub open spec fn concat_all(s: Seq<Seq<Seq<char>>>) -> Seq<Seq<char>>
    decreases s.len(),
{
    if s.len() == 0 {
        Seq::empty()
    } else {
        concat_all(s.drop_last()) + s.last()
    }
}

/// Every string reached from `w` by two edits, in generation order.
pub open spec fn edits2_seq(w: Seq<char>) -> Seq<Seq<char>> {
    concat_all(edits1_seq(w).map_values(|x: Seq<char>| edits1_seq(x)))
}

/// `s` is `w` with the character at `i` dropped.
pub open spec fn is_deletion(w: Seq<char>, s: Seq<char>, i: int) -> bool {
    &&& s.len() + 1 == w.len()
    &&& 0 <= i < w.len()
    &&& forall|k: int| 0 <= k < i ==> s[k] == w[k]
    &&& forall|k: int| i <= k < s.len() ==> s[k] == w[k + 1]
}

/// `s` is `w` with the characters at `i` and `i + 1` swapped.
pub open spec fn is_transposition(w: Seq<char>, s: Seq<char>, i: int) -> bool {
    &&& s.len() == w.len()
    &&& 0 <= i && i + 1 < w.len()
    &&& s[i] == w[i + 1] && s[i + 1] == w[i]
    &&& forall|k: int| 0 <= k < w.len() && k != i && k != i + 1 ==> s[k] == w[k]
}

/// `s` is `w` with the character at `i` replaced by a letter.
pub open spec fn is_substitution(w: Seq<char>, s: Seq<char>, i: int) -> bool {
    &&& s.len() == w.len()
    &&& 0 <= i < w.len()
    &&& is_letter(s[i])
    &&& forall|k: int| 0 <= k < w.len() && k != i ==> s[k] == w[k]
}

/// `s` is `w` with a letter inserted before position `i`.
pub open spec fn is_insertion(w: Seq<char>, s: Seq<char>, i: int) -> bool {
    &&& s.len() == w.len() + 1
    &&& 0 <= i <= w.len()
    &&& is_letter(s[i])
    &&& forall|k: int| 0 <= k < i ==> s[k] == w[k]
    &&& forall|k: int| i < k < s.len() ==> s[k] == w[k - 1]
}

/// `s` differs from `w` by one deletion, adjacent transposition, substitution
/// or insertion.
pub open spec fn one_edit_apart(w: Seq<char>, s: Seq<char>) -> bool {
    exists|i: int|
        is_deletion(w, s, i) || is_transposition(w, s, i) || is_substitution(w, s, i)
            || is_insertion(w, s, i)
}

/// Every string one edit away from `w` differs from it by exactly one
/// deletion, adjacent transposition, substitution or insertion of a letter;
/// so its length is that of `w`, one less, or one more, and only
/// substitutions and transpositions keep the length.
pub proof fn lemma_edits1_one_edit(w: Seq<char>)
    ensures
        forall|j: int| 0 <= j < edits1_seq(w).len() ==> one_edit_apart(w, #[trigger] edits1_seq(w)[j]),
        forall|j: int|
            0 <= j < edits1_seq(w).len() ==> {
                let s = #[trigger] edits1_seq(w)[j];
                s.len() + 1 == w.len() || s.len() == w.len() || s.len() == w.len() + 1
            },
{
    let t = edits1_seq(w);
    let n = w.len() as int;
    let nt: int = if n >= 2 { n - 1 } else { 0 };
    assert forall|j: int| 0 <= j < t.len() implies one_edit_apart(w, #[trigger] t[j]) && (t[j].len()
        + 1 == w.len() || t[j].len() == w.len() || t[j].len() == w.len() + 1) by {
        if j < n {
            let s = delete_at(w, j);
            assert(t[j] == s);
            assert(is_deletion(w, s, j));
        } else if j < n + nt {
            let i = j - n;
            let s = transpose_at(w, i);
            assert(t[j] == s);
            assert(is_transposition(w, s, i));
        } else if j < n + nt + 26 * n {
            let q = j - n - nt;
            let i = q / 26;
            let c = alpha(q % 26);
            assert(0 <= i < n) by (nonlinear_arith)
                requires
                    0 <= q < 26 * n,
                    i == q / 26,
            ;
            let s = replace_at(w, i, c);
            assert(t[j] == s);
            assert(is_substitution(w, s, i));
        } else {
            let q = j - n - nt - 26 * n;
            let i = q / 26;
            let c = alpha(q % 26);
            assert(0 <= i <= n) by (nonlinear_arith)
                requires
                    0 <= q < 26 * (n + 1),
                    i == q / 26,
            ;
            let s = insert_at(w, i, c);
            assert(t[j] == s);
            assert(is_insertion(w, s, i));
        }
    }
}

/// The `k`-th letter of the alphabet.
pub fn letter(k: usize) -> (c: char)
    requires
        k < 26,
    ensures
        c == alpha(k as int),
        is_letter(c),
{
    ((97u8 + k as u8) as char)
}

proof fn lemma_div_mod_26(i: int, k: int)
    requires
        0 <= i,
        0 <= k < 26,
    ensures
        (26 * i + k) / 26 == i,
        (26 * i + k) % 26 == k,
{
    assert((26 * i + k) / 26 == i) by (nonlinear_arith)
        requires
            0 <= i,
            0 <= k < 26,
    ;
    assert((26 * i + k) % 26 == k) by (nonlinear_arith)
        requires
            0 <= i,
            0 <= k < 26,
    ;
}

/// Every string one deletion, adjacent transposition, replacement or
/// insertion away from `word`, over the letters `a`..`z`.
pub fn edits1(word: &str) -> (r: Vec<String>)
    ensures
        views(r@) == edits1_seq(word@),
{
    let w = chars_of(word);
    let n = w.len();
    let ghost t = edits1_seq(word@);
    let ghost nd = n as int;
    let ghost nt: int = if n >= 2 { n - 1 } else { 0 };
    let ghost nr = 26 * nd;
    assert(t.len() == nd + nt + nr + 26 * (nd + 1));
    let mut out: Vec<String> = Vec::new();

    let mut i: usize = 0;
    while i < n
        invariant
            w@ == word@,
            n == w@.len(),
            t == edits1_seq(word@),
            t.len() == nd + nt + nr + 26 * (nd + 1),
            nd == n,
            i <= n,
            out@.len() == i,
            forall|j: int| 0 <= j < out@.len() ==> #[trigger] out@[j]@ == t[j],
        decreases n - i,
    {
        let mut s = String::new();
        push_range(&mut s, &w, 0, i);
        push_range(&mut s, &w, i + 1, n);
        assert(t[i as int] == delete_at(w@, i as int));
        out.push(s);
        i += 1;
    }

    let mut i: usize = 0;
    while i + 1 < n
        invariant
            w@ == word@,
            n == w@.len(),
            t == edits1_seq(word@),
            t.len() == nd + nt + nr + 26 * (nd + 1),
            nd == n,
            nt == (if n >= 2 { n - 1 } else { 0 }),
            i <= nt,
            out@.len() == nd + i,
            forall|j: int| 0 <= j < out@.len() ==> #[trigger] out@[j]@ == t[j],
        decreases n - i,
    {
        let mut s = String::new();
        push_range(&mut s, &w, 0, i);
        push_char(&mut s, w[i + 1]);
        push_char(&mut s, w[i]);
        push_range(&mut s, &w, i + 2, n);
        assert(t[nd + i] == transpose_at(w@, i as int));
        out.push(s);
        i += 1;
    }

    let mut i: usize = 0;
    while i < n
        invariant
            w@ == word@,
            n == w@.len(),
            t == edits1_seq(word@),
            t.len() == nd + nt + nr + 26 * (nd + 1),
            nd == n,
            nr == 26 * nd,
            i <= n,
            out@.len() == nd + nt + 26 * i,
            forall|j: int| 0 <= j < out@.len() ==> #[trigger] out@[j]@ == t[j],
        decreases n - i,
    {
        let mut k: usize = 0;
        while k < 26
            invariant
                w@ == word@,
                n == w@.len(),
                t == edits1_seq(word@),
                t.len() == nd + nt + nr + 26 * (nd + 1),
                nd == n,
                nr == 26 * nd,
                i < n,
                k <= 26,
                out@.len() == nd + nt + 26 * i + k,
                forall|j: int| 0 <= j < out@.len() ==> #[trigger] out@[j]@ == t[j],
            decreases 26 - k,
        {
            let c = letter(k);
            let mut s = String::new();
            push_range(&mut s, &w, 0, i);
            push_char(&mut s, c);
            push_range(&mut s, &w, i + 1, n);
            proof {
                lemma_div_mod_26(i as int, k as int);
                assert(26 * i + k < nr) by (nonlinear_arith)
                    requires
                        i < n,
                        k < 26,
                        nr == 26 * n,
                ;
                assert(t[nd + nt + 26 * i + k] == replace_at(w@, i as int, c));
            }
            out.push(s);
            k += 1;
        }
        i += 1;
    }

    let mut i: usize = 0;
    loop
        invariant_except_break
            out@.len() == nd + nt + nr + 26 * i,
        invariant
            w@ == word@,
            n == w@.len(),
            t == edits1_seq(word@),
            t.len() == nd + nt + nr + 26 * (nd + 1),
            nd == n,
            nr == 26 * nd,
            i <= n,
            forall|j: int| 0 <= j < out@.len() ==> #[trigger] out@[j]@ == t[j],
        ensures
            out@.len() == t.len(),
            forall|j: int| 0 <= j < out@.len() ==> #[trigger] out@[j]@ == t[j],
        decreases n - i,
    {
        let mut k: usize = 0;
        while k < 26
            invariant
                w@ == word@,
                n == w@.len(),
                t == edits1_seq(word@),
                t.len() == nd + nt + nr + 26 * (nd + 1),
                nd == n,
                nr == 26 * nd,
                i <= n,
                k <= 26,
                out@.len() == nd + nt + nr + 26 * i + k,
                forall|j: int| 0 <= j < out@.len() ==> #[trigger] out@[j]@ == t[j],
            decreases 26 - k,
        {
            let c = letter(k);
            let mut s = String::new();
            push_range(&mut s, &w, 0, i);
            push_char(&mut s, c);
            push_range(&mut s, &w, i, n);
            proof {
                lemma_div_mod_26(i as int, k as int);
                assert(26 * i + k < 26 * (nd + 1)) by (nonlinear_arith)
                    requires
                        i <= n,
                        k < 26,
                        nd == n,
                ;
                assert(t[nd + nt + nr + 26 * i + k] == insert_at(w@, i as int, c));
            }
            out.push(s);
            k += 1;
        }
        if i == n {
            break;
        }
        i += 1;
    }
    assert(views(out@) =~= t);
    out
}

/// Appends clones of the strings of `more` to `out`.
fn append_all(out: &mut Vec<String>, more: &Vec<String>)
    ensures
        views(final(out)@) == views(old(out)@) + views(more@),
{
    let ghost before = out@;
    let mut k: usize = 0;
    while k < more.len()
        invariant
            k <= more@.len(),
            out@.len() == before.len() + k,
            forall|j: int| 0 <= j < before.len() ==> #[trigger] out@[j] == before[j],
            forall|j: int| 0 <= j < k ==> #[trigger] out@[before.len() + j]@ == more@[j]@,
        decreases more@.len() - k,
    {
        out.push(more[k].clone());
        k += 1;
    }
    assert forall|j: int| 0 <= j < out@.len() implies #[trigger] views(out@)[j] == (views(before)
        + views(more@))[j] by {
        if j >= before.len() {
            assert(out@[before.len() + (j - before.len())]@ == more@[j - before.len()]@);
        }
    }
    assert(views(out@) =~= views(before) + views(more@));
}

/// Every string reached from `word` by two edits: `edits1` of each result of
/// `edits1(word)`, concatenated in order.
pub fn edits2(word: &str) -> (r: Vec<String>)
    ensures
        views(r@) == edits2_seq(word@),
{
    let first = edits1(word);
    let ghost e1 = edits1_seq(word@);
    let ghost parts = e1.map_values(|x: Seq<char>| edits1_seq(x));
    let mut out: Vec<String> = Vec::new();
    let mut i: usize = 0;
    while i < first.len()
        invariant
            views(first@) == e1,
            parts == e1.map_values(|x: Seq<char>| edits1_seq(x)),
            i <= first@.len(),
            views(out@) == concat_all(parts.subrange(0, i as int)),
        decreases first@.len() - i,
    {
        let more = edits1(first[i].as_str());
        append_all(&mut out, &more);
        proof {
            assert(first@[i as int]@ == e1[i as int]);
            assert(parts.subrange(0, i + 1).drop_last() =~= parts.subrange(0, i as int));
        }
        i += 1;
    }
    assert(parts.subrange(0, first@.len() as int) =~= parts);
    out
}

} // verus!
