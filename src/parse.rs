use vstd::prelude::*;

use crate::evaluate::pair_views;
use crate::text::{chars_of, push_range, views};

verus! {

/// The characters that `char::is_whitespace` accepts: Unicode `White_Space`.
pub open spec fn is_space(c: char) -> bool {
    c == ' ' || ('\t' <= c && c <= '\r') || c == '\u{85}' || c == '\u{a0}' || c == '\u{1680}' || (
    '\u{2000}' <= c && c <= '\u{200a}') || c == '\u{2028}' || c == '\u{2029}' || c == '\u{202f}'
        || c == '\u{205f}' || c == '\u{3000}'
}

/// Whether `c` is whitespace.
pub fn space(c: char) -> (r: bool)
    ensures
        r == is_space(c),
{
    c == ' ' || ('\t' <= c && c <= '\r') || c == '\u{85}' || c == '\u{a0}' || c == '\u{1680}' || (
    '\u{2000}' <= c && c <= '\u{200a}') || c == '\u{2028}' || c == '\u{2029}' || c == '\u{202f}'
        || c == '\u{205f}' || c == '\u{3000}'
}

/// `acc` as a finished piece: a piece where it is not empty.
pub open spec fn close_piece(acc: Seq<char>) -> Seq<Seq<char>> {
    if acc.len() > 0 {
        seq![acc]
    } else {
        Seq::empty()
    }
}

/// The maximal runs of non-whitespace of `s`, where the run in progress so
/// far is `acc`.
pub open spec fn fields_from(s: Seq<char>, acc: Seq<char>) -> Seq<Seq<char>>
    decreases s.len(),
{
    if s.len() == 0 {
        close_piece(acc)
    } else if !is_space(s[0]) {
        fields_from(s.subrange(1, s.len() as int), acc.push(s[0]))
    } else {
        close_piece(acc) + fields_from(s.subrange(1, s.len() as int), Seq::empty())
    }
}

/// `acc` without one trailing carriage return.
pub open spec fn strip_cr(acc: Seq<char>) -> Seq<char> {
    if acc.len() > 0 && acc.last() == '\r' {
        acc.drop_last()
    } else {
        acc
    }
}

/// The lines of `s`, where the line in progress so far is `acc`: each ends at
/// a line feed, which with a carriage return before it is dropped; the last
/// line needs no line feed, and an empty one after the last line feed is none.
pub open spec fn lines_from(s: Seq<char>, acc: Seq<char>) -> Seq<Seq<char>>
    decreases s.len(),
{
    if s.len() == 0 {
        close_piece(acc)
    } else if s[0] == '\n' {
        seq![strip_cr(acc)] + lines_from(s.subrange(1, s.len() as int), Seq::empty())
    } else {
        lines_from(s.subrange(1, s.len() as int), acc.push(s[0]))
    }
}

/// The first position at or after `i` where `": "` starts, or -1.
pub open spec fn sep_from(s: Seq<char>, i: int) -> int
    decreases s.len() - i,
{
    if i < 0 || i + 1 >= s.len() {
        -1
    } else if s[i] == ':' && s[i + 1] == ' ' {
        i
    } else {
        sep_from(s, i + 1)
    }
}

/// The pairs of one line `label: w1 w2 ...`: `(label, w)` for each
/// whitespace-separated `w` up to the next `": "`, if any; none if the line
/// holds no `": "`.
pub open spec fn line_pairs(l: Seq<char>) -> Option<Seq<(Seq<char>, Seq<char>)>> {
    let a = sep_from(l, 0);
    if a < 0 {
        None
    } else {
        let b = sep_from(l, a + 2);
        let e = if b < 0 { l.len() as int } else { b };
        let label = l.subrange(0, a);
        Some(
            fields_from(l.subrange(a + 2, e), Seq::empty()).map_values(
                |w: Seq<char>| (label, w),
            ),
        )
    }
}

/// The pairs of all lines, in order; the index of the first line without
/// `": "` where there is one.
pub open spec fn all_pairs(ls: Seq<Seq<char>>) -> Result<Seq<(Seq<char>, Seq<char>)>, nat>
    decreases ls.len(),
{
    if ls.len() == 0 {
        Ok(Seq::empty())
    } else {
        match all_pairs(ls.drop_last()) {
            Err(k) => Err(k),
            Ok(p) => match line_pairs(ls.last()) {
                None => Err((ls.len() - 1) as nat),
                Some(q) => Ok(p + q),
            },
        }
    }
}

/// Why a test set could not be read.
#[derive(Debug, Clone, Copy, PartialEq, Eq, Structural)]
pub enum ParseError {
    /// The line of this index (from zero) holds no `": "`.
    MissingSeparator(usize),
}

pub open spec fn char_views(v: Seq<Vec<char>>) -> Seq<Seq<char>> {
    v.map_values(|x: Vec<char>| x@)
}

/// Splits `c` into its lines.
fn split_lines(c: &Vec<char>) -> (r: Vec<Vec<char>>)
    ensures
        char_views(r@) == lines_from(c@, Seq::empty()),
{
    let n = c.len();
    let mut out: Vec<Vec<char>> = Vec::new();
    let mut acc: Vec<char> = Vec::new();
    let mut i: usize = 0;
    assert(c@.subrange(0, n as int) =~= c@);
    assert(char_views(out@) + lines_from(c@, Seq::empty()) =~= lines_from(c@, Seq::empty()));
    while i < n
        invariant
            n == c@.len(),
            i <= n,
            lines_from(c@, Seq::empty()) == char_views(out@) + lines_from(
                c@.subrange(i as int, n as int),
                acc@,
            ),
        decreases n - i,
    {
        let ghost x = c@.subrange(i as int, n as int);
        assert(x.subrange(1, x.len() as int) =~= c@.subrange(i + 1, n as int));
        assert(x[0] == c@[i as int]);
        if c[i] == '\n' {
            let ghost before = char_views(out@);
            let mut line = acc;
            let k = line.len();
            if k > 0 && line[k - 1] == '\r' {
                line.pop();
                assert(line@ =~= strip_cr(acc@));
            }
            let ghost l = line@;
            out.push(line);
            acc = Vec::new();
            assert(char_views(out@) =~= before.push(l));
            assert(char_views(out@) + lines_from(c@.subrange(i + 1, n as int), Seq::empty())
                =~= before + (seq![l] + lines_from(c@.subrange(i + 1, n as int), Seq::empty())));
        } else {
            acc.push(c[i]);
        }
        i += 1;
    }
    if acc.len() > 0 {
        let ghost before = char_views(out@);
        let ghost l = acc@;
        out.push(acc);
        assert(char_views(out@) =~= before + seq![l]);
    } else {
        assert(char_views(out@) =~= char_views(out@) + Seq::<Seq<char>>::empty());
    }
    out
}

/// The whitespace-separated fields of `l[lo..hi]`.
fn fields_in(l: &Vec<char>, lo: usize, hi: usize) -> (r: Vec<String>)
    requires
        lo <= hi <= l@.len(),
    ensures
        views(r@) == fields_from(l@.subrange(lo as int, hi as int), Seq::empty()),
{
    let ghost f = l@.subrange(lo as int, hi as int);
    let mut out: Vec<String> = Vec::new();
    let mut start: usize = lo;
    let mut i: usize = lo;
    assert(l@.subrange(lo as int, lo as int) =~= Seq::<char>::empty());
    assert(views(out@) + fields_from(f, Seq::empty()) =~= fields_from(f, Seq::empty()));
    while i < hi
        invariant
            lo <= start <= i <= hi <= l@.len(),
            f == l@.subrange(lo as int, hi as int),
            fields_from(f, Seq::empty()) == views(out@) + fields_from(
                l@.subrange(i as int, hi as int),
                l@.subrange(start as int, i as int),
            ),
        decreases hi - i,
    {
        let ghost x = l@.subrange(i as int, hi as int);
        assert(x.subrange(1, x.len() as int) =~= l@.subrange(i + 1, hi as int));
        assert(x[0] == l@[i as int]);
        if space(l[i]) {
            let ghost before = views(out@);
            let ghost acc = l@.subrange(start as int, i as int);
            if start < i {
                let mut w = String::new();
                push_range(&mut w, l, start, i);
                out.push(w);
                assert(views(out@) =~= before + close_piece(l@.subrange(start as int, i as int)));
            } else {
                assert(views(out@) =~= before + close_piece(l@.subrange(start as int, i as int)));
            }
            start = i + 1;
            assert(l@.subrange(start as int, i + 1) =~= Seq::<char>::empty());
            assert(views(out@) + fields_from(l@.subrange(i + 1, hi as int), Seq::empty()) =~= before
                + (close_piece(acc) + fields_from(
                l@.subrange(i + 1, hi as int),
                Seq::empty(),
            )));
        } else {
            assert(l@.subrange(start as int, i as int).push(l@[i as int]) =~= l@.subrange(
                start as int,
                i + 1,
            ));
        }
        i += 1;
    }
    let ghost before = views(out@);
    if start < hi {
        let mut w = String::new();
        push_range(&mut w, l, start, hi);
        out.push(w);
    }
    assert(views(out@) =~= before + close_piece(l@.subrange(start as int, hi as int)));
    out
}

/// Where `": "` first starts in `l` at or after `i`.
fn sep_at(l: &Vec<char>, i: usize) -> (r: Option<usize>)
    ensures
        match r {
            Some(k) => k == sep_from(l@, i as int) && k + 2 <= l@.len(),
            None => sep_from(l@, i as int) < 0,
        },
{
    let mut k: usize = i;
    while k < l.len() && k + 1 < l.len()
        invariant
            i <= k,
            sep_from(l@, i as int) == sep_from(l@, k as int),
        decreases l@.len() - k,
    {
        if l[k] == ':' && l[k + 1] == ' ' {
            return Some(k);
        }
        k += 1;
    }
    None
}

/// The pairs of one line, or `None` if it holds no `": "`.
fn parse_line(l: &Vec<char>) -> (r: Option<Vec<(String, String)>>)
    ensures
        match r {
            Some(v) => line_pairs(l@) == Some(pair_views(v@)),
            None => line_pairs(l@) is None,
        },
{
    let a = match sep_at(l, 0) {
        Some(a) => a,
        None => {
            return None;
        },
    };
    let n = l.len();
    let e = match sep_at(l, a + 2) {
        Some(b) => b,
        None => l.len(),
    };
    proof {
        if sep_from(l@, a + 2) >= 0 {
            lemma_sep_bounds(l@, a + 2);
        }
    }
    let mut label = String::new();
    push_range(&mut label, l, 0, a);
    let words = fields_in(l, a + 2, e);
    let ghost fs = fields_from(l@.subrange(a + 2, e as int), Seq::empty());
    let mut out: Vec<(String, String)> = Vec::new();
    let mut i: usize = 0;
    while i < words.len()
        invariant
            views(words@) == fs,
            i <= words@.len(),
            label@ == l@.subrange(0, a as int),
            out@.len() == i,
            forall|j: int|
                0 <= j < i ==> (#[trigger] out@[j]).0@ == label@ && out@[j].1@ == fs[j],
        decreases words@.len() - i,
    {
        out.push((label.clone(), words[i].clone()));
        i += 1;
    }
    assert(pair_views(out@) =~= fs.map_values(|w: Seq<char>| (l@.subrange(0, a as int), w)));
    Some(out)
}

proof fn lemma_sep_bounds(s: Seq<char>, i: int)
    requires
        sep_from(s, i) >= 0,
    ensures
        i <= sep_from(s, i),
        sep_from(s, i) + 2 <= s.len(),
    decreases s.len() - i,
{
    if !(i < 0 || i + 1 >= s.len()) && !(s[i] == ':' && s[i + 1] == ' ') {
        lemma_sep_bounds(s, i + 1);
    }
}

proof fn lemma_error_kept(ls: Seq<Seq<char>>, j: int)
    requires
        0 <= j <= ls.len(),
        all_pairs(ls.subrange(0, j)) is Err,
    ensures
        all_pairs(ls) == all_pairs(ls.subrange(0, j)),
    decreases ls.len(),
{
    if j < ls.len() {
        assert(ls.drop_last().subrange(0, j) =~= ls.subrange(0, j));
        lemma_error_kept(ls.drop_last(), j);
    } else {
        assert(ls.subrange(0, j) =~= ls);
    }
}

/// Reads a labelled test set: each line `label: w1 w2 ...` gives one pair
/// `(label, w)` for each misspelling `w`. Fails at the first line that holds
/// no `": "`.
pub fn parse_test_set(input: &str) -> (r: Result<Vec<(String, String)>, ParseError>)
    ensures
        r is Ok <==> all_pairs(lines_from(input@, Seq::empty())) is Ok,
        match r {
            Ok(v) => all_pairs(lines_from(input@, Seq::empty())) == Ok::<
                Seq<(Seq<char>, Seq<char>)>,
                nat,
            >(pair_views(v@)),
            Err(ParseError::MissingSeparator(k)) => all_pairs(lines_from(input@, Seq::empty()))
                == Err::<Seq<(Seq<char>, Seq<char>)>, nat>(k as nat),
        },
{
    let c = chars_of(input);
    let ls = split_lines(&c);
    let ghost lv = char_views(ls@);
    let mut out: Vec<(String, String)> = Vec::new();
    let mut i: usize = 0;
    assert(lv.subrange(0, 0) =~= Seq::<Seq<char>>::empty());
    assert(pair_views(out@) =~= Seq::empty());
    while i < ls.len()
        invariant
            lv == char_views(ls@),
            lv == lines_from(input@, Seq::empty()),
            i <= ls@.len(),
            all_pairs(lv.subrange(0, i as int)) == Ok::<Seq<(Seq<char>, Seq<char>)>, nat>(
                pair_views(out@),
            ),
        decreases ls@.len() - i,
    {
        proof {
            assert(lv.subrange(0, i + 1).drop_last() =~= lv.subrange(0, i as int));
            assert(lv.subrange(0, i + 1).last() == ls@[i as int]@);
        }
        match parse_line(&ls[i]) {
            None => {
                proof {
                    lemma_error_kept(lv, i + 1);
                }
                return Err(ParseError::MissingSeparator(i));
            },
            Some(more) => {
                let ghost before = out@;
                let mut k: usize = 0;
                while k < more.len()
                    invariant
                        k <= more@.len(),
                        out@.len() == before.len() + k,
                        forall|j: int| 0 <= j < before.len() ==> #[trigger] out@[j] == before[j],
                        forall|j: int|
                            0 <= j < k ==> (#[trigger] out@[before.len() + j]).0@ == more@[j].0@
                                && out@[before.len() + j].1@ == more@[j].1@,
                    decreases more@.len() - k,
                {
                    out.push((more[k].0.clone(), more[k].1.clone()));
                    k += 1;
                }
                assert forall|j: int| 0 <= j < out@.len() implies #[trigger] pair_views(out@)[j] == (
                pair_views(before) + pair_views(more@))[j] by {
                    if j >= before.len() {
                        assert(out@[before.len() + (j - before.len())].0@ == more@[j - before.len()].0@);
                    }
                }
                assert(pair_views(out@) =~= pair_views(before) + pair_views(more@));
            },
        }
        i += 1;
    }
    assert(lv.subrange(0, ls@.len() as int) =~= lv);
    Ok(out)
}

} // verus!
