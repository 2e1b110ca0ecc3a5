use vstd::prelude::*;
use vstd::string::*;

verus! {

/// The character views of a sequence of strings.
pub open spec fn views(v: Seq<String>) -> Seq<Seq<char>> {
    v.map_values(|s: String| s@)
}

/// Relies on `String::push`: the character is appended at the end.
#[verifier::external_body]
pub(crate) fn push_char(s: &mut String, c: char)
    ensures
        final(s)@ == old(s)@.push(c),
{
    s.push(c)
}

/// The characters of a string, in order.
pub fn chars_of(w: &str) -> (r: Vec<char>)
    ensures
        r@ == w@,
{
    let n = w.unicode_len();
    let mut r: Vec<char> = Vec::new();
    let mut i: usize = 0;
    while i < n
        invariant
            n == w@.len(),
            i <= n,
            r@ == w@.subrange(0, i as int),
        decreases n - i,
    {
        r.push(w.get_char(i));
        i += 1;
        assert(r@ =~= w@.subrange(0, i as int));
    }
    assert(r@ =~= w@);
    r
}

/// Appends `w[lo..hi]` to `out`.
pub fn push_range(out: &mut String, w: &Vec<char>, lo: usize, hi: usize)
    requires
        lo <= hi <= w@.len(),
    ensures
        final(out)@ == old(out)@ + w@.subrange(lo as int, hi as int),
{
    let mut i: usize = lo;
    while i < hi
        invariant
            lo <= i <= hi <= w@.len(),
            out@ == old(out)@ + w@.subrange(lo as int, i as int),
        decreases hi - i,
    {
        push_char(out, w[i]);
        i += 1;
        assert(out@ =~= old(out)@ + w@.subrange(lo as int, i as int));
    }
}

/// Lexicographic order on character sequences: `a` sorts before `b`.
pub open spec fn lex_lt(a: Seq<char>, b: Seq<char>) -> bool
    decreases a.len(),
{
    if a.len() == 0 {
        b.len() > 0
    } else if b.len() == 0 {
        false
    } else if a[0] != b[0] {
        a[0] < b[0]
    } else {
        lex_lt(a.drop_first(), b.drop_first())
    }
}

pub proof fn lemma_lex_asym(a: Seq<char>, b: Seq<char>)
    ensures
        lex_lt(a, b) ==> !lex_lt(b, a),
        !lex_lt(a, a),
    decreases a.len(),
{
    if a.len() > 0 && b.len() > 0 {
        lemma_lex_asym(a.drop_first(), b.drop_first());
    }
    if a.len() > 0 {
        lemma_lex_asym(a.drop_first(), a.drop_first());
    }
}

pub proof fn lemma_lex_trans(a: Seq<char>, b: Seq<char>, c: Seq<char>)
    requires
        lex_lt(a, b),
        lex_lt(b, c),
    ensures
        lex_lt(a, c),
    decreases a.len(),
{
    if a.len() > 0 && b.len() > 0 && c.len() > 0 && a[0] == b[0] && b[0] == c[0] {
        lemma_lex_trans(a.drop_first(), b.drop_first(), c.drop_first());
    }
}

pub proof fn lemma_lex_total(a: Seq<char>, b: Seq<char>)
    ensures
        a == b || lex_lt(a, b) || lex_lt(b, a),
    decreases a.len(),
{
    if a.len() > 0 && b.len() > 0 && a[0] == b[0] {
        lemma_lex_total(a.drop_first(), b.drop_first());
        if a.drop_first() == b.drop_first() {
            assert(a.len() == b.len()) by {
                assert(a.drop_first().len() == b.drop_first().len());
            }
            assert(a =~= b) by {
                assert forall|i: int| 0 <= i < a.len() implies a[i] == b[i] by {
                    if i > 0 {
                        assert(a[i] == a.drop_first()[i - 1]);
                        assert(b[i] == b.drop_first()[i - 1]);
                    }
                }
            }
        }
    } else if a.len() == 0 && b.len() == 0 {
        assert(a =~= b);
    }
}

/// Whether `a` sorts before `b`, for ASCII strings.
pub fn lex_less(a: &str, b: &str) -> (r: bool)
    requires
        a.is_ascii(),
        b.is_ascii(),
    ensures
        r == lex_lt(a@, b@),
{
    broadcast use vstd::string::is_ascii_spec_bytes;

    let x = a.as_bytes();
    let y = b.as_bytes();
    assert(x@.len() == a@.len());
    assert(y@.len() == b@.len());
    let mut i: usize = 0;
    assert(a@.subrange(0, a@.len() as int) =~= a@);
    assert(b@.subrange(0, b@.len() as int) =~= b@);
    while i < x.len() && i < y.len()
        invariant
            x@ == Seq::new(a@.len(), |k: int| a@[k] as u8),
            y@ == Seq::new(b@.len(), |k: int| b@[k] as u8),
            vstd::utf8::is_ascii_chars(a@),
            vstd::utf8::is_ascii_chars(b@),
            i <= x@.len(),
            i <= y@.len(),
            lex_lt(a@, b@) == lex_lt(
                a@.subrange(i as int, a@.len() as int),
                b@.subrange(i as int, b@.len() as int),
            ),
        decreases x@.len() - i,
    {
        let ghost u = a@.subrange(i as int, a@.len() as int);
        let ghost v = b@.subrange(i as int, b@.len() as int);
        assert(u[0] == a@[i as int] && v[0] == b@[i as int]);
        assert('\0' <= a@[i as int] <= '\u{7f}');
        assert('\0' <= b@[i as int] <= '\u{7f}');
        if x[i] != y[i] {
            return x[i] < y[i];
        }
        assert(u.drop_first() =~= a@.subrange(i + 1, a@.len() as int));
        assert(v.drop_first() =~= b@.subrange(i + 1, b@.len() as int));
        i += 1;
    }
    i == x.len() && i < y.len()
}

} // verus!
