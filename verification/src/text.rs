use vstd::prelude::*;
use vstd::std_specs::iter::IteratorSpec;
use vstd::string::StrSliceExecFns;

verus! {

broadcast use vstd::std_specs::vec::group_vec_axioms, vstd::seq::group_seq_axioms;

// ---------------------------------------------------------------------------
// Character sequence helpers shared by the scanner and the coercions.
// ---------------------------------------------------------------------------

/// Index of the first character at or after `p` that is not a space,
/// or `s.len()` if only spaces remain.
pub open spec fn first_non_space(s: Seq<char>, p: int) -> int
    decreases s.len() - p,
{
    if p < 0 || p >= s.len() || s[p] != ' ' {
        p
    } else {
        first_non_space(s, p + 1)
    }
}

/// The sequence with its trailing spaces removed.
pub open spec fn trim_end_spaces(s: Seq<char>) -> Seq<char>
    decreases s.len(),
{
    if s.len() > 0 && s.last() == ' ' {
        trim_end_spaces(s.drop_last())
    } else {
        s
    }
}

/// Removes trailing spaces from a character vector.
pub fn trim_end_spaces_vec(v: &mut Vec<char>)
    ensures
        final(v)@ == trim_end_spaces(old(v)@),
{
    let ghost orig = v@;
    while v.len() > 0 && v[v.len() - 1] == ' '
        invariant
            trim_end_spaces(v@) == trim_end_spaces(orig),
        decreases v@.len(),
    {
        let ghost prev = v@;
        v.pop();
        proof {
            assert(v@ =~= prev.drop_last());
        }
    }
}

// ---------------------------------------------------------------------------
// Splitting the input text into lines:
// lines are separated by '\n', and one trailing '\r' per line is removed.
// A final line terminator does not open an extra empty line.
// ---------------------------------------------------------------------------

/// Index of the next line break at or after `p`, or `s.len()` if none remains.
pub open spec fn next_break(s: Seq<char>, p: int) -> int
    decreases s.len() - p,
{
    if p < 0 || p >= s.len() || s[p] == '\n' {
        p
    } else {
        next_break(s, p + 1)
    }
}

pub proof fn lemma_next_break_bounds(s: Seq<char>, p: int)
    requires
        0 <= p <= s.len(),
    ensures
        p <= next_break(s, p) <= s.len(),
        next_break(s, p) < s.len() ==> s[next_break(s, p)] == '\n',
    decreases s.len() - p,
{
    if !(p >= s.len() || s[p] == '\n') {
        lemma_next_break_bounds(s, p + 1);
    }
}

/// One line's content: a trailing carriage return is not part of it.
pub open spec fn strip_cr(l: Seq<char>) -> Seq<char> {
    if l.len() > 0 && l.last() == '\r' {
        l.drop_last()
    } else {
        l
    }
}

/// The lines of `s` from position `p` on.
pub open spec fn split_lines_from(s: Seq<char>, p: int) -> Seq<Seq<char>>
    decreases s.len() - p when 0 <= p <= s.len() via split_lines_from_decreases
{
    if p >= s.len() {
        Seq::empty()
    } else {
        let b = next_break(s, p);
        if b >= s.len() {
            // A final line without its own terminator keeps a trailing
            // carriage return: only the pair of both characters ends a line.
            seq![s.subrange(p, s.len() as int)]
        } else {
            seq![strip_cr(s.subrange(p, b))] + split_lines_from(s, b + 1)
        }
    }
}

#[via_fn]
proof fn split_lines_from_decreases(s: Seq<char>, p: int) {
    lemma_next_break_bounds(s, p);
}

/// The lines of the whole text.
pub open spec fn line_seqs(s: Seq<char>) -> Seq<Seq<char>> {
    split_lines_from(s, 0)
}

/// Spec view of a vector of character lines.
pub open spec fn lines_view(lines: Seq<Vec<char>>) -> Seq<Seq<char>> {
    Seq::new(lines.len(), |i: int| lines[i]@)
}

/// Splits the text's characters into lines.
pub fn split_lines(s: &Vec<char>) -> (lines: Vec<Vec<char>>)
    ensures
        lines_view(lines@) == line_seqs(s@),
{
    let mut lines: Vec<Vec<char>> = Vec::new();
    let mut cur: Vec<char> = Vec::new();
    let mut i: usize = 0;
    let ghost mut start: int = 0;
    while i < s.len()
        invariant
            0 <= start <= i <= s@.len(),
            cur@ == s@.subrange(start, i as int),
            forall|k: int| start <= k < i ==> s@[k] != '\n',
            line_seqs(s@) == lines_view(lines@) + split_lines_from(s@, start),
        decreases s@.len() - i,
    {
        let c = s[i];
        if c == '\n' {
            proof {
                lemma_next_break_at(s@, start, i as int);
                assert(split_lines_from(s@, start) == seq![
                    strip_cr(s@.subrange(start, i as int)),
                ] + split_lines_from(s@, i + 1));
            }
            let mut done = cur;
            cur = Vec::new();
            trim_end_cr(&mut done);
            lines.push(done);
            proof {
                start = i + 1;
                assert(lines_view(lines@) =~= lines_view(lines@.drop_last()) + seq![
                    lines@.last()@,
                ]);
                assert(cur@ =~= s@.subrange(start, i + 1));
            }
        } else {
            cur.push(c);
            proof {
                assert(cur@ =~= s@.subrange(start, i + 1));
            }
        }
        i = i + 1;
    }
    if cur.len() > 0 {
        proof {
            lemma_next_break_none(s@, start);
            assert(split_lines_from(s@, start) == seq![s@.subrange(start, s@.len() as int)]);
        }
        lines.push(cur);
        proof {
            assert(lines_view(lines@) =~= lines_view(lines@.drop_last()) + seq![lines@.last()@]);
        }
    } else {
        proof {
            assert(start == s@.len());
            assert(line_seqs(s@) =~= lines_view(lines@));
        }
    }
    proof {
        assert(line_seqs(s@) =~= lines_view(lines@));
    }
    lines
}

/// Removes one trailing carriage return, if present.
fn trim_end_cr(v: &mut Vec<char>)
    ensures
        final(v)@ == strip_cr(old(v)@),
{
    if v.len() > 0 && v[v.len() - 1] == '\r' {
        v.pop();
    }
}

proof fn lemma_next_break_at(s: Seq<char>, start: int, i: int)
    requires
        0 <= start <= i < s.len(),
        forall|k: int| start <= k < i ==> s[k] != '\n',
        s[i] == '\n',
    ensures
        next_break(s, start) == i,
    decreases i - start,
{
    if start < i {
        lemma_next_break_at(s, start + 1, i);
    }
}

proof fn lemma_next_break_none(s: Seq<char>, start: int)
    requires
        0 <= start <= s.len(),
        forall|k: int| start <= k < s.len() ==> s[k] != '\n',
    ensures
        next_break(s, start) == s.len(),
    decreases s.len() - start,
{
    if start < s.len() {
        lemma_next_break_none(s, start + 1);
    }
}

// ---------------------------------------------------------------------------
// Conversions between text and character vectors.
// ---------------------------------------------------------------------------

/// Collects a text slice's characters into a vector, one pass over the
/// character iterator.
pub fn str_to_chars(s: &str) -> (r: Vec<char>)
    ensures
        r@ == s@,
{
    broadcast use vstd::string::group_string_axioms;

    let mut v: Vec<char> = Vec::new();
    let mut it = s.chars();
    loop
        invariant
            it.obeys_prophetic_iter_laws(),
            it.decrease() is Some,
            v@ + it.remaining() == s@,
        decreases it.decrease().unwrap(),
    {
        match it.next() {
            Some(c) => {
                v.push(c);
                proof {
                    assert(v@ + it.remaining() =~= s@);
                }
            },
            None => {
                proof {
                    assert(v@ =~= s@);
                }
                return v;
            },
        }
    }
}

/// Character-wise equality of two text slices.
pub fn str_eq(a: &str, b: &str) -> (r: bool)
    ensures
        r == (a@ == b@),
{
    let na = a.unicode_len();
    let nb = b.unicode_len();
    if na != nb {
        return false;
    }
    let mut i: usize = 0;
    while i < na
        invariant
            na == a@.len(),
            nb == b@.len(),
            na == nb,
            0 <= i <= na,
            forall|k: int| 0 <= k < i ==> a@[k] == b@[k],
        decreases na - i,
    {
        if a.get_char(i) != b.get_char(i) {
            return false;
        }
        i = i + 1;
    }
    proof {
        assert(a@ =~= b@);
    }
    true
}

/// Relies on `String`'s `FromIterator` over characters: collecting the
/// vector's characters yields the string with exactly those characters.
#[verifier::external_body]
pub fn chars_to_string(v: &Vec<char>) -> (r: String)
    ensures
        r@ == v@,
{
    v.iter().collect()
}

// ---------------------------------------------------------------------------
// Decimal rendering of indentation counts for diagnostics.
// ---------------------------------------------------------------------------

/// The decimal digit character for a value below ten.
pub open spec fn digit_char(d: int) -> char {
    if d == 0 {
        '0'
    } else if d == 1 {
        '1'
    } else if d == 2 {
        '2'
    } else if d == 3 {
        '3'
    } else if d == 4 {
        '4'
    } else if d == 5 {
        '5'
    } else if d == 6 {
        '6'
    } else if d == 7 {
        '7'
    } else if d == 8 {
        '8'
    } else {
        '9'
    }
}

/// The decimal rendering of a natural number, most significant digit first.
pub open spec fn dec_rep(n: int) -> Seq<char>
    decreases n,
{
    if n < 10 {
        seq![digit_char(n)]
    } else {
        dec_rep(n / 10) + seq![digit_char(n % 10)]
    }
}

fn digit_char_exec(d: usize) -> (c: char)
    requires
        d < 10,
    ensures
        c == digit_char(d as int),
{
    if d == 0 {
        '0'
    } else if d == 1 {
        '1'
    } else if d == 2 {
        '2'
    } else if d == 3 {
        '3'
    } else if d == 4 {
        '4'
    } else if d == 5 {
        '5'
    } else if d == 6 {
        '6'
    } else if d == 7 {
        '7'
    } else if d == 8 {
        '8'
    } else {
        '9'
    }
}

/// Renders a count in decimal.
pub fn fmt_usize(n: usize) -> (r: Vec<char>)
    ensures
        r@ == dec_rep(n as int),
{
    let mut rev: Vec<char> = Vec::new();
    let mut m: usize = n;
    while m >= 10
        invariant
            dec_rep(n as int) == dec_rep(m as int) + rev@.reverse(),
        decreases m,
    {
        let d = m % 10;
        let ghost prev = rev@;
        rev.push(digit_char_exec(d));
        proof {
            assert(rev@.reverse() =~= seq![digit_char(d as int)] + prev.reverse());
            assert(dec_rep(m as int) == dec_rep(m as int / 10) + seq![digit_char(d as int)]);
            assert(dec_rep(n as int) =~= dec_rep(m as int / 10) + rev@.reverse());
        }
        m = m / 10;
    }
    let ghost prev = rev@;
    rev.push(digit_char_exec(m));
    proof {
        assert(rev@.reverse() =~= seq![digit_char(m as int)] + prev.reverse());
        assert(dec_rep(m as int) == seq![digit_char(m as int)]);
        assert(dec_rep(n as int) =~= rev@.reverse());
    }
    let mut out: Vec<char> = Vec::new();
    let mut j: usize = rev.len();
    while j > 0
        invariant
            j <= rev@.len(),
            out@ == rev@.subrange(j as int, rev@.len() as int).reverse(),
        decreases j,
    {
        j = j - 1;
        out.push(rev[j]);
        proof {
            assert(out@ =~= rev@.subrange(j as int, rev@.len() as int).reverse());
        }
    }
    proof {
        assert(out@ =~= rev@.reverse());
    }
    out
}

} // verus!
