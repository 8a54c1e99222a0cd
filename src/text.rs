//! Character-level text operations: splitting on a separator, the lines of a
//! text, and substring search.

use vstd::prelude::*;
use vstd::string::*;

verus! {

/// `pat` occurs in `s` as a contiguous run of characters.
pub open spec fn is_substring(pat: Seq<char>, s: Seq<char>) -> bool {
    exists|i: int| 0 <= i <= s.len() - pat.len() && #[trigger] s.subrange(i, i + pat.len()) == pat
}

/// The pieces of `s` between occurrences of `sep`, as `str::split` yields them:
/// always at least one piece, and one more than there are separators.
pub open spec fn split_on(s: Seq<char>, sep: char) -> Seq<Seq<char>>
    decreases s.len(),
{
    if s.len() == 0 {
        seq![Seq::<char>::empty()]
    } else {
        let prev = split_on(s.drop_last(), sep);
        if s.last() == sep {
            prev.push(Seq::<char>::empty())
        } else {
            prev.update(prev.len() - 1, prev.last().push(s.last()))
        }
    }
}

pub proof fn lemma_split_on_nonempty(s: Seq<char>, sep: char)
    ensures
        split_on(s, sep).len() >= 1,
    decreases s.len(),
{
    if s.len() > 0 {
        lemma_split_on_nonempty(s.drop_last(), sep);
    }
}

/// Relies on `String::push`: appends one character.
#[verifier::external_body]
pub(crate) fn push_char(s: &mut String, c: char)
    ensures
        final(s)@ == old(s)@.push(c),
{
    s.push(c)
}

/// Relies on `str::contains`: true when the pattern matches a sub-slice of `s`.
#[verifier::external_body]
pub(crate) fn str_contains(s: &str, pat: &str) -> (r: bool)
    ensures
        r == is_substring(pat@, s@),
{
    s.contains(pat)
}

/// Splits `s` at every occurrence of `sep`.
pub fn split_char(s: &str, sep: char) -> (r: Vec<String>)
    ensures
        r.deep_view() == split_on(s@, sep),
{
    let mut done: Vec<String> = Vec::new();
    let mut cur = String::new();
    for c in it: s.chars()
        invariant
            it.seq() == s@,
            split_on(s@.take(it.index() as int), sep) == done.deep_view().push(cur@),
    {
        proof {
            let t = s@.take(it.index() as int + 1);
            assert(t.drop_last() == s@.take(it.index() as int));
            assert(t.last() == c);
        }
        if c == sep {
            done.push(cur);
            cur = String::new();
        } else {
            push_char(&mut cur, c);
        }
    }
    assert(s@.take(s@.len() as int) == s@);
    done.push(cur);
    done
}

/// `l` without one trailing carriage return.
pub open spec fn strip_cr(l: Seq<char>) -> Seq<char> {
    if l.len() > 0 && l.last() == '\r' {
        l.drop_last()
    } else {
        l
    }
}

/// The lines of `s`, as `str::lines` yields them: split at each `'\n'`, a
/// carriage return before a newline dropped, and no empty last line after a
/// final newline.
pub open spec fn lines_of(s: Seq<char>) -> Seq<Seq<char>> {
    let p = split_on(s, '\n');
    let body = p.drop_last().map_values(|l: Seq<char>| strip_cr(l));
    if p.last().len() == 0 {
        body
    } else {
        body.push(p.last())
    }
}

fn strip_cr_string(s: &String) -> (r: String)
    ensures
        r@ == strip_cr(s@),
{
    let st = s.as_str();
    let n = st.unicode_len();
    if n > 0 && st.get_char(n - 1) == '\r' {
        String::from_str(st.substring_char(0, n - 1))
    } else {
        s.clone()
    }
}

/// Splits `text` into its lines.
pub fn split_lines(text: &str) -> (r: Vec<String>)
    ensures
        r.deep_view() == lines_of(text@),
{
    let pieces = split_char(text, '\n');
    proof {
        lemma_split_on_nonempty(text@, '\n');
    }
    let ghost p = split_on(text@, '\n');
    let n = pieces.len();
    let mut r: Vec<String> = Vec::new();
    for i in 0..n - 1
        invariant
            n == pieces.len(),
            n >= 1,
            pieces.deep_view() == p,
            r.deep_view() == p.drop_last().map_values(|l: Seq<char>| strip_cr(l)).take(i as int),
    {
        let l = strip_cr_string(&pieces[i]);
        proof {
            assert(pieces.deep_view()[i as int] == pieces[i as int]@);
        }
        let ghost before = r.deep_view();
        r.push(l);
        assert(r.deep_view() =~= before.push(l@));
        assert(r.deep_view() =~= p.drop_last().map_values(|l: Seq<char>| strip_cr(l)).take(i + 1));
    }
    assert(p.drop_last().map_values(|l: Seq<char>| strip_cr(l)).take(n - 1) =~= p.drop_last().map_values(|l: Seq<char>| strip_cr(l)));
    let last = &pieces[n - 1];
    assert(pieces.deep_view()[n - 1] == last@);
    if last.as_str().unicode_len() > 0 {
        r.push(last.clone());
    }
    r
}

/// The number of newline characters in `s`.
pub open spec fn newlines(s: Seq<char>) -> nat
    decreases s.len(),
{
    if s.len() == 0 {
        0
    } else {
        newlines(s.drop_last()) + if s.last() == '\n' {
            1nat
        } else {
            0nat
        }
    }
}

pub proof fn lemma_newlines_concat(a: Seq<char>, b: Seq<char>)
    ensures
        newlines(a + b) == newlines(a) + newlines(b),
    decreases b.len(),
{
    if b.len() > 0 {
        assert((a + b).drop_last() =~= a + b.drop_last());
        lemma_newlines_concat(a, b.drop_last());
    } else {
        assert(a + b =~= a);
    }
}

pub proof fn lemma_newlines_none(s: Seq<char>)
    requires
        forall|j: int| 0 <= j < s.len() ==> s[j] != '\n',
    ensures
        newlines(s) == 0,
    decreases s.len(),
{
    if s.len() > 0 {
        lemma_newlines_none(s.drop_last());
    }
}

/// The pieces of `s` split at `sep` hold no `sep`, and no character `c` that
/// `s` lacks.
pub proof fn lemma_split_on_lacks(s: Seq<char>, sep: char, c: char)
    requires
        c == sep || forall|j: int| 0 <= j < s.len() ==> s[j] != c,
    ensures
        forall|k: int, j: int|
            0 <= k < split_on(s, sep).len() && 0 <= j < split_on(s, sep)[k].len()
                ==> #[trigger] split_on(s, sep)[k][j] != c,
    decreases s.len(),
{
    if s.len() > 0 {
        lemma_split_on_lacks(s.drop_last(), sep, c);
        lemma_split_on_nonempty(s.drop_last(), sep);
        let prev = split_on(s.drop_last(), sep);
        if s.last() != sep {
            assert forall|k: int, j: int|
                0 <= k < split_on(s, sep).len() && 0 <= j < split_on(s, sep)[k].len()
                    implies #[trigger] split_on(s, sep)[k][j] != c by {
                if k == prev.len() - 1 && j == prev.last().len() {
                    assert(split_on(s, sep)[k][j] == s.last());
                } else if k == prev.len() - 1 {
                    assert(split_on(s, sep)[k][j] == prev[k][j]);
                } else {
                    assert(split_on(s, sep)[k] == prev[k]);
                }
            }
        } else {
            assert forall|k: int, j: int|
                0 <= k < split_on(s, sep).len() && 0 <= j < split_on(s, sep)[k].len()
                    implies #[trigger] split_on(s, sep)[k][j] != c by {
                if k < prev.len() {
                    assert(split_on(s, sep)[k] == prev[k]);
                }
            }
        }
    }
}

/// No line of a text holds a newline.
pub proof fn lemma_lines_lack_newline(s: Seq<char>)
    ensures
        forall|i: int, j: int|
            0 <= i < lines_of(s).len() && 0 <= j < lines_of(s)[i].len() ==> #[trigger] lines_of(
                s,
            )[i][j] != '\n',
{
    lemma_split_on_lacks(s, '\n', '\n');
    lemma_split_on_nonempty(s, '\n');
    let p = split_on(s, '\n');
    assert forall|i: int, j: int|
        0 <= i < lines_of(s).len() && 0 <= j < lines_of(s)[i].len() implies #[trigger] lines_of(
            s,
        )[i][j] != '\n' by {
        if i < p.len() - 1 {
            assert(lines_of(s)[i] == strip_cr(p[i]));
            assert(lines_of(s)[i][j] == p[i][j]);
        } else {
            assert(lines_of(s)[i] == p[i]);
        }
    }
}

} // verus!
