//! Normalizing a SIEVE IR circuit text before it is handed to the prover:
//! whatever stands up to the line of `@begin`, and from `@end` on, is
//! replaced by a fixed header and footer.

use vstd::prelude::*;

use crate::text::{chars_of, push_chars};

verus! {

/// `pat` occurs in `s` at position `i`.
pub open spec fn occurs_at(s: Seq<char>, pat: Seq<char>, i: int) -> bool {
    0 <= i && i + pat.len() <= s.len() && s.subrange(i, i + pat.len()) == pat
}

/// The first position at or after `i` where `pat` occurs in `s`.
pub open spec fn find_from(s: Seq<char>, pat: Seq<char>, i: int) -> Option<int>
    decreases s.len() + 1 - i,
{
    if i < 0 || i + pat.len() > s.len() {
        None
    } else if occurs_at(s, pat, i) {
        Some(i)
    } else {
        find_from(s, pat, i + 1)
    }
}

/// The marker that opens the body of a circuit.
pub open spec fn begin_marker() -> Seq<char> {
    seq!['@', 'b', 'e', 'g', 'i', 'n']
}

/// The marker that closes the body of a circuit.
pub open spec fn end_marker() -> Seq<char> {
    seq!['@', 'e', 'n', 'd']
}

/// `c` without everything up to and including the line break after the
/// first `@begin` (unchanged where there is no `@begin`, or no line break
/// after it).
pub open spec fn strip_begin(c: Seq<char>) -> Seq<char> {
    match find_from(c, begin_marker(), 0) {
        None => c,
        Some(b) => match find_from(c, seq!['\n'], b) {
            None => c,
            Some(e) => c.subrange(e + 1, c.len() as int),
        },
    }
}

/// `c` cut before its first `@end`, ending with a line break (unchanged
/// where there is no `@end`).
pub open spec fn cut_end(c: Seq<char>) -> Seq<char> {
    match find_from(c, end_marker(), 0) {
        None => c,
        Some(e) => {
            let t = c.subrange(0, e);
            if t.len() > 0 && t.last() == '\n' {
                t
            } else {
                t.push('\n')
            }
        },
    }
}

/// The text handed to the prover for the circuit text `c`.
pub open spec fn preprocessed(c: Seq<char>) -> Seq<char> {
    "version 2.0.0;\ncircuit;\n@type field 2;\n@begin\n"@ + cut_end(strip_begin(c)) + "\n@end\n"@
}

proof fn lemma_find_from_some(s: Seq<char>, pat: Seq<char>, i: int)
    ensures
        find_from(s, pat, i) matches Some(p) ==> occurs_at(s, pat, p) && i <= p,
    decreases s.len() + 1 - i,
{
    if !(i < 0 || i + pat.len() > s.len()) && !occurs_at(s, pat, i) {
        lemma_find_from_some(s, pat, i + 1);
    }
}

/// Whether `pat` occurs in `s` at position `i`.
fn occurs_at_x(s: &[char], pat: &[char], i: usize) -> (r: bool)
    requires
        i + pat@.len() <= s@.len(),
    ensures
        r == occurs_at(s@, pat@, i as int),
{
    let n = s.len();
    let mut k: usize = 0;
    while k < pat.len()
        invariant
            n == s@.len(),
            k <= pat@.len(),
            i + pat@.len() <= s@.len(),
            forall|j: int| 0 <= j < k ==> s@[i + j] == pat@[j],
        decreases pat.len() - k,
    {
        if s[i + k] != pat[k] {
            assert(s@.subrange(i as int, i + pat@.len())[k as int] != pat@[k as int]);
            return false;
        }
        k = k + 1;
    }
    assert(s@.subrange(i as int, i + pat@.len()) =~= pat@);
    true
}

/// The first position at or after `from` where `pat` occurs in `s`.
fn find_x(s: &[char], pat: &[char], from: usize) -> (r: Option<usize>)
    ensures
        match find_from(s@, pat@, from as int) {
            Some(p) => r == Some(p as usize) && occurs_at(s@, pat@, p),
            None => r is None,
        },
{
    proof {
        lemma_find_from_some(s@, pat@, from as int);
    }
    if pat.len() > s.len() {
        return None;
    }
    let last = s.len() - pat.len();
    let mut i: usize = from;
    while i <= last
        invariant
            from <= i,
            last == s@.len() - pat@.len(),
            find_from(s@, pat@, from as int) == find_from(s@, pat@, i as int),
        decreases last - i,
    {
        if occurs_at_x(s, pat, i) {
            return Some(i);
        }
        if i == last {
            return None;
        }
        i = i + 1;
    }
    None
}

/// `s[a..b]`.
fn slice_chars(s: &[char], a: usize, b: usize) -> (r: Vec<char>)
    requires
        a <= b <= s@.len(),
    ensures
        r@ == s@.subrange(a as int, b as int),
{
    let mut r: Vec<char> = Vec::new();
    let mut i: usize = a;
    while i < b
        invariant
            a <= i <= b <= s@.len(),
            r@ == s@.subrange(a as int, i as int),
        decreases b - i,
    {
        r.push(s[i]);
        i = i + 1;
        assert(r@ =~= s@.subrange(a as int, i as int));
    }
    r
}

/// Replaces the header and footer of a SIEVE IR circuit text: everything
/// up to the line of the first `@begin`, and everything from the first
/// `@end` on, gives way to the fixed header and footer.
pub fn preprocess_circuit(contents: &str) -> (r: String)
    ensures
        r@ == preprocessed(contents@),
{
    let c = chars_of(contents);
    let begin = vec!['@', 'b', 'e', 'g', 'i', 'n'];
    let end = vec!['@', 'e', 'n', 'd'];
    let newline = vec!['\n'];
    assert(begin@ == begin_marker());
    assert(end@ == end_marker());
    assert(newline@ == seq!['\n']);
    let cl = c.len();
    proof {
        lemma_find_from_some(c@, begin@, 0);
    }
    let content = match find_x(c.as_slice(), begin.as_slice(), 0) {
        Some(b) => {
            proof {
                lemma_find_from_some(c@, newline@, b as int);
            }
            match find_x(c.as_slice(), newline.as_slice(), b) {
                Some(e) => {
                    assert(e + 1 <= cl);
                    slice_chars(c.as_slice(), e + 1, cl)
                },
                None => c,
            }
        },
        None => c,
    };
    assert(content@ == strip_begin(contents@));
    let body = match find_x(content.as_slice(), end.as_slice(), 0) {
        Some(e) => {
            let mut t = slice_chars(content.as_slice(), 0, e);
            let n = t.len();
            if !(n > 0 && t[n - 1] == '\n') {
                t.push('\n');
            }
            t
        },
        None => content,
    };
    assert(body@ == cut_end(strip_begin(contents@)));
    let mut out = String::new();
    out.append("version 2.0.0;\ncircuit;\n@type field 2;\n@begin\n");
    push_chars(&mut out, body.as_slice());
    out.append("\n@end\n");
    out
}

} // verus!
