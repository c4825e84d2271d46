//! Character-level building blocks shared by the parsers and printers:
//! line splitting, whitespace tokenizing, decimal numbers.

use vstd::prelude::*;

verus! {

/// Unicode `White_Space` characters, the set used by `char::is_whitespace`.
pub open spec fn is_ws(c: char) -> bool {
    ||| ('\u{9}' <= c && c <= '\u{d}')
    ||| c == ' '
    ||| c == '\u{85}'
    ||| c == '\u{a0}'
    ||| c == '\u{1680}'
    ||| ('\u{2000}' <= c && c <= '\u{200a}')
    ||| c == '\u{2028}'
    ||| c == '\u{2029}'
    ||| c == '\u{202f}'
    ||| c == '\u{205f}'
    ||| c == '\u{3000}'
}

/// Whether `c` is a whitespace character.
pub fn char_is_ws(c: char) -> (b: bool)
    ensures
        b == is_ws(c),
{
    ('\u{9}' <= c && c <= '\u{d}') || c == ' ' || c == '\u{85}' || c == '\u{a0}' || c == '\u{1680}'
        || ('\u{2000}' <= c && c <= '\u{200a}') || c == '\u{2028}' || c == '\u{2029}'
        || c == '\u{202f}' || c == '\u{205f}' || c == '\u{3000}'
}

/// Splits `s` at every `'\n'`; there is always one more piece than newlines.
pub open spec fn split_newlines(s: Seq<char>) -> Seq<Seq<char>>
    decreases s.len(),
{
    if s.len() == 0 {
        seq![Seq::<char>::empty()]
    } else {
        let p = split_newlines(s.drop_last());
        if s.last() == '\n' {
            p.push(Seq::<char>::empty())
        } else {
            p.update(p.len() - 1, p.last().push(s.last()))
        }
    }
}

/// A line that was ended by `"\r\n"` loses its `'\r'`.
pub open spec fn strip_cr(l: Seq<char>) -> Seq<char> {
    if l.len() > 0 && l.last() == '\r' {
        l.drop_last()
    } else {
        l
    }
}

/// The lines of a text as a buffered reader hands them out: each line
/// without its `"\n"` or `"\r\n"` terminator, and no empty line after a
/// final terminator.
pub open spec fn text_lines(s: Seq<char>) -> Seq<Seq<char>> {
    let p = split_newlines(s);
    let ended = p.drop_last().map_values(|l: Seq<char>| strip_cr(l));
    if p.last().len() == 0 {
        ended
    } else {
        ended.push(p.last())
    }
}

/// ASCII whitespace, the set used by `str::split_ascii_whitespace`.
pub open spec fn is_ascii_ws(c: char) -> bool {
    c == ' ' || c == '\t' || c == '\n' || c == '\u{c}' || c == '\r'
}

/// A separator between tokens: ASCII whitespace (`ascii`) or Unicode whitespace.
pub open spec fn is_sep(c: char, ascii: bool) -> bool {
    if ascii {
        is_ascii_ws(c)
    } else {
        is_ws(c)
    }
}

/// The maximal runs of characters of `s` that are not separators, in order.
pub open spec fn tokens_by(s: Seq<char>, ascii: bool) -> Seq<Seq<char>>
    decreases s.len(),
{
    if s.len() == 0 {
        Seq::empty()
    } else {
        let t = tokens_by(s.drop_last(), ascii);
        let c = s.last();
        if is_sep(c, ascii) {
            t
        } else if s.len() >= 2 && !is_sep(s[s.len() - 2], ascii) {
            t.update(t.len() - 1, t.last().push(c))
        } else {
            t.push(seq![c])
        }
    }
}

/// The maximal runs of non-whitespace characters of `s`, in order
/// (`str::split_whitespace`).
pub open spec fn tokens(s: Seq<char>) -> Seq<Seq<char>> {
    tokens_by(s, false)
}

/// The maximal runs of characters of `s` other than ASCII whitespace, in
/// order (`str::split_ascii_whitespace`).
pub open spec fn ascii_tokens(s: Seq<char>) -> Seq<Seq<char>> {
    tokens_by(s, true)
}

/// Whether `s` holds only whitespace (what `str::trim` turns into "").
pub open spec fn is_blank(s: Seq<char>) -> bool {
    forall|i: int| 0 <= i < s.len() ==> is_ws(#[trigger] s[i])
}

/// Why a decimal number could not be read (the kinds of `core::num::IntErrorKind`
/// that reading an unsigned integer can give).
#[derive(Clone, Copy, Debug, PartialEq, Eq, Structural)]
pub enum NumError {
    /// The text was empty.
    Empty,
    /// A character is not a decimal digit.
    InvalidDigit,
    /// The number does not fit in a `usize`.
    PosOverflow,
}

pub open spec fn is_digit(c: char) -> bool {
    '0' <= c && c <= '9'
}

pub open spec fn digit_value(c: char) -> nat {
    (c as int - '0' as int) as nat
}

/// Reads the digits of `d` from position `i` on, starting from `acc`; fails at
/// the first non-digit or as soon as the value passes `usize::MAX`.
pub open spec fn scan_digits(d: Seq<char>, i: int, acc: nat) -> Result<nat, NumError>
    decreases d.len() - i,
{
    if i < 0 || i >= d.len() {
        Ok(acc)
    } else if !is_digit(d[i]) {
        Err(NumError::InvalidDigit)
    } else if acc * 10 + digit_value(d[i]) > usize::MAX {
        Err(NumError::PosOverflow)
    } else {
        scan_digits(d, i + 1, acc * 10 + digit_value(d[i]))
    }
}

/// What `usize::from_str` gives for the text `t`: an optional `'+'` and then
/// one or more decimal digits whose value fits in a `usize`.
pub open spec fn parse_usize(t: Seq<char>) -> Result<usize, NumError> {
    if t.len() == 0 {
        Err(NumError::Empty)
    } else if t.len() == 1 && (t[0] == '+' || t[0] == '-') {
        Err(NumError::InvalidDigit)
    } else {
        let d = if t[0] == '+' {
            t.drop_first()
        } else {
            t
        };
        match scan_digits(d, 0, 0) {
            Ok(v) => Ok(v as usize),
            Err(e) => Err(e),
        }
    }
}

proof fn lemma_scan_bound(d: Seq<char>, i: int, acc: nat)
    requires
        acc <= usize::MAX,
    ensures
        scan_digits(d, i, acc) matches Ok(v) ==> v <= usize::MAX,
    decreases d.len() - i,
{
    if 0 <= i < d.len() && is_digit(d[i]) && acc * 10 + digit_value(d[i]) <= usize::MAX {
        lemma_scan_bound(d, i + 1, acc * 10 + digit_value(d[i]));
    }
}

/// Reads a decimal `usize` from `t` as `usize::from_str` does.
pub fn parse_usize_chars(t: &[char]) -> (r: Result<usize, NumError>)
    ensures
        r == parse_usize(t@),
{
    let n = t.len();
    if n == 0 {
        return Err(NumError::Empty);
    }
    if n == 1 && (t[0] == '+' || t[0] == '-') {
        return Err(NumError::InvalidDigit);
    }
    let start: usize = if t[0] == '+' {
        1
    } else {
        0
    };
    let ghost d = if t@[0] == '+' {
        t@.drop_first()
    } else {
        t@
    };
    assert(d =~= t@.subrange(start as int, n as int));
    let mut acc: usize = 0;
    let mut i: usize = start;
    while i < n
        invariant
            n == t@.len(),
            start <= i <= n,
            start == 0 || start == 1,
            d == t@.subrange(start as int, n as int),
            n >= 1,
            d == (if t@[0] == '+' { t@.drop_first() } else { t@ }),
            scan_digits(d, 0, 0) == scan_digits(d, i - start, acc as nat),
        decreases n - i,
    {
        let c = t[i];
        assert(d[i - start] == c);
        if !('0' <= c && c <= '9') {
            assert(scan_digits(d, i - start, acc as nat) == Err::<nat, NumError>(NumError::InvalidDigit));
            return Err(NumError::InvalidDigit);
        }
        let dv: usize = (c as u32 - '0' as u32) as usize;
        assert(dv == digit_value(c));
        if acc > (usize::MAX - dv) / 10 {
            assert(acc * 10 + dv > usize::MAX) by (nonlinear_arith)
                requires
                    acc > (usize::MAX - dv) / 10,
                    dv <= 9,
            ;
            return Err(NumError::PosOverflow);
        }
        assert(acc * 10 + dv <= usize::MAX) by (nonlinear_arith)
            requires
                acc <= (usize::MAX - dv) / 10,
                dv <= 9,
        ;
        acc = acc * 10 + dv;
        i = i + 1;
    }
    proof {
        lemma_scan_bound(d, 0, 0);
    }
    Ok(acc)
}

/// The character of a decimal digit.
pub open spec fn digit_char(d: nat) -> char {
    if d == 0 {
        '0'
    } else if d == 1 {
        '1'
    } else if d == 2 {
        '2'
    } else if d == 3 {
        '3'
    } else if d == 4 {
        '4'
    } else if d == 5 {
        '5'
    } else if d == 6 {
        '6'
    } else if d == 7 {
        '7'
    } else if d == 8 {
        '8'
    } else {
        '9'
    }
}

/// The decimal text of `n`, without leading zeros.
pub open spec fn decimal(n: nat) -> Seq<char>
    decreases n,
{
    if n < 10 {
        seq![digit_char(n)]
    } else {
        decimal(n / 10).push(digit_char(n % 10))
    }
}

fn digit_to_char(d: usize) -> (c: char)
    requires
        d < 10,
    ensures
        c == digit_char(d as nat),
{
    match d {
        0 => '0',
        1 => '1',
        2 => '2',
        3 => '3',
        4 => '4',
        5 => '5',
        6 => '6',
        7 => '7',
        8 => '8',
        _ => '9',
    }
}

/// `String::push`: appends one character.
#[verifier::external_body]
pub(crate) fn push_char(s: &mut String, c: char)
    ensures
        final(s)@ == old(s)@.push(c),
{
    s.push(c);
}

/// Appends the decimal text of `n` to `out`.
pub fn push_decimal(out: &mut String, n: usize)
    ensures
        final(out)@ == old(out)@ + decimal(n as nat),
    decreases n,
{
    if n >= 10 {
        push_decimal(out, n / 10);
    }
    push_char(out, digit_to_char(n % 10));
}

/// Appends the characters of `s` to `out`.
pub fn push_chars(out: &mut String, s: &[char])
    ensures
        final(out)@ == old(out)@ + s@,
{
    let ghost start = out@;
    let mut i: usize = 0;
    while i < s.len()
        invariant
            i <= s@.len(),
            out@ == start + s@.take(i as int),
        decreases s.len() - i,
    {
        push_char(out, s[i]);
        i = i + 1;
        assert(s@.take(i as int) == s@.take(i - 1).push(s@[i - 1]));
    }
    assert(s@.take(s@.len() as int) == s@);
}

} // verus!

verus! {

/// The characters of `s`, in order.
pub fn chars_of(s: &str) -> (v: Vec<char>)
    ensures
        v@ == s@,
{
    let mut v: Vec<char> = Vec::new();
    for c in it: s.chars()
        invariant
            v@ == it.seq().take(it.index()),
    {
        v.push(c);
        assert(it.seq().take(it.index() + 1) == it.seq().take(it.index()).push(c));
    }
    v
}

} // verus!

verus! {

/// The character sequences held by a sequence of character vectors.
pub open spec fn views(v: Seq<Vec<char>>) -> Seq<Seq<char>> {
    Seq::new(v.len(), |i: int| v[i]@)
}

/// `l` without a final `'\r'`.
fn strip_cr_vec(l: Vec<char>) -> (r: Vec<char>)
    ensures
        r@ == strip_cr(l@),
{
    let mut l = l;
    let n = l.len();
    if n > 0 && l[n - 1] == '\r' {
        l.pop();
    }
    l
}

/// The lines of `s`, as a buffered reader hands them out.
pub fn split_lines(s: &[char]) -> (lines: Vec<Vec<char>>)
    ensures
        views(lines@) == text_lines(s@),
{
    let mut out: Vec<Vec<char>> = Vec::new();
    let mut cur: Vec<char> = Vec::new();
    let ghost mut raw: Seq<Seq<char>> = Seq::empty();
    let mut i: usize = 0;
    assert(s@.take(0) =~= Seq::<char>::empty());
    while i < s.len()
        invariant
            i <= s@.len(),
            split_newlines(s@.take(i as int)) == raw.push(cur@),
            views(out@) == raw.map_values(|l: Seq<char>| strip_cr(l)),
        decreases s.len() - i,
    {
        let c = s[i];
        assert(s@.take(i + 1).drop_last() =~= s@.take(i as int));
        assert(s@.take(i + 1).last() == c);
        if c == '\n' {
            let mut line: Vec<char> = Vec::new();
            std::mem::swap(&mut line, &mut cur);
            let ghost old_raw = raw;
            proof {
                raw = raw.push(line@);
            }
            let stripped = strip_cr_vec(line);
            out.push(stripped);
            assert(views(out@) =~= raw.map_values(|l: Seq<char>| strip_cr(l))) by {
                assert(raw.map_values(|l: Seq<char>| strip_cr(l)) =~= old_raw.map_values(
                    |l: Seq<char>| strip_cr(l),
                ).push(strip_cr(line@)));
            }
            assert(split_newlines(s@.take(i + 1)) =~= raw.push(cur@));
        } else {
            cur.push(c);
            assert(split_newlines(s@.take(i + 1)) =~= raw.push(cur@));
        }
        i = i + 1;
    }
    assert(s@.take(s@.len() as int) =~= s@);
    let ghost p = raw.push(cur@);
    assert(p.drop_last() =~= raw);
    if cur.len() > 0 {
        let ghost before = views(out@);
        out.push(cur);
        assert(views(out@) =~= before.push(p.last()));
    }
    out
}

/// Whether `c` separates tokens.
fn char_is_sep(c: char, ascii: bool) -> (b: bool)
    ensures
        b == is_sep(c, ascii),
{
    if ascii {
        c == ' ' || c == '\t' || c == '\n' || c == '\u{c}' || c == '\r'
    } else {
        char_is_ws(c)
    }
}

/// The tokens of `s`, separated by ASCII whitespace (`ascii`) or by any whitespace.
pub fn split_tokens_by(s: &[char], ascii: bool) -> (toks: Vec<Vec<char>>)
    ensures
        views(toks@) == tokens_by(s@, ascii),
{
    let mut done: Vec<Vec<char>> = Vec::new();
    let mut cur: Vec<char> = Vec::new();
    let mut i: usize = 0;
    assert(s@.take(0) =~= Seq::<char>::empty());
    while i < s.len()
        invariant
            i <= s@.len(),
            cur@.len() > 0 ==> i > 0 && !is_sep(s@[i - 1], ascii),
            i > 0 && !is_sep(s@[i - 1], ascii) ==> cur@.len() > 0,
            cur@.len() > 0 ==> tokens_by(s@.take(i as int), ascii) == views(done@).push(cur@),
            cur@.len() == 0 ==> tokens_by(s@.take(i as int), ascii) == views(done@),
        decreases s.len() - i,
    {
        let c = s[i];
        let ghost t = s@.take(i + 1);
        assert(t.drop_last() =~= s@.take(i as int));
        assert(t.last() == c);
        if char_is_sep(c, ascii) {
            if cur.len() > 0 {
                let mut tok: Vec<char> = Vec::new();
                std::mem::swap(&mut tok, &mut cur);
                let ghost before = views(done@);
                done.push(tok);
                assert(views(done@) =~= before.push(tok@));
            }
        } else {
            if cur.len() > 0 {
                assert(t.len() >= 2 && t[t.len() - 2] == s@[i - 1]);
                cur.push(c);
                assert(tokens_by(t, ascii) =~= views(done@).push(cur@));
            } else {
                cur.push(c);
                assert(cur@ =~= seq![c]);
            }
        }
        i = i + 1;
    }
    assert(s@.take(s@.len() as int) =~= s@);
    if cur.len() > 0 {
        let ghost before = views(done@);
        done.push(cur);
        assert(views(done@) =~= before.push(cur@));
    }
    done
}

/// The whitespace-separated tokens of `s`.
pub fn split_tokens(s: &[char]) -> (toks: Vec<Vec<char>>)
    ensures
        views(toks@) == tokens(s@),
{
    split_tokens_by(s, false)
}

/// Whether `s` is empty or only whitespace.
pub fn chars_blank(s: &[char]) -> (b: bool)
    ensures
        b == is_blank(s@),
{
    let mut i: usize = 0;
    while i < s.len()
        invariant
            i <= s@.len(),
            forall|j: int| 0 <= j < i ==> is_ws(#[trigger] s@[j]),
        decreases s.len() - i,
    {
        if !char_is_ws(s[i]) {
            return false;
        }
        i = i + 1;
    }
    true
}

/// `s` without its leading whitespace.
pub open spec fn trim_start(s: Seq<char>) -> Seq<char>
    decreases s.len(),
{
    if s.len() > 0 && is_ws(s[0]) {
        trim_start(s.drop_first())
    } else {
        s
    }
}

/// `s` without its trailing whitespace.
pub open spec fn trim_end(s: Seq<char>) -> Seq<char>
    decreases s.len(),
{
    if s.len() > 0 && is_ws(s.last()) {
        trim_end(s.drop_last())
    } else {
        s
    }
}

/// `s` without leading and trailing whitespace (`str::trim`).
pub open spec fn trim(s: Seq<char>) -> Seq<char> {
    trim_end(trim_start(s))
}

proof fn lemma_trim_start_at(s: Seq<char>, a: int)
    requires
        0 <= a <= s.len(),
        forall|j: int| 0 <= j < a ==> is_ws(#[trigger] s[j]),
        a == s.len() || !is_ws(s[a]),
    ensures
        trim_start(s) == s.subrange(a, s.len() as int),
    decreases a,
{
    if a == 0 {
        assert(s.subrange(0, s.len() as int) =~= s);
    } else {
        let d = s.drop_first();
        assert forall|j: int| 0 <= j < a - 1 implies is_ws(#[trigger] d[j]) by {
            assert(d[j] == s[j + 1]);
        }
        lemma_trim_start_at(d, a - 1);
        assert(d.subrange(a - 1, d.len() as int) =~= s.subrange(a, s.len() as int));
    }
}

proof fn lemma_trim_end_at(s: Seq<char>, b: int)
    requires
        0 <= b <= s.len(),
        forall|j: int| b <= j < s.len() ==> is_ws(#[trigger] s[j]),
        b == 0 || !is_ws(s[b - 1]),
    ensures
        trim_end(s) == s.subrange(0, b),
    decreases s.len() - b,
{
    if b == s.len() {
        assert(s.subrange(0, b) =~= s);
    } else {
        let d = s.drop_last();
        assert forall|j: int| b <= j < d.len() implies is_ws(#[trigger] d[j]) by {
            assert(d[j] == s[j]);
        }
        lemma_trim_end_at(d, b);
        assert(d.subrange(0, b) =~= s.subrange(0, b));
    }
}

/// `s` without leading and trailing whitespace.
pub fn trim_chars(s: &[char]) -> (r: Vec<char>)
    ensures
        r@ == trim(s@),
{
    let mut a: usize = 0;
    while a < s.len() && char_is_ws(s[a])
        invariant
            a <= s@.len(),
            forall|j: int| 0 <= j < a ==> is_ws(#[trigger] s@[j]),
        decreases s.len() - a,
    {
        a = a + 1;
    }
    proof {
        lemma_trim_start_at(s@, a as int);
    }
    let ghost t = s@.subrange(a as int, s@.len() as int);
    let mut b: usize = s.len();
    while b > a && char_is_ws(s[b - 1])
        invariant
            a <= b <= s@.len(),
            forall|j: int| b <= j < s@.len() ==> is_ws(#[trigger] s@[j]),
        decreases b,
    {
        b = b - 1;
    }
    proof {
        assert forall|j: int| b - a <= j < t.len() implies is_ws(#[trigger] t[j]) by {
            assert(t[j] == s@[j + a]);
        }
        if b > a {
            assert(t[b - a - 1] == s@[b - 1]);
        }
        lemma_trim_end_at(t, b - a);
        assert(t.subrange(0, b - a) =~= s@.subrange(a as int, b as int));
    }
    let mut r: Vec<char> = Vec::new();
    let mut i: usize = a;
    while i < b
        invariant
            a <= i <= b <= s@.len(),
            r@ == s@.subrange(a as int, i as int),
        decreases b - i,
    {
        r.push(s[i]);
        i = i + 1;
        assert(r@ =~= s@.subrange(a as int, i as int));
    }
    r
}

/// Splits `s` at every `'\n'` (`str::split('\n')`): there is always one more
/// piece than newlines.
pub fn split_at_newlines(s: &[char]) -> (pieces: Vec<Vec<char>>)
    ensures
        views(pieces@) == split_newlines(s@),
{
    let mut out: Vec<Vec<char>> = Vec::new();
    let mut cur: Vec<char> = Vec::new();
    let mut i: usize = 0;
    assert(s@.take(0) =~= Seq::<char>::empty());
    assert(views(out@).push(cur@) =~= split_newlines(Seq::<char>::empty()));
    while i < s.len()
        invariant
            i <= s@.len(),
            split_newlines(s@.take(i as int)) == views(out@).push(cur@),
        decreases s.len() - i,
    {
        let c = s[i];
        assert(s@.take(i + 1).drop_last() =~= s@.take(i as int));
        assert(s@.take(i + 1).last() == c);
        let ghost before = views(out@);
        if c == '\n' {
            let mut line: Vec<char> = Vec::new();
            std::mem::swap(&mut line, &mut cur);
            out.push(line);
            assert(views(out@) =~= before.push(line@));
            assert(split_newlines(s@.take(i + 1)) =~= views(out@).push(cur@));
        } else {
            cur.push(c);
            assert(split_newlines(s@.take(i + 1)) =~= views(out@).push(cur@));
        }
        i = i + 1;
    }
    assert(s@.take(s@.len() as int) =~= s@);
    let ghost before = views(out@);
    out.push(cur);
    assert(views(out@) =~= before.push(cur@));
    out
}

/// Reads the digits of `d` from position `i` on, starting from `acc`; fails
/// at the first non-digit or as soon as the value passes `max`.
pub open spec fn scan_digits_upto(d: Seq<char>, i: int, acc: nat, max: nat) -> Result<nat, NumError>
    decreases d.len() - i,
{
    if i < 0 || i >= d.len() {
        Ok(acc)
    } else if !is_digit(d[i]) {
        Err(NumError::InvalidDigit)
    } else if acc * 10 + digit_value(d[i]) > max {
        Err(NumError::PosOverflow)
    } else {
        scan_digits_upto(d, i + 1, acc * 10 + digit_value(d[i]), max)
    }
}

/// What `from_str` of an unsigned integer type whose largest value is `max`
/// gives for the text `t`.
pub open spec fn parse_uint(t: Seq<char>, max: nat) -> Result<nat, NumError> {
    if t.len() == 0 {
        Err(NumError::Empty)
    } else if t.len() == 1 && (t[0] == '+' || t[0] == '-') {
        Err(NumError::InvalidDigit)
    } else {
        let d = if t[0] == '+' {
            t.drop_first()
        } else {
            t
        };
        scan_digits_upto(d, 0, 0, max)
    }
}

proof fn lemma_scan_upto_bound(d: Seq<char>, i: int, acc: nat, max: nat)
    requires
        acc <= max,
    ensures
        scan_digits_upto(d, i, acc, max) matches Ok(v) ==> v <= max,
    decreases d.len() - i,
{
    if 0 <= i < d.len() && is_digit(d[i]) && acc * 10 + digit_value(d[i]) <= max {
        lemma_scan_upto_bound(d, i + 1, acc * 10 + digit_value(d[i]), max);
    }
}

/// Reads a decimal number of at most `max` from `t`, as `from_str` of an
/// unsigned integer type whose largest value is `max` does.
pub fn parse_uint_chars(t: &[char], max: u64) -> (r: Result<u64, NumError>)
    ensures
        match parse_uint(t@, max as nat) {
            Ok(v) => r == Ok::<u64, NumError>(v as u64) && v <= max,
            Err(e) => r == Err::<u64, NumError>(e),
        },
{
    let n = t.len();
    if n == 0 {
        return Err(NumError::Empty);
    }
    if n == 1 && (t[0] == '+' || t[0] == '-') {
        return Err(NumError::InvalidDigit);
    }
    let start: usize = if t[0] == '+' {
        1
    } else {
        0
    };
    let ghost d = if t@[0] == '+' {
        t@.drop_first()
    } else {
        t@
    };
    assert(d =~= t@.subrange(start as int, n as int));
    let mut acc: u64 = 0;
    let mut i: usize = start;
    while i < n
        invariant
            n == t@.len(),
            start <= i <= n,
            start == 0 || start == 1,
            d == t@.subrange(start as int, n as int),
            n >= 1,
            d == (if t@[0] == '+' { t@.drop_first() } else { t@ }),
            acc <= max,
            scan_digits_upto(d, 0, 0, max as nat) == scan_digits_upto(d, i - start, acc as nat, max as nat),
        decreases n - i,
    {
        let c = t[i];
        assert(d[i - start] == c);
        if !('0' <= c && c <= '9') {
            return Err(NumError::InvalidDigit);
        }
        let dv: u64 = (c as u32 - '0' as u32) as u64;
        assert(dv == digit_value(c));
        if dv > max || acc > (max - dv) / 10 {
            assert(acc * 10 + dv > max) by (nonlinear_arith)
                requires
                    dv > max || acc > (max - dv) / 10,
                    dv <= 9,
            ;
            return Err(NumError::PosOverflow);
        }
        assert(acc * 10 + dv <= max) by (nonlinear_arith)
            requires
                acc <= (max - dv) / 10,
                dv <= max,
                dv <= 9,
        ;
        acc = acc * 10 + dv;
        i = i + 1;
    }
    proof {
        lemma_scan_upto_bound(d, 0, 0, max as nat);
    }
    Ok(acc)
}

/// Appends the decimal text of `n` to `out`.
pub fn push_decimal_u64(out: &mut String, n: u64)
    ensures
        final(out)@ == old(out)@ + decimal(n as nat),
    decreases n,
{
    if n >= 10 {
        push_decimal_u64(out, n / 10);
    }
    push_char(out, digit_to_char((n % 10) as usize));
}

} // verus!
