//! The grammars of the two kinds of multi-character lexeme: numeric
//! literals and identifiers.
use vstd::prelude::*;

verus! {

pub open spec fn is_digit(c: char) -> bool {
    '0' <= c && c <= '9'
}

pub open spec fn is_ascii_letter(c: char) -> bool {
    ('a' <= c && c <= 'z') || ('A' <= c && c <= 'Z')
}

pub open spec fn is_sign(c: char) -> bool {
    c == '+' || c == '-'
}

/// The number of consecutive digits in `s` starting at index `i`.
pub open spec fn digit_run(s: Seq<char>, i: int) -> int
    decreases s.len() - i,
{
    if 0 <= i < s.len() && is_digit(s[i]) {
        1 + digit_run(s, i + 1)
    } else {
        0
    }
}

/// `s` spells the lower-case word `w`, each letter in either case.
pub open spec fn spells(s: Seq<char>, w: Seq<char>) -> bool {
    s.len() == w.len() && forall|i: int|
        0 <= i < s.len() ==> s[i] == w[i] || s[i] == upper_of(w[i])
}

pub open spec fn upper_of(c: char) -> char {
    if c == 'a' {
        'A'
    } else if c == 'e' {
        'E'
    } else if c == 'f' {
        'F'
    } else if c == 'i' {
        'I'
    } else if c == 'n' {
        'N'
    } else if c == 't' {
        'T'
    } else if c == 'y' {
        'Y'
    } else {
        c
    }
}

/// A decimal number: digits with at most one point, at least one digit,
/// then an optional exponent `e`, an optional sign and at least one digit.
pub open spec fn decimal(s: Seq<char>) -> bool {
    let whole = digit_run(s, 0);
    let has_point = whole < s.len() && s[whole] == '.';
    let frac = if has_point { digit_run(s, whole + 1) } else { 0 };
    let end = if has_point { whole + 1 + frac } else { whole };
    &&& whole + frac > 0
    &&& (end == s.len() || {
        &&& s[end] == 'e' || s[end] == 'E'
        &&& {
            let start = if end + 1 < s.len() && is_sign(s[end + 1]) { end + 2 } else { end + 1 };
            let exp = digit_run(s, start);
            exp > 0 && start + exp == s.len()
        }
    })
}

/// A floating-point literal: an optional sign, then `inf`, `infinity`, `nan`
/// (in any case) or a decimal number.
pub open spec fn float_literal(s: Seq<char>) -> bool {
    let body = if s.len() > 0 && is_sign(s[0]) { s.drop_first() } else { s };
    spells(body, seq!['i', 'n', 'f']) || spells(body, seq!['i', 'n', 'f', 'i', 'n', 'i', 't', 'y'])
        || spells(body, seq!['n', 'a', 'n']) || decimal(body)
}

/// An identifier: an ASCII letter or `_`, then ASCII letters, digits, `_`
/// or `.`.
pub open spec fn identifier(s: Seq<char>) -> bool {
    &&& s.len() > 0
    &&& is_ascii_letter(s[0]) || s[0] == '_'
    &&& forall|i: int|
        1 <= i < s.len() ==> is_ascii_letter(s[i]) || is_digit(s[i]) || s[i] == '_' || s[i]
            == '.'
}

fn char_is_digit(c: char) -> (r: bool)
    ensures
        r == is_digit(c),
{
    '0' <= c && c <= '9'
}

fn char_is_letter(c: char) -> (r: bool)
    ensures
        r == is_ascii_letter(c),
{
    ('a' <= c && c <= 'z') || ('A' <= c && c <= 'Z')
}

/// The end of the run of digits in `s` that starts at `i`.
fn skip_digits(s: &[char], i: usize) -> (r: usize)
    requires
        i <= s@.len(),
    ensures
        r == i + digit_run(s@, i as int),
        i <= r <= s@.len(),
{
    let mut j = i;
    while j < s.len() && char_is_digit(s[j])
        invariant
            i <= j <= s@.len(),
            digit_run(s@, i as int) == (j - i) + digit_run(s@, j as int),
        decreases s@.len() - j,
    {
        j = j + 1;
    }
    j
}

fn spells_word(s: &[char], start: usize, w: &[char]) -> (r: bool)
    requires
        start <= s@.len(),
    ensures
        r == spells(s@.subrange(start as int, s@.len() as int), w@),
{
    if s.len() - start != w.len() {
        return false;
    }
    let mut i: usize = 0;
    while i < w.len()
        invariant
            start <= s@.len(),
            start + w.len() == s.len(),
            i <= w@.len(),
            forall|k: int|
                0 <= k < i ==> s@[start + k] == w@[k] || s@[start + k] == upper_of(w@[k]),
        decreases w@.len() - i,
    {
        let c = s[start + i];
        let l = w[i];
        let u = if l == 'a' {
            'A'
        } else if l == 'e' {
            'E'
        } else if l == 'f' {
            'F'
        } else if l == 'i' {
            'I'
        } else if l == 'n' {
            'N'
        } else if l == 't' {
            'T'
        } else if l == 'y' {
            'Y'
        } else {
            l
        };
        if c != l && c != u {
            return false;
        }
        i = i + 1;
    }
    true
}

fn is_decimal(s: &[char], start: usize) -> (r: bool)
    requires
        start <= s@.len(),
    ensures
        r == decimal(s@.subrange(start as int, s@.len() as int)),
{
    proof {
        lemma_digit_run_shift(s@, start as int, 0);
    }
    let whole_end = skip_digits(s, start);
    let has_point = whole_end < s.len() && s[whole_end] == '.';
    let mut end = whole_end;
    if has_point {
        proof {
            lemma_digit_run_shift(s@, start as int, whole_end - start + 1);
        }
        end = skip_digits(s, whole_end + 1);
    }
    if end == start || (has_point && end == start + 1) {
        return false;
    }
    if end == s.len() {
        return true;
    }
    if s[end] != 'e' && s[end] != 'E' {
        return false;
    }
    let exp_start = if end + 1 < s.len() && (s[end + 1] == '+' || s[end + 1] == '-') {
        end + 2
    } else {
        end + 1
    };
    proof {
        lemma_digit_run_shift(s@, start as int, exp_start - start);
    }
    let exp_end = skip_digits(s, exp_start);
    exp_end > exp_start && exp_end == s.len()
}

proof fn lemma_digit_run_shift(s: Seq<char>, start: int, i: int)
    requires
        0 <= start <= s.len(),
        0 <= i,
    ensures
        digit_run(s.subrange(start, s.len() as int), i) == digit_run(s, start + i),
    decreases s.len() - start - i,
{
    if start + i < s.len() {
        lemma_digit_run_shift(s, start, i + 1);
    }
}

/// Whether `s` is a floating-point literal.
pub fn float_literal_text(s: &[char]) -> (r: bool)
    ensures
        r == float_literal(s@),
{
    let start: usize = if s.len() > 0 && (s[0] == '+' || s[0] == '-') {
        1
    } else {
        0
    };
    assert(s@.subrange(start as int, s@.len() as int) =~= (if s@.len() > 0 && is_sign(s@[0]) {
        s@.drop_first()
    } else {
        s@
    }));
    let inf = ['i', 'n', 'f'];
    let infinity = ['i', 'n', 'f', 'i', 'n', 'i', 't', 'y'];
    let nan = ['n', 'a', 'n'];
    assert(inf@ =~= seq!['i', 'n', 'f']);
    assert(infinity@ =~= seq!['i', 'n', 'f', 'i', 'n', 'i', 't', 'y']);
    assert(nan@ =~= seq!['n', 'a', 'n']);
    spells_word(s, start, inf.as_slice()) || spells_word(s, start, infinity.as_slice())
        || spells_word(s, start, nan.as_slice()) || is_decimal(s, start)
}

/// The characters of `s`, in order.
pub fn chars_of(s: &str) -> (r: Vec<char>)
    ensures
        r@ == s@,
{
    let mut v: Vec<char> = Vec::new();
    for c in it: s.chars()
        invariant
            it.seq() == s@,
            it.index() <= s@.len(),
            v@ == s@.take(it.index() as int),
    {
        assert(s@.take(it.index() + 1) =~= s@.take(it.index() as int).push(c));
        v.push(c);
    }
    assert(s@.take(s@.len() as int) =~= s@);
    v
}

/// Whether `token` is an identifier: a letter or `_` first, then letters,
/// digits, `_` or `.`.
pub fn valid_identifier(token: &str) -> (r: bool)
    ensures
        r == identifier(token@),
{
    let chars = chars_of(token);
    identifier_chars(chars.as_slice())
}

/// Whether the characters `token` form an identifier.
pub fn identifier_chars(token: &[char]) -> (r: bool)
    ensures
        r == identifier(token@),
{
    if token.len() == 0 {
        return false;
    }
    let first = token[0];
    if !(char_is_letter(first) || first == '_') {
        return false;
    }
    let mut i: usize = 1;
    while i < token.len()
        invariant
            1 <= i <= token@.len(),
            forall|k: int|
                1 <= k < i ==> is_ascii_letter(token@[k]) || is_digit(token@[k]) || token@[k]
                    == '_' || token@[k] == '.',
        decreases token@.len() - i,
    {
        let c = token[i];
        if !(char_is_letter(c) || char_is_digit(c) || c == '_' || c == '.') {
            return false;
        }
        i = i + 1;
    }
    true
}

} // verus!
