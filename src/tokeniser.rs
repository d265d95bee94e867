//! Turning a line of text into a sequence of tokens.
use vstd::prelude::*;

use crate::error::ParseError;
use crate::lexeme::{float_literal, float_literal_text, identifier, identifier_chars};

verus! {

/// A numeric literal as it was written, with the sign that folding a
/// preceding minus gave it. Its value is that of `text` read as a 64-bit
/// float, negated when `negative` is set.
#[derive(Debug, PartialEq)]
pub struct Numeral {
    pub text: String,
    pub negative: bool,
}

impl Numeral {
    /// The same literal with the same sign.
    pub fn copy(&self) -> (r: Numeral)
        ensures
            r.text@ == self.text@,
            r.negative == self.negative,
    {
        Numeral { text: self.text.clone(), negative: self.negative }
    }
}

#[derive(Debug, PartialEq)]
pub enum Token {
    Number(Numeral),
    Variable(String),
    Plus,
    Minus,
    Star,
    Slash,
    Percent,
    Exponent,
    Equals,
    OpenBracket,
    CloseBracket,
}

/// What a token is, with names and literals as sequences of characters.
pub ghost enum TokenModel {
    Number { text: Seq<char>, negative: bool },
    Variable(Seq<char>),
    Plus,
    Minus,
    Star,
    Slash,
    Percent,
    Exponent,
    Equals,
    OpenBracket,
    CloseBracket,
}

impl View for Token {
    type V = TokenModel;

    open spec fn view(&self) -> TokenModel {
        match self {
            Token::Number(n) => TokenModel::Number { text: n.text@, negative: n.negative },
            Token::Variable(s) => TokenModel::Variable(s@),
            Token::Plus => TokenModel::Plus,
            Token::Minus => TokenModel::Minus,
            Token::Star => TokenModel::Star,
            Token::Slash => TokenModel::Slash,
            Token::Percent => TokenModel::Percent,
            Token::Exponent => TokenModel::Exponent,
            Token::Equals => TokenModel::Equals,
            Token::OpenBracket => TokenModel::OpenBracket,
            Token::CloseBracket => TokenModel::CloseBracket,
        }
    }
}

pub open spec fn tokens_model(v: Seq<Token>) -> Seq<TokenModel> {
    v.map_values(|t: Token| t@)
}

/// The precedence rank of a token: the lower the rank, the later the
/// operation is applied.
pub open spec fn rank_of(t: TokenModel) -> u8 {
    match t {
        TokenModel::Number { .. } => 4,
        TokenModel::Variable(_) => 4,
        TokenModel::Plus => 1,
        TokenModel::Minus => 1,
        TokenModel::Star => 2,
        TokenModel::Slash => 2,
        TokenModel::Exponent => 3,
        TokenModel::Percent => 7,
        TokenModel::Equals => 7,
        TokenModel::OpenBracket => 7,
        TokenModel::CloseBracket => 7,
    }
}

/// The token that a single-character symbol stands for.
pub open spec fn symbol(s: Seq<char>) -> Option<TokenModel> {
    if s.len() != 1 {
        None
    } else if s[0] == '+' {
        Some(TokenModel::Plus)
    } else if s[0] == '-' {
        Some(TokenModel::Minus)
    } else if s[0] == '*' {
        Some(TokenModel::Star)
    } else if s[0] == '/' {
        Some(TokenModel::Slash)
    } else if s[0] == '%' {
        Some(TokenModel::Percent)
    } else if s[0] == '^' {
        Some(TokenModel::Exponent)
    } else if s[0] == '=' {
        Some(TokenModel::Equals)
    } else if s[0] == '(' {
        Some(TokenModel::OpenBracket)
    } else if s[0] == ')' {
        Some(TokenModel::CloseBracket)
    } else {
        None
    }
}

/// The token that the text `s` is, if any: a number first, then a
/// variable name, then a symbol.
pub open spec fn classify(s: Seq<char>) -> Option<TokenModel> {
    if float_literal(s) {
        Some(TokenModel::Number { text: s, negative: false })
    } else if identifier(s) {
        Some(TokenModel::Variable(s))
    } else {
        symbol(s)
    }
}

impl Token {
    pub fn rank(&self) -> (r: u8)
        ensures
            r == rank_of(self@),
    {
        match self {
            Token::Number(_) => 4,
            Token::Variable(_) => 4,
            Token::Plus => 1,
            Token::Minus => 1,
            Token::Star => 2,
            Token::Slash => 2,
            Token::Exponent => 3,
            Token::Percent => 7,
            Token::Equals => 7,
            Token::OpenBracket => 7,
            Token::CloseBracket => 7,
        }
    }

    /// The token that the text `value` is, or `TokenizeError` when it is
    /// none.
    pub fn from_text(value: &[char]) -> (r: Result<Token, ParseError>)
        ensures
            match r {
                Ok(t) => classify(value@) == Some(t@),
                Err(e) => classify(value@) is None && e == ParseError::TokenizeError,
            },
    {
        if float_literal_text(value) {
            return Ok(Token::Number(Numeral { text: string_of(value), negative: false }));
        }
        if identifier_chars(value) {
            return Ok(Token::Variable(string_of(value)));
        }
        if value.len() != 1 {
            return Err(ParseError::TokenizeError);
        }
        let c = value[0];
        if c == '+' {
            Ok(Token::Plus)
        } else if c == '-' {
            Ok(Token::Minus)
        } else if c == '*' {
            Ok(Token::Star)
        } else if c == '/' {
            Ok(Token::Slash)
        } else if c == '%' {
            Ok(Token::Percent)
        } else if c == '^' {
            Ok(Token::Exponent)
        } else if c == '=' {
            Ok(Token::Equals)
        } else if c == '(' {
            Ok(Token::OpenBracket)
        } else if c == ')' {
            Ok(Token::CloseBracket)
        } else {
            Err(ParseError::TokenizeError)
        }
    }
}

/// The state of a scan over the text: the tokens emitted so far and the
/// characters gathered since the last one.
pub ghost struct Scan {
    pub tokens: Seq<TokenModel>,
    pub builder: Seq<char>,
}

/// One character of the scan, with whether it is white space. White space
/// ends the gathered text, which must then be a token (emitted) or empty,
/// and is dropped. Any other character is gathered while the gathered text
/// stays a token; where it would not, the text before it is emitted and the
/// character starts anew. A lone `-` is emitted at once. `None` is a
/// failure: gathered text that is no token met white space, or a character
/// that does not make it one.
pub open spec fn scan_step(st: Scan, c: char, space: bool) -> Option<Scan> {
    if space {
        match classify(st.builder) {
            Some(t) => Some(Scan { tokens: st.tokens.push(t), builder: Seq::empty() }),
            None => if st.builder.len() == 0 {
                Some(st)
            } else {
                None
            },
        }
    } else {
        let grown = st.builder.push(c);
        let next = if classify(grown) is Some {
            Some(Scan { tokens: st.tokens, builder: grown })
        } else {
            match classify(st.builder) {
                Some(t) => Some(Scan { tokens: st.tokens.push(t), builder: seq![c] }),
                None => None,
            }
        };
        match next {
            Some(n) => if n.builder == seq!['-'] {
                Some(Scan { tokens: n.tokens.push(TokenModel::Minus), builder: Seq::empty() })
            } else {
                Some(n)
            },
            None => None,
        }
    }
}

/// The scan after the first `n` characters.
pub open spec fn scan(text: Seq<(char, bool)>, n: nat) -> Option<Scan>
    decreases n,
{
    if n == 0 {
        Some(Scan { tokens: Seq::empty(), builder: Seq::empty() })
    } else {
        match scan(text, (n - 1) as nat) {
            Some(st) => if n <= text.len() {
                scan_step(st, text[n - 1].0, text[n - 1].1)
            } else {
                None
            },
            None => None,
        }
    }
}

pub open spec fn negated(t: TokenModel) -> TokenModel {
    match t {
        TokenModel::Number { text, negative } => TokenModel::Number { text, negative: !negative },
        _ => t,
    }
}

/// A minus that comes first or after anything but a number, and is
/// followed by a number, is folded into that number's sign.
pub open spec fn minus_folds(tokens: Seq<TokenModel>, i: int) -> bool {
    &&& 0 <= i && i + 1 < tokens.len()
    &&& tokens[i] is Minus
    &&& (i == 0 || !(tokens[i - 1] is Number))
    &&& tokens[i + 1] is Number
}

/// The tokens after folding, left to right from index `i`.
pub open spec fn fold_minus(tokens: Seq<TokenModel>, i: int) -> Seq<TokenModel>
    decreases tokens.len() - i,
{
    if i < 0 || i >= tokens.len() {
        tokens
    } else if minus_folds(tokens, i) {
        fold_minus(tokens.update(i + 1, negated(tokens[i + 1])).remove(i), i)
    } else {
        fold_minus(tokens, i + 1)
    }
}

/// The tokens of a text, each character marked with whether it is white
/// space; `None` where the text holds something that is no token.
pub open spec fn lex(text: Seq<(char, bool)>) -> Option<Seq<TokenModel>> {
    match scan(text, text.len()) {
        Some(st) => match classify(st.builder) {
            Some(t) => Some(fold_minus(st.tokens.push(t), 0)),
            None => if st.builder.len() == 0 {
                Some(fold_minus(st.tokens, 0))
            } else {
                None
            },
        },
        None => None,
    }
}

proof fn lemma_scan_stays_failed(text: Seq<(char, bool)>, n: nat, m: nat)
    requires
        n <= m,
        scan(text, n) is None,
    ensures
        scan(text, m) is None,
    decreases m - n,
{
    if n < m {
        lemma_scan_stays_failed(text, n, (m - 1) as nat);
    }
}

/// Each character of `s` with whether it is white space.
pub open spec fn marked(s: Seq<char>) -> Seq<(char, bool)> {
    s.map_values(|c: char| (c, white_space(c)))
}

/// Whether a character has Unicode's White_Space property: the 25 code
/// points that the Unicode Character Database lists for it.
pub open spec fn white_space(c: char) -> bool {
    ('\u{9}' <= c && c <= '\u{d}') || c == '\u{20}' || c == '\u{85}' || c == '\u{a0}' || c
        == '\u{1680}' || ('\u{2000}' <= c && c <= '\u{200a}') || c == '\u{2028}' || c
        == '\u{2029}' || c == '\u{202f}' || c == '\u{205f}' || c == '\u{3000}'
}

/// Relies on `char::is_whitespace`: true exactly for the characters with
/// Unicode's White_Space property.
#[verifier::external_body]
fn is_white_space(c: char) -> (r: bool)
    ensures
        r == white_space(c),
{
    c.is_whitespace()
}

/// Splits a line of text into tokens, then folds minus signs into the
/// numbers that follow them.
pub fn tokenise(expr: &str) -> (r: Result<Vec<Token>, ParseError>)
    ensures
        match r {
            Ok(v) => lex(marked(expr@)) == Some(tokens_model(v@)),
            Err(e) => lex(marked(expr@)) is None && e == ParseError::TokenizeError,
        },
{
    let mut text: Vec<(char, bool)> = Vec::new();
    for c in it: expr.chars()
        invariant
            it.seq() == expr@,
            it.index() <= expr@.len(),
            text@ == marked(expr@.take(it.index() as int)),
    {
        let space = is_white_space(c);
        proof {
            assert(marked(expr@.take(it.index() + 1)) =~= marked(expr@.take(it.index() as int)).push((c, space)));
        }
        text.push((c, space));
    }
    assert(expr@.take(expr@.len() as int) =~= expr@);
    tokenise_marked(text.as_slice())
}

/// Splits a text into tokens, each character given with whether it is
/// white space, then folds minus signs into the numbers that follow them.
pub fn tokenise_marked(text: &[(char, bool)]) -> (r: Result<Vec<Token>, ParseError>)
    ensures
        match r {
            Ok(v) => lex(text@) == Some(tokens_model(v@)),
            Err(e) => lex(text@) is None && e == ParseError::TokenizeError,
        },
{
    let mut tokens: Vec<Token> = Vec::new();
    let mut builder: Vec<char> = Vec::new();
    let mut i: usize = 0;
    assert(tokens_model(tokens@) =~= Seq::<TokenModel>::empty());
    assert(builder@ =~= Seq::<char>::empty());
    while i < text.len()
        invariant
            i <= text@.len(),
            scan(text@, i as nat) == Some(Scan { tokens: tokens_model(tokens@), builder: builder@ }),
        decreases text@.len() - i,
    {
        let (c, space) = text[i];
        let ghost st = Scan { tokens: tokens_model(tokens@), builder: builder@ };
        assert(scan(text@, (i + 1) as nat) == scan_step(st, c, space));
        if space {
            match Token::from_text(builder.as_slice()) {
                Ok(t) => {
                    tokens.push(t);
                    builder.clear();
                    assert(tokens_model(tokens@) =~= st.tokens.push(t@));
                },
                Err(e) => {
                    if builder.len() != 0 {
                        proof {
                            lemma_scan_stays_failed(text@, (i + 1) as nat, text@.len());
                        }
                        return Err(e);
                    }
                },
            }
        } else {
            builder.push(c);
            match Token::from_text(builder.as_slice()) {
                Ok(_) => {},
                Err(_) => {
                    builder.pop();
                    assert(builder@ =~= st.builder);
                    match Token::from_text(builder.as_slice()) {
                        Ok(t) => {
                            tokens.push(t);
                            assert(tokens_model(tokens@) =~= st.tokens.push(t@));
                        },
                        Err(e) => {
                            proof {
                                lemma_scan_stays_failed(text@, (i + 1) as nat, text@.len());
                            }
                            return Err(e);
                        },
                    }
                    builder.clear();
                    builder.push(c);
                    assert(builder@ =~= seq![c]);
                },
            }
            let ghost mid = tokens_model(tokens@);
            if builder.len() == 1 && builder[0] == '-' {
                assert(builder@ =~= seq!['-']);
                builder.clear();
                tokens.push(Token::Minus);
                assert(tokens_model(tokens@) =~= mid.push(TokenModel::Minus));
                assert(builder@ =~= Seq::<char>::empty());
            } else {
                assert(builder@ != seq!['-']);
            }
        }
        i = i + 1;
    }
    let ghost last = tokens_model(tokens@);
    match Token::from_text(builder.as_slice()) {
        Ok(t) => {
            tokens.push(t);
            assert(tokens_model(tokens@) =~= last.push(t@));
        },
        Err(_) => {
            if builder.len() != 0 {
                return Err(ParseError::TokenizeError);
            }
        },
    }
    Ok(correct_minus(tokens))
}

/// Folds each minus that comes first or after anything but a number, and
/// is followed by a number, into that number's sign.
fn correct_minus(tokens: Vec<Token>) -> (r: Vec<Token>)
    ensures
        tokens_model(r@) == fold_minus(tokens_model(tokens@), 0),
{
    let mut tokens = tokens;
    let ghost start = tokens_model(tokens@);
    let mut i: usize = 0;
    while i < tokens.len()
        invariant
            i <= tokens@.len(),
            fold_minus(tokens_model(tokens@), i as int) == fold_minus(start, 0),
        decreases tokens@.len() - i,
    {
        let ghost m = tokens_model(tokens@);
        let is_minus = match &tokens[i] {
            Token::Minus => true,
            _ => false,
        };
        let prev_not_number = i == 0 || match &tokens[i - 1] {
            Token::Number(_) => false,
            _ => true,
        };
        let next = if i + 1 < tokens.len() {
            match &tokens[i + 1] {
                Token::Number(n) => Some(Numeral { text: n.text.clone(), negative: !n.negative }),
                _ => None,
            }
        } else {
            None
        };
        assert(minus_folds(m, i as int) == (is_minus && prev_not_number && next is Some));
        match next {
            Some(n) if is_minus && prev_not_number => {
                tokens[i + 1] = Token::Number(n);
                tokens.remove(i);
                assert(tokens_model(tokens@) =~= m.update(i + 1, negated(m[i + 1])).remove(i as int));
            },
            _ => {
                i = i + 1;
            },
        }
    }
    tokens
}

/// Relies on `FromIterator<char>` for `String`: the string holds the
/// characters in order.
#[verifier::external_body]
fn string_of(chars: &[char]) -> (r: String)
    ensures
        r@ == chars@,
{
    chars.iter().collect()
}

} // verus!
