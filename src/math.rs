//! Building an expression tree from tokens by operator precedence.
use vstd::prelude::*;

use crate::error::{EvalError, ParseError};
use crate::scope::Scope;
use crate::tokeniser::{Numeral, Token, TokenModel, rank_of, tokens_model};

verus! {

/// A node of an expression tree; each node owns its children.
#[derive(Debug, PartialEq)]
pub enum Operation {
    Number(Numeral),
    Variable(String),
    Negate(Box<Operation>),
    Add(Box<Operation>, Box<Operation>),
    Subtract(Box<Operation>, Box<Operation>),
    Multiply(Box<Operation>, Box<Operation>),
    Divide(Box<Operation>, Box<Operation>),
    Exponentiate(Box<Operation>, Box<Operation>),
}

/// What an expression tree is, with names and literals as sequences of
/// characters.
pub ghost enum OperationModel {
    Number { text: Seq<char>, negative: bool },
    Variable(Seq<char>),
    Negate(Box<OperationModel>),
    Add(Box<OperationModel>, Box<OperationModel>),
    Subtract(Box<OperationModel>, Box<OperationModel>),
    Multiply(Box<OperationModel>, Box<OperationModel>),
    Divide(Box<OperationModel>, Box<OperationModel>),
    Exponentiate(Box<OperationModel>, Box<OperationModel>),
}

pub open spec fn operation_model(o: Operation) -> OperationModel
    decreases o,
{
    match o {
        Operation::Number(n) => OperationModel::Number { text: n.text@, negative: n.negative },
        Operation::Variable(s) => OperationModel::Variable(s@),
        Operation::Negate(a) => OperationModel::Negate(Box::new(operation_model(*a))),
        Operation::Add(a, b) => OperationModel::Add(
            Box::new(operation_model(*a)),
            Box::new(operation_model(*b)),
        ),
        Operation::Subtract(a, b) => OperationModel::Subtract(
            Box::new(operation_model(*a)),
            Box::new(operation_model(*b)),
        ),
        Operation::Multiply(a, b) => OperationModel::Multiply(
            Box::new(operation_model(*a)),
            Box::new(operation_model(*b)),
        ),
        Operation::Divide(a, b) => OperationModel::Divide(
            Box::new(operation_model(*a)),
            Box::new(operation_model(*b)),
        ),
        Operation::Exponentiate(a, b) => OperationModel::Exponentiate(
            Box::new(operation_model(*a)),
            Box::new(operation_model(*b)),
        ),
    }
}

impl View for Operation {
    type V = OperationModel;

    open spec fn view(&self) -> OperationModel {
        operation_model(*self)
    }
}

/// The outcome of parsing one line: an expression to evaluate, or a value
/// to assign to a name.
#[derive(Debug, PartialEq)]
pub enum ExpressionResult {
    Evaluate(Operation),
    AssignVariable(String, Operation),
}

pub ghost enum ExpressionModel {
    Evaluate(OperationModel),
    AssignVariable(Seq<char>, OperationModel),
}

impl View for ExpressionResult {
    type V = ExpressionModel;

    open spec fn view(&self) -> ExpressionModel {
        match self {
            ExpressionResult::Evaluate(o) => ExpressionModel::Evaluate(o@),
            ExpressionResult::AssignVariable(n, o) => ExpressionModel::AssignVariable(n@, o@),
        }
    }
}

pub open spec fn bracket_delta(t: TokenModel) -> int {
    match t {
        TokenModel::OpenBracket => 1,
        TokenModel::CloseBracket => -1,
        _ => 0,
    }
}

/// Opening brackets less closing brackets among the first `k` tokens.
pub open spec fn depth(s: Seq<TokenModel>, k: int) -> int
    decreases k,
{
    if k <= 0 || k > s.len() {
        0
    } else {
        depth(s, k - 1) + bracket_delta(s[k - 1])
    }
}

/// Scans from `i` for a token outside all brackets whose rank is below that
/// of the token at `best`.
pub open spec fn scan_lowest(s: Seq<TokenModel>, i: int, best: int) -> int
    decreases s.len() - i,
{
    if i < 0 || i >= s.len() || best < 0 || best >= s.len() {
        best
    } else if rank_of(s[i]) < rank_of(s[best]) && depth(s, i + 1) == 0 {
        scan_lowest(s, i + 1, i)
    } else {
        scan_lowest(s, i + 1, best)
    }
}

/// Where a non-empty token sequence splits: the leftmost token of lowest
/// rank among the first token and those outside all brackets.
pub open spec fn split_index(s: Seq<TokenModel>) -> int {
    scan_lowest(s, 0, 0)
}

/// The sequence is one bracketed group: it opens and closes with brackets
/// that match each other.
pub open spec fn wrapped(s: Seq<TokenModel>) -> bool {
    &&& s.len() >= 2
    &&& s[0] is OpenBracket
    &&& s[s.len() - 1] is CloseBracket
    &&& forall|k: int| 2 <= k < s.len() ==> depth(s, k) != 0
}

pub open spec fn binary_node(t: TokenModel, a: OperationModel, b: OperationModel) -> OperationModel {
    match t {
        TokenModel::Plus => OperationModel::Add(Box::new(a), Box::new(b)),
        TokenModel::Minus => OperationModel::Subtract(Box::new(a), Box::new(b)),
        TokenModel::Star => OperationModel::Multiply(Box::new(a), Box::new(b)),
        TokenModel::Slash => OperationModel::Divide(Box::new(a), Box::new(b)),
        _ => OperationModel::Exponentiate(Box::new(a), Box::new(b)),
    }
}

pub open spec fn is_binary(t: TokenModel) -> bool {
    t is Plus || t is Minus || t is Star || t is Slash || t is Exponent
}

/// The tree that a token sequence stands for. An outer pair of matching
/// brackets is stripped; otherwise the sequence splits at `split_index`.
/// There a number or a name is a leaf when it stands alone (beside other
/// tokens an operator is missing), a minus in first place negates the
/// rest, and an operator applies to the parts on its left and its right,
/// the left one parsed first.
pub open spec fn build(s: Seq<TokenModel>) -> Result<OperationModel, ParseError>
    decreases s.len(),
    via build_decreases
{
    if s.len() == 0 {
        Err(ParseError::MissingOperand)
    } else if wrapped(s) {
        build(s.subrange(1, s.len() - 1))
    } else {
        let i = split_index(s);
        let t = s[i];
        match t {
            TokenModel::Number { text, negative } => if s.len() == 1 {
                Ok(OperationModel::Number { text, negative })
            } else {
                Err(ParseError::MissingOperator)
            },
            TokenModel::Variable(n) => if s.len() == 1 {
                Ok(OperationModel::Variable(n))
            } else {
                Err(ParseError::MissingOperator)
            },
            TokenModel::Percent => Err(ParseError::UnsupportedOperator),
            TokenModel::OpenBracket => Err(ParseError::UnbalancedBrackets),
            TokenModel::CloseBracket => Err(ParseError::UnbalancedBrackets),
            TokenModel::Equals => Err(ParseError::InternalInvariantViolation),
            _ => if t is Minus && i == 0 {
                match build(s.subrange(1, s.len() as int)) {
                    Ok(a) => Ok(OperationModel::Negate(Box::new(a))),
                    Err(e) => Err(e),
                }
            } else {
                match build(s.subrange(0, i)) {
                    Ok(a) => match build(s.subrange(i + 1, s.len() as int)) {
                        Ok(b) => Ok(binary_node(t, a, b)),
                        Err(e) => Err(e),
                    },
                    Err(e) => Err(e),
                }
            },
        }
    }
}

#[via_fn]
proof fn build_decreases(s: Seq<TokenModel>) {
    if s.len() > 0 && !wrapped(s) {
        lemma_scan_in_range(s, 0, 0);
    }
}

/// A token that may be the split: the first one, or one outside all
/// brackets.
pub open spec fn split_candidate(s: Seq<TokenModel>, j: int) -> bool {
    j == 0 || depth(s, j + 1) == 0
}

/// The split of a non-empty token sequence is the leftmost token of lowest
/// rank among the first token and those outside all brackets.
pub proof fn lemma_split_index_is_leftmost_lowest(s: Seq<TokenModel>)
    requires
        s.len() > 0,
    ensures
        0 <= split_index(s) < s.len(),
        split_candidate(s, split_index(s)),
        forall|j: int|
            0 <= j < s.len() && split_candidate(s, j) ==> rank_of(s[split_index(s)]) <= rank_of(
                #[trigger] s[j],
            ),
        forall|j: int|
            0 <= j < split_index(s) && split_candidate(s, j) ==> rank_of(#[trigger] s[j]) > rank_of(
                s[split_index(s)],
            ),
{
    lemma_scan_leftmost_lowest(s, 0, 0);
}

proof fn lemma_scan_leftmost_lowest(s: Seq<TokenModel>, i: int, best: int)
    requires
        0 <= best < s.len(),
        best <= i <= s.len(),
        split_candidate(s, best),
        forall|j: int| 0 <= j < i && split_candidate(s, j) ==> rank_of(s[best]) <= rank_of(#[trigger] s[j]),
        forall|j: int| 0 <= j < best && split_candidate(s, j) ==> rank_of(#[trigger] s[j]) > rank_of(s[best]),
    ensures
        ({
            let r = scan_lowest(s, i, best);
            &&& 0 <= r < s.len()
            &&& split_candidate(s, r)
            &&& forall|j: int|
                0 <= j < s.len() && split_candidate(s, j) ==> rank_of(s[r]) <= rank_of(#[trigger] s[j])
            &&& forall|j: int| 0 <= j < r && split_candidate(s, j) ==> rank_of(#[trigger] s[j]) > rank_of(s[r])
        }),
    decreases s.len() - i,
{
    if i < s.len() {
        if rank_of(s[i]) < rank_of(s[best]) && depth(s, i + 1) == 0 {
            lemma_scan_leftmost_lowest(s, i + 1, i);
        } else {
            lemma_scan_leftmost_lowest(s, i + 1, best);
        }
    }
}

proof fn lemma_scan_in_range(s: Seq<TokenModel>, i: int, best: int)
    requires
        0 <= best < s.len(),
        0 <= i,
    ensures
        0 <= scan_lowest(s, i, best) < s.len(),
    decreases s.len() - i,
{
    if i < s.len() {
        if rank_of(s[i]) < rank_of(s[best]) && depth(s, i + 1) == 0 {
            lemma_scan_in_range(s, i + 1, i);
        } else {
            lemma_scan_in_range(s, i + 1, best);
        }
    }
}

/// The values that expressions are evaluated to, with their arithmetic.
pub trait Arithmetic: Sized {
    /// The value of a numeric literal, negated when it says so.
    fn from_numeral(n: &Numeral) -> Self;

    fn negate(self) -> Self;

    fn plus(self, other: Self) -> Self;

    fn minus(self, other: Self) -> Self;

    fn times(self, other: Self) -> Self;

    fn divide(self, other: Self) -> Self;

    fn power(self, other: Self) -> Self;
}

/// The first name, left to right, that the tree uses and `names` lacks.
pub open spec fn first_undefined(o: OperationModel, names: Set<Seq<char>>) -> Option<Seq<char>>
    decreases o,
{
    match o {
        OperationModel::Number { .. } => None,
        OperationModel::Variable(n) => if names.contains(n) {
            None
        } else {
            Some(n)
        },
        OperationModel::Negate(a) => first_undefined(*a, names),
        OperationModel::Add(a, b) => match first_undefined(*a, names) {
            Some(n) => Some(n),
            None => first_undefined(*b, names),
        },
        OperationModel::Subtract(a, b) => match first_undefined(*a, names) {
            Some(n) => Some(n),
            None => first_undefined(*b, names),
        },
        OperationModel::Multiply(a, b) => match first_undefined(*a, names) {
            Some(n) => Some(n),
            None => first_undefined(*b, names),
        },
        OperationModel::Divide(a, b) => match first_undefined(*a, names) {
            Some(n) => Some(n),
            None => first_undefined(*b, names),
        },
        OperationModel::Exponentiate(a, b) => match first_undefined(*a, names) {
            Some(n) => Some(n),
            None => first_undefined(*b, names),
        },
    }
}

impl Operation {
    /// Evaluates the tree with the values bound in `scope`. It fails with the
    /// first name, left to right, that `scope` does not bind; a name alone
    /// evaluates to its value.
    pub fn evaluate<V: Arithmetic + Copy>(&self, scope: &Scope<V>) -> (r: Result<V, EvalError>)
        requires
            scope.wf(),
        ensures
            match r {
                Ok(v) => {
                    &&& first_undefined(self@, scope@.dom()) is None
                    &&& self@ is Variable ==> v == scope@[self@->Variable_0]
                },
                Err(EvalError::UndefinedVariable(n)) => first_undefined(self@, scope@.dom())
                    == Some(n@),
            },
        decreases self,
    {
        match self {
            Operation::Number(n) => Ok(V::from_numeral(n)),
            Operation::Variable(name) => match scope.get(name) {
                Some(v) => Ok(v),
                None => Err(EvalError::UndefinedVariable(name.clone())),
            },
            Operation::Negate(a) => {
                let x = match a.evaluate(scope) {
                    Ok(x) => x,
                    Err(e) => return Err(e),
                };
                Ok(x.negate())
            },
            Operation::Add(a, b) => {
                let x = match a.evaluate(scope) {
                    Ok(x) => x,
                    Err(e) => return Err(e),
                };
                let y = match b.evaluate(scope) {
                    Ok(y) => y,
                    Err(e) => return Err(e),
                };
                Ok(x.plus(y))
            },
            Operation::Subtract(a, b) => {
                let x = match a.evaluate(scope) {
                    Ok(x) => x,
                    Err(e) => return Err(e),
                };
                let y = match b.evaluate(scope) {
                    Ok(y) => y,
                    Err(e) => return Err(e),
                };
                Ok(x.minus(y))
            },
            Operation::Multiply(a, b) => {
                let x = match a.evaluate(scope) {
                    Ok(x) => x,
                    Err(e) => return Err(e),
                };
                let y = match b.evaluate(scope) {
                    Ok(y) => y,
                    Err(e) => return Err(e),
                };
                Ok(x.times(y))
            },
            Operation::Divide(a, b) => {
                let x = match a.evaluate(scope) {
                    Ok(x) => x,
                    Err(e) => return Err(e),
                };
                let y = match b.evaluate(scope) {
                    Ok(y) => y,
                    Err(e) => return Err(e),
                };
                Ok(x.divide(y))
            },
            Operation::Exponentiate(a, b) => {
                let x = match a.evaluate(scope) {
                    Ok(x) => x,
                    Err(e) => return Err(e),
                };
                let y = match b.evaluate(scope) {
                    Ok(y) => y,
                    Err(e) => return Err(e),
                };
                Ok(x.power(y))
            },
        }
    }
}

/// Evaluates `expr` in `scope` and, when that succeeds, binds `var` to the
/// value. On failure the scope is left as it was.
pub fn assign_var<V: Arithmetic + Copy>(scope: &mut Scope<V>, var: String, expr: &Operation) -> (r:
    Result<V, EvalError>)
    requires
        old(scope).wf(),
    ensures
        final(scope).wf(),
        match r {
            Ok(v) => {
                &&& first_undefined(expr@, old(scope)@.dom()) is None
                &&& expr@ is Variable ==> v == old(scope)@[expr@->Variable_0]
                &&& final(scope)@ == old(scope)@.insert(var@, v)
            },
            Err(EvalError::UndefinedVariable(n)) => {
                &&& first_undefined(expr@, old(scope)@.dom()) == Some(n@)
                &&& final(scope)@ == old(scope)@
            },
        },
{
    let val = match expr.evaluate(scope) {
        Ok(v) => v,
        Err(e) => return Err(e),
    };
    scope.insert(var, val);
    Ok(val)
}

/// The number of `=` tokens among the first `k`.
pub open spec fn count_equals(s: Seq<TokenModel>, k: int) -> int
    decreases k,
{
    if k <= 0 || k > s.len() {
        0
    } else {
        count_equals(s, k - 1) + if s[k - 1] is Equals {
            1int
        } else {
            0int
        }
    }
}

/// Whether a `%` token is among the first `k`.
pub open spec fn has_percent(s: Seq<TokenModel>, k: int) -> bool
    decreases k,
{
    if k <= 0 || k > s.len() {
        false
    } else {
        has_percent(s, k - 1) || s[k - 1] is Percent
    }
}

/// The outcome of parsing a token sequence. With two or more `=` it fails;
/// with one, it must be a name followed by `=` and an expression; with none,
/// the whole sequence is an expression. Modulo is not implemented: any `%`
/// makes the parse fail.
pub open spec fn parse(s: Seq<TokenModel>) -> Result<ExpressionModel, ParseError> {
    let n = count_equals(s, s.len() as int);
    if n > 1 {
        Err(ParseError::MultipleAssignment)
    } else if n == 1 {
        if !(s.len() > 1 && s[1] is Equals) {
            Err(ParseError::InvalidAssignmentTarget)
        } else {
            match s[0] {
                TokenModel::Variable(name) => if has_percent(s, s.len() as int) {
                    Err(ParseError::UnsupportedOperator)
                } else {
                    match build(s.subrange(2, s.len() as int)) {
                        Ok(e) => Ok(ExpressionModel::AssignVariable(name, e)),
                        Err(e) => Err(e),
                    }
                },
                _ => Err(ParseError::InvalidAssignmentTarget),
            }
        }
    } else if has_percent(s, s.len() as int) {
        Err(ParseError::UnsupportedOperator)
    } else {
        match build(s) {
            Ok(e) => Ok(ExpressionModel::Evaluate(e)),
            Err(e) => Err(e),
        }
    }
}

/// A successful parse never drops a modulo: the tokens hold no `%`.
pub proof fn lemma_parse_ok_has_no_modulo(s: Seq<TokenModel>)
    requires
        parse(s) is Ok,
    ensures
        forall|k: int| 0 <= k < s.len() ==> !(#[trigger] s[k] is Percent),
{
    lemma_no_percent(s, s.len() as int);
}

proof fn lemma_no_percent(s: Seq<TokenModel>, n: int)
    requires
        0 <= n <= s.len(),
        !has_percent(s, n),
    ensures
        forall|k: int| 0 <= k < n ==> !(#[trigger] s[k] is Percent),
    decreases n,
{
    if n > 0 {
        lemma_no_percent(s, n - 1);
    }
}

/// Parses a token sequence into an expression to evaluate or an
/// assignment.
pub fn generate_ast(tokens: Vec<Token>) -> (r: Result<ExpressionResult, ParseError>)
    ensures
        match r {
            Ok(x) => parse(tokens_model(tokens@)) == Ok::<ExpressionModel, ParseError>(x@),
            Err(e) => parse(tokens_model(tokens@)) == Err::<ExpressionModel, ParseError>(e),
        },
        r != Err::<ExpressionResult, ParseError>(ParseError::InternalInvariantViolation),
{
    let ghost s = tokens_model(tokens@);
    proof {
        lemma_parse_never_internal(s);
    }
    let mut count: usize = 0;
    let mut percent = false;
    let mut i: usize = 0;
    while i < tokens.len()
        invariant
            i <= tokens@.len(),
            s == tokens_model(tokens@),
            count <= i,
            count == count_equals(s, i as int),
            percent == has_percent(s, i as int),
        decreases tokens@.len() - i,
    {
        assert(s[i as int] == tokens@[i as int]@);
        match &tokens[i] {
            Token::Equals => {
                count = count + 1;
            },
            Token::Percent => {
                percent = true;
            },
            _ => {},
        }
        i = i + 1;
    }
    assert(s =~= span(tokens@, 0, tokens@.len() as int));
    if count > 1 {
        return Err(ParseError::MultipleAssignment);
    }
    if count == 1 {
        let second_is_equals = tokens.len() > 1 && match &tokens[1] {
            Token::Equals => true,
            _ => false,
        };
        if !second_is_equals {
            return Err(ParseError::InvalidAssignmentTarget);
        }
        assert(s[0] == tokens@[0]@);
        let name = match &tokens[0] {
            Token::Variable(n) => n.clone(),
            _ => {
                return Err(ParseError::InvalidAssignmentTarget);
            },
        };
        if percent {
            return Err(ParseError::UnsupportedOperator);
        }
        assert(s.subrange(2, s.len() as int) =~= span(tokens@, 2, tokens@.len() as int));
        let e = make_ast(&tokens, 2, tokens.len())?;
        return Ok(ExpressionResult::AssignVariable(name, e));
    }
    if percent {
        return Err(ParseError::UnsupportedOperator);
    }
    let e = make_ast(&tokens, 0, tokens.len())?;
    Ok(ExpressionResult::Evaluate(e))
}

/// Parsing never ends in `InternalInvariantViolation`: an `=` never
/// reaches the expression parser, whatever the tokens.
pub proof fn lemma_parse_never_internal(s: Seq<TokenModel>)
    ensures
        parse(s) != Err::<ExpressionModel, ParseError>(ParseError::InternalInvariantViolation),
{
    let n = count_equals(s, s.len() as int);
    lemma_count_equals_nonnegative(s, s.len() as int);
    if n == 0 {
        assert forall|k: int| 0 <= k < s.len() implies !(s[k] is Equals) by {
            lemma_count_equals_nonnegative(s, k);
            lemma_count_equals_grows(s, k, s.len() as int);
        }
        lemma_build_never_internal(s);
    } else if n == 1 && s.len() > 1 && s[1] is Equals {
        let rest = s.subrange(2, s.len() as int);
        assert forall|k: int| 0 <= k < rest.len() implies !(rest[k] is Equals) by {
            if rest[k] is Equals {
                lemma_count_equals_nonnegative(s, 1);
                lemma_count_equals_grows(s, 1, k + 2);
                lemma_count_equals_grows(s, k + 2, s.len() as int);
            }
        }
        lemma_build_never_internal(rest);
    }
}

proof fn lemma_count_equals_nonnegative(s: Seq<TokenModel>, k: int)
    ensures
        count_equals(s, k) >= 0,
    decreases k,
{
    if 0 < k <= s.len() {
        lemma_count_equals_nonnegative(s, k - 1);
    }
}

/// The count of `=` tokens only grows along the sequence, and grows at
/// each `=`.
proof fn lemma_count_equals_grows(s: Seq<TokenModel>, j: int, k: int)
    requires
        0 <= j < k <= s.len(),
    ensures
        count_equals(s, k) >= count_equals(s, j) + if s[j] is Equals {
            1int
        } else {
            0int
        },
    decreases k - j,
{
    if k > j + 1 {
        lemma_count_equals_grows(s, j, k - 1);
    }
}

/// A tree built from tokens without `=` never fails with
/// `InternalInvariantViolation`.
proof fn lemma_build_never_internal(s: Seq<TokenModel>)
    requires
        forall|k: int| 0 <= k < s.len() ==> !(#[trigger] s[k] is Equals),
    ensures
        build(s) != Err::<OperationModel, ParseError>(ParseError::InternalInvariantViolation),
    decreases s.len(),
{
    if s.len() > 0 {
        if wrapped(s) {
            lemma_build_never_internal(s.subrange(1, s.len() - 1));
        } else {
            let i = split_index(s);
            lemma_scan_in_range(s, 0, 0);
            if is_binary(s[i]) {
                if s[i] is Minus && i == 0 {
                    lemma_build_never_internal(s.subrange(1, s.len() as int));
                } else {
                    lemma_build_never_internal(s.subrange(0, i));
                    lemma_build_never_internal(s.subrange(i + 1, s.len() as int));
                }
            }
        }
    }
}

/// The tokens from `lo` up to `hi`, as a sequence of models.
pub open spec fn span(tokens: Seq<Token>, lo: int, hi: int) -> Seq<TokenModel> {
    tokens_model(tokens).subrange(lo, hi)
}

/// Whether the tokens from `lo` up to `hi` form one bracketed group, as
/// `wrapped` says.
fn wrapped_in_brackets(tokens: &Vec<Token>, lo: usize, hi: usize) -> (r: bool)
    requires
        lo <= hi <= tokens@.len(),
    ensures
        r == wrapped(span(tokens@, lo as int, hi as int)),
{
    let ghost s = span(tokens@, lo as int, hi as int);
    if hi - lo < 2 {
        return false;
    }
    let starts = match &tokens[lo] {
        Token::OpenBracket => true,
        _ => false,
    };
    let ends = match &tokens[hi - 1] {
        Token::CloseBracket => true,
        _ => false,
    };
    if !(starts && ends) {
        return false;
    }
    assert(depth(s, 1) == 1) by {
        assert(depth(s, 0) == 0);
    }
    let mut opens: usize = 1;
    let mut closes: usize = 0;
    let mut j: usize = lo + 1;
    while j < hi - 1
        invariant
            lo + 1 <= j <= hi - 1,
            hi <= tokens@.len(),
            s == span(tokens@, lo as int, hi as int),
            opens <= j - lo,
            closes <= j - lo,
            opens - closes == depth(s, j - lo),
            forall|k: int| 2 <= k <= j - lo ==> depth(s, k) != 0,
        decreases hi - j,
    {
        match &tokens[j] {
            Token::OpenBracket => {
                opens = opens + 1;
            },
            Token::CloseBracket => {
                closes = closes + 1;
            },
            _ => {},
        }
        assert(s[j - lo] == tokens@[j as int]@);
        j = j + 1;
        if opens == closes {
            assert(depth(s, j - lo) == 0 && 2 <= j - lo < s.len());
            return false;
        }
    }
    true
}

/// The index where the tokens from `lo` up to `hi` split: the leftmost of
/// lowest rank among the first token and those outside all brackets.
fn get_lowest_precedence(tokens: &Vec<Token>, lo: usize, hi: usize) -> (r: usize)
    requires
        lo < hi <= tokens@.len(),
    ensures
        r == lo + split_index(span(tokens@, lo as int, hi as int)),
        lo <= r < hi,
{
    let ghost s = span(tokens@, lo as int, hi as int);
    let mut lowest_idx: usize = lo;
    let mut lowest_rank: u8 = tokens[lo].rank();
    let mut opens: usize = 0;
    let mut closes: usize = 0;
    let mut j: usize = lo;
    while j < hi
        invariant
            lo <= j <= hi,
            hi <= tokens@.len(),
            s == span(tokens@, lo as int, hi as int),
            lo <= lowest_idx < hi,
            lowest_rank == rank_of(s[lowest_idx - lo]),
            opens <= j - lo,
            closes <= j - lo,
            opens - closes == depth(s, j - lo),
            scan_lowest(s, j - lo, lowest_idx - lo) == split_index(s),
        decreases hi - j,
    {
        let t = &tokens[j];
        assert(s[j - lo] == t@);
        match t {
            Token::OpenBracket => {
                opens = opens + 1;
            },
            Token::CloseBracket => {
                closes = closes + 1;
            },
            _ => {},
        }
        let rank = t.rank();
        if rank < lowest_rank && opens == closes {
            lowest_idx = j;
            lowest_rank = rank;
        }
        j = j + 1;
    }
    lowest_idx
}

fn binary(t: &Token, a: Operation, b: Operation) -> (r: Operation)
    requires
        is_binary(t@),
    ensures
        r@ == binary_node(t@, a@, b@),
{
    match t {
        Token::Plus => Operation::Add(Box::new(a), Box::new(b)),
        Token::Minus => Operation::Subtract(Box::new(a), Box::new(b)),
        Token::Star => Operation::Multiply(Box::new(a), Box::new(b)),
        Token::Slash => Operation::Divide(Box::new(a), Box::new(b)),
        _ => Operation::Exponentiate(Box::new(a), Box::new(b)),
    }
}

/// Parses the tokens from `lo` up to `hi` into a tree, as `build` says.
fn make_ast(tokens: &Vec<Token>, lo: usize, hi: usize) -> (r: Result<Operation, ParseError>)
    requires
        lo <= hi <= tokens@.len(),
    ensures
        match r {
            Ok(o) => build(span(tokens@, lo as int, hi as int)) == Ok::<OperationModel, ParseError>(o@),
            Err(e) => build(span(tokens@, lo as int, hi as int)) == Err::<OperationModel, ParseError>(e),
        },
    decreases hi - lo,
{
    let ghost s = span(tokens@, lo as int, hi as int);
    if lo == hi {
        return Err(ParseError::MissingOperand);
    }
    if wrapped_in_brackets(tokens, lo, hi) {
        assert(s.subrange(1, s.len() - 1) =~= span(tokens@, lo + 1, hi - 1));
        return make_ast(tokens, lo + 1, hi - 1);
    }
    let idx = get_lowest_precedence(tokens, lo, hi);
    let t = &tokens[idx];
    assert(s[idx - lo] == t@);
    match t {
        Token::Number(n) => if hi - lo == 1 {
            Ok(Operation::Number(n.copy()))
        } else {
            Err(ParseError::MissingOperator)
        },
        Token::Variable(name) => if hi - lo == 1 {
            Ok(Operation::Variable(name.clone()))
        } else {
            Err(ParseError::MissingOperator)
        },
        Token::Percent => Err(ParseError::UnsupportedOperator),
        Token::OpenBracket => Err(ParseError::UnbalancedBrackets),
        Token::CloseBracket => Err(ParseError::UnbalancedBrackets),
        Token::Equals => Err(ParseError::InternalInvariantViolation),
        _ => {
            let is_minus = match t {
                Token::Minus => true,
                _ => false,
            };
            if is_minus && idx == lo {
                assert(s.subrange(1, s.len() as int) =~= span(tokens@, lo + 1, hi as int));
                let a = make_ast(tokens, lo + 1, hi)?;
                Ok(Operation::Negate(Box::new(a)))
            } else {
                assert(s.subrange(0, idx - lo) =~= span(tokens@, lo as int, idx as int));
                assert(s.subrange(idx - lo + 1, s.len() as int) =~= span(tokens@, idx + 1, hi as int));
                let a = make_ast(tokens, lo, idx)?;
                let b = make_ast(tokens, idx + 1, hi)?;
                Ok(binary(t, a, b))
            }
        },
    }
}

} // verus!
