//! The evaluator: from right to left over the tokens of a line, without
//! precedence, against the environment.

use crate::array::{
    array_from_i64, iota, iota_spec, plus, plus_fits, plus_spec, single, sums_fit, Array, Elem,
};
use crate::env::{lookup, touched, Bindings, Environment};
use crate::lexer::{token_views, Token, TokenView};
use vstd::prelude::*;
use vstd::slice::slice_subrange;

verus! {

/// Why a line has no value.
#[derive(Debug, Clone, Copy, PartialEq, Eq)]
pub enum EvalError {
    /// The verb stands in front of its operand and has no meaning there.
    UnknownMonadic(char),
    /// The verb stands between two operands and has no meaning there.
    UnknownDyadic(char),
    /// A sum left the 64-bit signed range.
    Overflow,
}

/// The value of a line, or what went wrong.
pub type Evaluated = Result<Seq<Elem>, EvalError>;

/// What evaluation leaves behind: the bindings as they are afterwards,
/// error or not, and the result.
pub struct Outcome {
    pub env: Bindings,
    pub result: Evaluated,
}

/// A verb applied to the one operand `x` on its right.
pub open spec fn monadic(verb: char, x: Seq<Elem>) -> Evaluated {
    if verb == '^' {
        Ok(iota_spec(x))
    } else {
        Err(EvalError::UnknownMonadic(verb))
    }
}

/// A verb applied to `a` on its left and `b` on its right.
pub open spec fn dyadic(verb: char, a: Seq<Elem>, b: Seq<Elem>) -> Evaluated {
    if verb != '+' {
        Err(EvalError::UnknownDyadic(verb))
    } else if sums_fit(a, b) {
        Ok(plus_spec(a, b))
    } else {
        Err(EvalError::Overflow)
    }
}

/// Whether the tokens after a variable begin with `=`.
pub open spec fn begins_with_assign(tail: Seq<TokenView>) -> bool {
    tail.len() > 0 && tail[0] == TokenView::Verb('=')
}

/// The verb that `tokens` begin with, if they begin with one.
pub open spec fn leading_verb(tokens: Seq<TokenView>) -> Option<char> {
    if tokens.len() > 0 {
        match tokens[0] {
            TokenView::Verb(verb) => Some(verb),
            _ => None,
        }
    } else {
        None
    }
}

/// The value of a number or a variable as an operand, read with the
/// bindings `env`.
pub open spec fn operand(head: TokenView, env: Bindings) -> Seq<Elem> {
    match head {
        TokenView::Number(n) => single(n),
        TokenView::Variable(name) => lookup(env, name),
        TokenView::Verb(_) => single(0),
    }
}

/// The bindings after a number or a variable was read as an operand.
pub open spec fn after_read(head: TokenView, env: Bindings) -> Bindings {
    match head {
        TokenView::Variable(name) => touched(env, name),
        _ => env,
    }
}

/// The outcome of a verb in front, given the outcome of all that follows it.
pub open spec fn then_monadic(verb: char, right: Outcome) -> Outcome {
    Outcome {
        env: right.env,
        result: match right.result {
            Ok(x) => monadic(verb, x),
            Err(e) => Err(e),
        },
    }
}

/// The outcome of the operand `a` and a verb behind it, given the outcome
/// of all that follows the verb.
pub open spec fn then_dyadic(verb: char, a: Seq<Elem>, right: Outcome) -> Outcome {
    Outcome {
        env: right.env,
        result: match right.result {
            Ok(b) => dyadic(verb, a, b),
            Err(e) => Err(e),
        },
    }
}

/// The outcome of binding `name`, given the outcome of all that follows
/// the `=`.
pub open spec fn then_assign(name: Seq<char>, right: Outcome) -> Outcome {
    match right.result {
        Ok(value) => Outcome { env: right.env.insert(name, value), result: Ok(value) },
        Err(_) => right,
    }
}

/// What evaluation makes of `tokens` with the bindings `env`.
///
/// No tokens give `[0]`. A verb in front is applied to the value of all that
/// follows it. A variable followed by `=` is bound to the value of all that
/// follows the `=`, which is also the result. Any other variable or number
/// is an operand: with a verb behind it the verb is applied to it and to the
/// value of all that follows the verb, and otherwise it is the result
/// (tokens that follow it without a verb between are not looked at). A
/// variable that is read without a binding is bound to `[0]` before anything
/// to its right is evaluated. The right side is evaluated before the verb is
/// looked at, and its error is the error of the whole.
pub open spec fn eval_spec(tokens: Seq<TokenView>, env: Bindings) -> Outcome
    decreases tokens.len(),
{
    if tokens.len() == 0 {
        Outcome { env, result: Ok(single(0)) }
    } else {
        let tail = tokens.skip(1);
        match tokens[0] {
            TokenView::Verb(verb) => then_monadic(verb, eval_spec(tail, env)),
            TokenView::Variable(name) if begins_with_assign(tail) => then_assign(
                name,
                eval_spec(tail.skip(1), env),
            ),
            head => {
                let a = operand(head, env);
                let read = after_read(head, env);
                match leading_verb(tail) {
                    Some(verb) => then_dyadic(verb, a, eval_spec(tail.skip(1), read)),
                    None => Outcome { env: read, result: Ok(a) },
                }
            },
        }
    }
}

/// Reading a variable twice in a row: the second read yields what the first
/// did and leaves the bindings as the first left them. A variable that had
/// no binding reads as `[0]`, both times, and is bound to `[0]` afterwards.
pub proof fn lemma_repeated_read(name: Seq<char>, env: Bindings)
    ensures
        ({
            let line = seq![TokenView::Variable(name)];
            let first = eval_spec(line, env);
            let second = eval_spec(line, first.env);
            &&& first.result == Ok::<Seq<Elem>, EvalError>(lookup(env, name))
            &&& first.env == touched(env, name)
            &&& second == first
            &&& !env.contains_key(name) ==> first.result == Ok::<Seq<Elem>, EvalError>(single(0))
                && first.env == env.insert(name, single(0))
        }),
{
    let line = seq![TokenView::Variable(name)];
    assert(line.skip(1).len() == 0);
    let first = eval_spec(line, env);
    assert(first == Outcome { env: touched(env, name), result: Ok(lookup(env, name)) });
    assert(touched(first.env, name) == first.env);
    assert(lookup(first.env, name) == lookup(env, name));
}

/// An assignment is an expression: where the tokens `expr` evaluate to a
/// value, `name`, `=` and `expr` evaluate to that value and leave it bound
/// to `name`, beside what `expr` itself left behind; and a read of `name`
/// right after yields the value again and changes nothing.
pub proof fn lemma_assignment_then_read(name: Seq<char>, expr: Seq<TokenView>, env: Bindings)
    requires
        eval_spec(expr, env).result is Ok,
    ensures
        ({
            let right = eval_spec(expr, env);
            let value = right.result->Ok_0;
            let line = seq![TokenView::Variable(name), TokenView::Verb('=')] + expr;
            let assigned = eval_spec(line, env);
            let read = eval_spec(seq![TokenView::Variable(name)], assigned.env);
            &&& assigned.result == Ok::<Seq<Elem>, EvalError>(value)
            &&& assigned.env == right.env.insert(name, value)
            &&& read == assigned
        }),
{
    let line = seq![TokenView::Variable(name), TokenView::Verb('=')] + expr;
    assert(line.skip(1).skip(1) =~= expr);
    assert(begins_with_assign(line.skip(1)));
    let assigned = eval_spec(line, env);
    assert(assigned == then_assign(name, eval_spec(expr, env)));
    lemma_repeated_read(name, assigned.env);
}

/// Whether `r` is the result `expected`, value for value.
pub open spec fn result_is(r: Result<Array, EvalError>, expected: Evaluated) -> bool {
    match r {
        Ok(a) => expected == Ok::<Seq<Elem>, EvalError>(a@),
        Err(e) => expected == Err::<Seq<Elem>, EvalError>(e),
    }
}

/// Applies the verb `verb` to the one operand `x`.
pub fn apply_monadic(verb: char, x: Array) -> (r: Result<Array, EvalError>)
    ensures
        result_is(r, monadic(verb, x@)),
{
    if verb == '^' {
        Ok(iota(x))
    } else {
        Err(EvalError::UnknownMonadic(verb))
    }
}

/// Applies the verb `verb` to the operands `a` and `b`.
pub fn apply_dyadic(verb: char, a: Array, b: Array) -> (r: Result<Array, EvalError>)
    ensures
        result_is(r, dyadic(verb, a@, b@)),
{
    if verb != '+' {
        Err(EvalError::UnknownDyadic(verb))
    } else if plus_fits(&a, &b) {
        Ok(plus(a, b))
    } else {
        Err(EvalError::Overflow)
    }
}

/// Evaluates the tokens of one line against `env`, from right to left.
/// Bindings made on the way stay in `env`, also where the line ends in an
/// error.
pub fn eval(tokens: &[Token], env: &mut Environment) -> (r: Result<Array, EvalError>)
    ensures
        final(env)@ == eval_spec(token_views(tokens@), old(env)@).env,
        result_is(r, eval_spec(token_views(tokens@), old(env)@).result),
    decreases tokens@.len(),
{
    let n = tokens.len();
    if n == 0 {
        return Ok(array_from_i64(0));
    }
    let tail = slice_subrange(tokens, 1, n);
    let ghost views = token_views(tokens@);
    assert(token_views(tail@) =~= views.skip(1));
    assert(views[0] == tokens@[0]@);
    let a: Array = match &tokens[0] {
        Token::Verb(verb) => {
            return match eval(tail, env) {
                Ok(x) => apply_monadic(*verb, x),
                Err(e) => Err(e),
            };
        },
        Token::Variable(name) => {
            if begins_with_verb(tail, '=') {
                let expr = slice_subrange(tail, 1, n - 1);
                assert(token_views(expr@) =~= views.skip(1).skip(1));
                return match eval(expr, env) {
                    Ok(value) => {
                        env.set(name.clone(), value.clone());
                        Ok(value)
                    },
                    Err(e) => Err(e),
                };
            }
            env.get_or_default(name.as_str())
        },
        Token::Number(num) => array_from_i64(*num),
    };
    if n > 1 {
        assert(views.skip(1)[0] == tail@[0]@);
        if let Token::Verb(verb) = &tail[0] {
            let expr = slice_subrange(tail, 1, n - 1);
            assert(token_views(expr@) =~= views.skip(1).skip(1));
            return match eval(expr, env) {
                Ok(b) => apply_dyadic(*verb, a, b),
                Err(e) => Err(e),
            };
        }
    }
    Ok(a)
}

/// Whether `tokens` begin with the verb `symbol`.
fn begins_with_verb(tokens: &[Token], symbol: char) -> (r: bool)
    ensures
        r == (tokens@.len() > 0 && tokens@[0]@ == TokenView::Verb(symbol)),
{
    if tokens.len() == 0 {
        false
    } else {
        match &tokens[0] {
            Token::Verb(verb) => *verb == symbol,
            _ => false,
        }
    }
}

} // verus!
