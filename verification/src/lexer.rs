//! The lexer: from a line of text to its tokens, left to right.

use vstd::prelude::*;

verus! {

/// A token of the language.
#[derive(Debug, PartialEq, Eq)]
pub enum Token {
    /// A maximal run of decimal digits, by its value.
    Number(i64),
    /// A maximal run of lowercase ASCII letters.
    Variable(String),
    /// A verb, by its symbol.
    Verb(char),
}

/// A token as a mathematical value: the name of a variable is a sequence of
/// characters.
pub enum TokenView {
    Number(i64),
    Variable(Seq<char>),
    Verb(char),
}

impl View for Token {
    type V = TokenView;

    open spec fn view(&self) -> TokenView {
        match self {
            Token::Number(n) => TokenView::Number(*n),
            Token::Variable(name) => TokenView::Variable(name@),
            Token::Verb(c) => TokenView::Verb(*c),
        }
    }
}

/// Why a line has no tokens.
#[derive(Debug, Clone, Copy, PartialEq, Eq)]
pub enum LexError {
    /// The character starts no token.
    Unexpected(char),
    /// A run of digits stands for a number above the 64-bit signed range.
    Overflow,
}

/// The tokens of a line, or the first thing that is wrong with it.
pub type Lexed = Result<Seq<TokenView>, LexError>;

/// The views of a sequence of tokens, in order.
pub open spec fn token_views(tokens: Seq<Token>) -> Seq<TokenView> {
    tokens.map_values(|t: Token| t@)
}

pub open spec fn is_digit(c: char) -> bool {
    '0' <= c <= '9'
}

pub open spec fn is_lower(c: char) -> bool {
    'a' <= c <= 'z'
}

/// The symbols that the lexer takes for verbs.
pub open spec fn is_verb_symbol(c: char) -> bool {
    c == '+' || c == '^'
}

/// Whether `c` belongs to a run: of digits, or else of lowercase letters.
pub open spec fn in_run(c: char, digits: bool) -> bool {
    if digits {
        is_digit(c)
    } else {
        is_lower(c)
    }
}

/// The length of the longest prefix of `s` that is a run.
pub open spec fn run_len(s: Seq<char>, digits: bool) -> nat
    decreases s.len(),
{
    if s.len() > 0 && in_run(s[0], digits) {
        1 + run_len(s.skip(1), digits)
    } else {
        0
    }
}

/// The value of a decimal digit.
pub open spec fn digit_value(c: char) -> int {
    c as int - '0' as int
}

/// The number that a sequence of decimal digits stands for in base ten.
pub open spec fn digits_value(d: Seq<char>) -> int
    decreases d.len(),
{
    if d.len() == 0 {
        0
    } else {
        10 * digits_value(d.drop_last()) + digit_value(d.last())
    }
}

/// Puts `first` in front of the tokens of the rest of a line; an error in the
/// rest stays as it is.
pub open spec fn prepend(first: Seq<TokenView>, rest: Lexed) -> Lexed {
    match rest {
        Ok(tokens) => Ok(first + tokens),
        Err(e) => Err(e),
    }
}

/// What lexing makes of a line. The first character decides the kind of the
/// first token, a run is taken as far as it goes, and nothing is skipped.
pub open spec fn lex(s: Seq<char>) -> Lexed
    decreases s.len(),
    via lex_decreases
{
    if s.len() == 0 {
        Ok(Seq::empty())
    } else if is_digit(s[0]) {
        let n = run_len(s, true);
        let value = digits_value(s.take(n as int));
        if value > i64::MAX {
            Err(LexError::Overflow)
        } else {
            prepend(seq![TokenView::Number(value as i64)], lex(s.skip(n as int)))
        }
    } else if is_lower(s[0]) {
        let n = run_len(s, false);
        prepend(seq![TokenView::Variable(s.take(n as int))], lex(s.skip(n as int)))
    } else if is_verb_symbol(s[0]) {
        prepend(seq![TokenView::Verb(s[0])], lex(s.skip(1)))
    } else {
        Err(LexError::Unexpected(s[0]))
    }
}

#[via_fn]
proof fn lex_decreases(s: Seq<char>) {
    lemma_run_len_bounds(s, true);
    lemma_run_len_bounds(s, false);
}

/// A run is no longer than the text, and not empty where the text starts
/// with a character of it.
pub proof fn lemma_run_len_bounds(s: Seq<char>, digits: bool)
    ensures
        run_len(s, digits) <= s.len(),
        s.len() > 0 && in_run(s[0], digits) ==> run_len(s, digits) >= 1,
    decreases s.len(),
{
    if s.len() > 0 && in_run(s[0], digits) {
        lemma_run_len_bounds(s.skip(1), digits);
    }
}

/// The run is the one prefix whose characters all belong to it and which
/// ends where the text ends or a character does not belong.
pub proof fn lemma_run_len_is(s: Seq<char>, digits: bool, n: int)
    requires
        0 <= n <= s.len(),
        forall|k: int| 0 <= k < n ==> in_run(#[trigger] s[k], digits),
        n == s.len() || !in_run(s[n], digits),
    ensures
        run_len(s, digits) == n,
    decreases n,
{
    if n > 0 {
        assert(in_run(s[0], digits));
        let t = s.skip(1);
        assert forall|k: int| 0 <= k < n - 1 implies in_run(#[trigger] t[k], digits) by {
            assert(t[k] == s[k + 1]);
        }
        lemma_run_len_is(t, digits, n - 1);
    }
}

/// Every character of a run belongs to it.
pub proof fn lemma_run_members(s: Seq<char>, digits: bool)
    ensures
        forall|k: int| 0 <= k < run_len(s, digits) ==> in_run(#[trigger] s[k], digits),
    decreases s.len(),
{
    if s.len() > 0 && in_run(s[0], digits) {
        let t = s.skip(1);
        lemma_run_members(t, digits);
        lemma_run_len_bounds(s, digits);
        assert forall|k: int| 0 <= k < run_len(s, digits) implies in_run(
            #[trigger] s[k],
            digits,
        ) by {
            if k > 0 {
                assert(s[k] == t[k - 1]);
            }
        }
    }
}

/// Digits stand for a number that is not negative.
pub proof fn lemma_digits_value_nonnegative(d: Seq<char>)
    requires
        forall|j: int| 0 <= j < d.len() ==> is_digit(#[trigger] d[j]),
    ensures
        0 <= digits_value(d),
    decreases d.len(),
{
    if d.len() > 0 {
        lemma_digits_value_nonnegative(d.drop_last());
    }
}

/// Digits stand for no less than any prefix of them does.
pub proof fn lemma_digits_value_grows(d: Seq<char>, k: int)
    requires
        0 <= k <= d.len(),
        forall|j: int| 0 <= j < d.len() ==> is_digit(#[trigger] d[j]),
    ensures
        0 <= digits_value(d.take(k)) <= digits_value(d),
    decreases d.len() - k,
{
    if k == d.len() {
        assert(d.take(k) =~= d);
        lemma_digits_value_nonnegative(d);
    } else {
        lemma_digits_value_grows(d.drop_last(), k);
        assert(d.drop_last().take(k) =~= d.take(k));
    }
}

/// Putting tokens in front one after the other is putting them in front
/// together.
pub proof fn lemma_prepend_twice(a: Seq<TokenView>, b: Seq<TokenView>, rest: Lexed)
    ensures
        prepend(a, prepend(b, rest)) == prepend(a + b, rest),
{
    if let Ok(tokens) = rest {
        assert(a + (b + tokens) =~= (a + b) + tokens);
    }
}

/// A line of digits alone is one number, and an error where the number is
/// above the 64-bit signed range.
pub proof fn lemma_lex_digits(s: Seq<char>)
    requires
        s.len() > 0,
        forall|k: int| 0 <= k < s.len() ==> is_digit(#[trigger] s[k]),
    ensures
        digits_value(s) > i64::MAX ==> lex(s) == Err::<Seq<TokenView>, LexError>(
            LexError::Overflow,
        ),
        digits_value(s) <= i64::MAX ==> lex(s) == Ok::<Seq<TokenView>, LexError>(
            seq![TokenView::Number(digits_value(s) as i64)],
        ),
{
    lemma_run_len_is(s, true, s.len() as int);
    lemma_digits_value_nonnegative(s);
    assert(s.take(s.len() as int) =~= s);
    assert(s.skip(s.len() as int).len() == 0);
    if digits_value(s) <= i64::MAX {
        let one = seq![TokenView::Number(digits_value(s) as i64)];
        let rest = s.skip(s.len() as int);
        assert(lex(rest) == Ok::<Seq<TokenView>, LexError>(Seq::empty()));
        assert(one + Seq::<TokenView>::empty() =~= one);
        assert(lex(s) == prepend(one, lex(rest)));
    }
}

/// A line that holds a run of digits whose number is above the 64-bit
/// signed range has no tokens, whatever stands around the run. The run is
/// the whole of it: no digit stands right before `start` or at `end`.
pub proof fn lemma_overflowing_run_fails(s: Seq<char>, start: int, end: int)
    requires
        0 <= start < end <= s.len(),
        forall|k: int| start <= k < end ==> is_digit(#[trigger] s[k]),
        start == 0 || !is_digit(s[start - 1]),
        end == s.len() || !is_digit(s[end]),
        digits_value(s.subrange(start, end)) > i64::MAX,
    ensures
        lex(s) is Err,
    decreases s.len(),
{
    if start == 0 {
        lemma_run_len_is(s, true, end);
        assert(s.take(end) =~= s.subrange(start, end));
    } else {
        let digits = is_digit(s[0]);
        let n: int = if is_digit(s[0]) || is_lower(s[0]) {
            run_len(s, digits) as int
        } else {
            1
        };
        if is_digit(s[0]) || is_lower(s[0]) {
            lemma_run_len_bounds(s, digits);
            lemma_run_members(s, digits);
            if digits {
                if n > start - 1 {
                    assert(in_run(s[start - 1], digits));
                }
            } else {
                if n > start {
                    assert(in_run(s[start], digits));
                }
            }
        }
        if is_digit(s[0]) || is_lower(s[0]) || is_verb_symbol(s[0]) {
            assert(1 <= n <= start);
            let rest = s.skip(n);
            assert(rest.subrange(start - n, end - n) =~= s.subrange(start, end));
            assert forall|k: int| start - n <= k < end - n implies is_digit(#[trigger] rest[k]) by {
                assert(rest[k] == s[k + n]);
            }
            lemma_overflowing_run_fails(rest, start - n, end - n);
        }
    }
}

/// What holds of every token that lexing makes: a number is not negative,
/// a name is a run of lowercase letters and not empty, and a verb is one of
/// the verb symbols.
pub open spec fn lexed_token(t: TokenView) -> bool {
    match t {
        TokenView::Number(n) => n >= 0,
        TokenView::Variable(name) => name.len() > 0 && forall|k: int|
            0 <= k < name.len() ==> is_lower(#[trigger] name[k]),
        TokenView::Verb(c) => is_verb_symbol(c),
    }
}

/// Every token of a line that lexes is of the shape that `lexed_token`
/// describes.
pub proof fn lemma_lex_tokens(s: Seq<char>)
    ensures
        match lex(s) {
            Ok(tokens) => forall|i: int| 0 <= i < tokens.len() ==> lexed_token(#[trigger] tokens[i]),
            Err(_) => true,
        },
    decreases s.len(),
{
    if s.len() > 0 && (is_digit(s[0]) || is_lower(s[0]) || is_verb_symbol(s[0])) {
        let digits = is_digit(s[0]);
        let n: int = if is_digit(s[0]) || is_lower(s[0]) {
            run_len(s, digits) as int
        } else {
            1
        };
        lemma_run_len_bounds(s, digits);
        lemma_run_members(s, digits);
        let rest = s.skip(n);
        lemma_lex_tokens(rest);
        if let Ok(tokens) = lex(s) {
            let first = tokens[0];
            let others = lex(rest)->Ok_0;
            assert(tokens == seq![first] + others);
            if digits {
                lemma_digits_value_nonnegative(s.take(n));
            }
            assert(lexed_token(first));
            assert forall|i: int| 0 <= i < tokens.len() implies lexed_token(
                #[trigger] tokens[i],
            ) by {
                if i > 0 {
                    assert(tokens[i] == others[i - 1]);
                }
            }
        }
    }
}

/// The index at which the run that starts at `start` ends.
fn run_end(s: &str, len: usize, start: usize, digits: bool) -> (end: usize)
    requires
        len == s@.len(),
        start <= len,
    ensures
        start <= end <= len,
        end - start == run_len(s@.skip(start as int), digits),
{
    let mut end: usize = start;
    while end < len
        invariant
            len == s@.len(),
            start <= end <= len,
            forall|k: int| start <= k < end ==> in_run(#[trigger] s@[k], digits),
        ensures
            start <= end <= len,
            forall|k: int| start <= k < end ==> in_run(#[trigger] s@[k], digits),
            end == len || !in_run(s@[end as int], digits),
        decreases len - end,
    {
        let c = s.get_char(end);
        let inside = if digits {
            '0' <= c && c <= '9'
        } else {
            'a' <= c && c <= 'z'
        };
        if !inside {
            break ;
        }
        end += 1;
    }
    proof {
        let t = s@.skip(start as int);
        assert forall|k: int| 0 <= k < end - start implies in_run(#[trigger] t[k], digits) by {
            assert(t[k] == s@[start + k]);
        }
        lemma_run_len_is(t, digits, end - start);
    }
    end
}

/// The value of the digits from `start` up to `end`, or nothing where it is
/// above the 64-bit signed range.
fn number_value(s: &str, start: usize, end: usize) -> (r: Option<i64>)
    requires
        start <= end <= s@.len(),
        forall|k: int| start <= k < end ==> is_digit(#[trigger] s@[k]),
    ensures
        match r {
            Some(v) => digits_value(s@.subrange(start as int, end as int)) == v,
            None => digits_value(s@.subrange(start as int, end as int)) > i64::MAX,
        },
{
    let ghost digits = s@.subrange(start as int, end as int);
    let mut value: i64 = 0;
    let mut i: usize = start;
    while i < end
        invariant
            start <= i <= end <= s@.len(),
            digits == s@.subrange(start as int, end as int),
            forall|k: int| 0 <= k < digits.len() ==> is_digit(#[trigger] digits[k]),
            0 <= value == digits_value(digits.take(i - start)),
        decreases end - i,
    {
        let c = s.get_char(i);
        assert(digits[i - start] == c && is_digit(digits[i - start]));
        let d: i64 = (c as u32 - '0' as u32) as i64;
        proof {
            let longer = digits.take(i - start + 1);
            assert(longer.drop_last() =~= digits.take(i - start));
            assert(longer.last() == c);
            assert(digits_value(longer) == 10 * value + d);
            lemma_digits_value_grows(digits, i - start + 1);
        }
        let next = match value.checked_mul(10) {
            Some(tenfold) => tenfold.checked_add(d),
            None => None,
        };
        match next {
            Some(v) => {
                value = v;
            },
            None => {
                return None;
            },
        }
        i += 1;
    }
    assert(digits.take(end - start) =~= digits);
    Some(value)
}

/// Splits a line into its tokens, from left to right. A digit starts a
/// number and a lowercase letter a variable, each taken as far as its run
/// goes; `+` and `^` are verbs. Nothing is skipped: the first character that
/// starts no token is the error, and so is the first number that does not
/// fit in 64 bits.
pub fn parse(s: &str) -> (r: Result<Vec<Token>, LexError>)
    ensures
        match r {
            Ok(tokens) => lex(s@) == Ok::<Seq<TokenView>, LexError>(token_views(tokens@)),
            Err(e) => lex(s@) == Err::<Seq<TokenView>, LexError>(e),
        },
{
    let len = s.unicode_len();
    let mut tokens: Vec<Token> = Vec::new();
    let mut i: usize = 0;
    assert(s@.skip(0) =~= s@);
    assert(token_views(tokens@) =~= Seq::empty());
    assert(prepend(Seq::empty(), lex(s@)) == lex(s@)) by {
        if let Ok(all) = lex(s@) {
            assert(Seq::<TokenView>::empty() + all =~= all);
        }
    }
    while i < len
        invariant
            len == s@.len(),
            i <= len,
            lex(s@) == prepend(token_views(tokens@), lex(s@.skip(i as int))),
        decreases len - i,
    {
        let ghost rest = s@.skip(i as int);
        let ghost before = token_views(tokens@);
        let c = s.get_char(i);
        assert(rest[0] == c);
        let next: usize;
        let token: Token;
        if '0' <= c && c <= '9' {
            next = run_end(s, len, i, true);
            proof {
                lemma_run_members(rest, true);
                assert forall|k: int| i <= k < next implies is_digit(#[trigger] s@[k]) by {
                    assert(in_run(rest[k - i], true));
                }
                assert(rest.take(next - i) =~= s@.subrange(i as int, next as int));
            }
            match number_value(s, i, next) {
                Some(v) => {
                    token = Token::Number(v);
                },
                None => {
                    return Err(LexError::Overflow);
                },
            }
        } else if 'a' <= c && c <= 'z' {
            next = run_end(s, len, i, false);
            let name = s.substring_char(i, next).to_owned();
            assert(rest.take(next - i) =~= s@.subrange(i as int, next as int));
            token = Token::Variable(name);
        } else if c == '+' || c == '^' {
            next = i + 1;
            token = Token::Verb(c);
        } else {
            return Err(LexError::Unexpected(c));
        }
        proof {
            lemma_run_len_bounds(rest, true);
            lemma_run_len_bounds(rest, false);
            assert(rest.skip(next - i) =~= s@.skip(next as int));
            assert(lex(rest) == prepend(seq![token@], lex(s@.skip(next as int))));
            lemma_prepend_twice(before, seq![token@], lex(s@.skip(next as int)));
            assert(token_views(tokens@.push(token)) =~= before + seq![token@]);
        }
        tokens.push(token);
        i = next;
    }
    proof {
        assert(lex(s@.skip(i as int)) == Ok::<Seq<TokenView>, LexError>(Seq::empty()));
        assert(token_views(tokens@) + Seq::<TokenView>::empty() =~= token_views(tokens@));
    }
    Ok(tokens)
}

} // verus!
