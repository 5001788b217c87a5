//! Recognising a piece of text as plain arithmetic and evaluating it.

use crate::text::{chars_of, string_of, text_of, trim_chars, trimmed};
use vstd::prelude::*;

verus! {

/// The character that stands for `c` in an expression: `x` and the
/// multiplication sign are `*`, the division sign is `/`, a comma is a
/// decimal point.
pub open spec fn symbol_of(c: char) -> char {
    if c == 'x' || c == '\u{d7}' {
        '*'
    } else if c == '\u{f7}' {
        '/'
    } else if c == ',' {
        '.'
    } else {
        c
    }
}

/// The expression that `text` holds: its characters without the blanks, each
/// replaced by what stands for it.
pub open spec fn expression_of(text: Seq<char>) -> Seq<char>
    decreases text.len(),
{
    if text.len() == 0 {
        Seq::empty()
    } else if text.last() == ' ' {
        expression_of(text.drop_last())
    } else {
        expression_of(text.drop_last()).push(symbol_of(text.last()))
    }
}

/// `c` is one of the digits `0` to `9`.
pub open spec fn is_digit(c: char) -> bool {
    '0' <= c <= '9'
}

/// `c` is one of `+ - * /`.
pub open spec fn is_operator(c: char) -> bool {
    c == '+' || c == '-' || c == '*' || c == '/'
}

/// `c` may stand in an expression: a digit, a decimal point, an operator or
/// a parenthesis.
pub open spec fn is_plain(c: char) -> bool {
    is_digit(c) || is_operator(c) || c == '.' || c == '(' || c == ')'
}

/// All of `expr` may stand in an expression.
pub open spec fn all_plain(expr: Seq<char>) -> bool {
    forall|i: int| 0 <= i < expr.len() ==> is_plain(#[trigger] expr[i])
}

/// `expr` is taken for arithmetic: it holds a digit and an operator, and
/// nothing that may not stand in an expression.
pub open spec fn is_arithmetic(expr: Seq<char>) -> bool {
    &&& exists|i: int| 0 <= i < expr.len() && is_digit(#[trigger] expr[i])
    &&& exists|i: int| 0 <= i < expr.len() && is_operator(#[trigger] expr[i])
    &&& all_plain(expr)
}

/// The expression in `text`, where `text` is taken for arithmetic. `text` is
/// expected without white space at its ends.
pub fn arithmetic_in(text: &Vec<char>) -> (found: Option<Vec<char>>)
    ensures
        found is Some <==> is_arithmetic(expression_of(text@)),
        found matches Some(expr) ==> expr@ == expression_of(text@),
{
    let mut expr: Vec<char> = Vec::new();
    let mut digit: bool = false;
    let mut operator: bool = false;
    let mut plain: bool = true;
    let mut i: usize = 0;
    while i < text.len()
        invariant
            i <= text.len(),
            expr@ == expression_of(text@.take(i as int)),
            digit <==> exists|k: int| 0 <= k < expr@.len() && is_digit(#[trigger] expr@[k]),
            operator <==> exists|k: int| 0 <= k < expr@.len() && is_operator(#[trigger] expr@[k]),
            plain <==> all_plain(expr@),
        decreases text.len() - i,
    {
        let c = text[i];
        proof {
            assert(text@.take(i + 1).drop_last() == text@.take(i as int));
            assert(text@.take(i + 1).last() == c);
        }
        if c != ' ' {
            let s = if c == 'x' || c == '\u{d7}' {
                '*'
            } else if c == '\u{f7}' {
                '/'
            } else if c == ',' {
                '.'
            } else {
                c
            };
            let ghost before = expr@;
            expr.push(s);
            let is_d = '0' <= s && s <= '9';
            let is_o = s == '+' || s == '-' || s == '*' || s == '/';
            proof {
                assert(expr@[before.len() as int] == s);
                assert forall|k: int| 0 <= k < before.len() implies expr@[k] == before[k] by {}
                if digit {
                    let k = choose|k: int| 0 <= k < before.len() && is_digit(#[trigger] before[k]);
                    assert(is_digit(expr@[k]));
                }
                if operator {
                    let k = choose|k: int|
                        0 <= k < before.len() && is_operator(#[trigger] before[k]);
                    assert(is_operator(expr@[k]));
                }
                if !plain {
                    let k = choose|k: int| 0 <= k < before.len() && !is_plain(#[trigger] before[k]);
                    assert(!is_plain(expr@[k]));
                }
                if exists|k: int| 0 <= k < expr@.len() && is_digit(#[trigger] expr@[k]) {
                    let k = choose|k: int| 0 <= k < expr@.len() && is_digit(#[trigger] expr@[k]);
                    if k < before.len() {
                        assert(is_digit(before[k]));
                    }
                }
                if exists|k: int| 0 <= k < expr@.len() && is_operator(#[trigger] expr@[k]) {
                    let k = choose|k: int|
                        0 <= k < expr@.len() && is_operator(#[trigger] expr@[k]);
                    if k < before.len() {
                        assert(is_operator(before[k]));
                    }
                }
            }
            digit = digit || is_d;
            operator = operator || is_o;
            plain = plain && (is_d || is_o || s == '.' || s == '(' || s == ')');
        }
        i += 1;
    }
    proof {
        assert(text@.take(text.len() as int) == text@);
    }
    if digit && operator && plain {
        Some(expr)
    } else {
        None
    }
}

/// The value of the expression `expr` as `meval` computes it, written as a
/// decimal number; `None` where `meval` rejects the expression.
pub uninterp spec fn value_of(expr: Seq<char>) -> Option<Seq<char>>;

/// `meval::eval_str`, its value written with `format`: the expression is
/// parsed and evaluated with the built-in constants and functions of `meval`,
/// which gives a number or an error; the outcome depends on the expression
/// alone. Only expressions made of digits, decimal points, the four operators
/// and parentheses are handed in.
#[verifier::external_body]
fn evaluate(expr: &str) -> (value: Option<String>)
    requires
        all_plain(expr@),
    ensures
        text_of(value) == value_of(expr@),
{
    meval::eval_str(expr).ok().map(|v| format!("{}", v))
}

/// The value of the arithmetic in `text`, a text without white space at its
/// ends: `None` where `text` is not taken for arithmetic.
pub open spec fn value_in(text: Seq<char>) -> Option<Seq<char>> {
    if is_arithmetic(expression_of(text)) {
        value_of(expression_of(text))
    } else {
        None
    }
}

/// The value of the arithmetic in `text`, white space at its ends aside.
pub open spec fn math_value(text: Seq<char>) -> Option<Seq<char>> {
    value_in(trimmed(text))
}

/// Evaluates `text` where it is plain arithmetic. White space at the ends
/// and blanks are dropped; `x` and the multiplication sign count as `*`, the
/// division sign as `/`, a comma as a decimal point. What is left must hold a
/// digit and one of `+ - * /`, and nothing but digits, decimal points, these
/// operators and parentheses; then it is evaluated, and the value is returned
/// as a decimal number. Any other text, and an expression that cannot be
/// evaluated, gives `None`.
pub fn eval_math(text: &str) -> (value: Option<String>)
    ensures
        text_of(value) == math_value(text@),
{
    let chars = chars_of(text);
    let inner = trim_chars(&chars);
    match arithmetic_in(&inner) {
        Some(expr) => {
            let expr = string_of(&expr);
            evaluate(expr.as_str())
        },
        None => None,
    }
}

} // verus!
