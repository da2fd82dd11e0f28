//! Evaluator: walks the same grammar as the validator over the same token
//! sequence, computing signed 64-bit values, mutating the variable
//! environment in place, and recording every value a `CONSOLE` statement
//! prints. It is meant to run only after validation succeeded, but is total:
//! on a malformed sequence it returns the first error instead.
//!
//! Mirroring the two separate walks of the original grammar, the evaluator
//! has no comparison level: a comparison operator that the validator accepts
//! makes the evaluator stop with a syntax error. A `while` statement or a
//! bare brace block is likewise accepted by the validator only; the evaluator
//! answers both with a generic syntax error.
//!
//! The evaluator's meaning is given in two layers of spec functions. The
//! `e_*` family gives every rule without a for-statement its exact outcome:
//! value, cursor, environment and console output after the rule, or the
//! first error together with the environment and output at the point of
//! failure. On top of it, [`e_for_exec`] gives a whole for-statement its
//! exact outcome — bind the control variable, then one body pass per
//! control value up to the end bound, rewinding the cursor between passes
//! ([`e_for_passes`]) — and the `f_*` family repeats the grammar with
//! for-statements meaning [`e_for_exec`]. The executable rules are proved
//! to return exactly the `e_*` outcome from any cursor with no
//! for-statement ahead, and exactly the `f_*` outcome from any cursor with
//! at most one ahead; only runs of two or more for-statements (nested or
//! sequential) are beyond the spec functions, and there the contracts state
//! what always holds: the environment stays well-formed, bound variables
//! are never dropped, and recorded output is only ever appended to.
//!
//! Arithmetic follows two's-complement wrapping throughout; a division whose
//! quotient does not exist (zero divisor, or `i64::MIN / -1`) is an
//! evaluation error.

use vstd::prelude::*;

use crate::env::Env;
use crate::parser::spec_context;
use crate::tokenizer::{reps, wf_stream, Token, TokenInfo, TokenRep};
use vstd::wrapping::i64_specs;

verus! {

broadcast use crate::tokenizer::lemma_reps_index;

/// Evaluation failures: the syntax errors of the validator, plus
/// `UndefinedVariable` for an identifier read before ever being assigned,
/// and `InvalidDivision` for a division with no 64-bit quotient (a zero
/// divisor, or `i64::MIN / -1`), on which the evaluation cannot proceed.
#[derive(Debug)]
pub enum Error {
    Generic(TokenInfo, Vec<Vec<u8>>),
    InvalidFor(TokenInfo),
    InvalidAssignment(TokenInfo, Vec<Vec<u8>>),
    MissingClosingBrackets(TokenInfo),
    MissingClosingParantheses(TokenInfo),
    ExpectedStartingBrackets(TokenInfo),
    ExpectedStartingParantheses(TokenInfo),
    MissingSemicolon(TokenInfo),
    UndefinedVariable(TokenInfo),
    InvalidDivision(TokenInfo),
}

/// The mathematical image of an [`Error`].
pub ghost enum ErrorRep {
    Generic(TokenRep, Seq<Seq<u8>>),
    InvalidFor(TokenRep),
    InvalidAssignment(TokenRep, Seq<Seq<u8>>),
    MissingClosingBrackets(TokenRep),
    MissingClosingParantheses(TokenRep),
    ExpectedStartingBrackets(TokenRep),
    ExpectedStartingParantheses(TokenRep),
    MissingSemicolon(TokenRep),
    UndefinedVariable(TokenRep),
    InvalidDivision(TokenRep),
}

impl View for Error {
    type V = ErrorRep;

    open spec fn view(&self) -> ErrorRep {
        match self {
            Error::Generic(t, c) => ErrorRep::Generic(t@, crate::parser::ctx_view(c@)),
            Error::InvalidFor(t) => ErrorRep::InvalidFor(t@),
            Error::InvalidAssignment(t, c) => ErrorRep::InvalidAssignment(
                t@,
                crate::parser::ctx_view(c@),
            ),
            Error::MissingClosingBrackets(t) => ErrorRep::MissingClosingBrackets(t@),
            Error::MissingClosingParantheses(t) => ErrorRep::MissingClosingParantheses(t@),
            Error::ExpectedStartingBrackets(t) => ErrorRep::ExpectedStartingBrackets(t@),
            Error::ExpectedStartingParantheses(t) => ErrorRep::ExpectedStartingParantheses(t@),
            Error::MissingSemicolon(t) => ErrorRep::MissingSemicolon(t@),
            Error::UndefinedVariable(t) => ErrorRep::UndefinedVariable(t@),
            Error::InvalidDivision(t) => ErrorRep::InvalidDivision(t@),
        }
    }
}

/// Whether an error belongs to the syntax taxonomy that validation rules
/// out, as opposed to the two errors only evaluation can raise.
pub open spec fn is_syntax_error(e: ErrorRep) -> bool {
    !(e is UndefinedVariable || e is InvalidDivision)
}

/// The state a successful rule hands on: its value, the cursor after it, and
/// the environment and console output so far.
pub ghost struct EvalOut {
    pub value: i64,
    pub cursor: int,
    pub env: Map<Seq<u8>, i64>,
    pub out: Seq<i64>,
}

/// A failed rule: the error, and the environment and console output as they
/// stood at the point of failure.
pub ghost struct EvalFail {
    pub err: ErrorRep,
    pub env: Map<Seq<u8>, i64>,
    pub out: Seq<i64>,
}

/// The value of a decimal literal, accumulated digit by digit with wrapping
/// 64-bit arithmetic.
pub open spec fn spec_parse_dec(s: Seq<u8>) -> i64
    decreases s.len(),
{
    if s.len() == 0 {
        0
    } else {
        i64_specs::wrapping_add(
            i64_specs::wrapping_mul(spec_parse_dec(s.drop_last()), 10),
            (s.last() - 48) as i64,
        )
    }
}

/// The numeric value of one hexadecimal digit byte; other bytes count zero.
pub open spec fn spec_hex_digit(b: u8) -> i64 {
    if 48 <= b && b <= 57 {
        (b - 48) as i64
    } else if 97 <= b && b <= 102 {
        (b - 87) as i64
    } else if 65 <= b && b <= 70 {
        (b - 55) as i64
    } else {
        0
    }
}

/// The value of a run of hexadecimal digits, accumulated with wrapping
/// 64-bit arithmetic.
pub open spec fn spec_parse_hex_digits(s: Seq<u8>) -> i64
    decreases s.len(),
{
    if s.len() == 0 {
        0
    } else {
        i64_specs::wrapping_add(
            i64_specs::wrapping_mul(spec_parse_hex_digits(s.drop_last()), 16),
            spec_hex_digit(s.last()),
        )
    }
}

/// A hex lexeme with its leading `#` marks stripped.
pub open spec fn spec_strip_hashes(s: Seq<u8>) -> Seq<u8>
    decreases s.len(),
{
    if s.len() > 0 && s[0] == 35 {
        spec_strip_hashes(s.drop_first())
    } else {
        s
    }
}

/// The value of a hex literal: strip the `#` marks, then read base 16.
pub open spec fn spec_parse_hex(s: Seq<u8>) -> i64 {
    spec_parse_hex_digits(spec_strip_hashes(s))
}

/// No for-statement token at or after position `i`: from such a cursor the
/// `e_*` spec functions below describe the evaluator exactly.
pub open spec fn no_for_from(t: Seq<TokenRep>, i: int) -> bool {
    forall|k: int| i <= k < t.len() ==> (#[trigger] t[k].token) != Token::For
}

/// No for-statement token anywhere in the stream.
pub open spec fn no_for(t: Seq<TokenRep>) -> bool {
    no_for_from(t, 0)
}

// The `e_*` spec functions mirror the executable evaluator rule for rule on
// for-free token sequences; the for branch of `e_primary` is left arbitrary
// and is unreachable under `no_for`. The `arbitrary()` guards on cursors are
// unreachable because a rule never moves its cursor backwards or past the
// end, as the executable rules prove.
/// The statement list: the wrapping sum of the statement values until `EOF`.
/// As in the validator, only a statement that ends in `end` or `'}'` may
/// stand last without its closing semicolon.
pub open spec fn e_statements(
    t: Seq<TokenRep>,
    i: int,
    env: Map<Seq<u8>, i64>,
    out: Seq<i64>,
    acc: i64,
) -> Result<EvalOut, EvalFail>
    decreases t.len() - i, 30int,
{
    if i < t.len() && t[i].token == Token::EOF {
        Ok(EvalOut { value: acc, cursor: i + 1, env, out })
    } else {
        match e_bitwise(t, i, env, out) {
            Err(f) => Err(f),
            Ok(o) => {
                let acc2 = i64_specs::wrapping_add(acc, o.value);
                if o.cursor < t.len() && t[o.cursor].token == Token::Semicolon {
                    if i <= o.cursor {
                        e_statements(t, o.cursor + 1, o.env, o.out, acc2)
                    } else {
                        arbitrary()
                    }
                } else if o.cursor < t.len() && t[o.cursor].token == Token::EOF && i < o.cursor
                    && (t[o.cursor - 1].token == Token::End || t[o.cursor - 1].token
                    == Token::RightBraces) {
                    Ok(EvalOut { value: acc2, cursor: o.cursor + 1, env: o.env, out: o.out })
                } else {
                    Err(EvalFail { err: ErrorRep::MissingSemicolon(t[o.cursor]), env: o.env, out: o.out })
                }
            },
        }
    }
}

pub open spec fn e_bitwise(t: Seq<TokenRep>, i: int, env: Map<Seq<u8>, i64>, out: Seq<i64>) -> Result<
    EvalOut,
    EvalFail,
>
    decreases t.len() - i, 20int,
{
    match e_additive(t, i, env, out) {
        Err(f) => Err(f),
        Ok(o) => {
            if i < o.cursor && o.cursor <= t.len() {
                e_bitwise_rest(t, o.value, o.cursor, o.env, o.out)
            } else {
                arbitrary()
            }
        },
    }
}

pub open spec fn e_bitwise_rest(
    t: Seq<TokenRep>,
    acc: i64,
    i: int,
    env: Map<Seq<u8>, i64>,
    out: Seq<i64>,
) -> Result<EvalOut, EvalFail>
    decreases t.len() - i, 19int,
{
    if i < t.len() && (t[i].token == Token::BWAnd || t[i].token == Token::BWOr) {
        match e_additive(t, i + 1, env, out) {
            Err(f) => Err(f),
            Ok(o) => {
                let v = if t[i].token == Token::BWAnd {
                    acc & o.value
                } else {
                    acc | o.value
                };
                if i < o.cursor && o.cursor <= t.len() {
                    e_bitwise_rest(t, v, o.cursor, o.env, o.out)
                } else {
                    arbitrary()
                }
            },
        }
    } else {
        Ok(EvalOut { value: acc, cursor: i, env, out })
    }
}

pub open spec fn e_additive(t: Seq<TokenRep>, i: int, env: Map<Seq<u8>, i64>, out: Seq<i64>) -> Result<
    EvalOut,
    EvalFail,
>
    decreases t.len() - i, 18int,
{
    match e_multiplicative(t, i, env, out) {
        Err(f) => Err(f),
        Ok(o) => {
            if i < o.cursor && o.cursor <= t.len() {
                e_additive_rest(t, o.value, o.cursor, o.env, o.out)
            } else {
                arbitrary()
            }
        },
    }
}

pub open spec fn e_additive_rest(
    t: Seq<TokenRep>,
    acc: i64,
    i: int,
    env: Map<Seq<u8>, i64>,
    out: Seq<i64>,
) -> Result<EvalOut, EvalFail>
    decreases t.len() - i, 17int,
{
    if i < t.len() && (t[i].token == Token::Addition || t[i].token == Token::Subtraction) {
        match e_multiplicative(t, i + 1, env, out) {
            Err(f) => Err(f),
            Ok(o) => {
                let v = if t[i].token == Token::Addition {
                    i64_specs::wrapping_add(acc, o.value)
                } else {
                    i64_specs::wrapping_sub(acc, o.value)
                };
                if i < o.cursor && o.cursor <= t.len() {
                    e_additive_rest(t, v, o.cursor, o.env, o.out)
                } else {
                    arbitrary()
                }
            },
        }
    } else {
        Ok(EvalOut { value: acc, cursor: i, env, out })
    }
}

/// The multiplicative level; unlike the validator's, it descends straight to
/// `unary`, so comparison operators stop the evaluator.
pub open spec fn e_multiplicative(
    t: Seq<TokenRep>,
    i: int,
    env: Map<Seq<u8>, i64>,
    out: Seq<i64>,
) -> Result<EvalOut, EvalFail>
    decreases t.len() - i, 16int,
{
    match e_unary(t, i, env, out) {
        Err(f) => Err(f),
        Ok(o) => {
            if i < o.cursor && o.cursor <= t.len() {
                e_multiplicative_rest(t, o.value, o.cursor, o.env, o.out)
            } else {
                arbitrary()
            }
        },
    }
}

pub open spec fn e_multiplicative_rest(
    t: Seq<TokenRep>,
    acc: i64,
    i: int,
    env: Map<Seq<u8>, i64>,
    out: Seq<i64>,
) -> Result<EvalOut, EvalFail>
    decreases t.len() - i, 15int,
{
    if i < t.len() && (t[i].token == Token::Multiplication || t[i].token == Token::Division) {
        match e_unary(t, i + 1, env, out) {
            Err(f) => Err(f),
            Ok(o) => {
                if t[i].token == Token::Multiplication {
                    let v = i64_specs::wrapping_mul(acc, o.value);
                    if i < o.cursor && o.cursor <= t.len() {
                        e_multiplicative_rest(t, v, o.cursor, o.env, o.out)
                    } else {
                        arbitrary()
                    }
                } else {
                    match acc.checked_div(o.value) {
                        None => Err(
                            EvalFail {
                                err: ErrorRep::InvalidDivision(t[i]),
                                env: o.env,
                                out: o.out,
                            },
                        ),
                        Some(v) => {
                            if i < o.cursor && o.cursor <= t.len() {
                                e_multiplicative_rest(t, v, o.cursor, o.env, o.out)
                            } else {
                                arbitrary()
                            }
                        },
                    }
                }
            },
        }
    } else {
        Ok(EvalOut { value: acc, cursor: i, env, out })
    }
}

pub open spec fn e_unary(t: Seq<TokenRep>, i: int, env: Map<Seq<u8>, i64>, out: Seq<i64>) -> Result<
    EvalOut,
    EvalFail,
>
    decreases t.len() - i, 12int,
{
    if i < t.len() && t[i].token == Token::Addition {
        e_primary(t, i + 1, env, out)
    } else if i < t.len() && t[i].token == Token::Subtraction {
        match e_primary(t, i + 1, env, out) {
            Err(f) => Err(f),
            Ok(o) => Ok(
                EvalOut {
                    value: i64_specs::wrapping_sub(0, o.value),
                    cursor: o.cursor,
                    env: o.env,
                    out: o.out,
                },
            ),
        }
    } else {
        e_primary(t, i, env, out)
    }
}

pub open spec fn e_primary(t: Seq<TokenRep>, i: int, env: Map<Seq<u8>, i64>, out: Seq<i64>) -> Result<
    EvalOut,
    EvalFail,
>
    decreases t.len() - i, 10int,
{
    if i >= t.len() {
        arbitrary()
    } else if t[i].token == Token::Int {
        Ok(EvalOut { value: spec_parse_dec(t[i].lexeme), cursor: i + 1, env, out })
    } else if t[i].token == Token::Hex {
        Ok(EvalOut { value: spec_parse_hex(t[i].lexeme), cursor: i + 1, env, out })
    } else if t[i].token == Token::Identifier {
        if i + 1 < t.len() && t[i + 1].token == Token::Assignment {
            match e_bitwise(t, i + 2, env, out) {
                Err(f) => Err(f),
                Ok(o) => Ok(
                    EvalOut {
                        value: o.value,
                        cursor: o.cursor,
                        env: o.env.insert(t[i].lexeme, o.value),
                        out: o.out,
                    },
                ),
            }
        } else {
            if env.contains_key(t[i].lexeme) {
                Ok(EvalOut { value: env[t[i].lexeme], cursor: i + 1, env, out })
            } else {
                Err(EvalFail { err: ErrorRep::UndefinedVariable(t[i]), env, out })
            }
        }
    } else if t[i].token == Token::Console {
        match e_bitwise(t, i + 1, env, out) {
            Err(f) => Err(f),
            Ok(o) => Ok(
                EvalOut {
                    value: o.value,
                    cursor: o.cursor,
                    env: o.env,
                    out: o.out.push(o.value),
                },
            ),
        }
    } else if t[i].token == Token::LeftParantheses {
        match e_bitwise(t, i + 1, env, out) {
            Err(f) => Err(f),
            Ok(o) => {
                if o.cursor < t.len() && t[o.cursor].token == Token::RightParantheses {
                    Ok(EvalOut { value: o.value, cursor: o.cursor + 1, env: o.env, out: o.out })
                } else {
                    Err(
                        EvalFail {
                            err: ErrorRep::MissingClosingParantheses(t[o.cursor]),
                            env: o.env,
                            out: o.out,
                        },
                    )
                }
            },
        }
    } else if t[i].token == Token::For {
        arbitrary()
    } else {
        Err(EvalFail { err: ErrorRep::Generic(t[i], spec_context(t, i)), env, out })
    }
}

/// The body passes of a for-statement. `i_body` is the cursor of the first
/// body token (just past `begin`), `var` the control variable's name,
/// `control` its current value, `end_value` the end bound, and `i` the
/// cursor within the current pass. One statement of the body is evaluated
/// per step; at the closing `end` the loop stops when the control value has
/// reached the bound, and otherwise increments the control variable, binds
/// it, and rewinds the cursor to `i_body` for the next pass. Termination is
/// by the remaining control values, then by the tokens left in the pass; the
/// `arbitrary()` guards are unreachable, as [`evaluate_for`] proves.
pub open spec fn e_for_passes(
    t: Seq<TokenRep>,
    i_body: int,
    var: Seq<u8>,
    control: i64,
    end_value: i64,
    i: int,
    env: Map<Seq<u8>, i64>,
    out: Seq<i64>,
) -> Result<EvalOut, EvalFail>
    decreases end_value - control, t.len() - i,
{
    if control > end_value {
        Ok(EvalOut { value: 0, cursor: i, env, out })
    } else if i < t.len() && t[i].token == Token::End {
        if control >= end_value {
            Ok(EvalOut { value: 0, cursor: i + 1, env, out })
        } else if 0 <= i_body <= t.len() {
            e_for_passes(
                t,
                i_body,
                var,
                (control + 1) as i64,
                end_value,
                i_body,
                env.insert(var, (control + 1) as i64),
                out,
            )
        } else {
            arbitrary()
        }
    } else {
        match e_bitwise(t, i, env, out) {
            Err(f) => Err(f),
            Ok(o) => {
                if o.cursor < t.len() && t[o.cursor].token == Token::End {
                    if control >= end_value {
                        Ok(EvalOut { value: 0, cursor: o.cursor + 1, env: o.env, out: o.out })
                    } else if 0 <= i_body <= t.len() {
                        e_for_passes(
                            t,
                            i_body,
                            var,
                            (control + 1) as i64,
                            end_value,
                            i_body,
                            o.env.insert(var, (control + 1) as i64),
                            o.out,
                        )
                    } else {
                        arbitrary()
                    }
                } else if o.cursor < t.len() && t[o.cursor].token == Token::Semicolon {
                    if i < o.cursor + 1 && o.cursor + 1 <= t.len() {
                        e_for_passes(t, i_body, var, control, end_value, o.cursor + 1, o.env, o.out)
                    } else {
                        arbitrary()
                    }
                } else {
                    Err(
                        EvalFail {
                            err: ErrorRep::MissingSemicolon(t[o.cursor]),
                            env: o.env,
                            out: o.out,
                        },
                    )
                }
            },
        }
    }
}

/// A whole for-statement, entered just past its `for` keyword: the fixed
/// header tokens are consumed when present (their absence is tolerated, as
/// in every pass of the evaluator), the start expression's value is bound to
/// the control variable, the end bound is evaluated, and the body is run by
/// [`e_for_passes`]. The control value that drives the passes is whatever
/// the environment holds for the variable after the end bound — so an end
/// expression that reassigns the variable is honoured. The statement's own
/// value is 0.
pub open spec fn e_for_exec(t: Seq<TokenRep>, i: int, env: Map<Seq<u8>, i64>, out: Seq<i64>) -> Result<
    EvalOut,
    EvalFail,
> {
    let i1 = if i < t.len() && t[i].token == Token::LeftParantheses {
        i + 1
    } else {
        i
    };
    let var = t[i1].lexeme;
    let i2 = if i1 < t.len() && t[i1].token == Token::Identifier {
        i1 + 1
    } else {
        i1
    };
    let i3 = if i2 < t.len() && t[i2].token == Token::Assignment {
        i2 + 1
    } else {
        i2
    };
    match e_bitwise(t, i3, env, out) {
        Err(f) => Err(f),
        Ok(o1) => {
            let env1 = o1.env.insert(var, o1.value);
            let i4 = if o1.cursor < t.len() && t[o1.cursor].token == Token::To {
                o1.cursor + 1
            } else {
                o1.cursor
            };
            match e_bitwise(t, i4, env1, o1.out) {
                Err(f) => Err(f),
                Ok(o2) => {
                    let i5 = if o2.cursor < t.len() && t[o2.cursor].token
                        == Token::RightParantheses {
                        o2.cursor + 1
                    } else {
                        o2.cursor
                    };
                    let i6 = if i5 < t.len() && t[i5].token == Token::Begin {
                        i5 + 1
                    } else {
                        i5
                    };
                    e_for_passes(t, i6, var, o2.env[var], o2.value, i6, o2.env, o2.out)
                },
            }
        },
    }
}

// The `f_*` family extends the `e_*` family by one level of for-statements:
// it is the same relation rule for rule, except that a for-statement means
// [`e_for_exec`] — whose header and body passes are in turn given by the
// for-free family. It therefore describes the evaluator exactly whenever at
// most one for-statement stands ahead of the cursor ([`lone_for_from`]): one
// loop, not nested, with anything else around it.
/// At most one for-statement token at or after position `i`.
pub open spec fn lone_for_from(t: Seq<TokenRep>, i: int) -> bool {
    forall|j: int, k: int|
        i <= j < k < t.len() ==> !((#[trigger] t[j].token) == Token::For && (#[trigger] t[k].token)
            == Token::For)
}

/// [`e_statements`] with for-statements meaning [`e_for_exec`].
pub open spec fn f_statements(
    t: Seq<TokenRep>,
    i: int,
    env: Map<Seq<u8>, i64>,
    out: Seq<i64>,
    acc: i64,
) -> Result<EvalOut, EvalFail>
    decreases t.len() - i, 30int,
{
    if i < t.len() && t[i].token == Token::EOF {
        Ok(EvalOut { value: acc, cursor: i + 1, env, out })
    } else {
        match f_bitwise(t, i, env, out) {
            Err(f) => Err(f),
            Ok(o) => {
                let acc2 = i64_specs::wrapping_add(acc, o.value);
                if o.cursor < t.len() && t[o.cursor].token == Token::Semicolon {
                    if i <= o.cursor {
                        f_statements(t, o.cursor + 1, o.env, o.out, acc2)
                    } else {
                        arbitrary()
                    }
                } else if o.cursor < t.len() && t[o.cursor].token == Token::EOF && i < o.cursor
                    && (t[o.cursor - 1].token == Token::End || t[o.cursor - 1].token
                    == Token::RightBraces) {
                    Ok(EvalOut { value: acc2, cursor: o.cursor + 1, env: o.env, out: o.out })
                } else {
                    Err(EvalFail { err: ErrorRep::MissingSemicolon(t[o.cursor]), env: o.env, out: o.out })
                }
            },
        }
    }
}

/// [`e_bitwise`] with for-statements meaning [`e_for_exec`].
pub open spec fn f_bitwise(t: Seq<TokenRep>, i: int, env: Map<Seq<u8>, i64>, out: Seq<i64>) -> Result<
    EvalOut,
    EvalFail,
>
    decreases t.len() - i, 20int,
{
    match f_additive(t, i, env, out) {
        Err(f) => Err(f),
        Ok(o) => {
            if i < o.cursor && o.cursor <= t.len() {
                f_bitwise_rest(t, o.value, o.cursor, o.env, o.out)
            } else {
                arbitrary()
            }
        },
    }
}

/// [`e_bitwise_rest`] with for-statements meaning [`e_for_exec`].
pub open spec fn f_bitwise_rest(
    t: Seq<TokenRep>,
    acc: i64,
    i: int,
    env: Map<Seq<u8>, i64>,
    out: Seq<i64>,
) -> Result<EvalOut, EvalFail>
    decreases t.len() - i, 19int,
{
    if i < t.len() && (t[i].token == Token::BWAnd || t[i].token == Token::BWOr) {
        match f_additive(t, i + 1, env, out) {
            Err(f) => Err(f),
            Ok(o) => {
                let v = if t[i].token == Token::BWAnd {
                    acc & o.value
                } else {
                    acc | o.value
                };
                if i < o.cursor && o.cursor <= t.len() {
                    f_bitwise_rest(t, v, o.cursor, o.env, o.out)
                } else {
                    arbitrary()
                }
            },
        }
    } else {
        Ok(EvalOut { value: acc, cursor: i, env, out })
    }
}

/// [`e_additive`] with for-statements meaning [`e_for_exec`].
pub open spec fn f_additive(t: Seq<TokenRep>, i: int, env: Map<Seq<u8>, i64>, out: Seq<i64>) -> Result<
    EvalOut,
    EvalFail,
>
    decreases t.len() - i, 18int,
{
    match f_multiplicative(t, i, env, out) {
        Err(f) => Err(f),
        Ok(o) => {
            if i < o.cursor && o.cursor <= t.len() {
                f_additive_rest(t, o.value, o.cursor, o.env, o.out)
            } else {
                arbitrary()
            }
        },
    }
}

/// [`e_additive_rest`] with for-statements meaning [`e_for_exec`].
pub open spec fn f_additive_rest(
    t: Seq<TokenRep>,
    acc: i64,
    i: int,
    env: Map<Seq<u8>, i64>,
    out: Seq<i64>,
) -> Result<EvalOut, EvalFail>
    decreases t.len() - i, 17int,
{
    if i < t.len() && (t[i].token == Token::Addition || t[i].token == Token::Subtraction) {
        match f_multiplicative(t, i + 1, env, out) {
            Err(f) => Err(f),
            Ok(o) => {
                let v = if t[i].token == Token::Addition {
                    i64_specs::wrapping_add(acc, o.value)
                } else {
                    i64_specs::wrapping_sub(acc, o.value)
                };
                if i < o.cursor && o.cursor <= t.len() {
                    f_additive_rest(t, v, o.cursor, o.env, o.out)
                } else {
                    arbitrary()
                }
            },
        }
    } else {
        Ok(EvalOut { value: acc, cursor: i, env, out })
    }
}

/// [`e_multiplicative`] with for-statements meaning [`e_for_exec`].
pub open spec fn f_multiplicative(
    t: Seq<TokenRep>,
    i: int,
    env: Map<Seq<u8>, i64>,
    out: Seq<i64>,
) -> Result<EvalOut, EvalFail>
    decreases t.len() - i, 16int,
{
    match f_unary(t, i, env, out) {
        Err(f) => Err(f),
        Ok(o) => {
            if i < o.cursor && o.cursor <= t.len() {
                f_multiplicative_rest(t, o.value, o.cursor, o.env, o.out)
            } else {
                arbitrary()
            }
        },
    }
}

/// [`e_multiplicative_rest`] with for-statements meaning [`e_for_exec`].
pub open spec fn f_multiplicative_rest(
    t: Seq<TokenRep>,
    acc: i64,
    i: int,
    env: Map<Seq<u8>, i64>,
    out: Seq<i64>,
) -> Result<EvalOut, EvalFail>
    decreases t.len() - i, 15int,
{
    if i < t.len() && (t[i].token == Token::Multiplication || t[i].token == Token::Division) {
        match f_unary(t, i + 1, env, out) {
            Err(f) => Err(f),
            Ok(o) => {
                if t[i].token == Token::Multiplication {
                    let v = i64_specs::wrapping_mul(acc, o.value);
                    if i < o.cursor && o.cursor <= t.len() {
                        f_multiplicative_rest(t, v, o.cursor, o.env, o.out)
                    } else {
                        arbitrary()
                    }
                } else {
                    match acc.checked_div(o.value) {
                        None => Err(
                            EvalFail {
                                err: ErrorRep::InvalidDivision(t[i]),
                                env: o.env,
                                out: o.out,
                            },
                        ),
                        Some(v) => {
                            if i < o.cursor && o.cursor <= t.len() {
                                f_multiplicative_rest(t, v, o.cursor, o.env, o.out)
                            } else {
                                arbitrary()
                            }
                        },
                    }
                }
            },
        }
    } else {
        Ok(EvalOut { value: acc, cursor: i, env, out })
    }
}

/// [`e_unary`] with for-statements meaning [`e_for_exec`].
pub open spec fn f_unary(t: Seq<TokenRep>, i: int, env: Map<Seq<u8>, i64>, out: Seq<i64>) -> Result<
    EvalOut,
    EvalFail,
>
    decreases t.len() - i, 12int,
{
    if i < t.len() && t[i].token == Token::Addition {
        f_primary(t, i + 1, env, out)
    } else if i < t.len() && t[i].token == Token::Subtraction {
        match f_primary(t, i + 1, env, out) {
            Err(f) => Err(f),
            Ok(o) => Ok(
                EvalOut {
                    value: i64_specs::wrapping_sub(0, o.value),
                    cursor: o.cursor,
                    env: o.env,
                    out: o.out,
                },
            ),
        }
    } else {
        f_primary(t, i, env, out)
    }
}

/// [`e_primary`], except that a for-statement is [`e_for_exec`].
pub open spec fn f_primary(t: Seq<TokenRep>, i: int, env: Map<Seq<u8>, i64>, out: Seq<i64>) -> Result<
    EvalOut,
    EvalFail,
>
    decreases t.len() - i, 10int,
{
    if i >= t.len() {
        arbitrary()
    } else if t[i].token == Token::Int {
        Ok(EvalOut { value: spec_parse_dec(t[i].lexeme), cursor: i + 1, env, out })
    } else if t[i].token == Token::Hex {
        Ok(EvalOut { value: spec_parse_hex(t[i].lexeme), cursor: i + 1, env, out })
    } else if t[i].token == Token::Identifier {
        if i + 1 < t.len() && t[i + 1].token == Token::Assignment {
            match f_bitwise(t, i + 2, env, out) {
                Err(f) => Err(f),
                Ok(o) => Ok(
                    EvalOut {
                        value: o.value,
                        cursor: o.cursor,
                        env: o.env.insert(t[i].lexeme, o.value),
                        out: o.out,
                    },
                ),
            }
        } else {
            if env.contains_key(t[i].lexeme) {
                Ok(EvalOut { value: env[t[i].lexeme], cursor: i + 1, env, out })
            } else {
                Err(EvalFail { err: ErrorRep::UndefinedVariable(t[i]), env, out })
            }
        }
    } else if t[i].token == Token::Console {
        match f_bitwise(t, i + 1, env, out) {
            Err(f) => Err(f),
            Ok(o) => Ok(
                EvalOut {
                    value: o.value,
                    cursor: o.cursor,
                    env: o.env,
                    out: o.out.push(o.value),
                },
            ),
        }
    } else if t[i].token == Token::LeftParantheses {
        match f_bitwise(t, i + 1, env, out) {
            Err(f) => Err(f),
            Ok(o) => {
                if o.cursor < t.len() && t[o.cursor].token == Token::RightParantheses {
                    Ok(EvalOut { value: o.value, cursor: o.cursor + 1, env: o.env, out: o.out })
                } else {
                    Err(
                        EvalFail {
                            err: ErrorRep::MissingClosingParantheses(t[o.cursor]),
                            env: o.env,
                            out: o.out,
                        },
                    )
                }
            },
        }
    } else if t[i].token == Token::For {
        e_for_exec(t, i + 1, env, out)
    } else {
        Err(EvalFail { err: ErrorRep::Generic(t[i], spec_context(t, i)), env, out })
    }
}

/// The outcome of evaluating a whole token sequence, threading the given
/// environment and console output through every statement.
pub open spec fn spec_evaluate(
    t: Seq<TokenRep>,
    env: Map<Seq<u8>, i64>,
    out: Seq<i64>,
) -> Result<EvalOut, EvalFail> {
    e_statements(t, 0, env, out, 0)
}

/// No binding is ever dropped by evaluation: every key of the environment
/// before a rule is still bound after it.
pub open spec fn keys_preserved(pre: Map<Seq<u8>, i64>, post: Map<Seq<u8>, i64>) -> bool {
    forall|k: Seq<u8>| #[trigger] pre.contains_key(k) ==> post.contains_key(k)
}

/// Every key a rule binds names some token of the stream: keys appear in
/// the environment only through assignments and for-loop control variables,
/// whose names are lexemes of the program.
pub open spec fn new_keys_from_stream(
    t: Seq<TokenRep>,
    pre: Map<Seq<u8>, i64>,
    post: Map<Seq<u8>, i64>,
) -> bool {
    forall|k: Seq<u8>|
        #[trigger] post.contains_key(k) ==> pre.contains_key(k) || (exists|j: int|
            0 <= j < t.len() && (#[trigger] t[j].lexeme) == k)
}

/// The token kinds on which the validator and the evaluator walk the
/// grammar in step: no for- or while-statements, no brace blocks, and no
/// comparison operators — the constructs the original grammar walks treat
/// differently between the two passes.
pub open spec fn straight_line(t: Seq<TokenRep>) -> bool {
    forall|k: int|
        0 <= k < t.len() ==> {
            let tok = (#[trigger] t[k]).token;
            &&& tok != Token::For
            &&& tok != Token::While
            &&& tok != Token::LeftBraces
            &&& tok != Token::RightBraces
            &&& tok != Token::GreaterThan
            &&& tok != Token::LowerThan
            &&& tok != Token::Comparison
        }
}

#[verifier::rlimit(100)]
#[verifier::spinoff_prover]
proof fn lemma_p4_statements(t: Seq<TokenRep>, i: int, env: Map<Seq<u8>, i64>, out: Seq<i64>, acc: i64)
    requires
        wf_stream(t),
        straight_line(t),
        0 <= i < t.len(),
        crate::parser::v_statements(t, i) is Ok,
    ensures
        i < crate::parser::v_statements(t, i)->Ok_0 <= t.len(),
        match e_statements(t, i, env, out, acc) {
            Ok(o) => o.cursor == crate::parser::v_statements(t, i)->Ok_0,
            Err(f) => !is_syntax_error(f.err),
        },
    decreases t.len() - i, 30int,
{
    if t[i].token == Token::EOF {
    } else {
        if crate::parser::v_bitwise(t, i) is Ok {
            lemma_p4_bitwise(t, i, env, out);
            let j = crate::parser::v_bitwise(t, i)->Ok_0;
            if j < t.len() && t[j].token == Token::Semicolon {
                crate::parser::lemma_matched_not_last(t, j, Token::Semicolon);
                match e_bitwise(t, i, env, out) {
                    Ok(o) => {
                        lemma_p4_statements(
                            t,
                            j + 1,
                            o.env,
                            o.out,
                            i64_specs::wrapping_add(acc, o.value),
                        );
                    },
                    Err(_) => {
                        lemma_p4_statements(t, j + 1, env, out, acc);
                    },
                }
            }
        }
    }
}

#[verifier::spinoff_prover]
proof fn lemma_p4_bitwise(t: Seq<TokenRep>, i: int, env: Map<Seq<u8>, i64>, out: Seq<i64>)
    requires
        wf_stream(t),
        straight_line(t),
        0 <= i < t.len(),
        crate::parser::v_bitwise(t, i) is Ok,
    ensures
        i < crate::parser::v_bitwise(t, i)->Ok_0 < t.len(),
        match e_bitwise(t, i, env, out) {
            Ok(o) => o.cursor == crate::parser::v_bitwise(t, i)->Ok_0,
            Err(f) => !is_syntax_error(f.err),
        },
    decreases t.len() - i, 20int,
{
    if crate::parser::v_additive(t, i) is Ok {
        lemma_p4_additive(t, i, env, out);
        let j = crate::parser::v_additive(t, i)->Ok_0;
        match e_additive(t, i, env, out) {
            Ok(o) => {
                lemma_p4_bitwise_rest(t, o.value, j, o.env, o.out);
            },
            Err(_) => {
                lemma_p4_bitwise_rest(t, 0, j, env, out);
            },
        }
    }
}

#[verifier::spinoff_prover]
proof fn lemma_p4_bitwise_rest(t: Seq<TokenRep>, acc: i64, i: int, env: Map<Seq<u8>, i64>, out: Seq<i64>)
    requires
        wf_stream(t),
        straight_line(t),
        0 <= i < t.len(),
        crate::parser::v_bitwise_rest(t, i) is Ok,
    ensures
        i <= crate::parser::v_bitwise_rest(t, i)->Ok_0 < t.len(),
        match e_bitwise_rest(t, acc, i, env, out) {
            Ok(o) => o.cursor == crate::parser::v_bitwise_rest(t, i)->Ok_0,
            Err(f) => !is_syntax_error(f.err),
        },
    decreases t.len() - i, 19int,
{
    if t[i].token == Token::BWAnd || t[i].token == Token::BWOr {
        crate::parser::lemma_matched_not_last(t, i, t[i].token);
        if crate::parser::v_additive(t, i + 1) is Ok {
            lemma_p4_additive(t, i + 1, env, out);
            let j = crate::parser::v_additive(t, i + 1)->Ok_0;
            match e_additive(t, i + 1, env, out) {
                Ok(o) => {
                    let v = if t[i].token == Token::BWAnd {
                        acc & o.value
                    } else {
                        acc | o.value
                    };
                    lemma_p4_bitwise_rest(t, v, j, o.env, o.out);
                },
                Err(_) => {
                    lemma_p4_bitwise_rest(t, 0, j, env, out);
                },
            }
        }
    }
}

#[verifier::spinoff_prover]
proof fn lemma_p4_additive(t: Seq<TokenRep>, i: int, env: Map<Seq<u8>, i64>, out: Seq<i64>)
    requires
        wf_stream(t),
        straight_line(t),
        0 <= i < t.len(),
        crate::parser::v_additive(t, i) is Ok,
    ensures
        i < crate::parser::v_additive(t, i)->Ok_0 < t.len(),
        match e_additive(t, i, env, out) {
            Ok(o) => o.cursor == crate::parser::v_additive(t, i)->Ok_0,
            Err(f) => !is_syntax_error(f.err),
        },
    decreases t.len() - i, 18int,
{
    if crate::parser::v_multiplicative(t, i) is Ok {
        lemma_p4_multiplicative(t, i, env, out);
        let j = crate::parser::v_multiplicative(t, i)->Ok_0;
        match e_multiplicative(t, i, env, out) {
            Ok(o) => {
                lemma_p4_additive_rest(t, o.value, j, o.env, o.out);
            },
            Err(_) => {
                lemma_p4_additive_rest(t, 0, j, env, out);
            },
        }
    }
}

#[verifier::spinoff_prover]
proof fn lemma_p4_additive_rest(t: Seq<TokenRep>, acc: i64, i: int, env: Map<Seq<u8>, i64>, out: Seq<i64>)
    requires
        wf_stream(t),
        straight_line(t),
        0 <= i < t.len(),
        crate::parser::v_additive_rest(t, i) is Ok,
    ensures
        i <= crate::parser::v_additive_rest(t, i)->Ok_0 < t.len(),
        match e_additive_rest(t, acc, i, env, out) {
            Ok(o) => o.cursor == crate::parser::v_additive_rest(t, i)->Ok_0,
            Err(f) => !is_syntax_error(f.err),
        },
    decreases t.len() - i, 17int,
{
    if t[i].token == Token::Addition || t[i].token == Token::Subtraction {
        crate::parser::lemma_matched_not_last(t, i, t[i].token);
        if crate::parser::v_multiplicative(t, i + 1) is Ok {
            lemma_p4_multiplicative(t, i + 1, env, out);
            let j = crate::parser::v_multiplicative(t, i + 1)->Ok_0;
            match e_multiplicative(t, i + 1, env, out) {
                Ok(o) => {
                    let v = if t[i].token == Token::Addition {
                        i64_specs::wrapping_add(acc, o.value)
                    } else {
                        i64_specs::wrapping_sub(acc, o.value)
                    };
                    lemma_p4_additive_rest(t, v, j, o.env, o.out);
                },
                Err(_) => {
                    lemma_p4_additive_rest(t, 0, j, env, out);
                },
            }
        }
    }
}

#[verifier::spinoff_prover]
proof fn lemma_p4_multiplicative(t: Seq<TokenRep>, i: int, env: Map<Seq<u8>, i64>, out: Seq<i64>)
    requires
        wf_stream(t),
        straight_line(t),
        0 <= i < t.len(),
        crate::parser::v_multiplicative(t, i) is Ok,
    ensures
        i < crate::parser::v_multiplicative(t, i)->Ok_0 < t.len(),
        match e_multiplicative(t, i, env, out) {
            Ok(o) => o.cursor == crate::parser::v_multiplicative(t, i)->Ok_0,
            Err(f) => !is_syntax_error(f.err),
        },
    decreases t.len() - i, 16int,
{
    if crate::parser::v_comparison(t, i) is Ok {
        if crate::parser::v_unary(t, i) is Ok {
            lemma_p4_unary(t, i, env, out);
            let j = crate::parser::v_unary(t, i)->Ok_0;
            // under `straight_line` the comparison level matches nothing
            assert(crate::parser::v_comparison_rest(t, j) == Ok::<int, crate::parser::ErrorRep>(
                j,
            ));
            match e_unary(t, i, env, out) {
                Ok(o) => {
                    lemma_p4_multiplicative_rest(t, o.value, j, o.env, o.out);
                },
                Err(_) => {
                    lemma_p4_multiplicative_rest(t, 0, j, env, out);
                },
            }
        }
    }
}

#[verifier::rlimit(100)]
#[verifier::spinoff_prover]
proof fn lemma_p4_multiplicative_rest(
    t: Seq<TokenRep>,
    acc: i64,
    i: int,
    env: Map<Seq<u8>, i64>,
    out: Seq<i64>,
)
    requires
        wf_stream(t),
        straight_line(t),
        0 <= i < t.len(),
        crate::parser::v_multiplicative_rest(t, i) is Ok,
    ensures
        i <= crate::parser::v_multiplicative_rest(t, i)->Ok_0 < t.len(),
        match e_multiplicative_rest(t, acc, i, env, out) {
            Ok(o) => o.cursor == crate::parser::v_multiplicative_rest(t, i)->Ok_0,
            Err(f) => !is_syntax_error(f.err),
        },
    decreases t.len() - i, 15int,
{
    if t[i].token == Token::Multiplication || t[i].token == Token::Division {
        crate::parser::lemma_matched_not_last(t, i, t[i].token);
        assert(crate::parser::v_comparison(t, i + 1) is Ok);
        assert(crate::parser::v_unary(t, i + 1) is Ok);
        lemma_p4_unary(t, i + 1, env, out);
        let j = crate::parser::v_unary(t, i + 1)->Ok_0;
        assert(crate::parser::v_comparison_rest(t, j) == Ok::<int, crate::parser::ErrorRep>(j));
        assert(crate::parser::v_comparison(t, i + 1) == Ok::<int, crate::parser::ErrorRep>(j));
        assert(crate::parser::v_multiplicative_rest(t, i) == crate::parser::v_multiplicative_rest(
            t,
            j,
        ));
        match e_unary(t, i + 1, env, out) {
            Ok(o) => {
                assert(o.cursor == j);
                if t[i].token == Token::Multiplication {
                    lemma_p4_multiplicative_rest(
                        t,
                        i64_specs::wrapping_mul(acc, o.value),
                        j,
                        o.env,
                        o.out,
                    );
                } else {
                    match acc.checked_div(o.value) {
                        None => {
                            lemma_p4_multiplicative_rest(t, acc, j, o.env, o.out);
                        },
                        Some(v) => {
                            lemma_p4_multiplicative_rest(t, v, j, o.env, o.out);
                        },
                    }
                }
            },
            Err(_) => {
                lemma_p4_multiplicative_rest(t, 0, j, env, out);
            },
        }
    }
}

#[verifier::spinoff_prover]
proof fn lemma_p4_unary(t: Seq<TokenRep>, i: int, env: Map<Seq<u8>, i64>, out: Seq<i64>)
    requires
        wf_stream(t),
        straight_line(t),
        0 <= i < t.len(),
        crate::parser::v_unary(t, i) is Ok,
    ensures
        i < crate::parser::v_unary(t, i)->Ok_0 < t.len(),
        match e_unary(t, i, env, out) {
            Ok(o) => o.cursor == crate::parser::v_unary(t, i)->Ok_0,
            Err(f) => !is_syntax_error(f.err),
        },
    decreases t.len() - i, 12int,
{
    if t[i].token == Token::Addition || t[i].token == Token::Subtraction {
        crate::parser::lemma_matched_not_last(t, i, t[i].token);
        lemma_p4_primary(t, i + 1, env, out);
    } else {
        lemma_p4_primary(t, i, env, out);
    }
}

#[verifier::spinoff_prover]
proof fn lemma_p4_primary(t: Seq<TokenRep>, i: int, env: Map<Seq<u8>, i64>, out: Seq<i64>)
    requires
        wf_stream(t),
        straight_line(t),
        0 <= i < t.len(),
        crate::parser::v_primary(t, i) is Ok,
    ensures
        i < crate::parser::v_primary(t, i)->Ok_0 < t.len(),
        match e_primary(t, i, env, out) {
            Ok(o) => o.cursor == crate::parser::v_primary(t, i)->Ok_0,
            Err(f) => !is_syntax_error(f.err),
        },
    decreases t.len() - i, 10int,
{
    if t[i].token == Token::Int || t[i].token == Token::Hex {
        crate::parser::lemma_matched_not_last(t, i, t[i].token);
    } else if t[i].token == Token::Identifier {
        crate::parser::lemma_matched_not_last(t, i, Token::Identifier);
        if i + 1 < t.len() && t[i + 1].token == Token::Assignment {
            crate::parser::lemma_matched_not_last(t, i + 1, Token::Assignment);
            if crate::parser::v_bitwise(t, i + 2) is Ok {
                lemma_p4_bitwise(t, i + 2, env, out);
            }
        }
    } else if t[i].token == Token::LeftParantheses {
        crate::parser::lemma_matched_not_last(t, i, Token::LeftParantheses);
        if crate::parser::v_bitwise(t, i + 1) is Ok {
            lemma_p4_bitwise(t, i + 1, env, out);
            let j = crate::parser::v_bitwise(t, i + 1)->Ok_0;
            if j < t.len() && t[j].token == Token::RightParantheses {
                crate::parser::lemma_matched_not_last(t, j, Token::RightParantheses);
            }
        }
    } else if t[i].token == Token::Console {
        crate::parser::lemma_matched_not_last(t, i, Token::Console);
        if crate::parser::v_bitwise(t, i + 1) is Ok {
            lemma_p4_bitwise(t, i + 1, env, out);
        }
    }
}

/// On the fragment where both passes walk the grammar alike — no for- or
/// while-statements, no brace blocks, no comparison operators — a token
/// sequence the validator accepts never makes the evaluator fail with a
/// syntax error: evaluation either succeeds or stops with one of the two
/// errors only evaluation can detect, an undefined variable or an
/// impossible division, whatever environment and prior output it starts
/// from.
pub proof fn lemma_validated_no_syntax_error(
    t: Seq<TokenRep>,
    env: Map<Seq<u8>, i64>,
    out: Seq<i64>,
)
    requires
        wf_stream(t),
        straight_line(t),
        crate::parser::spec_validate(t) is Ok,
    ensures
        match spec_evaluate(t, env, out) {
            Ok(_) => true,
            Err(f) => f.err is UndefinedVariable || f.err is InvalidDivision,
        },
{
    lemma_p4_statements(t, 0, env, out, 0);
}

proof fn lemma_prefix_trans(a: Seq<i64>, b: Seq<i64>, c: Seq<i64>)
    requires
        a.is_prefix_of(b),
        b.is_prefix_of(c),
    ensures
        a.is_prefix_of(c),
{
    assert(c.subrange(0, a.len() as int) =~= a);
}

/// The value of a decimal literal's lexeme.
fn parse_dec_lexeme(lexeme: &Vec<u8>) -> (r: i64)
    ensures
        r == spec_parse_dec(lexeme@),
{
    let n = lexeme.len();
    let mut v: i64 = 0;
    let mut k: usize = 0;
    proof {
        assert(lexeme@.subrange(0, 0) =~= Seq::<u8>::empty());
    }
    while k < n
        invariant
            n == lexeme@.len(),
            k <= n,
            v == spec_parse_dec(lexeme@.subrange(0, k as int)),
        decreases n - k,
    {
        let b = lexeme[k];
        let d: i64 = (b as i64) - 48;
        v = v.wrapping_mul(10).wrapping_add(d);
        proof {
            assert(lexeme@.subrange(0, (k + 1) as int).drop_last() =~= lexeme@.subrange(
                0,
                k as int,
            ));
            assert(lexeme@.subrange(0, (k + 1) as int).last() == lexeme@[k as int]);
        }
        k = k + 1;
    }
    proof {
        assert(lexeme@.subrange(0, n as int) =~= lexeme@);
    }
    v
}

/// The numeric value of one hexadecimal digit byte; other bytes count zero.
fn hex_digit_value(b: u8) -> (r: i64)
    ensures
        r == spec_hex_digit(b),
{
    if 48 <= b && b <= 57 {
        (b as i64) - 48
    } else if 97 <= b && b <= 102 {
        (b as i64) - 87
    } else if 65 <= b && b <= 70 {
        (b as i64) - 55
    } else {
        0
    }
}

/// The value of a hex literal's lexeme: leading `#` marks stripped, the rest
/// read base 16.
fn parse_hex_lexeme(lexeme: &Vec<u8>) -> (r: i64)
    ensures
        r == spec_parse_hex(lexeme@),
{
    let n = lexeme.len();
    let mut p: usize = 0;
    proof {
        assert(lexeme@.subrange(0, n as int) =~= lexeme@);
    }
    while p < n && lexeme[p] == 35
        invariant
            n == lexeme@.len(),
            p <= n,
            spec_strip_hashes(lexeme@) == spec_strip_hashes(lexeme@.subrange(p as int, n as int)),
        decreases n - p,
    {
        proof {
            assert(lexeme@.subrange(p as int, n as int).drop_first() =~= lexeme@.subrange(
                p as int + 1,
                n as int,
            ));
        }
        p = p + 1;
    }
    proof {
        assert(spec_strip_hashes(lexeme@.subrange(p as int, n as int)) == lexeme@.subrange(
            p as int,
            n as int,
        ));
    }
    let mut v: i64 = 0;
    let mut k: usize = p;
    proof {
        assert(lexeme@.subrange(p as int, p as int) =~= Seq::<u8>::empty());
    }
    while k < n
        invariant
            n == lexeme@.len(),
            p <= k <= n,
            v == spec_parse_hex_digits(lexeme@.subrange(p as int, k as int)),
        decreases n - k,
    {
        let b = lexeme[k];
        let d = hex_digit_value(b);
        v = v.wrapping_mul(16).wrapping_add(d);
        proof {
            assert(lexeme@.subrange(p as int, (k + 1) as int).drop_last() =~= lexeme@.subrange(
                p as int,
                k as int,
            ));
            assert(lexeme@.subrange(p as int, (k + 1) as int).last() == lexeme@[k as int]);
        }
        k = k + 1;
    }
    v
}

/// `';'` closing a statement; anything else is a missing semicolon.
fn end_of_statement(tokens: &Vec<TokenInfo>, i: &mut usize) -> (r: Result<(), Error>)
    requires
        wf_stream(reps(tokens@)),
        *old(i) < tokens@.len(),
    ensures
        match r {
            Ok(()) => reps(tokens@)[*old(i) as int].token == Token::Semicolon && *final(i) == *old(
                i,
            ) + 1 && *final(i) < tokens@.len(),
            Err(e) => reps(tokens@)[*old(i) as int].token != Token::Semicolon && e@
                == ErrorRep::MissingSemicolon(reps(tokens@)[*old(i) as int]) && *final(i) == *old(
                i,
            ),
        },
{
    let idx = *i;
    if crate::parser::match_token(tokens, i, Token::Semicolon) {
        proof {
            crate::parser::lemma_matched_not_last(reps(tokens@), idx as int, Token::Semicolon);
        }
        Ok(())
    } else {
        Err(Error::MissingSemicolon(tokens[idx].clone()))
    }
}

/// The bitwise level: `additive (('&' | '|') additive)*`, combining with the
/// 64-bit bitwise operations.
fn evaluate_bitwise(tokens: &Vec<TokenInfo>, i: &mut usize, vars: &mut Env, out: &mut Vec<i64>) -> (r:
    Result<i64, Error>)
    requires
        wf_stream(reps(tokens@)),
        *old(i) < tokens@.len(),
        old(vars).wf(),
    ensures
        final(vars).wf(),
        keys_preserved(old(vars)@, final(vars)@),
        new_keys_from_stream(reps(tokens@), old(vars)@, final(vars)@),
        old(out)@.is_prefix_of(final(out)@),
        *old(i) <= *final(i) <= tokens@.len(),
        r is Ok ==> *old(i) < *final(i) < tokens@.len(),
        no_for_from(reps(tokens@), *old(i) as int) ==> match r {
            Ok(v) => e_bitwise(reps(tokens@), *old(i) as int, old(vars)@, old(out)@) == Ok::<
                EvalOut,
                EvalFail,
            >(EvalOut { value: v, cursor: *final(i) as int, env: final(vars)@, out: final(out)@ }),
            Err(e) => e_bitwise(reps(tokens@), *old(i) as int, old(vars)@, old(out)@) == Err::<
                EvalOut,
                EvalFail,
            >(EvalFail { err: e@, env: final(vars)@, out: final(out)@ }),
        },
        lone_for_from(reps(tokens@), *old(i) as int) ==> match r {
            Ok(v) => f_bitwise(reps(tokens@), *old(i) as int, old(vars)@, old(out)@) == Ok::<
                EvalOut,
                EvalFail,
            >(EvalOut { value: v, cursor: *final(i) as int, env: final(vars)@, out: final(out)@ }),
            Err(e) => f_bitwise(reps(tokens@), *old(i) as int, old(vars)@, old(out)@) == Err::<
                EvalOut,
                EvalFail,
            >(EvalFail { err: e@, env: final(vars)@, out: final(out)@ }),
        },
    decreases tokens@.len() - *i, 20int,
{
    let ghost t = reps(tokens@);
    let ghost i0 = *i as int;
    let ghost env0 = old(vars)@;
    let ghost out0 = old(out)@;
    let mut value = match evaluate_additive(tokens, i, vars, out) {
        Ok(v) => v,
        Err(e) => {
            return Err(e);
        },
    };
    loop
        invariant
            wf_stream(t),
            t == reps(tokens@),
            *i < tokens@.len(),
            i0 == *old(i) as int,
            env0 == old(vars)@,
            out0 == old(out)@,
            i0 < *i as int,
            vars.wf(),
            keys_preserved(env0, vars@),
            new_keys_from_stream(t, env0, vars@),
            out0.is_prefix_of(out@),
            no_for_from(t, i0) ==> e_bitwise(t, i0, env0, out0) == e_bitwise_rest(
                t,
                value,
                *i as int,
                vars@,
                out@,
            ),
            lone_for_from(t, i0) ==> f_bitwise(t, i0, env0, out0) == f_bitwise_rest(
                t,
                value,
                *i as int,
                vars@,
                out@,
            ),
        decreases tokens@.len() - *i,
    {
        let idx = *i;
        let op_and = crate::parser::match_token(tokens, i, Token::BWAnd);
        let op_or = if op_and {
            false
        } else {
            crate::parser::match_token(tokens, i, Token::BWOr)
        };
        if !op_and && !op_or {
            return Ok(value);
        }
        proof {
            if op_and {
                crate::parser::lemma_matched_not_last(t, idx as int, Token::BWAnd);
            } else {
                crate::parser::lemma_matched_not_last(t, idx as int, Token::BWOr);
            }
        }
        let ghost out_pre = out@;
        let next = match evaluate_additive(tokens, i, vars, out) {
            Ok(v) => v,
            Err(e) => {
                proof {
                    lemma_prefix_trans(out0, out_pre, out@);
                }
                return Err(e);
            },
        };
        if op_and {
            value = value & next;
        } else {
            value = value | next;
        }
        proof {
            lemma_prefix_trans(out0, out_pre, out@);
        }
    }
}

/// The additive level, with wrapping addition and subtraction.
fn evaluate_additive(
    tokens: &Vec<TokenInfo>,
    i: &mut usize,
    vars: &mut Env,
    out: &mut Vec<i64>,
) -> (r: Result<i64, Error>)
    requires
        wf_stream(reps(tokens@)),
        *old(i) < tokens@.len(),
        old(vars).wf(),
    ensures
        final(vars).wf(),
        keys_preserved(old(vars)@, final(vars)@),
        new_keys_from_stream(reps(tokens@), old(vars)@, final(vars)@),
        old(out)@.is_prefix_of(final(out)@),
        *old(i) <= *final(i) <= tokens@.len(),
        r is Ok ==> *old(i) < *final(i) < tokens@.len(),
        no_for_from(reps(tokens@), *old(i) as int) ==> match r {
            Ok(v) => e_additive(reps(tokens@), *old(i) as int, old(vars)@, old(out)@) == Ok::<
                EvalOut,
                EvalFail,
            >(EvalOut { value: v, cursor: *final(i) as int, env: final(vars)@, out: final(out)@ }),
            Err(e) => e_additive(reps(tokens@), *old(i) as int, old(vars)@, old(out)@) == Err::<
                EvalOut,
                EvalFail,
            >(EvalFail { err: e@, env: final(vars)@, out: final(out)@ }),
        },
        lone_for_from(reps(tokens@), *old(i) as int) ==> match r {
            Ok(v) => f_additive(reps(tokens@), *old(i) as int, old(vars)@, old(out)@) == Ok::<
                EvalOut,
                EvalFail,
            >(EvalOut { value: v, cursor: *final(i) as int, env: final(vars)@, out: final(out)@ }),
            Err(e) => f_additive(reps(tokens@), *old(i) as int, old(vars)@, old(out)@) == Err::<
                EvalOut,
                EvalFail,
            >(EvalFail { err: e@, env: final(vars)@, out: final(out)@ }),
        },
    decreases tokens@.len() - *i, 18int,
{
    let ghost t = reps(tokens@);
    let ghost i0 = *i as int;
    let ghost env0 = old(vars)@;
    let ghost out0 = old(out)@;
    let mut value = match evaluate_multiplicative(tokens, i, vars, out) {
        Ok(v) => v,
        Err(e) => {
            return Err(e);
        },
    };
    loop
        invariant
            wf_stream(t),
            t == reps(tokens@),
            *i < tokens@.len(),
            i0 == *old(i) as int,
            env0 == old(vars)@,
            out0 == old(out)@,
            i0 < *i as int,
            vars.wf(),
            keys_preserved(env0, vars@),
            new_keys_from_stream(t, env0, vars@),
            out0.is_prefix_of(out@),
            no_for_from(t, i0) ==> e_additive(t, i0, env0, out0) == e_additive_rest(
                t,
                value,
                *i as int,
                vars@,
                out@,
            ),
            lone_for_from(t, i0) ==> f_additive(t, i0, env0, out0) == f_additive_rest(
                t,
                value,
                *i as int,
                vars@,
                out@,
            ),
        decreases tokens@.len() - *i,
    {
        let idx = *i;
        let op_add = crate::parser::match_token(tokens, i, Token::Addition);
        let op_sub = if op_add {
            false
        } else {
            crate::parser::match_token(tokens, i, Token::Subtraction)
        };
        if !op_add && !op_sub {
            return Ok(value);
        }
        proof {
            if op_add {
                crate::parser::lemma_matched_not_last(t, idx as int, Token::Addition);
            } else {
                crate::parser::lemma_matched_not_last(t, idx as int, Token::Subtraction);
            }
        }
        let ghost out_pre = out@;
        let next = match evaluate_multiplicative(tokens, i, vars, out) {
            Ok(v) => v,
            Err(e) => {
                proof {
                    lemma_prefix_trans(out0, out_pre, out@);
                }
                return Err(e);
            },
        };
        if op_add {
            value = value.wrapping_add(next);
        } else {
            value = value.wrapping_sub(next);
        }
        proof {
            lemma_prefix_trans(out0, out_pre, out@);
        }
    }
}

/// The multiplicative level, with wrapping multiplication and checked
/// division; it descends straight to `unary`.
fn evaluate_multiplicative(
    tokens: &Vec<TokenInfo>,
    i: &mut usize,
    vars: &mut Env,
    out: &mut Vec<i64>,
) -> (r: Result<i64, Error>)
    requires
        wf_stream(reps(tokens@)),
        *old(i) < tokens@.len(),
        old(vars).wf(),
    ensures
        final(vars).wf(),
        keys_preserved(old(vars)@, final(vars)@),
        new_keys_from_stream(reps(tokens@), old(vars)@, final(vars)@),
        old(out)@.is_prefix_of(final(out)@),
        *old(i) <= *final(i) <= tokens@.len(),
        r is Ok ==> *old(i) < *final(i) < tokens@.len(),
        no_for_from(reps(tokens@), *old(i) as int) ==> match r {
            Ok(v) => e_multiplicative(reps(tokens@), *old(i) as int, old(vars)@, old(out)@) == Ok::<
                EvalOut,
                EvalFail,
            >(EvalOut { value: v, cursor: *final(i) as int, env: final(vars)@, out: final(out)@ }),
            Err(e) => e_multiplicative(reps(tokens@), *old(i) as int, old(vars)@, old(out)@)
                == Err::<EvalOut, EvalFail>(
                EvalFail { err: e@, env: final(vars)@, out: final(out)@ },
            ),
        },
        lone_for_from(reps(tokens@), *old(i) as int) ==> match r {
            Ok(v) => f_multiplicative(reps(tokens@), *old(i) as int, old(vars)@, old(out)@) == Ok::<
                EvalOut,
                EvalFail,
            >(EvalOut { value: v, cursor: *final(i) as int, env: final(vars)@, out: final(out)@ }),
            Err(e) => f_multiplicative(reps(tokens@), *old(i) as int, old(vars)@, old(out)@)
                == Err::<EvalOut, EvalFail>(
                EvalFail { err: e@, env: final(vars)@, out: final(out)@ },
            ),
        },
    decreases tokens@.len() - *i, 16int,
{
    let ghost t = reps(tokens@);
    let ghost i0 = *i as int;
    let ghost env0 = old(vars)@;
    let ghost out0 = old(out)@;
    let mut value = match evaluate_unary(tokens, i, vars, out) {
        Ok(v) => v,
        Err(e) => {
            return Err(e);
        },
    };
    loop
        invariant
            wf_stream(t),
            t == reps(tokens@),
            *i < tokens@.len(),
            i0 == *old(i) as int,
            env0 == old(vars)@,
            out0 == old(out)@,
            i0 < *i as int,
            vars.wf(),
            keys_preserved(env0, vars@),
            new_keys_from_stream(t, env0, vars@),
            out0.is_prefix_of(out@),
            no_for_from(t, i0) ==> e_multiplicative(t, i0, env0, out0) == e_multiplicative_rest(
                t,
                value,
                *i as int,
                vars@,
                out@,
            ),
            lone_for_from(t, i0) ==> f_multiplicative(t, i0, env0, out0) == f_multiplicative_rest(
                t,
                value,
                *i as int,
                vars@,
                out@,
            ),
        decreases tokens@.len() - *i,
    {
        let idx = *i;
        let op_mul = crate::parser::match_token(tokens, i, Token::Multiplication);
        let op_div = if op_mul {
            false
        } else {
            crate::parser::match_token(tokens, i, Token::Division)
        };
        if !op_mul && !op_div {
            return Ok(value);
        }
        proof {
            if op_mul {
                crate::parser::lemma_matched_not_last(t, idx as int, Token::Multiplication);
            } else {
                crate::parser::lemma_matched_not_last(t, idx as int, Token::Division);
            }
        }
        let ghost out_pre = out@;
        let next = match evaluate_unary(tokens, i, vars, out) {
            Ok(v) => v,
            Err(e) => {
                proof {
                    lemma_prefix_trans(out0, out_pre, out@);
                }
                return Err(e);
            },
        };
        proof {
            lemma_prefix_trans(out0, out_pre, out@);
        }
        if op_mul {
            value = value.wrapping_mul(next);
        } else {
            value = match value.checked_div(next) {
                Some(q) => q,
                None => {
                    return Err(Error::InvalidDivision(tokens[idx].clone()));
                },
            };
        }
    }
}

/// `unary := ('+' | '-')? primary`, negating with wrapping arithmetic.
fn evaluate_unary(tokens: &Vec<TokenInfo>, i: &mut usize, vars: &mut Env, out: &mut Vec<i64>) -> (r:
    Result<i64, Error>)
    requires
        wf_stream(reps(tokens@)),
        *old(i) < tokens@.len(),
        old(vars).wf(),
    ensures
        final(vars).wf(),
        keys_preserved(old(vars)@, final(vars)@),
        new_keys_from_stream(reps(tokens@), old(vars)@, final(vars)@),
        old(out)@.is_prefix_of(final(out)@),
        *old(i) <= *final(i) <= tokens@.len(),
        r is Ok ==> *old(i) < *final(i) < tokens@.len(),
        no_for_from(reps(tokens@), *old(i) as int) ==> match r {
            Ok(v) => e_unary(reps(tokens@), *old(i) as int, old(vars)@, old(out)@) == Ok::<
                EvalOut,
                EvalFail,
            >(EvalOut { value: v, cursor: *final(i) as int, env: final(vars)@, out: final(out)@ }),
            Err(e) => e_unary(reps(tokens@), *old(i) as int, old(vars)@, old(out)@) == Err::<
                EvalOut,
                EvalFail,
            >(EvalFail { err: e@, env: final(vars)@, out: final(out)@ }),
        },
        lone_for_from(reps(tokens@), *old(i) as int) ==> match r {
            Ok(v) => f_unary(reps(tokens@), *old(i) as int, old(vars)@, old(out)@) == Ok::<
                EvalOut,
                EvalFail,
            >(EvalOut { value: v, cursor: *final(i) as int, env: final(vars)@, out: final(out)@ }),
            Err(e) => f_unary(reps(tokens@), *old(i) as int, old(vars)@, old(out)@) == Err::<
                EvalOut,
                EvalFail,
            >(EvalFail { err: e@, env: final(vars)@, out: final(out)@ }),
        },
    decreases tokens@.len() - *i, 12int,
{
    let ghost t = reps(tokens@);
    let ghost i0 = *i as int;
    if crate::parser::match_token(tokens, i, Token::Addition) {
        proof {
            crate::parser::lemma_matched_not_last(t, i0, Token::Addition);
        }
        return evaluate_primary(tokens, i, vars, out);
    }
    if crate::parser::match_token(tokens, i, Token::Subtraction) {
        proof {
            crate::parser::lemma_matched_not_last(t, i0, Token::Subtraction);
        }
        let v = match evaluate_primary(tokens, i, vars, out) {
            Ok(v) => v,
            Err(e) => {
                return Err(e);
            },
        };
        return Ok(0i64.wrapping_sub(v));
    }
    evaluate_primary(tokens, i, vars, out)
}

/// `primary`: a literal, an identifier read or assignment, a console print,
/// a parenthesized expression, or a for-statement; anything else — including
/// the `while` statements and brace blocks only the validator knows — is a
/// generic syntax error.
#[verifier::rlimit(60)]
fn evaluate_primary(
    tokens: &Vec<TokenInfo>,
    i: &mut usize,
    vars: &mut Env,
    out: &mut Vec<i64>,
) -> (r: Result<i64, Error>)
    requires
        wf_stream(reps(tokens@)),
        *old(i) < tokens@.len(),
        old(vars).wf(),
    ensures
        final(vars).wf(),
        keys_preserved(old(vars)@, final(vars)@),
        new_keys_from_stream(reps(tokens@), old(vars)@, final(vars)@),
        old(out)@.is_prefix_of(final(out)@),
        *old(i) <= *final(i) <= tokens@.len(),
        r is Ok ==> *old(i) < *final(i) < tokens@.len(),
        no_for_from(reps(tokens@), *old(i) as int) ==> match r {
            Ok(v) => e_primary(reps(tokens@), *old(i) as int, old(vars)@, old(out)@) == Ok::<
                EvalOut,
                EvalFail,
            >(EvalOut { value: v, cursor: *final(i) as int, env: final(vars)@, out: final(out)@ }),
            Err(e) => e_primary(reps(tokens@), *old(i) as int, old(vars)@, old(out)@) == Err::<
                EvalOut,
                EvalFail,
            >(EvalFail { err: e@, env: final(vars)@, out: final(out)@ }),
        },
        lone_for_from(reps(tokens@), *old(i) as int) ==> match r {
            Ok(v) => f_primary(reps(tokens@), *old(i) as int, old(vars)@, old(out)@) == Ok::<
                EvalOut,
                EvalFail,
            >(EvalOut { value: v, cursor: *final(i) as int, env: final(vars)@, out: final(out)@ }),
            Err(e) => f_primary(reps(tokens@), *old(i) as int, old(vars)@, old(out)@) == Err::<
                EvalOut,
                EvalFail,
            >(EvalFail { err: e@, env: final(vars)@, out: final(out)@ }),
        },
    decreases tokens@.len() - *i, 10int,
{
    let ghost t = reps(tokens@);
    let ghost i0 = *i as int;
    let idx = *i;
    if crate::parser::match_token(tokens, i, Token::Int) {
        proof {
            crate::parser::lemma_matched_not_last(t, i0, Token::Int);
        }
        return Ok(parse_dec_lexeme(&tokens[idx].lexeme));
    }
    if crate::parser::match_token(tokens, i, Token::Hex) {
        proof {
            crate::parser::lemma_matched_not_last(t, i0, Token::Hex);
        }
        return Ok(parse_hex_lexeme(&tokens[idx].lexeme));
    }
    if crate::parser::match_token(tokens, i, Token::Identifier) {
        proof {
            crate::parser::lemma_matched_not_last(t, i0, Token::Identifier);
        }
        if crate::parser::match_token(tokens, i, Token::Assignment) {
            proof {
                crate::parser::lemma_matched_not_last(t, i0 + 1, Token::Assignment);
            }
            let v = match evaluate_bitwise(tokens, i, vars, out) {
                Ok(v) => v,
                Err(e) => {
                    return Err(e);
                },
            };
            vars.insert(crate::env::copy_bytes(&tokens[idx].lexeme), v);
            return Ok(v);
        }
        return match vars.get(&tokens[idx].lexeme) {
            Some(v) => Ok(v),
            None => Err(Error::UndefinedVariable(tokens[idx].clone())),
        };
    }
    if crate::parser::match_token(tokens, i, Token::Console) {
        proof {
            crate::parser::lemma_matched_not_last(t, i0, Token::Console);
        }
        let v = match evaluate_bitwise(tokens, i, vars, out) {
            Ok(v) => v,
            Err(e) => {
                return Err(e);
            },
        };
        let ghost out_pre = out@;
        out.push(v);
        proof {
            assert(out_pre.is_prefix_of(out@)) by {
                assert(out@.subrange(0, out_pre.len() as int) =~= out_pre);
            }
            lemma_prefix_trans(old(out)@, out_pre, out@);
        }
        return Ok(v);
    }
    if crate::parser::match_token(tokens, i, Token::LeftParantheses) {
        proof {
            crate::parser::lemma_matched_not_last(t, i0, Token::LeftParantheses);
        }
        let v = match evaluate_bitwise(tokens, i, vars, out) {
            Ok(v) => v,
            Err(e) => {
                return Err(e);
            },
        };
        let idx_rp = *i;
        if crate::parser::match_token(tokens, i, Token::RightParantheses) {
            proof {
                crate::parser::lemma_matched_not_last(t, idx_rp as int, Token::RightParantheses);
            }
            return Ok(v);
        }
        return Err(Error::MissingClosingParantheses(tokens[idx_rp].clone()));
    }
    if crate::parser::match_token(tokens, i, Token::For) {
        proof {
            crate::parser::lemma_matched_not_last(t, i0, Token::For);
        }
        return evaluate_for(tokens, i, vars, out);
    }
    Err(Error::Generic(
        tokens[idx].clone(),
        crate::parser::last_n_token_lexemes(tokens, idx),
    ))
}

/// A for-statement, after its `for` keyword has been consumed: evaluate the
/// start expression, bind it to the control variable, evaluate the end
/// bound, then run the body; after a pass ends at `end`, the loop stops when
/// incrementing the control variable would pass the end bound, and otherwise
/// increments it and rewinds the cursor to the first token of the body. As
/// everywhere in the evaluator, the fixed tokens of the header are consumed
/// without complaint when present — the validator has already enforced them.
/// The rule's own value is 0.
///
/// Whenever no further for-statement stands at or after the entry cursor —
/// in particular, for every loop that does not nest another — the cursor,
/// the environment and the output after the statement are exactly those of
/// [`e_for_exec`], on success and on failure alike.
#[verifier::rlimit(100)]
fn evaluate_for(tokens: &Vec<TokenInfo>, i: &mut usize, vars: &mut Env, out: &mut Vec<i64>) -> (r:
    Result<i64, Error>)
    requires
        wf_stream(reps(tokens@)),
        *old(i) < tokens@.len(),
        old(vars).wf(),
    ensures
        final(vars).wf(),
        keys_preserved(old(vars)@, final(vars)@),
        new_keys_from_stream(reps(tokens@), old(vars)@, final(vars)@),
        old(out)@.is_prefix_of(final(out)@),
        *old(i) <= *final(i) <= tokens@.len(),
        r is Ok ==> *final(i) < tokens@.len(),
        r is Ok ==> r->Ok_0 == 0,
        no_for_from(reps(tokens@), *old(i) as int) ==> match r {
            Ok(v) => e_for_exec(reps(tokens@), *old(i) as int, old(vars)@, old(out)@) == Ok::<
                EvalOut,
                EvalFail,
            >(EvalOut { value: v, cursor: *final(i) as int, env: final(vars)@, out: final(out)@ }),
            Err(e) => e_for_exec(reps(tokens@), *old(i) as int, old(vars)@, old(out)@) == Err::<
                EvalOut,
                EvalFail,
            >(EvalFail { err: e@, env: final(vars)@, out: final(out)@ }),
        },
    decreases tokens@.len() - *i, 25int,
{
    let ghost t = reps(tokens@);
    let ghost i0 = *i as int;
    let ghost env0 = old(vars)@;
    let ghost out0 = old(out)@;
    let ghost nf = no_for_from(t, i0);
    let ghost fexp = e_for_exec(t, i0, env0, out0);
    let idx_lp = *i;
    if crate::parser::match_token(tokens, i, Token::LeftParantheses) {
        proof {
            crate::parser::lemma_matched_not_last(t, idx_lp as int, Token::LeftParantheses);
        }
    }
    let idx_var = *i;
    if crate::parser::match_token(tokens, i, Token::Identifier) {
        proof {
            crate::parser::lemma_matched_not_last(t, idx_var as int, Token::Identifier);
        }
    }
    let var = crate::env::copy_bytes(&tokens[idx_var].lexeme);
    let idx_as = *i;
    if crate::parser::match_token(tokens, i, Token::Assignment) {
        proof {
            crate::parser::lemma_matched_not_last(t, idx_as as int, Token::Assignment);
        }
    }
    proof {
        // the spec's header cursors and variable name coincide with the
        // executable ones
        assert(idx_var as int == (if t[i0].token == Token::LeftParantheses {
            i0 + 1
        } else {
            i0
        }));
        assert(var@ == t[idx_var as int].lexeme);
    }
    let start_val = match evaluate_bitwise(tokens, i, vars, out) {
        Ok(v) => v,
        Err(e) => {
            proof {
                if nf {
                    assert(fexp == Err::<EvalOut, EvalFail>(
                        EvalFail { err: e@, env: vars@, out: out@ },
                    ));
                }
            }
            return Err(e);
        },
    };
    vars.insert(crate::env::copy_bytes(&var), start_val);
    proof {
        assert(vars@.contains_key(var@));
        assert forall|k: Seq<u8>| #[trigger] env0.contains_key(k) implies vars@.contains_key(
            k,
        ) by {}
    }
    let idx_to = *i;
    if crate::parser::match_token(tokens, i, Token::To) {
        proof {
            crate::parser::lemma_matched_not_last(t, idx_to as int, Token::To);
        }
    }
    let ghost out_mid = out@;
    let end_value = match evaluate_bitwise(tokens, i, vars, out) {
        Ok(v) => v,
        Err(e) => {
            proof {
                lemma_prefix_trans(out0, out_mid, out@);
                if nf {
                    assert(fexp == Err::<EvalOut, EvalFail>(
                        EvalFail { err: e@, env: vars@, out: out@ },
                    ));
                }
            }
            return Err(e);
        },
    };
    proof {
        lemma_prefix_trans(out0, out_mid, out@);
    }
    let idx_rp = *i;
    if crate::parser::match_token(tokens, i, Token::RightParantheses) {
        proof {
            crate::parser::lemma_matched_not_last(t, idx_rp as int, Token::RightParantheses);
        }
    }
    let idx_bg = *i;
    if crate::parser::match_token(tokens, i, Token::Begin) {
        proof {
            crate::parser::lemma_matched_not_last(t, idx_bg as int, Token::Begin);
        }
    }
    let i_body = *i;
    let mut control = match vars.get(&var) {
        Some(v) => v,
        None => {
            // the control variable was bound above and no rule drops a
            // binding, so this lookup cannot miss
            proof {
                assert(false);
            }
            return Err(Error::UndefinedVariable(tokens[idx_var].clone()));
        },
    };
    proof {
        if nf {
            assert(fexp == e_for_passes(
                t,
                i_body as int,
                var@,
                control,
                end_value,
                i_body as int,
                vars@,
                out@,
            ));
        }
    }
    while control <= end_value
        invariant_except_break
            wf_stream(t),
            t == reps(tokens@),
            *i < tokens@.len(),
            i0 == *old(i) as int,
            env0 == old(vars)@,
            out0 == old(out)@,
            nf == no_for_from(t, i0),
            fexp == e_for_exec(t, i0, env0, out0),
            i0 <= i_body <= *i,
            i_body < tokens@.len(),
            idx_var < tokens@.len(),
            var@ == t[idx_var as int].lexeme,
            vars.wf(),
            keys_preserved(env0, vars@),
            new_keys_from_stream(t, env0, vars@),
            out0.is_prefix_of(out@),
            nf ==> fexp == e_for_passes(
                t,
                i_body as int,
                var@,
                control,
                end_value,
                *i as int,
                vars@,
                out@,
            ),
        ensures
            t == reps(tokens@),
            *i < tokens@.len(),
            i0 == *old(i) as int,
            env0 == old(vars)@,
            out0 == old(out)@,
            nf == no_for_from(t, i0),
            fexp == e_for_exec(t, i0, env0, out0),
            i0 <= *i as int,
            idx_var < tokens@.len(),
            var@ == t[idx_var as int].lexeme,
            vars.wf(),
            keys_preserved(env0, vars@),
            new_keys_from_stream(t, env0, vars@),
            out0.is_prefix_of(out@),
            nf ==> fexp == Ok::<EvalOut, EvalFail>(
                EvalOut { value: 0, cursor: *i as int, env: vars@, out: out@ },
            ),
        decreases end_value - control, tokens@.len() - *i,
    {
        let idx_top = *i;
        if crate::parser::match_token(tokens, i, Token::End) {
            // a full pass over the body has ended
            proof {
                crate::parser::lemma_matched_not_last(t, idx_top as int, Token::End);
            }
            if control >= end_value {
                break ;
            }
            *i = i_body;
            control = control + 1;
            vars.insert(crate::env::copy_bytes(&var), control);
            proof {
                assert forall|k: Seq<u8>| #[trigger] env0.contains_key(k) implies vars@.contains_key(
                    k,
                ) by {}
                assert(t[idx_var as int].lexeme == var@);
            }
        } else {
            let ghost out_it = out@;
            match evaluate_bitwise(tokens, i, vars, out) {
                Ok(_) => {},
                Err(e) => {
                    proof {
                        lemma_prefix_trans(out0, out_it, out@);
                        if nf {
                            assert(fexp == Err::<EvalOut, EvalFail>(
                                EvalFail { err: e@, env: vars@, out: out@ },
                            ));
                        }
                    }
                    return Err(e);
                },
            }
            proof {
                lemma_prefix_trans(out0, out_it, out@);
            }
            let idx_e = *i;
            if crate::parser::match_token(tokens, i, Token::End) {
                proof {
                    crate::parser::lemma_matched_not_last(t, idx_e as int, Token::End);
                }
                if control >= end_value {
                    break ;
                }
                *i = i_body;
                control = control + 1;
                vars.insert(crate::env::copy_bytes(&var), control);
                proof {
                    assert forall|k: Seq<u8>| #[trigger] env0.contains_key(
                        k,
                    ) implies vars@.contains_key(k) by {}
                    assert(t[idx_var as int].lexeme == var@);
                }
            } else {
                match end_of_statement(tokens, i) {
                    Ok(()) => {},
                    Err(e) => {
                        proof {
                            if nf {
                                assert(fexp == Err::<EvalOut, EvalFail>(
                                    EvalFail { err: e@, env: vars@, out: out@ },
                                ));
                            }
                        }
                        return Err(e);
                    },
                }
            }
        }
    }
    Ok(0)
}

/// Evaluates a whole token sequence: the wrapping sum of the values of its
/// semicolon-terminated statements, mutating `variables` in place and
/// appending every `CONSOLE` value to `output`. On every for-free sequence
/// the result, the final environment and the final output are exactly those
/// of [`spec_evaluate`], and on every sequence with at most one
/// for-statement exactly those of [`f_statements`]; on any sequence, bound
/// variables are never dropped and output is only appended to.
#[verifier::rlimit(100)]
#[verifier::spinoff_prover]
pub fn parse(tokens: &Vec<TokenInfo>, variables: &mut Env, output: &mut Vec<i64>) -> (r: Result<
    i64,
    Error,
>)
    requires
        wf_stream(reps(tokens@)),
        old(variables).wf(),
    ensures
        final(variables).wf(),
        keys_preserved(old(variables)@, final(variables)@),
        new_keys_from_stream(reps(tokens@), old(variables)@, final(variables)@),
        old(output)@.is_prefix_of(final(output)@),
        no_for(reps(tokens@)) ==> match r {
            Ok(v) => match spec_evaluate(reps(tokens@), old(variables)@, old(output)@) {
                Ok(o) => o.value == v && o.env == final(variables)@ && o.out == final(output)@,
                Err(_) => false,
            },
            Err(e) => match spec_evaluate(reps(tokens@), old(variables)@, old(output)@) {
                Ok(_) => false,
                Err(f) => f.err == e@ && f.env == final(variables)@ && f.out == final(output)@,
            },
        },
        lone_for_from(reps(tokens@), 0) ==> match r {
            Ok(v) => match f_statements(reps(tokens@), 0, old(variables)@, old(output)@, 0) {
                Ok(o) => o.value == v && o.env == final(variables)@ && o.out == final(output)@,
                Err(_) => false,
            },
            Err(e) => match f_statements(reps(tokens@), 0, old(variables)@, old(output)@, 0) {
                Ok(_) => false,
                Err(f) => f.err == e@ && f.env == final(variables)@ && f.out == final(output)@,
            },
        },
{
    let ghost t = reps(tokens@);
    let ghost env0 = old(variables)@;
    let ghost out0 = old(output)@;
    let mut i: usize = 0;
    let mut result: i64 = 0;
    loop
        invariant
            wf_stream(t),
            t == reps(tokens@),
            i < tokens@.len(),
            env0 == old(variables)@,
            out0 == old(output)@,
            variables.wf(),
            keys_preserved(env0, variables@),
            new_keys_from_stream(t, env0, variables@),
            out0.is_prefix_of(output@),
            no_for(t) ==> e_statements(t, 0, env0, out0, 0) == e_statements(
                t,
                i as int,
                variables@,
                output@,
                result,
            ),
            lone_for_from(t, 0) ==> f_statements(t, 0, env0, out0, 0) == f_statements(
                t,
                i as int,
                variables@,
                output@,
                result,
            ),
        decreases tokens@.len() - i,
    {
        if crate::parser::match_token(tokens, &mut i, Token::EOF) {
            return Ok(result);
        }
        let ghost out_it = output@;
        let v = match evaluate_bitwise(tokens, &mut i, variables, output) {
            Ok(v) => v,
            Err(e) => {
                proof {
                    lemma_prefix_trans(out0, out_it, output@);
                }
                return Err(e);
            },
        };
        proof {
            lemma_prefix_trans(out0, out_it, output@);
        }
        result = result.wrapping_add(v);
        let idx = i;
        if crate::parser::match_token(tokens, &mut i, Token::Semicolon) {
            proof {
                crate::parser::lemma_matched_not_last(t, idx as int, Token::Semicolon);
            }
        } else {
            let prev = tokens[idx - 1].token;
            if tokens[idx].token == Token::EOF && (prev == Token::End || prev
                == Token::RightBraces) {
                return Ok(result);
            }
            return Err(Error::MissingSemicolon(tokens[idx].clone()));
        }
    }
}

} // verus!
