//! Grammar validator: a pure recognizer for the statement grammar, run over
//! the token sequence before the evaluator is allowed to produce side
//! effects. It retains no structure and stops at the first violation.
//!
//! The grammar, lowest precedence first:
//!
//! ```text
//! statements     := (bitwise ';')* EOF
//!                   -- the final ';' may be omitted when its statement ends
//!                   -- in 'end' or '}'
//! bitwise        := additive (('&' | '|') additive)*
//! additive       := multiplicative (('+' | '-') multiplicative)*
//! multiplicative := comparison (('*' | '/') comparison)*
//! comparison     := unary (('>' | '<' | '==') unary)*
//! unary          := ('+' | '-')? primary
//! primary        := Int | Hex | Identifier (':=' bitwise)? | '(' bitwise ')'
//!                 | 'for' '(' Identifier ':=' bitwise 'to' bitwise ')'
//!                       'begin' (bitwise (';' | 'end'))* 'end'?
//!                 | 'while' bitwise '{' bitwise* '}'
//!                 | '{' bitwise* '}'
//!                 | 'CONSOLE' bitwise
//! ```
//!
//! Each grammar rule has a spec function (`v_*`) giving its exact outcome —
//! the cursor after the rule, or the first error — and each executable rule
//! is proved to return that outcome.

use vstd::prelude::*;

use crate::tokenizer::{reps, wf_stream, Token, TokenInfo, TokenRep};

verus! {

broadcast use crate::tokenizer::lemma_reps_index;

/// Syntax errors, each carrying the offending token; `Generic` and
/// `InvalidAssignment` also carry the most recently consumed lexemes as
/// diagnostic context.
#[derive(Debug)]
pub enum Error {
    Generic(TokenInfo, Vec<Vec<u8>>),
    InvalidFor(TokenInfo),
    InvalidAssignment(TokenInfo, Vec<Vec<u8>>),
    MissingClosingBrackets(TokenInfo),
    MissingClosingParantheses(TokenInfo),
    ExpectedStartingBrackets(TokenInfo),
    ExpectedStartingParantheses(TokenInfo),
    MissingSemicolon(TokenInfo),
}

/// The mathematical image of an [`Error`].
pub ghost enum ErrorRep {
    Generic(TokenRep, Seq<Seq<u8>>),
    InvalidFor(TokenRep),
    InvalidAssignment(TokenRep, Seq<Seq<u8>>),
    MissingClosingBrackets(TokenRep),
    MissingClosingParantheses(TokenRep),
    ExpectedStartingBrackets(TokenRep),
    ExpectedStartingParantheses(TokenRep),
    MissingSemicolon(TokenRep),
}

/// The lexeme sequence a `Vec<Vec<u8>>` of context lexemes stands for.
pub open spec fn ctx_view(c: Seq<Vec<u8>>) -> Seq<Seq<u8>> {
    c.map_values(|v: Vec<u8>| v@)
}

impl View for Error {
    type V = ErrorRep;

    open spec fn view(&self) -> ErrorRep {
        match self {
            Error::Generic(t, c) => ErrorRep::Generic(t@, ctx_view(c@)),
            Error::InvalidFor(t) => ErrorRep::InvalidFor(t@),
            Error::InvalidAssignment(t, c) => ErrorRep::InvalidAssignment(t@, ctx_view(c@)),
            Error::MissingClosingBrackets(t) => ErrorRep::MissingClosingBrackets(t@),
            Error::MissingClosingParantheses(t) => ErrorRep::MissingClosingParantheses(t@),
            Error::ExpectedStartingBrackets(t) => ErrorRep::ExpectedStartingBrackets(t@),
            Error::ExpectedStartingParantheses(t) => ErrorRep::ExpectedStartingParantheses(t@),
            Error::MissingSemicolon(t) => ErrorRep::MissingSemicolon(t@),
        }
    }
}

/// The up-to-three most recently consumed lexemes before cursor `i`, oldest
/// first: the diagnostic context attached to generic mismatches.
pub open spec fn spec_context(t: Seq<TokenRep>, i: int) -> Seq<Seq<u8>> {
    let lo = if i >= 3 {
        i - 3
    } else {
        0
    };
    t.subrange(lo, i).map_values(|r: TokenRep| r.lexeme)
}

/// Collects the up-to-three most recently consumed lexemes, oldest first.
pub(crate) fn last_n_token_lexemes(tokens: &Vec<TokenInfo>, i: usize) -> (r: Vec<Vec<u8>>)
    requires
        i <= tokens@.len(),
    ensures
        ctx_view(r@) == spec_context(reps(tokens@), i as int),
{
    let lo = if i >= 3 {
        i - 3
    } else {
        0
    };
    let mut r: Vec<Vec<u8>> = Vec::new();
    let mut k = lo;
    while k < i
        invariant
            lo <= k <= i <= tokens@.len(),
            lo == if i >= 3 {
                i - 3
            } else {
                0
            },
            r@.len() == k - lo,
            forall|m: int| 0 <= m < r@.len() ==> (#[trigger] r@[m])@ == tokens@[lo + m].lexeme@,
        decreases i - k,
    {
        r.push(crate::env::copy_bytes(&tokens[k].lexeme));
        k = k + 1;
    }
    proof {
        assert(ctx_view(r@) =~= spec_context(reps(tokens@), i as int));
    }
    r
}

/// Tests the token at `*i` against `expected`; on a match the cursor moves
/// one token on.
pub(crate) fn match_token(tokens: &Vec<TokenInfo>, i: &mut usize, expected: Token) -> (r: bool)
    requires
        *old(i) < tokens@.len(),
    ensures
        r == (reps(tokens@)[*old(i) as int].token == expected),
        r ==> *final(i) == *old(i) + 1,
        !r ==> *final(i) == *old(i),
{
    let n = tokens.len();
    if *i < n && tokens[*i].token == expected {
        *i = *i + 1;
        true
    } else {
        false
    }
}

/// A matched token is never `EOF` unless it sits at the very end, so after
/// matching anything else the cursor still points at a real token.
pub(crate) proof fn lemma_matched_not_last(t: Seq<TokenRep>, k: int, expected: Token)
    requires
        wf_stream(t),
        0 <= k < t.len(),
        t[k].token == expected,
        expected != Token::EOF,
    ensures
        k < t.len() - 1,
{
}

// The `v_*` spec functions give each grammar rule its meaning: from a token
// sequence and a cursor to either the cursor after the rule or the first
// error. Recursion is justified lexicographically by the number of tokens
// left and the rule's height in the grammar; the `arbitrary()` branches are
// unreachable because a rule never moves its cursor backwards or past the
// end, as the executable rules prove.
/// `statements := (bitwise ';')* EOF`; only a statement that ends in `end`
/// or `'}'` may stand last without its closing semicolon.
pub open spec fn v_statements(t: Seq<TokenRep>, i: int) -> Result<int, ErrorRep>
    decreases t.len() - i, 30int,
{
    if i < t.len() && t[i].token == Token::EOF {
        Ok(i + 1)
    } else {
        match v_bitwise(t, i) {
            Err(e) => Err(e),
            Ok(j) => {
                if j < t.len() && t[j].token == Token::Semicolon {
                    if i <= j {
                        v_statements(t, j + 1)
                    } else {
                        arbitrary()
                    }
                } else if j < t.len() && t[j].token == Token::EOF && i < j && (t[j - 1].token
                    == Token::End || t[j - 1].token == Token::RightBraces) {
                    Ok(j + 1)
                } else {
                    Err(ErrorRep::MissingSemicolon(t[j]))
                }
            },
        }
    }
}

/// `bitwise := additive (('&' | '|') additive)*`
pub open spec fn v_bitwise(t: Seq<TokenRep>, i: int) -> Result<int, ErrorRep>
    decreases t.len() - i, 20int,
{
    match v_additive(t, i) {
        Err(e) => Err(e),
        Ok(j) => {
            if i < j && j <= t.len() {
                v_bitwise_rest(t, j)
            } else {
                arbitrary()
            }
        },
    }
}

pub open spec fn v_bitwise_rest(t: Seq<TokenRep>, i: int) -> Result<int, ErrorRep>
    decreases t.len() - i, 19int,
{
    if i < t.len() && (t[i].token == Token::BWAnd || t[i].token == Token::BWOr) {
        match v_additive(t, i + 1) {
            Err(e) => Err(e),
            Ok(j) => {
                if i < j && j <= t.len() {
                    v_bitwise_rest(t, j)
                } else {
                    arbitrary()
                }
            },
        }
    } else {
        Ok(i)
    }
}

/// `additive := multiplicative (('+' | '-') multiplicative)*`
pub open spec fn v_additive(t: Seq<TokenRep>, i: int) -> Result<int, ErrorRep>
    decreases t.len() - i, 18int,
{
    match v_multiplicative(t, i) {
        Err(e) => Err(e),
        Ok(j) => {
            if i < j && j <= t.len() {
                v_additive_rest(t, j)
            } else {
                arbitrary()
            }
        },
    }
}

pub open spec fn v_additive_rest(t: Seq<TokenRep>, i: int) -> Result<int, ErrorRep>
    decreases t.len() - i, 17int,
{
    if i < t.len() && (t[i].token == Token::Addition || t[i].token == Token::Subtraction) {
        match v_multiplicative(t, i + 1) {
            Err(e) => Err(e),
            Ok(j) => {
                if i < j && j <= t.len() {
                    v_additive_rest(t, j)
                } else {
                    arbitrary()
                }
            },
        }
    } else {
        Ok(i)
    }
}

/// `multiplicative := comparison (('*' | '/') comparison)*`
pub open spec fn v_multiplicative(t: Seq<TokenRep>, i: int) -> Result<int, ErrorRep>
    decreases t.len() - i, 16int,
{
    match v_comparison(t, i) {
        Err(e) => Err(e),
        Ok(j) => {
            if i < j && j <= t.len() {
                v_multiplicative_rest(t, j)
            } else {
                arbitrary()
            }
        },
    }
}

pub open spec fn v_multiplicative_rest(t: Seq<TokenRep>, i: int) -> Result<int, ErrorRep>
    decreases t.len() - i, 15int,
{
    if i < t.len() && (t[i].token == Token::Multiplication || t[i].token == Token::Division) {
        match v_comparison(t, i + 1) {
            Err(e) => Err(e),
            Ok(j) => {
                if i < j && j <= t.len() {
                    v_multiplicative_rest(t, j)
                } else {
                    arbitrary()
                }
            },
        }
    } else {
        Ok(i)
    }
}

/// `comparison := unary (('>' | '<' | '==') unary)*`
pub open spec fn v_comparison(t: Seq<TokenRep>, i: int) -> Result<int, ErrorRep>
    decreases t.len() - i, 14int,
{
    match v_unary(t, i) {
        Err(e) => Err(e),
        Ok(j) => {
            if i < j && j <= t.len() {
                v_comparison_rest(t, j)
            } else {
                arbitrary()
            }
        },
    }
}

pub open spec fn v_comparison_rest(t: Seq<TokenRep>, i: int) -> Result<int, ErrorRep>
    decreases t.len() - i, 13int,
{
    if i < t.len() && (t[i].token == Token::GreaterThan || t[i].token == Token::LowerThan || t[
        i].token == Token::Comparison) {
        match v_unary(t, i + 1) {
            Err(e) => Err(e),
            Ok(j) => {
                if i < j && j <= t.len() {
                    v_comparison_rest(t, j)
                } else {
                    arbitrary()
                }
            },
        }
    } else {
        Ok(i)
    }
}

/// `unary := ('+' | '-')? primary`
pub open spec fn v_unary(t: Seq<TokenRep>, i: int) -> Result<int, ErrorRep>
    decreases t.len() - i, 12int,
{
    if i < t.len() && (t[i].token == Token::Addition || t[i].token == Token::Subtraction) {
        v_primary(t, i + 1)
    } else {
        v_primary(t, i)
    }
}

/// `Identifier ':=' bitwise`, as demanded at the head of a for-statement.
pub open spec fn v_assignment(t: Seq<TokenRep>, i: int) -> Result<int, ErrorRep>
    decreases t.len() - i, 11int,
{
    if !(i < t.len() && t[i].token == Token::Identifier) {
        Err(ErrorRep::InvalidAssignment(t[i], spec_context(t, i)))
    } else if !(i + 1 < t.len() && t[i + 1].token == Token::Assignment) {
        Err(ErrorRep::InvalidAssignment(t[i + 1], spec_context(t, i + 1)))
    } else {
        v_bitwise(t, i + 2)
    }
}

/// The body of a for-statement after `begin`: `(bitwise (';' | 'end'))*`,
/// closed by `end`.
pub open spec fn v_for_body(t: Seq<TokenRep>, i: int) -> Result<int, ErrorRep>
    decreases t.len() - i, 28int,
{
    if i < t.len() && t[i].token == Token::End {
        Ok(i + 1)
    } else {
        match v_bitwise(t, i) {
            Err(e) => Err(e),
            Ok(j) => {
                if j < t.len() && t[j].token == Token::End {
                    Ok(j + 1)
                } else if j < t.len() && t[j].token == Token::Semicolon {
                    if i < j {
                        v_for_body(t, j + 1)
                    } else {
                        arbitrary()
                    }
                } else {
                    Err(ErrorRep::MissingSemicolon(t[j]))
                }
            },
        }
    }
}

/// The body of a while-statement or a brace block: `bitwise*`, closed by
/// `'}'`; an `EOF` inside is a missing closing brace.
pub open spec fn v_block_body(t: Seq<TokenRep>, i: int) -> Result<int, ErrorRep>
    decreases t.len() - i, 24int,
{
    if i < t.len() && t[i].token == Token::RightBraces {
        Ok(i + 1)
    } else if i < t.len() && t[i].token == Token::EOF {
        Err(ErrorRep::MissingClosingBrackets(t[i]))
    } else {
        match v_bitwise(t, i) {
            Err(e) => Err(e),
            Ok(j) => {
                if i < j && j <= t.len() {
                    v_block_body(t, j)
                } else {
                    arbitrary()
                }
            },
        }
    }
}

/// `primary`: a literal, an identifier or assignment, a parenthesized
/// expression, a for- or while-statement, a brace block, or a console print.
pub open spec fn v_primary(t: Seq<TokenRep>, i: int) -> Result<int, ErrorRep>
    decreases t.len() - i, 10int,
{
    if i >= t.len() {
        arbitrary()
    } else if t[i].token == Token::Int || t[i].token == Token::Hex {
        Ok(i + 1)
    } else if t[i].token == Token::Identifier {
        if i + 1 < t.len() && t[i + 1].token == Token::Assignment {
            v_bitwise(t, i + 2)
        } else {
            Ok(i + 1)
        }
    } else if t[i].token == Token::LeftParantheses {
        match v_bitwise(t, i + 1) {
            Err(e) => Err(e),
            Ok(j) => {
                if j < t.len() && t[j].token == Token::RightParantheses {
                    Ok(j + 1)
                } else {
                    Err(ErrorRep::MissingClosingParantheses(t[j]))
                }
            },
        }
    } else if t[i].token == Token::For {
        if i + 1 < t.len() && t[i + 1].token == Token::LeftParantheses {
            match v_assignment(t, i + 2) {
                Err(e) => Err(e),
                Ok(j) => {
                    if j < t.len() && t[j].token == Token::To && i <= j {
                        match v_bitwise(t, j + 1) {
                            Err(e) => Err(e),
                            Ok(k) => {
                                if k < t.len() && t[k].token == Token::RightParantheses {
                                    if k + 1 < t.len() && t[k + 1].token == Token::Begin {
                                        if i < k + 2 {
                                            v_for_body(t, k + 2)
                                        } else {
                                            arbitrary()
                                        }
                                    } else {
                                        Err(ErrorRep::MissingClosingParantheses(t[k + 1]))
                                    }
                                } else {
                                    Err(ErrorRep::MissingClosingParantheses(t[k]))
                                }
                            },
                        }
                    } else {
                        Err(ErrorRep::InvalidFor(t[j]))
                    }
                },
            }
        } else {
            Err(ErrorRep::ExpectedStartingParantheses(t[i + 1]))
        }
    } else if t[i].token == Token::While {
        match v_bitwise(t, i + 1) {
            Err(e) => Err(e),
            Ok(j) => {
                if j < t.len() && t[j].token == Token::LeftBraces {
                    if i < j + 1 {
                        v_block_body(t, j + 1)
                    } else {
                        arbitrary()
                    }
                } else {
                    Err(ErrorRep::ExpectedStartingBrackets(t[j]))
                }
            },
        }
    } else if t[i].token == Token::LeftBraces {
        v_block_body(t, i + 1)
    } else if t[i].token == Token::Console {
        v_bitwise(t, i + 1)
    } else {
        Err(ErrorRep::Generic(t[i], spec_context(t, i)))
    }
}

/// The outcome of validating a whole token sequence.
pub open spec fn spec_validate(t: Seq<TokenRep>) -> Result<int, ErrorRep> {
    v_statements(t, 0)
}

/// `';'` closing a statement; anything else is a missing semicolon.
fn end_of_statement(tokens: &Vec<TokenInfo>, i: &mut usize) -> (r: Result<(), Error>)
    requires
        wf_stream(reps(tokens@)),
        *old(i) < tokens@.len(),
    ensures
        match r {
            Ok(()) => reps(tokens@)[*old(i) as int].token == Token::Semicolon && *final(i) == *old(
                i,
            ) + 1 && *final(i) < tokens@.len(),
            Err(e) => reps(tokens@)[*old(i) as int].token != Token::Semicolon && e@
                == ErrorRep::MissingSemicolon(reps(tokens@)[*old(i) as int]) && *final(i) == *old(
                i,
            ),
        },
{
    let idx = *i;
    if match_token(tokens, i, Token::Semicolon) {
        proof {
            lemma_matched_not_last(reps(tokens@), idx as int, Token::Semicolon);
        }
        Ok(())
    } else {
        Err(Error::MissingSemicolon(tokens[idx].clone()))
    }
}

/// `bitwise := additive (('&' | '|') additive)*`
fn bitwise(tokens: &Vec<TokenInfo>, i: &mut usize) -> (r: Result<(), Error>)
    requires
        wf_stream(reps(tokens@)),
        *old(i) < tokens@.len(),
    ensures
        match r {
            Ok(()) => v_bitwise(reps(tokens@), *old(i) as int) == Ok::<int, ErrorRep>(
                *final(i) as int,
            ) && *old(i) < *final(i) < tokens@.len(),
            Err(e) => v_bitwise(reps(tokens@), *old(i) as int) == Err::<int, ErrorRep>(e@),
        },
    decreases tokens@.len() - *i, 20int,
{
    let ghost t = reps(tokens@);
    let ghost i0 = *i as int;
    match addition(tokens, i) {
        Err(e) => {
            return Err(e);
        },
        Ok(()) => {},
    }
    loop
        invariant
            wf_stream(t),
            t == reps(tokens@),
            *i < tokens@.len(),
            i0 == *old(i) as int,
            i0 < *i as int,
            v_bitwise(t, i0) == v_bitwise_rest(t, *i as int),
        decreases tokens@.len() - *i,
    {
        let idx = *i;
        let op_and = match_token(tokens, i, Token::BWAnd);
        let op_or = if op_and {
            false
        } else {
            match_token(tokens, i, Token::BWOr)
        };
        if !op_and && !op_or {
            return Ok(());
        }
        proof {
            if op_and {
                lemma_matched_not_last(t, idx as int, Token::BWAnd);
            } else {
                lemma_matched_not_last(t, idx as int, Token::BWOr);
            }
        }
        match addition(tokens, i) {
            Err(e) => {
                return Err(e);
            },
            Ok(()) => {},
        }
    }
}

/// `additive := multiplicative (('+' | '-') multiplicative)*`
fn addition(tokens: &Vec<TokenInfo>, i: &mut usize) -> (r: Result<(), Error>)
    requires
        wf_stream(reps(tokens@)),
        *old(i) < tokens@.len(),
    ensures
        match r {
            Ok(()) => v_additive(reps(tokens@), *old(i) as int) == Ok::<int, ErrorRep>(
                *final(i) as int,
            ) && *old(i) < *final(i) < tokens@.len(),
            Err(e) => v_additive(reps(tokens@), *old(i) as int) == Err::<int, ErrorRep>(e@),
        },
    decreases tokens@.len() - *i, 18int,
{
    let ghost t = reps(tokens@);
    let ghost i0 = *i as int;
    match multiplication(tokens, i) {
        Err(e) => {
            return Err(e);
        },
        Ok(()) => {},
    }
    loop
        invariant
            wf_stream(t),
            t == reps(tokens@),
            *i < tokens@.len(),
            i0 == *old(i) as int,
            i0 < *i as int,
            v_additive(t, i0) == v_additive_rest(t, *i as int),
        decreases tokens@.len() - *i,
    {
        let idx = *i;
        let op_add = match_token(tokens, i, Token::Addition);
        let op_sub = if op_add {
            false
        } else {
            match_token(tokens, i, Token::Subtraction)
        };
        if !op_add && !op_sub {
            return Ok(());
        }
        proof {
            if op_add {
                lemma_matched_not_last(t, idx as int, Token::Addition);
            } else {
                lemma_matched_not_last(t, idx as int, Token::Subtraction);
            }
        }
        match multiplication(tokens, i) {
            Err(e) => {
                return Err(e);
            },
            Ok(()) => {},
        }
    }
}

/// `multiplicative := comparison (('*' | '/') comparison)*`
fn multiplication(tokens: &Vec<TokenInfo>, i: &mut usize) -> (r: Result<(), Error>)
    requires
        wf_stream(reps(tokens@)),
        *old(i) < tokens@.len(),
    ensures
        match r {
            Ok(()) => v_multiplicative(reps(tokens@), *old(i) as int) == Ok::<int, ErrorRep>(
                *final(i) as int,
            ) && *old(i) < *final(i) < tokens@.len(),
            Err(e) => v_multiplicative(reps(tokens@), *old(i) as int) == Err::<int, ErrorRep>(e@),
        },
    decreases tokens@.len() - *i, 16int,
{
    let ghost t = reps(tokens@);
    let ghost i0 = *i as int;
    match comparison_operators(tokens, i) {
        Err(e) => {
            return Err(e);
        },
        Ok(()) => {},
    }
    loop
        invariant
            wf_stream(t),
            t == reps(tokens@),
            *i < tokens@.len(),
            i0 == *old(i) as int,
            i0 < *i as int,
            v_multiplicative(t, i0) == v_multiplicative_rest(t, *i as int),
        decreases tokens@.len() - *i,
    {
        let idx = *i;
        let op_mul = match_token(tokens, i, Token::Multiplication);
        let op_div = if op_mul {
            false
        } else {
            match_token(tokens, i, Token::Division)
        };
        if !op_mul && !op_div {
            return Ok(());
        }
        proof {
            if op_mul {
                lemma_matched_not_last(t, idx as int, Token::Multiplication);
            } else {
                lemma_matched_not_last(t, idx as int, Token::Division);
            }
        }
        match comparison_operators(tokens, i) {
            Err(e) => {
                return Err(e);
            },
            Ok(()) => {},
        }
    }
}

/// `comparison := unary (('>' | '<' | '==') unary)*`
fn comparison_operators(tokens: &Vec<TokenInfo>, i: &mut usize) -> (r: Result<(), Error>)
    requires
        wf_stream(reps(tokens@)),
        *old(i) < tokens@.len(),
    ensures
        match r {
            Ok(()) => v_comparison(reps(tokens@), *old(i) as int) == Ok::<int, ErrorRep>(
                *final(i) as int,
            ) && *old(i) < *final(i) < tokens@.len(),
            Err(e) => v_comparison(reps(tokens@), *old(i) as int) == Err::<int, ErrorRep>(e@),
        },
    decreases tokens@.len() - *i, 14int,
{
    let ghost t = reps(tokens@);
    let ghost i0 = *i as int;
    match unary(tokens, i) {
        Err(e) => {
            return Err(e);
        },
        Ok(()) => {},
    }
    loop
        invariant
            wf_stream(t),
            t == reps(tokens@),
            *i < tokens@.len(),
            i0 == *old(i) as int,
            i0 < *i as int,
            v_comparison(t, i0) == v_comparison_rest(t, *i as int),
        decreases tokens@.len() - *i,
    {
        let idx = *i;
        let op_gt = match_token(tokens, i, Token::GreaterThan);
        let op_lt = if op_gt {
            false
        } else {
            match_token(tokens, i, Token::LowerThan)
        };
        let op_eq = if op_gt || op_lt {
            false
        } else {
            match_token(tokens, i, Token::Comparison)
        };
        if !op_gt && !op_lt && !op_eq {
            return Ok(());
        }
        proof {
            if op_gt {
                lemma_matched_not_last(t, idx as int, Token::GreaterThan);
            } else if op_lt {
                lemma_matched_not_last(t, idx as int, Token::LowerThan);
            } else {
                lemma_matched_not_last(t, idx as int, Token::Comparison);
            }
        }
        match unary(tokens, i) {
            Err(e) => {
                return Err(e);
            },
            Ok(()) => {},
        }
    }
}

/// `unary := ('+' | '-')? primary`
fn unary(tokens: &Vec<TokenInfo>, i: &mut usize) -> (r: Result<(), Error>)
    requires
        wf_stream(reps(tokens@)),
        *old(i) < tokens@.len(),
    ensures
        match r {
            Ok(()) => v_unary(reps(tokens@), *old(i) as int) == Ok::<int, ErrorRep>(
                *final(i) as int,
            ) && *old(i) < *final(i) < tokens@.len(),
            Err(e) => v_unary(reps(tokens@), *old(i) as int) == Err::<int, ErrorRep>(e@),
        },
    decreases tokens@.len() - *i, 12int,
{
    let ghost t = reps(tokens@);
    let idx = *i;
    let sign_add = match_token(tokens, i, Token::Addition);
    let sign_sub = if sign_add {
        false
    } else {
        match_token(tokens, i, Token::Subtraction)
    };
    if sign_add || sign_sub {
        proof {
            if sign_add {
                lemma_matched_not_last(t, idx as int, Token::Addition);
            } else {
                lemma_matched_not_last(t, idx as int, Token::Subtraction);
            }
        }
        primary(tokens, i)
    } else {
        primary(tokens, i)
    }
}

/// `Identifier ':=' bitwise`, as demanded at the head of a for-statement.
fn assignment(tokens: &Vec<TokenInfo>, i: &mut usize) -> (r: Result<(), Error>)
    requires
        wf_stream(reps(tokens@)),
        *old(i) < tokens@.len(),
    ensures
        match r {
            Ok(()) => v_assignment(reps(tokens@), *old(i) as int) == Ok::<int, ErrorRep>(
                *final(i) as int,
            ) && *old(i) < *final(i) < tokens@.len(),
            Err(e) => v_assignment(reps(tokens@), *old(i) as int) == Err::<int, ErrorRep>(e@),
        },
    decreases tokens@.len() - *i, 11int,
{
    let ghost t = reps(tokens@);
    let ghost i0 = *i as int;
    if match_token(tokens, i, Token::Identifier) {
        proof {
            lemma_matched_not_last(t, i0, Token::Identifier);
        }
        if match_token(tokens, i, Token::Assignment) {
            proof {
                lemma_matched_not_last(t, i0 + 1, Token::Assignment);
            }
            return bitwise(tokens, i);
        }
    }
    Err(Error::InvalidAssignment(tokens[*i].clone(), last_n_token_lexemes(tokens, *i)))
}

/// The body of a for-statement after `begin`.
fn for_body(tokens: &Vec<TokenInfo>, i: &mut usize) -> (r: Result<(), Error>)
    requires
        wf_stream(reps(tokens@)),
        *old(i) < tokens@.len(),
    ensures
        match r {
            Ok(()) => v_for_body(reps(tokens@), *old(i) as int) == Ok::<int, ErrorRep>(
                *final(i) as int,
            ) && *old(i) < *final(i) < tokens@.len(),
            Err(e) => v_for_body(reps(tokens@), *old(i) as int) == Err::<int, ErrorRep>(e@),
        },
    decreases tokens@.len() - *i, 28int,
{
    let ghost t = reps(tokens@);
    let ghost i0 = *i as int;
    loop
        invariant
            wf_stream(t),
            t == reps(tokens@),
            *i < tokens@.len(),
            i0 == *old(i) as int,
            i0 <= *i as int,
            v_for_body(t, i0) == v_for_body(t, *i as int),
        decreases tokens@.len() - *i,
    {
        let idx = *i;
        if match_token(tokens, i, Token::End) {
            proof {
                lemma_matched_not_last(t, idx as int, Token::End);
            }
            return Ok(());
        }
        match bitwise(tokens, i) {
            Err(e) => {
                return Err(e);
            },
            Ok(()) => {},
        }
        let idx2 = *i;
        if match_token(tokens, i, Token::End) {
            proof {
                lemma_matched_not_last(t, idx2 as int, Token::End);
            }
            return Ok(());
        }
        match end_of_statement(tokens, i) {
            Err(e) => {
                return Err(e);
            },
            Ok(()) => {},
        }
    }
}

/// The body of a while-statement or a brace block.
fn block_body(tokens: &Vec<TokenInfo>, i: &mut usize) -> (r: Result<(), Error>)
    requires
        wf_stream(reps(tokens@)),
        *old(i) < tokens@.len(),
    ensures
        match r {
            Ok(()) => v_block_body(reps(tokens@), *old(i) as int) == Ok::<int, ErrorRep>(
                *final(i) as int,
            ) && *old(i) < *final(i) < tokens@.len(),
            Err(e) => v_block_body(reps(tokens@), *old(i) as int) == Err::<int, ErrorRep>(e@),
        },
    decreases tokens@.len() - *i, 24int,
{
    let ghost t = reps(tokens@);
    let ghost i0 = *i as int;
    loop
        invariant
            wf_stream(t),
            t == reps(tokens@),
            *i < tokens@.len(),
            i0 == *old(i) as int,
            i0 <= *i as int,
            v_block_body(t, i0) == v_block_body(t, *i as int),
        decreases tokens@.len() - *i,
    {
        let idx = *i;
        if match_token(tokens, i, Token::RightBraces) {
            proof {
                lemma_matched_not_last(t, idx as int, Token::RightBraces);
            }
            return Ok(());
        }
        if match_token(tokens, i, Token::EOF) {
            return Err(Error::MissingClosingBrackets(tokens[idx].clone()));
        }
        match bitwise(tokens, i) {
            Err(e) => {
                return Err(e);
            },
            Ok(()) => {},
        }
    }
}

/// `primary`: a literal, an identifier or assignment, a parenthesized
/// expression, a for- or while-statement, a brace block, or a console print.
#[verifier::rlimit(60)]
fn primary(tokens: &Vec<TokenInfo>, i: &mut usize) -> (r: Result<(), Error>)
    requires
        wf_stream(reps(tokens@)),
        *old(i) < tokens@.len(),
    ensures
        match r {
            Ok(()) => v_primary(reps(tokens@), *old(i) as int) == Ok::<int, ErrorRep>(
                *final(i) as int,
            ) && *old(i) < *final(i) < tokens@.len(),
            Err(e) => v_primary(reps(tokens@), *old(i) as int) == Err::<int, ErrorRep>(e@),
        },
    decreases tokens@.len() - *i, 10int,
{
    let ghost t = reps(tokens@);
    let ghost i0 = *i as int;
    if match_token(tokens, i, Token::Int) {
        proof {
            lemma_matched_not_last(t, i0, Token::Int);
        }
        return Ok(());
    }
    if match_token(tokens, i, Token::Hex) {
        proof {
            lemma_matched_not_last(t, i0, Token::Hex);
        }
        return Ok(());
    }
    if match_token(tokens, i, Token::Identifier) {
        proof {
            lemma_matched_not_last(t, i0, Token::Identifier);
        }
        if match_token(tokens, i, Token::Assignment) {
            proof {
                lemma_matched_not_last(t, i0 + 1, Token::Assignment);
            }
            return bitwise(tokens, i);
        }
        return Ok(());
    }
    if match_token(tokens, i, Token::LeftParantheses) {
        proof {
            lemma_matched_not_last(t, i0, Token::LeftParantheses);
        }
        match bitwise(tokens, i) {
            Err(e) => {
                return Err(e);
            },
            Ok(()) => {},
        }
        let idx = *i;
        if match_token(tokens, i, Token::RightParantheses) {
            proof {
                lemma_matched_not_last(t, idx as int, Token::RightParantheses);
            }
            return Ok(());
        }
        return Err(Error::MissingClosingParantheses(tokens[idx].clone()));
    }
    if match_token(tokens, i, Token::For) {
        proof {
            lemma_matched_not_last(t, i0, Token::For);
        }
        if match_token(tokens, i, Token::LeftParantheses) {
            proof {
                lemma_matched_not_last(t, i0 + 1, Token::LeftParantheses);
            }
            match assignment(tokens, i) {
                Err(e) => {
                    return Err(e);
                },
                Ok(()) => {},
            }
            let idx_to = *i;
            if !match_token(tokens, i, Token::To) {
                return Err(Error::InvalidFor(tokens[idx_to].clone()));
            }
            proof {
                lemma_matched_not_last(t, idx_to as int, Token::To);
            }
            match bitwise(tokens, i) {
                Err(e) => {
                    return Err(e);
                },
                Ok(()) => {},
            }
            let idx_rp = *i;
            if !match_token(tokens, i, Token::RightParantheses) {
                return Err(Error::MissingClosingParantheses(tokens[idx_rp].clone()));
            }
            proof {
                lemma_matched_not_last(t, idx_rp as int, Token::RightParantheses);
            }
            let idx_bg = *i;
            if !match_token(tokens, i, Token::Begin) {
                return Err(Error::MissingClosingParantheses(tokens[idx_bg].clone()));
            }
            proof {
                lemma_matched_not_last(t, idx_bg as int, Token::Begin);
            }
            return for_body(tokens, i);
        }
        return Err(Error::ExpectedStartingParantheses(tokens[*i].clone()));
    }
    if match_token(tokens, i, Token::While) {
        proof {
            lemma_matched_not_last(t, i0, Token::While);
        }
        match bitwise(tokens, i) {
            Err(e) => {
                return Err(e);
            },
            Ok(()) => {},
        }
        let idx = *i;
        if !match_token(tokens, i, Token::LeftBraces) {
            return Err(Error::ExpectedStartingBrackets(tokens[idx].clone()));
        }
        proof {
            lemma_matched_not_last(t, idx as int, Token::LeftBraces);
        }
        return block_body(tokens, i);
    }
    if match_token(tokens, i, Token::LeftBraces) {
        proof {
            lemma_matched_not_last(t, i0, Token::LeftBraces);
        }
        return block_body(tokens, i);
    }
    if match_token(tokens, i, Token::Console) {
        proof {
            lemma_matched_not_last(t, i0, Token::Console);
        }
        return bitwise(tokens, i);
    }
    Err(Error::Generic(tokens[*i].clone(), last_n_token_lexemes(tokens, *i)))
}

/// Validates a whole token sequence against the statement grammar, returning
/// `Ok` exactly when [`spec_validate`] accepts it and otherwise the error
/// [`spec_validate`] assigns to it. The sequence must end with the `EOF`
/// sentinel, as every sequence the scanner returns does.
pub fn parse(tokens: &Vec<TokenInfo>) -> (r: Result<(), Error>)
    requires
        wf_stream(reps(tokens@)),
    ensures
        match r {
            Ok(()) => spec_validate(reps(tokens@)) is Ok,
            Err(e) => spec_validate(reps(tokens@)) == Err::<int, ErrorRep>(e@),
        },
{
    let ghost t = reps(tokens@);
    let mut i: usize = 0;
    loop
        invariant
            wf_stream(t),
            t == reps(tokens@),
            i < tokens@.len(),
            i >= 1 ==> reps(tokens@)[i - 1].token == Token::Semicolon,
            v_statements(t, 0) == v_statements(t, i as int),
        decreases tokens@.len() - i,
    {
        if match_token(tokens, &mut i, Token::EOF) {
            return Ok(());
        }
        match bitwise(tokens, &mut i) {
            Err(e) => {
                return Err(e);
            },
            Ok(()) => {},
        }
        let idx = i;
        if match_token(tokens, &mut i, Token::Semicolon) {
            proof {
                lemma_matched_not_last(t, idx as int, Token::Semicolon);
            }
        } else {
            let prev = tokens[idx - 1].token;
            if tokens[idx].token == Token::EOF && (prev == Token::End || prev
                == Token::RightBraces) {
                return Ok(());
            }
            return Err(Error::MissingSemicolon(tokens[idx].clone()));
        }
    }
}

} // verus!
