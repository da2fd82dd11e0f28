//! Table-driven scanner: turns a sequence of source bytes into a sequence of
//! tokens with 1-based source positions.
//!
//! The scanner is a deterministic state machine whose states are a subset of
//! the token kinds; [`spec_delta`] is the transition table. The whole scan is
//! modelled by the spec functions [`spec_scan_token`] (one token) and
//! [`spec_tokens`] (the full stream), and [`tokenize`] is proved to return
//! exactly what [`spec_tokens`] describes.

use vstd::prelude::*;

verus! {

/// The token kinds, which double as the scanner's states. `Nothing` is the
/// start state, `EOT` marks a whitespace boundary, `EOF` the end of the
/// input, and `Ignore` and `Error` are reserved sentinels that no scan ever
/// produces.
#[derive(Clone, Copy, Debug, PartialEq, Eq, Structural)]
pub enum Token {
    Nothing,
    Multiplication,
    Division,
    Addition,
    Subtraction,
    BWAnd,
    BWOr,
    Int,
    Hex,
    LeftParantheses,
    RightParantheses,
    LeftBraces,
    RightBraces,
    Identifier,
    Assignment,
    GreaterThan,
    LowerThan,
    Comparison,
    Semicolon,
    For,
    While,
    In,
    Range,
    Begin,
    End,
    To,
    Console,
    Ignore,
    EOT,
    EOF,
    Error,
}

/// A 1-based source position: `col` resets to 1 and `row` increments on a
/// newline; `col` increments on every other byte.
#[derive(Clone, Copy, Debug, PartialEq, Eq, Structural)]
pub struct Position {
    pub row: usize,
    pub col: usize,
}

/// One scanned token: its kind, the exact matched substring, and the position
/// of its first byte.
#[derive(Debug)]
pub struct TokenInfo {
    pub token: Token,
    pub lexeme: Vec<u8>,
    pub start_position: Position,
}

/// The mathematical image of a [`TokenInfo`]: the same fields with the lexeme
/// as a `Seq<u8>`.
pub ghost struct TokenRep {
    pub token: Token,
    pub lexeme: Seq<u8>,
    pub pos: Position,
}

impl View for TokenInfo {
    type V = TokenRep;

    open spec fn view(&self) -> TokenRep {
        TokenRep { token: self.token, lexeme: self.lexeme@, pos: self.start_position }
    }
}

impl Clone for TokenInfo {
    /// A clone carries the same kind, the same lexeme bytes and the same
    /// position as the original.
    fn clone(&self) -> (r: Self)
        ensures
            r@ == self@,
    {
        TokenInfo {
            token: self.token,
            lexeme: crate::env::copy_bytes(&self.lexeme),
            start_position: self.start_position,
        }
    }
}

/// The token sequence a `Vec<TokenInfo>` stands for.
pub open spec fn reps(tokens: Seq<TokenInfo>) -> Seq<TokenRep> {
    tokens.map_values(|t: TokenInfo| t@)
}

pub broadcast proof fn lemma_reps_index(tokens: Seq<TokenInfo>, k: int)
    requires
        0 <= k < tokens.len(),
    ensures
        #[trigger] reps(tokens)[k] == tokens[k]@,
{
}

/// What the scanner guarantees of every stream it returns, and what the
/// validator and the evaluator rely on to never run past the end: the stream
/// is non-empty and its last token is the `EOF` sentinel.
pub open spec fn wf_stream(t: Seq<TokenRep>) -> bool {
    t.len() >= 1 && t[t.len() - 1].token == Token::EOF
}

/// Scanning failures. `InvalidPattern` reports an unrecognized byte sequence
/// with its position; `InvalidStream` stands for a failure of the underlying
/// byte source and is raised by callers that read, never by [`tokenize`]
/// itself; `NotAKeyword` is a reserved variant that is never raised.
#[derive(Debug)]
pub enum Error {
    NotAKeyword(TokenInfo),
    InvalidPattern(Vec<u8>, Position),
    InvalidStream,
}

/// An `InvalidPattern` failure, at the spec level.
pub ghost struct ScanFail {
    pub lexeme: Seq<u8>,
    pub pos: Position,
}

/// Byte values the transition table singles out.
pub const B_SEMICOLON: u8 = 59;

pub const B_COLON: u8 = 58;

pub const B_PLUS: u8 = 43;

pub const B_MINUS: u8 = 45;

pub const B_STAR: u8 = 42;

pub const B_SLASH: u8 = 47;

pub const B_AMPERSAND: u8 = 38;

pub const B_PIPE: u8 = 124;

pub const B_GREATER: u8 = 62;

pub const B_LESS: u8 = 60;

pub const B_EQUALS: u8 = 61;

pub const B_HASH: u8 = 35;

pub const B_SPACE: u8 = 32;

pub const B_TAB: u8 = 9;

pub const B_NEWLINE: u8 = 10;

pub const B_LEFT_PAREN: u8 = 40;

pub const B_RIGHT_PAREN: u8 = 41;

pub const B_LEFT_BRACE: u8 = 123;

pub const B_RIGHT_BRACE: u8 = 125;

pub const B_DOT: u8 = 46;

/// The one control byte the table maps straight to the `EOF` state.
pub const B_EOF_MARK: u8 = 29;

pub open spec fn is_digit(b: u8) -> bool {
    48 <= b && b <= 57
}

pub open spec fn is_lowercase(b: u8) -> bool {
    97 <= b && b <= 122
}

pub open spec fn is_uppercase(b: u8) -> bool {
    65 <= b && b <= 90
}

pub open spec fn is_whitespace(b: u8) -> bool {
    b == B_SPACE || b == B_TAB || b == B_NEWLINE
}

/// The transition table of the scanner: the next state for (state, byte).
/// An unmapped pair yields `Nothing`, which signals a token boundary or, from
/// the start state, an unrecognized byte.
pub open spec fn spec_delta(state: Token, b: u8) -> Token {
    match state {
        Token::Nothing => {
            if b == B_SEMICOLON {
                Token::Semicolon
            } else if b == B_COLON {
                Token::Assignment
            } else if is_digit(b) {
                Token::Int
            } else if b == B_PLUS {
                Token::Addition
            } else if b == B_MINUS {
                Token::Subtraction
            } else if b == B_STAR {
                Token::Multiplication
            } else if b == B_SLASH {
                Token::Division
            } else if b == B_AMPERSAND {
                Token::BWAnd
            } else if b == B_PIPE {
                Token::BWOr
            } else if b == B_GREATER {
                Token::GreaterThan
            } else if b == B_LESS {
                Token::LowerThan
            } else if b == B_EQUALS {
                Token::Comparison
            } else if b == B_HASH {
                Token::Hex
            } else if is_lowercase(b) || is_uppercase(b) {
                Token::Identifier
            } else if is_whitespace(b) {
                Token::EOT
            } else if b == B_LEFT_PAREN {
                Token::LeftParantheses
            } else if b == B_RIGHT_PAREN {
                Token::RightParantheses
            } else if b == B_LEFT_BRACE {
                Token::LeftBraces
            } else if b == B_RIGHT_BRACE {
                Token::RightBraces
            } else if b == B_DOT {
                Token::Range
            } else if b == B_EOF_MARK {
                Token::EOF
            } else {
                Token::Nothing
            }
        },
        Token::Assignment => if b == B_EQUALS {
            Token::Assignment
        } else {
            Token::Nothing
        },
        Token::Int => if is_digit(b) {
            Token::Int
        } else {
            Token::Nothing
        },
        Token::Hex => if is_digit(b) || (65 <= b && b <= 70) || (97 <= b && b <= 102) {
            Token::Hex
        } else {
            Token::Nothing
        },
        Token::Identifier => if is_digit(b) || is_lowercase(b) || is_uppercase(b) {
            Token::Identifier
        } else {
            Token::Nothing
        },
        Token::Comparison => if b == B_EQUALS {
            Token::Comparison
        } else {
            Token::Nothing
        },
        Token::Range => if b == B_DOT {
            Token::Range
        } else {
            Token::Nothing
        },
        Token::EOT => if is_whitespace(b) {
            Token::EOT
        } else {
            Token::Nothing
        },
        _ => Token::Nothing,
    }
}

/// Executable form of [`spec_delta`].
fn delta(state: Token, b: u8) -> (r: Token)
    ensures
        r == spec_delta(state, b),
{
    match state {
        Token::Nothing => {
            if b == B_SEMICOLON {
                Token::Semicolon
            } else if b == B_COLON {
                Token::Assignment
            } else if 48 <= b && b <= 57 {
                Token::Int
            } else if b == B_PLUS {
                Token::Addition
            } else if b == B_MINUS {
                Token::Subtraction
            } else if b == B_STAR {
                Token::Multiplication
            } else if b == B_SLASH {
                Token::Division
            } else if b == B_AMPERSAND {
                Token::BWAnd
            } else if b == B_PIPE {
                Token::BWOr
            } else if b == B_GREATER {
                Token::GreaterThan
            } else if b == B_LESS {
                Token::LowerThan
            } else if b == B_EQUALS {
                Token::Comparison
            } else if b == B_HASH {
                Token::Hex
            } else if (97 <= b && b <= 122) || (65 <= b && b <= 90) {
                Token::Identifier
            } else if b == B_SPACE || b == B_TAB || b == B_NEWLINE {
                Token::EOT
            } else if b == B_LEFT_PAREN {
                Token::LeftParantheses
            } else if b == B_RIGHT_PAREN {
                Token::RightParantheses
            } else if b == B_LEFT_BRACE {
                Token::LeftBraces
            } else if b == B_RIGHT_BRACE {
                Token::RightBraces
            } else if b == B_DOT {
                Token::Range
            } else if b == B_EOF_MARK {
                Token::EOF
            } else {
                Token::Nothing
            }
        },
        Token::Assignment => if b == B_EQUALS {
            Token::Assignment
        } else {
            Token::Nothing
        },
        Token::Int => if 48 <= b && b <= 57 {
            Token::Int
        } else {
            Token::Nothing
        },
        Token::Hex => if (48 <= b && b <= 57) || (65 <= b && b <= 70) || (97 <= b
            && b <= 102) {
            Token::Hex
        } else {
            Token::Nothing
        },
        Token::Identifier => if (48 <= b && b <= 57) || (97 <= b && b <= 122) || (65 <= b
            && b <= 90) {
            Token::Identifier
        } else {
            Token::Nothing
        },
        Token::Comparison => if b == B_EQUALS {
            Token::Comparison
        } else {
            Token::Nothing
        },
        Token::Range => if b == B_DOT {
            Token::Range
        } else {
            Token::Nothing
        },
        Token::EOT => if b == B_SPACE || b == B_TAB || b == B_NEWLINE {
            Token::EOT
        } else {
            Token::Nothing
        },
        _ => Token::Nothing,
    }
}

/// The keyword remap applied when a token is finalized: a lexeme equal to one
/// of the reserved words gets that word's kind, any other keeps `token`.
pub open spec fn spec_keyword(token: Token, lexeme: Seq<u8>) -> Token {
    if lexeme == seq![102u8, 111u8, 114u8] {  // "for"
        Token::For
    } else if lexeme == seq![119u8, 104u8, 105u8, 108u8, 101u8] {  // "while"
        Token::While
    } else if lexeme == seq![105u8, 110u8] {  // "in"
        Token::In
    } else if lexeme == seq![98u8, 101u8, 103u8, 105u8, 110u8] {  // "begin"
        Token::Begin
    } else if lexeme == seq![101u8, 110u8, 100u8] {  // "end"
        Token::End
    } else if lexeme == seq![116u8, 111u8] {  // "to"
        Token::To
    } else if lexeme == seq![67u8, 79u8, 78u8, 83u8, 79u8, 76u8, 69u8] {  // "CONSOLE"
        Token::Console
    } else {
        token
    }
}

/// Remaps a finished lexeme that spells a reserved word to its keyword kind.
fn assign_if_reserved_identifier(token: Token, lexeme: &Vec<u8>) -> (r: Token)
    ensures
        r == spec_keyword(token, lexeme@),
{
    let n = lexeme.len();
    if n == 3 && lexeme[0] == 102 && lexeme[1] == 111 && lexeme[2] == 114 {
        proof {
            assert(lexeme@ =~= seq![102u8, 111u8, 114u8]);
        }
        Token::For
    } else if n == 5 && lexeme[0] == 119 && lexeme[1] == 104 && lexeme[2] == 105 && lexeme[3]
        == 108 && lexeme[4] == 101 {
        proof {
            assert(lexeme@ =~= seq![119u8, 104u8, 105u8, 108u8, 101u8]);
        }
        Token::While
    } else if n == 2 && lexeme[0] == 105 && lexeme[1] == 110 {
        proof {
            assert(lexeme@ =~= seq![105u8, 110u8]);
        }
        Token::In
    } else if n == 5 && lexeme[0] == 98 && lexeme[1] == 101 && lexeme[2] == 103 && lexeme[3] == 105
        && lexeme[4] == 110 {
        proof {
            assert(lexeme@ =~= seq![98u8, 101u8, 103u8, 105u8, 110u8]);
        }
        Token::Begin
    } else if n == 3 && lexeme[0] == 101 && lexeme[1] == 110 && lexeme[2] == 100 {
        proof {
            assert(lexeme@ =~= seq![101u8, 110u8, 100u8]);
        }
        Token::End
    } else if n == 2 && lexeme[0] == 116 && lexeme[1] == 111 {
        proof {
            assert(lexeme@ =~= seq![116u8, 111u8]);
        }
        Token::To
    } else if n == 7 && lexeme[0] == 67 && lexeme[1] == 79 && lexeme[2] == 78 && lexeme[3] == 83
        && lexeme[4] == 79 && lexeme[5] == 76 && lexeme[6] == 69 {
        proof {
            assert(lexeme@ =~= seq![67u8, 79u8, 78u8, 83u8, 79u8, 76u8, 69u8]);
        }
        Token::Console
    } else {
        token
    }
}

/// The position reached after consuming byte `b` at position `p`.
pub open spec fn spec_step_pos(p: Position, b: u8) -> Position {
    if b == B_NEWLINE {
        Position { row: (p.row + 1) as usize, col: 1 }
    } else {
        Position { row: p.row, col: (p.col + 1) as usize }
    }
}

/// Advances a position over one byte.
fn update_position(p: Position, b: u8) -> (r: Position)
    requires
        p.row < usize::MAX,
        p.col < usize::MAX,
    ensures
        r == spec_step_pos(p, b),
{
    if b == B_NEWLINE {
        Position { row: p.row + 1, col: 1 }
    } else {
        Position { row: p.row, col: p.col + 1 }
    }
}

/// The outcome of scanning one token: either a finished token together with
/// the index and position right after it, or a scan failure.
pub ghost enum ScanStep {
    Tok { rep: TokenRep, end: int, end_pos: Position },
    Fail(ScanFail),
}

/// Extends a pending token: starting in `state` with the bytes of `lexeme`
/// already matched, consumes bytes while the table allows, then finalizes,
/// applying the keyword remap. `start` is the position of the token's first
/// byte, `pos` the position of byte `j`.
pub open spec fn spec_munch(
    bytes: Seq<u8>,
    j: int,
    pos: Position,
    state: Token,
    lexeme: Seq<u8>,
    start: Position,
) -> ScanStep
    decreases bytes.len() - j,
{
    if j < 0 || j >= bytes.len() {
        ScanStep::Tok {
            rep: TokenRep { token: spec_keyword(state, lexeme), lexeme, pos: start },
            end: j,
            end_pos: pos,
        }
    } else {
        let b = bytes[j];
        let next = spec_delta(state, b);
        if next == Token::Nothing {
            ScanStep::Tok {
                rep: TokenRep { token: spec_keyword(state, lexeme), lexeme, pos: start },
                end: j,
                end_pos: pos,
            }
        } else {
            spec_munch(bytes, j + 1, spec_step_pos(pos, b), next, lexeme.push(b), start)
        }
    }
}

/// Scans one token starting at byte `j`. Whitespace runs (and the two control
/// bytes the table treats like them) are consumed without producing a token;
/// at the end of the input an `EOF` token with an empty lexeme is produced; a
/// byte with no transition out of the start state is a scan failure.
pub open spec fn spec_scan_token(bytes: Seq<u8>, j: int, pos: Position) -> ScanStep
    decreases bytes.len() - j,
{
    if j < 0 || j >= bytes.len() {
        ScanStep::Tok {
            rep: TokenRep { token: Token::EOF, lexeme: Seq::empty(), pos },
            end: j,
            end_pos: pos,
        }
    } else {
        let b = bytes[j];
        let next = spec_delta(Token::Nothing, b);
        if next == Token::EOT || next == Token::EOF || (next == Token::Nothing && b == 0) {
            spec_scan_token(bytes, j + 1, spec_step_pos(pos, b))
        } else if next == Token::Nothing {
            ScanStep::Fail(ScanFail { lexeme: seq![b], pos })
        } else {
            spec_munch(bytes, j + 1, spec_step_pos(pos, b), next, seq![b], pos)
        }
    }
}

/// The token kinds that can stand in a scanned stream before the final `EOF`.
pub open spec fn emittable(t: Token) -> bool {
    t != Token::Nothing && t != Token::EOT && t != Token::EOF && t != Token::Ignore && t
        != Token::Error
}

/// The token stream from byte `j` on: one token after another until `EOF`,
/// which is included as the final element.
pub open spec fn spec_tokens_from(bytes: Seq<u8>, j: int, pos: Position) -> Result<
    Seq<TokenRep>,
    ScanFail,
>
    decreases bytes.len() - j,
{
    match spec_scan_token(bytes, j, pos) {
        ScanStep::Fail(f) => Err(f),
        ScanStep::Tok { rep, end, end_pos } => {
            if rep.token == Token::EOF {
                Ok(seq![rep])
            } else if end > j && end <= bytes.len() {
                match spec_tokens_from(bytes, end, end_pos) {
                    Ok(rest) => Ok(seq![rep] + rest),
                    Err(f) => Err(f),
                }
            } else {
                arbitrary()
            }
        },
    }
}

/// The token stream of a whole input, scanned from its first byte at (1, 1).
pub open spec fn spec_tokens(bytes: Seq<u8>) -> Result<Seq<TokenRep>, ScanFail> {
    spec_tokens_from(bytes, 0, Position { row: 1, col: 1 })
}

proof fn lemma_munch_progress(
    bytes: Seq<u8>,
    j: int,
    pos: Position,
    state: Token,
    lexeme: Seq<u8>,
    start: Position,
)
    requires
        0 <= j <= bytes.len(),
        state != Token::Nothing,
        state != Token::EOT,
        state != Token::EOF,
        state != Token::Ignore,
        state != Token::Error,
    ensures
        match spec_munch(bytes, j, pos, state, lexeme, start) {
            ScanStep::Tok { rep, end, end_pos } => {
                &&& j <= end <= bytes.len()
                &&& emittable(rep.token)
                &&& rep.pos == start
            },
            ScanStep::Fail(f) => false,
        },
    decreases bytes.len() - j,
{
    if j < bytes.len() {
        let b = bytes[j];
        let next = spec_delta(state, b);
        if next != Token::Nothing {
            lemma_munch_progress(bytes, j + 1, spec_step_pos(pos, b), next, lexeme.push(b), start);
        }
    }
}

/// What one scan step guarantees: the cursor does not move backwards, a real
/// token consumes at least one byte, and `EOF` arises only at the very end.
pub proof fn lemma_scan_token_progress(bytes: Seq<u8>, j: int, pos: Position)
    requires
        0 <= j <= bytes.len(),
    ensures
        match spec_scan_token(bytes, j, pos) {
            ScanStep::Tok { rep, end, end_pos } => {
                &&& j <= end <= bytes.len()
                &&& (rep.token == Token::EOF ==> end == bytes.len() && rep.lexeme
                    == Seq::<u8>::empty() && rep.pos == end_pos)
                &&& (rep.token != Token::EOF ==> end > j && emittable(rep.token))
            },
            ScanStep::Fail(f) => true,
        },
    decreases bytes.len() - j,
{
    if j < bytes.len() {
        let b = bytes[j];
        let next = spec_delta(Token::Nothing, b);
        if next == Token::EOT || next == Token::EOF || (next == Token::Nothing && b == 0) {
            lemma_scan_token_progress(bytes, j + 1, spec_step_pos(pos, b));
        } else if next != Token::Nothing {
            lemma_munch_progress(bytes, j + 1, spec_step_pos(pos, b), next, seq![b], pos);
        }
    }
}

/// Scanning is pure: it depends on the input bytes alone, so scanning equal
/// byte sequences always yields identical token sequences. Together with the
/// contract of [`tokenize`] — which returns exactly `spec_tokens` of its
/// input — two runs of the scanner over the same bytes cannot differ.
pub proof fn lemma_tokenize_deterministic(b1: Seq<u8>, b2: Seq<u8>)
    requires
        b1 == b2,
    ensures
        spec_tokens(b1) == spec_tokens(b2),
{
}

/// A scanned stream is never empty, ends with exactly one `EOF` token, and
/// holds no start-state, whitespace or reserved sentinel tokens before it.
pub proof fn lemma_tokens_from_wf(bytes: Seq<u8>, j: int, pos: Position)
    requires
        0 <= j <= bytes.len(),
    ensures
        match spec_tokens_from(bytes, j, pos) {
            Ok(s) => {
                &&& s.len() >= 1
                &&& s.last().token == Token::EOF
                &&& s.last().lexeme == Seq::<u8>::empty()
                &&& forall|k: int| 0 <= k < s.len() - 1 ==> emittable(#[trigger] s[k].token)
            },
            Err(f) => true,
        },
    decreases bytes.len() - j,
{
    lemma_scan_token_progress(bytes, j, pos);
    match spec_scan_token(bytes, j, pos) {
        ScanStep::Tok { rep, end, end_pos } => {
            if rep.token != Token::EOF {
                lemma_tokens_from_wf(bytes, end, end_pos);
            }
        },
        ScanStep::Fail(f) => {},
    }
}

/// Scans one token from byte `*j` on, advancing `*j` and `*pos` past it.
/// Returns exactly what [`spec_scan_token`] describes for the old cursor.
fn get_token(bytes: &Vec<u8>, j: &mut usize, pos: &mut Position) -> (r: Result<TokenInfo, Error>)
    requires
        bytes@.len() < usize::MAX,
        *old(j) <= bytes@.len(),
        (*old(pos)).row <= old(j) + 1,
        (*old(pos)).col <= old(j) + 1,
        (*old(pos)).row >= 1,
        (*old(pos)).col >= 1,
    ensures
        *final(j) >= *old(j),
        *final(j) <= bytes@.len(),
        (*final(pos)).row <= *final(j) + 1,
        (*final(pos)).col <= *final(j) + 1,
        (*final(pos)).row >= 1,
        (*final(pos)).col >= 1,
        match r {
            Ok(t) => spec_scan_token(bytes@, *old(j) as int, *old(pos)) == (ScanStep::Tok {
                rep: t@,
                end: *final(j) as int,
                end_pos: *final(pos),
            }) && t.start_position.row >= 1 && t.start_position.col >= 1,
            Err(e) => match e {
                Error::InvalidPattern(l, p) => spec_scan_token(bytes@, *old(j) as int, *old(pos))
                    == ScanStep::Fail(ScanFail { lexeme: l@, pos: p }) && p.row >= 1 && p.col >= 1,
                _ => false,
            },
        },
{
    let ghost j0 = *j as int;
    let ghost pos0 = *pos;
    // Skip whitespace runs and the control bytes the table treats like them.
    loop
        invariant_except_break
            bytes@.len() < usize::MAX,
            *j <= bytes@.len(),
            pos.row <= *j + 1,
            pos.col <= *j + 1,
            pos.row >= 1,
            pos.col >= 1,
            j0 == *old(j) as int,
            pos0 == *old(pos),
            j0 <= *j as int,
            spec_scan_token(bytes@, j0, pos0) == spec_scan_token(bytes@, *j as int, *pos),
        ensures
            bytes@.len() < usize::MAX,
            *j < bytes@.len(),
            pos.row <= *j + 1,
            pos.col <= *j + 1,
            pos.row >= 1,
            pos.col >= 1,
            j0 == *old(j) as int,
            pos0 == *old(pos),
            j0 <= *j as int,
            spec_scan_token(bytes@, j0, pos0) == spec_scan_token(bytes@, *j as int, *pos),
            ({
                let next = spec_delta(Token::Nothing, bytes@[*j as int]);
                &&& next != Token::EOT
                &&& next != Token::EOF
                &&& next != Token::Nothing
            }),
        decreases bytes@.len() - *j,
    {
        if *j == bytes.len() {
            return Ok(
                TokenInfo { token: Token::EOF, lexeme: Vec::new(), start_position: *pos },
            );
        }
        let b = bytes[*j];
        let next = delta(Token::Nothing, b);
        if next == Token::EOT || next == Token::EOF || (next == Token::Nothing && b == 0) {
            *pos = update_position(*pos, b);
            *j = *j + 1;
        } else if next == Token::Nothing {
            let mut lexeme: Vec<u8> = Vec::new();
            lexeme.push(b);
            proof {
                assert(lexeme@ =~= seq![b]);
            }
            return Err(Error::InvalidPattern(lexeme, *pos));
        } else {
            break;
        }
    }
    // Extend the token while the table allows.
    let start_position = *pos;
    let b = bytes[*j];
    let mut state = delta(Token::Nothing, b);
    let mut lexeme: Vec<u8> = Vec::new();
    lexeme.push(b);
    proof {
        assert(lexeme@ =~= seq![b]);
    }
    *pos = update_position(*pos, b);
    *j = *j + 1;
    loop
        invariant_except_break
            bytes@.len() < usize::MAX,
            *j <= bytes@.len(),
            pos.row <= *j + 1,
            pos.col <= *j + 1,
            pos.row >= 1,
            pos.col >= 1,
            j0 == *old(j) as int,
            pos0 == *old(pos),
            j0 < *j as int,
            start_position.row >= 1,
            start_position.col >= 1,
            state != Token::Nothing,
            spec_scan_token(bytes@, j0, pos0) == spec_munch(
                bytes@,
                *j as int,
                *pos,
                state,
                lexeme@,
                start_position,
            ),
        ensures
            *j <= bytes@.len(),
            pos.row <= *j + 1,
            pos.col <= *j + 1,
            pos.row >= 1,
            pos.col >= 1,
            j0 == *old(j) as int,
            pos0 == *old(pos),
            j0 < *j as int,
            start_position.row >= 1,
            start_position.col >= 1,
            spec_scan_token(bytes@, j0, pos0) == (ScanStep::Tok {
                rep: TokenRep {
                    token: spec_keyword(state, lexeme@),
                    lexeme: lexeme@,
                    pos: start_position,
                },
                end: *j as int,
                end_pos: *pos,
            }),
        decreases bytes@.len() - *j,
    {
        if *j == bytes.len() {
            break;
        }
        let b = bytes[*j];
        let next = delta(state, b);
        if next == Token::Nothing {
            break;
        }
        state = next;
        lexeme.push(b);
        *pos = update_position(*pos, b);
        *j = *j + 1;
    }
    let token = assign_if_reserved_identifier(state, &lexeme);
    Ok(TokenInfo { token, lexeme, start_position })
}

/// Scans a whole input into its token sequence, or fails on the first
/// unrecognized byte. The result is exactly the stream that [`spec_tokens`]
/// assigns to the input bytes; in particular it is non-empty, its final token
/// is the one `EOF` sentinel, whitespace never appears in it, and every
/// reported position is 1-based.
pub fn tokenize(bytes: &Vec<u8>) -> (r: Result<Vec<TokenInfo>, Error>)
    requires
        bytes@.len() < usize::MAX,
    ensures
        match r {
            Ok(v) => {
                &&& spec_tokens(bytes@) == Ok::<Seq<TokenRep>, ScanFail>(reps(v@))
                &&& v@.len() >= 1
                &&& v@.last()@.token == Token::EOF
                &&& v@.last()@.lexeme == Seq::<u8>::empty()
                &&& forall|k: int| 0 <= k < v@.len() - 1 ==> emittable(#[trigger] v@[k]@.token)
                &&& wf_stream(reps(v@))
            },
            Err(e) => match e {
                Error::InvalidPattern(l, p) => spec_tokens(bytes@) == Err::<
                    Seq<TokenRep>,
                    ScanFail,
                >(ScanFail { lexeme: l@, pos: p }),
                _ => false,
            },
        },
{
    let mut v: Vec<TokenInfo> = Vec::new();
    let mut j: usize = 0;
    let mut pos = Position { row: 1, col: 1 };
    loop
        invariant
            bytes@.len() < usize::MAX,
            j <= bytes@.len(),
            pos.row <= j + 1,
            pos.col <= j + 1,
            pos.row >= 1,
            pos.col >= 1,
            match spec_tokens_from(bytes@, j as int, pos) {
                Ok(rest) => spec_tokens(bytes@) == Ok::<Seq<TokenRep>, ScanFail>(
                    reps(v@) + rest,
                ),
                Err(f) => spec_tokens(bytes@) == Err::<Seq<TokenRep>, ScanFail>(f),
            },
        decreases bytes@.len() - j + 1,
    {
        let ghost j_pre = j as int;
        let ghost pos_pre = pos;
        match get_token(bytes, &mut j, &mut pos) {
            Err(e) => {
                return Err(e);
            },
            Ok(t) => {
                proof {
                    lemma_scan_token_progress(bytes@, j_pre, pos_pre);
                }
                if t.token == Token::EOF {
                    proof {
                        assert(reps(v@.push(t)) =~= reps(v@) + seq![t@]);
                    }
                    v.push(t);
                    proof {
                        lemma_tokens_from_wf(bytes@, 0, Position { row: 1, col: 1 });
                        assert forall|k: int| 0 <= k < v@.len() - 1 implies emittable(
                            v@[k]@.token,
                        ) by {
                            assert(reps(v@)[k] == v@[k]@);
                        }
                    }
                    return Ok(v);
                } else {
                    proof {
                        assert(reps(v@.push(t)) =~= reps(v@) + seq![t@]);
                        assert(reps(v@) + (seq![t@] + spec_tokens_from(
                            bytes@,
                            j as int,
                            pos,
                        )->Ok_0) =~= (reps(v@) + seq![t@]) + spec_tokens_from(
                            bytes@,
                            j as int,
                            pos,
                        )->Ok_0);
                    }
                    v.push(t);
                }
            },
        }
    }
}

} // verus!
