use tinyscript::env::Env;
use tinyscript::eval;
use tinyscript::parser;
use tinyscript::tokenizer::{tokenize, Token, TokenInfo};

fn scan(src: &str) -> Vec<TokenInfo> {
    tokenize(&src.as_bytes().to_vec()).expect("scan failed")
}

fn seeded_env() -> Env {
    let mut env = Env::new();
    env.insert(b"x".to_vec(), 1);
    env.insert(b"y".to_vec(), 3);
    env
}

fn run(src: &str, env: &mut Env) -> (Result<i64, eval::Error>, Vec<i64>) {
    let tokens = scan(src);
    parser::parse(&tokens).expect("validation failed");
    let mut output = Vec::new();
    let r = eval::parse(&tokens, env, &mut output);
    (r, output)
}

#[test]
fn scans_and_evaluates_simple_sum() {
    let tokens = scan("12+3;");
    let kinds: Vec<Token> = tokens.iter().map(|t| t.token).collect();
    assert_eq!(
        kinds,
        vec![Token::Int, Token::Addition, Token::Int, Token::Semicolon, Token::EOF]
    );
    assert_eq!(tokens[0].lexeme, b"12".to_vec());
    assert_eq!(tokens[1].lexeme, b"+".to_vec());
    assert_eq!(tokens[2].lexeme, b"3".to_vec());
    assert_eq!(tokens[3].lexeme, b";".to_vec());
    assert_eq!(tokens[4].lexeme, Vec::<u8>::new());

    let mut env = seeded_env();
    let (r, output) = run("12+3;", &mut env);
    assert_eq!(r.unwrap(), 15);
    assert!(output.is_empty());
    assert_eq!(env.get(&b"x".to_vec()), Some(1));
    assert_eq!(env.get(&b"y".to_vec()), Some(3));
}

#[test]
fn assignment_prints_and_stays() {
    let mut env = seeded_env();
    let (r, output) = run("x:=5;CONSOLE x;", &mut env);
    assert!(r.is_ok());
    assert_eq!(output, vec![5]);
    assert_eq!(env.get(&b"x".to_vec()), Some(5));
}

#[test]
fn hex_literal_scans_and_evaluates() {
    let tokens = scan("#FF+1;");
    assert_eq!(tokens[0].token, Token::Hex);
    assert_eq!(tokens[0].lexeme, b"#FF".to_vec());

    let mut env = seeded_env();
    let (r, _) = run("#FF+1;", &mut env);
    assert_eq!(r.unwrap(), 256);
}

#[test]
fn lowercase_hex_digits_count() {
    let mut env = seeded_env();
    let (r, _) = run("#fF;", &mut env);
    assert_eq!(r.unwrap(), 255);
}

#[test]
fn validated_but_undefined_variable_fails_semantically() {
    let tokens = scan("z;");
    parser::parse(&tokens).expect("validation should accept a bare identifier");
    let mut env = seeded_env();
    let mut output = Vec::new();
    match eval::parse(&tokens, &mut env, &mut output) {
        Err(eval::Error::UndefinedVariable(t)) => assert_eq!(t.lexeme, b"z".to_vec()),
        other => panic!("expected an undefined-variable error, got {:?}", other),
    }
}

#[test]
fn missing_semicolon_is_reported_at_eof() {
    let tokens = scan("1+1");
    match parser::parse(&tokens) {
        Err(parser::Error::MissingSemicolon(t)) => {
            assert_eq!(t.token, Token::EOF);
            assert_eq!(t.start_position.row, 1);
        },
        other => panic!("expected a missing-semicolon error, got {:?}", other),
    }
}

#[test]
fn unrecognized_character_fails_scanning() {
    match tokenize(&b"@".to_vec()) {
        Err(tinyscript::tokenizer::Error::InvalidPattern(lexeme, pos)) => {
            assert_eq!(lexeme, b"@".to_vec());
            assert_eq!(pos.row, 1);
        },
        other => panic!("expected an invalid-pattern error, got {:?}", other),
    }
}

#[test]
fn unrecognized_character_row_follows_newlines() {
    match tokenize(&b"1;\n@".to_vec()) {
        Err(tinyscript::tokenizer::Error::InvalidPattern(lexeme, pos)) => {
            assert_eq!(lexeme, b"@".to_vec());
            assert_eq!(pos.row, 2);
        },
        other => panic!("expected an invalid-pattern error, got {:?}", other),
    }
}

#[test]
fn scanning_is_deterministic() {
    let src = "x:=5; for (i:=1 to 3) begin CONSOLE i; end \n #aB + 12;";
    let first = scan(src);
    let second = scan(src);
    assert_eq!(first.len(), second.len());
    for (a, b) in first.iter().zip(second.iter()) {
        assert_eq!(a.token, b.token);
        assert_eq!(a.lexeme, b.lexeme);
        assert_eq!(a.start_position, b.start_position);
    }
}

#[test]
fn for_loop_prints_in_order() {
    let mut env = seeded_env();
    let (r, output) = run("for (i:=1 to 3) begin CONSOLE i; end", &mut env);
    assert!(r.is_ok());
    assert_eq!(output, vec![1, 2, 3]);
    assert_eq!(env.get(&b"i".to_vec()), Some(3));
}

#[test]
fn for_loop_with_two_statements() {
    let mut env = seeded_env();
    let (r, output) = run("for (i:=1 to 2) begin CONSOLE i; CONSOLE i*10; end", &mut env);
    assert!(r.is_ok());
    assert_eq!(output, vec![1, 10, 2, 20]);
    assert_eq!(env.get(&b"i".to_vec()), Some(2));
}

#[test]
fn single_for_amid_other_statements() {
    let mut env = seeded_env();
    let (r, output) = run("s:=0; for (i:=1 to 4) begin s:=s+i; end; CONSOLE s;", &mut env);
    assert!(r.is_ok());
    assert_eq!(output, vec![10]);
    assert_eq!(env.get(&b"s".to_vec()), Some(10));
    assert_eq!(env.get(&b"i".to_vec()), Some(4));
}

#[test]
fn nested_for_loops_rewind_independently() {
    let mut env = seeded_env();
    let (r, output) = run(
        "for (i:=1 to 2) begin for (j:=1 to 2) begin CONSOLE i*10+j; end end",
        &mut env,
    );
    assert!(r.is_ok());
    assert_eq!(output, vec![11, 12, 21, 22]);
    assert_eq!(env.get(&b"i".to_vec()), Some(2));
    assert_eq!(env.get(&b"j".to_vec()), Some(2));
}

#[test]
fn bare_hash_hex_literal_counts_zero() {
    let tokens = scan("#;");
    assert_eq!(tokens[0].token, Token::Hex);
    assert_eq!(tokens[0].lexeme, b"#".to_vec());
    let mut env = seeded_env();
    let (r, _) = run("#;", &mut env);
    assert_eq!(r.unwrap(), 0);
}

#[test]
fn empty_input_evaluates_to_zero() {
    let tokens = scan("");
    assert_eq!(tokens.len(), 1);
    assert_eq!(tokens[0].token, Token::EOF);
    let mut env = seeded_env();
    let (r, output) = run("", &mut env);
    assert_eq!(r.unwrap(), 0);
    assert!(output.is_empty());
}

#[test]
fn whitespace_is_skipped() {
    let mut env = seeded_env();
    let (r, _) = run("1 \t + \n 2 ;", &mut env);
    assert_eq!(r.unwrap(), 3);
}

#[test]
fn precedence_multiplication_before_addition() {
    let mut env = seeded_env();
    let (r, _) = run("2+3*4;", &mut env);
    assert_eq!(r.unwrap(), 14);
    let (r2, _) = run("2*3+4;", &mut env);
    assert_eq!(r2.unwrap(), 10);
}

#[test]
fn parentheses_group() {
    let mut env = seeded_env();
    let (r, _) = run("(2+3)*4;", &mut env);
    assert_eq!(r.unwrap(), 20);
}

#[test]
fn unary_minus_applies_to_primary() {
    let mut env = seeded_env();
    let (r, _) = run("-5+7;", &mut env);
    assert_eq!(r.unwrap(), 2);
    let (r2, _) = run("-7/2;", &mut env);
    assert_eq!(r2.unwrap(), -3);
}

#[test]
fn bitwise_operators_bind_loosest() {
    let mut env = seeded_env();
    let (r, _) = run("12&10;", &mut env);
    assert_eq!(r.unwrap(), 8);
    let (r2, _) = run("12|3;", &mut env);
    assert_eq!(r2.unwrap(), 15);
    let (r3, _) = run("1|2+4;", &mut env);
    assert_eq!(r3.unwrap(), 7);
}

#[test]
fn statement_values_are_summed() {
    let mut env = seeded_env();
    let (r, _) = run("1;2;", &mut env);
    assert_eq!(r.unwrap(), 3);
}

#[test]
fn division_by_zero_is_an_evaluation_error() {
    let tokens = scan("1/0;");
    parser::parse(&tokens).expect("validation does not evaluate");
    let mut env = seeded_env();
    let mut output = Vec::new();
    match eval::parse(&tokens, &mut env, &mut output) {
        Err(eval::Error::InvalidDivision(t)) => assert_eq!(t.lexeme, b"/".to_vec()),
        other => panic!("expected an invalid-division error, got {:?}", other),
    }
}

#[test]
fn keywords_are_remapped() {
    let kinds: Vec<Token> = scan("for while in begin end to CONSOLE forx")
        .iter()
        .map(|t| t.token)
        .collect();
    assert_eq!(
        kinds,
        vec![
            Token::For,
            Token::While,
            Token::In,
            Token::Begin,
            Token::End,
            Token::To,
            Token::Console,
            Token::Identifier,
            Token::EOF
        ]
    );
}

#[test]
fn validator_rejects_bad_for_header() {
    match parser::parse(&scan("for (i:=1 x) begin 1 end")) {
        Err(parser::Error::InvalidFor(t)) => assert_eq!(t.lexeme, b"x".to_vec()),
        other => panic!("expected an invalid-for error, got {:?}", other),
    }
    match parser::parse(&scan("for 1")) {
        Err(parser::Error::ExpectedStartingParantheses(_)) => {},
        other => panic!("expected a starting-parenthesis error, got {:?}", other),
    }
    match parser::parse(&scan("for (1 to 2) begin 1 end")) {
        Err(parser::Error::InvalidAssignment(t, _)) => assert_eq!(t.lexeme, b"1".to_vec()),
        other => panic!("expected an invalid-assignment error, got {:?}", other),
    }
}

#[test]
fn validator_reports_missing_closing_parenthesis() {
    match parser::parse(&scan("(1;")) {
        Err(parser::Error::MissingClosingParantheses(t)) => {
            assert_eq!(t.lexeme, b";".to_vec())
        },
        other => panic!("expected a closing-parenthesis error, got {:?}", other),
    }
}

#[test]
fn validator_reports_brace_errors() {
    match parser::parse(&scan("while 1 1")) {
        Err(parser::Error::ExpectedStartingBrackets(_)) => {},
        other => panic!("expected a starting-brace error, got {:?}", other),
    }
    match parser::parse(&scan("{ 1")) {
        Err(parser::Error::MissingClosingBrackets(t)) => assert_eq!(t.token, Token::EOF),
        other => panic!("expected a closing-brace error, got {:?}", other),
    }
}

#[test]
fn validator_reports_generic_mismatch() {
    match parser::parse(&scan(";")) {
        Err(parser::Error::Generic(t, _)) => assert_eq!(t.token, Token::Semicolon),
        other => panic!("expected a generic error, got {:?}", other),
    }
}

#[test]
fn generic_error_carries_recent_lexemes() {
    match parser::parse(&scan("1+2+;")) {
        Err(parser::Error::Generic(t, context)) => {
            assert_eq!(t.token, Token::Semicolon);
            assert_eq!(context, vec![b"+".to_vec(), b"2".to_vec(), b"+".to_vec()]);
        },
        other => panic!("expected a generic error, got {:?}", other),
    }
}

#[test]
fn while_validates_but_does_not_evaluate() {
    let tokens = scan("while 1 {};");
    parser::parse(&tokens).expect("the validator accepts a while statement");
    let mut env = seeded_env();
    let mut output = Vec::new();
    match eval::parse(&tokens, &mut env, &mut output) {
        Err(eval::Error::Generic(t, _)) => assert_eq!(t.token, Token::While),
        other => panic!("expected a generic error, got {:?}", other),
    }
}

#[test]
fn comparison_validates_but_does_not_evaluate() {
    let tokens = scan("1<2;");
    parser::parse(&tokens).expect("the validator accepts comparison operators");
    let mut env = seeded_env();
    let mut output = Vec::new();
    match eval::parse(&tokens, &mut env, &mut output) {
        Err(eval::Error::MissingSemicolon(t)) => assert_eq!(t.token, Token::LowerThan),
        other => panic!("expected a missing-semicolon error, got {:?}", other),
    }
}

#[test]
fn zero_iteration_for_leaves_cursor_in_body() {
    let tokens = scan("for (i:=5 to 1) begin CONSOLE i; end");
    parser::parse(&tokens).expect("the for statement is well-formed");
    let mut env = seeded_env();
    let mut output = Vec::new();
    let r = eval::parse(&tokens, &mut env, &mut output);
    assert!(matches!(r, Err(eval::Error::MissingSemicolon(_))));
    assert!(output.is_empty());
    assert_eq!(env.get(&b"i".to_vec()), Some(5));
}

#[test]
fn environment_insert_overwrites_and_get_reads() {
    let mut env = Env::new();
    assert_eq!(env.get(&b"a".to_vec()), None);
    env.insert(b"a".to_vec(), 10);
    env.insert(b"b".to_vec(), 20);
    assert_eq!(env.get(&b"a".to_vec()), Some(10));
    env.insert(b"a".to_vec(), 30);
    assert_eq!(env.get(&b"a".to_vec()), Some(30));
    assert_eq!(env.get(&b"b".to_vec()), Some(20));
}

#[test]
fn environment_persists_across_runs() {
    let mut env = seeded_env();
    let (r, _) = run("q:=41;", &mut env);
    assert!(r.is_ok());
    let (r2, output) = run("CONSOLE q+1;", &mut env);
    assert!(r2.is_ok());
    assert_eq!(output, vec![42]);
}
