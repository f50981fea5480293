use lisp_lexer::lexer::classify;
use lisp_lexer::segment::split;
use lisp_lexer::{tokenize, Token, TokenError};

fn symbol(text: &str) -> Token {
    Token::Symbol(text.to_string())
}

fn float(text: &str) -> Token {
    Token::Float(text.to_string())
}

fn chars(text: &str) -> Vec<char> {
    text.chars().collect()
}

fn failure(program: &str) -> TokenError {
    match tokenize(program) {
        Ok(tokens) => panic!("lexed to {:?}", tokens),
        Err(e) => e,
    }
}

fn as_f64(token: &Token) -> f64 {
    match token {
        Token::Float(text) => text.parse::<f64>().unwrap(),
        other => panic!("not a float: {:?}", other),
    }
}

#[test]
fn test_add() {
    let tokens = tokenize("(+ 1 2)").unwrap_or(vec![]);
    assert_eq!(
        tokens,
        vec![
            Token::LParen,
            Token::Plus,
            Token::Integer(1),
            Token::Integer(2),
            Token::RParen,
        ]
    );
}

#[test]
fn test_area_of_a_circle() {
    let tokens =
        tokenize("(begin (define r 10)(define pi 3.14)(* pi (* r r)))").unwrap_or(vec![]);
    assert_eq!(
        tokens,
        vec![
            Token::LParen,
            Token::Begin,
            Token::LParen,
            Token::Define,
            Token::Symbol("r".to_string()),
            Token::Integer(10),
            Token::RParen,
            Token::LParen,
            Token::Define,
            Token::Symbol("pi".to_string()),
            Token::Float("3.14".to_string()),
            Token::RParen,
            Token::LParen,
            Token::Multiply,
            Token::Symbol("pi".to_string()),
            Token::LParen,
            Token::Multiply,
            Token::Symbol("r".to_string()),
            Token::Symbol("r".to_string()),
            Token::RParen,
            Token::RParen,
            Token::RParen
        ]
    );
    assert_eq!(tokens.len(), 22);
    assert_eq!(as_f64(&tokens[10]), 3.14);
}

#[test]
fn one_token_for_each_atom() {
    let tokens = tokenize("define begin + - * / ( ) 12 0.5 x").unwrap();
    assert_eq!(
        tokens,
        vec![
            Token::Define,
            Token::Begin,
            Token::Plus,
            Token::Minus,
            Token::Multiply,
            Token::Divide,
            Token::LParen,
            Token::RParen,
            Token::Integer(12),
            float("0.5"),
            symbol("x"),
        ]
    );
    assert_eq!(tokens.len(), split("define begin + - * / ( ) 12 0.5 x").len());
}

#[test]
fn fixed_tokens_are_written_as_read() {
    assert_eq!(Token::Begin.to_string(), "begin");
    assert_eq!(Token::Define.to_string(), "define");
    assert_eq!(Token::Plus.to_string(), "+");
    assert_eq!(Token::Minus.to_string(), "-");
    assert_eq!(Token::Multiply.to_string(), "*");
    assert_eq!(Token::Divide.to_string(), "/");
    assert_eq!(Token::LParen.to_string(), "(");
    assert_eq!(Token::RParen.to_string(), ")");
}

#[test]
fn literals_and_symbols_are_written() {
    assert_eq!(Token::Integer(0).to_string(), "0");
    assert_eq!(Token::Integer(7).to_string(), "7");
    assert_eq!(Token::Integer(10).to_string(), "10");
    assert_eq!(Token::Integer(1234567890).to_string(), "1234567890");
    assert_eq!(Token::Integer(-42).to_string(), "-42");
    assert_eq!(Token::Integer(i64::MAX).to_string(), "9223372036854775807");
    assert_eq!(Token::Integer(i64::MIN).to_string(), "-9223372036854775808");
    assert_eq!(float("3.14").to_string(), "3.14");
    assert_eq!(symbol("foo-bar").to_string(), "foo-bar");
}

#[test]
fn written_tokens_lex_to_themselves() {
    let program = "(begin (define r 10)(define pi 3.14)(* pi (/ r (- r 007))))";
    for token in tokenize(program).unwrap() {
        assert_eq!(tokenize(&token.to_string()).unwrap(), vec![token]);
    }
}

#[test]
fn spacing_next_to_parentheses_is_immaterial() {
    let tight = tokenize("(+ 1 2)").unwrap();
    assert_eq!(tokenize("( + 1 2 )").unwrap(), tight);
    assert_eq!(tokenize(" ( + 1 2 ) ").unwrap(), tight);
    assert_eq!(tokenize("(\n\t+ 1\r\n 2\n)").unwrap(), tight);
    assert_eq!(
        tokenize("((a)b)").unwrap(),
        vec![
            Token::LParen,
            Token::LParen,
            symbol("a"),
            Token::RParen,
            symbol("b"),
            Token::RParen,
        ]
    );
}

#[test]
fn sign_glued_to_digits_is_a_symbol() {
    assert_eq!(
        tokenize("(+1 2)").unwrap(),
        vec![Token::LParen, symbol("+1"), Token::Integer(2), Token::RParen]
    );
    assert_eq!(tokenize("-5").unwrap(), vec![symbol("-5")]);
}

#[test]
fn numbers_are_told_apart() {
    assert_eq!(tokenize("10").unwrap(), vec![Token::Integer(10)]);
    let tokens = tokenize("3.14").unwrap();
    assert_eq!(tokens, vec![float("3.14")]);
    assert_eq!(as_f64(&tokens[0]), 3.14);
    assert_eq!(tokenize("-").unwrap(), vec![Token::Minus]);
    assert_eq!(tokenize("007").unwrap(), vec![Token::Integer(7)]);
    assert_eq!(tokenize("0").unwrap(), vec![Token::Integer(0)]);
    let tokens = tokenize("3.").unwrap();
    assert_eq!(tokens, vec![float("3.")]);
    assert_eq!(as_f64(&tokens[0]), 3.0);
}

#[test]
fn integers_up_to_the_largest() {
    assert_eq!(
        tokenize("9223372036854775807").unwrap(),
        vec![Token::Integer(i64::MAX)]
    );
    assert_eq!(failure("9223372036854775808").character(), '8');
    assert_eq!(failure("9223372036854775813").character(), '3');
    assert_eq!(failure("92233720368547758070").character(), '0');
    assert_eq!(failure("99999999999999999999").character(), '9');
}

#[test]
fn long_floats_keep_their_text() {
    let text = "99999999999999999999.000000000000000000001";
    let tokens = tokenize(text).unwrap();
    assert_eq!(tokens, vec![float(text)]);
    assert_eq!(as_f64(&tokens[0]), 1e20);
}

#[test]
fn symbols_keep_their_text() {
    assert_eq!(tokenize("r").unwrap(), vec![symbol("r")]);
    assert_eq!(tokenize("pi").unwrap(), vec![symbol("pi")]);
    assert_eq!(tokenize("foo-bar").unwrap(), vec![symbol("foo-bar")]);
    assert_eq!(tokenize("defined").unwrap(), vec![symbol("defined")]);
    assert_eq!(tokenize("Begin").unwrap(), vec![symbol("Begin")]);
    assert_eq!(tokenize("++").unwrap(), vec![symbol("++")]);
    assert_eq!(tokenize(".5").unwrap(), vec![symbol(".5")]);
    assert_eq!(tokenize("x1.2").unwrap(), vec![symbol("x1.2")]);
    assert_eq!(tokenize("\u{3bb}x").unwrap(), vec![symbol("\u{3bb}x")]);
    assert_eq!(tokenize("\u{663}").unwrap(), vec![symbol("\u{663}")]);
}

#[test]
fn blank_text_has_no_tokens() {
    assert_eq!(tokenize("").unwrap(), vec![]);
    assert_eq!(tokenize("   ").unwrap(), vec![]);
    assert_eq!(tokenize(" \t\r\n\u{b}\u{c}").unwrap(), vec![]);
    assert_eq!(tokenize("\u{85}\u{a0}\u{1680}\u{2000}\u{200a}").unwrap(), vec![]);
    assert_eq!(tokenize("\u{2028}\u{2029}\u{202f}\u{205f}\u{3000}").unwrap(), vec![]);
}

#[test]
fn every_white_space_separates() {
    let all: Vec<char> = (0..=0x10ffffu32).filter_map(char::from_u32).collect();
    for c in all {
        let program = format!("a{}b", c);
        let tokens = tokenize(&program).unwrap();
        if c.is_whitespace() {
            assert_eq!(tokens, vec![symbol("a"), symbol("b")]);
        } else if c == '(' {
            assert_eq!(tokens, vec![symbol("a"), Token::LParen, symbol("b")]);
        } else if c == ')' {
            assert_eq!(tokens, vec![symbol("a"), Token::RParen, symbol("b")]);
        } else {
            assert_eq!(tokens, vec![symbol(&program)]);
        }
    }
}

#[test]
fn words_that_begin_as_numbers_must_be_numbers() {
    assert_eq!(failure("3abc").character(), 'a');
    assert_eq!(failure("3x").character(), 'x');
    assert_eq!(failure("12-3").character(), '-');
    assert_eq!(failure("3.4.5").character(), '.');
    assert_eq!(failure("3..").character(), '.');
    assert_eq!(failure("3x.5").character(), 'x');
    assert_eq!(failure("3.5y").character(), 'y');
    assert_eq!(failure("1.5e3").character(), 'e');
    assert_eq!(failure("1e5").character(), 'e');
    assert_eq!(failure("0x10").character(), 'x');
    assert_eq!(failure("1_000").character(), '_');
    assert_eq!(failure("1\u{663}").character(), '\u{663}');
}

#[test]
fn the_first_refused_word_decides() {
    assert_eq!(failure("(+ 3x 4y)").character(), 'x');
    assert_eq!(failure("(+ 4.y 3x)").character(), 'y');
    assert_eq!(failure("(define r 1O)").character(), 'O');
    assert_eq!(failure("1a(2b").character(), 'a');
}

#[test]
fn the_error_in_words() {
    assert_eq!(failure("3abc").message(), "unexpected character: a");
    assert_eq!(failure("2.5.").message(), "unexpected character: .");
}

#[test]
fn segments_of_a_text() {
    assert_eq!(
        split("(+1 2)"),
        vec![chars("("), chars("+1"), chars("2"), chars(")")]
    );
    assert_eq!(split("a  b\n"), vec![chars("a"), chars("b")]);
    assert_eq!(split("3x)y"), vec![chars("3x"), chars(")"), chars("y")]);
    assert_eq!(split(" \n "), Vec::<Vec<char>>::new());
}

#[test]
fn one_word_at_a_time() {
    assert_eq!(classify(&chars("define")), Ok(Token::Define));
    assert_eq!(classify(&chars("begin")), Ok(Token::Begin));
    assert_eq!(classify(&chars("(")), Ok(Token::LParen));
    assert_eq!(classify(&chars(")")), Ok(Token::RParen));
    assert_eq!(classify(&chars("42")), Ok(Token::Integer(42)));
    assert_eq!(classify(&chars("4.25")), Ok(float("4.25")));
    assert_eq!(classify(&chars("pi")), Ok(symbol("pi")));
    assert_eq!(classify(&chars("4.2.5")).unwrap_err().character(), '.');
}
