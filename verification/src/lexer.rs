//! The lexer: tokens, the error, and the function that turns a source text
//! into tokens.

use vstd::prelude::*;
use crate::chars::char_is_digit;
use crate::grammar::{
    fixed_token,
    is_token,
    lemma_lex_succeeds,
    lemma_tokens_of_fails,
    lex,
    token_of,
    tokens_of,
    TokenView,
};
use crate::numeral::{has_point, integer_to_text, parse_integer, scan_float};
use crate::segment::{segments, split};
use crate::text::string_of;

verus! {

/// A lexical unit of a source text.
///
/// A float carries the text of its literal, digits around one point, exactly
/// as it was written: which binary floating-point number is nearest is for
/// the reader of the token to say.
#[derive(Debug, Clone, PartialEq, Eq)]
pub enum Token {
    Integer(i64),
    Float(String),
    Symbol(String),
    Define,
    Begin,
    Plus,
    Minus,
    Multiply,
    Divide,
    LParen,
    RParen,
}

impl View for Token {
    type V = TokenView;

    open spec fn view(&self) -> TokenView {
        match self {
            Token::Integer(n) => TokenView::Integer(*n),
            Token::Float(s) => TokenView::Float(s@),
            Token::Symbol(s) => TokenView::Symbol(s@),
            Token::Define => TokenView::Define,
            Token::Begin => TokenView::Begin,
            Token::Plus => TokenView::Plus,
            Token::Minus => TokenView::Minus,
            Token::Multiply => TokenView::Multiply,
            Token::Divide => TokenView::Divide,
            Token::LParen => TokenView::LParen,
            Token::RParen => TokenView::RParen,
        }
    }
}

impl DeepView for Token {
    type V = TokenView;

    open spec fn deep_view(&self) -> TokenView {
        self@
    }
}

impl Token {
    /// The text that the token is written as: a keyword, operator or
    /// delimiter as itself, a symbol or float as it was read, an integer in
    /// decimal.
    pub fn to_string(&self) -> (s: String)
        ensures
            s@ == self@.text(),
    {
        match self {
            Token::Integer(n) => integer_to_text(*n),
            Token::Float(w) => w.clone(),
            Token::Symbol(w) => w.clone(),
            Token::Define => {
                proof {
                    reveal_strlit("define");
                }
                let s = "define".to_owned();
                assert(s@ == seq!['d', 'e', 'f', 'i', 'n', 'e']);
                s
            },
            Token::Begin => {
                proof {
                    reveal_strlit("begin");
                }
                let s = "begin".to_owned();
                assert(s@ == seq!['b', 'e', 'g', 'i', 'n']);
                s
            },
            Token::Plus => single('+'),
            Token::Minus => single('-'),
            Token::Multiply => single('*'),
            Token::Divide => single('/'),
            Token::LParen => single('('),
            Token::RParen => single(')'),
        }
    }
}

/// The string of one character.
fn single(c: char) -> (s: String)
    ensures
        s@ == seq![c],
{
    let mut s = String::new();
    s.push(c);
    s
}

/// The failure of the lexer: the character at which a word was refused.
#[derive(Debug, Clone, Copy, PartialEq, Eq)]
pub struct TokenError {
    ch: char,
}

impl View for TokenError {
    type V = char;

    closed spec fn view(&self) -> char {
        self.ch
    }
}

impl TokenError {
    /// The character that was refused.
    pub fn character(&self) -> (c: char)
        ensures
            c == self@,
    {
        self.ch
    }

    /// The error in words: `unexpected character: `, then the character.
    pub fn message(&self) -> (s: String)
        ensures
            s@ == "unexpected character: "@.push(self@),
    {
        let mut s = "unexpected character: ".to_owned();
        s.push(self.ch);
        s
    }
}

/// The keyword, operator or delimiter that the word is, if it is one.
fn fixed(word: &Vec<char>) -> (r: Option<Token>)
    ensures
        match r {
            Some(t) => fixed_token(word@) == Some(t@),
            None => fixed_token(word@) is None,
        },
{
    let n = word.len();
    if n == 1 {
        let c = word[0];
        assert(word@ == seq![c]);
        if c == '(' {
            Some(Token::LParen)
        } else if c == ')' {
            Some(Token::RParen)
        } else if c == '+' {
            Some(Token::Plus)
        } else if c == '-' {
            Some(Token::Minus)
        } else if c == '*' {
            Some(Token::Multiply)
        } else if c == '/' {
            Some(Token::Divide)
        } else {
            assert(seq!['('][0] == '(' && seq![')'][0] == ')');
            assert(seq!['+'][0] == '+' && seq!['-'][0] == '-');
            assert(seq!['*'][0] == '*' && seq!['/'][0] == '/');
            None
        }
    } else if n == 6 && word[0] == 'd' && word[1] == 'e' && word[2] == 'f' && word[3] == 'i'
        && word[4] == 'n' && word[5] == 'e' {
        assert(word@ == seq!['d', 'e', 'f', 'i', 'n', 'e']);
        Some(Token::Define)
    } else if n == 5 && word[0] == 'b' && word[1] == 'e' && word[2] == 'g' && word[3] == 'i'
        && word[4] == 'n' {
        assert(word@ == seq!['b', 'e', 'g', 'i', 'n']);
        Some(Token::Begin)
    } else {
        let ghost define = seq!['d', 'e', 'f', 'i', 'n', 'e'];
        let ghost begin = seq!['b', 'e', 'g', 'i', 'n'];
        assert(word@ == define ==> word@[0] == define[0] && word@[1] == define[1] && word@[2]
            == define[2] && word@[3] == define[3] && word@[4] == define[4] && word@[5]
            == define[5]);
        assert(word@ == begin ==> word@[0] == begin[0] && word@[1] == begin[1] && word@[2]
            == begin[2] && word@[3] == begin[3] && word@[4] == begin[4]);
        None
    }
}

/// Says which token a word is, or at which character it is refused.
pub fn classify(word: &Vec<char>) -> (r: Result<Token, TokenError>)
    ensures
        match r {
            Ok(t) => token_of(word@) == Ok::<TokenView, char>(t@),
            Err(e) => token_of(word@) == Err::<TokenView, char>(e@),
        },
{
    match fixed(word) {
        Some(t) => Ok(t),
        None => {
            if word.len() > 0 && char_is_digit(word[0]) {
                if has_point(word) {
                    match scan_float(word) {
                        Ok(_) => Ok(Token::Float(string_of(word))),
                        Err(k) => Err(TokenError { ch: word[k] }),
                    }
                } else {
                    match parse_integer(word) {
                        Ok(n) => Ok(Token::Integer(n)),
                        Err(k) => Err(TokenError { ch: word[k] }),
                    }
                }
            } else {
                Ok(Token::Symbol(string_of(word)))
            }
        },
    }
}

/// Turns a source text into its tokens, in the order in which they occur, or
/// fails at the first segment that is no token, with the character at which
/// that segment is refused.
///
/// It succeeds exactly on the texts whose segments are all tokens, and then
/// gives one token for each segment.
pub fn tokenize(program: &str) -> (r: Result<Vec<Token>, TokenError>)
    ensures
        match r {
            Ok(tokens) => lex(program@) == Ok::<Seq<TokenView>, char>(tokens.deep_view()),
            Err(e) => lex(program@) == Err::<Seq<TokenView>, char>(e@),
        },
        r is Ok <==> forall|i: int|
            0 <= i < segments(program@).len() ==> is_token(#[trigger] segments(program@)[i]),
        r matches Ok(tokens) ==> tokens@.len() == segments(program@).len(),
{
    proof {
        lemma_lex_succeeds(program@);
    }
    let words = split(program);
    let mut tokens: Vec<Token> = Vec::new();
    let mut i: usize = 0;
    assert(words.deep_view().take(0) == Seq::<Seq<char>>::empty());
    assert(tokens.deep_view() == Seq::<TokenView>::empty());
    while i < words.len()
        invariant
            i <= words@.len(),
            words.deep_view() == segments(program@),
            tokens_of(words.deep_view().take(i as int)) == Ok::<Seq<TokenView>, char>(
                tokens.deep_view(),
            ),
        decreases words@.len() - i,
    {
        let ghost ws = words.deep_view();
        let ghost done = tokens.deep_view();
        assert(ws.take(i + 1).drop_last() == ws.take(i as int));
        assert(ws.take(i + 1).last() == words@[i as int]@);
        match classify(&words[i]) {
            Ok(t) => {
                tokens.push(t);
                assert(tokens.deep_view() == done.push(t@));
            },
            Err(e) => {
                proof {
                    lemma_tokens_of_fails(ws, i as int);
                }
                return Err(e);
            },
        }
        i = i + 1;
    }
    assert(words.deep_view().take(i as int) == words.deep_view());
    Ok(tokens)
}

} // verus!
