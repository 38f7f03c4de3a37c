//! Tokens of the source language, and the keyword lookup applied whenever the
//! lexer flushes its pending identifier buffer.

use vstd::prelude::*;

verus! {

/// A token produced by the lexer. The payload of `BlockStart` and
/// `ExprStart` starts out as `0` and is rewritten by bracket resolution to
/// the index of the matching closing token.
#[derive(Debug)]
pub enum Token {
    Let,
    Identifier(String),
    Assignment,
    SizedLiteral(usize),
    Free,
    BlockStart(usize),
    BlockEnd,
    PreprocessorDirective(String),
    Conditional,
    ExprStart(usize),
    ExprEnd,
    Blank,
    Equality,
}

/// The mathematical shape of a token: identifier and directive text as
/// character sequences.
pub ghost enum TokenModel {
    Let,
    Identifier(Seq<char>),
    Assignment,
    SizedLiteral(usize),
    Free,
    BlockStart(usize),
    BlockEnd,
    PreprocessorDirective(Seq<char>),
    Conditional,
    ExprStart(usize),
    ExprEnd,
    Blank,
    Equality,
}

impl View for Token {
    type V = TokenModel;

    open spec fn view(&self) -> TokenModel {
        match self {
            Token::Let => TokenModel::Let,
            Token::Identifier(s) => TokenModel::Identifier(s@),
            Token::Assignment => TokenModel::Assignment,
            Token::SizedLiteral(v) => TokenModel::SizedLiteral(*v),
            Token::Free => TokenModel::Free,
            Token::BlockStart(u) => TokenModel::BlockStart(*u),
            Token::BlockEnd => TokenModel::BlockEnd,
            Token::PreprocessorDirective(s) => TokenModel::PreprocessorDirective(s@),
            Token::Conditional => TokenModel::Conditional,
            Token::ExprStart(u) => TokenModel::ExprStart(*u),
            Token::ExprEnd => TokenModel::ExprEnd,
            Token::Blank => TokenModel::Blank,
            Token::Equality => TokenModel::Equality,
        }
    }
}

/// The view of a whole token sequence.
pub open spec fn tview(ts: Seq<Token>) -> Seq<TokenModel> {
    ts.map_values(|t: Token| t@)
}

/// Viewing a sequence extended by one token extends the view by its view.
pub broadcast proof fn lemma_tview_push(ts: Seq<Token>, t: Token)
    ensures
        #[trigger] tview(ts.push(t)) == tview(ts).push(t@),
{
    assert(tview(ts.push(t)) =~= tview(ts).push(t@));
}

/// Viewing a sequence with one token rewritten rewrites one view.
pub broadcast proof fn lemma_tview_update(ts: Seq<Token>, i: int, t: Token)
    requires
        0 <= i < ts.len(),
    ensures
        #[trigger] tview(ts.update(i, t)) == tview(ts).update(i, t@),
{
    assert(tview(ts.update(i, t)) =~= tview(ts).update(i, t@));
}

/// The keyword lookup applied when an identifier buffer is flushed: keywords
/// become their tokens, the empty buffer becomes the placeholder, a retained
/// single delimiter becomes its bracket token, and anything else is an
/// identifier.
pub open spec fn keyword_token(s: Seq<char>) -> TokenModel {
    if s == seq!['v', 'a', 'r'] {
        TokenModel::Let
    } else if s == seq!['f', 'r', 'e', 'e'] {
        TokenModel::Free
    } else if s == seq!['i', 'f'] {
        TokenModel::Conditional
    } else if s.len() == 0 {
        TokenModel::Blank
    } else if s == seq!['('] {
        TokenModel::ExprStart(0)
    } else if s == seq![')'] {
        TokenModel::ExprEnd
    } else if s == seq!['{'] {
        TokenModel::BlockStart(0)
    } else if s == seq!['}'] {
        TokenModel::BlockEnd
    } else {
        TokenModel::Identifier(s)
    }
}

/// Flushes one identifier buffer through the keyword lookup.
pub fn process_identifier(token: String) -> (t: Token)
    ensures
        t@ == keyword_token(token@),
{
    let s = token.as_str();
    let n = s.unicode_len();
    if n == 3 && s.get_char(0) == 'v' && s.get_char(1) == 'a' && s.get_char(2) == 'r' {
        proof {
            assert(token@ =~= seq!['v', 'a', 'r']);
        }
        Token::Let
    } else if n == 4 && s.get_char(0) == 'f' && s.get_char(1) == 'r' && s.get_char(2) == 'e'
        && s.get_char(3) == 'e' {
        proof {
            assert(token@ =~= seq!['f', 'r', 'e', 'e']);
        }
        Token::Free
    } else if n == 2 && s.get_char(0) == 'i' && s.get_char(1) == 'f' {
        proof {
            assert(token@ =~= seq!['i', 'f']);
        }
        Token::Conditional
    } else if n == 0 {
        Token::Blank
    } else if n == 1 && s.get_char(0) == '(' {
        proof {
            assert(token@ =~= seq!['(']);
        }
        Token::ExprStart(0)
    } else if n == 1 && s.get_char(0) == ')' {
        proof {
            assert(token@ =~= seq![')']);
        }
        Token::ExprEnd
    } else if n == 1 && s.get_char(0) == '{' {
        proof {
            assert(token@ =~= seq!['{']);
        }
        Token::BlockStart(0)
    } else if n == 1 && s.get_char(0) == '}' {
        proof {
            assert(token@ =~= seq!['}']);
        }
        Token::BlockEnd
    } else {
        proof {
            lemma_not_special(token@);
        }
        Token::Identifier(token)
    }
}

/// A buffer that fails every special shape is an identifier.
proof fn lemma_not_special(s: Seq<char>)
    requires
        !(s.len() == 3 && s[0] == 'v' && s[1] == 'a' && s[2] == 'r'),
        !(s.len() == 4 && s[0] == 'f' && s[1] == 'r' && s[2] == 'e' && s[3] == 'e'),
        !(s.len() == 2 && s[0] == 'i' && s[1] == 'f'),
        s.len() != 0,
        !(s.len() == 1 && (s[0] == '(' || s[0] == ')' || s[0] == '{' || s[0] == '}')),
    ensures
        keyword_token(s) == TokenModel::Identifier(s),
{
    assert(s != seq!['v', 'a', 'r']);
    assert(s != seq!['f', 'r', 'e', 'e']);
    assert(s != seq!['i', 'f']);
    assert(s != seq!['(']);
    assert(s != seq![')']);
    assert(s != seq!['{']);
    assert(s != seq!['}']);
}

} // verus!
